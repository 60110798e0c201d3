//! JSON numbers: the decimal texts in which they are written, the integers that
//! such texts stand for, and the one text in which each integer is written.
//!
//! A floating-point number is displayed as the shortest decimal that is nearer to
//! it than to any other, always with a point or an exponent. Such a text stands
//! for the floating-point number of 64 bits nearest to the decimal. An integer is
//! displayed without a point or an exponent, and stands for itself.
use vstd::arithmetic::div_mod::{
    lemma_div_denominator, lemma_div_multiples_vanish, lemma_fundamental_div_mod,
    lemma_mod_multiples_basic,
};
use vstd::arithmetic::power::{lemma_pow0, pow};
use vstd::arithmetic::power2::{
    lemma2_to64, lemma2_to64_rest, lemma_pow2_strictly_increases, lemma_pow2_unfold, pow2,
};
use vstd::prelude::*;
use vstd::string::*;

verus! {

/// `serde_json::Number`: a JSON number, integer or floating point.
#[verifier::external_type_specification]
#[verifier::external_body]
pub struct ExNumber(serde_json::Number);

/// `serde_json::Number::clone`, which derives from the number's parts: the copy
/// is the same number.
pub assume_specification[ <serde_json::Number as Clone>::clone ](
    number: &serde_json::Number,
) -> (r: serde_json::Number)
    ensures
        r == *number,
;

/// The text in which a `serde_json::Number` displays itself.
pub uninterp spec fn number_text(number: serde_json::Number) -> Seq<char>;

/// A decimal text, read: `coefficient` times ten to the power `exponent`, below
/// zero where it is `negative`. A text with a point or an exponent is `floating`.
pub struct Decimal {
    pub floating: bool,
    pub negative: bool,
    pub coefficient: nat,
    pub exponent: int,
}

/// Whether a character is a decimal digit.
pub open spec fn is_digit(c: char) -> bool {
    '0' <= c <= '9'
}

/// The number that decimal digits stand for.
pub open spec fn digits_value(digits: Seq<char>) -> nat
    decreases digits.len(),
{
    if digits.len() == 0 {
        0
    } else {
        10 * digits_value(digits.drop_last()) + (digits.last() as int - '0' as int) as nat
    }
}

/// Where the digits that start at `from` end.
pub open spec fn digits_end(text: Seq<char>, from: int) -> int
    decreases text.len() - from,
{
    if 0 <= from < text.len() && is_digit(text[from]) {
        digits_end(text, from + 1)
    } else {
        from
    }
}

/// Ten to the power `n`.
pub open spec fn pow10(n: nat) -> nat
    decreases n,
{
    if n == 0 {
        1
    } else {
        10 * pow10((n - 1) as nat)
    }
}

/// What a decimal text stands for: an optional minus sign, digits, then
/// optionally a point and digits, then optionally an exponent, which is `e` or
/// `E`, an optional sign and digits. Any other text stands for nothing.
pub open spec fn decimal_of(text: Seq<char>) -> Option<Decimal> {
    let negative = text.len() > 0 && text[0] == '-';
    let whole = if negative { 1int } else { 0int };
    let dot = digits_end(text, whole);
    let pointed = dot < text.len() && text[dot] == '.';
    let fraction = if pointed { dot + 1 } else { dot };
    let mark = if pointed { digits_end(text, fraction) } else { dot };
    let marked = mark < text.len() && (text[mark] == 'e' || text[mark] == 'E');
    let down = marked && mark + 1 < text.len() && text[mark + 1] == '-';
    let up = marked && mark + 1 < text.len() && text[mark + 1] == '+';
    let power = if down || up {
        mark + 2
    } else if marked {
        mark + 1
    } else {
        mark
    };
    let end = if marked { digits_end(text, power) } else { mark };
    if whole < dot && (pointed ==> fraction < mark) && (marked ==> power < end) && end
        == text.len() {
        let shift = digits_value(text.subrange(power, end)) as int;
        Some(
            Decimal {
                floating: pointed || marked,
                negative,
                coefficient: digits_value(
                    text.subrange(whole, dot) + text.subrange(fraction, mark),
                ),
                exponent: (if down { -shift } else { shift }) - (mark - fraction),
            },
        )
    } else {
        None
    }
}

/// `n` with a sign.
pub open spec fn signed(negative: bool, n: nat) -> int {
    if negative {
        -(n as int)
    } else {
        n as int
    }
}

/// The whole number that a decimal equals, its sign left aside, if it equals one.
pub open spec fn whole_of(decimal: Decimal) -> Option<nat> {
    if decimal.exponent >= 0 {
        Some(decimal.coefficient * pow10(decimal.exponent as nat))
    } else {
        let divisor = pow10((-decimal.exponent) as nat);
        if decimal.coefficient % divisor == 0 {
            Some(decimal.coefficient / divisor)
        } else {
            None
        }
    }
}

/// The distance between floating-point numbers of 64 bits at a whole number: they
/// have 53 significant bits.
pub open spec fn spacing(n: nat) -> nat
    decreases n,
{
    if n < 0x20_0000_0000_0000 {
        1
    } else {
        2 * spacing(n / 2)
    }
}

/// The whole floating-point number nearest to a whole number; of two that are as
/// near, the one whose last significant bit is zero.
pub open spec fn nearest_float(n: nat) -> nat {
    let step = spacing(n);
    let below = n / step * step;
    let rest = n - below;
    if 2 * rest < step || (2 * rest == step && n / step % 2 == 0) {
        below
    } else {
        below + step
    }
}

/// The integer that a decimal text stands for, if it stands for one.
pub open spec fn integer_of(decimal: Decimal) -> Option<int> {
    match whole_of(decimal) {
        Some(n) => Some(
            signed(
                decimal.negative,
                if decimal.floating {
                    nearest_float(n)
                } else {
                    n
                },
            ),
        ),
        None => None,
    }
}

/// Whether an integer fits into 64 bits, with a sign or without.
pub open spec fn fits(i: int) -> bool {
    i64::MIN <= i <= u64::MAX
}

/// Whether a text is an integer of 64 bits in decimal.
pub open spec fn is_integer(text: Seq<char>) -> bool {
    exists|i: int| fits(i) && text == #[trigger] decimal(i)
}

/// The integer of 64 bits that a decimal text stands for, if it stands for one.
pub open spec fn integral(text: Seq<char>) -> Option<int> {
    match decimal_of(text) {
        Some(decimal) => match integer_of(decimal) {
            Some(i) => if fits(i) {
                Some(i)
            } else {
                None
            },
            None => None,
        },
        None => None,
    }
}

/// The decimal digits of a number, without leading zeros.
pub open spec fn decimal_digits(n: nat) -> Seq<char>
    decreases n,
{
    let last = ('0' as int + n % 10) as char;
    if n < 10 {
        seq![last]
    } else {
        decimal_digits(n / 10).push(last)
    }
}

/// An integer in decimal: its digits, after a minus sign where it is below zero.
pub open spec fn decimal(i: int) -> Seq<char> {
    if i < 0 {
        seq!['-'] + decimal_digits((-i) as nat)
    } else {
        decimal_digits(i as nat)
    }
}

/// The normal text of a number: a text that stands for an integer of 64 bits is
/// written as that integer, with all of its digits. Any other stays as it is: it
/// is the only text in which a number of its value is displayed.
pub open spec fn normal_text(text: Seq<char>) -> Seq<char> {
    match integral(text) {
        Some(i) => decimal(i),
        None => text,
    }
}

proof fn lemma_pow10_positive(n: nat)
    ensures
        pow10(n) > 0,
    decreases n,
{
    if n > 0 {
        lemma_pow10_positive((n - 1) as nat);
    }
}

proof fn lemma_pow10_sum(a: nat, b: nat)
    ensures
        pow10(a + b) == pow10(a) * pow10(b),
    decreases a,
{
    let q = pow10(b) as int;
    if a == 0 {
        let one = pow10(a) as int;
        assert(one * q == q) by (nonlinear_arith)
            requires
                one == 1,
        ;
    } else {
        let c = (a - 1) as nat;
        let p = pow10(c) as int;
        lemma_pow10_sum(c, b);
        assert(pow10(a + b) == 10 * pow10(c + b));
        assert(10 * (p * q) == (10 * p) * q) by (nonlinear_arith);
    }
}

proof fn lemma_pow10_monotonic(a: nat, b: nat)
    requires
        a <= b,
    ensures
        pow10(a) <= pow10(b),
    decreases b,
{
    if a < b {
        lemma_pow10_monotonic(a, (b - 1) as nat);
    }
}

/// Digits followed by zeros: the value is that of the digits, scaled.
proof fn lemma_trailing_zeros(digits: Seq<char>, n: int)
    requires
        0 <= n <= digits.len(),
        forall|i: int| n <= i < digits.len() ==> digits[i] == '0',
    ensures
        digits_value(digits) == digits_value(digits.take(n)) * pow10((digits.len() - n) as nat),
    decreases digits.len(),
{
    let zeros = (digits.len() - n) as nat;
    if zeros == 0 {
        assert(digits.take(n) =~= digits);
        assert(digits_value(digits) * 1 == digits_value(digits));
    } else {
        let rest = digits.drop_last();
        lemma_trailing_zeros(rest, n);
        assert(rest.take(n) =~= digits.take(n));
        let v = digits_value(digits.take(n)) as int;
        let p = pow10((zeros - 1) as nat) as int;
        assert(10 * (v * p) == v * (10 * p)) by (nonlinear_arith);
    }
}

/// The value of digits is at least that of any of their beginnings.
proof fn lemma_prefix_value(digits: Seq<char>, n: int)
    requires
        0 <= n <= digits.len(),
    ensures
        digits_value(digits.take(n)) <= digits_value(digits),
    decreases digits.len(),
{
    if n == digits.len() {
        assert(digits.take(n) =~= digits);
    } else {
        lemma_prefix_value(digits.drop_last(), n);
        assert(digits.drop_last().take(n) =~= digits.take(n));
    }
}

/// A decimal whose coefficient is `base` times a power of ten, `base` itself not
/// divisible by ten, equals a whole number exactly if no negative power is left.
proof fn lemma_scaled(decimal: Decimal, base: nat, zeros: nat)
    requires
        decimal.coefficient == base * pow10(zeros),
        base % 10 != 0,
    ensures
        decimal.exponent + zeros >= 0 ==> whole_of(decimal) == Some(
            base * pow10((decimal.exponent + zeros) as nat),
        ),
        decimal.exponent + zeros < 0 ==> whole_of(decimal) is None,
{
    let e = decimal.exponent;
    let x = e + zeros;
    let b = base as int;
    let c = decimal.coefficient as int;
    if e >= 0 {
        lemma_pow10_sum(zeros, e as nat);
        let p = pow10(zeros) as int;
        let q = pow10(e as nat) as int;
        assert((b * p) * q == b * (p * q)) by (nonlinear_arith);
    } else {
        let divisor = pow10((-e) as nat) as int;
        lemma_pow10_positive((-e) as nat);
        if x >= 0 {
            lemma_pow10_sum(x as nat, (-e) as nat);
            let p = pow10(x as nat) as int;
            assert(b * (p * divisor) == (b * p) * divisor) by (nonlinear_arith);
            assert(c == divisor * (b * p)) by (nonlinear_arith)
                requires
                    c == (b * p) * divisor,
            ;
            lemma_mod_multiples_basic(b * p, divisor);
            lemma_div_multiples_vanish(b * p, divisor);
        } else {
            let y = (-x) as nat;
            let p = pow10(zeros) as int;
            let r = pow10((y - 1) as nat) as int;
            lemma_pow10_sum(zeros, y);
            lemma_pow10_positive(zeros);
            assert(pow10(y) == 10 * r);
            if c % divisor == 0 {
                let k = c / divisor;
                assert(c == divisor * k) by (nonlinear_arith)
                    requires
                        c % divisor == 0,
                        divisor > 0,
                        k == c / divisor,
                ;
                assert(b == (10 * r) * k) by (nonlinear_arith)
                    requires
                        b * p == c,
                        c == divisor * k,
                        divisor == p * (10 * r),
                        p > 0,
                ;
                assert((10 * r) * k == 10 * (r * k)) by (nonlinear_arith);
            }
        }
    }
}

/// The decimal of coefficient zero equals zero.
proof fn lemma_zero(decimal: Decimal)
    requires
        decimal.coefficient == 0,
    ensures
        whole_of(decimal) == Some(0nat),
{
    if decimal.exponent >= 0 {
        assert(0 * pow10(decimal.exponent as nat) == 0);
    } else {
        let divisor = pow10((-decimal.exponent) as nat) as int;
        lemma_pow10_positive((-decimal.exponent) as nat);
        assert(0int % divisor == 0 && 0int / divisor == 0) by (nonlinear_arith)
            requires
                divisor > 0,
        ;
    }
}

/// How far apart floating-point numbers are: never nothing, and at large numbers
/// a small part of the number.
proof fn lemma_spacing(n: nat)
    ensures
        1 <= spacing(n),
        n >= 0x10_0000_0000_0000 ==> n >= 0x10_0000_0000_0000 * spacing(n),
        spacing(n) <= n + 1,
    decreases n,
{
    if n >= 0x20_0000_0000_0000 {
        lemma_spacing(n / 2);
    }
}

/// A whole number beyond 64 bits is nearest to a floating-point number beyond them.
proof fn lemma_large_stays_large(n: nat)
    requires
        n > u64::MAX,
    ensures
        nearest_float(n) > u64::MAX,
{
    reveal_with_fuel(spacing, 13);
    lemma_spacing(n);
    let far = n / 2 / 2 / 2 / 2 / 2 / 2 / 2 / 2 / 2 / 2 / 2 / 2;
    lemma_spacing(far);
    let step = spacing(n) as int;
    assert(step == 4096 * spacing(far));
    let k = n as int / step;
    assert(k >= 0x10_0000_0000_0000) by (nonlinear_arith)
        requires
            n >= 0x10_0000_0000_0000 * step,
            step >= 1,
            k == n as int / step,
    ;
    assert(k * step >= 0x1_0000_0000_0000_0000) by (nonlinear_arith)
        requires
            k >= 0x10_0000_0000_0000,
            step >= 4096,
    ;
}

/// Rounding to a floating-point number goes to a multiple of the spacing there,
/// by no more than half of it, and leaves whole numbers of up to 53 bits.
pub proof fn nearest_float_is_near(n: nat)
    ensures
        nearest_float(n) % spacing(n) == 0,
        -(spacing(n) as int) <= 2 * (nearest_float(n) - n) <= spacing(n),
        n < 0x20_0000_0000_0000 ==> nearest_float(n) == n,
{
    lemma_spacing(n);
    let step = spacing(n) as int;
    let k = n as int / step;
    lemma_fundamental_div_mod(n as int, step);
    assert(k * step == step * k) by (nonlinear_arith);
    assert((k + 1) * step == k * step + step) by (nonlinear_arith);
    lemma_mod_multiples_basic(k, step);
    lemma_mod_multiples_basic(k + 1, step);
    assert(step == 1 ==> n as int % step == 0);
}

proof fn lemma_all_digits(text: Seq<char>, from: int)
    requires
        0 <= from <= text.len(),
        forall|i: int| from <= i < text.len() ==> is_digit(#[trigger] text[i]),
    ensures
        digits_end(text, from) == text.len(),
    decreases text.len() - from,
{
    if from < text.len() {
        lemma_all_digits(text, from + 1);
    }
}

proof fn lemma_decimal_digits(n: nat)
    ensures
        decimal_digits(n).len() > 0,
        forall|i: int| 0 <= i < decimal_digits(n).len() ==> is_digit(#[trigger] decimal_digits(n)[i]),
        digits_value(decimal_digits(n)) == n,
    decreases n,
{
    let digits = decimal_digits(n);
    let last = ('0' as int + n % 10) as char;
    assert(is_digit(last) && last as int - '0' as int == n % 10);
    reveal_with_fuel(digits_value, 2);
    if n < 10 {
        assert(digits.drop_last() =~= Seq::empty());
    } else {
        lemma_decimal_digits(n / 10);
        assert(digits.drop_last() =~= decimal_digits(n / 10));
    }
}

/// Writing an integer in decimal loses nothing: it reads back as that integer.
pub proof fn decimal_reads_back(i: int)
    ensures
        decimal_of(decimal(i)) == Some(
            Decimal {
                floating: false,
                negative: i < 0,
                coefficient: (if i < 0 {
                    -i
                } else {
                    i
                }) as nat,
                exponent: 0,
            },
        ),
        fits(i) ==> integral(decimal(i)) == Some(i),
{
    let text = decimal(i);
    let n = (if i < 0 { -i } else { i }) as nat;
    let whole = if i < 0 { 1int } else { 0int };
    lemma_decimal_digits(n);
    let digits = decimal_digits(n);
    assert(i >= 0 ==> is_digit(text[0]));
    assert forall|k: int| whole <= k < text.len() implies is_digit(#[trigger] text[k]) by {
        assert(text[k] == digits[k - whole]);
    }
    lemma_all_digits(text, whole);
    let end = text.len() as int;
    assert(text.subrange(whole, end) + text.subrange(end, end) =~= digits);
    assert(text.subrange(end, end) =~= Seq::empty());
    assert(pow10(0) == 1);
    assert(n * pow10(0) == n);
}

/// An integer in decimal is in normal form.
pub proof fn integer_is_normal(text: Seq<char>)
    requires
        is_integer(text),
    ensures
        normal_text(text) == text,
{
    let i = choose|i: int| fits(i) && text == #[trigger] decimal(i);
    decimal_reads_back(i);
}

/// A text and its normal text stand for the same integer of 64 bits, if for any,
/// and normal texts are their own.
pub proof fn normal_text_keeps_value(text: Seq<char>)
    ensures
        integral(normal_text(text)) == integral(text),
        normal_text(normal_text(text)) == normal_text(text),
        decimal_of(text) is Some ==> decimal_of(normal_text(text)) is Some,
{
    if let Some(i) = integral(text) {
        decimal_reads_back(i);
    }
}

/// Two texts that stand for integers of 64 bits have the same normal text exactly
/// if they stand for the same one.
pub proof fn normal_text_iff_same_integer(a: Seq<char>, b: Seq<char>)
    requires
        integral(a) is Some,
        integral(b) is Some,
    ensures
        normal_text(a) == normal_text(b) <==> integral(a) == integral(b),
{
    normal_text_keeps_value(a);
    normal_text_keeps_value(b);
}

/// What digits stand for: no digits for zero, and each further digit for ten times
/// what comes before it and itself.
pub proof fn digits_are_positional(digits: Seq<char>, c: char)
    ensures
        digits_value(Seq::empty()) == 0,
        '0' <= c <= '9' ==> digits_value(digits.push(c)) == 10 * digits_value(digits) + (c as int
            - 48),
{
    assert(digits.push(c).drop_last() =~= digits);
}

/// Powers of ten are products of tens.
pub proof fn powers_are_of_ten(n: nat)
    ensures
        pow10(n) == pow(10, n),
    decreases n,
{
    if n == 0 {
        lemma_pow0(10);
    } else {
        powers_are_of_ten((n - 1) as nat);
        reveal(pow);
    }
}

/// Whether texts are the parts of a decimal text: a minus sign or nothing; one or
/// more digits; a point with one or more digits, or nothing; `e` or `E`, a sign or
/// none, and one or more digits, or nothing.
pub open spec fn are_parts(
    sign: Seq<char>,
    whole: Seq<char>,
    fraction: Seq<char>,
    exponent: Seq<char>,
) -> bool {
    &&& sign.len() == 0 || sign == seq!['-']
    &&& whole.len() > 0
    &&& forall|i: int| 0 <= i < whole.len() ==> '0' <= #[trigger] whole[i] <= '9'
    &&& fraction.len() == 0 || {
        &&& fraction.len() > 1
        &&& fraction[0] == '.'
        &&& forall|i: int| 1 <= i < fraction.len() ==> '0' <= #[trigger] fraction[i] <= '9'
    }
    &&& exponent.len() == 0 || {
        let skip = exponent_start(exponent);
        &&& exponent[0] == 'e' || exponent[0] == 'E'
        &&& skip < exponent.len()
        &&& forall|i: int| skip <= i < exponent.len() ==> '0' <= #[trigger] exponent[i] <= '9'
    }
}

/// Where the digits of an exponent begin.
pub open spec fn exponent_start(exponent: Seq<char>) -> int {
    if exponent.len() > 1 && (exponent[1] == '-' || exponent[1] == '+') {
        2
    } else {
        1
    }
}

proof fn lemma_digit_run(text: Seq<char>, from: int, to: int)
    requires
        0 <= from <= to <= text.len(),
        forall|i: int| from <= i < to ==> is_digit(#[trigger] text[i]),
        to < text.len() ==> !is_digit(text[to]),
    ensures
        digits_end(text, from) == to,
    decreases to - from,
{
    if from < to {
        lemma_digit_run(text, from + 1, to);
    }
}

proof fn lemma_run_is_digits(text: Seq<char>, from: int)
    requires
        0 <= from <= text.len(),
    ensures
        from <= digits_end(text, from) <= text.len(),
        forall|i: int| from <= i < digits_end(text, from) ==> is_digit(#[trigger] text[i]),
    decreases text.len() - from,
{
    if from < text.len() && is_digit(text[from]) {
        lemma_run_is_digits(text, from + 1);
    }
}

/// What a decimal text stands for, by its parts: the digits before and after the
/// point are its coefficient, and the exponent is the written one less the number
/// of digits after the point.
pub proof fn parts_of_decimal_text(
    sign: Seq<char>,
    whole: Seq<char>,
    fraction: Seq<char>,
    exponent: Seq<char>,
)
    requires
        are_parts(sign, whole, fraction, exponent),
    ensures
        decimal_of(sign + whole + fraction + exponent) matches Some(decimal) && {
            let places = if fraction.len() > 0 { fraction.len() - 1 } else { 0 };
            let power = if exponent.len() == 0 {
                0
            } else if exponent[1] == '-' {
                -(digits_value(exponent.skip(2)) as int)
            } else if exponent[1] == '+' {
                digits_value(exponent.skip(2)) as int
            } else {
                digits_value(exponent.skip(1)) as int
            };
            &&& decimal.floating == (fraction.len() > 0 || exponent.len() > 0)
            &&& decimal.negative == (sign.len() > 0)
            &&& decimal.coefficient == if fraction.len() > 0 {
                digits_value(whole + fraction.skip(1))
            } else {
                digits_value(whole)
            }
            &&& decimal.exponent == power - places
        },
{
    let text = sign + whole + fraction + exponent;
    let a = sign.len() as int;
    let dot = a + whole.len();
    let mark = dot + fraction.len();
    let end = text.len() as int;
    assert(end == mark + exponent.len());
    assert forall|i: int| 0 <= i < whole.len() implies text[a + i] == whole[i] by {}
    assert forall|i: int| 0 <= i < fraction.len() implies text[dot + i] == fraction[i] by {}
    assert forall|i: int| 0 <= i < exponent.len() implies text[mark + i] == exponent[i] by {}
    assert(text[a] == whole[0]);
    assert(text[0] == '-' <==> a == 1);
    assert forall|i: int| a <= i < dot implies is_digit(#[trigger] text[i]) by {
        assert(text[i] == whole[i - a]);
    }
    if dot < end {
        assert(text[dot] == if fraction.len() > 0 { fraction[0] } else { exponent[0] });
    }
    lemma_digit_run(text, a, dot);
    assert(text.subrange(a, dot) =~= whole);
    if fraction.len() > 0 {
        assert forall|i: int| dot + 1 <= i < mark implies is_digit(#[trigger] text[i]) by {
            assert(text[i] == fraction[i - dot]);
        }
        if mark < end {
            assert(text[mark] == exponent[0]);
        }
        lemma_digit_run(text, dot + 1, mark);
        assert(text.subrange(dot + 1, mark) =~= fraction.skip(1));
    } else {
        assert(text.subrange(dot, dot) =~= Seq::empty());
        assert(whole + text.subrange(dot, dot) =~= whole);
    }
    if exponent.len() > 0 {
        let start = exponent_start(exponent);
        assert(text[mark] == exponent[0]);
        assert(text[mark + 1] == exponent[1]);
        assert forall|i: int| mark + start <= i < end implies is_digit(#[trigger] text[i]) by {
            assert(text[i] == exponent[i - mark]);
        }
        lemma_digit_run(text, mark + start, end);
        assert(text.subrange(mark + start, end) =~= exponent.skip(start));
    } else {
        assert(text.subrange(mark, mark) =~= Seq::empty());
    }
}

/// A text that stands for a decimal has the parts of a decimal text.
pub proof fn decimal_text_has_parts(text: Seq<char>)
    requires
        decimal_of(text) is Some,
    ensures
        exists|sign: Seq<char>, whole: Seq<char>, fraction: Seq<char>, exponent: Seq<char>| #[trigger]
            are_parts(sign, whole, fraction, exponent) && text == sign + whole + fraction + exponent,
{
    let negative = text.len() > 0 && text[0] == '-';
    let a = if negative { 1int } else { 0int };
    let dot = digits_end(text, a);
    let pointed = dot < text.len() && text[dot] == '.';
    let mark = if pointed { digits_end(text, dot + 1) } else { dot };
    lemma_run_is_digits(text, a);
    if pointed {
        lemma_run_is_digits(text, dot + 1);
    }
    let sign = text.subrange(0, a);
    let whole = text.subrange(a, dot);
    let fraction = text.subrange(dot, mark);
    let exponent = text.subrange(mark, text.len() as int);
    assert(negative ==> sign =~= seq!['-']);
    assert forall|i: int| 0 <= i < whole.len() implies '0' <= #[trigger] whole[i] <= '9' by {
        assert(is_digit(text[a + i]));
    }
    if pointed {
        assert forall|i: int| 1 <= i < fraction.len() implies '0' <= #[trigger] fraction[i]
            <= '9' by {
            assert(is_digit(text[dot + i]));
        }
    }
    if exponent.len() > 0 {
        let start = exponent_start(exponent);
        assert(exponent[0] == text[mark]);
        assert(exponent.len() > 1 ==> exponent[1] == text[mark + 1]);
        assert(digits_end(text, mark + start) == text.len());
        assert(mark + start <= text.len());
        lemma_run_is_digits(text, mark + start);
        assert forall|i: int| start <= i < exponent.len() implies '0' <= #[trigger] exponent[i]
            <= '9' by {
            assert(is_digit(text[mark + i]));
        }
    }
    assert(are_parts(sign, whole, fraction, exponent));
    assert(text =~= sign + whole + fraction + exponent);
}

/// Which integer a decimal text stands for. Where its value, the coefficient times
/// the power of ten, is the whole number `n`, it is `n` with its sign, rounded to
/// the nearest floating-point number for a text with a point or an exponent, if
/// that is an integer of 64 bits. Where its value is no whole number, there is none
/// and the text is its own normal text.
pub proof fn integral_is_the_value(text: Seq<char>, n: nat)
    requires
        decimal_of(text) is Some,
    ensures
        ({
            let decimal = decimal_of(text)->0;
            let c = decimal.coefficient as int;
            let e = decimal.exponent;
            let rounded = if decimal.floating { nearest_float(n) as int } else { n as int };
            let i = if decimal.negative { -rounded } else { rounded };
            &&& (if e >= 0 {
                n == c * pow(10, e as nat)
            } else {
                n * pow(10, (-e) as nat) == c
            }) ==> integral(text) == if -0x8000_0000_0000_0000 <= i <= 0xFFFF_FFFF_FFFF_FFFF {
                Some(i)
            } else {
                None
            }
            &&& e < 0 && c % pow(10, (-e) as nat) != 0 ==> integral(text) is None && normal_text(text)
                == text
        }),
{
    let decimal = decimal_of(text)->0;
    let c = decimal.coefficient as int;
    let e = decimal.exponent;
    if e >= 0 {
        powers_are_of_ten(e as nat);
    } else {
        let p = pow10((-e) as nat) as int;
        powers_are_of_ten((-e) as nat);
        lemma_pow10_positive((-e) as nat);
        if n * p == c {
            assert(n * p == p * n) by (nonlinear_arith);
            lemma_mod_multiples_basic(n as int, p);
            lemma_div_multiples_vanish(n as int, p);
        }
    }
}

/// A text that is no decimal text stands for no integer, and is its own normal text.
pub proof fn only_decimal_texts_stand_for_integers(text: Seq<char>)
    requires
        forall|sign: Seq<char>, whole: Seq<char>, fraction: Seq<char>, exponent: Seq<char>| #[trigger]
            are_parts(sign, whole, fraction, exponent) ==> text != sign + whole + fraction
                + exponent,
    ensures
        integral(text) is None,
        normal_text(text) == text,
{
    if decimal_of(text) is Some {
        decimal_text_has_parts(text);
    }
}

/// Which texts have the same normal text: those that are the same, and those that
/// stand for the same integer of 64 bits.
pub proof fn normal_text_loses_no_value(a: Seq<char>, b: Seq<char>)
    ensures
        normal_text(a) == normal_text(b) <==> a == b || (integral(a) is Some && integral(a)
            == integral(b)),
        integral(a) is None ==> normal_text(a) == a,
{
    normal_text_keeps_value(a);
    normal_text_keeps_value(b);
}

proof fn lemma_spacing_is_power(n: nat, k: nat)
    requires
        pow2(k) <= n < pow2(k + 1),
        n >= 0x20_0000_0000_0000,
    ensures
        k >= 53,
        spacing(n) == pow2((k - 52) as nat),
    decreases n,
{
    lemma_pow2_unfold(k + 1);
    lemma2_to64();
    lemma2_to64_rest();
    if k < 53 {
        if k < 52 {
            lemma_pow2_strictly_increases(k + 1, 53);
        }
        assert(false);
    }
    lemma_pow2_unfold(k);
    lemma_pow2_unfold((k - 52) as nat);
    if n / 2 >= 0x20_0000_0000_0000 {
        lemma_spacing_is_power(n / 2, (k - 1) as nat);
        assert(((k - 1) as nat - 52) as nat == ((k - 52) as nat - 1) as nat);
        assert(spacing(n) == 2 * spacing(n / 2));
    } else {
        if k > 53 {
            lemma_pow2_strictly_increases(53, k);
            assert(pow2(54) <= pow2(k)) by {
                if k > 54 {
                    lemma_pow2_strictly_increases(54, k);
                }
            }
        }
        assert(k == 53);
        assert(spacing(n / 2) == 1);
        assert(spacing(n) == 2 * spacing(n / 2));
        assert(pow2((k - 52) as nat) == 2);
    }
}

/// Rounding to floating-point numbers, by the size of the number. Below 2^53 every
/// whole number is one. From 2^k up to twice that, for a larger `k`, they are the
/// multiples of 2^(k - 52): the result is one, no other is nearer, and of two as
/// near it is the even multiple.
pub proof fn nearest_float_by_size(n: nat, k: nat)
    requires
        pow2(k) <= n < pow2(k + 1),
    ensures
        k < 53 ==> nearest_float(n) == n,
        k >= 53 ==> {
            let step = pow2((k - 52) as nat) as int;
            let distance = nearest_float(n) - n;
            &&& nearest_float(n) as int % step == 0
            &&& -step <= 2 * distance <= step
            &&& 2 * distance == step || 2 * distance == -step ==> nearest_float(n) as int / step % 2
                == 0
        },
{
    nearest_float_is_near(n);
    lemma2_to64();
    lemma2_to64_rest();
    if k < 53 {
        if k < 52 {
            lemma_pow2_strictly_increases(k + 1, 53);
        }
    } else {
        if k > 53 {
            lemma_pow2_strictly_increases(53, k);
        }
        lemma_spacing_is_power(n, k);
        lemma_spacing(n);
        let step = spacing(n) as int;
        let q = n as int / step;
        lemma_fundamental_div_mod(n as int, step);
        assert(q * step == step * q) by (nonlinear_arith);
        assert((q + 1) * step == q * step + step) by (nonlinear_arith);
        assert(step * (q + 1) == (q + 1) * step) by (nonlinear_arith);
        lemma_div_multiples_vanish(q, step);
        lemma_div_multiples_vanish(q + 1, step);
    }
}

/// How an integer is written: a minus sign exactly below zero, then the digits of
/// its size, of which the first is zero only for zero itself.
pub proof fn decimal_is_shortest(i: int)
    ensures
        ({
            let text = decimal(i);
            let first = if i < 0 { 1int } else { 0int };
            &&& i < 0 ==> text[0] == '-'
            &&& text.len() > first
            &&& forall|k: int| first <= k < text.len() ==> '0' <= #[trigger] text[k] <= '9'
            &&& text[first] == '0' ==> i == 0 && text.len() == 1
            &&& digits_value(text.skip(first)) == if i < 0 { -i } else { i }
        }),
{
    let text = decimal(i);
    let first = if i < 0 { 1int } else { 0int };
    let n = (if i < 0 { -i } else { i }) as nat;
    let digits = decimal_digits(n);
    assert(text.skip(first) =~= digits);
    lemma_decimal_digits(n);
    lemma_first_digit(n);
    assert(text[first] == digits[0]);
    assert forall|k: int| first <= k < text.len() implies '0' <= #[trigger] text[k] <= '9' by {
        assert(text[k] == digits[k - first]);
        assert(is_digit(digits[k - first]));
    }
}

proof fn lemma_first_digit(n: nat)
    ensures
        decimal_digits(n).len() > 0,
        decimal_digits(n)[0] == '0' ==> n == 0 && decimal_digits(n).len() == 1,
    decreases n,
{
    if n >= 10 {
        lemma_first_digit(n / 10);
        assert(decimal_digits(n)[0] == decimal_digits(n / 10)[0]);
    } else {
        let c = ('0' as int + n % 10) as char;
        assert(c as int == 48 + n);
    }
}

/// `serde_json::Number::to_string`: an integer in decimal, or a floating-point
/// number as the shortest decimal that stands for it alone, with a point or an
/// exponent. Either way the text is a decimal text.
#[verifier::external_body]
fn display(number: &serde_json::Number) -> (r: String)
    ensures
        r@ == number_text(*number),
        decimal_of(r@) is Some,
{
    number.to_string()
}

/// `serde_json::Number::from_i128`: the number that is an integer of 64 bits,
/// with a sign or without, which displays itself in decimal. There is none for
/// any other integer.
#[verifier::external_body]
fn integer_number(i: i128) -> (r: Option<serde_json::Number>)
    ensures
        match r {
            Some(number) => fits(i as int) && number_text(number) == decimal(i as int),
            None => !fits(i as int),
        },
{
    serde_json::Number::from_i128(i)
}

/// `serde_json::Number::as_i64`: the integer that a number is, if it is an
/// integer of 64 bits with a sign. A floating-point number is none, whatever its
/// value.
#[verifier::external_body]
pub(crate) fn as_i64(number: &serde_json::Number) -> (r: Option<i64>)
    ensures
        match r {
            Some(i) => number_text(*number) == decimal(i as int),
            None => forall|i: i64| number_text(*number) != #[trigger] decimal(i as int),
        },
{
    number.as_i64()
}

/// The characters of a string.
fn characters(text: &str) -> (r: Vec<char>)
    ensures
        r@ == text@,
{
    let mut r: Vec<char> = Vec::new();
    for c in iter: text.chars()
        invariant
            iter.seq() == text@,
            r@ == text@.take(iter.index() as int),
    {
        proof {
            let i = iter.index() as int;
            assert(text@.take(i + 1) =~= text@.take(i).push(c));
        }
        r.push(c);
    }
    proof {
        assert(text@.take(text@.len() as int) =~= text@);
    }
    r
}

/// Finds where the digits that start at `from` end.
fn skip_digits(text: &Vec<char>, from: usize) -> (r: usize)
    requires
        from <= text@.len(),
    ensures
        r == digits_end(text@, from as int),
        from <= r <= text@.len(),
        forall|i: int| from <= i < r ==> is_digit(#[trigger] text@[i]),
{
    let mut i: usize = from;
    while i < text.len() && '0' <= text[i] && text[i] <= '9'
        invariant
            from <= i <= text@.len(),
            digits_end(text@, from as int) == digits_end(text@, i as int),
            forall|j: int| from <= j < i ==> is_digit(#[trigger] text@[j]),
        decreases text@.len() - i,
    {
        i = i + 1;
    }
    i
}

/// The value of digits, if it is no more than `limit`.
fn value_up_to(digits: &Vec<char>, from: usize, to: usize, limit: i128) -> (r: Option<i128>)
    requires
        from <= to <= digits@.len(),
        forall|i: int| from <= i < to ==> is_digit(#[trigger] digits@[i]),
        0 <= limit <= 1_000_000_000_000_000_000_000_000_000_000,
    ensures
        match r {
            Some(n) => n == digits_value(digits@.subrange(from as int, to as int)) && n <= limit,
            None => digits_value(digits@.subrange(from as int, to as int)) > limit,
        },
{
    let ghost all = digits@.subrange(from as int, to as int);
    let mut n: i128 = 0;
    let mut i: usize = from;
    proof {
        assert(all.take(0) =~= Seq::empty());
    }
    while i < to
        invariant
            from <= i <= to <= digits@.len(),
            all == digits@.subrange(from as int, to as int),
            forall|j: int| from <= j < to ==> is_digit(#[trigger] digits@[j]),
            0 <= n <= limit <= 1_000_000_000_000_000_000_000_000_000_000,
            n == digits_value(all.take(i - from)),
        decreases to - i,
    {
        proof {
            let k = i - from;
            assert(all.take(k + 1).drop_last() =~= all.take(k));
            assert(all.take(k + 1).last() == digits@[i as int]);
            lemma_prefix_value(all, k + 1);
        }
        let digit: u32 = digits[i] as u32 - '0' as u32;
        n = 10 * n + digit as i128;
        if n > limit {
            return None;
        }
        i = i + 1;
    }
    proof {
        assert(all.take(to - from) =~= all);
    }
    Some(n)
}

/// `n` times ten to the power `power`, if it is no more than 64 bits hold.
fn scale(n: i128, power: i128) -> (r: Option<i128>)
    requires
        0 <= n <= u64::MAX,
        0 <= power,
    ensures
        match r {
            Some(m) => m == n * pow10(power as nat) && m <= u64::MAX,
            None => n * pow10(power as nat) > u64::MAX,
        },
{
    let mut m: i128 = n;
    let mut left: i128 = power;
    if n == 0 {
        assert(0 * pow10(power as nat) == 0);
        return Some(0);
    }
    while left > 0
        invariant
            1 <= m <= u64::MAX,
            0 <= left,
            m * pow10(left as nat) == n * pow10(power as nat),
        decreases left,
    {
        proof {
            let k = m as int;
            let p = pow10((left - 1) as nat) as int;
            lemma_pow10_positive((left - 1) as nat);
            assert(k * (10 * p) == (10 * k) * p) by (nonlinear_arith);
            assert((10 * k) * p >= 10 * k) by (nonlinear_arith)
                requires
                    p >= 1,
                    k >= 1,
            ;
        }
        m = 10 * m;
        left = left - 1;
        if m > u64::MAX as i128 {
            return None;
        }
    }
    assert(pow10(0) == 1);
    assert(m * pow10(0) == m);
    Some(m)
}

/// Appends part of a text to `out`.
fn append_part(out: &mut Vec<char>, text: &Vec<char>, from: usize, to: usize)
    requires
        from <= to <= text@.len(),
    ensures
        final(out)@ == old(out)@ + text@.subrange(from as int, to as int),
{
    let ghost before = out@;
    let mut i: usize = from;
    proof {
        assert(before + text@.subrange(from as int, from as int) =~= before);
    }
    while i < to
        invariant
            from <= i <= to <= text@.len(),
            out@ == before + text@.subrange(from as int, i as int),
        decreases to - i,
    {
        proof {
            assert(text@.subrange(from as int, i + 1) =~= text@.subrange(
                from as int,
                i as int,
            ).push(text@[i as int]));
        }
        out.push(text[i]);
        i = i + 1;
    }
}

/// Finds where the zeros at the end of digits begin.
fn trailing_zeros(digits: &Vec<char>) -> (r: usize)
    ensures
        r <= digits@.len(),
        r > 0 ==> digits@[r - 1] != '0',
        forall|i: int| r <= i < digits@.len() ==> digits@[i] == '0',
{
    let mut n: usize = digits.len();
    while n > 0 && digits[n - 1] == '0'
        invariant
            n <= digits@.len(),
            forall|i: int| n <= i < digits@.len() ==> digits@[i] == '0',
        decreases n,
    {
        n = n - 1;
    }
    n
}

/// The whole number of 64 bits that a decimal equals, its sign left aside, if it
/// equals one, given the digits of its coefficient and its exponent. For an
/// exponent so far from zero that the decimal equals none unless it is zero, a
/// nearer one will do.
fn whole_from(
    digits: &Vec<char>,
    exponent: i128,
    Ghost(decimal): Ghost<Decimal>,
) -> (r: Option<i128>)
    requires
        forall|i: int| 0 <= i < digits@.len() ==> is_digit(#[trigger] digits@[i]),
        decimal.coefficient == digits_value(digits@),
        -2_000_000_000_000_000_000_000_000_000_000 <= exponent
            <= 2_000_000_000_000_000_000_000_000_000_000,
        exponent == decimal.exponent || (decimal.exponent <= exponent <= -digits@.len()
            - 1) || (20 <= exponent <= decimal.exponent),
    ensures
        match r {
            Some(n) => 0 <= n <= u64::MAX && whole_of(decimal) == Some(n as nat),
            None => whole_of(decimal) matches Some(n) ==> n > u64::MAX,
        },
{
    let n = trailing_zeros(digits);
    let zeros: i128 = (digits.len() - n) as i128;
    proof {
        lemma_trailing_zeros(digits@, n as int);
    }
    if n == 0 {
        proof {
            assert(digits@.take(0) =~= Seq::empty());
            assert(0 * pow10(zeros as nat) == 0);
            lemma_zero(decimal);
        }
        return Some(0);
    }
    let ghost base = digits_value(digits@.take(n as int));
    let ghost power = decimal.exponent + zeros;
    proof {
        let kept = digits@.take(n as int);
        assert(kept.last() == digits@[n - 1]);
        assert(base == 10 * digits_value(kept.drop_last()) + (kept.last() as int - '0' as int));
        lemma_scaled(decimal, base, zeros as nat);
    }
    if exponent + zeros < 0 {
        return None;
    }
    proof {
        assert(digits@.subrange(0, n as int) =~= digits@.take(n as int));
        lemma_pow10_positive(power as nat);
        lemma_pow10_monotonic((exponent + zeros) as nat, power as nat);
        let p = pow10(power as nat) as int;
        let q = pow10((exponent + zeros) as nat) as int;
        let b = base as int;
        assert(b * p >= b * q) by (nonlinear_arith)
            requires
                p >= q,
                b >= 0,
        ;
        assert(b * p >= b) by (nonlinear_arith)
            requires
                p >= 1,
                b >= 0,
        ;
        if exponent >= 20 {
            reveal_with_fuel(pow10, 21);
            lemma_pow10_monotonic(20, (exponent + zeros) as nat);
            assert(b * q >= q) by (nonlinear_arith)
                requires
                    b >= 1,
                    q >= 0,
            ;
        }
    }
    match value_up_to(digits, 0, n, u64::MAX as i128) {
        Some(value) => match scale(value, exponent + zeros) {
            Some(whole) => {
                assert(exponent == decimal.exponent);
                Some(whole)
            },
            None => None,
        },
        None => None,
    }
}

/// The whole floating-point number nearest to a whole number of 64 bits.
fn round(n: i128) -> (r: i128)
    requires
        0 <= n <= u64::MAX,
    ensures
        r == nearest_float(n as nat),
        r <= 0x1_0000_0000_0000_0000_0000,
{
    let mut step: i128 = 1;
    let mut bits: i128 = n;
    while bits >= 0x20_0000_0000_0000
        invariant
            0 <= n <= u64::MAX,
            0 <= bits,
            1 <= step,
            step * bits <= n,
            bits == n / step,
            spacing(n as nat) == step * spacing(bits as nat),
        decreases bits,
    {
        proof {
            let s = step as int;
            let b = bits as int;
            let t = spacing((bits / 2) as nat) as int;
            assert(s * (2 * t) == (2 * s) * t) by (nonlinear_arith);
            lemma_div_denominator(n as int, s, 2);
            assert(s * 2 == 2 * s);
            assert(s <= 0x1000) by (nonlinear_arith)
                requires
                    s * b <= 0xFFFF_FFFF_FFFF_FFFF,
                    b >= 0x20_0000_0000_0000,
                    s >= 1,
            ;
            assert((2 * s) * (b / 2) <= s * b) by (nonlinear_arith)
                requires
                    s >= 1,
                    b >= 0,
            ;
        }
        bits = bits / 2;
        step = 2 * step;
    }
    assert(step * 1 == step);
    proof {
        let s = step as int;
        let b = bits as int;
        assert(b * s == s * b) by (nonlinear_arith);
        lemma_fundamental_div_mod(n as int, s);
        lemma_spacing(n as nat);
        assert(s <= 0x1_0000_0000_0000_0000);
    }
    let below: i128 = bits * step;
    let rest: i128 = n - below;
    if 2 * rest < step || (2 * rest == step && bits % 2 == 0) {
        below
    } else {
        below + step
    }
}

/// Where the parts of a decimal text stand.
struct Layout {
    floating: bool,
    negative: bool,
    /// The digits before the point are `text[whole..dot]`.
    whole: usize,
    dot: usize,
    /// The digits after the point are `text[fraction..mark]`.
    fraction: usize,
    mark: usize,
    /// Whether the exponent is below zero; its digits are `text[power..end]`.
    down: bool,
    power: usize,
    end: usize,
}

/// What the text that is laid out so stands for.
spec fn laid_out(text: Seq<char>, layout: Layout) -> Decimal {
    let shift = digits_value(text.subrange(layout.power as int, layout.end as int)) as int;
    Decimal {
        floating: layout.floating,
        negative: layout.negative,
        coefficient: digits_value(
            text.subrange(layout.whole as int, layout.dot as int) + text.subrange(
                layout.fraction as int,
                layout.mark as int,
            ),
        ),
        exponent: (if layout.down {
            -shift
        } else {
            shift
        }) - (layout.mark - layout.fraction),
    }
}

/// Whether `text[from..to]` consists of digits.
spec fn digits_between(text: Seq<char>, from: usize, to: usize) -> bool {
    &&& from <= to <= text.len()
    &&& forall|i: int| from <= i < to ==> is_digit(#[trigger] text[i])
}

/// Finds the parts of a decimal text; there are none in any other.
fn locate(text: &Vec<char>) -> (r: Option<Layout>)
    ensures
        match r {
            Some(layout) => {
                &&& decimal_of(text@) == Some(laid_out(text@, layout))
                &&& digits_between(text@, layout.whole, layout.dot)
                &&& digits_between(text@, layout.fraction, layout.mark)
                &&& digits_between(text@, layout.power, layout.end)
            },
            None => decimal_of(text@) is None,
        },
{
    let len = text.len();
    let negative = len > 0 && text[0] == '-';
    let whole: usize = if negative { 1 } else { 0 };
    let dot = skip_digits(text, whole);
    let pointed = dot < len && text[dot] == '.';
    let fraction: usize = if pointed { dot + 1 } else { dot };
    let mark = if pointed { skip_digits(text, fraction) } else { dot };
    let marked = mark < len && (text[mark] == 'e' || text[mark] == 'E');
    let down = marked && mark + 1 < len && text[mark + 1] == '-';
    let up = marked && mark + 1 < len && text[mark + 1] == '+';
    let power: usize = if down || up {
        mark + 2
    } else if marked {
        mark + 1
    } else {
        mark
    };
    let end = if marked { skip_digits(text, power) } else { mark };
    if whole == dot || (pointed && fraction == mark) || (marked && power == end) || end < len {
        None
    } else {
        Some(Layout { floating: pointed || marked, negative, whole, dot, fraction, mark, down, power, end })
    }
}

/// The integer of 64 bits that a decimal text stands for, if it stands for one.
pub fn integral_text(text: &str) -> (r: Option<i128>)
    ensures
        match integral(text@) {
            Some(i) => r matches Some(n) && n == i,
            None => r is None,
        },
{
    let chars = characters(text);
    match locate(&chars) {
        Some(layout) => {
            let ghost decimal = laid_out(chars@, layout);
            let mut digits: Vec<char> = Vec::new();
            append_part(&mut digits, &chars, layout.whole, layout.dot);
            append_part(&mut digits, &chars, layout.fraction, layout.mark);
            proof {
                let before = chars@.subrange(layout.whole as int, layout.dot as int);
                let after = chars@.subrange(layout.fraction as int, layout.mark as int);
                assert(digits@ =~= before + after);
                assert forall|i: int| 0 <= i < digits@.len() implies is_digit(
                    #[trigger] digits@[i],
                ) by {
                    if i < before.len() {
                        assert(digits@[i] == chars@[layout.whole + i]);
                    } else {
                        assert(digits@[i] == chars@[layout.fraction + (i - before.len())]);
                    }
                }
            }
            let far: i128 = 1_000_000_000_000_000_000_000_000_000_000;
            let shift: i128 = match value_up_to(&chars, layout.power, layout.end, far) {
                Some(n) => n,
                None => far,
            };
            let places: i128 = (layout.mark - layout.fraction) as i128;
            let exponent: i128 = if layout.down { -shift - places } else { shift - places };
            match whole_from(&digits, exponent, Ghost(decimal)) {
                Some(whole) => {
                    let n: i128 = if layout.floating { round(whole) } else { whole };
                    if layout.negative {
                        if n <= 0x8000_0000_0000_0000 {
                            Some(-n)
                        } else {
                            None
                        }
                    } else if n <= u64::MAX as i128 {
                        Some(n)
                    } else {
                        None
                    }
                },
                None => {
                    proof {
                        if let Some(n) = whole_of(decimal) {
                            lemma_large_stays_large(n);
                        }
                    }
                    None
                },
            }
        },
        None => None,
    }
}

/// A number in normal form: one whose text stands for an integer of 64 bits becomes
/// that integer, so that `1.0` and `1` are the same, and any other stays as it is.
pub fn normalize(number: &serde_json::Number) -> (r: serde_json::Number)
    ensures
        decimal_of(number_text(*number)) is Some,
        number_text(r) == normal_text(number_text(*number)),
{
    let text = display(number);
    match integral_text(text.as_str()) {
        Some(i) => match integer_number(i) {
            Some(integer) => integer,
            None => number.clone(),
        },
        None => number.clone(),
    }
}

} // verus!
