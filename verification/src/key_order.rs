//! The order of object keys: strings compare by the 16-bit code units of their
//! UTF-16 encoding, the first unit that differs deciding.
use vstd::prelude::*;
use vstd::relations::total_ordering;
use vstd::string::*;

verus! {

/// The code units of a character: one, or the two surrogates of a character
/// beyond the first 65536.
pub open spec fn char_units(c: char) -> Seq<u16> {
    let n = c as int;
    if n < 0x10000 {
        seq![n as u16]
    } else {
        seq![(0xD800 + (n - 0x10000) / 0x400) as u16, (0xDC00 + (n - 0x10000) % 0x400) as u16]
    }
}

/// The code units of a string.
pub open spec fn code_units(s: Seq<char>) -> Seq<u16>
    decreases s.len(),
{
    if s.len() == 0 {
        Seq::empty()
    } else {
        code_units(s.drop_last()) + char_units(s.last())
    }
}

/// Whether `a` comes before `b` in the dictionary order of code units, or is
/// equal to it.
pub open spec fn units_le(a: Seq<u16>, b: Seq<u16>) -> bool
    decreases a.len(),
{
    if a.len() == 0 {
        true
    } else if b.len() == 0 {
        false
    } else if a[0] != b[0] {
        a[0] < b[0]
    } else {
        units_le(a.drop_first(), b.drop_first())
    }
}

/// Whether key `a` comes before key `b`, or is equal to it.
pub open spec fn key_le(a: Seq<char>, b: Seq<char>) -> bool {
    units_le(code_units(a), code_units(b))
}

/// Whether key `a` comes strictly before key `b`.
pub open spec fn key_lt(a: Seq<char>, b: Seq<char>) -> bool {
    key_le(a, b) && a != b
}

proof fn lemma_units_le_reflexive(a: Seq<u16>)
    ensures
        units_le(a, a),
    decreases a.len(),
{
    if a.len() > 0 {
        lemma_units_le_reflexive(a.drop_first());
    }
}

proof fn lemma_units_le_antisymmetric(a: Seq<u16>, b: Seq<u16>)
    requires
        units_le(a, b),
        units_le(b, a),
    ensures
        a == b,
    decreases a.len(),
{
    if a.len() == 0 || b.len() == 0 {
        assert(a =~= b);
    } else {
        lemma_units_le_antisymmetric(a.drop_first(), b.drop_first());
        assert(a =~= seq![a[0]] + a.drop_first());
        assert(b =~= seq![b[0]] + b.drop_first());
    }
}

proof fn lemma_units_le_transitive(a: Seq<u16>, b: Seq<u16>, c: Seq<u16>)
    requires
        units_le(a, b),
        units_le(b, c),
    ensures
        units_le(a, c),
    decreases a.len(),
{
    if a.len() > 0 && b.len() > 0 && c.len() > 0 && a[0] == b[0] && b[0] == c[0] {
        lemma_units_le_transitive(a.drop_first(), b.drop_first(), c.drop_first());
    }
}

proof fn lemma_units_le_total(a: Seq<u16>, b: Seq<u16>)
    ensures
        units_le(a, b) || units_le(b, a),
    decreases a.len(),
{
    if a.len() > 0 && b.len() > 0 && a[0] == b[0] {
        lemma_units_le_total(a.drop_first(), b.drop_first());
    }
}

/// Where the code units of a character lie. Surrogates stand for no character
/// of their own.
proof fn lemma_char_units(c: char)
    ensures
        ({
            let n = c as int;
            let units = char_units(c);
            if n < 0x10000 {
                &&& units.len() == 1
                &&& units[0] as int == n
                &&& !(0xD800 <= n < 0xE000)
            } else {
                &&& units.len() == 2
                &&& units[0] as int == 0xD800 + (n - 0x10000) / 0x400
                &&& units[1] as int == 0xDC00 + (n - 0x10000) % 0x400
                &&& 0xD800 <= units[0] < 0xDC00 <= units[1] < 0xE000
            }
        }),
{
    let n = c as int;
    assert(0 <= n < 0xD800 || 0xE000 <= n <= 0x10FFFF);
    if n >= 0x10000 {
        assert(0 <= (n - 0x10000) / 0x400 < 0x400);
        assert(0 <= (n - 0x10000) % 0x400 < 0x400);
    }
}

/// Two different keys never have the same code units.
pub proof fn lemma_code_units_injective(a: Seq<char>, b: Seq<char>)
    requires
        code_units(a) == code_units(b),
    ensures
        a == b,
    decreases a.len(),
{
    if a.len() == 0 || b.len() == 0 {
        if a.len() > 0 {
            lemma_char_units(a.last());
        }
        if b.len() > 0 {
            lemma_char_units(b.last());
        }
        assert(a =~= b);
    } else {
        let x = char_units(a.last());
        let y = char_units(b.last());
        let all = code_units(a);
        let n = all.len() as int;
        lemma_char_units(a.last());
        lemma_char_units(b.last());
        assert(all.last() == x.last() && all.last() == y.last());
        assert(x.len() == y.len());
        if x.len() == 2 {
            assert(all[n - 2] == x[0] && all[n - 2] == y[0]);
        }
        assert(a.last() as int == b.last() as int);
        assert(code_units(a.drop_last()) =~= all.take(n - x.len()));
        assert(code_units(b.drop_last()) =~= all.take(n - y.len()));
        lemma_code_units_injective(a.drop_last(), b.drop_last());
        assert(a =~= a.drop_last().push(a.last()));
        assert(b =~= b.drop_last().push(b.last()));
    }
}

/// Keys are totally ordered.
pub proof fn key_order_is_total()
    ensures
        total_ordering(|a: Seq<char>, b: Seq<char>| key_le(a, b)),
{
    let leq = |a: Seq<char>, b: Seq<char>| key_le(a, b);
    assert forall|a: Seq<char>| #[trigger] leq(a, a) by {
        lemma_units_le_reflexive(code_units(a));
    }
    assert forall|a: Seq<char>, b: Seq<char>| #[trigger] leq(a, b) && #[trigger] leq(b, a) implies a
        == b by {
        lemma_units_le_antisymmetric(code_units(a), code_units(b));
        lemma_code_units_injective(a, b);
    }
    assert forall|a: Seq<char>, b: Seq<char>, c: Seq<char>| #[trigger]
        leq(a, b) && #[trigger] leq(b, c) implies leq(a, c) by {
        lemma_units_le_transitive(code_units(a), code_units(b), code_units(c));
    }
    assert forall|a: Seq<char>, b: Seq<char>| #[trigger] leq(a, b) || #[trigger] leq(b, a) by {
        lemma_units_le_total(code_units(a), code_units(b));
    }
}

/// The facts of a strict total order, as the sorting proofs use them.
pub(crate) proof fn lemma_key_lt()
    ensures
        forall|a: Seq<char>, b: Seq<char>, c: Seq<char>|
            #[trigger] key_lt(a, b) && #[trigger] key_lt(b, c) ==> key_lt(a, c),
        forall|a: Seq<char>, b: Seq<char>| #[trigger] key_lt(a, b) ==> !key_lt(b, a),
        forall|a: Seq<char>, b: Seq<char>| a != b ==> #[trigger] key_lt(a, b) || key_lt(b, a),
{
    key_order_is_total();
    let leq = |a: Seq<char>, b: Seq<char>| key_le(a, b);
    assert forall|a: Seq<char>, b: Seq<char>| #[trigger] key_lt(a, b) implies !key_lt(b, a) by {
        if key_lt(b, a) {
            assert(leq(a, b) && leq(b, a));
        }
    }
    assert forall|a: Seq<char>, b: Seq<char>, c: Seq<char>| #[trigger]
        key_lt(a, b) && #[trigger] key_lt(b, c) implies key_lt(a, c) by {
        assert(leq(a, b) && leq(b, c));
        assert(leq(a, c));
        if a == c {
            assert(leq(c, b));
        }
    }
    assert forall|a: Seq<char>, b: Seq<char>| a != b implies #[trigger] key_lt(a, b) || key_lt(
        b,
        a,
    ) by {
        assert(leq(a, b) || leq(b, a));
    }
}

/// Whether the units at `i` are the first that differ, those of `x` being lower.
spec fn lower_at(x: Seq<u16>, y: Seq<u16>, i: int) -> bool {
    &&& 0 <= i < x.len()
    &&& i < y.len()
    &&& (x[i] as int) < (y[i] as int)
    &&& forall|k: int| 0 <= k < i ==> x[k] == y[k]
}

/// Whether the units of `x` are the first of `y`.
spec fn begins(x: Seq<u16>, y: Seq<u16>) -> bool {
    &&& x.len() <= y.len()
    &&& forall|k: int| 0 <= k < x.len() ==> x[k] == y[k]
}

proof fn lemma_units_le(x: Seq<u16>, y: Seq<u16>)
    ensures
        units_le(x, y) <==> begins(x, y) || exists|i: int| lower_at(x, y, i),
    decreases x.len(),
{
    if x.len() > 0 && y.len() > 0 {
        if x[0] == y[0] {
            let xs = x.drop_first();
            let ys = y.drop_first();
            lemma_units_le(xs, ys);
            if begins(xs, ys) {
                assert forall|k: int| 0 <= k < x.len() implies x[k] == y[k] by {
                    if k > 0 {
                        assert(xs[k - 1] == ys[k - 1]);
                    }
                }
            }
            if begins(x, y) {
                assert forall|k: int| 0 <= k < xs.len() implies xs[k] == ys[k] by {
                    assert(x[k + 1] == y[k + 1]);
                }
            }
            if exists|i: int| lower_at(xs, ys, i) {
                let i = choose|i: int| lower_at(xs, ys, i);
                assert forall|k: int| 0 <= k < i + 1 implies x[k] == y[k] by {
                    if k > 0 {
                        assert(xs[k - 1] == ys[k - 1]);
                    }
                }
                assert(lower_at(x, y, i + 1));
            }
            if exists|i: int| lower_at(x, y, i) {
                let i = choose|i: int| lower_at(x, y, i);
                assert forall|k: int| 0 <= k < i - 1 implies xs[k] == ys[k] by {
                    assert(x[k + 1] == y[k + 1]);
                }
                assert(lower_at(xs, ys, i - 1));
            }
        } else {
            if x[0] < y[0] {
                assert(lower_at(x, y, 0));
            }
            if exists|i: int| lower_at(x, y, i) {
                let i = choose|i: int| lower_at(x, y, i);
                assert(i > 0 ==> x[0] == y[0]);
            }
        }
    }
}

/// How keys are ordered: `a` comes before `b` exactly if the code units of `a` are
/// the first of the more units of `b`, or the first unit in which the two differ
/// is a lower number in `a`.
pub proof fn key_order_is_by_code_units(a: Seq<char>, b: Seq<char>)
    ensures
        key_lt(a, b) <==> {
            let x = code_units(a);
            let y = code_units(b);
            ||| x.len() < y.len() && forall|k: int| 0 <= k < x.len() ==> x[k] == y[k]
            ||| exists|i: int|
                0 <= i < x.len() && i < y.len() && (#[trigger] x[i] as int) < (y[i] as int) && forall|
                    k: int,
                |
                    0 <= k < i ==> x[k] == y[k]
        },
{
    let x = code_units(a);
    let y = code_units(b);
    lemma_units_le(x, y);
    if exists|i: int| lower_at(x, y, i) {
        let i = choose|i: int| lower_at(x, y, i);
        assert((x[i] as int) < (y[i] as int));
        assert(a != b);
    } else if begins(x, y) {
        if x.len() == y.len() {
            assert(x =~= y);
            lemma_code_units_injective(a, b);
        }
    }
    if exists|i: int|
        0 <= i < x.len() && i < y.len() && (#[trigger] x[i] as int) < (y[i] as int) && forall|k: int|
            0 <= k < i ==> x[k] == y[k] {
        let i = choose|i: int|
            0 <= i < x.len() && i < y.len() && (#[trigger] x[i] as int) < (y[i] as int) && forall|
                k: int,
            |
                0 <= k < i ==> x[k] == y[k];
        assert(lower_at(x, y, i));
    }
    if x.len() < y.len() && forall|k: int| 0 <= k < x.len() ==> x[k] == y[k] {
        assert(begins(x, y));
    }
}

/// The code units of a string are those of its parts, one after the other.
pub proof fn code_units_concatenate(a: Seq<char>, b: Seq<char>)
    ensures
        code_units(a + b) == code_units(a) + code_units(b),
    decreases b.len(),
{
    if b.len() == 0 {
        assert(a + b =~= a);
        assert(code_units(a) + code_units(b) =~= code_units(a));
    } else {
        code_units_concatenate(a, b.drop_last());
        assert((a + b).drop_last() =~= a + b.drop_last());
        assert((a + b).last() == b.last());
        assert((code_units(a) + code_units(b.drop_last())) + char_units(b.last()) =~= code_units(a)
            + code_units(b));
    }
}

/// The code units of one character: its number, or for a number of more than 16
/// bits a high and a low surrogate that hold it less 65536, ten bits each.
pub proof fn code_units_of_a_character(c: char)
    ensures
        ({
            let n = c as int;
            let units = code_units(seq![c]);
            if n < 0x10000 {
                units.len() == 1 && units[0] as int == n
            } else {
                &&& units.len() == 2
                &&& 0xD800 <= units[0] < 0xDC00
                &&& 0xDC00 <= units[1] < 0xE000
                &&& n == 0x10000 + (units[0] - 0xD800) * 0x400 + (units[1] - 0xDC00)
            }
        }),
{
    lemma_char_units(c);
    reveal_with_fuel(code_units, 2);
    assert(seq![c].drop_last() =~= Seq::<char>::empty());
    assert(code_units(seq![c]) =~= char_units(c));
}

/// The order of keys in terms of their characters. A key comes before every longer
/// key that begins with it. Of two keys that first differ in the characters `c` and
/// `d`, the lower number comes first, but for one case: characters beyond the first
/// 65536 come before those from U+E000 to U+FFFF.
pub proof fn key_order_is_by_characters(
    common: Seq<char>,
    c: char,
    d: char,
    rest: Seq<char>,
    other: Seq<char>,
)
    ensures
        key_lt(common, common + seq![c] + rest),
        !key_lt(common + seq![c] + rest, common),
        !key_lt(common, common),
        c != d ==> (key_lt(common + seq![c] + rest, common + seq![d] + other) <==> {
            let m = c as int;
            let n = d as int;
            if m < 0x10000 && n >= 0x10000 {
                m < 0xD800
            } else if m >= 0x10000 && n < 0x10000 {
                n >= 0xE000
            } else {
                m < n
            }
        }),
{
    let a = common + seq![c] + rest;
    let b = common + seq![d] + other;
    let u = code_units(common);
    let cu = code_units(seq![c]);
    let du = code_units(seq![d]);
    let x = code_units(a);
    let y = code_units(b);
    code_units_concatenate(common + seq![c], rest);
    code_units_concatenate(common, seq![c]);
    code_units_concatenate(common + seq![d], other);
    code_units_concatenate(common, seq![d]);
    code_units_of_a_character(c);
    code_units_of_a_character(d);
    assert(x == u + cu + code_units(rest));
    assert(y == u + du + code_units(other));
    lemma_key_lt();
    key_order_is_by_code_units(common, a);
    assert(u.len() < x.len());
    assert forall|k: int| 0 <= k < u.len() implies u[k] == x[k] by {}
    assert(key_lt(common, a));
    if c != d {
        let n = u.len() as int;
        assert forall|k: int| 0 <= k < n implies x[k] == y[k] by {}
        assert(x[n] == cu[0] && y[n] == du[0]);
        let i = if cu[0] == du[0] { n + 1 } else { n };
        if cu[0] == du[0] {
            assert(cu.len() == 2 && du.len() == 2);
            assert(x[n + 1] == cu[1] && y[n + 1] == du[1]);
        }
        assert(x[i] != y[i]);
        key_order_is_by_code_units(a, b);
        key_order_is_by_code_units(b, a);
        if x[i] < y[i] {
            assert((x[i] as int) < (y[i] as int));
            assert(key_lt(a, b));
        } else {
            assert((y[i] as int) < (x[i] as int));
            assert(key_lt(b, a));
            assert(!key_lt(a, b));
        }
    }
}

/// Encodes a string in UTF-16.
fn encode(s: &str) -> (r: Vec<u16>)
    ensures
        r@ == code_units(s@),
{
    let mut units: Vec<u16> = Vec::new();
    proof {
        assert(s@.take(0) =~= Seq::empty());
    }
    for c in iter: s.chars()
        invariant
            iter.seq() == s@,
            units@ == code_units(s@.take(iter.index() as int)),
    {
        proof {
            let i = iter.index() as int;
            assert(s@.take(i + 1).drop_last() =~= s@.take(i));
            assert(s@.take(i + 1).last() == c);
            lemma_char_units(c);
        }
        let ghost before = units@;
        let n: u32 = c as u32;
        if n < 0x10000 {
            units.push(n as u16);
            assert(units@ =~= before + char_units(c));
        } else {
            let high: u32 = 0xD800 + (n - 0x10000) / 0x400;
            let low: u32 = 0xDC00 + (n - 0x10000) % 0x400;
            units.push(high as u16);
            units.push(low as u16);
            assert(units@ =~= before + char_units(c));
        }
    }
    proof {
        assert(s@.take(s@.len() as int) =~= s@);
    }
    units
}

/// Compares two keys.
pub fn key_before(a: &str, b: &str) -> (r: bool)
    ensures
        r == key_lt(a@, b@),
{
    let x: Vec<u16> = encode(a);
    let y: Vec<u16> = encode(b);
    let mut i: usize = 0;
    proof {
        assert(x@.skip(0) =~= x@);
        assert(y@.skip(0) =~= y@);
    }
    while i < x.len() && i < y.len() && x[i] == y[i]
        invariant
            i <= x@.len(),
            i <= y@.len(),
            x@.take(i as int) == y@.take(i as int),
            units_le(x@, y@) == units_le(x@.skip(i as int), y@.skip(i as int)),
        decreases x@.len() - i,
    {
        proof {
            assert(x@.skip(i as int).drop_first() =~= x@.skip(i + 1));
            assert(y@.skip(i as int).drop_first() =~= y@.skip(i + 1));
            assert(x@.take(i + 1) =~= x@.take(i as int).push(x@[i as int]));
            assert(y@.take(i + 1) =~= y@.take(i as int).push(y@[i as int]));
        }
        i = i + 1;
    }
    proof {
        if x@ == y@ {
            lemma_code_units_injective(a@, b@);
        }
        if i == x@.len() && i == y@.len() {
            assert(x@ =~= x@.take(i as int));
            assert(y@ =~= y@.take(i as int));
        }
    }
    if i == x.len() {
        i < y.len()
    } else {
        i < y.len() && x[i] < y[i]
    }
}

} // verus!
