//! Fingerprints: the BLAKE3 hash of a request's canonical text, in hexadecimal.
use vstd::prelude::*;
use vstd::utf8::valid_utf8;

use crate::canonical::canonicalize;
use crate::json::Json;
use crate::model::{
    canonical, canonical_form_says_the_same, canonical_iff_same_meaning, canonical_is_idempotent,
    canonical_keeps_integers, meaning, well_formed, JsonView,
};
use crate::value::{json_text, readable, to_text};

verus! {

/// The 32 bytes that `blake3::hash` computes.
pub uninterp spec fn blake3_hash(input: Seq<u8>) -> Seq<u8>;

/// `blake3::hash`: the default hash of the input.
#[verifier::external_body]
fn digest(input: &[u8]) -> (r: [u8; 32])
    ensures
        r@ == blake3_hash(input@),
{
    blake3::hash(input).into()
}

/// The character of a hexadecimal digit.
pub open spec fn hex_digit(n: int) -> char {
    if n < 10 {
        (n + '0' as int) as char
    } else {
        (n - 10 + 'a' as int) as char
    }
}

/// Bytes in lowercase hexadecimal, the high digit of each byte first.
pub open spec fn hex(bytes: Seq<u8>) -> Seq<char> {
    Seq::new(
        2 * bytes.len(),
        |i: int|
            hex_digit(
                if i % 2 == 0 {
                    bytes[i / 2] as int / 16
                } else {
                    bytes[i / 2] as int % 16
                },
            ),
    )
}

/// `blake3::Hash::to_hex`: a hash in lowercase hexadecimal.
#[verifier::external_body]
fn to_hex(hash: [u8; 32]) -> (r: String)
    ensures
        r@ == hex(hash@),
{
    blake3::Hash::from_bytes(hash).to_hex().to_string()
}

/// The text of a request that its fingerprint is taken of.
pub open spec fn canonical_text(request: JsonView) -> Seq<u8> {
    json_text(canonical(request))
}

/// The fingerprint of a request.
pub open spec fn fingerprint_of(request: JsonView) -> Seq<char> {
    hex(blake3_hash(canonical_text(request)))
}

/// Whether BLAKE3 gives two different inputs the same hash.
pub open spec fn collide(a: Seq<u8>, b: Seq<u8>) -> bool {
    a != b && blake3_hash(a) == blake3_hash(b)
}

proof fn lemma_hex_digit_injective(m: int, n: int)
    requires
        0 <= m < 16,
        0 <= n < 16,
        hex_digit(m) == hex_digit(n),
    ensures
        m == n,
{
    assert(hex_digit(m) as int == if m < 10 { m + 48 } else { m + 87 });
    assert(hex_digit(n) as int == if n < 10 { n + 48 } else { n + 87 });
}

/// Hexadecimal loses nothing: different bytes are written differently.
pub proof fn hex_is_injective(a: Seq<u8>, b: Seq<u8>)
    requires
        hex(a) == hex(b),
    ensures
        a == b,
{
    assert(hex(a).len() == 2 * a.len());
    assert(hex(b).len() == 2 * b.len());
    assert forall|i: int| 0 <= i < a.len() implies a[i] == b[i] by {
        let high = 2 * i;
        let low = 2 * i + 1;
        assert(high / 2 == i && high % 2 == 0 && low / 2 == i && low % 2 == 1);
        assert(hex(a)[high] == hex_digit(a[i] as int / 16));
        assert(hex(b)[high] == hex_digit(b[i] as int / 16));
        assert(hex(a)[low] == hex_digit(a[i] as int % 16));
        assert(hex(b)[low] == hex_digit(b[i] as int % 16));
        lemma_hex_digit_injective(a[i] as int / 16, b[i] as int / 16);
        lemma_hex_digit_injective(a[i] as int % 16, b[i] as int % 16);
    }
    assert(a =~= b);
}

/// How bytes are written in hexadecimal: two characters for each, of which the
/// first stands for its sixteens and the second for the rest, `0` to `9` for
/// themselves and `a` to `f` for ten to fifteen.
pub proof fn hex_is_by_digits(bytes: Seq<u8>)
    ensures
        hex(bytes).len() == 2 * bytes.len(),
        forall|i: int|
            0 <= i < bytes.len() ==> {
                let high = hex(bytes)[2 * i] as int;
                let low = hex(bytes)[2 * i + 1] as int;
                let sixteens = if high < 97 { high - 48 } else { high - 87 };
                let rest = if low < 97 { low - 48 } else { low - 87 };
                &&& 48 <= high <= 57 || 97 <= high <= 102
                &&& 48 <= low <= 57 || 97 <= low <= 102
                &&& #[trigger] bytes[i] == 16 * sixteens + rest
            },
{
    assert forall|i: int| 0 <= i < bytes.len() implies {
        let high = hex(bytes)[2 * i] as int;
        let low = hex(bytes)[2 * i + 1] as int;
        let sixteens = if high < 97 { high - 48 } else { high - 87 };
        let rest = if low < 97 { low - 48 } else { low - 87 };
        &&& 48 <= high <= 57 || 97 <= high <= 102
        &&& 48 <= low <= 57 || 97 <= low <= 102
        &&& #[trigger] bytes[i] == 16 * sixteens + rest
    } by {
        let h = bytes[i] as int / 16;
        let l = bytes[i] as int % 16;
        assert((2 * i) / 2 == i && (2 * i) % 2 == 0 && (2 * i + 1) / 2 == i && (2 * i + 1) % 2 == 1);
        assert(hex(bytes)[2 * i] == hex_digit(h));
        assert(hex(bytes)[2 * i + 1] == hex_digit(l));
        assert(hex_digit(h) as int == if h < 10 { h + 48 } else { h + 87 });
        assert(hex_digit(l) as int == if l < 10 { l + 48 } else { l + 87 });
    }
}

/// What a fingerprint is: the BLAKE3 hash, in hexadecimal, of the text that
/// `serde_json` writes for the canonical form, and of no other text.
pub proof fn fingerprint_is_of_the_canonical_form(request: JsonView)
    ensures
        canonical_text(request) == json_text(canonical(request)),
        fingerprint_of(request) == hex(blake3_hash(json_text(canonical(request)))),
{
}

/// Two inputs collide exactly if they differ and their hashes do not.
pub proof fn collisions_are_of_the_hash(a: Seq<u8>, b: Seq<u8>)
    ensures
        collide(a, b) <==> a != b && blake3_hash(a) == blake3_hash(b),
{
}

/// Requests that say the same have the same fingerprint, whatever the order in
/// which the keys of their objects are written, and whether an integer among
/// their numbers is written with a point, an exponent or neither.
pub proof fn same_meaning_same_fingerprint(a: JsonView, b: JsonView)
    requires
        well_formed(a),
        well_formed(b),
        meaning(a) == meaning(b),
    ensures
        canonical_text(a) == canonical_text(b),
        fingerprint_of(a) == fingerprint_of(b),
{
    canonical_iff_same_meaning(a, b);
}

/// A request that is read back from its text has a canonical form that is read
/// back from its own, and says the same.
pub proof fn canonical_form_is_readable(request: JsonView)
    requires
        readable(request),
    ensures
        readable(canonical(request)),
        meaning(canonical(request)) == meaning(request),
{
    canonical_is_idempotent(request);
    canonical_form_says_the_same(request);
    canonical_keeps_integers(request, 127);
}

/// The canonical text of a document. It is shared by no document that says
/// something else.
pub fn canonical_bytes(value: &Json) -> (r: Vec<u8>)
    ensures
        well_formed(value@),
        r@ == canonical_text(value@),
        forall|other: JsonView| #[trigger]
            well_formed(other) && canonical_text(other) == r@ ==> meaning(other) == meaning(value@),
        valid_utf8(r@),
{
    let form = canonicalize(value);
    let r = to_text(&form);
    proof {
        assert forall|other: JsonView| #[trigger]
            well_formed(other) && canonical_text(other) == r@ implies meaning(other) == meaning(
            value@,
        ) by {
            canonical_is_idempotent(other);
            canonical_iff_same_meaning(other, value@);
            assert(json_text(canonical(other)) == r@);
        }
    }
    r
}

/// The fingerprint of a document. It is shared by no document that says
/// something else, unless BLAKE3 collides on the two canonical texts.
pub fn fingerprint_value(value: &Json) -> (r: String)
    ensures
        well_formed(value@),
        r@ == fingerprint_of(value@),
        r@.len() == 64,
        forall|other: JsonView| #[trigger]
            well_formed(other) && fingerprint_of(other) == r@ ==> {
                ||| meaning(other) == meaning(value@)
                ||| collide(canonical_text(other), canonical_text(value@))
            },
{
    let bytes = canonical_bytes(value);
    let r = to_hex(digest(bytes.as_slice()));
    proof {
        assert forall|other: JsonView| #[trigger]
            well_formed(other) && fingerprint_of(other) == r@ && !collide(
                canonical_text(other),
                canonical_text(value@),
            ) implies meaning(other) == meaning(value@) by {
            hex_is_injective(
                blake3_hash(canonical_text(other)),
                blake3_hash(canonical_text(value@)),
            );
        }
    }
    r
}

} // verus!
