//! ASCII text helpers: the protocol layer works on bytes, the routing
//! layer on strings, and these functions carry values across.

use vstd::prelude::*;
use vstd::string::*;

verus! {

broadcast use vstd::utf8::char_u32_cast;

/// Every character is ASCII.
pub open spec fn ascii_chars(s: Seq<char>) -> bool {
    forall|i: int| 0 <= i < s.len() ==> ((#[trigger] s[i]) as u32) < 128
}

/// Every byte is ASCII.
pub open spec fn ascii_bytes(s: Seq<u8>) -> bool {
    forall|i: int| 0 <= i < s.len() ==> (#[trigger] s[i]) < 128
}

/// ASCII bytes read as characters.
pub open spec fn chars_of_bytes(s: Seq<u8>) -> Seq<char> {
    Seq::new(s.len(), |i: int| s[i] as char)
}

/// ASCII characters written as bytes.
pub open spec fn bytes_of_chars(s: Seq<char>) -> Seq<u8> {
    Seq::new(s.len(), |i: int| s[i] as u8)
}

/// An upper-case ASCII letter folded to lower case; anything else kept.
pub open spec fn lower_byte(b: u8) -> u8 {
    if 65 <= b <= 90 {
        (b + 32) as u8
    } else {
        b
    }
}

/// ASCII bytes folded to lower case.
pub open spec fn lower_bytes(s: Seq<u8>) -> Seq<u8> {
    Seq::new(s.len(), |i: int| lower_byte(s[i]))
}

/// ASCII characters folded to lower case.
pub open spec fn lower_ascii(s: Seq<char>) -> Seq<char> {
    chars_of_bytes(lower_bytes(bytes_of_chars(s)))
}

/// For an ASCII character, the byte cast is exact and reversible.
pub proof fn lemma_ascii_cast_round(c: char)
    requires
        (c as u32) < 128,
    ensures
        (c as u8) as u32 == c as u32,
        ((c as u8) as char) == c,
        (c as u8) < 128,
{
}

/// For an ASCII byte, the character cast is exact and reversible.
pub proof fn lemma_ascii_byte_round(b: u8)
    requires
        b < 128,
    ensures
        ((b as char) as u32) == b as u32,
        ((b as char) as u8) == b,
{
}

/// Lower-casing character by character agrees with lower-casing the
/// bytes, and keeps the text ASCII.
pub proof fn lemma_lower_ascii_pointwise(s: Seq<char>)
    requires
        ascii_chars(s),
    ensures
        lower_ascii(s).len() == s.len(),
        ascii_chars(lower_ascii(s)),
        forall|i: int|
            0 <= i < s.len() ==> (#[trigger] lower_ascii(s)[i]) == (lower_byte(s[i] as u8) as char),
        bytes_of_chars(lower_ascii(s)) == lower_bytes(bytes_of_chars(s)),
{
    assert forall|i: int| 0 <= i < s.len() implies ((#[trigger] lower_ascii(s)[i]) == (lower_byte(
        s[i] as u8,
    ) as char) && (lower_ascii(s)[i] as u32) < 128 && bytes_of_chars(lower_ascii(s))[i]
        == lower_bytes(bytes_of_chars(s))[i]) by {
        lemma_ascii_cast_round(s[i]);
        lemma_ascii_byte_round(lower_byte(s[i] as u8));
    }
    assert(bytes_of_chars(lower_ascii(s)) =~= lower_bytes(bytes_of_chars(s)));
}

/// Writing ASCII characters as bytes and reading them back is exact.
pub proof fn lemma_chars_bytes_round(s: Seq<char>)
    requires
        ascii_chars(s),
    ensures
        chars_of_bytes(bytes_of_chars(s)) == s,
{
    assert forall|i: int| 0 <= i < s.len() implies #[trigger] chars_of_bytes(bytes_of_chars(s))[i]
        == s[i] by {
        lemma_ascii_cast_round(s[i]);
    }
    assert(chars_of_bytes(bytes_of_chars(s)) =~= s);
}

/// The bytes of an ASCII string.
pub fn ascii_bytes_of_str(s: &str) -> (r: Vec<u8>)
    requires
        ascii_chars(s@),
    ensures
        r@ == bytes_of_chars(s@),
{
    let n: usize = s.unicode_len();
    let mut r: Vec<u8> = Vec::new();
    let mut i: usize = 0;
    while i < n
        invariant
            i <= n,
            n == s@.len(),
            ascii_chars(s@),
            r@ == bytes_of_chars(s@).subrange(0, i as int),
        decreases n - i,
    {
        let c = s.get_char(i);
        proof {
            lemma_ascii_cast_round(s@[i as int]);
        }
        r.push(c as u8);
        proof {
            assert(r@ =~= bytes_of_chars(s@).subrange(0, i + 1));
        }
        i = i + 1;
    }
    proof {
        assert(r@ =~= bytes_of_chars(s@));
    }
    r
}

/// Relies on String::from_utf8_lossy: ASCII bytes decode to exactly those
/// characters, one per byte.
#[verifier::external_body]
pub(crate) fn string_from_ascii(v: &Vec<u8>) -> (r: String)
    requires
        ascii_bytes(v@),
    ensures
        r@ == chars_of_bytes(v@),
{
    String::from_utf8_lossy(v).into_owned()
}

/// Folds ASCII bytes to lower case.
pub fn lower_bytes_of(v: &Vec<u8>) -> (r: Vec<u8>)
    ensures
        r@ == lower_bytes(v@),
{
    let mut r: Vec<u8> = Vec::new();
    let mut i: usize = 0;
    while i < v.len()
        invariant
            i <= v@.len(),
            r@ == lower_bytes(v@).subrange(0, i as int),
        decreases v@.len() - i,
    {
        let b = v[i];
        if 65 <= b && b <= 90 {
            r.push(b + 32);
        } else {
            r.push(b);
        }
        proof {
            assert(r@ =~= lower_bytes(v@).subrange(0, i + 1));
        }
        i = i + 1;
    }
    proof {
        assert(r@ =~= lower_bytes(v@));
    }
    r
}

/// Compares a byte slice with a byte vector.
pub fn bytes_eq(a: &[u8], b: &Vec<u8>) -> (r: bool)
    ensures
        r == (a@ == b@),
{
    if a.len() != b.len() {
        proof {
            assert(a@.len() != b@.len());
        }
        return false;
    }
    let n = a.len();
    let mut i: usize = 0;
    while i < n
        invariant
            i <= n,
            n == a@.len() == b@.len(),
            forall|j: int| 0 <= j < i ==> a@[j] == b@[j],
        decreases n - i,
    {
        if a[i] != b[i] {
            return false;
        }
        i = i + 1;
    }
    proof {
        assert(a@ =~= b@);
    }
    true
}

} // verus!
