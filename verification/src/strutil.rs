//! Small byte- and string-level helpers shared across the crate:
//! searching a byte slice, prefix tests, decimal rendering, and the
//! few trusted bridges to `std`'s UTF-8 string conversions.

use vstd::prelude::*;
use vstd::utf8::{valid_utf8, decode_utf8};

verus! {

/// Index of the first occurrence of `b` in `s`, if any.
pub open spec fn spec_find_byte(s: Seq<u8>, b: u8) -> Option<int>
    decreases s.len(),
{
    if s.len() == 0 {
        None
    } else if s[0] == b {
        Some(0)
    } else {
        match spec_find_byte(s.skip(1), b) {
            Some(i) => Some(i + 1),
            None => None,
        }
    }
}

/// What `spec_find_byte` returns, characterised without recursion.
pub proof fn lemma_find_byte(s: Seq<u8>, b: u8)
    ensures
        match spec_find_byte(s, b) {
            Some(i) => 0 <= i < s.len() && s[i] == b && forall|j: int| 0 <= j < i ==> s[j] != b,
            None => forall|j: int| 0 <= j < s.len() ==> s[j] != b,
        },
    decreases s.len(),
{
    if s.len() > 0 && s[0] != b {
        lemma_find_byte(s.skip(1), b);
        match spec_find_byte(s.skip(1), b) {
            Some(i) => {
                assert(s[i + 1] == s.skip(1)[i]);
                assert forall|j: int| 0 <= j < i + 1 implies s[j] != b by {
                    if j > 0 {
                        assert(s[j] == s.skip(1)[j - 1]);
                    }
                }
            },
            None => {
                assert forall|j: int| 0 <= j < s.len() implies s[j] != b by {
                    if j > 0 {
                        assert(s[j] == s.skip(1)[j - 1]);
                    }
                }
            },
        }
    }
}

/// First occurrence of `b` in `s`.
pub fn find_byte(s: &[u8], b: u8) -> (r: Option<usize>)
    ensures
        match r {
            Some(i) => spec_find_byte(s@, b) == Some(i as int),
            None => spec_find_byte(s@, b) is None,
        },
{
    let mut i: usize = 0;
    while i < s.len()
        invariant
            0 <= i <= s@.len(),
            forall|j: int| 0 <= j < i ==> s@[j] != b,
        decreases s@.len() - i,
    {
        if s[i] == b {
            proof {
                lemma_find_byte(s@, b);
                let r = spec_find_byte(s@, b);
                if r is None {
                    assert(s@[i as int] != b);
                } else {
                    let k = r->Some_0;
                    if k < i {
                        assert(s@[k] != b);
                    } else if k > i {
                        assert(s@[i as int] != b);
                    }
                }
            }
            return Some(i);
        }
        i = i + 1;
    }
    proof {
        lemma_find_byte(s@, b);
        let r = spec_find_byte(s@, b);
        if r is Some {
            assert(s@[r->Some_0] != b);
        }
    }
    None
}

/// True when `pre` is a prefix of `s`.
pub open spec fn spec_starts_with(s: Seq<u8>, pre: Seq<u8>) -> bool {
    pre.len() <= s.len() && s.take(pre.len() as int) == pre
}

/// Prefix test on byte slices.
pub fn starts_with_bytes(s: &[u8], pre: &[u8]) -> (r: bool)
    ensures
        r == spec_starts_with(s@, pre@),
{
    if pre.len() > s.len() {
        assert(!spec_starts_with(s@, pre@));
        return false;
    }
    let mut i: usize = 0;
    while i < pre.len()
        invariant
            0 <= i <= pre@.len() <= s@.len(),
            forall|j: int| 0 <= j < i ==> s@[j] == pre@[j],
        decreases pre@.len() - i,
    {
        if s[i] != pre[i] {
            assert(s@.take(pre@.len() as int)[i as int] != pre@[i as int]);
            return false;
        }
        i = i + 1;
    }
    assert(s@.take(pre@.len() as int) =~= pre@);
    true
}

/// Relies on `str`'s `==`: character-for-character equality.
#[verifier::external_body]
pub fn str_eq(a: &str, b: &str) -> (r: bool)
    ensures
        r == (a@ == b@),
{
    a == b
}

/// Relies on `String::push`: appends the character to the end of the string.
#[verifier::external_body]
pub fn push_char(s: &mut String, c: char)
    ensures
        final(s)@ == old(s)@.push(c),
{
    s.push(c);
}

/// Relies on `String::from_utf8`: returns the decoded string exactly when
/// the bytes are valid UTF-8, and fails otherwise.
#[verifier::external_body]
pub fn string_from_utf8(v: Vec<u8>) -> (r: Option<String>)
    ensures
        r is Some <==> valid_utf8(v@),
        r matches Some(s) ==> s@ == decode_utf8(v@),
{
    String::from_utf8(v).ok()
}

/// The characters that `String::from_utf8_lossy` yields for a byte
/// sequence: each invalid sequence replaced, everything else decoded.
pub uninterp spec fn lossy_decode(bytes: Seq<u8>) -> Seq<char>;

/// Relies on `String::from_utf8_lossy`: decodes the bytes, replacing
/// invalid sequences; valid UTF-8 input comes back unchanged.
#[verifier::external_body]
pub fn string_from_utf8_lossy(v: &Vec<u8>) -> (r: String)
    ensures
        r@ == lossy_decode(v@),
        valid_utf8(v@) ==> r@ == decode_utf8(v@),
{
    String::from_utf8_lossy(v).to_string()
}

} // verus!
