//! The grammar of a single segment: which byte strings may stand as the
//! first segment of an identifier, as one in the middle, as its last, and as
//! the name of a fragment.

use vstd::prelude::*;

verus! {

/// The least number of bytes in a segment.
pub const SEGMENT_LEN_MIN: usize = 1;

/// The greatest number of bytes in a segment.
pub const SEGMENT_LEN_MAX: usize = 63;

/// The byte `-`.
pub const HYPHEN: u8 = 0x2d;

/// An ASCII letter.
pub open spec fn is_alpha(c: u8) -> bool {
    (0x41 <= c <= 0x5a) || (0x61 <= c <= 0x7a)
}

/// An ASCII decimal digit.
pub open spec fn is_digit(c: u8) -> bool {
    0x30 <= c <= 0x39
}

/// An ASCII letter or digit.
pub open spec fn is_alnum(c: u8) -> bool {
    is_alpha(c) || is_digit(c)
}

/// A length that a segment may have.
pub open spec fn segment_len_ok(n: nat) -> bool {
    SEGMENT_LEN_MIN <= n <= SEGMENT_LEN_MAX
}

/// A segment in the middle of an identifier: letters, digits and hyphens,
/// with no hyphen at either end.
pub open spec fn is_domain_segment(s: Seq<u8>) -> bool {
    &&& segment_len_ok(s.len())
    &&& is_alnum(s[0])
    &&& is_alnum(s[s.len() - 1])
    &&& forall|i: int| 0 <= i < s.len() ==> is_alnum(#[trigger] s[i]) || s[i] == HYPHEN
}

/// The first segment of an identifier: a domain segment that starts with a
/// letter.
pub open spec fn is_tld(s: Seq<u8>) -> bool {
    is_domain_segment(s) && is_alpha(s[0])
}

/// The last segment of an identifier: letters and digits, starting with a
/// letter.
pub open spec fn is_nsid_name(s: Seq<u8>) -> bool {
    &&& segment_len_ok(s.len())
    &&& is_alpha(s[0])
    &&& forall|i: int| 0 <= i < s.len() ==> is_alnum(#[trigger] s[i])
}

/// The name of a fragment: letters and digits.
pub open spec fn is_fragment_name(s: Seq<u8>) -> bool {
    &&& segment_len_ok(s.len())
    &&& forall|i: int| 0 <= i < s.len() ==> is_alnum(#[trigger] s[i])
}

/// Tells whether `c` is an ASCII letter.
pub fn is_ascii_alpha(c: u8) -> (r: bool)
    ensures
        r == is_alpha(c),
{
    (0x41 <= c && c <= 0x5a) || (0x61 <= c && c <= 0x7a)
}

/// Tells whether `c` is an ASCII letter or digit.
pub fn is_ascii_alnum(c: u8) -> (r: bool)
    ensures
        r == is_alnum(c),
{
    is_ascii_alpha(c) || (0x30 <= c && c <= 0x39)
}

/// Tells whether a segment has an accepted length.
pub fn segment_len_in_range(n: usize) -> (r: bool)
    ensures
        r == segment_len_ok(n as nat),
{
    SEGMENT_LEN_MIN <= n && n <= SEGMENT_LEN_MAX
}

/// Tells whether every byte of `bytes` is an ASCII letter or digit.
pub fn all_alnum(bytes: &[u8]) -> (r: bool)
    ensures
        r == (forall|i: int| 0 <= i < bytes@.len() ==> is_alnum(#[trigger] bytes@[i])),
{
    let mut i: usize = 0;
    while i < bytes.len()
        invariant
            i <= bytes@.len(),
            forall|j: int| 0 <= j < i ==> is_alnum(#[trigger] bytes@[j]),
        decreases bytes@.len() - i,
    {
        if !is_ascii_alnum(bytes[i]) {
            return false;
        }
        i += 1;
    }
    true
}

/// Tells whether `bytes` may stand in the middle of an identifier.
pub fn is_valid_domain_segment(bytes: &[u8]) -> (r: bool)
    ensures
        r == is_domain_segment(bytes@),
{
    let n: usize = bytes.len();
    if !segment_len_in_range(n) {
        return false;
    }
    if !is_ascii_alnum(bytes[0]) || !is_ascii_alnum(bytes[n - 1]) {
        return false;
    }
    let mut i: usize = 0;
    while i < n
        invariant
            n == bytes@.len(),
            i <= n,
            forall|j: int| 0 <= j < i ==> is_alnum(#[trigger] bytes@[j]) || bytes@[j] == HYPHEN,
        decreases n - i,
    {
        let c: u8 = bytes[i];
        if !(is_ascii_alnum(c) || c == HYPHEN) {
            return false;
        }
        i += 1;
    }
    true
}

/// Tells whether `bytes` may stand as the first segment of an identifier.
pub fn is_valid_tld(bytes: &[u8]) -> (r: bool)
    ensures
        r == is_tld(bytes@),
{
    is_valid_domain_segment(bytes) && is_ascii_alpha(bytes[0])
}

/// Tells whether `bytes` may stand as the last segment of an identifier.
pub fn is_valid_nsid_name(bytes: &[u8]) -> (r: bool)
    ensures
        r == is_nsid_name(bytes@),
{
    segment_len_in_range(bytes.len()) && is_ascii_alpha(bytes[0]) && all_alnum(bytes)
}

/// Tells whether `bytes` may stand as the name of a fragment.
pub fn is_valid_fragment_name(bytes: &[u8]) -> (r: bool)
    ensures
        r == is_fragment_name(bytes@),
{
    segment_len_in_range(bytes.len()) && all_alnum(bytes)
}

} // verus!
