//! Bytes and text: the facts about UTF-8 that the parsers rest on, and the
//! one conversion from bytes to an owned string.

use vstd::prelude::*;
use vstd::utf8::*;
use crate::split::{first_index_of, lemma_first_index_of, split};

verus! {

/// Every byte of `b` is ASCII.
pub open spec fn all_ascii(b: Seq<u8>) -> bool {
    forall|i: int| 0 <= i < b.len() ==> #[trigger] b[i] < 0x80
}

/// A string of ASCII bytes is well-formed UTF-8.
pub proof fn lemma_ascii_is_utf8(b: Seq<u8>)
    requires
        all_ascii(b),
    ensures
        valid_utf8(b),
{
    assert(b.subrange(0, 0).len() == 0);
    assert(partial_valid_utf8(b, 0));
    assert forall|i: int| 0 <= i < b.len() implies #[trigger] is_leading_byte_width_1(b[i]) by {
        assert(b[i] < 0x80);
    }
    partial_valid_utf8_extend_ascii_block(b, 0, b.len() as int);
    assert(b.subrange(0, b.len() as int) =~= b);
}

/// Every byte of `b` has the property `p`.
pub open spec fn all_bytes(b: Seq<u8>, p: spec_fn(u8) -> bool) -> bool {
    forall|i: int| 0 <= i < b.len() ==> p(#[trigger] b[i])
}

/// Where every byte of every piece of a split has a property, and the
/// separator has it, every byte of the whole text has it.
pub proof fn lemma_split_all_bytes(b: Seq<u8>, sep: u8, p: spec_fn(u8) -> bool)
    requires
        p(sep),
        forall|k: int| 0 <= k < split(b, sep).len() ==> all_bytes(#[trigger] split(b, sep)[k], p),
    ensures
        all_bytes(b, p),
    decreases b.len(),
{
    lemma_first_index_of(b, sep);
    let i = first_index_of(b, sep);
    if 0 <= i < b.len() {
        let head = b.subrange(0, i);
        let tail = b.subrange(i + 1, b.len() as int);
        let pieces = split(b, sep);
        assert(pieces[0] == head);
        assert(all_bytes(pieces[0], p));
        assert forall|k: int| 0 <= k < split(tail, sep).len() implies all_bytes(
            #[trigger] split(tail, sep)[k],
            p,
        ) by {
            assert(split(tail, sep)[k] == pieces[k + 1]);
        }
        lemma_split_all_bytes(tail, sep, p);
        assert forall|j: int| 0 <= j < b.len() implies p(#[trigger] b[j]) by {
            if j < i {
                assert(b[j] == head[j]);
            } else if j > i {
                assert(b[j] == tail[j - i - 1]);
            }
        }
    } else {
        assert(split(b, sep)[0] == b);
    }
}

/// In well-formed UTF-8, an ASCII byte starts a character, and the next
/// character starts right behind it.
pub proof fn lemma_ascii_byte_boundaries(b: Seq<u8>, i: int)
    requires
        valid_utf8(b),
        0 <= i < b.len(),
        b[i] < 0x80,
    ensures
        is_char_boundary(b, i),
        valid_utf8(b.subrange(i, b.len() as int)),
        is_char_boundary(b.subrange(i, b.len() as int), 1),
{
    is_char_boundary_iff_not_is_continuation_byte(b, i);
    valid_utf8_split(b, i);
    let tail = b.subrange(i, b.len() as int);
    assert(tail[0] == b[i]);
    assert(is_leading_byte_width_1(tail[0]));
    assert(length_of_first_scalar(tail) == 1);
    is_char_boundary_start_end_of_seq(pop_first_scalar(tail));
    reveal_with_fuel(is_char_boundary, 2);
    reveal_with_fuel(valid_utf8, 2);
}

/// `String::from_utf8` of std, with the error dropped. std documents that it
/// succeeds exactly on well-formed UTF-8 and that the string then holds the
/// given bytes, unchanged.
#[verifier::external_body]
pub(crate) fn string_from_utf8(bytes: Vec<u8>) -> (r: Option<String>)
    ensures
        r is Some <==> valid_utf8(bytes@),
        r is Some ==> encode_utf8(r->0@) == bytes@,
{
    String::from_utf8(bytes).ok()
}

} // verus!
