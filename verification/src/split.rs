//! Cutting a byte string at a separator byte.
//!
//! [`split`] is the sequence of pieces met from the front, [`split_back`] the
//! sequence met from the end; [`lemma_split_back_is_reverse`] says that the
//! two walks meet the same pieces in opposite order, and
//! [`lemma_join_split`] that the pieces put together again give the text.

use vstd::prelude::*;

verus! {

/// The index of the first `x` in `b`, or the length of `b` where there is
/// none.
pub open spec fn first_index_of(b: Seq<u8>, x: u8) -> int
    decreases b.len(),
{
    if b.len() == 0 || b[0] == x {
        0
    } else {
        1 + first_index_of(b.drop_first(), x)
    }
}

/// The index of the last `x` in `b`, or -1 where there is none.
pub open spec fn last_index_of(b: Seq<u8>, x: u8) -> int
    decreases b.len(),
{
    if b.len() == 0 {
        -1
    } else if b.last() == x {
        b.len() - 1
    } else {
        last_index_of(b.drop_last(), x)
    }
}

/// The pieces of `b` between the occurrences of `sep`, first to last. There
/// is always at least one piece, and a piece may be empty.
pub open spec fn split(b: Seq<u8>, sep: u8) -> Seq<Seq<u8>>
    decreases b.len(),
{
    let i = first_index_of(b, sep);
    if 0 <= i < b.len() {
        seq![b.subrange(0, i)] + split(b.subrange(i + 1, b.len() as int), sep)
    } else {
        seq![b]
    }
}

/// The pieces of `b` between the occurrences of `sep`, last to first.
pub open spec fn split_back(b: Seq<u8>, sep: u8) -> Seq<Seq<u8>>
    decreases b.len(),
{
    let i = last_index_of(b, sep);
    if 0 <= i < b.len() {
        seq![b.subrange(i + 1, b.len() as int)] + split_back(b.subrange(0, i), sep)
    } else {
        seq![b]
    }
}

/// The pieces put together again, with `sep` between them.
pub open spec fn join(pieces: Seq<Seq<u8>>, sep: u8) -> Seq<u8>
    decreases pieces.len(),
{
    if pieces.len() == 0 {
        Seq::empty()
    } else if pieces.len() == 1 {
        pieces[0]
    } else {
        pieces[0] + seq![sep] + join(pieces.drop_first(), sep)
    }
}

/// What `first_index_of` finds: no `x` stands before it, and one stands at
/// it unless it is the length.
pub proof fn lemma_first_index_of(b: Seq<u8>, x: u8)
    ensures
        0 <= first_index_of(b, x) <= b.len(),
        forall|j: int| 0 <= j < first_index_of(b, x) ==> b[j] != x,
        first_index_of(b, x) < b.len() ==> b[first_index_of(b, x)] == x,
    decreases b.len(),
{
    if b.len() == 0 || b[0] == x {
    } else {
        let t = b.drop_first();
        lemma_first_index_of(t, x);
        assert forall|j: int| 0 <= j < first_index_of(b, x) implies b[j] != x by {
            if j > 0 {
                assert(b[j] == t[j - 1]);
            }
        }
    }
}

/// An index with the two properties of `lemma_first_index_of` is the one
/// that `first_index_of` gives.
pub proof fn lemma_first_index_of_unique(b: Seq<u8>, x: u8, i: int)
    requires
        0 <= i <= b.len(),
        forall|j: int| 0 <= j < i ==> b[j] != x,
        i < b.len() ==> b[i] == x,
    ensures
        first_index_of(b, x) == i,
{
    lemma_first_index_of(b, x);
}

/// What `last_index_of` finds: no `x` stands behind it, and one stands at it
/// unless it is -1.
pub proof fn lemma_last_index_of(b: Seq<u8>, x: u8)
    ensures
        -1 <= last_index_of(b, x) < b.len(),
        forall|j: int| last_index_of(b, x) < j < b.len() ==> b[j] != x,
        0 <= last_index_of(b, x) ==> b[last_index_of(b, x)] == x,
    decreases b.len(),
{
    if b.len() == 0 || b.last() == x {
    } else {
        let t = b.drop_last();
        lemma_last_index_of(t, x);
        assert forall|j: int| last_index_of(b, x) < j < b.len() implies b[j] != x by {
            if j < b.len() - 1 {
                assert(b[j] == t[j]);
            }
        }
    }
}

/// An index with the two properties of `lemma_last_index_of` is the one that
/// `last_index_of` gives.
pub proof fn lemma_last_index_of_unique(b: Seq<u8>, x: u8, i: int)
    requires
        -1 <= i < b.len(),
        forall|j: int| i < j < b.len() ==> b[j] != x,
        0 <= i ==> b[i] == x,
    ensures
        last_index_of(b, x) == i,
{
    lemma_last_index_of(b, x);
}

/// A split has at least one piece.
pub proof fn lemma_split_nonempty(b: Seq<u8>, sep: u8)
    ensures
        split(b, sep).len() >= 1,
    decreases b.len(),
{
    let i = first_index_of(b, sep);
    if 0 <= i < b.len() {
        lemma_split_nonempty(b.subrange(i + 1, b.len() as int), sep);
    }
}

/// The pieces of a split, put together again, are the text: no byte is
/// lost, added or changed by cutting.
pub proof fn lemma_join_split(b: Seq<u8>, sep: u8)
    ensures
        join(split(b, sep), sep) == b,
    decreases b.len(),
{
    lemma_first_index_of(b, sep);
    let i = first_index_of(b, sep);
    if 0 <= i < b.len() {
        let head = b.subrange(0, i);
        let tail = b.subrange(i + 1, b.len() as int);
        let pieces = split(b, sep);
        lemma_split_nonempty(tail, sep);
        lemma_join_split(tail, sep);
        assert(pieces.drop_first() =~= split(tail, sep));
        assert(pieces[0] == head);
        assert(head + seq![sep] + tail =~= b);
    }
}

/// No piece of a split holds the separator.
pub proof fn lemma_split_pieces_hold_no_separator(b: Seq<u8>, sep: u8, k: int, j: int)
    requires
        0 <= k < split(b, sep).len(),
        0 <= j < split(b, sep)[k].len(),
    ensures
        split(b, sep)[k][j] != sep,
    decreases b.len(),
{
    lemma_first_index_of(b, sep);
    let i = first_index_of(b, sep);
    if 0 <= i < b.len() {
        let tail = b.subrange(i + 1, b.len() as int);
        if k > 0 {
            assert(split(b, sep)[k] == split(tail, sep)[k - 1]);
            lemma_split_pieces_hold_no_separator(tail, sep, k - 1, j);
        }
    }
}

/// Where the first separator of `b` stands at `i`, the walk from the end
/// meets the pieces of what follows it and then, last, the piece before it.
proof fn lemma_split_back_first(b: Seq<u8>, sep: u8, i: int)
    requires
        i == first_index_of(b, sep),
        0 <= i < b.len(),
    ensures
        split_back(b, sep) == split_back(b.subrange(i + 1, b.len() as int), sep).push(
            b.subrange(0, i),
        ),
    decreases b.len(),
{
    lemma_first_index_of(b, sep);
    lemma_last_index_of(b, sep);
    let n = b.len() as int;
    let l = last_index_of(b, sep);
    let head = b.subrange(0, i);
    let tail = b.subrange(i + 1, n);
    assert(l >= i);
    if l == i {
        assert forall|j: int| -1 < j < head.len() implies head[j] != sep by {
            assert(head[j] == b[j]);
        }
        lemma_last_index_of_unique(head, sep, -1);
        assert forall|j: int| -1 < j < tail.len() implies tail[j] != sep by {
            assert(tail[j] == b[j + i + 1]);
        }
        lemma_last_index_of_unique(tail, sep, -1);
        assert(split_back(head, sep) == seq![head]);
        assert(split_back(tail, sep) == seq![tail]);
        assert(split_back(b, sep) == seq![tail] + split_back(head, sep));
        assert(split_back(b, sep) =~= seq![tail] + seq![head]);
        assert(split_back(tail, sep).push(head) =~= seq![tail] + seq![head]);
    } else {
        let front = b.subrange(0, l);
        let last = b.subrange(l + 1, n);
        assert forall|j: int| 0 <= j < i implies front[j] != sep by {
            assert(front[j] == b[j]);
        }
        assert(front[i] == b[i]);
        lemma_first_index_of_unique(front, sep, i);
        lemma_split_back_first(front, sep, i);
        assert(front.subrange(0, i) =~= head);
        let middle = front.subrange(i + 1, l);
        assert(tail[l - i - 1] == b[l]);
        assert forall|j: int| l - i - 1 < j < tail.len() implies tail[j] != sep by {
            assert(tail[j] == b[j + i + 1]);
        }
        lemma_last_index_of_unique(tail, sep, l - i - 1);
        assert(tail.subrange(l - i, tail.len() as int) =~= last);
        assert(tail.subrange(0, l - i - 1) =~= middle);
        assert(split_back(tail, sep) == seq![last] + split_back(middle, sep));
        assert(split_back(b, sep) == seq![last] + split_back(front, sep));
        assert(split_back(front, sep) == split_back(middle, sep).push(head));
        assert(split_back(b, sep) =~= split_back(tail, sep).push(head));
    }
}

/// Walking the pieces from the end meets the pieces that the walk from the
/// front meets, each unchanged, in the opposite order.
pub proof fn lemma_split_back_is_reverse(b: Seq<u8>, sep: u8)
    ensures
        split_back(b, sep) == split(b, sep).reverse(),
        split_back(b, sep).reverse() == split(b, sep),
    decreases b.len(),
{
    lemma_first_index_of(b, sep);
    let n = b.len() as int;
    let i = first_index_of(b, sep);
    if 0 <= i < n {
        let head = b.subrange(0, i);
        let tail = b.subrange(i + 1, n);
        lemma_split_back_first(b, sep, i);
        lemma_split_back_is_reverse(tail, sep);
        let front = split(tail, sep);
        assert(split(b, sep) == seq![head] + front);
        assert((seq![head] + front).reverse() =~= front.reverse().push(head));
    } else {
        lemma_last_index_of_unique(b, sep, -1);
        assert(seq![b].reverse() =~= seq![b]);
    }
    assert(split(b, sep).reverse().reverse() =~= split(b, sep));
}

/// The index in `bytes`, at or after `start`, of the first `x`, or the
/// length of `bytes` where none follows.
pub fn find_byte(bytes: &[u8], start: usize, x: u8) -> (i: usize)
    requires
        start <= bytes@.len(),
    ensures
        i == start + first_index_of(bytes@.subrange(start as int, bytes@.len() as int), x),
        start <= i <= bytes@.len(),
        i < bytes@.len() ==> bytes@[i as int] == x,
        forall|j: int| start <= j < i ==> bytes@[j] != x,
{
    let mut i: usize = start;
    while i < bytes.len() && bytes[i] != x
        invariant
            start <= i <= bytes@.len(),
            forall|j: int| start <= j < i ==> bytes@[j] != x,
        decreases bytes@.len() - i,
    {
        i += 1;
    }
    proof {
        let rest = bytes@.subrange(start as int, bytes@.len() as int);
        assert forall|j: int| 0 <= j < i - start implies rest[j] != x by {
            assert(rest[j] == bytes@[start + j]);
        }
        lemma_first_index_of_unique(rest, x, i - start);
    }
    i
}

/// The index in `bytes` of the last `x`, or `None` where there is none.
pub fn find_last_byte(bytes: &[u8], x: u8) -> (r: Option<usize>)
    ensures
        match r {
            Some(i) => i == last_index_of(bytes@, x) && i < bytes@.len() && bytes@[i as int] == x,
            None => last_index_of(bytes@, x) == -1,
        },
{
    let mut i: usize = bytes.len();
    while i > 0
        invariant
            i <= bytes@.len(),
            forall|j: int| i <= j < bytes@.len() ==> bytes@[j] != x,
        decreases i,
    {
        i -= 1;
        if bytes[i] == x {
            proof {
                lemma_last_index_of_unique(bytes@, x, i as int);
            }
            return Some(i);
        }
    }
    proof {
        lemma_last_index_of_unique(bytes@, x, -1);
    }
    None
}

} // verus!
