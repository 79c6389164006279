//! Identifiers, fragments and references.
//!
//! An identifier is three or more dot-separated segments, such as
//! `com.example.fooBar`. A fragment is a `#` and a name, such as `#main`. A
//! full reference is an identifier with an optional fragment behind it, and
//! a reference is either a full reference or a fragment alone.
//!
//! Each type owns its text and is only ever made from text that was
//! validated, so a value is always well-formed: `as_str` hands the text out
//! together with that fact.

use vstd::prelude::*;
use vstd::slice::*;
use vstd::string::*;
use vstd::utf8::*;
use crate::error::ParseError;
use crate::segment::{
    is_alnum, is_domain_segment, is_fragment_name, is_nsid_name, is_tld,
    is_valid_domain_segment, is_valid_fragment_name, is_valid_nsid_name, is_valid_tld, HYPHEN,
    SEGMENT_LEN_MAX,
};
use crate::split::{
    find_byte, find_last_byte, first_index_of, lemma_first_index_of_unique,
    lemma_first_index_of, lemma_split_back_is_reverse, lemma_split_nonempty, split, split_back,
};
use crate::text::{
    all_ascii, all_bytes, lemma_ascii_byte_boundaries, lemma_ascii_is_utf8,
    lemma_split_all_bytes, string_from_utf8,
};

verus! {

/// The greatest number of bytes in an identifier.
pub const MAX_LEN: usize = 317;

/// The bound on the authority: the bytes before the last dot are fewer than
/// this.
pub const MAX_AUTHORITY_LEN: usize = 253;

/// The least number of segments in an identifier.
pub const MIN_SEGMENTS: usize = 3;

/// The byte `.`, which separates the segments.
pub const DOT: u8 = 0x2e;

/// The byte `#`, which starts a fragment.
pub const HASH: u8 = 0x23;

/// The number of bytes of `b` before its last dot: the length of all
/// segments but the last, with the dots between them.
pub open spec fn authority_len(b: Seq<u8>) -> int {
    b.len() - split(b, DOT).last().len() - 1
}

/// The texts that are identifiers.
pub open spec fn is_nsid(b: Seq<u8>) -> bool {
    let segs = split(b, DOT);
    &&& b.len() <= MAX_LEN
    &&& segs.len() >= MIN_SEGMENTS
    &&& is_tld(segs[0])
    &&& forall|i: int| 0 < i < segs.len() - 1 ==> is_domain_segment(#[trigger] segs[i])
    &&& is_nsid_name(segs.last())
    &&& authority_len(b) < MAX_AUTHORITY_LEN
}

/// A byte that may stand in an identifier: a letter, a digit, a hyphen or
/// a dot.
pub open spec fn is_nsid_byte(c: u8) -> bool {
    is_alnum(c) || c == HYPHEN || c == DOT
}

/// An identifier holds letters, digits, hyphens and dots only. So it is
/// ASCII, well-formed UTF-8, and holds no `#`.
pub proof fn lemma_nsid_bytes(b: Seq<u8>)
    requires
        is_nsid(b),
    ensures
        forall|i: int| 0 <= i < b.len() ==> is_nsid_byte(#[trigger] b[i]),
        all_ascii(b),
        valid_utf8(b),
        first_index_of(b, HASH) == b.len(),
{
    let segs = split(b, DOT);
    let p = |c: u8| is_nsid_byte(c);
    assert forall|k: int| 0 <= k < segs.len() implies all_bytes(#[trigger] segs[k], p) by {
        let seg = segs[k];
        if k == segs.len() - 1 {
            assert(is_nsid_name(seg));
            assert forall|i: int| 0 <= i < seg.len() implies p(#[trigger] seg[i]) by {
                assert(is_alnum(seg[i]));
            }
        } else {
            assert(is_domain_segment(seg));
            assert forall|i: int| 0 <= i < seg.len() implies p(#[trigger] seg[i]) by {
                assert(is_alnum(seg[i]) || seg[i] == HYPHEN);
            }
        }
    }
    lemma_split_all_bytes(b, DOT, p);
    assert forall|i: int| 0 <= i < b.len() implies is_nsid_byte(#[trigger] b[i]) by {
        assert(p(b[i]));
    }
    assert(all_ascii(b)) by {
        assert forall|i: int| 0 <= i < b.len() implies #[trigger] b[i] < 0x80 by {
            assert(is_nsid_byte(b[i]));
        }
    }
    lemma_ascii_is_utf8(b);
    assert forall|j: int| 0 <= j < b.len() implies b[j] != HASH by {
        assert(is_nsid_byte(b[j]));
    }
    lemma_first_index_of_unique(b, HASH, b.len() as int);
}

/// No identifier reaches the length limit: the bound on the authority and
/// the bound on the last segment leave the longest one byte short of it.
pub proof fn lemma_nsid_len(b: Seq<u8>)
    requires
        is_nsid(b),
    ensures
        b.len() < MAX_LEN,
{
    assert(split(b, DOT).last().len() <= SEGMENT_LEN_MAX);
}

/// Checks that `bytes` is an identifier, in one pass from left to right.
pub fn validate_nsid(bytes: &[u8]) -> (r: Result<(), ParseError>)
    ensures
        r == (if is_nsid(bytes@) {
            Ok::<(), ParseError>(())
        } else {
            Err::<(), ParseError>(ParseError::NsidFormat)
        }),
{
    let n: usize = bytes.len();
    if n > MAX_LEN {
        return Err(ParseError::nsid());
    }
    let mut start: usize = 0;
    let mut num_segments: usize = 0;
    let ghost mut done: Seq<Seq<u8>> = Seq::empty();
    proof {
        assert(bytes@.subrange(0, n as int) =~= bytes@);
        assert(done + split(bytes@, DOT) =~= split(bytes@, DOT));
    }
    loop
        invariant
            n == bytes@.len(),
            n <= MAX_LEN,
            start <= n,
            num_segments <= start,
            done.len() == num_segments,
            split(bytes@, DOT) == done + split(bytes@.subrange(start as int, n as int), DOT),
            num_segments >= 1 ==> is_tld(done[0]),
            forall|i: int| 0 < i < done.len() ==> is_domain_segment(#[trigger] done[i]),
        decreases n - start,
    {
        let end: usize = find_byte(bytes, start, DOT);
        let segment: &[u8] = slice_subrange(bytes, start, end);
        let ghost rest = bytes@.subrange(start as int, n as int);
        let ghost segs = split(bytes@, DOT);
        if end == n {
            proof {
                assert(segment@ =~= rest);
                assert(split(rest, DOT) == seq![rest]);
                assert(segs =~= done.push(rest));
                assert(segs.last() == rest);
                assert(authority_len(bytes@) == start - 1);
                assert(forall|i: int| 0 < i < segs.len() - 1 ==> segs[i] == done[i]);
                if num_segments >= 1 {
                    assert(segs[0] == done[0]);
                }
            }
            if num_segments + 1 < MIN_SEGMENTS {
                return Err(ParseError::nsid());
            }
            if start - 1 < MAX_AUTHORITY_LEN && is_valid_nsid_name(segment) {
                return Ok(());
            }
            return Err(ParseError::nsid());
        }
        let ghost tail = bytes@.subrange(end + 1, n as int);
        proof {
            assert(rest.subrange(0, end - start) =~= segment@);
            assert(rest.subrange(end - start + 1, rest.len() as int) =~= tail);
            assert(split(rest, DOT) == seq![segment@] + split(tail, DOT));
            lemma_split_nonempty(tail, DOT);
            assert(segs =~= done.push(segment@) + split(tail, DOT));
            assert(segs[num_segments as int] == segment@);
        }
        let is_valid: bool = if num_segments == 0 {
            is_valid_tld(segment)
        } else {
            is_valid_domain_segment(segment)
        };
        if !is_valid {
            return Err(ParseError::nsid());
        }
        proof {
            done = done.push(segment@);
        }
        num_segments += 1;
        start = end + 1;
    }
}

/// A validated identifier. It owns its text, which is kept as it was given.
#[derive(Debug, PartialEq, Eq, PartialOrd, Ord, Hash)]
pub struct Nsid {
    text: String,
}

impl View for Nsid {
    type V = Seq<char>;

    /// The characters of the identifier.
    closed spec fn view(&self) -> Seq<char> {
        self.text@
    }
}

impl Clone for Nsid {
    /// A copy with the same text.
    fn clone(&self) -> (r: Nsid)
        ensures
            r@ == self@,
    {
        proof {
            use_type_invariant(self);
        }
        Nsid { text: self.text.clone() }
    }
}

impl<'a> TryFrom<&'a [u8]> for Nsid {
    type Error = ParseError;

    /// Parses an identifier from bytes, as [`Nsid::try_from`] does.
    fn try_from(bytes: &'a [u8]) -> (r: Result<Nsid, ParseError>)
        ensures
            is_nsid(bytes@) <==> r is Ok,
            r is Ok ==> r->Ok_0.bytes() == bytes@,
            r is Err ==> r->Err_0 == ParseError::NsidFormat,
    {
        Nsid::try_from(bytes)
    }
}

impl<'a> vstd::std_specs::convert::TryFromSpecImpl<&'a [u8]> for Nsid {
    /// The result is described by the contract of `try_from` itself, over
    /// the bytes of the identifier, not as a value.
    open spec fn obeys_try_from_spec() -> bool {
        false
    }

    open spec fn try_from_spec(bytes: &'a [u8]) -> Result<Nsid, ParseError> {
        if is_nsid(bytes@) {
            Ok(choose|n: Nsid| n.bytes() == bytes@)
        } else {
            Err(ParseError::NsidFormat)
        }
    }
}

impl core::str::FromStr for Nsid {
    type Err = ParseError;

    /// Parses an identifier, as [`Nsid::from_str`] does.
    fn from_str(s: &str) -> (r: Result<Nsid, ParseError>)
        ensures
            is_nsid(s.spec_bytes()) <==> r is Ok,
            r is Ok ==> r->Ok_0@ == s@,
            r is Err ==> r->Err_0 == ParseError::NsidFormat,
    {
        Nsid::from_str(s)
    }
}

impl Nsid {
    #[verifier::type_invariant]
    spec fn inv(&self) -> bool {
        is_nsid(encode_utf8(self.text@))
    }

    /// The bytes of the identifier.
    pub open spec fn bytes(&self) -> Seq<u8> {
        encode_utf8(self@)
    }

    /// The segments of the identifier, first to last.
    pub open spec fn segments_spec(&self) -> Seq<Seq<u8>> {
        split(self.bytes(), DOT)
    }

    /// Parses an identifier. The text is accepted exactly if its bytes are
    /// an identifier, and is then kept unchanged.
    pub fn from_str(s: &str) -> (r: Result<Nsid, ParseError>)
        ensures
            is_nsid(s.spec_bytes()) <==> r is Ok,
            r is Ok ==> r->Ok_0@ == s@,
            r is Err ==> r->Err_0 == ParseError::NsidFormat,
    {
        match validate_nsid(s.as_bytes()) {
            Ok(()) => Ok(Nsid { text: s.to_owned() }),
            Err(e) => Err(e),
        }
    }

    /// Parses an identifier from bytes. The bytes are accepted exactly if
    /// they are an identifier, and are then the bytes of the result.
    pub fn try_from(bytes: &[u8]) -> (r: Result<Nsid, ParseError>)
        ensures
            is_nsid(bytes@) <==> r is Ok,
            r is Ok ==> r->Ok_0.bytes() == bytes@,
            r is Err ==> r->Err_0 == ParseError::NsidFormat,
    {
        match validate_nsid(bytes) {
            Ok(()) => {
                proof {
                    lemma_nsid_bytes(bytes@);
                }
                match string_from_utf8(slice_to_vec(bytes)) {
                    Some(text) => Ok(Nsid { text }),
                    None => Err(ParseError::nsid()),
                }
            },
            Err(e) => Err(e),
        }
    }

    /// The text of the identifier.
    pub fn as_str(&self) -> (s: &str)
        ensures
            s@ == self@,
            is_nsid(s.spec_bytes()),
    {
        proof {
            use_type_invariant(self);
        }
        self.text.as_str()
    }

    /// The text of the identifier, as an owned string.
    pub fn to_string(&self) -> (s: String)
        ensures
            s@ == self@,
    {
        self.text.clone()
    }

    /// The segments of the identifier, first to last: the pieces of its
    /// text between the dots.
    pub fn segments(&self) -> (r: Vec<&str>)
        ensures
            r@.len() == self.segments_spec().len(),
            forall|i: int|
                0 <= i < r@.len() ==> (#[trigger] r@[i]).spec_bytes() == self.segments_spec()[i],
    {
        let mut out: Vec<&str> = Vec::new();
        let mut rest: &str = self.text.as_str();
        let ghost mut done: Seq<Seq<u8>> = Seq::empty();
        proof {
            assert(done + split(rest.spec_bytes(), DOT) =~= split(rest.spec_bytes(), DOT));
        }
        loop
            invariant
                out@.len() == done.len(),
                forall|i: int| 0 <= i < out@.len() ==> (#[trigger] out@[i]).spec_bytes() == done[i],
                split(self.bytes(), DOT) == done + split(rest.spec_bytes(), DOT),
            decreases rest.spec_bytes().len(),
        {
            let bytes: &[u8] = rest.as_bytes();
            let i: usize = find_byte(bytes, 0, DOT);
            proof {
                assert(bytes@.subrange(0, bytes@.len() as int) =~= bytes@);
                encode_utf8_valid_utf8(rest@);
            }
            if i == bytes.len() {
                out.push(rest);
                proof {
                    assert(split(bytes@, DOT) == seq![bytes@]);
                    assert(split(self.bytes(), DOT) =~= done.push(bytes@));
                }
                return out;
            }
            proof {
                lemma_ascii_byte_boundaries(bytes@, i as int);
            }
            let (head, tail) = rest.split_at(i);
            let (_, next) = tail.split_at(1);
            proof {
                assert(next.spec_bytes() =~= bytes@.subrange(i + 1, bytes@.len() as int));
                assert(split(self.bytes(), DOT) =~= done.push(head.spec_bytes()) + split(
                    next.spec_bytes(),
                    DOT,
                ));
                done = done.push(head.spec_bytes());
            }
            out.push(head);
            rest = next;
        }
    }

    /// The segments of the identifier, last to first: what a walk from the
    /// end of the text meets. They are the segments of [`Nsid::segments`],
    /// each unchanged, in the opposite order.
    pub fn segments_rev(&self) -> (r: Vec<&str>)
        ensures
            r@.len() == self.segments_spec().len(),
            forall|i: int|
                0 <= i < r@.len() ==> (#[trigger] r@[i]).spec_bytes() == self.segments_spec()[r@.len()
                    - 1 - i],
            forall|i: int|
                0 <= i < r@.len() ==> (#[trigger] r@[i]).spec_bytes() == split_back(
                    self.bytes(),
                    DOT,
                )[i],
    {
        let mut out: Vec<&str> = Vec::new();
        let mut rest: &str = self.text.as_str();
        let ghost mut done: Seq<Seq<u8>> = Seq::empty();
        proof {
            lemma_split_back_is_reverse(self.bytes(), DOT);
            assert(done + split_back(rest.spec_bytes(), DOT) =~= split_back(rest.spec_bytes(), DOT));
        }
        loop
            invariant
                out@.len() == done.len(),
                forall|i: int| 0 <= i < out@.len() ==> (#[trigger] out@[i]).spec_bytes() == done[i],
                split_back(self.bytes(), DOT) == done + split_back(rest.spec_bytes(), DOT),
                split_back(self.bytes(), DOT) == split(self.bytes(), DOT).reverse(),
            decreases rest.spec_bytes().len(),
        {
            let bytes: &[u8] = rest.as_bytes();
            proof {
                encode_utf8_valid_utf8(rest@);
            }
            match find_last_byte(bytes, DOT) {
                None => {
                    out.push(rest);
                    proof {
                        assert(split_back(bytes@, DOT) == seq![bytes@]);
                        assert(split_back(self.bytes(), DOT) =~= done.push(bytes@));
                        let segs = split(self.bytes(), DOT);
                        assert(segs.reverse().len() == segs.len());
                        assert forall|i: int| 0 <= i < out@.len() implies (#[trigger] out@[i]).spec_bytes()
                            == segs[out@.len() - 1 - i] by {
                            assert(segs.reverse()[i] == segs[segs.len() - 1 - i]);
                        }
                    }
                    return out;
                },
                Some(i) => {
                    proof {
                        lemma_ascii_byte_boundaries(bytes@, i as int);
                    }
                    let (front, tail) = rest.split_at(i);
                    let (_, piece) = tail.split_at(1);
                    proof {
                        assert(piece.spec_bytes() =~= bytes@.subrange(i + 1, bytes@.len() as int));
                        assert(split_back(self.bytes(), DOT) =~= done.push(piece.spec_bytes())
                            + split_back(front.spec_bytes(), DOT));
                        done = done.push(piece.spec_bytes());
                    }
                    out.push(piece);
                    rest = front;
                },
            }
        }
    }
}

/// The texts that are fragments: a `#` and a name of letters and digits.
pub open spec fn is_fragment(b: Seq<u8>) -> bool {
    &&& b.len() >= 1
    &&& b[0] == HASH
    &&& is_fragment_name(b.subrange(1, b.len() as int))
}

/// Checks that `bytes` is a fragment.
pub fn validate_fragment(bytes: &[u8]) -> (r: Result<(), ParseError>)
    ensures
        r == (if is_fragment(bytes@) {
            Ok::<(), ParseError>(())
        } else {
            Err::<(), ParseError>(ParseError::NsidFragmentFormat)
        }),
{
    let n: usize = bytes.len();
    if n == 0 || bytes[0] != HASH {
        return Err(ParseError::nsid_fragment());
    }
    if !is_valid_fragment_name(slice_subrange(bytes, 1, n)) {
        return Err(ParseError::nsid_fragment());
    }
    Ok(())
}

/// A validated fragment. It owns its text, `#` included, which is kept as it
/// was given.
#[derive(Debug, PartialEq, Eq, PartialOrd, Ord, Hash)]
pub struct Fragment {
    text: String,
}

impl View for Fragment {
    type V = Seq<char>;

    /// The characters of the fragment, `#` included.
    closed spec fn view(&self) -> Seq<char> {
        self.text@
    }
}

impl Clone for Fragment {
    /// A copy with the same text.
    fn clone(&self) -> (r: Fragment)
        ensures
            r@ == self@,
    {
        proof {
            use_type_invariant(self);
        }
        Fragment { text: self.text.clone() }
    }
}

impl core::str::FromStr for Fragment {
    type Err = ParseError;

    /// Parses a fragment, as [`Fragment::from_str`] does.
    fn from_str(s: &str) -> (r: Result<Fragment, ParseError>)
        ensures
            is_fragment(s.spec_bytes()) <==> r is Ok,
            r is Ok ==> r->Ok_0@ == s@,
            r is Err ==> r->Err_0 == ParseError::NsidFragmentFormat,
    {
        Fragment::from_str(s)
    }
}

impl Fragment {
    #[verifier::type_invariant]
    spec fn inv(&self) -> bool {
        is_fragment(encode_utf8(self.text@))
    }

    /// The bytes of the fragment, `#` included.
    pub open spec fn bytes(&self) -> Seq<u8> {
        encode_utf8(self@)
    }

    /// Parses a fragment. The text is accepted exactly if its bytes are a
    /// fragment, and is then kept unchanged.
    pub fn from_str(s: &str) -> (r: Result<Fragment, ParseError>)
        ensures
            is_fragment(s.spec_bytes()) <==> r is Ok,
            r is Ok ==> r->Ok_0@ == s@,
            r is Err ==> r->Err_0 == ParseError::NsidFragmentFormat,
    {
        match validate_fragment(s.as_bytes()) {
            Ok(()) => Ok(Fragment { text: s.to_owned() }),
            Err(e) => Err(e),
        }
    }

    /// The text of the fragment, `#` included.
    pub fn as_str(&self) -> (s: &str)
        ensures
            s@ == self@,
            is_fragment(s.spec_bytes()),
    {
        proof {
            use_type_invariant(self);
        }
        self.text.as_str()
    }

    /// The text of the fragment, as an owned string.
    pub fn to_string(&self) -> (s: String)
        ensures
            s@ == self@,
    {
        self.text.clone()
    }
}

/// Where the fragment of a reference starts: at its first `#`, or at its end
/// where it has none.
pub open spec fn fragment_start(b: Seq<u8>) -> int {
    first_index_of(b, HASH)
}

/// What parsing a full reference gives for the text `b`. The part before the
/// first `#` must be an identifier; what follows, if anything does, must be
/// a fragment. The identifier is looked at first.
pub open spec fn check_full_reference(b: Seq<u8>) -> Result<(), ParseError> {
    let k = fragment_start(b);
    if !is_nsid(b.subrange(0, k)) {
        Err(ParseError::NsidFormat)
    } else if k < b.len() && !is_fragment(b.subrange(k, b.len() as int)) {
        Err(ParseError::NsidFragmentFormat)
    } else {
        Ok(())
    }
}

/// The texts that are full references.
pub open spec fn is_full_reference(b: Seq<u8>) -> bool {
    check_full_reference(b) is Ok
}

/// An identifier with an optional fragment, held as one text and the place
/// where the fragment starts.
#[derive(Debug, PartialEq, Eq, PartialOrd, Ord, Hash)]
pub struct FullReference {
    text: String,
    frag_start: usize,
}

impl View for FullReference {
    type V = Seq<char>;

    /// The characters of the reference.
    closed spec fn view(&self) -> Seq<char> {
        self.text@
    }
}

impl Clone for FullReference {
    /// A copy with the same text.
    fn clone(&self) -> (r: FullReference)
        ensures
            r@ == self@,
    {
        proof {
            use_type_invariant(self);
        }
        FullReference { text: self.text.clone(), frag_start: self.frag_start }
    }
}

impl From<Nsid> for FullReference {
    /// The reference that is the identifier alone, with no fragment.
    fn from(nsid: Nsid) -> (r: FullReference)
        ensures
            r@ == nsid@,
            !r.has_fragment_spec(),
    {
        FullReference::from_nsid(nsid)
    }
}

impl vstd::std_specs::convert::FromSpecImpl<Nsid> for FullReference {
    open spec fn obeys_from_spec() -> bool {
        true
    }

    open spec fn from_spec(nsid: Nsid) -> FullReference {
        FullReference::of_nsid(nsid)
    }
}

impl core::str::FromStr for FullReference {
    type Err = ParseError;

    /// Parses a full reference, as [`FullReference::from_str`] does.
    fn from_str(s: &str) -> (r: Result<FullReference, ParseError>)
        ensures
            match r {
                Ok(v) => check_full_reference(s.spec_bytes()) is Ok && v@ == s@,
                Err(e) => check_full_reference(s.spec_bytes()) == Err::<(), ParseError>(e),
            },
    {
        FullReference::from_str(s)
    }
}

impl FullReference {
    #[verifier::type_invariant]
    spec fn inv(&self) -> bool {
        let b = encode_utf8(self.text@);
        &&& self.frag_start == fragment_start(b)
        &&& self.frag_start <= b.len()
        &&& is_nsid(b.subrange(0, self.frag_start as int))
        &&& self.frag_start < b.len() ==> is_fragment(b.subrange(self.frag_start as int, b.len() as int))
    }

    /// The bytes of the reference.
    pub open spec fn bytes(&self) -> Seq<u8> {
        encode_utf8(self@)
    }

    /// The bytes of the identifier: those before the fragment.
    pub open spec fn nsid_bytes(&self) -> Seq<u8> {
        self.bytes().subrange(0, fragment_start(self.bytes()))
    }

    /// The bytes of the fragment, `#` included: empty where there is none.
    pub open spec fn fragment_bytes(&self) -> Seq<u8> {
        self.bytes().subrange(fragment_start(self.bytes()), self.bytes().len() as int)
    }

    /// The reference that holds the text of `nsid` and nothing more.
    pub closed spec fn of_nsid(nsid: Nsid) -> FullReference {
        FullReference { text: nsid.text, frag_start: encode_utf8(nsid.text@).len() as usize }
    }

    /// Whether the reference has a fragment.
    pub open spec fn has_fragment_spec(&self) -> bool {
        fragment_start(self.bytes()) < self.bytes().len()
    }

    /// Parses a full reference. The text is kept unchanged.
    pub fn from_str(s: &str) -> (r: Result<FullReference, ParseError>)
        ensures
            match r {
                Ok(v) => check_full_reference(s.spec_bytes()) is Ok && v@ == s@,
                Err(e) => check_full_reference(s.spec_bytes()) == Err::<(), ParseError>(e),
            },
    {
        let bytes: &[u8] = s.as_bytes();
        let n: usize = bytes.len();
        let frag_start: usize = find_byte(bytes, 0, HASH);
        proof {
            assert(bytes@.subrange(0, n as int) =~= bytes@);
        }
        match validate_nsid(slice_subrange(bytes, 0, frag_start)) {
            Ok(()) => {},
            Err(e) => {
                return Err(e);
            },
        }
        if frag_start < n {
            match validate_fragment(slice_subrange(bytes, frag_start, n)) {
                Ok(()) => {},
                Err(e) => {
                    return Err(e);
                },
            }
        }
        Ok(FullReference { text: s.to_owned(), frag_start })
    }

    /// The reference that is the identifier alone, with no fragment. The
    /// text passes from one to the other.
    pub fn from_nsid(nsid: Nsid) -> (r: FullReference)
        ensures
            r@ == nsid@,
            !r.has_fragment_spec(),
            r.nsid_bytes() == nsid.bytes(),
            r == FullReference::of_nsid(nsid),
    {
        proof {
            use_type_invariant(&nsid);
            let b = encode_utf8(nsid.text@);
            lemma_nsid_bytes(b);
            assert(b.subrange(0, b.len() as int) =~= b);
        }
        let frag_start: usize = nsid.text.as_str().len();
        FullReference { text: nsid.text, frag_start }
    }

    /// The text of the reference.
    pub fn as_str(&self) -> (s: &str)
        ensures
            s@ == self@,
            is_full_reference(s.spec_bytes()),
    {
        proof {
            use_type_invariant(self);
        }
        self.text.as_str()
    }

    /// The text of the reference, as an owned string.
    pub fn to_string(&self) -> (s: String)
        ensures
            s@ == self@,
    {
        self.text.clone()
    }

    /// The identifier of the reference, as a value of its own.
    pub fn clone_nsid(&self) -> (r: Nsid)
        ensures
            r.bytes() == self.nsid_bytes(),
    {
        let s: &str = self.text.as_str();
        proof {
            use_type_invariant(self);
            self.lemma_split_point(s);
        }
        let (head, _) = s.split_at(self.frag_start);
        Nsid { text: head.to_owned() }
    }

    /// Tells whether the reference has a fragment.
    pub fn has_fragment(&self) -> (r: bool)
        ensures
            r == self.has_fragment_spec(),
    {
        proof {
            use_type_invariant(self);
        }
        self.frag_start < self.text.as_str().len()
    }

    /// The fragment of the reference, `#` included, as a value of its own;
    /// `None` where the reference has no fragment.
    pub fn clone_fragment(&self) -> (r: Option<Fragment>)
        ensures
            r is Some <==> self.has_fragment_spec(),
            r is Some ==> r->0.bytes() == self.fragment_bytes(),
    {
        if !self.has_fragment() {
            return None;
        }
        let s: &str = self.text.as_str();
        proof {
            use_type_invariant(self);
            self.lemma_split_point(s);
        }
        let (_, tail) = s.split_at(self.frag_start);
        Some(Fragment { text: tail.to_owned() })
    }

    /// The name of the fragment, without its `#`; `None` where the
    /// reference has no fragment.
    pub fn fragment_name(&self) -> (r: Option<&str>)
        ensures
            r is Some <==> self.has_fragment_spec(),
            r is Some ==> r->0.spec_bytes() == self.fragment_bytes().subrange(
                1,
                self.fragment_bytes().len() as int,
            ),
    {
        if !self.has_fragment() {
            return None;
        }
        let s: &str = self.text.as_str();
        proof {
            use_type_invariant(self);
            self.lemma_split_point(s);
        }
        let (_, tail) = s.split_at(self.frag_start);
        let (_, name) = tail.split_at(1);
        Some(name)
    }

    /// The place where the fragment starts is a place where the text can be
    /// cut, and so is the place behind the `#`.
    proof fn lemma_split_point(&self, s: &str)
        requires
            self.inv(),
            s@ == self.text@,
        ensures
            is_char_boundary(s.spec_bytes(), self.frag_start as int),
            self.frag_start < s.spec_bytes().len() ==> is_char_boundary(
                s.spec_bytes().subrange(self.frag_start as int, s.spec_bytes().len() as int),
                1,
            ),
    {
        let b = s.spec_bytes();
        encode_utf8_valid_utf8(s@);
        if self.frag_start < b.len() {
            let tail = b.subrange(self.frag_start as int, b.len() as int);
            assert(tail[0] == b[self.frag_start as int]);
            lemma_ascii_byte_boundaries(b, self.frag_start as int);
        } else {
            is_char_boundary_start_end_of_seq(b);
        }
    }
}

/// Whether a text starts with `#`.
pub open spec fn starts_with_hash(b: Seq<u8>) -> bool {
    b.len() >= 1 && b[0] == HASH
}

/// What parsing a reference gives for the text `b`: a text that starts with
/// `#` is held to the rules of a fragment, any other to those of a full
/// reference.
pub open spec fn check_reference(b: Seq<u8>) -> Result<(), ParseError> {
    if starts_with_hash(b) {
        if is_fragment(b) {
            Ok(())
        } else {
            Err(ParseError::NsidFragmentFormat)
        }
    } else {
        check_full_reference(b)
    }
}

/// The two parts of a full reference are an identifier and, where anything
/// follows it, a fragment; the two parts, one after the other, are the text.
pub proof fn lemma_full_reference_parts(b: Seq<u8>)
    requires
        is_full_reference(b),
    ensures
        0 <= fragment_start(b) <= b.len(),
        is_nsid(b.subrange(0, fragment_start(b))),
        fragment_start(b) < b.len() ==> is_fragment(
            b.subrange(fragment_start(b), b.len() as int),
        ),
        b.subrange(0, fragment_start(b)) + b.subrange(fragment_start(b), b.len() as int) == b,
{
    lemma_first_index_of(b, HASH);
    let k = fragment_start(b);
    assert(b.subrange(0, k) + b.subrange(k, b.len() as int) =~= b);
}

/// An identifier alone is a full reference without a fragment, and a
/// reference.
pub proof fn lemma_nsid_is_full_reference(b: Seq<u8>)
    requires
        is_nsid(b),
    ensures
        fragment_start(b) == b.len(),
        is_full_reference(b),
        !starts_with_hash(b),
        check_reference(b) is Ok,
{
    lemma_nsid_bytes(b);
    assert(b.subrange(0, b.len() as int) =~= b);
    if b.len() >= 1 {
        assert(is_nsid_byte(b[0]));
    }
}

/// The references are the fragments and the full references, and no text is
/// both.
pub proof fn lemma_reference_kinds(b: Seq<u8>)
    ensures
        check_reference(b) is Ok <==> is_fragment(b) || is_full_reference(b),
        !(is_fragment(b) && is_full_reference(b)),
{
    if starts_with_hash(b) {
        lemma_first_index_of_unique(b, HASH, 0);
        let empty = b.subrange(0, 0);
        assert(empty.len() == 0);
        assert(split(empty, DOT) == seq![empty]);
        assert(!is_nsid(empty));
    }
}

/// A reference: a full one, or a fragment alone, which is relative to the
/// document it stands in.
#[derive(Debug, PartialEq, Eq, Hash)]
pub enum Reference {
    /// An identifier with an optional fragment.
    Full(FullReference),
    /// A fragment alone.
    Relative(Fragment),
}

impl View for Reference {
    type V = Seq<char>;

    /// The characters of the reference.
    open spec fn view(&self) -> Seq<char> {
        match *self {
            Reference::Full(r) => r@,
            Reference::Relative(f) => f@,
        }
    }
}

impl Clone for Reference {
    /// A copy of the same kind with the same text.
    fn clone(&self) -> (r: Reference)
        ensures
            r@ == self@,
            r is Full <==> self is Full,
    {
        match self {
            Reference::Full(v) => Reference::Full(v.clone()),
            Reference::Relative(f) => Reference::Relative(f.clone()),
        }
    }
}

impl core::str::FromStr for Reference {
    type Err = ParseError;

    /// Parses a reference, as [`Reference::from_str`] does.
    fn from_str(s: &str) -> (r: Result<Reference, ParseError>)
        ensures
            match r {
                Ok(v) => {
                    &&& check_reference(s.spec_bytes()) is Ok
                    &&& v@ == s@
                    &&& v is Relative <==> starts_with_hash(s.spec_bytes())
                },
                Err(e) => check_reference(s.spec_bytes()) == Err::<(), ParseError>(e),
            },
    {
        Reference::from_str(s)
    }
}

impl Reference {
    /// Parses a reference. The first byte decides which of the two kinds
    /// the text is held to; the text is kept unchanged.
    pub fn from_str(s: &str) -> (r: Result<Reference, ParseError>)
        ensures
            match r {
                Ok(v) => {
                    &&& check_reference(s.spec_bytes()) is Ok
                    &&& v@ == s@
                    &&& v is Relative <==> starts_with_hash(s.spec_bytes())
                },
                Err(e) => check_reference(s.spec_bytes()) == Err::<(), ParseError>(e),
            },
    {
        let bytes: &[u8] = s.as_bytes();
        if bytes.len() >= 1 && bytes[0] == HASH {
            match Fragment::from_str(s) {
                Ok(f) => Ok(Reference::Relative(f)),
                Err(e) => Err(e),
            }
        } else {
            match FullReference::from_str(s) {
                Ok(f) => Ok(Reference::Full(f)),
                Err(e) => Err(e),
            }
        }
    }

    /// The text of the reference, as an owned string.
    pub fn to_string(&self) -> (s: String)
        ensures
            s@ == self@,
    {
        match self {
            Reference::Full(r) => r.to_string(),
            Reference::Relative(f) => f.to_string(),
        }
    }
}

} // verus!
