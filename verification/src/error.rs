//! The two ways in which parsing fails.

use vstd::prelude::*;

verus! {

/// Why a text was refused. There is one kind for identifiers and one for
/// fragments; neither says which rule was broken.
#[derive(Clone, Copy, Debug, PartialEq, Eq, Structural)]
pub enum ParseError {
    /// The text is not a well-formed identifier.
    NsidFormat,
    /// The text is not a well-formed fragment.
    NsidFragmentFormat,
}

impl ParseError {
    /// The error for a malformed identifier.
    pub fn nsid() -> (e: ParseError)
        ensures
            e == ParseError::NsidFormat,
    {
        ParseError::NsidFormat
    }

    /// The error for a malformed fragment.
    pub fn nsid_fragment() -> (e: ParseError)
        ensures
            e == ParseError::NsidFragmentFormat,
    {
        ParseError::NsidFragmentFormat
    }

    /// A short description of the error.
    pub fn message(&self) -> (s: &'static str)
        ensures
            s@ == (match *self {
                ParseError::NsidFormat => "invalid NSID"@,
                ParseError::NsidFragmentFormat => "invalid NSID fragment"@,
            }),
    {
        match self {
            ParseError::NsidFormat => "invalid NSID",
            ParseError::NsidFragmentFormat => "invalid NSID fragment",
        }
    }
}

} // verus!
