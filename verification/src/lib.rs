//! Namespaced identifiers: dotted, reverse-domain names for schemas and
//! methods, the `#name` fragments that point inside a schema document, and
//! references that combine the two.
//!
//! Every type owns the text it was built from, unchanged. Validation works on
//! the UTF-8 bytes of the text, and the contracts are stated over byte
//! sequences: [`nsid::is_nsid`], [`nsid::is_fragment`] and
//! [`nsid::is_full_reference`] say which texts are accepted.

pub mod error;
pub mod nsid;
pub mod segment;
pub mod split;
pub mod text;

pub use error::ParseError;
pub use nsid::{Fragment, FullReference, Nsid, Reference};
