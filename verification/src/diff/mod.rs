//! Everything that knows a diff is a diff.
//!
//! - [`model`] is the document: what the unified diff said, owned and parsed.
//! - [`parse`] produces that from unified diff text.
//! - [`layout`] arranges it, deciding which position holds what once a view has chosen between
//!   an inline and a side-by-side reading.
//! - [`render`] turns that arrangement into rows, the last point anything knows a diff is a
//!   diff.

pub mod layout;
pub mod model;
pub mod parse;
pub mod render;

use crate::span::Document;
use vstd::prelude::*;

verus! {

impl Document {
    /// The file as it was, which a diff shows on the left.
    #[verifier::allow_in_spec]
    pub fn before() -> Document
        returns
            Document(0),
    {
        Document(0)
    }

    /// The file as it is, which a diff shows on the right.
    #[verifier::allow_in_spec]
    pub fn after() -> Document
        returns
            Document(1),
    {
        Document(1)
    }
}

} // verus!
