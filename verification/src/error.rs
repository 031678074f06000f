//! The error taxonomy of the library.

use vstd::prelude::*;

verus! {

/// Everything a document operation can fail with.
#[derive(Debug, Clone, PartialEq, Eq)]
pub enum Error {
    /// A mutation tried to attach an element that already has a parent;
    /// detach it first.
    HasAParent,
    /// A mutation tried to parent, move or detach the container sentinel.
    ContainerCannotMove,
    /// A parse was started on a document that already holds data.
    NotEmpty,
    /// The document's encoding could not be determined, or did not match an
    /// enforced expectation.
    CannotDecode,
    /// The token stream was not well-formed XML.
    MalformedXML,
    /// The byte source or sink failed.
    Io(String),
}

} // verus!
