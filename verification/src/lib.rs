//! A minimal content-addressable object store in the style of a
//! version-control system: blobs, trees and commits are wrapped in a
//! `kind length\0payload` envelope, identified by the hex digest of the
//! envelope bytes, and compressed at rest.

use vstd::prelude::*;

pub mod blob;
pub mod clock;
pub mod commit;
pub mod digits;
pub mod envelope;
pub mod hexcode;
pub mod lexorder;
pub mod sha;
pub mod store;
pub mod textenc;
pub mod tree;
pub mod zlib;

verus! {

/// Everything that can go wrong when storing, fetching or decoding an object.
#[derive(Clone, Copy, Debug, PartialEq, Eq, Structural)]
pub enum Error {
    /// No object exists at the path derived from the requested id.
    NotFound,
    /// The envelope or a tree entry violates the on-disk grammar,
    /// including a declared length that does not match the payload.
    InvalidFormat,
    /// The object decoded fine but is not of the kind the caller required.
    UnsupportedKind,
    /// A filesystem error unrelated to the object format.
    IoFailure,
    /// The payload is not valid text where text output was required.
    EncodingFailure,
}

/// The closed set of object kinds the store understands.
#[derive(Clone, Copy, Debug, PartialEq, Eq, Structural)]
pub enum ObjectKind {
    Blob,
    Tree,
    Commit,
}

} // verus!
