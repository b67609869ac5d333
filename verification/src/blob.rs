//! Blob objects: raw file contents, with the identity serialization.

use vstd::prelude::*;

verus! {

/// A blob object: one file's raw bytes, nothing more.
pub struct GitBlob {
    pub blob_data: Vec<u8>,
}

impl View for GitBlob {
    type V = Seq<u8>;

    open spec fn view(&self) -> Seq<u8> {
        self.blob_data@
    }
}

impl GitBlob {
    /// A blob's payload is its bytes, unchanged: arbitrary bytes are
    /// valid blob content.
    pub fn serialize(&self) -> (r: Vec<u8>)
        ensures
            r@ == self@,
    {
        let mut out: Vec<u8> = Vec::new();
        out.extend_from_slice(self.blob_data.as_slice());
        out
    }

    /// Parsing is the identity as well.
    pub fn deserialize(&mut self, data: &Vec<u8>)
        ensures
            final(self)@ == data@,
    {
        let mut d: Vec<u8> = Vec::new();
        d.extend_from_slice(data.as_slice());
        self.blob_data = d;
    }
}

} // verus!
