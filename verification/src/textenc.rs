//! Turning stored payload bytes back into text, for the operations that
//! must display an object as text.

use crate::Error;
use vstd::prelude::*;

verus! {

/// Relies on `String::from_utf8`: it succeeds exactly on valid UTF-8 and
/// returns the decoded text.
#[verifier::external_body]
pub fn bytes_to_string(data: Vec<u8>) -> (r: Result<String, Error>)
    ensures
        match r {
            Ok(s) => vstd::utf8::valid_utf8(data@) && s@ == vstd::utf8::decode_utf8(data@),
            Err(e) => !vstd::utf8::valid_utf8(data@) && e == Error::EncodingFailure,
        },
{
    String::from_utf8(data).map_err(|_| Error::EncodingFailure)
}

} // verus!
