//! The content-addressable store's computations: deriving an object's id
//! and its at-rest bytes, and reading an object back from them. The
//! filesystem itself stays outside the library; callers hand bytes in
//! and take bytes out.

use crate::envelope::{decode_object, decode_spec, encode_object, encode_spec};
use crate::hexcode::{hex_encode, hex_of, is_hex_lower, lemma_hex_lower_ascii, lemma_hex_of_unhex};
use crate::sha::{sha1_digest, sha1_of};
use crate::textenc::bytes_to_string;
use crate::tree::{leaves_views, tree_parse, tree_parse_spec, tree_ser_spec, tree_wf, GitTree};
use crate::zlib::{compress, decompress, inflate_of};
use crate::Error;
use crate::ObjectKind;
use vstd::prelude::*;
use vstd::string::StrSliceExecFns;
use vstd::utf8::{decode_utf8, valid_utf8};

verus! {

/// An object's id: the lowercase hex digest of its encoded envelope.
pub open spec fn object_id_of(kind: ObjectKind, payload: Seq<u8>) -> Seq<char> {
    hex_of(sha1_of(encode_spec(kind, payload)))
}

/// LAW: the id is a pure function of the encoded bytes — identical
/// encoded envelopes always carry the identical id.
pub proof fn lemma_id_deterministic(k1: ObjectKind, p1: Seq<u8>, k2: ObjectKind, p2: Seq<u8>)
    requires
        encode_spec(k1, p1) == encode_spec(k2, p2),
    ensures
        object_id_of(k1, p1) == object_id_of(k2, p2),
{
}

/// Compute an object's id and its compressed at-rest bytes.
///
/// The id is the hex digest of the envelope; the second component is
/// what the store writes at the id-derived path, and decompresses back
/// to the envelope.
pub fn hash_object(kind: ObjectKind, contents: &Vec<u8>) -> (r: (String, Vec<u8>))
    ensures
        r.0@ == object_id_of(kind, contents@),
        r.0@.len() == 40,
        is_hex_lower(r.0@),
        inflate_of(r.1@) == Some(encode_spec(kind, contents@)),
{
    let env = encode_object(kind, contents);
    let digest = sha1_digest(&env);
    proof {
        lemma_hex_of_unhex(digest@);
    }
    let id = hex_encode(&digest);
    let compressed = compress(&env);
    (id, compressed)
}

/// What reading stored bytes yields: decompress, then decode the
/// envelope.
pub open spec fn read_object_spec(data: Seq<u8>) -> Option<(ObjectKind, Seq<u8>)> {
    match inflate_of(data) {
        None => None,
        Some(env) => decode_spec(env),
    }
}

/// Decompress stored bytes and split the envelope.
///
/// Fails with `InvalidFormat` exactly when the bytes are not a
/// well-formed compressed stream, or the decompressed bytes break the
/// envelope grammar; truncated or corrupted input is reported, never
/// returned as data.
pub fn read_object(data: &Vec<u8>) -> (r: Result<(ObjectKind, Vec<u8>), Error>)
    ensures
        match r {
            Ok((k, p)) => read_object_spec(data@) == Some((k, p@)),
            Err(e) => read_object_spec(data@) is None && e == Error::InvalidFormat,
        },
{
    let env = decompress(data)?;
    let (kind, payload) = decode_object(&env)?;
    Ok((kind, payload))
}

/// What displaying an object as a blob yields.
pub open spec fn cat_file_spec(data: Seq<u8>) -> Result<Seq<char>, Error> {
    match read_object_spec(data) {
        None => Err(Error::InvalidFormat),
        Some((k, p)) => {
            if k != ObjectKind::Blob {
                Err(Error::UnsupportedKind)
            } else if !valid_utf8(p) {
                Err(Error::EncodingFailure)
            } else {
                Ok(decode_utf8(p))
            }
        },
    }
}

/// Display a stored object as text, requiring it to be a blob.
///
/// Fails with `UnsupportedKind` on a tree or commit, and with
/// `EncodingFailure` when the payload is not valid text.
pub fn cat_file(data: &Vec<u8>) -> (r: Result<String, Error>)
    ensures
        match r {
            Ok(s) => cat_file_spec(data@) == Ok::<Seq<char>, Error>(s@),
            Err(e) => cat_file_spec(data@) == Err::<Seq<char>, Error>(e),
        },
{
    let (kind, payload) = read_object(data)?;
    match kind {
        ObjectKind::Blob => bytes_to_string(payload),
        _ => Err(Error::UnsupportedKind),
    }
}

/// What listing a tree object's entry names yields.
pub open spec fn ls_tree_spec(data: Seq<u8>) -> Result<Seq<Seq<char>>, Error> {
    match read_object_spec(data) {
        None => Err(Error::InvalidFormat),
        Some((k, p)) => {
            if k != ObjectKind::Tree {
                Err(Error::UnsupportedKind)
            } else {
                match tree_parse_spec(p) {
                    None => Err(Error::InvalidFormat),
                    Some(ls) => {
                        if forall|i: int| 0 <= i < ls.len() ==> valid_utf8(#[trigger] ls[i].path) {
                            Ok(Seq::new(ls.len(), |i: int| decode_utf8(ls[i].path)))
                        } else {
                            Err(Error::EncodingFailure)
                        }
                    },
                }
            }
        },
    }
}

/// List a stored tree object's entry names, in stored order.
///
/// Fails with `UnsupportedKind` on a blob or commit, `InvalidFormat` on
/// a malformed payload, and `EncodingFailure` when a name is not valid
/// text.
pub fn ls_tree(data: &Vec<u8>) -> (r: Result<Vec<String>, Error>)
    ensures
        match r {
            Ok(names) => ls_tree_spec(data@) == Ok::<Seq<Seq<char>>, Error>(
                names@.map_values(|s: String| s@),
            ),
            Err(e) => ls_tree_spec(data@) == Err::<Seq<Seq<char>>, Error>(e),
        },
{
    let (kind, payload) = read_object(data)?;
    match kind {
        ObjectKind::Tree => {},
        _ => {
            return Err(Error::UnsupportedKind);
        },
    }
    let leaves = tree_parse(&payload)?;
    let ghost ls = leaves_views(leaves@);
    let mut names: Vec<String> = Vec::new();
    let mut i: usize = 0;
    while i < leaves.len()
        invariant
            0 <= i <= leaves@.len(),
            ls == leaves_views(leaves@),
            ls.len() == leaves@.len(),
            ls_tree_spec(data@) == (if forall|j: int|
                0 <= j < ls.len() ==> valid_utf8(#[trigger] ls[j].path) {
                Ok::<Seq<Seq<char>>, Error>(Seq::new(ls.len(), |k: int| decode_utf8(ls[k].path)))
            } else {
                Err::<Seq<Seq<char>>, Error>(Error::EncodingFailure)
            }),
            forall|j: int| 0 <= j < i ==> valid_utf8(#[trigger] ls[j].path),
            names@.len() == i,
            forall|j: int| 0 <= j < i ==> (#[trigger] names@[j])@ == decode_utf8(ls[j].path),
        decreases leaves@.len() - i,
    {
        let mut path_copy: Vec<u8> = Vec::new();
        path_copy.extend_from_slice(leaves[i].path.as_slice());
        assert(path_copy@ == ls[i as int].path);
        match bytes_to_string(path_copy) {
            Ok(s) => {
                names.push(s);
            },
            Err(e) => {
                return Err(e);
            },
        }
        i = i + 1;
    }
    proof {
        assert(ls_tree_spec(data@) == Ok::<Seq<Seq<char>>, Error>(
            Seq::new(ls.len(), |i: int| decode_utf8(ls[i].path)),
        ));
        assert(names@.map_values(|s: String| s@) =~= Seq::new(
            ls.len(),
            |i: int| decode_utf8(ls[i].path),
        ));
    }
    Ok(names)
}

/// Serialize a tree's entries in canonical order and compute the tree
/// object's id and at-rest bytes.
pub fn write_tree(tree: &GitTree) -> (r: (String, Vec<u8>))
    requires
        tree_wf(tree@),
    ensures
        r.0@ == object_id_of(ObjectKind::Tree, tree_ser_spec(tree@)),
        r.0@.len() == 40,
        is_hex_lower(r.0@),
        inflate_of(r.1@) == Some(encode_spec(ObjectKind::Tree, tree_ser_spec(tree@))),
{
    let ser = tree.serialize();
    hash_object(ObjectKind::Tree, &ser)
}

/// The fan-out directory an id is filed under: its first two hex digits.
pub fn object_dir<'a>(sha: &'a str) -> (r: &'a str)
    requires
        sha@.len() >= 2,
        is_hex_lower(sha@),
    ensures
        r@ == sha@.subrange(0, 2),
{
    proof {
        lemma_hex_lower_ascii(sha@);
    }
    sha.substring_ascii(0, 2)
}

/// The file name an id is stored under inside its fan-out directory:
/// everything after the first two hex digits.
pub fn object_file<'a>(sha: &'a str) -> (r: &'a str)
    requires
        sha@.len() >= 2,
        is_hex_lower(sha@),
    ensures
        r@ == sha@.subrange(2, sha@.len() as int),
{
    proof {
        lemma_hex_lower_ascii(sha@);
        vstd::utf8::is_ascii_chars_encode_utf8(sha@);
    }
    let n = sha.unicode_len();
    sha.substring_ascii(2, n)
}

} // verus!

