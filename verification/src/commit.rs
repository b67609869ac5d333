//! Commit objects: a text payload naming a tree, an optional parent,
//! author and committer identities with a timestamp and UTC offset, and
//! the commit message.

use crate::clock::{local_utc_offset_seconds, now_epoch_seconds};
use crate::digits::{dec_of, push_dec};
use crate::envelope::encode_spec;
use crate::hexcode::is_hex_lower;
use crate::store::{hash_object, object_id_of};
use crate::textenc::bytes_to_string;
use crate::zlib::inflate_of;
use crate::Error;
use crate::ObjectKind;
use vstd::prelude::*;
use vstd::string::{StrSliceExecFns, StringSliceAdditionalSpecFns};
use vstd::utf8::{decode_utf8, encode_utf8, valid_utf8};

verus! {

/// A commit object: its payload, kept as opaque text.
pub struct GitCommit {
    pub commit_data: String,
}

impl View for GitCommit {
    type V = Seq<char>;

    open spec fn view(&self) -> Seq<char> {
        self.commit_data@
    }
}

impl GitCommit {
    /// A commit's payload is its text, encoded.
    pub fn serialize(&self) -> (r: Vec<u8>)
        ensures
            r@ == encode_utf8(self@),
    {
        self.commit_data.as_str().as_bytes_vec()
    }

    /// Store a payload as commit text; the store does not interpret it.
    ///
    /// Fails with `EncodingFailure` when the payload is not valid text;
    /// the commit is then left as it was.
    pub fn deserialize(&mut self, data: &Vec<u8>) -> (r: Result<(), Error>)
        ensures
            match r {
                Ok(()) => valid_utf8(data@) && final(self)@ == decode_utf8(data@),
                Err(e) => !valid_utf8(data@) && e == Error::EncodingFailure && final(self)@
                    == old(self)@,
            },
    {
        let mut copy: Vec<u8> = Vec::new();
        copy.extend_from_slice(data.as_slice());
        assert(copy@ =~= data@);
        match bytes_to_string(copy) {
            Ok(s) => {
                self.commit_data = s;
                Ok(())
            },
            Err(e) => Err(e),
        }
    }
}

/// Two decimal digits, for a value below one hundred.
pub open spec fn two_digits_of(n: int) -> Seq<u8> {
    seq![(48 + n / 10) as u8, (48 + n % 10) as u8]
}

/// A UTC offset in seconds as the wire text: sign, two-digit hours,
/// two-digit minutes.
pub open spec fn tz_of(off: int) -> Seq<u8> {
    let mag = if off < 0 {
        -off
    } else {
        off
    };
    let sign: u8 = if off < 0 {
        45u8
    } else {
        43u8
    };
    seq![sign] + two_digits_of(mag / 3600) + two_digits_of((mag % 3600) / 60)
}

/// `"tree "` as bytes.
pub open spec fn line_tree() -> Seq<u8> {
    seq![116u8, 114u8, 101u8, 101u8, 32u8]
}

/// `"parent "` as bytes.
pub open spec fn line_parent() -> Seq<u8> {
    seq![112u8, 97u8, 114u8, 101u8, 110u8, 116u8, 32u8]
}

/// `"author "` as bytes.
pub open spec fn line_author() -> Seq<u8> {
    seq![97u8, 117u8, 116u8, 104u8, 111u8, 114u8, 32u8]
}

/// `"committer "` as bytes.
pub open spec fn line_committer() -> Seq<u8> {
    seq![99u8, 111u8, 109u8, 109u8, 105u8, 116u8, 116u8, 101u8, 114u8, 32u8]
}

/// The bytes of an optional id text.
pub open spec fn opt_bytes(p: Option<&str>) -> Option<Seq<u8>> {
    match p {
        Some(s) => Some(s.spec_bytes()),
        None => None,
    }
}

/// An identity signature: `name <email> seconds offset`.
pub open spec fn signature_of(name: Seq<u8>, email: Seq<u8>, ts: nat, off: int) -> Seq<u8> {
    name + seq![32u8, 60u8] + email + seq![62u8, 32u8] + dec_of(ts) + seq![32u8] + tz_of(off)
}

/// The whole commit payload: the tree line, the parent line when a
/// parent is given, author and committer lines with one identity, an
/// empty line, the message, and a trailing newline.
pub open spec fn commit_payload_spec(
    tree: Seq<u8>,
    parent: Option<Seq<u8>>,
    name: Seq<u8>,
    email: Seq<u8>,
    ts: nat,
    off: int,
    msg: Seq<u8>,
) -> Seq<u8> {
    let parent_part = match parent {
        Some(p) => line_parent() + p + seq![10u8],
        None => Seq::<u8>::empty(),
    };
    let sig = signature_of(name, email, ts, off);
    line_tree() + tree + seq![10u8] + parent_part + line_author() + sig + seq![10u8]
        + line_committer() + sig + seq![10u8] + seq![10u8] + msg + seq![10u8]
}

/// Append the wire text of a UTC offset to `out`.
fn push_tz(out: &mut Vec<u8>, off: i32)
    requires
        -86400 < off < 86400,
    ensures
        final(out)@ == old(out)@ + tz_of(off as int),
{
    let mag: i32 = if off < 0 {
        -off
    } else {
        off
    };
    let sign: u8 = if off < 0 {
        45
    } else {
        43
    };
    let hours = mag / 3600;
    let minutes = (mag % 3600) / 60;
    out.push(sign);
    out.push(48 + (hours / 10) as u8);
    out.push(48 + (hours % 10) as u8);
    out.push(48 + (minutes / 10) as u8);
    out.push(48 + (minutes % 10) as u8);
    assert(out@ =~= old(out)@ + tz_of(off as int));
}

/// Build a commit payload from its parts.
pub fn build_commit_payload(
    tree_hash: &str,
    parent_hash: Option<&str>,
    author_name: &str,
    author_email: &str,
    timestamp: u64,
    offset_seconds: i32,
    message: &str,
) -> (r: Vec<u8>)
    requires
        -86400 < offset_seconds < 86400,
    ensures
        r@ == commit_payload_spec(
            tree_hash.spec_bytes(),
            opt_bytes(parent_hash),
            author_name.spec_bytes(),
            author_email.spec_bytes(),
            timestamp as nat,
            offset_seconds as int,
            message.spec_bytes(),
        ),
{
    let ghost th = tree_hash.spec_bytes();
    let ghost sig = signature_of(
        author_name.spec_bytes(),
        author_email.spec_bytes(),
        timestamp as nat,
        offset_seconds as int,
    );
    let ghost parent_part = match opt_bytes(parent_hash) {
        Some(p) => line_parent() + p + seq![10u8],
        None => Seq::<u8>::empty(),
    };

    let mut out: Vec<u8> = Vec::new();
    out.push(116);
    out.push(114);
    out.push(101);
    out.push(101);
    out.push(32);
    out.extend_from_slice(tree_hash.as_bytes());
    out.push(10);
    let ghost after_tree = line_tree() + th + seq![10u8];
    assert(out@ =~= after_tree);
    match parent_hash {
        Some(p) => {
            out.push(112);
            out.push(97);
            out.push(114);
            out.push(101);
            out.push(110);
            out.push(116);
            out.push(32);
            out.extend_from_slice(p.as_bytes());
            out.push(10);
            assert(out@ =~= after_tree + parent_part);
        },
        None => {
            assert(out@ =~= after_tree + parent_part);
        },
    }
    let ghost after_parent = after_tree + parent_part;
    out.push(97);
    out.push(117);
    out.push(116);
    out.push(104);
    out.push(111);
    out.push(114);
    out.push(32);
    push_signature(&mut out, author_name, author_email, timestamp, offset_seconds);
    out.push(10);
    let ghost after_author = after_parent + line_author() + sig + seq![10u8];
    assert(out@ =~= after_author);
    out.push(99);
    out.push(111);
    out.push(109);
    out.push(109);
    out.push(105);
    out.push(116);
    out.push(116);
    out.push(101);
    out.push(114);
    out.push(32);
    push_signature(&mut out, author_name, author_email, timestamp, offset_seconds);
    out.push(10);
    let ghost after_committer = after_author + line_committer() + sig + seq![10u8];
    assert(out@ =~= after_committer);
    out.push(10);
    out.extend_from_slice(message.as_bytes());
    out.push(10);
    assert(out@ =~= after_committer + seq![10u8] + message.spec_bytes() + seq![10u8]);
    proof {
        let want = commit_payload_spec(
            th,
            opt_bytes(parent_hash),
            author_name.spec_bytes(),
            author_email.spec_bytes(),
            timestamp as nat,
            offset_seconds as int,
            message.spec_bytes(),
        );
        assert(want =~= after_committer + seq![10u8] + message.spec_bytes() + seq![10u8]);
    }
    out
}

/// Append an identity signature to `out`.
fn push_signature(out: &mut Vec<u8>, name: &str, email: &str, ts: u64, off: i32)
    requires
        -86400 < off < 86400,
    ensures
        final(out)@ == old(out)@ + signature_of(
            name.spec_bytes(),
            email.spec_bytes(),
            ts as nat,
            off as int,
        ),
{
    out.extend_from_slice(name.as_bytes());
    out.push(32);
    out.push(60);
    out.extend_from_slice(email.as_bytes());
    out.push(62);
    out.push(32);
    push_dec(out, ts);
    out.push(32);
    push_tz(out, off);
    assert(out@ =~= old(out)@ + signature_of(
        name.spec_bytes(),
        email.spec_bytes(),
        ts as nat,
        off as int,
    ));
}

/// Assemble a commit for a tree, an optional parent and a message,
/// stamped with the current time and local UTC offset, and compute its
/// id and at-rest bytes. References are taken as opaque values and not
/// checked against the store.
pub fn commit(
    tree_hash: &str,
    message: &str,
    parent_hash: Option<&str>,
    author_name: &str,
    author_email: &str,
) -> (r: (String, Vec<u8>))
    ensures
        exists|ts: nat, off: int|
            {
                &&& -86400 < off < 86400
                &&& r.0@ == object_id_of(
                    ObjectKind::Commit,
                    #[trigger] commit_payload_spec(
                        tree_hash.spec_bytes(),
                        opt_bytes(parent_hash),
                        author_name.spec_bytes(),
                        author_email.spec_bytes(),
                        ts,
                        off,
                        message.spec_bytes(),
                    ),
                )
                &&& inflate_of(r.1@) == Some(
                    encode_spec(
                        ObjectKind::Commit,
                        commit_payload_spec(
                            tree_hash.spec_bytes(),
                            match parent_hash {
                                Some(p) => Some(p.spec_bytes()),
                                None => None,
                            },
                            author_name.spec_bytes(),
                            author_email.spec_bytes(),
                            ts,
                            off,
                            message.spec_bytes(),
                        ),
                    ),
                )
            },
        r.0@.len() == 40,
        is_hex_lower(r.0@),
{
    let ts = now_epoch_seconds();
    let off = local_utc_offset_seconds();
    let payload = build_commit_payload(
        tree_hash,
        parent_hash,
        author_name,
        author_email,
        ts,
        off,
        message,
    );
    let r = hash_object(ObjectKind::Commit, &payload);
    proof {
        let pl = commit_payload_spec(
            tree_hash.spec_bytes(),
            opt_bytes(parent_hash),
            author_name.spec_bytes(),
            author_email.spec_bytes(),
            ts as nat,
            off as int,
            message.spec_bytes(),
        );
        let offi = off as int;
        assert({
            &&& -86400 < offi < 86400
            &&& r.0@ == object_id_of(ObjectKind::Commit, pl)
            &&& inflate_of(r.1@) == Some(encode_spec(ObjectKind::Commit, pl))
        });
    }
    r
}

/// LAW: a commit payload opens with the line `tree <T>`, followed, when
/// a parent is given, by the line `parent <P>`.
pub proof fn lemma_commit_layout(
    tree: Seq<u8>,
    parent: Seq<u8>,
    name: Seq<u8>,
    email: Seq<u8>,
    ts: nat,
    off: int,
    msg: Seq<u8>,
)
    ensures
        ({
            let payload = commit_payload_spec(tree, Some(parent), name, email, ts, off, msg);
            let tree_line_end = 5 + tree.len() as int + 1;
            let parent_line_end = tree_line_end + 7 + parent.len() as int + 1;
            &&& payload.len() >= parent_line_end
            &&& payload.take(tree_line_end) == line_tree() + tree + seq![10u8]
            &&& payload.subrange(tree_line_end, parent_line_end) == line_parent() + parent
                + seq![10u8]
        }),
{
    let payload = commit_payload_spec(tree, Some(parent), name, email, ts, off, msg);
    let tree_line_end = 5 + tree.len() as int + 1;
    let parent_line_end = tree_line_end + 7 + parent.len() as int + 1;
    assert(payload.take(tree_line_end) =~= line_tree() + tree + seq![10u8]);
    assert(payload.subrange(tree_line_end, parent_line_end) =~= line_parent() + parent
        + seq![10u8]);
}

/// LAW: with the tree, parent, identity and stamp fixed, distinct
/// messages give distinct payloads, and so distinct encoded envelopes.
pub proof fn lemma_commit_message_injective(
    tree: Seq<u8>,
    parent: Option<Seq<u8>>,
    name: Seq<u8>,
    email: Seq<u8>,
    ts: nat,
    off: int,
    m1: Seq<u8>,
    m2: Seq<u8>,
)
    requires
        commit_payload_spec(tree, parent, name, email, ts, off, m1) == commit_payload_spec(
            tree,
            parent,
            name,
            email,
            ts,
            off,
            m2,
        ),
    ensures
        m1 == m2,
{
    let p1 = commit_payload_spec(tree, parent, name, email, ts, off, m1);
    let p2 = commit_payload_spec(tree, parent, name, email, ts, off, m2);
    let head = p1.len() - m1.len() - 1;
    assert(m1.len() == m2.len());
    assert forall|i: int| 0 <= i < m1.len() implies m1[i] == m2[i] by {
        assert(p1[head + i] == m1[i]);
        assert(p2[head + i] == m2[i]);
    }
    assert(m1 =~= m2);
}

} // verus!
