//! The object envelope: `<kind> <decimal length>\0<payload>`, shared by
//! every object kind, together with its exact decoder.

use crate::digits::{all_digits, dec_of, dec_val, is_ascii_digit, lemma_dec_of_digits,
    lemma_dec_round_trip, lemma_dec_val_prefix, parse_dec, push_dec};
use crate::Error;
use crate::ObjectKind;
use vstd::prelude::*;

verus! {

/// The ASCII name of an object kind.
pub open spec fn kind_bytes(k: ObjectKind) -> Seq<u8> {
    match k {
        ObjectKind::Blob => seq![98u8, 108u8, 111u8, 98u8],
        ObjectKind::Tree => seq![116u8, 114u8, 101u8, 101u8],
        ObjectKind::Commit => seq![99u8, 111u8, 109u8, 109u8, 105u8, 116u8],
    }
}

/// The kind a token names, if it names one.
pub open spec fn kind_of_token(t: Seq<u8>) -> Option<ObjectKind> {
    if t == kind_bytes(ObjectKind::Blob) {
        Some(ObjectKind::Blob)
    } else if t == kind_bytes(ObjectKind::Tree) {
        Some(ObjectKind::Tree)
    } else if t == kind_bytes(ObjectKind::Commit) {
        Some(ObjectKind::Commit)
    } else {
        None
    }
}

/// The index of the first occurrence of `b` in `s`, if there is one.
pub open spec fn find_byte(s: Seq<u8>, b: u8) -> Option<int>
    decreases s.len(),
{
    if s.len() == 0 {
        None
    } else if s.first() == b {
        Some(0)
    } else {
        match find_byte(s.drop_first(), b) {
            Some(i) => Some(i + 1),
            None => None,
        }
    }
}

/// What `find_byte` returns: the least index holding `b`, or nothing
/// when no position holds it.
pub proof fn lemma_find_byte(s: Seq<u8>, b: u8)
    ensures
        match find_byte(s, b) {
            Some(i) => 0 <= i < s.len() && s[i] == b && forall|j: int|
                0 <= j < i ==> #[trigger] s[j] != b,
            None => forall|j: int| 0 <= j < s.len() ==> #[trigger] s[j] != b,
        },
    decreases s.len(),
{
    if s.len() > 0 && s.first() != b {
        lemma_find_byte(s.drop_first(), b);
        match find_byte(s.drop_first(), b) {
            Some(i) => {
                assert(s[i + 1] == s.drop_first()[i]);
                assert forall|j: int| 0 <= j < i + 1 implies #[trigger] s[j] != b by {
                    if j > 0 {
                        assert(s[j] == s.drop_first()[j - 1]);
                    }
                }
            },
            None => {
                assert forall|j: int| 0 <= j < s.len() implies #[trigger] s[j] != b by {
                    if j > 0 {
                        assert(s[j] == s.drop_first()[j - 1]);
                    }
                }
            },
        }
    }
}

/// `find_byte` finds exactly the least index holding `b`.
pub proof fn lemma_find_byte_is(s: Seq<u8>, b: u8, i: int)
    requires
        0 <= i < s.len(),
        s[i] == b,
        forall|j: int| 0 <= j < i ==> #[trigger] s[j] != b,
    ensures
        find_byte(s, b) == Some(i),
{
    lemma_find_byte(s, b);
}

/// The encoded envelope: kind name, space, decimal payload length, NUL,
/// payload.
pub open spec fn encode_spec(k: ObjectKind, payload: Seq<u8>) -> Seq<u8> {
    kind_bytes(k) + seq![32u8] + dec_of(payload.len()) + seq![0u8] + payload
}

/// The envelope decoder: the kind token ends at the first space, the
/// length token at the first NUL at or after that space; the token must
/// be a digit run whose value equals the remaining byte count, and the
/// kind token must name one of the three kinds.
pub open spec fn decode_spec(bytes: Seq<u8>) -> Option<(ObjectKind, Seq<u8>)> {
    match find_byte(bytes, 32u8) {
        None => None,
        Some(sp) => match find_byte(bytes.skip(sp), 0u8) {
            None => None,
            Some(off) => {
                let nl = sp + off;
                let len_tok = bytes.subrange(sp + 1, nl);
                let payload = bytes.skip(nl + 1);
                if len_tok.len() == 0 || !all_digits(len_tok) {
                    None
                } else if dec_val(len_tok) != payload.len() {
                    None
                } else {
                    match kind_of_token(bytes.take(sp)) {
                        None => None,
                        Some(kk) => Some((kk, payload)),
                    }
                }
            },
        },
    }
}

/// Decoding inverts encoding, for every kind and every payload.
pub proof fn lemma_decode_encode(k: ObjectKind, payload: Seq<u8>)
    ensures
        decode_spec(encode_spec(k, payload)) == Some((k, payload)),
{
    let e = encode_spec(k, payload);
    let kb = kind_bytes(k);
    let sp = kb.len() as int;
    let d = dec_of(payload.len());
    lemma_dec_of_digits(payload.len());
    let nl = sp + 1 + d.len();

    assert(e[sp] == 32);
    assert forall|j: int| 0 <= j < sp implies #[trigger] e[j] != 32 by {
        assert(e[j] == kb[j]);
    }
    lemma_find_byte_is(e, 32, sp);

    let s2 = e.skip(sp);
    assert(s2[nl - sp] == e[nl]);
    assert(e[nl] == 0);
    assert forall|j: int| 0 <= j < nl - sp implies #[trigger] s2[j] != 0 by {
        assert(s2[j] == e[sp + j]);
        if j == 0 {
            assert(e[sp] == 32);
        } else {
            assert(e[sp + j] == d[j - 1]);
            assert(is_ascii_digit(d[j - 1]));
        }
    }
    lemma_find_byte_is(s2, 0, nl - sp);

    assert(e.take(sp) =~= kb);
    assert(e.subrange(sp + 1, nl) =~= d);
    assert(e.skip(nl + 1) =~= payload);
    lemma_dec_round_trip(payload.len());
    assert(kind_of_token(kb) == Some(k)) by {
        assert(kind_bytes(ObjectKind::Blob)[0] != kind_bytes(ObjectKind::Tree)[0]);
        assert(kind_bytes(ObjectKind::Blob).len() != kind_bytes(ObjectKind::Commit).len());
        assert(kind_bytes(ObjectKind::Tree).len() != kind_bytes(ObjectKind::Commit).len());
    }
}

/// Build the envelope around a payload.
pub fn encode_object(kind: ObjectKind, payload: &Vec<u8>) -> (r: Vec<u8>)
    ensures
        r@ == encode_spec(kind, payload@),
{
    let mut out: Vec<u8> = Vec::new();
    match kind {
        ObjectKind::Blob => {
            out.push(98);
            out.push(108);
            out.push(111);
            out.push(98);
        },
        ObjectKind::Tree => {
            out.push(116);
            out.push(114);
            out.push(101);
            out.push(101);
        },
        ObjectKind::Commit => {
            out.push(99);
            out.push(111);
            out.push(109);
            out.push(109);
            out.push(105);
            out.push(116);
        },
    }
    assert(out@ =~= kind_bytes(kind));
    out.push(32);
    push_dec(&mut out, payload.len() as u64);
    out.push(0);
    out.extend_from_slice(payload.as_slice());
    assert(out@ =~= encode_spec(kind, payload@));
    out
}

/// Split an envelope into its kind and payload.
///
/// Fails with `InvalidFormat` exactly when the bytes do not follow the
/// envelope grammar: no space, no NUL at or after the space, a length
/// token that is not a digit run, a declared length different from the
/// remaining byte count, or an unknown kind name.
pub fn decode_object(bytes: &Vec<u8>) -> (r: Result<(ObjectKind, Vec<u8>), Error>)
    ensures
        match r {
            Ok((k, p)) => decode_spec(bytes@) == Some((k, p@)),
            Err(e) => decode_spec(bytes@) is None && e == Error::InvalidFormat,
        },
{
    let n = bytes.len();
    let mut sp: usize = 0;
    while sp < n && bytes[sp as usize] != 32
        invariant
            0 <= sp <= n,
            n == bytes@.len(),
            forall|j: int| 0 <= j < sp ==> #[trigger] bytes@[j] != 32,
        decreases n - sp,
    {
        sp = sp + 1;
    }
    if sp == n {
        proof {
            lemma_find_byte(bytes@, 32);
        }
        return Err(Error::InvalidFormat);
    }
    proof {
        lemma_find_byte_is(bytes@, 32, sp as int);
    }

    let mut nl: usize = sp;
    while nl < n && bytes[nl as usize] != 0
        invariant
            sp <= nl <= n,
            n == bytes@.len(),
            forall|j: int| sp <= j < nl ==> #[trigger] bytes@[j] != 0,
        decreases n - nl,
    {
        nl = nl + 1;
    }
    let ghost s2 = bytes@.skip(sp as int);
    if nl == n {
        proof {
            lemma_find_byte(s2, 0);
            if find_byte(s2, 0) is Some {
                let i = find_byte(s2, 0)->Some_0;
                assert(bytes@[sp + i] == s2[i]);
            }
        }
        return Err(Error::InvalidFormat);
    }
    proof {
        assert(s2[nl - sp] == bytes@[nl as int]);
        assert forall|j: int| 0 <= j < nl - sp implies #[trigger] s2[j] != 0 by {
            assert(s2[j] == bytes@[sp + j]);
        }
        lemma_find_byte_is(s2, 0, nl - sp);
    }

    let mut len_tok: Vec<u8> = Vec::new();
    let mut i: usize = sp + 1;
    while i < nl
        invariant
            sp + 1 <= i <= nl <= n,
            n == bytes@.len(),
            len_tok@ =~= bytes@.subrange(sp + 1, i as int),
        decreases nl - i,
    {
        len_tok.push(bytes[i]);
        assert(len_tok@ =~= bytes@.subrange(sp + 1, i + 1));
        i = i + 1;
    }
    let ghost tok = bytes@.subrange(sp + 1, nl as int);
    let ghost payload_gh = bytes@.skip(nl + 1);

    let declared = match parse_dec(&len_tok) {
        Some(v) => v,
        None => {
            proof {
                if tok.len() > 0 && all_digits(tok) {
                    // the token overflowed `usize`, so it cannot equal the
                    // remaining byte count
                    assert(dec_val(tok) > usize::MAX);
                    assert(payload_gh.len() <= usize::MAX);
                }
            }
            return Err(Error::InvalidFormat);
        },
    };
    let actual = n - (nl + 1);
    if declared != actual {
        assert(payload_gh.len() == actual);
        return Err(Error::InvalidFormat);
    }

    let kind = if sp == 4 && bytes[0] == 98 && bytes[1] == 108 && bytes[2] == 111 && bytes[3]
        == 98 {
        assert(bytes@.take(sp as int) =~= kind_bytes(ObjectKind::Blob));
        ObjectKind::Blob
    } else if sp == 4 && bytes[0] == 116 && bytes[1] == 114 && bytes[2] == 101 && bytes[3] == 101 {
        assert(bytes@.take(sp as int) =~= kind_bytes(ObjectKind::Tree));
        ObjectKind::Tree
    } else if sp == 6 && bytes[0] == 99 && bytes[1] == 111 && bytes[2] == 109 && bytes[3] == 109
        && bytes[4] == 105 && bytes[5] == 116 {
        assert(bytes@.take(sp as int) =~= kind_bytes(ObjectKind::Commit));
        ObjectKind::Commit
    } else {
        proof {
            let t = bytes@.take(sp as int);
            assert(t.len() == sp);
            assert forall|kk: ObjectKind| kind_of_token(t) != Some(kk) by {
                if t == kind_bytes(ObjectKind::Blob) {
                    assert(sp == 4 && t[0] == 98 && t[1] == 108 && t[2] == 111 && t[3] == 98);
                    assert(bytes@[0] == 98 && bytes@[1] == 108 && bytes@[2] == 111 && bytes@[3]
                        == 98);
                }
                if t == kind_bytes(ObjectKind::Tree) {
                    assert(bytes@[0] == 116 && bytes@[1] == 114 && bytes@[2] == 101 && bytes@[3]
                        == 101);
                }
                if t == kind_bytes(ObjectKind::Commit) {
                    assert(bytes@[0] == 99 && bytes@[1] == 111 && bytes@[2] == 109 && bytes@[3]
                        == 109 && bytes@[4] == 105 && bytes@[5] == 116);
                }
            }
        }
        return Err(Error::InvalidFormat);
    };

    let mut payload: Vec<u8> = Vec::new();
    let mut j: usize = nl + 1;
    while j < n
        invariant
            nl + 1 <= j <= n,
            n == bytes@.len(),
            payload@ =~= bytes@.subrange(nl + 1, j as int),
        decreases n - j,
    {
        payload.push(bytes[j]);
        assert(payload@ =~= bytes@.subrange(nl + 1, j + 1));
        j = j + 1;
    }
    assert(payload@ =~= payload_gh);
    Ok((kind, payload))
}

} // verus!

