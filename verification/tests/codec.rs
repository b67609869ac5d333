use minigit::envelope::{decode_object, encode_object};
use minigit::{Error, ObjectKind};

#[test]
fn test_envelope_encoding_exact() {
    let payload = b"abc".to_vec();
    let encoded = encode_object(ObjectKind::Blob, &payload);
    assert_eq!(encoded, b"blob 3\0abc".to_vec());
}

#[test]
fn test_envelope_zero_length() {
    let encoded = encode_object(ObjectKind::Tree, &Vec::new());
    assert_eq!(encoded, b"tree 0\0".to_vec());
}

#[test]
fn test_envelope_commit_kind() {
    let encoded = encode_object(ObjectKind::Commit, &b"tree x\n".to_vec());
    assert_eq!(encoded, b"commit 7\0tree x\n".to_vec());
}

#[test]
fn test_envelope_round_trip_blob() {
    let payload = b"hello\n".to_vec();
    let encoded = encode_object(ObjectKind::Blob, &payload);
    let (kind, decoded) = decode_object(&encoded).unwrap();
    assert_eq!(kind, ObjectKind::Blob);
    assert_eq!(decoded, payload);
}

#[test]
fn test_envelope_round_trip_payload_with_delimiters() {
    // the payload may itself hold spaces and NUL bytes
    let payload = b" \0blob 3\0abc\0 ".to_vec();
    let encoded = encode_object(ObjectKind::Tree, &payload);
    let (kind, decoded) = decode_object(&encoded).unwrap();
    assert_eq!(kind, ObjectKind::Tree);
    assert_eq!(decoded, payload);
}

#[test]
fn test_decode_rejects_missing_space() {
    assert_eq!(decode_object(&b"blob3\0abc".to_vec()), Err(Error::InvalidFormat));
}

#[test]
fn test_decode_rejects_missing_nul() {
    assert_eq!(decode_object(&b"blob 3abc".to_vec()), Err(Error::InvalidFormat));
}

#[test]
fn test_decode_rejects_bad_length_token() {
    assert_eq!(decode_object(&b"blob 3a\0abc".to_vec()), Err(Error::InvalidFormat));
    assert_eq!(decode_object(&b"blob \0abc".to_vec()), Err(Error::InvalidFormat));
}

#[test]
fn test_decode_rejects_length_mismatch() {
    assert_eq!(decode_object(&b"blob 4\0abc".to_vec()), Err(Error::InvalidFormat));
    assert_eq!(decode_object(&b"blob 2\0abc".to_vec()), Err(Error::InvalidFormat));
}

#[test]
fn test_decode_rejects_unknown_kind() {
    assert_eq!(decode_object(&b"tag 3\0abc".to_vec()), Err(Error::InvalidFormat));
}

#[test]
fn test_decode_accepts_leading_zero_length() {
    let (kind, decoded) = decode_object(&b"blob 03\0abc".to_vec()).unwrap();
    assert_eq!(kind, ObjectKind::Blob);
    assert_eq!(decoded, b"abc".to_vec());
}

#[test]
fn test_envelope_multi_digit_length() {
    let payload = vec![7u8; 123];
    let encoded = encode_object(ObjectKind::Blob, &payload);
    assert_eq!(&encoded[..9], b"blob 123\0");
    let (kind, decoded) = decode_object(&encoded).unwrap();
    assert_eq!(kind, ObjectKind::Blob);
    assert_eq!(decoded, payload);
}
