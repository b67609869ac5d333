use minigit::store::{cat_file, hash_object, object_dir, object_file, read_object};
use minigit::{Error, ObjectKind};

#[test]
fn test_blob_known_vector() {
    // storing the blob "hello\n" yields the well-known id, and reading
    // it back with pretty-print returns exactly "hello\n"
    let (id, compressed) = hash_object(ObjectKind::Blob, &b"hello\n".to_vec());
    assert_eq!(id, "ce013625030ba8dba906f756967f9e9ca394464a");
    assert_eq!(cat_file(&compressed).unwrap(), "hello\n");
}

#[test]
fn test_id_deterministic() {
    let (id1, _) = hash_object(ObjectKind::Blob, &b"same content".to_vec());
    let (id2, _) = hash_object(ObjectKind::Blob, &b"same content".to_vec());
    assert_eq!(id1, id2);
}

#[test]
fn test_id_sensitivity() {
    // changing a single byte of the payload changes the id
    let (id1, _) = hash_object(ObjectKind::Blob, &b"hello\n".to_vec());
    let (id2, _) = hash_object(ObjectKind::Blob, &b"hellp\n".to_vec());
    assert_ne!(id1, id2);
    // the same payload under another kind also gets another id
    let (id3, _) = hash_object(ObjectKind::Tree, &b"hello\n".to_vec());
    assert_ne!(id1, id3);
}

#[test]
fn test_id_shape() {
    let (id, _) = hash_object(ObjectKind::Blob, &Vec::new());
    assert_eq!(id.len(), 40);
    assert!(id.chars().all(|c| c.is_ascii_hexdigit() && !c.is_ascii_uppercase()));
    // the empty blob has the well-known id
    assert_eq!(id, "e69de29bb2d1d6434b8b29ae775ad8c2e48c5391");
}

#[test]
fn test_read_object_round_trip() {
    let payload = b"some file contents".to_vec();
    let (_, compressed) = hash_object(ObjectKind::Blob, &payload);
    let (kind, read_back) = read_object(&compressed).unwrap();
    assert_eq!(kind, ObjectKind::Blob);
    assert_eq!(read_back, payload);
}

#[test]
fn test_read_object_rejects_garbage() {
    assert_eq!(read_object(&b"not a zlib stream".to_vec()), Err(Error::InvalidFormat));
}

#[test]
fn test_read_object_rejects_truncated() {
    let (_, compressed) = hash_object(ObjectKind::Blob, &b"hello\n".to_vec());
    let truncated = compressed[..compressed.len() / 2].to_vec();
    assert_eq!(read_object(&truncated), Err(Error::InvalidFormat));
}

#[test]
fn test_read_object_rejects_uncompressed_envelope() {
    // a raw envelope that was never compressed is not a valid stream
    assert_eq!(read_object(&b"blob 6\0hello\n".to_vec()), Err(Error::InvalidFormat));
}

#[test]
fn test_cat_file_rejects_wrong_kind() {
    let (_, compressed) = hash_object(ObjectKind::Tree, &Vec::new());
    assert_eq!(cat_file(&compressed), Err(Error::UnsupportedKind));
}

#[test]
fn test_cat_file_rejects_invalid_text() {
    let (_, compressed) = hash_object(ObjectKind::Blob, &vec![0xff, 0xfe, 0x00]);
    assert_eq!(cat_file(&compressed), Err(Error::EncodingFailure));
}

#[test]
fn test_object_path_split() {
    let id = "ce013625030ba8dba906f756967f9e9ca394464c";
    assert_eq!(object_dir(id), "ce");
    assert_eq!(object_file(id), "013625030ba8dba906f756967f9e9ca394464c");
}
