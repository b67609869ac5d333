use minigit::blob::GitBlob;

#[test]
fn test_blob_serialize_is_identity() {
    let blob = GitBlob { blob_data: b"raw \0 bytes \xff".to_vec() };
    assert_eq!(blob.serialize(), b"raw \0 bytes \xff".to_vec());
}

#[test]
fn test_blob_deserialize_is_identity() {
    let mut blob = GitBlob { blob_data: Vec::new() };
    blob.deserialize(&b"contents".to_vec());
    assert_eq!(blob.blob_data, b"contents".to_vec());
}
