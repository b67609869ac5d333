use minigit::store::{hash_object, ls_tree, write_tree};
use minigit::tree::{tree_parse, GitTree, GitTreeLeaf};
use minigit::{Error, ObjectKind};

fn leaf(mode: &[u8], path: &[u8], sha: &str) -> GitTreeLeaf {
    GitTreeLeaf { mode: mode.to_vec(), path: path.to_vec(), sha_hash: String::from(sha) }
}

const SHA_A: &str = "aaaaaaaaaaaaaaaaaaaaaaaaaaaaaaaaaaaaaaaa";
const SHA_B: &str = "0123456789abcdef0123456789abcdef01234567";

#[test]
fn test_write_tree_empty() {
    // a directory with no storable entries yields the id of `tree 0\0`
    let tree = GitTree { leaves: Vec::new() };
    let (id, _) = write_tree(&tree);
    assert_eq!(id, "4b825dc642cb6eb9a060e54bf8d69288fbee4904");
}

#[test]
fn test_tree_serialize_exact() {
    // the mode loses one leading zero on the wire and the id is written
    // as its twenty raw bytes
    let tree = GitTree { leaves: vec![leaf(b"040000", b"d", SHA_B)] };
    let ser = tree.serialize();
    let mut expected = b"40000 d\0".to_vec();
    expected.extend_from_slice(&[
        0x01, 0x23, 0x45, 0x67, 0x89, 0xab, 0xcd, 0xef, 0x01, 0x23, 0x45, 0x67, 0x89, 0xab, 0xcd,
        0xef, 0x01, 0x23, 0x45, 0x67,
    ]);
    assert_eq!(ser, expected);
}

#[test]
fn test_tree_order_independence() {
    // the same entries in another input order serialize to identical
    // bytes and so to the identical id
    let a = leaf(b"100644", b"a.txt", SHA_A);
    let b = leaf(b"040000", b"d", SHA_B);
    let c = leaf(b"100644", b"z.txt", SHA_B);
    let t1 = GitTree {
        leaves: vec![
            leaf(b"100644", b"a.txt", SHA_A),
            leaf(b"040000", b"d", SHA_B),
            leaf(b"100644", b"z.txt", SHA_B),
        ],
    };
    let t2 = GitTree { leaves: vec![c, a, b] };
    let s1 = t1.serialize();
    let s2 = t2.serialize();
    assert_eq!(s1, s2);
    let (id1, _) = hash_object(ObjectKind::Tree, &s1);
    let (id2, _) = hash_object(ObjectKind::Tree, &s2);
    assert_eq!(id1, id2);
}

#[test]
fn test_tree_sort_file_before_directory_of_same_name() {
    // a file `a` sorts before a directory `a`, because the directory
    // key carries a trailing separator
    let tree = GitTree {
        leaves: vec![leaf(b"040000", b"a", SHA_B), leaf(b"100644", b"a", SHA_A)],
    };
    let ser = tree.serialize();
    let parsed = tree_parse(&ser).unwrap();
    assert_eq!(parsed.len(), 2);
    assert_eq!(parsed[0].mode, b"100644".to_vec());
    assert_eq!(parsed[1].mode, b"040000".to_vec());
}

#[test]
fn test_tree_round_trip() {
    let tree = GitTree {
        leaves: vec![leaf(b"040000", b"sub dir", SHA_B), leaf(b"100644", b"file.txt", SHA_A)],
    };
    let ser = tree.serialize();
    let parsed = tree_parse(&ser).unwrap();
    assert_eq!(parsed.len(), 2);
    // canonical order puts file.txt first
    assert_eq!(parsed[0].mode, b"100644".to_vec());
    assert_eq!(parsed[0].path, b"file.txt".to_vec());
    assert_eq!(parsed[0].sha_hash, SHA_A);
    assert_eq!(parsed[1].mode, b"040000".to_vec());
    assert_eq!(parsed[1].path, b"sub dir".to_vec());
    assert_eq!(parsed[1].sha_hash, SHA_B);
}

#[test]
fn test_tree_parse_five_digit_mode() {
    // a five-digit mode on the wire is widened to six digits
    let mut payload = b"40000 d\0".to_vec();
    payload.extend_from_slice(&[0u8; 20]);
    let parsed = tree_parse(&payload).unwrap();
    assert_eq!(parsed.len(), 1);
    assert_eq!(parsed[0].mode, b"040000".to_vec());
    assert_eq!(parsed[0].path, b"d".to_vec());
    assert_eq!(parsed[0].sha_hash, "0000000000000000000000000000000000000000");
}

#[test]
fn test_tree_parse_rejects_malformed() {
    // no space
    assert!(matches!(tree_parse(&b"40000d\0".to_vec()), Err(Error::InvalidFormat)));
    // no NUL behind the name
    assert!(matches!(tree_parse(&b"40000 d".to_vec()), Err(Error::InvalidFormat)));
    // fewer than twenty id bytes
    let mut short = b"40000 d\0".to_vec();
    short.extend_from_slice(&[0u8; 19]);
    assert!(matches!(tree_parse(&short), Err(Error::InvalidFormat)));
    // a mode that is not a digit run
    let mut bad = b"4o000 d\0".to_vec();
    bad.extend_from_slice(&[0u8; 20]);
    assert!(matches!(tree_parse(&bad), Err(Error::InvalidFormat)));
}

#[test]
fn test_ls_tree_names_in_canonical_order() {
    let tree = GitTree {
        leaves: vec![
            leaf(b"100644", b"z.txt", SHA_A),
            leaf(b"040000", b"d", SHA_B),
            leaf(b"100644", b"a.txt", SHA_A),
        ],
    };
    let (_, compressed) = write_tree(&tree);
    let names = ls_tree(&compressed).unwrap();
    assert_eq!(names, vec!["a.txt".to_string(), "d".to_string(), "z.txt".to_string()]);
}

#[test]
fn test_ls_tree_rejects_wrong_kind() {
    let (_, compressed) = hash_object(ObjectKind::Blob, &b"hello\n".to_vec());
    assert_eq!(ls_tree(&compressed), Err(Error::UnsupportedKind));
}

#[test]
fn test_nested_build() {
    // a directory holding a.txt ("x") and a subdirectory d holding
    // b.txt ("y"), built leaves first
    let (blob_a, _) = hash_object(ObjectKind::Blob, &b"x".to_vec());
    let (blob_b, _) = hash_object(ObjectKind::Blob, &b"y".to_vec());
    assert_ne!(blob_a, blob_b);

    let d_tree = GitTree { leaves: vec![leaf(b"100644", b"b.txt", &blob_b)] };
    let (d_id, d_compressed) = write_tree(&d_tree);
    let d_names = ls_tree(&d_compressed).unwrap();
    assert_eq!(d_names, vec!["b.txt".to_string()]);

    let root = GitTree {
        leaves: vec![leaf(b"040000", b"d", &d_id), leaf(b"100644", b"a.txt", &blob_a)],
    };
    let (root_id, root_compressed) = write_tree(&root);
    assert_eq!(root_id.len(), 40);
    let root_names = ls_tree(&root_compressed).unwrap();
    assert_eq!(root_names, vec!["a.txt".to_string(), "d".to_string()]);
}

#[test]
fn test_ls_tree_rejects_invalid_name() {
    // a name that is not valid text parses fine but cannot be listed
    let tree = GitTree { leaves: vec![leaf(b"100644", &[0xff, 0xfe], SHA_A)] };
    let (_, compressed) = write_tree(&tree);
    assert_eq!(ls_tree(&compressed), Err(Error::EncodingFailure));
}
