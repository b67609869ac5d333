use minigit::commit::{build_commit_payload, commit, GitCommit};
use minigit::store::{hash_object, read_object};
use minigit::{Error, ObjectKind};

const TREE_ID: &str = "22264ec0ce9da29d0c420e46627fa0cf057e709a";
const PARENT_ID: &str = "03f882ade69ad898aba73664740641d909883cdc";

#[test]
fn test_commit_payload_layout() {
    let payload = build_commit_payload(
        TREE_ID,
        Some(PARENT_ID),
        "Ada Example",
        "ada@example.org",
        1493170892,
        -18000,
        "Fix size handling",
    );
    let text = String::from_utf8(payload).unwrap();
    let expected = format!(
        "tree {}\nparent {}\nauthor Ada Example <ada@example.org> 1493170892 -0500\ncommitter Ada Example <ada@example.org> 1493170892 -0500\n\nFix size handling\n",
        TREE_ID, PARENT_ID
    );
    assert_eq!(text, expected);
}

#[test]
fn test_commit_payload_without_parent() {
    let payload = build_commit_payload(
        TREE_ID,
        None,
        "Ada Example",
        "ada@example.org",
        0,
        0,
        "first",
    );
    let text = String::from_utf8(payload).unwrap();
    assert!(text.starts_with(&format!("tree {}\nauthor ", TREE_ID)));
    assert!(!text.contains("parent"));
    assert!(text.contains(" 0 +0000\n"));
}

#[test]
fn test_commit_offset_positive() {
    let payload = build_commit_payload(TREE_ID, None, "A", "a@b", 7, 19800, "m");
    let text = String::from_utf8(payload).unwrap();
    assert!(text.contains(" 7 +0530\n"));
}

#[test]
fn test_commit_offset_negative_partial_hour() {
    let payload = build_commit_payload(TREE_ID, None, "A", "a@b", 7, -34200, "m");
    let text = String::from_utf8(payload).unwrap();
    assert!(text.contains(" 7 -0930\n"));
}

#[test]
fn test_commit_message_changes_id() {
    // with tree, parent, identity and stamp fixed, the message alone
    // decides the id
    let p1 = build_commit_payload(TREE_ID, Some(PARENT_ID), "A", "a@b", 10, 0, "one");
    let p2 = build_commit_payload(TREE_ID, Some(PARENT_ID), "A", "a@b", 10, 0, "two");
    let (id1, _) = hash_object(ObjectKind::Commit, &p1);
    let (id2, _) = hash_object(ObjectKind::Commit, &p2);
    assert_ne!(id1, id2);
}

#[test]
fn test_commit_stores_and_reads_back() {
    let (id, compressed) = commit(TREE_ID, "a message", Some(PARENT_ID), "Ada", "ada@example.org");
    assert_eq!(id.len(), 40);
    assert!(id.chars().all(|c| c.is_ascii_hexdigit() && !c.is_ascii_uppercase()));
    let (kind, payload) = read_object(&compressed).unwrap();
    assert_eq!(kind, ObjectKind::Commit);
    let text = String::from_utf8(payload).unwrap();
    assert!(text.starts_with(&format!("tree {}\nparent {}\n", TREE_ID, PARENT_ID)));
    assert!(text.contains("\n\na message\n"));
}

#[test]
fn test_gitcommit_serialize_round_trip() {
    let c = GitCommit { commit_data: String::from("tree x\n\nhello\n") };
    let bytes = c.serialize();
    assert_eq!(bytes, b"tree x\n\nhello\n".to_vec());
    let mut d = GitCommit { commit_data: String::new() };
    d.deserialize(&bytes).unwrap();
    assert_eq!(d.commit_data, "tree x\n\nhello\n");
}

#[test]
fn test_gitcommit_deserialize_rejects_invalid_text() {
    let mut d = GitCommit { commit_data: String::from("kept") };
    assert_eq!(d.deserialize(&vec![0xff, 0x00]), Err(Error::EncodingFailure));
    assert_eq!(d.commit_data, "kept");
}
