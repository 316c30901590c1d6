use rit::{Blob, Command, Commit, GitObject, RitError, SerializeObject, Tree, TreeEntry};
use rit::store::store_plan;

const H1: &str = "000102030405060708090a0b0c0d0e0f101112131415161718191a1b1c1d1e1f";
const H2: &str = "ba7816bf8f01cfea414140de5dae2223b00361a396177a9cb410ff61f20015ad";

#[test]
fn blob_serializes_to_its_raw_bytes() {
    let blob = Blob { data: b"hello".to_vec() };
    let (tag, payload) = blob.serialize_data().unwrap();
    assert_eq!(tag.as_str(), "blob");
    assert_eq!(payload, b"hello".to_vec());
}

#[test]
fn blob_identifier_is_digest_of_header_and_payload() {
    let blob = Blob { data: b"abc".to_vec() };
    let id = blob.calculate_sha().unwrap();
    let expected = sha256::digest(&b"blob 3\0abc".to_vec());
    assert_eq!(id, expected);
}

#[test]
fn hashing_is_deterministic() {
    let a = Blob { data: b"same content".to_vec() };
    let b = Blob { data: b"same content".to_vec() };
    assert_eq!(a.calculate_sha().unwrap(), b.calculate_sha().unwrap());
    let c = Blob { data: b"same content!".to_vec() };
    assert_ne!(a.calculate_sha().unwrap(), c.calculate_sha().unwrap());
}

#[test]
fn identifier_is_lowercase_hex_of_length_64() {
    let blob = Blob { data: b"xyz".to_vec() };
    let id = blob.calculate_sha().unwrap();
    assert_eq!(id.len(), 64);
    assert!(id.chars().all(|c| c.is_ascii_hexdigit() && !c.is_ascii_uppercase()));
    assert_ne!(id.as_bytes(), b"xyz");
}

#[test]
fn get_sha_dispatches_to_the_wrapped_object() {
    let blob = Blob { data: b"abc".to_vec() };
    let expected = blob.calculate_sha().unwrap();
    let object = GitObject::Blob(blob);
    assert_eq!(object.get_sha().unwrap(), expected);
}

#[test]
fn tree_single_entry_encodes_exactly() {
    let tree = Tree {
        entries: vec![TreeEntry {
            mode: "100644".to_string(),
            name: "a.txt".to_string(),
            sha: H1.to_string(),
        }],
    };
    let (tag, payload) = tree.serialize_data().unwrap();
    assert_eq!(tag.as_str(), "tree");
    let mut expected = b"100644 a.txt\0".to_vec();
    let mut raw: Vec<u8> = Vec::new();
    for byte in 0u8..32u8 {
        raw.push(byte);
    }
    expected.extend_from_slice(&raw);
    assert_eq!(payload, expected);
}

#[test]
fn tree_embeds_the_binary_digest_not_its_hex() {
    let tree = Tree {
        entries: vec![TreeEntry {
            mode: "100644".to_string(),
            name: "f".to_string(),
            sha: H2.to_string(),
        }],
    };
    let (_, payload) = tree.serialize_data().unwrap();
    let raw = hex::decode(H2).unwrap();
    assert_eq!(&payload[payload.len() - 32..], raw.as_slice());
    assert_eq!(payload.len(), 6 + 1 + 1 + 1 + 32);
}

#[test]
fn tree_with_malformed_id_is_rejected() {
    let tree = Tree {
        entries: vec![TreeEntry {
            mode: "100644".to_string(),
            name: "a".to_string(),
            sha: "not-hex!".to_string(),
        }],
    };
    assert_eq!(tree.serialize_data().unwrap_err(), RitError::InvalidId);
    let object = GitObject::Tree(tree);
    assert_eq!(object.get_sha().unwrap_err(), RitError::InvalidId);
}

#[test]
fn tree_with_odd_length_id_is_rejected() {
    let tree = Tree {
        entries: vec![TreeEntry {
            mode: "100644".to_string(),
            name: "a".to_string(),
            sha: "abc".to_string(),
        }],
    };
    assert_eq!(tree.serialize_data().unwrap_err(), RitError::InvalidId);
}

#[test]
fn commit_without_parent_has_no_parent_line() {
    let commit = Commit {
        tree: H1.to_string(),
        parent: None,
        author: "alice".to_string(),
        message: "first commit".to_string(),
        timestamp: 1234567890,
    };
    let (tag, payload) = commit.serialize_data().unwrap();
    assert_eq!(tag.as_str(), "commit");
    let mut expected = Vec::new();
    expected.extend_from_slice(format!("tree {}\n", H1).as_bytes());
    expected.extend_from_slice(b"author alice 1234567890\n");
    expected.extend_from_slice(b"committer alice 1234567890\n");
    expected.extend_from_slice(b"\n");
    expected.extend_from_slice(b"first commit");
    assert_eq!(payload, expected);
    assert_eq!(payload.windows(7).filter(|w| *w == b"parent ").count(), 0);
}

#[test]
fn commit_with_parent_has_exactly_one_parent_line() {
    let commit = Commit {
        tree: H1.to_string(),
        parent: Some(H2.to_string()),
        author: "alice".to_string(),
        message: "second".to_string(),
        timestamp: 42,
    };
    let (_, payload) = commit.serialize_data().unwrap();
    let mut expected = Vec::new();
    expected.extend_from_slice(format!("tree {}\n", H1).as_bytes());
    expected.extend_from_slice(format!("parent {}\n", H2).as_bytes());
    expected.extend_from_slice(b"author alice 42\n");
    expected.extend_from_slice(b"committer alice 42\n");
    expected.extend_from_slice(b"\n");
    expected.extend_from_slice(b"second");
    assert_eq!(payload, expected);
    assert_eq!(payload.windows(7).filter(|w| *w == b"parent ").count(), 1);
    let text = String::from_utf8(payload).unwrap();
    let parent_lines: Vec<&str> =
        text.lines().filter(|l| l.starts_with("parent ")).collect();
    assert_eq!(parent_lines, vec![format!("parent {}", H2).as_str()]);
}

#[test]
fn commit_message_is_verbatim_without_newline_normalization() {
    let commit = Commit {
        tree: H1.to_string(),
        parent: None,
        author: "bob".to_string(),
        message: "line1\nline2\n\n".to_string(),
        timestamp: 0,
    };
    let (_, payload) = commit.serialize_data().unwrap();
    assert!(payload.ends_with(b"line1\nline2\n\n"));
    assert!(payload.contains(&b'0'));
}

#[test]
fn commit_identifier_matches_digest_of_encoding() {
    let commit = Commit {
        tree: H1.to_string(),
        parent: None,
        author: "alice".to_string(),
        message: "m".to_string(),
        timestamp: 7,
    };
    let (_, payload) = commit.serialize_data().unwrap();
    let mut buffer = format!("commit {}\0", payload.len()).into_bytes();
    buffer.extend_from_slice(&payload);
    assert_eq!(commit.calculate_sha().unwrap(), sha256::digest(&buffer));
}

#[test]
fn store_plan_writes_once_for_the_same_content() {
    let payload = b"some file".to_vec();
    let first = store_plan(false, "blob", &payload);
    let second = store_plan(true, "blob", &payload);
    assert!(first.write);
    assert!(!second.write);
    assert_eq!(first.id, second.id);
    assert_eq!(first.file, second.file);
    assert_eq!(first.contents, second.contents);
}

#[test]
fn store_plan_derives_path_and_contents_from_the_identifier() {
    let payload = b"abc".to_vec();
    let plan = store_plan(false, "blob", &payload);
    let blob = Blob { data: payload };
    let id = blob.calculate_sha().unwrap();
    assert_eq!(plan.id, id);
    assert_eq!(plan.dir, format!("objects/{}", &id[..2]));
    assert_eq!(plan.file, format!("objects/{}/{}", &id[..2], &id[2..]));
    assert_eq!(plan.contents, b"blob 3\0abc".to_vec());
}

#[test]
fn command_build_requires_a_command() {
    let args = vec!["rit".to_string()];
    let err = Command::build(&args).unwrap_err();
    assert_eq!(err, "Enter a command, type ./rit help for more information");
}

#[test]
fn command_build_requires_a_file_for_add_and_commit() {
    let args = vec!["rit".to_string(), "add".to_string()];
    assert_eq!(Command::build(&args).unwrap_err(), "Enter a file name");
    let args = vec!["rit".to_string(), "commit".to_string()];
    assert_eq!(Command::build(&args).unwrap_err(), "Enter a file name");
}

#[test]
fn command_build_parses_command_and_argument() {
    let args = vec!["rit".to_string(), "add".to_string(), "a.txt".to_string()];
    let command = Command::build(&args).unwrap();
    assert_eq!(command.command.as_str(), "add");
    assert_eq!(command.optional_arg.as_str(), "a.txt");
    let args = vec!["rit".to_string(), "status".to_string()];
    let command = Command::build(&args).unwrap();
    assert_eq!(command.command.as_str(), "status");
    assert_eq!(command.optional_arg.as_str(), "");
}
