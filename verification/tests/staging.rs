use rit::{Blob, Index, RitError, SerializeObject, WorkNode};

fn staged_paths(index: &Index) -> Vec<Vec<u8>> {
    let mut paths: Vec<Vec<u8>> = Vec::new();
    let mut i: usize = 0;
    while i < index.len() {
        paths.push(index.entry_at(i).path.clone());
        i += 1;
    }
    paths
}

#[test]
fn load_parses_three_field_lines() {
    let id = Blob { data: b"x".to_vec() }.calculate_sha().unwrap();
    let text = format!("a.txt 100644 {}\nb.txt 100755 {}\n", id, id);
    let index = Index::load(text.as_bytes()).unwrap();
    assert_eq!(index.len(), 2);
    let entry = index.entry_at(0);
    assert_eq!(entry.path, b"a.txt".to_vec());
    assert_eq!(entry.mode, b"100644".to_vec());
    assert_eq!(entry.id, id.as_bytes().to_vec());
}

#[test]
fn load_skips_empty_lines() {
    let index = Index::load(b"\n\n").unwrap();
    assert_eq!(index.len(), 0);
    let index = Index::load(b"").unwrap();
    assert_eq!(index.len(), 0);
}

#[test]
fn load_rejects_malformed_lines() {
    assert_eq!(Index::load(b"only-one-field\n").unwrap_err(), RitError::IndexFormat);
    assert_eq!(Index::load(b"two fields\n").unwrap_err(), RitError::IndexFormat);
    assert_eq!(Index::load(b"four fields in line\n").unwrap_err(), RitError::IndexFormat);
    assert_eq!(Index::load(b"empty mode  x\n").unwrap_err(), RitError::IndexFormat);
}

#[test]
fn load_duplicate_path_last_wins() {
    let text = b"a.txt 100644 1111\na.txt 100644 2222\n";
    let index = Index::load(text).unwrap();
    assert_eq!(index.len(), 1);
    assert_eq!(index.entry_at(0).id, b"2222".to_vec());
}

#[test]
fn save_load_round_trip_preserves_the_mapping() {
    let text = b"b.txt 100644 2222\na.txt 100644 1111\n";
    let index = Index::load(text).unwrap();
    let saved = index.save();
    assert_eq!(saved, text.to_vec());
    let reloaded = Index::load(&saved).unwrap();
    let saved_again = reloaded.save();
    assert_eq!(saved_again, saved);
    assert_eq!(staged_paths(&reloaded), staged_paths(&index));
}

#[test]
fn add_single_file_stages_the_blob() {
    let mut index = Index::new();
    index.add_single_file(b"a.txt".to_vec(), &b"abc".to_vec()).unwrap();
    assert_eq!(index.len(), 1);
    let expected_id = Blob { data: b"abc".to_vec() }.calculate_sha().unwrap();
    let entry = index.entry_at(0);
    assert_eq!(entry.path, b"a.txt".to_vec());
    assert_eq!(entry.mode, b"100644".to_vec());
    assert_eq!(entry.id, expected_id.as_bytes().to_vec());
}

#[test]
fn add_single_file_overwrites_a_prior_entry() {
    let mut index = Index::new();
    index.add_single_file(b"a.txt".to_vec(), &b"old".to_vec()).unwrap();
    index.add_single_file(b"a.txt".to_vec(), &b"new".to_vec()).unwrap();
    assert_eq!(index.len(), 1);
    let expected_id = Blob { data: b"new".to_vec() }.calculate_sha().unwrap();
    assert_eq!(index.entry_at(0).id, expected_id.as_bytes().to_vec());
}

#[test]
fn add_single_file_rejects_a_hidden_leaf() {
    let mut index = Index::new();
    index.add_single_file(b"kept.txt".to_vec(), &b"k".to_vec()).unwrap();
    let before = index.save();
    let err = index.add_single_file(b"dir/.secret".to_vec(), &b"s".to_vec()).unwrap_err();
    assert_eq!(err, RitError::PathRejected);
    assert_eq!(index.save(), before);
}

#[test]
fn add_single_file_rejects_the_reserved_name() {
    let mut index = Index::new();
    assert_eq!(
        index.add_single_file(b"rit".to_vec(), &b"r".to_vec()).unwrap_err(),
        RitError::PathRejected,
    );
    assert_eq!(
        index.add_single_file(b"dir/rit".to_vec(), &b"r".to_vec()).unwrap_err(),
        RitError::PathRejected,
    );
    assert_eq!(index.len(), 0);
}

#[test]
fn add_single_file_accepts_a_hidden_ancestor() {
    let mut index = Index::new();
    index.add_single_file(b"dir/.secret/ok.txt".to_vec(), &b"v".to_vec()).unwrap();
    assert_eq!(index.len(), 1);
    assert_eq!(index.entry_at(0).path, b"dir/.secret/ok.txt".to_vec());
}

#[test]
fn add_recursive_stages_visible_files_and_skips_hidden_subtrees() {
    let tree = WorkNode::Dir {
        name: b"root".to_vec(),
        children: vec![
            WorkNode::File { name: b"a.txt".to_vec(), data: b"alpha".to_vec() },
            WorkNode::Dir {
                name: b".hidden".to_vec(),
                children: vec![WorkNode::File {
                    name: b"b.txt".to_vec(),
                    data: b"beta".to_vec(),
                }],
            },
            WorkNode::File { name: b"rit".to_vec(), data: b"reserved".to_vec() },
        ],
    };
    let mut index = Index::new();
    index.add_recursive(&b"root".to_vec(), &tree).unwrap();
    assert_eq!(staged_paths(&index), vec![b"root/a.txt".to_vec()]);
    let expected_id = Blob { data: b"alpha".to_vec() }.calculate_sha().unwrap();
    assert_eq!(index.entry_at(0).id, expected_id.as_bytes().to_vec());
}

#[test]
fn add_recursive_descends_into_visible_subdirectories() {
    let tree = WorkNode::Dir {
        name: b"root".to_vec(),
        children: vec![WorkNode::Dir {
            name: b"sub".to_vec(),
            children: vec![
                WorkNode::File { name: b"inner.txt".to_vec(), data: b"i".to_vec() },
                WorkNode::File { name: b".dotfile".to_vec(), data: b"d".to_vec() },
            ],
        }],
    };
    let mut index = Index::new();
    index.add_recursive(&b"root".to_vec(), &tree).unwrap();
    assert_eq!(staged_paths(&index), vec![b"root/sub/inner.txt".to_vec()]);
}

#[test]
fn add_recursive_rejects_a_hidden_root_and_leaves_the_index_unchanged() {
    let tree = WorkNode::Dir {
        name: b".cfg".to_vec(),
        children: vec![WorkNode::File { name: b"x".to_vec(), data: b"x".to_vec() }],
    };
    let mut index = Index::new();
    index.add_single_file(b"kept.txt".to_vec(), &b"k".to_vec()).unwrap();
    let before = index.save();
    let err = index.add_recursive(&b"work/.cfg".to_vec(), &tree).unwrap_err();
    assert_eq!(err, RitError::PathRejected);
    assert_eq!(index.save(), before);
}

#[test]
fn saved_index_lines_have_three_fields() {
    let mut index = Index::new();
    index.add_single_file(b"dir/a.txt".to_vec(), &b"abc".to_vec()).unwrap();
    let saved = index.save();
    let text = String::from_utf8(saved).unwrap();
    let lines: Vec<&str> = text.lines().collect();
    assert_eq!(lines.len(), 1);
    let fields: Vec<&str> = lines[0].split(' ').collect();
    assert_eq!(fields.len(), 3);
    assert_eq!(fields[0], "dir/a.txt");
    assert_eq!(fields[1], "100644");
    assert_eq!(fields[2].len(), 64);
}
