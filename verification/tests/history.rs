use triforge::errors::StoreError;
use triforge::files::FileTree;
use triforge::native_git::commit::CommitBuilder;
use triforge::native_git::init;
use triforge::native_git::objects::GitObject;
use triforge::native_git::objects::ObjectType;
use triforge::native_git::open;
use triforge::tri::commit::commit_text;
use triforge::tri::commit::commit_tree;
use triforge::tri::commit::first_parent;
use triforge::tri::commit::history;
use triforge::tri::commit::message_of;
use triforge::tri::commit::tree_of_commit;
use triforge::tri::commit::tree_text;
use triforge::tri::crypto::salt_from_hex;
use triforge::tri::crypto::salt_to_hex;
use triforge::tri::crypto::EncryptionKey;
use triforge::tri::diff::flatten_text;
use triforge::tri::index::Index;
use triforge::tri::objects::store_object;

const TREE: &str = "4b825dc642cb6eb9a060e54bf8d69288fbee4904";

#[test]
fn a_history_goes_back_along_first_parents() {
    let mut repo = init(".", None).unwrap();
    let first = CommitBuilder::new_at(TREE.to_string(), "one".to_string(), 1).build(99).unwrap();
    let side = CommitBuilder::new_at(TREE.to_string(), "side".to_string(), 2).build(99).unwrap();
    let second = CommitBuilder::new_at(TREE.to_string(), "two".to_string(), 3)
        .parent(first.hash.clone())
        .parent(side.hash.clone())
        .build(99)
        .unwrap();
    let third = CommitBuilder::new_at(TREE.to_string(), "three".to_string(), 4)
        .parent(second.hash.clone())
        .build(99)
        .unwrap();
    for object in [&first, &side, &second, &third] {
        repo.store_object(object).unwrap();
    }
    let all = repo.history(&third.hash, 10).unwrap();
    let shown: Vec<(&str, &str)> =
        all.iter().map(|e| (e.id.as_str(), e.commit.message.as_str())).collect();
    assert_eq!(
        shown,
        vec![
            (third.hash.as_str(), "three"),
            (second.hash.as_str(), "two"),
            (first.hash.as_str(), "one"),
        ]
    );
    assert_eq!(all[1].commit.parents, vec![first.hash.clone(), side.hash.clone()]);
    assert_eq!(repo.history(&third.hash, 2).unwrap().len(), 2);
    assert_eq!(repo.history(&third.hash, 3).unwrap().len(), 3);
    assert_eq!(repo.history(&third.hash, 0).unwrap().len(), 0);
    assert_eq!(repo.history(&first.hash, 5).unwrap().len(), 1);
}

#[test]
fn a_history_ends_with_the_failure_of_what_cannot_be_read() {
    let mut repo = init(".", None).unwrap();
    let orphan = CommitBuilder::new_at(TREE.to_string(), "orphan".to_string(), 1)
        .parent("0123456789012345678901234567890123456789".to_string())
        .build(99)
        .unwrap();
    let blob = GitObject::new(ObjectType::Blob, b"no commit".to_vec());
    repo.store_object(&orphan).unwrap();
    repo.store_object(&blob).unwrap();
    assert_eq!(repo.history(&orphan.hash, 5).err(), Some(StoreError::NotFound));
    assert_eq!(repo.history(&orphan.hash, 1).unwrap().len(), 1);
    assert_eq!(repo.history(&blob.hash, 5).err(), Some(StoreError::TypeMismatch));
    assert_eq!(repo.history("", 5).err(), Some(StoreError::NotFound));
}

#[test]
fn a_check_tells_the_objects_that_cannot_be_read() {
    let mut repo = init(".", None).unwrap();
    let good = GitObject::new(ObjectType::Blob, b"good".to_vec());
    repo.store_object(&good).unwrap();
    let mut dir = repo.into_git_dir();
    dir.write("objects/ab/cdef", b"garbage".to_vec());
    dir.write("objects/cd/ef01", triforge::compression::compress(b"blub 1\0x").unwrap());
    let repo = open(".", Some(dir)).unwrap();
    let report = repo.verify_objects();
    assert_eq!(report.valid, 1);
    let mut invalid = report.invalid;
    invalid.sort();
    assert_eq!(invalid, vec!["abcdef".to_string(), "cdef01".to_string()]);
    let empty = init(".", None).unwrap().verify_objects();
    assert_eq!((empty.valid, empty.invalid.len()), (0, 0));
}

#[test]
fn the_tree_of_a_private_commit_is_one_line_for_each_file() {
    let mut index = Index::new();
    assert_eq!(tree_text(&index), "");
    index.add("src/main.rs".to_string(), "id1".to_string(), 1, 2);
    assert_eq!(tree_text(&index), "blob id1 src/main.rs");
    index.add("README.md".to_string(), "id2".to_string(), 3, 4);
    index.add("a b.txt".to_string(), "id3".to_string(), 5, 6);
    let text = tree_text(&index);
    assert_eq!(text, "blob id1 src/main.rs\nblob id2 README.md\nblob id3 a b.txt");
    let read: Vec<(String, String)> =
        flatten_text(&text).into_iter().map(|t| (t.path, t.id)).collect();
    assert_eq!(
        read,
        vec![
            ("src/main.rs".to_string(), "id1".to_string()),
            ("README.md".to_string(), "id2".to_string()),
            ("a".to_string(), "id3".to_string()),
        ]
    );
}

#[test]
fn the_text_of_a_private_commit() {
    assert_eq!(
        commit_text("t1", None, "first"),
        "tree t1\nauthor TriForge User\ncommitter TriForge User\n\nfirst\n"
    );
    assert_eq!(
        commit_text("t2", Some("c1"), "second\n\nbody"),
        "tree t2\nparent c1\nauthor TriForge User\ncommitter TriForge User\n\nsecond\n\nbody\n"
    );
    assert_eq!(
        commit_text("t3", None, "ends in line feeds\n\n\n"),
        "tree t3\nauthor TriForge User\ncommitter TriForge User\n\nends in line feeds\n"
    );
    assert_eq!(commit_text("t", None, "m\n"), commit_text("t", None, "m"));
    assert_eq!(
        commit_text("t4", None, ""),
        "tree t4\nauthor TriForge User\ncommitter TriForge User\n\n\n"
    );
}

#[test]
fn a_private_commit_is_taken_apart() {
    let text = commit_text("t2", Some("c1"), "  second\n\nbody \n");
    assert_eq!(tree_of_commit(&text), Some("t2".to_string()));
    assert_eq!(first_parent(&text), Some("c1".to_string()));
    assert_eq!(message_of(&text), "second\n\nbody");
    let root = commit_text("t1", None, "first");
    assert_eq!(first_parent(&root), None);
    assert_eq!(message_of(&root), "first");
    assert_eq!(tree_of_commit("author x\n\nno tree\n"), None);
    assert_eq!(tree_of_commit("x\n\ntree late\n"), Some("late".to_string()));
    assert_eq!(first_parent("parent a\r\nparent b\n"), Some("a".to_string()));
    assert_eq!(message_of("no empty line"), "");
    assert_eq!(message_of("h\n\na\r\nb\n\n"), "a\nb");
    assert_eq!(message_of(""), "");
}

#[test]
fn a_private_history_goes_back_along_first_parents() {
    let key = EncryptionKey::from_password("pw", &[1u8; 32]);
    let mut dir = FileTree::new();
    let first = store_object(
        &mut dir,
        ObjectType::Commit,
        commit_text("t1", None, "one").as_bytes(),
        Some(&key),
        true,
    )
    .unwrap();
    let second = store_object(
        &mut dir,
        ObjectType::Commit,
        commit_text("t2", Some(&first), "two").as_bytes(),
        Some(&key),
        true,
    )
    .unwrap();
    let third = store_object(
        &mut dir,
        ObjectType::Commit,
        commit_text("t3", Some(&second), "three").as_bytes(),
        Some(&key),
        true,
    )
    .unwrap();
    let all = history(&dir, &third, 10, Some(&key), true).unwrap();
    let shown: Vec<(&str, &str)> = all.iter().map(|e| (e.id.as_str(), e.message.as_str())).collect();
    assert_eq!(
        shown,
        vec![(third.as_str(), "three"), (second.as_str(), "two"), (first.as_str(), "one")]
    );
    assert_eq!(history(&dir, &third, 2, Some(&key), true).unwrap().len(), 2);
    assert_eq!(history(&dir, &third, 0, Some(&key), true).unwrap().len(), 0);
    assert_eq!(history(&dir, "0000", 3, Some(&key), true).err(), Some(StoreError::NotFound));
    assert_eq!(history(&dir, &third, 3, None, true).err(), Some(StoreError::InvalidFormat));
}

#[test]
fn a_private_history_ends_before_what_is_no_commit() {
    let mut dir = FileTree::new();
    let blob = store_object(&mut dir, ObjectType::Blob, b"x", None, false).unwrap();
    let commit = store_object(
        &mut dir,
        ObjectType::Commit,
        commit_text("t", Some(&blob), "m").as_bytes(),
        None,
        false,
    )
    .unwrap();
    assert_eq!(history(&dir, &commit, 5, None, false).unwrap().len(), 1);
    assert_eq!(history(&dir, &blob, 5, None, false).unwrap().len(), 0);
}

#[test]
fn a_salt_is_kept_in_hexadecimal() {
    let salt = EncryptionKey::generate_salt(1, 2);
    let text = salt_to_hex(&salt);
    assert_eq!(text.len(), 64);
    assert_eq!(salt_from_hex(&text), Ok(salt));
    assert_eq!(salt_from_hex(&format!("  {}\n", text.to_uppercase())), Ok(salt));
    assert_eq!(salt_from_hex(&format!("{}ffff", text)), Ok(salt));
    assert_eq!(salt_from_hex(&text[..62]), Err(StoreError::InvalidFormat));
    assert_eq!(salt_from_hex(""), Err(StoreError::InvalidFormat));
    assert_eq!(salt_from_hex(&text.replace('0', "g").replace('1', "g")), {
        if text.contains('0') || text.contains('1') {
            Err(StoreError::InvalidFormat)
        } else {
            Ok(salt)
        }
    });
    assert_eq!(
        salt_from_hex("000102030405060708090a0b0c0d0e0f101112131415161718191a1b1c1d1e1f"),
        Ok([
            0, 1, 2, 3, 4, 5, 6, 7, 8, 9, 10, 11, 12, 13, 14, 15, 16, 17, 18, 19, 20, 21, 22, 23,
            24, 25, 26, 27, 28, 29, 30, 31
        ])
    );
}

#[test]
fn the_tree_of_a_private_commit_is_found_in_the_store() {
    let mut dir = FileTree::new();
    let commit = store_object(
        &mut dir,
        ObjectType::Commit,
        commit_text("tree-id", None, "m").as_bytes(),
        None,
        true,
    )
    .unwrap();
    let bare = store_object(&mut dir, ObjectType::Commit, b"author x\n\nm\n", None, true).unwrap();
    let blob = store_object(&mut dir, ObjectType::Blob, b"tree t\n", None, true).unwrap();
    assert_eq!(commit_tree(&dir, &commit, None, true), Ok("tree-id".to_string()));
    assert_eq!(commit_tree(&dir, &bare, None, true), Err(StoreError::InvalidFormat));
    assert_eq!(commit_tree(&dir, &blob, None, true), Err(StoreError::TypeMismatch));
    assert_eq!(commit_tree(&dir, "0000", None, true), Err(StoreError::NotFound));
}
