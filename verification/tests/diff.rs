use triforge::errors::StoreError;
use triforge::files::FileTree;
use triforge::tri::crypto::EncryptionKey;
use triforge::tri::diff::diff_items;
use triforge::tri::diff::diff_trees;
use triforge::tri::diff::find_id;
use triforge::tri::diff::flatten_text;
use triforge::tri::diff::parse_tree;
use triforge::tri::diff::DiffEntry;
use triforge::tri::diff::FileStatus;
use triforge::tri::diff::TreeItem;
use triforge::tri::objects::store_object;
use triforge::tri::objects::ObjectType;

fn shown(diffs: &[DiffEntry]) -> Vec<(String, FileStatus, Option<String>, Option<String>)> {
    let mut all: Vec<_> = diffs
        .iter()
        .map(|d| (d.path.clone(), d.status, d.old_id.clone(), d.new_id.clone()))
        .collect();
    all.sort_by(|a, b| a.0.cmp(&b.0));
    all
}

fn items(pairs: &[(&str, &str)]) -> Vec<TreeItem> {
    pairs.iter().map(|(p, i)| TreeItem { path: p.to_string(), id: i.to_string() }).collect()
}

#[test]
fn one_added_one_deleted_one_unchanged() {
    let mut dir = FileTree::new();
    let old = store_object(
        &mut dir,
        ObjectType::Tree,
        b"blob id1 a.txt\nblob id2 b.txt",
        None,
        true,
    )
    .unwrap();
    let new = store_object(
        &mut dir,
        ObjectType::Tree,
        b"blob id1 a.txt\nblob id3 c.txt",
        None,
        true,
    )
    .unwrap();
    let diffs = diff_trees(&dir, Some(&old), &new, None, true).unwrap();
    assert_eq!(
        shown(&diffs),
        vec![
            ("b.txt".to_string(), FileStatus::Deleted, Some("id2".to_string()), None),
            ("c.txt".to_string(), FileStatus::Added, None, Some("id3".to_string())),
        ]
    );
    // The paths of the new tree come before the deletions.
    assert_eq!(diffs[0].path, "c.txt");
    assert_eq!(diffs[1].path, "b.txt");
}

#[test]
fn a_changed_id_is_a_modification() {
    let old = items(&[("a", "1"), ("b", "2")]);
    let new = items(&[("b", "3"), ("a", "1")]);
    let diffs = diff_items(Some(&old), &new);
    assert_eq!(
        shown(&diffs),
        vec![("b".to_string(), FileStatus::Modified, Some("2".to_string()), Some("3".to_string()))]
    );
}

#[test]
fn without_an_old_tree_everything_was_added() {
    let key = EncryptionKey::from_password("pw", &[0u8; 32]);
    let mut dir = FileTree::new();
    let new =
        store_object(&mut dir, ObjectType::Tree, b"blob 1 x\nblob 2 y\n", Some(&key), false)
            .unwrap();
    let diffs = diff_trees(&dir, None, &new, Some(&key), false).unwrap();
    assert_eq!(
        shown(&diffs),
        vec![
            ("x".to_string(), FileStatus::Added, None, Some("1".to_string())),
            ("y".to_string(), FileStatus::Added, None, Some("2".to_string())),
        ]
    );
}

#[test]
fn equal_trees_do_not_differ() {
    let tree = items(&[("a", "1"), ("b", "2")]);
    assert_eq!(diff_items(Some(&tree), &tree).len(), 0);
    assert_eq!(diff_items(Some(&Vec::new()), &Vec::new()).len(), 0);
    assert_eq!(diff_items(None, &Vec::new()).len(), 0);
}

#[test]
fn everything_deleted() {
    let old = items(&[("a", "1"), ("b", "2")]);
    let diffs = diff_items(Some(&old), &Vec::new());
    assert_eq!(
        shown(&diffs),
        vec![
            ("a".to_string(), FileStatus::Deleted, Some("1".to_string()), None),
            ("b".to_string(), FileStatus::Deleted, Some("2".to_string()), None),
        ]
    );
}

#[test]
fn of_two_lines_for_one_path_the_last_counts() {
    let old = items(&[("a", "1"), ("a", "2")]);
    let new = items(&[("a", "3"), ("a", "2"), ("b", "9"), ("b", "8")]);
    assert_eq!(find_id(&old, "a"), Some(&"2".to_string()));
    assert_eq!(find_id(&new, "b"), Some(&"8".to_string()));
    assert_eq!(find_id(&new, "c"), None);
    let diffs = diff_items(Some(&old), &new);
    assert_eq!(
        shown(&diffs),
        vec![("b".to_string(), FileStatus::Added, None, Some("8".to_string()))]
    );
}

#[test]
fn a_line_says_something_if_it_has_three_words() {
    let listed: Vec<(String, String)> = flatten_text(
        "blob id1 a.txt\n\nblob id2\n   blob \t id3   b.txt  trailing words\r\ntree id4 dir\nx",
    )
    .into_iter()
    .map(|t| (t.path, t.id))
    .collect();
    assert_eq!(
        listed,
        vec![
            ("a.txt".to_string(), "id1".to_string()),
            ("b.txt".to_string(), "id3".to_string()),
            ("dir".to_string(), "id4".to_string()),
        ]
    );
    assert_eq!(flatten_text("").len(), 0);
    assert_eq!(flatten_text("one two\n").len(), 0);
}

#[test]
fn only_a_tree_is_read_as_a_tree() {
    let mut dir = FileTree::new();
    let blob = store_object(&mut dir, ObjectType::Blob, b"blob 1 a", None, true).unwrap();
    let tree = store_object(&mut dir, ObjectType::Tree, b"blob 1 a", None, true).unwrap();
    assert_eq!(parse_tree(&dir, &blob, None, true).err(), Some(StoreError::TypeMismatch));
    assert_eq!(diff_trees(&dir, None, &blob, None, true).err(), Some(StoreError::TypeMismatch));
    assert_eq!(
        diff_trees(&dir, Some(&blob), &tree, None, true).err(),
        Some(StoreError::TypeMismatch)
    );
    assert_eq!(
        diff_trees(&dir, Some("0000"), &tree, None, true).err(),
        Some(StoreError::NotFound)
    );
    assert_eq!(diff_trees(&dir, None, "0000", None, true).err(), Some(StoreError::NotFound));
    assert_eq!(parse_tree(&dir, &tree, None, true).unwrap().len(), 1);
}

#[test]
fn bytes_that_are_not_utf8_are_replaced() {
    let mut dir = FileTree::new();
    let tree =
        store_object(&mut dir, ObjectType::Tree, b"blob id1 a\xff.txt\n", None, false).unwrap();
    let items = parse_tree(&dir, &tree, None, false).unwrap();
    assert_eq!(items.len(), 1);
    assert_eq!(items[0].path, "a\u{fffd}.txt");
    assert_eq!(items[0].id, "id1");
}

#[test]
fn the_signs_of_the_three_states() {
    assert_eq!(FileStatus::Added.symbol(), "+");
    assert_eq!(FileStatus::Modified.symbol(), "M");
    assert_eq!(FileStatus::Deleted.symbol(), "-");
}

#[test]
fn no_path_stands_twice_among_the_differences() {
    let old = items(&[("a", "1"), ("b", "2"), ("a", "3"), ("c", "4"), ("d", "5"), ("c", "6")]);
    let new = items(&[("b", "9"), ("e", "1"), ("b", "2"), ("a", "7"), ("e", "2"), ("a", "8")]);
    let diffs = diff_items(Some(&old), &new);
    let mut paths: Vec<&str> = diffs.iter().map(|d| d.path.as_str()).collect();
    paths.sort();
    assert_eq!(paths, vec!["a", "c", "d", "e"]);
    assert_eq!(
        shown(&diffs),
        vec![
            ("a".to_string(), FileStatus::Modified, Some("3".to_string()), Some("8".to_string())),
            ("c".to_string(), FileStatus::Deleted, Some("6".to_string()), None),
            ("d".to_string(), FileStatus::Deleted, Some("5".to_string()), None),
            ("e".to_string(), FileStatus::Added, None, Some("2".to_string())),
        ]
    );
}
