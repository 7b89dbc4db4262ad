use triforge::files::FileTree;

#[test]
fn a_new_directory_is_empty() {
    let tree = FileTree::new();
    assert_eq!(tree.len(), 0);
    assert!(!tree.has_file("HEAD"));
    assert_eq!(tree.read("HEAD"), None);
}

#[test]
fn write_then_read_gives_the_bytes_back() {
    let mut tree = FileTree::new();
    tree.write("HEAD", b"ref: refs/heads/main\n".to_vec());
    assert_eq!(tree.read("HEAD"), Some(&b"ref: refs/heads/main\n".to_vec()));
    assert_eq!(tree.read("config"), None);
    assert!(tree.has_file("HEAD"));
    assert_eq!(tree.len(), 1);
}

#[test]
fn writing_a_path_again_replaces_what_it_held() {
    let mut tree = FileTree::new();
    tree.write("a", vec![1]);
    tree.write("b", vec![2]);
    tree.write("a", vec![3, 4]);
    assert_eq!(tree.len(), 2);
    assert_eq!(tree.read("a"), Some(&vec![3, 4]));
    assert_eq!(tree.read("b"), Some(&vec![2]));
    assert_eq!(tree.path_at(0), "a");
    assert_eq!(tree.path_at(1), "b");
    assert_eq!(tree.data_at(1), &vec![2]);
}

#[test]
fn remove_takes_one_file_out() {
    let mut tree = FileTree::new();
    tree.write("a", vec![1]);
    tree.write("b", vec![2]);
    tree.write("c", vec![3]);
    assert!(tree.remove("b"));
    assert!(!tree.remove("b"));
    assert_eq!(tree.len(), 2);
    assert_eq!(tree.read("a"), Some(&vec![1]));
    assert_eq!(tree.read("b"), None);
    assert_eq!(tree.read("c"), Some(&vec![3]));
}

#[test]
fn paths_are_told_apart_exactly() {
    let mut tree = FileTree::new();
    tree.write("refs/heads/main", vec![1]);
    assert!(!tree.has_file("refs/heads/mai"));
    assert!(!tree.has_file("refs/heads/main "));
    assert!(!tree.has_file("refs/heads/Main"));
    assert!(tree.has_file("refs/heads/main"));
}
