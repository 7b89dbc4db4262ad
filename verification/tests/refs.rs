use triforge::errors::StoreError;
use triforge::files::FileTree;
use triforge::native_git::refs::Refs;

const X: &str = "95d09f2b10159347eece71399a7e2e907ea3df4f";
const Y: &str = "e69de29bb2d1d6434b8b29ae775ad8c2e48c5391";

#[test]
fn a_reference_holds_an_id_and_a_line_feed() {
    let mut refs = Refs::new(FileTree::new());
    assert_eq!(refs.update("refs/heads/main", X), Ok(()));
    let mut file = X.as_bytes().to_vec();
    file.push(b'\n');
    assert_eq!(refs.git_dir().read("refs/heads/main"), Some(&file));
    assert_eq!(refs.read("refs/heads/main"), Ok(X.to_string()));
}

#[test]
fn a_reference_that_is_missing_is_not_found() {
    let refs = Refs::new(FileTree::new());
    assert_eq!(refs.read("refs/heads/main"), Err(StoreError::NotFound));
}

#[test]
fn a_reference_is_read_without_the_white_space_around_it() {
    let mut dir = FileTree::new();
    dir.write("refs/heads/main", format!("  \t{}\r\n\n", X).into_bytes());
    dir.write("refs/heads/empty", b"\n".to_vec());
    let refs = Refs::new(dir);
    assert_eq!(refs.read("refs/heads/main"), Ok(X.to_string()));
    assert_eq!(refs.read("refs/heads/empty"), Ok("".to_string()));
}

#[test]
fn a_reference_that_is_not_text_is_invalid() {
    let mut dir = FileTree::new();
    dir.write("refs/heads/main", vec![0xff, 0xfe, 0xfd]);
    let refs = Refs::new(dir);
    assert_eq!(refs.read("refs/heads/main"), Err(StoreError::InvalidFormat));
}

#[test]
fn updating_again_moves_the_reference() {
    let mut refs = Refs::new(FileTree::new());
    refs.update("refs/heads/main", X).unwrap();
    refs.update("refs/heads/main", Y).unwrap();
    assert_eq!(refs.read("refs/heads/main"), Ok(Y.to_string()));
    assert_eq!(refs.git_dir().len(), 1);
}

#[test]
fn a_deleted_reference_is_gone() {
    let mut refs = Refs::new(FileTree::new());
    refs.update("refs/heads/main", X).unwrap();
    refs.update("refs/heads/dev", Y).unwrap();
    assert_eq!(refs.delete("refs/heads/main"), Ok(()));
    assert_eq!(refs.read("refs/heads/main"), Err(StoreError::NotFound));
    assert_eq!(refs.read("refs/heads/dev"), Ok(Y.to_string()));
    assert_eq!(refs.delete("refs/heads/main"), Ok(()));
}

#[test]
fn references_are_listed_below_a_prefix() {
    let mut refs = Refs::new(FileTree::new());
    refs.update("HEAD", X).unwrap();
    refs.update("refs/heads/main", X).unwrap();
    refs.update("refs/tags/v1", X).unwrap();
    refs.update("refs/heads/feature/x", Y).unwrap();
    refs.update("refs/heads/feature/deep/y", Y).unwrap();
    refs.update("refs/headsman", Y).unwrap();
    let mut heads = refs.list("refs/heads").unwrap();
    heads.sort();
    assert_eq!(
        heads,
        vec![
            "refs/heads/feature/deep/y".to_string(),
            "refs/heads/feature/x".to_string(),
            "refs/heads/main".to_string(),
        ]
    );
    assert_eq!(refs.list("refs/tags"), Ok(vec!["refs/tags/v1".to_string()]));
    assert_eq!(refs.list("refs/remotes"), Ok(vec![]));
    assert_eq!(refs.list("refs").unwrap().len(), 5);
}

#[test]
fn head_that_names_a_branch_stands_for_what_the_branch_holds() {
    let mut dir = FileTree::new();
    dir.write("HEAD", b"ref: refs/heads/main\n".to_vec());
    let mut refs = Refs::new(dir);
    refs.update("refs/heads/main", X).unwrap();
    assert_eq!(refs.head(), Ok(X.to_string()));
}

#[test]
fn head_that_names_a_missing_branch_is_not_found() {
    let mut dir = FileTree::new();
    dir.write("HEAD", b"ref: refs/heads/main\n".to_vec());
    dir.write("refs/heads/other", b"x\n".to_vec());
    let refs = Refs::new(dir);
    assert_eq!(refs.head(), Err(StoreError::NotFound));
}

#[test]
fn head_that_holds_an_id_stands_for_it() {
    let mut refs = Refs::new(FileTree::new());
    refs.update("HEAD", X).unwrap();
    refs.update("refs/heads/main", Y).unwrap();
    assert_eq!(refs.head(), Ok(X.to_string()));
}

#[test]
fn head_is_followed_through_several_references() {
    let mut dir = FileTree::new();
    dir.write("HEAD", b"ref: refs/heads/a\n".to_vec());
    dir.write("refs/heads/a", b"ref: refs/heads/b\n".to_vec());
    dir.write("refs/heads/b", b"ref: refs/heads/c\n".to_vec());
    dir.write("refs/heads/c", format!("{}\n", Y).into_bytes());
    let refs = Refs::new(dir);
    assert_eq!(refs.head(), Ok(Y.to_string()));
    assert_eq!(refs.read("refs/heads/a"), Ok("ref: refs/heads/b".to_string()));
}

#[test]
fn head_that_goes_in_a_circle_is_invalid() {
    let mut dir = FileTree::new();
    dir.write("HEAD", b"ref: refs/heads/a\n".to_vec());
    dir.write("refs/heads/a", b"ref: refs/heads/b\n".to_vec());
    dir.write("refs/heads/b", b"ref: HEAD\n".to_vec());
    let refs = Refs::new(dir);
    assert_eq!(refs.head(), Err(StoreError::InvalidFormat));
    let mut own = FileTree::new();
    own.write("HEAD", b"ref: HEAD\n".to_vec());
    assert_eq!(Refs::new(own).head(), Err(StoreError::InvalidFormat));
}

#[test]
fn without_head_the_branch_main_is_read_and_then_master() {
    let mut refs = Refs::new(FileTree::new());
    assert_eq!(refs.head(), Err(StoreError::NotFound));
    refs.update("refs/heads/master", Y).unwrap();
    assert_eq!(refs.head(), Ok(Y.to_string()));
    refs.update("refs/heads/main", X).unwrap();
    assert_eq!(refs.head(), Ok(X.to_string()));
}

#[test]
fn the_directory_is_given_back() {
    let mut refs = Refs::new(FileTree::new());
    refs.update("refs/heads/main", X).unwrap();
    refs.git_dir_mut().write("extra", vec![1]);
    let dir = refs.into_git_dir();
    assert_eq!(dir.len(), 2);
    assert!(dir.has_file("extra"));
}
