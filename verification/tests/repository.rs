use triforge::errors::StoreError;
use triforge::files::FileTree;
use triforge::native_git::commit::CommitBuilder;
use triforge::native_git::init;
use triforge::native_git::objects::GitObject;
use triforge::native_git::objects::ObjectType;
use triforge::native_git::open;
use triforge::native_git::repository::Repository;
use triforge::native_git::tree::TreeBuilder;

#[test]
fn a_new_repository_has_head_and_config() {
    let repo = Repository::init("/work", None).unwrap();
    assert_eq!(repo.work_dir(), "/work");
    assert_eq!(repo.git_dir().len(), 2);
    assert_eq!(repo.git_dir().read("HEAD"), Some(&b"ref: refs/heads/main\n".to_vec()));
    assert_eq!(
        repo.git_dir().read("config"),
        Some(
            &b"[core]\n\trepositoryformatversion = 0\n\tfilemode = true\n\tbare = false\n".to_vec()
        )
    );
    assert_eq!(repo.head_commit(), Err(StoreError::NotFound));
    assert_eq!(repo.list_objects(), Ok(vec![]));
}

#[test]
fn a_repository_is_not_made_twice() {
    let first = init(".", None).unwrap();
    let again = init(".", Some(first.into_git_dir()));
    assert_eq!(again.err(), Some(StoreError::AlreadyExists));
    assert_eq!(Repository::init(".", Some(FileTree::new())).err(), Some(StoreError::AlreadyExists));
}

#[test]
fn only_a_repository_that_is_there_is_opened() {
    assert_eq!(open(".", None).err(), Some(StoreError::NotFound));
    assert_eq!(Repository::open(".", None).err(), Some(StoreError::NotFound));
    let made = init("w", None).unwrap();
    let opened = open("w", Some(made.into_git_dir())).unwrap();
    assert_eq!(opened.work_dir(), "w");
    assert!(opened.git_dir().has_file("HEAD"));
}

#[test]
fn objects_go_in_and_come_out() {
    let mut repo = init(".", None).unwrap();
    let blob = repo.create_blob(b"fn main() {}\n").unwrap();
    assert_eq!(blob.obj_type, ObjectType::Blob);
    assert_eq!(blob.hash, GitObject::new(ObjectType::Blob, b"fn main() {}\n".to_vec()).hash);
    assert_eq!(repo.list_objects(), Ok(vec![]));
    let id = repo.store_object(&blob).unwrap();
    assert_eq!(id, blob.hash);
    let loaded = repo.load_object(&id).unwrap();
    assert_eq!(loaded.obj_type, ObjectType::Blob);
    assert_eq!(loaded.content, b"fn main() {}\n".to_vec());
    assert_eq!(repo.list_objects(), Ok(vec![id]));
    assert_eq!(repo.load_object("0000").err(), Some(StoreError::NotFound));
}

#[test]
fn a_commit_is_made_and_found_through_head() {
    let mut repo = init(".", None).unwrap();
    let blob = repo.create_blob(b"hello").unwrap();
    let blob_id = repo.store_object(&blob).unwrap();
    let mut builder = TreeBuilder::new();
    builder.add_file("hello.txt".to_string(), blob_id.clone());
    let tree = builder.build().unwrap();
    let tree_id = repo.store_object(&tree).unwrap();
    let commit = CommitBuilder::new_at(tree_id.clone(), "first".to_string(), 1).build(99).unwrap();
    let commit_id = repo.store_object(&commit).unwrap();
    repo.refs_mut().update("refs/heads/main", &commit_id).unwrap();
    assert_eq!(repo.head_commit(), Ok(commit_id.clone()));
    assert_eq!(repo.refs().read("refs/heads/main"), Ok(commit_id.clone()));
    let parsed = CommitBuilder::parse(&repo.load_object(&commit_id).unwrap()).unwrap();
    assert_eq!(parsed.tree, tree_id);
    let entries = TreeBuilder::parse(&repo.load_object(&parsed.tree).unwrap()).unwrap();
    assert_eq!(entries.len(), 1);
    assert_eq!(entries[0].hash, blob_id);
    assert_eq!(repo.load_object(&entries[0].hash).unwrap().content, b"hello".to_vec());
    assert_eq!(repo.list_objects().unwrap().len(), 3);
}

#[test]
fn the_size_is_the_sum_of_the_files() {
    let mut dir = FileTree::new();
    assert_eq!(open(".", Some(FileTree::new())).unwrap().size(), Ok(0));
    dir.write("HEAD", vec![0; 10]);
    dir.write("objects/ab/cd", vec![0; 1000]);
    dir.write("empty", vec![]);
    let repo = open(".", Some(dir)).unwrap();
    assert_eq!(repo.size(), Ok(1010));
}

#[test]
fn an_object_is_stored_under_its_id_and_once() {
    let mut repo = init(".", None).unwrap();
    for (kind, content) in [
        (ObjectType::Blob, b"hello world".to_vec()),
        (ObjectType::Tree, Vec::new()),
        (ObjectType::Commit, b"tree x\n".to_vec()),
        (ObjectType::Tag, vec![0, 1, 2]),
    ] {
        let object = GitObject::new(kind, content.clone());
        let expected = triforge::native_git::hash::compute_object_hash(kind.as_str(), &content);
        let before = repo.list_objects().unwrap().len();
        assert_eq!(repo.store_object(&object), Ok(expected.clone()));
        let once: Vec<(String, Vec<u8>)> = (0..repo.git_dir().len())
            .map(|i| (repo.git_dir().path_at(i).clone(), repo.git_dir().data_at(i).clone()))
            .collect();
        assert_eq!(repo.store_object(&object), Ok(expected.clone()));
        let twice: Vec<(String, Vec<u8>)> = (0..repo.git_dir().len())
            .map(|i| (repo.git_dir().path_at(i).clone(), repo.git_dir().data_at(i).clone()))
            .collect();
        assert_eq!(once, twice);
        let listed = repo.list_objects().unwrap();
        assert_eq!(listed.len(), before + 1);
        assert_eq!(listed.iter().filter(|id| **id == expected).count(), 1);
    }
}
