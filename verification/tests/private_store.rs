use triforge::errors::StoreError;
use triforge::files::FileTree;
use triforge::tri::crypto::hash_data;
use triforge::tri::crypto::EncryptionKey;
use triforge::tri::objects::list_objects;
use triforge::tri::objects::open_stored;
use triforge::tri::objects::read_object;
use triforge::tri::objects::store_object;
use triforge::tri::objects::ObjectType;
use triforge::tri::refs::list_refs;
use triforge::tri::refs::read_ref;
use triforge::tri::refs::set_ref;

fn key() -> EncryptionKey {
    EncryptionKey::from_password("hunter2", &[3u8; 32])
}

#[test]
fn what_was_stored_is_read_back_in_every_setting() {
    let key = key();
    let contents = [b"".to_vec(), b"hello".to_vec(), vec![0u8; 300], (0..=255u8).collect()];
    for kind in [ObjectType::Blob, ObjectType::Tree, ObjectType::Commit, ObjectType::Tag] {
        for content in &contents {
            for use_key in [false, true] {
                for compress in [false, true] {
                    let k = if use_key { Some(&key) } else { None };
                    let mut dir = FileTree::new();
                    let id = store_object(&mut dir, kind, content, k, compress).unwrap();
                    let (read_kind, read_content) = read_object(&dir, &id, k, compress).unwrap();
                    assert_eq!(read_kind, kind);
                    assert_eq!(&read_content, content);
                }
            }
        }
    }
}

#[test]
fn the_id_is_that_of_the_canonical_form() {
    let mut dir = FileTree::new();
    let id = store_object(&mut dir, ObjectType::Blob, b"hello", None, false).unwrap();
    assert_eq!(id, hash_data(b"blob 5\0hello"));
    assert_eq!(id.len(), 64);
    let path = format!("objects/{}/{}", &id[..2], &id[2..]);
    assert_eq!(dir.read(&path), Some(&b"blob 5\0hello".to_vec()));
    assert_eq!(dir.len(), 1);
}

#[test]
fn the_id_does_not_depend_on_key_or_deflating() {
    let key = key();
    let mut ids = Vec::new();
    for use_key in [false, true] {
        for compress in [false, true] {
            let k = if use_key { Some(&key) } else { None };
            let mut dir = FileTree::new();
            dir.write("unrelated", vec![1, 2, 3]);
            ids.push(store_object(&mut dir, ObjectType::Commit, b"same", k, compress).unwrap());
        }
    }
    assert_eq!(ids[0], ids[1]);
    assert_eq!(ids[0], ids[2]);
    assert_eq!(ids[0], ids[3]);
}

#[test]
fn storing_twice_gives_the_same_id_and_one_file() {
    let key = key();
    let mut dir = FileTree::new();
    let first = store_object(&mut dir, ObjectType::Blob, b"again", Some(&key), true).unwrap();
    let stored = dir.data_at(0).clone();
    let second = store_object(&mut dir, ObjectType::Blob, b"again", Some(&key), true).unwrap();
    assert_eq!(first, second);
    assert_eq!(dir.len(), 1);
    assert_eq!(dir.data_at(0), &stored);
}

#[test]
fn deflating_comes_before_encrypting() {
    let key = key();
    let mut dir = FileTree::new();
    let content = vec![b'a'; 4000];
    let id = store_object(&mut dir, ObjectType::Blob, &content, Some(&key), true).unwrap();
    let stored = dir.data_at(0).clone();
    assert!(stored.len() < 200);
    let deflated = key.decrypt(&stored);
    assert_eq!(deflated[0], 0x78);
    assert_eq!(
        triforge::compression::decompress(&deflated).unwrap(),
        [b"blob 4000\0".to_vec(), content.clone()].concat()
    );
    assert_eq!(read_object(&dir, &id, Some(&key), true), Ok((ObjectType::Blob, content)));
}

#[test]
fn a_private_object_that_is_not_there_is_not_found() {
    let dir = FileTree::new();
    let id = hash_data(b"x");
    assert_eq!(read_object(&dir, &id, None, true), Err(StoreError::NotFound));
    assert_eq!(read_object(&dir, "a", None, true), Err(StoreError::NotFound));
    assert_eq!(read_object(&dir, "", None, false), Err(StoreError::NotFound));
}

#[test]
fn one_damaged_byte_makes_the_object_invalid() {
    let key = key();
    let mut dir = FileTree::new();
    let content = b"some content that is long enough to deflate into a few blocks".to_vec();
    let id = store_object(&mut dir, ObjectType::Blob, &content, Some(&key), true).unwrap();
    let path = dir.path_at(0).clone();
    let good = dir.data_at(0).clone();
    for at in 0..good.len() {
        let mut bad = good.clone();
        bad[at] ^= 0x01;
        dir.write(&path, bad);
        match read_object(&dir, &id, Some(&key), true) {
            Err(StoreError::InvalidFormat) | Err(StoreError::TypeMismatch) => {}
            other => panic!("byte {} damaged, but read gave {:?}", at, other),
        }
    }
    dir.write(&path, good);
    assert_eq!(read_object(&dir, &id, Some(&key), true), Ok((ObjectType::Blob, content)));
}

#[test]
fn a_wrong_key_cannot_be_told_from_damage() {
    let mut dir = FileTree::new();
    let id = store_object(&mut dir, ObjectType::Blob, b"secret", Some(&key()), true).unwrap();
    let wrong = EncryptionKey::from_password("hunter3", &[3u8; 32]);
    assert_eq!(read_object(&dir, &id, Some(&wrong), true), Err(StoreError::InvalidFormat));
    assert_eq!(read_object(&dir, &id, None, true), Err(StoreError::InvalidFormat));
}

#[test]
fn stored_bytes_are_opened_step_by_step() {
    let key = key();
    assert_eq!(open_stored(b"tag 1\0x", None, false), Ok((ObjectType::Tag, b"x".to_vec())));
    let sealed = key.encrypt(b"tree 0\0");
    assert_eq!(open_stored(&sealed, Some(&key), false), Ok((ObjectType::Tree, Vec::new())));
    assert_eq!(open_stored(b"tag 1\0x", None, true), Err(StoreError::InvalidFormat));
    assert_eq!(open_stored(b"nothing", None, false), Err(StoreError::InvalidFormat));
}

#[test]
fn all_objects_are_listed() {
    let mut dir = FileTree::new();
    dir.write("HEAD", b"x\n".to_vec());
    dir.write("config.toml", b"".to_vec());
    let a = store_object(&mut dir, ObjectType::Blob, b"a", None, true).unwrap();
    let b = store_object(&mut dir, ObjectType::Blob, b"b", None, true).unwrap();
    dir.write("objects/abc/def", vec![]);
    let mut ids = list_objects(&dir).unwrap();
    ids.sort();
    let mut expected = vec![a, b, "abcdef".to_string()];
    expected.sort();
    assert_eq!(ids, expected);
    assert_eq!(list_objects(&FileTree::new()), Ok(vec![]));
}

#[test]
fn references_are_set_read_and_listed() {
    let mut dir = FileTree::new();
    assert_eq!(read_ref(&dir, "HEAD"), Err(StoreError::NotFound));
    assert_eq!(set_ref(&mut dir, "refs/heads/main", "abc123"), Ok(()));
    assert_eq!(set_ref(&mut dir, "HEAD", "abc123"), Ok(()));
    assert_eq!(set_ref(&mut dir, "refs/heads/topic/one", "def456"), Ok(()));
    assert_eq!(dir.read("HEAD"), Some(&b"abc123\n".to_vec()));
    assert_eq!(read_ref(&dir, "HEAD"), Ok("abc123".to_string()));
    assert_eq!(read_ref(&dir, "refs/heads/topic/one"), Ok("def456".to_string()));
    assert_eq!(
        list_refs(&dir, "refs/heads"),
        Ok(vec!["refs/heads/main".to_string(), "refs/heads/topic/one".to_string()])
    );
    assert_eq!(list_refs(&dir, "refs/tags"), Ok(vec![]));
}

#[test]
fn head_of_a_private_repository_is_read_as_it_is() {
    let mut dir = FileTree::new();
    dir.write("HEAD", b"ref: refs/heads/main\n".to_vec());
    assert_eq!(read_ref(&dir, "HEAD"), Ok("ref: refs/heads/main".to_string()));
}
