use triforge::errors::StoreError;
use triforge::native_git::objects::GitObject;
use triforge::native_git::objects::ObjectType;
use triforge::native_git::tree::TreeBuilder;

const ID_A: &str = "95d09f2b10159347eece71399a7e2e907ea3df4f";
const ID_B: &str = "e69de29bb2d1d6434b8b29ae775ad8c2e48c5391";
const ID_C: &str = "0123456789abcdef0123456789abcdef01234567";

fn raw(id: &str) -> Vec<u8> {
    (0..id.len() / 2).map(|i| u8::from_str_radix(&id[2 * i..2 * i + 2], 16).unwrap()).collect()
}

#[test]
fn an_empty_tree_is_the_one_git_knows() {
    let object = TreeBuilder::new().build().unwrap();
    assert_eq!(object.obj_type, ObjectType::Tree);
    assert_eq!(object.content, Vec::<u8>::new());
    assert_eq!(object.hash, "4b825dc642cb6eb9a060e54bf8d69288fbee4904");
}

#[test]
fn one_entry_is_mode_space_name_nul_and_raw_id() {
    let mut builder = TreeBuilder::new();
    builder.add_file("hello.txt".to_string(), ID_A.to_string());
    let object = builder.build().unwrap();
    let mut expected = b"100644 hello.txt\0".to_vec();
    expected.extend_from_slice(&raw(ID_A));
    assert_eq!(object.content, expected);
    assert_eq!(object.content.len(), 6 + 1 + 9 + 1 + 20);
}

#[test]
fn the_three_modes() {
    let mut builder = TreeBuilder::new();
    builder.add_file("f".to_string(), ID_A.to_string());
    builder.add_tree("d".to_string(), ID_B.to_string());
    builder.add_executable("x".to_string(), ID_C.to_string());
    let entries = TreeBuilder::parse(&builder.build().unwrap()).unwrap();
    let listed: Vec<(String, String, String)> =
        entries.into_iter().map(|e| (e.mode, e.name, e.hash)).collect();
    assert_eq!(
        listed,
        vec![
            ("040000".to_string(), "d".to_string(), ID_B.to_string()),
            ("100644".to_string(), "f".to_string(), ID_A.to_string()),
            ("100755".to_string(), "x".to_string(), ID_C.to_string()),
        ]
    );
}

#[test]
fn entries_are_written_in_the_order_of_their_names() {
    let mut forward = TreeBuilder::new();
    forward.add_file("a.txt".to_string(), ID_A.to_string());
    forward.add_file("b.txt".to_string(), ID_B.to_string());
    forward.add_file("c.txt".to_string(), ID_C.to_string());
    let mut backward = TreeBuilder::new();
    backward.add_file("c.txt".to_string(), ID_C.to_string());
    backward.add_file("b.txt".to_string(), ID_B.to_string());
    backward.add_file("a.txt".to_string(), ID_A.to_string());
    let mut mixed = TreeBuilder::new();
    mixed.add_file("b.txt".to_string(), ID_B.to_string());
    mixed.add_file("c.txt".to_string(), ID_C.to_string());
    mixed.add_file("a.txt".to_string(), ID_A.to_string());
    let one = forward.build().unwrap();
    let two = backward.build().unwrap();
    let three = mixed.build().unwrap();
    assert_eq!(one.content, two.content);
    assert_eq!(one.content, three.content);
    assert_eq!(one.hash, two.hash);
    assert_eq!(one.hash, three.hash);
    let mut expected = b"100644 a.txt\0".to_vec();
    expected.extend_from_slice(&raw(ID_A));
    expected.extend_from_slice(b"100644 b.txt\0");
    expected.extend_from_slice(&raw(ID_B));
    expected.extend_from_slice(b"100644 c.txt\0");
    expected.extend_from_slice(&raw(ID_C));
    assert_eq!(one.content, expected);
}

#[test]
fn names_are_ordered_as_strings_are() {
    let mut names = vec!["b", "a", "B", "ab", "a b", "", "é", "z", "a.txt", "a/b", "~", "10", "9"];
    let mut builder = TreeBuilder::new();
    for name in &names {
        builder.add_file(name.to_string(), ID_A.to_string());
    }
    names.sort();
    let parsed = TreeBuilder::parse(&builder.build().unwrap()).unwrap();
    let listed: Vec<&str> = parsed.iter().map(|e| e.name.as_str()).collect();
    assert_eq!(listed, names);
}

#[test]
fn adding_a_name_again_replaces_the_entry() {
    let mut builder = TreeBuilder::new();
    builder.add_file("a".to_string(), ID_A.to_string());
    builder.add_file("b".to_string(), ID_B.to_string());
    builder.add_executable("a".to_string(), ID_C.to_string());
    let entries = TreeBuilder::parse(&builder.build().unwrap()).unwrap();
    assert_eq!(entries.len(), 2);
    assert_eq!(entries[0].name, "a");
    assert_eq!(entries[0].mode, "100755");
    assert_eq!(entries[0].hash, ID_C);
    assert_eq!(entries[1].name, "b");
}

#[test]
fn what_was_built_is_parsed_back_sorted() {
    let mut builder = TreeBuilder::new();
    builder.add_file("zeta with spaces.txt".to_string(), ID_A.to_string());
    builder.add_file(" leading space".to_string(), ID_B.to_string());
    builder.add_tree("src".to_string(), ID_C.to_string());
    builder.add_file("naïve.txt".to_string(), ID_A.to_string());
    let object = builder.build().unwrap();
    let entries = TreeBuilder::parse(&object).unwrap();
    let listed: Vec<(&str, &str, &str)> =
        entries.iter().map(|e| (e.mode.as_str(), e.name.as_str(), e.hash.as_str())).collect();
    assert_eq!(
        listed,
        vec![
            ("100644", " leading space", ID_B),
            ("100644", "naïve.txt", ID_A),
            ("040000", "src", ID_C),
            ("100644", "zeta with spaces.txt", ID_A),
        ]
    );
}

#[test]
fn an_id_in_capitals_is_written_and_read_back_in_lowercase() {
    let mut builder = TreeBuilder::new();
    builder.add_file("a".to_string(), ID_C.to_uppercase());
    let entries = TreeBuilder::parse(&builder.build().unwrap()).unwrap();
    assert_eq!(entries[0].hash, ID_C);
}

#[test]
fn an_id_that_is_not_hexadecimal_cannot_be_built() {
    let mut builder = TreeBuilder::new();
    builder.add_file("a".to_string(), "not hexadecimal".to_string());
    assert_eq!(builder.build().err(), Some(StoreError::InvalidFormat));
    let mut odd = TreeBuilder::new();
    odd.add_file("a".to_string(), "abc".to_string());
    assert_eq!(odd.build().err(), Some(StoreError::InvalidFormat));
}

#[test]
fn only_a_tree_is_parsed_as_a_tree() {
    let blob = GitObject::new(ObjectType::Blob, b"100644 a\0aaaaaaaaaaaaaaaaaaaa".to_vec());
    assert_eq!(TreeBuilder::parse(&blob).err(), Some(StoreError::TypeMismatch));
    let commit = GitObject::new(ObjectType::Commit, Vec::new());
    assert_eq!(TreeBuilder::parse(&commit).err(), Some(StoreError::TypeMismatch));
}

#[test]
fn a_tree_that_is_cut_short_is_invalid() {
    let mut builder = TreeBuilder::new();
    builder.add_file("a.txt".to_string(), ID_A.to_string());
    builder.add_file("b.txt".to_string(), ID_B.to_string());
    let whole = builder.build().unwrap().content;
    for cut in 1..whole.len() {
        if cut == 33 {
            // Exactly the first entry: that is a tree of one entry.
            continue;
        }
        let object = GitObject::new(ObjectType::Tree, whole[..cut].to_vec());
        assert_eq!(TreeBuilder::parse(&object).err(), Some(StoreError::InvalidFormat), "{}", cut);
    }
    let first = GitObject::new(ObjectType::Tree, whole[..33].to_vec());
    assert_eq!(TreeBuilder::parse(&first).unwrap().len(), 1);
}

#[test]
fn a_tree_with_a_name_that_is_not_utf8_is_invalid() {
    let mut content = b"100644 \xff\xfe\0".to_vec();
    content.extend_from_slice(&[7u8; 20]);
    let object = GitObject::new(ObjectType::Tree, content);
    assert_eq!(TreeBuilder::parse(&object).err(), Some(StoreError::InvalidFormat));
}

#[test]
fn an_id_is_read_as_twenty_raw_bytes() {
    let mut content = b"100644 a\0".to_vec();
    content.extend_from_slice(&[0x00, 0x20, 0x0a, 0xff, 0x10, 0x01, 0, 0, 0, 0]);
    content.extend_from_slice(&[0, 0, 0, 0, 0, 0, 0, 0, 0, 0x9f]);
    let object = GitObject::new(ObjectType::Tree, content);
    let entries = TreeBuilder::parse(&object).unwrap();
    assert_eq!(entries.len(), 1);
    assert_eq!(entries[0].hash, "00200aff1001000000000000000000000000009f");
}

#[test]
fn ids_of_other_lengths_are_written_as_they_are() {
    let mut builder = TreeBuilder::new();
    builder.add_file("a".to_string(), "abcd".to_string());
    let object = builder.build().unwrap();
    assert_eq!(object.content, b"100644 a\0\xab\xcd".to_vec());
    assert_eq!(TreeBuilder::parse(&object).err(), Some(StoreError::InvalidFormat));
}
