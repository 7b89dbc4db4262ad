use triforge::errors::StoreError;
use triforge::native_git::commit::CommitBuilder;
use triforge::native_git::objects::GitObject;
use triforge::native_git::objects::ObjectType;
use triforge::text::closed;
use triforge::text::int_to_string;

const TREE: &str = "4b825dc642cb6eb9a060e54bf8d69288fbee4904";
const PARENT_A: &str = "95d09f2b10159347eece71399a7e2e907ea3df4f";
const PARENT_B: &str = "e69de29bb2d1d6434b8b29ae775ad8c2e48c5391";

fn commit(text: &str) -> GitObject {
    GitObject::new(ObjectType::Commit, text.as_bytes().to_vec())
}

#[test]
fn a_root_commit_is_written_line_by_line() {
    let object =
        CommitBuilder::new_at(TREE.to_string(), "Initial commit".to_string(), 1700000000)
            .build(99)
            .unwrap();
    assert_eq!(object.obj_type, ObjectType::Commit);
    let expected = "tree 4b825dc642cb6eb9a060e54bf8d69288fbee4904\n\
                    author TriForge User <user@triforge.local> 1700000000 +0000\n\
                    committer TriForge User <user@triforge.local> 1700000000 +0000\n\
                    \n\
                    Initial commit\n";
    assert_eq!(String::from_utf8(object.content.clone()).unwrap(), expected);
    assert_eq!(object.hash, GitObject::new(ObjectType::Commit, object.content.clone()).hash);
}

#[test]
fn parents_are_written_in_the_order_given() {
    let object = CommitBuilder::new_at(TREE.to_string(), "merge\n".to_string(), 5)
        .parent(PARENT_A.to_string())
        .parent(PARENT_B.to_string())
        .author("A <a@x>".to_string())
        .committer("C <c@x>".to_string())
        .build(99)
        .unwrap();
    let expected = format!(
        "tree {}\nparent {}\nparent {}\nauthor A <a@x> 5 +0000\ncommitter C <c@x> 5 +0000\n\nmerge\n",
        TREE, PARENT_A, PARENT_B
    );
    assert_eq!(String::from_utf8(object.content).unwrap(), expected);
}

#[test]
fn a_message_is_written_with_exactly_one_line_feed_at_its_end() {
    let without = CommitBuilder::new_at(TREE.to_string(), "m".to_string(), 0).build(99).unwrap();
    let with = CommitBuilder::new_at(TREE.to_string(), "m\n".to_string(), 0).build(99).unwrap();
    let two = CommitBuilder::new_at(TREE.to_string(), "m\n\n".to_string(), 0).build(99).unwrap();
    let three =
        CommitBuilder::new_at(TREE.to_string(), "msg\n\n\n".to_string(), 0).build(99).unwrap();
    let none = CommitBuilder::new_at(TREE.to_string(), "".to_string(), 0).build(99).unwrap();
    let only = CommitBuilder::new_at(TREE.to_string(), "\n\n".to_string(), 0).build(99).unwrap();
    let inner =
        CommitBuilder::new_at(TREE.to_string(), "a\n\nb \n\n".to_string(), 0).build(99).unwrap();
    assert!(without.content.ends_with(b"+0000\n\nm\n"));
    assert_eq!(without.content, with.content);
    assert_eq!(without.content, two.content);
    assert_eq!(without.hash, two.hash);
    assert!(three.content.ends_with(b"+0000\n\nmsg\n"));
    assert!(none.content.ends_with(b"+0000\n\n\n"));
    assert_eq!(none.content, only.content);
    assert!(inner.content.ends_with(b"+0000\n\na\n\nb \n"));
}

#[test]
fn text_is_closed_by_one_line_feed() {
    assert_eq!(closed(""), "\n");
    assert_eq!(closed("\n"), "\n");
    assert_eq!(closed("\n\n\n"), "\n");
    assert_eq!(closed("a"), "a\n");
    assert_eq!(closed("a\n"), "a\n");
    assert_eq!(closed("a\n\n\n"), "a\n");
    assert_eq!(closed("a\n\nb"), "a\n\nb\n");
    assert_eq!(closed("a\r\n"), "a\r\n");
    assert_eq!(closed("a \n \n"), "a \n \n");
}

#[test]
fn a_negative_time_stamp_is_written_with_its_sign() {
    let object = CommitBuilder::new_at(TREE.to_string(), "m".to_string(), -42).build(99).unwrap();
    let text = String::from_utf8(object.content).unwrap();
    assert!(text.contains("author TriForge User <user@triforge.local> -42 +0000\n"));
}

#[test]
fn numbers_are_written_in_decimal() {
    assert_eq!(int_to_string(0), "0");
    assert_eq!(int_to_string(7), "7");
    assert_eq!(int_to_string(10), "10");
    assert_eq!(int_to_string(1700000000), "1700000000");
    assert_eq!(int_to_string(-1), "-1");
    assert_eq!(int_to_string(i64::MAX), "9223372036854775807");
    assert_eq!(int_to_string(i64::MIN), "-9223372036854775808");
}

#[test]
fn a_new_commit_is_stamped_with_the_time_of_building() {
    let object =
        CommitBuilder::new(TREE.to_string(), "now".to_string()).build(1_700_000_123).unwrap();
    let parsed = CommitBuilder::parse(&object).unwrap();
    assert_eq!(parsed.author, "TriForge User <user@triforge.local> 1700000123 +0000");
    let early = CommitBuilder::new(TREE.to_string(), "then".to_string()).build(-5).unwrap();
    assert_eq!(
        CommitBuilder::parse(&early).unwrap().author,
        "TriForge User <user@triforge.local> -5 +0000"
    );
}

#[test]
fn a_fixed_time_stamp_is_kept_whenever_the_commit_is_built() {
    let one = CommitBuilder::new_at(TREE.to_string(), "m".to_string(), 7).build(1).unwrap();
    let two = CommitBuilder::new_at(TREE.to_string(), "m".to_string(), 7).build(2).unwrap();
    assert_eq!(one.content, two.content);
    assert_eq!(one.hash, two.hash);
    let other = CommitBuilder::new(TREE.to_string(), "m".to_string()).build(7).unwrap();
    assert_eq!(one.content, other.content);
}

#[test]
fn what_was_built_is_parsed_back() {
    let message = "Subject line\n\nBody paragraph one.\n\n\nBody after two blank lines.  \n\n";
    let object = CommitBuilder::new_at(TREE.to_string(), message.to_string(), 1700000000)
        .parent(PARENT_A.to_string())
        .parent(PARENT_B.to_string())
        .author("Ada <ada@example.org>".to_string())
        .build(99)
        .unwrap();
    let parsed = CommitBuilder::parse(&object).unwrap();
    assert_eq!(parsed.tree, TREE);
    assert_eq!(parsed.parents, vec![PARENT_A.to_string(), PARENT_B.to_string()]);
    assert_eq!(parsed.author, "Ada <ada@example.org> 1700000000 +0000");
    assert_eq!(
        parsed.message,
        "Subject line\n\nBody paragraph one.\n\n\nBody after two blank lines."
    );
}

#[test]
fn a_root_commit_has_no_parents() {
    let object = CommitBuilder::new_at(TREE.to_string(), "root".to_string(), 1).build(99).unwrap();
    let parsed = CommitBuilder::parse(&object).unwrap();
    assert_eq!(parsed.parents, Vec::<String>::new());
    assert_eq!(parsed.message, "root");
}

#[test]
fn only_the_white_space_at_the_end_of_a_message_is_trimmed() {
    let object =
        CommitBuilder::new_at(TREE.to_string(), "\n  indented\r\nsecond \t\n ".to_string(), 1)
            .build(99)
            .unwrap();
    let parsed = CommitBuilder::parse(&object).unwrap();
    assert_eq!(parsed.message, "\n  indented\r\nsecond");
}

#[test]
fn only_a_commit_is_parsed_as_a_commit() {
    let text = format!("tree {}\nauthor A 1 +0000\n\nm\n", TREE);
    let blob = GitObject::new(ObjectType::Blob, text.as_bytes().to_vec());
    assert_eq!(CommitBuilder::parse(&blob).err(), Some(StoreError::TypeMismatch));
    let tree = GitObject::new(ObjectType::Tree, Vec::new());
    assert_eq!(CommitBuilder::parse(&tree).err(), Some(StoreError::TypeMismatch));
}

#[test]
fn a_commit_without_a_tree_is_invalid() {
    let object = commit("author A 1 +0000\ncommitter A 1 +0000\n\nm\n");
    assert_eq!(CommitBuilder::parse(&object).err(), Some(StoreError::InvalidFormat));
    // A tree line in the message does not count.
    let late = commit("author A 1 +0000\n\ntree 4b825dc642cb6eb9a060e54bf8d69288fbee4904\n");
    assert_eq!(CommitBuilder::parse(&late).err(), Some(StoreError::InvalidFormat));
}

#[test]
fn a_commit_without_an_author_is_invalid() {
    let object = commit(&format!("tree {}\ncommitter A 1 +0000\n\nm\n", TREE));
    assert_eq!(CommitBuilder::parse(&object).err(), Some(StoreError::InvalidFormat));
    assert_eq!(CommitBuilder::parse(&commit("")).err(), Some(StoreError::InvalidFormat));
}

#[test]
fn a_commit_that_is_not_utf8_is_invalid() {
    let mut bytes = format!("tree {}\nauthor A 1 +0000\n\n", TREE).into_bytes();
    bytes.extend_from_slice(&[0xff, 0xfe]);
    let object = GitObject::new(ObjectType::Commit, bytes);
    assert_eq!(CommitBuilder::parse(&object).err(), Some(StoreError::InvalidFormat));
}

#[test]
fn the_first_author_line_counts() {
    let object = commit(&format!(
        "tree {}\nauthor First 1 +0000\nauthor Second 2 +0000\n\nm\n",
        TREE
    ));
    assert_eq!(CommitBuilder::parse(&object).unwrap().author, "First 1 +0000");
}

#[test]
fn header_lines_may_end_in_carriage_return_and_line_feed() {
    let object = commit(&format!(
        "tree {}\r\nparent {}\r\nauthor A 1 +0000\r\nunknown line\r\n\r\nmessage\r\n",
        TREE, PARENT_A
    ));
    let parsed = CommitBuilder::parse(&object).unwrap();
    assert_eq!(parsed.tree, TREE);
    assert_eq!(parsed.parents, vec![PARENT_A.to_string()]);
    assert_eq!(parsed.author, "A 1 +0000");
    assert_eq!(parsed.message, "message");
}

#[test]
fn a_commit_without_an_empty_line_has_no_message() {
    let object = commit(&format!("tree {}\nauthor A 1 +0000", TREE));
    let parsed = CommitBuilder::parse(&object).unwrap();
    assert_eq!(parsed.tree, TREE);
    assert_eq!(parsed.author, "A 1 +0000");
    assert_eq!(parsed.message, "");
}

#[test]
fn parse_chars_reads_text_directly() {
    let parsed =
        CommitBuilder::parse_chars("tree t\nparent p\nauthor a\n\nhello\n\nworld\n\n").unwrap();
    assert_eq!(parsed.tree, "t");
    assert_eq!(parsed.parents, vec!["p".to_string()]);
    assert_eq!(parsed.author, "a");
    assert_eq!(parsed.message, "hello\n\nworld");
    assert_eq!(CommitBuilder::parse_chars("parent p\n").err(), Some(StoreError::InvalidFormat));
}

#[test]
fn a_commit_can_be_built_at_a_given_time() {
    let object = CommitBuilder::new(TREE.to_string(), "m".to_string()).build_at(7).unwrap();
    let text = String::from_utf8(object.content).unwrap();
    assert!(text.contains("author TriForge User <user@triforge.local> 7 +0000\n"));
    assert!(text.contains("committer TriForge User <user@triforge.local> 7 +0000\n"));
    let fixed = CommitBuilder::new_at(TREE.to_string(), "m".to_string(), 7).build(99).unwrap();
    assert_eq!(fixed.content, text.into_bytes());
    let other = CommitBuilder::new_at(TREE.to_string(), "m".to_string(), 7).build_at(8).unwrap();
    assert_ne!(other.hash, fixed.hash);
}
