use triforge::account::check_signup;
use triforge::account::SignupError;
use triforge::names::branch_of;
use triforge::names::branch_ref;
use triforge::names::clean_repo_hash;
use triforge::names::is_ignored;
use triforge::names::repo_name_of_url;
use triforge::names::short_id;
use triforge::names::without_scheme;
use triforge::remotes::parse_remotes;
use triforge::remotes::with_remote;
use triforge::text::find_after_last;
use triforge::text::skip_prefixes;
use triforge::text::skip_suffixes;
use triforge::text::str_ends_with;
use triforge::transfer::decode_or_raw;
use triforge::transfer::encode_payload;
use triforge::transfer::has_id;
use triforge::transfer::missing_objects;

fn ignored_by_rule(path: &str) -> bool {
    path.contains("/.git/")
        || path.contains("/.tri/")
        || path.contains("/target/")
        || path.ends_with("/.git")
        || path.ends_with("/.tri")
}

#[test]
fn what_lies_in_the_stores_and_in_target_is_left_alone() {
    for path in [
        "./.git/HEAD",
        "./.git",
        "./.tri",
        "./.tri/objects/ab/cd",
        "./target/debug/app",
        "./src/main.rs",
        "./.gitignore",
        "./targets/x",
        "target/x",
        ".git/HEAD",
        "a/.github/workflows",
        "./src/.git",
        "",
        "/.tri",
    ] {
        assert_eq!(is_ignored(path), ignored_by_rule(path), "{}", path);
    }
    assert!(is_ignored("./.git/HEAD"));
    assert!(!is_ignored("./src/main.rs"));
    assert!(!is_ignored(".git/HEAD"));
}

#[test]
fn schemes_are_taken_off_the_address_of_a_repository() {
    for hash in [
        "abc123",
        "hyrule://abc123",
        "http://abc123",
        "https://abc123",
        "hyrule://hyrule://abc",
        "hyrule://http://https://abc",
        "https://http://abc",
        "http://hyrule://abc",
        "hyrule:/abc",
        "",
        "https://",
    ] {
        let expected = hash
            .trim_start_matches("hyrule://")
            .trim_start_matches("http://")
            .trim_start_matches("https://");
        assert_eq!(clean_repo_hash(hash), expected, "{}", hash);
    }
    assert_eq!(clean_repo_hash("hyrule://abc123"), "abc123");
    assert_eq!(without_scheme("hyrule://hyrule://abc"), "abc");
    assert_eq!(without_scheme("http://abc"), "http://abc");
    assert_eq!(without_scheme(""), "");
    assert_eq!(clean_repo_hash("https://http://abc"), "http://abc");
}

#[test]
fn a_repository_is_called_after_the_end_of_its_address() {
    for url in [
        "https://example.org/user/project.git",
        "https://example.org/user/project",
        "project.git",
        "git@example.org:user/project.git.git",
        "https://example.org/user/",
        "",
        ".git",
        "a/b/c.gitx",
    ] {
        let expected = url.split('/').last().unwrap().trim_end_matches(".git");
        assert_eq!(repo_name_of_url(url), expected, "{}", url);
    }
    assert_eq!(repo_name_of_url("https://example.org/user/project.git"), "project");
}

#[test]
fn branches_and_their_references() {
    assert_eq!(branch_ref("main"), "refs/heads/main");
    assert_eq!(branch_ref("feature/x"), "refs/heads/feature/x");
    assert_eq!(branch_of("refs/heads/main"), "main");
    assert_eq!(branch_of("refs/heads/feature/x"), "feature/x");
    assert_eq!(branch_of("refs/tags/v1"), "refs/tags/v1");
    assert_eq!(branch_of("refs/heads/"), "");
}

#[test]
fn an_id_is_shown_by_its_first_eight_characters() {
    assert_eq!(short_id("95d09f2b10159347eece71399a7e2e907ea3df4f"), "95d09f2b");
    assert_eq!(short_id("95d09f2b"), "95d09f2b");
    assert_eq!(short_id("95d0"), "95d0");
    assert_eq!(short_id(""), "");
    assert_eq!(short_id("ééééééééééé"), "éééééééé");
}

#[test]
fn ends_and_repeated_ends() {
    assert!(str_ends_with("a/.git", "/.git"));
    assert!(!str_ends_with(".git", "/.git"));
    assert!(str_ends_with("abc", ""));
    let text: Vec<char> = "ababxab".chars().collect();
    assert_eq!(skip_prefixes(&text, 0, &['a', 'b']), 4);
    assert_eq!(skip_prefixes(&text, 5, &['a', 'b']), 7);
    assert_eq!(skip_prefixes(&text, 1, &['a', 'b']), 1);
    assert_eq!(skip_prefixes(&text, 0, &[]), 0);
    assert_eq!(skip_suffixes(&text, 7, &['a', 'b']), 5);
    assert_eq!(skip_suffixes(&text, 4, &['a', 'b']), 0);
    assert_eq!(skip_suffixes(&text, 7, &[]), 7);
    assert_eq!(find_after_last(&text, 7, 'x'), 5);
    assert_eq!(find_after_last(&text, 4, 'x'), 0);
    assert_eq!(find_after_last(&text, 7, 'b'), 7);
}

#[test]
fn remotes_are_kept_one_on_a_line() {
    let one = with_remote("", "origin", "abc123");
    assert_eq!(one, "origin=abc123\n");
    let two = with_remote(&one, "backup", "def=456");
    assert_eq!(two, "origin=abc123\nbackup=def=456\n");
    let listed: Vec<(String, String)> =
        parse_remotes(&two).into_iter().map(|r| (r.name, r.hash)).collect();
    assert_eq!(
        listed,
        vec![
            ("origin".to_string(), "abc123".to_string()),
            ("backup".to_string(), "def=456".to_string()),
        ]
    );
    let odd: Vec<(String, String)> = parse_remotes("no equals sign\n=x\ny=\r\n\nlast=one")
        .into_iter()
        .map(|r| (r.name, r.hash))
        .collect();
    assert_eq!(
        odd,
        vec![
            ("".to_string(), "x".to_string()),
            ("y".to_string(), "".to_string()),
            ("last".to_string(), "one".to_string()),
        ]
    );
    assert_eq!(parse_remotes("").len(), 0);
}

#[test]
fn data_goes_over_the_wire_in_base64() {
    assert_eq!(encode_payload(b"hello world~"), Some("aGVsbG8gd29ybGR+".to_string()));
    assert_eq!(encode_payload(b""), Some("".to_string()));
    assert_eq!(encode_payload(b"a"), Some("YQ==".to_string()));
    assert_eq!(decode_or_raw(b"aGVsbG8gd29ybGR+".to_vec()), b"hello world~".to_vec());
    assert_eq!(decode_or_raw(b"YQ==".to_vec()), b"a".to_vec());
    for len in 0..70usize {
        let data: Vec<u8> = (0..len).map(|i| (i * 37 % 256) as u8).collect();
        let text = encode_payload(&data).unwrap();
        assert_eq!(decode_or_raw(text.into_bytes()), data);
    }
}

#[test]
fn what_is_not_base64_is_taken_as_it_is() {
    assert_eq!(decode_or_raw(b"blob 5\0hello".to_vec()), b"blob 5\0hello".to_vec());
    assert_eq!(decode_or_raw(b"YQ=".to_vec()), b"YQ=".to_vec());
    assert_eq!(decode_or_raw(vec![0xff, 0x00]), vec![0xff, 0x00]);
}

#[test]
fn the_objects_to_fetch_are_those_that_are_lacking() {
    let remote: Vec<String> = ["a", "b", "c", "b", "d"].iter().map(|s| s.to_string()).collect();
    let local: Vec<String> = ["b", "x", "d"].iter().map(|s| s.to_string()).collect();
    assert_eq!(missing_objects(&remote, &local), vec!["a".to_string(), "c".to_string()]);
    assert_eq!(missing_objects(&remote, &[]), remote);
    assert_eq!(missing_objects(&[], &local), Vec::<String>::new());
    assert_eq!(missing_objects(&remote, &remote), Vec::<String>::new());
    assert!(has_id(&local, "x"));
    assert!(!has_id(&local, "a"));
    assert!(!has_id(&[], "a"));
}

#[test]
fn a_new_account_is_held_against_the_rules() {
    assert_eq!(check_signup("link", "hyrule123", "hyrule123"), Ok(()));
    assert_eq!(check_signup("ab", "hyrule123", "hyrule123"), Err(SignupError::UsernameLength));
    assert_eq!(check_signup("abc", "hyrule123", "hyrule123"), Ok(()));
    assert_eq!(check_signup(&"a".repeat(32), "hyrule123", "hyrule123"), Ok(()));
    assert_eq!(
        check_signup(&"a".repeat(33), "hyrule123", "hyrule123"),
        Err(SignupError::UsernameLength)
    );
    // Lengths are counted in bytes.
    assert_eq!(check_signup("éé", "hyrule123", "hyrule123"), Ok(()));
    assert_eq!(check_signup("link", "1234567", "1234567"), Err(SignupError::PasswordLength));
    assert_eq!(check_signup("link", "12345678", "12345678"), Ok(()));
    assert_eq!(check_signup("link", "12345678", "12345679"), Err(SignupError::Mismatch));
    assert_eq!(check_signup("", "", "x"), Err(SignupError::UsernameLength));
    assert_eq!(check_signup("link", "", "x"), Err(SignupError::PasswordLength));
    assert_eq!(SignupError::UsernameLength.message(), "Username must be 3-32 characters");
    assert_eq!(SignupError::PasswordLength.message(), "Password must be at least 8 characters");
    assert_eq!(SignupError::Mismatch.message(), "Passwords do not match");
}
