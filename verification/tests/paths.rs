use shell_bundler::fs::{get_parent_path, read_file_to_string, NoParent};
use shell_bundler::error::{ErrorKind, ResolveError};
use shell_bundler::path::{join_path, quoted};

fn parent(path: &str) -> Option<String> {
    get_parent_path(path).ok()
}

#[test]
fn join_relative_path_onto_directory() {
    assert_eq!(join_path("/home/me", "lib.sh"), "/home/me/lib.sh");
    assert_eq!(join_path("/home/me", "util/log.sh"), "/home/me/util/log.sh");
    assert_eq!(join_path("/home/me", "../lib.sh"), "/home/me/../lib.sh");
}

#[test]
fn join_absolute_path_replaces_directory() {
    assert_eq!(join_path("/home/me", "/etc/profile"), "/etc/profile");
    assert_eq!(join_path("", "/etc/profile"), "/etc/profile");
}

#[test]
fn join_adds_no_second_separator() {
    assert_eq!(join_path("/", "lib.sh"), "/lib.sh");
    assert_eq!(join_path("/home/me/", "lib.sh"), "/home/me/lib.sh");
}

#[test]
fn join_onto_empty_directory() {
    assert_eq!(join_path("", "lib.sh"), "lib.sh");
}

#[test]
fn join_empty_path() {
    assert_eq!(join_path("/home/me", ""), "/home/me/");
    assert_eq!(join_path("", ""), "");
}

#[test]
fn parent_of_absolute_paths() {
    assert_eq!(parent("/foo/bar"), Some("/foo".to_string()));
    assert_eq!(parent("/foo"), Some("/".to_string()));
    assert_eq!(parent("/home/me/main.sh"), Some("/home/me".to_string()));
}

#[test]
fn parent_of_relative_paths() {
    assert_eq!(parent("foo/bar"), Some("foo".to_string()));
    assert_eq!(parent("foo"), Some(String::new()));
    assert_eq!(parent("./foo"), Some(".".to_string()));
    assert_eq!(parent(".."), Some(String::new()));
    assert_eq!(parent("."), Some(String::new()));
    assert_eq!(parent("a/b/.."), Some("a/b".to_string()));
}

#[test]
fn parent_skips_separators_and_dots_at_the_end() {
    assert_eq!(parent("/a/b/"), Some("/a".to_string()));
    assert_eq!(parent("/a//b"), Some("/a".to_string()));
    assert_eq!(parent("/a/b/."), Some("/a".to_string()));
    assert_eq!(parent("/a/./b"), Some("/a".to_string()));
    assert_eq!(parent("a/b///"), Some("a".to_string()));
    assert_eq!(parent("//a"), Some("/".to_string()));
    assert_eq!(parent("a/"), Some(String::new()));
    assert_eq!(parent("a/."), Some(String::new()));
}

#[test]
fn root_and_empty_path_have_no_parent() {
    assert_eq!(get_parent_path("/"), Err(NoParent));
    assert_eq!(get_parent_path(""), Err(NoParent));
    assert_eq!(get_parent_path("//"), Err(NoParent));
    assert_eq!(get_parent_path("/."), Err(NoParent));
}

#[test]
fn quoted_plain_path() {
    assert_eq!(quoted("/home/me/lib.sh"), "\"/home/me/lib.sh\"");
    assert_eq!(quoted(""), "\"\"");
}

#[test]
fn quoted_escapes_quotes_and_backslashes() {
    assert_eq!(quoted("/a/b\"c"), "\"/a/b\\\"c\"");
    assert_eq!(quoted("/a/b\\c"), "\"/a/b\\\\c\"");
    assert_eq!(quoted("/a/it's"), "\"/a/it's\"");
}

#[test]
fn quoted_escapes_line_breaks_and_tabs() {
    assert_eq!(quoted("/a/b\nc"), "\"/a/b\\nc\"");
    assert_eq!(quoted("/a/b\rc"), "\"/a/b\\rc\"");
    assert_eq!(quoted("/a/b\tc"), "\"/a/b\\tc\"");
}

#[test]
fn quoted_tells_paths_apart() {
    assert_ne!(quoted("/a/b\nc"), quoted("/a/b\\nc"));
    assert_ne!(quoted("/a\""), quoted("/a\\\""));
}

#[test]
fn quoted_keeps_other_characters() {
    assert_eq!(quoted("/home/zoé/bibliothèque.sh"), "\"/home/zoé/bibliothèque.sh\"");
}

#[test]
fn bytes_that_are_text_are_read() {
    let text = read_file_to_string("/a.sh", Some(b"echo 'test'".to_vec()));
    assert_eq!(text, Ok("echo 'test'".to_string()));
}

#[test]
fn bytes_of_several_to_a_character_are_read() {
    let text = read_file_to_string("/a.sh", Some("echo zoé → ok".as_bytes().to_vec()));
    assert_eq!(text, Ok("echo zoé → ok".to_string()));
}

#[test]
fn empty_file_is_read() {
    assert_eq!(read_file_to_string("/a.sh", Some(Vec::new())), Ok(String::new()));
}

#[test]
fn missing_bytes_are_a_read_failure() {
    let failure = read_file_to_string("non_existent_file.txt", None);
    assert_eq!(
        failure,
        Err(ResolveError {
            kind: ErrorKind::FileRead,
            path: "non_existent_file.txt".to_string(),
            trace: Vec::new(),
        })
    );
}

#[test]
fn bytes_that_are_no_text_are_a_read_failure() {
    let failure = read_file_to_string("/bin/blob", Some(vec![0x66, 0xff, 0x6f]));
    assert_eq!(
        failure,
        Err(ResolveError {
            kind: ErrorKind::FileRead,
            path: "/bin/blob".to_string(),
            trace: Vec::new(),
        })
    );
    assert!(read_file_to_string("/bin/cut", Some(vec![0xe2, 0x86])).is_err());
}

#[test]
fn quoted_leaves_other_control_characters_as_they_are() {
    assert_eq!(quoted("/a\u{1}b"), "\"/a\u{1}b\"");
    assert_eq!(quoted("/a\0b"), "\"/a\0b\"");
    assert_eq!(quoted("/a\u{7f}"), "\"/a\u{7f}\"");
}
