use shell_bundler::directive::match_directive;

fn path_of(line: &str) -> Option<String> {
    match_directive(line)
}

#[test]
fn source_keyword_with_path() {
    assert_eq!(path_of("source lib.sh"), Some("lib.sh".to_string()));
}

#[test]
fn dot_keyword_with_path() {
    assert_eq!(path_of(". lib.sh"), Some("lib.sh".to_string()));
}

#[test]
fn leading_whitespace_is_allowed() {
    assert_eq!(path_of("  \t source lib.sh"), Some("lib.sh".to_string()));
    assert_eq!(path_of("\t. ./util/log.sh"), Some("./util/log.sh".to_string()));
}

#[test]
fn several_blanks_between_keyword_and_path() {
    assert_eq!(path_of("source \t  lib.sh"), Some("lib.sh".to_string()));
}

#[test]
fn path_ends_at_first_whitespace() {
    assert_eq!(path_of("source lib.sh # the library"), Some("lib.sh".to_string()));
    assert_eq!(path_of("source a.sh b.sh"), Some("a.sh".to_string()));
    assert_eq!(path_of("source lib.sh\r"), Some("lib.sh".to_string()));
}

#[test]
fn double_quotes_are_stripped() {
    assert_eq!(path_of("source \"lib.sh\""), Some("lib.sh".to_string()));
}

#[test]
fn single_quotes_are_stripped() {
    assert_eq!(path_of(". 'lib.sh'"), Some("lib.sh".to_string()));
}

#[test]
fn quotes_that_do_not_match_stay() {
    assert_eq!(path_of("source \"lib.sh'"), Some("\"lib.sh'".to_string()));
    assert_eq!(path_of("source \"lib.sh"), Some("\"lib.sh".to_string()));
    assert_eq!(path_of("source lib.sh\""), Some("lib.sh\"".to_string()));
    assert_eq!(path_of("source \""), Some("\"".to_string()));
}

#[test]
fn quoted_path_with_a_blank_is_cut_at_the_blank() {
    assert_eq!(path_of("source \"my lib.sh\""), Some("\"my".to_string()));
}

#[test]
fn empty_quotes_give_the_empty_path() {
    assert_eq!(path_of("source \"\""), Some(String::new()));
}

#[test]
fn absolute_path_is_taken_as_written() {
    assert_eq!(path_of("source /etc/profile"), Some("/etc/profile".to_string()));
}

#[test]
fn variables_are_not_expanded() {
    assert_eq!(path_of("source $HOME/lib.sh"), Some("$HOME/lib.sh".to_string()));
}

#[test]
fn unicode_whitespace_separates() {
    assert_eq!(path_of("source\u{a0}lib.sh"), Some("lib.sh".to_string()));
    assert_eq!(path_of("\u{3000}.\u{2003}lib.sh\u{2028}x"), Some("lib.sh".to_string()));
}

#[test]
fn non_ascii_path() {
    assert_eq!(path_of("source bibliothèque.sh"), Some("bibliothèque.sh".to_string()));
}

#[test]
fn keyword_alone_is_no_directive() {
    assert_eq!(path_of("source"), None);
    assert_eq!(path_of("source   "), None);
    assert_eq!(path_of("."), None);
    assert_eq!(path_of(". "), None);
}

#[test]
fn keyword_must_be_followed_by_whitespace() {
    assert_eq!(path_of("sourcelib.sh"), None);
    assert_eq!(path_of("source_all lib.sh"), None);
    assert_eq!(path_of("./run.sh now"), None);
    assert_eq!(path_of(".. lib.sh"), None);
    assert_eq!(path_of("sources lib.sh"), None);
}

#[test]
fn keyword_must_come_first() {
    assert_eq!(path_of("# source lib.sh"), None);
    assert_eq!(path_of("echo source lib.sh"), None);
    assert_eq!(path_of("x=source lib.sh"), None);
    assert_eq!(path_of("my_source lib.sh"), None);
    assert_eq!(path_of("if true; then source lib.sh; fi"), None);
}

#[test]
fn keyword_is_case_sensitive() {
    assert_eq!(path_of("Source lib.sh"), None);
    assert_eq!(path_of("SOURCE lib.sh"), None);
}

#[test]
fn empty_and_blank_lines_are_no_directives() {
    assert_eq!(path_of(""), None);
    assert_eq!(path_of("   \t"), None);
}

#[test]
fn prefix_of_the_keyword_is_no_directive() {
    assert_eq!(path_of("sourc lib.sh"), None);
    assert_eq!(path_of("sour"), None);
}
