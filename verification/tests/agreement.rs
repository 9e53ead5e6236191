use regex::Regex;
use shell_bundler::bundler::minify;
use shell_bundler::directive::match_directive;
use shell_bundler::fs::get_parent_path;
use shell_bundler::path::{join_path, quoted};
use shell_bundler::splice::match_source;
use shell_bundler::resolver::{
    inline_script_content, resolve_script, resolve_script_recursive, Step,
};
use shell_bundler::text::is_whitespace_char;
use std::path::Path;

/// All the texts of at most `max` characters over `alphabet`.
fn texts_over(alphabet: &[char], max: usize) -> Vec<String> {
    let mut all = vec![String::new()];
    let mut last = vec![String::new()];
    for _ in 0..max {
        let mut next = Vec::new();
        for text in &last {
            for c in alphabet {
                let mut longer = text.clone();
                longer.push(*c);
                next.push(longer);
            }
        }
        all.extend(next.iter().cloned());
        last = next;
    }
    all
}

fn without_quotes(token: &str) -> &str {
    let bytes = token.as_bytes();
    if bytes.len() >= 2
        && (bytes[0] == b'"' || bytes[0] == b'\'')
        && bytes[bytes.len() - 1] == bytes[0]
    {
        &token[1..token.len() - 1]
    } else {
        token
    }
}

fn directive_by_pattern(pattern: &Regex, line: &str) -> Option<String> {
    pattern
        .captures(line)
        .map(|found| without_quotes(found.get(2).unwrap().as_str()).to_string())
}

/// The bundle of a script that stands alone at `/p/main.sh` and asks for no
/// file that exists.
fn bundle_alone(text: &str) -> Option<String> {
    let mut step = resolve_script("/p/main.sh");
    loop {
        step = match step {
            Step::Canonicalize(pending) => {
                let canonical = if pending.path() == "/p/main.sh" {
                    Some("/p/main.sh".to_string())
                } else {
                    None
                };
                resolve_script_recursive(pending, canonical)
            }
            Step::Read(pending) => inline_script_content(pending, Some(text.as_bytes().to_vec())),
            Step::Done(result) => return result.ok(),
        };
    }
}

#[test]
fn whitespace_is_what_char_says() {
    for code in 0..=0x10ffffu32 {
        if let Some(c) = char::from_u32(code) {
            assert_eq!(is_whitespace_char(c), c.is_whitespace(), "U+{code:04X}");
        }
    }
}

#[test]
fn directives_are_what_the_pattern_matches() {
    let pattern = Regex::new(r#"^\s*(source|\.)\s+([^\s]+)"#).unwrap();
    let starts = ["", " ", "\t ", "\u{2003}", "x", "#", "# "];
    let keywords = ["source", ".", "sourc", "sources", "..", "Source", "", "source.", ".source"];
    let gaps = ["", " ", "  ", "\t", "\u{a0}", "\u{2003} ", "\r"];
    let tokens = [
        "", "a", "a.sh", "\"a\"", "'a'", "\"a", "a\"", "\"", "\"\"", "''", "'\"", "/x/y", "$X/y",
        "a b", "\"a b\"", "é.sh", "\"'a'\"",
    ];
    let ends = ["", " ", " # c", "\r", "\u{3000}z", "\t\"", ";"];
    let mut directives = 0;
    for start in starts {
        for keyword in keywords {
            for gap in gaps {
                for token in tokens {
                    for end in ends {
                        let line = format!("{start}{keyword}{gap}{token}{end}");
                        let expected = directive_by_pattern(&pattern, &line);
                        if expected.is_some() {
                            directives += 1;
                        }
                        assert_eq!(match_directive(&line), expected, "{line:?}");
                    }
                }
            }
        }
    }
    assert!(directives > 1000);
}

#[test]
fn short_lines_are_matched_as_the_pattern_does() {
    let pattern = Regex::new(r#"^\s*(source|\.)\s+([^\s]+)"#).unwrap();
    for line in texts_over(&[' ', '.', '"', 'a', '\t', '\''], 6) {
        assert_eq!(match_directive(&line), directive_by_pattern(&pattern, &line), "{line:?}");
    }
}

#[test]
fn line_breaks_count_as_whitespace_as_in_the_pattern() {
    let pattern = Regex::new(r#"^\s*(source|\.)\s+([^\s]+)"#).unwrap();
    for line in texts_over(&['\n', '.', '\r', 'a', ' '], 6) {
        assert_eq!(match_directive(&line), directive_by_pattern(&pattern, &line), "{line:?}");
    }
    for line in ["source\nlib.sh", "\nsource lib.sh", "source lib.sh\nsource b.sh", ".\r\nx\ny"] {
        assert_eq!(match_directive(line), directive_by_pattern(&pattern, line), "{line:?}");
    }
}

#[test]
fn parent_is_what_path_says() {
    for text in texts_over(&['/', '.', 'a'], 7) {
        let expected = Path::new(&text).parent().map(|parent| parent.to_str().unwrap().to_string());
        assert_eq!(get_parent_path(&text).ok(), expected, "{text:?}");
    }
}

#[test]
fn join_is_what_path_says() {
    let parts = texts_over(&['/', '.', 'a'], 4);
    for dir in &parts {
        for path in &parts {
            let expected = Path::new(dir).join(path);
            assert_eq!(join_path(dir, path), expected.to_str().unwrap(), "{dir:?} {path:?}");
        }
    }
}

#[test]
fn ordinary_paths_are_quoted_as_debug_does() {
    let paths = [
        "/home/me/lib.sh",
        "lib.sh",
        "",
        "/a b/c",
        "/we\"ird",
        "/back\\slash",
        "/tab\there",
        "/new\nline",
        "/cr\rhere",
        "/it's",
        "/zoé/ünï.sh",
    ];
    for path in paths {
        assert_eq!(quoted(path), format!("{:?}", Path::new(path)), "{path:?}");
        assert_eq!(quoted(path), format!("{path:?}"), "{path:?}");
    }
}

#[test]
fn lines_are_what_str_says() {
    for text in texts_over(&['a', '\n', '\r', ' '], 7) {
        let mut expected = String::new();
        for line in text.lines() {
            expected.push_str(line);
            expected.push('\n');
        }
        assert_eq!(bundle_alone(&text), Some(expected), "{text:?}");
    }
}

#[test]
fn minified_keeps_the_lines_that_are_no_comments() {
    for text in texts_over(&['a', '\n', '#', ' ', '!', '\r'], 6) {
        let mut kept: Vec<&str> = Vec::new();
        for (index, line) in text.lines().enumerate() {
            let shebang = index == 0 && line.starts_with("#!");
            if shebang || !(line.trim().is_empty() || line.trim().starts_with('#')) {
                kept.push(line);
            }
        }
        assert_eq!(minify(&text), kept.join("\n"), "{text:?}");
    }
}

fn source_by_pattern(pattern: &Regex, line: &str) -> Option<String> {
    pattern.captures(line).map(|found| found["filename"].to_string())
}

#[test]
fn source_lines_are_what_the_pattern_matches() {
    let pattern = Regex::new(r#"^\s*source\s+("|')?(?<filename>.+)("|')?\s*$"#).unwrap();
    let starts = ["", " ", "\t ", "\n", "x", "#"];
    let keywords = ["source", ".", "sourc", "sources", "Source", ""];
    let gaps = ["", " ", "  ", "\t", "\u{a0}", " \n", "\n ", "\n", "\r"];
    let names = [
        "", "a", "a.sh", "\"a\"", "'a'", "\"a", "a\"", "\"", "\"\"", "'", "a b", "\"a b\"",
        "é.sh", "\"\"\"",
    ];
    let ends = ["", " ", "  ", " # c", "\r", "\n", "\n ", "\nx", " \n\t", "\"", "\" ", "'\n"];
    let mut matches = 0;
    for start in starts {
        for keyword in keywords {
            for gap in gaps {
                for name in names {
                    for end in ends {
                        let line = format!("{start}{keyword}{gap}{name}{end}");
                        let expected = source_by_pattern(&pattern, &line);
                        if expected.is_some() {
                            matches += 1;
                        }
                        assert_eq!(match_source(&line), expected, "{line:?}");
                    }
                }
            }
        }
    }
    assert!(matches > 1000);
}

#[test]
fn short_source_lines_are_matched_as_the_pattern_does() {
    let pattern = Regex::new(r#"^\s*source\s+("|')?(?<filename>.+)("|')?\s*$"#).unwrap();
    for rest in texts_over(&[' ', '\n', '"', 'a', '\''], 7) {
        for line in [format!("source{rest}"), format!(" source {rest}"), rest.clone()] {
            assert_eq!(match_source(&line), source_by_pattern(&pattern, &line), "{line:?}");
        }
    }
}
