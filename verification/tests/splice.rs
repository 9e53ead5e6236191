use shell_bundler::error::{ErrorKind, IncludeSite, ResolveError};
use shell_bundler::splice::{match_source, process_lines, Splice};
use std::collections::HashMap;

/// Splices the script at `input` with the files of `scripts`.
fn splice(scripts: &[(&str, &str)], input: &str) -> Result<String, ResolveError> {
    let files: HashMap<&str, &str> = scripts.iter().cloned().collect();
    let mut step = process_lines(files[input], input);
    loop {
        step = match step {
            Splice::Read(pending) => {
                let content = files.get(pending.path()).map(|text| text.as_bytes().to_vec());
                pending.resume(content)
            }
            Splice::Done(result) => return result,
        };
    }
}

#[test]
fn source_line_names_the_rest_of_the_line() {
    assert_eq!(match_source("source lib.sh"), Some("lib.sh".to_string()));
    assert_eq!(match_source("  source \t lib.sh"), Some("lib.sh".to_string()));
    assert_eq!(match_source("source my lib.sh"), Some("my lib.sh".to_string()));
}

#[test]
fn source_line_loses_the_quote_that_opens_the_name() {
    assert_eq!(match_source("source \"lib.sh"), Some("lib.sh".to_string()));
    assert_eq!(match_source("source 'lib.sh"), Some("lib.sh".to_string()));
}

#[test]
fn source_line_keeps_what_ends_the_name() {
    assert_eq!(match_source("source \"lib.sh\""), Some("lib.sh\"".to_string()));
    assert_eq!(match_source("source lib.sh  "), Some("lib.sh  ".to_string()));
    assert_eq!(match_source("source lib.sh # c"), Some("lib.sh # c".to_string()));
}

#[test]
fn source_line_with_one_quote_names_the_quote() {
    assert_eq!(match_source("source \""), Some("\"".to_string()));
}

#[test]
fn source_line_with_nothing_but_blanks_names_the_last_blank() {
    assert_eq!(match_source("source  "), Some(" ".to_string()));
    assert_eq!(match_source("source \t "), Some(" ".to_string()));
}

#[test]
fn lines_that_are_no_source_lines() {
    assert_eq!(match_source("source"), None);
    assert_eq!(match_source("source "), None);
    assert_eq!(match_source(". lib.sh"), None);
    assert_eq!(match_source("sourcelib.sh"), None);
    assert_eq!(match_source("# source lib.sh"), None);
    assert_eq!(match_source("echo source lib.sh"), None);
    assert_eq!(match_source(""), None);
}

#[test]
fn name_ends_with_its_line() {
    assert_eq!(match_source("source lib.sh\n"), Some("lib.sh".to_string()));
    assert_eq!(match_source("source lib.sh\n \n"), Some("lib.sh".to_string()));
    assert_eq!(match_source("source lib.sh\nsource b.sh"), None);
    assert_eq!(match_source("source\nlib.sh"), Some("lib.sh".to_string()));
}

#[test]
fn source_line_gives_way_to_the_lines_of_its_file() {
    let scripts =
        [("/p/main.sh", "echo hi\nsource lib.sh\necho end\n"), ("/p/lib.sh", "echo bye\n")];
    assert_eq!(splice(&scripts, "/p/main.sh"), Ok("echo hi\necho bye\necho end\n".to_string()));
}

#[test]
fn sourced_lines_get_their_line_feeds() {
    let scripts = [("/p/main.sh", "source lib.sh"), ("/p/lib.sh", "one\r\ntwo")];
    assert_eq!(splice(&scripts, "/p/main.sh"), Ok("one\ntwo\n".to_string()));
}

#[test]
fn sourced_files_are_not_followed() {
    let scripts = [
        ("/p/main.sh", "source a.sh\n"),
        ("/p/a.sh", "echo a\nsource b.sh\n"),
        ("/p/b.sh", "echo b\n"),
    ];
    assert_eq!(splice(&scripts, "/p/main.sh"), Ok("echo a\nsource b.sh\n".to_string()));
}

#[test]
fn file_sourced_twice_is_spliced_twice() {
    let scripts = [("/p/main.sh", "source a.sh\nsource a.sh\n"), ("/p/a.sh", "echo a\n")];
    assert_eq!(splice(&scripts, "/p/main.sh"), Ok("echo a\necho a\n".to_string()));
}

#[test]
fn dot_lines_stay() {
    let scripts = [("/p/main.sh", ". a.sh\n"), ("/p/a.sh", "echo a\n")];
    assert_eq!(splice(&scripts, "/p/main.sh"), Ok(". a.sh\n".to_string()));
}

#[test]
fn script_without_source_lines_keeps_its_lines() {
    let scripts = [("/p/main.sh", "echo hi\n\n# c\necho bye")];
    assert_eq!(splice(&scripts, "/p/main.sh"), Ok("echo hi\n\n# c\necho bye\n".to_string()));
}

#[test]
fn sourced_path_is_written_onto_the_directory_of_the_script() {
    match process_lines("source lib/a.sh\n", "/home/me/main.sh") {
        Splice::Read(pending) => assert_eq!(pending.path(), "/home/me/lib/a.sh"),
        Splice::Done(_) => panic!("a source line asks for its file"),
    }
    match process_lines("source a.sh\n", "main.sh") {
        Splice::Read(pending) => assert_eq!(pending.path(), "a.sh"),
        Splice::Done(_) => panic!("a source line asks for its file"),
    }
}

#[test]
fn missing_sourced_file_fails_with_path_and_line() {
    let scripts = [("/p/main.sh", "echo hi\n\nsource gone.sh\n")];
    assert_eq!(
        splice(&scripts, "/p/main.sh"),
        Err(ResolveError {
            kind: ErrorKind::FileRead,
            path: "/p/gone.sh".to_string(),
            trace: vec![IncludeSite { file: "/p/main.sh".to_string(), line: 3 }],
        })
    );
}

#[test]
fn sourced_file_that_is_no_text_fails() {
    match process_lines("source blob\n", "/p/main.sh") {
        Splice::Read(pending) => match pending.resume(Some(vec![0xff, 0x00])) {
            Splice::Done(result) => assert_eq!(
                result,
                Err(ResolveError {
                    kind: ErrorKind::FileRead,
                    path: "/p/blob".to_string(),
                    trace: vec![IncludeSite { file: "/p/main.sh".to_string(), line: 1 }],
                })
            ),
            Splice::Read(_) => panic!("a file that is no text ends the run"),
        },
        Splice::Done(_) => panic!("a source line asks for its file"),
    }
}

#[test]
fn script_without_parent_directory_fails() {
    match process_lines("echo hi\n", "/") {
        Splice::Done(result) => assert_eq!(
            result,
            Err(ResolveError {
                kind: ErrorKind::NoParent,
                path: "/".to_string(),
                trace: Vec::new(),
            })
        ),
        Splice::Read(_) => panic!("a script without a parent directory fails at once"),
    }
}
