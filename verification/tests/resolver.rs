use shell_bundler::error::{ErrorKind, IncludeSite, ResolveError};
use shell_bundler::resolver::{
    inline_script_content, resolve_script, resolve_script_recursive, Step,
};
use std::collections::HashMap;

/// Files in memory: the canonical path of each, and its bytes.
struct Files {
    scripts: HashMap<String, Vec<u8>>,
    reads: Vec<String>,
}

impl Files {
    fn new(scripts: &[(&str, &str)]) -> Files {
        let mut map = HashMap::new();
        for (path, text) in scripts {
            map.insert(path.to_string(), text.as_bytes().to_vec());
        }
        Files { scripts: map, reads: Vec::new() }
    }

    /// The path without `.`, `..` and empty components, if a file is there.
    fn canonicalize(&self, path: &str) -> Option<String> {
        if !path.starts_with('/') {
            return None;
        }
        let mut parts: Vec<&str> = Vec::new();
        for part in path.split('/') {
            if part.is_empty() || part == "." {
                continue;
            }
            if part == ".." {
                parts.pop();
            } else {
                parts.push(part);
            }
        }
        let canonical = format!("/{}", parts.join("/"));
        if self.scripts.contains_key(&canonical) {
            Some(canonical)
        } else {
            None
        }
    }

    fn read(&mut self, path: &str) -> Option<Vec<u8>> {
        self.reads.push(path.to_string());
        self.scripts.get(path).cloned()
    }

    fn bundle(&mut self, entry: &str) -> Result<String, ResolveError> {
        let mut step = resolve_script(entry);
        loop {
            step = match step {
                Step::Canonicalize(pending) => {
                    let canonical = self.canonicalize(pending.path());
                    resolve_script_recursive(pending, canonical)
                }
                Step::Read(pending) => {
                    let content = self.read(pending.path());
                    inline_script_content(pending, content)
                }
                Step::Done(result) => return result,
            };
        }
    }
}

fn bundle(scripts: &[(&str, &str)], entry: &str) -> Result<String, ResolveError> {
    Files::new(scripts).bundle(entry)
}

fn site(file: &str, line: usize) -> IncludeSite {
    IncludeSite { file: file.to_string(), line }
}

#[test]
fn directive_is_replaced_by_marker_and_content() {
    let scripts = [("/p/main.sh", "echo hi\nsource lib.sh\n"), ("/p/lib.sh", "echo bye\n")];
    assert_eq!(
        bundle(&scripts, "/p/main.sh"),
        Ok("echo hi\n# Inlined: \"/p/lib.sh\"\necho bye\n".to_string())
    );
}

#[test]
fn lines_after_a_directive_follow_the_inlined_file() {
    let scripts = [
        ("/p/main.sh", "echo one\n. lib.sh\necho three\n"),
        ("/p/lib.sh", "echo two\n"),
    ];
    assert_eq!(
        bundle(&scripts, "/p/main.sh"),
        Ok("echo one\n# Inlined: \"/p/lib.sh\"\necho two\necho three\n".to_string())
    );
}

#[test]
fn mutual_inclusion_ends_with_a_skip_marker() {
    let scripts = [("/p/a.sh", "source b.sh\n"), ("/p/b.sh", "source a.sh\n")];
    let text = bundle(&scripts, "/p/a.sh").unwrap();
    assert_eq!(
        text,
        "# Inlined: \"/p/b.sh\"\n# Inlined: \"/p/a.sh\"\n\
         # Skipping already inlined file: \"/p/a.sh\"\n"
    );
    assert_eq!(text.matches("# Inlined: \"/p/b.sh\"").count(), 1);
    assert_eq!(text.matches("# Skipping already inlined file: \"/p/a.sh\"").count(), 1);
    assert_eq!(text.matches("# Skipping already inlined file:").count(), 1);
}

#[test]
fn mutual_inclusion_reads_each_file_once() {
    let mut files = Files::new(&[
        ("/p/a.sh", "echo a\nsource b.sh\necho a2\n"),
        ("/p/b.sh", "echo b\nsource a.sh\necho b2\n"),
    ]);
    let text = files.bundle("/p/a.sh").unwrap();
    assert_eq!(
        text,
        "echo a\n# Inlined: \"/p/b.sh\"\necho b\n# Inlined: \"/p/a.sh\"\n\
         # Skipping already inlined file: \"/p/a.sh\"\necho b2\necho a2\n"
    );
    assert_eq!(files.reads, vec!["/p/a.sh".to_string(), "/p/b.sh".to_string()]);
}

#[test]
fn self_inclusion_ends_with_a_skip_marker() {
    let mut files = Files::new(&[("/p/a.sh", "echo a\nsource a.sh\necho z\n")]);
    assert_eq!(
        files.bundle("/p/a.sh"),
        Ok("echo a\n# Inlined: \"/p/a.sh\"\n\
            # Skipping already inlined file: \"/p/a.sh\"\necho z\n"
            .to_string())
    );
    assert_eq!(files.reads, vec!["/p/a.sh".to_string()]);
}

#[test]
fn cycle_of_three_expands_each_file_once() {
    let mut files = Files::new(&[
        ("/p/a.sh", "source b.sh\n"),
        ("/p/b.sh", "source c.sh\n"),
        ("/p/c.sh", "echo c\nsource a.sh\n"),
    ]);
    assert_eq!(
        files.bundle("/p/a.sh"),
        Ok("# Inlined: \"/p/b.sh\"\n# Inlined: \"/p/c.sh\"\necho c\n# Inlined: \"/p/a.sh\"\n\
            # Skipping already inlined file: \"/p/a.sh\"\n"
            .to_string())
    );
    assert_eq!(
        files.reads,
        vec!["/p/a.sh".to_string(), "/p/b.sh".to_string(), "/p/c.sh".to_string()]
    );
}

#[test]
fn diamond_expands_the_shared_file_at_its_first_occurrence() {
    let mut files = Files::new(&[
        ("/p/a.sh", "source b.sh\nsource c.sh\n"),
        ("/p/b.sh", "echo b\nsource d.sh\n"),
        ("/p/c.sh", "echo c\nsource d.sh\n"),
        ("/p/d.sh", "echo d\n"),
    ]);
    assert_eq!(
        files.bundle("/p/a.sh"),
        Ok("# Inlined: \"/p/b.sh\"\necho b\n# Inlined: \"/p/d.sh\"\necho d\n\
            # Inlined: \"/p/c.sh\"\necho c\n# Inlined: \"/p/d.sh\"\n\
            # Skipping already inlined file: \"/p/d.sh\"\n"
            .to_string())
    );
    assert_eq!(
        files.reads,
        vec![
            "/p/a.sh".to_string(),
            "/p/b.sh".to_string(),
            "/p/d.sh".to_string(),
            "/p/c.sh".to_string()
        ]
    );
}

#[test]
fn file_included_twice_by_one_file_is_expanded_once() {
    let scripts = [("/p/a.sh", "source b.sh\nsource b.sh\n"), ("/p/b.sh", "echo b\n")];
    assert_eq!(
        bundle(&scripts, "/p/a.sh"),
        Ok("# Inlined: \"/p/b.sh\"\necho b\n# Inlined: \"/p/b.sh\"\n\
            # Skipping already inlined file: \"/p/b.sh\"\n"
            .to_string())
    );
}

#[test]
fn two_spellings_of_one_file_count_as_one() {
    let scripts = [
        ("/p/a.sh", "source b.sh\nsource ./sub/../b.sh\n"),
        ("/p/b.sh", "echo b\n"),
    ];
    assert_eq!(
        bundle(&scripts, "/p/a.sh"),
        Ok("# Inlined: \"/p/b.sh\"\necho b\n# Inlined: \"/p/b.sh\"\n\
            # Skipping already inlined file: \"/p/b.sh\"\n"
            .to_string())
    );
}

#[test]
fn script_without_directives_is_unchanged() {
    let text = "#!/bin/sh\n\n# source of truth\necho \"source x\"\n  exit 0\n";
    assert_eq!(bundle(&[("/p/main.sh", text)], "/p/main.sh"), Ok(text.to_string()));
}

#[test]
fn empty_script_gives_an_empty_bundle() {
    assert_eq!(bundle(&[("/p/main.sh", "")], "/p/main.sh"), Ok(String::new()));
}

#[test]
fn last_line_gets_its_line_feed() {
    assert_eq!(bundle(&[("/p/main.sh", "echo hi")], "/p/main.sh"), Ok("echo hi\n".to_string()));
}

#[test]
fn line_ends_are_normalized() {
    assert_eq!(
        bundle(&[("/p/main.sh", "echo hi\r\necho bye\r\n")], "/p/main.sh"),
        Ok("echo hi\necho bye\n".to_string())
    );
}

#[test]
fn blank_lines_are_kept() {
    assert_eq!(
        bundle(&[("/p/main.sh", "\n\necho hi\n\n")], "/p/main.sh"),
        Ok("\n\necho hi\n\n".to_string())
    );
}

#[test]
fn bundling_a_plain_bundle_again_changes_nothing() {
    let once = bundle(&[("/p/main.sh", "echo hi\r\n\n# c\necho bye")], "/p/main.sh").unwrap();
    let twice = bundle(&[("/q/all.sh", once.as_str())], "/q/all.sh").unwrap();
    assert_eq!(once, "echo hi\n\n# c\necho bye\n");
    assert_eq!(twice, once);
}

#[test]
fn carriage_return_at_the_end_of_a_line_is_lost_the_second_time() {
    let once = bundle(&[("/p/main.sh", "echo hi\r")], "/p/main.sh").unwrap();
    let twice = bundle(&[("/q/all.sh", once.as_str())], "/q/all.sh").unwrap();
    assert_eq!(once, "echo hi\r\n");
    assert_eq!(twice, "echo hi\n");
}

#[test]
fn bundling_a_bundle_with_markers_again_changes_nothing() {
    let scripts = [("/p/main.sh", "echo hi\nsource lib.sh\n"), ("/p/lib.sh", "echo bye\n")];
    let once = bundle(&scripts, "/p/main.sh").unwrap();
    let twice = bundle(&[("/q/all.sh", once.as_str())], "/q/all.sh").unwrap();
    assert_eq!(twice, once);
}

#[test]
fn includes_are_relative_to_the_including_file() {
    let scripts = [
        ("/p/main.sh", "source lib/util.sh\necho main\n"),
        ("/p/lib/util.sh", "source helpers/log.sh\necho util\n"),
        ("/p/lib/helpers/log.sh", "source ../../common.sh\necho log\n"),
        ("/p/common.sh", "echo common\n"),
    ];
    assert_eq!(
        bundle(&scripts, "/p/main.sh"),
        Ok("# Inlined: \"/p/lib/util.sh\"\n# Inlined: \"/p/lib/helpers/log.sh\"\n\
            # Inlined: \"/p/common.sh\"\necho common\necho log\necho util\necho main\n"
            .to_string())
    );
}

#[test]
fn absolute_include_ignores_the_directory() {
    let scripts = [("/p/main.sh", ". /etc/profile\n"), ("/etc/profile", "umask 022\n")];
    assert_eq!(
        bundle(&scripts, "/p/main.sh"),
        Ok("# Inlined: \"/etc/profile\"\numask 022\n".to_string())
    );
}

#[test]
fn entry_is_asked_for_as_given() {
    match resolve_script("../scripts/main.sh") {
        Step::Canonicalize(pending) => assert_eq!(pending.path(), "../scripts/main.sh"),
        _ => panic!("a run starts by asking for its entry script"),
    }
}

#[test]
fn directive_path_is_asked_for_on_the_directory_of_its_file() {
    let step = resolve_script("main.sh");
    let step = match step {
        Step::Canonicalize(pending) => {
            resolve_script_recursive(pending, Some("/home/me/main.sh".to_string()))
        }
        _ => panic!("a run starts by asking for its entry script"),
    };
    let step = match step {
        Step::Read(pending) => {
            assert_eq!(pending.path(), "/home/me/main.sh");
            inline_script_content(pending, Some(b"echo hi\n  . \"lib/a.sh\" # a\n".to_vec()))
        }
        _ => panic!("a file that was not reached before is read"),
    };
    match step {
        Step::Canonicalize(pending) => assert_eq!(pending.path(), "/home/me/lib/a.sh"),
        _ => panic!("a directive asks for its file"),
    }
}

#[test]
fn file_at_the_root_resolves_against_the_root() {
    let scripts = [("/main.sh", "source lib.sh\n"), ("/lib.sh", "echo lib\n")];
    assert_eq!(
        bundle(&scripts, "/main.sh"),
        Ok("# Inlined: \"/lib.sh\"\necho lib\n".to_string())
    );
}

#[test]
fn missing_include_fails_with_path_and_line() {
    let scripts = [("/p/main.sh", "echo hi\n\nsource missing.sh\necho bye\n")];
    assert_eq!(
        bundle(&scripts, "/p/main.sh"),
        Err(ResolveError {
            kind: ErrorKind::PathResolution,
            path: "/p/missing.sh".to_string(),
            trace: vec![site("/p/main.sh", 3)],
        })
    );
}

#[test]
fn missing_entry_fails_with_its_path() {
    assert_eq!(
        bundle(&[], "/p/main.sh"),
        Err(ResolveError {
            kind: ErrorKind::FileRead,
            path: "/p/main.sh".to_string(),
            trace: Vec::new(),
        })
    );
}

#[test]
fn nested_failure_names_the_chain_of_directives() {
    let scripts = [
        ("/p/main.sh", "echo hi\nsource lib/a.sh\n"),
        ("/p/lib/a.sh", "\n\n\n. b.sh\n"),
        ("/p/lib/b.sh", "source ../gone.sh\n"),
    ];
    assert_eq!(
        bundle(&scripts, "/p/main.sh"),
        Err(ResolveError {
            kind: ErrorKind::PathResolution,
            path: "/p/lib/../gone.sh".to_string(),
            trace: vec![site("/p/main.sh", 2), site("/p/lib/a.sh", 4), site("/p/lib/b.sh", 1)],
        })
    );
}

#[test]
fn unreadable_include_fails_with_its_canonical_path() {
    let mut files = Files::new(&[("/p/main.sh", "source ./blob\n")]);
    files.scripts.insert("/p/blob".to_string(), vec![0xff, 0xfe, 0x00]);
    assert_eq!(
        files.bundle("/p/main.sh"),
        Err(ResolveError {
            kind: ErrorKind::FileRead,
            path: "/p/blob".to_string(),
            trace: vec![site("/p/main.sh", 1)],
        })
    );
}

#[test]
fn unreadable_entry_fails_with_an_empty_trace() {
    let step = match resolve_script("main.sh") {
        Step::Canonicalize(pending) => {
            resolve_script_recursive(pending, Some("/p/main.sh".to_string()))
        }
        _ => panic!("a run starts by asking for its entry script"),
    };
    let step = match step {
        Step::Read(pending) => inline_script_content(pending, None),
        _ => panic!("a file that was not reached before is read"),
    };
    match step {
        Step::Done(result) => assert_eq!(
            result,
            Err(ResolveError {
                kind: ErrorKind::FileRead,
                path: "/p/main.sh".to_string(),
                trace: Vec::new(),
            })
        ),
        _ => panic!("a read failure ends the run"),
    }
}

#[test]
fn failure_gives_no_partial_bundle() {
    let scripts = [
        ("/p/main.sh", "echo hi\nsource lib.sh\nsource gone.sh\n"),
        ("/p/lib.sh", "echo lib\n"),
    ];
    assert!(bundle(&scripts, "/p/main.sh").is_err());
}

#[test]
fn quoted_include_path() {
    let scripts = [
        ("/p/main.sh", "source \"lib.sh\"\n. 'lib2.sh'\n"),
        ("/p/lib.sh", "echo 1\n"),
        ("/p/lib2.sh", "echo 2\n"),
    ];
    assert_eq!(
        bundle(&scripts, "/p/main.sh"),
        Ok("# Inlined: \"/p/lib.sh\"\necho 1\n# Inlined: \"/p/lib2.sh\"\necho 2\n".to_string())
    );
}

#[test]
fn marker_quotes_the_canonical_path() {
    let scripts = [("/p/main.sh", "source we\"ird.sh\n"), ("/p/we\"ird.sh", "echo w\n")];
    assert_eq!(
        bundle(&scripts, "/p/main.sh"),
        Ok("# Inlined: \"/p/we\\\"ird.sh\"\necho w\n".to_string())
    );
}

#[test]
fn sibling_includes_do_not_depend_on_each_other() {
    let b = ("/p/b.sh", "echo b\nsource b2.sh\n");
    let b2 = ("/p/b2.sh", "echo b2\n");
    let c = ("/p/c.sh", "echo c\n");
    let first = bundle(&[("/p/a.sh", "source b.sh\nsource c.sh\n"), b, b2, c], "/p/a.sh").unwrap();
    let second = bundle(&[("/p/a.sh", "source c.sh\nsource b.sh\n"), b, b2, c], "/p/a.sh").unwrap();
    let of_b = "# Inlined: \"/p/b.sh\"\necho b\n# Inlined: \"/p/b2.sh\"\necho b2\n";
    let of_c = "# Inlined: \"/p/c.sh\"\necho c\n";
    assert_eq!(first, format!("{of_b}{of_c}"));
    assert_eq!(second, format!("{of_c}{of_b}"));
}

#[test]
fn same_files_give_the_same_bundle() {
    let scripts = [
        ("/p/a.sh", "source b.sh\nsource c.sh\n"),
        ("/p/b.sh", "echo b\n"),
        ("/p/c.sh", "echo c\nsource b.sh\n"),
    ];
    assert_eq!(bundle(&scripts, "/p/a.sh"), bundle(&scripts, "/p/a.sh"));
}

#[test]
fn deep_chain_of_includes() {
    let mut scripts: Vec<(String, String)> = Vec::new();
    for i in 0..200 {
        scripts.push((format!("/p/s{i}.sh"), format!("echo {i}\nsource s{}.sh\n", i + 1)));
    }
    scripts.push(("/p/s200.sh".to_string(), "echo end\n".to_string()));
    let borrowed: Vec<(&str, &str)> =
        scripts.iter().map(|(path, text)| (path.as_str(), text.as_str())).collect();
    let text = bundle(&borrowed, "/p/s0.sh").unwrap();
    assert_eq!(text.matches("# Inlined: ").count(), 200);
    assert!(text.starts_with("echo 0\n# Inlined: \"/p/s1.sh\"\necho 1\n"));
    assert!(text.ends_with("# Inlined: \"/p/s200.sh\"\necho end\n"));
}

#[test]
fn ring_of_five_expands_each_file_once_and_closes_with_a_skip_marker() {
    let mut scripts: Vec<(String, String)> = Vec::new();
    for i in 0..5 {
        let next = (i + 1) % 5;
        scripts.push((
            format!("/p/f{i}.sh"),
            format!("before {i}\nsource f{next}.sh\nafter {i}\n"),
        ));
    }
    let borrowed: Vec<(&str, &str)> =
        scripts.iter().map(|(path, text)| (path.as_str(), text.as_str())).collect();
    let mut files = Files::new(&borrowed);
    let text = files.bundle("/p/f0.sh").unwrap();
    assert_eq!(
        text,
        "before 0\n# Inlined: \"/p/f1.sh\"\nbefore 1\n# Inlined: \"/p/f2.sh\"\nbefore 2\n\
         # Inlined: \"/p/f3.sh\"\nbefore 3\n# Inlined: \"/p/f4.sh\"\nbefore 4\n\
         # Inlined: \"/p/f0.sh\"\n# Skipping already inlined file: \"/p/f0.sh\"\n\
         after 4\nafter 3\nafter 2\nafter 1\nafter 0\n"
    );
    assert_eq!(files.reads.len(), 5);
    assert_eq!(text.matches("# Skipping already inlined file:").count(), 1);
}

#[test]
fn bundle_of_a_tree_is_made_of_the_bundles_of_its_includes() {
    let scripts = [
        ("/p/main.sh", "echo main\nsource a.sh\necho mid\n. b/b.sh\necho end\n"),
        ("/p/a.sh", "echo a\nsource a2.sh\n"),
        ("/p/a2.sh", "echo a2\n"),
        ("/p/b/b.sh", "source b2.sh\necho b\n"),
        ("/p/b/b2.sh", "echo b2\n"),
    ];
    let of_a = bundle(&scripts, "/p/a.sh").unwrap();
    let of_b = bundle(&scripts, "/p/b/b.sh").unwrap();
    assert_eq!(
        bundle(&scripts, "/p/main.sh"),
        Ok(format!(
            "echo main\n# Inlined: \"/p/a.sh\"\n{of_a}echo mid\n\
             # Inlined: \"/p/b/b.sh\"\n{of_b}echo end\n"
        ))
    );
}

#[test]
fn file_met_three_times_is_expanded_at_the_first_and_skipped_at_the_others() {
    let scripts = [
        ("/p/main.sh", "source a.sh\nsource q.sh\nsource b.sh\n"),
        ("/p/a.sh", "echo a\nsource q.sh\n"),
        ("/p/b.sh", "source q.sh\necho b\n"),
        ("/p/q.sh", "echo q\n"),
    ];
    let mut files = Files::new(&scripts);
    let text = files.bundle("/p/main.sh").unwrap();
    assert_eq!(
        text,
        "# Inlined: \"/p/a.sh\"\necho a\n# Inlined: \"/p/q.sh\"\necho q\n\
         # Inlined: \"/p/q.sh\"\n# Skipping already inlined file: \"/p/q.sh\"\n\
         # Inlined: \"/p/b.sh\"\n# Inlined: \"/p/q.sh\"\n\
         # Skipping already inlined file: \"/p/q.sh\"\necho b\n"
    );
    assert_eq!(text.matches("echo q\n").count(), 1);
    assert_eq!(text.matches("# Skipping already inlined file: \"/p/q.sh\"").count(), 2);
    assert_eq!(files.reads.iter().filter(|path| path.as_str() == "/p/q.sh").count(), 1);
}
