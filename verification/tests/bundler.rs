use shell_bundler::bundler::{bundle_script, minify, Bundle};
use shell_bundler::cli::Cli;

fn options(minify: bool, no_inline: bool, output: Option<&str>) -> Cli {
    Cli {
        entrypoint: "main.sh".to_string(),
        output: output.map(|path| path.to_string()),
        minify,
        no_inline,
        verbose: false,
    }
}

#[test]
fn minify_keeps_shebang_and_code() {
    assert_eq!(minify("#!/bin/bash\n\n# note\necho hi"), "#!/bin/bash\necho hi");
}

#[test]
fn minify_keeps_shebang_and_code_with_final_line_feed() {
    assert_eq!(minify("#!/bin/bash\n\n# note\necho hi\n"), "#!/bin/bash\necho hi");
}

#[test]
fn minify_drops_a_comment_on_the_first_line() {
    assert_eq!(minify("# header\necho hi\n"), "echo hi");
}

#[test]
fn minify_drops_a_shebang_behind_the_first_line() {
    assert_eq!(minify("echo hi\n#!/bin/bash\necho bye\n"), "echo hi\necho bye");
}

#[test]
fn minify_drops_a_shebang_behind_whitespace() {
    assert_eq!(minify("  #!/bin/sh\necho hi\n"), "echo hi");
    assert_eq!(minify("  #!x"), "");
}

#[test]
fn minify_keeps_the_lines_that_stay_as_they_are() {
    assert_eq!(minify("  echo one  \n\t echo two \t\n"), "  echo one  \n\t echo two \t");
    assert_eq!(minify("if true; then\n    echo hi\nfi\n"), "if true; then\n    echo hi\nfi");
    assert_eq!(minify("a\n b\n"), "a\n b");
}

#[test]
fn minify_keeps_the_order_of_the_lines() {
    assert_eq!(minify("c\n# x\n  a\n\nb  \n"), "c\n  a\nb  ");
}

#[test]
fn minify_drops_indented_comments_and_blank_lines() {
    assert_eq!(minify("echo a\n   # note\n \t \necho b\n"), "echo a\necho b");
}

#[test]
fn minify_keeps_trailing_comments_in_a_line() {
    assert_eq!(minify("echo a # why\n"), "echo a # why");
}

#[test]
fn minify_of_nothing_but_comments_is_empty() {
    assert_eq!(minify("# one\n\n   # two\n"), "");
    assert_eq!(minify(""), "");
    assert_eq!(minify("\n\n"), "");
}

#[test]
fn minify_takes_carriage_returns_off() {
    assert_eq!(minify("#!/bin/sh\r\necho hi\r\n"), "#!/bin/sh\necho hi");
}

#[test]
fn minify_drops_marker_lines() {
    let bundle = "echo hi\n# Inlined: \"/p/lib.sh\"\necho bye\n";
    assert_eq!(minify(bundle), "echo hi\necho bye");
}

#[test]
fn bundle_is_minified_on_request() {
    let bundle = bundle_script(&options(true, false, None), "# c\necho hi\n".to_string());
    assert_eq!(bundle, Bundle { text: "echo hi".to_string(), notice: None });
    let script = "if true; then\n    echo hi\nfi\n".to_string();
    let bundle = bundle_script(&options(true, false, None), script);
    assert_eq!(bundle.text, "if true; then\n    echo hi\nfi");
}

#[test]
fn bundle_is_kept_without_request() {
    let bundle = bundle_script(&options(false, false, None), "# c\necho hi\n".to_string());
    assert_eq!(bundle, Bundle { text: "# c\necho hi\n".to_string(), notice: None });
}

#[test]
fn raw_script_is_never_minified() {
    let bundle = bundle_script(&options(true, true, None), "# c\r\necho hi".to_string());
    assert_eq!(bundle.text, "# c\r\necho hi");
    let bundle = bundle_script(&options(false, true, None), "# c\r\necho hi".to_string());
    assert_eq!(bundle.text, "# c\r\necho hi");
}

#[test]
fn notice_names_the_output_file() {
    let bundle = bundle_script(&options(false, false, Some("out/all.sh")), "echo hi\n".to_string());
    assert_eq!(bundle.text, "echo hi\n");
    assert_eq!(bundle.notice, Some("Bundled script written to out/all.sh".to_string()));
}

#[test]
fn no_notice_for_the_standard_output() {
    let bundle = bundle_script(&options(true, false, None), "echo hi\n".to_string());
    assert_eq!(bundle.notice, None);
}
