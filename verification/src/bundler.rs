//! The last step of a bundling run: what goes to the output, given the
//! options and the text that was read or resolved.

use crate::cli::Cli;
use crate::text::{
    line_views, lines_of, push_range, push_text, split_lines, to_chars, trim, trim_span,
};
use vstd::prelude::*;

verus! {

/// Whether `line` is blank or a comment, the whitespace around it aside.
pub open spec fn is_droppable(line: Seq<char>) -> bool {
    trim(line).len() == 0 || trim(line)[0] == '#'
}

/// Whether `line` is a shebang line: it starts with `#!`.
pub open spec fn is_shebang(line: Seq<char>) -> bool {
    line.len() >= 2 && line[0] == '#' && line[1] == '!'
}

/// What is left of the first line of a script: the line, unless it is blank
/// or a comment other than a shebang line.
pub open spec fn kept_first(line: Seq<char>) -> Seq<Seq<char>> {
    if is_shebang(line) || !is_droppable(line) {
        seq![line]
    } else {
        Seq::empty()
    }
}

/// What is left of the lines behind the first: those that are neither blank
/// nor comments, each as it is and in their order.
pub open spec fn kept_rest(lines: Seq<Seq<char>>) -> Seq<Seq<char>>
    decreases lines.len(),
{
    if lines.len() == 0 {
        Seq::empty()
    } else if is_droppable(lines.last()) {
        kept_rest(lines.drop_last())
    } else {
        kept_rest(lines.drop_last()).push(lines.last())
    }
}

/// What is left of the lines of a script.
pub open spec fn kept_lines(lines: Seq<Seq<char>>) -> Seq<Seq<char>> {
    if lines.len() == 0 {
        Seq::empty()
    } else {
        kept_first(lines[0]) + kept_rest(lines.skip(1))
    }
}

/// `lines` with a line feed between each two of them, and none at the end.
pub open spec fn join_lines(lines: Seq<Seq<char>>) -> Seq<char>
    decreases lines.len(),
{
    if lines.len() == 0 {
        Seq::empty()
    } else if lines.len() == 1 {
        lines[0]
    } else {
        join_lines(lines.drop_last()) + seq!['\n'] + lines.last()
    }
}

/// The script `text` without its comments and blank lines.
///
/// A line that starts with `#!` stays if it is the first line. Any other
/// line that is empty or starts with `#`, the whitespace around it aside,
/// goes. The lines that stay are not changed: they keep the whitespace around
/// them and their order, and a line feed stands between each two.
pub open spec fn minified(text: Seq<char>) -> Seq<char> {
    join_lines(kept_lines(split_lines(text)))
}

/// The text that a run emits: `content` minified where `args` ask for it
/// and for inlining, and `content` as it is otherwise.
pub open spec fn emitted(args: Cli, content: Seq<char>) -> Seq<char> {
    if args.minify && !args.no_inline {
        minified(content)
    } else {
        content
    }
}

/// The line that tells where a bundle was written.
pub open spec fn notice_for(output: Seq<char>) -> Seq<char> {
    "Bundled script written to "@ + output
}

/// What a run hands to its output.
#[derive(Clone, Debug, PartialEq, Eq)]
pub struct Bundle {
    /// The text of the bundle, to be written as it is.
    pub text: String,
    /// What to say once the text is written, where it goes to a file.
    pub notice: Option<String>,
}

/// Puts `line[from..to]` at the end of `out`, as one more line.
fn push_line(out: &mut String, count: usize, line: &Vec<char>, from: usize, to: usize)
    requires
        from <= to <= line.len(),
    ensures
        final(out)@ == if count == 0 {
            old(out)@ + line@.subrange(from as int, to as int)
        } else {
            old(out)@ + seq!['\n'] + line@.subrange(from as int, to as int)
        },
{
    if count > 0 {
        out.push('\n');
    }
    push_range(out, line, from, to);
}

/// Takes the comments and the blank lines out of `content`.
pub fn minify(content: &str) -> (text: String)
    ensures
        text@ == minified(content@),
{
    let chars = to_chars(content);
    let lines = lines_of(&chars);
    let mut text = String::new();
    if lines.len() == 0 {
        return text;
    }
    let ghost all = split_lines(content@);
    let mut count: usize = 0;
    let ghost mut kept: Seq<Seq<char>> = Seq::empty();
    let first = &lines[0];
    let (from, to) = trim_span(first);
    assert(first@ == all[0]);
    let shebang = first.len() >= 2 && first[0] == '#' && first[1] == '!';
    proof {
        if to > from {
            assert(first@.subrange(from as int, to as int)[0] == first@[from as int]);
        }
    }
    if shebang || (to > from && first[from] != '#') {
        push_line(&mut text, count, first, 0, first.len());
        count = 1;
        proof {
            assert(first@.subrange(0, first@.len() as int) == first@);
            kept = seq![first@];
        }
    }
    assert(kept == kept_first(all[0]));
    let mut i: usize = 1;
    proof {
        assert(all.skip(1).take(0) == Seq::<Seq<char>>::empty());
        assert(kept + Seq::<Seq<char>>::empty() == kept);
    }
    while i < lines.len()
        invariant
            1 <= i <= lines.len(),
            all == line_views(lines@),
            all.len() == lines.len(),
            kept == kept_first(all[0]) + kept_rest(all.skip(1).take(i - 1)),
            text@ == join_lines(kept),
            count <= i,
            count > 0 <==> kept.len() > 0,
        decreases lines.len() - i,
    {
        let line = &lines[i];
        let (from, to) = trim_span(line);
        proof {
            let seen = all.skip(1).take(i - 1);
            let more = all.skip(1).take(i as int);
            assert(more.drop_last() == seen);
            assert(more.last() == line@);
            if to > from {
                assert(line@.subrange(from as int, to as int)[0] == line@[from as int]);
            }
        }
        if to > from && line[from] != '#' {
            let ghost before = kept;
            push_line(&mut text, count, line, 0, line.len());
            count = count + 1;
            proof {
                assert(line@.subrange(0, line@.len() as int) == line@);
                kept = kept.push(line@);
                assert(kept.drop_last() == before);
                assert(kept == kept_first(all[0]) + kept_rest(all.skip(1).take(i as int)));
                if before.len() == 0 {
                    assert(text@ == line@);
                }
            }
        }
        i += 1;
    }
    proof {
        assert(all.skip(1).take(lines.len() - 1) == all.skip(1));
    }
    text
}

/// Decides what a run hands to its output.
///
/// `content` is the entry script as it was read where `args.no_inline` is
/// set, and the bundle that the resolver gave otherwise. The text is
/// `content`, minified where `args.minify` is set and `args.no_inline` is
/// not. The notice names `args.output` and is there where the bundle goes to
/// a file.
pub fn bundle_script(args: &Cli, content: String) -> (bundle: Bundle)
    ensures
        bundle.text@ == emitted(*args, content@),
        match bundle.notice {
            Some(notice) => args.output is Some && notice@ == notice_for(args.output.unwrap()@),
            None => args.output is None,
        },
{
    let text = if args.minify && !args.no_inline {
        minify(content.as_str())
    } else {
        content
    };
    let notice = match &args.output {
        Some(path) => {
            let mut notice = String::new();
            push_text(&mut notice, "Bundled script written to ");
            push_text(&mut notice, path.as_str());
            Some(notice)
        },
        None => None,
    };
    Bundle { text, notice }
}

} // verus!
