//! Splicing, one level deep: each `source` line of a script is replaced by
//! the lines of the file it names, as they are. Nothing is marked, nothing is
//! followed further, and `.` is no keyword here.
//!
//! As the resolver does, a run decides and its caller reads. It starts with
//! `process_lines` and goes on with `PendingSource::resume`, each of which
//! returns a `Splice`: the request for the bytes of a file, or the end.

use crate::directive::{keyword_at, keyword_len};
use crate::error::{ErrorKind, ErrorView, IncludeSite, ResolveError, SiteView};
use crate::fs::{decoded, read_file_to_string};
use crate::model::{site_of, FileTree};
use crate::path::{join_range, joined_path, parent_len, parent_of};
use crate::text::{
    blank_len, lemma_line_len, lemma_unlines_add, lemma_unlines_one, line_len, line_views,
    lines_of, push_range, skip_blank, split_lines, to_chars, unlines,
};
use vstd::prelude::*;

verus! {

/// Whether `c` is a double or a single quote.
pub open spec fn is_quote(c: char) -> bool {
    c == '"' || c == '\''
}

/// The last place in `line[low..high]` that holds no line feed.
pub open spec fn last_on_line(line: Seq<char>, low: int, high: int) -> Option<int>
    decreases high - low,
{
    if high <= low {
        None
    } else if line[high - 1] != '\n' {
        Some(high - 1)
    } else {
        last_on_line(line, low, high - 1)
    }
}

/// The name of the file that `line` sources, or `None` where `line` is no
/// source line.
///
/// A source line holds, after optional whitespace, the keyword `source` and
/// whitespace. The name is what follows up to the end of the line, without a
/// quote that opens it, and with the quote that ends it and the whitespace
/// behind it. As a regular expression the form is
/// `^\s*source\s+("|')?(?<filename>.+)("|')?\s*$`: the name holds no line
/// feed, and only whitespace may follow the line that holds it. Where
/// nothing but whitespace follows the keyword, the name is the last
/// character of it that is no line feed, the first one aside.
pub open spec fn source_name(line: Seq<char>) -> Option<Seq<char>> {
    let start = blank_len(line) as int;
    let after = start + 6;
    let gap = blank_len(line.skip(after)) as int;
    let from = after + gap;
    let to = from + line_len(line.skip(from));
    if keyword_len(line.skip(start)) != 6 || gap == 0 {
        None
    } else if from < line.len() {
        if blank_len(line.skip(to)) != line.len() - to {
            None
        } else if is_quote(line[from]) && to > from + 1 {
            Some(line.subrange(from + 1, to))
        } else {
            Some(line.subrange(from, to))
        }
    } else {
        match last_on_line(line, after + 1, line.len() as int) {
            Some(at) => Some(line.subrange(at, at + 1)),
            None => None,
        }
    }
}

/// A script whose lines a run is going through.
pub struct SpliceView {
    /// The path of the script.
    pub file: Seq<char>,
    /// The directory against which its source lines are resolved.
    pub dir: Seq<char>,
    /// Its lines.
    pub lines: Seq<Seq<char>>,
    /// How many of them the run has gone through.
    pub next: nat,
    /// The text so far.
    pub output: Seq<char>,
}

/// A run that waits for what the file at `path` holds.
pub struct SourceRequest {
    pub run: SpliceView,
    pub path: Seq<char>,
}

/// What a run does next.
pub enum SpliceStep {
    Read(SourceRequest),
    Done(Result<Seq<char>, ErrorView>),
}

/// The step that `run` reaches on what it holds: a line that is no source
/// line goes to the output, with a line feed; at a source line the run stops
/// and asks for the file it names, written onto the directory of the script.
pub open spec fn splice_on(run: SpliceView) -> SpliceStep
    decreases run.lines.len() - run.next,
{
    if run.next >= run.lines.len() {
        SpliceStep::Done(Ok(run.output))
    } else {
        let line = run.lines[run.next as int];
        match source_name(line) {
            None => splice_on(
                SpliceView {
                    file: run.file,
                    dir: run.dir,
                    lines: run.lines,
                    next: run.next + 1,
                    output: run.output + line + seq!['\n'],
                },
            ),
            Some(name) => SpliceStep::Read(
                SourceRequest {
                    run: SpliceView {
                        file: run.file,
                        dir: run.dir,
                        lines: run.lines,
                        next: run.next + 1,
                        output: run.output,
                    },
                    path: joined_path(run.dir, name),
                },
            ),
        }
    }
}

/// The first step of a run on the script at `file` that holds `content`. A
/// script without a parent directory fails at once.
pub open spec fn splice_start(content: Seq<char>, file: Seq<char>) -> SpliceStep {
    match parent_of(file) {
        None => SpliceStep::Done(
            Err(ErrorView { kind: ErrorKind::NoParent, path: file, trace: Seq::empty() }),
        ),
        Some(dir) => splice_on(
            SpliceView {
                file,
                dir,
                lines: split_lines(content),
                next: 0,
                output: Seq::empty(),
            },
        ),
    }
}

impl SourceRequest {
    /// The step that follows when the request is answered with `text`: what
    /// the file holds, or `None` where it cannot be read.
    ///
    /// Without a text the run fails with `FileRead`, the path of the file,
    /// and the source line as the trace. With one, the lines of the file go
    /// to the output, each with a line feed, and the run goes on.
    pub open spec fn answered(self, text: Option<Seq<char>>) -> SpliceStep {
        match text {
            None => SpliceStep::Done(
                Err(
                    ErrorView {
                        kind: ErrorKind::FileRead,
                        path: self.path,
                        trace: seq![SiteView { file: self.run.file, line: self.run.next }],
                    },
                ),
            ),
            Some(text) => splice_on(
                SpliceView {
                    file: self.run.file,
                    dir: self.run.dir,
                    lines: self.run.lines,
                    next: self.run.next,
                    output: self.run.output + unlines(split_lines(text)),
                },
            ),
        }
    }
}

/// `rest` with `text` put before it.
pub open spec fn behind(text: Seq<char>, rest: Result<Seq<char>, ErrorView>) -> Result<
    Seq<char>,
    ErrorView,
> {
    match rest {
        Ok(r) => Ok(text + r),
        Err(e) => Err(e),
    }
}

/// What the lines of the script at `file` give from line `from` on (counted
/// from 0), when the files are those of `tree`: each line with a line feed,
/// and for each source line the lines of the file it names, read at the path
/// as it is written onto `dir`.
pub open spec fn spliced_lines(
    tree: FileTree,
    file: Seq<char>,
    dir: Seq<char>,
    lines: Seq<Seq<char>>,
    from: nat,
) -> Result<Seq<char>, ErrorView>
    decreases lines.len() - from,
{
    if from >= lines.len() {
        Ok(Seq::empty())
    } else {
        let rest = spliced_lines(tree, file, dir, lines, from + 1);
        match source_name(lines[from as int]) {
            None => behind(lines[from as int] + seq!['\n'], rest),
            Some(name) => match tree.read(joined_path(dir, name)) {
                None => Err(
                    ErrorView {
                        kind: ErrorKind::FileRead,
                        path: joined_path(dir, name),
                        trace: seq![site_of(file, from)],
                    },
                ),
                Some(text) => behind(unlines(split_lines(text)), rest),
            },
        }
    }
}

/// What splicing gives for the script at `file` that holds `content`.
pub open spec fn spliced(tree: FileTree, content: Seq<char>, file: Seq<char>) -> Result<
    Seq<char>,
    ErrorView,
> {
    match parent_of(file) {
        None => Err(ErrorView { kind: ErrorKind::NoParent, path: file, trace: Seq::empty() }),
        Some(dir) => spliced_lines(tree, file, dir, split_lines(content), 0),
    }
}

/// What a run that stands at `step` comes to when its requests are answered
/// from `tree`.
pub open spec fn splice_outcome(tree: FileTree, step: SpliceStep) -> Result<Seq<char>, ErrorView> {
    match step {
        SpliceStep::Done(result) => result,
        SpliceStep::Read(request) => {
            let run = request.run;
            let rest = spliced_lines(tree, run.file, run.dir, run.lines, run.next);
            match tree.read(request.path) {
                None => Err(
                    ErrorView {
                        kind: ErrorKind::FileRead,
                        path: request.path,
                        trace: seq![SiteView { file: run.file, line: run.next }],
                    },
                ),
                Some(text) => behind(run.output + unlines(split_lines(text)), rest),
            }
        },
    }
}

/// The step that follows `step` when `tree` answers its request.
pub open spec fn splice_answer(tree: FileTree, step: SpliceStep) -> SpliceStep {
    match step {
        SpliceStep::Read(request) => request.answered(tree.read(request.path)),
        SpliceStep::Done(_) => step,
    }
}

/// The step that a run reaches from `step` after `n` answers from `tree`.
pub open spec fn splice_for(tree: FileTree, step: SpliceStep, n: nat) -> SpliceStep
    decreases n,
{
    if n == 0 {
        step
    } else {
        splice_for(tree, splice_answer(tree, step), (n - 1) as nat)
    }
}

/// How many lines a run at `step` has left, and one more while it waits.
pub open spec fn splice_left(step: SpliceStep) -> nat {
    match step {
        SpliceStep::Read(request) => if request.run.next <= request.run.lines.len() {
            (request.run.lines.len() - request.run.next + 1) as nat
        } else {
            1
        },
        SpliceStep::Done(_) => 0,
    }
}

/// Going on with a run changes nothing in what it comes to, and leaves it
/// with no more lines than it had.
proof fn lemma_splice_on(tree: FileTree, run: SpliceView)
    ensures
        splice_outcome(tree, splice_on(run)) == behind(
            run.output,
            spliced_lines(tree, run.file, run.dir, run.lines, run.next),
        ),
        splice_left(splice_on(run)) <= run.lines.len() - run.next || splice_left(splice_on(run))
            == 0,
    decreases run.lines.len() - run.next,
{
    if run.next >= run.lines.len() {
        assert(run.output + Seq::<char>::empty() == run.output);
    } else {
        let line = run.lines[run.next as int];
        let rest = spliced_lines(tree, run.file, run.dir, run.lines, run.next + 1);
        match source_name(line) {
            None => {
                lemma_splice_on(
                    tree,
                    SpliceView {
                        file: run.file,
                        dir: run.dir,
                        lines: run.lines,
                        next: run.next + 1,
                        output: run.output + line + seq!['\n'],
                    },
                );
                match rest {
                    Ok(r) => {
                        assert(run.output + (line + seq!['\n'] + r) == run.output + line
                            + seq!['\n'] + r);
                    },
                    Err(_) => {},
                }
            },
            Some(name) => {
                match tree.read(joined_path(run.dir, name)) {
                    None => {},
                    Some(text) => {
                        match rest {
                            Ok(r) => {
                                assert(run.output + (unlines(split_lines(text)) + r) == run.output
                                    + unlines(split_lines(text)) + r);
                            },
                            Err(_) => {},
                        }
                    },
                }
            },
        }
    }
}

/// A run whose requests are answered from `tree` is done after finitely
/// many answers, `n` of them, and gives what `splice_outcome` says.
pub proof fn law_splice_ends(tree: FileTree, step: SpliceStep) -> (n: nat)
    ensures
        splice_for(tree, step, n) == SpliceStep::Done(splice_outcome(tree, step)),
    decreases splice_left(step),
{
    match step {
        SpliceStep::Done(_) => 0,
        SpliceStep::Read(request) => {
            match tree.read(request.path) {
                None => {},
                Some(text) => {
                    lemma_splice_on(
                        tree,
                        SpliceView {
                            file: request.run.file,
                            dir: request.run.dir,
                            lines: request.run.lines,
                            next: request.run.next,
                            output: request.run.output + unlines(split_lines(text)),
                        },
                    );
                },
            }
            let rest = law_splice_ends(tree, splice_answer(tree, step));
            rest + 1
        },
    }
}

/// A run on a script, each request of which is answered from `tree`, is
/// done after finitely many answers, `n` of them, with what `spliced` names
/// for the script.
pub proof fn law_splice_gives_spliced(tree: FileTree, content: Seq<char>, file: Seq<char>) -> (n:
    nat)
    ensures
        splice_for(tree, splice_start(content, file), n) == SpliceStep::Done(
            spliced(tree, content, file),
        ),
{
    match parent_of(file) {
        None => {},
        Some(dir) => {
            let run = SpliceView {
                file,
                dir,
                lines: split_lines(content),
                next: 0,
                output: Seq::empty(),
            };
            lemma_splice_on(tree, run);
            match spliced_lines(tree, file, dir, split_lines(content), 0) {
                Ok(r) => {
                    assert(Seq::<char>::empty() + r == r);
                },
                Err(_) => {},
            }
        },
    }
    law_splice_ends(tree, splice_start(content, file))
}

/// A run that needs what a sourced file holds.
pub struct PendingSource {
    file: String,
    dir: String,
    lines: Vec<Vec<char>>,
    next: usize,
    output: String,
    path: String,
}

/// What a run needs next, or what came of it.
pub enum Splice {
    /// Read the file at `path()`, and call `resume` with its bytes.
    Read(PendingSource),
    /// The run is over: here is the text, or the failure.
    Done(Result<String, ResolveError>),
}

impl View for PendingSource {
    type V = SourceRequest;

    closed spec fn view(&self) -> SourceRequest {
        SourceRequest {
            run: SpliceView {
                file: self.file@,
                dir: self.dir@,
                lines: line_views(self.lines@),
                next: self.next as nat,
                output: self.output@,
            },
            path: self.path@,
        }
    }
}

/// What came of a run, as a mathematical value.
pub open spec fn spliced_view(result: Result<String, ResolveError>) -> Result<
    Seq<char>,
    ErrorView,
> {
    match result {
        Ok(text) => Ok(text@),
        Err(e) => Err(e@),
    }
}

impl View for Splice {
    type V = SpliceStep;

    open spec fn view(&self) -> SpliceStep {
        match self {
            Splice::Read(pending) => SpliceStep::Read(pending@),
            Splice::Done(result) => SpliceStep::Done(spliced_view(*result)),
        }
    }
}

/// Where in `line` the name of the file stands that it sources.
fn source_span(line: &Vec<char>) -> (span: Option<(usize, usize)>)
    ensures
        match span {
            Some((from, to)) => from <= to <= line.len() && source_name(line@) == Some(
                line@.subrange(from as int, to as int),
            ),
            None => source_name(line@) is None,
        },
{
    let start = skip_blank(line, 0);
    assert(line@.skip(0) == line@);
    if keyword_at(line, start) != 6 {
        return None;
    }
    let after = start + 6;
    let from = skip_blank(line, after);
    if from == after {
        return None;
    }
    if from < line.len() {
        let mut to: usize = from;
        while to < line.len() && line[to] != '\n'
            invariant
                from <= to <= line.len(),
                forall|i: int| from <= i < to ==> line@[i] != '\n',
            decreases line.len() - to,
        {
            to += 1;
        }
        proof {
            let rest = line@.skip(from as int);
            assert forall|i: int| 0 <= i < to - from implies rest[i] != '\n' by {
                assert(rest[i] == line@[from + i]);
            }
            if to < line.len() {
                assert(rest[to - from] == line@[to as int]);
            }
            lemma_line_len(rest, to - from);
        }
        if skip_blank(line, to) != line.len() {
            return None;
        }
        let first = line[from];
        if (first == '"' || first == '\'') && to > from + 1 {
            Some((from + 1, to))
        } else {
            Some((from, to))
        }
    } else {
        let mut at: usize = line.len();
        while at > after + 1 && line[at - 1] == '\n'
            invariant
                after + 1 <= at <= line.len(),
                last_on_line(line@, after + 1, line.len() as int) == last_on_line(
                    line@,
                    after + 1,
                    at as int,
                ),
            decreases at,
        {
            at -= 1;
        }
        if at > after + 1 {
            Some((at - 1, at))
        } else {
            None
        }
    }
}

/// Tells whether `line` is a source line and, if so, which file it names.
pub fn match_source(line: &str) -> (found: Option<String>)
    ensures
        match found {
            Some(name) => source_name(line@) == Some(name@),
            None => source_name(line@) is None,
        },
{
    let chars = to_chars(line);
    match source_span(&chars) {
        Some((from, to)) => {
            let mut name = String::new();
            push_range(&mut name, &chars, from, to);
            Some(name)
        },
        None => None,
    }
}

/// Goes on with the run until it needs a file or is done.
fn splice_run(
    file: String,
    dir: String,
    lines: Vec<Vec<char>>,
    next: usize,
    output: String,
) -> (step: Splice)
    ensures
        step@ == splice_on(
            SpliceView {
                file: file@,
                dir: dir@,
                lines: line_views(lines@),
                next: next as nat,
                output: output@,
            },
        ),
{
    let mut at = next;
    let mut text = output;
    while at < lines.len()
        invariant
            splice_on(
                SpliceView {
                    file: file@,
                    dir: dir@,
                    lines: line_views(lines@),
                    next: next as nat,
                    output: output@,
                },
            ) == splice_on(
                SpliceView {
                    file: file@,
                    dir: dir@,
                    lines: line_views(lines@),
                    next: at as nat,
                    output: text@,
                },
            ),
        decreases lines.len() - at,
    {
        let ghost line = lines@[at as int]@;
        let ghost written = text@;
        assert(line == line_views(lines@)[at as int]);
        match source_span(&lines[at]) {
            None => {
                push_range(&mut text, &lines[at], 0, lines[at].len());
                text.push('\n');
                assert(line.subrange(0, line.len() as int) == line);
                assert(text@ == written + line + seq!['\n']);
                at += 1;
            },
            Some((from, to)) => {
                let path = join_range(dir.as_str(), &lines[at], from, to);
                return Splice::Read(
                    PendingSource { file, dir, lines, next: at + 1, output: text, path },
                );
            },
        }
    }
    Splice::Done(Ok(text))
}

/// Starts a run on the script at `input_file`, which holds `content`, and
/// goes through its lines up to the first source line.
pub fn process_lines(content: &str, input_file: &str) -> (step: Splice)
    ensures
        step@ == splice_start(content@, input_file@),
{
    let path = to_chars(input_file);
    match parent_len(&path) {
        None => {
            let failure = ResolveError {
                kind: ErrorKind::NoParent,
                path: input_file.to_owned(),
                trace: Vec::new(),
            };
            assert(failure@.trace == Seq::<SiteView>::empty());
            Splice::Done(Err(failure))
        },
        Some(n) => {
            let mut dir = String::new();
            push_range(&mut dir, &path, 0, n);
            let chars = to_chars(content);
            let lines = lines_of(&chars);
            splice_run(input_file.to_owned(), dir, lines, 0, String::new())
        },
    }
}

impl PendingSource {
    /// The path of the file that the run needs.
    pub fn path(&self) -> (path: &str)
        ensures
            path@ == self@.path,
    {
        self.path.as_str()
    }

    /// Puts the lines of the sourced file in the place of the source line
    /// and goes on to the next one.
    ///
    /// `content` holds the bytes of the file, or `None` where it could not
    /// be read. Bytes that are no UTF-8 count as unreadable.
    pub fn resume(self, content: Option<Vec<u8>>) -> (step: Splice)
        ensures
            step@ == self@.answered(decoded(content)),
    {
        let PendingSource { file, dir, lines, next, output, path } = self;
        match read_file_to_string(path.as_str(), content) {
            Err(e) => {
                let mut trace: Vec<IncludeSite> = Vec::new();
                trace.push(IncludeSite { file, line: next });
                let failure = ResolveError { kind: e.kind, path: e.path, trace };
                assert(failure@.trace == seq![SiteView { file: file@, line: next as nat }]);
                Splice::Done(Err(failure))
            },
            Ok(text) => {
                let chars = to_chars(text.as_str());
                let sourced = lines_of(&chars);
                let mut output = output;
                let ghost before = output@;
                let ghost all = line_views(sourced@);
                let mut i: usize = 0;
                assert(all.take(0) == Seq::<Seq<char>>::empty());
                assert(before + Seq::<char>::empty() == before);
                while i < sourced.len()
                    invariant
                        i <= sourced.len(),
                        all == line_views(sourced@),
                        output@ == before + unlines(all.take(i as int)),
                    decreases sourced.len() - i,
                {
                    let ghost written = output@;
                    push_range(&mut output, &sourced[i], 0, sourced[i].len());
                    output.push('\n');
                    proof {
                        let line = sourced@[i as int]@;
                        assert(line.subrange(0, line.len() as int) == line);
                        lemma_unlines_one(line);
                        lemma_unlines_add(all.take(i as int), seq![line]);
                        assert(all.take(i + 1) == all.take(i as int) + seq![line]);
                        assert(output@ == written + (line + seq!['\n']));
                        assert(before + (unlines(all.take(i as int)) + unlines(seq![line]))
                            == written + (line + seq!['\n']));
                    }
                    i += 1;
                }
                assert(all.take(sourced.len() as int) == all);
                splice_run(file, dir, lines, next, output)
            },
        }
    }
}

} // verus!
