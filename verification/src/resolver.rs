//! The resolver: the run that turns an entry script into a bundle.
//!
//! The resolver never touches the disk. It goes as far as it can on what it
//! holds, and then says what it needs next: the canonical path behind a
//! path, or the bytes of a file. Its caller finds that and hands it back,
//! until the run is done:
//!
//! - `resolve_script` starts a run;
//! - `resolve_script_recursive` enters the file that a path led to;
//! - `inline_script_content` goes through the lines of a file that was read.
//!
//! Each returns a `Step`. What a step is, as a mathematical value, is a
//! `StepView`, and `start`, `PathRequest::answered` and
//! `ReadRequest::answered` say which step follows which, whatever the
//! answers are. What a run comes to when its answers come from one set of
//! files is shown in `crate::refinement`.

use crate::directive::{directive_path, directive_span};
use crate::error::{site_views, ErrorKind, ErrorView, IncludeSite, ResolveError, SiteView};
use crate::fs::{decoded, read_file_to_string};
use crate::model::{inlined_marker, skipped_marker};
use crate::path::{dir_of, join_range, joined_path, parent_len, push_quoted};
use crate::text::{line_views, lines_of, push_range, push_text, split_lines, to_chars};
use vstd::prelude::*;

verus! {

/// A file whose lines the run is going through.
pub struct FrameView {
    /// The canonical path of the file.
    pub file: Seq<char>,
    /// The directory against which its directives are resolved.
    pub dir: Seq<char>,
    /// Its lines.
    pub lines: Seq<Seq<char>>,
    /// How many of them the run has gone through.
    pub next: nat,
}

/// A run between two steps.
pub struct RunView {
    /// The files that are open, the entry script first. Each but the last
    /// waits at the directive that asked for the one after it.
    pub stack: Seq<FrameView>,
    /// The canonical paths of the files reached so far, in the order in
    /// which they were reached.
    pub visited: Seq<Seq<char>>,
    /// The text of the bundle so far.
    pub output: Seq<char>,
}

/// A run that waits for the canonical path of the file that `path` leads to.
pub struct PathRequest {
    pub run: RunView,
    pub path: Seq<char>,
}

/// A run that waits for what the file with the canonical path `file` holds.
pub struct ReadRequest {
    pub run: RunView,
    pub file: Seq<char>,
}

/// What a run does next.
pub enum StepView {
    Canonicalize(PathRequest),
    Read(ReadRequest),
    Done(Result<Seq<char>, ErrorView>),
}

impl FrameView {
    /// The directory is that of the file.
    pub open spec fn wf(self) -> bool {
        self.dir == dir_of(self.file)
    }
}

/// Each file of `stack` is resolved against its own directory.
pub open spec fn frames_wf(stack: Seq<FrameView>) -> bool {
    forall|i: int| 0 <= i < stack.len() ==> (#[trigger] stack[i]).wf()
}

impl RunView {
    /// Each open file is resolved against its own directory, and no file
    /// counts as reached twice.
    pub open spec fn wf(self) -> bool {
        frames_wf(self.stack) && self.visited.no_duplicates()
    }
}

impl PathRequest {
    /// The run is well formed.
    pub open spec fn wf(self) -> bool {
        self.run.wf()
    }
}

impl ReadRequest {
    /// The run is well formed, and the file that is asked for counts as
    /// reached.
    pub open spec fn wf(self) -> bool {
        self.run.wf() && self.run.visited.contains(self.file)
    }
}

impl StepView {
    /// What holds of every step of a run that `start` began.
    pub open spec fn wf(self) -> bool {
        match self {
            StepView::Canonicalize(request) => request.wf(),
            StepView::Read(request) => request.wf(),
            StepView::Done(_) => true,
        }
    }
}

/// The directives at which the files of `stack` wait.
pub open spec fn sites(stack: Seq<FrameView>) -> Seq<SiteView> {
    Seq::new(stack.len(), |i: int| SiteView { file: stack[i].file, line: stack[i].next })
}

/// How much is left to do on the open files without reading another: one
/// for each file, and one for each line of it that is still to come.
pub open spec fn work(stack: Seq<FrameView>) -> nat
    decreases stack.len(),
{
    if stack.len() == 0 {
        0
    } else {
        let top = stack.last();
        let left = if top.next < top.lines.len() {
            top.lines.len() - top.next
        } else {
            0
        };
        work(stack.drop_last()) + 1 + left as nat
    }
}

/// `stack` with its top file one line further.
pub open spec fn stepped(stack: Seq<FrameView>) -> Seq<FrameView> {
    let top = stack.last();
    stack.drop_last().push(
        FrameView { file: top.file, dir: top.dir, lines: top.lines, next: top.next + 1 },
    )
}

/// Going one line further leaves less to do.
pub proof fn lemma_work_stepped(stack: Seq<FrameView>)
    requires
        stack.len() > 0,
        stack.last().next < stack.last().lines.len(),
    ensures
        work(stepped(stack)) < work(stack),
{
    assert(stepped(stack).drop_last() == stack.drop_last());
}

/// The first step of a run on the script at `entry`: to ask where it is.
pub open spec fn start(entry: Seq<char>) -> StepView {
    StepView::Canonicalize(
        PathRequest {
            run: RunView { stack: Seq::empty(), visited: Seq::empty(), output: Seq::empty() },
            path: entry,
        },
    )
}

/// The step that `run` reaches on what it holds.
///
/// It goes through the lines of the file on top of the stack. A line that is
/// no directive goes to the output, with a line feed. At a directive the run
/// stops and asks for the file behind its path, written onto the directory
/// of the file that holds it. A file that has no line left is closed, and
/// the one below it goes on. The run is done when no file is open.
pub open spec fn advance(run: RunView) -> StepView
    decreases work(run.stack),
{
    if run.stack.len() == 0 {
        StepView::Done(Ok(run.output))
    } else {
        let top = run.stack.last();
        if top.next >= top.lines.len() {
            advance(
                RunView { stack: run.stack.drop_last(), visited: run.visited, output: run.output },
            )
        } else {
            let line = top.lines[top.next as int];
            proof {
                lemma_work_stepped(run.stack);
            }
            match directive_path(line) {
                None => advance(
                    RunView {
                        stack: stepped(run.stack),
                        visited: run.visited,
                        output: run.output + line + seq!['\n'],
                    },
                ),
                Some(path) => StepView::Canonicalize(
                    PathRequest {
                        run: RunView {
                            stack: stepped(run.stack),
                            visited: run.visited,
                            output: run.output,
                        },
                        path: joined_path(top.dir, path),
                    },
                ),
            }
        }
    }
}

impl PathRequest {
    /// Whether the request is for the entry script.
    pub open spec fn for_entry(self) -> bool {
        self.run.stack.len() == 0
    }

    /// The step that follows when the request is answered with `canonical`:
    /// the canonical path of the file that the path leads to, or `None`
    /// where it leads to none.
    ///
    /// Without a file the run fails: with `FileRead` for the entry script,
    /// with `PathResolution` for the path of a directive, and with the
    /// directives that led there as the trace. With a file, the marker line
    /// of an inlined file goes to the output, unless the file is the entry
    /// script. A file reached before gets its second marker line and the
    /// run goes on. Any other file counts as reached from now on, and the
    /// run asks for what it holds.
    pub open spec fn answered(self, canonical: Option<Seq<char>>) -> StepView {
        match canonical {
            None => StepView::Done(
                Err(
                    ErrorView {
                        kind: if self.for_entry() {
                            ErrorKind::FileRead
                        } else {
                            ErrorKind::PathResolution
                        },
                        path: self.path,
                        trace: sites(self.run.stack),
                    },
                ),
            ),
            Some(file) => {
                let output = if self.for_entry() {
                    self.run.output
                } else {
                    self.run.output + inlined_marker(file)
                };
                if self.run.visited.contains(file) {
                    advance(
                        RunView {
                            stack: self.run.stack,
                            visited: self.run.visited,
                            output: output + skipped_marker(file),
                        },
                    )
                } else {
                    StepView::Read(
                        ReadRequest {
                            run: RunView {
                                stack: self.run.stack,
                                visited: self.run.visited.push(file),
                                output,
                            },
                            file,
                        },
                    )
                }
            },
        }
    }
}

impl ReadRequest {
    /// The step that follows when the request is answered with `text`: what
    /// the file holds, or `None` where it cannot be read.
    ///
    /// Without a text the run fails with `FileRead`, and with the directives
    /// that led to the file as the trace. With one, the file is opened on
    /// top of the others and the run goes through its lines.
    pub open spec fn answered(self, text: Option<Seq<char>>) -> StepView {
        match text {
            None => StepView::Done(
                Err(
                    ErrorView {
                        kind: ErrorKind::FileRead,
                        path: self.file,
                        trace: sites(self.run.stack),
                    },
                ),
            ),
            Some(text) => advance(
                RunView {
                    stack: self.run.stack.push(
                        FrameView {
                            file: self.file,
                            dir: dir_of(self.file),
                            lines: split_lines(text),
                            next: 0,
                        },
                    ),
                    visited: self.run.visited,
                    output: self.run.output,
                },
            ),
        }
    }
}

/// Going one line further, and closing the top file, keep each file with
/// its own directory.
pub proof fn lemma_stepped_wf(stack: Seq<FrameView>)
    requires
        frames_wf(stack),
        stack.len() > 0,
    ensures
        frames_wf(stepped(stack)),
        frames_wf(stack.drop_last()),
{
    let up = stepped(stack);
    let below = stack.drop_last();
    assert(stack.last().wf());
    assert forall|i: int| 0 <= i < up.len() implies (#[trigger] up[i]).wf() by {
        if i < below.len() {
            assert(up[i] == stack[i]);
        }
    }
    assert forall|i: int| 0 <= i < below.len() implies (#[trigger] below[i]).wf() by {
        assert(below[i] == stack[i]);
    }
}

/// A run that is well formed stays so when it goes on.
pub proof fn lemma_advance_wf(run: RunView)
    requires
        run.wf(),
    ensures
        advance(run).wf(),
    decreases work(run.stack),
{
    if run.stack.len() > 0 {
        let top = run.stack.last();
        lemma_stepped_wf(run.stack);
        if top.next >= top.lines.len() {
            lemma_advance_wf(
                RunView { stack: run.stack.drop_last(), visited: run.visited, output: run.output },
            );
        } else {
            let line = top.lines[top.next as int];
            lemma_work_stepped(run.stack);
            if directive_path(line) is None {
                lemma_advance_wf(
                    RunView {
                        stack: stepped(run.stack),
                        visited: run.visited,
                        output: run.output + line + seq!['\n'],
                    },
                );
            }
        }
    }
}

/// A run that is well formed stays so whatever its request for a path is
/// answered with.
pub proof fn lemma_path_answered_wf(request: PathRequest, canonical: Option<Seq<char>>)
    requires
        request.wf(),
    ensures
        request.answered(canonical).wf(),
{
    match canonical {
        None => {},
        Some(file) => {
            let output = if request.for_entry() {
                request.run.output
            } else {
                request.run.output + inlined_marker(file)
            };
            if request.run.visited.contains(file) {
                lemma_advance_wf(
                    RunView {
                        stack: request.run.stack,
                        visited: request.run.visited,
                        output: output + skipped_marker(file),
                    },
                );
            } else {
                let reached = request.run.visited.push(file);
                assert(reached[reached.len() - 1] == file);
            }
        },
    }
}

/// A run that is well formed stays so whatever its request for a text is
/// answered with.
pub proof fn lemma_read_answered_wf(request: ReadRequest, text: Option<Seq<char>>)
    requires
        request.wf(),
    ensures
        request.answered(text).wf(),
{
    match text {
        None => {},
        Some(text) => {
            let frame = FrameView {
                file: request.file,
                dir: dir_of(request.file),
                lines: split_lines(text),
                next: 0,
            };
            let stack = request.run.stack.push(frame);
            assert forall|i: int| 0 <= i < stack.len() implies (#[trigger] stack[i]).wf() by {
                if i < request.run.stack.len() {
                    assert(stack[i] == request.run.stack[i]);
                }
            }
            lemma_advance_wf(
                RunView { stack, visited: request.run.visited, output: request.run.output },
            );
        },
    }
}

/// Going on with a run leaves less to do on the open files, and reaches no
/// new file.
pub proof fn lemma_advance_progress(run: RunView)
    ensures
        match advance(run) {
            StepView::Canonicalize(request) => request.run.visited == run.visited && work(
                request.run.stack,
            ) < work(run.stack),
            StepView::Read(_) => false,
            StepView::Done(_) => true,
        },
    decreases work(run.stack),
{
    if run.stack.len() > 0 {
        let top = run.stack.last();
        if top.next >= top.lines.len() {
            lemma_advance_progress(
                RunView { stack: run.stack.drop_last(), visited: run.visited, output: run.output },
            );
        } else {
            let line = top.lines[top.next as int];
            lemma_work_stepped(run.stack);
            if directive_path(line) is None {
                lemma_advance_progress(
                    RunView {
                        stack: stepped(run.stack),
                        visited: run.visited,
                        output: run.output + line + seq!['\n'],
                    },
                );
            }
        }
    }
}

/// No file is read twice, and no file is forgotten: when a request for a
/// path is answered, the run asks to read a file only if it was not reached
/// before, and counts it as reached from then on. Otherwise the files
/// reached stay as they are.
pub proof fn law_path_answer_visits(request: PathRequest, canonical: Option<Seq<char>>)
    ensures
        match request.answered(canonical) {
            StepView::Canonicalize(next) => next.run.visited == request.run.visited,
            StepView::Read(next) => !request.run.visited.contains(next.file) && canonical == Some(
                next.file,
            ) && next.run.visited == request.run.visited.push(next.file),
            StepView::Done(_) => true,
        },
{
    match canonical {
        None => {},
        Some(file) => {
            let output = if request.for_entry() {
                request.run.output
            } else {
                request.run.output + inlined_marker(file)
            };
            if request.run.visited.contains(file) {
                lemma_advance_progress(
                    RunView {
                        stack: request.run.stack,
                        visited: request.run.visited,
                        output: output + skipped_marker(file),
                    },
                );
            }
        },
    }
}

/// When a request for a text is answered, the files reached stay as they
/// are, and the run asks for a path next or is done.
pub proof fn law_read_answer_visits(request: ReadRequest, text: Option<Seq<char>>)
    ensures
        match request.answered(text) {
            StepView::Canonicalize(next) => next.run.visited == request.run.visited,
            StepView::Read(_) => false,
            StepView::Done(_) => true,
        },
{
    match text {
        None => {},
        Some(text) => {
            lemma_advance_progress(
                RunView {
                    stack: request.run.stack.push(
                        FrameView {
                            file: request.file,
                            dir: dir_of(request.file),
                            lines: split_lines(text),
                            next: 0,
                        },
                    ),
                    visited: request.run.visited,
                    output: request.run.output,
                },
            );
        },
    }
}

/// A file that is open.
struct Frame {
    file: String,
    dir: String,
    lines: Vec<Vec<char>>,
    next: usize,
}

/// The state of a run.
struct Run {
    stack: Vec<Frame>,
    /// The files reached, each once and in the order of reach. It is a list
    /// that is searched from its start, not a `HashSet`: what vstd states of
    /// a `HashSet` holds for keys whose hashing it models (`obeys_key_model`),
    /// and `String` is not among them, so nothing could be proved of one.
    visited: Vec<String>,
    output: String,
}

/// A run that needs the canonical path of the file that a path leads to.
pub struct PendingPath {
    run: Run,
    path: String,
}

/// A run that needs what a file holds.
pub struct PendingScript {
    run: Run,
    file: String,
}

/// What a run needs next, or what came of it.
pub enum Step {
    /// Find the file that `path()` leads to, and call
    /// `resolve_script_recursive` with its canonical path.
    Canonicalize(PendingPath),
    /// Read the file at `path()`, and call `inline_script_content` with its
    /// bytes.
    Read(PendingScript),
    /// The run is over: here is the bundle, or the failure.
    Done(Result<String, ResolveError>),
}

impl View for Frame {
    type V = FrameView;

    closed spec fn view(&self) -> FrameView {
        FrameView {
            file: self.file@,
            dir: self.dir@,
            lines: line_views(self.lines@),
            next: self.next as nat,
        }
    }
}

/// What `stack` holds, file by file.
spec fn frame_views(stack: Seq<Frame>) -> Seq<FrameView> {
    Seq::new(stack.len(), |i: int| stack[i]@)
}

/// What `paths` hold, path by path.
spec fn path_views(paths: Seq<String>) -> Seq<Seq<char>> {
    Seq::new(paths.len(), |i: int| paths[i]@)
}

impl View for Run {
    type V = RunView;

    closed spec fn view(&self) -> RunView {
        RunView {
            stack: frame_views(self.stack@),
            visited: path_views(self.visited@),
            output: self.output@,
        }
    }
}

impl View for PendingPath {
    type V = PathRequest;

    closed spec fn view(&self) -> PathRequest {
        PathRequest { run: self.run@, path: self.path@ }
    }
}

impl View for PendingScript {
    type V = ReadRequest;

    closed spec fn view(&self) -> ReadRequest {
        ReadRequest { run: self.run@, file: self.file@ }
    }
}

/// What the caller's answer holds: a `String` as its characters.
pub open spec fn answer_view(answer: Option<String>) -> Option<Seq<char>> {
    match answer {
        Some(s) => Some(s@),
        None => None,
    }
}

/// What came of a run, as a mathematical value.
pub open spec fn result_view(result: Result<String, ResolveError>) -> Result<Seq<char>, ErrorView> {
    match result {
        Ok(bundle) => Ok(bundle@),
        Err(e) => Err(e@),
    }
}

impl View for Step {
    type V = StepView;

    open spec fn view(&self) -> StepView {
        match self {
            Step::Canonicalize(pending) => StepView::Canonicalize(pending@),
            Step::Read(pending) => StepView::Read(pending@),
            Step::Done(result) => StepView::Done(result_view(*result)),
        }
    }
}

impl PendingPath {
    /// The path whose file the run needs.
    pub fn path(&self) -> (path: &str)
        ensures
            path@ == self@.path,
    {
        self.path.as_str()
    }
}

impl PendingScript {
    /// The canonical path of the file that the run needs.
    pub fn path(&self) -> (path: &str)
        ensures
            path@ == self@.file,
    {
        self.file.as_str()
    }
}

/// Whether `file` is among `visited`.
fn was_visited(visited: &Vec<String>, file: &String) -> (found: bool)
    ensures
        found == path_views(visited@).contains(file@),
{
    let mut i: usize = 0;
    while i < visited.len()
        invariant
            i <= visited.len(),
            forall|j: int| 0 <= j < i ==> path_views(visited@)[j] != file@,
        decreases visited.len() - i,
    {
        if visited[i] == *file {
            assert(path_views(visited@)[i as int] == file@);
            return true;
        }
        i += 1;
    }
    false
}

/// The directives at which the files of `stack` wait.
fn trace_of(stack: &Vec<Frame>) -> (trace: Vec<IncludeSite>)
    ensures
        site_views(trace@) == sites(frame_views(stack@)),
{
    let mut trace: Vec<IncludeSite> = Vec::new();
    let mut i: usize = 0;
    while i < stack.len()
        invariant
            i <= stack.len(),
            trace@.len() == i,
            forall|j: int| 0 <= j < i ==> trace@[j]@ == sites(frame_views(stack@))[j],
        decreases stack.len() - i,
    {
        trace.push(IncludeSite { file: stack[i].file.clone(), line: stack[i].next });
        i += 1;
    }
    trace
}

/// The directory against which the directives of `file` are resolved.
fn dir_string(file: &str) -> (dir: String)
    ensures
        dir@ == dir_of(file@),
{
    let chars = to_chars(file);
    let mut dir = String::new();
    match parent_len(&chars) {
        Some(n) => {
            push_range(&mut dir, &chars, 0, n);
        },
        None => {
            dir.push('.');
        },
    }
    dir
}

/// Goes on with the run until it needs something or is done.
fn advance_run(stack: Vec<Frame>, visited: Vec<String>, output: String) -> (step: Step)
    ensures
        step@ == advance(
            RunView {
                stack: frame_views(stack@),
                visited: path_views(visited@),
                output: output@,
            },
        ),
{
    let ghost goal = advance(
        RunView { stack: frame_views(stack@), visited: path_views(visited@), output: output@ },
    );
    let ghost reached = path_views(visited@);
    let mut open = stack;
    let mut text = output;
    loop
        invariant
            reached == path_views(visited@),
            goal == advance(
                RunView { stack: frame_views(stack@), visited: reached, output: output@ },
            ),
            goal == advance(RunView { stack: frame_views(open@), visited: reached, output: text@ }),
        decreases work(frame_views(open@)),
    {
        let ghost before = frame_views(open@);
        let ghost written = text@;
        match open.pop() {
            None => {
                return Step::Done(Ok(text));
            },
            Some(top) => {
                assert(frame_views(open@) == before.drop_last());
                assert(top@ == before.last());
                if top.next < top.lines.len() {
                    let next = top.next;
                    let found = directive_span(&top.lines[next]);
                    let ghost line = top.lines@[next as int]@;
                    assert(line == top@.lines[next as int]);
                    proof {
                        lemma_work_stepped(before);
                    }
                    match found {
                        None => {
                            push_range(&mut text, &top.lines[next], 0, top.lines[next].len());
                            text.push('\n');
                            assert(line.subrange(0, line.len() as int) == line);
                            assert(text@ == written + line + seq!['\n']);
                            open.push(
                                Frame {
                                    file: top.file,
                                    dir: top.dir,
                                    lines: top.lines,
                                    next: next + 1,
                                },
                            );
                            assert(frame_views(open@) == stepped(before));
                        },
                        Some((from, to)) => {
                            let path = join_range(top.dir.as_str(), &top.lines[next], from, to);
                            open.push(
                                Frame {
                                    file: top.file,
                                    dir: top.dir,
                                    lines: top.lines,
                                    next: next + 1,
                                },
                            );
                            assert(frame_views(open@) == stepped(before));
                            let run = Run { stack: open, visited, output: text };
                            return Step::Canonicalize(PendingPath { run, path });
                        },
                    }
                }
            },
        }
    }
}

/// Starts a run on the script at `entrypoint`.
///
/// Nothing is read yet: the first step asks for the canonical path of the
/// entry script.
pub fn resolve_script(entrypoint: &str) -> (step: Step)
    ensures
        step@ == start(entrypoint@),
        step@.wf(),
{
    let run = Run { stack: Vec::new(), visited: Vec::new(), output: String::new() };
    assert(run@.stack == Seq::<FrameView>::empty());
    assert(run@.visited == Seq::<Seq<char>>::empty());
    Step::Canonicalize(PendingPath { run, path: entrypoint.to_owned() })
}

/// Enters the file that the pending path led to. This is the step that a
/// run takes for the entry script and again for every directive, however
/// deep.
///
/// `canonical` is the canonical path of that file, or `None` where the path
/// leads to no file. See `PathRequest::answered` for what follows.
pub fn resolve_script_recursive(pending: PendingPath, canonical: Option<String>) -> (step: Step)
    ensures
        step@ == pending@.answered(answer_view(canonical)),
        pending@.wf() ==> step@.wf(),
{
    proof {
        if pending@.wf() {
            lemma_path_answered_wf(pending@, answer_view(canonical));
        }
    }
    let PendingPath { run, path } = pending;
    let Run { stack, visited, output } = run;
    let ghost written = output@;
    let mut visited = visited;
    let mut output = output;
    let for_entry = stack.len() == 0;
    match canonical {
        None => {
            let kind = if for_entry {
                ErrorKind::FileRead
            } else {
                ErrorKind::PathResolution
            };
            let trace = trace_of(&stack);
            let failure = ResolveError { kind, path, trace };
            assert(failure@.trace == sites(frame_views(stack@)));
            Step::Done(Err(failure))
        },
        Some(file) => {
            if !for_entry {
                push_text(&mut output, "# Inlined: ");
                push_quoted(&mut output, file.as_str());
                output.push('\n');
                assert(output@ == written + inlined_marker(file@));
            }
            let ghost marked = output@;
            if was_visited(&visited, &file) {
                push_text(&mut output, "# Skipping already inlined file: ");
                push_quoted(&mut output, file.as_str());
                output.push('\n');
                assert(output@ == marked + skipped_marker(file@));
                advance_run(stack, visited, output)
            } else {
                let ghost before = path_views(visited@);
                visited.push(file.clone());
                assert(path_views(visited@) == before.push(file@));
                Step::Read(PendingScript { run: Run { stack, visited, output }, file })
            }
        },
    }
}

/// Goes through the lines of the file that the run was waiting for.
///
/// `content` holds the bytes of the file, or `None` where it could not be
/// read. Bytes that are no UTF-8 count as unreadable. See
/// `ReadRequest::answered` for what follows.
pub fn inline_script_content(pending: PendingScript, content: Option<Vec<u8>>) -> (step: Step)
    ensures
        step@ == pending@.answered(decoded(content)),
        pending@.wf() ==> step@.wf(),
{
    proof {
        if pending@.wf() {
            lemma_read_answered_wf(pending@, decoded(content));
        }
    }
    let PendingScript { run, file } = pending;
    let Run { stack, visited, output } = run;
    let mut stack = stack;
    match read_file_to_string(file.as_str(), content) {
        Err(e) => {
            let trace = trace_of(&stack);
            let failure = ResolveError { kind: e.kind, path: e.path, trace };
            assert(failure@.trace == sites(frame_views(stack@)));
            Step::Done(Err(failure))
        },
        Ok(text) => {
            let chars = to_chars(text.as_str());
            let lines = lines_of(&chars);
            let dir = dir_string(file.as_str());
            let ghost before = frame_views(stack@);
            let frame = Frame { file, dir, lines, next: 0 };
            stack.push(frame);
            assert(frame_views(stack@) == before.push(frame@));
            advance_run(stack, visited, output)
        },
    }
}

} // verus!
