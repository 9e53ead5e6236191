//! The resolver against the account of a bundle: a run whose requests are
//! answered from a `FileTree` ends, and gives what `bundle_of` names.
//!
//! `outcome` says what a run at a given step comes to. `law_start` ties it
//! to `bundle_of`, `law_answer_keeps_outcome` shows that no answer changes
//! it, and `law_answer_progress` that each answer brings the end nearer.
//! `law_run_gives_bundle` puts the three together.

use crate::directive::directive_path;
use crate::error::{ErrorKind, ErrorView, SiteView};
use crate::model::{
    bundle_of, expand_file, expand_lines, inlined_marker, lemma_file_read, lemma_file_unread,
    lemma_file_visited, lemma_lines_end, lemma_lines_plain, lemma_lines_resolved,
    lemma_lines_unresolved, lemma_visit_decreases, site_of, skipped_marker, FileTree,
};
use crate::path::{dir_of, joined_path};
use crate::resolver::{
    advance, frames_wf, lemma_advance_progress, lemma_stepped_wf, lemma_work_stepped, sites,
    start, stepped, work, FrameView, PathRequest, RunView, StepView,
};
use crate::text::split_lines;
use vstd::prelude::*;

verus! {

/// What the files in `stack` still give, from the top one down, put after
/// `output`: the rest of the bundle that a run is building, when the files
/// in `visited` were reached.
pub open spec fn finish(
    tree: FileTree,
    stack: Seq<FrameView>,
    visited: Set<Seq<char>>,
    output: Seq<char>,
) -> Result<Seq<char>, ErrorView>
    decreases stack.len(),
{
    if stack.len() == 0 {
        Ok(output)
    } else {
        let top = stack.last();
        match expand_lines(tree, top.file, top.lines, top.next, visited) {
            Err(e) => Err(e.within(sites(stack.drop_last()))),
            Ok(rest) => finish(
                tree,
                stack.drop_last(),
                visited.union(rest.expanded.to_set()),
                output + rest.text,
            ),
        }
    }
}

/// What a run that stands at `step` comes to when its requests are answered
/// from `tree`.
pub open spec fn outcome(tree: FileTree, step: StepView) -> Result<Seq<char>, ErrorView> {
    match step {
        StepView::Done(result) => result,
        StepView::Canonicalize(request) => {
            let run = request.run;
            match tree.canonicalize(request.path) {
                None => Err(
                    ErrorView {
                        kind: if request.for_entry() {
                            ErrorKind::FileRead
                        } else {
                            ErrorKind::PathResolution
                        },
                        path: request.path,
                        trace: sites(run.stack),
                    },
                ),
                Some(file) => match expand_file(tree, file, run.visited.to_set()) {
                    Err(e) => Err(e.within(sites(run.stack))),
                    Ok(inner) => finish(
                        tree,
                        run.stack,
                        run.visited.to_set().union(inner.expanded.to_set()),
                        if request.for_entry() {
                            run.output + inner.text
                        } else {
                            run.output + inlined_marker(file) + inner.text
                        },
                    ),
                },
            }
        },
        StepView::Read(request) => {
            let run = request.run;
            match expand_file(tree, request.file, run.visited.to_set().remove(request.file)) {
                Err(e) => Err(e.within(sites(run.stack))),
                Ok(inner) => finish(
                    tree,
                    run.stack,
                    run.visited.to_set().union(inner.expanded.to_set()),
                    run.output + inner.text,
                ),
            }
        },
    }
}

/// The step that follows `step` when `tree` answers its request. A run that
/// is done stays as it is.
pub open spec fn answer(tree: FileTree, step: StepView) -> StepView {
    match step {
        StepView::Canonicalize(request) => request.answered(tree.canonicalize(request.path)),
        StepView::Read(request) => request.answered(tree.read(request.file)),
        StepView::Done(_) => step,
    }
}

/// The step that a run reaches from `step` after `n` answers from `tree`.
pub open spec fn run_for(tree: FileTree, step: StepView, n: nat) -> StepView
    decreases n,
{
    if n == 0 {
        step
    } else {
        run_for(tree, answer(tree, step), (n - 1) as nat)
    }
}

/// The members of `a + b` are those of `a` and those of `b`.
pub proof fn lemma_to_set_add(a: Seq<Seq<char>>, b: Seq<Seq<char>>)
    ensures
        (a + b).to_set() == a.to_set().union(b.to_set()),
{
    let whole = a + b;
    assert forall|x: Seq<char>| whole.to_set().contains(x) <==> a.to_set().union(
        b.to_set(),
    ).contains(x) by {
        if whole.contains(x) {
            let i = choose|i: int| 0 <= i < whole.len() && whole[i] == x;
            if i < a.len() {
                assert(a[i] == x);
            } else {
                assert(b[i - a.len()] == x);
            }
        }
        if a.contains(x) {
            let i = choose|i: int| 0 <= i < a.len() && a[i] == x;
            assert(whole[i] == x);
        }
        if b.contains(x) {
            let i = choose|i: int| 0 <= i < b.len() && b[i] == x;
            assert(whole[a.len() + i] == x);
        }
    }
    assert(whole.to_set() =~= a.to_set().union(b.to_set()));
}

/// What changes when the top file goes one line further: its own site, and
/// nothing below it.
proof fn lemma_sites_stepped(stack: Seq<FrameView>)
    requires
        stack.len() > 0,
    ensures
        sites(stepped(stack)) == sites(stack.drop_last()) + seq![
            site_of(stack.last().file, stack.last().next),
        ],
        stepped(stack).drop_last() == stack.drop_last(),
        stepped(stack).len() == stack.len(),
        stepped(stack).last() == (FrameView {
            file: stack.last().file,
            dir: stack.last().dir,
            lines: stack.last().lines,
            next: stack.last().next + 1,
        }),
{
}

/// `finish`, one file down.
proof fn lemma_finish_top(
    tree: FileTree,
    stack: Seq<FrameView>,
    visited: Set<Seq<char>>,
    output: Seq<char>,
)
    requires
        stack.len() > 0,
    ensures
        finish(tree, stack, visited, output) == match expand_lines(
            tree,
            stack.last().file,
            stack.last().lines,
            stack.last().next,
            visited,
        ) {
            Err(e) => Err::<Seq<char>, ErrorView>(e.within(sites(stack.drop_last()))),
            Ok(rest) => finish(
                tree,
                stack.drop_last(),
                visited.union(rest.expanded.to_set()),
                output + rest.text,
            ),
        },
{
}

/// What is left of a file whose top line is no directive.
proof fn lemma_finish_plain(
    tree: FileTree,
    stack: Seq<FrameView>,
    visited: Set<Seq<char>>,
    output: Seq<char>,
)
    requires
        tree.wf(),
        stack.len() > 0,
        stack.last().next < stack.last().lines.len(),
        directive_path(stack.last().lines[stack.last().next as int]) is None,
    ensures
        finish(tree, stack, visited, output) == finish(
            tree,
            stepped(stack),
            visited,
            output + stack.last().lines[stack.last().next as int] + seq!['\n'],
        ),
{
    let top = stack.last();
    let line = top.lines[top.next as int];
    lemma_sites_stepped(stack);
    lemma_finish_top(tree, stack, visited, output);
    lemma_finish_top(tree, stepped(stack), visited, output + line + seq!['\n']);
    lemma_lines_plain(tree, top.file, top.lines, top.next, visited);
    let rest = expand_lines(tree, top.file, top.lines, top.next + 1, visited);
    match rest {
        Err(e) => {},
        Ok(r) => {
            assert(Seq::<Seq<char>>::empty() + r.expanded == r.expanded);
            assert(output + (line + seq!['\n'] + r.text) == output + line + seq!['\n'] + r.text);
        },
    }
}

/// What is left of a file whose top line is a directive: what the request
/// for its path comes to.
proof fn lemma_finish_directive(tree: FileTree, run: RunView)
    requires
        tree.wf(),
        run.wf(),
        run.stack.len() > 0,
        run.stack.last().next < run.stack.last().lines.len(),
        directive_path(run.stack.last().lines[run.stack.last().next as int]) is Some,
    ensures
        finish(tree, run.stack, run.visited.to_set(), run.output) == outcome(
            tree,
            StepView::Canonicalize(
                PathRequest {
                    run: RunView {
                        stack: stepped(run.stack),
                        visited: run.visited,
                        output: run.output,
                    },
                    path: joined_path(
                        run.stack.last().dir,
                        directive_path(
                            run.stack.last().lines[run.stack.last().next as int],
                        ).unwrap(),
                    ),
                },
            ),
        ),
{
    let top = run.stack.last();
    let below = run.stack.drop_last();
    let up = stepped(run.stack);
    let visited = run.visited.to_set();
    let line = top.lines[top.next as int];
    let path = directive_path(line).unwrap();
    let target = joined_path(top.dir, path);
    let site = site_of(top.file, top.next);
    assert(top.wf());
    lemma_sites_stepped(run.stack);
    lemma_finish_top(tree, run.stack, visited, run.output);
    match tree.canonicalize(target) {
        None => {
            lemma_lines_unresolved(tree, top.file, top.lines, top.next, visited);
            assert(sites(below) + seq![site] == sites(up));
        },
        Some(found) => {
            lemma_lines_resolved(tree, top.file, top.lines, top.next, visited);
            match expand_file(tree, found, visited) {
                Err(e) => {
                    assert(sites(below) + (seq![site] + e.trace) == sites(up) + e.trace);
                },
                Ok(inner) => {
                    let seen = visited.union(inner.expanded.to_set());
                    let marked = run.output + inlined_marker(found) + inner.text;
                    lemma_finish_top(tree, up, seen, marked);
                    let rest = expand_lines(tree, top.file, top.lines, top.next + 1, seen);
                    match rest {
                        Err(e) => {},
                        Ok(r) => {
                            lemma_to_set_add(inner.expanded, r.expanded);
                            assert(visited.union((inner.expanded + r.expanded).to_set())
                                == seen.union(r.expanded.to_set()));
                            assert(run.output + (inlined_marker(found) + inner.text + r.text)
                                == marked + r.text);
                        },
                    }
                },
            }
        },
    }
}

/// Going on with a run changes nothing in what it comes to.
proof fn lemma_advance_outcome(tree: FileTree, run: RunView)
    requires
        tree.wf(),
        run.wf(),
    ensures
        outcome(tree, advance(run)) == finish(tree, run.stack, run.visited.to_set(), run.output),
        advance(run).wf(),
    decreases work(run.stack),
{
    let visited = run.visited.to_set();
    if run.stack.len() == 0 {
    } else {
        let top = run.stack.last();
        lemma_stepped_wf(run.stack);
        if top.next >= top.lines.len() {
            let lower = RunView {
                stack: run.stack.drop_last(),
                visited: run.visited,
                output: run.output,
            };
            lemma_advance_outcome(tree, lower);
            lemma_lines_end(tree, top.file, top.lines, top.next, visited);
            lemma_finish_top(tree, run.stack, visited, run.output);
            assert(visited.union(Seq::<Seq<char>>::empty().to_set()) == visited);
            assert(run.output + Seq::<char>::empty() == run.output);
        } else {
            let line = top.lines[top.next as int];
            lemma_work_stepped(run.stack);
            match directive_path(line) {
                None => {
                    let next = RunView {
                        stack: stepped(run.stack),
                        visited: run.visited,
                        output: run.output + line + seq!['\n'],
                    };
                    lemma_advance_outcome(tree, next);
                    lemma_finish_plain(tree, run.stack, visited, run.output);
                },
                Some(path) => {
                    lemma_finish_directive(tree, run);
                },
            }
        }
    }
}

/// A file that is put behind the files reached is one of them from then on.
proof fn lemma_push_to_set(visited: Seq<Seq<char>>, file: Seq<char>)
    ensures
        visited.push(file).to_set() == visited.to_set().insert(file),
        visited.push(file).contains(file),
{
    lemma_to_set_add(visited, seq![file]);
    assert(visited.push(file) == visited + seq![file]);
    assert(seq![file][0] == file);
    assert(seq![file].to_set() =~= Set::<Seq<char>>::empty().insert(file));
    assert(visited.to_set().union(Set::<Seq<char>>::empty().insert(file))
        =~= visited.to_set().insert(file));
    assert(visited.push(file)[visited.len() as int] == file);
}

/// The first step of a run comes to the bundle of the entry script.
pub proof fn law_start(tree: FileTree, entry: Seq<char>)
    requires
        tree.wf(),
    ensures
        start(entry).wf(),
        outcome(tree, start(entry)) == bundle_of(tree, entry),
{
    let none = Seq::<Seq<char>>::empty();
    assert(none.to_set() == Set::<Seq<char>>::empty());
    assert(sites(Seq::<FrameView>::empty()) == Seq::<SiteView>::empty());
    match tree.canonicalize(entry) {
        None => {},
        Some(file) => {
            match expand_file(tree, file, Set::empty()) {
                Err(e) => {
                    assert(Seq::<SiteView>::empty() + e.trace == e.trace);
                },
                Ok(inner) => {
                    assert(Seq::<char>::empty() + inner.text == inner.text);
                },
            }
        },
    }
}

/// An answer from `tree` changes nothing in what a run comes to.
pub proof fn law_answer_keeps_outcome(tree: FileTree, step: StepView)
    requires
        tree.wf(),
        step.wf(),
    ensures
        answer(tree, step).wf(),
        outcome(tree, answer(tree, step)) == outcome(tree, step),
{
    match step {
        StepView::Done(_) => {},
        StepView::Canonicalize(request) => {
            let run = request.run;
            let visited = run.visited.to_set();
            match tree.canonicalize(request.path) {
                None => {},
                Some(file) => {
                    let output = if request.for_entry() {
                        run.output
                    } else {
                        run.output + inlined_marker(file)
                    };
                    if run.visited.contains(file) {
                        let on = RunView {
                            stack: run.stack,
                            visited: run.visited,
                            output: output + skipped_marker(file),
                        };
                        lemma_advance_outcome(tree, on);
                        lemma_file_visited(tree, file, visited);
                        assert(visited.union(Seq::<Seq<char>>::empty().to_set()) == visited);
                    } else {
                        lemma_push_to_set(run.visited, file);
                        assert(visited.insert(file).remove(file) == visited);
                        match expand_file(tree, file, visited) {
                            Err(e) => {},
                            Ok(inner) => {
                                if tree.read(file) is None {
                                    lemma_file_unread(tree, file, visited);
                                } else {
                                    lemma_file_read(tree, file, visited);
                                }
                                assert(inner.expanded[0] == file);
                                assert(inner.expanded.to_set().contains(file));
                                assert(visited.insert(file).union(inner.expanded.to_set())
                                    == visited.union(inner.expanded.to_set()));
                            },
                        }
                    }
                },
            }
        },
        StepView::Read(request) => {
            let run = request.run;
            let file = request.file;
            let visited = run.visited.to_set();
            let others = visited.remove(file);
            assert(others.insert(file) == visited);
            match tree.read(file) {
                None => {
                    lemma_file_unread(tree, file, others);
                    assert(sites(run.stack) + Seq::<SiteView>::empty() == sites(run.stack));
                },
                Some(text) => {
                    lemma_file_read(tree, file, others);
                    let frame = FrameView {
                        file,
                        dir: dir_of(file),
                        lines: split_lines(text),
                        next: 0,
                    };
                    let stack = run.stack.push(frame);
                    let on = RunView { stack, visited: run.visited, output: run.output };
                    assert(frames_wf(stack)) by {
                        assert forall|i: int| 0 <= i < stack.len() implies (
                        #[trigger] stack[i]).wf() by {
                            if i < run.stack.len() {
                                assert(stack[i] == run.stack[i]);
                            }
                        }
                    }
                    lemma_advance_outcome(tree, on);
                    lemma_finish_top(tree, stack, visited, run.output);
                    assert(stack.drop_last() == run.stack);
                    match expand_lines(tree, file, split_lines(text), 0, visited) {
                        Err(e) => {},
                        Ok(rest) => {
                            lemma_to_set_add(seq![file], rest.expanded);
                            assert(seq![file].to_set() =~= Set::<Seq<char>>::empty().insert(file))
                                by {
                                assert(seq![file][0] == file);
                            }
                            assert(visited.union((seq![file] + rest.expanded).to_set())
                                == visited.union(rest.expanded.to_set()));
                            assert(run.output + (Seq::<char>::empty() + rest.text) == run.output
                                + rest.text);
                        },
                    }
                },
            }
        },
    }
}

/// How many files a run at `step` has not read yet.
pub open spec fn unread(tree: FileTree, step: StepView) -> nat {
    match step {
        StepView::Canonicalize(request) => tree.unvisited(request.run.visited.to_set()),
        StepView::Read(request) => tree.unvisited(
            request.run.visited.to_set().remove(request.file),
        ),
        StepView::Done(_) => 0,
    }
}

/// How much a run at `step` has left to do on the files that are open.
pub open spec fn open_work(step: StepView) -> nat {
    match step {
        StepView::Canonicalize(request) => work(request.run.stack),
        StepView::Read(request) => work(request.run.stack),
        StepView::Done(_) => 0,
    }
}

/// How many answers a run at `step` needs before it goes through a line
/// again, at most.
pub open spec fn phase(step: StepView) -> nat {
    match step {
        StepView::Canonicalize(_) => 2,
        StepView::Read(_) => 1,
        StepView::Done(_) => 0,
    }
}

/// Each answer from `tree` brings a run nearer to its end: fewer files are
/// left to read, or as many and less is left to do on the open ones, or as
/// much and the run has its path and needs the text.
pub proof fn law_answer_progress(tree: FileTree, step: StepView)
    requires
        tree.wf(),
        step.wf(),
        !(step is Done),
    ensures
        ({
            let next = answer(tree, step);
            ||| unread(tree, next) < unread(tree, step)
            ||| unread(tree, next) == unread(tree, step) && open_work(next) < open_work(step)
            ||| unread(tree, next) == unread(tree, step) && open_work(next) == open_work(step)
                && phase(next) < phase(step)
        }),
{
    match step {
        StepView::Done(_) => {},
        StepView::Canonicalize(request) => {
            let run = request.run;
            match tree.canonicalize(request.path) {
                None => {},
                Some(file) => {
                    let output = if request.for_entry() {
                        run.output
                    } else {
                        run.output + inlined_marker(file)
                    };
                    if run.visited.contains(file) {
                        lemma_advance_progress(
                            RunView {
                                stack: run.stack,
                                visited: run.visited,
                                output: output + skipped_marker(file),
                            },
                        );
                    } else {
                        lemma_push_to_set(run.visited, file);
                        assert(run.visited.to_set().insert(file).remove(file)
                            == run.visited.to_set());
                    }
                },
            }
        },
        StepView::Read(request) => {
            let run = request.run;
            let file = request.file;
            let others = run.visited.to_set().remove(file);
            match tree.read(file) {
                None => {},
                Some(text) => {
                    lemma_visit_decreases(tree, file, others);
                    assert(others.insert(file) == run.visited.to_set());
                    lemma_advance_progress(
                        RunView {
                            stack: run.stack.push(
                                FrameView {
                                    file,
                                    dir: dir_of(file),
                                    lines: split_lines(text),
                                    next: 0,
                                },
                            ),
                            visited: run.visited,
                            output: run.output,
                        },
                    );
                },
            }
        },
    }
}

/// A run whose requests are answered from `tree` is done after finitely
/// many answers, `n` of them, and gives what `outcome` says.
pub proof fn law_run_ends(tree: FileTree, step: StepView) -> (n: nat)
    requires
        tree.wf(),
        step.wf(),
    ensures
        run_for(tree, step, n) == StepView::Done(outcome(tree, step)),
    decreases unread(tree, step), open_work(step), phase(step),
{
    match step {
        StepView::Done(_) => 0,
        _ => {
            law_answer_keeps_outcome(tree, step);
            law_answer_progress(tree, step);
            let rest = law_run_ends(tree, answer(tree, step));
            rest + 1
        },
    }
}

/// The resolver gives the bundle: a run on the script at `entry`, each
/// request of which is answered from `tree`, is done after finitely many
/// answers, `n` of them, with the bundle of `entry` or with the failure
/// that `bundle_of` names.
pub proof fn law_run_gives_bundle(tree: FileTree, entry: Seq<char>) -> (n: nat)
    requires
        tree.wf(),
    ensures
        run_for(tree, start(entry), n) == StepView::Done(bundle_of(tree, entry)),
{
    law_start(tree, entry);
    law_run_ends(tree, start(entry))
}

} // verus!
