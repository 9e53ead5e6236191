//! What a bundle is: the mathematical account of inlining, against which
//! the resolver is verified.
//!
//! The files are a `FileTree`: which path leads to which file, and what each
//! file holds. `bundle_of` says what the run on an entry script gives. It
//! goes through the files depth first and in the order of their lines, and
//! expands each file at most once.

use crate::directive::{directive_path, lemma_comment_is_no_directive};
use crate::error::{ErrorKind, ErrorView, SiteView};
use crate::path::{dir_of, joined_path, lemma_quote_one_line, quote_path};
use crate::text::{is_clean_line, split_lines};
use vstd::prelude::*;

verus! {

/// The files as a run sees them.
pub struct FileTree {
    /// The canonical path of the file that a path leads to. A path that
    /// leads to no file has no entry.
    pub canonical: Map<Seq<char>, Seq<char>>,
    /// The text of each file that can be read, under its canonical path.
    pub scripts: Map<Seq<char>, Seq<char>>,
}

impl FileTree {
    /// There are finitely many files.
    pub open spec fn wf(self) -> bool {
        self.scripts.dom().finite()
    }

    /// The canonical path of the file that `path` leads to.
    pub open spec fn canonicalize(self, path: Seq<char>) -> Option<Seq<char>> {
        if self.canonical.contains_key(path) {
            Some(self.canonical[path])
        } else {
            None
        }
    }

    /// The text of the file with the canonical path `file`.
    pub open spec fn read(self, file: Seq<char>) -> Option<Seq<char>> {
        if self.scripts.contains_key(file) {
            Some(self.scripts[file])
        } else {
            None
        }
    }

    /// How many files are not among `visited`.
    pub open spec fn unvisited(self, visited: Set<Seq<char>>) -> nat {
        self.scripts.dom().difference(visited).len()
    }
}

/// The line that stands before the text of an inlined file, without its
/// line feed.
pub open spec fn inlined_line(file: Seq<char>) -> Seq<char> {
    "# Inlined: "@ + quote_path(file)
}

/// The line that stands for a file that was inlined before, without its
/// line feed.
pub open spec fn skipped_line(file: Seq<char>) -> Seq<char> {
    "# Skipping already inlined file: "@ + quote_path(file)
}

/// The line that stands before the text of an inlined file.
pub open spec fn inlined_marker(file: Seq<char>) -> Seq<char> {
    inlined_line(file) + seq!['\n']
}

/// The line that stands for a file that was inlined before.
pub open spec fn skipped_marker(file: Seq<char>) -> Seq<char> {
    skipped_line(file) + seq!['\n']
}

/// The marker lines are comments that stand in one line each: none is a
/// directive, holds a line feed or ends in a carriage return.
pub proof fn lemma_marker_lines(file: Seq<char>)
    ensures
        is_clean_line(inlined_line(file)),
        is_clean_line(skipped_line(file)),
        directive_path(inlined_line(file)) is None,
        directive_path(skipped_line(file)) is None,
{
    reveal_strlit("# Inlined: ");
    reveal_strlit("# Skipping already inlined file: ");
    lemma_quote_one_line(file);
    let quoted = quote_path(file);
    let inlined = "# Inlined: "@;
    let skipped = "# Skipping already inlined file: "@;
    assert forall|j: int| 0 <= j < inlined.len() implies inlined[j] != '\n' by {}
    assert forall|j: int| 0 <= j < skipped.len() implies skipped[j] != '\n' by {}
    assert forall|j: int| 0 <= j < inlined_line(file).len() implies inlined_line(file)[j]
        != '\n' by {
        if j >= inlined.len() {
            assert(inlined_line(file)[j] == quoted[j - inlined.len()]);
        }
    }
    assert forall|j: int| 0 <= j < skipped_line(file).len() implies skipped_line(file)[j]
        != '\n' by {
        if j >= skipped.len() {
            assert(skipped_line(file)[j] == quoted[j - skipped.len()]);
        }
    }
    assert(inlined_line(file).last() == quoted.last());
    assert(skipped_line(file).last() == quoted.last());
    lemma_comment_is_no_directive(inlined_line(file));
    lemma_comment_is_no_directive(skipped_line(file));
}

/// What inlining gives: the text, and the files that were expanded on the
/// way, in the order in which they were reached.
pub struct Expansion {
    pub text: Seq<char>,
    pub expanded: Seq<Seq<char>>,
}

/// `rest` with `text` and `expanded` put before it.
pub open spec fn after(
    text: Seq<char>,
    expanded: Seq<Seq<char>>,
    rest: Result<Expansion, ErrorView>,
) -> Result<Expansion, ErrorView> {
    match rest {
        Ok(r) => Ok(Expansion { text: text + r.text, expanded: expanded + r.expanded }),
        Err(e) => Err(e),
    }
}

/// Visiting a file that was not visited leaves fewer unvisited.
pub proof fn lemma_visit_decreases(tree: FileTree, file: Seq<char>, visited: Set<Seq<char>>)
    requires
        tree.wf(),
        tree.scripts.contains_key(file),
        !visited.contains(file),
    ensures
        tree.unvisited(visited.insert(file)) < tree.unvisited(visited),
{
    let before = tree.scripts.dom().difference(visited);
    let now = tree.scripts.dom().difference(visited.insert(file));
    assert(now == before.remove(file));
}

/// Visiting more files leaves no more unvisited.
pub proof fn lemma_visit_more(tree: FileTree, visited: Set<Seq<char>>, more: Set<Seq<char>>)
    requires
        tree.wf(),
    ensures
        tree.unvisited(visited.union(more)) <= tree.unvisited(visited),
{
    let before = tree.scripts.dom().difference(visited);
    let now = tree.scripts.dom().difference(visited.union(more));
    vstd::set_lib::lemma_len_subset(now, before);
}

/// The text that the file with the canonical path `file` gives when the
/// files in `visited` were reached before.
///
/// A file in `visited` gives one line that says so, and is not read. Any
/// other file counts as visited from here on, and gives its lines, each
/// directive among them replaced.
#[verifier::opaque]
pub open spec fn expand_file(tree: FileTree, file: Seq<char>, visited: Set<Seq<char>>) -> Result<
    Expansion,
    ErrorView,
>
    decreases tree.unvisited(visited), 0nat, 0nat,
    when tree.wf()
{
    if visited.contains(file) {
        Ok(Expansion { text: skipped_marker(file), expanded: Seq::empty() })
    } else {
        match tree.read(file) {
            None => Err(ErrorView { kind: ErrorKind::FileRead, path: file, trace: Seq::empty() }),
            Some(text) => {
                proof {
                    lemma_visit_decreases(tree, file, visited);
                }
                after(
                    Seq::empty(),
                    seq![file],
                    expand_lines(tree, file, split_lines(text), 0, visited.insert(file)),
                )
            },
        }
    }
}

/// The text that the lines of `file` give from line `from` on (counted from
/// 0), when the files in `visited` were reached before.
///
/// A line that is no directive stands as it is, with a line feed after it.
/// A directive's path is written onto the directory of `file` and resolved.
/// In its place stand a marker line with the canonical path of the file
/// found, and what that file gives. The files expanded there count as
/// visited for the lines that follow.
#[verifier::opaque]
pub open spec fn expand_lines(
    tree: FileTree,
    file: Seq<char>,
    lines: Seq<Seq<char>>,
    from: nat,
    visited: Set<Seq<char>>,
) -> Result<Expansion, ErrorView>
    decreases tree.unvisited(visited), 1nat, lines.len() - from,
    when tree.wf()
{
    if from >= lines.len() {
        Ok(Expansion { text: Seq::empty(), expanded: Seq::empty() })
    } else {
        let line = lines[from as int];
        let site = site_of(file, from);
        match directive_path(line) {
            None => after(
                line + seq!['\n'],
                Seq::empty(),
                expand_lines(tree, file, lines, from + 1, visited),
            ),
            Some(path) => {
                let target = joined_path(dir_of(file), path);
                match tree.canonicalize(target) {
                    None => Err(
                        ErrorView {
                            kind: ErrorKind::PathResolution,
                            path: target,
                            trace: seq![site],
                        },
                    ),
                    Some(found) => match expand_file(tree, found, visited) {
                        Err(e) => Err(e.within(seq![site])),
                        Ok(inner) => {
                            proof {
                                lemma_visit_more(tree, visited, inner.expanded.to_set());
                            }
                            after(
                                inlined_marker(found) + inner.text,
                                inner.expanded,
                                expand_lines(
                                    tree,
                                    file,
                                    lines,
                                    from + 1,
                                    visited.union(inner.expanded.to_set()),
                                ),
                            )
                        },
                    },
                }
            },
        }
    }
}

/// The place of line `from` of `file`, counted from 0, as a trace names it.
pub open spec fn site_of(file: Seq<char>, from: nat) -> SiteView {
    SiteView { file, line: from + 1 }
}

/// A file that was reached before gives its marker line, and nothing is
/// expanded.
pub proof fn lemma_file_visited(tree: FileTree, file: Seq<char>, visited: Set<Seq<char>>)
    requires
        tree.wf(),
        visited.contains(file),
    ensures
        expand_file(tree, file, visited) == Ok::<Expansion, ErrorView>(
            Expansion { text: skipped_marker(file), expanded: Seq::empty() },
        ),
{
    reveal(expand_file);
    reveal(expand_lines);
}

/// A file that cannot be read ends the run.
pub proof fn lemma_file_unread(tree: FileTree, file: Seq<char>, visited: Set<Seq<char>>)
    requires
        tree.wf(),
        !visited.contains(file),
        tree.read(file) is None,
    ensures
        expand_file(tree, file, visited) == Err::<Expansion, ErrorView>(
            ErrorView { kind: ErrorKind::FileRead, path: file, trace: Seq::empty() },
        ),
{
    reveal(expand_file);
    reveal(expand_lines);
}

/// A file that is reached for the first time is expanded, and gives what
/// its lines give once it counts as visited.
pub proof fn lemma_file_read(tree: FileTree, file: Seq<char>, visited: Set<Seq<char>>)
    requires
        tree.wf(),
        !visited.contains(file),
        tree.read(file) is Some,
    ensures
        expand_file(tree, file, visited) == after(
            Seq::empty(),
            seq![file],
            expand_lines(
                tree,
                file,
                split_lines(tree.read(file).unwrap()),
                0,
                visited.insert(file),
            ),
        ),
{
    reveal(expand_file);
    reveal(expand_lines);
}

/// Behind the last line nothing comes.
pub proof fn lemma_lines_end(
    tree: FileTree,
    file: Seq<char>,
    lines: Seq<Seq<char>>,
    from: nat,
    visited: Set<Seq<char>>,
)
    requires
        tree.wf(),
        from >= lines.len(),
    ensures
        expand_lines(tree, file, lines, from, visited) == Ok::<Expansion, ErrorView>(
            Expansion { text: Seq::empty(), expanded: Seq::empty() },
        ),
{
    reveal(expand_file);
    reveal(expand_lines);
}

/// A line that is no directive stands as it is.
pub proof fn lemma_lines_plain(
    tree: FileTree,
    file: Seq<char>,
    lines: Seq<Seq<char>>,
    from: nat,
    visited: Set<Seq<char>>,
)
    requires
        tree.wf(),
        from < lines.len(),
        directive_path(lines[from as int]) is None,
    ensures
        expand_lines(tree, file, lines, from, visited) == after(
            lines[from as int] + seq!['\n'],
            Seq::empty(),
            expand_lines(tree, file, lines, from + 1, visited),
        ),
{
    reveal(expand_file);
    reveal(expand_lines);
}

/// A directive whose path leads to no file ends the run.
pub proof fn lemma_lines_unresolved(
    tree: FileTree,
    file: Seq<char>,
    lines: Seq<Seq<char>>,
    from: nat,
    visited: Set<Seq<char>>,
)
    requires
        tree.wf(),
        from < lines.len(),
        directive_path(lines[from as int]) is Some,
        tree.canonicalize(
            joined_path(dir_of(file), directive_path(lines[from as int]).unwrap()),
        ) is None,
    ensures
        expand_lines(tree, file, lines, from, visited) == Err::<Expansion, ErrorView>(
            ErrorView {
                kind: ErrorKind::PathResolution,
                path: joined_path(dir_of(file), directive_path(lines[from as int]).unwrap()),
                trace: seq![site_of(file, from)],
            },
        ),
{
    reveal(expand_file);
    reveal(expand_lines);
}

/// A directive whose path leads to a file gives the marker line of that
/// file and what the file gives, and the lines behind it see the files
/// expanded there as visited. A failure in the file gets the directive's
/// place in front of its trace.
pub proof fn lemma_lines_resolved(
    tree: FileTree,
    file: Seq<char>,
    lines: Seq<Seq<char>>,
    from: nat,
    visited: Set<Seq<char>>,
)
    requires
        tree.wf(),
        from < lines.len(),
        directive_path(lines[from as int]) is Some,
        tree.canonicalize(
            joined_path(dir_of(file), directive_path(lines[from as int]).unwrap()),
        ) is Some,
    ensures
        ({
            let target = joined_path(dir_of(file), directive_path(lines[from as int]).unwrap());
            let found = tree.canonicalize(target).unwrap();
            expand_lines(tree, file, lines, from, visited) == match expand_file(
                tree,
                found,
                visited,
            ) {
                Err(e) => Err::<Expansion, ErrorView>(e.within(seq![site_of(file, from)])),
                Ok(inner) => after(
                    inlined_marker(found) + inner.text,
                    inner.expanded,
                    expand_lines(
                        tree,
                        file,
                        lines,
                        from + 1,
                        visited.union(inner.expanded.to_set()),
                    ),
                ),
            }
        }),
{
    reveal(expand_file);
    reveal(expand_lines);
}

/// The bundle that a run on the script at `entry` gives, or the failure that
/// ends it.
pub open spec fn bundle_of(tree: FileTree, entry: Seq<char>) -> Result<Seq<char>, ErrorView> {
    match tree.canonicalize(entry) {
        None => Err(ErrorView { kind: ErrorKind::FileRead, path: entry, trace: Seq::empty() }),
        Some(file) => match expand_file(tree, file, Set::empty()) {
            Ok(whole) => Ok(whole.text),
            Err(e) => Err(e),
        },
    }
}

} // verus!
