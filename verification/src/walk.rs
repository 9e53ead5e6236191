//! The walk of a run: the directives that it meets, in the order in which
//! it meets them, and which of them expand their file. A file is expanded
//! where the walk meets it first, and nowhere else.

use crate::directive::directive_path;
use crate::error::ErrorView;
use crate::laws::law_file_expanded_once;
use crate::model::{
    expand_file, expand_lines, lemma_file_read, lemma_file_unread, lemma_file_visited,
    lemma_lines_end, lemma_lines_plain, lemma_lines_resolved, lemma_lines_unresolved,
    lemma_visit_decreases, lemma_visit_more, Expansion, FileTree,
};
use crate::path::{dir_of, joined_path};
use crate::refinement::lemma_to_set_add;
use crate::text::split_lines;
use vstd::prelude::*;

verus! {

/// A directive that the walk meets.
pub struct Met {
    /// The canonical path of the file that the directive leads to.
    pub file: Seq<char>,
    /// Whether the file is expanded here. Where it is not, it was reached
    /// before, and its second marker line stands for it.
    pub fresh: bool,
}

/// The directives that the walk meets below `file`, when `file` is reached
/// after the files in `visited`: none where `file` was reached before, and
/// else those of its lines.
#[verifier::opaque]
pub open spec fn met_file(tree: FileTree, file: Seq<char>, visited: Set<Seq<char>>) -> Seq<Met>
    decreases tree.unvisited(visited), 0nat, 0nat,
    when tree.wf()
{
    if visited.contains(file) {
        Seq::empty()
    } else {
        match tree.read(file) {
            None => Seq::empty(),
            Some(text) => {
                proof {
                    lemma_visit_decreases(tree, file, visited);
                }
                met_lines(tree, file, split_lines(text), 0, visited.insert(file))
            },
        }
    }
}

/// The directives that the walk meets in the lines of `file` from line
/// `from` on (counted from 0) and below them. A directive is met, then those
/// below the file it leads to, then those of the lines behind it. The
/// directive expands its file unless the file was reached before.
#[verifier::opaque]
pub open spec fn met_lines(
    tree: FileTree,
    file: Seq<char>,
    lines: Seq<Seq<char>>,
    from: nat,
    visited: Set<Seq<char>>,
) -> Seq<Met>
    decreases tree.unvisited(visited), 1nat, lines.len() - from,
    when tree.wf()
{
    if from >= lines.len() {
        Seq::empty()
    } else {
        match directive_path(lines[from as int]) {
            None => met_lines(tree, file, lines, from + 1, visited),
            Some(path) => match tree.canonicalize(joined_path(dir_of(file), path)) {
                None => Seq::empty(),
                Some(found) => {
                    let here = seq![Met { file: found, fresh: !visited.contains(found) }];
                    match expand_file(tree, found, visited) {
                        Err(_) => here,
                        Ok(inner) => {
                            proof {
                                lemma_visit_more(tree, visited, inner.expanded.to_set());
                            }
                            here + met_file(tree, found, visited) + met_lines(
                                tree,
                                file,
                                lines,
                                from + 1,
                                visited.union(inner.expanded.to_set()),
                            )
                        },
                    }
                },
            },
        }
    }
}

/// The files that the directives of `met` lead to, in their order.
pub open spec fn files_of(met: Seq<Met>) -> Seq<Seq<char>> {
    Seq::new(met.len(), |i: int| met[i].file)
}

/// A directive expands its file if and only if it is the first that leads
/// to the file and the file is not in `visited`.
pub open spec fn first_expands(met: Seq<Met>, visited: Set<Seq<char>>) -> bool {
    forall|i: int|
        0 <= i < met.len() ==> ((#[trigger] met[i]).fresh <==> !visited.contains(met[i].file)
            && !files_of(met.take(i)).contains(met[i].file))
}

/// `first_expands`, with the earlier directives named one by one.
pub proof fn lemma_first_expands(met: Seq<Met>, visited: Set<Seq<char>>, i: int)
    requires
        first_expands(met, visited),
        0 <= i < met.len(),
    ensures
        met[i].fresh <==> !visited.contains(met[i].file) && forall|j: int|
            0 <= j < i ==> (#[trigger] met[j]).file != met[i].file,
{
    let before = files_of(met.take(i));
    if before.contains(met[i].file) {
        let j = choose|j: int| 0 <= j < before.len() && before[j] == met[i].file;
        assert(met[j].file == met[i].file);
    } else {
        assert forall|j: int| 0 <= j < i implies (#[trigger] met[j]).file != met[i].file by {
            assert(before[j] == met[j].file);
        }
    }
}

/// Of the directives that lead to one file, none but the first expands it:
/// each later one stands for a file that was reached before.
pub proof fn law_later_are_skipped(met: Seq<Met>, visited: Set<Seq<char>>, i: int, j: int)
    requires
        first_expands(met, visited),
        0 <= i < j < met.len(),
        met[i].file == met[j].file,
    ensures
        !met[j].fresh,
{
    lemma_first_expands(met, visited, j);
}

/// Directives that follow others are the first of their file if they are
/// so among themselves and their file is none of the others'.
proof fn lemma_first_expands_add(first: Seq<Met>, others: Seq<Met>, visited: Set<Seq<char>>)
    requires
        first_expands(first, visited),
        first_expands(others, visited.union(files_of(first).to_set())),
    ensures
        first_expands(first + others, visited),
        files_of(first + others) == files_of(first) + files_of(others),
{
    let all = first + others;
    assert(files_of(all) == files_of(first) + files_of(others));
    assert forall|i: int| 0 <= i < all.len() implies ((#[trigger] all[i]).fresh
        <==> !visited.contains(all[i].file) && !files_of(all.take(i)).contains(all[i].file)) by {
        if i < first.len() {
            assert(all.take(i) == first.take(i));
            assert(all[i] == first[i]);
        } else {
            let k = i - first.len();
            assert(all[i] == others[k]);
            assert(all.take(i) == first + others.take(k));
            assert(files_of(all.take(i)) == files_of(first) + files_of(others.take(k)));
            lemma_to_set_add(files_of(first), files_of(others.take(k)));
            let file = others[k].file;
            let earlier = files_of(all.take(i));
            assert(earlier.contains(file) <==> earlier.to_set().contains(file));
            assert(files_of(first).contains(file) <==> files_of(first).to_set().contains(file));
            assert(files_of(others.take(k)).contains(file) <==> files_of(
                others.take(k),
            ).to_set().contains(file));
        }
    }
}

/// A file that was reached before is met with no directive below it.
proof fn lemma_met_file_visited(tree: FileTree, file: Seq<char>, visited: Set<Seq<char>>)
    requires
        tree.wf(),
        visited.contains(file) || tree.read(file) is None,
    ensures
        met_file(tree, file, visited) == Seq::<Met>::empty(),
{
    reveal(met_file);
    reveal(met_lines);
}

/// Below a file that is reached for the first time the directives of its
/// lines are met.
proof fn lemma_met_file_read(tree: FileTree, file: Seq<char>, visited: Set<Seq<char>>)
    requires
        tree.wf(),
        !visited.contains(file),
        tree.read(file) is Some,
    ensures
        met_file(tree, file, visited) == met_lines(
            tree,
            file,
            split_lines(tree.read(file).unwrap()),
            0,
            visited.insert(file),
        ),
{
    reveal(met_file);
    reveal(met_lines);
}

/// Behind the last line no directive is met, and a line that is no
/// directive is passed.
proof fn lemma_met_lines_plain(
    tree: FileTree,
    file: Seq<char>,
    lines: Seq<Seq<char>>,
    from: nat,
    visited: Set<Seq<char>>,
)
    requires
        tree.wf(),
    ensures
        from >= lines.len() ==> met_lines(tree, file, lines, from, visited) == Seq::<Met>::empty(),
        from < lines.len() && directive_path(lines[from as int]) is None ==> met_lines(
            tree,
            file,
            lines,
            from,
            visited,
        ) == met_lines(tree, file, lines, from + 1, visited),
{
    reveal(met_file);
    reveal(met_lines);
}

/// At a directive whose file gives `inner`, the directive is met, then
/// those below its file, then those of the lines behind it.
proof fn lemma_met_lines_resolved(
    tree: FileTree,
    file: Seq<char>,
    lines: Seq<Seq<char>>,
    from: nat,
    visited: Set<Seq<char>>,
    found: Seq<char>,
    inner: Expansion,
)
    requires
        tree.wf(),
        from < lines.len(),
        directive_path(lines[from as int]) is Some,
        tree.canonicalize(
            joined_path(dir_of(file), directive_path(lines[from as int]).unwrap()),
        ) == Some(found),
        expand_file(tree, found, visited) == Ok::<Expansion, ErrorView>(inner),
    ensures
        met_lines(tree, file, lines, from, visited) == seq![
            Met { file: found, fresh: !visited.contains(found) },
        ] + met_file(tree, found, visited) + met_lines(
            tree,
            file,
            lines,
            from + 1,
            visited.union(inner.expanded.to_set()),
        ),
{
    reveal(met_file);
    reveal(met_lines);
}

/// Each file is expanded where the walk below `file` meets it first, and
/// nowhere else: a directive met below `file` expands its file if and only
/// if the file is neither `file` nor in `visited` and no directive met
/// before leads to it. The files met are those that were reached when the
/// walk is over.
pub proof fn law_file_met_first(
    tree: FileTree,
    file: Seq<char>,
    visited: Set<Seq<char>>,
    given: Expansion,
)
    requires
        tree.wf(),
        expand_file(tree, file, visited) == Ok::<Expansion, ErrorView>(given),
    ensures
        first_expands(met_file(tree, file, visited), visited.insert(file)),
        visited.insert(file).union(files_of(met_file(tree, file, visited)).to_set())
            == visited.insert(file).union(given.expanded.to_set()),
    decreases tree.unvisited(visited), 0nat, 0nat,
{
    if visited.contains(file) {
        lemma_met_file_visited(tree, file, visited);
        lemma_file_visited(tree, file, visited);
        assert(files_of(Seq::<Met>::empty()).to_set() == Seq::<Seq<char>>::empty().to_set());
    } else if tree.read(file) is None {
        lemma_file_unread(tree, file, visited);
    } else {
        lemma_met_file_read(tree, file, visited);
        lemma_file_read(tree, file, visited);
        lemma_visit_decreases(tree, file, visited);
        let lines = split_lines(tree.read(file).unwrap());
        match expand_lines(tree, file, lines, 0, visited.insert(file)) {
            Err(_) => {},
            Ok(inner) => {
                law_lines_met_first(tree, file, lines, 0, visited.insert(file), inner);
                lemma_to_set_add(seq![file], inner.expanded);
                assert(seq![file].to_set() =~= Set::<Seq<char>>::empty().insert(file)) by {
                    assert(seq![file][0] == file);
                }
                assert(visited.insert(file).union((seq![file] + inner.expanded).to_set())
                    == visited.insert(file).union(inner.expanded.to_set()));
            },
        }
    }
}

/// Each file is expanded where the walk through the lines of a file meets
/// it first, and nowhere else.
pub proof fn law_lines_met_first(
    tree: FileTree,
    file: Seq<char>,
    lines: Seq<Seq<char>>,
    from: nat,
    visited: Set<Seq<char>>,
    given: Expansion,
)
    requires
        tree.wf(),
        expand_lines(tree, file, lines, from, visited) == Ok::<Expansion, ErrorView>(given),
    ensures
        first_expands(met_lines(tree, file, lines, from, visited), visited),
        visited.union(files_of(met_lines(tree, file, lines, from, visited)).to_set())
            == visited.union(given.expanded.to_set()),
    decreases tree.unvisited(visited), 1nat, lines.len() - from,
{
    let none = Seq::<Seq<char>>::empty();
    lemma_met_lines_plain(tree, file, lines, from, visited);
    if from >= lines.len() {
        lemma_lines_end(tree, file, lines, from, visited);
        assert(files_of(Seq::<Met>::empty()).to_set() == none.to_set());
    } else if directive_path(lines[from as int]) is None {
        lemma_lines_plain(tree, file, lines, from, visited);
        match expand_lines(tree, file, lines, from + 1, visited) {
            Err(_) => {},
            Ok(rest) => {
                law_lines_met_first(tree, file, lines, from + 1, visited, rest);
                assert(none + rest.expanded == rest.expanded);
            },
        }
    } else {
        let target = joined_path(dir_of(file), directive_path(lines[from as int]).unwrap());
        match tree.canonicalize(target) {
            None => {
                lemma_lines_unresolved(tree, file, lines, from, visited);
            },
            Some(found) => {
                lemma_lines_resolved(tree, file, lines, from, visited);
                match expand_file(tree, found, visited) {
                    Err(_) => {},
                    Ok(inner) => {
                        let seen = visited.union(inner.expanded.to_set());
                        lemma_visit_more(tree, visited, inner.expanded.to_set());
                        match expand_lines(tree, file, lines, from + 1, seen) {
                            Err(_) => {},
                            Ok(rest) => {
                                lemma_met_lines_resolved(
                                    tree,
                                    file,
                                    lines,
                                    from,
                                    visited,
                                    found,
                                    inner,
                                );
                                law_file_met_first(tree, found, visited, inner);
                                law_lines_met_first(tree, file, lines, from + 1, seen, rest);
                                law_file_expanded_once(tree, found, visited, inner);
                                lemma_met_at_directive(
                                    visited,
                                    found,
                                    inner.expanded,
                                    rest.expanded,
                                    met_file(tree, found, visited),
                                    met_lines(tree, file, lines, from + 1, seen),
                                );
                            },
                        }
                    },
                }
            },
        }
    }
}

/// What is met at a directive, put together from what is met below its
/// file and behind it.
proof fn lemma_met_at_directive(
    visited: Set<Seq<char>>,
    found: Seq<char>,
    inner: Seq<Seq<char>>,
    rest: Seq<Seq<char>>,
    below: Seq<Met>,
    behind: Seq<Met>,
)
    requires
        first_expands(below, visited.insert(found)),
        visited.insert(found).union(files_of(below).to_set()) == visited.insert(found).union(
            inner.to_set(),
        ),
        visited.contains(found) || (inner.len() > 0 && inner[0] == found),
        first_expands(behind, visited.union(inner.to_set())),
        visited.union(inner.to_set()).union(files_of(behind).to_set()) == visited.union(
            inner.to_set(),
        ).union(rest.to_set()),
    ensures
        first_expands(
            seq![Met { file: found, fresh: !visited.contains(found) }] + below + behind,
            visited,
        ),
        visited.union(
            files_of(
                seq![Met { file: found, fresh: !visited.contains(found) }] + below + behind,
            ).to_set(),
        ) == visited.union((inner + rest).to_set()),
{
    let here = seq![Met { file: found, fresh: !visited.contains(found) }];
    let seen = visited.union(inner.to_set());
    assert(first_expands(here, visited)) by {
        assert(here.take(0).len() == 0);
        assert(files_of(here.take(0)).len() == 0);
    }
    assert(files_of(here).to_set() =~= Set::<Seq<char>>::empty().insert(found)) by {
        assert(files_of(here)[0] == found);
    }
    assert(visited.union(files_of(here).to_set()) == visited.insert(found));
    lemma_first_expands_add(here, below, visited);
    lemma_to_set_add(files_of(here), files_of(below));
    let under = files_of(below).to_set();
    if !visited.contains(found) {
        assert(inner[0] == found);
        assert(inner.to_set().contains(found));
    }
    assert(files_of(here + below).to_set() == files_of(here).to_set().union(under));
    assert(visited.union(files_of(here).to_set().union(under)) == visited.insert(found).union(
        under,
    ));
    assert(visited.insert(found).union(inner.to_set()) == seen);
    assert(visited.union(files_of(here + below).to_set()) == seen);
    lemma_first_expands_add(here + below, behind, visited);
    lemma_to_set_add(files_of(here + below), files_of(behind));
    lemma_to_set_add(inner, rest);
    let after = files_of(behind).to_set();
    assert(files_of(here + below + behind).to_set() == files_of(here + below).to_set().union(
        after,
    ));
    assert(visited.union(files_of(here + below).to_set().union(after)) == seen.union(after));
    assert(seen.union(rest.to_set()) == visited.union(inner.to_set().union(rest.to_set())));
}

} // verus!
