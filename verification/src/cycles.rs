//! Includes that go in a ring: what the bundle of a script is when each
//! file asks for the next one and the last asks for the first.

use crate::directive::directive_path;
use crate::error::ErrorView;
use crate::laws::{lemma_plain_lines, plain_from};
use crate::model::{
    after, bundle_of, expand_file, expand_lines, inlined_marker, lemma_file_read,
    lemma_file_visited, lemma_lines_plain, lemma_lines_resolved, skipped_marker, Expansion,
    FileTree,
};
use crate::path::{dir_of, joined_path};
use crate::refinement::lemma_to_set_add;
use crate::text::{split_lines, unlines};
use vstd::prelude::*;

verus! {

/// Files that ask for each other in a ring.
pub struct Ring {
    /// The canonical paths of the files, each once. Each asks for the one
    /// after it, and the last for the first.
    pub files: Seq<Seq<char>>,
    /// For each file, which of its lines is the directive (counted from 0).
    pub at: Seq<nat>,
}

impl Ring {
    /// The lines of file `i`.
    pub open spec fn lines(self, tree: FileTree, i: int) -> Seq<Seq<char>> {
        split_lines(tree.scripts[self.files[i]])
    }

    /// The file that file `i` asks for.
    pub open spec fn next(self, i: int) -> Seq<char> {
        if i + 1 < self.files.len() {
            self.files[i + 1]
        } else {
            self.files[0]
        }
    }

    /// File `i` is in `tree` and holds one directive and no other, which
    /// leads to the next file of the ring.
    pub open spec fn file_wf(self, tree: FileTree, i: int) -> bool {
        &&& tree.scripts.contains_key(self.files[i])
        &&& self.at[i] < self.lines(tree, i).len()
        &&& forall|j: int|
            0 <= j < self.lines(tree, i).len() && j != self.at[i] ==> directive_path(
                #[trigger] self.lines(tree, i)[j],
            ) is None
        &&& directive_path(self.lines(tree, i)[self.at[i] as int]) is Some
        &&& tree.canonicalize(
            joined_path(
                dir_of(self.files[i]),
                directive_path(self.lines(tree, i)[self.at[i] as int]).unwrap(),
            ),
        ) == Some(self.next(i))
    }

    /// There is a file, no two files are the same, and each holds one
    /// directive and no other, which leads to the next file of the ring.
    pub open spec fn wf(self, tree: FileTree) -> bool {
        &&& self.files.len() >= 1
        &&& self.at.len() == self.files.len()
        &&& self.files.no_duplicates()
        &&& forall|i: int| 0 <= i < self.files.len() ==> #[trigger] self.file_wf(tree, i)
    }

    /// What file `i` gives when the files before it in the ring were
    /// reached: its lines before the directive, the marker line of the next
    /// file, what that file gives, and its lines behind the directive. The
    /// last file gets the second marker line of the first file for what the
    /// first file would give.
    pub open spec fn text(self, tree: FileTree, i: nat) -> Seq<char>
        decreases self.files.len() - i,
    {
        if i >= self.files.len() {
            Seq::empty()
        } else {
            let lines = self.lines(tree, i as int);
            let at = self.at[i as int] as int;
            let within = if i + 1 < self.files.len() {
                self.text(tree, i + 1)
            } else {
                skipped_marker(self.files[0])
            };
            unlines(lines.take(at)) + inlined_marker(self.next(i as int)) + within + unlines(
                lines.skip(at + 1),
            )
        }
    }
}

/// Lines without a directive before the directive at line `at` stand before
/// what the directive and the lines behind it give.
proof fn lemma_lines_before_directive(
    tree: FileTree,
    file: Seq<char>,
    lines: Seq<Seq<char>>,
    from: nat,
    at: nat,
    visited: Set<Seq<char>>,
)
    requires
        tree.wf(),
        from <= at < lines.len(),
        forall|j: int| from <= j < at ==> directive_path(#[trigger] lines[j]) is None,
    ensures
        expand_lines(tree, file, lines, from, visited) == after(
            unlines(lines.subrange(from as int, at as int)),
            Seq::empty(),
            expand_lines(tree, file, lines, at, visited),
        ),
    decreases at - from,
{
    let here = lines.subrange(from as int, at as int);
    let rest = expand_lines(tree, file, lines, at, visited);
    if from == at {
        assert(here.len() == 0);
        match rest {
            Ok(r) => {
                assert(Seq::<char>::empty() + r.text == r.text);
                assert(Seq::<Seq<char>>::empty() + r.expanded == r.expanded);
            },
            Err(_) => {},
        }
    } else {
        assert(directive_path(lines[from as int]) is None);
        lemma_lines_plain(tree, file, lines, from, visited);
        lemma_lines_before_directive(tree, file, lines, from + 1, at, visited);
        assert(here[0] == lines[from as int]);
        assert(here.skip(1) == lines.subrange(from as int + 1, at as int));
        match rest {
            Ok(r) => {
                let further = unlines(lines.subrange(from as int + 1, at as int));
                assert(lines[from as int] + seq!['\n'] + (further + r.text) == lines[from as int]
                    + seq!['\n'] + further + r.text);
                assert(Seq::<Seq<char>>::empty() + (Seq::<Seq<char>>::empty() + r.expanded)
                    == Seq::<Seq<char>>::empty() + r.expanded);
            },
            Err(_) => {},
        }
    }
}

/// What a file gives that holds one directive and no other: its lines
/// before the directive, the marker line of the file asked for, what that
/// file gives, and its lines behind the directive.
proof fn lemma_file_with_one_directive(
    tree: FileTree,
    file: Seq<char>,
    visited: Set<Seq<char>>,
    at: nat,
    found: Seq<char>,
    within: Expansion,
)
    requires
        tree.wf(),
        !visited.contains(file),
        tree.scripts.contains_key(file),
        at < split_lines(tree.scripts[file]).len(),
        forall|j: int|
            0 <= j < split_lines(tree.scripts[file]).len() && j != at ==> directive_path(
                #[trigger] split_lines(tree.scripts[file])[j],
            ) is None,
        directive_path(split_lines(tree.scripts[file])[at as int]) is Some,
        tree.canonicalize(
            joined_path(
                dir_of(file),
                directive_path(split_lines(tree.scripts[file])[at as int]).unwrap(),
            ),
        ) == Some(found),
        expand_file(tree, found, visited.insert(file)) == Ok::<Expansion, ErrorView>(within),
    ensures
        expand_file(tree, file, visited) == Ok::<Expansion, ErrorView>(
            Expansion {
                text: unlines(split_lines(tree.scripts[file]).take(at as int)) + inlined_marker(
                    found,
                ) + within.text + unlines(split_lines(tree.scripts[file]).skip(at as int + 1)),
                expanded: seq![file] + within.expanded,
            },
        ),
{
    let lines = split_lines(tree.scripts[file]);
    let reached = visited.insert(file);
    let none = Seq::<Seq<char>>::empty();
    let seen = reached.union(within.expanded.to_set());
    let front = unlines(lines.take(at as int));
    let behind = unlines(lines.skip(at as int + 1));
    assert(tree.read(file) == Some(tree.scripts[file]));
    lemma_file_read(tree, file, visited);
    lemma_lines_before_directive(tree, file, lines, 0, at, reached);
    lemma_lines_resolved(tree, file, lines, at, reached);
    assert(lines.subrange(0, at as int) == lines.take(at as int));
    assert(plain_from(lines, at + 1));
    lemma_plain_lines(tree, file, lines, at + 1, seen);
    let last = expand_lines(tree, file, lines, at + 1, seen);
    assert(last == Ok::<Expansion, ErrorView>(Expansion { text: behind, expanded: none }));
    let here = expand_lines(tree, file, lines, at, reached);
    assert(here == after(inlined_marker(found) + within.text, within.expanded, last));
    assert(within.expanded + none == within.expanded);
    assert(here == Ok::<Expansion, ErrorView>(
        Expansion {
            text: inlined_marker(found) + within.text + behind,
            expanded: within.expanded,
        },
    ));
    let whole = expand_lines(tree, file, lines, 0, reached);
    assert(whole == after(front, none, here));
    assert(none + within.expanded == within.expanded);
    assert(front + (inlined_marker(found) + within.text + behind) == front + inlined_marker(found)
        + within.text + behind);
    assert(Seq::<char>::empty() + (front + inlined_marker(found) + within.text + behind) == front
        + inlined_marker(found) + within.text + behind);
}

/// The files before file `i` of a ring and file `i` itself.
proof fn lemma_ring_prefix(files: Seq<Seq<char>>, i: int)
    requires
        files.no_duplicates(),
        0 <= i < files.len(),
    ensures
        !files.take(i).to_set().contains(files[i]),
        files.take(i + 1).to_set() == files.take(i).to_set().insert(files[i]),
        files.take(i + 1).to_set().contains(files[0]),
        files.skip(i) == seq![files[i]] + files.skip(i + 1),
{
    let file = files[i];
    let before = files.take(i);
    let one = seq![file];
    if before.contains(file) {
        let j = choose|j: int| 0 <= j < before.len() && before[j] == file;
        assert(files[j] == files[i]);
    }
    lemma_to_set_add(before, one);
    assert(files.take(i + 1) == before + one);
    assert(one.to_set() =~= Set::<Seq<char>>::empty().insert(file)) by {
        assert(one[0] == file);
    }
    assert(before.to_set().union(Set::<Seq<char>>::empty().insert(file)) =~= before.to_set().insert(
        file,
    ));
    assert(files.take(i + 1)[0] == files[0]);
    assert(files.skip(i)[0] == file);
}

/// In a ring each file is expanded once and in its turn, and the ring
/// closes with the second marker line of its first file: file `i`, reached
/// after the files before it, gives `ring.text(tree, i)` and expands the
/// files from itself on.
pub proof fn law_ring(tree: FileTree, ring: Ring, i: nat)
    requires
        tree.wf(),
        ring.wf(tree),
        i < ring.files.len(),
    ensures
        expand_file(tree, ring.files[i as int], ring.files.take(i as int).to_set()) == Ok::<
            Expansion,
            ErrorView,
        >(Expansion { text: ring.text(tree, i), expanded: ring.files.skip(i as int) }),
    decreases ring.files.len() - i,
{
    let files = ring.files;
    let file = files[i as int];
    let visited = files.take(i as int).to_set();
    let next = ring.next(i as int);
    lemma_ring_prefix(files, i as int);
    assert(ring.file_wf(tree, i as int));
    let reached = visited.insert(file);
    assert(files.take(i as int + 1).to_set() == reached);
    let within = if i + 1 < files.len() {
        law_ring(tree, ring, i + 1);
        Expansion { text: ring.text(tree, i + 1), expanded: files.skip(i as int + 1) }
    } else {
        lemma_file_visited(tree, next, reached);
        assert(files.skip(i as int + 1) == Seq::<Seq<char>>::empty());
        Expansion { text: skipped_marker(files[0]), expanded: files.skip(i as int + 1) }
    };
    assert(expand_file(tree, next, reached) == Ok::<Expansion, ErrorView>(within));
    lemma_file_with_one_directive(tree, file, visited, ring.at[i as int], next, within);
}

/// The bundle of a script that starts a ring: each file of the ring once,
/// one inside the other, and where the last file asks for the first, the
/// two marker lines of the first and nothing of its text.
pub proof fn law_bundle_of_a_ring(tree: FileTree, entry: Seq<char>, ring: Ring)
    requires
        tree.wf(),
        ring.wf(tree),
        tree.canonicalize(entry) == Some(ring.files[0]),
    ensures
        bundle_of(tree, entry) == Ok::<Seq<char>, ErrorView>(ring.text(tree, 0)),
{
    law_ring(tree, ring, 0);
    assert(ring.files.take(0).to_set() == Set::<Seq<char>>::empty());
}

} // verus!
