//! What holds of every bundle: which scripts go through unchanged, that no
//! file is expanded twice, and that what a file gives does not depend on
//! visits to files it never reaches.

use crate::directive::directive_path;
use crate::error::ErrorView;
use crate::model::{
    after, bundle_of, expand_file, expand_lines, inlined_line, inlined_marker, lemma_file_read,
    lemma_file_unread, lemma_file_visited, lemma_lines_end, lemma_lines_plain,
    lemma_lines_resolved, lemma_lines_unresolved, lemma_marker_lines, lemma_visit_decreases,
    lemma_visit_more, skipped_line, skipped_marker, Expansion, FileTree,
};
use crate::path::{dir_of, joined_path};
use crate::refinement::lemma_to_set_add;
use crate::text::{
    is_clean_line, is_normal, lemma_lines_hold_no_line_feed, lemma_split_unlines,
    lemma_unlines_add, lemma_unlines_one, lemma_unlines_split, split_lines, unlines,
};
use vstd::prelude::*;

verus! {

/// No line of `lines` from line `from` on (counted from 0) is a directive.
pub open spec fn plain_from(lines: Seq<Seq<char>>, from: nat) -> bool {
    forall|i: int| from <= i < lines.len() ==> directive_path(#[trigger] lines[i]) is None
}

/// No line of `text` is a directive.
pub open spec fn is_plain(text: Seq<char>) -> bool {
    plain_from(split_lines(text), 0)
}

/// Lines without a directive give themselves, each with a line feed, and
/// expand no file.
pub proof fn lemma_plain_lines(
    tree: FileTree,
    file: Seq<char>,
    lines: Seq<Seq<char>>,
    from: nat,
    visited: Set<Seq<char>>,
)
    requires
        tree.wf(),
        from <= lines.len(),
        plain_from(lines, from),
    ensures
        expand_lines(tree, file, lines, from, visited) == Ok::<Expansion, ErrorView>(
            Expansion { text: unlines(lines.skip(from as int)), expanded: Seq::empty() },
        ),
    decreases lines.len() - from,
{
    let left = lines.skip(from as int);
    if from >= lines.len() {
        lemma_lines_end(tree, file, lines, from, visited);
        assert(left.len() == 0);
    } else {
        assert(directive_path(lines[from as int]) is None);
        lemma_lines_plain(tree, file, lines, from, visited);
        lemma_plain_lines(tree, file, lines, from + 1, visited);
        assert(left[0] == lines[from as int]);
        assert(left.skip(1) == lines.skip(from as int + 1));
        assert(Seq::<Seq<char>>::empty() + Seq::<Seq<char>>::empty() == Seq::<Seq<char>>::empty());
    }
}

/// A script without directives gives its own lines, each with a line feed.
pub proof fn law_plain_script(tree: FileTree, entry: Seq<char>, file: Seq<char>, text: Seq<char>)
    requires
        tree.wf(),
        tree.canonicalize(entry) == Some(file),
        tree.read(file) == Some(text),
        is_plain(text),
    ensures
        bundle_of(tree, entry) == Ok::<Seq<char>, ErrorView>(unlines(split_lines(text))),
{
    let lines = split_lines(text);
    let none = Set::<Seq<char>>::empty();
    lemma_file_read(tree, file, none);
    lemma_plain_lines(tree, file, lines, 0, none.insert(file));
    assert(lines.skip(0) == lines);
    assert(Seq::<char>::empty() + unlines(lines) == unlines(lines));
}

/// The bundle of a script without directives is the script itself if the
/// script is made of whole lines that end in a line feed alone, and only
/// then.
pub proof fn law_plain_script_unchanged(
    tree: FileTree,
    entry: Seq<char>,
    file: Seq<char>,
    text: Seq<char>,
)
    requires
        tree.wf(),
        tree.canonicalize(entry) == Some(file),
        tree.read(file) == Some(text),
        is_plain(text),
    ensures
        bundle_of(tree, entry) == Ok::<Seq<char>, ErrorView>(text) <==> is_normal(text),
{
    law_plain_script(tree, entry, file, text);
    lemma_unlines_split(text);
}

/// The bundle of a script without directives, bundled again, stays as it
/// is, as far as no line of the script ends in a carriage return.
pub proof fn law_bundling_again(
    tree: FileTree,
    entry: Seq<char>,
    file: Seq<char>,
    text: Seq<char>,
    bundle: Seq<char>,
    again: FileTree,
    entry_again: Seq<char>,
    file_again: Seq<char>,
)
    requires
        tree.wf(),
        tree.canonicalize(entry) == Some(file),
        tree.read(file) == Some(text),
        is_plain(text),
        forall|i: int|
            0 <= i < split_lines(text).len() && (#[trigger] split_lines(text)[i]).len() > 0
                ==> split_lines(text)[i].last() != '\r',
        bundle_of(tree, entry) == Ok::<Seq<char>, ErrorView>(bundle),
        again.wf(),
        again.canonicalize(entry_again) == Some(file_again),
        again.read(file_again) == Some(bundle),
    ensures
        bundle_of(again, entry_again) == Ok::<Seq<char>, ErrorView>(bundle),
{
    let lines = split_lines(text);
    law_plain_script(tree, entry, file, text);
    lemma_lines_hold_no_line_feed(text);
    assert forall|i: int| 0 <= i < lines.len() implies is_clean_line(#[trigger] lines[i]) by {}
    lemma_split_unlines(lines);
    law_plain_script(again, entry_again, file_again, bundle);
}

/// Two sequences without a member in common and without a member twice
/// have no member twice when one is put after the other.
proof fn lemma_no_duplicates_add(a: Seq<Seq<char>>, b: Seq<Seq<char>>)
    requires
        a.no_duplicates(),
        b.no_duplicates(),
        forall|f: Seq<char>| b.contains(f) ==> !a.contains(f),
    ensures
        (a + b).no_duplicates(),
{
    let whole = a + b;
    assert forall|i: int, j: int|
        0 <= i < whole.len() && 0 <= j < whole.len() && i != j implies whole[i] != whole[j] by {
        if i < a.len() && j >= a.len() {
            assert(b.contains(b[j - a.len()]));
            assert(a.contains(a[i]));
        }
        if j < a.len() && i >= a.len() {
            assert(b.contains(b[i - a.len()]));
            assert(a.contains(a[j]));
        }
    }
}

/// What holds of the files that an expansion names: none was visited
/// before, each can be read, and none is named twice.
pub open spec fn expanded_once(
    tree: FileTree,
    visited: Set<Seq<char>>,
    expanded: Seq<Seq<char>>,
) -> bool {
    &&& expanded.no_duplicates()
    &&& forall|f: Seq<char>|
        expanded.contains(f) ==> !visited.contains(f) && tree.scripts.contains_key(f)
}

/// No file is expanded twice. The files that a file expands were not
/// visited before, and no file is among them twice. A file that was visited
/// before expands nothing, and any other file is the first that it expands.
pub proof fn law_file_expanded_once(
    tree: FileTree,
    file: Seq<char>,
    visited: Set<Seq<char>>,
    given: Expansion,
)
    requires
        tree.wf(),
        expand_file(tree, file, visited) == Ok::<Expansion, ErrorView>(given),
    ensures
        expanded_once(tree, visited, given.expanded),
        visited.contains(file) ==> given == (Expansion {
            text: skipped_marker(file),
            expanded: Seq::empty(),
        }),
        !visited.contains(file) ==> given.expanded.len() > 0 && given.expanded[0] == file,
    decreases tree.unvisited(visited), 0nat, 0nat,
{
    if visited.contains(file) {
        lemma_file_visited(tree, file, visited);
    } else if tree.read(file) is None {
        lemma_file_unread(tree, file, visited);
    } else {
        lemma_file_read(tree, file, visited);
        lemma_visit_decreases(tree, file, visited);
        let lines = split_lines(tree.read(file).unwrap());
        match expand_lines(tree, file, lines, 0, visited.insert(file)) {
            Err(_) => {},
            Ok(inner) => {
                law_lines_expanded_once(tree, file, lines, 0, visited.insert(file), inner);
                let first = seq![file];
                assert(first[0] == file);
                assert forall|f: Seq<char>| inner.expanded.contains(f) implies !first.contains(
                    f,
                ) by {
                    assert(visited.insert(file).contains(file));
                }
                lemma_no_duplicates_add(first, inner.expanded);
                lemma_to_set_add(first, inner.expanded);
                let all = first + inner.expanded;
                assert(all[0] == file);
                assert forall|f: Seq<char>| all.contains(f) implies !visited.contains(f)
                    && tree.scripts.contains_key(f) by {
                    assert(all.to_set().contains(f));
                    if first.contains(f) {
                        assert(f == file);
                    } else {
                        assert(inner.expanded.contains(f));
                    }
                }
            },
        }
    }
}

/// No file is expanded twice by the lines of a file either.
pub proof fn law_lines_expanded_once(
    tree: FileTree,
    file: Seq<char>,
    lines: Seq<Seq<char>>,
    from: nat,
    visited: Set<Seq<char>>,
    given: Expansion,
)
    requires
        tree.wf(),
        expand_lines(tree, file, lines, from, visited) == Ok::<Expansion, ErrorView>(given),
    ensures
        expanded_once(tree, visited, given.expanded),
    decreases tree.unvisited(visited), 1nat, lines.len() - from,
{
    let none = Seq::<Seq<char>>::empty();
    if from >= lines.len() {
        lemma_lines_end(tree, file, lines, from, visited);
    } else if directive_path(lines[from as int]) is None {
        lemma_lines_plain(tree, file, lines, from, visited);
        match expand_lines(tree, file, lines, from + 1, visited) {
            Err(_) => {},
            Ok(rest) => {
                law_lines_expanded_once(tree, file, lines, from + 1, visited, rest);
                assert(none + rest.expanded == rest.expanded);
            },
        }
    } else {
        let target = joined_path(dir_of(file), directive_path(lines[from as int]).unwrap());
        match tree.canonicalize(target) {
            None => {
                lemma_lines_unresolved(tree, file, lines, from, visited);
            },
            Some(found) => {
                lemma_lines_resolved(tree, file, lines, from, visited);
                match expand_file(tree, found, visited) {
                    Err(_) => {},
                    Ok(inner) => {
                        let seen = visited.union(inner.expanded.to_set());
                        law_file_expanded_once(tree, found, visited, inner);
                        lemma_visit_more(tree, visited, inner.expanded.to_set());
                        match expand_lines(tree, file, lines, from + 1, seen) {
                            Err(_) => {},
                            Ok(rest) => {
                                law_lines_expanded_once(tree, file, lines, from + 1, seen, rest);
                                assert forall|f: Seq<char>|
                                    rest.expanded.contains(f) implies !inner.expanded.contains(
                                    f,
                                ) by {
                                    if inner.expanded.contains(f) {
                                        assert(seen.contains(f));
                                    }
                                }
                                lemma_no_duplicates_add(inner.expanded, rest.expanded);
                                lemma_to_set_add(inner.expanded, rest.expanded);
                                let all = inner.expanded + rest.expanded;
                                assert forall|f: Seq<char>|
                                    all.contains(f) implies !visited.contains(f)
                                    && tree.scripts.contains_key(f) by {
                                    assert(all.to_set().contains(f));
                                    if inner.expanded.contains(f) {
                                    } else {
                                        assert(rest.expanded.contains(f));
                                        assert(!seen.contains(f));
                                    }
                                }
                            },
                        }
                    },
                }
            },
        }
    }
}

/// What a file gives does not depend on visits to files that it does not
/// reach: with more files visited before, none of which it expands, it gives
/// the same text and expands the same files.
pub proof fn law_unrelated_visits(
    tree: FileTree,
    file: Seq<char>,
    visited: Set<Seq<char>>,
    given: Expansion,
    others: Set<Seq<char>>,
)
    requires
        tree.wf(),
        expand_file(tree, file, visited) == Ok::<Expansion, ErrorView>(given),
        forall|f: Seq<char>| given.expanded.contains(f) ==> !others.contains(f),
    ensures
        expand_file(tree, file, visited.union(others)) == Ok::<Expansion, ErrorView>(given),
    decreases tree.unvisited(visited), 0nat, 0nat,
{
    let more = visited.union(others);
    if visited.contains(file) {
        lemma_file_visited(tree, file, visited);
        lemma_file_visited(tree, file, more);
    } else if tree.read(file) is None {
        lemma_file_unread(tree, file, visited);
    } else {
        lemma_file_read(tree, file, visited);
        lemma_visit_decreases(tree, file, visited);
        let lines = split_lines(tree.read(file).unwrap());
        match expand_lines(tree, file, lines, 0, visited.insert(file)) {
            Err(_) => {},
            Ok(inner) => {
                let all = seq![file] + inner.expanded;
                assert(all[0] == file);
                assert(all.contains(file));
                assert(!more.contains(file));
                lemma_file_read(tree, file, more);
                assert forall|f: Seq<char>| inner.expanded.contains(f) implies !others.contains(
                    f,
                ) by {
                    lemma_to_set_add(seq![file], inner.expanded);
                    assert(all.to_set().contains(f));
                }
                lemma_unrelated_visits_lines(
                    tree,
                    file,
                    lines,
                    0,
                    visited.insert(file),
                    inner,
                    others,
                );
                assert(visited.insert(file).union(others) == more.insert(file));
            },
        }
    }
}

/// What the lines of a file give does not depend on visits to files that
/// they do not reach.
pub proof fn lemma_unrelated_visits_lines(
    tree: FileTree,
    file: Seq<char>,
    lines: Seq<Seq<char>>,
    from: nat,
    visited: Set<Seq<char>>,
    given: Expansion,
    others: Set<Seq<char>>,
)
    requires
        tree.wf(),
        expand_lines(tree, file, lines, from, visited) == Ok::<Expansion, ErrorView>(given),
        forall|f: Seq<char>| given.expanded.contains(f) ==> !others.contains(f),
    ensures
        expand_lines(tree, file, lines, from, visited.union(others)) == Ok::<
            Expansion,
            ErrorView,
        >(given),
    decreases tree.unvisited(visited), 1nat, lines.len() - from,
{
    let more = visited.union(others);
    let none = Seq::<Seq<char>>::empty();
    if from >= lines.len() {
        lemma_lines_end(tree, file, lines, from, visited);
        lemma_lines_end(tree, file, lines, from, more);
    } else if directive_path(lines[from as int]) is None {
        lemma_lines_plain(tree, file, lines, from, visited);
        lemma_lines_plain(tree, file, lines, from, more);
        match expand_lines(tree, file, lines, from + 1, visited) {
            Err(_) => {},
            Ok(rest) => {
                assert(none + rest.expanded == rest.expanded);
                lemma_unrelated_visits_lines(tree, file, lines, from + 1, visited, rest, others);
            },
        }
    } else {
        let target = joined_path(dir_of(file), directive_path(lines[from as int]).unwrap());
        match tree.canonicalize(target) {
            None => {
                lemma_lines_unresolved(tree, file, lines, from, visited);
            },
            Some(found) => {
                lemma_lines_resolved(tree, file, lines, from, visited);
                lemma_lines_resolved(tree, file, lines, from, more);
                match expand_file(tree, found, visited) {
                    Err(_) => {},
                    Ok(inner) => {
                        let seen = visited.union(inner.expanded.to_set());
                        match expand_lines(tree, file, lines, from + 1, seen) {
                            Err(_) => {},
                            Ok(rest) => {
                                let all = inner.expanded + rest.expanded;
                                lemma_to_set_add(inner.expanded, rest.expanded);
                                assert forall|f: Seq<char>|
                                    inner.expanded.contains(f) implies !others.contains(f) by {
                                    assert(all.to_set().contains(f));
                                }
                                assert forall|f: Seq<char>|
                                    rest.expanded.contains(f) implies !others.contains(f) by {
                                    assert(all.to_set().contains(f));
                                }
                                law_unrelated_visits(tree, found, visited, inner, others);
                                lemma_visit_more(tree, visited, inner.expanded.to_set());
                                lemma_unrelated_visits_lines(
                                    tree,
                                    file,
                                    lines,
                                    from + 1,
                                    seen,
                                    rest,
                                    others,
                                );
                                assert(seen.union(others) == more.union(
                                    inner.expanded.to_set(),
                                ));
                            },
                        }
                    },
                }
            },
        }
    }
}

/// Two files that expand no file in common give the same, whichever of
/// them comes first: each gives after the other what it gives before it.
pub proof fn law_sibling_order(
    tree: FileTree,
    visited: Set<Seq<char>>,
    one: Seq<char>,
    of_one: Expansion,
    other: Seq<char>,
    of_other: Expansion,
)
    requires
        tree.wf(),
        expand_file(tree, one, visited) == Ok::<Expansion, ErrorView>(of_one),
        expand_file(tree, other, visited) == Ok::<Expansion, ErrorView>(of_other),
        forall|f: Seq<char>| !(of_one.expanded.contains(f) && of_other.expanded.contains(f)),
    ensures
        expand_file(tree, other, visited.union(of_one.expanded.to_set())) == Ok::<
            Expansion,
            ErrorView,
        >(of_other),
        expand_file(tree, one, visited.union(of_other.expanded.to_set())) == Ok::<
            Expansion,
            ErrorView,
        >(of_one),
{
    law_unrelated_visits(tree, other, visited, of_other, of_one.expanded.to_set());
    law_unrelated_visits(tree, one, visited, of_one, of_other.expanded.to_set());
}

/// A directive that leads back to a file that was reached before, as one
/// that closes a cycle does, gives the two marker lines of that file and
/// nothing else, and the lines behind it go on as before.
pub proof fn law_cycle_closes(
    tree: FileTree,
    file: Seq<char>,
    lines: Seq<Seq<char>>,
    from: nat,
    visited: Set<Seq<char>>,
    found: Seq<char>,
)
    requires
        tree.wf(),
        from < lines.len(),
        directive_path(lines[from as int]) is Some,
        tree.canonicalize(
            joined_path(dir_of(file), directive_path(lines[from as int]).unwrap()),
        ) == Some(found),
        visited.contains(found),
    ensures
        expand_lines(tree, file, lines, from, visited) == after(
            inlined_marker(found) + skipped_marker(found),
            Seq::empty(),
            expand_lines(tree, file, lines, from + 1, visited),
        ),
{
    lemma_lines_resolved(tree, file, lines, from, visited);
    lemma_file_visited(tree, found, visited);
    assert(visited.union(Seq::<Seq<char>>::empty().to_set()) == visited);
}

/// No line of a script in `tree` ends in a carriage return.
pub open spec fn has_clean_lines(tree: FileTree) -> bool {
    forall|file: Seq<char>, i: int|
        tree.scripts.contains_key(file) && 0 <= i < split_lines(tree.scripts[file]).len() ==> {
            let line = #[trigger] split_lines(tree.scripts[file])[i];
            line.len() > 0 ==> line.last() != '\r'
        }
}

/// Each of `lines` can be read back as it is, and none is a directive.
pub open spec fn plain_and_clean(lines: Seq<Seq<char>>) -> bool {
    forall|i: int|
        0 <= i < lines.len() ==> is_clean_line(#[trigger] lines[i]) && directive_path(lines[i])
            is None
}

/// Lines that can be read back and are no directives stay so when more of
/// their kind follow.
proof fn lemma_plain_and_clean_add(first: Seq<Seq<char>>, others: Seq<Seq<char>>)
    requires
        plain_and_clean(first),
        plain_and_clean(others),
    ensures
        plain_and_clean(first + others),
{
    let all = first + others;
    assert forall|i: int| 0 <= i < all.len() implies is_clean_line(#[trigger] all[i])
        && directive_path(all[i]) is None by {
        if i < first.len() {
            assert(all[i] == first[i]);
        } else {
            assert(all[i] == others[i - first.len()]);
        }
    }
}

/// What a file gives is made of lines that can be read back as they are,
/// none of which is a directive.
proof fn lemma_file_gives_lines(
    tree: FileTree,
    file: Seq<char>,
    visited: Set<Seq<char>>,
    given: Expansion,
) -> (made: Seq<Seq<char>>)
    requires
        tree.wf(),
        has_clean_lines(tree),
        expand_file(tree, file, visited) == Ok::<Expansion, ErrorView>(given),
    ensures
        given.text == unlines(made),
        plain_and_clean(made),
    decreases tree.unvisited(visited), 0nat, 0nat,
{
    if visited.contains(file) {
        lemma_file_visited(tree, file, visited);
        lemma_marker_lines(file);
        lemma_unlines_one(skipped_line(file));
        seq![skipped_line(file)]
    } else if tree.read(file) is None {
        lemma_file_unread(tree, file, visited);
        Seq::empty()
    } else {
        lemma_file_read(tree, file, visited);
        lemma_visit_decreases(tree, file, visited);
        let text = tree.read(file).unwrap();
        let lines = split_lines(text);
        lemma_lines_hold_no_line_feed(text);
        assert forall|i: int| 0 <= i < lines.len() implies is_clean_line(#[trigger] lines[i]) by {
            assert(lines[i] == split_lines(tree.scripts[file])[i]);
        }
        match expand_lines(tree, file, lines, 0, visited.insert(file)) {
            Err(_) => Seq::empty(),
            Ok(inner) => {
                assert(Seq::<char>::empty() + inner.text == inner.text);
                lemma_lines_give_lines(tree, file, lines, 0, visited.insert(file), inner)
            },
        }
    }
}

/// What the lines of a file give is made of lines that can be read back as
/// they are, none of which is a directive.
proof fn lemma_lines_give_lines(
    tree: FileTree,
    file: Seq<char>,
    lines: Seq<Seq<char>>,
    from: nat,
    visited: Set<Seq<char>>,
    given: Expansion,
) -> (made: Seq<Seq<char>>)
    requires
        tree.wf(),
        has_clean_lines(tree),
        forall|i: int| from <= i < lines.len() ==> is_clean_line(#[trigger] lines[i]),
        expand_lines(tree, file, lines, from, visited) == Ok::<Expansion, ErrorView>(given),
    ensures
        given.text == unlines(made),
        plain_and_clean(made),
    decreases tree.unvisited(visited), 1nat, lines.len() - from,
{
    if from >= lines.len() {
        lemma_lines_end(tree, file, lines, from, visited);
        Seq::empty()
    } else if directive_path(lines[from as int]) is None {
        let line = lines[from as int];
        lemma_lines_plain(tree, file, lines, from, visited);
        match expand_lines(tree, file, lines, from + 1, visited) {
            Err(_) => Seq::empty(),
            Ok(rest) => {
                let behind = lemma_lines_give_lines(tree, file, lines, from + 1, visited, rest);
                lemma_unlines_one(line);
                lemma_unlines_add(seq![line], behind);
                assert(plain_and_clean(seq![line]));
                lemma_plain_and_clean_add(seq![line], behind);
                seq![line] + behind
            },
        }
    } else {
        let target = joined_path(dir_of(file), directive_path(lines[from as int]).unwrap());
        match tree.canonicalize(target) {
            None => {
                lemma_lines_unresolved(tree, file, lines, from, visited);
                Seq::empty()
            },
            Some(found) => {
                lemma_lines_resolved(tree, file, lines, from, visited);
                match expand_file(tree, found, visited) {
                    Err(_) => Seq::empty(),
                    Ok(inner) => {
                        let seen = visited.union(inner.expanded.to_set());
                        let within = lemma_file_gives_lines(tree, found, visited, inner);
                        lemma_visit_more(tree, visited, inner.expanded.to_set());
                        match expand_lines(tree, file, lines, from + 1, seen) {
                            Err(_) => Seq::empty(),
                            Ok(rest) => {
                                let behind = lemma_lines_give_lines(
                                    tree,
                                    file,
                                    lines,
                                    from + 1,
                                    seen,
                                    rest,
                                );
                                let marker = seq![inlined_line(found)];
                                lemma_marker_lines(found);
                                lemma_unlines_one(inlined_line(found));
                                lemma_unlines_add(marker, within);
                                lemma_unlines_add(marker + within, behind);
                                assert(plain_and_clean(marker));
                                lemma_plain_and_clean_add(marker, within);
                                lemma_plain_and_clean_add(marker + within, behind);
                                marker + within + behind
                            },
                        }
                    },
                }
            },
        }
    }
}

/// A bundle is self-contained: it is made of whole lines that end in a line
/// feed alone, and none of them is a directive, as far as no line of the
/// scripts ends in a carriage return.
pub proof fn law_bundle_is_plain(tree: FileTree, entry: Seq<char>, bundle: Seq<char>)
    requires
        tree.wf(),
        has_clean_lines(tree),
        bundle_of(tree, entry) == Ok::<Seq<char>, ErrorView>(bundle),
    ensures
        is_plain(bundle),
        is_normal(bundle),
{
    let file = tree.canonicalize(entry).unwrap();
    match expand_file(tree, file, Set::empty()) {
        Err(_) => {},
        Ok(whole) => {
            let made = lemma_file_gives_lines(tree, file, Set::empty(), whole);
            lemma_split_unlines(made);
            lemma_unlines_split(bundle);
        },
    }
}

/// A bundle, bundled again, stays as it is, as far as no line of the
/// scripts ends in a carriage return.
pub proof fn law_bundle_is_stable(
    tree: FileTree,
    entry: Seq<char>,
    bundle: Seq<char>,
    again: FileTree,
    entry_again: Seq<char>,
    file_again: Seq<char>,
)
    requires
        tree.wf(),
        has_clean_lines(tree),
        bundle_of(tree, entry) == Ok::<Seq<char>, ErrorView>(bundle),
        again.wf(),
        again.canonicalize(entry_again) == Some(file_again),
        again.read(file_again) == Some(bundle),
    ensures
        bundle_of(again, entry_again) == Ok::<Seq<char>, ErrorView>(bundle),
{
    law_bundle_is_plain(tree, entry, bundle);
    law_plain_script_unchanged(again, entry_again, file_again, bundle);
}

/// What a line gives when the file it asks for is bundled on its own: the
/// line and a line feed where it is no directive, and else the marker line
/// of the file and the bundle of that file alone.
pub open spec fn segment(tree: FileTree, file: Seq<char>, line: Seq<char>) -> Seq<char> {
    match directive_path(line) {
        None => line + seq!['\n'],
        Some(path) => match tree.canonicalize(joined_path(dir_of(file), path)) {
            None => Seq::empty(),
            Some(found) => match expand_file(tree, found, Set::empty()) {
                Err(_) => Seq::empty(),
                Ok(own) => inlined_marker(found) + own.text,
            },
        },
    }
}

/// What the lines of `file` give from line `from` on (counted from 0) when
/// each is taken on its own: their segments, one after the other.
pub open spec fn segments(
    tree: FileTree,
    file: Seq<char>,
    lines: Seq<Seq<char>>,
    from: nat,
) -> Seq<char>
    decreases lines.len() - from,
{
    if from >= lines.len() {
        Seq::empty()
    } else {
        segment(tree, file, lines[from as int]) + segments(tree, file, lines, from + 1)
    }
}

/// The includes below the lines of `file` from line `from` on are apart from
/// each other and from `seen`: each directive leads to a file, that file can
/// be bundled on its own, and what it expands then is neither in `seen` nor
/// expanded below a directive before it. So it is where the includes form a
/// tree, in which no file is reached along two ways.
pub open spec fn apart(
    tree: FileTree,
    file: Seq<char>,
    lines: Seq<Seq<char>>,
    from: nat,
    seen: Set<Seq<char>>,
) -> bool
    decreases lines.len() - from,
{
    if from >= lines.len() {
        true
    } else {
        match directive_path(lines[from as int]) {
            None => apart(tree, file, lines, from + 1, seen),
            Some(path) => match tree.canonicalize(joined_path(dir_of(file), path)) {
                None => false,
                Some(found) => match expand_file(tree, found, Set::empty()) {
                    Err(_) => false,
                    Ok(own) => (forall|f: Seq<char>| own.expanded.contains(f) ==> !seen.contains(f))
                        && apart(tree, file, lines, from + 1, seen.union(own.expanded.to_set())),
                },
            },
        }
    }
}

/// Where the includes below the lines of a file are apart from each other
/// and from the files visited, the lines give their segments one after the
/// other: what an include gives does not depend on the includes beside it.
pub proof fn law_lines_of_a_tree(
    tree: FileTree,
    file: Seq<char>,
    lines: Seq<Seq<char>>,
    from: nat,
    visited: Set<Seq<char>>,
)
    requires
        tree.wf(),
        apart(tree, file, lines, from, visited),
    ensures
        match expand_lines(tree, file, lines, from, visited) {
            Ok(given) => given.text == segments(tree, file, lines, from),
            Err(_) => false,
        },
    decreases lines.len() - from,
{
    if from >= lines.len() {
        lemma_lines_end(tree, file, lines, from, visited);
    } else {
        let line = lines[from as int];
        match directive_path(line) {
            None => {
                lemma_lines_plain(tree, file, lines, from, visited);
                law_lines_of_a_tree(tree, file, lines, from + 1, visited);
            },
            Some(path) => {
                let found = tree.canonicalize(joined_path(dir_of(file), path)).unwrap();
                match expand_file(tree, found, Set::empty()) {
                    Err(_) => {},
                    Ok(own) => {
                        let seen = visited.union(own.expanded.to_set());
                        law_unrelated_visits(tree, found, Set::empty(), own, visited);
                        assert(Set::<Seq<char>>::empty().union(visited) == visited);
                        lemma_lines_resolved(tree, file, lines, from, visited);
                        law_lines_of_a_tree(tree, file, lines, from + 1, seen);
                        match expand_lines(tree, file, lines, from + 1, seen) {
                            Err(_) => {},
                            Ok(rest) => {
                                assert(inlined_marker(found) + own.text + rest.text
                                    == inlined_marker(found) + own.text + segments(
                                    tree,
                                    file,
                                    lines,
                                    from + 1,
                                ));
                            },
                        }
                    },
                }
            },
        }
    }
}

/// The bundle of a script whose includes form a tree is the segments of its
/// lines, one after the other: each line that is no directive with its line
/// feed, and for each directive the marker line of its file and the bundle
/// of that file alone.
pub proof fn law_bundle_of_a_tree(
    tree: FileTree,
    entry: Seq<char>,
    file: Seq<char>,
    text: Seq<char>,
)
    requires
        tree.wf(),
        tree.canonicalize(entry) == Some(file),
        tree.read(file) == Some(text),
        apart(tree, file, split_lines(text), 0, Set::<Seq<char>>::empty().insert(file)),
    ensures
        bundle_of(tree, entry) == Ok::<Seq<char>, ErrorView>(
            segments(tree, file, split_lines(text), 0),
        ),
{
    let none = Set::<Seq<char>>::empty();
    let lines = split_lines(text);
    lemma_file_read(tree, file, none);
    law_lines_of_a_tree(tree, file, lines, 0, none.insert(file));
    match expand_lines(tree, file, lines, 0, none.insert(file)) {
        Err(_) => {},
        Ok(given) => {
            assert(Seq::<char>::empty() + given.text == given.text);
        },
    }
}

} // verus!
