//! Paths as text: joining a directive's path onto a directory, the parent
//! of a path, and the quoted form in which a path stands in a bundle.
//!
//! Paths are taken as they are written, with `/` between their components.
//! Nothing here looks at the disk: finding the file that a path leads to is
//! left to the caller.

use crate::text::{push_range, to_chars};
use vstd::prelude::*;

verus! {

/// Whether `path` starts at the root.
pub open spec fn is_absolute(path: Seq<char>) -> bool {
    path.len() > 0 && path[0] == '/'
}

/// The path that `path` means when a file in the directory `dir` asks for
/// it: `path` itself where it is absolute, and otherwise `path` after `dir`,
/// with a `/` between them unless `dir` is empty or ends in one.
pub open spec fn joined_path(dir: Seq<char>, path: Seq<char>) -> Seq<char> {
    if is_absolute(path) {
        path
    } else if dir.len() == 0 || dir.last() == '/' {
        dir + path
    } else {
        dir + seq!['/'] + path
    }
}

/// How many characters at the start of `path` belong to no component that
/// can be taken off its end: the root's `/`, or the `.` that a relative path
/// starts with.
pub open spec fn body_start(path: Seq<char>) -> int {
    if is_absolute(path) {
        1
    } else if path.len() > 0 && path[0] == '.' && (path.len() == 1 || path[1] == '/') {
        1
    } else {
        0
    }
}

/// Where the last component of `path[..end]` starts: after the last `/` at
/// or behind `start`, or at `start` where there is none.
pub open spec fn component_start(path: Seq<char>, start: int, end: int) -> int
    decreases end - start,
{
    if end <= start {
        start
    } else if path[end - 1] == '/' {
        end
    } else {
        component_start(path, start, end - 1)
    }
}

/// Where the component that ends at `end` begins, the `/` before it
/// included.
pub open spec fn component_cut(path: Seq<char>, start: int, end: int) -> int {
    let from = component_start(path, start, end);
    if from > start {
        from - 1
    } else {
        from
    }
}

/// The end of `path[..end]` once the empty components and the `.`
/// components at its end are taken off, each with the `/` before it.
pub open spec fn trimmed_end(path: Seq<char>, start: int, end: int) -> int
    decreases end - start,
{
    if end <= start {
        start
    } else {
        let from = component_start(path, start, end);
        if from == end || (from == end - 1 && path[from] == '.') {
            trimmed_end(path, start, component_cut(path, start, end))
        } else {
            end
        }
    }
}

/// `path` without its last component, or `None` where it has none to take
/// off: the empty path and the root.
///
/// A `/` at the end, a doubled `/` and a component `.` do not count: the
/// parent of `/a/b/`, of `/a//b` and of `/a/b/.` is `/a`. The parent of a
/// single relative component is the empty path.
pub open spec fn parent_of(path: Seq<char>) -> Option<Seq<char>> {
    let start = body_start(path);
    let end = trimmed_end(path, start, path.len() as int);
    if path.len() == 0 {
        None
    } else if end <= start {
        if !is_absolute(path) && start == 1 {
            Some(Seq::empty())
        } else {
            None
        }
    } else {
        Some(path.take(trimmed_end(path, start, component_cut(path, start, end))))
    }
}

/// The directory against which the directives of `file` are resolved: its
/// parent, and `.` where it has none.
pub open spec fn dir_of(file: Seq<char>) -> Seq<char> {
    match parent_of(file) {
        Some(dir) => dir,
        None => seq!['.'],
    }
}

/// How one character of a path is written between quotes: a backslash goes
/// before a backslash and a double quote, and a line feed, a carriage return
/// and a tab are written `\n`, `\r` and `\t`.
///
/// The form is this library's own. It is the form that `{:?}` gives for the
/// paths that hold none but printable characters, and it leaves every other
/// character as it is, where `{:?}` writes `\0` or `\u{..}`.
pub open spec fn escaped(c: char) -> Seq<char> {
    if c == '\\' {
        seq!['\\', '\\']
    } else if c == '"' {
        seq!['\\', '"']
    } else if c == '\n' {
        seq!['\\', 'n']
    } else if c == '\r' {
        seq!['\\', 'r']
    } else if c == '\t' {
        seq!['\\', 't']
    } else {
        seq![c]
    }
}

/// The characters of `path`, each as it is written between quotes.
pub open spec fn escape(path: Seq<char>) -> Seq<char>
    decreases path.len(),
{
    if path.len() == 0 {
        Seq::empty()
    } else {
        escaped(path[0]) + escape(path.skip(1))
    }
}

/// `path` as it stands in a marker line of a bundle: escaped, between double
/// quotes.
pub open spec fn quote_path(path: Seq<char>) -> Seq<char> {
    seq!['"'] + escape(path) + seq!['"']
}

/// Escaping goes character by character.
pub proof fn lemma_escape_push(path: Seq<char>, c: char)
    ensures
        escape(path.push(c)) == escape(path) + escaped(c),
    decreases path.len(),
{
    if path.len() == 0 {
        let rest = path.push(c).skip(1);
        assert(rest.len() == 0);
        assert(escape(rest) == Seq::<char>::empty());
    } else {
        lemma_escape_push(path.skip(1), c);
        assert(path.push(c).skip(1) == path.skip(1).push(c));
    }
}

/// No two paths are escaped alike.
pub proof fn lemma_escape_injective(a: Seq<char>, b: Seq<char>)
    requires
        escape(a) == escape(b),
    ensures
        a == b,
    decreases a.len(),
{
    if a.len() == 0 {
        if b.len() > 0 {
            assert(escape(b).len() >= escaped(b[0]).len());
        }
    } else if b.len() == 0 {
        assert(escape(a).len() >= escaped(a[0]).len());
    } else {
        let ea = escaped(a[0]);
        let eb = escaped(b[0]);
        let ra = escape(a.skip(1));
        let rb = escape(b.skip(1));
        assert(escape(a) == ea + ra);
        assert(escape(b) == eb + rb);
        assert((ea + ra)[0] == ea[0]);
        assert((eb + rb)[0] == eb[0]);
        if ea.len() == 2 || eb.len() == 2 {
            assert(ea[0] == '\\' && eb[0] == '\\');
            assert((ea + ra)[1] == ea[1]);
            assert((eb + rb)[1] == eb[1]);
        }
        assert(a[0] == b[0]);
        assert(ra == (ea + ra).skip(ea.len() as int));
        assert(rb == (eb + rb).skip(eb.len() as int));
        lemma_escape_injective(a.skip(1), b.skip(1));
        assert(a == seq![a[0]] + a.skip(1));
        assert(b == seq![b[0]] + b.skip(1));
    }
}

/// The quoted form tells paths apart: no two paths are quoted alike.
pub proof fn law_quoted_paths_differ(a: Seq<char>, b: Seq<char>)
    requires
        quote_path(a) == quote_path(b),
    ensures
        a == b,
{
    let qa = quote_path(a);
    let qb = quote_path(b);
    assert(escape(a) == qa.subrange(1, qa.len() - 1));
    assert(escape(b) == qb.subrange(1, qb.len() - 1));
    lemma_escape_injective(a, b);
}

/// A quoted path stands in one line: it holds no line feed and does not end
/// in a carriage return.
pub proof fn lemma_quote_one_line(path: Seq<char>)
    ensures
        forall|j: int| 0 <= j < escape(path).len() ==> escape(path)[j] != '\n',
        forall|j: int| 0 <= j < quote_path(path).len() ==> quote_path(path)[j] != '\n',
        quote_path(path).last() == '"',
    decreases path.len(),
{
    if path.len() > 0 {
        lemma_quote_one_line(path.skip(1));
        let first = escaped(path[0]);
        let rest = escape(path.skip(1));
        assert forall|j: int| 0 <= j < escape(path).len() implies escape(path)[j] != '\n' by {
            if j >= first.len() {
                assert(escape(path)[j] == rest[j - first.len()]);
            } else {
                assert(escape(path)[j] == first[j]);
            }
        }
    }
    let quoted = quote_path(path);
    assert forall|j: int| 0 <= j < quoted.len() implies quoted[j] != '\n' by {
        if 0 < j < quoted.len() - 1 {
            assert(quoted[j] == escape(path)[j - 1]);
        }
    }
}

/// Writes `path` onto the directory `dir`, as a file in `dir` means it.
pub fn join_path(dir: &str, path: &str) -> (joined: String)
    ensures
        joined@ == joined_path(dir@, path@),
{
    let chars = to_chars(path);
    join_range(dir, &chars, 0, chars.len())
}

/// Writes the path `line[from..to]` onto the directory `dir`.
pub(crate) fn join_range(dir: &str, line: &Vec<char>, from: usize, to: usize) -> (joined: String)
    requires
        from <= to <= line.len(),
    ensures
        joined@ == joined_path(dir@, line@.subrange(from as int, to as int)),
{
    let mut joined = String::new();
    if !(from < to && line[from] == '/') {
        let mut last: char = '/';
        for c in it: dir.chars()
            invariant
                it.seq() == dir@,
                joined@ == dir@.take(it.index() as int),
                last == if it.index() == 0 {
                    '/'
                } else {
                    dir@[it.index() - 1]
                },
        {
            joined.push(c);
            last = c;
        }
        assert(joined@ == dir@);
        if last != '/' {
            joined.push('/');
        }
    }
    push_range(&mut joined, line, from, to);
    joined
}

/// Where the last component of `path[..end]` starts.
fn component_start_at(path: &Vec<char>, start: usize, end: usize) -> (from: usize)
    requires
        start <= end <= path.len(),
    ensures
        from == component_start(path@, start as int, end as int),
        start <= from <= end,
{
    let mut from: usize = end;
    while from > start && path[from - 1] != '/'
        invariant
            start <= from <= end <= path.len(),
            component_start(path@, start as int, end as int) == component_start(
                path@,
                start as int,
                from as int,
            ),
        decreases from,
    {
        from -= 1;
    }
    from
}

/// Where the component that ends at `end` begins, the `/` before it
/// included.
fn component_cut_at(path: &Vec<char>, start: usize, end: usize) -> (cut: usize)
    requires
        start <= end <= path.len(),
    ensures
        cut == component_cut(path@, start as int, end as int),
        start <= cut <= end,
        start < end ==> cut < end || component_start(path@, start as int, end as int) == start,
{
    let from = component_start_at(path, start, end);
    if from > start {
        from - 1
    } else {
        from
    }
}

/// The end of `path[..end]` without the empty and `.` components at its end.
fn trimmed_end_at(path: &Vec<char>, start: usize, end: usize) -> (trimmed: usize)
    requires
        start <= end <= path.len(),
    ensures
        trimmed == trimmed_end(path@, start as int, end as int),
        start <= trimmed <= end,
{
    let mut trimmed: usize = end;
    while trimmed > start
        invariant
            start <= trimmed <= end <= path.len(),
            trimmed_end(path@, start as int, end as int) == trimmed_end(
                path@,
                start as int,
                trimmed as int,
            ),
        decreases trimmed,
    {
        let from = component_start_at(path, start, trimmed);
        if from == trimmed || (from == trimmed - 1 && path[from] == '.') {
            trimmed = if from > start {
                from - 1
            } else {
                from
            };
        } else {
            return trimmed;
        }
    }
    trimmed
}

/// How long the parent of `path` is, or `None` where `path` has no parent.
pub(crate) fn parent_len(path: &Vec<char>) -> (len: Option<usize>)
    ensures
        match len {
            Some(n) => n <= path.len() && parent_of(path@) == Some(path@.take(n as int)),
            None => parent_of(path@) is None,
        },
{
    if path.len() == 0 {
        return None;
    }
    let absolute = path[0] == '/';
    let start: usize = if absolute || (path[0] == '.' && (path.len() == 1 || path[1] == '/')) {
        1
    } else {
        0
    };
    let end = trimmed_end_at(path, start, path.len());
    if end <= start {
        if !absolute && start == 1 {
            assert(path@.take(0) == Seq::<char>::empty());
            Some(0)
        } else {
            None
        }
    } else {
        let cut = component_cut_at(path, start, end);
        Some(trimmed_end_at(path, start, cut))
    }
}

/// Puts `path` at the end of `out`, escaped and between double quotes.
pub(crate) fn push_quoted(out: &mut String, path: &str)
    ensures
        final(out)@ == old(out)@ + quote_path(path@),
{
    out.push('"');
    let ghost start = out@;
    for c in it: path.chars()
        invariant
            it.seq() == path@,
            out@ == start + escape(path@.take(it.index() as int)),
    {
        proof {
            let done = path@.take(it.index() as int);
            lemma_escape_push(done, c);
            assert(path@.take(it.index() + 1) == done.push(c));
        }
        if c == '\\' {
            out.push('\\');
            out.push('\\');
        } else if c == '"' {
            out.push('\\');
            out.push('"');
        } else if c == '\n' {
            out.push('\\');
            out.push('n');
        } else if c == '\r' {
            out.push('\\');
            out.push('r');
        } else if c == '\t' {
            out.push('\\');
            out.push('t');
        } else {
            out.push(c);
        }
    }
    assert(path@.take(path@.len() as int) == path@);
    out.push('"');
}

/// `path` as it stands in the marker lines of a bundle: between double
/// quotes, with a backslash before each backslash and double quote in it,
/// and with `\n`, `\r` and `\t` for a line feed, a carriage return and a
/// tab. Every other character stands as it is: the form is this library's
/// own, and `law_quoted_paths_differ` shows that it tells paths apart.
pub fn quoted(path: &str) -> (text: String)
    ensures
        text@ == quote_path(path@),
{
    let mut text = String::new();
    push_quoted(&mut text, path);
    text
}

} // verus!
