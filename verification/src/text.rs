//! Text as sequences of characters: the whitespace class, trimming, and the
//! division of a script into lines.

use vstd::prelude::*;

verus! {

/// The characters that carry Unicode's `White_Space` property.
pub open spec fn is_whitespace(c: char) -> bool {
    ||| ('\u{9}' <= c && c <= '\u{d}')
    ||| c == ' '
    ||| c == '\u{85}'
    ||| c == '\u{a0}'
    ||| c == '\u{1680}'
    ||| ('\u{2000}' <= c && c <= '\u{200a}')
    ||| c == '\u{2028}'
    ||| c == '\u{2029}'
    ||| c == '\u{202f}'
    ||| c == '\u{205f}'
    ||| c == '\u{3000}'
}

/// The number of characters at the start of `s` that are whitespace.
pub open spec fn blank_len(s: Seq<char>) -> nat
    decreases s.len(),
{
    if s.len() > 0 && is_whitespace(s[0]) {
        1 + blank_len(s.skip(1))
    } else {
        0
    }
}

/// The number of characters at the end of `s` that are whitespace.
pub open spec fn blank_tail_len(s: Seq<char>) -> nat
    decreases s.len(),
{
    if s.len() > 0 && is_whitespace(s.last()) {
        1 + blank_tail_len(s.drop_last())
    } else {
        0
    }
}

/// `s` without its leading whitespace.
pub open spec fn trim_start(s: Seq<char>) -> Seq<char> {
    s.skip(blank_len(s) as int)
}

/// `s` without its trailing whitespace.
pub open spec fn trim_end(s: Seq<char>) -> Seq<char> {
    s.take(s.len() - blank_tail_len(s))
}

/// `s` without leading and trailing whitespace.
pub open spec fn trim(s: Seq<char>) -> Seq<char> {
    trim_end(trim_start(s))
}

/// The number of characters of `text` that stand before its first line feed:
/// all of them where it has none.
pub open spec fn line_len(text: Seq<char>) -> nat
    decreases text.len(),
{
    if text.len() == 0 || text[0] == '\n' {
        0
    } else {
        1 + line_len(text.skip(1))
    }
}

/// `line` without the carriage return that ends it, if one does.
pub open spec fn strip_cr(line: Seq<char>) -> Seq<char> {
    if line.len() > 0 && line.last() == '\r' {
        line.drop_last()
    } else {
        line
    }
}

/// The lines of `text`. A line feed ends a line and belongs to none, and so
/// does a carriage return that stands right before it. What follows the last
/// line feed is a line of its own unless it is empty, and keeps a carriage
/// return at its end.
pub open spec fn split_lines(text: Seq<char>) -> Seq<Seq<char>>
    decreases text.len(),
{
    if text.len() == 0 {
        Seq::empty()
    } else {
        let n = line_len(text) as int;
        if n >= text.len() {
            seq![text]
        } else {
            seq![strip_cr(text.take(n))] + split_lines(text.skip(n + 1))
        }
    }
}

/// The text made of `lines`, each followed by a line feed.
pub open spec fn unlines(lines: Seq<Seq<char>>) -> Seq<char>
    decreases lines.len(),
{
    if lines.len() == 0 {
        Seq::empty()
    } else {
        lines[0] + seq!['\n'] + unlines(lines.skip(1))
    }
}

/// What `lines` hold, line by line.
pub open spec fn line_views(lines: Seq<Vec<char>>) -> Seq<Seq<char>> {
    Seq::new(lines.len(), |i: int| lines[i]@)
}

/// A position `n` before which `text` has no line feed, and which is the end
/// of `text` or holds one, is the length of the first line.
pub proof fn lemma_line_len(text: Seq<char>, n: int)
    requires
        0 <= n <= text.len(),
        forall|i: int| 0 <= i < n ==> text[i] != '\n',
        n == text.len() || text[n] == '\n',
    ensures
        line_len(text) == n,
    decreases n,
{
    if n > 0 {
        lemma_line_len(text.skip(1), n - 1);
    }
}

/// The first line ends within the text, and holds no line feed.
pub proof fn lemma_line_len_bounds(text: Seq<char>)
    ensures
        line_len(text) <= text.len(),
        forall|i: int| 0 <= i < line_len(text) ==> text[i] != '\n',
        line_len(text) < text.len() ==> text[line_len(text) as int] == '\n',
    decreases text.len(),
{
    if text.len() == 0 || text[0] == '\n' {
    } else {
        let rest = text.skip(1);
        lemma_line_len_bounds(rest);
        assert forall|i: int| 0 <= i < line_len(text) implies text[i] != '\n' by {
            if i > 0 {
                assert(text[i] == rest[i - 1]);
            }
        }
        if line_len(text) < text.len() {
            assert(text[line_len(text) as int] == rest[line_len(rest) as int]);
        }
    }
}

/// The first `n` characters of `s` are whitespace and the next one, if
/// there is one, is not: then `n` is the length of the blank start.
pub proof fn lemma_blank_len(s: Seq<char>, n: int)
    requires
        0 <= n <= s.len(),
        forall|i: int| 0 <= i < n ==> is_whitespace(s[i]),
        n == s.len() || !is_whitespace(s[n]),
    ensures
        blank_len(s) == n,
    decreases n,
{
    if n > 0 {
        lemma_blank_len(s.skip(1), n - 1);
    }
}

/// The blank start of `s` ends within `s`.
pub proof fn lemma_blank_len_bound(s: Seq<char>)
    ensures
        blank_len(s) <= s.len(),
    decreases s.len(),
{
    if s.len() > 0 && is_whitespace(s[0]) {
        lemma_blank_len_bound(s.skip(1));
    }
}

/// The last `n` characters of `s` are whitespace and the one before them,
/// if there is one, is not: then `n` is the length of the blank end.
pub proof fn lemma_blank_tail_len(s: Seq<char>, n: int)
    requires
        0 <= n <= s.len(),
        forall|i: int| s.len() - n <= i < s.len() ==> is_whitespace(s[i]),
        n == s.len() || !is_whitespace(s[s.len() - n - 1]),
    ensures
        blank_tail_len(s) == n,
    decreases n,
{
    if n > 0 {
        lemma_blank_tail_len(s.drop_last(), n - 1);
    }
}

/// Whether `text` is made of whole lines that end in a line feed alone:
/// it is empty or ends in a line feed, and no carriage return stands right
/// before a line feed.
pub open spec fn is_normal(text: Seq<char>) -> bool {
    &&& text.len() == 0 || text.last() == '\n'
    &&& forall|i: int| 0 < i < text.len() && (#[trigger] text[i]) == '\n' ==> text[i - 1] != '\r'
}

/// Whether `line` can stand in a text as a line and be read back as it is:
/// it holds no line feed and does not end in a carriage return.
pub open spec fn is_clean_line(line: Seq<char>) -> bool {
    &&& forall|j: int| 0 <= j < line.len() ==> line[j] != '\n'
    &&& line.len() > 0 ==> line.last() != '\r'
}

/// No line of a text holds a line feed.
pub proof fn lemma_lines_hold_no_line_feed(text: Seq<char>)
    ensures
        forall|i: int, j: int|
            0 <= i < split_lines(text).len() && 0 <= j < split_lines(text)[i].len()
                ==> split_lines(text)[i][j] != '\n',
    decreases text.len(),
{
    if text.len() > 0 {
        let n = line_len(text) as int;
        lemma_line_len_bounds(text);
        if n < text.len() {
            let first = strip_cr(text.take(n));
            let rest = split_lines(text.skip(n + 1));
            lemma_lines_hold_no_line_feed(text.skip(n + 1));
            let lines = split_lines(text);
            assert forall|i: int, j: int|
                0 <= i < lines.len() && 0 <= j < lines[i].len() implies lines[i][j] != '\n' by {
                if i == 0 {
                    assert(lines[0] == first);
                    assert(first[j] == text[j]);
                } else {
                    assert(lines[i] == rest[i - 1]);
                }
            }
        }
    }
}

/// Lines that are written out and read back are the same lines, as far as
/// none of them holds a line feed or ends in a carriage return.
pub proof fn lemma_split_unlines(lines: Seq<Seq<char>>)
    requires
        forall|i: int| 0 <= i < lines.len() ==> is_clean_line(#[trigger] lines[i]),
    ensures
        split_lines(unlines(lines)) == lines,
    decreases lines.len(),
{
    if lines.len() > 0 {
        let first = lines[0];
        let rest = lines.skip(1);
        let text = unlines(lines);
        let n = first.len() as int;
        assert(is_clean_line(first));
        assert(text == first + seq!['\n'] + unlines(rest));
        assert forall|i: int| 0 <= i < rest.len() implies is_clean_line(#[trigger] rest[i]) by {
            assert(rest[i] == lines[i + 1]);
        }
        lemma_split_unlines(rest);
        assert(text[n] == '\n');
        assert forall|j: int| 0 <= j < n implies text[j] != '\n' by {
            assert(text[j] == first[j]);
        }
        lemma_line_len(text, n);
        assert(text.take(n) == first);
        assert(text.skip(n + 1) == unlines(rest));
        assert(seq![first] + rest == lines);
    }
}

/// Writing out lines one after the other is writing out the first ones and
/// then the others.
pub proof fn lemma_unlines_add(first: Seq<Seq<char>>, others: Seq<Seq<char>>)
    ensures
        unlines(first + others) == unlines(first) + unlines(others),
    decreases first.len(),
{
    if first.len() == 0 {
        assert(first + others == others);
        assert(unlines(first) + unlines(others) == unlines(others));
    } else {
        lemma_unlines_add(first.skip(1), others);
        assert((first + others).skip(1) == first.skip(1) + others);
        assert((first + others)[0] == first[0]);
        assert(first[0] + seq!['\n'] + (unlines(first.skip(1)) + unlines(others)) == first[0]
            + seq!['\n'] + unlines(first.skip(1)) + unlines(others));
    }
}

/// One line, written out, is the line and a line feed.
pub proof fn lemma_unlines_one(line: Seq<char>)
    ensures
        unlines(seq![line]) == line + seq!['\n'],
{
    let one = seq![line];
    assert(one.skip(1).len() == 0);
    assert(unlines(one.skip(1)) == Seq::<char>::empty());
    assert(unlines(one) == one[0] + seq!['\n'] + unlines(one.skip(1)));
    assert(line + seq!['\n'] + Seq::<char>::empty() == line + seq!['\n']);
}

/// A text comes back unchanged when its lines are written out again if it
/// is made of whole lines that end in a line feed alone, and only then.
pub proof fn lemma_unlines_split(text: Seq<char>)
    ensures
        unlines(split_lines(text)) == text <==> is_normal(text),
    decreases text.len(),
{
    if text.len() == 0 {
        assert(unlines(split_lines(text)) == text);
    } else {
        let n = line_len(text) as int;
        lemma_line_len_bounds(text);
        if n >= text.len() {
            let lines = split_lines(text);
            assert(lines == seq![text]);
            assert(lines.skip(1).len() == 0);
            assert(unlines(lines) == text + seq!['\n'] + unlines(lines.skip(1)));
            assert(unlines(lines).len() > text.len());
            assert(text.last() != '\n');
        } else {
            let head = text.take(n);
            let rest = text.skip(n + 1);
            let lines = split_lines(text);
            let written = unlines(split_lines(rest));
            lemma_unlines_split(rest);
            assert(lines[0] == strip_cr(head));
            assert(lines.skip(1) == split_lines(rest));
            let out = unlines(lines);
            assert(out == strip_cr(head) + seq!['\n'] + written);
            assert(text == head + seq!['\n'] + rest);
            if n > 0 {
                assert(head.last() == text[n - 1]);
            }
            if is_normal(text) {
                assert(strip_cr(head) == head);
                assert(is_normal(rest)) by {
                    if rest.len() > 0 {
                        assert(rest.last() == text.last());
                    }
                    assert forall|i: int| 0 < i < rest.len() && (#[trigger] rest[i])
                        == '\n' implies rest[i - 1] != '\r' by {
                        assert(rest[i] == text[n + 1 + i]);
                        assert(rest[i - 1] == text[n + i]);
                    }
                }
                assert(out == text);
            }
            if out == text {
                if strip_cr(head) != head {
                    assert(out[n - 1] == '\n');
                    assert(text[n - 1] == '\r');
                }
                assert(strip_cr(head) == head);
                assert(out.skip(n + 1) == written);
                assert(written == rest);
                assert(is_normal(text)) by {
                    if rest.len() > 0 {
                        assert(rest.last() == text.last());
                    }
                    assert forall|i: int| 0 < i < text.len() && (#[trigger] text[i])
                        == '\n' implies text[i - 1] != '\r' by {
                        if i > n + 1 {
                            assert(rest[i - n - 1] == text[i]);
                            assert(rest[i - n - 2] == text[i - 1]);
                        }
                    }
                }
            }
        }
    }
}

/// Tells whether `c` is whitespace.
pub fn is_whitespace_char(c: char) -> (b: bool)
    ensures
        b == is_whitespace(c),
{
    ('\u{9}' <= c && c <= '\u{d}') || c == ' ' || c == '\u{85}' || c == '\u{a0}' || c == '\u{1680}'
        || ('\u{2000}' <= c && c <= '\u{200a}') || c == '\u{2028}' || c == '\u{2029}' || c
        == '\u{202f}' || c == '\u{205f}' || c == '\u{3000}'
}

/// The characters of `s`, one by one.
pub(crate) fn to_chars(s: &str) -> (chars: Vec<char>)
    ensures
        chars@ == s@,
{
    let mut chars: Vec<char> = Vec::new();
    for c in it: s.chars()
        invariant
            it.seq() == s@,
            chars@ == s@.take(it.index() as int),
    {
        chars.push(c);
    }
    chars
}

/// `push` puts one character at the end of a `String` and leaves the rest as
/// it was.
pub assume_specification[ String::push ](s: &mut String, c: char)
    ensures
        final(s)@ == old(s)@.push(c),
;

/// Puts the characters of `chars[from..to]` at the end of `out`.
pub(crate) fn push_range(out: &mut String, chars: &Vec<char>, from: usize, to: usize)
    requires
        from <= to <= chars.len(),
    ensures
        final(out)@ == old(out)@ + chars@.subrange(from as int, to as int),
{
    let mut i: usize = from;
    while i < to
        invariant
            from <= i <= to <= chars.len(),
            out@ == old(out)@ + chars@.subrange(from as int, i as int),
        decreases to - i,
    {
        out.push(chars[i]);
        i += 1;
    }
}

/// Puts `s` at the end of `out`.
pub(crate) fn push_text(out: &mut String, s: &str)
    ensures
        final(out)@ == old(out)@ + s@,
{
    for c in it: s.chars()
        invariant
            it.seq() == s@,
            out@ == old(out)@ + s@.take(it.index() as int),
    {
        out.push(c);
    }
}

/// A copy of `chars[from..to]`.
fn copy_range(chars: &Vec<char>, from: usize, to: usize) -> (part: Vec<char>)
    requires
        from <= to <= chars.len(),
    ensures
        part@ == chars@.subrange(from as int, to as int),
{
    let mut part: Vec<char> = Vec::new();
    let mut i: usize = from;
    while i < to
        invariant
            from <= i <= to <= chars.len(),
            part@ == chars@.subrange(from as int, i as int),
        decreases to - i,
    {
        part.push(chars[i]);
        i += 1;
    }
    part
}

/// The end of the run of whitespace that starts at `from`.
pub(crate) fn skip_blank(line: &Vec<char>, from: usize) -> (end: usize)
    requires
        from <= line.len(),
    ensures
        from <= end <= line.len(),
        end == from + blank_len(line@.skip(from as int)),
{
    let mut end: usize = from;
    while end < line.len() && is_whitespace_char(line[end])
        invariant
            from <= end <= line.len(),
            forall|i: int| from <= i < end ==> is_whitespace(line@[i]),
        decreases line.len() - end,
    {
        end += 1;
    }
    proof {
        lemma_blank_len(line@.skip(from as int), end - from);
    }
    end
}

/// Where `line` starts and ends once the whitespace around it is taken off.
pub(crate) fn trim_span(line: &Vec<char>) -> (span: (usize, usize))
    ensures
        span.0 <= span.1 <= line.len(),
        span.0 == blank_len(line@),
        trim_start(line@) == line@.skip(span.0 as int),
        trim(line@) == line@.subrange(span.0 as int, span.1 as int),
{
    let from = skip_blank(line, 0);
    assert(line@.skip(0) == line@);
    let mut to: usize = line.len();
    while to > from && is_whitespace_char(line[to - 1])
        invariant
            from <= to <= line.len(),
            forall|i: int| to <= i < line.len() ==> is_whitespace(line@[i]),
        decreases to,
    {
        to -= 1;
    }
    proof {
        let rest = line@.skip(from as int);
        let blank = line.len() - to;
        assert forall|i: int| rest.len() - blank <= i < rest.len() implies is_whitespace(
            rest[i],
        ) by {
            assert(rest[i] == line@[from + i]);
        }
        if to > from {
            assert(rest[to - from - 1] == line@[to - 1]);
        }
        lemma_blank_tail_len(rest, line.len() - to);
        assert(rest.take(rest.len() - (line.len() - to)) == line@.subrange(from as int, to as int));
    }
    (from, to)
}

/// Divides `text` into its lines.
pub(crate) fn lines_of(text: &Vec<char>) -> (lines: Vec<Vec<char>>)
    ensures
        line_views(lines@) == split_lines(text@),
{
    let mut lines: Vec<Vec<char>> = Vec::new();
    let mut pos: usize = 0;
    proof {
        assert(text@.skip(0) == text@);
        assert(line_views(lines@) == Seq::<Seq<char>>::empty());
    }
    while pos < text.len()
        invariant
            pos <= text.len(),
            line_views(lines@) + split_lines(text@.skip(pos as int)) == split_lines(text@),
        decreases text.len() - pos,
    {
        let ghost rest = text@.skip(pos as int);
        let ghost before = line_views(lines@);
        let mut end: usize = pos;
        while end < text.len() && text[end] != '\n'
            invariant
                pos <= end <= text.len(),
                forall|i: int| pos <= i < end ==> text@[i] != '\n',
            decreases text.len() - end,
        {
            end += 1;
        }
        proof {
            assert forall|i: int| 0 <= i < end - pos implies rest[i] != '\n' by {
                assert(rest[i] == text@[pos + i]);
            }
            lemma_line_len(rest, end - pos);
        }
        if end == text.len() {
            let line = copy_range(text, pos, end);
            assert(line@ == rest);
            lines.push(line);
            pos = end;
            proof {
                assert(line_views(lines@) == before + seq![rest]);
                assert(split_lines(text@.skip(pos as int)) == Seq::<Seq<char>>::empty());
            }
        } else {
            let stop: usize = if end > pos && text[end - 1] == '\r' {
                end - 1
            } else {
                end
            };
            let line = copy_range(text, pos, stop);
            proof {
                let body = rest.take(end - pos);
                assert(body == text@.subrange(pos as int, end as int));
                if end > pos {
                    assert(body.last() == text@[end - 1]);
                }
                assert(line@ == strip_cr(body));
                assert(rest.skip(end - pos + 1) == text@.skip(end + 1));
            }
            lines.push(line);
            pos = end + 1;
            proof {
                assert(line_views(lines@) == before + seq![line@]);
            }
        }
    }
    proof {
        assert(split_lines(text@.skip(pos as int)) == Seq::<Seq<char>>::empty());
    }
    lines
}

} // verus!
