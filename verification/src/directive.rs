//! The directive matcher: which lines ask for another file, and for which.
//!
//! A directive is a line that holds, after optional whitespace, the keyword
//! `source` or `.`, then whitespace, then a path that runs to the next
//! whitespace or to the end of the line. Nothing else is: the matcher knows
//! no quoting rules, no variables and no statements over several lines.
//!
//! As a regular expression the form is `^\s*(source|\.)\s+([^\s]+)`, with
//! the path in the second group and whitespace as Unicode defines it. A
//! pair of quotes around the path is taken off.

use crate::text::{
    blank_len, is_whitespace, is_whitespace_char, lemma_blank_len, lemma_blank_len_bound,
    push_range, skip_blank, to_chars,
};
use vstd::prelude::*;

verus! {

/// The number of characters at the start of `s` that are not whitespace.
pub open spec fn token_len(s: Seq<char>) -> nat
    decreases s.len(),
{
    if s.len() > 0 && !is_whitespace(s[0]) {
        1 + token_len(s.skip(1))
    } else {
        0
    }
}

/// The keyword `source`.
pub open spec fn source_keyword() -> Seq<char> {
    seq!['s', 'o', 'u', 'r', 'c', 'e']
}

/// The length of the keyword that `s` starts with: 6 for `source`, 1 for `.`,
/// 0 where it starts with neither.
pub open spec fn keyword_len(s: Seq<char>) -> nat {
    if source_keyword().is_prefix_of(s) {
        6
    } else if s.len() > 0 && s[0] == '.' {
        1
    } else {
        0
    }
}

/// The path token of a directive line as it is written, quotes included, or
/// `None` where `line` is no directive.
pub open spec fn raw_token(line: Seq<char>) -> Option<Seq<char>> {
    let start = blank_len(line) as int;
    let keyword = keyword_len(line.skip(start)) as int;
    let after = line.skip(start + keyword);
    let gap = blank_len(after) as int;
    let rest = after.skip(gap);
    if keyword == 0 || gap == 0 || rest.len() == 0 {
        None
    } else {
        Some(rest.take(token_len(rest) as int))
    }
}

/// `token` without the pair of double or single quotes around it, if it
/// stands in one.
pub open spec fn strip_quotes(token: Seq<char>) -> Seq<char> {
    if token.len() >= 2 && (token[0] == '"' || token[0] == '\'') && token.last() == token[0] {
        token.subrange(1, token.len() - 1)
    } else {
        token
    }
}

/// The path that `line` asks for, or `None` where `line` is no directive.
pub open spec fn directive_path(line: Seq<char>) -> Option<Seq<char>> {
    match raw_token(line) {
        Some(token) => Some(strip_quotes(token)),
        None => None,
    }
}

/// The first `n` characters of `s` are no whitespace and the next one, if
/// there is one, is: then `n` is the length of the token.
pub proof fn lemma_token_len(s: Seq<char>, n: int)
    requires
        0 <= n <= s.len(),
        forall|i: int| 0 <= i < n ==> !is_whitespace(s[i]),
        n == s.len() || is_whitespace(s[n]),
    ensures
        token_len(s) == n,
    decreases n,
{
    if n > 0 {
        lemma_token_len(s.skip(1), n - 1);
    }
}

/// Every line of the form that the matcher knows is a directive, and asks
/// for its token without the quotes around it: whitespace or none, `source`
/// or `.`, whitespace, a token without whitespace in it, and then nothing or
/// whitespace and anything.
pub proof fn law_directive_recognized(
    blank: Seq<char>,
    keyword: Seq<char>,
    gap: Seq<char>,
    token: Seq<char>,
    rest: Seq<char>,
)
    requires
        forall|i: int| 0 <= i < blank.len() ==> is_whitespace(blank[i]),
        keyword == source_keyword() || keyword == seq!['.'],
        gap.len() > 0,
        forall|i: int| 0 <= i < gap.len() ==> is_whitespace(gap[i]),
        token.len() > 0,
        forall|i: int| 0 <= i < token.len() ==> !is_whitespace(token[i]),
        rest.len() > 0 ==> is_whitespace(rest[0]),
    ensures
        directive_path(blank + keyword + gap + token + rest) == Some(strip_quotes(token)),
{
    let line = blank + keyword + gap + token + rest;
    let start = blank.len() as int;
    let from_keyword = keyword + gap + token + rest;
    let after = gap + token + rest;
    let from_token = token + rest;
    assert(line[start] == keyword[0]);
    lemma_blank_len(line, start);
    assert(line.skip(start) == from_keyword);
    if keyword == source_keyword() {
        assert(from_keyword.subrange(0, 6) == source_keyword());
    } else {
        assert(from_keyword[0] == '.');
        if source_keyword().is_prefix_of(from_keyword) {
            assert(from_keyword[0] == source_keyword()[0]);
        }
    }
    assert(keyword_len(from_keyword) == keyword.len());
    assert(line.skip(start + keyword.len()) == after);
    assert(after[gap.len() as int] == token[0]);
    lemma_blank_len(after, gap.len() as int);
    assert(after.skip(gap.len() as int) == from_token);
    if rest.len() > 0 {
        assert(from_token[token.len() as int] == rest[0]);
    }
    lemma_token_len(from_token, token.len() as int);
    assert(from_token.take(token.len() as int) == token);
}

/// A line is no directive unless the first character in it that is no
/// whitespace starts a keyword: comments, assignments and calls are none,
/// whatever follows in them.
pub proof fn law_keyword_comes_first(line: Seq<char>)
    requires
        blank_len(line) == line.len() || (line[blank_len(line) as int] != 's'
            && line[blank_len(line) as int] != '.'),
    ensures
        directive_path(line) is None,
{
    let rest = line.skip(blank_len(line) as int);
    lemma_blank_len_bound(line);
    if rest.len() > 0 {
        assert(rest[0] == line[blank_len(line) as int]);
        if source_keyword().is_prefix_of(rest) {
            assert(rest[0] == source_keyword()[0]);
        }
    } else if source_keyword().is_prefix_of(rest) {
        assert(source_keyword().len() == 6);
    }
}

/// A line that starts with `#` is no directive.
pub proof fn lemma_comment_is_no_directive(line: Seq<char>)
    requires
        line.len() > 0,
        line[0] == '#',
    ensures
        directive_path(line) is None,
{
    law_keyword_comes_first(line);
}

/// The end of the run of characters other than whitespace that starts at
/// `from`.
fn skip_token(line: &Vec<char>, from: usize) -> (end: usize)
    requires
        from <= line.len(),
    ensures
        from <= end <= line.len(),
        end == from + token_len(line@.skip(from as int)),
{
    let mut end: usize = from;
    while end < line.len() && !is_whitespace_char(line[end])
        invariant
            from <= end <= line.len(),
            forall|i: int| from <= i < end ==> !is_whitespace(line@[i]),
        decreases line.len() - end,
    {
        end += 1;
    }
    proof {
        lemma_token_len(line@.skip(from as int), end - from);
    }
    end
}

/// The length of the keyword that stands at `from`.
pub(crate) fn keyword_at(line: &Vec<char>, from: usize) -> (len: usize)
    requires
        from <= line.len(),
    ensures
        len == keyword_len(line@.skip(from as int)),
        from + len <= line.len(),
{
    let ghost rest = line@.skip(from as int);
    if line.len() - from >= 6 && line[from] == 's' && line[from + 1] == 'o' && line[from + 2] == 'u'
        && line[from + 3] == 'r' && line[from + 4] == 'c' && line[from + 5] == 'e' {
        assert(rest.subrange(0, 6) =~= source_keyword());
        6
    } else if from < line.len() && line[from] == '.' {
        proof {
            if source_keyword().is_prefix_of(rest) {
                assert(rest.subrange(0, 6)[0] == source_keyword()[0]);
            }
        }
        1
    } else {
        proof {
            if source_keyword().is_prefix_of(rest) {
                let head = rest.subrange(0, 6);
                assert(head[0] == 's' && head[1] == 'o' && head[2] == 'u' && head[3] == 'r'
                    && head[4] == 'c' && head[5] == 'e');
            }
        }
        0
    }
}

/// Where in `line` the path of its directive stands, without its quotes.
pub(crate) fn directive_span(line: &Vec<char>) -> (span: Option<(usize, usize)>)
    ensures
        match span {
            Some((from, to)) => from <= to <= line.len() && directive_path(line@) == Some(
                line@.subrange(from as int, to as int),
            ),
            None => directive_path(line@) is None,
        },
{
    let start = skip_blank(line, 0);
    assert(line@.skip(0) == line@);
    let keyword = keyword_at(line, start);
    if keyword == 0 {
        return None;
    }
    let after = start + keyword;
    let from = skip_blank(line, after);
    if from == after || from == line.len() {
        return None;
    }
    let to = skip_token(line, from);
    proof {
        let rest = line@.skip(after as int).skip(from - after);
        assert(rest == line@.skip(from as int));
        assert(rest.take(to - from) == line@.subrange(from as int, to as int));
    }
    let first = line[from];
    if to - from >= 2 && (first == '"' || first == '\'') && line[to - 1] == first {
        proof {
            let token = line@.subrange(from as int, to as int);
            assert(token.subrange(1, token.len() - 1) == line@.subrange(from + 1, to - 1));
        }
        Some((from + 1, to - 1))
    } else {
        Some((from, to))
    }
}

/// Tells whether `line` is a directive and, if so, for which path it asks.
///
/// The path comes back as written in the line, without the quotes around it:
/// it is not resolved against any directory.
pub fn match_directive(line: &str) -> (found: Option<String>)
    ensures
        match found {
            Some(path) => directive_path(line@) == Some(path@),
            None => directive_path(line@) is None,
        },
{
    let chars = to_chars(line);
    match directive_span(&chars) {
        Some((from, to)) => {
            let mut path = String::new();
            push_range(&mut path, &chars, from, to);
            Some(path)
        },
        None => None,
    }
}

} // verus!
