//! What a resolution run fails with, and how a failure reads.

use crate::path::{push_quoted, quote_path};
use crate::text::push_text;
use vstd::prelude::*;

verus! {

/// The kinds of failure.
#[derive(Clone, Copy, Debug, PartialEq, Eq, Structural)]
pub enum ErrorKind {
    /// The entry script cannot be found, or a script cannot be read as text.
    FileRead,
    /// The path that a directive asks for leads to no file.
    PathResolution,
    /// The script has no parent directory to resolve its directives against.
    NoParent,
}

/// A place where one file asks for another: a line of a file.
#[derive(Clone, Debug, PartialEq, Eq)]
pub struct IncludeSite {
    /// The canonical path of the file that holds the directive.
    pub file: String,
    /// The number of the directive's line in that file, counted from 1.
    pub line: usize,
}

/// The failure of a run. No bundle comes with it.
#[derive(Clone, Debug, PartialEq, Eq)]
pub struct ResolveError {
    pub kind: ErrorKind,
    /// The path that could not be resolved or read.
    pub path: String,
    /// The directives that led from the entry script to the failure, the
    /// entry script's first. The last one is the directive that asked for
    /// `path`; the trace is empty where the entry script itself failed.
    pub trace: Vec<IncludeSite>,
}

/// An `IncludeSite` as a mathematical value.
pub struct SiteView {
    pub file: Seq<char>,
    pub line: nat,
}

/// A `ResolveError` as a mathematical value.
pub struct ErrorView {
    pub kind: ErrorKind,
    pub path: Seq<char>,
    pub trace: Seq<SiteView>,
}

impl View for IncludeSite {
    type V = SiteView;

    open spec fn view(&self) -> SiteView {
        SiteView { file: self.file@, line: self.line as nat }
    }
}

/// What `trace` holds, site by site.
pub open spec fn site_views(trace: Seq<IncludeSite>) -> Seq<SiteView> {
    Seq::new(trace.len(), |i: int| trace[i]@)
}

impl View for ResolveError {
    type V = ErrorView;

    open spec fn view(&self) -> ErrorView {
        ErrorView { kind: self.kind, path: self.path@, trace: site_views(self.trace@) }
    }
}

impl ErrorView {
    /// The same failure, seen from the directives `outer` that led to it.
    pub open spec fn within(self, outer: Seq<SiteView>) -> ErrorView {
        ErrorView { kind: self.kind, path: self.path, trace: outer + self.trace }
    }
}

/// The digit for `d`, which is below 10.
pub open spec fn digit_char(d: nat) -> char {
    if d == 0 {
        '0'
    } else if d == 1 {
        '1'
    } else if d == 2 {
        '2'
    } else if d == 3 {
        '3'
    } else if d == 4 {
        '4'
    } else if d == 5 {
        '5'
    } else if d == 6 {
        '6'
    } else if d == 7 {
        '7'
    } else if d == 8 {
        '8'
    } else {
        '9'
    }
}

/// `n` in decimal digits, with no zero in front.
pub open spec fn decimal(n: nat) -> Seq<char>
    decreases n,
{
    if n < 10 {
        seq![digit_char(n)]
    } else {
        decimal(n / 10).push(digit_char(n % 10))
    }
}

impl SiteView {
    /// How the site reads in a message: the file, quoted, and the line.
    pub open spec fn message(self) -> Seq<char> {
        "Failed to inline script: "@ + quote_path(self.file) + " (line "@ + decimal(self.line)
            + seq![')']
    }
}

/// How `trace` reads in a message: one line for each site.
pub open spec fn trace_message(trace: Seq<SiteView>) -> Seq<char>
    decreases trace.len(),
{
    if trace.len() == 0 {
        Seq::empty()
    } else {
        trace_message(trace.drop_last()) + trace.last().message() + seq!['\n']
    }
}

impl ErrorView {
    /// How the failure itself reads, without the way that led to it.
    pub open spec fn cause_message(self) -> Seq<char> {
        match self.kind {
            ErrorKind::FileRead => "Failed to read script: "@ + quote_path(self.path),
            ErrorKind::PathResolution => "Failed to resolve path: "@ + quote_path(self.path),
            ErrorKind::NoParent => "File has no parent directory: "@ + quote_path(self.path),
        }
    }

    /// How the failure reads: the directives that led to it, one in a line
    /// and the entry script's first, and then the path that could not be
    /// resolved or read.
    pub open spec fn message(self) -> Seq<char> {
        trace_message(self.trace) + self.cause_message()
    }
}

/// The digit for `d`.
fn digit_of(d: usize) -> (c: char)
    requires
        d < 10,
    ensures
        c == digit_char(d as nat),
{
    if d == 0 {
        '0'
    } else if d == 1 {
        '1'
    } else if d == 2 {
        '2'
    } else if d == 3 {
        '3'
    } else if d == 4 {
        '4'
    } else if d == 5 {
        '5'
    } else if d == 6 {
        '6'
    } else if d == 7 {
        '7'
    } else if d == 8 {
        '8'
    } else {
        '9'
    }
}

/// Puts `n` at the end of `out`, in decimal digits.
fn push_decimal(out: &mut String, n: usize)
    ensures
        final(out)@ == old(out)@ + decimal(n as nat),
    decreases n,
{
    if n >= 10 {
        push_decimal(out, n / 10);
    }
    out.push(digit_of(n % 10));
    proof {
        if n >= 10 {
            assert(old(out)@ + decimal((n / 10) as nat).push(digit_char((n % 10) as nat)) == (
            old(out)@ + decimal((n / 10) as nat)).push(digit_char((n % 10) as nat)));
        } else {
            assert(old(out)@ + seq![digit_char(n as nat)] == old(out)@.push(
                digit_char(n as nat),
            ));
        }
    }
}

impl IncludeSite {
    /// Puts the site at the end of `out`, as it reads in a message.
    fn push_message(&self, out: &mut String)
        ensures
            final(out)@ == old(out)@ + self@.message(),
    {
        push_text(out, "Failed to inline script: ");
        push_quoted(out, self.file.as_str());
        push_text(out, " (line ");
        push_decimal(out, self.line);
        out.push(')');
        assert(out@ == old(out)@ + self@.message());
    }
}

impl ResolveError {
    /// The failure in words: the directives that led to it, one in a line
    /// and the entry script's first, each with its file and its line, and
    /// then the path that could not be resolved or read.
    pub fn message(&self) -> (text: String)
        ensures
            text@ == self@.message(),
    {
        let mut text = String::new();
        let mut i: usize = 0;
        let ghost trace = site_views(self.trace@);
        assert(trace.take(0) == Seq::<SiteView>::empty());
        while i < self.trace.len()
            invariant
                i <= self.trace.len(),
                trace == site_views(self.trace@),
                text@ == trace_message(trace.take(i as int)),
            decreases self.trace.len() - i,
        {
            let ghost before = text@;
            self.trace[i].push_message(&mut text);
            text.push('\n');
            proof {
                let seen = trace.take(i + 1);
                assert(seen.drop_last() == trace.take(i as int));
                assert(seen.last() == self.trace@[i as int]@);
                assert(text@ == before + self.trace@[i as int]@.message() + seq!['\n']);
            }
            i += 1;
        }
        assert(trace.take(self.trace.len() as int) == trace);
        match self.kind {
            ErrorKind::FileRead => {
                push_text(&mut text, "Failed to read script: ");
            },
            ErrorKind::PathResolution => {
                push_text(&mut text, "Failed to resolve path: ");
            },
            ErrorKind::NoParent => {
                push_text(&mut text, "File has no parent directory: ");
            },
        }
        push_quoted(&mut text, self.path.as_str());
        assert(text@ == self@.message());
        text
    }
}

} // verus!
