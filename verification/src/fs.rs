//! What the bundler needs of the file system and can decide without
//! touching it: the text that the bytes of a file spell, and the directory
//! of a file.

use crate::error::{ErrorKind, ErrorView, ResolveError, SiteView};
use crate::path::{parent_len, parent_of};
use crate::text::{push_range, to_chars};
use vstd::prelude::*;
use vstd::utf8::{decode_utf8, valid_utf8};

verus! {

/// The error of `String::from_utf8`. Nothing is said of what it holds.
#[verifier::external_type_specification]
#[verifier::external_body]
pub struct ExFromUtf8Error(std::string::FromUtf8Error);

/// `String::from_utf8` succeeds on the byte sequences that are valid UTF-8
/// and on no others, and the `String` it gives holds the characters that the
/// bytes encode.
pub assume_specification[ String::from_utf8 ](bytes: Vec<u8>) -> (text: Result<
    String,
    std::string::FromUtf8Error,
>)
    ensures
        text is Ok <==> valid_utf8(bytes@),
        text matches Ok(s) ==> s@ == decode_utf8(bytes@),
;

/// The text of a file, given what reading it brought: the characters that
/// the bytes encode in UTF-8, or `None` where nothing could be read or the
/// bytes are no UTF-8.
pub open spec fn decoded(raw: Option<Vec<u8>>) -> Option<Seq<char>> {
    match raw {
        Some(bytes) => if valid_utf8(bytes@) {
            Some(decode_utf8(bytes@))
        } else {
            None
        },
        None => None,
    }
}

/// Turns what reading the file at `path` brought into its text.
///
/// `raw` holds the bytes of the file, or `None` where it could not be
/// opened or read. The text is returned where there are bytes and they are
/// valid UTF-8. Otherwise the failure names `path`, with an empty trace.
pub fn read_file_to_string(path: &str, raw: Option<Vec<u8>>) -> (text: Result<String, ResolveError>)
    ensures
        match text {
            Ok(s) => decoded(raw) == Some(s@),
            Err(e) => decoded(raw) is None && e@ == (ErrorView {
                kind: ErrorKind::FileRead,
                path: path@,
                trace: Seq::empty(),
            }),
        },
{
    let decoded = match raw {
        Some(bytes) => String::from_utf8(bytes),
        None => {
            let failure = ResolveError {
                kind: ErrorKind::FileRead,
                path: path.to_owned(),
                trace: Vec::new(),
            };
            assert(failure@.trace == Seq::<SiteView>::empty());
            return Err(failure);
        },
    };
    match decoded {
        Ok(s) => Ok(s),
        Err(_) => {
            let failure = ResolveError {
                kind: ErrorKind::FileRead,
                path: path.to_owned(),
                trace: Vec::new(),
            };
            assert(failure@.trace == Seq::<SiteView>::empty());
            Err(failure)
        },
    }
}

/// The failure of `get_parent_path`: the path has no parent directory.
#[derive(Clone, Copy, Debug, PartialEq, Eq)]
pub struct NoParent;

/// The directory that holds `path`: `path` without its last component.
///
/// It fails on the paths that have no last component to take off, which
/// are the empty path and the root.
pub fn get_parent_path(path: &str) -> (parent: Result<String, NoParent>)
    ensures
        match parent {
            Ok(dir) => parent_of(path@) == Some(dir@),
            Err(_) => parent_of(path@) is None,
        },
{
    let chars = to_chars(path);
    match parent_len(&chars) {
        Some(n) => {
            let mut dir = String::new();
            push_range(&mut dir, &chars, 0, n);
            Ok(dir)
        },
        None => Err(NoParent),
    }
}

} // verus!
