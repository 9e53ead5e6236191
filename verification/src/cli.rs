//! The options of a bundling run.

use vstd::prelude::*;

verus! {

/// What the command line asks for.
#[derive(Clone, Debug, PartialEq, Eq)]
pub struct Cli {
    /// The path of the entry script.
    pub entrypoint: String,
    /// The file that the bundle goes to. Without one it goes to the
    /// standard output.
    pub output: Option<String>,
    /// Take out comments and blank lines.
    pub minify: bool,
    /// Inline nothing: the bundle is the entry script as it is.
    pub no_inline: bool,
    /// Say what is being done.
    pub verbose: bool,
}

} // verus!
