//! A bundler for shell scripts: it follows the `source` and `.` lines of an
//! entry script and puts the files they name in their place, so that one
//! self-contained script comes out.
//!
//! The library decides and the caller reads. A run starts with
//! `resolver::resolve_script`, which returns a `resolver::Step`. A step
//! either asks for something, the canonical path behind a path or the bytes
//! of a file, or holds the end of the run: the bundle, or the failure. The
//! caller answers each request with `resolver::resolve_script_recursive` or
//! `resolver::inline_script_content` and gets the next step.
//! `bundler::bundle_script` then decides what goes to the output.
//!
//! - `text`: whitespace, trimming, lines.
//! - `directive`: which lines ask for a file.
//! - `path`: joining, parents and the quoted form of paths.
//! - `fs`: the text of a file from its bytes, and the directory of a file.
//! - `error`: the failures of a run.
//! - `resolver`: the run, step by step.
//! - `cli`, `bundler`: the options of a run and its last step.
//! - `splice`: the plain form of inlining, one level deep and unmarked.
//! - `model`: what a bundle is, as mathematics.
//! - `refinement`: the proof that the resolver gives that bundle.
//! - `laws`: what holds of every bundle.
//! - `cycles`: the bundle of files that ask for each other in a ring.
//! - `walk`: the directives that a run meets, and which of them expand.

pub mod bundler;
pub mod cli;
pub mod cycles;
pub mod directive;
pub mod error;
pub mod fs;
pub mod laws;
pub mod model;
pub mod path;
pub mod refinement;
pub mod resolver;
pub mod splice;
pub mod text;
pub mod walk;
