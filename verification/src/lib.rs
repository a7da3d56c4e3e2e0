//! Merging of sorted streams of newline-delimited JSON records into one
//! stream, ordered by an integer sort key that each record carries in one of
//! a set of fields.
//!
//! The library decides and proves; it neither reads nor writes.
//!
//! - [`extract`] finds the sort key of one line: the value of the first
//!   top-level field of the line's JSON object whose name is in the key set.
//!   [`object`] reads the fields, with the tokens of [`json`].
//! - [`source`] says what an input amounts to: the entries of its lines
//!   that yield a key, and the warnings for the others.
//! - [`frontier`] is the priority queue of the sources that hold an entry.
//! - [`engine`] is the merge as a machine: it is handed the outcome of each
//!   read, and answers with the next thing to do.
//! - [`merge`] says what a merge of several sources is, and proves what
//!   follows: every entry comes out once, each source's entries in their
//!   order, and in ascending order of key where the sources are.
//! - [`run`](mod@run) drives the engine over inputs held in memory, and proves that
//!   what comes out is a merge.
//! - [`config`], [`codec`] and [`error`] hold what a program around the
//!   library needs: its arguments, the decoding of its input files, and the
//!   error that it ends with.

pub mod codec;
pub mod config;
pub mod engine;
pub mod error;
pub mod extract;
pub mod frontier;
pub mod json;
pub mod merge;
pub mod object;
pub mod run;
pub mod source;

pub use error::MrgError;
pub use run::run;
