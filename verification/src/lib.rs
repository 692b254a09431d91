//! External block sort: order the fixed-size blocks of a byte file that does
//! not fit in memory.
//!
//! A file is a row of blocks of [`BLOCK_SIZE`] bytes, ordered as unsigned byte
//! strings. The sort cuts the file into runs that fit in memory, sorts the
//! blocks of each run ([`run`]), and merges the runs ([`merge`]). This crate
//! holds the deciding parts and does no input or output: a caller reads and
//! writes the files and hands the bytes over.
//!
//! - [`block`]: blocks of a buffer and their order.
//! - [`heap`]: a min-heap of block numbers.
//! - [`run`]: sorting one run.
//! - [`merge`]: the k-way merge, one read at a time.
//! - [`kway`]: the merge of runs held in memory.
//! - [`sort`]: the whole sort on a source held in memory.
//! - [`check`]: checking that files are sorted.
//! - [`permit`]: the permit pool that bounds the run buffers.
//! - [`generate`]: files of random letters and digits.
//! - [`path`]: the names of the run files.
//! - [`cli`]: the arguments of the three commands.
//! - [`laws`]: what holds of every sort.

use vstd::prelude::*;

pub mod block;
pub mod check;
pub mod cli;
pub mod error;
pub mod generate;
pub mod heap;
pub mod kway;
pub mod laws;
pub mod merge;
pub mod path;
pub mod permit;
pub mod run;
pub mod sort;

verus! {

/// Length in bytes of one block, the unit of ordering.
pub const BLOCK_SIZE: usize = 4096;

/// One gibibyte, in bytes.
pub const ONE_GIB: usize = 1073741824;

} // verus!
