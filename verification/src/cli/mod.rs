//! What the command line asks for.

use vstd::prelude::*;

pub mod check;
pub mod gen;
pub mod sort;

verus! {

/// A parsed command line.
#[derive(Debug, PartialEq, Eq)]
pub struct Cli {
    /// The command to run.
    pub command: Commands,
}

/// The three commands.
#[derive(Debug, PartialEq, Eq)]
pub enum Commands {
    /// Write a file of random letters and digits.
    Gen(gen::GenArgs),
    /// Sort a file in place.
    Sort(sort::SortArgs),
    /// Check that a file, and the intermediate files beside it, are sorted.
    Check(check::CheckArgs),
}

/// The directory for intermediate files where none is given.
pub open spec fn default_int_file_dir() -> Seq<char> {
    "./int"@
}

/// The memory allowed to `gen`, and the size of a run of `sort`, where none
/// is given: two gibibytes.
pub const DEFAULT_BYTES: usize = 2147483648;

} // verus!
