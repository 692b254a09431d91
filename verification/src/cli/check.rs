//! The arguments of `check`.

use vstd::prelude::*;
use vstd::string::StringExecFns;
use crate::cli::default_int_file_dir;

verus! {

/// The arguments of `check`.
#[derive(Debug, PartialEq, Eq)]
pub struct CheckArgs {
    /// The path of the sorted file.
    pub file: String,
    /// The directory of the intermediate files.
    pub int_file_dir: String,
}

impl CheckArgs {
    /// The arguments for checking `file` with nothing else given: the
    /// intermediate files are looked for in `./int`.
    pub fn new(file: String) -> (args: CheckArgs)
        ensures
            args.file == file,
            args.int_file_dir@ == default_int_file_dir(),
    {
        CheckArgs { file, int_file_dir: String::from_str("./int") }
    }

    /// Whether intermediate files are to be checked: not where the directory
    /// is given as the empty string.
    pub fn checks_runs(&self) -> (checks: bool)
        ensures
            checks == (self.int_file_dir@.len() > 0),
    {
        !self.int_file_dir.as_str().is_empty()
    }
}

} // verus!
