//! The arguments of `sort`.

use vstd::prelude::*;
use vstd::string::StringExecFns;
use crate::cli::{default_int_file_dir, DEFAULT_BYTES};
use crate::error::SortError;

verus! {

/// The arguments of `sort`.
#[derive(Debug, PartialEq, Eq)]
pub struct SortArgs {
    /// The path of the file to sort.
    pub file: String,
    /// The size of an intermediate file, in bytes.
    pub int_file_size: usize,
    /// The directory in which intermediate files are made.
    pub int_file_dir: String,
    /// How many run writers may hold a run buffer at a time.
    pub split_concurrency: i32,
}

impl SortArgs {
    /// The arguments for sorting `file` with nothing else given: runs of two
    /// gibibytes in `./int`, two run buffers at a time.
    pub fn new(file: String) -> (args: SortArgs)
        ensures
            args.file == file,
            args.int_file_size == DEFAULT_BYTES,
            args.int_file_dir@ == default_int_file_dir(),
            args.split_concurrency == 2,
    {
        SortArgs {
            file,
            int_file_size: DEFAULT_BYTES,
            int_file_dir: String::from_str("./int"),
            split_concurrency: 2,
        }
    }

    /// The capacity of the permit pool: the concurrency asked for. A
    /// concurrency below one is refused: with no permit no run writer could
    /// ever start, and the sort would wait for ever.
    pub fn permits(&self) -> (permits: Result<usize, SortError>)
        ensures
            self.split_concurrency < 1 ==> permits == Err::<usize, SortError>(SortError::NoPermit),
            self.split_concurrency >= 1 ==> permits == Ok::<usize, SortError>(
                self.split_concurrency as usize,
            ),
    {
        if self.split_concurrency < 1 {
            Err(SortError::NoPermit)
        } else {
            Ok(self.split_concurrency as usize)
        }
    }
}

} // verus!
