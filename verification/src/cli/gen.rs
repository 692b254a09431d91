//! The arguments of `gen`.

use vstd::prelude::*;
use crate::cli::DEFAULT_BYTES;

verus! {

/// The arguments of `gen`.
#[derive(Debug, PartialEq, Eq)]
pub struct GenArgs {
    /// The path of the file to write.
    pub file: String,
    /// The size of the file, in bytes.
    pub size: usize,
    /// The most memory to use, in bytes.
    pub max_mem: usize,
}

impl GenArgs {
    /// The arguments for writing `size` bytes to `file` with nothing else
    /// given: within two gibibytes of memory.
    pub fn new(file: String, size: usize) -> (args: GenArgs)
        ensures
            args.file == file,
            args.size == size,
            args.max_mem == DEFAULT_BYTES,
    {
        GenArgs { file, size, max_mem: DEFAULT_BYTES }
    }
}

} // verus!
