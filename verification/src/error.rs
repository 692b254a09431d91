//! Why a sort is refused or abandoned.

use vstd::prelude::*;
use vstd::string::StringExecFns;
use crate::path::{append_decimal, decimal};

verus! {

/// The reasons for which the library gives up a sort.
#[derive(Debug, Clone, Copy, PartialEq, Eq, Structural)]
pub enum SortError {
    /// The source's length is not a multiple of the block size.
    NotBlockAligned,
    /// The run size is zero or not a multiple of the block size.
    BadRunSize,
    /// The source is shorter than one run.
    TooSmall,
    /// The source's length is not a multiple of the run size.
    ResidualBytes,
    /// A read of run `run` gave some bytes but less than a block: the run
    /// file is cut short.
    Corruption { run: usize },
    /// The split is allowed no run buffer at all.
    NoPermit,
}

/// What a sort error says, in words.
pub open spec fn sort_error_text(error: SortError) -> Seq<char> {
    match error {
        SortError::NotBlockAligned => "The source is not block-aligned"@,
        SortError::BadRunSize => "The run size is not a positive multiple of the block size"@,
        SortError::TooSmall => "The source is smaller than one run"@,
        SortError::ResidualBytes => "The source is not a whole number of runs"@,
        SortError::Corruption { run } => "Run "@ + decimal(run as nat) + " is cut short"@,
        SortError::NoPermit => "The split concurrency must be one at least"@,
    }
}

impl SortError {
    /// The error in words.
    pub fn message(&self) -> (text: String)
        ensures
            text@ == sort_error_text(*self),
    {
        match self {
            SortError::NotBlockAligned => String::from_str("The source is not block-aligned"),
            SortError::BadRunSize => String::from_str(
                "The run size is not a positive multiple of the block size",
            ),
            SortError::TooSmall => String::from_str("The source is smaller than one run"),
            SortError::ResidualBytes => String::from_str("The source is not a whole number of runs"),
            SortError::Corruption { run } => {
                let mut text = String::from_str("Run ");
                append_decimal(&mut text, *run);
                text.append(" is cut short");
                text
            },
            SortError::NoPermit => String::from_str("The split concurrency must be one at least"),
        }
    }
}

} // verus!
