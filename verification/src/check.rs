//! Checking that files are block-monotone.
//!
//! [`BlockChecker`] takes a file block by block, so that a file need not be
//! held in memory; [`check_file`] and [`check`] take whole buffers.

use vstd::prelude::*;
use crate::BLOCK_SIZE;
use crate::block::{
    block_at, block_count, block_monotone, block_ref, blocks_of, bytes_le, lemma_has_block,
    lemma_lex_le_antisymmetric, lemma_lex_le_reflexive, lemma_sorted_iff_adjacent, lex_le,
};
use crate::kway::byte_views;
use crate::path::{append_decimal, decimal};
use vstd::string::StringExecFns;

verus! {

/// Why a file is not accepted as sorted.
#[derive(Debug, Clone, Copy, PartialEq, Eq, Structural)]
pub enum CheckError {
    /// The file holds no whole block.
    NoBlock,
    /// A block is smaller than the block before it. `block` is the number of
    /// the block before it, counted from zero: so many blocks were followed
    /// by a block no smaller.
    Inversion { block: usize },
}

/// What a check error says, in words.
pub open spec fn check_error_text(error: CheckError) -> Seq<char> {
    match error {
        CheckError::NoBlock => "The file holds no whole block"@,
        CheckError::Inversion { block } => "Block "@ + decimal(block as nat)
            + " is less than the previous one"@,
    }
}

impl CheckError {
    /// The error in words.
    pub fn message(&self) -> (text: String)
        ensures
            text@ == check_error_text(*self),
    {
        match self {
            CheckError::NoBlock => String::from_str("The file holds no whole block"),
            CheckError::Inversion { block } => {
                let mut text = String::from_str("Block ");
                append_decimal(&mut text, *block);
                text.append(" is less than the previous one");
                text
            },
        }
    }
}

/// Which file of a check is not accepted, and why.
#[derive(Debug, Clone, Copy, PartialEq, Eq, Structural)]
pub enum CheckFailure {
    /// The intermediate file at place `index` of those given.
    Run { index: usize, error: CheckError },
    /// The sorted file itself.
    File { error: CheckError },
}

/// What a checker knows of the blocks it has seen.
pub struct CheckState {
    /// The block seen last, if any was seen.
    pub last: Option<Seq<u8>>,
    /// How many blocks followed a block no larger.
    pub passed: usize,
}

/// The state of a checker after it has seen `block`, and its verdict on that
/// block: a block that is smaller than the one before it is refused, and the
/// checker stays as it was. Of a block that is accepted the verdict tells
/// whether it repeats the block before it.
pub open spec fn check_step(pre: CheckState, block: Seq<u8>) -> (CheckState, Result<bool, CheckError>) {
    match pre.last {
        None => (CheckState { last: Some(block), passed: 0 }, Ok(false)),
        Some(before) => {
            if lex_le(before, block) {
                (
                    CheckState {
                        last: Some(block),
                        passed: if pre.passed < usize::MAX {
                            (pre.passed + 1) as usize
                        } else {
                            pre.passed
                        },
                    },
                    Ok(before == block),
                )
            } else {
                (pre, Err(CheckError::Inversion { block: pre.passed }))
            }
        },
    }
}

/// Compares each block it is given with the one it was given before.
pub struct BlockChecker {
    last: Vec<u8>,
    seen: bool,
    passed: usize,
}

impl View for BlockChecker {
    type V = CheckState;

    closed spec fn view(&self) -> CheckState {
        CheckState {
            last: if self.seen {
                Some(self.last@)
            } else {
                None
            },
            passed: self.passed,
        }
    }
}

impl BlockChecker {
    /// A checker that has seen no block.
    pub fn new() -> (checker: BlockChecker)
        ensures
            checker@ == (CheckState { last: None, passed: 0 }),
    {
        BlockChecker { last: Vec::new(), seen: false, passed: 0 }
    }

    /// Takes the next block of the file. Returns whether the block repeats
    /// the one before it, or why it is refused.
    pub fn feed(&mut self, block: &[u8]) -> (verdict: Result<bool, CheckError>)
        ensures
            (final(self)@, verdict) == check_step(old(self)@, block@),
    {
        let mut repeated = false;
        if self.seen {
            if !bytes_le(self.last.as_slice(), block) {
                return Err(CheckError::Inversion { block: self.passed });
            }
            repeated = bytes_le(block, self.last.as_slice());
            proof {
                if repeated {
                    lemma_lex_le_antisymmetric(self.last@, block@);
                } else {
                    lemma_lex_le_reflexive(block@);
                }
            }
            if self.passed < usize::MAX {
                self.passed = self.passed + 1;
            }
        } else {
            self.passed = 0;
        }
        self.last.clear();
        self.last.extend_from_slice(block);
        self.seen = true;
        assert(self.last@ =~= block@);
        Ok(repeated)
    }

    /// The verdict at the end of the file: a file without a block is refused.
    pub fn finish(&self) -> (verdict: Result<(), CheckError>)
        ensures
            verdict == (if self@.last is None {
                Err::<(), CheckError>(CheckError::NoBlock)
            } else {
                Ok::<(), CheckError>(())
            }),
    {
        if self.seen {
            Ok(())
        } else {
            Err(CheckError::NoBlock)
        }
    }
}

/// Block `k` of `bytes` is followed by a whole block that is smaller.
pub open spec fn inversion_at(bytes: Seq<u8>, bs: int, k: int) -> bool {
    &&& 0 <= k
    &&& k + 1 < block_count(bytes, bs)
    &&& !lex_le(block_at(bytes, bs, k), block_at(bytes, bs, k + 1))
}

/// Block `k` of `bytes` is the first that is followed by a smaller block.
pub open spec fn first_inversion(bytes: Seq<u8>, bs: int, k: int) -> bool {
    &&& inversion_at(bytes, bs, k)
    &&& forall|j: int| inversion_at(bytes, bs, j) ==> k <= j
}

/// The verdict on a file with the contents `bytes`, read as blocks of `bs`
/// bytes. Bytes behind the last whole block are not looked at.
pub open spec fn check_outcome(bytes: Seq<u8>, bs: int) -> Result<(), CheckError> {
    if block_count(bytes, bs) < 1 {
        Err(CheckError::NoBlock)
    } else if exists|k: int| inversion_at(bytes, bs, k) {
        Err(CheckError::Inversion { block: (choose|k: int| first_inversion(bytes, bs, k)) as usize })
    } else {
        Ok(())
    }
}

/// A file is accepted when it holds a block and its whole blocks never
/// decrease, and only then.
pub proof fn lemma_check_accepts_monotone(bytes: Seq<u8>, bs: int)
    requires
        bs > 0,
    ensures
        check_outcome(bytes, bs) is Ok <==> block_count(bytes, bs) >= 1 && block_monotone(bytes, bs),
{
    let blocks = blocks_of(bytes, bs);
    lemma_sorted_iff_adjacent(blocks);
    if block_count(bytes, bs) >= 1 {
        if exists|k: int| inversion_at(bytes, bs, k) {
            let k = choose|k: int| inversion_at(bytes, bs, k);
            assert(!lex_le(blocks[k], blocks[k + 1]));
        } else {
            assert forall|k: int| 0 <= k && k + 1 < blocks.len() implies lex_le(
                #[trigger] blocks[k],
                blocks[k + 1],
            ) by {
                assert(!inversion_at(bytes, bs, k));
            }
        }
    }
}

/// A file in which some block is followed by a smaller one is refused.
pub proof fn lemma_check_rejects_inversion(bytes: Seq<u8>, bs: int, k: int)
    requires
        bs > 0,
        inversion_at(bytes, bs, k),
    ensures
        check_outcome(bytes, bs) is Err,
{
}

/// Checks one file held in memory, for blocks of `bs` bytes.
pub fn check_file(bytes: &[u8], bs: usize) -> (verdict: Result<(), CheckError>)
    requires
        bs > 0,
    ensures
        verdict == check_outcome(bytes@, bs as int),
{
    let count: usize = bytes.len() / bs;
    let mut checker = BlockChecker::new();
    let mut k: usize = 0;
    while k < count
        invariant
            bs > 0,
            count == bytes@.len() as int / bs as int,
            k <= count,
            k == 0 ==> checker@ == (CheckState { last: None, passed: 0 }),
            k > 0 ==> checker@ == (CheckState {
                last: Some(block_at(bytes@, bs as int, k - 1)),
                passed: (k - 1) as usize,
            }),
            forall|j: int| 0 <= j && j + 1 < k ==> !inversion_at(bytes@, bs as int, j),
        decreases count - k,
    {
        proof {
            lemma_has_block(bytes@.len() as int, bs as int, k as int);
        }
        let block = block_ref(bytes, bs, k);
        match checker.feed(block) {
            Err(error) => {
                proof {
                    let found = k as int - 1;
                    assert(inversion_at(bytes@, bs as int, found));
                    assert(first_inversion(bytes@, bs as int, found));
                    let chosen = choose|j: int| first_inversion(bytes@, bs as int, j);
                    assert(chosen == found);
                }
                return Err(error);
            },
            Ok(_) => {},
        }
        k = k + 1;
    }
    checker.finish()
}

/// Intermediate file `i` of `runs` is not accepted.
pub open spec fn run_fails(runs: Seq<Seq<u8>>, bs: int, i: int) -> bool {
    0 <= i < runs.len() && check_outcome(runs[i], bs) is Err
}

/// The verdict on a sorted file and its intermediate files: the first
/// intermediate file that is not accepted, in the order given, decides; then
/// the sorted file.
pub open spec fn check_all(runs: Seq<Seq<u8>>, file: Seq<u8>, bs: int) -> Result<(), CheckFailure> {
    if exists|i: int| run_fails(runs, bs, i) {
        let first = choose|i: int| run_fails(runs, bs, i) && forall|j: int| run_fails(runs, bs, j) ==> i <= j;
        Err(CheckFailure::Run { index: first as usize, error: check_outcome(runs[first], bs)->Err_0 })
    } else {
        match check_outcome(file, bs) {
            Err(error) => Err(CheckFailure::File { error }),
            Ok(()) => Ok(()),
        }
    }
}

/// Checks the intermediate files `runs` and then the sorted file `file`, for
/// blocks of `bs` bytes.
pub fn check_blocks(runs: &Vec<Vec<u8>>, file: &[u8], bs: usize) -> (verdict: Result<(), CheckFailure>)
    requires
        bs > 0,
    ensures
        verdict == check_all(byte_views(runs@), file@, bs as int),
{
    let ghost views = byte_views(runs@);
    let mut i: usize = 0;
    while i < runs.len()
        invariant
            bs > 0,
            i <= runs.len(),
            views == byte_views(runs@),
            forall|j: int| 0 <= j < i ==> !run_fails(views, bs as int, j),
        decreases runs.len() - i,
    {
        match check_file(runs[i].as_slice(), bs) {
            Err(error) => {
                proof {
                    let found = i as int;
                    assert(views[found] == runs@[found]@);
                    assert(run_fails(views, bs as int, found));
                    let chosen = choose|c: int|
                        run_fails(views, bs as int, c) && forall|j: int|
                            run_fails(views, bs as int, j) ==> c <= j;
                    assert(chosen == found);
                }
                return Err(CheckFailure::Run { index: i, error });
            },
            Ok(()) => {
                assert(views[i as int] == runs@[i as int]@);
            },
        }
        i = i + 1;
    }
    match check_file(file, bs) {
        Err(error) => Err(CheckFailure::File { error }),
        Ok(()) => Ok(()),
    }
}

/// Checks the intermediate files `runs` and then the sorted file `file`, for
/// blocks of [`BLOCK_SIZE`] bytes.
pub fn check(runs: &Vec<Vec<u8>>, file: &[u8]) -> (verdict: Result<(), CheckFailure>)
    ensures
        verdict == check_all(byte_views(runs@), file@, BLOCK_SIZE as int),
{
    check_blocks(runs, file, BLOCK_SIZE)
}

} // verus!
