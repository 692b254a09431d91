//! The external sort on a source held in memory: split into sorted runs,
//! then merge the runs.

use vstd::prelude::*;
use vstd::multiset::Multiset;
use vstd::seq_lib::group_to_multiset_ensures;
use vstd::seq_lib::lemma_multiset_commutative;
use crate::BLOCK_SIZE;
use crate::block::{
    block_at, block_count, block_monotone, blocks_of, lemma_block_count_step,
    lemma_blocks_and_rest, lemma_blocks_of_append, lemma_blocks_of_concat, lemma_has_block,
};
use crate::error::SortError;
use crate::kway::{
    block_sets, blocks_of_runs, byte_views, lemma_sum_all_same, merge_runs, runs_aligned,
    runs_monotone,
};
use crate::laws::lemma_monotone_is_own_sort;
use crate::run::{is_block_sort_of, sort_run};

verus! {

/// What a sort leaves behind.
#[derive(Debug, PartialEq, Eq)]
pub struct Sorted {
    /// The new contents of the source: its blocks in non-decreasing order.
    pub output: Vec<u8>,
    /// The intermediate runs, in the order of the source. Run `i` holds the
    /// blocks of the `i`-th stretch of the source, sorted.
    pub runs: Vec<Vec<u8>>,
}

/// How many runs a source of `len` bytes is split into, for blocks of `bs`
/// bytes and runs of `run_bytes` bytes, or why it cannot be sorted.
///
/// The length must be a multiple of the block size; the run size must not be
/// zero; the source must hold one run at least; the run size must be a
/// multiple of the block size, and the source a whole number of runs. The
/// first of these that fails decides the error.
pub open spec fn run_plan(len: usize, bs: usize, run_bytes: usize) -> Result<usize, SortError> {
    if len as int % bs as int != 0 {
        Err(SortError::NotBlockAligned)
    } else if run_bytes == 0 {
        Err(SortError::BadRunSize)
    } else if len < run_bytes {
        Err(SortError::TooSmall)
    } else if run_bytes as int % bs as int != 0 {
        Err(SortError::BadRunSize)
    } else if len as int % run_bytes as int != 0 {
        Err(SortError::ResidualBytes)
    } else {
        Ok((len as int / run_bytes as int) as usize)
    }
}

/// Checks the sizes of a sort before anything is written, and tells the
/// number of runs.
pub fn plan_runs(len: usize, bs: usize, run_bytes: usize) -> (plan: Result<usize, SortError>)
    requires
        bs > 0,
    ensures
        plan == run_plan(len, bs, run_bytes),
{
    if len % bs != 0 {
        return Err(SortError::NotBlockAligned);
    }
    if run_bytes == 0 {
        return Err(SortError::BadRunSize);
    }
    if len < run_bytes {
        return Err(SortError::TooSmall);
    }
    if run_bytes % bs != 0 {
        return Err(SortError::BadRunSize);
    }
    if len % run_bytes != 0 {
        return Err(SortError::ResidualBytes);
    }
    Ok(len / run_bytes)
}

/// Where run number `run` starts in the source, or `None` where that is
/// beyond what `usize` holds.
pub fn run_offset(run: usize, run_bytes: usize) -> (offset: Option<usize>)
    ensures
        offset matches Some(start) ==> start == run * run_bytes,
        offset is None <==> run * run_bytes > usize::MAX,
{
    run.checked_mul(run_bytes)
}

/// Run `i` of the runs `runs` is the block sort of the `i`-th stretch of
/// `source`.
pub open spec fn is_run_of(runs: Seq<Seq<u8>>, source: Seq<u8>, bs: int, run_bytes: int, i: int) -> bool {
    is_block_sort_of(runs[i], block_at(source, run_bytes, i), bs)
}

/// `runs` are the sorted runs of `source`: one for each stretch of
/// `run_bytes` bytes, as long as the stretch and holding its blocks in order.
pub open spec fn are_runs_of(runs: Seq<Seq<u8>>, source: Seq<u8>, bs: int, run_bytes: int) -> bool {
    &&& runs.len() == block_count(source, run_bytes)
    &&& forall|i: int| 0 <= i < runs.len() ==> (#[trigger] runs[i]).len() == run_bytes
    &&& forall|i: int| 0 <= i < runs.len() ==> #[trigger] is_run_of(runs, source, bs, run_bytes, i)
}

/// The stretches of a source hold, together, the blocks of the source.
pub proof fn lemma_stretches_hold_all(source: Seq<u8>, bs: int, run_bytes: int)
    requires
        bs > 0,
        run_bytes > 0,
        run_bytes % bs == 0,
        source.len() as int % run_bytes == 0,
    ensures
        blocks_of_runs(blocks_of(source, run_bytes), bs) == blocks_of(source, bs).to_multiset(),
    decreases source.len(),
{
    broadcast use group_to_multiset_ensures;
    broadcast use vstd::multiset::group_multiset_axioms;

    let len = source.len() as int;
    let stretches = blocks_of(source, run_bytes);
    lemma_block_count_step(len, run_bytes);
    if len == 0 {
        lemma_blocks_and_rest(0, run_bytes, 0, 0);
        lemma_blocks_and_rest(0, bs, 0, 0);
        assert(block_sets(stretches, bs) =~= Seq::<Multiset<Seq<u8>>>::empty());
        assert(blocks_of(source, bs) =~= Seq::<Seq<u8>>::empty());
    } else {
        let count = block_count(source, run_bytes);
        assert(count >= 1) by {
            lemma_blocks_and_rest(len, run_bytes, count, 0);
        }
        lemma_has_block(len, run_bytes, count - 1);
        lemma_blocks_and_rest((count - 1) * run_bytes, run_bytes, count - 1, 0);
        let cut = len - run_bytes;
        assert(cut == (count - 1) * run_bytes);
        let front = source.subrange(0, cut);
        let last = source.subrange(cut, len);
        assert(source =~= front + last);
        lemma_blocks_and_rest(cut, run_bytes, count - 1, 0);
        lemma_stretches_hold_all(front, bs, run_bytes);
        lemma_blocks_of_append(front, last, run_bytes);
        assert(stretches == blocks_of(front, run_bytes).push(last));
        let parts = block_sets(stretches, bs);
        assert(parts.drop_last() =~= block_sets(blocks_of(front, run_bytes), bs));
        assert(parts.last() == blocks_of(last, bs).to_multiset());
        assert(cut % bs == 0) by {
            lemma_multiple_of_multiple(cut, run_bytes, bs);
        }
        lemma_blocks_of_concat(front, last, bs);
        lemma_multiset_commutative(blocks_of(front, bs), blocks_of(last, bs));
    }
}

/// A multiple of a multiple of `bs` is a multiple of `bs`.
pub proof fn lemma_multiple_of_multiple(x: int, d: int, bs: int)
    requires
        bs > 0,
        d > 0,
        d % bs == 0,
        x >= 0,
        x % d == 0,
    ensures
        x % bs == 0,
        bs <= d,
        (x / d) * bs <= x,
{
    assert(x % bs == 0 && bs <= d && (x / d) * bs <= x) by (nonlinear_arith)
        requires
            bs > 0,
            d > 0,
            d % bs == 0,
            x >= 0,
            x % d == 0,
    {
        assert(x == d * (x / d) + x % d);
        assert(d == bs * (d / bs) + d % bs);
        assert(x == bs * ((d / bs) * (x / d)));
        assert(d / bs >= 1);
        assert(x / d >= 0);
        assert((bs * ((d / bs) * (x / d))) % bs == 0) by {
            vstd::arithmetic::div_mod::lemma_mod_multiples_basic((d / bs) * (x / d), bs);
            assert(bs * ((d / bs) * (x / d)) == ((d / bs) * (x / d)) * bs);
        }
        assert((x / d) * bs <= (x / d) * d);
    }
}

/// Splits `source` into stretches of `run_bytes` bytes and sorts the blocks
/// of each: the runs, in the order of the source.
pub fn split(source: &[u8], bs: usize, run_bytes: usize) -> (result: Result<Vec<Vec<u8>>, SortError>)
    requires
        bs > 0,
    ensures
        match run_plan(source@.len() as usize, bs, run_bytes) {
            Err(error) => result == Err::<Vec<Vec<u8>>, SortError>(error),
            Ok(count) => result matches Ok(runs) && runs@.len() == count && are_runs_of(
                byte_views(runs@),
                source@,
                bs as int,
                run_bytes as int,
            ),
        },
{
    let len = source.len();
    let count = match plan_runs(len, bs, run_bytes) {
        Err(error) => {
            return Err(error);
        },
        Ok(count) => count,
    };
    let mut runs: Vec<Vec<u8>> = Vec::with_capacity(count);
    let mut start: usize = 0;
    let mut i: usize = 0;
    while i < count
        invariant
            bs > 0,
            run_bytes > 0,
            run_bytes as int % bs as int == 0,
            len == source@.len(),
            count == len as int / run_bytes as int,
            i <= count,
            start == i * run_bytes,
            runs@.len() == i,
            forall|k: int| 0 <= k < i ==> (#[trigger] runs@[k])@.len() == run_bytes,
            forall|k: int|
                0 <= k < i ==> #[trigger] is_run_of(
                    byte_views(runs@),
                    source@,
                    bs as int,
                    run_bytes as int,
                    k,
                ),
        decreases count - i,
    {
        proof {
            lemma_has_block(len as int, run_bytes as int, i as int);
            lemma_blocks_and_rest(start as int, run_bytes as int, i as int, 0);
        }
        let stretch = vstd::slice::slice_subrange(source, start, start + run_bytes);
        let run = sort_run(stretch, bs);
        let ghost before = byte_views(runs@);
        runs.push(run);
        proof {
            let after = byte_views(runs@);
            assert(stretch@ == block_at(source@, run_bytes as int, i as int));
            lemma_block_count_step(run_bytes as int, bs as int);
            assert(after[i as int] == run@);
            assert forall|k: int| 0 <= k < i + 1 implies #[trigger] is_run_of(
                after,
                source@,
                bs as int,
                run_bytes as int,
                k,
            ) by {
                if k < i {
                    assert(is_run_of(before, source@, bs as int, run_bytes as int, k));
                    assert(after[k] == before[k]);
                }
            }
        }
        start = start + run_bytes;
        i = i + 1;
    }
    proof {
        let views = byte_views(runs@);
        assert forall|k: int| 0 <= k < views.len() implies (#[trigger] views[k]).len() == run_bytes by {
            assert(runs@[k]@.len() == run_bytes);
        }
    }
    Ok(runs)
}

/// The runs of a source hold, together, the blocks of the source, and the
/// merger has room for them.
pub proof fn lemma_runs_hold_all(runs: Seq<Seq<u8>>, source: Seq<u8>, bs: int, run_bytes: int)
    requires
        bs > 0,
        run_bytes > 0,
        run_bytes % bs == 0,
        source.len() as int % run_bytes == 0,
        are_runs_of(runs, source, bs, run_bytes),
    ensures
        blocks_of_runs(runs, bs) == blocks_of(source, bs).to_multiset(),
        runs_aligned(runs, bs),
        runs_monotone(runs, bs),
        runs.len() * bs <= source.len(),
        source.len() as int % bs == 0,
{
    let stretches = blocks_of(source, run_bytes);
    assert forall|i: int| 0 <= i < runs.len() implies block_sets(runs, bs)[i] == block_sets(
        stretches,
        bs,
    )[i] by {
        assert(is_run_of(runs, source, bs, run_bytes, i));
    }
    lemma_sum_all_same(block_sets(runs, bs), block_sets(stretches, bs));
    lemma_stretches_hold_all(source, bs, run_bytes);
    assert forall|i: int| 0 <= i < runs.len() implies block_monotone(#[trigger] runs[i], bs) by {
        assert(is_run_of(runs, source, bs, run_bytes, i));
    }
    lemma_multiple_of_multiple(source.len() as int, run_bytes, bs);
}

/// Sorts the blocks of `source`, for blocks of `bs` bytes and runs of
/// `run_bytes` bytes.
///
/// Where the sizes allow a sort, the output is the block sort of the source,
/// and the runs are the sorted stretches of the source. A source that is
/// already block-monotone comes out byte for byte as it went in.
pub fn sort_blocks(source: &[u8], bs: usize, run_bytes: usize) -> (result: Result<Sorted, SortError>)
    requires
        bs > 0,
    ensures
        match run_plan(source@.len() as usize, bs, run_bytes) {
            Err(error) => result == Err::<Sorted, SortError>(error),
            Ok(count) => {
                &&& result matches Ok(sorted)
                &&& is_block_sort_of(sorted.output@, source@, bs as int)
                &&& sorted.output@.len() == source@.len()
                &&& block_monotone(source@, bs as int) ==> sorted.output@ == source@
                &&& sorted.runs@.len() == count
                &&& are_runs_of(byte_views(sorted.runs@), source@, bs as int, run_bytes as int)
            },
        },
{
    broadcast use group_to_multiset_ensures;

    let len = source.len();
    let runs = match split(source, bs, run_bytes) {
        Err(error) => {
            return Err(error);
        },
        Ok(runs) => runs,
    };
    proof {
        lemma_runs_hold_all(byte_views(runs@), source@, bs as int, run_bytes as int);
    }
    match merge_runs(&runs, bs) {
        Err(error) => {
            proof {
                assert(false);
            }
            Err(error)
        },
        Ok(output) => {
            proof {
                let ours = blocks_of(output@, bs as int);
                let theirs = blocks_of(source@, bs as int);
                lemma_block_count_step(output@.len() as int, bs as int);
                lemma_block_count_step(len as int, bs as int);
                lemma_blocks_and_rest(output@.len() as int, bs as int, block_count(output@, bs as int), 0);
                lemma_blocks_and_rest(len as int, bs as int, block_count(source@, bs as int), 0);
                assert(ours.to_multiset().len() == ours.len());
                assert(theirs.to_multiset().len() == theirs.len());
                assert(is_block_sort_of(output@, source@, bs as int));
                if block_monotone(source@, bs as int) {
                    lemma_monotone_is_own_sort(source@, output@, bs as int);
                }
            }
            Ok(Sorted { output, runs })
        },
    }
}

/// Sorts the blocks of `source`, for blocks of [`BLOCK_SIZE`] bytes and runs
/// of `run_bytes` bytes.
pub fn sort(source: &[u8], run_bytes: usize) -> (result: Result<Sorted, SortError>)
    ensures
        match run_plan(source@.len() as usize, BLOCK_SIZE, run_bytes) {
            Err(error) => result == Err::<Sorted, SortError>(error),
            Ok(count) => {
                &&& result matches Ok(sorted)
                &&& is_block_sort_of(sorted.output@, source@, BLOCK_SIZE as int)
                &&& sorted.output@.len() == source@.len()
                &&& block_monotone(source@, BLOCK_SIZE as int) ==> sorted.output@ == source@
                &&& sorted.runs@.len() == count
                &&& are_runs_of(byte_views(sorted.runs@), source@, BLOCK_SIZE as int, run_bytes as int)
            },
        },
{
    sort_blocks(source, BLOCK_SIZE, run_bytes)
}

} // verus!
