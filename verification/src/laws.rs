//! What holds of every block sort.

use vstd::prelude::*;
use vstd::relations::{sorted_by, total_ordering};
use vstd::seq_lib::lemma_sorted_unique;
use crate::block::{
    block_at, block_count, block_monotone, blocks_of, blocks_sorted, lemma_block_count_step,
    lemma_blocks_and_rest, lemma_lex_le_antisymmetric, lemma_lex_le_reflexive,
    lemma_lex_le_total, lemma_lex_le_transitive, lemma_same_blocks_same_bytes, lex_le,
};
use crate::check::{check_all, lemma_check_accepts_monotone, run_fails};
use crate::run::is_block_sort_of;
use crate::sort::{are_runs_of, is_run_of, lemma_multiple_of_multiple};

verus! {

/// The order of blocks, as a relation.
pub open spec fn block_order() -> spec_fn(Seq<u8>, Seq<u8>) -> bool {
    |a: Seq<u8>, b: Seq<u8>| lex_le(a, b)
}

/// The order of blocks is a total order.
pub proof fn lemma_block_order_total()
    ensures
        total_ordering(block_order()),
{
    let leq = block_order();
    assert forall|x: Seq<u8>| #[trigger] leq(x, x) by {
        lemma_lex_le_reflexive(x);
    }
    assert forall|x: Seq<u8>, y: Seq<u8>| #[trigger] leq(x, y) && #[trigger] leq(y, x) implies x == y by {
        lemma_lex_le_antisymmetric(x, y);
    }
    assert forall|x: Seq<u8>, y: Seq<u8>, z: Seq<u8>| #[trigger]
        leq(x, y) && #[trigger] leq(y, z) implies leq(x, z) by {
        lemma_lex_le_transitive(x, y, z);
    }
    assert forall|x: Seq<u8>, y: Seq<u8>| #[trigger] leq(x, y) || #[trigger] leq(y, x) by {
        lemma_lex_le_total(x, y);
    }
}

/// Two sorted rows of blocks that hold the same blocks, each as often, are
/// the same row.
pub proof fn lemma_sorted_rows_equal(a: Seq<Seq<u8>>, b: Seq<Seq<u8>>)
    requires
        blocks_sorted(a),
        blocks_sorted(b),
        a.to_multiset() == b.to_multiset(),
    ensures
        a == b,
{
    let leq = block_order();
    lemma_block_order_total();
    assert forall|i: int, j: int| 0 <= i < j < a.len() implies #[trigger] leq(a[i], a[j]) by {
        assert(lex_le(a[i], a[j]));
    }
    assert forall|i: int, j: int| 0 <= i < j < b.len() implies #[trigger] leq(b[i], b[j]) by {
        assert(lex_le(b[i], b[j]));
    }
    assert(sorted_by(a, leq));
    assert(sorted_by(b, leq));
    lemma_sorted_unique(a, b, leq);
}

/// The blocks of a block sort are the blocks of the source, sorted: sorting
/// changes the order of the blocks and nothing else.
pub proof fn lemma_block_sort_is_sorted_source(out: Seq<u8>, source: Seq<u8>, bs: int)
    requires
        is_block_sort_of(out, source, bs),
    ensures
        blocks_of(out, bs) == blocks_of(source, bs).sort_by(block_order()),
        blocks_of(out, bs).sort_by(block_order()) == blocks_of(source, bs).sort_by(block_order()),
{
    let leq = block_order();
    let ours = blocks_of(out, bs);
    let sorted = blocks_of(source, bs).sort_by(leq);
    lemma_block_order_total();
    blocks_of(source, bs).lemma_sort_by_ensures(leq);
    assert forall|i: int, j: int| 0 <= i <= j < sorted.len() implies lex_le(
        #[trigger] sorted[i],
        #[trigger] sorted[j],
    ) by {
        if i == j {
            lemma_lex_le_reflexive(sorted[i]);
        } else {
            assert(leq(sorted[i], sorted[j]));
        }
    }
    lemma_sorted_rows_equal(ours, sorted);
    ours.lemma_sort_by_ensures(leq);
    let again = ours.sort_by(leq);
    assert forall|i: int, j: int| 0 <= i <= j < again.len() implies lex_le(
        #[trigger] again[i],
        #[trigger] again[j],
    ) by {
        if i == j {
            lemma_lex_le_reflexive(again[i]);
        } else {
            assert(leq(again[i], again[j]));
        }
    }
    lemma_sorted_rows_equal(again, sorted);
}

/// A source has one block sort only: whatever order equal blocks were taken
/// in, the bytes are the same.
pub proof fn lemma_block_sort_unique(a: Seq<u8>, b: Seq<u8>, source: Seq<u8>, bs: int)
    requires
        bs > 0,
        is_block_sort_of(a, source, bs),
        is_block_sort_of(b, source, bs),
    ensures
        a == b,
{
    let count = block_count(source, bs);
    lemma_blocks_and_rest(a.len() as int, bs, count, 0);
    lemma_blocks_and_rest(b.len() as int, bs, count, 0);
    lemma_sorted_rows_equal(blocks_of(a, bs), blocks_of(b, bs));
    lemma_same_blocks_same_bytes(a, b, bs);
}

/// A block-monotone source of whole blocks is its own block sort, and so the
/// sort gives it back unchanged.
pub proof fn lemma_monotone_is_own_sort(source: Seq<u8>, out: Seq<u8>, bs: int)
    requires
        bs > 0,
        source.len() as int % bs == 0,
        block_monotone(source, bs),
        is_block_sort_of(out, source, bs),
    ensures
        is_block_sort_of(source, source, bs),
        out == source,
{
    lemma_block_count_step(source.len() as int, bs);
    lemma_block_sort_unique(out, source, source, bs);
}

/// Sorting a second time changes nothing: the block sort of a block sort is
/// that block sort, byte for byte.
pub proof fn lemma_sort_is_idempotent(source: Seq<u8>, first: Seq<u8>, second: Seq<u8>, bs: int)
    requires
        bs > 0,
        is_block_sort_of(first, source, bs),
        is_block_sort_of(second, first, bs),
    ensures
        second == first,
{
    lemma_blocks_and_rest(first.len() as int, bs, block_count(source, bs), 0);
    lemma_monotone_is_own_sort(first, second, bs);
}

/// In a block sort each block is no larger than the block behind it.
pub proof fn lemma_block_sort_successive(out: Seq<u8>, source: Seq<u8>, bs: int, k: int)
    requires
        bs > 0,
        is_block_sort_of(out, source, bs),
        0 <= k,
        k + 1 < block_count(out, bs),
    ensures
        lex_le(block_at(out, bs, k), block_at(out, bs, k + 1)),
{
    let blocks = blocks_of(out, bs);
    assert(lex_le(blocks[k], blocks[k + 1]));
}

/// The checker accepts what the sort leaves behind: the sorted file and
/// every run.
pub proof fn lemma_check_accepts_sort(
    source: Seq<u8>,
    bs: int,
    run_bytes: int,
    output: Seq<u8>,
    runs: Seq<Seq<u8>>,
)
    requires
        bs > 0,
        run_bytes > 0,
        run_bytes % bs == 0,
        source.len() >= run_bytes,
        source.len() as int % run_bytes == 0,
        is_block_sort_of(output, source, bs),
        are_runs_of(runs, source, bs, run_bytes),
    ensures
        check_all(runs, output, bs) is Ok,
{
    let len = source.len() as int;
    lemma_multiple_of_multiple(len, run_bytes, bs);
    lemma_block_count_step(len, bs);
    lemma_block_count_step(run_bytes, bs);
    lemma_blocks_and_rest(output.len() as int, bs, block_count(source, bs), 0);
    assert(block_count(output, bs) >= 1);
    lemma_check_accepts_monotone(output, bs);
    assert forall|i: int| !run_fails(runs, bs, i) by {
        if 0 <= i < runs.len() {
            assert(is_run_of(runs, source, bs, run_bytes, i));
            assert(runs[i].len() == run_bytes);
            lemma_check_accepts_monotone(runs[i], bs);
        }
    }
}

} // verus!
