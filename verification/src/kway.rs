//! Merging runs that are held in memory.
//!
//! [`merge_runs`] plays the part of the reader and the writer for a
//! [`Merger`]: it reads each run block by block out of a buffer and collects
//! what the merger hands over.

use vstd::prelude::*;
use vstd::multiset::Multiset;
use vstd::seq_lib::group_to_multiset_ensures;
use crate::block::{
    block_at, block_count, block_monotone, blocks_of, blocks_sorted, lemma_blocks_and_rest,
    lemma_blocks_of_append, lemma_has_block, lemma_lex_le_reflexive, lemma_lex_le_transitive, lex_le,
};
use crate::error::SortError;
use crate::merge::{least_in, queue_after_read, MergeState, Merger};

verus! {

/// The multisets `parts`, added up.
pub open spec fn sum_all(parts: Seq<Multiset<Seq<u8>>>) -> Multiset<Seq<u8>>
    decreases parts.len(),
{
    if parts.len() == 0 {
        Multiset::empty()
    } else {
        sum_all(parts.drop_last()).add(parts.last())
    }
}

/// The bytes of each run.
pub open spec fn byte_views(runs: Seq<Vec<u8>>) -> Seq<Seq<u8>> {
    Seq::new(runs.len(), |r: int| runs[r]@)
}

/// The whole blocks of each run, as a multiset.
pub open spec fn block_sets(runs: Seq<Seq<u8>>, bs: int) -> Seq<Multiset<Seq<u8>>> {
    Seq::new(runs.len(), |r: int| blocks_of(runs[r], bs).to_multiset())
}

/// The whole blocks of all runs together, each as often as the runs hold it.
pub open spec fn blocks_of_runs(runs: Seq<Seq<u8>>, bs: int) -> Multiset<Seq<u8>> {
    sum_all(block_sets(runs, bs))
}

/// Every run is made of whole blocks.
pub open spec fn runs_aligned(runs: Seq<Seq<u8>>, bs: int) -> bool {
    forall|r: int| 0 <= r < runs.len() ==> (#[trigger] runs[r]).len() as int % bs == 0
}

/// Every run is block-monotone.
pub open spec fn runs_monotone(runs: Seq<Seq<u8>>, bs: int) -> bool {
    forall|r: int| 0 <= r < runs.len() ==> block_monotone(#[trigger] runs[r], bs)
}

/// Multisets that are equal part by part add up to the same.
pub proof fn lemma_sum_all_same(a: Seq<Multiset<Seq<u8>>>, b: Seq<Multiset<Seq<u8>>>)
    requires
        a.len() == b.len(),
        forall|r: int| 0 <= r < a.len() ==> a[r] == b[r],
    ensures
        sum_all(a) == sum_all(b),
{
    assert(a =~= b);
}

/// Taking one element out of one part takes it out of the sum.
proof fn lemma_sum_all_take_out(
    parts: Seq<Multiset<Seq<u8>>>,
    r: int,
    rest: Multiset<Seq<u8>>,
    x: Seq<u8>,
)
    requires
        0 <= r < parts.len(),
        parts[r] == rest.insert(x),
    ensures
        sum_all(parts) == sum_all(parts.update(r, rest)).insert(x),
    decreases parts.len(),
{
    broadcast use vstd::multiset::group_multiset_axioms;

    let changed = parts.update(r, rest);
    if r == parts.len() - 1 {
        assert(changed.drop_last() =~= parts.drop_last());
    } else {
        lemma_sum_all_take_out(parts.drop_last(), r, rest, x);
        assert(changed.drop_last() =~= parts.drop_last().update(r, rest));
    }
    assert(sum_all(parts) =~= sum_all(changed).insert(x));
}

/// Empty parts add up to nothing.
proof fn lemma_sum_all_nothing(parts: Seq<Multiset<Seq<u8>>>)
    requires
        forall|r: int| 0 <= r < parts.len() ==> parts[r] == Multiset::<Seq<u8>>::empty(),
    ensures
        sum_all(parts) == Multiset::<Seq<u8>>::empty(),
    decreases parts.len(),
{
    broadcast use vstd::multiset::group_multiset_axioms;

    if parts.len() > 0 {
        lemma_sum_all_nothing(parts.drop_last());
        assert(sum_all(parts) =~= Multiset::<Seq<u8>>::empty());
    }
}

/// A sequence from `k` on holds its element at `k` and what follows.
proof fn lemma_skip_step(s: Seq<Seq<u8>>, k: int)
    requires
        0 <= k < s.len(),
    ensures
        s.skip(k).to_multiset() == s.skip(k + 1).to_multiset().insert(s[k]),
{
    broadcast use group_to_multiset_ensures;
    broadcast use vstd::multiset::group_multiset_axioms;

    let from = s.skip(k);
    assert(from.remove(0) =~= s.skip(k + 1));
    assert(from[0] == s[k]);
    assert(from.to_multiset().contains(from[0]));
    assert(from.to_multiset() =~= from.remove(0).to_multiset().insert(from[0]));
}

/// A sorted row stays sorted when a block no smaller than its last is put
/// behind it.
proof fn lemma_sorted_push(blocks: Seq<Seq<u8>>, x: Seq<u8>)
    requires
        blocks_sorted(blocks),
        blocks.len() > 0 ==> lex_le(blocks.last(), x),
    ensures
        blocks_sorted(blocks.push(x)),
{
    let longer = blocks.push(x);
    assert forall|i: int, j: int| 0 <= i <= j < longer.len() implies lex_le(
        #[trigger] longer[i],
        #[trigger] longer[j],
    ) by {
        if j < blocks.len() {
            assert(lex_le(blocks[i], blocks[j]));
        } else if i < blocks.len() {
            assert(lex_le(blocks[i], blocks[blocks.len() - 1]));
            lemma_lex_le_transitive(blocks[i], blocks.last(), x);
        } else {
            lemma_lex_le_reflexive(x);
        }
    }
}

/// The blocks of each run that are not yet written, as a multiset, where
/// `done[r]` blocks of run `r` are written.
spec fn unwritten(runs: Seq<Seq<u8>>, bs: int, done: Seq<int>) -> Seq<Multiset<Seq<u8>>> {
    Seq::new(runs.len(), |r: int| blocks_of(runs[r], bs).skip(done[r]).to_multiset())
}

/// How far the merge of run `r` has come, where `fed[r]` of its blocks were
/// read: those blocks are written, but for the last where it is queued; a run
/// that was never asked for has none read, and a run that is neither queued
/// nor awaited is read to its end.
spec fn run_ok(runs: Seq<Seq<u8>>, bs: int, st: MergeState, fed: Seq<usize>, done: Seq<int>, r: int) -> bool {
    let queued = st.queue.contains_key(r as usize);
    &&& fed[r] * bs <= runs[r].len()
    &&& 0 <= done[r]
    &&& done[r] == fed[r] - (if queued {
        1int
    } else {
        0int
    })
    &&& queued ==> st.queue[r as usize] == block_at(runs[r], bs, fed[r] - 1)
    &&& r >= st.primed ==> fed[r] == 0
    &&& r < st.primed && !queued && st.awaiting != Some(r as usize) ==> fed[r] * bs == runs[r].len()
}

/// What holds of a merge in memory between two steps, whatever the runs hold.
spec fn merging(
    runs: Seq<Seq<u8>>,
    bs: int,
    st: MergeState,
    fed: Seq<usize>,
    done: Seq<int>,
    out: Seq<u8>,
) -> bool {
    &&& bs > 0
    &&& runs.len() <= usize::MAX
    &&& st.block_size == bs
    &&& st.runs == runs.len()
    &&& st.primed <= runs.len()
    &&& fed.len() == runs.len()
    &&& done.len() == runs.len()
    &&& out.len() as int % bs == 0
    &&& out.len() > 0 ==> st.primed == runs.len()
    &&& st.awaiting matches Some(a) ==> a < st.primed && !st.queue.contains_key(a)
    &&& forall|r: usize| #[trigger] st.queue.contains_key(r) ==> r < st.primed
    &&& forall|r: int| 0 <= r < runs.len() ==> #[trigger] run_ok(runs, bs, st, fed, done, r)
    &&& blocks_of(out, bs).to_multiset().add(sum_all(unwritten(runs, bs, done))) == blocks_of_runs(
        runs,
        bs,
    )
}

/// What holds in addition where every run is block-monotone: the output is
/// sorted, and its last block is no larger than any block that is queued or
/// still to be read.
spec fn in_order(runs: Seq<Seq<u8>>, bs: int, st: MergeState, fed: Seq<usize>, out: Seq<u8>) -> bool {
    let written = blocks_of(out, bs);
    &&& blocks_sorted(written)
    &&& written.len() > 0 ==> {
        &&& forall|r: usize| #[trigger] st.queue.contains_key(r) ==> lex_le(written.last(), st.queue[r])
        &&& forall|r: int, j: int|
            0 <= r < runs.len() && fed[r] <= j < block_count(runs[r], bs) ==> lex_le(
                written.last(),
                #[trigger] blocks_of(runs[r], bs)[j],
            )
    }
}

/// The state between a read and the decision that follows it.
spec fn between(pre: MergeState, data: Seq<u8>) -> MergeState {
    MergeState { awaiting: None, queue: queue_after_read(pre, data), ..pre }
}

/// The start of a merge.
proof fn lemma_merging_starts(runs: Seq<Seq<u8>>, bs: int, st: MergeState, fed: Seq<usize>, done: Seq<int>)
    requires
        bs > 0,
        runs.len() <= usize::MAX,
        st.block_size == bs,
        st.runs == runs.len(),
        st.primed == (if runs.len() == 0 {
            0nat
        } else {
            1nat
        }),
        st.awaiting == (if runs.len() == 0 {
            None
        } else {
            Some(0usize)
        }),
        forall|r: usize| !st.queue.contains_key(r),
        fed.len() == runs.len(),
        done.len() == runs.len(),
        forall|r: int| 0 <= r < runs.len() ==> fed[r] == 0 && done[r] == 0,
    ensures
        merging(runs, bs, st, fed, done, Seq::<u8>::empty()),
        in_order(runs, bs, st, fed, Seq::<u8>::empty()),
{
    broadcast use group_to_multiset_ensures;
    broadcast use vstd::multiset::group_multiset_axioms;

    let out = Seq::<u8>::empty();
    lemma_blocks_and_rest(0, bs, 0, 0);
    assert(blocks_of(out, bs) =~= Seq::<Seq<u8>>::empty());
    assert forall|r: int| 0 <= r < runs.len() implies unwritten(runs, bs, done)[r] == block_sets(
        runs,
        bs,
    )[r] by {
        assert(blocks_of(runs[r], bs).skip(0) =~= blocks_of(runs[r], bs));
    }
    lemma_sum_all_same(unwritten(runs, bs, done), block_sets(runs, bs));
    assert(blocks_of(out, bs).to_multiset().add(sum_all(unwritten(runs, bs, done))) =~= blocks_of_runs(
        runs,
        bs,
    ));
    assert forall|r: int| 0 <= r < runs.len() implies #[trigger] run_ok(runs, bs, st, fed, done, r) by {
        assert(fed[r] * bs == 0) by (nonlinear_arith)
            requires
                fed[r] == 0,
        ;
    }
}

/// A read of a whole block, or of nothing at the end of a run, keeps the
/// merge in the state described, with the block queued.
proof fn lemma_after_read(
    runs: Seq<Seq<u8>>,
    bs: int,
    pre: MergeState,
    fed: Seq<usize>,
    done: Seq<int>,
    out: Seq<u8>,
    data: Seq<u8>,
    moved: Seq<usize>,
)
    requires
        merging(runs, bs, pre, fed, done, out),
        pre.awaiting is Some,
        ({
            let a = pre.awaiting->0 as int;
            if data.len() == 0 {
                &&& moved == fed
                &&& fed[a] * bs == runs[a].len()
            } else {
                &&& fed[a] < usize::MAX
                &&& moved == fed.update(a, (fed[a] + 1) as usize)
                &&& fed[a] * bs + bs <= runs[a].len()
                &&& data == block_at(runs[a], bs, fed[a] as int)
            }
        }),
    ensures
        merging(runs, bs, between(pre, data), moved, done, out),
        runs_monotone(runs, bs) && in_order(runs, bs, pre, fed, out) ==> in_order(
            runs,
            bs,
            between(pre, data),
            moved,
            out,
        ),
{
    let a = pre.awaiting->0;
    let mid = between(pre, data);
    let len = runs[a as int].len() as int;
    assert(run_ok(runs, bs, pre, fed, done, a as int));
    if data.len() != 0 {
        lemma_blocks_and_rest(fed[a as int] * bs, bs, fed[a as int] as int, 0);
        lemma_has_block(len, bs, fed[a as int] as int);
        assert(data.len() == bs);
    }
    assert forall|r: int| 0 <= r < runs.len() implies #[trigger] run_ok(runs, bs, mid, moved, done, r) by {
        assert(run_ok(runs, bs, pre, fed, done, r));
    }
    if runs_monotone(runs, bs) && in_order(runs, bs, pre, fed, out) {
        let written = blocks_of(out, bs);
        if written.len() > 0 {
            assert forall|r: usize| #[trigger] mid.queue.contains_key(r) implies lex_le(
                written.last(),
                mid.queue[r],
            ) by {
                if r == a && data.len() != 0 {
                    assert(lex_le(written.last(), blocks_of(runs[a as int], bs)[fed[a as int] as int]));
                } else {
                    assert(pre.queue.contains_key(r));
                }
            }
            assert forall|r: int, j: int|
                0 <= r < runs.len() && moved[r] <= j < block_count(runs[r], bs) implies lex_le(
                written.last(),
                #[trigger] blocks_of(runs[r], bs)[j],
            ) by {
                assert(run_ok(runs, bs, pre, fed, done, r));
            }
        }
    }
}

/// After a read, asking for the next run that was never asked for keeps the
/// merge in the state described.
proof fn lemma_then_next_run(
    runs: Seq<Seq<u8>>,
    bs: int,
    mid: MergeState,
    fed: Seq<usize>,
    done: Seq<int>,
    out: Seq<u8>,
    post: MergeState,
)
    requires
        merging(runs, bs, mid, fed, done, out),
        mid.awaiting is None,
        mid.primed < mid.runs,
        post == (MergeState { awaiting: Some(mid.primed as usize), primed: mid.primed + 1, ..mid }),
    ensures
        merging(runs, bs, post, fed, done, out),
        in_order(runs, bs, mid, fed, out) ==> in_order(runs, bs, post, fed, out),
{
    assert(run_ok(runs, bs, mid, fed, done, mid.primed as int));
    assert forall|r: int| 0 <= r < runs.len() implies #[trigger] run_ok(runs, bs, post, fed, done, r) by {
        assert(run_ok(runs, bs, mid, fed, done, r));
    }
}

/// After a read, once every run was asked for, writing a smallest queued
/// block and asking for its run keeps the merge in the state described.
proof fn lemma_then_write(
    runs: Seq<Seq<u8>>,
    bs: int,
    mid: MergeState,
    fed: Seq<usize>,
    done: Seq<int>,
    out: Seq<u8>,
    post: MergeState,
    block: Seq<u8>,
)
    requires
        merging(runs, bs, mid, fed, done, out),
        mid.awaiting is None,
        mid.primed == mid.runs,
        post.awaiting is Some,
        least_in(mid.queue, post.awaiting->0),
        post == (MergeState { awaiting: post.awaiting, queue: mid.queue.remove(post.awaiting->0), ..mid }),
        block == mid.queue[post.awaiting->0],
    ensures
        0 <= post.awaiting->0 < runs.len(),
        merging(
            runs,
            bs,
            post,
            fed,
            done.update(post.awaiting->0 as int, done[post.awaiting->0 as int] + 1),
            out + block,
        ),
        block_count(out + block, bs) == block_count(out, bs) + 1,
        runs_monotone(runs, bs) && in_order(runs, bs, mid, fed, out) ==> in_order(
            runs,
            bs,
            post,
            fed,
            out + block,
        ),
{
    broadcast use group_to_multiset_ensures;
    broadcast use vstd::multiset::group_multiset_axioms;

    let m = post.awaiting->0;
    let len = runs[m as int].len() as int;
    let theirs = blocks_of(runs[m as int], bs);
    let k = done[m as int];
    let more = done.update(m as int, k + 1);
    let longer = out + block;
    assert(mid.queue.contains_key(m));
    assert(run_ok(runs, bs, mid, fed, done, m as int));
    lemma_blocks_and_rest(k * bs, bs, k, 0);
    lemma_has_block(len, bs, k);
    assert(0 <= k < theirs.len());
    assert(block == theirs[k]);
    assert(block.len() == bs);
    lemma_blocks_of_append(out, block, bs);
    assert forall|r: int| 0 <= r < runs.len() implies #[trigger] run_ok(runs, bs, post, fed, more, r) by {
        assert(run_ok(runs, bs, mid, fed, done, r));
    }
    assert(blocks_of(longer, bs).to_multiset().add(sum_all(unwritten(runs, bs, more)))
        == blocks_of_runs(runs, bs)) by {
        let before = unwritten(runs, bs, done);
        let rest = theirs.skip(k + 1).to_multiset();
        lemma_skip_step(theirs, k);
        lemma_sum_all_take_out(before, m as int, rest, block);
        assert(unwritten(runs, bs, more) =~= before.update(m as int, rest));
        assert(blocks_of(longer, bs).to_multiset() =~= blocks_of(out, bs).to_multiset().insert(block));
        assert(blocks_of(longer, bs).to_multiset().add(sum_all(unwritten(runs, bs, more)))
            =~= blocks_of(out, bs).to_multiset().add(sum_all(before)));
    }
    if runs_monotone(runs, bs) && in_order(runs, bs, mid, fed, out) {
        let written = blocks_of(out, bs);
        let longer_written = blocks_of(longer, bs);
        lemma_sorted_push(written, block);
        assert(longer_written.last() == block);
        assert forall|r: int, j: int|
            0 <= r < runs.len() && fed[r] <= j < block_count(runs[r], bs) implies lex_le(
            block,
            #[trigger] blocks_of(runs[r], bs)[j],
        ) by {
            let held = blocks_of(runs[r], bs);
            assert(run_ok(runs, bs, mid, fed, done, r));
            assert(block_monotone(runs[r], bs));
            if mid.queue.contains_key(r as usize) {
                assert(lex_le(block, mid.queue[r as usize]));
                assert(mid.queue[r as usize] == held[fed[r] - 1]);
                assert(lex_le(held[fed[r] - 1], held[j]));
                lemma_lex_le_transitive(block, held[fed[r] - 1], held[j]);
            } else {
                lemma_blocks_and_rest(runs[r].len() as int, bs, fed[r] as int, 0);
            }
        }
    }
}

/// A merge that waits for nothing, with every run asked for and nothing
/// queued, has written every block of every run.
proof fn lemma_merged(
    runs: Seq<Seq<u8>>,
    bs: int,
    st: MergeState,
    fed: Seq<usize>,
    done: Seq<int>,
    out: Seq<u8>,
)
    requires
        merging(runs, bs, st, fed, done, out),
        st.awaiting is None,
        st.primed == st.runs,
        forall|r: usize| !st.queue.contains_key(r),
    ensures
        runs_aligned(runs, bs),
        blocks_of(out, bs).to_multiset() == blocks_of_runs(runs, bs),
{
    broadcast use group_to_multiset_ensures;
    broadcast use vstd::multiset::group_multiset_axioms;

    let left = unwritten(runs, bs, done);
    assert forall|r: int| 0 <= r < runs.len() implies (#[trigger] runs[r]).len() as int % bs == 0
        && left[r] == Multiset::<Seq<u8>>::empty() by {
        assert(run_ok(runs, bs, st, fed, done, r));
        lemma_blocks_and_rest(runs[r].len() as int, bs, fed[r] as int, 0);
        assert(blocks_of(runs[r], bs).skip(done[r]) =~= Seq::<Seq<u8>>::empty());
    }
    lemma_sum_all_nothing(left);
    assert(blocks_of(out, bs).to_multiset() =~= blocks_of(out, bs).to_multiset().add(sum_all(left)));
}

/// Merges `runs` into one buffer: the whole blocks of all runs, smallest
/// first as far as each run has its own in order.
///
/// The merge succeeds where every run is made of whole blocks, and then the
/// result holds their blocks, each as often as the runs do; it is
/// block-monotone where every run is. A run that ends within a block stops
/// the merge when its end is reached.
pub fn merge_runs(runs: &Vec<Vec<u8>>, bs: usize) -> (merged: Result<Vec<u8>, SortError>)
    requires
        bs > 0,
        runs.len() * bs <= usize::MAX,
    ensures
        merged is Ok <==> runs_aligned(byte_views(runs@), bs as int),
        merged matches Ok(out) ==> {
            &&& out@.len() as int % (bs as int) == 0
            &&& blocks_of(out@, bs as int).to_multiset() == blocks_of_runs(byte_views(runs@), bs as int)
            &&& runs_monotone(byte_views(runs@), bs as int) ==> block_monotone(out@, bs as int)
        },
        merged matches Err(error) ==> {
            &&& error matches SortError::Corruption { run }
            &&& run < runs.len()
            &&& runs[run as int]@.len() as int % (bs as int) != 0
        },
{
    broadcast use group_to_multiset_ensures;
    broadcast use vstd::multiset::group_multiset_axioms;

    let ghost views = byte_views(runs@);
    let count = runs.len();
    let mut merger = Merger::new(count, bs);
    let mut fed: Vec<usize> = vec![0usize; count];
    let mut out: Vec<u8> = Vec::new();
    let ghost mut done: Seq<int> = Seq::new(count as nat, |r: int| 0int);
    proof {
        lemma_merging_starts(views, bs as int, merger@, fed@, done);
    }
    loop
        invariant
            bs > 0,
            count == runs.len(),
            views == byte_views(runs@),
            merger.wf(),
            merging(views, bs as int, merger@, fed@, done, out@),
            runs_monotone(views, bs as int) ==> in_order(views, bs as int, merger@, fed@, out@),
            merger@.awaiting is None ==> merger@.primed == merger@.runs && forall|r: usize|
                !merger@.queue.contains_key(r),
        decreases
                blocks_of_runs(views, bs as int).len() - block_count(out@, bs as int) + (count
                    - merger@.primed) + (if merger@.awaiting is Some {
                    1int
                } else {
                    0int
                }),
    {
        let run = match merger.awaiting() {
            None => {
                proof {
                    lemma_merged(views, bs as int, merger@, fed@, done, out@);
                }
                return Ok(out);
            },
            Some(run) => run,
        };
        let ghost pre = merger@;
        let ghost before = fed@;
        let ghost written = out@;
        let bytes = runs[run].as_slice();
        let len = bytes.len();
        proof {
            broadcast use group_to_multiset_ensures;
            broadcast use vstd::multiset::group_multiset_axioms;

            assert(run_ok(views, bs as int, pre, before, done, run as int));
            assert(views[run as int] == bytes@);
            assert(blocks_of(written, bs as int).to_multiset().len() == block_count(written, bs as int));
            assert(blocks_of(written, bs as int).to_multiset().len() <= blocks_of_runs(
                views,
                bs as int,
            ).len());
            assert(fed[run as int] * bs + bs <= len ==> fed[run as int] + 1 <= len) by (nonlinear_arith)
                requires
                    bs > 0,
            ;
        }
        let at: usize = fed[run] * bs;
        let data = if len - at >= bs {
            fed.set(run, fed[run] + 1);
            vstd::slice::slice_subrange(bytes, at, at + bs)
        } else {
            vstd::slice::slice_subrange(bytes, at, len)
        };
        let answer = merger.feed(data);
        proof {
            if data@.len() != 0 && data@.len() != bs {
                lemma_blocks_and_rest(bytes@.len() as int, bs as int, before[run as int] as int, data@.len() as int);
                assert(views[run as int].len() as int % (bs as int) != 0);
            } else {
                lemma_after_read(views, bs as int, pre, before, done, written, data@, fed@);
            }
        }
        match answer {
            Err(error) => {
                return Err(error);
            },
            Ok(None) => {
                proof {
                    let mid = between(pre, data@);
                    if pre.primed < pre.runs {
                        lemma_then_next_run(views, bs as int, mid, fed@, done, written, merger@);
                    } else {
                        assert(merger@ == mid);
                    }
                }
            },
            Ok(Some(block)) => {
                out.extend_from_slice(block.as_slice());
                proof {
                    let mid = between(pre, data@);
                    let next = merger@.awaiting->0 as int;
                    assert(out@ =~= written + block@);
                    lemma_then_write(views, bs as int, mid, fed@, done, written, merger@, block@);
                    done = done.update(next, done[next] + 1);
                }
            },
        }
    }
}

} // verus!
