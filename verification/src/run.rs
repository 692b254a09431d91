//! Sorting one run: a stretch of the source that fits in memory.

use vstd::prelude::*;
use vstd::seq_lib::group_to_multiset_ensures;
use vstd::multiset::Multiset;
use crate::block::{
    block_at, block_count, block_monotone, block_ref, blocks_of, blocks_sorted, has_block,
    lemma_block_count_step, lemma_blocks_of_append, lemma_has_block, lemma_lex_le_reflexive, lex_le,
};
use crate::heap::{keys_of, lemma_keys_follow_ids, BlockHeap};

verus! {

/// `out` is the block sort of `src`: it holds the whole blocks of `src`, each
/// as often as `src` does and nothing else, in non-decreasing order.
pub open spec fn is_block_sort_of(out: Seq<u8>, src: Seq<u8>, bs: int) -> bool {
    &&& out.len() == block_count(src, bs) * bs
    &&& block_monotone(out, bs)
    &&& blocks_of(out, bs).to_multiset() == blocks_of(src, bs).to_multiset()
}

/// Every block named in `order` precedes or equals every block named in `ids`.
pub open spec fn all_precede(buf: Seq<u8>, bs: int, order: Seq<usize>, ids: Multiset<usize>) -> bool {
    forall|i: int, other: usize|
        #![trigger order[i], ids.contains(other)]
        0 <= i < order.len() && ids.contains(other) ==> lex_le(
            block_at(buf, bs, order[i] as int),
            block_at(buf, bs, other as int),
        )
}

/// The numbers `0`, `1`, and so on below `n`.
pub open spec fn first_ids(n: int) -> Seq<usize> {
    Seq::new(n as nat, |k: int| k as usize)
}

/// The numbers of the whole blocks of `buf` in the order of their blocks,
/// smallest first: each number once, and no block before a smaller one. The
/// buffer itself is left as it is, so that a caller can write the blocks out
/// of it one after the other. Equal blocks may come in any order. The work
/// takes room for two numbers for each block, and none for a block.
pub fn sorted_order(buf: &[u8], bs: usize) -> (order: Vec<usize>)
    requires
        bs > 0,
    ensures
        order@.to_multiset() == first_ids(block_count(buf@, bs as int)).to_multiset(),
        blocks_sorted(keys_of(buf@, bs as int, order@)),
        order@.len() == block_count(buf@, bs as int),
        forall|i: int|
            0 <= i < order@.len() ==> has_block(buf@.len() as int, bs as int, #[trigger] order@[i] as int),
{
    broadcast use group_to_multiset_ensures;
    broadcast use vstd::multiset::group_multiset_axioms;

    let n: usize = buf.len() / bs;
    let ghost all = first_ids(n as int);
    let mut heap = BlockHeap::new();
    let mut next: usize = 0;
    while next < n
        invariant
            next <= n,
            bs > 0,
            n == buf@.len() as int / (bs as int),
            heap.wf(buf@, bs as int),
            heap.ids() == first_ids(next as int).to_multiset(),
        decreases n - next,
    {
        proof {
            lemma_has_block(buf@.len() as int, bs as int, next as int);
            assert(first_ids(next as int + 1) =~= first_ids(next as int).push(next));
            vstd::seq_lib::to_multiset_build(first_ids(next as int), next);
            assert(first_ids(next as int + 1).to_multiset() =~= first_ids(next as int).to_multiset().insert(
                next,
            ));
        }
        heap.push(buf, bs, next);
        next += 1;
    }
    let mut order: Vec<usize> = Vec::with_capacity(n);
    proof {
        assert(keys_of(buf@, bs as int, order@) =~= Seq::<Seq<u8>>::empty());
    }
    loop
        invariant
            bs > 0,
            heap.wf(buf@, bs as int),
            order@.to_multiset().add(heap.ids()) == all.to_multiset(),
            blocks_sorted(keys_of(buf@, bs as int, order@)),
            all_precede(buf@, bs as int, order@, heap.ids()),
            forall|i: int|
                0 <= i < order@.len() ==> has_block(
                    buf@.len() as int,
                    bs as int,
                    #[trigger] order@[i] as int,
                ),
        ensures
            heap.ids().len() == 0,
            order@.to_multiset().add(heap.ids()) == all.to_multiset(),
            blocks_sorted(keys_of(buf@, bs as int, order@)),
            forall|i: int|
                0 <= i < order@.len() ==> has_block(
                    buf@.len() as int,
                    bs as int,
                    #[trigger] order@[i] as int,
                ),
        decreases heap@.len(),
    {
        let ghost queued = heap.ids();
        let ghost before = order@;
        let ghost keys = keys_of(buf@, bs as int, before);
        match heap.pop(buf, bs) {
            None => {
                proof {
                    vstd::seq_lib::to_multiset_len(heap@);
                }
                break ;
            },
            Some(id) => {
                order.push(id);
                proof {
                    let block = block_at(buf@, bs as int, id as int);
                    let longer = order@;
                    let more = keys_of(buf@, bs as int, longer);
                    assert(more =~= keys.push(block));
                    assert forall|i: int, j: int| 0 <= i <= j < more.len() implies lex_le(
                        #[trigger] more[i],
                        #[trigger] more[j],
                    ) by {
                        if j < keys.len() {
                            assert(lex_le(keys[i], keys[j]));
                        } else if i < keys.len() {
                            assert(queued.contains(id));
                            assert(lex_le(
                                block_at(buf@, bs as int, before[i] as int),
                                block_at(buf@, bs as int, id as int),
                            ));
                        } else {
                            lemma_lex_le_reflexive(block);
                        }
                    }
                    assert forall|i: int, other: usize|
                        #![trigger longer[i], heap.ids().contains(other)]
                        0 <= i < longer.len() && heap.ids().contains(other) implies lex_le(
                        block_at(buf@, bs as int, longer[i] as int),
                        block_at(buf@, bs as int, other as int),
                    ) by {
                        assert(queued.contains(other));
                        if i < before.len() {
                            assert(lex_le(
                                block_at(buf@, bs as int, before[i] as int),
                                block_at(buf@, bs as int, other as int),
                            ));
                        }
                    }
                    vstd::seq_lib::to_multiset_build(before, id);
                    assert(longer.to_multiset().add(heap.ids()) =~= before.to_multiset().add(queued));
                }
            },
        }
    }
    proof {
        assert(heap.ids() =~= Multiset::empty());
        assert(order@.to_multiset() =~= all.to_multiset());
        assert(order@.to_multiset().len() == order@.len());
        assert(all.to_multiset().len() == all.len());
    }
    order
}

/// Sorts the whole blocks of `buf` and returns them in one buffer. Bytes of
/// `buf` behind its last whole block are left out. Equal blocks may come out
/// in any order, which no one can tell.
pub fn sort_run(buf: &[u8], bs: usize) -> (out: Vec<u8>)
    requires
        bs > 0,
    ensures
        is_block_sort_of(out@, buf@, bs as int),
{
    let order = sorted_order(buf, bs);
    let mut out: Vec<u8> = Vec::with_capacity(buf.len());
    let mut i: usize = 0;
    proof {
        assert(blocks_of(out@, bs as int) =~= keys_of(buf@, bs as int, order@.take(0)));
    }
    while i < order.len()
        invariant
            bs > 0,
            i <= order@.len(),
            out@.len() as int % (bs as int) == 0,
            blocks_of(out@, bs as int) == keys_of(buf@, bs as int, order@.take(i as int)),
            forall|k: int|
                0 <= k < order@.len() ==> has_block(
                    buf@.len() as int,
                    bs as int,
                    #[trigger] order@[k] as int,
                ),
        decreases order@.len() - i,
    {
        let ghost written = out@;
        let block = block_ref(buf, bs, order[i]);
        out.extend_from_slice(block);
        proof {
            assert(out@ =~= written + block@);
            lemma_blocks_of_append(written, block@, bs as int);
            assert(keys_of(buf@, bs as int, order@.take(i as int + 1)) =~= keys_of(
                buf@,
                bs as int,
                order@.take(i as int),
            ).push(block@));
        }
        i += 1;
    }
    proof {
        let all = first_ids(block_count(buf@, bs as int));
        assert(order@.take(order@.len() as int) =~= order@);
        lemma_keys_follow_ids(buf@, bs as int, order@, all);
        assert(keys_of(buf@, bs as int, all) =~= blocks_of(buf@, bs as int));
        lemma_block_count_step(out@.len() as int, bs as int);
        assert(blocks_of(out@, bs as int).len() == order@.len());
    }
    out
}

} // verus!
