//! A binary min-heap of block numbers.
//!
//! The heap holds numbers of blocks of a byte buffer that the caller keeps. It
//! orders them by the blocks they name, smallest first, so no block is moved
//! while the heap is rearranged.

use vstd::prelude::*;
use vstd::multiset::Multiset;
use vstd::seq_lib::group_to_multiset_ensures;
use vstd::seq_lib::to_multiset_update;
use crate::block::{
    block_at, block_le, has_block, lemma_lex_le_reflexive, lemma_lex_le_total,
    lemma_lex_le_transitive, lex_le,
};

verus! {

/// The blocks that the block numbers `ids` name, in the same order.
pub open spec fn keys_of(buf: Seq<u8>, bs: int, ids: Seq<usize>) -> Seq<Seq<u8>> {
    Seq::new(ids.len(), |i: int| block_at(buf, bs, ids[i] as int))
}

/// `c` is the position of a child of position `p` in the heap's array.
pub open spec fn child_of(p: int, c: int) -> bool {
    0 <= p && (c == 2 * p + 1 || c == 2 * p + 2)
}

/// Every position holds a key that is no smaller than its parent's.
pub open spec fn heap_ordered(keys: Seq<Seq<u8>>) -> bool {
    forall|p: int, c: int|
        child_of(p, c) && c < keys.len() ==> lex_le(#[trigger] keys[p], #[trigger] keys[c])
}

/// The heap order, but for the key at `pos`, which may be smaller than its
/// parent's. The parent is still no larger than the children of `pos`.
spec fn ordered_above(keys: Seq<Seq<u8>>, pos: int) -> bool {
    &&& forall|p: int, c: int|
        child_of(p, c) && c < keys.len() && c != pos ==> lex_le(#[trigger] keys[p], #[trigger] keys[c])
    &&& forall|g: int, c: int|
        child_of(g, pos) && child_of(pos, c) && c < keys.len() ==> lex_le(
            #[trigger] keys[g],
            #[trigger] keys[c],
        )
}

/// The heap order, but for the key at `pos`, which may be larger than its
/// children's. The parent of `pos` is still no larger than those children.
spec fn ordered_below(keys: Seq<Seq<u8>>, pos: int) -> bool {
    &&& forall|p: int, c: int|
        child_of(p, c) && c < keys.len() && p != pos ==> lex_le(#[trigger] keys[p], #[trigger] keys[c])
    &&& forall|g: int, c: int|
        child_of(g, pos) && child_of(pos, c) && c < keys.len() ==> lex_le(
            #[trigger] keys[g],
            #[trigger] keys[c],
        )
}

/// In a heap-ordered array the first key is a smallest one.
proof fn lemma_root_is_least(keys: Seq<Seq<u8>>, i: int)
    requires
        heap_ordered(keys),
        0 <= i < keys.len(),
    ensures
        lex_le(keys[0], keys[i]),
    decreases i,
{
    if i == 0 {
        lemma_lex_le_reflexive(keys[0]);
    } else {
        let p = (i - 1) / 2;
        assert(child_of(p, i));
        lemma_root_is_least(keys, p);
        lemma_lex_le_transitive(keys[0], keys[p], keys[i]);
    }
}

/// Exchanging two entries of a sequence keeps what it holds.
proof fn lemma_swap_keeps_contents(s: Seq<usize>, i: int, j: int)
    requires
        0 <= i < s.len(),
        0 <= j < s.len(),
    ensures
        s.update(i, s[j]).update(j, s[i]).to_multiset() == s.to_multiset(),
{
    broadcast use group_to_multiset_ensures;
    broadcast use vstd::multiset::group_multiset_axioms;

    let t = s.update(i, s[j]);
    to_multiset_update(s, i, s[j]);
    to_multiset_update(t, j, s[i]);
    assert(s.to_multiset().contains(s[i]));
    assert(s.to_multiset().contains(s[j]));
    assert(t.update(j, s[i]).to_multiset() =~= s.to_multiset());
}

/// Rows of block numbers that hold the same numbers name the same blocks,
/// each as often.
pub proof fn lemma_keys_follow_ids(buf: Seq<u8>, bs: int, a: Seq<usize>, b: Seq<usize>)
    requires
        a.to_multiset() == b.to_multiset(),
    ensures
        keys_of(buf, bs, a).to_multiset() == keys_of(buf, bs, b).to_multiset(),
    decreases a.len(),
{
    broadcast use group_to_multiset_ensures;

    if a.len() == 0 {
        assert(a.to_multiset().len() == a.len());
        assert(b.to_multiset().len() == b.len());
        assert(keys_of(buf, bs, a) =~= keys_of(buf, bs, b));
    } else {
        let x = a.last();
        assert(a =~= a.drop_last().push(x));
        assert(a.to_multiset().contains(x));
        assert(b.contains(x));
        let i = choose|i: int| 0 <= i < b.len() && b[i] == x;
        let rest = b.remove(i);
        assert(rest.to_multiset() =~= a.drop_last().to_multiset()) by {
            broadcast use vstd::multiset::group_multiset_axioms;

        }
        lemma_keys_follow_ids(buf, bs, a.drop_last(), rest);
        let key = block_at(buf, bs, x as int);
        assert(keys_of(buf, bs, a) =~= keys_of(buf, bs, a.drop_last()).push(key));
        assert(keys_of(buf, bs, b) =~= keys_of(buf, bs, rest).insert(i, key));
        vstd::seq_lib::to_multiset_insert(keys_of(buf, bs, rest), i, key);
    }
}

/// A min-heap of block numbers, ordered by the blocks of a caller's buffer.
pub struct BlockHeap {
    slots: Vec<usize>,
}

impl BlockHeap {
    /// The block numbers in the heap, in the order of its array.
    pub closed spec fn view(&self) -> Seq<usize> {
        self.slots@
    }

    /// The block numbers in the heap, each as often as it was pushed and not
    /// yet popped.
    pub open spec fn ids(&self) -> Multiset<usize> {
        self@.to_multiset()
    }

    /// The heap is well formed over the buffer `buf` with blocks of `bs`
    /// bytes: every number names a whole block of `buf`, and the array is
    /// heap-ordered by those blocks.
    pub closed spec fn wf(&self, buf: Seq<u8>, bs: int) -> bool {
        &&& forall|i: int|
            0 <= i < self.slots@.len() ==> has_block(buf.len() as int, bs, #[trigger] self.slots@[i] as int)
        &&& heap_ordered(keys_of(buf, bs, self.slots@))
    }

    /// A well-formed heap stays so when the buffer changes outside the blocks
    /// that the heap names.
    pub proof fn lemma_wf_frame(&self, buf: Seq<u8>, other: Seq<u8>, bs: int)
        requires
            self.wf(buf, bs),
            other.len() == buf.len(),
            forall|id: usize|
                self.ids().contains(id) ==> block_at(other, bs, id as int) == block_at(buf, bs, id as int),
        ensures
            self.wf(other, bs),
    {
        broadcast use group_to_multiset_ensures;

        assert forall|i: int| 0 <= i < self.slots@.len() implies block_at(
            other,
            bs,
            #[trigger] self.slots@[i] as int,
        ) == block_at(buf, bs, self.slots@[i] as int) by {
            assert(self.slots@.contains(self.slots@[i]));
        }
        assert(keys_of(other, bs, self.slots@) =~= keys_of(buf, bs, self.slots@));
    }

    /// Every number in a well-formed heap names a whole block of the buffer.
    pub proof fn lemma_ids_have_blocks(&self, buf: Seq<u8>, bs: int)
        requires
            self.wf(buf, bs),
        ensures
            forall|id: usize| self.ids().contains(id) ==> has_block(buf.len() as int, bs, id as int),
    {
        broadcast use group_to_multiset_ensures;

        assert forall|id: usize| self.ids().contains(id) implies has_block(
            buf.len() as int,
            bs,
            id as int,
        ) by {
            assert(self.slots@.contains(id));
            let i = choose|i: int| 0 <= i < self.slots@.len() && self.slots@[i] == id;
            assert(has_block(buf.len() as int, bs, self.slots@[i] as int));
        }
    }

    /// An empty heap.
    pub fn new() -> (heap: BlockHeap)
        ensures
            heap@ == Seq::<usize>::empty(),
            forall|buf: Seq<u8>, bs: int| #[trigger] heap.wf(buf, bs),
    {
        BlockHeap { slots: Vec::new() }
    }

    /// How many block numbers the heap holds.
    pub fn len(&self) -> (n: usize)
        ensures
            n == self@.len(),
            n == self.ids().len(),
    {
        broadcast use group_to_multiset_ensures;

        self.slots.len()
    }

    /// Whether the heap holds nothing.
    pub fn is_empty(&self) -> (empty: bool)
        ensures
            empty == (self@.len() == 0),
            empty == (self.ids().len() == 0),
    {
        broadcast use group_to_multiset_ensures;

        self.slots.len() == 0
    }

    /// Adds block number `id`.
    pub fn push(&mut self, buf: &[u8], bs: usize, id: usize)
        requires
            old(self).wf(buf@, bs as int),
            has_block(buf@.len() as int, bs as int, id as int),
        ensures
            final(self).wf(buf@, bs as int),
            final(self).ids() == old(self).ids().insert(id),
            final(self)@.len() == old(self)@.len() + 1,
    {
        broadcast use group_to_multiset_ensures;

        let ghost before = self.slots@;
        self.slots.push(id);
        let mut pos: usize = self.slots.len() - 1;
        proof {
            let keys = keys_of(buf@, bs as int, self.slots@);
            let prior = keys_of(buf@, bs as int, before);
            assert(forall|i: int| 0 <= i < prior.len() ==> #[trigger] keys[i] == prior[i]);
            assert(ordered_above(keys, pos as int));
        }
        loop
            invariant
                pos < self.slots@.len(),
                self.slots@.len() == before.len() + 1,
                self.slots@.to_multiset() == before.to_multiset().insert(id),
                forall|i: int|
                    0 <= i < self.slots@.len() ==> has_block(
                        buf@.len() as int,
                        bs as int,
                        #[trigger] self.slots@[i] as int,
                    ),
                ordered_above(keys_of(buf@, bs as int, self.slots@), pos as int),
            ensures
                self.slots@.len() == before.len() + 1,
                self.slots@.to_multiset() == before.to_multiset().insert(id),
                forall|i: int|
                    0 <= i < self.slots@.len() ==> has_block(
                        buf@.len() as int,
                        bs as int,
                        #[trigger] self.slots@[i] as int,
                    ),
                heap_ordered(keys_of(buf@, bs as int, self.slots@)),
            decreases pos,
        {
            if pos == 0 {
                break ;
            }
            let parent: usize = (pos - 1) / 2;
            let child_id = self.slots[pos];
            let parent_id = self.slots[parent];
            let ghost ids = self.slots@;
            let ghost keys = keys_of(buf@, bs as int, ids);
            assert(child_of(parent as int, pos as int));
            if block_le(buf, bs, parent_id, child_id) {
                assert(lex_le(keys[parent as int], keys[pos as int]));
                break ;
            }
            self.slots.set(parent, child_id);
            self.slots.set(pos, parent_id);
            proof {
                let moved = keys_of(buf@, bs as int, self.slots@);
                lemma_swap_keeps_contents(ids, parent as int, pos as int);
                assert(moved =~= keys.update(parent as int, keys[pos as int]).update(
                    pos as int,
                    keys[parent as int],
                ));
                lemma_lex_le_total(keys[parent as int], keys[pos as int]);
                assert forall|p: int, c: int|
                    child_of(p, c) && c < moved.len() && c != parent implies lex_le(
                    #[trigger] moved[p],
                    #[trigger] moved[c],
                ) by {
                    if p == parent && c != pos {
                        assert(lex_le(keys[p], keys[c]));
                        lemma_lex_le_transitive(keys[pos as int], keys[parent as int], keys[c]);
                    } else if p == pos as int {
                        assert(lex_le(keys[parent as int], keys[c]));
                    } else if c != pos {
                        assert(lex_le(keys[p], keys[c]));
                    }
                }
                assert forall|g: int, c: int|
                    child_of(g, parent as int) && child_of(parent as int, c) && c
                        < moved.len() implies lex_le(#[trigger] moved[g], #[trigger] moved[c]) by {
                    assert(lex_le(keys[g], keys[parent as int]));
                    if c != pos {
                        assert(lex_le(keys[parent as int], keys[c]));
                        lemma_lex_le_transitive(keys[g], keys[parent as int], keys[c]);
                    }
                }
            }
            pos = parent;
        }
    }

    /// Takes out a block number whose block is a smallest one, if the heap
    /// holds any. Which of several equal blocks leaves is not fixed.
    pub fn pop(&mut self, buf: &[u8], bs: usize) -> (least: Option<usize>)
        requires
            old(self).wf(buf@, bs as int),
        ensures
            final(self).wf(buf@, bs as int),
            least is None ==> old(self)@.len() == 0 && final(self)@ == old(self)@,
            least matches Some(id) ==> {
                &&& old(self).ids().contains(id)
                &&& final(self).ids() == old(self).ids().remove(id)
                &&& final(self)@.len() == old(self)@.len() - 1
                &&& has_block(buf@.len() as int, bs as int, id as int)
                &&& forall|other: usize| #[trigger]
                    old(self).ids().contains(other) ==> lex_le(
                        block_at(buf@, bs as int, id as int),
                        block_at(buf@, bs as int, other as int),
                    )
            },
    {
        broadcast use group_to_multiset_ensures;
        broadcast use vstd::multiset::group_multiset_axioms;

        let n = self.slots.len();
        if n == 0 {
            return None;
        }
        let ghost before = self.slots@;
        let ghost before_keys = keys_of(buf@, bs as int, before);
        let top = self.slots[0];
        proof {
            assert(before.contains(top));
            assert forall|other: usize| #[trigger]
                before.to_multiset().contains(other) implies lex_le(
                block_at(buf@, bs as int, top as int),
                block_at(buf@, bs as int, other as int),
            ) by {
                assert(before.contains(other));
                let i = choose|i: int| 0 <= i < before.len() && before[i] == other;
                lemma_root_is_least(before_keys, i);
            }
        }
        let last = self.slots.pop().unwrap();
        if n == 1 {
            proof {
                assert(self.slots@ =~= Seq::<usize>::empty());
                assert(before =~= seq![top]);
                assert(self.slots@.to_multiset() =~= before.to_multiset().remove(top));
            }
            return Some(top);
        }
        self.slots.set(0, last);
        let mut pos: usize = 0;
        let size: usize = n - 1;
        proof {
            let shorter = before.drop_last();
            assert(before =~= shorter.push(last));
            to_multiset_update(shorter, 0, last);
            assert(self.slots@.to_multiset() =~= before.to_multiset().remove(top));
            let keys = keys_of(buf@, bs as int, self.slots@);
            assert forall|p: int, c: int|
                child_of(p, c) && c < keys.len() && p != 0 implies lex_le(
                #[trigger] keys[p],
                #[trigger] keys[c],
            ) by {
                assert(lex_le(before_keys[p], before_keys[c]));
            }
            assert(ordered_below(keys, 0));
        }
        loop
            invariant
                pos < size,
                size == self.slots@.len(),
                size == before.len() - 1,
                self.slots@.to_multiset() == before.to_multiset().remove(top),
                forall|i: int|
                    0 <= i < self.slots@.len() ==> has_block(
                        buf@.len() as int,
                        bs as int,
                        #[trigger] self.slots@[i] as int,
                    ),
                ordered_below(keys_of(buf@, bs as int, self.slots@), pos as int),
            ensures
                size == self.slots@.len(),
                self.slots@.to_multiset() == before.to_multiset().remove(top),
                forall|i: int|
                    0 <= i < self.slots@.len() ==> has_block(
                        buf@.len() as int,
                        bs as int,
                        #[trigger] self.slots@[i] as int,
                    ),
                heap_ordered(keys_of(buf@, bs as int, self.slots@)),
            decreases size - pos,
        {
            let ghost ids = self.slots@;
            let ghost keys = keys_of(buf@, bs as int, ids);
            if pos >= size / 2 {
                break ;
            }
            let left: usize = 2 * pos + 1;
            let right: usize = left + 1;
            let mut small: usize = left;
            if right < size {
                if !block_le(buf, bs, self.slots[left], self.slots[right]) {
                    small = right;
                    proof {
                        lemma_lex_le_total(keys[left as int], keys[right as int]);
                    }
                }
            }
            let here_id = self.slots[pos];
            let small_id = self.slots[small];
            assert(child_of(pos as int, small as int));
            proof {
                lemma_lex_le_reflexive(keys[small as int]);
            }
            assert(forall|c: int|
                child_of(pos as int, c) && c < keys.len() ==> lex_le(keys[small as int], #[trigger] keys[c]));
            if block_le(buf, bs, here_id, small_id) {
                proof {
                    assert forall|p: int, c: int| child_of(p, c) && c < keys.len() implies lex_le(
                        #[trigger] keys[p],
                        #[trigger] keys[c],
                    ) by {
                        if p == pos {
                            lemma_lex_le_transitive(keys[pos as int], keys[small as int], keys[c]);
                        }
                    }
                }
                break ;
            }
            self.slots.set(pos, small_id);
            self.slots.set(small, here_id);
            proof {
                let moved = keys_of(buf@, bs as int, self.slots@);
                lemma_swap_keeps_contents(ids, pos as int, small as int);
                assert(moved =~= keys.update(pos as int, keys[small as int]).update(
                    small as int,
                    keys[pos as int],
                ));
                lemma_lex_le_total(keys[pos as int], keys[small as int]);
                assert forall|p: int, c: int|
                    child_of(p, c) && c < moved.len() && p != small implies lex_le(
                    #[trigger] moved[p],
                    #[trigger] moved[c],
                ) by {
                    if p == pos {
                        assert(lex_le(keys[small as int], keys[c]));
                    } else if c == pos as int {
                        assert(lex_le(keys[p], keys[small as int]));
                    } else {
                        assert(lex_le(keys[p], keys[c]));
                    }
                }
                assert forall|g: int, c: int|
                    child_of(g, small as int) && child_of(small as int, c) && c
                        < moved.len() implies lex_le(#[trigger] moved[g], #[trigger] moved[c]) by {
                    assert(lex_le(keys[small as int], keys[c]));
                }
            }
            pos = small;
        }
        Some(top)
    }
}

} // verus!
