//! The k-way merge.
//!
//! [`Merger`] decides; its caller reads and writes. The merger asks for one
//! read at a time, names the run to read, and answers each read with the next
//! block of the output, once every run has been read once.

use vstd::prelude::*;
use vstd::seq_lib::group_to_multiset_ensures;
use crate::block::{block_at, block_ref, has_block, lex_le, store_block};
use crate::error::SortError;
use crate::heap::BlockHeap;

verus! {

/// What a merger holds, as far as its answers depend on it.
pub struct MergeState {
    /// Bytes in a block.
    pub block_size: nat,
    /// Number of runs to merge.
    pub runs: nat,
    /// Number of runs that were asked for so far: run `0` up to this number.
    pub primed: nat,
    /// The run whose next read the merger waits for, if it waits.
    pub awaiting: Option<usize>,
    /// The head block of each run that has one queued.
    pub queue: Map<usize, Seq<u8>>,
}

/// The queue of `pre` after the answer `data` to the read that `pre` waits
/// for: a whole block joins the queue under the run it came from, anything
/// else leaves the queue as it is.
pub open spec fn queue_after_read(pre: MergeState, data: Seq<u8>) -> Map<usize, Seq<u8>> {
    if pre.awaiting is Some && data.len() == pre.block_size {
        pre.queue.insert(pre.awaiting->0, data)
    } else {
        pre.queue
    }
}

/// Run `run` has a block queued, and no queued block is smaller.
pub open spec fn least_in(queue: Map<usize, Seq<u8>>, run: usize) -> bool {
    &&& queue.contains_key(run)
    &&& forall|other: usize| #[trigger] queue.contains_key(other) ==> lex_le(queue[run], queue[other])
}

/// How one read changes a merger, and what the merger answers.
///
/// A merger that waits for nothing stays as it is. A read of neither a whole
/// block nor nothing is a cut-short run: the merger reports it and stops
/// waiting. Otherwise a whole block is queued under its run, and then: while
/// some run was never asked for, the merger asks for the next one; when the
/// queue is empty, it stops; else it takes a smallest block out of the queue,
/// hands it over to be written, and asks for the run it came from.
pub open spec fn feed_spec(
    pre: MergeState,
    data: Seq<u8>,
    post: MergeState,
    answer: Result<Option<Vec<u8>>, SortError>,
) -> bool {
    let queue = queue_after_read(pre, data);
    &&& post.block_size == pre.block_size
    &&& post.runs == pre.runs
    &&& match pre.awaiting {
        None => post == pre && answer == Ok::<Option<Vec<u8>>, SortError>(None),
        Some(run) => {
            if data.len() != 0 && data.len() != pre.block_size {
                &&& answer == Err::<Option<Vec<u8>>, SortError>(SortError::Corruption { run })
                &&& post.awaiting is None
                &&& post.queue == pre.queue
                &&& post.primed == pre.primed
            } else if pre.primed < pre.runs {
                &&& answer == Ok::<Option<Vec<u8>>, SortError>(None)
                &&& post.awaiting == Some(pre.primed as usize)
                &&& post.queue == queue
                &&& post.primed == pre.primed + 1
            } else if forall|r: usize| !queue.contains_key(r) {
                &&& answer == Ok::<Option<Vec<u8>>, SortError>(None)
                &&& post.awaiting is None
                &&& post.queue == queue
                &&& post.primed == pre.primed
            } else {
                &&& post.awaiting matches Some(least)
                &&& least_in(queue, least)
                &&& post.queue == queue.remove(least)
                &&& post.primed == pre.primed
                &&& answer matches Ok(Some(block))
                &&& block@ == queue[least]
            }
        },
    }
}

/// The deciding half of a k-way merge over `runs` runs of blocks.
pub struct Merger {
    block_size: usize,
    runs: usize,
    /// One slot of `block_size` bytes for each run: its head block while the
    /// run is queued.
    heads: Vec<u8>,
    /// The runs that have a head block queued.
    heap: BlockHeap,
    awaiting: Option<usize>,
    primed: usize,
}

impl View for Merger {
    type V = MergeState;

    closed spec fn view(&self) -> MergeState {
        MergeState {
            block_size: self.block_size as nat,
            runs: self.runs as nat,
            primed: self.primed as nat,
            awaiting: self.awaiting,
            queue: Map::new(
                |r: usize| self.heap.ids().contains(r),
                |r: usize| block_at(self.heads@, self.block_size as int, r as int),
            ),
        }
    }
}

impl Merger {
    /// The merger is well formed: it has a slot for each run, at most one
    /// queue entry for a run, none for a run it never asked for, and none for
    /// the run it waits for.
    pub closed spec fn wf(&self) -> bool {
        &&& self.block_size > 0
        &&& self.heads@.len() == self.runs * self.block_size
        &&& self.runs * self.block_size <= usize::MAX
        &&& self.heap.wf(self.heads@, self.block_size as int)
        &&& self.primed <= self.runs
        &&& forall|r: usize| self.heap.ids().count(r) <= 1
        &&& forall|r: usize| #[trigger] self.heap.ids().count(r) > 0 ==> r < self.primed
        &&& self.awaiting matches Some(run) ==> run < self.primed && self.heap.ids().count(run) == 0
    }

    /// A merger for `runs` runs of blocks of `block_size` bytes. It waits for
    /// the first read of run `0`, or for nothing where there is no run.
    pub fn new(runs: usize, block_size: usize) -> (merger: Merger)
        requires
            block_size > 0,
            runs * block_size <= usize::MAX,
        ensures
            merger.wf(),
            merger@.block_size == block_size,
            merger@.runs == runs,
            merger@.primed == (if runs == 0 {
                0nat
            } else {
                1nat
            }),
            merger@.awaiting == (if runs == 0 {
                None
            } else {
                Some(0usize)
            }),
            forall|r: usize| !merger@.queue.contains_key(r),
    {
        broadcast use group_to_multiset_ensures;

        let heads: Vec<u8> = vec![0u8; runs * block_size];
        let heap = BlockHeap::new();
        let merger = if runs == 0 {
            Merger { block_size, runs, heads, heap, awaiting: None, primed: 0 }
        } else {
            Merger { block_size, runs, heads, heap, awaiting: Some(0), primed: 1 }
        };
        assert(merger.heap.wf(merger.heads@, block_size as int));
        merger
    }

    /// The run to read next, if the merger waits for a read. `None` when the
    /// merge is over.
    pub fn awaiting(&self) -> (run: Option<usize>)
        requires
            self.wf(),
        ensures
            run == self@.awaiting,
            run matches Some(r) ==> r < self@.runs,
    {
        self.awaiting
    }

    /// The bytes that the merger keeps for head blocks: room for one block of
    /// each run, whatever is queued.
    pub fn head_bytes(&self) -> (bytes: usize)
        requires
            self.wf(),
        ensures
            bytes == self@.runs * self@.block_size,
    {
        self.heads.len()
    }

    /// Takes the answer to the read that the merger waits for: the next block
    /// of that run, or no byte at all where the run is at its end. Returns the
    /// block to write next, if there is one. Afterwards `awaiting` names the
    /// run to read next.
    pub fn feed(&mut self, data: &[u8]) -> (answer: Result<Option<Vec<u8>>, SortError>)
        requires
            old(self).wf(),
        ensures
            final(self).wf(),
            feed_spec(old(self)@, data@, final(self)@, answer),
    {
        broadcast use group_to_multiset_ensures;
        broadcast use vstd::multiset::group_multiset_axioms;

        let ghost pre = self@;
        let ghost queue = queue_after_read(pre, data@);
        let run = match self.awaiting {
            None => {
                return Ok(None);
            },
            Some(run) => run,
        };
        let block_size = self.block_size;
        if data.len() == block_size {
            let ghost before = self.heads@;
            proof {
                assert(run < self.runs);
                lemma_run_slot(self.runs as int, block_size as int, run as int);
                self.heap.lemma_ids_have_blocks(before, block_size as int);
            }
            store_block(&mut self.heads, block_size, run, data);
            proof {
                self.heap.lemma_wf_frame(before, self.heads@, block_size as int);
            }
            self.heap.push(self.heads.as_slice(), block_size, run);
            proof {
                assert(self@.queue =~= queue);
            }
        } else if data.len() != 0 {
            self.awaiting = None;
            proof {
                assert(self@.queue =~= pre.queue);
            }
            return Err(SortError::Corruption { run });
        } else {
            proof {
                assert(self@.queue =~= queue);
            }
        }
        if self.primed < self.runs {
            self.awaiting = Some(self.primed);
            self.primed = self.primed + 1;
            proof {
                assert(self@.queue =~= queue);
            }
            return Ok(None);
        }
        let ghost queued = self.heap.ids();
        match self.heap.pop(self.heads.as_slice(), block_size) {
            None => {
                self.awaiting = None;
                proof {
                    assert(queued.len() == 0);
                    assert(forall|r: usize| !queued.contains(r));
                    assert(self@.queue =~= queue);
                }
                Ok(None)
            },
            Some(least) => {
                self.awaiting = Some(least);
                let block = vstd::slice::slice_to_vec(block_ref(self.heads.as_slice(), block_size, least));
                proof {
                    assert(queue.contains_key(least));
                    assert(self@.queue =~= queue.remove(least));
                    assert forall|other: usize| #[trigger] queue.contains_key(other) implies lex_le(
                        queue[least],
                        queue[other],
                    ) by {
                        assert(queued.contains(other));
                    }
                }
                Ok(Some(block))
            },
        }
    }
}

/// The slot of a run lies within the slots of all runs.
proof fn lemma_run_slot(runs: int, bs: int, run: int)
    requires
        bs > 0,
        0 <= run < runs,
    ensures
        has_block(runs * bs, bs, run),
{
    assert(run * bs + bs <= runs * bs) by (nonlinear_arith)
        requires
            bs > 0,
            0 <= run < runs,
    {
        assert(run * bs + bs == (run + 1) * bs);
        assert((run + 1) * bs <= runs * bs);
    }
}

} // verus!
