//! The permit pool that bounds how many run buffers exist at a time.
//!
//! The pool only counts. Its caller waits: a worker that is refused a permit
//! tries again when another worker has put one back.

use vstd::prelude::*;

verus! {

/// What a pool holds.
pub struct PoolState {
    /// How many permits there are in all.
    pub capacity: nat,
    /// How many permits are taken and not yet put back.
    pub held: nat,
}

/// What a caller asks of a pool.
pub enum PoolEvent {
    /// A worker wants a permit.
    Take,
    /// A worker puts its permit back.
    Put,
}

/// Whether a pool in state `state` grants what `event` asks: a permit where
/// one is free, a return where a permit is out.
pub open spec fn pool_grants(state: PoolState, event: PoolEvent) -> bool {
    match event {
        PoolEvent::Take => state.held < state.capacity,
        PoolEvent::Put => state.held > 0,
    }
}

/// The state of a pool after `event`. What the pool does not grant leaves it
/// as it is.
pub open spec fn pool_step(state: PoolState, event: PoolEvent) -> PoolState {
    if !pool_grants(state, event) {
        state
    } else {
        match event {
            PoolEvent::Take => PoolState { held: state.held + 1, ..state },
            PoolEvent::Put => PoolState { held: (state.held - 1) as nat, ..state },
        }
    }
}

/// The state of a new pool of `capacity` permits after `events`, one after
/// the other.
pub open spec fn pool_after(capacity: nat, events: Seq<PoolEvent>) -> PoolState
    decreases events.len(),
{
    if events.len() == 0 {
        PoolState { capacity, held: 0 }
    } else {
        pool_step(pool_after(capacity, events.drop_last()), events.last())
    }
}

/// The bytes of the run buffers that exist while `held` permits are out, each
/// holder having one buffer of `run_bytes` bytes.
pub open spec fn bytes_in_flight(held: nat, run_bytes: nat) -> nat {
    held * run_bytes
}

/// The memory bound of the split: whatever is asked of a pool and in whatever
/// order, the run buffers of the permit holders never take more than the
/// pool's capacity times the run size.
pub proof fn lemma_memory_bound(capacity: nat, run_bytes: nat, events: Seq<PoolEvent>)
    ensures
        pool_after(capacity, events).capacity == capacity,
        pool_after(capacity, events).held <= capacity,
        bytes_in_flight(pool_after(capacity, events).held, run_bytes) <= capacity * run_bytes,
    decreases events.len(),
{
    if events.len() > 0 {
        lemma_memory_bound(capacity, run_bytes, events.drop_last());
    }
    let held = pool_after(capacity, events).held;
    assert(held * run_bytes <= capacity * run_bytes) by (nonlinear_arith)
        requires
            held <= capacity,
    ;
}

/// A counting pool of permits. A run writer takes a permit before it
/// allocates its buffer and puts it back when the run is written.
pub struct PermitPool {
    capacity: usize,
    held: usize,
}

impl View for PermitPool {
    type V = PoolState;

    closed spec fn view(&self) -> PoolState {
        PoolState { capacity: self.capacity as nat, held: self.held as nat }
    }
}

impl PermitPool {
    /// No more permits are out than there are.
    pub closed spec fn wf(&self) -> bool {
        self.held <= self.capacity
    }

    /// A pool of `capacity` permits, none taken.
    pub fn new(capacity: usize) -> (pool: PermitPool)
        ensures
            pool.wf(),
            pool@ == pool_after(capacity as nat, Seq::empty()),
    {
        PermitPool { capacity, held: 0 }
    }

    /// How many permits there are in all.
    pub fn capacity(&self) -> (capacity: usize)
        ensures
            capacity == self@.capacity,
    {
        self.capacity
    }

    /// How many permits are out: never more than there are.
    pub fn held(&self) -> (held: usize)
        requires
            self.wf(),
        ensures
            held == self@.held,
            held <= self@.capacity,
    {
        self.held
    }

    /// Takes a permit where one is free. Returns whether it did; a caller
    /// that is refused has to wait for a `put`.
    pub fn try_take(&mut self) -> (granted: bool)
        requires
            old(self).wf(),
        ensures
            final(self).wf(),
            granted == pool_grants(old(self)@, PoolEvent::Take),
            final(self)@ == pool_step(old(self)@, PoolEvent::Take),
    {
        if self.held < self.capacity {
            self.held = self.held + 1;
            true
        } else {
            false
        }
    }

    /// Puts a permit back, so that one waiting caller can be woken. Returns
    /// whether a permit was out; where none was, the pool stays as it is.
    pub fn put(&mut self) -> (returned: bool)
        requires
            old(self).wf(),
        ensures
            final(self).wf(),
            returned == pool_grants(old(self)@, PoolEvent::Put),
            final(self)@ == pool_step(old(self)@, PoolEvent::Put),
    {
        if self.held > 0 {
            self.held = self.held - 1;
            true
        } else {
            false
        }
    }
}

} // verus!
