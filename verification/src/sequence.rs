//! Sequence authority: a monotonic counter that stamps every
//! state-changing event with a unique, dense, strictly increasing id.

use vstd::prelude::*;

verus! {

/// Events between two automatic checkpoints when none is given explicitly.
pub const CHECKPOINT_INTERVAL: u64 = 10000;

/// Monotonic sequence counter for one order book.
///
/// `next` hands out the current value and advances; `set` restores the
/// counter during recovery. The checkpoint interval drives periodic
/// snapshots: a checkpoint is due whenever the current value is a
/// multiple of the interval.
#[derive(Debug, Clone, Copy)]
pub struct SequenceManager {
    current: u64,
    checkpoint_interval: u64,
}

impl SequenceManager {
    /// Current counter value, as a spec-level view.
    pub closed spec fn spec_current(&self) -> u64 {
        self.current
    }

    /// Checkpoint interval, as a spec-level view.
    pub closed spec fn spec_interval(&self) -> u64 {
        self.checkpoint_interval
    }

    pub fn new() -> (r: Self)
        ensures
            r.spec_current() == 0,
            r.spec_interval() == CHECKPOINT_INTERVAL,
    {
        SequenceManager { current: 0, checkpoint_interval: CHECKPOINT_INTERVAL }
    }

    pub fn with_interval(checkpoint_interval: u64) -> (r: Self)
        requires
            checkpoint_interval > 0,
        ensures
            r.spec_current() == 0,
            r.spec_interval() == checkpoint_interval,
    {
        SequenceManager { current: 0, checkpoint_interval }
    }

    /// The counter as it stands after one `next` call.
    pub closed spec fn spec_bumped(self) -> SequenceManager {
        SequenceManager {
            current: (self.current + 1) as u64,
            checkpoint_interval: self.checkpoint_interval,
        }
    }

    /// What bumping does, for callers that hold the counter abstractly.
    pub proof fn lemma_bumped(self)
        requires
            self.spec_current() < u64::MAX,
        ensures
            self.spec_bumped().spec_current() == self.spec_current() + 1,
            self.spec_bumped().spec_interval() == self.spec_interval(),
    {
    }

    /// Get next sequence number: returns the current value and advances.
    pub fn next(&mut self) -> (r: u64)
        requires
            old(self).spec_current() < u64::MAX,
        ensures
            r == old(self).spec_current(),
            final(self).spec_current() == old(self).spec_current() + 1,
            final(self).spec_interval() == old(self).spec_interval(),
            *final(self) == old(self).spec_bumped(),
    {
        let r = self.current;
        self.current = self.current + 1;
        r
    }

    /// Get current sequence number without advancing.
    pub fn current(&self) -> (r: u64)
        ensures
            r == self.spec_current(),
    {
        self.current
    }

    /// Set sequence number (for recovery).
    pub fn set(&mut self, value: u64)
        ensures
            final(self).spec_current() == value,
            final(self).spec_interval() == old(self).spec_interval(),
    {
        self.current = value;
    }

    /// Check if a checkpoint is needed: the counter sits on a multiple
    /// of the checkpoint interval. A submission that emits several
    /// trades can step the counter past an exact multiple, so a
    /// scheduler polling this between submissions should prefer a
    /// hit-or-exceed rule on `current` against its last checkpoint.
    pub fn needs_checkpoint(&self) -> (r: bool)
        requires
            self.spec_interval() > 0,
        ensures
            r == (self.spec_current() % self.spec_interval() == 0),
    {
        self.current % self.checkpoint_interval == 0
    }
}

impl Default for SequenceManager {
    fn default() -> (r: Self)
        ensures
            r.spec_current() == 0,
            r.spec_interval() == CHECKPOINT_INTERVAL,
    {
        SequenceManager::new()
    }
}

} // verus!
