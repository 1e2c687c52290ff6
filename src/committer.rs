//! The decisions of the transactional committer: operations are applied in
//! batches, and the store is compacted after enough of them.
use vstd::prelude::*;

verus! {

/// Operations applied in one transaction.
pub const BATCH_SIZE: usize = 100000;

/// Operations applied since the last compaction that call for another one.
pub const COMPACTION_THRESHOLD: u64 = 2000000;

/// Operations that may wait in the queue between importer and committer.
pub const QUEUE_CAPACITY: usize = 100000;

/// What the committer does next.
#[derive(Clone, Copy, Debug, PartialEq, Eq, Structural)]
pub enum CommitAction {
    /// Keep collecting operations.
    Collect,
    /// Apply the pending batch as one transaction, then compact if asked.
    Commit { compact: bool },
    /// The stream has ended: apply what is pending if asked, then compact if
    /// asked, and the cycle is over.
    Finish { commit: bool, compact: bool },
}

/// The committer's counters.
#[derive(Clone, Copy, Debug, PartialEq, Eq, Structural)]
pub struct Committer {
    /// Operations collected and not yet applied.
    pub pending: usize,
    /// Operations applied in this cycle (saturating).
    pub applied: u64,
    /// Operations applied since the last compaction (saturating).
    pub uncompacted: u64,
}

pub open spec fn sat_add(a: u64, b: int) -> u64 {
    if a + b > u64::MAX {
        u64::MAX
    } else {
        (a + b) as u64
    }
}

impl Committer {
    pub open spec fn wf(&self) -> bool {
        self.pending < BATCH_SIZE
    }

    /// Nothing collected or applied yet.
    pub fn new() -> (r: Committer)
        ensures
            r.wf(),
            r == (Committer { pending: 0, applied: 0, uncompacted: 0 }),
    {
        Committer { pending: 0, applied: 0, uncompacted: 0 }
    }

    /// One more operation arrived. A full batch is committed; the store is
    /// compacted once more than `COMPACTION_THRESHOLD` operations have been
    /// applied since the last compaction.
    pub fn on_operation(&mut self) -> (r: CommitAction)
        requires
            old(self).wf(),
        ensures
            final(self).wf(),
            old(self).pending + 1 < BATCH_SIZE ==> r == CommitAction::Collect && *final(self) == (Committer {
                pending: (old(self).pending + 1) as usize,
                ..*old(self)
            }),
            old(self).pending + 1 == BATCH_SIZE ==> {
                let uncompacted = sat_add(old(self).uncompacted, BATCH_SIZE as int);
                &&& r == CommitAction::Commit { compact: uncompacted > COMPACTION_THRESHOLD }
                &&& final(self).pending == 0
                &&& final(self).applied == sat_add(old(self).applied, BATCH_SIZE as int)
                &&& final(self).uncompacted == if uncompacted > COMPACTION_THRESHOLD {
                    0
                } else {
                    uncompacted
                }
            },
    {
        let pending = self.pending + 1;
        if pending < BATCH_SIZE {
            self.pending = pending;
            return CommitAction::Collect;
        }
        self.pending = 0;
        self.applied = self.applied.saturating_add(pending as u64);
        let uncompacted = self.uncompacted.saturating_add(pending as u64);
        let compact = uncompacted > COMPACTION_THRESHOLD;
        self.uncompacted = if compact {
            0
        } else {
            uncompacted
        };
        CommitAction::Commit { compact }
    }

    /// The stream ended. What is pending is committed; the store is compacted
    /// once more if the cycle applied any operation.
    pub fn on_stream_end(&mut self) -> (r: CommitAction)
        requires
            old(self).wf(),
        ensures
            r == (CommitAction::Finish {
                commit: old(self).pending > 0,
                compact: sat_add(old(self).applied, old(self).pending as int) > 0,
            }),
            final(self).pending == 0,
            final(self).applied == sat_add(old(self).applied, old(self).pending as int),
            final(self).uncompacted == if sat_add(old(self).applied, old(self).pending as int) > 0 {
                0
            } else {
                old(self).uncompacted
            },
    {
        let commit = self.pending > 0;
        self.applied = self.applied.saturating_add(self.pending as u64);
        self.pending = 0;
        let compact = self.applied > 0;
        if compact {
            self.uncompacted = 0;
        }
        CommitAction::Finish { commit, compact }
    }
}

} // verus!
