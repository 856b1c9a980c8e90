//! Producer-side batching for the streaming pipeline.
//!
//! The producer reads sequences one at a time and appends them to an
//! in-memory batch; when the batch reaches its fixed capacity it is
//! emitted whole and a new batch starts, and on input exhaustion any
//! trailing non-empty batch is flushed.  The emitted batches are handed
//! to the consumer, which absorbs each one into the running per-file
//! sketch with `Sketch::absorb_batch`.

use vstd::prelude::*;

verus! {

/// Default number of sequences per emitted batch.
pub const DEFAULT_BATCH_CAPACITY: usize = 40000;

/// Default bound of the batch queue between producer and consumer.
pub const DEFAULT_QUEUE_BOUND: usize = 20;

/// Accumulates sequences into fixed-capacity batches.
pub struct BatchAccumulator {
    pub capacity: usize,
    pub pending: Vec<Vec<u8>>,
}

impl BatchAccumulator {
    /// Structural invariant: a positive capacity that the pending batch
    /// has not yet reached.
    pub open spec fn wf(&self) -> bool {
        self.capacity >= 1 && self.pending@.len() < self.capacity
    }

    /// An empty accumulator with the given batch capacity.
    pub fn new(capacity: usize) -> (r: Self)
        requires
            capacity >= 1,
        ensures
            r.wf(),
            r.capacity == capacity,
            r.pending@.len() == 0,
    {
        BatchAccumulator { capacity, pending: Vec::new() }
    }

    /// Append one sequence.  Exactly when the batch reaches capacity it
    /// is emitted whole, in arrival order, and a fresh batch starts.
    pub fn push(&mut self, seq: Vec<u8>) -> (emitted: Option<Vec<Vec<u8>>>)
        requires
            old(self).wf(),
        ensures
            final(self).wf(),
            final(self).capacity == old(self).capacity,
            old(self).pending@.len() + 1 == old(self).capacity ==> (match emitted {
                Some(b) => b.deep_view() == old(self).pending.deep_view().push(seq@)
                    && final(self).pending@.len() == 0,
                None => false,
            }),
            old(self).pending@.len() + 1 < old(self).capacity ==> emitted is None
                && final(self).pending.deep_view() == old(self).pending.deep_view().push(seq@),
    {
        let ghost prev = self.pending.deep_view();
        let ghost sv = seq@;
        proof {
            assert(seq.deep_view() =~= sv);
        }
        self.pending.push(seq);
        proof {
            assert(self.pending.deep_view() =~= prev.push(sv));
        }
        if self.pending.len() == self.capacity {
            let mut out: Vec<Vec<u8>> = Vec::new();
            core::mem::swap(&mut out, &mut self.pending);
            Some(out)
        } else {
            None
        }
    }

    /// Emit the trailing batch, if any; the accumulator ends empty.
    pub fn flush(&mut self) -> (emitted: Option<Vec<Vec<u8>>>)
        requires
            old(self).wf(),
        ensures
            final(self).wf(),
            final(self).capacity == old(self).capacity,
            final(self).pending@.len() == 0,
            old(self).pending@.len() == 0 ==> emitted is None,
            old(self).pending@.len() > 0 ==> (match emitted {
                Some(b) => b.deep_view() == old(self).pending.deep_view(),
                None => false,
            }),
    {
        if self.pending.len() == 0 {
            None
        } else {
            let mut out: Vec<Vec<u8>> = Vec::new();
            core::mem::swap(&mut out, &mut self.pending);
            Some(out)
        }
    }
}

} // verus!
