//! The background worker's decisions: when to run, how many documents a tick
//! may take, and how a table's pending documents are batched.

use vstd::prelude::*;
use crate::embedder::{batch_bounds, batch_ranges, bounds_view, lemma_ranges_partition};

verus! {

/// The period of the ticker in seconds. Missed ticks are skipped.
pub const TICK_PERIOD_SECS: u64 = 10;

/// The number of documents that one task embeds and writes back.
pub const WRITE_BATCH: usize = 4;

/// What wakes the worker.
#[derive(Clone, Copy, Debug, PartialEq, Eq, Structural)]
pub enum WorkerEvent {
    /// The ticker fired.
    Tick,
    /// Shutdown was signalled.
    Shutdown,
}

/// What the worker does next.
#[derive(Clone, Copy, Debug, PartialEq, Eq, Structural)]
pub enum WorkerAction {
    /// Scan for pending documents and embed them.
    ProcessPending,
    /// Leave the loop.
    Exit,
}

/// The budget of one tick: at most as many documents as there are embedding
/// workers.
#[derive(Clone, Copy, Debug, PartialEq, Eq, Structural)]
pub struct TickBudget {
    pub max_documents: usize,
    pub total_processed: usize,
}

impl TickBudget {
    /// The number of documents that the tick may still take.
    pub open spec fn left(&self) -> int {
        if self.total_processed >= self.max_documents {
            0
        } else {
            self.max_documents - self.total_processed
        }
    }

    /// The number of documents that may still be requested, or `None` once
    /// the budget is used up and the tick ends.
    pub fn remaining(&self) -> (r: Option<usize>)
        ensures
            match r {
                Some(n) => n == self.left() && n > 0,
                None => self.left() == 0,
            },
    {
        if self.total_processed >= self.max_documents {
            None
        } else {
            Some(self.max_documents - self.total_processed)
        }
    }

    /// Counts `processed` documents as done.
    pub fn record(&mut self, processed: usize)
        ensures
            final(self).max_documents == old(self).max_documents,
            final(self).total_processed == counted(old(self).total_processed, processed),
            final(self).left() <= old(self).left(),
            processed <= old(self).left() ==> final(self).left() == old(self).left() - processed,
    {
        if processed > usize::MAX - self.total_processed {
            self.total_processed = usize::MAX;
        } else {
            self.total_processed = self.total_processed + processed;
        }
    }
}

/// How the work on a batch, or on the table it comes from, ended.
#[derive(Clone, Copy, Debug, PartialEq, Eq, Structural)]
pub enum BatchOutcome {
    /// So many documents of the batch were embedded and written back.
    Embedded(usize),
    /// A document could not be embedded or written back. It stays pending
    /// and is tried again in a later tick.
    DocumentFailed,
    /// The table could not be read or worked on.
    TableFailed,
}

/// How a tick goes on.
#[derive(Clone, Copy, Debug, PartialEq, Eq, Structural)]
pub enum TickStep {
    /// Go on with the next batch, or the next table where no batch is left.
    NextBatch,
    /// Leave this table and try the next.
    NextTable,
    /// The budget is used up: end the tick.
    EndTick,
}

/// The number of processed documents after `processed` more, which stays at
/// the largest number.
pub open spec fn counted(total: usize, processed: usize) -> usize {
    if total + processed <= usize::MAX {
        (total + processed) as usize
    } else {
        usize::MAX
    }
}

/// How the pending documents of one table are processed.
#[derive(Debug)]
pub struct BatchPlan {
    /// The batches as ranges of the documents, in order.
    pub batches: Vec<(usize, usize)>,
    /// The number of batches that run at a time.
    pub concurrency: usize,
}

/// The worker's present state.
pub struct BackgroundWorker {
    num_embedding_workers: usize,
    stopped: bool,
}

impl BackgroundWorker {
    /// The number of embedding workers.
    pub closed spec fn workers(&self) -> nat {
        self.num_embedding_workers as nat
    }

    /// Whether the worker was told to stop or has left its loop.
    pub closed spec fn is_stopped(&self) -> bool {
        self.stopped
    }

    /// A worker for `num_embedding_workers` embedding workers.
    pub fn new(num_embedding_workers: usize) -> (w: BackgroundWorker)
        ensures
            w.workers() == num_embedding_workers,
            !w.is_stopped(),
    {
        BackgroundWorker { num_embedding_workers, stopped: false }
    }

    /// Tells the worker to stop.
    pub fn stop(&mut self)
        ensures
            final(self).is_stopped(),
            final(self).workers() == old(self).workers(),
    {
        self.stopped = true;
    }

    /// Answers an event: a tick starts a scan unless the worker was stopped;
    /// a shutdown ends the loop.
    pub fn next(&mut self, event: WorkerEvent) -> (action: WorkerAction)
        ensures
            final(self).workers() == old(self).workers(),
            action == if event == WorkerEvent::Tick && !old(self).is_stopped() {
                WorkerAction::ProcessPending
            } else {
                WorkerAction::Exit
            },
            final(self).is_stopped() == (action == WorkerAction::Exit),
    {
        match event {
            WorkerEvent::Tick => {
                if self.stopped {
                    WorkerAction::Exit
                } else {
                    WorkerAction::ProcessPending
                }
            },
            WorkerEvent::Shutdown => {
                self.stopped = true;
                WorkerAction::Exit
            },
        }
    }

    /// The budget of a new tick.
    pub fn begin_tick(&self) -> (budget: TickBudget)
        ensures
            budget.max_documents == self.workers(),
            budget.total_processed == 0,
    {
        TickBudget { max_documents: self.num_embedding_workers, total_processed: 0 }
    }

    /// Says how a tick goes on after a batch. A failure is no reason to end
    /// the tick: after a failed document the next batch is worked on, after
    /// a failed table the next table, and the budget stays as it is.
    /// Embedded documents are counted, and the tick ends once the budget is
    /// used up.
    pub fn after_batch(&self, budget: &mut TickBudget, outcome: BatchOutcome) -> (step: TickStep)
        ensures
            outcome is DocumentFailed ==> *final(budget) == *old(budget) && step
                == TickStep::NextBatch,
            outcome is TableFailed ==> *final(budget) == *old(budget) && step == TickStep::NextTable,
            outcome matches BatchOutcome::Embedded(n) ==> {
                &&& final(budget).max_documents == old(budget).max_documents
                &&& final(budget).total_processed == counted(old(budget).total_processed, n)
                &&& final(budget).left() <= old(budget).left()
                &&& step == if final(budget).left() == 0 {
                    TickStep::EndTick
                } else {
                    TickStep::NextBatch
                }
            },
    {
        match outcome {
            BatchOutcome::DocumentFailed => TickStep::NextBatch,
            BatchOutcome::TableFailed => TickStep::NextTable,
            BatchOutcome::Embedded(n) => {
                budget.record(n);
                match budget.remaining() {
                    Some(_) => TickStep::NextBatch,
                    None => TickStep::EndTick,
                }
            },
        }
    }

    /// Plans the processing of `documents` pending documents of one table:
    /// batches of four in order, of which as many run at a time as there
    /// are workers, and no more than there are batches.
    pub fn process_non_embedded_documents(&self, documents: usize) -> (plan: BatchPlan)
        ensures
            bounds_view(plan.batches@) == batch_bounds(documents as int, WRITE_BATCH as int),
            plan.concurrency == if self.workers() <= plan.batches@.len() {
                self.workers()
            } else {
                plan.batches@.len()
            },
    {
        let batches = batch_ranges(documents, WRITE_BATCH);
        let concurrency: usize = if self.num_embedding_workers <= batches.len() {
            self.num_embedding_workers
        } else {
            batches.len()
        };
        BatchPlan { batches, concurrency }
    }
}

/// The batches of a plan cover the documents in order, four at a time.
pub proof fn lemma_plan_covers(documents: int)
    requires
        documents >= 0,
    ensures
        ({
            let r = batch_bounds(documents, WRITE_BATCH as int);
            &&& (r.len() == 0) == (documents == 0)
            &&& r.len() > 0 ==> r[0].0 == 0 && r.last().1 == documents
            &&& forall|i: int| 0 <= i < r.len() ==> 0 < (#[trigger] r[i]).1 - r[i].0 <= 4
            &&& forall|i: int| 0 <= i < r.len() - 1 ==> (#[trigger] r[i + 1]).0 == r[i].1
        }),
{
    lemma_ranges_partition(0, documents, WRITE_BATCH as int);
}

} // verus!
