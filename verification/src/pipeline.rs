//! The pipeline coordinator: accounting that no discovered path is lost and
//! a bounded buffer whose length backpressure keeps under its threshold.
//!
//! The driver runs the threads; this module makes the decisions. `Pipeline`
//! counts every path out and every outcome in: dispatching hands a path to a
//! worker, submitting returns its outcome, and when everything dispatched
//! has returned and nothing is left, the outcome count equals the
//! discovered count. `BoundedBuffer` is the intermediate queue of the split
//! pipeline shape: a reader that fills it suspends while the buffer is full
//! (`try_push` refuses), so its length never exceeds
//! `thread_count × tasks_per_thread`.

use vstd::prelude::*;

use crate::outcome::HashOutcome;

verus! {

/// The pipeline's books: how many paths were discovered, how many are still
/// to hand out, how many are with workers, and the outcomes so far.
pub struct Pipeline {
    pub total: usize,
    pub pending: Vec<String>,
    pub in_flight: usize,
    pub outcomes: Vec<HashOutcome>,
}

impl Pipeline {
    /// The books balance: pending + in flight + done = discovered.
    pub open spec fn wf(&self) -> bool {
        self.pending@.len() + self.in_flight + self.outcomes@.len() == self.total
    }

    /// Start the books over the discovered paths.
    pub fn new(paths: Vec<String>) -> (p: Pipeline)
        ensures
            p.wf(),
            p.total == paths@.len(),
            p.pending@ == paths@,
            p.in_flight == 0,
            p.outcomes@.len() == 0,
    {
        let total = paths.len();
        Pipeline { total, pending: paths, in_flight: 0, outcomes: Vec::new() }
    }

    /// Hand the next path to a worker; it is then in flight.
    pub fn dispatch(&mut self) -> (r: Option<String>)
        requires
            old(self).wf(),
        ensures
            final(self).wf(),
            final(self).total == old(self).total,
            final(self).outcomes == old(self).outcomes,
            match r {
                Some(p) => {
                    &&& old(self).pending@.len() > 0
                    &&& p == old(self).pending@.last()
                    &&& final(self).pending@ == old(self).pending@.drop_last()
                    &&& final(self).in_flight == old(self).in_flight + 1
                },
                None => {
                    &&& old(self).pending@.len() == 0
                    &&& final(self).pending@ == old(self).pending@
                    &&& final(self).in_flight == old(self).in_flight
                },
            },
    {
        match self.pending.pop() {
            Some(p) => {
                self.in_flight = self.in_flight + 1;
                Some(p)
            },
            None => None,
        }
    }

    /// Take one worker's outcome back; the item is no longer in flight.
    pub fn submit(&mut self, o: HashOutcome)
        requires
            old(self).wf(),
            old(self).in_flight > 0,
        ensures
            final(self).wf(),
            final(self).total == old(self).total,
            final(self).pending == old(self).pending,
            final(self).in_flight == old(self).in_flight - 1,
            final(self).outcomes@ == old(self).outcomes@.push(o),
    {
        self.in_flight = self.in_flight - 1;
        self.outcomes.push(o);
    }

    /// Whether the run is complete: nothing pending, nothing in flight.
    pub fn is_done(&self) -> (r: bool)
        ensures
            r == (self.pending@.len() == 0 && self.in_flight == 0),
    {
        self.pending.len() == 0 && self.in_flight == 0
    }

    /// Close the books: one outcome per discovered path.
    pub fn finish(self) -> (outcomes: Vec<HashOutcome>)
        requires
            self.wf(),
            self.pending@.len() == 0,
            self.in_flight == 0,
        ensures
            outcomes == self.outcomes,
            outcomes@.len() == self.total,
    {
        self.outcomes
    }

    /// Percent of the discovered set dispatched so far, for progress
    /// display.
    pub fn percent_done(&self) -> (r: usize)
        requires
            self.wf(),
        ensures
            self.total > 0 ==> r == (self.in_flight + self.outcomes@.len()) * 100 as int
                / self.total as int,
            self.total == 0 ==> r == 100,
    {
        if self.total == 0 {
            return 100;
        }
        let done: u128 = (self.in_flight as u128) + (self.outcomes.len() as u128);
        proof {
            assert(done <= self.total as u128);
            assert((done as int) * 100 / (self.total as int) <= 100) by (nonlinear_arith)
                requires
                    0 <= done as int <= self.total as int,
                    self.total as int >= 1,
            ;
        }
        let r = (done * 100) / (self.total as u128);
        r as usize
    }
}

/// Completeness: when the books balance and the run is complete, the number
/// of outcomes produced equals the number of paths discovered — no item was
/// dropped and none was counted twice.
pub proof fn lemma_completeness(p: Pipeline)
    requires
        p.wf(),
        p.pending@.len() == 0,
        p.in_flight == 0,
    ensures
        p.outcomes@.len() == p.total,
{
}

/// The intermediate queue of the split pipeline: at most
/// `thread_count × tasks_per_thread` byte buffers wait in it at any time.
/// `try_push` refuses once the bound is reached, which suspends the reader;
/// a pop signals it to resume.
pub struct BoundedBuffer {
    items: Vec<(String, Vec<u8>)>,
    bound: usize,
}

impl BoundedBuffer {
    /// The backpressure bound the buffer was built with.
    pub closed spec fn spec_bound(&self) -> nat {
        self.bound as nat
    }

    /// How many items wait in the buffer.
    pub closed spec fn spec_len(&self) -> nat {
        self.items@.len()
    }

    /// The backpressure invariant: the queue never exceeds its bound.
    pub open spec fn wf(&self) -> bool {
        self.spec_len() <= self.spec_bound()
    }

    /// An empty buffer with bound `thread_count × tasks_per_thread`.
    pub fn new(thread_count: usize, tasks_per_thread: usize) -> (b: BoundedBuffer)
        requires
            thread_count * tasks_per_thread <= usize::MAX,
        ensures
            b.wf(),
            b.spec_len() == 0,
            b.spec_bound() == thread_count * tasks_per_thread,
    {
        proof {
            assert(thread_count * tasks_per_thread >= 0) by (nonlinear_arith);
        }
        let bound = thread_count * tasks_per_thread;
        BoundedBuffer { items: Vec::new(), bound }
    }

    /// The reader offers one read file. Refused exactly when the buffer is
    /// full: the reader then suspends until a worker drains the buffer, so
    /// the bound holds in every reachable state.
    pub fn try_push(&mut self, path: String, bytes: Vec<u8>) -> (accepted: bool)
        requires
            old(self).wf(),
        ensures
            final(self).wf(),
            final(self).spec_bound() == old(self).spec_bound(),
            accepted == (old(self).spec_len() < old(self).spec_bound()),
            accepted ==> final(self).spec_len() == old(self).spec_len() + 1,
            !accepted ==> final(self).spec_len() == old(self).spec_len(),
    {
        if self.items.len() < self.bound {
            self.items.push((path, bytes));
            true
        } else {
            false
        }
    }

    /// A worker takes one read file, making room for the reader.
    pub fn pop(&mut self) -> (r: Option<(String, Vec<u8>)>)
        requires
            old(self).wf(),
        ensures
            final(self).wf(),
            final(self).spec_bound() == old(self).spec_bound(),
            match r {
                Some(_) => old(self).spec_len() > 0 && final(self).spec_len() == old(
                    self,
                ).spec_len() - 1,
                None => old(self).spec_len() == 0 && final(self).spec_len() == 0,
            },
    {
        self.items.pop()
    }

    /// How full the buffer is.
    pub fn len(&self) -> (n: usize)
        ensures
            n == self.spec_len(),
    {
        self.items.len()
    }
}

/// Backpressure bound: whatever the reader and the workers do, the buffer
/// holds at most its bound — `try_push` keeps the bound by construction and
/// `pop` only shrinks the queue, so every reachable state satisfies it.
pub proof fn lemma_backpressure_bound(b: BoundedBuffer)
    requires
        b.wf(),
    ensures
        b.spec_len() <= b.spec_bound(),
{
}

} // verus!
