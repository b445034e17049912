//! The shared work queue the discovered paths are drained from: a lock-free
//! multi-producer/multi-consumer queue, modelled by the multiset of the
//! paths it holds.

use vstd::multiset::Multiset;
use vstd::prelude::*;

verus! {

/// The paths the queue holds, as a multiset (workers take them in no
/// promised order).
pub uninterp spec fn seg_queue_items(q: crossbeam::queue::SegQueue<String>) -> Multiset<Seq<char>>;

#[verifier::external_type_specification]
#[verifier::external_body]
#[verifier::reject_recursive_types(T)]
pub struct ExSegQueue<T>(crossbeam::queue::SegQueue<T>);

/// Relies on crossbeam::queue::SegQueue::new: a new queue is empty.
#[verifier::external_body]
fn seg_new() -> (q: crossbeam::queue::SegQueue<String>)
    ensures
        seg_queue_items(q) == Multiset::<Seq<char>>::empty(),
{
    crossbeam::queue::SegQueue::new()
}

/// The work queue of discovered image paths. Its view is the multiset of
/// the paths it holds.
pub struct WorkQueue {
    q: crossbeam::queue::SegQueue<String>,
}

impl View for WorkQueue {
    type V = Multiset<Seq<char>>;

    closed spec fn view(&self) -> Multiset<Seq<char>> {
        seg_queue_items(self.q)
    }
}

impl WorkQueue {
    /// An empty queue.
    pub fn new() -> (r: WorkQueue)
        ensures
            r@ == Multiset::<Seq<char>>::empty(),
    {
        WorkQueue { q: seg_new() }
    }

    /// Relies on crossbeam::queue::SegQueue::push: adds the element to the
    /// queue.
    #[verifier::external_body]
    pub(crate) fn push(&mut self, s: String)
        ensures
            final(self)@ == old(self)@.insert(s@),
    {
        self.q.push(s);
    }

    /// Hand the inner queue to the driver, which shares it between the
    /// worker threads and pops from it concurrently.
    pub fn into_inner(self) -> (q: crossbeam::queue::SegQueue<String>)
        ensures
            seg_queue_items(q) == self@,
    {
        self.q
    }
}

} // verus!
