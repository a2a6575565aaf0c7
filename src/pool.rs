//! The worker pool's ingress queue: connections go in once and each comes
//! out to exactly one worker, in arrival order. The threads that drain it
//! live outside the library.
use vstd::prelude::*;
use std::collections::VecDeque;

verus! {

/// A first-in first-out queue of jobs for a fixed number of workers. Beside
/// the pending jobs it keeps, as ghost state, every job ever queued and
/// every job handed to a worker.
pub struct JobQueue<T> {
    workers: usize,
    pending: VecDeque<T>,
    queued: Ghost<Seq<T>>,
    handed: Ghost<Seq<T>>,
}

impl<T> JobQueue<T> {
    /// The jobs waiting for a worker.
    pub closed spec fn pending_view(&self) -> Seq<T> {
        self.pending@
    }

    /// Every job ever queued, in order.
    pub closed spec fn queued_view(&self) -> Seq<T> {
        self.queued@
    }

    /// Every job handed to a worker, in order.
    pub closed spec fn handed_view(&self) -> Seq<T> {
        self.handed@
    }

    /// The number of workers.
    pub closed spec fn workers_view(&self) -> usize {
        self.workers
    }

    /// Every queued job has been handed out or is still pending, in order:
    /// the handed-out jobs followed by the pending ones are exactly the jobs
    /// queued.
    pub open spec fn accounted(&self) -> bool {
        self.workers_view() >= 1 && self.queued_view() == self.handed_view() + self.pending_view()
    }

    /// An empty queue for `workers` workers; there must be at least one.
    pub fn new(workers: usize) -> (r: Self)
        requires
            workers >= 1,
        ensures
            r.accounted(),
            r.workers_view() == workers,
            r.queued_view() == Seq::<T>::empty(),
            r.handed_view() == Seq::<T>::empty(),
            r.pending_view() == Seq::<T>::empty(),
    {
        let r = JobQueue { workers, pending: VecDeque::new(), queued: Ghost(Seq::empty()), handed: Ghost(Seq::empty()) };
        assert(r.queued@ =~= r.handed@ + r.pending@);
        r
    }

    /// The number of workers.
    pub fn workers(&self) -> (r: usize)
        ensures
            r == self.workers_view(),
    {
        self.workers
    }

    /// Queues a job; it never blocks and never refuses.
    pub fn execute(&mut self, job: T)
        requires
            old(self).accounted(),
        ensures
            final(self).accounted(),
            final(self).workers_view() == old(self).workers_view(),
            final(self).queued_view() == old(self).queued_view().push(job),
            final(self).handed_view() == old(self).handed_view(),
            final(self).pending_view() == old(self).pending_view().push(job),
    {
        self.pending.push_back(job);
        self.queued = Ghost(self.queued@.push(job));
        assert(self.queued@ =~= self.handed@ + self.pending@);
    }

    /// Hands the oldest pending job to a worker, or `None` when nothing waits.
    pub fn take(&mut self) -> (r: Option<T>)
        requires
            old(self).accounted(),
        ensures
            final(self).accounted(),
            final(self).workers_view() == old(self).workers_view(),
            final(self).queued_view() == old(self).queued_view(),
            match r {
                Some(job) => old(self).pending_view().len() > 0
                    && job == old(self).pending_view()[0]
                    && final(self).pending_view() == old(self).pending_view().drop_first()
                    && final(self).handed_view() == old(self).handed_view().push(job),
                None => old(self).pending_view().len() == 0
                    && final(self).pending_view() == old(self).pending_view()
                    && final(self).handed_view() == old(self).handed_view(),
            },
    {
        let r = self.pending.pop_front();
        if let Some(job) = &r {
            self.handed = Ghost(self.handed@.push(*job));
            assert(self.queued@ =~= self.handed@ + self.pending@);
        }
        r
    }
}

/// Each queued job reaches exactly one worker, once: the `i`-th job queued
/// is the `i`-th handed out if `i` jobs or more have been handed out, and
/// otherwise it is still pending, at position `i` minus the number handed.
pub proof fn lemma_each_job_once<T>(q: JobQueue<T>, i: int)
    requires
        q.accounted(),
        0 <= i < q.queued_view().len(),
    ensures
        i < q.handed_view().len() ==> q.handed_view()[i] == q.queued_view()[i],
        i >= q.handed_view().len() ==> q.pending_view()[i - q.handed_view().len()] == q.queued_view()[i],
        q.queued_view().len() == q.handed_view().len() + q.pending_view().len(),
{
}

} // verus!
