//! Bounded job delivery, independent of DNS forwarding.
//!
//! The caller shares the queue between threads; what is decided here is which
//! jobs are accepted, in which order they are handed out, and when a worker stops.
use std::collections::VecDeque;
use vstd::prelude::*;

verus! {

/// Accepted jobs in order of arrival.
pub struct JobsView<T> {
    pub queue: Seq<T>,
    pub capacity: usize,
    pub closed: bool,
}

impl<T> JobsView<T> {
    /// Whether another job is accepted.
    pub open spec fn accepts(self) -> bool {
        !self.closed && self.queue.len() < self.capacity
    }
}

/// The queue owns accepted jobs. Queued jobs are discarded at shutdown rather than
/// drained through handlers.
pub struct Jobs<T> {
    queue: VecDeque<T>,
    capacity: usize,
    closed: bool,
}

impl<T> View for Jobs<T> {
    type V = JobsView<T>;

    closed spec fn view(&self) -> JobsView<T> {
        JobsView { queue: self.queue@, capacity: self.capacity, closed: self.closed }
    }
}

/// What a worker finds when it asks for a job.
#[derive(Debug)]
pub enum JobPoll<T> {
    Ready(T),
    Idle,
    Stopped,
}

impl<T> Jobs<T> {
    #[verifier::type_invariant]
    spec fn well_formed(self) -> bool {
        self.queue@.len() <= self.capacity
    }

    pub fn new(capacity: usize) -> (r: Jobs<T>)
        ensures
            r@ == (JobsView { queue: Seq::<T>::empty(), capacity, closed: false }),
    {
        Jobs { queue: VecDeque::new(), capacity, closed: false }
    }

    /// Attempts to take a job over without waiting for queue capacity.
    ///
    /// Gives back `false` and drops the job if the queue is full or closed.
    /// Acceptance does not guarantee execution: shutdown discards pending jobs.
    pub fn submit(&mut self, job: T) -> (r: bool)
        ensures
            r == old(self)@.accepts(),
            final(self)@ == (if r {
                JobsView { queue: old(self)@.queue.push(job), ..old(self)@ }
            } else {
                old(self)@
            }),
            final(self)@.queue.len() <= final(self)@.capacity,
    {
        proof {
            use_type_invariant(&*self);
        }
        if self.closed || self.queue.len() >= self.capacity {
            return false;
        }
        let mut queue: VecDeque<T> = VecDeque::new();
        std::mem::swap(&mut queue, &mut self.queue);
        queue.push_back(job);
        self.queue = queue;
        true
    }

    /// Discards work that has not started and accepts no more.
    pub fn close(&mut self)
        ensures
            final(self)@ == (JobsView { queue: Seq::<T>::empty(), closed: true, ..old(self)@ }),
    {
        proof {
            use_type_invariant(&*self);
        }
        self.queue = VecDeque::new();
        self.closed = true;
    }

    /// Whether a worker that has waited goes back to its maintenance: its wait
    /// timed out, nothing arrived and nothing ended.
    pub fn is_idle(&self, timed_out: bool, stop: bool) -> (r: bool)
        ensures
            r == (timed_out && self@.queue.len() == 0 && !self@.closed && !stop),
    {
        timed_out && self.queue.len() == 0 && !self.closed && !stop
    }
}

/// Hands out the oldest job; without one the worker is to wait for up to one poll
/// interval. A stopped service or a closed queue hands out nothing.
pub fn next_job<T>(jobs: &mut Jobs<T>, stop: bool) -> (r: JobPoll<T>)
    ensures
        if stop || old(jobs)@.closed {
            r is Stopped && final(jobs)@ == old(jobs)@
        } else if old(jobs)@.queue.len() == 0 {
            r is Idle && final(jobs)@ == old(jobs)@
        } else {
            &&& r == JobPoll::Ready(old(jobs)@.queue[0])
            &&& final(jobs)@ == (JobsView {
                queue: old(jobs)@.queue.drop_first(),
                ..old(jobs)@
            })
        },
{
    if stop || jobs.closed {
        return JobPoll::Stopped;
    }
    proof {
        use_type_invariant(&*jobs);
    }
    let mut queue: VecDeque<T> = VecDeque::new();
    std::mem::swap(&mut queue, &mut jobs.queue);
    let ghost before = queue@;
    let first = queue.pop_front();
    jobs.queue = queue;
    match first {
        Some(job) => {
            assert(jobs.queue@ =~= before.drop_first());
            JobPoll::Ready(job)
        },
        None => {
            assert(jobs.queue@ =~= before);
            JobPoll::Idle
        },
    }
}

/// Jobs come out in the order in which they were accepted: one that is submitted
/// to a queue with room stands behind all that were there, and each that is handed
/// out leaves the others in their order.
pub proof fn jobs_keep_their_order<T>(before: JobsView<T>, job: T, i: int)
    requires
        before.accepts(),
        0 <= i < before.queue.len(),
    ensures
        before.queue.push(job).drop_first()[i] == (if i + 1 < before.queue.len() {
            before.queue[i + 1]
        } else {
            job
        }),
        before.queue.push(job)[before.queue.len() as int] == job,
{
}

/// An open queue takes jobs up to its capacity, a closed one takes none.
pub proof fn queues_fill_up<T>(jobs: JobsView<T>)
    ensures
        jobs.closed ==> !jobs.accepts(),
        !jobs.closed && jobs.queue.len() < jobs.capacity ==> jobs.accepts(),
        jobs.queue.len() >= jobs.capacity ==> !jobs.accepts(),
{
}

} // verus!
