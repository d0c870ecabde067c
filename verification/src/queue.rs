//! A job queue behind a single [`Queue`] trait, so workers depend on one interface, with the
//! in-memory [`MemQueue`] backend.
//!
//! Semantics that hold regardless of backend (they are the contracts of the trait's methods):
//!  - **Lease, don't dequeue.** [`Queue::lease`] hands jobs to a worker but keeps ownership until
//!    they are [`ack`](Queue::ack)ed, so a crashed worker's job is not lost.
//!  - **Bounded retries with a dead-letter.** [`Queue::nack`] requeues a job until its attempt
//!    count reaches `max_attempts`, after which it moves to the dead-letter list instead of
//!    retrying forever.
use std::collections::{BTreeMap, BTreeSet};

use vstd::prelude::*;

verus! {

broadcast use {vstd::laws_cmp::group_laws_cmp, vstd::std_specs::btree::group_btree_axioms};

/// Opaque job identifier.
pub type JobId = u64;

/// Outcome of a [`MemQueue::nack`]: either the job was requeued for another attempt, or it
/// exhausted its retries and was dead-lettered.
#[derive(Clone, Copy, Debug, PartialEq, Eq, Structural)]
pub enum Nacked {
    Requeued { attempt: u32 },
    DeadLettered,
}

/// The in-memory queue: waiting jobs in order, leased jobs, attempt counts and dead letters.
pub struct MemQueue {
    queued: Vec<JobId>,
    inflight: BTreeSet<JobId>,
    attempts: BTreeMap<JobId, u32>,
    dead: Vec<JobId>,
    max_attempts: u32,
}

/// The plain state of a queue: waiting jobs (front first), leased jobs, attempt counts, dead
/// letters (oldest first), and the retry bound.
pub struct QueueView {
    pub queued: Seq<JobId>,
    pub inflight: Set<JobId>,
    pub attempts: Map<JobId, u32>,
    pub dead: Seq<JobId>,
    pub max_attempts: u32,
}

/// The attempts recorded for a job (0 when none).
pub open spec fn attempts_of(m: Map<JobId, u32>, job: JobId) -> u32 {
    if m.contains_key(job) {
        m[job]
    } else {
        0
    }
}

/// Count one more attempt for each job of `jobs`, saturating.
pub open spec fn bump_attempts(m: Map<JobId, u32>, jobs: Seq<JobId>) -> Map<JobId, u32>
    decreases jobs.len(),
{
    if jobs.len() == 0 {
        m
    } else {
        let prev = bump_attempts(m, jobs.drop_last());
        let a = attempts_of(prev, jobs.last());
        prev.insert(jobs.last(), if a < u32::MAX { (a + 1) as u32 } else { a })
    }
}

impl View for MemQueue {
    type V = QueueView;

    closed spec fn view(&self) -> QueueView {
        QueueView {
            queued: self.queued@,
            inflight: self.inflight@,
            attempts: self.attempts@,
            dead: self.dead@,
            max_attempts: self.max_attempts,
        }
    }
}

impl MemQueue {
    /// A queue that dead-letters a job after `max_attempts` failed tries (at least one).
    pub fn new(max_attempts: u32) -> (q: MemQueue)
        ensures
            q@.queued == Seq::<JobId>::empty(),
            q@.inflight == Set::<JobId>::empty(),
            q@.attempts == Map::<JobId, u32>::empty(),
            q@.dead == Seq::<JobId>::empty(),
            q@.max_attempts == if max_attempts < 1 { 1 } else { max_attempts },
    {
        MemQueue {
            queued: Vec::new(),
            inflight: BTreeSet::new(),
            attempts: BTreeMap::new(),
            dead: Vec::new(),
            max_attempts: if max_attempts < 1 { 1 } else { max_attempts },
        }
    }
}

/// The queue after leasing its front job.
pub open spec fn lease_front(q: QueueView) -> QueueView {
    QueueView {
        queued: q.queued.skip(1),
        inflight: q.inflight.insert(q.queued[0]),
        attempts: bump_attempts(q.attempts, seq![q.queued[0]]),
        dead: q.dead,
        max_attempts: q.max_attempts,
    }
}

/// The queue after acknowledging `job`.
pub open spec fn ack_result(q: QueueView, job: JobId) -> QueueView {
    QueueView {
        queued: q.queued,
        inflight: q.inflight.remove(job),
        attempts: q.attempts.remove(job),
        dead: q.dead,
        max_attempts: q.max_attempts,
    }
}

/// The queue after reporting `job` failed: dead-lettered once its attempts reach the bound, else
/// requeued at the back.
pub open spec fn nack_result(q: QueueView, job: JobId) -> QueueView {
    if attempts_of(q.attempts, job) >= q.max_attempts {
        QueueView {
            queued: q.queued,
            inflight: q.inflight.remove(job),
            attempts: q.attempts.remove(job),
            dead: q.dead.push(job),
            max_attempts: q.max_attempts,
        }
    } else {
        QueueView {
            queued: q.queued.push(job),
            inflight: q.inflight.remove(job),
            attempts: q.attempts,
            dead: q.dead,
            max_attempts: q.max_attempts,
        }
    }
}

/// A job queue. The contract of each method is the semantics that every backend keeps.
pub trait Queue {
    /// The plain state of the queue.
    spec fn queue_view(&self) -> QueueView;

    /// Add a job to the back of the queue (its attempt count starts at 0 if it had none).
    fn enqueue(&mut self, job: JobId)
        ensures
            final(self).queue_view().queued == old(self).queue_view().queued.push(job),
            final(self).queue_view().attempts == old(self).queue_view().attempts.insert(job, attempts_of(old(self).queue_view().attempts, job)),
            final(self).queue_view().inflight == old(self).queue_view().inflight,
            final(self).queue_view().dead == old(self).queue_view().dead,
            final(self).queue_view().max_attempts == old(self).queue_view().max_attempts,
    ;

    /// Lease up to `max` queued jobs, front first: they leave the waiting queue, become in flight
    /// and have their attempt counts incremented.
    fn lease(&mut self, max: usize) -> (leased: Vec<JobId>)
        ensures
            ({
                let k = if max < old(self).queue_view().queued.len() { max as int } else { old(self).queue_view().queued.len() as int };
                &&& leased@ == old(self).queue_view().queued.take(k)
                &&& final(self).queue_view().queued == old(self).queue_view().queued.skip(k)
                &&& final(self).queue_view().inflight == old(self).queue_view().inflight.union(leased@.to_set())
                &&& final(self).queue_view().attempts == bump_attempts(old(self).queue_view().attempts, leased@)
            }),
            final(self).queue_view().dead == old(self).queue_view().dead,
            final(self).queue_view().max_attempts == old(self).queue_view().max_attempts,
    ;

    /// Mark a leased job successfully done: it is dropped entirely.
    fn ack(&mut self, job: JobId)
        ensures
            final(self).queue_view().inflight == old(self).queue_view().inflight.remove(job),
            final(self).queue_view().attempts == old(self).queue_view().attempts.remove(job),
            final(self).queue_view().queued == old(self).queue_view().queued,
            final(self).queue_view().dead == old(self).queue_view().dead,
            final(self).queue_view().max_attempts == old(self).queue_view().max_attempts,
    ;

    /// Report a leased job failed: dead-letter it once its attempts reach `max_attempts`, else
    /// requeue it at the back, reporting the attempt count.
    fn nack(&mut self, job: JobId) -> (r: Nacked)
        ensures
            final(self).queue_view().inflight == old(self).queue_view().inflight.remove(job),
            final(self).queue_view().max_attempts == old(self).queue_view().max_attempts,
            attempts_of(old(self).queue_view().attempts, job) >= old(self).queue_view().max_attempts ==> {
                &&& r == Nacked::DeadLettered
                &&& final(self).queue_view().attempts == old(self).queue_view().attempts.remove(job)
                &&& final(self).queue_view().dead == old(self).queue_view().dead.push(job)
                &&& final(self).queue_view().queued == old(self).queue_view().queued
            },
            attempts_of(old(self).queue_view().attempts, job) < old(self).queue_view().max_attempts ==> {
                &&& r == (Nacked::Requeued { attempt: attempts_of(old(self).queue_view().attempts, job) })
                &&& final(self).queue_view().attempts == old(self).queue_view().attempts
                &&& final(self).queue_view().dead == old(self).queue_view().dead
                &&& final(self).queue_view().queued == old(self).queue_view().queued.push(job)
            },
    ;

    /// Number of jobs waiting to be leased.
    fn pending(&self) -> (n: usize)
        ensures
            n == self.queue_view().queued.len(),
    ;

    /// Jobs that exhausted their retries, oldest first.
    fn dead_letters(&self) -> (v: Vec<JobId>)
        ensures
            v@ == self.queue_view().dead,
    ;
}

impl Queue for MemQueue {
    open spec fn queue_view(&self) -> QueueView {
        self@
    }

    /// Add a job to the back of the queue (its attempt count starts at 0 if it had none).
    fn enqueue(&mut self, job: JobId) {
        let a: u32 = match self.attempts.get(&job) {
            Some(v) => *v,
            None => 0,
        };
        self.attempts.insert(job, a);
        self.queued.push(job);
    }

    /// Lease up to `max` queued jobs, front first: they leave the waiting queue, become in flight
    /// and have their attempt counts incremented.
    fn lease(&mut self, max: usize) -> (leased: Vec<JobId>) {
        let mut leased: Vec<JobId> = Vec::new();
        let ghost q0 = self.queued@;
        let ghost f0 = self.inflight@;
        let ghost a0 = self.attempts@;
        let mut n: usize = 0;
        while n < max && self.queued.len() > 0
            invariant
                n <= max,
                n <= q0.len(),
                leased@ == q0.take(n as int),
                self.queued@ == q0.skip(n as int),
                self.inflight@ == f0.union(leased@.to_set()),
                self.attempts@ == bump_attempts(a0, leased@),
                self.dead@ == old(self)@.dead,
                self.max_attempts == old(self)@.max_attempts,
            decreases max - n,
        {
            let job = self.queued.remove(0);
            let a: u32 = match self.attempts.get(&job) {
                Some(v) => *v,
                None => 0,
            };
            let ghost before = leased@;
            self.attempts.insert(job, if a < u32::MAX { a + 1 } else { a });
            self.inflight.insert(job);
            leased.push(job);
            proof {
                assert(q0.take(n + 1) =~= q0.take(n as int).push(q0[n as int]));
                assert(self.queued@ =~= q0.skip(n + 1));
                assert(leased@ == before.push(job));
                assert(leased@.drop_last() =~= before);
                before.lemma_push_to_set_commute(job);
                assert(self.inflight@ =~= f0.union(leased@.to_set()));
            }
            n += 1;
        }
        proof {
            if n < max {
                assert(self.queued@.len() == 0);
                assert(n == q0.len());
            }
        }
        leased
    }

    /// Mark a leased job successfully done: it is dropped entirely.
    fn ack(&mut self, job: JobId) {
        self.inflight.remove(&job);
        self.attempts.remove(&job);
    }

    /// Report a leased job failed: dead-letter it once its attempts reach `max_attempts`, else
    /// requeue it at the back, reporting the attempt count.
    fn nack(&mut self, job: JobId) -> (r: Nacked) {
        self.inflight.remove(&job);
        let attempt: u32 = match self.attempts.get(&job) {
            Some(v) => *v,
            None => 0,
        };
        if attempt >= self.max_attempts {
            self.attempts.remove(&job);
            self.dead.push(job);
            Nacked::DeadLettered
        } else {
            self.queued.push(job);
            Nacked::Requeued { attempt }
        }
    }

    /// Number of jobs waiting to be leased.
    fn pending(&self) -> (n: usize) {
        self.queued.len()
    }

    /// Jobs that exhausted their retries, oldest first.
    fn dead_letters(&self) -> (v: Vec<JobId>) {
        let mut v: Vec<JobId> = Vec::new();
        let mut k: usize = 0;
        while k < self.dead.len()
            invariant
                k <= self.dead.len(),
                v@ == self.dead@.take(k as int),
            decreases self.dead.len() - k,
        {
            v.push(self.dead[k]);
            k += 1;
            assert(v@ =~= self.dead@.take(k as int));
        }
        assert(self.dead@.take(k as int) =~= self.dead@);
        v
    }
}

impl Default for MemQueue {
    /// Five attempts before dead-lettering.
    fn default() -> (q: MemQueue)
        ensures
            q@.queued == Seq::<JobId>::empty(),
            q@.inflight == Set::<JobId>::empty(),
            q@.attempts == Map::<JobId, u32>::empty(),
            q@.dead == Seq::<JobId>::empty(),
            q@.max_attempts == 5,
    {
        MemQueue::new(5)
    }
}

} // verus!
