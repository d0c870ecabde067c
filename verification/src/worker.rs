//! One worker step: turning a queued job into a stored verdict. [`claim_job`] leases a job and
//! loads its inputs; the caller runs the engine on them; [`record_verdict`] stores the immutable
//! result and acknowledges the job, or returns it to the queue.
use vstd::prelude::*;

use crate::queue::{ack_result, lease_front, nack_result, JobId, Queue, QueueView};
use crate::store::{job_view, Job, JobSpec, JobStatus, MemStore, ResultId};

verus! {

/// The result of attempting one job.
#[derive(Clone, Copy, Debug, PartialEq, Eq, Structural)]
pub enum Outcome {
    /// The queue was empty.
    Idle,
    /// A job was verified/diffed and its result stored.
    Completed { job: JobId, result: ResultId },
    /// A job could not be processed (missing input, or already completed): nacked or dropped.
    Failed { job: JobId },
}

/// How a leased job whose inputs were found ends, given whether storing its result succeeded:
/// the outcome, and whether the queue should forget the job (`ack`). A completed result is
/// acknowledged; a refused one (already completed, e.g. a duplicate delivery) is dropped, not
/// retried, so it is acknowledged too.
pub fn settle(job: JobId, stored: Option<ResultId>) -> (r: (Outcome, bool))
    ensures
        r.1,
        r.0 == match stored {
            Some(result) => Outcome::Completed { job, result },
            None => Outcome::Failed { job },
        },
{
    match stored {
        Some(result) => (Outcome::Completed { job, result }, true),
        None => (Outcome::Failed { job }, true),
    }
}

/// A leased job, ready for the engine, or why the step ended early.
pub enum Claim {
    /// The queue was empty.
    Idle,
    /// The job is missing from the store, or one of its inputs is: it was returned to the queue.
    Failed { job: JobId },
    /// The job and its input blobs (one for a verify job, two for a diff job, in order).
    Ready { job: Job, inputs: Vec<Vec<u8>> },
}

/// The blob keys a job reads, in order.
pub open spec fn input_keys(spec: (bool, Seq<char>, Seq<char>)) -> Seq<Seq<char>> {
    if spec.0 {
        seq![spec.1]
    } else {
        seq![spec.1, spec.2]
    }
}

/// Some blob is stored under `key`.
pub open spec fn has_blob(blobs: Seq<(Seq<char>, Seq<u8>)>, key: Seq<char>) -> bool {
    exists|k: int| 0 <= k < blobs.len() && (#[trigger] blobs[k]).0 == key
}

/// `bytes` is the content of a blob stored under `key`.
pub open spec fn blob_holds(blobs: Seq<(Seq<char>, Seq<u8>)>, key: Seq<char>, bytes: Seq<u8>) -> bool {
    exists|k: int| 0 <= k < blobs.len() && (#[trigger] blobs[k]).0 == key && blobs[k].1 == bytes
}

/// A job's status after an attempt to mark it running: running unless it was already done.
pub open spec fn marked_running(
    js: Seq<(JobId, Seq<char>, (bool, Seq<char>, Seq<char>), i64, JobStatus, Option<ResultId>)>,
    id: JobId,
) -> Seq<(JobId, Seq<char>, (bool, Seq<char>, Seq<char>), i64, JobStatus, Option<ResultId>)> {
    let j = js[id as int];
    if j.4 == JobStatus::Done {
        js
    } else {
        js.update(id as int, (j.0, j.1, j.2, j.3, JobStatus::Running, j.5))
    }
}

/// Lease the front job, mark it running and load its inputs.
///
/// An empty queue leaves everything unchanged (`Idle`). A job missing from the store, or whose
/// input is missing, is returned to the queue (`Failed`). Otherwise the job stays leased and comes
/// back with its input blobs (`Ready`).
pub fn claim_job<E, Q: Queue>(store: &mut MemStore<E>, queue: &mut Q) -> (c: Claim)
    requires
        old(store).wf(),
    ensures
        final(store).wf(),
        final(store).blobs_view() == old(store).blobs_view(),
        final(store).results_view() == old(store).results_view(),
        old(queue).queue_view().queued.len() == 0 ==> {
            &&& c is Idle
            &&& final(queue).queue_view() == old(queue).queue_view()
            &&& final(store).jobs_view() == old(store).jobs_view()
        },
        old(queue).queue_view().queued.len() > 0 ==> ({
            let id = old(queue).queue_view().queued[0];
            let leased = lease_front(old(queue).queue_view());
            let js = old(store).jobs_view();
            &&& id >= js.len() ==> c == (Claim::Failed { job: id }) && final(queue).queue_view() == nack_result(
                leased,
                id,
            ) && final(store).jobs_view() == js
            &&& id < js.len() ==> {
                let keys = input_keys(js[id as int].2);
                &&& final(store).jobs_view() == marked_running(js, id)
                &&& (forall|k: int| 0 <= k < keys.len() ==> #[trigger] has_blob(old(store).blobs_view(), keys[k]))
                    ==> (c matches Claim::Ready { job, inputs } && job_view(job) == js[id as int]
                    && inputs@.len() == keys.len() && (forall|k: int|
                    0 <= k < keys.len() ==> #[trigger] blob_holds(old(store).blobs_view(), keys[k], inputs@[k]@))
                    && final(queue).queue_view() == leased)
                &&& !(forall|k: int| 0 <= k < keys.len() ==> #[trigger] has_blob(old(store).blobs_view(), keys[k]))
                    ==> c == (Claim::Failed { job: id }) && final(queue).queue_view() == nack_result(leased, id)
            }
        }),
{
    let ghost q0 = queue.queue_view();
    let leased_ids = queue.lease(1);
    if leased_ids.len() == 0 {
        proof {
            assert(leased_ids@ =~= Seq::<JobId>::empty());
            assert(q0.queued.skip(0) =~= q0.queued);
            assert(q0.inflight.union(leased_ids@.to_set()) =~= q0.inflight);
        }
        return Claim::Idle;
    }
    let id = leased_ids[0];
    proof {
        assert(leased_ids@ == q0.queued.take(1));
        assert(id == q0.queued[0]);
        assert(leased_ids@.to_set() =~= set![id]);
        assert(leased_ids@ =~= seq![id]);
        assert(q0.inflight.union(set![id]) =~= q0.inflight.insert(id));
    }
    let job = match store.get_job(id) {
        Some(j) => j,
        None => {
            queue.nack(id);
            return Claim::Failed { job: id };
        },
    };
    let ghost js = store.jobs_view();
    let _ = store.set_running(id);
    proof {
        if js[id as int].4 != JobStatus::Done {
            assert(store.jobs_view() == marked_running(js, id));
        }
    }
    let ghost blobs = store.blobs_view();
    let mut inputs: Vec<Vec<u8>> = Vec::new();
    match &job.spec {
        JobSpec::Verify { input } => {
            match store.get_blob(input) {
                Some(b) => {
                    inputs.push(b);
                },
                None => {
                    assert(!has_blob(blobs, input_keys(js[id as int].2)[0]));
                    queue.nack(id);
                    return Claim::Failed { job: id };
                },
            }
        },
        JobSpec::Diff { a, b } => {
            match store.get_blob(a) {
                Some(x) => {
                    inputs.push(x);
                },
                None => {
                    assert(!has_blob(blobs, input_keys(js[id as int].2)[0]));
                    queue.nack(id);
                    return Claim::Failed { job: id };
                },
            }
            match store.get_blob(b) {
                Some(y) => {
                    inputs.push(y);
                },
                None => {
                    assert(!has_blob(blobs, input_keys(js[id as int].2)[1]));
                    queue.nack(id);
                    return Claim::Failed { job: id };
                },
            }
        },
    }
    let ghost keys = input_keys(js[id as int].2);
    assert forall|k: int| 0 <= k < keys.len() implies #[trigger] blob_holds(blobs, keys[k], inputs@[k]@) by {
        assert(has_blob(blobs, keys[k]));
    }
    Claim::Ready { job, inputs }
}

/// Store the engine's verdict on a claimed job and settle it with the queue.
///
/// With a verdict `(envelope, digest)` and room for one more result, the result is stored
/// ([`MemStore::complete_job`]); the job is acknowledged whether that succeeded (`Completed`) or
/// was refused because the job is already done (`Failed`, dropped rather than retried). Without a
/// verdict, or with no room for another result, the job is returned to the queue (`Failed`).
pub fn record_verdict<E, Q: Queue>(store: &mut MemStore<E>, queue: &mut Q, job: JobId, verdict: Option<(E, String)>) -> (o: Outcome)
    requires
        old(store).wf(),
    ensures
        final(store).wf(),
        final(store).blobs_view() == old(store).blobs_view(),
        ({
            let js = old(store).jobs_view();
            let rs = old(store).results_view();
            &&& (verdict is None || rs.len() >= u64::MAX) ==> o == (Outcome::Failed { job })
                && final(queue).queue_view() == nack_result(old(queue).queue_view(), job)
                && final(store).jobs_view() == js && final(store).results_view() == rs
            &&& (verdict is Some && rs.len() < u64::MAX) ==> {
                &&& final(queue).queue_view() == ack_result(old(queue).queue_view(), job)
                &&& (job < js.len() && js[job as int].4 != JobStatus::Done) ==> {
                    &&& o == (Outcome::Completed { job, result: rs.len() as u64 })
                    &&& final(store).results_view().len() == rs.len() + 1
                    &&& final(store).results_view().take(rs.len() as int) == rs
                    &&& final(store).results_view()[rs.len() as int].1 == job
                    &&& final(store).results_view()[rs.len() as int].5 == verdict.unwrap().1@
                    &&& final(store).envelope_of(rs.len() as int) == verdict.unwrap().0
                    &&& final(store).jobs_view()[job as int].4 == JobStatus::Done
                }
                &&& !(job < js.len() && js[job as int].4 != JobStatus::Done) ==> o == (Outcome::Failed { job })
                    && final(store).jobs_view() == js && final(store).results_view() == rs
            }
        }),
{
    match verdict {
        None => {
            queue.nack(job);
            Outcome::Failed { job }
        },
        Some((envelope, digest)) => {
            if (store.result_count() as u128) >= (u64::MAX as u128) {
                queue.nack(job);
                return Outcome::Failed { job };
            }
            let stored = match store.complete_job(job, envelope, digest) {
                Ok(rid) => Some(rid),
                Err(_) => None,
            };
            let (outcome, ack) = settle(job, stored);
            if ack {
                queue.ack(job);
            }
            outcome
        },
    }
}

} // verus!
