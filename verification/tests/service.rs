use kerf::api::{may_write, Metrics, Role, Submission};
use kerf::engine::{input_ref, EngineVersion, VerdictKind};
use kerf::queue::{MemQueue, Nacked, Queue};
use kerf::schema::{check_envelope, SchemaError, CURRENT_SCHEMA_VERSION, KIND_HI, KIND_LO};
use kerf::store::{blob_id, JobSpec, JobStatus, MemStore, StoreError};
use kerf::worker::{settle, Outcome};

const GCODE: &str = "M83\nG21\n;LAYER_CHANGE\n;Z:0.2\n;TYPE:External perimeter\n;WIDTH:0.45\nG0 X0 Y0\nG1 X10 Y0 E.4\nG1 X10 Y10 E.4";

#[test]
fn enqueue_lease_ack_flow() {
    let mut q = MemQueue::default();
    q.enqueue(1);
    q.enqueue(2);
    q.enqueue(3);
    assert_eq!(q.pending(), 3);
    let leased = q.lease(2);
    assert_eq!(leased, vec![1, 2]); // FIFO
    assert_eq!(q.pending(), 1); // leased jobs are no longer pending
    q.ack(1);
    q.ack(2);
    assert_eq!(q.pending(), 1); // job 3 still waiting
}

#[test]
fn nack_requeues_until_dead_letter() {
    let mut q = MemQueue::new(2); // dead-letter after 2 attempts
    q.enqueue(7);
    assert_eq!(q.lease(1), vec![7]);
    assert_eq!(q.nack(7), Nacked::Requeued { attempt: 1 });
    assert_eq!(q.pending(), 1);
    assert_eq!(q.lease(1), vec![7]);
    assert_eq!(q.nack(7), Nacked::DeadLettered);
    assert_eq!(q.pending(), 0);
    assert_eq!(q.dead_letters(), vec![7]);
}

#[test]
fn lease_on_empty_queue_returns_nothing() {
    let mut q = MemQueue::default();
    assert!(q.lease(10).is_empty());
}

#[test]
fn a_zero_retry_bound_is_one_attempt() {
    let mut q = MemQueue::new(0);
    q.enqueue(4);
    assert_eq!(q.lease(1), vec![4]);
    assert_eq!(q.nack(4), Nacked::DeadLettered);
}

#[test]
fn blobs_are_content_addressed_and_deduped() {
    let mut s: MemStore<String> = MemStore::new();
    let id1 = s.put_blob(GCODE.as_bytes());
    let id2 = s.put_blob(GCODE.as_bytes());
    assert_eq!(id1, id2); // same content -> same id
    assert_eq!(id1.len(), 64);
    assert_eq!(s.get_blob(&id1).as_deref(), Some(GCODE.as_bytes()));
    assert_ne!(id1, s.put_blob(b"different"));
    assert_eq!(s.get_blob(&"deadbeef".to_string()), None);
}

#[test]
fn blob_ids_are_sha256_hex() {
    assert_eq!(blob_id(b"abc"), "ba7816bf8f01cfea414140de5dae2223b00361a396177a9cb410ff61f20015ad");
    assert_eq!(blob_id(b""), "e3b0c44298fc1c149afbf4c8996fb92427ae41e4649b934ca495991b7852b855");
}

#[test]
fn job_lifecycle_and_immutable_result() {
    let mut s: MemStore<String> = MemStore::new();
    let blob = s.put_blob(GCODE.as_bytes());
    let job = s.create_job("acme", JobSpec::Verify { input: blob }, 200);
    assert_eq!(s.get_job(job).unwrap().status, JobStatus::Queued);
    s.set_running(job).unwrap();
    assert_eq!(s.get_job(job).unwrap().status, JobStatus::Running);

    let digest = "d1".to_string();
    let rid = s.complete_job(job, "verdict".to_string(), digest.clone()).unwrap();
    let stored = s.get_result(rid).unwrap();
    assert_eq!(stored.result_digest, digest);
    assert_eq!(stored.chain_seq, 0);
    assert_eq!(stored.prev_digest, None);
    assert_eq!(stored.envelope, "verdict");
    let done = s.get_job(job).unwrap();
    assert_eq!(done.status, JobStatus::Done);
    assert_eq!(done.result_id, Some(rid));

    // Immutability: a completed job cannot be completed again.
    let err = s.complete_job(job, "again".to_string(), "d2".to_string()).unwrap_err();
    assert_eq!(err, StoreError::AlreadyCompleted(job));
    assert_eq!(s.set_running(job), Err(StoreError::AlreadyCompleted(job)));
    assert_eq!(s.complete_job(99, "x".to_string(), "d".to_string()), Err(StoreError::JobNotFound(99)));
    assert_eq!(s.set_running(99), Err(StoreError::JobNotFound(99)));
}

#[test]
fn results_form_a_per_tenant_audit_chain() {
    let mut s: MemStore<String> = MemStore::new();
    let blob = s.put_blob(GCODE.as_bytes());
    let j1 = s.create_job("acme", JobSpec::Verify { input: blob.clone() }, 200);
    let j2 = s.create_job("acme", JobSpec::Verify { input: blob.clone() }, 100);
    let j3 = s.create_job("globex", JobSpec::Verify { input: blob }, 100);
    let r1 = s.complete_job(j1, "v1".to_string(), "d1".to_string()).unwrap();
    let r2 = s.complete_job(j2, "v2".to_string(), "d2".to_string()).unwrap();
    let r3 = s.complete_job(j3, "v3".to_string(), "d3".to_string()).unwrap();
    let s1 = s.get_result(r1).unwrap();
    let s2 = s.get_result(r2).unwrap();
    let s3 = s.get_result(r3).unwrap();
    assert_eq!(s1.chain_seq, 0);
    assert_eq!(s2.chain_seq, 1);
    // The second result links to the first: a tamper-evident chain.
    assert_eq!(s2.prev_digest.as_deref(), Some(s1.result_digest.as_str()));
    // Another tenant starts its own chain.
    assert_eq!(s3.chain_seq, 0);
    assert_eq!(s3.prev_digest, None);
}

#[test]
fn tenants_are_isolated_in_listing() {
    let mut s: MemStore<String> = MemStore::new();
    let blob = s.put_blob(GCODE.as_bytes());
    s.create_job("acme", JobSpec::Verify { input: blob.clone() }, 200);
    s.create_job("globex", JobSpec::Diff { a: blob.clone(), b: blob }, 200);
    assert_eq!(s.list_jobs("acme").len(), 1);
    assert_eq!(s.list_jobs("globex").len(), 1);
    assert_eq!(s.list_jobs("nobody").len(), 0);
}

#[test]
fn settling_a_job_acknowledges_it() {
    assert_eq!(settle(3, Some(9)), (Outcome::Completed { job: 3, result: 9 }, true));
    assert_eq!(settle(3, None), (Outcome::Failed { job: 3 }, true));
}

#[test]
fn input_refs_address_content() {
    let r = input_ref("input", "abc");
    assert_eq!(r.role, "input");
    assert_eq!(r.sha256, "ba7816bf8f01cfea414140de5dae2223b00361a396177a9cb410ff61f20015ad");
    assert_eq!(r.bytes, 3);
    assert_eq!(VerdictKind::Diff.as_str(), "diff");
    let v = EngineVersion::new("0.1.0", "abc123");
    assert_eq!(v.core_semver, "0.1.0");
    assert_eq!(v.git_sha, "abc123");
}

#[test]
fn only_writers_may_submit() {
    assert!(may_write(Role::Writer));
    assert!(!may_write(Role::Reader));
}

#[test]
fn metrics_count_submissions_by_kind() {
    let mut m = Metrics::default();
    m.record(Submission::Verify);
    m.record(Submission::Verify);
    m.record(Submission::Diff);
    assert_eq!((m.verify, m.diff, m.baseline), (2, 1, 0));
}

#[test]
fn envelopes_are_checked_version_first_then_kind() {
    assert_eq!(check_envelope(CURRENT_SCHEMA_VERSION, KIND_LO, KIND_LO), Ok(()));
    assert_eq!(
        check_envelope(CURRENT_SCHEMA_VERSION + 9, KIND_HI, KIND_LO),
        Err(SchemaError::UnsupportedVersion { found: CURRENT_SCHEMA_VERSION + 9, supported: CURRENT_SCHEMA_VERSION })
    );
    assert_eq!(
        check_envelope(CURRENT_SCHEMA_VERSION, KIND_LO, KIND_HI),
        Err(SchemaError::WrongKind { found: KIND_LO.to_string(), expected: KIND_HI.to_string() })
    );
}

#[test]
fn the_chain_advances_past_the_second_result_and_ignores_refused_completions() {
    let mut s: MemStore<String> = MemStore::new();
    let blob = s.put_blob(GCODE.as_bytes());
    let j1 = s.create_job("acme", JobSpec::Verify { input: blob.clone() }, 200);
    let j2 = s.create_job("acme", JobSpec::Verify { input: blob.clone() }, 200);
    let j3 = s.create_job("acme", JobSpec::Verify { input: blob }, 200);
    s.complete_job(j1, "v1".to_string(), "d1".to_string()).unwrap();
    s.complete_job(j2, "v2".to_string(), "d2".to_string()).unwrap();
    // Refused completions change nothing, the chain tail included.
    assert!(s.complete_job(j1, "again".to_string(), "dx".to_string()).is_err());
    assert!(s.complete_job(99, "none".to_string(), "dy".to_string()).is_err());
    let r3 = s.complete_job(j3, "v3".to_string(), "d3".to_string()).unwrap();
    let s3 = s.get_result(r3).unwrap();
    assert_eq!(s3.chain_seq, 2);
    assert_eq!(s3.prev_digest.as_deref(), Some("d2"));
}
