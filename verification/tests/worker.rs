use kerf::queue::{MemQueue, Queue};
use kerf::store::{JobSpec, JobStatus, MemStore};
use kerf::worker::{claim_job, record_verdict, Claim, Outcome};

const GCODE: &str = "M83\nG21\n;LAYER_CHANGE\n;Z:0.2\n;TYPE:External perimeter\n;WIDTH:0.45\nG0 X0 Y0\nG1 X10 Y0 E.4\nG1 X10 Y10 E.4";

#[test]
fn claiming_from_an_empty_queue_is_idle() {
    let mut store: MemStore<String> = MemStore::new();
    let mut queue = MemQueue::default();
    assert!(matches!(claim_job(&mut store, &mut queue), Claim::Idle));
    assert_eq!(record_verdict(&mut store, &mut queue, 0, None), Outcome::Failed { job: 0 });
}

#[test]
fn a_claimed_job_is_running_with_its_inputs_and_completes() {
    let mut store: MemStore<String> = MemStore::new();
    let mut queue = MemQueue::default();
    let blob = store.put_blob(GCODE.as_bytes());
    let job = store.create_job("acme", JobSpec::Verify { input: blob }, 200);
    queue.enqueue(job);

    let Claim::Ready { job: claimed, inputs } = claim_job(&mut store, &mut queue) else {
        panic!("expected a ready job");
    };
    assert_eq!(claimed.id, job);
    assert_eq!(inputs, vec![GCODE.as_bytes().to_vec()]);
    assert_eq!(store.get_job(job).unwrap().status, JobStatus::Running);
    assert_eq!(queue.pending(), 0);

    let outcome = record_verdict(&mut store, &mut queue, job, Some(("sound".to_string(), "d0".to_string())));
    assert_eq!(outcome, Outcome::Completed { job, result: 0 });
    assert_eq!(store.get_result(0).unwrap().envelope, "sound");
    assert_eq!(store.get_job(job).unwrap().status, JobStatus::Done);
    assert_eq!(queue.pending(), 0);
    assert!(queue.dead_letters().is_empty());

    // A duplicate delivery of a completed job is dropped, not retried.
    queue.enqueue(job);
    assert_eq!(queue.lease(1), vec![job]);
    let again = record_verdict(&mut store, &mut queue, job, Some(("again".to_string(), "d1".to_string())));
    assert_eq!(again, Outcome::Failed { job });
    assert_eq!(store.result_count(), 1);
    assert_eq!(queue.pending(), 0);
}

#[test]
fn a_missing_input_returns_the_job_to_the_queue() {
    let mut store: MemStore<String> = MemStore::new();
    let mut queue = MemQueue::new(2);
    let job = store.create_job("acme", JobSpec::Verify { input: "deadbeef".to_string() }, 200);
    queue.enqueue(job);
    assert!(matches!(claim_job(&mut store, &mut queue), Claim::Failed { job: j } if j == job));
    assert_eq!(queue.pending(), 1); // requeued (attempt 1 of 2)
    assert!(matches!(claim_job(&mut store, &mut queue), Claim::Failed { .. }));
    assert_eq!(queue.pending(), 0);
    assert_eq!(queue.dead_letters(), vec![job]);
}

#[test]
fn a_missing_verdict_returns_the_job_to_the_queue() {
    let mut store: MemStore<String> = MemStore::new();
    let mut queue = MemQueue::default();
    let a = store.put_blob(b"G1 X1 E1");
    let b = store.put_blob(b"G1 X2 E1");
    let job = store.create_job("acme", JobSpec::Diff { a, b }, 100);
    queue.enqueue(job);
    let Claim::Ready { inputs, .. } = claim_job(&mut store, &mut queue) else {
        panic!("expected a ready job");
    };
    assert_eq!(inputs.len(), 2);
    assert_eq!(record_verdict(&mut store, &mut queue, job, None), Outcome::Failed { job });
    assert_eq!(queue.pending(), 1);
    assert_eq!(store.result_count(), 0);
}
