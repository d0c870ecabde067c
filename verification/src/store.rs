//! Persistence for the Kerf platform: an in-memory store of blobs, jobs and verdict results.
//!
//! Design invariants:
//!  - **Blobs are content-addressed** (SHA-256), so identical inputs are stored once.
//!  - **Results are immutable**: [`MemStore::complete_job`] inserts a result and can never
//!    overwrite one; completing an already-done job is an error.
//!  - **Results form a per-tenant append-only chain**: each carries the previous result's digest,
//!    so tampering with history is detectable.
//!
//! The store keeps verdict envelopes of any type `E`; the caller supplies each envelope's
//! reproducible digest when completing a job.
use vstd::prelude::*;

use crate::digest::{hex_bytes, sha256_digest, sha256_hex};

verus! {

/// Lowercase-hex SHA-256 of a blob's bytes.
pub type BlobId = String;

pub type JobId = u64;

pub type ResultId = u64;

/// Why a store operation was refused.
#[derive(Clone, Copy, Debug, PartialEq, Eq, Structural)]
pub enum StoreError {
    JobNotFound(JobId),
    AlreadyCompleted(JobId),
}

impl StoreError {
    /// The error's message.
    pub fn message(&self) -> (m: String)
        ensures
            *self is JobNotFound ==> m@ == "job not found"@,
            *self is AlreadyCompleted ==> m@ == "job is already completed (results are immutable)"@,
    {
        match self {
            StoreError::JobNotFound(_) => String::from_str("job not found"),
            StoreError::AlreadyCompleted(_) => String::from_str("job is already completed (results are immutable)"),
        }
    }
}

/// What a job asks the engine to compute.
#[derive(Clone, Debug, PartialEq, Eq)]
pub enum JobSpec {
    Verify { input: BlobId },
    Diff { a: BlobId, b: BlobId },
}

#[derive(Clone, Copy, Debug, PartialEq, Eq, Structural)]
pub enum JobStatus {
    Queued,
    Running,
    Done,
    Failed,
}

#[derive(Clone, Debug, PartialEq, Eq)]
pub struct Job {
    pub id: JobId,
    pub tenant: String,
    pub spec: JobSpec,
    pub resolution_um: i64,
    pub status: JobStatus,
    pub result_id: Option<ResultId>,
}

/// An immutable verdict record, linked into its tenant's audit chain.
pub struct StoredResult<E> {
    pub id: ResultId,
    pub job_id: JobId,
    pub tenant: String,
    /// Position in the tenant's append-only chain (0-based).
    pub chain_seq: u64,
    /// Digest of the previous result in this tenant's chain (`None` for the first).
    pub prev_digest: Option<String>,
    /// This verdict's reproducible digest.
    pub result_digest: String,
    pub envelope: E,
}

/// The plain value of a job spec.
pub open spec fn spec_view(s: JobSpec) -> (bool, Seq<char>, Seq<char>) {
    match s {
        JobSpec::Verify { input } => (true, input@, Seq::empty()),
        JobSpec::Diff { a, b } => (false, a@, b@),
    }
}

/// The plain value of a job: id, tenant, spec, resolution, status, result.
pub open spec fn job_view(j: Job) -> (JobId, Seq<char>, (bool, Seq<char>, Seq<char>), i64, JobStatus, Option<ResultId>) {
    (j.id, j.tenant@, spec_view(j.spec), j.resolution_um, j.status, j.result_id)
}

/// The plain chain data of a result: id, job, tenant, chain position, previous digest, digest.
pub open spec fn result_view<E>(r: StoredResult<E>) -> (ResultId, JobId, Seq<char>, u64, Option<Seq<char>>, Seq<char>) {
    (
        r.id,
        r.job_id,
        r.tenant@,
        r.chain_seq,
        match r.prev_digest {
            Some(d) => Some(d@),
            None => None,
        },
        r.result_digest@,
    )
}

/// The jobs of `js` whose tenant is `t`, in order.
pub open spec fn jobs_of(
    js: Seq<(JobId, Seq<char>, (bool, Seq<char>, Seq<char>), i64, JobStatus, Option<ResultId>)>,
    t: Seq<char>,
) -> Seq<(JobId, Seq<char>, (bool, Seq<char>, Seq<char>), i64, JobStatus, Option<ResultId>)>
    decreases js.len(),
{
    if js.len() == 0 {
        Seq::empty()
    } else if js.last().1 == t {
        jobs_of(js.drop_last(), t).push(js.last())
    } else {
        jobs_of(js.drop_last(), t)
    }
}

/// The id a blob is stored under.
pub open spec fn blob_key(bytes: Seq<u8>) -> Seq<char> {
    hex_bytes(sha256_digest(bytes))
}

/// Content-address a blob: the lowercase-hex SHA-256 of its bytes.
pub fn blob_id(bytes: &[u8]) -> (id: BlobId)
    ensures
        id@ == blob_key(bytes@),
        id@.len() == 64,
{
    sha256_hex(bytes)
}

/// Job and result ids are their positions, and both counts fit in `u64`.
pub open spec fn ids_ok(
    js: Seq<(JobId, Seq<char>, (bool, Seq<char>, Seq<char>), i64, JobStatus, Option<ResultId>)>,
    rs: Seq<(ResultId, JobId, Seq<char>, u64, Option<Seq<char>>, Seq<char>)>,
) -> bool {
    &&& forall|i: int| 0 <= i < js.len() ==> (#[trigger] js[i]).0 == i
    &&& forall|i: int| 0 <= i < rs.len() ==> (#[trigger] rs[i]).0 == i
    &&& js.len() <= u64::MAX
    &&& rs.len() <= u64::MAX
}

/// Every blob is stored under its content address.
pub open spec fn blobs_ok(bs: Seq<(Seq<char>, Seq<u8>)>) -> bool {
    forall|i: int| 0 <= i < bs.len() ==> (#[trigger] bs[i]).0 == blob_key(bs[i].1)
}

/// Every chain tail names an existing result of its tenant, at the tail's position and digest.
pub open spec fn tails_exist(
    rs: Seq<(ResultId, JobId, Seq<char>, u64, Option<Seq<char>>, Seq<char>)>,
    cs: Seq<(Seq<char>, u64, Seq<char>)>,
) -> bool {
    forall|t: int|
        0 <= t < cs.len() ==> exists|i: int|
            0 <= i < rs.len() && (#[trigger] rs[i]).2 == (#[trigger] cs[t]).0 && rs[i].3 == cs[t].1 && rs[i].5 == cs[t].2
}

/// At most one chain tail per tenant.
pub open spec fn tails_distinct(cs: Seq<(Seq<char>, u64, Seq<char>)>) -> bool {
    forall|t: int, u: int| 0 <= t < u < cs.len() ==> (#[trigger] cs[t]).0 != (#[trigger] cs[u]).0
}

/// Every result's tenant has a chain tail.
pub open spec fn tenants_have_tails(
    rs: Seq<(ResultId, JobId, Seq<char>, u64, Option<Seq<char>>, Seq<char>)>,
    cs: Seq<(Seq<char>, u64, Seq<char>)>,
) -> bool {
    forall|i: int| 0 <= i < rs.len() ==> (exists|t: int| 0 <= t < cs.len() && (#[trigger] cs[t]).0 == (#[trigger] rs[i]).2)
}

/// Each chain tail is at least as far along as every result of its tenant.
pub open spec fn tails_latest(
    rs: Seq<(ResultId, JobId, Seq<char>, u64, Option<Seq<char>>, Seq<char>)>,
    cs: Seq<(Seq<char>, u64, Seq<char>)>,
) -> bool {
    forall|t: int, i: int| 0 <= t < cs.len() && 0 <= i < rs.len() && (#[trigger] rs[i]).2 == (#[trigger] cs[t]).0 ==> rs[i].3 <= cs[t].1
}

/// Within a tenant, a later result stands further along the chain: positions never repeat, so the
/// chain never forks.
pub open spec fn seqs_increase(rs: Seq<(ResultId, JobId, Seq<char>, u64, Option<Seq<char>>, Seq<char>)>) -> bool {
    forall|i: int, j: int| 0 <= i < j < rs.len() && (#[trigger] rs[i]).2 == (#[trigger] rs[j]).2 ==> rs[i].3 < rs[j].3
}

/// One chain tail per tenant, each naming the latest result of its tenant at its position and
/// digest, every result's tenant has a tail, and a tenant's positions increase with result ids.
pub open spec fn chain_ok(
    rs: Seq<(ResultId, JobId, Seq<char>, u64, Option<Seq<char>>, Seq<char>)>,
    cs: Seq<(Seq<char>, u64, Seq<char>)>,
) -> bool {
    &&& tails_exist(rs, cs)
    &&& tails_distinct(cs)
    &&& tenants_have_tails(rs, cs)
    &&& tails_latest(rs, cs)
    &&& seqs_increase(rs)
}

/// A result is first in its tenant's chain (position 0, no previous digest) or links to an
/// earlier result of its tenant one position back, by that result's digest.
pub open spec fn links_ok(rs: Seq<(ResultId, JobId, Seq<char>, u64, Option<Seq<char>>, Seq<char>)>) -> bool {
    &&& forall|i: int| 0 <= i < rs.len() ==> ((#[trigger] rs[i]).3 == 0 <==> rs[i].4 is None) && rs[i].3 <= i
    &&& forall|i: int|
        0 <= i < rs.len() && rs[i].3 > 0 ==> exists|k: int|
            0 <= k < i && (#[trigger] rs[k]).2 == (#[trigger] rs[i]).2 && rs[k].3 + 1 == rs[i].3 && rs[i].4 == Some(rs[k].5)
}

proof fn lemma_extend_tails(
    rs0: Seq<(ResultId, JobId, Seq<char>, u64, Option<Seq<char>>, Seq<char>)>,
    cs0: Seq<(Seq<char>, u64, Seq<char>)>,
    nr: (ResultId, JobId, Seq<char>, u64, Option<Seq<char>>, Seq<char>),
    tail: Option<int>,
    w: int,
    cs: Seq<(Seq<char>, u64, Seq<char>)>,
)
    requires
        cs == match tail {
            Some(k) => cs0.update(k, (nr.2, nr.3, nr.5)),
            None => cs0.push((nr.2, nr.3, nr.5)),
        },
        chain_ok(rs0, cs0),
        links_ok(rs0),
        nr.0 == rs0.len(),
        match tail {
            Some(k) => {
                &&& 0 <= k < cs0.len()
                &&& cs0[k].0 == nr.2
                &&& 0 <= w < rs0.len()
                &&& rs0[w].2 == nr.2
                &&& rs0[w].3 == cs0[k].1
                &&& rs0[w].5 == cs0[k].2
                &&& nr.3 == rs0[w].3 + 1
                &&& nr.4 == Some(rs0[w].5)
            },
            None => {
                &&& forall|t: int| 0 <= t < cs0.len() ==> (#[trigger] cs0[t]).0 != nr.2
                &&& nr.3 == 0
                &&& nr.4 is None
            },
        },
    ensures
        tails_exist(rs0.push(nr), cs),
        tails_distinct(cs),
{
    let rs = rs0.push(nr);
    let nt = (nr.2, nr.3, nr.5);
    assert(rs[rs0.len() as int] == nr);
    assert forall|t: int| 0 <= t < cs.len() implies exists|i: int|
        0 <= i < rs.len() && (#[trigger] rs[i]).2 == (#[trigger] cs[t]).0 && rs[i].3 == cs[t].1 && rs[i].5 == cs[t].2 by {
        if cs[t] == nt {
            assert(rs[rs0.len() as int] == nr);
        } else {
            assert(t < cs0.len() && cs[t] == cs0[t]);
            let v = choose|v: int|
                0 <= v < rs0.len() && (#[trigger] rs0[v]).2 == (#[trigger] cs0[t]).0 && rs0[v].3 == cs0[t].1 && rs0[v].5
                    == cs0[t].2;
            assert(rs[v] == rs0[v]);
        }
    }
    assert forall|t: int, u: int| 0 <= t < u < cs.len() implies (#[trigger] cs[t]).0 != (#[trigger] cs[u]).0 by {
        match tail {
            Some(k) => {
                if t == k {
                    assert(cs0[t].0 != cs0[u].0);
                } else if u == k {
                    assert(cs0[t].0 != cs0[u].0);
                } else {
                    assert(cs[t] == cs0[t] && cs[u] == cs0[u]);
                }
            },
            None => {
                if u < cs0.len() {
                    assert(cs[t] == cs0[t] && cs[u] == cs0[u]);
                } else {
                    assert(cs[t] == cs0[t]);
                }
            },
        }
    }
}

proof fn lemma_extend_cover(
    rs0: Seq<(ResultId, JobId, Seq<char>, u64, Option<Seq<char>>, Seq<char>)>,
    cs0: Seq<(Seq<char>, u64, Seq<char>)>,
    nr: (ResultId, JobId, Seq<char>, u64, Option<Seq<char>>, Seq<char>),
    tail: Option<int>,
    w: int,
    cs: Seq<(Seq<char>, u64, Seq<char>)>,
)
    requires
        cs == match tail {
            Some(k) => cs0.update(k, (nr.2, nr.3, nr.5)),
            None => cs0.push((nr.2, nr.3, nr.5)),
        },
        chain_ok(rs0, cs0),
        links_ok(rs0),
        nr.0 == rs0.len(),
        match tail {
            Some(k) => {
                &&& 0 <= k < cs0.len()
                &&& cs0[k].0 == nr.2
                &&& 0 <= w < rs0.len()
                &&& rs0[w].2 == nr.2
                &&& rs0[w].3 == cs0[k].1
                &&& rs0[w].5 == cs0[k].2
                &&& nr.3 == rs0[w].3 + 1
                &&& nr.4 == Some(rs0[w].5)
            },
            None => {
                &&& forall|t: int| 0 <= t < cs0.len() ==> (#[trigger] cs0[t]).0 != nr.2
                &&& nr.3 == 0
                &&& nr.4 is None
            },
        },
    ensures
        tenants_have_tails(rs0.push(nr), cs),
{
    let rs = rs0.push(nr);
    let nt = (nr.2, nr.3, nr.5);
    assert(rs[rs0.len() as int] == nr);
    assert forall|i: int| 0 <= i < rs.len() implies (exists|t: int| 0 <= t < cs.len() && (#[trigger] cs[t]).0 == (#[trigger] rs[i]).2) by {
        if i < rs0.len() {
            assert(rs[i] == rs0[i]);
            let t = choose|t: int| 0 <= t < cs0.len() && (#[trigger] cs0[t]).0 == (#[trigger] rs0[i]).2;
            assert(cs[t].0 == cs0[t].0);
        } else {
            match tail {
                Some(k) => {
                    assert(cs[k] == nt);
                },
                None => {
                    assert(cs[cs0.len() as int] == nt);
                },
            }
        }
    }
}

proof fn lemma_extend_links(
    rs0: Seq<(ResultId, JobId, Seq<char>, u64, Option<Seq<char>>, Seq<char>)>,
    cs0: Seq<(Seq<char>, u64, Seq<char>)>,
    nr: (ResultId, JobId, Seq<char>, u64, Option<Seq<char>>, Seq<char>),
    tail: Option<int>,
    w: int,
    cs: Seq<(Seq<char>, u64, Seq<char>)>,
)
    requires
        cs == match tail {
            Some(k) => cs0.update(k, (nr.2, nr.3, nr.5)),
            None => cs0.push((nr.2, nr.3, nr.5)),
        },
        chain_ok(rs0, cs0),
        links_ok(rs0),
        nr.0 == rs0.len(),
        match tail {
            Some(k) => {
                &&& 0 <= k < cs0.len()
                &&& cs0[k].0 == nr.2
                &&& 0 <= w < rs0.len()
                &&& rs0[w].2 == nr.2
                &&& rs0[w].3 == cs0[k].1
                &&& rs0[w].5 == cs0[k].2
                &&& nr.3 == rs0[w].3 + 1
                &&& nr.4 == Some(rs0[w].5)
            },
            None => {
                &&& forall|t: int| 0 <= t < cs0.len() ==> (#[trigger] cs0[t]).0 != nr.2
                &&& nr.3 == 0
                &&& nr.4 is None
            },
        },
    ensures
        links_ok(rs0.push(nr)),
{
    let rs = rs0.push(nr);
    let nt = (nr.2, nr.3, nr.5);
    assert(rs[rs0.len() as int] == nr);
    assert forall|i: int| 0 <= i < rs.len() implies ((#[trigger] rs[i]).3 == 0 <==> rs[i].4 is None) && rs[i].3 <= i by {
        if i < rs0.len() {
            assert(rs[i] == rs0[i]);
        } else {
            if tail is Some {
                assert(rs0[w].3 <= w);
            }
        }
    }
    assert forall|i: int|
        0 <= i < rs.len() && rs[i].3 > 0 implies exists|k: int|
            0 <= k < i && (#[trigger] rs[k]).2 == (#[trigger] rs[i]).2 && rs[k].3 + 1 == rs[i].3 && rs[i].4 == Some(rs[k].5) by {
        if i < rs0.len() {
            assert(rs[i] == rs0[i]);
            let k = choose|k: int|
                0 <= k < i && (#[trigger] rs0[k]).2 == (#[trigger] rs0[i]).2 && rs0[k].3 + 1 == rs0[i].3 && rs0[i].4
                    == Some(rs0[k].5);
            assert(rs[k] == rs0[k]);
        } else {
            assert(tail is Some);
            assert(rs[w] == rs0[w]);
        }
    }
}

/// Appending a result that extends its tenant's chain keeps the chain and link invariants.
proof fn lemma_extend_order(
    rs0: Seq<(ResultId, JobId, Seq<char>, u64, Option<Seq<char>>, Seq<char>)>,
    cs0: Seq<(Seq<char>, u64, Seq<char>)>,
    nr: (ResultId, JobId, Seq<char>, u64, Option<Seq<char>>, Seq<char>),
    tail: Option<int>,
    w: int,
    cs: Seq<(Seq<char>, u64, Seq<char>)>,
)
    requires
        cs == match tail {
            Some(k) => cs0.update(k, (nr.2, nr.3, nr.5)),
            None => cs0.push((nr.2, nr.3, nr.5)),
        },
        chain_ok(rs0, cs0),
        nr.0 == rs0.len(),
        match tail {
            Some(k) => {
                &&& 0 <= k < cs0.len()
                &&& cs0[k].0 == nr.2
                &&& 0 <= w < rs0.len()
                &&& rs0[w].2 == nr.2
                &&& rs0[w].3 == cs0[k].1
                &&& nr.3 == rs0[w].3 + 1
            },
            None => {
                &&& forall|t: int| 0 <= t < cs0.len() ==> (#[trigger] cs0[t]).0 != nr.2
                &&& nr.3 == 0
            },
        },
    ensures
        tails_latest(rs0.push(nr), cs),
        seqs_increase(rs0.push(nr)),
{
    let rs = rs0.push(nr);
    let n = rs0.len() as int;
    assert(rs[n] == nr);
    // No earlier result belongs to a tenant without a tail.
    assert forall|i: int| 0 <= i < n && rs0[i].2 == nr.2 implies (tail is Some && rs0[i].3 <= cs0[tail->0].1) by {
        let t = choose|t: int| 0 <= t < cs0.len() && (#[trigger] cs0[t]).0 == (#[trigger] rs0[i]).2;
        match tail {
            Some(k) => {
                assert(rs0[i].2 == cs0[k].0);
            },
            None => {
                assert(cs0[t].0 != nr.2);
            },
        }
    }
    assert forall|t: int, i: int| 0 <= t < cs.len() && 0 <= i < rs.len() && (#[trigger] rs[i]).2 == (#[trigger] cs[t]).0
        implies rs[i].3 <= cs[t].1 by {
        if i < n {
            assert(rs[i] == rs0[i]);
            match tail {
                Some(k) => {
                    if t != k {
                        assert(cs[t] == cs0[t]);
                        assert(rs0[i].2 == cs0[t].0);
                    } else {
                        assert(rs0[i].3 <= cs0[k].1);
                    }
                },
                None => {
                    if t < cs0.len() {
                        assert(cs[t] == cs0[t]);
                        assert(rs0[i].2 == cs0[t].0);
                    } else {
                        assert(cs[t].0 == nr.2);
                    }
                },
            }
        } else {
            match tail {
                Some(k) => {
                    if t != k {
                        assert(cs[t] == cs0[t]);
                        if t < k {
                            assert(cs0[t].0 != cs0[k].0);
                        } else {
                            assert(cs0[k].0 != cs0[t].0);
                        }
                    }
                },
                None => {
                    if t < cs0.len() {
                        assert(cs[t] == cs0[t]);
                    }
                },
            }
        }
    }
    assert forall|i: int, j: int| 0 <= i < j < rs.len() && (#[trigger] rs[i]).2 == (#[trigger] rs[j]).2 implies rs[i].3
        < rs[j].3 by {
        assert(rs[i] == rs0[i]);
        if j < n {
            assert(rs[j] == rs0[j]);
        } else {
            assert(rs0[i].2 == nr.2);
        }
    }
}

proof fn lemma_extend_chain(
    rs0: Seq<(ResultId, JobId, Seq<char>, u64, Option<Seq<char>>, Seq<char>)>,
    cs0: Seq<(Seq<char>, u64, Seq<char>)>,
    nr: (ResultId, JobId, Seq<char>, u64, Option<Seq<char>>, Seq<char>),
    tail: Option<int>,
    w: int,
    cs: Seq<(Seq<char>, u64, Seq<char>)>,
)
    requires
        cs == match tail {
            Some(k) => cs0.update(k, (nr.2, nr.3, nr.5)),
            None => cs0.push((nr.2, nr.3, nr.5)),
        },
        chain_ok(rs0, cs0),
        links_ok(rs0),
        nr.0 == rs0.len(),
        match tail {
            Some(k) => {
                &&& 0 <= k < cs0.len()
                &&& cs0[k].0 == nr.2
                &&& 0 <= w < rs0.len()
                &&& rs0[w].2 == nr.2
                &&& rs0[w].3 == cs0[k].1
                &&& rs0[w].5 == cs0[k].2
                &&& nr.3 == rs0[w].3 + 1
                &&& nr.4 == Some(rs0[w].5)
            },
            None => {
                &&& forall|t: int| 0 <= t < cs0.len() ==> (#[trigger] cs0[t]).0 != nr.2
                &&& nr.3 == 0
                &&& nr.4 is None
            },
        },
    ensures
        chain_ok(rs0.push(nr), cs),
        links_ok(rs0.push(nr)),
{
    lemma_extend_tails(rs0, cs0, nr, tail, w, cs);
    lemma_extend_cover(rs0, cs0, nr, tail, w, cs);
    lemma_extend_links(rs0, cs0, nr, tail, w, cs);
    lemma_extend_order(rs0, cs0, nr, tail, w, cs);
}

fn copy_string(s: &String) -> (r: String)
    ensures
        r@ == s@,
{
    s.clone()
}

fn copy_spec(s: &JobSpec) -> (r: JobSpec)
    ensures
        spec_view(r) == spec_view(*s),
{
    match s {
        JobSpec::Verify { input } => JobSpec::Verify { input: copy_string(input) },
        JobSpec::Diff { a, b } => JobSpec::Diff { a: copy_string(a), b: copy_string(b) },
    }
}

fn copy_job(j: &Job) -> (r: Job)
    ensures
        job_view(r) == job_view(*j),
{
    Job {
        id: j.id,
        tenant: copy_string(&j.tenant),
        spec: copy_spec(&j.spec),
        resolution_um: j.resolution_um,
        status: j.status,
        result_id: j.result_id,
    }
}

fn copy_bytes(v: &Vec<u8>) -> (r: Vec<u8>)
    ensures
        r@ == v@,
{
    let mut r: Vec<u8> = Vec::new();
    let mut k: usize = 0;
    while k < v.len()
        invariant
            k <= v.len(),
            r@ == v@.take(k as int),
        decreases v.len() - k,
    {
        r.push(v[k]);
        k += 1;
        assert(r@ =~= v@.take(k as int));
    }
    assert(v@.take(k as int) =~= v@);
    r
}

/// The in-memory store. Jobs and results are numbered from 0 in creation order.
pub struct MemStore<E> {
    blobs: Vec<(String, Vec<u8>)>,
    jobs: Vec<Job>,
    results: Vec<StoredResult<E>>,
    /// Per-tenant chain tail: (tenant, last chain position, last digest).
    chain: Vec<(String, u64, String)>,
}

impl<E> MemStore<E> {
    /// Stored blobs as (id, bytes).
    pub closed spec fn blobs_view(&self) -> Seq<(Seq<char>, Seq<u8>)> {
        self.blobs@.map_values(|b: (String, Vec<u8>)| (b.0@, b.1@))
    }

    /// Jobs as plain values, in id order.
    pub closed spec fn jobs_view(&self) -> Seq<(JobId, Seq<char>, (bool, Seq<char>, Seq<char>), i64, JobStatus, Option<ResultId>)> {
        self.jobs@.map_values(|j: Job| job_view(j))
    }

    /// Results' chain data, in id order.
    pub closed spec fn results_view(&self) -> Seq<(ResultId, JobId, Seq<char>, u64, Option<Seq<char>>, Seq<char>)> {
        self.results@.map_values(|r: StoredResult<E>| result_view(r))
    }

    /// The envelope stored with result `i`.
    pub closed spec fn envelope_of(&self, i: int) -> E {
        self.results@[i].envelope
    }

    /// Chain tails as (tenant, position, digest).
    pub closed spec fn chain_view(&self) -> Seq<(Seq<char>, u64, Seq<char>)> {
        self.chain@.map_values(|c: (String, u64, String)| (c.0@, c.1, c.2@))
    }

    /// The store's invariant: job and result ids are their positions, blobs are stored under
    /// their content address, every chain tail names an existing result of its tenant, and every
    /// result after a tenant's first links to an earlier result of that tenant one position back.
    pub open spec fn wf(&self) -> bool {
        &&& ids_ok(self.jobs_view(), self.results_view())
        &&& blobs_ok(self.blobs_view())
        &&& chain_ok(self.results_view(), self.chain_view())
        &&& links_ok(self.results_view())
    }

    pub fn new() -> (s: MemStore<E>)
        ensures
            s.wf(),
            s.blobs_view().len() == 0,
            s.jobs_view().len() == 0,
            s.results_view().len() == 0,
            s.chain_view().len() == 0,
    {
        MemStore { blobs: Vec::new(), jobs: Vec::new(), results: Vec::new(), chain: Vec::new() }
    }

    /// Index of the blob stored under `id`, if any.
    fn find_blob(&self, id: &String) -> (r: Option<usize>)
        ensures
            match r {
                Some(k) => k < self.blobs_view().len() && self.blobs_view()[k as int].0 == id@,
                None => forall|k: int| 0 <= k < self.blobs_view().len() ==> (#[trigger] self.blobs_view()[k]).0 != id@,
            },
    {
        let mut k: usize = 0;
        while k < self.blobs.len()
            invariant
                k <= self.blobs.len(),
                forall|t: int| 0 <= t < k ==> (#[trigger] self.blobs_view()[t]).0 != id@,
            decreases self.blobs.len() - k,
        {
            if self.blobs[k].0 == *id {
                return Some(k);
            }
            k += 1;
        }
        None
    }

    /// Store a blob content-addressed; returns its id. Storing the same bytes again stores
    /// nothing new.
    pub fn put_blob(&mut self, bytes: &[u8]) -> (id: BlobId)
        requires
            old(self).wf(),
        ensures
            final(self).wf(),
            id@ == blob_key(bytes@),
            (exists|k: int| 0 <= k < old(self).blobs_view().len() && (#[trigger] old(self).blobs_view()[k]).0 == id@)
                ==> final(self).blobs_view() == old(self).blobs_view(),
            !(exists|k: int| 0 <= k < old(self).blobs_view().len() && (#[trigger] old(self).blobs_view()[k]).0 == id@)
                ==> final(self).blobs_view() == old(self).blobs_view().push((id@, bytes@)),
            final(self).jobs_view() == old(self).jobs_view(),
            final(self).results_view() == old(self).results_view(),
            final(self).chain_view() == old(self).chain_view(),
    {
        let id = blob_id(bytes);
        match self.find_blob(&id) {
            Some(_) => {},
            None => {
                let copy = copy_string(&id);
                let mut data: Vec<u8> = Vec::new();
                let mut k: usize = 0;
                while k < bytes.len()
                    invariant
                        k <= bytes.len(),
                        data@ == bytes@.take(k as int),
                    decreases bytes.len() - k,
                {
                    data.push(bytes[k]);
                    k += 1;
                    assert(data@ =~= bytes@.take(k as int));
                }
                assert(bytes@.take(k as int) =~= bytes@);
                let ghost before = self.blobs_view();
                self.blobs.push((copy, data));
                assert(self.blobs_view() =~= before.push((id@, bytes@)));
            },
        }
        id
    }

    /// The bytes stored under `id`, if any.
    pub fn get_blob(&self, id: &BlobId) -> (r: Option<Vec<u8>>)
        ensures
            match r {
                Some(b) => exists|k: int|
                    0 <= k < self.blobs_view().len() && (#[trigger] self.blobs_view()[k]).0 == id@ && self.blobs_view()[k].1
                        == b@,
                None => forall|k: int| 0 <= k < self.blobs_view().len() ==> (#[trigger] self.blobs_view()[k]).0 != id@,
            },
    {
        match self.find_blob(id) {
            Some(k) => Some(copy_bytes(&self.blobs[k].1)),
            None => None,
        }
    }

    /// Record a new queued job for `tenant`; returns its id (the number of jobs before it).
    pub fn create_job(&mut self, tenant: &str, spec: JobSpec, resolution_um: i64) -> (id: JobId)
        requires
            old(self).wf(),
            old(self).jobs_view().len() < u64::MAX,
        ensures
            final(self).wf(),
            id == old(self).jobs_view().len(),
            final(self).jobs_view() == old(self).jobs_view().push(
                (id, tenant@, spec_view(spec), resolution_um, JobStatus::Queued, None),
            ),
            final(self).results_view() == old(self).results_view(),
            final(self).blobs_view() == old(self).blobs_view(),
            final(self).chain_view() == old(self).chain_view(),
    {
        let id = self.jobs.len() as u64;
        let ghost before = self.jobs_view();
        let ghost sv = spec_view(spec);
        let job = Job {
            id,
            tenant: tenant.to_string(),
            spec,
            resolution_um,
            status: JobStatus::Queued,
            result_id: None,
        };
        self.jobs.push(job);
        assert(self.jobs_view() =~= before.push((id, tenant@, sv, resolution_um, JobStatus::Queued, None)));
        id
    }

    /// A copy of job `id`, if it exists.
    pub fn get_job(&self, id: JobId) -> (r: Option<Job>)
        requires
            self.wf(),
        ensures
            match r {
                Some(j) => id < self.jobs_view().len() && job_view(j) == self.jobs_view()[id as int],
                None => id >= self.jobs_view().len(),
            },
    {
        if (id as u128) < (self.jobs.len() as u128) {
            Some(copy_job(&self.jobs[id as usize]))
        } else {
            None
        }
    }

    /// Mark job `id` running, unless it is missing or already done.
    pub fn set_running(&mut self, id: JobId) -> (r: Result<(), StoreError>)
        requires
            old(self).wf(),
        ensures
            final(self).wf(),
            id >= old(self).jobs_view().len() ==> r == Err::<(), StoreError>(StoreError::JobNotFound(id))
                && final(self).jobs_view() == old(self).jobs_view(),
            id < old(self).jobs_view().len() && old(self).jobs_view()[id as int].4 == JobStatus::Done ==> r == Err::<
                (),
                StoreError,
            >(StoreError::AlreadyCompleted(id)) && final(self).jobs_view() == old(self).jobs_view(),
            id < old(self).jobs_view().len() && old(self).jobs_view()[id as int].4 != JobStatus::Done ==> r == Ok::<
                (),
                StoreError,
            >(()) && final(self).jobs_view() == old(self).jobs_view().update(
                id as int,
                ({
                    let j = old(self).jobs_view()[id as int];
                    (j.0, j.1, j.2, j.3, JobStatus::Running, j.5)
                }),
            ),
            final(self).results_view() == old(self).results_view(),
            final(self).blobs_view() == old(self).blobs_view(),
            final(self).chain_view() == old(self).chain_view(),
    {
        if !((id as u128) < (self.jobs.len() as u128)) {
            return Err(StoreError::JobNotFound(id));
        }
        let i = id as usize;
        if self.jobs[i].status == JobStatus::Done {
            return Err(StoreError::AlreadyCompleted(id));
        }
        let ghost before = self.jobs_view();
        let mut job = copy_job(&self.jobs[i]);
        job.status = JobStatus::Running;
        self.jobs.set(i, job);
        assert(self.jobs_view() =~= before.update(
            id as int,
            (before[id as int].0, before[id as int].1, before[id as int].2, before[id as int].3, JobStatus::Running, before[id as int].5),
        ));
        Ok(())
    }

    /// Index of `tenant`'s chain tail, if it has one.
    fn find_chain(&self, tenant: &String) -> (r: Option<usize>)
        ensures
            match r {
                Some(k) => k < self.chain_view().len() && self.chain_view()[k as int].0 == tenant@,
                None => forall|k: int| 0 <= k < self.chain_view().len() ==> (#[trigger] self.chain_view()[k]).0 != tenant@,
            },
    {
        let mut k: usize = 0;
        while k < self.chain.len()
            invariant
                k <= self.chain.len(),
                forall|t: int| 0 <= t < k ==> (#[trigger] self.chain_view()[t]).0 != tenant@,
            decreases self.chain.len() - k,
        {
            if self.chain[k].0 == *tenant {
                return Some(k);
            }
            k += 1;
        }
        None
    }

    /// Insert the immutable result of job `id`, with its reproducible digest, and mark the job
    /// done. The result extends its tenant's chain: position 0 with no previous digest for the
    /// tenant's first result, else one past the tenant's last result, linking to its digest.
    /// A missing or already-completed job is refused and nothing changes.
    #[verifier::spinoff_prover]
    #[verifier::rlimit(100)]
    pub fn complete_job(&mut self, id: JobId, envelope: E, result_digest: String) -> (r: Result<ResultId, StoreError>)
        requires
            old(self).wf(),
            old(self).results_view().len() < u64::MAX,
        ensures
            final(self).wf(),
            id >= old(self).jobs_view().len() ==> r == Err::<ResultId, StoreError>(StoreError::JobNotFound(id))
                && final(self).results_view() == old(self).results_view() && final(self).jobs_view()
                == old(self).jobs_view() && final(self).chain_view() == old(self).chain_view(),
            id < old(self).jobs_view().len() && old(self).jobs_view()[id as int].4 == JobStatus::Done ==> r
                == Err::<ResultId, StoreError>(StoreError::AlreadyCompleted(id)) && final(self).results_view()
                == old(self).results_view() && final(self).jobs_view() == old(self).jobs_view()
                && final(self).chain_view() == old(self).chain_view(),
            id < old(self).jobs_view().len() && old(self).jobs_view()[id as int].4 != JobStatus::Done ==> ({
                let j = old(self).jobs_view()[id as int];
                let rid = old(self).results_view().len();
                let tails = old(self).chain_view();
                &&& r == Ok::<ResultId, StoreError>(rid as u64)
                &&& final(self).results_view().len() == rid + 1
                &&& final(self).results_view().take(rid as int) == old(self).results_view()
                &&& final(self).results_view()[rid as int].0 == rid
                &&& final(self).results_view()[rid as int].1 == id
                &&& final(self).results_view()[rid as int].2 == j.1
                &&& final(self).results_view()[rid as int].5 == result_digest@
                &&& final(self).envelope_of(rid as int) == envelope
                &&& (forall|t: int| 0 <= t < tails.len() ==> (#[trigger] tails[t]).0 != j.1) ==> {
                    &&& final(self).results_view()[rid as int].3 == 0
                    &&& final(self).results_view()[rid as int].4 is None
                }
                &&& (forall|t: int| 0 <= t < tails.len() ==> (#[trigger] tails[t]).0 != j.1) ==> final(self).chain_view()
                    == tails.push((j.1, 0u64, result_digest@))
                &&& forall|t: int|
                    0 <= t < tails.len() && (#[trigger] tails[t]).0 == j.1 ==> {
                        &&& final(self).results_view()[rid as int].3 == tails[t].1 + 1
                        &&& final(self).results_view()[rid as int].4 == Some(tails[t].2)
                        &&& final(self).chain_view() == tails.update(
                            t,
                            (j.1, final(self).results_view()[rid as int].3, result_digest@),
                        )
                    }
                &&& final(self).jobs_view() == old(self).jobs_view().update(
                    id as int,
                    (j.0, j.1, j.2, j.3, JobStatus::Done, Some(rid as u64)),
                )
            }),
            final(self).blobs_view() == old(self).blobs_view(),
    {
        if !((id as u128) < (self.jobs.len() as u128)) {
            return Err(StoreError::JobNotFound(id));
        }
        let i = id as usize;
        if self.jobs[i].status == JobStatus::Done {
            return Err(StoreError::AlreadyCompleted(id));
        }
        let tenant = copy_string(&self.jobs[i].tenant);
        let ghost rs0 = self.results_view();
        let ghost cs0 = self.chain_view();
        let ghost js0 = self.jobs_view();
        let ghost bs0 = self.blobs_view();
        let ghost tn = tenant@;
        assert(tn == js0[id as int].1);
        let rid = self.results.len() as u64;
        let tail = self.find_chain(&tenant);
        let ghost mut w: int = -1;
        let (chain_seq, prev_digest): (u64, Option<String>) = match tail {
            Some(k) => {
                let seq = self.chain[k].1;
                proof {
                    assert(cs0[k as int].0 == tn);
                    w = choose|w: int| 0 <= w < rs0.len() && (#[trigger] rs0[w]).2 == (#[trigger] cs0[k as int]).0 && rs0[w].3 == cs0[k as int].1 && rs0[w].5 == cs0[k as int].2;
                    assert(rs0[w].3 <= w);
                }
                (seq + 1, Some(copy_string(&self.chain[k].2)))
            },
            None => (0, None),
        };
        let ghost dg = result_digest@;
        let ghost pd: Option<Seq<char>> = match &prev_digest {
            Some(d) => Some(d@),
            None => None,
        };
        let digest_copy = copy_string(&result_digest);
        let stored = StoredResult {
            id: rid,
            job_id: id,
            tenant: copy_string(&tenant),
            chain_seq,
            prev_digest,
            result_digest,
            envelope,
        };
        let ghost nr = (rid, id, tn, chain_seq, pd, dg);
        assert(result_view(stored) == nr);
        self.results.push(stored);
        let ghost nt = (tn, chain_seq, dg);
        match tail {
            Some(k) => {
                let t = copy_string(&tenant);
                self.chain.set(k, (t, chain_seq, digest_copy));
                assert(self.chain_view() =~= cs0.update(k as int, nt));
            },
            None => {
                let t = copy_string(&tenant);
                self.chain.push((t, chain_seq, digest_copy));
                assert(self.chain_view() =~= cs0.push(nt));
            },
        }
        let mut job = copy_job(&self.jobs[i]);
        job.status = JobStatus::Done;
        job.result_id = Some(rid);
        self.jobs.set(i, job);
        proof {
            let rs = self.results_view();
            let js = self.jobs_view();
            assert(rs =~= rs0.push(nr));
            assert(rs.take(rs0.len() as int) =~= rs0);
            assert(js =~= js0.update(
                id as int,
                (js0[id as int].0, js0[id as int].1, js0[id as int].2, js0[id as int].3, JobStatus::Done, Some(rid)),
            ));
            assert(self.blobs_view() == bs0);
            let ti: Option<int> = match tail {
                Some(k) => Some(k as int),
                None => None,
            };
            lemma_extend_chain(rs0, cs0, nr, ti, w, self.chain_view());
            if tail is Some {
                let k = tail->0 as int;
                assert forall|t: int| 0 <= t < cs0.len() && (#[trigger] cs0[t]).0 == tn implies t == k by {
                    if t != k {
                        if t < k {
                            assert(cs0[t].0 != cs0[k].0);
                        } else {
                            assert(cs0[k].0 != cs0[t].0);
                        }
                    }
                }
            }
        }
        Ok(rid)
    }

    /// Number of jobs created.
    pub fn job_count(&self) -> (n: usize)
        ensures
            n == self.jobs_view().len(),
    {
        self.jobs.len()
    }

    /// Number of results stored.
    pub fn result_count(&self) -> (n: usize)
        ensures
            n == self.results_view().len(),
    {
        self.results.len()
    }

    /// Result `id`, if it exists.
    pub fn get_result(&self, id: ResultId) -> (r: Option<&StoredResult<E>>)
        requires
            self.wf(),
        ensures
            match r {
                Some(x) => id < self.results_view().len() && result_view(*x) == self.results_view()[id as int]
                    && x.envelope == self.envelope_of(id as int),
                None => id >= self.results_view().len(),
            },
    {
        if (id as u128) < (self.results.len() as u128) {
            Some(&self.results[id as usize])
        } else {
            None
        }
    }

    /// The jobs of `tenant`, in id order.
    pub fn list_jobs(&self, tenant: &str) -> (v: Vec<Job>)
        ensures
            v@.map_values(|j: Job| job_view(j)) == jobs_of(self.jobs_view(), tenant@),
    {
        let t = tenant.to_string();
        let mut v: Vec<Job> = Vec::new();
        let mut k: usize = 0;
        while k < self.jobs.len()
            invariant
                k <= self.jobs.len(),
                t@ == tenant@,
                v@.map_values(|j: Job| job_view(j)) == jobs_of(self.jobs_view().take(k as int), tenant@),
            decreases self.jobs.len() - k,
        {
            proof {
                assert(self.jobs_view().take(k + 1).drop_last() =~= self.jobs_view().take(k as int));
                assert(self.jobs_view().take(k + 1).last() == job_view(self.jobs@[k as int]));
            }
            if self.jobs[k].tenant == t {
                let j = copy_job(&self.jobs[k]);
                let ghost before = v@.map_values(|j: Job| job_view(j));
                v.push(j);
                assert(v@.map_values(|j: Job| job_view(j)) =~= before.push(job_view(self.jobs@[k as int])));
            }
            k += 1;
        }
        assert(self.jobs_view().take(k as int) =~= self.jobs_view());
        v
    }
}

/// The results of a store form, per tenant, one append-only audit chain: a tenant's results stand
/// at strictly increasing positions in id order, each result at position 0 has no previous digest,
/// each later one carries the digest of an earlier result of its tenant one position back, and the
/// tenant's chain tail is at least as far along as all of them.
pub proof fn lemma_results_form_chains<E>(s: MemStore<E>)
    requires
        s.wf(),
    ensures
        seqs_increase(s.results_view()),
        links_ok(s.results_view()),
        tails_latest(s.results_view(), s.chain_view()),
        tails_exist(s.results_view(), s.chain_view()),
{
}

} // verus!
