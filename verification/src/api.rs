//! Access control, request checks and service counters of the HTTP service. Every request
//! outside the health probes carries an API key naming a tenant and a role; a tenant only ever
//! sees its own jobs and results.
use vstd::prelude::*;

use crate::store::{job_view, JobId, Job, MemStore, ResultId, StoredResult};

verus! {

/// What an API key may do.
#[derive(Clone, Copy, Debug, PartialEq, Eq, Structural)]
pub enum Role {
    /// Read-only: may read jobs / results / alerts, may not submit work.
    Reader,
    /// May submit work and register baselines, plus everything a Reader can.
    Writer,
}

/// Whether a role may submit work.
pub fn may_write(role: Role) -> (r: bool)
    ensures
        r == (role == Role::Writer),
{
    match role {
        Role::Writer => true,
        Role::Reader => false,
    }
}

/// Service counters, by kind of submission.
#[derive(Clone, Copy, Debug, PartialEq, Eq, Structural)]
pub struct Metrics {
    pub verify: u64,
    pub diff: u64,
    pub baseline: u64,
}

impl Default for Metrics {
    fn default() -> (m: Metrics)
        ensures
            m.verify == 0,
            m.diff == 0,
            m.baseline == 0,
    {
        Metrics { verify: 0, diff: 0, baseline: 0 }
    }
}

/// Which counter a submission increments.
#[derive(Clone, Copy, Debug, PartialEq, Eq, Structural)]
pub enum Submission {
    Verify,
    Diff,
    Baseline,
}

impl Metrics {
    /// Count one submission of the given kind (counters wrap, as atomic counters do).
    pub fn record(&mut self, kind: Submission)
        ensures
            final(self).verify == if kind == Submission::Verify { old(self).verify.wrapping_add(1) } else { old(self).verify },
            final(self).diff == if kind == Submission::Diff { old(self).diff.wrapping_add(1) } else { old(self).diff },
            final(self).baseline == if kind == Submission::Baseline {
                old(self).baseline.wrapping_add(1)
            } else {
                old(self).baseline
            },
    {
        match kind {
            Submission::Verify => self.verify = self.verify.wrapping_add(1),
            Submission::Diff => self.diff = self.diff.wrapping_add(1),
            Submission::Baseline => self.baseline = self.baseline.wrapping_add(1),
        }
    }
}

/// Why a request was refused; the service answers each with an HTTP status.
#[derive(Clone, Copy, Debug, PartialEq, Eq, Structural)]
pub enum ApiError {
    /// No key, or a key that is not registered (401).
    Unauthorized,
    /// A reader attempted to submit work (403).
    Forbidden,
    /// A malformed request, such as a non-positive resolution (400).
    BadRequest,
    /// No such job or result for this tenant (404).
    NotFound,
}

/// A registered API key, the tenant it acts for, and what it may do.
pub struct ApiKey {
    pub key: String,
    pub tenant: String,
    pub role: Role,
}

/// Resolution used when a request names none.
pub const DEFAULT_RESOLUTION_UM: i64 = 200;

/// The index of the first registered key equal to `key`, if any.
pub open spec fn key_index(keys: Seq<ApiKey>, key: Seq<char>) -> Option<int>
    decreases keys.len(),
{
    if keys.len() == 0 {
        None
    } else {
        match key_index(keys.drop_last(), key) {
            Some(i) => Some(i),
            None => if keys.last().key@ == key {
                Some(keys.len() - 1)
            } else {
                None
            },
        }
    }
}

proof fn lemma_key_index(keys: Seq<ApiKey>, key: Seq<char>)
    ensures
        key_index(keys, key) matches Some(i) ==> 0 <= i < keys.len() && keys[i].key@ == key && forall|t: int|
            0 <= t < i ==> keys[t].key@ != key,
        key_index(keys, key) is None ==> forall|t: int| 0 <= t < keys.len() ==> keys[t].key@ != key,
    decreases keys.len(),
{
    if keys.len() > 0 {
        let init = keys.drop_last();
        lemma_key_index(init, key);
        assert(forall|t: int| 0 <= t < init.len() ==> #[trigger] init[t] == keys[t]);
        if key_index(keys, key) is None {
            assert forall|t: int| 0 <= t < keys.len() implies keys[t].key@ != key by {
                if t < init.len() {
                    assert(init[t] == keys[t]);
                }
            }
        }
        if let Some(i) = key_index(keys, key) {
            assert forall|t: int| 0 <= t < i implies keys[t].key@ != key by {
                assert(init[t] == keys[t]);
            }
        }
    }
}

/// Resolve the tenant and role of a request from its API key: the first registered entry for the
/// key, or `Unauthorized` when there is no key or it is not registered.
pub fn authorize(key: Option<&str>, keys: &Vec<ApiKey>) -> (r: Result<(String, Role), ApiError>)
    ensures
        key is None ==> r == Err::<(String, Role), ApiError>(ApiError::Unauthorized),
        key matches Some(k) ==> match key_index(keys@, k@) {
            Some(i) => r matches Ok((t, role)) && t@ == keys@[i].tenant@ && role == keys@[i].role,
            None => r == Err::<(String, Role), ApiError>(ApiError::Unauthorized),
        },
{
    let k = match key {
        Some(k) => k.to_string(),
        None => {
            return Err(ApiError::Unauthorized);
        },
    };
    let mut i: usize = 0;
    while i < keys.len()
        invariant
            i <= keys.len(),
            key matches Some(kk) && k@ == kk@,
            forall|t: int| 0 <= t < i ==> keys@[t].key@ != k@,
        decreases keys.len() - i,
    {
        if keys[i].key == k {
            proof {
                lemma_key_index(keys@, k@);
                if let Some(j) = key_index(keys@, k@) {
                    assert(j == i);
                }
            }
            return Ok((keys[i].tenant.clone(), keys[i].role));
        }
        i += 1;
    }
    proof {
        lemma_key_index(keys@, k@);
    }
    Err(ApiError::Unauthorized)
}

/// Require a role that may submit work, else `Forbidden`.
pub fn require_write(role: Role) -> (r: Result<(), ApiError>)
    ensures
        r == if role == Role::Writer { Ok::<(), ApiError>(()) } else { Err(ApiError::Forbidden) },
{
    if may_write(role) {
        Ok(())
    } else {
        Err(ApiError::Forbidden)
    }
}

/// The resolution a request asks for ([`DEFAULT_RESOLUTION_UM`] when it names none); a
/// non-positive one is a `BadRequest`.
pub fn request_resolution(req: Option<i64>) -> (r: Result<i64, ApiError>)
    ensures
        ({
            let v = match req {
                Some(v) => v,
                None => DEFAULT_RESOLUTION_UM,
            };
            r == if v > 0 { Ok::<i64, ApiError>(v) } else { Err(ApiError::BadRequest) }
        }),
{
    let v = match req {
        Some(v) => v,
        None => DEFAULT_RESOLUTION_UM,
    };
    if v > 0 {
        Ok(v)
    } else {
        Err(ApiError::BadRequest)
    }
}

/// Job `id` as seen by `tenant`: found only when it exists and belongs to that tenant; any other
/// tenant's job is `NotFound`, exactly as a missing one.
pub fn tenant_job<E>(store: &MemStore<E>, id: JobId, tenant: &str) -> (r: Result<Job, ApiError>)
    requires
        store.wf(),
    ensures
        match r {
            Ok(j) => id < store.jobs_view().len() && job_view(j) == store.jobs_view()[id as int] && j.tenant@
                == tenant@,
            Err(e) => e == ApiError::NotFound && (id >= store.jobs_view().len() || store.jobs_view()[id as int].1
                != tenant@),
        },
{
    let t = tenant.to_string();
    match store.get_job(id) {
        Some(j) => {
            if j.tenant == t {
                Ok(j)
            } else {
                Err(ApiError::NotFound)
            }
        },
        None => Err(ApiError::NotFound),
    }
}

/// Result `id` as seen by `tenant`: found only when it exists and belongs to that tenant.
pub fn tenant_result<'a, E>(store: &'a MemStore<E>, id: ResultId, tenant: &str) -> (r: Result<&'a StoredResult<E>, ApiError>)
    requires
        store.wf(),
    ensures
        match r {
            Ok(x) => id < store.results_view().len() && crate::store::result_view(*x) == store.results_view()[id as int]
                && x.tenant@ == tenant@,
            Err(e) => e == ApiError::NotFound && (id >= store.results_view().len() || store.results_view()[id as int].2
                != tenant@),
        },
{
    let t = tenant.to_string();
    match store.get_result(id) {
        Some(x) => {
            if x.tenant == t {
                Ok(x)
            } else {
                Err(ApiError::NotFound)
            }
        },
        None => Err(ApiError::NotFound),
    }
}

} // verus!
