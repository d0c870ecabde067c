use kerf::api::{authorize, request_resolution, require_write, tenant_job, tenant_result, ApiError, ApiKey, Role};
use kerf::store::{JobSpec, MemStore};

fn keys() -> Vec<ApiKey> {
    vec![
        ApiKey { key: "dev".to_string(), tenant: "acme".to_string(), role: Role::Writer },
        ApiKey { key: "dev-ro".to_string(), tenant: "acme".to_string(), role: Role::Reader },
        ApiKey { key: "other".to_string(), tenant: "globex".to_string(), role: Role::Writer },
    ]
}

#[test]
fn a_request_needs_a_registered_key() {
    let ks = keys();
    assert_eq!(authorize(None, &ks), Err(ApiError::Unauthorized));
    assert_eq!(authorize(Some("nope"), &ks), Err(ApiError::Unauthorized));
    assert_eq!(authorize(Some("dev"), &ks), Ok(("acme".to_string(), Role::Writer)));
    assert_eq!(authorize(Some("dev-ro"), &ks), Ok(("acme".to_string(), Role::Reader)));
    assert_eq!(authorize(Some("other"), &ks), Ok(("globex".to_string(), Role::Writer)));
}

#[test]
fn readers_may_read_but_not_submit() {
    assert_eq!(require_write(Role::Writer), Ok(()));
    assert_eq!(require_write(Role::Reader), Err(ApiError::Forbidden));
}

#[test]
fn resolution_defaults_and_must_be_positive() {
    assert_eq!(request_resolution(None), Ok(200));
    assert_eq!(request_resolution(Some(50)), Ok(50));
    assert_eq!(request_resolution(Some(0)), Err(ApiError::BadRequest));
    assert_eq!(request_resolution(Some(-7)), Err(ApiError::BadRequest));
}

#[test]
fn a_tenant_never_sees_another_tenants_job_or_result() {
    let mut s: MemStore<String> = MemStore::new();
    let blob = s.put_blob(b"G1 X1");
    let j_acme = s.create_job("acme", JobSpec::Verify { input: blob.clone() }, 200);
    let j_globex = s.create_job("globex", JobSpec::Verify { input: blob }, 200);
    let r_acme = s.complete_job(j_acme, "v".to_string(), "d".to_string()).unwrap();

    assert_eq!(tenant_job(&s, j_acme, "acme").unwrap().id, j_acme);
    assert_eq!(tenant_job(&s, j_globex, "acme").unwrap_err(), ApiError::NotFound);
    assert_eq!(tenant_job(&s, 42, "acme").unwrap_err(), ApiError::NotFound);

    assert_eq!(tenant_result(&s, r_acme, "acme").unwrap().job_id, j_acme);
    assert!(matches!(tenant_result(&s, r_acme, "globex"), Err(ApiError::NotFound)));
    assert!(matches!(tenant_result(&s, 9, "acme"), Err(ApiError::NotFound)));
}
