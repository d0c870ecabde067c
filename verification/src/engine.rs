//! The deterministic, versioned vocabulary of verdicts: the build behind a verdict, what kind
//! of check it was, and content-addressed references to its inputs.
use vstd::prelude::*;
use vstd::string::StringSliceAdditionalSpecFns;

use crate::digest::{hex_bytes, sha256_digest, sha256_hex};

verus! {

/// Which version of the library made a verdict, and from which source revision.
#[derive(Clone, Debug, PartialEq, Eq)]
pub struct EngineVersion {
    pub core_semver: String,
    pub git_sha: String,
}

impl EngineVersion {
    /// A version from its two parts.
    pub fn new(core_semver: &str, git_sha: &str) -> (v: EngineVersion)
        ensures
            v.core_semver@ == core_semver@,
            v.git_sha@ == git_sha@,
    {
        EngineVersion { core_semver: core_semver.to_string(), git_sha: git_sha.to_string() }
    }
}

/// What kind of check produced the verdict.
#[derive(Clone, Copy, Debug, PartialEq, Eq, Structural)]
pub enum VerdictKind {
    Verify,
    Diff,
}

impl VerdictKind {
    /// The kind's wire name.
    pub fn as_str(&self) -> (s: &'static str)
        ensures
            *self is Verify ==> s@ == "verify"@,
            *self is Diff ==> s@ == "diff"@,
    {
        match self {
            VerdictKind::Verify => "verify",
            VerdictKind::Diff => "diff",
        }
    }
}

/// A content-addressed reference to one input the verdict was computed over.
#[derive(Clone, Debug, PartialEq, Eq)]
pub struct InputRef {
    /// `"input"` for verify; `"a"` / `"b"` for diff.
    pub role: String,
    /// Lowercase hex SHA-256 of the exact input bytes.
    pub sha256: String,
    pub bytes: usize,
}

/// The reference to `data` under `role`: its lowercase-hex SHA-256 and its length in bytes.
pub fn input_ref(role: &str, data: &str) -> (r: InputRef)
    ensures
        r.role@ == role@,
        r.sha256@ == hex_bytes(sha256_digest(data.spec_bytes())),
        r.bytes == data.spec_bytes().len(),
{
    let b = data.as_bytes();
    InputRef { role: role.to_string(), sha256: sha256_hex(b), bytes: b.len() }
}

} // verus!
