//! Versioned envelopes for saved artifacts. Every exported artifact carries a `schema_version`
//! and a `kind` tag, and loading refuses anything it does not recognize rather than silently
//! reinterpreting it: saved artifacts survive a library upgrade or fail loudly.
use vstd::prelude::*;

verus! {

/// The current IR schema version. Bump on any breaking change to the serialized IR shape.
pub const CURRENT_SCHEMA_VERSION: u32 = 1;

/// The kind tag of a saved low-level program.
pub const KIND_LO: &'static str = "kerf.lo.program";

/// The kind tag of a saved high-level program.
pub const KIND_HI: &'static str = "kerf.hi.program";

/// Why a versioned artifact could not be loaded.
#[derive(Clone, Debug, PartialEq, Eq)]
pub enum SchemaError {
    /// The envelope or inner program was not valid JSON for the expected shape.
    Parse(String),
    /// The artifact's schema version is not the one this build understands.
    UnsupportedVersion { found: u32, supported: u32 },
    /// The artifact is a different kind of program than requested.
    WrongKind { found: String, expected: String },
}

/// Accept an envelope of the current schema version and the expected kind; refuse any other
/// version (checked first), then any other kind.
pub fn check_envelope(schema_version: u32, kind: &str, expected: &str) -> (r: Result<(), SchemaError>)
    ensures
        schema_version != CURRENT_SCHEMA_VERSION ==> r == Err::<(), SchemaError>(
            SchemaError::UnsupportedVersion { found: schema_version, supported: CURRENT_SCHEMA_VERSION },
        ),
        schema_version == CURRENT_SCHEMA_VERSION && kind@ != expected@ ==> (r matches Err(SchemaError::WrongKind {
            found,
            expected: e,
        }) && found@ == kind@ && e@ == expected@),
        schema_version == CURRENT_SCHEMA_VERSION && kind@ == expected@ ==> r is Ok,
{
    if schema_version != CURRENT_SCHEMA_VERSION {
        return Err(SchemaError::UnsupportedVersion { found: schema_version, supported: CURRENT_SCHEMA_VERSION });
    }
    let k = kind.to_string();
    let e = expected.to_string();
    if k == e {
        Ok(())
    } else {
        Err(SchemaError::WrongKind { found: k, expected: e })
    }
}

} // verus!
