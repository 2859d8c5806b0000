use vstd::prelude::*;

verus! {

/// Failures reported by a signing/verification capability.
#[derive(Debug)]
pub enum SporeError {
    /// The capability could not sign the given data.
    SignError(String),
    /// The capability rejected a signature.
    VerifyError(String),
    /// An identifier could not be resolved into a capability.
    ResolveError(String),
}

/// Failures reported by operations on a provenance node.
#[derive(Debug)]
pub enum MyceliumError {
    /// The system clock was unavailable or reported a moment before the epoch.
    SystemTimeError,
    /// A signature attribute was required but absent.
    SignatureError(String),
    /// A capability failure, wrapped and propagated.
    SporeError(SporeError),
}

impl From<SporeError> for MyceliumError {
    /// Wraps a capability failure, never swallowing it.
    fn from(e: SporeError) -> (r: MyceliumError)
        ensures
            r == MyceliumError::SporeError(e),
    {
        MyceliumError::SporeError(e)
    }
}

impl vstd::std_specs::convert::FromSpecImpl<SporeError> for MyceliumError {
    open spec fn obeys_from_spec() -> bool {
        true
    }

    open spec fn from_spec(e: SporeError) -> MyceliumError {
        MyceliumError::SporeError(e)
    }
}

} // verus!
