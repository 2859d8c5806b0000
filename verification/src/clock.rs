use vstd::prelude::*;

use crate::errors::MyceliumError;

verus! {

/// Relies on std's `SystemTime::now` and `duration_since`: reads the system
/// clock as nanoseconds since the epoch. Nothing can be promised of the
/// moment itself; a clock before the epoch is reported as a timing error.
#[verifier::external_body]
pub(crate) fn now_nanos() -> (r: Result<u128, MyceliumError>)
    ensures
        match r {
            Ok(_) => true,
            Err(e) => e == MyceliumError::SystemTimeError,
        },
{
    match std::time::SystemTime::now().duration_since(std::time::SystemTime::UNIX_EPOCH) {
        Ok(d) => Ok(d.as_nanos()),
        Err(_) => Err(MyceliumError::SystemTimeError),
    }
}

} // verus!
