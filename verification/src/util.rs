//! Small helpers for values that are known to be there.

use vstd::prelude::*;

verus! {

/// The value of a result that is known to be `Ok`.
pub fn unreachr<T, E>(result: Result<T, E>) -> (t: T)
    requires
        result.is_ok(),
    ensures
        result == Ok::<T, E>(t),
{
    match result {
        Ok(t) => t,
        Err(_) => unreached(),
    }
}

/// The value of an option that is known to be `Some`.
pub fn unreacho<T>(result: Option<T>) -> (t: T)
    requires
        result.is_some(),
    ensures
        result == Some(t),
{
    match result {
        Some(t) => t,
        None => unreached(),
    }
}

} // verus!
