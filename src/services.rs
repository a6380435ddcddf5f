use vstd::prelude::*;
use crate::error::DomainError;

verus! {

/// The outcome of an update or delete that touched `rows` rows: none
/// touched means the id had no row.
pub fn expect_affected(rows: u64) -> (r: Result<(), DomainError>)
    ensures
        r is Ok <==> rows > 0,
        r is Err ==> r->Err_0 is NotFound,
{
    if rows == 0 {
        Err(DomainError::NotFound)
    } else {
        Ok(())
    }
}

/// The outcome of a lookup by id: no row means `NotFound`.
pub fn expect_found<T>(row: Option<T>) -> (r: Result<T, DomainError>)
    ensures
        match row {
            Some(v) => r == Ok::<T, DomainError>(v),
            None => r is Err && r->Err_0 is NotFound,
        },
{
    match row {
        Some(v) => Ok(v),
        None => Err(DomainError::NotFound),
    }
}

} // verus!
