//! The error type shared by every fallible operation of the store.

use vstd::prelude::*;

verus! {

/// Every failure of the store or of the tree is reported as one of these.
#[derive(Debug)]
pub enum UssError {
    UnknownError,
    StaticError(&'static str),
    DynamicError(String),
    IoProblem,
    MmapProblem,
    MutexPoison,
}

pub type UssResult<T> = Result<T, UssError>;

/// Relies on the `Debug` formatting of `core::fmt`: renders any debuggable
/// error as text and wraps it in `UssError::DynamicError`.
#[verifier::external_body]
pub fn to_error<T: core::fmt::Debug>(err: T) -> (r: UssError)
    ensures
        r is DynamicError,
{
    UssError::DynamicError(format!("{:?}", err))
}

pub fn to_error_result<T: core::fmt::Debug, V>(err: T) -> (r: UssResult<V>)
    ensures
        r is Err,
        r->Err_0 is DynamicError,
{
    Err(to_error(err))
}

} // verus!
