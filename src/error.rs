//! The error of the whole library, which wraps the error of each part.

use vstd::prelude::*;
use crate::auth::AuthError;
use crate::coin::CoinError;
use crate::fund::FundError;
use crate::math::MathError;
use crate::validate::ValidateError;

verus! {

/// Result with the library's error as default.
pub type XcosmResult<T = (), E = XcosmError> = Result<T, E>;

/// Error of any operation of the library.
#[derive(Debug, Clone, PartialEq, Eq)]
pub enum XcosmError {
    Auth(AuthError),
    Coin(CoinError),
    Fund(FundError),
    Math(MathError),
    Validate(ValidateError),
    /// The action is disabled.
    Disabled {},
    /// An input value could not be parsed.
    Parse {},
}

impl From<AuthError> for XcosmError {
    fn from(e: AuthError) -> (r: XcosmError) {
        XcosmError::Auth(e)
    }
}

impl vstd::std_specs::convert::FromSpecImpl<AuthError> for XcosmError {
    open spec fn obeys_from_spec() -> bool {
        true
    }

    open spec fn from_spec(e: AuthError) -> XcosmError {
        XcosmError::Auth(e)
    }
}

impl From<CoinError> for XcosmError {
    fn from(e: CoinError) -> (r: XcosmError) {
        XcosmError::Coin(e)
    }
}

impl vstd::std_specs::convert::FromSpecImpl<CoinError> for XcosmError {
    open spec fn obeys_from_spec() -> bool {
        true
    }

    open spec fn from_spec(e: CoinError) -> XcosmError {
        XcosmError::Coin(e)
    }
}

impl From<FundError> for XcosmError {
    fn from(e: FundError) -> (r: XcosmError) {
        XcosmError::Fund(e)
    }
}

impl vstd::std_specs::convert::FromSpecImpl<FundError> for XcosmError {
    open spec fn obeys_from_spec() -> bool {
        true
    }

    open spec fn from_spec(e: FundError) -> XcosmError {
        XcosmError::Fund(e)
    }
}

impl From<MathError> for XcosmError {
    fn from(e: MathError) -> (r: XcosmError) {
        XcosmError::Math(e)
    }
}

impl vstd::std_specs::convert::FromSpecImpl<MathError> for XcosmError {
    open spec fn obeys_from_spec() -> bool {
        true
    }

    open spec fn from_spec(e: MathError) -> XcosmError {
        XcosmError::Math(e)
    }
}

impl From<ValidateError> for XcosmError {
    fn from(e: ValidateError) -> (r: XcosmError) {
        XcosmError::Validate(e)
    }
}

impl vstd::std_specs::convert::FromSpecImpl<ValidateError> for XcosmError {
    open spec fn obeys_from_spec() -> bool {
        true
    }

    open spec fn from_spec(e: ValidateError) -> XcosmError {
        XcosmError::Validate(e)
    }
}

/// Conversion of a result into one with another error type.
pub trait IntoResult<T, E> {
    fn into_result(self) -> Result<T, E>;
}

impl<T, E, F: Into<E>> IntoResult<T, E> for Result<T, F> {
    fn into_result(self) -> (r: Result<T, E>)
        ensures
            self is Ok ==> r == Ok::<T, E>(self->Ok_0),
            self is Err ==> r is Err && call_ensures(F::into, (self->Err_0,), r->Err_0),
    {
        match self {
            Ok(t) => Ok(t),
            Err(f) => Err(f.into()),
        }
    }
}

/// Construction of a result from one with another error type.
pub trait FromResult<T, E>: Sized {
    fn from_result(res: Result<T, E>) -> Self;
}

impl<T, E: Into<F>, F> FromResult<T, E> for Result<T, F> {
    fn from_result(res: Result<T, E>) -> (r: Result<T, F>)
        ensures
            res is Ok ==> r == Ok::<T, F>(res->Ok_0),
            res is Err ==> r is Err && call_ensures(E::into, (res->Err_0,), r->Err_0),
    {
        match res {
            Ok(t) => Ok(t),
            Err(e) => Err(e.into()),
        }
    }
}

} // verus!
