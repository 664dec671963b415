//! Validation of values handed in from outside, such as addresses.

use vstd::prelude::*;
use crate::error::XcosmError;

verus! {

/// A value did not pass validation.
#[derive(Debug, Clone, PartialEq, Eq)]
pub enum ValidateError {
    NotValid { kind: String, reason: String },
}

/// A capability that validates a value and returns its validated form.
pub trait Validator<T, U> {
    fn validate(self, val: T) -> Result<U, XcosmError>;
}

} // verus!
