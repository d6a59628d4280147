//! Turning any error into an `anyhow` error with a fixed message.

use vstd::prelude::*;

verus! {

/// `anyhow::Error`, which Verus carries through without looking inside.
#[verifier::external_type_specification]
#[verifier::external_body]
pub struct ExAnyhowError(anyhow::Error);

/// `anyhow::Error::msg`: an error whose message is `message`. Nothing is
/// stated of the error value, which Verus does not see into.
#[verifier::external_body]
pub(crate) fn error_with_message(message: &'static str) -> (e: anyhow::Error) {
    anyhow::Error::msg(message)
}

/// Replaces the error of a result by an `anyhow` error.
pub trait ErrMap<T, E>: Sized {
    /// The result with its error, if any, replaced by one that says `Error`.
    fn err_map(self) -> Result<T, anyhow::Error>;

    /// The result with its error, if any, replaced by one that says `msg`.
    fn err_msg(self, msg: &'static str) -> Result<T, anyhow::Error>;
}

impl<T, E> ErrMap<T, E> for Result<T, E> {
    fn err_map(self) -> (r: Result<T, anyhow::Error>)
        ensures
            self is Ok <==> r is Ok,
            self is Ok ==> r->Ok_0 == self->Ok_0,
    {
        match self {
            Ok(v) => Ok(v),
            Err(_e) => Err(error_with_message("Error")),
        }
    }

    fn err_msg(self, msg: &'static str) -> (r: Result<T, anyhow::Error>)
        ensures
            self is Ok <==> r is Ok,
            self is Ok ==> r->Ok_0 == self->Ok_0,
    {
        match self {
            Ok(v) => Ok(v),
            Err(_e) => Err(error_with_message(msg)),
        }
    }
}

} // verus!
