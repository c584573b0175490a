//! The error taxonomy of the library.
//!
//! Every failure of the core surfaces as an [`AlternatorError`] wrapping one
//! [`AlternatorErrorKind`]: bad caller input, result-cardinality validation
//! failures, missing presets, exhausted retry budgets, conversion failures and
//! internal invariant violations.

use vstd::prelude::*;
use vstd::string::*;

use crate::strutil::spec_u64_string;
use crate::strutil::u64_to_string;

verus! {

/// One failure of the core, by kind, each carrying a human-readable cause.
#[derive(Debug)]
pub enum AlternatorErrorKind {
    FailedToConnect(String, String),
    QueryRetriesExceeded(String),
    Overloaded(String),
    PartitionRowPresetNotFound(String),
    CustomError(String),
    Error(String),
    SdkError(String),
    BadInput(String),
    ConversionError(String),
    ValidationError(String),
}

/// An error of the core.
#[derive(Debug)]
pub struct AlternatorError(pub AlternatorErrorKind);

/// The message announcing an exhausted retry budget.
pub open spec fn spec_retries_exceeded_message(retry_number: int) -> Seq<char> {
    "Max retry attempts ("@ + spec_u64_string(retry_number) + ") reached"@
}

impl AlternatorError {
    /// Wraps a kind into an error value.
    pub fn new(kind: AlternatorErrorKind) -> (r: AlternatorError)
        ensures
            r.0 == kind,
    {
        AlternatorError(kind)
    }

    /// The terminal error raised when a page's attempt budget is exhausted,
    /// carrying the configured retry limit.
    pub fn query_retries_exceeded(retry_number: u64) -> (r: AlternatorError)
        ensures
            r.0 matches AlternatorErrorKind::QueryRetriesExceeded(s)
                && s@ == spec_retries_exceeded_message(retry_number as int),
    {
        let mut s = String::from_str("Max retry attempts (");
        s.append(u64_to_string(retry_number).as_str());
        s.append(") reached");
        AlternatorError(AlternatorErrorKind::QueryRetriesExceeded(s))
    }
}

/// Raises a custom failure carrying the given message, as workload scripts
/// use to abort an iteration.
pub fn signal_failure(message: &str) -> (r: Result<(), AlternatorError>)
    ensures
        r matches Err(e) && e.0 matches AlternatorErrorKind::CustomError(s) && s@ == message@,
{
    Err(AlternatorError::new(AlternatorErrorKind::CustomError(String::from_str(message))))
}

pub type DbError = AlternatorError;

pub type DbErrorKind = AlternatorErrorKind;

} // verus!
