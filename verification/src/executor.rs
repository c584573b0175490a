//! The decision core of the resilient paginated request executor.
//!
//! One logical operation is driven through retry and page continuation: the
//! surrounding runtime performs each send and hands the outcome back, while
//! the functions here decide — from configuration and accumulated state —
//! the next page's size, whether to turn to the next page, retry the same
//! page, or give up, and whether the accumulated result passes the declared
//! cardinality validation.

use vstd::prelude::*;
use vstd::string::StringExecFns;

use crate::alternator_error::spec_retries_exceeded_message;
use crate::alternator_error::AlternatorError;
use crate::alternator_error::AlternatorErrorKind;
use crate::strutil::spec_u64_string;
use crate::strutil::u64_to_string;

verus! {

/// Validation bounds on the number of rows an operation must return,
/// with an optional custom error message.
#[derive(Debug)]
pub struct ValidationArgs {
    pub expected_min: u64,
    pub expected_max: u64,
    pub custom_err_msg: String,
}

/// A plain value handed in by the scripting boundary: an integer, a string,
/// or anything else.
#[derive(Debug)]
pub enum ArgValue {
    Integer(i64),
    Str(String),
    Other,
}

/// The meaning of a positional validation-argument list:
/// `[n]` an exact count, `[min, max]` an inclusive range, `[n, msg]` an
/// exact count with a message, `[min, max, msg]` a range with a message.
pub open spec fn spec_extract_validation(args: Seq<ArgValue>) -> Option<(u64, u64, Seq<char>)> {
    if args.len() == 1 {
        match args[0] {
            ArgValue::Integer(n) => Some((n as u64, n as u64, Seq::empty())),
            _ => None,
        }
    } else if args.len() == 2 {
        match (args[0], args[1]) {
            (ArgValue::Integer(a), ArgValue::Integer(b)) => Some((a as u64, b as u64, Seq::empty())),
            (ArgValue::Integer(a), ArgValue::Str(s)) => Some((a as u64, a as u64, s@)),
            _ => None,
        }
    } else if args.len() == 3 {
        match (args[0], args[1], args[2]) {
            (ArgValue::Integer(a), ArgValue::Integer(b), ArgValue::Str(s)) => Some(
                (a as u64, b as u64, s@),
            ),
            _ => None,
        }
    } else {
        None
    }
}

/// Extracts validation bounds from a positional argument list.
pub fn extract_validation_args(validation_args: Vec<ArgValue>) -> (r: Result<
    ValidationArgs,
    String,
>)
    ensures
        r is Ok <==> spec_extract_validation(validation_args@) is Some,
        r matches Ok(v) ==> ({
            let e = spec_extract_validation(validation_args@).unwrap();
            v.expected_min == e.0 && v.expected_max == e.1 && v.custom_err_msg@ == e.2
        }),
        r matches Err(m) ==> m@ == "Invalid arguments for validation args"@,
{
    if validation_args.len() == 1 {
        let a0 = &validation_args[0];
        match a0 {
            ArgValue::Integer(n) => {
                return Ok(
                    ValidationArgs {
                        expected_min: *n as u64,
                        expected_max: *n as u64,
                        custom_err_msg: String::new(),
                    },
                );
            },
            _ => {
                return Err(String::from_str("Invalid arguments for validation args"));
            },
        }
    }
    if validation_args.len() == 2 {
        let a0 = &validation_args[0];
        let a1 = &validation_args[1];
        match (a0, a1) {
            (ArgValue::Integer(a), ArgValue::Integer(b)) => {
                return Ok(
                    ValidationArgs {
                        expected_min: *a as u64,
                        expected_max: *b as u64,
                        custom_err_msg: String::new(),
                    },
                );
            },
            (ArgValue::Integer(a), ArgValue::Str(s)) => {
                return Ok(
                    ValidationArgs {
                        expected_min: *a as u64,
                        expected_max: *a as u64,
                        custom_err_msg: s.clone(),
                    },
                );
            },
            _ => {
                return Err(String::from_str("Invalid arguments for validation args"));
            },
        }
    }
    if validation_args.len() == 3 {
        let a0 = &validation_args[0];
        let a1 = &validation_args[1];
        let a2 = &validation_args[2];
        match (a0, a1, a2) {
            (ArgValue::Integer(a), ArgValue::Integer(b), ArgValue::Str(s)) => {
                return Ok(
                    ValidationArgs {
                        expected_min: *a as u64,
                        expected_max: *b as u64,
                        custom_err_msg: s.clone(),
                    },
                );
            },
            _ => {
                return Err(String::from_str("Invalid arguments for validation args"));
            },
        }
    }
    Err(String::from_str("Invalid arguments for validation args"))
}

/// The fixed configuration of one logical operation.
#[derive(Debug)]
pub struct ExecutorConfig {
    /// The retry budget: how many times one page may be retried after its
    /// first failed attempt.
    pub retry_number: u64,
    /// The page size requested from the store for a full page.
    pub page_size: u64,
    /// The caller-declared overall item limit, if any.
    pub declared_limit: Option<u64>,
    /// Whether the operation supports pagination at all.
    pub has_pagination: bool,
}

/// The running state of one logical operation, over the item type `T` and
/// the opaque continuation-token type `K`.
pub struct ExecutorState<T, K> {
    /// Failed attempts of the current page.
    pub attempt: u64,
    /// All items accumulated over the finished pages.
    pub items: Vec<T>,
    /// The duration of all successful attempts, in microseconds.
    pub total_duration_micros: u64,
    /// The continuation token of the next page: set by each successful
    /// attempt, and left untouched by a failed one, so that a retry re-sends
    /// the same page.
    pub continuation: Option<K>,
}

/// What to do after a successful page.
#[derive(Clone, Copy, Debug, PartialEq, Eq, Structural)]
pub enum PageOutcome {
    /// Fetch the next page.
    Continue,
    /// The operation is complete.
    Finished,
}

/// The page size to request next: the configured page size, narrowed to what
/// is still missing under a caller-declared limit.
pub open spec fn spec_next_page_limit(cfg: ExecutorConfig, items_count: int) -> int {
    match cfg.declared_limit {
        Some(l) => if cfg.page_size <= l - items_count {
            cfg.page_size as int
        } else {
            l - items_count
        },
        None => cfg.page_size as int,
    }
}

impl<T, K> ExecutorState<T, K> {
    /// A fresh state: no attempts, no items, no time spent, no token.
    pub fn new() -> (r: ExecutorState<T, K>)
        ensures
            r.attempt == 0,
            r.items@.len() == 0,
            r.total_duration_micros == 0,
            r.continuation is None,
    {
        ExecutorState { attempt: 0, items: Vec::new(), total_duration_micros: 0, continuation: None }
    }
}

/// The page size to request for the coming attempt.
pub fn next_page_limit(cfg: &ExecutorConfig, items_count: u64) -> (r: u64)
    requires
        cfg.declared_limit matches Some(l) ==> items_count < l,
    ensures
        r == spec_next_page_limit(*cfg, items_count as int),
{
    match cfg.declared_limit {
        Some(l) => {
            let remaining = l - items_count;
            if cfg.page_size <= remaining {
                cfg.page_size
            } else {
                remaining
            }
        },
        None => cfg.page_size,
    }
}

/// Folds one successful attempt into the state: the page's items and its
/// duration are committed, the continuation token advances to the one the
/// response carried, and the operation continues to a fresh page — with the
/// attempt counter reset to zero — exactly when a token came back, the
/// operation paginates, and no declared limit has been reached yet.
pub fn on_success<T, K>(
    cfg: &ExecutorConfig,
    state: &mut ExecutorState<T, K>,
    page_items: Vec<T>,
    duration_micros: u64,
    next_token: Option<K>,
) -> (r: PageOutcome)
    requires
        old(state).total_duration_micros + duration_micros <= u64::MAX,
        old(state).items@.len() + page_items@.len() <= usize::MAX,
    ensures
        final(state).items@ == old(state).items@ + page_items@,
        final(state).total_duration_micros == old(state).total_duration_micros
            + duration_micros,
        final(state).continuation == next_token,
        ({
            let limit_reached = match cfg.declared_limit {
                Some(l) => final(state).items@.len() >= l,
                None => false,
            };
            &&& r is Continue <==> next_token is Some && cfg.has_pagination && !limit_reached
            &&& r is Continue ==> final(state).attempt == 0
            &&& r is Finished ==> final(state).attempt == old(state).attempt
        }),
{
    let mut page = page_items;
    state.items.append(&mut page);
    state.total_duration_micros = state.total_duration_micros + duration_micros;
    let got_next_token = next_token.is_some();
    state.continuation = next_token;
    let limit_reached = match cfg.declared_limit {
        Some(l) => state.items.len() as u64 >= l,
        None => false,
    };
    if got_next_token && cfg.has_pagination && !limit_reached {
        state.attempt = 0;
        PageOutcome::Continue
    } else {
        PageOutcome::Finished
    }
}

/// Registers one failed attempt: nothing is committed — neither items nor
/// duration — and the continuation token is left as it was, so the same
/// page is retried, until the retry budget `retry_number` is exhausted,
/// which raises the terminal `QueryRetriesExceeded` error carrying the
/// configured limit.
pub fn on_failure<T, K>(cfg: &ExecutorConfig, state: &mut ExecutorState<T, K>) -> (r: Result<
    (),
    AlternatorError,
>)
    ensures
        final(state).items@ == old(state).items@,
        final(state).total_duration_micros == old(state).total_duration_micros,
        final(state).continuation == old(state).continuation,
        r is Ok <==> old(state).attempt < cfg.retry_number,
        r is Ok ==> final(state).attempt == old(state).attempt + 1,
        r matches Err(e) ==> final(state).attempt == old(state).attempt && (e.0 matches
            AlternatorErrorKind::QueryRetriesExceeded(s) && s@ == spec_retries_exceeded_message(
            cfg.retry_number as int,
        )),
{
    if state.attempt < cfg.retry_number {
        state.attempt = state.attempt + 1;
        Ok(())
    } else {
        Err(AlternatorError::query_retries_exceeded(cfg.retry_number))
    }
}

/// The message of a failed result-cardinality validation.
pub open spec fn spec_validation_message(
    min: int,
    max: int,
    actual: int,
    custom: Seq<char>,
) -> Seq<char> {
    "expected from "@ + spec_u64_string(min) + " to "@ + spec_u64_string(max) + " rows, got "@
        + spec_u64_string(actual) + " rows"@ + (if custom.len() > 0 {
        ". "@ + custom
    } else {
        Seq::empty()
    })
}

/// Checks the accumulated item count against the declared inclusive bounds;
/// a violation reports the actual count, the bounds and the custom message.
pub fn validate_result(validation: Option<&ValidationArgs>, actual_count: u64) -> (r: Result<
    (),
    AlternatorError,
>)
    ensures
        r is Ok <==> match validation {
            None => true,
            Some(v) => v.expected_min <= actual_count <= v.expected_max,
        },
        r matches Err(e) ==> ({
            let v = validation.unwrap();
            e.0 matches AlternatorErrorKind::ValidationError(s) && s@ == spec_validation_message(
                v.expected_min as int,
                v.expected_max as int,
                actual_count as int,
                v.custom_err_msg@,
            )
        }),
{
    match validation {
        None => Ok(()),
        Some(v) => {
            if v.expected_min <= actual_count && actual_count <= v.expected_max {
                Ok(())
            } else {
                let mut s = String::from_str("expected from ");
                s.append(u64_to_string(v.expected_min).as_str());
                s.append(" to ");
                s.append(u64_to_string(v.expected_max).as_str());
                s.append(" rows, got ");
                s.append(u64_to_string(actual_count).as_str());
                s.append(" rows");
                if !v.custom_err_msg.as_str().is_empty() {
                    s.append(". ");
                    s.append(v.custom_err_msg.as_str());
                }
                proof {
                    assert(s@ =~= spec_validation_message(
                        v.expected_min as int,
                        v.expected_max as int,
                        actual_count as int,
                        v.custom_err_msg@,
                    ));
                }
                Err(AlternatorError::new(AlternatorErrorKind::ValidationError(s)))
            }
        },
    }
}

/// A caller-declared limit is never exceeded: if fewer items than the limit
/// have accumulated and the coming page hands back no more items than the
/// granted page size, the new total still fits under the limit.
pub proof fn lemma_limit_never_exceeded(cfg: ExecutorConfig, items_count: int, page_len: int)
    requires
        cfg.declared_limit is Some,
        0 <= items_count < cfg.declared_limit.unwrap(),
        0 <= page_len <= spec_next_page_limit(cfg, items_count),
    ensures
        items_count + page_len <= cfg.declared_limit.unwrap(),
{
}

} // verus!
