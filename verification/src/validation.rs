//! Validation rules of the calendar's data.
use vstd::prelude::*;
use vstd::string::StringExecFns;

use crate::text::{is_blank, is_blank_str};

verus! {

/// Why a value was refused.
#[derive(Debug, Clone, Copy, PartialEq, Eq)]
pub enum ValidationError {
    /// The named field is empty or white space only.
    Empty { field: &'static str },
    /// A time range whose end is not after its start.
    InvalidTimeRange,
    /// A date range whose end is before its start.
    InvalidDateRange,
    /// A progress outside 0..=100.
    ProgressOutOfRange,
    /// The dependency edges contain a cycle.
    CircularDependency,
}

impl ValidationError {
    /// The text of the error message.
    pub open spec fn spec_message(&self) -> Seq<char> {
        match self {
            ValidationError::Empty { field } => field@ + " must not be empty"@,
            ValidationError::InvalidTimeRange => "time range is invalid: end must be after start"@,
            ValidationError::InvalidDateRange => "date range is invalid: end must be on or after start"@,
            ValidationError::ProgressOutOfRange => "progress must be between 0 and 100"@,
            ValidationError::CircularDependency => "circular dependency detected"@,
        }
    }

    /// The human-readable message of this error.
    pub fn message(&self) -> (m: String)
        ensures
            m@ == self.spec_message(),
    {
        match self {
            ValidationError::Empty { field } => String::from_str(field).concat(" must not be empty"),
            ValidationError::InvalidTimeRange => String::from_str(
                "time range is invalid: end must be after start",
            ),
            ValidationError::InvalidDateRange => String::from_str(
                "date range is invalid: end must be on or after start",
            ),
            ValidationError::ProgressOutOfRange => String::from_str(
                "progress must be between 0 and 100",
            ),
            ValidationError::CircularDependency => String::from_str("circular dependency detected"),
        }
    }
}

/// `Ok` when `value` holds a character other than white space; otherwise the
/// `Empty` error naming `field`.
pub fn validate_non_empty(value: &str, field: &'static str) -> (r: Result<(), ValidationError>)
    ensures
        r == (if is_blank(value@) {
            Err(ValidationError::Empty { field })
        } else {
            Ok(())
        }),
{
    if is_blank_str(value) {
        return Err(ValidationError::Empty { field });
    }
    Ok(())
}

/// `Ok` when `progress` lies in 0..=100.
pub fn validate_progress(progress: i32) -> (r: Result<(), ValidationError>)
    ensures
        r == (if 0 <= progress <= 100 {
            Ok(())
        } else {
            Err(ValidationError::ProgressOutOfRange)
        }),
{
    if !(0 <= progress && progress <= 100) {
        return Err(ValidationError::ProgressOutOfRange);
    }
    Ok(())
}

/// `Ok` when `end` comes strictly after `start`.
pub fn validate_time_range(start: i64, end: i64) -> (r: Result<(), ValidationError>)
    ensures
        r == (if end <= start {
            Err(ValidationError::InvalidTimeRange)
        } else {
            Ok(())
        }),
{
    if end <= start {
        return Err(ValidationError::InvalidTimeRange);
    }
    Ok(())
}

/// `Ok` unless an end day is given and lies before the start day.
pub fn validate_date_range(start: i64, end: Option<i64>) -> (r: Result<(), ValidationError>)
    ensures
        r == (match end {
            Some(e) if e < start => Err(ValidationError::InvalidDateRange),
            _ => Ok(()),
        }),
{
    if let Some(end) = end {
        if end < start {
            return Err(ValidationError::InvalidDateRange);
        }
    }
    Ok(())
}

} // verus!

verus! {

/// `Ok` when the dependency edges hold no cycle; `CircularDependency` when
/// they do, a block that depends on itself included.
pub fn detect_circular_dependency(edges: &[(String, String)]) -> (r: Result<(), ValidationError>)
    ensures
        r == (if crate::dependency::has_cycle(edges@) {
            Err(ValidationError::CircularDependency)
        } else {
            Ok(())
        }),
{
    if crate::dependency::contains_cycle(edges) {
        return Err(ValidationError::CircularDependency);
    }
    Ok(())
}

} // verus!
