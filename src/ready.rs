use vstd::prelude::*;
use rustix::process::Pid;

verus! {

#[verifier::external_type_specification]
#[verifier::external_body]
pub struct ExPid(Pid);

/// Relies on rustix's `Pid::from_raw`: `Some` for a positive value, `None`
/// for zero; a negative value trips its debug assertion.
pub assume_specification[ Pid::from_raw ](raw: rustix::process::RawPid) -> (r: Option<Pid>)
    requires
        raw >= 0,
    ensures
        r.is_some() == (raw != 0),
;

/// Name of the variable through which a child learns the supervisor's pid.
pub const PID_VARIABLE: &'static str = "SERVICED_PID";

/// Whether `c` is a decimal digit.
pub open spec fn is_digit(c: char) -> bool {
    '0' <= c && c <= '9'
}

/// The number that a string of decimal digits writes.
pub open spec fn digits_value(s: Seq<char>) -> int
    decreases s.len(),
{
    if s.len() == 0 {
        0
    } else {
        digits_value(s.drop_last()) * 10 + (s.last() as int - '0' as int)
    }
}

pub open spec fn all_digits(s: Seq<char>) -> bool {
    s.len() > 0 && forall|i: int| 0 <= i < s.len() ==> is_digit(#[trigger] s[i])
}

/// The integer that an optional sign and decimal digits write.
pub open spec fn decimal_value(s: Seq<char>) -> Option<int> {
    if s.len() > 0 && s[0] == '-' && all_digits(s.drop_first()) {
        Some(-digits_value(s.drop_first()))
    } else if s.len() > 0 && s[0] == '+' && all_digits(s.drop_first()) {
        Some(digits_value(s.drop_first()))
    } else if all_digits(s) {
        Some(digits_value(s))
    } else {
        None
    }
}

/// The `i32` that `s` writes in decimal, if it writes one in range.
pub open spec fn i32_of(s: Seq<char>) -> Option<i32> {
    match decimal_value(s) {
        Some(v) => if i32::MIN <= v <= i32::MAX {
            Some(v as i32)
        } else {
            None
        },
        None => None,
    }
}

/// Relies on `str::parse::<i32>`: an optional `+` or `-` and at least one
/// decimal digit, nothing else, with a value in range.
#[verifier::external_body]
fn parse_i32(s: &str) -> (r: Option<i32>)
    ensures
        r == i32_of(s@),
{
    s.parse::<i32>().ok()
}

/// Why the supervisor's pid could not be read.
#[derive(Clone, Copy, Debug, PartialEq, Eq, Structural)]
pub enum PidError {
    /// The variable is not set.
    Missing,
    /// The variable does not hold a positive decimal `i32`.
    Invalid,
}

/// What reading the supervisor's pid from the variable's value gives.
pub open spec fn pid_result(value: Option<Seq<char>>) -> Result<i32, PidError> {
    match value {
        None => Err(PidError::Missing),
        Some(v) => match i32_of(v) {
            Some(n) => if n > 0 {
                Ok(n)
            } else {
                Err(PidError::Invalid)
            },
            None => Err(PidError::Invalid),
        },
    }
}

pub open spec fn opt_view(value: Option<&str>) -> Option<Seq<char>> {
    match value {
        Some(v) => Some(v@),
        None => None,
    }
}

/// Reads the supervisor's pid from the value of its variable, if set.
pub fn parse_pid(value: Option<&str>) -> (r: Result<i32, PidError>)
    ensures
        r == pid_result(opt_view(value)),
{
    match value {
        None => Err(PidError::Missing),
        Some(v) => match parse_i32(v) {
            Some(n) => if n > 0 {
                Ok(n)
            } else {
                Err(PidError::Invalid)
            },
            None => Err(PidError::Invalid),
        },
    }
}

/// The supervisor's pid as a process id, from the value of its variable.
pub fn get_pid(value: Option<&str>) -> (r: Result<Pid, PidError>)
    ensures
        match (r, pid_result(opt_view(value))) {
            (Ok(_), Ok(_)) => true,
            (Err(e), Err(f)) => e == f,
            _ => false,
        },
{
    match parse_pid(value) {
        Err(e) => Err(e),
        Ok(n) => match Pid::from_raw(n) {
            Some(p) => Ok(p),
            None => Err(PidError::Invalid),
        },
    }
}

} // verus!
