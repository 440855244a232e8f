//! Signalling processes: which PIDs can be signalled, and the messages for
//! signals that could not be sent.
use vstd::prelude::*;

use crate::text::{decimal, decimal_string, push_str};

verus! {

/// The message for a PID that is no process ID of the operating system.
pub open spec fn invalid_pid_message(pid: u32) -> Seq<char> {
    "invalid PID "@ + decimal(pid as nat)
}

/// The message for a signal that the operating system refused.
pub open spec fn signal_failure_message(pid: u32) -> Seq<char> {
    "Could not signal process PID "@ + decimal(pid as nat)
}

/// The process ID that the operating system knows `pid` as: `pid` itself
/// when it fits an `i32`, else the message that rejects it.
pub fn checked_pid(pid: u32) -> (r: Result<i32, String>)
    ensures
        match r {
            Ok(raw) => pid <= i32::MAX && raw == pid,
            Err(m) => pid > i32::MAX && m@ == invalid_pid_message(pid),
        },
{
    if pid <= 2147483647 {
        Ok(pid as i32)
    } else {
        let mut m = String::new();
        push_str(&mut m, "invalid PID ");
        let n = decimal_string(pid as u64);
        push_str(&mut m, n.as_str());
        Err(m)
    }
}

/// The message for a signal to `pid` that could not be sent.
pub fn signal_failure(pid: u32) -> (r: String)
    ensures
        r@ == signal_failure_message(pid),
{
    let mut m = String::new();
    push_str(&mut m, "Could not signal process PID ");
    let n = decimal_string(pid as u64);
    push_str(&mut m, n.as_str());
    m
}

} // verus!
