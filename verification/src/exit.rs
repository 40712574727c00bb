//! Exit statuses: the command's own, and those that say what became of it.
use crate::platform::Platform;
use vstd::prelude::*;

verus! {

/// The time limit expired.
pub const EXIT_TIMEOUT: u8 = 124;

/// The command could not be supervised.
pub const EXIT_WRAPPER_ERROR: u8 = 125;

/// The command was found but could not be invoked.
pub const EXIT_CANNOT_INVOKE: u8 = 126;

/// The command was not found.
pub const EXIT_NOT_FOUND: u8 = 127;

/// The memory limit was exceeded.
pub const EXIT_MEMORY: u8 = 137;

/// How a process ended.
#[derive(Clone, Copy, Debug, PartialEq, Eq)]
pub struct ExitStatus {
    /// The exit code, where it ended by itself.
    pub code: Option<i32>,
    /// The signal that ended it, where one did.
    pub signal: Option<u8>,
}

/// The exit code that passes a status on: the command's own code, or on Unix the number of the
/// signal that ended it on top of 128.
pub open spec fn exit_code_of(platform: Platform, status: ExitStatus) -> int {
    match status.code {
        Some(code) => code as int,
        None => match status.signal {
            Some(signal) => if platform.is_windows() {
                EXIT_WRAPPER_ERROR as int
            } else {
                128 + signal
            },
            None => EXIT_WRAPPER_ERROR as int,
        },
    }
}

/// The exit code that passes a status on.
pub fn status_exit_code(platform: Platform, status: ExitStatus) -> (code: i32)
    ensures
        code == exit_code_of(platform, status),
        status.code matches Some(own) ==> code == own,
{
    match status.code {
        Some(code) => code,
        None => match status.signal {
            Some(signal) => if platform.is_windows() {
                EXIT_WRAPPER_ERROR as i32
            } else {
                128 + signal as i32
            },
            None => EXIT_WRAPPER_ERROR as i32,
        },
    }
}

/// Two statuses of commands that ended by themselves are passed on as the same exit code only
/// where they are the same: nothing that a command says with its exit code is lost, and a
/// success is reported just for a success.
pub proof fn law_exit_codes_are_passed_on(
    platform: Platform,
    code: i32,
    signal: Option<u8>,
)
    ensures
        exit_code_of(platform, ExitStatus { code: Some(code), signal }) == code,
        exit_code_of(platform, ExitStatus { code: Some(code), signal }) == 0 <==> code == 0,
{
}

/// A command that a signal ended is reported on Unix as 128 and the signal's number; where
/// nothing is known of its end, as a failure to supervise it.
pub proof fn law_signals_are_passed_on(platform: Platform, signal: u8)
    ensures
        platform != Platform::Windows ==> exit_code_of(
            platform,
            ExitStatus { code: None, signal: Some(signal) },
        ) == 128 + signal,
        platform == Platform::Windows ==> exit_code_of(
            platform,
            ExitStatus { code: None, signal: Some(signal) },
        ) == 125,
        exit_code_of(platform, ExitStatus { code: None, signal: None }) == 125,
{
}

} // verus!
