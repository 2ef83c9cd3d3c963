//! The values of the command line and the code that the tracker exits with.
use crate::contracts::TargetResult;
use crate::text::{
    concat2, concat3, decimal, fits, i32_fault, parse_i32, parse_u64, parse_usize, signed_text,
    signed_value, u64_fault, unsigned_value, usize_fault,
};
use vstd::prelude::*;

verus! {

/// The largest number of capture workers.
pub const MAX_WORKERS: usize = 64;

/// The code that the tracker exits with when it fails itself.
pub const FAILURE_EXIT_CODE: i32 = 125;

/// The text is a number of at most `max`.
pub open spec fn is_number(text: Seq<char>, max: int) -> bool {
    fits(unsigned_value(text), 0, max)
}

/// Reads a positive number.
pub fn parse_positive_usize(value: &str) -> (result: Result<usize, String>)
    ensures
        match result {
            Ok(number) => number > 0 && unsigned_value(value@) == Some(number as int),
            Err(message) => if !is_number(value@, usize::MAX as int) {
                message@ == "invalid positive integer: "@ + usize_fault(value@)
            } else {
                unsigned_value(value@) == Some(0int) && message@
                    == "value must be greater than zero"@
            },
        },
{
    match parse_usize(value) {
        Err(message) => Err(concat2("invalid positive integer: ", message.as_str())),
        Ok(number) => {
            if number == 0 {
                Err("value must be greater than zero".to_owned())
            } else {
                Ok(number)
            }
        },
    }
}

/// Reads a positive number.
pub fn parse_positive_u64(value: &str) -> (result: Result<u64, String>)
    ensures
        match result {
            Ok(number) => number > 0 && unsigned_value(value@) == Some(number as int),
            Err(message) => if !is_number(value@, u64::MAX as int) {
                message@ == "invalid positive integer: "@ + u64_fault(value@)
            } else {
                unsigned_value(value@) == Some(0int) && message@
                    == "value must be greater than zero"@
            },
        },
{
    match parse_u64(value) {
        Err(message) => Err(concat2("invalid positive integer: ", message.as_str())),
        Ok(number) => {
            if number == 0 {
                Err("value must be greater than zero".to_owned())
            } else {
                Ok(number)
            }
        },
    }
}

/// Reads the number of capture workers: at least one, and no more than there may be.
pub fn parse_worker_count(value: &str) -> (result: Result<usize, String>)
    ensures
        match result {
            Ok(number) => 0 < number <= MAX_WORKERS && unsigned_value(value@) == Some(
                number as int,
            ),
            Err(message) => if !is_number(value@, usize::MAX as int) {
                message@ == "invalid positive integer: "@ + usize_fault(value@)
            } else if unsigned_value(value@) == Some(0int) {
                message@ == "value must be greater than zero"@
            } else {
                unsigned_value(value@)->0 > MAX_WORKERS && message@
                    == "capture worker count cannot exceed 64"@
            },
        },
{
    match parse_positive_usize(value) {
        Err(message) => Err(message),
        Ok(number) => {
            if number > MAX_WORKERS {
                Err("capture worker count cannot exceed 64".to_owned())
            } else {
                Ok(number)
            }
        },
    }
}

/// Reads the descriptor of the control channel, which must not be a standard stream.
pub fn parse_control_fd(value: &str) -> (result: Result<i32, String>)
    ensures
        match result {
            Ok(fd) => fd >= 3 && signed_value(value@) == Some(fd as int),
            Err(message) => if fits(signed_value(value@), i32::MIN as int, i32::MAX as int) {
                signed_value(value@)->0 < 3 && message@ == "control FD must be 3 or greater"@
            } else {
                message@ == "invalid file descriptor: "@ + i32_fault(value@)
            },
        },
{
    match parse_i32(value) {
        Err(message) => Err(concat2("invalid file descriptor: ", message.as_str())),
        Ok(fd) => {
            if fd < 3 {
                Err("control FD must be 3 or greater".to_owned())
            } else {
                Ok(fd)
            }
        },
    }
}

/// Takes the descriptor of the control channel where it is open.
pub fn check_control_fd(fd: i32, is_open: bool) -> (result: Result<i32, String>)
    ensures
        match result {
            Ok(taken) => is_open && taken == fd,
            Err(message) => !is_open && message@ == "control FD "@ + decimal(fd as int)
                + " is not open"@,
        },
{
    if is_open {
        Ok(fd)
    } else {
        Err(concat3("control FD ", signed_text(fd).as_str(), " is not open"))
    }
}

/// The code that the tracker exits with: that of the target, or one that tells the signal
/// that ended it.
pub open spec fn exit_code_for(target: TargetResult) -> int {
    match target.exit_code {
        Some(code) => code as int,
        None => match target.signal {
            Some(signal) => 128 + signal,
            None => 129,
        },
    }
}

/// The code that the tracker exits with.
pub fn exit_code(target: TargetResult) -> (code: i32)
    requires
        exit_code_for(target) <= i32::MAX,
    ensures
        code == exit_code_for(target),
{
    match target.exit_code {
        Some(code) => code,
        None => match target.signal {
            Some(signal) => 128 + signal,
            None => 129,
        },
    }
}

/// The code that the look at the machine exits with: zero where the tracker can run on it.
pub fn doctor_code(supported: bool) -> (code: i32)
    ensures
        code == (if supported {
            0int
        } else {
            1
        }),
{
    if supported {
        0
    } else {
        1
    }
}

/// The exit code of a target that ended by itself is kept.
pub proof fn the_exit_code_is_kept(status: i32)
    ensures
        exit_code_for(crate::linux::ended(status)) <= i32::MAX,
        crate::linux::exited(status) ==> exit_code_for(crate::linux::ended(status)) == (status >> 8)
            & 0xff,
        crate::linux::signaled(status) ==> exit_code_for(crate::linux::ended(status)) == 128 + (
        status & 0x7f),
{
    crate::linux::a_process_ends_one_way(status);
}

/// The tracker exits as its target does: with the code that the target exited with, whatever
/// that is, and with 128 and the signal where a signal ended it.
pub proof fn the_tracker_exits_as_its_target(target: TargetResult, code: i32)
    requires
        exit_code_for(target) <= i32::MAX,
        call_ensures(exit_code, (target,), code),
    ensures
        target.exit_code is Some ==> code == target.exit_code->0,
        target.exit_code is None && target.signal is Some ==> code == 128 + target.signal->0,
        target.exit_code is None && target.signal is None ==> code == 129,
{
}

/// A machine that is not supported is told by the exit code.
pub proof fn the_exit_code_tells_support(supported: bool, code: i32)
    requires
        call_ensures(doctor_code, (supported,), code),
    ensures
        code == 0 <==> supported,
        code == 1 <==> !supported,
{
}

/// A positive number is read from its decimal text, and zero is refused.
pub proof fn positive_numbers_are_read(
    number: nat,
    value: &str,
    small: Result<usize, String>,
    large: Result<u64, String>,
    workers: Result<usize, String>,
)
    requires
        value@ == decimal(number as int),
        call_ensures(parse_positive_usize, (value,), small),
        call_ensures(parse_positive_u64, (value,), large),
        call_ensures(parse_worker_count, (value,), workers),
    ensures
        small is Ok <==> 0 < number <= usize::MAX,
        small is Ok ==> small->Ok_0 == number,
        large is Ok <==> 0 < number <= u64::MAX,
        large is Ok ==> large->Ok_0 == number,
        workers is Ok <==> 0 < number <= 64,
        workers is Ok ==> workers->Ok_0 == number,
        number == 0 ==> small->Err_0@ == "value must be greater than zero"@ && large->Err_0@
            == "value must be greater than zero"@ && workers->Err_0@
            == "value must be greater than zero"@,
        64 < number <= usize::MAX ==> workers->Err_0@ == "capture worker count cannot exceed 64"@,
{
    crate::text::decimal_numbers_read_back(number);
}

/// The descriptor of a control channel is read from its decimal text, and is none of the standard
/// streams; it is taken exactly where it is open.
pub proof fn control_descriptors_are_no_standard_streams(
    number: i32,
    value: &str,
    is_open: bool,
    read: Result<i32, String>,
    taken: Result<i32, String>,
)
    requires
        value@ == decimal(number as int),
        call_ensures(parse_control_fd, (value,), read),
        call_ensures(check_control_fd, (number, is_open), taken),
    ensures
        read is Ok <==> number >= 3,
        read is Ok ==> read->Ok_0 == number,
        read is Err ==> read->Err_0@ == "control FD must be 3 or greater"@,
        taken is Ok <==> is_open,
        taken is Ok ==> taken->Ok_0 == number,
        taken is Err ==> taken->Err_0@ == "control FD "@ + decimal(number as int) + " is not open"@,
{
    if number >= 0 {
        crate::text::decimal_numbers_read_back(number as nat);
    } else {
        crate::text::decimal_numbers_read_back((-number) as nat);
    }
}

} // verus!
