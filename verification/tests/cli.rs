use fs_tracker::cli::{
    check_control_fd, doctor_code, exit_code, parse_control_fd, parse_positive_u64, parse_positive_usize,
    parse_worker_count,
};
use fs_tracker::contracts::TargetResult;
use fs_tracker::linux::target_result;

#[test]
fn positive_numbers_are_read() {
    assert_eq!(parse_positive_usize("7"), Ok(7));
    assert_eq!(parse_positive_usize("+7"), Ok(7));
    assert_eq!(parse_positive_usize("007"), Ok(7));
    assert_eq!(parse_positive_usize("0"), Err("value must be greater than zero".into()));
    assert_eq!(
        parse_positive_usize("-1"),
        Err("invalid positive integer: invalid digit found in string".into())
    );
    assert_eq!(parse_positive_u64("18446744073709551615"), Ok(u64::MAX));
    assert_eq!(
        parse_positive_u64("18446744073709551616"),
        Err("invalid positive integer: number too large to fit in target type".into())
    );
    assert_eq!(parse_positive_u64("00"), Err("value must be greater than zero".into()));
    assert_eq!(
        parse_positive_u64(""),
        Err("invalid positive integer: cannot parse integer from empty string".into())
    );
}

#[test]
fn workers_are_few() {
    assert_eq!(parse_worker_count("1"), Ok(1));
    assert_eq!(parse_worker_count("64"), Ok(64));
    assert_eq!(parse_worker_count("65"), Err("capture worker count cannot exceed 64".into()));
    assert_eq!(parse_worker_count("0"), Err("value must be greater than zero".into()));
    assert!(parse_worker_count("x").is_err());
}

#[test]
fn the_control_channel_is_no_standard_stream() {
    assert_eq!(parse_control_fd("3"), Ok(3));
    assert_eq!(parse_control_fd("2"), Err("control FD must be 3 or greater".into()));
    assert_eq!(parse_control_fd("-5"), Err("control FD must be 3 or greater".into()));
    assert_eq!(
        parse_control_fd("nine"),
        Err("invalid file descriptor: invalid digit found in string".into())
    );
    assert_eq!(check_control_fd(9, true), Ok(9));
    assert_eq!(check_control_fd(9, false), Err("control FD 9 is not open".into()));
}

#[test]
fn the_exit_code_tells_how_the_target_ended() {
    assert_eq!(exit_code(target_result(7 << 8)), 7);
    assert_eq!(exit_code(target_result(15)), 143);
    assert_eq!(exit_code(TargetResult { exit_code: None, signal: None }), 129);
}

#[test]
fn an_unsupported_machine_is_a_failure() {
    assert_eq!(doctor_code(true), 0);
    assert_eq!(doctor_code(false), 1);
}
