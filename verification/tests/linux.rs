use fs_tracker::doctor::probe_result;
use fs_tracker::linux::{
    check_command, check_notification_size, filter_program, nul_position,
    supported_syscall_numbers, syscall_kind, target_result, LegacyNumbers, SockFilter, SyscallKind,
    SyscallTable, SECCOMP_RET_ALLOW, SECCOMP_RET_KILL_PROCESS, SECCOMP_RET_USER_NOTIF,
};
use fs_tracker::process::{add_children, child_state, children_to_check, ChildState};
use fs_tracker::doctor;

fn table(legacy: bool) -> SyscallTable {
    SyscallTable {
        openat: 56,
        openat2: 437,
        truncate: 45,
        ftruncate: 46,
        unlinkat: 35,
        renameat: 38,
        renameat2: 276,
        fchmod: 52,
        fchmodat: 53,
        symlinkat: 36,
        linkat: 37,
        mkdirat: 34,
        io_uring_setup: 425,
        legacy: if legacy {
            Some(LegacyNumbers {
                open: 1002,
                unlink: 1087,
                rename: 1082,
                chmod: 1090,
                symlink: 1088,
                link: 1086,
                mkdir: 1083,
                rmdir: 1084,
            })
        } else {
            None
        },
    }
}

fn answer(program: &[SockFilter], nr: u32, arch: u32) -> u32 {
    let mut loaded = 0;
    let mut at = 0;
    loop {
        let step = program[at];
        at += 1;
        match step.code {
            0x20 => loaded = if step.k == 0 { nr } else { arch },
            0x15 => at += if loaded == step.k { step.jt } else { step.jf } as usize,
            0x06 => return step.k,
            other => panic!("instruction {other}"),
        }
    }
}

#[test]
fn no_number_is_listed_twice() {
    for table in [table(false), table(true)] {
        let numbers = supported_syscall_numbers(&table);
        assert!(numbers.contains(&452));
        for (index, number) in numbers.iter().enumerate() {
            assert!(!numbers[..index].contains(number), "{number}");
            assert_ne!(syscall_kind(*number as i32, &table), SyscallKind::Unknown);
        }
    }
}

#[test]
fn numbers_have_their_kinds() {
    let modern = table(false);
    assert_eq!(syscall_kind(56, &modern), SyscallKind::OpenAt);
    assert_eq!(syscall_kind(437, &modern), SyscallKind::OpenAt2);
    assert_eq!(syscall_kind(452, &modern), SyscallKind::FchmodAt2);
    assert_eq!(syscall_kind(425, &modern), SyscallKind::IoUringSetup);
    assert_eq!(syscall_kind(1002, &modern), SyscallKind::Unknown);
    assert_eq!(syscall_kind(-1, &modern), SyscallKind::Unknown);
    let legacy = table(true);
    assert_eq!(syscall_kind(1002, &legacy), SyscallKind::Open);
    assert_eq!(syscall_kind(1084, &legacy), SyscallKind::Rmdir);
}

#[test]
fn every_supported_number_has_a_kind() {
    for legacy in [false, true] {
        let table = table(legacy);
        let numbers = supported_syscall_numbers(&table);
        assert_eq!(numbers.len(), if legacy { 22 } else { 14 });
        for number in 0..2000 {
            let known = syscall_kind(number, &table) != SyscallKind::Unknown;
            assert_eq!(numbers.contains(&(number as i64)), known, "{number}");
        }
    }
}

#[test]
fn the_filter_reports_the_observed_calls() {
    let table = table(true);
    let program = filter_program(0xc000_003e, &table);
    assert_eq!(program.len(), 49);
    for number in 0..2000 {
        let expected = if syscall_kind(number, &table) != SyscallKind::Unknown {
            SECCOMP_RET_USER_NOTIF
        } else {
            SECCOMP_RET_ALLOW
        };
        assert_eq!(answer(&program, number as u32, 0xc000_003e), expected, "{number}");
        assert_eq!(answer(&program, number as u32, 0x4000_0003), SECCOMP_RET_KILL_PROCESS);
    }
}

#[test]
fn wait_statuses_are_read() {
    let ended = target_result(7 << 8);
    assert_eq!(ended.exit_code, Some(7));
    assert_eq!(ended.signal, None);
    let killed = target_result(15);
    assert_eq!(killed.exit_code, None);
    assert_eq!(killed.signal, Some(15));
    let dumped = target_result(0x80 | 11);
    assert_eq!(dumped.signal, Some(11));
    let stopped = target_result(0x7f);
    assert_eq!(stopped.exit_code, None);
    assert_eq!(stopped.signal, None);
}

#[test]
fn notifications_have_one_size() {
    assert!(check_notification_size(80, 80).is_ok());
    assert_eq!(
        check_notification_size(88, 80).unwrap_err(),
        "unsupported seccomp notification size 88"
    );
}

#[test]
fn arguments_hold_no_zero_byte() {
    assert!(check_command(&vec![b"ls".to_vec(), b"-l".to_vec()]).is_ok());
    assert_eq!(
        check_command(&vec![b"ls".to_vec(), b"a\0b".to_vec()]).unwrap_err(),
        "argv contains NUL"
    );
    assert_eq!(nul_position(b"ab\0\0"), Some(2));
    assert_eq!(nul_position(b"ab"), None);
}

#[test]
fn children_are_listed_once() {
    let mut children = Vec::new();
    add_children(&mut children, b"12 7\n");
    add_children(&mut children, b" 7\t+9 x 99999999999 -3 ");
    assert_eq!(children, vec![12, 7, 9, -3]);
    assert_eq!(children_to_check(&children, Some(7)), vec![12, 9, -3]);
    assert_eq!(children_to_check(&children, None), children);
}

#[test]
fn children_are_alive_or_gone() {
    assert_eq!(child_state(0, None), ChildState::Alive);
    assert_eq!(child_state(12, None), ChildState::Gone);
    assert_eq!(child_state(-1, Some(libc::ECHILD)), ChildState::Gone);
    assert_eq!(child_state(-1, Some(libc::EINVAL)), ChildState::Failed);
    assert_eq!(child_state(-1, None), ChildState::Failed);
}

#[test]
fn the_doctor_needs_everything() {
    let sizes = Some((80, 24, 64));
    let good = doctor(Ok("6.1".into()), "x86_64", sizes, &Ok(()), &Ok(()));
    assert!(good.supported);
    assert_eq!(good.kernel, "6.1");
    assert_eq!(good.listener_probe, "available");
    assert_eq!(good.proc_mem, "available");
    assert_eq!(good.notification_sizes, sizes);
    assert!(doctor(Ok("6.1".into()), "aarch64", sizes, &Ok(()), &Ok(())).supported);
    let bad = doctor(Err("no".into()), "x86_64", sizes, &Err("denied".into()), &Ok(()));
    assert!(!bad.supported);
    assert_eq!(bad.kernel, "unknown: no");
    assert_eq!(bad.listener_probe, "unavailable: denied");
    assert!(!doctor(Ok("6".into()), "riscv64", sizes, &Ok(()), &Ok(())).supported);
    assert!(!doctor(Ok("6".into()), "x86_64", None, &Ok(()), &Ok(())).supported);
    assert!(!doctor(Ok("6".into()), "x86_64", sizes, &Ok(()), &Err("x".into())).supported);
    assert!(probe_result(0).is_ok());
    assert_eq!(probe_result(256).unwrap_err(), "probe exited with status 256");
}
