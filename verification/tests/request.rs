use fs_tracker::capture::CaptureStore;
use fs_tracker::config::{Limits, Root};
use fs_tracker::linux::{LegacyNumbers, Notification, SeccompData, SyscallTable};
use fs_tracker::request::{
    base_link_path, capture_argument, capture_descriptor, capture_stdio, continue_failed,
    descriptor_link, fd_path, path_from, plan_open_how, plan_request, processing_failed,
    resolve_path, stdio_matters, writable_flags, ArgumentStep, OpenHow, PathArgument, PathReader,
    PathStep, RequestPlan, Resolution, ResolveStep,
};

fn table() -> SyscallTable {
    SyscallTable {
        openat: 257,
        openat2: 437,
        truncate: 76,
        ftruncate: 77,
        unlinkat: 263,
        renameat: 264,
        renameat2: 316,
        fchmod: 91,
        fchmodat: 268,
        symlinkat: 266,
        linkat: 265,
        mkdirat: 258,
        io_uring_setup: 425,
        legacy: Some(LegacyNumbers {
            open: 2,
            unlink: 87,
            rename: 82,
            chmod: 90,
            symlink: 88,
            link: 86,
            mkdir: 83,
            rmdir: 84,
        }),
    }
}

fn request(nr: i32, args: [u64; 6]) -> Notification {
    Notification {
        id: 1,
        pid: 42,
        flags: 0,
        data: SeccompData { nr, arch: 0, instruction_pointer: 0, args },
    }
}

fn plan(nr: i32, args: [u64; 6]) -> RequestPlan {
    plan_request(&request(nr, args), &table())
}

fn argument(dirfd: i32, address: u64, follow: bool) -> PathArgument {
    PathArgument { dirfd, address, follow }
}

fn store() -> CaptureStore {
    CaptureStore::new(
        b"/out".to_vec(),
        vec![Root { id: "main".into(), path: b"/w".to_vec() }],
        Vec::new(),
        Vec::new(),
        Limits::default(),
        1,
        0,
    )
}

#[test]
fn writable_open_flags_include_create_and_truncate() {
    assert!(writable_flags(libc::O_RDONLY | libc::O_CREAT));
    assert!(writable_flags(libc::O_WRONLY));
    assert!(!writable_flags(libc::O_RDONLY));
}

#[test]
fn every_writing_flag_counts() {
    assert!(writable_flags(libc::O_RDWR));
    assert!(writable_flags(libc::O_TRUNC));
    assert!(writable_flags(0o20200000));
    assert!(!writable_flags(0o20000000));
    assert!(!writable_flags(libc::O_CLOEXEC | libc::O_NONBLOCK));
}

#[test]
fn more_flags_never_hide_a_write() {
    for flags in [libc::O_WRONLY, libc::O_RDWR, libc::O_CREAT, libc::O_TRUNC, 0o20200000] {
        for more in [0, libc::O_CLOEXEC, libc::O_NONBLOCK, libc::O_APPEND, -1] {
            assert!(writable_flags(flags | more));
        }
    }
}

#[test]
fn reading_opens_are_let_go() {
    assert!(matches!(plan(2, [7, 0, 0, 0, 0, 0]), RequestPlan::Nothing));
    assert!(matches!(plan(257, [3, 7, 0, 0, 0, 0]), RequestPlan::Nothing));
    match plan(2, [7, libc::O_WRONLY as u64, 0, 0, 0, 0]) {
        RequestPlan::Capture(found) => assert_eq!(found, argument(-100, 7, true)),
        other => panic!("{other:?}"),
    }
    match plan(257, [0xffff_ffff_ffff_ff9c, 7, libc::O_CREAT as u64, 0, 0, 0]) {
        RequestPlan::Capture(found) => assert_eq!(found, argument(-100, 7, true)),
        other => panic!("{other:?}"),
    }
}

#[test]
fn names_are_captured_without_following_links() {
    let captured = |nr, args| match plan(nr, args) {
        RequestPlan::Capture(found) => found,
        other => panic!("{other:?}"),
    };
    assert_eq!(captured(87, [5, 0, 0, 0, 0, 0]), argument(-100, 5, false));
    assert_eq!(captured(263, [3, 5, 0, 0, 0, 0]), argument(3, 5, false));
    assert_eq!(captured(88, [1, 5, 0, 0, 0, 0]), argument(-100, 5, false));
    assert_eq!(captured(266, [1, 3, 5, 0, 0, 0]), argument(3, 5, false));
    assert_eq!(captured(76, [5, 0, 0, 0, 0, 0]), argument(-100, 5, true));
    assert_eq!(captured(90, [5, 0, 0, 0, 0, 0]), argument(-100, 5, true));
    assert_eq!(captured(268, [3, 5, 0, 0, 0, 0]), argument(3, 5, true));
    assert_eq!(captured(452, [3, 5, 0, 0, 0, 0]), argument(3, 5, true));
    let nofollow = libc::AT_SYMLINK_NOFOLLOW as u64;
    assert_eq!(captured(452, [3, 5, 0, nofollow, 0, 0]), argument(3, 5, false));
}

#[test]
fn renames_capture_both_ends() {
    match plan(82, [5, 6, 0, 0, 0, 0]) {
        RequestPlan::CapturePair(from, to) => {
            assert_eq!(from, argument(-100, 5, false));
            assert_eq!(to, argument(-100, 6, false));
        }
        other => panic!("{other:?}"),
    }
    for nr in [264, 316] {
        match plan(nr, [3, 5, 4, 6, 0, 0]) {
            RequestPlan::CapturePair(from, to) => {
                assert_eq!(from, argument(3, 5, false));
                assert_eq!(to, argument(4, 6, false));
            }
            other => panic!("{other:?}"),
        }
    }
}

#[test]
fn descriptors_links_and_directories_are_told_apart() {
    for nr in [77, 91] {
        match plan(nr, [9, 0, 0, 0, 0, 0]) {
            RequestPlan::CaptureDescriptor { fd, raw } => {
                assert_eq!(fd, 9);
                assert_eq!(raw, 9);
            }
            other => panic!("{other:?}"),
        }
    }
    match plan(86, [4, 5, 0, 0, 0, 0]) {
        RequestPlan::CaptureLink(found, gap) => {
            assert_eq!(found, argument(-100, 5, false));
            assert_eq!(gap.kind, "hard_link");
            assert_eq!(gap.detail, "link observed; aliases cannot be fully discovered");
        }
        other => panic!("{other:?}"),
    }
    match plan(265, [3, 4, 5, 6, 0, 0]) {
        RequestPlan::CaptureLink(found, gap) => {
            assert_eq!(found, argument(5, 6, false));
            assert_eq!(gap.detail, "linkat observed; aliases cannot be fully discovered");
        }
        other => panic!("{other:?}"),
    }
    for nr in [83, 258, 84] {
        assert!(matches!(plan(nr, [1, 2, 3, 4, 5, 6]), RequestPlan::Nothing));
    }
}

#[test]
fn calls_beyond_tracking_are_gaps() {
    match plan(425, [0; 6]) {
        RequestPlan::Note(gap) => {
            assert_eq!(gap.kind, "io_uring");
            assert_eq!(gap.detail, "io_uring_setup observed; writes may bypass tracked entry points");
        }
        other => panic!("{other:?}"),
    }
    match plan(-1, [0; 6]) {
        RequestPlan::Note(gap) => {
            assert_eq!(gap.kind, "unknown_syscall");
            assert_eq!(gap.detail, "-1");
        }
        other => panic!("{other:?}"),
    }
    match plan(437, [3, 5, 6, 23, 0, 0]) {
        RequestPlan::Note(gap) => {
            assert_eq!(gap.kind, "openat2_size");
            assert_eq!(gap.detail, "open_how size 23 is too small");
        }
        other => panic!("{other:?}"),
    }
}

#[test]
fn open_how_is_read_before_it_is_judged() {
    match plan(437, [3, 5, 6, 24, 0, 0]) {
        RequestPlan::ReadOpenHow { address, argument: found } => {
            assert_eq!(address, 6);
            assert_eq!(found, argument(3, 5, true));
        }
        other => panic!("{other:?}"),
    }
    let (gap, writes) = plan_open_how(&OpenHow { flags: 1, mode: 0, resolve: 0 });
    assert!(gap.is_none());
    assert!(writes);
    let (gap, writes) = plan_open_how(&OpenHow { flags: 0, mode: 0, resolve: 0x18 });
    let gap = gap.unwrap();
    assert_eq!(gap.kind, "openat2_resolve");
    assert_eq!(gap.detail, "unsupported resolve flags 0x18");
    assert!(!writes);
}

#[test]
fn paths_are_read_up_to_the_first_zero() {
    let mut reader = PathReader::new();
    assert_eq!(reader.next_address(10), Some(10));
    assert!(matches!(reader.feed(b"/tmp"), PathStep::More));
    assert_eq!(reader.next_address(10), Some(14));
    match reader.feed(b"/x\0yz\0") {
        PathStep::Complete(path) => assert_eq!(path, b"/tmp/x".to_vec()),
        other => panic!("{other:?}"),
    }
    assert_eq!(PathReader::new().next_address(u64::MAX), Some(u64::MAX));
    assert_eq!(reader.next_address(u64::MAX), None);
}

#[test]
fn endless_paths_are_refused() {
    let message = "pathname is missing NUL terminator or exceeds 64 KiB";
    let mut reader = PathReader::new();
    assert!(matches!(reader.feed(b"/a"), PathStep::More));
    assert!(matches!(reader.feed(b""), PathStep::Failed(text) if text == message));
    let mut reader = PathReader::new();
    let chunk = [b'a'; 256];
    for _ in 0..255 {
        assert!(matches!(reader.feed(&chunk), PathStep::More));
    }
    assert!(matches!(reader.feed(&chunk), PathStep::Failed(text) if text == message));
}

#[test]
fn paths_start_where_the_target_does() {
    assert_eq!(base_link_path(7, -100, b"/abs"), "/proc/7/root");
    assert_eq!(base_link_path(7, -100, b"rel"), "/proc/7/cwd");
    assert_eq!(base_link_path(7, 5, b"rel"), "/proc/7/fd/5");
    assert_eq!(base_link_path(7, -3, b""), "/proc/7/fd/-3");
    assert_eq!(path_from(b"/", b"/a/../b"), b"/b".to_vec());
    assert_eq!(path_from(b"/jail", b"//etc/passwd"), b"/jail/etc/passwd".to_vec());
    assert_eq!(path_from(b"/home/me", b"../you/./f"), b"/home/you/f".to_vec());
    assert_eq!(path_from(b"/home/me", b""), b"/home/me".to_vec());
}

#[test]
fn links_are_followed_as_far_as_they_lead() {
    let path = b"/w/link";
    let done = |step| match step {
        ResolveStep::Done(found) => found,
        other => panic!("{other:?}"),
    };
    let untried = Resolution::Untried;
    assert_eq!(done(resolve_path(path, false, &untried, &untried)), path.to_vec());
    match resolve_path(path, true, &untried, &untried) {
        ResolveStep::Whole(wanted) => assert_eq!(wanted, path.to_vec()),
        other => panic!("{other:?}"),
    }
    let found = Resolution::Found(b"/real".to_vec());
    assert_eq!(done(resolve_path(path, true, &found, &untried)), b"/real".to_vec());
    match resolve_path(path, true, &Resolution::Failed, &untried) {
        ResolveStep::Parent(wanted) => assert_eq!(wanted, b"/w".to_vec()),
        other => panic!("{other:?}"),
    }
    let parent = Resolution::Found(b"/v".to_vec());
    assert_eq!(done(resolve_path(path, true, &Resolution::Failed, &parent)), b"/v/link".to_vec());
    let failed = Resolution::Failed;
    assert_eq!(done(resolve_path(path, true, &failed, &failed)), path.to_vec());
    assert_eq!(done(resolve_path(b"/", true, &failed, &untried)), b"/".to_vec());
}

#[test]
fn descriptors_of_deleted_files_have_no_path() {
    assert_eq!(descriptor_link(7, 3), "/proc/7/fd/3");
    assert_eq!(fd_path(b"/w/a"), Some(b"/w/a".to_vec()));
    assert_eq!(fd_path(b"/w/a (deleted)"), None);
    assert_eq!(fd_path(b" (deleted)"), None);
    assert_eq!(fd_path(b"(deleted)"), Some(b"(deleted)".to_vec()));
    let mut store = store();
    assert!(capture_descriptor(&mut store, 7, 3, b"/w/a (deleted)").is_none());
    assert_eq!(store.gaps()[0].kind, "fd_path");
    assert_eq!(store.gaps()[0].detail, "cannot resolve pid 7 fd 3");
    let pending = capture_descriptor(&mut store, 7, 3, b"/w/a").unwrap();
    assert_eq!(pending.path, b"/w/a".to_vec());
}

#[test]
fn directories_are_gaps_and_files_are_captured() {
    let mut store = store();
    assert!(matches!(capture_argument(&mut store, b"/w/d", true), ArgumentStep::Directory));
    assert_eq!(store.gaps()[0].kind, "directory_operation");
    assert_eq!(store.gaps()[0].detail, "directory mutation at /w/d");
    match capture_argument(&mut store, b"/w/f", false) {
        ArgumentStep::Capture(pending) => assert_eq!(pending.key.relative, b"f".to_vec()),
        other => panic!("{other:?}"),
    }
    assert!(matches!(capture_argument(&mut store, b"/x/f", false), ArgumentStep::Nothing));
}

#[test]
fn writable_streams_are_captured() {
    assert!(stdio_matters(libc::O_WRONLY));
    assert!(!stdio_matters(libc::O_RDONLY));
    assert!(!stdio_matters(-1));
    let mut store = store();
    assert!(capture_stdio(&mut store, 1, &Ok(b"/w/log".to_vec())).is_some());
    assert!(capture_stdio(&mut store, 1, &Ok(b"pipe:[1]".to_vec())).is_none());
    assert!(store.gaps().is_empty());
    assert!(capture_stdio(&mut store, 2, &Err("denied".into())).is_none());
    assert_eq!(store.gaps()[0].kind, "stdio_fd");
    assert_eq!(store.gaps()[0].detail, "cannot inspect fd 2: denied");
}

#[test]
fn vanished_targets_are_passed_over() {
    let mut store = store();
    let request = request(257, [0; 6]);
    assert!(!processing_failed(&mut store, &request, Some(libc::ENOENT), "gone", false));
    assert!(!processing_failed(&mut store, &request, Some(libc::ESRCH), "gone", false));
    assert!(store.gaps().is_empty());
    assert!(processing_failed(&mut store, &request, Some(libc::ENOENT), "gone", true));
    assert!(processing_failed(&mut store, &request, Some(libc::EACCES), "denied", false));
    assert!(processing_failed(&mut store, &request, None, "odd", false));
    assert_eq!(store.gaps().len(), 3);
    assert_eq!(store.gaps()[1].kind, "notification_processing");
    assert_eq!(store.gaps()[1].detail, "pid 42 syscall 257: denied");
    continue_failed(&mut store, "late".into());
    assert_eq!(store.gaps()[3].kind, "notification_continue");
}
