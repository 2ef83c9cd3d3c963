use fs_tracker::capture::{CaptureOutcome, CaptureStore, HelperFailure};
use fs_tracker::config::{Limits, Root};
use fs_tracker::contracts::FileState;
use fs_tracker::handling::{Handling, HandlingAction, HandlingAnswer};
use fs_tracker::linux::{LegacyNumbers, Notification, SeccompData, SyscallTable};
use fs_tracker::request::OpenHow;

fn table() -> SyscallTable {
    SyscallTable {
        openat: 257,
        openat2: 437,
        truncate: 76,
        ftruncate: 77,
        unlinkat: 263,
        renameat: 264,
        renameat2: 316,
        fchmod: 91,
        fchmodat: 268,
        symlinkat: 266,
        linkat: 265,
        mkdirat: 258,
        io_uring_setup: 425,
        legacy: Some(LegacyNumbers {
            open: 2,
            unlink: 87,
            rename: 82,
            chmod: 90,
            symlink: 88,
            link: 86,
            mkdir: 83,
            rmdir: 84,
        }),
    }
}

fn request(nr: i32, args: [u64; 6]) -> Notification {
    Notification {
        id: 1,
        pid: 42,
        flags: 0,
        data: SeccompData { nr, arch: 0, instruction_pointer: 0, args },
    }
}

fn store(max_files: usize) -> CaptureStore {
    CaptureStore::new(
        b"/out".to_vec(),
        vec![Root { id: "main".into(), path: b"/w".to_vec() }],
        Vec::new(),
        Vec::new(),
        Limits { max_files, ..Limits::default() },
        1,
        0,
    )
}

fn absent() -> Result<CaptureOutcome, HelperFailure> {
    Ok(CaptureOutcome { state: FileState::Absent, captured_bytes: 0, gaps: Vec::new() })
}

/// A machine as a system call meets it: the texts in the target's memory, what links point to,
/// the paths that have a canonical form, and the directories.
struct Machine {
    memory: Vec<(u64, &'static str)>,
    links: Vec<(&'static str, &'static str)>,
    canonical: Vec<(&'static str, &'static str)>,
    directories: Vec<&'static str>,
    how: OpenHow,
}

fn machine() -> Machine {
    Machine {
        memory: Vec::new(),
        links: vec![("/proc/42/cwd", "/w"), ("/proc/42/root", "/"), ("/proc/42/fd/5", "/w/dir")],
        canonical: Vec::new(),
        directories: Vec::new(),
        how: OpenHow { flags: 0, mode: 0, resolve: 0 },
    }
}

fn look_up<K: PartialEq, V: Copy>(list: &[(K, V)], wanted: &K) -> Option<V> {
    list.iter().find(|(key, _)| key == wanted).map(|(_, value)| *value)
}

/// Handles a system call; gives what was done, and the message where it failed.
fn handle(
    machine: &Machine,
    store: &mut CaptureStore,
    call: Notification,
) -> (Vec<String>, Option<String>) {
    let mut work = Handling::new(&call, &table(), store);
    let mut done = Vec::new();
    loop {
        let answer = match work.next(store) {
            HandlingAction::ReadMemory { address } => {
                done.push(format!("memory {address}"));
                let text = look_up(&machine.memory, &address).unwrap_or("");
                HandlingAnswer::Memory(text.as_bytes().to_vec())
            }
            HandlingAction::ReadOpenHow { address } => {
                done.push(format!("how {address}"));
                HandlingAnswer::OpenHow(machine.how)
            }
            HandlingAction::ReadLink(link) => {
                let found = look_up(&machine.links, &link.as_str()).unwrap();
                done.push(format!("link {link}"));
                HandlingAnswer::Link(found.as_bytes().to_vec())
            }
            HandlingAction::Canonicalize(path) => {
                let path = String::from_utf8(path).unwrap();
                let found = look_up(&machine.canonical, &path.as_str());
                done.push(format!("canonical {path}"));
                HandlingAnswer::Canonical(found.map(|found| found.as_bytes().to_vec()))
            }
            HandlingAction::Inspect(path) => {
                let path = String::from_utf8(path).unwrap();
                done.push(format!("inspect {path}"));
                HandlingAnswer::Directory(machine.directories.contains(&path.as_str()))
            }
            HandlingAction::Capture(order) => {
                done.push(format!("capture {}", order.journal.is_some()));
                HandlingAnswer::Captured(absent())
            }
            HandlingAction::Fail(message) => return (done, Some(message)),
            HandlingAction::Done => return (done, None),
        };
        work = work.record(store, answer);
    }
}

fn candidates(store: &CaptureStore) -> Vec<String> {
    store
        .candidates()
        .iter()
        .map(|file| String::from_utf8(file.key.relative.clone()).unwrap())
        .collect()
}

#[test]
fn an_open_for_writing_captures_its_file_first() {
    let mut machine = machine();
    machine.memory = vec![(100, "sub"), (103, "/a\0rest")];
    machine.canonical = vec![("/w/sub/a", "/w/real")];
    let mut store = store(10);
    let open = request(257, [-100i64 as u64, 100, 1, 0, 0, 0]);
    assert_eq!(
        handle(&machine, &mut store, open),
        (
            vec![
                "memory 100".to_string(),
                "memory 103".to_string(),
                "link /proc/42/cwd".to_string(),
                "canonical /w/sub/a".to_string(),
                "inspect /w/real".to_string(),
                "capture true".to_string(),
            ],
            None
        )
    );
    assert_eq!(candidates(&store), vec!["real"]);
    // The second time there is nothing to be captured.
    let (done, failure) = handle(&machine, &mut store, open);
    assert_eq!(done.len(), 5);
    assert!(failure.is_none());
}

#[test]
fn an_open_for_reading_goes_on_at_once() {
    let mut store = store(10);
    let open = request(257, [-100i64 as u64, 100, 0, 0, 0, 0]);
    assert_eq!(handle(&machine(), &mut store, open), (Vec::new(), None));
    let unknown = request(999, [0; 6]);
    assert_eq!(handle(&machine(), &mut store, unknown), (Vec::new(), None));
    assert_eq!(store.gaps()[0].kind, "unknown_syscall");
    assert_eq!(store.gaps()[0].detail, "999");
}

#[test]
fn a_rename_captures_both_names() {
    let mut machine = machine();
    machine.memory = vec![(1, "old\0"), (2, "new\0")];
    let mut store = store(10);
    let rename = request(264, [5, 1, -100i64 as u64, 2, 0, 0]);
    assert_eq!(
        handle(&machine, &mut store, rename).0,
        vec![
            "memory 1",
            "link /proc/42/fd/5",
            "inspect /w/dir/old",
            "capture true",
            "memory 2",
            "link /proc/42/cwd",
            "inspect /w/new",
            "capture true",
        ]
    );
    assert_eq!(candidates(&store), vec!["dir/old", "new"]);
}

#[test]
fn a_renamed_directory_is_noted_and_its_new_name_left_alone() {
    let mut machine = machine();
    machine.memory = vec![(1, "old\0"), (2, "new\0")];
    machine.directories = vec!["/w/old"];
    let mut store = store(10);
    let (done, failure) = handle(&machine, &mut store, request(82, [1, 2, 0, 0, 0, 0]));
    assert_eq!(done, vec!["memory 1", "link /proc/42/cwd", "inspect /w/old"]);
    assert!(failure.is_none());
    assert_eq!(store.gaps().len(), 1);
    assert_eq!(store.gaps()[0].detail, "directory mutation at /w/old");
    assert!(candidates(&store).is_empty());
}

#[test]
fn a_hard_link_is_captured_and_noted() {
    let mut machine = machine();
    machine.memory = vec![(2, "/w/name\0")];
    let mut store = store(10);
    let (done, _) = handle(&machine, &mut store, request(86, [1, 2, 0, 0, 0, 0]));
    assert_eq!(
        done,
        vec!["memory 2", "link /proc/42/root", "inspect /w/name", "capture true"]
    );
    assert_eq!(candidates(&store), vec!["name"]);
    assert_eq!(store.gaps()[0].kind, "hard_link");
}

#[test]
fn a_descriptor_is_captured_by_its_path() {
    let mut machine = machine();
    machine.links.push(("/proc/42/fd/3", "/w/open"));
    machine.links.push(("/proc/42/fd/4", "/w/gone (deleted)"));
    let mut store = store(10);
    let (done, _) = handle(&machine, &mut store, request(77, [3, 0, 0, 0, 0, 0]));
    assert_eq!(done, vec!["link /proc/42/fd/3", "capture true"]);
    assert_eq!(candidates(&store), vec!["open"]);
    let (done, _) = handle(&machine, &mut store, request(91, [4, 0, 0, 0, 0, 0]));
    assert_eq!(done, vec!["link /proc/42/fd/4"]);
    assert_eq!(store.gaps()[0].detail, "cannot resolve pid 42 fd 4");
}

#[test]
fn an_open_how_decides_on_the_capture() {
    let mut machine = machine();
    machine.memory = vec![(1, "a\0")];
    machine.how = OpenHow { flags: 0, mode: 0, resolve: 8 };
    let mut store = store(10);
    let open = request(437, [-100i64 as u64, 1, 7, 24, 0, 0]);
    assert_eq!(handle(&machine, &mut store, open).0, vec!["how 7"]);
    assert_eq!(store.gaps()[0].kind, "openat2_resolve");
    machine.how = OpenHow { flags: 0o100, mode: 0, resolve: 0 };
    let (done, _) = handle(&machine, &mut store, open);
    // Neither the path nor its directory has a canonical form.
    assert_eq!(
        done,
        vec![
            "how 7",
            "memory 1",
            "link /proc/42/cwd",
            "canonical /w/a",
            "canonical /w",
            "inspect /w/a",
            "capture true",
        ]
    );
    assert_eq!(candidates(&store), vec!["a"]);
}

#[test]
fn a_path_without_an_end_cannot_be_handled() {
    let endless = Some("pathname is missing NUL terminator or exceeds 64 KiB".to_string());
    let mut machine = machine();
    machine.memory = vec![(1, "ab")];
    let mut store = store(10);
    let call = request(76, [1, 0, 0, 0, 0, 0]);
    assert_eq!(
        handle(&machine, &mut store, call),
        (vec!["memory 1".to_string(), "memory 3".to_string()], endless.clone())
    );
    machine.memory = vec![(u64::MAX, "ab")];
    let call = request(76, [u64::MAX, 0, 0, 0, 0, 0]);
    let (_, failure) = handle(&machine, &mut store, call);
    assert_eq!(failure, endless);
}

#[test]
fn a_file_without_room_is_noted() {
    let mut machine = machine();
    machine.memory = vec![(1, "a\0"), (2, "b\0"), (3, "/elsewhere\0")];
    let mut store = store(1);
    for address in 1..4 {
        let (_, failure) = handle(&machine, &mut store, request(87, [address, 0, 0, 0, 0, 0]));
        assert!(failure.is_none());
    }
    assert_eq!(candidates(&store), vec!["a"]);
    assert_eq!(store.gaps().len(), 1);
    assert_eq!(store.gaps()[0].kind, "file_quota");
}

#[test]
fn answers_to_something_else_are_passed_over() {
    let mut store = store(10);
    let work = Handling::new(&request(76, [1, 0, 0, 0, 0, 0]), &table(), &mut store);
    let work = work.record(&mut store, HandlingAnswer::Directory(true));
    let work = work.record(&mut store, HandlingAnswer::Captured(absent()));
    assert!(matches!(work.next(&store), HandlingAction::ReadMemory { address: 1 }));
    assert!(store.gaps().is_empty());
}
