use fs_tracker::capture::{
    capture_content, capture_one, capture_stored, clamp_millis, drain_response, helper_wait,
    journal_entry, journal_failed, normalize, object_digest, object_path, temporary_object_path,
    CaptureOutcome, CaptureRequest, CaptureStep, CaptureStore, ContentStep, FileFacts, FileKind,
    HelperFailure, HelperWait, Lookup, NewObject, PathKey, ResponseEvent, ResponseStep,
};
use fs_tracker::config::{Exclusion, Limits, Root};
use fs_tracker::contracts::{FileState, Gap, ObjectRef};

const HELLO_DIGEST: &str = "2cf24dba5fb0a30e26e83b2ac5b9e29e1b161e5c1fa7425e73043362938b9824";

fn store_with(max_files: usize, max_total_bytes: u64) -> CaptureStore {
    CaptureStore::new(
        b"/out".to_vec(),
        vec![
            Root { id: "main".into(), path: b"/w/main".to_vec() },
            Root { id: "docs".into(), path: b"/w/docs".to_vec() },
        ],
        vec![
            Exclusion { root_id: "main".into(), relative: b".venv".to_vec() },
            Exclusion { root_id: "main".into(), relative: b"gen/cache".to_vec() },
        ],
        vec![".git".into(), "node_modules".into()],
        Limits { max_files, max_file_bytes: 10, max_total_bytes, max_diff_bytes: 100 },
        1_000_000_000,
        2_000_000,
    )
}

fn store() -> CaptureStore {
    store_with(10, 100)
}

fn key(path: &[u8]) -> Option<(String, Vec<u8>)> {
    store().locate(path).map(|found| (found.0.root_id, found.0.relative))
}

fn outcome(state: FileState, captured_bytes: u64, gaps: Vec<Gap>) -> CaptureOutcome {
    CaptureOutcome { state, captured_bytes, gaps }
}

fn kinds(store: &CaptureStore) -> Vec<String> {
    store.gaps().iter().map(|gap| gap.kind.clone()).collect()
}

#[test]
fn normalizes_lexically() {
    assert_eq!(normalize(b"/a/b/../c/./d"), b"/a/c/d".to_vec());
}

#[test]
fn normal_forms_of_odd_paths() {
    assert_eq!(normalize(b""), b"".to_vec());
    assert_eq!(normalize(b"/"), b"/".to_vec());
    assert_eq!(normalize(b"/../.."), b"/".to_vec());
    assert_eq!(normalize(b"a/../.."), b"".to_vec());
    assert_eq!(normalize(b"./a//b/"), b"a/b".to_vec());
    assert_eq!(normalize(b"../x"), b"x".to_vec());
    assert_eq!(normalize(&normalize(b"//x/./y/../z")), b"/x/z".to_vec());
}

#[test]
fn files_are_located_in_their_root() {
    assert_eq!(key(b"/w/main/a/../b.txt"), Some(("main".into(), b"b.txt".to_vec())));
    assert_eq!(key(b"/w/docs/x"), Some(("docs".into(), b"x".to_vec())));
    assert_eq!(key(b"/w/main"), None);
    assert_eq!(key(b"/w/mainly/x"), None);
    assert_eq!(key(b"/w/main/../other/x"), None);
    assert_eq!(store().locate(b"/w/main/./b").map(|found| found.1), Some(b"/w/main/b".to_vec()));
}

#[test]
fn exclusions_leave_out_whole_components_only() {
    assert_eq!(key(b"/w/main/.venv/lib/x"), None);
    assert_eq!(key(b"/w/main/.venv"), None);
    assert!(key(b"/w/main/.venv-old/x").is_some());
    assert!(key(b"/w/main/sub/.venv/x").is_some());
    assert!(key(b"/w/docs/.venv/x").is_some());
    assert_eq!(key(b"/w/main/gen/cache/a"), None);
    assert!(key(b"/w/main/gen/cached").is_some());
}

#[test]
fn recursive_exclusions_match_at_every_depth() {
    assert_eq!(key(b"/w/main/.git/index"), None);
    assert_eq!(key(b"/w/docs/nested/.git/index"), None);
    assert_eq!(key(b"/w/docs/packages/app/node_modules/pkg/index.js"), None);
    assert_eq!(key(b"/w/docs/a/.git"), None);
    assert!(key(b"/w/main/.github/workflows/x").is_some());
    assert!(key(b"/w/main/.gitignore").is_some());
}

#[test]
fn requests_carry_paths_without_loss() {
    let path = vec![b'/', 0xff, 0xfe, b'\n'];
    let request = CaptureRequest::new(b"/out", &path, 1, 2, 3_999_999, None);
    assert_eq!(request.output_base64, "L291dA==");
    assert_eq!(request.path_base64, "L//+Cg==");
    assert_eq!(request.delay_millis, 3);
    let (output, again) = request.paths().unwrap();
    assert_eq!(output, b"/out".to_vec());
    assert_eq!(again, path);
}

#[test]
fn damaged_requests_are_refused() {
    let mut request = CaptureRequest::new(b"/out", b"/p", 1, 2, 0, None);
    request.path_base64 = "*".into();
    assert!(request.paths().is_err());
    request.output_base64 = "=".into();
    assert!(request.paths().is_err());
}

#[test]
fn spans_are_cut_to_milliseconds() {
    assert_eq!(clamp_millis(0), 0);
    assert_eq!(clamp_millis(1_999_999), 1);
    assert_eq!(clamp_millis(u128::MAX), u64::MAX);
}

#[test]
fn the_first_state_of_a_file_is_kept() {
    let mut store = store();
    let pending = store.capture_before(b"/w/main/a").expect("wanted");
    assert_eq!(pending.key, PathKey { root_id: "main".into(), relative: b"a".to_vec() });
    assert_eq!(pending.path, b"/w/main/a".to_vec());
    assert_eq!(pending.request.path_base64, "L3cvbWFpbi9h");
    assert_eq!(pending.request.max_file_bytes, 10);
    assert_eq!(pending.request.max_total_bytes, 100);
    assert_eq!(pending.request.delay_millis, 2);
    assert_eq!(pending.request.journal, Some(pending.key.clone()));
    store.complete_before(&pending.path, Ok(outcome(FileState::Absent, 0, Vec::new())));
    assert!(store.capture_before(b"/w/main/x/../a").is_none());
    let later = FileState::Unavailable { reason: "later".into() };
    store.complete_before(b"/w/main/a", Ok(outcome(later, 5, Vec::new())));
    assert_eq!(store.candidates().len(), 1);
    assert!(matches!(store.candidates()[0].candidate.before, FileState::Absent));
    assert_eq!(store.captured_bytes(), 5);
    assert!(store.gaps().is_empty());
}

#[test]
fn untracked_files_never_become_candidates() {
    let mut store = store();
    assert!(store.capture_before(b"/w/main/.git/x").is_none());
    store.complete_before(b"/w/main/.git/x", Ok(outcome(FileState::Absent, 0, Vec::new())));
    store.complete_before(b"/elsewhere", Ok(outcome(FileState::Absent, 0, Vec::new())));
    assert!(store.candidates().is_empty());
}

#[test]
fn the_limit_on_candidates_leaves_a_gap() {
    let mut store = store_with(1, 100);
    store.complete_before(b"/w/main/a", Ok(outcome(FileState::Absent, 0, Vec::new())));
    assert!(store.capture_before(b"/w/main/b").is_none());
    assert!(store.capture_before(b"/w/main/c").is_none());
    assert_eq!(store.gaps().len(), 1);
    assert_eq!(store.gaps()[0].kind, "file_quota");
    assert_eq!(store.gaps()[0].detail, "candidate limit 1 exceeded");
    assert_eq!(store.candidates().len(), 1);
}

#[test]
fn what_is_left_to_capture_shrinks() {
    let mut store = store_with(10, 7);
    store.complete_before(b"/w/main/a", Ok(outcome(FileState::Absent, 5, Vec::new())));
    assert_eq!(store.capture_request(b"/w/main/b", None).max_total_bytes, 2);
    let state = store.capture_after(b"/w/main/a", Ok(outcome(FileState::Absent, u64::MAX, Vec::new())));
    assert!(matches!(state, FileState::Absent));
    assert_eq!(store.captured_bytes(), u64::MAX);
    assert_eq!(store.capture_request(b"/w/main/b", None).max_total_bytes, 0);
}

#[test]
fn failures_of_the_helper_are_gaps() {
    let mut store = store();
    let timeout = HelperFailure { timed_out: true, message: "capture helper timed out".into() };
    store.complete_before(b"/w/main/a", Err(timeout));
    match &store.candidates()[0].candidate.before {
        FileState::Unavailable { reason } => assert_eq!(reason, "capture_timeout"),
        other => panic!("{other:?}"),
    }
    let broken = HelperFailure { timed_out: false, message: "broken".into() };
    let state = store.capture_after(b"/w/main/a", Err(broken));
    assert!(matches!(state, FileState::Unavailable { reason } if reason == "capture_helper"));
    assert_eq!(store.gaps()[0].detail, "/w/main/a: capture helper timed out");
    assert_eq!(store.gaps()[1].detail, "/w/main/a: broken");
    assert_eq!(kinds(&store), vec!["capture_timeout", "capture_helper"]);
}

#[test]
fn gaps_are_noted_once() {
    let mut store = store();
    let twice = vec![
        Gap { kind: "k".into(), detail: "d".into() },
        Gap { kind: "k".into(), detail: "d".into() },
        Gap { kind: "k".into(), detail: "e".into() },
    ];
    store.gap("k".into(), "e".into());
    let _state = store.capture_after(b"/w/main/a", Ok(outcome(FileState::Absent, 0, twice)));
    let details: Vec<&str> = store.gaps().iter().map(|gap| gap.detail.as_str()).collect();
    assert_eq!(details, vec!["e", "d"]);
}

#[test]
fn the_store_says_what_it_was_made_with() {
    let store = store();
    assert_eq!(store.output(), &b"/out".to_vec());
    assert_eq!(store.max_diff_bytes(), 100);
    assert_eq!(store.capture_timeout(), 1_000_000_000);
    assert_eq!(store.exclusions().len(), 2);
    assert_eq!(store.recursive_exclusions(), &vec![".git".to_string(), "node_modules".to_string()]);
}

fn facts(kind: FileKind, size: u64, mode: u32) -> FileFacts {
    FileFacts { mode, size, kind }
}

#[test]
fn captures_begin_by_what_is_found() {
    let found = |kind, size| Lookup::Found(facts(kind, size, 0o100644));
    match capture_one(b"/p", &found(FileKind::Regular, 10), 10) {
        CaptureStep::ReadFile(facts) => assert_eq!(facts.size, 10),
        other => panic!("{other:?}"),
    }
    match capture_one(b"/p", &found(FileKind::Symlink, 99), 10) {
        CaptureStep::ReadLink(facts) => assert_eq!(facts.mode, 0o100644),
        other => panic!("{other:?}"),
    }
    match capture_one(b"/p", &found(FileKind::Regular, 11), 10) {
        CaptureStep::Done(done) => {
            assert!(matches!(done.state, FileState::Unavailable { reason } if reason == "file_size_quota"));
            assert_eq!(done.gaps[0].kind, "file_size_quota");
            assert_eq!(done.gaps[0].detail, "/p is 11 bytes");
            assert_eq!(done.captured_bytes, 0);
        }
        other => panic!("{other:?}"),
    }
    match capture_one(b"/p", &found(FileKind::Directory, 0), 10) {
        CaptureStep::Done(done) => {
            assert!(done.gaps.is_empty());
            assert!(matches!(done.state, FileState::Unavailable { reason } if reason == "directory_not_reported"));
        }
        other => panic!("{other:?}"),
    }
    match capture_one(b"/dev/x", &found(FileKind::Special, 0), 10) {
        CaptureStep::Done(done) => {
            assert_eq!(done.gaps[0].kind, "special_file");
            assert_eq!(done.gaps[0].detail, "/dev/x");
            assert!(matches!(done.state, FileState::Unavailable { reason } if reason == "special_file_not_captured"));
        }
        other => panic!("{other:?}"),
    }
    match capture_one(b"/p", &Lookup::Absent, 10) {
        CaptureStep::Done(done) => assert!(matches!(done.state, FileState::Absent)),
        other => panic!("{other:?}"),
    }
    match capture_one(b"/p", &Lookup::Failed("denied".into()), 10) {
        CaptureStep::Done(done) => {
            assert!(matches!(done.state, FileState::Unavailable { reason } if reason == "denied"))
        }
        other => panic!("{other:?}"),
    }
}

#[test]
fn invalid_bytes_of_a_path_are_shown_replaced() {
    match capture_one(&[b'/', 0xff], &Lookup::Found(facts(FileKind::Special, 0, 0)), 10) {
        CaptureStep::Done(done) => assert_eq!(done.gaps[0].detail, "/\u{fffd}"),
        other => panic!("{other:?}"),
    }
}

#[test]
fn content_is_named_by_its_digest() {
    match capture_content(Ok(b"hello".to_vec()), 5) {
        ContentStep::Store(object) => {
            assert_eq!(object.digest(), HELLO_DIGEST);
            assert_eq!(object.content(), b"hello");
        }
        other => panic!("{other:?}"),
    }
    match capture_content(Ok(b"hello".to_vec()), 4) {
        ContentStep::Done(done) => {
            assert_eq!(done.gaps[0].kind, "total_byte_quota");
            assert_eq!(done.gaps[0].detail, "capture byte limit exceeded");
            assert!(matches!(done.state, FileState::Unavailable { reason } if reason == "total_byte_quota"));
        }
        other => panic!("{other:?}"),
    }
    match capture_content(Err("unreadable".into()), 4) {
        ContentStep::Done(done) => {
            assert!(done.gaps.is_empty());
            assert!(matches!(done.state, FileState::Unavailable { reason } if reason == "unreadable"));
        }
        other => panic!("{other:?}"),
    }
}

#[test]
fn stored_content_is_found_again() {
    // The size that was looked up may be outdated; that of the content counts.
    let hello = NewObject::new(b"hello".to_vec());
    let outcome =
        capture_stored(b"/p", &facts(FileKind::Regular, 9, 0o100755), &hello, &Ok(()));
    assert_eq!(outcome.captured_bytes, 5);
    let object = match &outcome.state {
        FileState::Present { object } => object,
        other => panic!("{other:?}"),
    };
    assert_eq!(object.object_id, format!("sha256:{HELLO_DIGEST}"));
    assert_eq!(object.mode, "100755");
    assert_eq!(object.size, 5);
    let path = store().read_object(&outcome.state).unwrap().unwrap();
    assert_eq!(path, object_path(b"/out", HELLO_DIGEST));
    assert_eq!(path, format!("/out/objects/{HELLO_DIGEST}").into_bytes());
    let empty = NewObject::new(Vec::new());
    let short = capture_stored(b"/p", &facts(FileKind::Regular, 0, 0o644), &empty, &Ok(()));
    assert_eq!(short.captured_bytes, 0);
    assert!(matches!(short.state, FileState::Present { object } if object.mode == "000644"));
    let failed =
        capture_stored(b"/p", &facts(FileKind::Regular, 5, 0), &hello, &Err("disk full".into()));
    assert_eq!(failed.captured_bytes, 0);
    assert_eq!(failed.gaps[0].kind, "object_write");
    assert_eq!(failed.gaps[0].detail, "/p: disk full");
    assert!(matches!(failed.state, FileState::Unavailable { reason } if reason == "disk full"));
}

#[test]
fn objects_without_a_digest_are_refused() {
    let state = FileState::Present {
        object: ObjectRef { object_id: "md5:1".into(), size: 1, mode: "100644".into() },
    };
    assert_eq!(store().read_object(&state).unwrap_err(), "invalid object identifier");
    assert_eq!(store().read_object(&FileState::Absent).unwrap(), None);
    assert_eq!(object_digest("sha256:"), Some(String::new()));
    assert_eq!(object_digest("sha25"), None);
}

#[test]
fn temporary_objects_belong_to_one_process() {
    assert_eq!(temporary_object_path(b"/out", "ab", 42), b"/out/objects/.ab.42.tmp".to_vec());
}

#[test]
fn the_journal_names_the_file_and_its_state() {
    let key = PathKey { root_id: "main".into(), relative: b"a.py".to_vec() };
    let entry = journal_entry(&key, &FileState::Absent);
    assert_eq!(entry.event, "before_captured");
    assert_eq!(entry.root_id, "main");
    assert_eq!(entry.path_bytes_base64, "YS5weQ==");
    assert_eq!(CaptureStore::path_base64(&key), "YS5weQ==");
    assert!(matches!(entry.before, FileState::Absent));
    let failed = journal_failed(outcome(FileState::Absent, 3, Vec::new()), "full".into());
    assert_eq!(failed.captured_bytes, 3);
    assert_eq!(failed.gaps, vec![Gap { kind: "journal_write".into(), detail: "full".into() }]);
}

#[test]
fn answers_of_the_helper_end_with_a_newline() {
    let mut response = Vec::new();
    let step = drain_response(&mut response, &ResponseEvent::Data(b"{\"a\"".to_vec()));
    assert!(matches!(step, ResponseStep::ReadOn));
    assert!(matches!(drain_response(&mut response, &ResponseEvent::WouldBlock), ResponseStep::Wait));
    assert!(matches!(drain_response(&mut response, &ResponseEvent::Interrupted), ResponseStep::ReadOn));
    let step = drain_response(&mut response, &ResponseEvent::Data(b":1}\n".to_vec()));
    assert!(matches!(step, ResponseStep::Complete));
    assert_eq!(response, b"{\"a\":1}".to_vec());
}

#[test]
fn failing_answers_of_the_helper_are_named() {
    let message = |step| match step {
        ResponseStep::Failed(failure) => {
            let failure: HelperFailure = failure;
            assert!(!failure.timed_out);
            failure.message
        }
        other => panic!("{other:?}"),
    };
    let mut response = vec![b'x'; 1024 * 1024];
    let step = drain_response(&mut response, &ResponseEvent::Data(b"\n".to_vec()));
    assert_eq!(message(step), "capture helper response too large");
    let mut response = Vec::new();
    let step = drain_response(&mut response, &ResponseEvent::Closed);
    assert_eq!(message(step), "capture helper closed stdout");
    let step = drain_response(&mut response, &ResponseEvent::Failed("bad".into()));
    assert_eq!(message(step), "bad");
}

#[test]
fn waiting_for_the_helper_is_bounded() {
    assert!(matches!(helper_wait(0, 1_000_000_000), HelperWait::Poll(50)));
    assert!(matches!(helper_wait(990_000_000, 1_000_000_000), HelperWait::Poll(10)));
    assert!(matches!(helper_wait(999_999_999, 1_000_000_000), HelperWait::Poll(1)));
    match helper_wait(1_000_000_000, 1_000_000_000) {
        HelperWait::TimedOut(failure) => {
            assert!(failure.timed_out);
            assert_eq!(failure.message, "capture helper timed out");
        }
        other => panic!("{other:?}"),
    }
}
