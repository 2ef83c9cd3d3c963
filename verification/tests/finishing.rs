use fs_tracker::capture::{CaptureOutcome, CaptureStore, HelperFailure};
use fs_tracker::config::{Limits, Root};
use fs_tracker::contracts::{ChangeKind, FileState, ObjectRef, RunMetrics, RunState, TargetResult};
use fs_tracker::finishing::{FinishAction, FinishAnswer, Finishing};
use fs_tracker::report::finish;

const ONE: &str = "sha256:1111111111111111111111111111111111111111111111111111111111111111";
const TWO: &str = "sha256:2222222222222222222222222222222222222222222222222222222222222222";

fn present(id: &str, mode: &str) -> FileState {
    FileState::Present { object: ObjectRef { object_id: id.into(), size: 2, mode: mode.into() } }
}

fn captured(state: FileState) -> FinishAnswer {
    FinishAnswer::Captured(outcome(state))
}

fn outcome(state: FileState) -> Result<CaptureOutcome, HelperFailure> {
    Ok(CaptureOutcome { state, captured_bytes: 2, gaps: Vec::new() })
}

fn store(files: &[(&str, FileState)]) -> CaptureStore {
    let mut store = CaptureStore::new(
        b"/out".to_vec(),
        vec![Root { id: "main".into(), path: b"/w".to_vec() }],
        Vec::new(),
        Vec::new(),
        Limits::default(),
        1,
        0,
    );
    for (path, state) in files {
        store.complete_before(path.as_bytes(), outcome(state.clone()));
    }
    store
}

fn ended() -> TargetResult {
    TargetResult { exit_code: Some(0), signal: None }
}

#[test]
fn a_run_without_candidates_is_done_at_once() {
    let mut store = store(&[]);
    let finishing = Finishing::new(&store);
    assert!(matches!(finishing.next(&store), FinishAction::Done));
    let finishing = finishing.record(&mut store, captured(FileState::Absent));
    assert!(matches!(finishing.next(&store), FinishAction::Done));
    assert_eq!(store.captured_bytes(), 0);
}

#[test]
fn every_candidate_is_captured_and_read_where_it_changed() {
    let mut store = store(&[
        ("/w/c", present(ONE, "100644")),
        ("/w/b", present(ONE, "100644")),
        ("/w/a", FileState::Absent),
    ]);
    let mut finishing = Finishing::new(&store);
    // a: not there before, there now.
    match finishing.next(&store) {
        FinishAction::Capture(request) => {
            assert_eq!(request.path_base64, "L3cvYQ==");
            assert_eq!(request.output_base64, "L291dA==");
            assert!(request.journal.is_none());
        }
        other => panic!("{other:?}"),
    }
    finishing = finishing.record(&mut store, captured(present(TWO, "100644")));
    assert!(matches!(finishing.next(&store), FinishAction::Read(None)));
    finishing = finishing.record(&mut store, FinishAnswer::Content(Vec::new()));
    let place = store.read_object(&present(TWO, "100644")).unwrap();
    assert!(place.is_some());
    match finishing.next(&store) {
        FinishAction::Read(path) => assert_eq!(path, place),
        other => panic!("{other:?}"),
    }
    finishing = finishing.record(&mut store, FinishAnswer::Content(b"y\n".to_vec()));
    // b: only its mode has changed, so nothing is read.
    assert!(matches!(finishing.next(&store), FinishAction::Capture(_)));
    finishing = finishing.record(&mut store, captured(present(ONE, "100755")));
    // c: as it was.
    match finishing.next(&store) {
        FinishAction::Capture(request) => assert_eq!(request.path_base64, "L3cvYw=="),
        other => panic!("{other:?}"),
    }
    finishing = finishing.record(&mut store, captured(present(ONE, "100644")));
    assert!(matches!(finishing.next(&store), FinishAction::Done));
    let finished = finish(&store, finishing.into_draft(), ended(), RunMetrics::default());
    let changes: Vec<(&str, ChangeKind)> = finished
        .report
        .changes
        .iter()
        .map(|change| (change.path_bytes_base64.as_str(), change.kind))
        .collect();
    assert_eq!(changes, vec![("YQ==", ChangeKind::Added), ("Yg==", ChangeKind::ModeChanged)]);
    assert_eq!(finished.report.state, RunState::Finished);
    assert_eq!(finished.report.metrics.candidate_paths, 3);
    assert_eq!(finished.report.metrics.captured_bytes, 12);
    let patch = String::from_utf8(finished.patch.bytes).unwrap();
    assert!(patch.ends_with("+y\n"), "{patch}");
}

#[test]
fn both_contents_are_read_that_before_the_run_first() {
    let mut store = store(&[("/w/a", present(ONE, "100644"))]);
    let finishing = Finishing::new(&store);
    let finishing = finishing.record(&mut store, captured(present(TWO, "100644")));
    let before = store.read_object(&present(ONE, "100644")).unwrap();
    match finishing.next(&store) {
        FinishAction::Read(path) => assert_eq!(path, before),
        other => panic!("{other:?}"),
    }
    let finishing = finishing.record(&mut store, FinishAnswer::Content(b"x\n".to_vec()));
    let finishing = finishing.record(&mut store, FinishAnswer::Content(b"y\n".to_vec()));
    assert!(matches!(finishing.next(&store), FinishAction::Done));
    let finished = finish(&store, finishing.into_draft(), ended(), RunMetrics::default());
    let patch = String::from_utf8(finished.patch.bytes).unwrap();
    assert!(patch.contains("-x\n+y\n"), "{patch}");
}

#[test]
fn an_answer_to_something_else_changes_nothing() {
    let mut store = store(&[("/w/a", present(ONE, "100644"))]);
    let finishing = Finishing::new(&store);
    let finishing = finishing.record(&mut store, FinishAnswer::Content(b"x".to_vec()));
    assert!(matches!(finishing.next(&store), FinishAction::Capture(_)));
    let finishing = finishing.record(&mut store, captured(present(TWO, "100644")));
    let bytes = store.captured_bytes();
    let finishing = finishing.record(&mut store, captured(FileState::Absent));
    assert!(matches!(finishing.next(&store), FinishAction::Read(Some(_))));
    assert_eq!(store.captured_bytes(), bytes);
}

#[test]
fn a_misnamed_object_ends_the_run() {
    let mut store = store(&[("/w/a", present("md5:1", "100644"))]);
    let finishing = Finishing::new(&store);
    let finishing = finishing.record(&mut store, captured(present(TWO, "100644")));
    match finishing.next(&store) {
        FinishAction::Fail(reason) => assert_eq!(reason, "invalid object identifier"),
        other => panic!("{other:?}"),
    }
}

#[test]
fn a_failed_capture_at_the_end_makes_the_report_partial() {
    let mut store = store(&[("/w/a", present(ONE, "100644"))]);
    let finishing = Finishing::new(&store);
    let failure = HelperFailure { timed_out: true, message: "late".into() };
    let finishing = finishing.record(&mut store, FinishAnswer::Captured(Err(failure)));
    let finishing = finishing.record(&mut store, FinishAnswer::Content(b"x\n".to_vec()));
    let finishing = finishing.record(&mut store, FinishAnswer::Content(Vec::new()));
    assert!(matches!(finishing.next(&store), FinishAction::Done));
    let finished = finish(&store, finishing.into_draft(), ended(), RunMetrics::default());
    assert_eq!(finished.report.state, RunState::Partial);
    assert_eq!(finished.report.changes.len(), 1);
    assert_eq!(finished.report.coverage.gaps[0].kind, "capture_timeout");
}
