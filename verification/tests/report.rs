use fs_tracker::capture::{CaptureOutcome, CaptureStore, PathKey};
use fs_tracker::config::{Exclusion, Limits, Root};
use fs_tracker::contracts::{
    ChangeKind, FileState, ObjectRef, RunMetrics, RunState, Status, TargetResult, POLICY_VERSION,
    SCHEMA_VERSION,
};
use fs_tracker::report::{
    atomic_json, classify, content_needed, create_diff, diagnostics, encoded_path, finish,
    patch_path, publish_status, sorted_candidates, Observation, ReportDraft,
};

fn present(id: &str, mode: &str) -> FileState {
    FileState::Present {
        object: ObjectRef { object_id: id.into(), size: 1, mode: mode.into() },
    }
}

fn unavailable() -> FileState {
    FileState::Unavailable { reason: "x".into() }
}

fn store() -> CaptureStore {
    CaptureStore::new(
        b"/out".to_vec(),
        vec![Root { id: "main".into(), path: b"/w".to_vec() }],
        vec![Exclusion { root_id: "main".into(), relative: b".venv".to_vec() }],
        vec![".git".into()],
        Limits::default(),
        1,
        0,
    )
}

fn seen(relative: &str, before: (FileState, &str), after: (FileState, &str)) -> Observation {
    Observation {
        key: PathKey { root_id: "main".into(), relative: relative.as_bytes().to_vec() },
        before: before.0,
        after: after.0,
        before_bytes: before.1.as_bytes().to_vec(),
        after_bytes: after.1.as_bytes().to_vec(),
    }
}

fn ended() -> TargetResult {
    TargetResult { exit_code: Some(0), signal: None }
}

#[test]
fn eliminates_no_change() {
    assert!(classify(&present("x", "100644"), &present("x", "100644")).is_none());
    assert!(matches!(
        classify(&present("x", "100644"), &present("x", "100755")),
        Some(ChangeKind::ModeChanged)
    ));
}

#[test]
fn changes_are_told_apart() {
    assert!(classify(&FileState::Absent, &FileState::Absent).is_none());
    assert_eq!(classify(&FileState::Absent, &present("x", "m")), Some(ChangeKind::Added));
    assert_eq!(classify(&present("x", "m"), &FileState::Absent), Some(ChangeKind::Deleted));
    assert_eq!(classify(&present("x", "m"), &present("y", "m")), Some(ChangeKind::Modified));
    assert_eq!(classify(&unavailable(), &unavailable()), Some(ChangeKind::Modified));
    assert_eq!(classify(&FileState::Absent, &unavailable()), Some(ChangeKind::Modified));
}

#[test]
fn content_is_read_only_where_it_is_shown() {
    assert!(!content_needed(&present("x", "a"), &present("x", "b")));
    assert!(!content_needed(&FileState::Absent, &FileState::Absent));
    assert!(content_needed(&present("x", "a"), &present("y", "a")));
    assert!(content_needed(&FileState::Absent, &present("y", "a")));
}

#[test]
fn texts_are_shown_as_a_unified_diff() {
    let diff = create_diff(
        b"a.txt",
        &present("x", "m"),
        &present("y", "m"),
        b"one\ntwo\n",
        b"one\nthree\n",
        1000,
    );
    let patch = String::from_utf8(diff.patch.unwrap()).unwrap();
    assert_eq!(patch, "--- a/a.txt\n+++ b/a.txt\n@@ -1,2 +1,2 @@\n one\n-two\n+three\n");
    assert_eq!(diff.kind, "unified");
    assert!(!diff.truncated);
    assert_eq!(diff.reason, None);
}

#[test]
fn long_diffs_are_cut() {
    let diff =
        create_diff(b"a", &FileState::Absent, &present("y", "m"), b"", b"one\n", 5);
    assert_eq!(diff.patch.unwrap(), b"--- a".to_vec());
    assert!(diff.truncated);
    let whole =
        create_diff(b"a", &FileState::Absent, &present("y", "m"), b"", b"one\n", 1000);
    let length = whole.patch.unwrap().len();
    let exact =
        create_diff(b"a", &FileState::Absent, &present("y", "m"), b"", b"one\n", length);
    assert!(!exact.truncated);
}

#[test]
fn binary_contents_are_not_shown() {
    let not_text = create_diff(b"a", &present("x", "m"), &present("y", "m"), &[0xff], b"", 10);
    assert_eq!(not_text.patch, None);
    assert_eq!(not_text.kind, "binary");
    assert_eq!(not_text.reason.as_deref(), Some("not_valid_utf8"));
    let zero = create_diff(b"a", &present("x", "m"), &present("y", "m"), b"", &[0], 10);
    assert_eq!(zero.reason.as_deref(), Some("nul_byte"));
    let same = create_diff(b"a", &present("x", "m"), &present("x", "n"), &[0xff], b"", 10);
    assert_eq!(same.kind, "metadata");
    assert_eq!(same.reason, None);
}

#[test]
fn reverted_and_transient_files_are_not_reported() {
    let mut draft = ReportDraft::new();
    draft.observe(seen("reverted.txt", (present("s", "m"), ""), (present("s", "m"), "")), 100);
    draft.observe(seen("transient.txt", (FileState::Absent, ""), (FileState::Absent, "")), 100);
    let finished = finish(&store(), draft, ended(), RunMetrics::default());
    assert!(finished.report.changes.is_empty());
    assert!(finished.patch.bytes.is_empty());
    assert_eq!(finished.report.state, RunState::Finished);
    assert_eq!(finished.report.metrics.final_changes, 0);
}

#[test]
fn diffs_lie_one_behind_the_other_in_the_patch() {
    let mut draft = ReportDraft::new();
    draft.observe(seen("b.txt", (present("1", "m"), "x\n"), (present("2", "m"), "y\n")), 1000);
    draft.observe(seen("mode.txt", (present("3", "a"), ""), (present("3", "b"), "")), 1000);
    draft.observe(seen("a.txt", (FileState::Absent, ""), (present("4", "m"), "new\n")), 1000);
    let finished = finish(&store(), draft, ended(), RunMetrics::default());
    let paths: Vec<Option<String>> =
        finished.report.changes.iter().map(|change| change.display_path.clone()).collect();
    assert_eq!(
        paths,
        vec![Some("a.txt".to_string()), Some("b.txt".to_string()), Some("mode.txt".to_string())]
    );
    let slice = |index: usize| {
        let diff = &finished.report.changes[index].diff;
        let start = diff.patch_offset.unwrap() as usize;
        let end = start + diff.patch_bytes.unwrap() as usize;
        String::from_utf8(finished.patch.bytes[start..end].to_vec()).unwrap()
    };
    assert_eq!(slice(0), "--- a/a.txt\n+++ b/a.txt\n@@ -0,0 +1 @@\n+new\n");
    assert_eq!(slice(1), "--- a/b.txt\n+++ b/b.txt\n@@ -1 +1 @@\n-x\n+y\n");
    let first = &finished.report.changes[1].diff;
    assert_eq!(first.patch_offset, Some(0));
    assert_eq!(
        finished.report.changes[0].diff.patch_offset,
        finished.report.changes[1].diff.patch_bytes
    );
    let mode = &finished.report.changes[2];
    assert_eq!(mode.kind, ChangeKind::ModeChanged);
    assert_eq!(mode.diff.kind, "metadata");
    assert_eq!(mode.diff.patch_bytes, None);
    assert_eq!(finished.patch.path, b"/out/changes.patch".to_vec());
    assert_eq!(finished.patch.temporary, b"/out/.changes.patch.tmp".to_vec());
}

#[test]
fn names_that_are_not_text_have_no_display_path() {
    let mut draft = ReportDraft::new();
    let mut odd = seen("", (FileState::Absent, ""), (present("1", "m"), ""));
    odd.key.relative = vec![0xff];
    draft.observe(odd, 1000);
    let finished = finish(&store(), draft, ended(), RunMetrics::default());
    assert_eq!(finished.report.changes[0].display_path, None);
    assert_eq!(finished.report.changes[0].path_bytes_base64, "/w==");
}

#[test]
fn the_report_says_what_it_covers() {
    let metrics = RunMetrics {
        elapsed_ms: 5,
        notifications_received: 6,
        queue_bypassed: 0,
        candidate_paths: 99,
        captured_bytes: 99,
        final_changes: 99,
    };
    let mut store = store();
    let absent = CaptureOutcome { state: FileState::Absent, captured_bytes: 4, gaps: Vec::new() };
    store.complete_before(b"/w/a", Ok(absent));
    let finished = finish(&store, ReportDraft::new(), ended(), metrics);
    let report = &finished.report;
    assert_eq!(report.schema_version, SCHEMA_VERSION);
    assert_eq!(report.schema_version, 1);
    assert_eq!(report.coverage.policy_version, POLICY_VERSION);
    assert_eq!(report.coverage.policy_version, 2);
    assert_eq!(report.assurance, "best_effort");
    assert_eq!(report.target.exit_code, Some(0));
    assert_eq!(report.coverage.external_writers, "not_observed_or_controlled");
    assert_eq!(report.coverage.supported_operations.len(), 6);
    assert_eq!(report.coverage.supported_operations[3], "rename/renameat/renameat2");
    assert_eq!(report.coverage.unsupported_features.len(), 5);
    assert_eq!(report.coverage.configured_exclusions[0].display_path, ".venv");
    assert_eq!(report.coverage.configured_exclusions[0].path_bytes_base64, "LnZlbnY=");
    assert_eq!(report.coverage.configured_recursive_exclusions, vec![".git".to_string()]);
    assert_eq!(report.metrics.elapsed_ms, 5);
    assert_eq!(report.metrics.notifications_received, 6);
    assert_eq!(report.metrics.candidate_paths, 1);
    assert_eq!(report.metrics.captured_bytes, 4);
    assert_eq!(report.metrics.final_changes, 0);
    assert_eq!(report.state, RunState::Finished);
    assert_eq!(finished.status.state, RunState::Finished);
    assert_eq!(finished.status.target.unwrap().exit_code, Some(0));
}

#[test]
fn gaps_and_unknown_states_make_a_report_partial() {
    let mut gapped = store();
    gapped.gap("file_size_quota".into(), "x".into());
    let finished = finish(&gapped, ReportDraft::new(), ended(), RunMetrics::default());
    assert_eq!(finished.report.state, RunState::Partial);
    assert_eq!(finished.status.state, RunState::Partial);
    assert_eq!(finished.report.coverage.gaps[0].kind, "file_size_quota");
    let mut draft = ReportDraft::new();
    draft.observe(seen("a", (unavailable(), ""), (FileState::Absent, "")), 10);
    let finished = finish(&store(), draft, ended(), RunMetrics::default());
    assert_eq!(finished.report.state, RunState::Partial);
    let mut draft = ReportDraft::new();
    draft.observe(seen("a", (FileState::Absent, ""), (unavailable(), "")), 10);
    let finished = finish(&store(), draft, ended(), RunMetrics::default());
    assert_eq!(finished.report.state, RunState::Partial);
}

#[test]
fn a_copy_of_a_report_says_the_same() {
    let mut draft = ReportDraft::new();
    draft.observe(seen("a.txt", (FileState::Absent, ""), (present("4", "m"), "new\n")), 1000);
    let mut store = store();
    store.gap("kind".into(), "detail".into());
    let report = finish(&store, draft, ended(), RunMetrics::default()).report;
    assert_eq!(report.changes.len(), 1);
    assert_eq!(format!("{:?}", report.clone()), format!("{report:?}"));
}

#[test]
fn candidates_come_in_the_order_of_their_files() {
    let mut store = store();
    for name in ["b", "a/z", "a", "A"] {
        let absent = CaptureOutcome { state: FileState::Absent, captured_bytes: 0, gaps: Vec::new() };
        store.complete_before(format!("/w/{name}").as_bytes(), Ok(absent));
    }
    let names: Vec<Vec<u8>> =
        sorted_candidates(&store).into_iter().map(|file| file.key.relative).collect();
    assert_eq!(names, vec![b"A".to_vec(), b"a".to_vec(), b"a/z".to_vec(), b"b".to_vec()]);
}

#[test]
fn documents_are_written_beside_and_renamed() {
    let write = publish_status(b"/out", b"{}".to_vec());
    assert_eq!(write.path, b"/out/status.json".to_vec());
    assert_eq!(write.temporary, b"/out/.status.json.tmp".to_vec());
    assert_eq!(write.bytes, b"{}\n".to_vec());
    let write = atomic_json(b"/out", "report.json", b"[]".to_vec());
    assert_eq!(write.path, b"/out/report.json".to_vec());
    assert_eq!(write.bytes, b"[]\n".to_vec());
    let write = diagnostics(b"/out", &vec![b"1".to_vec(), b"2".to_vec()]);
    assert_eq!(write.path, b"/out/diagnostics.jsonl".to_vec());
    assert_eq!(write.bytes, b"1\n2\n".to_vec());
    assert_eq!(patch_path(b"/out"), b"/out/changes.patch".to_vec());
    assert_eq!(encoded_path(b"/x"), b"/x");
}

#[test]
fn a_status_carries_the_fixed_assurance() {
    let status = Status::new(RunState::Failed, Some("no".into()), None);
    assert_eq!(status.schema_version, 1);
    assert_eq!(status.assurance, "best_effort");
    assert_eq!(status.message.as_deref(), Some("no"));
    assert!(status.target.is_none());
    assert_eq!(status.clone().state, RunState::Failed);
}
