use base64::engine::general_purpose::STANDARD;
use base64::Engine;
use fs_tracker::capture::{
    capture_content, capture_stored, CaptureOutcome, CaptureStore, ContentStep, FileFacts,
    FileKind, HelperFailure,
};
use fs_tracker::config::{
    check_policy, check_roots, parse_exclusions, parse_recursive_exclusions, Limits, Policy,
    PolicyPair, Root, RootsStep,
};
use fs_tracker::contracts::{
    ChangeKind, FileState, Gap, ObjectRef, Report, RunMetrics, RunState, TargetResult,
};
use fs_tracker::finishing::{FinishAction, FinishAnswer, Finishing};
use fs_tracker::report::{finish, ReportDraft};
use fs_tracker::supervisor::{ListenerOutcome, RunAction, RunEvent, Supervisor};

/// A file of a scenario: its name, and its content and mode before and after.
struct File {
    name: &'static str,
    before: Option<(&'static str, &'static str)>,
    after: Option<(&'static str, &'static str)>,
}

fn state(file: Option<(&str, &str)>) -> FileState {
    let Some((content, mode)) = file else {
        return FileState::Absent;
    };
    let digest = match capture_content(Ok(content.as_bytes().to_vec()), 1000) {
        ContentStep::Store(object) => object.digest().to_string(),
        other => panic!("{other:?}"),
    };
    FileState::Present {
        object: ObjectRef {
            object_id: format!("sha256:{digest}"),
            size: content.len() as u64,
            mode: mode.into(),
        },
    }
}

fn captured(file: Option<(&str, &str)>) -> Result<CaptureOutcome, HelperFailure> {
    let captured_bytes = file.map_or(0, |(content, _)| content.len() as u64);
    Ok(CaptureOutcome { state: state(file), captured_bytes, gaps: Vec::new() })
}

fn store(root: &str, exclusions: &[&str], names: &[&str]) -> CaptureStore {
    let roots = vec![Root { id: "main".into(), path: root.as_bytes().to_vec() }];
    let values: Vec<String> = exclusions.iter().map(|value| format!("main={value}")).collect();
    let names: Vec<String> = names.iter().map(|name| name.to_string()).collect();
    let exclusions = parse_exclusions(&values, &roots).unwrap();
    let names = parse_recursive_exclusions(&names).unwrap();
    CaptureStore::new(b"/out".to_vec(), roots, exclusions, names, Limits::default(), 1, 0)
}

/// The report of a run that touches the files.
fn report(mut store: CaptureStore, root: &str, files: &[File]) -> Report {
    for file in files {
        let path = format!("{root}/{}", file.name);
        if let Some(pending) = store.capture_before(path.as_bytes()) {
            store.complete_before(&pending.path, captured(file.before));
        }
    }
    let mut finishing = Finishing::new(&store);
    loop {
        let answer = match finishing.next(&store) {
            FinishAction::Capture(request) => {
                let path = STANDARD.decode(request.path_base64).unwrap();
                let path = String::from_utf8(path).unwrap();
                let file = files.iter().find(|file| path == format!("{root}/{}", file.name));
                FinishAnswer::Captured(captured(file.unwrap().after))
            }
            FinishAction::Read(None) => FinishAnswer::Content(Vec::new()),
            FinishAction::Read(path) => FinishAnswer::Content(
                files
                    .iter()
                    .flat_map(|file| [file.before, file.after])
                    .find(|side| store.read_object(&state(*side)).unwrap() == path)
                    .flatten()
                    .map(|(content, _)| content.as_bytes().to_vec())
                    .unwrap(),
            ),
            FinishAction::Fail(reason) => panic!("{reason}"),
            FinishAction::Done => break,
        };
        finishing = finishing.record(&mut store, answer);
    }
    let draft = finishing.into_draft();
    let target = TargetResult { exit_code: Some(0), signal: None };
    finish(&store, draft, target, RunMetrics::default()).report
}

fn changes(report: &Report) -> Vec<(String, ChangeKind)> {
    report
        .changes
        .iter()
        .map(|change| (change.display_path.clone().unwrap(), change.kind))
        .collect()
}

#[test]
fn a_run_reports_net_changes_only() {
    let plain = "100644";
    let files = [
        File { name: "modified.txt", before: Some(("before\n", plain)), after: Some(("after\n", plain)) },
        File { name: "added.txt", before: None, after: Some(("added\n", plain)) },
        File { name: "deleted.txt", before: Some(("deleted\n", plain)), after: None },
        File { name: "transient.txt", before: None, after: None },
        File { name: "reverted.txt", before: Some(("same\n", plain)), after: Some(("same\n", plain)) },
        File { name: "replaced.txt", before: Some(("old\n", plain)), after: Some(("replacement\n", plain)) },
        File { name: "temp.txt", before: None, after: None },
        File { name: "mode.txt", before: Some(("mode\n", plain)), after: Some(("mode\n", "100755")) },
    ];
    let report = report(store("/w", &[], &[]), "/w", &files);
    assert_eq!(report.state, RunState::Finished);
    assert_eq!(
        changes(&report),
        vec![
            ("added.txt".to_string(), ChangeKind::Added),
            ("deleted.txt".to_string(), ChangeKind::Deleted),
            ("mode.txt".to_string(), ChangeKind::ModeChanged),
            ("modified.txt".to_string(), ChangeKind::Modified),
            ("replaced.txt".to_string(), ChangeKind::Modified),
        ]
    );
    let mode = &report.changes[2];
    assert_eq!(mode.diff.kind, "metadata");
    assert_eq!(mode.diff.patch_bytes, None);
    assert_eq!(report.metrics.candidate_paths, 8);
    assert_eq!(report.metrics.final_changes, 5);
}

#[test]
fn renames_across_an_exclusion_are_additions_and_deletions() {
    let plain = "100644";
    let files = [
        File { name: ".venv/ignored.txt", before: Some(("before\n", plain)), after: Some(("ignored\n", plain)) },
        File { name: "node_modules/pkg/ignored.js", before: Some(("before\n", plain)), after: Some(("ignored\n", plain)) },
        File { name: ".venv-old/tracked.txt", before: Some(("before\n", plain)), after: Some(("after\n", plain)) },
        File { name: "tracked.txt", before: Some(("before\n", plain)), after: Some(("after\n", plain)) },
        File { name: ".venv/source.txt", before: Some(("move in\n", plain)), after: None },
        File { name: "from-excluded.txt", before: None, after: Some(("move in\n", plain)) },
        File { name: "move-out.txt", before: Some(("move out\n", plain)), after: None },
        File { name: ".venv/moved-out.txt", before: None, after: Some(("move out\n", plain)) },
    ];
    let report = report(store("/w", &[".venv", "node_modules"], &[]), "/w", &files);
    assert_eq!(report.state, RunState::Finished);
    assert_eq!(
        changes(&report),
        vec![
            (".venv-old/tracked.txt".to_string(), ChangeKind::Modified),
            ("from-excluded.txt".to_string(), ChangeKind::Added),
            ("move-out.txt".to_string(), ChangeKind::Deleted),
            ("tracked.txt".to_string(), ChangeKind::Modified),
        ]
    );
    let exclusions: Vec<(&str, &str)> = report
        .coverage
        .configured_exclusions
        .iter()
        .map(|exclusion| (exclusion.root_id.as_str(), exclusion.display_path.as_str()))
        .collect();
    assert_eq!(exclusions, vec![("main", ".venv"), ("main", "node_modules")]);
}

#[test]
fn a_policy_tracks_several_roots() {
    let pair = |id: &str, path: &str| PolicyPair { id: id.into(), path: path.into() };
    let policy = Policy {
        schema_version: 1,
        roots: vec![pair("first", "first"), pair("second", "second")],
        exclusions: Vec::new(),
        recursive_exclusions: vec![".git".into(), "node_modules".into()],
        limits: None,
    };
    let configured = check_policy(&policy).unwrap();
    let resolved = [Ok(b"/p/first".to_vec()), Ok(b"/p/second".to_vec())];
    let roots = match check_roots(&configured.roots, &resolved).unwrap() {
        RootsStep::Done(roots) => roots,
        other => panic!("{other:?}"),
    };
    let names = parse_recursive_exclusions(&configured.recursive_exclusions).unwrap();
    let mut store = CaptureStore::new(
        b"/out".to_vec(),
        roots,
        Vec::new(),
        names,
        configured.limits,
        1,
        0,
    );
    assert!(store.capture_before(b"/p/first/nested/.git/index").is_none());
    assert!(store
        .capture_before(b"/p/second/packages/app/node_modules/pkg/index.js")
        .is_none());
    let pending = store.capture_before(b"/p/second/tracked.txt").unwrap();
    assert_eq!(pending.key.root_id, "second");
    assert_eq!(pending.key.relative, b"tracked.txt".to_vec());
    let report = finish(
        &store,
        ReportDraft::new(),
        TargetResult { exit_code: Some(0), signal: None },
        RunMetrics::default(),
    )
    .report;
    assert_eq!(
        report.coverage.configured_recursive_exclusions,
        vec![".git".to_string(), "node_modules".to_string()]
    );
}

#[test]
fn quotas_and_timeouts_make_a_run_partial() {
    let mut quota = store("/w", &[], &[]);
    let gap = Gap { kind: "file_size_quota".into(), detail: "/w/large.txt is 9 bytes".into() };
    let outcome = CaptureOutcome {
        state: FileState::Unavailable { reason: "file_size_quota".into() },
        captured_bytes: 0,
        gaps: vec![gap],
    };
    quota.complete_before(b"/w/large.txt", Ok(outcome));
    let mut timeout = store("/w", &[], &[]);
    let failure = HelperFailure { timed_out: true, message: "capture helper timed out".into() };
    timeout.complete_before(b"/w/file.txt", Err(failure));
    for (store, kind) in [(quota, "file_size_quota"), (timeout, "capture_timeout")] {
        let target = TargetResult { exit_code: Some(0), signal: None };
        let report = finish(&store, ReportDraft::new(), target, RunMetrics::default()).report;
        assert_eq!(report.state, RunState::Partial);
        assert_eq!(report.coverage.gaps[0].kind, kind);
    }
}

#[test]
fn a_bypassed_notification_makes_a_run_partial() {
    let mut run = Supervisor::new(0, false);
    for event in [
        RunEvent::Listener(ListenerOutcome::Bypassed { queue_full: true }),
        RunEvent::Wait(Some(0)),
        RunEvent::Wait(Some(9)),
    ] {
        assert_eq!(run.advance(event, 1), RunAction::Nothing);
    }
    let mut store = store("/w", &[], &[]);
    let (target, metrics) = run.end(&mut store, 5);
    assert_eq!(target.exit_code, Some(0));
    let report = finish(&store, ReportDraft::new(), target, metrics).report;
    assert_eq!(report.state, RunState::Partial);
    assert_eq!(report.metrics.queue_bypassed, 1);
    assert_eq!(report.coverage.gaps[0].kind, "worker_queue_full");
}

#[test]
fn captured_bytes_never_pass_the_limit() {
    let limits = Limits { max_total_bytes: 10, ..Limits::default() };
    let roots = vec![Root { id: "main".into(), path: b"/w".to_vec() }];
    let mut store =
        CaptureStore::new(b"/out".to_vec(), roots, Vec::new(), Vec::new(), limits, 1, 0);
    for name in ["a", "b", "c"] {
        let path = format!("/w/{name}");
        let left = store.capture_request(path.as_bytes(), None).max_total_bytes;
        let result = match capture_content(Ok(b"four".to_vec()), left) {
            ContentStep::Store(object) => {
                let facts = FileFacts { mode: 0o100644, size: 4, kind: FileKind::Regular };
                Ok(capture_stored(path.as_bytes(), &facts, &object, &Ok(())))
            }
            ContentStep::Done(outcome) => Ok(outcome),
        };
        store.complete_before(path.as_bytes(), result);
    }
    assert_eq!(store.captured_bytes(), 8);
    assert_eq!(store.gaps().len(), 1);
    assert_eq!(store.gaps()[0].kind, "total_byte_quota");
}
