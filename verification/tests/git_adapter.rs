use fs_tracker::config::Root;
use fs_tracker::contracts::{
    Change, ChangeKind, DiffRef, FileState, ObjectRef, RunState,
};
use fs_tracker::git_adapter::{
    check_report, git_command, git_environment, git_mode, git_outcome, pump_child_io,
    receipt_place, tree_entry, validate_identity, BoundedDrain, GitAdapterError, GitCall,
    GitReceiptConfig, GitReceiptV2, Pumped, ReceiptAction, ReceiptAnswer, ReceiptWork,
};

/// The digest of `/w`.
const PROJECT_KEY: &str = "d1bb8ca354673cd575d31d952490058c9943aef39d5a9553fb4a21ab7a59a19d";

fn config() -> GitReceiptConfig {
    GitReceiptConfig {
        tracker_output: b"/out".to_vec(),
        repository: b"/git/report.git".to_vec(),
        receipt: b"/r/receipt.json".to_vec(),
        run_id: "run-1".into(),
        workspace_id: "a".repeat(64),
        report_ref: "refs/x".into(),
        projects: vec![Root { id: "main".into(), path: b"/w".to_vec() }],
        allow_partial: false,
    }
}

fn present(digest: &str, mode: &str) -> FileState {
    FileState::Present {
        object: ObjectRef { object_id: format!("sha256:{digest}"), size: 1, mode: mode.into() },
    }
}

fn change(base64: &str, before: FileState, after: FileState) -> Change {
    Change {
        root_id: "main".into(),
        path_bytes_base64: base64.into(),
        display_path: None,
        kind: ChangeKind::Modified,
        before,
        after,
        diff: DiffRef {
            kind: "metadata".into(),
            truncated: false,
            patch_offset: None,
            patch_bytes: None,
            reason: None,
        },
    }
}

fn texts(list: &[Vec<u8>]) -> Vec<String> {
    list.iter().map(|item| String::from_utf8_lossy(item).into_owned()).collect()
}

fn call(arguments: &[&str]) -> GitCall {
    GitCall {
        repository: Some(b"/git".to_vec()),
        index: None,
        arguments: arguments.iter().map(|item| item.as_bytes().to_vec()).collect(),
        input: None,
    }
}

#[test]
fn maps_filesystem_modes_to_git_modes() {
    assert_eq!(git_mode("100644"), "100644");
    assert_eq!(git_mode("100755"), "100755");
    assert_eq!(git_mode("120777"), "120000");
}

#[test]
fn modes_without_an_executable_bit_for_others_are_plain() {
    assert_eq!(git_mode(""), "100644");
    assert_eq!(git_mode("12"), "100644");
    assert_eq!(git_mode("100770"), "100644");
    assert_eq!(git_mode("100771"), "100755");
    assert_eq!(git_mode("100773"), "100755");
    assert_eq!(git_mode("100777"), "100755");
}

#[test]
fn bounded_drain_consumes_excess_and_keeps_requested_side() {
    let mut head_drain = BoundedDrain::new(5, false);
    head_drain.absorb(b"abcdefghijkl");
    let (head, head_truncated) = head_drain.into_parts();
    assert_eq!(head, b"abcde");
    assert!(head_truncated);

    let mut tail_drain = BoundedDrain::new(5, true);
    tail_drain.absorb(b"abcdefghijkl");
    let (tail, tail_truncated) = tail_drain.into_parts();
    assert_eq!(tail, b"hijkl");
    assert!(tail_truncated);
}

#[test]
fn drains_do_not_care_how_their_input_is_cut() {
    for keep_tail in [false, true] {
        for size in 1..13 {
            let mut drain = BoundedDrain::new(5, keep_tail);
            for piece in b"abcdefghijkl".chunks(size) {
                drain.absorb(piece);
            }
            let expected: &[u8] = if keep_tail { b"hijkl" } else { b"abcde" };
            assert_eq!(drain.into_parts(), (expected.to_vec(), true));
        }
        let mut drain = BoundedDrain::new(5, keep_tail);
        drain.absorb(b"abc");
        drain.absorb(b"");
        drain.absorb(b"de");
        assert_eq!(drain.into_parts(), (b"abcde".to_vec(), false));
    }
}

#[test]
fn identities_are_checked() {
    assert!(validate_identity(&config()).is_ok());
    let mut blank = config();
    blank.run_id = " \t\u{3000}".into();
    let error = validate_identity(&blank).unwrap_err();
    assert!(matches!(error, GitAdapterError::InvalidRunId));
    assert_eq!(error.message(), "run ID cannot be blank");
    for id in ["a".repeat(63), "A".repeat(64), "g".repeat(64), "é".repeat(32)] {
        let mut wrong = config();
        wrong.workspace_id = id;
        let error = validate_identity(&wrong).unwrap_err();
        assert_eq!(
            error.message(),
            "invalid workspace ID; expected 64 lowercase hexadecimal characters"
        );
    }
}

#[test]
fn partial_reports_need_permission() {
    assert!(check_report(RunState::Finished, false).is_ok());
    assert!(check_report(RunState::Partial, true).is_ok());
    let error = check_report(RunState::Partial, false).unwrap_err();
    assert_eq!(
        error.message(),
        "tracker report state is Partial; use --allow-partial to override"
    );
}

#[test]
fn tree_entries_lie_below_their_project() {
    let file = change("ZmlsZS50eHQ=", FileState::Absent, present("ab", "100755"));
    assert!(tree_entry(&config(), &file, true).unwrap().is_none());
    let entry = tree_entry(&config(), &file, false).unwrap().unwrap();
    assert_eq!(entry.mode, "100755");
    assert_eq!(entry.object, b"/out/objects/ab".to_vec());
    assert_eq!(entry.path, format!("{PROJECT_KEY}/file.txt").into_bytes());
}

#[test]
fn faulty_changes_are_named() {
    let mut stray = change("YQ==", present("a", "100644"), FileState::Absent);
    stray.root_id = "other".into();
    let error = tree_entry(&config(), &stray, true).unwrap_err();
    assert_eq!(error.message(), "missing --project mapping for root ID other");
    let damaged = change("*", FileState::Absent, FileState::Absent);
    assert!(matches!(tree_entry(&config(), &damaged, true), Err(GitAdapterError::Io(_))));
    let odd = FileState::Present {
        object: ObjectRef { object_id: "x".into(), size: 1, mode: "100644".into() },
    };
    let error = tree_entry(&config(), &change("YQ==", odd, FileState::Absent), true).unwrap_err();
    assert_eq!(error.message(), "I/O error: invalid tracker object ID");
    assert_eq!(GitAdapterError::Report("bad".into()).message(), "invalid tracker report: bad");
}

#[test]
fn a_receipt_is_made_step_by_step() {
    let config = config();
    let changes = vec![
        change("YQ==", present("aa", "100644"), FileState::Absent),
        change("Yg==", FileState::Absent, present("bb", "120777")),
    ];
    let mut work = ReceiptWork::new();
    let mut log: Vec<String> = Vec::new();
    let mut hashed = 0;
    let receipt: GitReceiptV2 = loop {
        let answer = match work.next(&config, &changes, false).unwrap() {
            ReceiptAction::Skip => {
                log.push("skip".into());
                ReceiptAnswer::Done
            }
            ReceiptAction::MakeDirectory(path) => {
                log.push(format!("mkdir {}", texts(&[path]).join("")));
                ReceiptAnswer::Done
            }
            ReceiptAction::Remove(paths) => {
                log.push(format!("rm {}", texts(&paths).join(" ")));
                ReceiptAnswer::Done
            }
            ReceiptAction::Read(path) => {
                log.push(format!("read {}", texts(&[path]).join("")));
                ReceiptAnswer::Content(b"content".to_vec())
            }
            ReceiptAction::Run(call) => {
                let words = texts(&call.arguments);
                let line = words.join(" ").replace(&words.last().unwrap()[..], "");
                let shown = if words[0] == "update-index" { line } else { words.join(" ") };
                log.push(format!("git {shown}"));
                match words[0].as_str() {
                    "hash-object" => {
                        assert_eq!(call.input, Some(b"content".to_vec()));
                        hashed += 1;
                        ReceiptAnswer::Text(format!("blob{hashed}"))
                    }
                    "commit-tree" => {
                        let message = String::from_utf8(call.input.unwrap()).unwrap();
                        if words.len() == 2 {
                            assert_eq!(message, "fs-tracker baseline\n");
                            ReceiptAnswer::Text("c1".into())
                        } else {
                            assert_eq!(
                                message,
                                "fs-tracker report\n\nFs-Tracker-Run-Id: run-1\n"
                            );
                            ReceiptAnswer::Text("c2".into())
                        }
                    }
                    "write-tree" => {
                        let index = texts(&[call.index.unwrap()]).join("");
                        ReceiptAnswer::Text(format!("tree-of-{index}"))
                    }
                    _ => ReceiptAnswer::Text(String::new()),
                }
            }
            ReceiptAction::Publish(receipt) => break receipt,
        };
        work.record(answer);
    };
    assert_eq!(
        log,
        vec![
            "mkdir /git",
            "git init --bare /git/report.git",
            "git check-ref-format refs/x",
            "rm /out/.git-baseline-index",
            "git read-tree --empty",
            "read /out/objects/aa",
            "git hash-object -w --stdin",
            "git update-index --add --cacheinfo 100644 blob1 ",
            "skip",
            "git write-tree",
            "rm /out/.git-report-index",
            "git read-tree --empty",
            "skip",
            "read /out/objects/bb",
            "git hash-object -w --stdin",
            "git update-index --add --cacheinfo 120000 blob2 ",
            "git write-tree",
            "rm /out/.git-baseline-index /out/.git-report-index",
            "git commit-tree tree-of-/out/.git-baseline-index",
            "git commit-tree tree-of-/out/.git-report-index -p c1",
            "git update-ref refs/x c2",
        ]
    );
    assert_eq!(receipt.schema_version, 2);
    assert_eq!(receipt.run_id, "run-1");
    assert_eq!(receipt.workspace_id, "a".repeat(64));
    assert_eq!(receipt.baseline_commit_sha, "c1");
    assert_eq!(receipt.report_commit_sha, "c2");
}

/// The receipt of some changes, with a Git that answers by the calls that it got so far.
fn made(config: &GitReceiptConfig, changes: &Vec<Change>) -> GitReceiptV2 {
    let mut work = ReceiptWork::new();
    let mut history = String::new();
    loop {
        let answer = match work.next(config, changes, false).unwrap() {
            ReceiptAction::Read(path) => {
                let name = texts(&[path]).join("");
                let name = name.rsplit('/').next().unwrap().to_string();
                ReceiptAnswer::Content(name.into_bytes())
            }
            ReceiptAction::Run(call) => {
                let words = texts(&call.arguments);
                let names_places = ["init", "check-ref-format", "update-ref"];
                if !names_places.contains(&words[0].as_str()) {
                    history = format!("{history}|{}|{:?}", words.join(" ").len(), call.input);
                }
                ReceiptAnswer::Text(history.clone())
            }
            ReceiptAction::Publish(receipt) => return receipt,
            _ => ReceiptAnswer::Done,
        };
        work.record(answer);
    }
}

#[test]
fn the_same_changes_make_the_same_commits() {
    let changes = vec![
        change("YQ==", present("aa", "100644"), FileState::Absent),
        change("Yg==", FileState::Absent, present("bb", "120777")),
    ];
    let first = made(&config(), &changes);
    let mut elsewhere = config();
    elsewhere.tracker_output = b"/copy/of/out".to_vec();
    elsewhere.repository = b"other.git".to_vec();
    elsewhere.workspace_id = "b".repeat(64);
    elsewhere.report_ref = "refs/y".into();
    let second = made(&elsewhere, &changes);
    assert_eq!(second.baseline_commit_sha, first.baseline_commit_sha);
    assert_eq!(second.report_commit_sha, first.report_commit_sha);
    elsewhere.run_id = "run-2".into();
    let third = made(&elsewhere, &changes);
    assert_eq!(third.baseline_commit_sha, first.baseline_commit_sha);
    assert_ne!(third.report_commit_sha, first.report_commit_sha);
    let fewer = made(&elsewhere, &changes[..1].to_vec());
    assert_ne!(fewer.baseline_commit_sha, first.baseline_commit_sha);
}

#[test]
fn an_existing_repository_is_kept() {
    let mut work = ReceiptWork::new();
    work.record(ReceiptAnswer::Done);
    assert!(matches!(work.next(&config(), &Vec::new(), true), Ok(ReceiptAction::Skip)));
}

#[test]
fn calls_of_git_name_the_repository() {
    let words = git_command(&call(&["write-tree"])).unwrap();
    assert_eq!(texts(&words), vec!["git", "--git-dir=/git", "write-tree"]);
    let mut bare = call(&["init"]);
    bare.repository = None;
    assert_eq!(texts(&git_command(&bare).unwrap()), vec!["git", "init"]);
    let error = git_command(&call(&["a", "b\0"])).unwrap_err();
    assert_eq!(error.message(), "I/O error: nul byte found in provided data at position: 1");
}

#[test]
fn commits_do_not_depend_on_the_user() {
    let pairs = git_environment();
    assert_eq!(pairs.len(), 6);
    assert_eq!(pairs[0], ("GIT_AUTHOR_NAME", "fs-tracker"));
    assert_eq!(pairs[3], ("GIT_COMMITTER_EMAIL", "fs-tracker@localhost"));
    assert_eq!(pairs[5], ("GIT_COMMITTER_DATE", "2000-01-01T00:00:00Z"));
}

#[test]
fn answers_of_git_are_trimmed() {
    let call = call(&["hash-object", "-w"]);
    assert_eq!(git_outcome(&call, 0, b" abc\n", b"").unwrap(), "abc");
    assert!(matches!(git_outcome(&call, 0, &[0xff], b""), Err(GitAdapterError::InvalidObjectId)));
    assert_eq!(
        git_outcome(&call, 0, &[0xff], b"").unwrap_err().message(),
        "git returned non-ASCII object ID"
    );
    let error = git_outcome(&call, 128 << 8, b"", b"fatal: no\n\n").unwrap_err();
    assert_eq!(error.message(), "git command failed: git hash-object -w: fatal: no");
    assert!(git_outcome(&call, 9, b"abc", b"").is_err());
}

#[test]
fn the_first_failing_stream_counts() {
    let read = |bytes: &[u8]| Pumped::Read(bytes.to_vec(), false);
    let (status, out, err) =
        pump_child_io(Pumped::Wrote, read(b"o"), read(b"e"), Ok(3)).unwrap();
    assert_eq!(status, 3);
    assert_eq!(out, b"o".to_vec());
    assert_eq!(err, b"e".to_vec());
    let failed = |text: &str| Pumped::Failed(text.into());
    assert_eq!(
        pump_child_io(failed("in"), failed("out"), Pumped::Panicked, Err("w".into())).unwrap_err(),
        "git stderr pump panicked"
    );
    assert_eq!(
        pump_child_io(failed("in"), failed("out"), failed("err"), Ok(0)).unwrap_err(),
        "in"
    );
    assert_eq!(
        pump_child_io(Pumped::Wrote, Pumped::Read(Vec::new(), true), failed("err"), Ok(0))
            .unwrap_err(),
        "err"
    );
    assert_eq!(
        pump_child_io(Pumped::Wrote, Pumped::Read(Vec::new(), true), read(b""), Err("w".into()))
            .unwrap_err(),
        "git stdout exceeded 64 KiB"
    );
    assert_eq!(
        pump_child_io(Pumped::Wrote, read(b""), Pumped::Read(Vec::new(), true), Err("w".into()))
            .unwrap_err(),
        "w"
    );
    assert_eq!(
        pump_child_io(Pumped::Panicked, Pumped::Panicked, Pumped::Panicked, Ok(0)).unwrap_err(),
        "git stdin pump panicked"
    );
    assert_eq!(
        pump_child_io(Pumped::Wrote, Pumped::Panicked, Pumped::Panicked, Ok(0)).unwrap_err(),
        "git stdout pump panicked"
    );
}

#[test]
fn receipts_are_written_beside_and_renamed() {
    let place = receipt_place(b"/r/receipt.json", b"{}".to_vec()).unwrap();
    assert_eq!(place.directory, b"/r".to_vec());
    assert_eq!(place.temporary, b"/r/receipt.tmp".to_vec());
    assert_eq!(place.bytes, b"{}\n".to_vec());
    let place = receipt_place(b"dir/.hidden", Vec::new()).unwrap();
    assert_eq!(place.temporary, b"dir/.hidden.tmp".to_vec());
    let place = receipt_place(b"receipt.a.b", Vec::new()).unwrap();
    assert_eq!(place.directory, b"".to_vec());
    assert_eq!(place.temporary, b"receipt.a.tmp".to_vec());
    assert_eq!(
        receipt_place(b"/", Vec::new()).unwrap_err().message(),
        "I/O error: receipt has no parent"
    );
}
