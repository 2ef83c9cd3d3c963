//! The receipt of a run: what it takes to put the two sides of a report into a Git
//! repository, step by step, and how Git's answers are read.
use crate::capture::{digest_in, object_digest, object_path, object_path_of, NEWLINE};
use crate::config::{root_views, Root, RootView};
use crate::contracts::{change_views, Change, ChangeView, FileState, FileStateView, RunState};
use crate::linux::{exited, first_zero, nul_position};
use crate::order::deep;
use crate::outside::{base64_decoded, decode_base64, sha256, sha256_digest};
use crate::paths::{
    append_bytes, body, body_of, copy_bytes, file_name, file_name_of, join, joined, parent, parent_of,
    DOT, SEPARATOR,
};
use crate::text::{
    characters, concat2, concat3, decimal, decimal_text, encoding_determines_text, hex, hex_text,
    is_white_space, lossy,
    lossy_text, same_text, surrounds, trim, trimmed, trimming_takes_the_white_space_off, utf8_text,
};
use vstd::prelude::*;
use vstd::utf8::{decode_utf8, encode_utf8, valid_utf8};

verus! {

/// What a receipt is made from.
#[derive(Debug)]
pub struct GitReceiptConfig {
    pub tracker_output: Vec<u8>,
    pub repository: Vec<u8>,
    pub receipt: Vec<u8>,
    pub run_id: String,
    pub workspace_id: String,
    pub report_ref: String,
    pub projects: Vec<Root>,
    pub allow_partial: bool,
}

/// The receipt of a run.
#[derive(Debug)]
pub struct GitReceiptV2 {
    pub schema_version: u8,
    pub run_id: String,
    pub workspace_id: String,
    pub baseline_commit_sha: String,
    pub report_commit_sha: String,
}

/// Why there is no receipt.
pub enum GitAdapterErrorView {
    Io(Seq<char>),
    Report(Seq<char>),
    Incomplete(RunState),
    MissingProject(Seq<char>),
    InvalidWorkspaceId,
    InvalidRunId,
    Git { command: Seq<char>, stderr: Seq<char> },
    InvalidObjectId,
}

/// Why there is no receipt.
#[derive(Debug)]
pub enum GitAdapterError {
    Io(String),
    Report(String),
    Incomplete(RunState),
    MissingProject(String),
    InvalidWorkspaceId,
    InvalidRunId,
    Git { command: String, stderr: String },
    InvalidObjectId,
}

impl View for GitAdapterError {
    type V = GitAdapterErrorView;

    open spec fn view(&self) -> GitAdapterErrorView {
        match self {
            GitAdapterError::Io(message) => GitAdapterErrorView::Io(message@),
            GitAdapterError::Report(message) => GitAdapterErrorView::Report(message@),
            GitAdapterError::Incomplete(state) => GitAdapterErrorView::Incomplete(*state),
            GitAdapterError::MissingProject(id) => GitAdapterErrorView::MissingProject(id@),
            GitAdapterError::InvalidWorkspaceId => GitAdapterErrorView::InvalidWorkspaceId,
            GitAdapterError::InvalidRunId => GitAdapterErrorView::InvalidRunId,
            GitAdapterError::Git { command, stderr } => GitAdapterErrorView::Git {
                command: command@,
                stderr: stderr@,
            },
            GitAdapterError::InvalidObjectId => GitAdapterErrorView::InvalidObjectId,
        }
    }
}

/// The name of a state.
pub open spec fn state_name(state: RunState) -> Seq<char> {
    match state {
        RunState::Starting => "Starting"@,
        RunState::Running => "Running"@,
        RunState::Finished => "Finished"@,
        RunState::Partial => "Partial"@,
        RunState::Failed => "Failed"@,
    }
}

fn name_of_state(state: RunState) -> (name: &'static str)
    ensures
        name@ == state_name(state),
{
    match state {
        RunState::Starting => "Starting",
        RunState::Running => "Running",
        RunState::Finished => "Finished",
        RunState::Partial => "Partial",
        RunState::Failed => "Failed",
    }
}

/// What is said where there is no receipt.
pub open spec fn adapter_message(error: GitAdapterErrorView) -> Seq<char> {
    match error {
        GitAdapterErrorView::Io(message) => "I/O error: "@ + message,
        GitAdapterErrorView::Report(message) => "invalid tracker report: "@ + message,
        GitAdapterErrorView::Incomplete(state) => "tracker report state is "@ + state_name(state)
            + "; use --allow-partial to override"@,
        GitAdapterErrorView::MissingProject(id) => "missing --project mapping for root ID "@ + id,
        GitAdapterErrorView::InvalidWorkspaceId => {
            "invalid workspace ID; expected 64 lowercase hexadecimal characters"@
        },
        GitAdapterErrorView::InvalidRunId => "run ID cannot be blank"@,
        GitAdapterErrorView::Git { command, stderr } => "git command failed: "@ + command + ": "@
            + stderr,
        GitAdapterErrorView::InvalidObjectId => "git returned non-ASCII object ID"@,
    }
}

impl GitAdapterError {
    /// What is said where there is no receipt.
    pub fn message(&self) -> (text: String)
        ensures
            text@ == adapter_message(self@),
    {
        match self {
            GitAdapterError::Io(message) => concat2("I/O error: ", message.as_str()),
            GitAdapterError::Report(message) => concat2(
                "invalid tracker report: ",
                message.as_str(),
            ),
            GitAdapterError::Incomplete(state) => concat3(
                "tracker report state is ",
                name_of_state(*state),
                "; use --allow-partial to override",
            ),
            GitAdapterError::MissingProject(id) => concat2(
                "missing --project mapping for root ID ",
                id.as_str(),
            ),
            GitAdapterError::InvalidWorkspaceId => {
                "invalid workspace ID; expected 64 lowercase hexadecimal characters".to_owned()
            },
            GitAdapterError::InvalidRunId => "run ID cannot be blank".to_owned(),
            GitAdapterError::Git { command, stderr } => {
                let mut text = concat2("git command failed: ", command.as_str());
                text.append(": ");
                text.append(stderr.as_str());
                text
            },
            GitAdapterError::InvalidObjectId => "git returned non-ASCII object ID".to_owned(),
        }
    }
}

/// The character is a hexadecimal digit in lower case.
pub open spec fn is_lower_hex(c: char) -> bool {
    ('0' <= c && c <= '9') || ('a' <= c && c <= 'f')
}

/// The text can identify a workspace: sixty-four hexadecimal digits in lower case.
pub open spec fn is_workspace_id(id: Seq<char>) -> bool {
    id.len() == 64 && forall|i: int| 0 <= i < id.len() ==> is_lower_hex(#[trigger] id[i])
}

fn workspace_id_allowed(id: &str) -> (result: bool)
    ensures
        result == is_workspace_id(id@),
{
    let list = characters(id);
    let length: usize = list.len();
    if length != 64 {
        return false;
    }
    let mut i: usize = 0;
    while i < length
        invariant
            i <= length,
            list@ == id@,
            length == id@.len(),
            forall|j: int| 0 <= j < i ==> is_lower_hex(#[trigger] id@[j]),
        decreases length - i,
    {
        let c: char = list[i];
        if !(('0' <= c && c <= '9') || ('a' <= c && c <= 'f')) {
            assert(!is_lower_hex(id@[i as int]));
            return false;
        }
        i += 1;
    }
    true
}

/// Checks the identities that a receipt carries: the run's must not be blank, and the
/// workspace's must be well formed.
pub fn validate_identity(config: &GitReceiptConfig) -> (result: Result<(), GitAdapterError>)
    ensures
        match result {
            Ok(_) => trimmed(config.run_id@).len() > 0 && is_workspace_id(config.workspace_id@),
            Err(error) => if trimmed(config.run_id@).len() == 0 {
                error@ == GitAdapterErrorView::InvalidRunId
            } else {
                !is_workspace_id(config.workspace_id@) && error@
                    == GitAdapterErrorView::InvalidWorkspaceId
            },
        },
{
    if trim(config.run_id.as_str()).unicode_len() == 0 {
        return Err(GitAdapterError::InvalidRunId);
    }
    if !workspace_id_allowed(config.workspace_id.as_str()) {
        return Err(GitAdapterError::InvalidWorkspaceId);
    }
    Ok(())
}

/// Checks that a report may become a receipt: it is finished, or less is accepted.
pub fn check_report(state: RunState, allow_partial: bool) -> (result: Result<(), GitAdapterError>)
    ensures
        match result {
            Ok(_) => state == RunState::Finished || allow_partial,
            Err(error) => {
                &&& state != RunState::Finished
                &&& !allow_partial
                &&& error@ == GitAdapterErrorView::Incomplete(state)
            },
        },
{
    if state != RunState::Finished && !allow_partial {
        Err(GitAdapterError::Incomplete(state))
    } else {
        Ok(())
    }
}

/// Git's mode for a file's mode: a link, a file that others may execute, or a plain file.
pub open spec fn git_mode_of(mode: Seq<char>) -> Seq<char> {
    if "120"@.is_prefix_of(mode) {
        "120000"@
    } else if mode.len() > 0 && (mode.last() == '1' || mode.last() == '3' || mode.last() == '5'
        || mode.last() == '7') {
        "100755"@
    } else {
        "100644"@
    }
}

/// Git's mode for a file's mode.
pub fn git_mode(mode: &str) -> (result: &'static str)
    ensures
        result@ == git_mode_of(mode@),
{
    let lead = "120";
    let size: usize = lead.unicode_len();
    let length: usize = mode.unicode_len();
    if length >= size {
        let start = mode.substring_char(0, size);
        if same_text(start, lead) {
            assert(lead@ =~= mode@.subrange(0, size as int));
            return "120000";
        }
    }
    if length > 0 {
        let last = mode.get_char(length - 1);
        if last == '1' || last == '3' || last == '5' || last == '7' {
            return "100755";
        }
    }
    "100644"
}

/// What a receipt is made from.
#[verifier::ext_equal]
pub struct GitReceiptConfigView {
    pub tracker_output: Seq<u8>,
    pub repository: Seq<u8>,
    pub receipt: Seq<u8>,
    pub run_id: Seq<char>,
    pub workspace_id: Seq<char>,
    pub report_ref: Seq<char>,
    pub projects: Seq<RootView>,
    pub allow_partial: bool,
}

impl View for GitReceiptConfig {
    type V = GitReceiptConfigView;

    open spec fn view(&self) -> GitReceiptConfigView {
        GitReceiptConfigView {
            tracker_output: self.tracker_output@,
            repository: self.repository@,
            receipt: self.receipt@,
            run_id: self.run_id@,
            workspace_id: self.workspace_id@,
            report_ref: self.report_ref@,
            projects: root_views(self.projects@),
            allow_partial: self.allow_partial,
        }
    }
}

/// The receipt of a run.
#[verifier::ext_equal]
pub struct GitReceiptV2View {
    pub schema_version: u8,
    pub run_id: Seq<char>,
    pub workspace_id: Seq<char>,
    pub baseline_commit_sha: Seq<char>,
    pub report_commit_sha: Seq<char>,
}

impl View for GitReceiptV2 {
    type V = GitReceiptV2View;

    open spec fn view(&self) -> GitReceiptV2View {
        GitReceiptV2View {
            schema_version: self.schema_version,
            run_id: self.run_id@,
            workspace_id: self.workspace_id@,
            baseline_commit_sha: self.baseline_commit_sha@,
            report_commit_sha: self.report_commit_sha@,
        }
    }
}

/// The version of receipts.
pub const RECEIPT_VERSION: u8 = 2;

/// A file of one side of a report: its mode, its path in the tree, and where its content is
/// stored.
#[verifier::ext_equal]
pub struct TreeEntryView {
    pub mode: Seq<char>,
    pub path: Seq<u8>,
    pub object: Seq<u8>,
}

/// A file of one side of a report: its mode, its path in the tree, and where its content is
/// stored.
#[derive(Debug)]
pub struct TreeEntry {
    pub mode: String,
    pub path: Vec<u8>,
    pub object: Vec<u8>,
}

impl View for TreeEntry {
    type V = TreeEntryView;

    open spec fn view(&self) -> TreeEntryView {
        TreeEntryView { mode: self.mode@, path: self.path@, object: self.object@ }
    }
}

/// The path of the project that a root stands for.
pub open spec fn project_of(projects: Seq<RootView>, id: Seq<char>) -> Option<Seq<u8>>
    decreases projects.len(),
{
    if projects.len() == 0 {
        None
    } else if projects[0].id == id {
        Some(projects[0].path)
    } else {
        project_of(projects.skip(1), id)
    }
}

/// The place of a file in a tree: below a directory that the digest of its project's path
/// names.
pub open spec fn tree_path(project: Seq<u8>, relative: Seq<u8>) -> Seq<u8> {
    encode_utf8(hex(sha256(project))).push(SEPARATOR) + relative
}

/// The side of a change that goes into a tree.
pub open spec fn side_of(change: ChangeView, baseline: bool) -> FileStateView {
    if baseline {
        change.before
    } else {
        change.after
    }
}

/// The file that one side of a change puts into a tree, if it puts one there.
pub open spec fn entry_of_change(
    config: GitReceiptConfigView,
    change: ChangeView,
    baseline: bool,
) -> Result<Option<TreeEntryView>, GitAdapterErrorView> {
    match project_of(config.projects, change.root_id) {
        None => Err(GitAdapterErrorView::MissingProject(change.root_id)),
        Some(project) => match base64_decoded(change.path_bytes_base64) {
            Err(message) => Err(GitAdapterErrorView::Io(message)),
            Ok(relative) => match side_of(change, baseline) {
                FileStateView::Present { object } => match digest_in(object.object_id) {
                    None => Err(GitAdapterErrorView::Io("invalid tracker object ID"@)),
                    Some(digest) => Ok(
                        Some(
                            TreeEntryView {
                                mode: git_mode_of(object.mode),
                                path: tree_path(project, relative),
                                object: object_path_of(config.tracker_output, digest),
                            },
                        ),
                    ),
                },
                _ => Ok(None),
            },
        },
    }
}

/// What the file of a change came to.
pub open spec fn entry_result(result: Result<Option<TreeEntry>, GitAdapterError>) -> Result<
    Option<TreeEntryView>,
    GitAdapterErrorView,
> {
    match result {
        Ok(Some(entry)) => Ok(Some(entry@)),
        Ok(None) => Ok(None),
        Err(error) => Err(error@),
    }
}

fn find_project(projects: &Vec<Root>, id: &str) -> (path: Option<Vec<u8>>)
    ensures
        match path {
            Some(found) => project_of(root_views(projects@), id@) == Some(found@),
            None => project_of(root_views(projects@), id@) is None,
        },
{
    let ghost all = root_views(projects@);
    let mut i: usize = 0;
    assert(all.skip(0) =~= all);
    while i < projects.len()
        invariant
            i <= projects@.len(),
            all == root_views(projects@),
            project_of(all.skip(i as int), id@) == project_of(all, id@),
        decreases projects@.len() - i,
    {
        proof {
            assert(all.skip(i as int)[0] == projects@[i as int]@);
            assert(all.skip(i as int).skip(1) =~= all.skip(i + 1));
        }
        if same_text(projects[i].id.as_str(), id) {
            return Some(copy_bytes(&projects[i].path));
        }
        i += 1;
    }
    None
}

/// The file that one side of a change puts into a tree, if it puts one there.
pub fn tree_entry(config: &GitReceiptConfig, change: &Change, baseline: bool) -> (result: Result<
    Option<TreeEntry>,
    GitAdapterError,
>)
    ensures
        entry_result(result) == entry_of_change(config@, change@, baseline),
{
    let project = match find_project(&config.projects, change.root_id.as_str()) {
        Some(path) => path,
        None => {
            return Err(GitAdapterError::MissingProject(change.root_id.clone()));
        },
    };
    let relative = match decode_base64(change.path_bytes_base64.as_str()) {
        Ok(bytes) => bytes,
        Err(message) => {
            return Err(GitAdapterError::Io(message));
        },
    };
    let state = if baseline {
        &change.before
    } else {
        &change.after
    };
    match state {
        FileState::Present { object } => {
            let digest = match object_digest(object.object_id.as_str()) {
                Some(digest) => digest,
                None => {
                    return Err(GitAdapterError::Io("invalid tracker object ID".to_owned()));
                },
            };
            let key = hex_text(&sha256_digest(&project));
            let mut path = copy_bytes(key.as_str().as_bytes());
            path.push(SEPARATOR);
            append_bytes(&mut path, &relative);
            Ok(
                Some(
                    TreeEntry {
                        mode: git_mode(object.mode.as_str()).to_owned(),
                        path,
                        object: object_path(&config.tracker_output, digest.as_str()),
                    },
                ),
            )
        },
        _ => Ok(None),
    }
}

/// A file is found in both trees of a receipt under the same path.
pub proof fn both_trees_use_the_same_path(config: GitReceiptConfigView, change: ChangeView)
    requires
        entry_of_change(config, change, true) matches Ok(Some(_)),
        entry_of_change(config, change, false) matches Ok(Some(_)),
    ensures
        entry_of_change(config, change, true)->Ok_0->0.path == entry_of_change(
            config,
            change,
            false,
        )->Ok_0->0.path,
{
}

/// One call of Git: the repository and the index that it works on, its arguments, and what it
/// reads.
#[verifier::ext_equal]
pub struct GitCallView {
    pub repository: Option<Seq<u8>>,
    pub index: Option<Seq<u8>>,
    pub arguments: Seq<Seq<u8>>,
    pub input: Option<Seq<u8>>,
}

/// One call of Git: the repository and the index that it works on, its arguments, and what it
/// reads.
#[derive(Debug)]
pub struct GitCall {
    pub repository: Option<Vec<u8>>,
    pub index: Option<Vec<u8>>,
    pub arguments: Vec<Vec<u8>>,
    pub input: Option<Vec<u8>>,
}

/// The bytes of an optional byte string.
pub open spec fn optional_bytes(value: Option<Vec<u8>>) -> Option<Seq<u8>> {
    match value {
        Some(bytes) => Some(bytes@),
        None => None,
    }
}

impl View for GitCall {
    type V = GitCallView;

    open spec fn view(&self) -> GitCallView {
        GitCallView {
            repository: optional_bytes(self.repository),
            index: optional_bytes(self.index),
            arguments: deep(self.arguments@),
            input: optional_bytes(self.input),
        }
    }
}

/// The index that one side of the report is gathered in.
pub open spec fn index_of(config: GitReceiptConfigView, baseline: bool) -> Seq<u8> {
    joined(
        config.tracker_output,
        encode_utf8(
            if baseline {
                ".git-baseline-index"@
            } else {
                ".git-report-index"@
            },
        ),
    )
}

fn index_path(config: &GitReceiptConfig, baseline: bool) -> (path: Vec<u8>)
    ensures
        path@ == index_of(config@, baseline),
{
    if baseline {
        join(&config.tracker_output, ".git-baseline-index".as_bytes())
    } else {
        join(&config.tracker_output, ".git-report-index".as_bytes())
    }
}

/// How far the making of a receipt has come. A flag tells the baseline from the report, a
/// number the change that is looked at.
#[derive(Debug, Clone, Copy, PartialEq, Eq, Structural)]
pub enum ReceiptPhase {
    Prepare,
    Init,
    CheckRef,
    ClearIndex(bool),
    EmptyIndex(bool),
    Entry(bool, usize),
    Hash(bool, usize),
    Add(bool, usize),
    DropIndexes,
    CommitBaseline,
    CommitReport,
    UpdateRef,
    Publish,
}

/// How far the making of a receipt has come, with what Git has answered so far.
#[verifier::ext_equal]
pub struct ReceiptWorkView {
    pub phase: ReceiptPhase,
    pub content: Seq<u8>,
    pub blob: Seq<char>,
    pub baseline_tree: Seq<char>,
    pub report_tree: Seq<char>,
    pub baseline_commit: Seq<char>,
    pub report_commit: Seq<char>,
}

/// What is to be done next for a receipt.
pub enum ReceiptActionView {
    Skip,
    MakeDirectory(Seq<u8>),
    Remove(Seq<Seq<u8>>),
    Run(GitCallView),
    Read(Seq<u8>),
    Publish(GitReceiptV2View),
}

/// What is to be done next for a receipt.
#[derive(Debug)]
pub enum ReceiptAction {
    /// Nothing.
    Skip,
    /// Make the directory, with those that it lies in.
    MakeDirectory(Vec<u8>),
    /// Remove the files that are there.
    Remove(Vec<Vec<u8>>),
    /// Call Git and take its answer.
    Run(GitCall),
    /// Read the file and take its content.
    Read(Vec<u8>),
    /// Write the receipt.
    Publish(GitReceiptV2),
}

impl View for ReceiptAction {
    type V = ReceiptActionView;

    open spec fn view(&self) -> ReceiptActionView {
        match self {
            ReceiptAction::Skip => ReceiptActionView::Skip,
            ReceiptAction::MakeDirectory(path) => ReceiptActionView::MakeDirectory(path@),
            ReceiptAction::Remove(paths) => ReceiptActionView::Remove(deep(paths@)),
            ReceiptAction::Run(call) => ReceiptActionView::Run(call@),
            ReceiptAction::Read(path) => ReceiptActionView::Read(path@),
            ReceiptAction::Publish(receipt) => ReceiptActionView::Publish(receipt@),
        }
    }
}

/// A call of Git on the repository.
pub open spec fn repository_call(
    config: GitReceiptConfigView,
    arguments: Seq<Seq<u8>>,
    input: Option<Seq<u8>>,
) -> ReceiptActionView {
    ReceiptActionView::Run(
        GitCallView { repository: Some(config.repository), index: None, arguments, input },
    )
}

/// A call of Git on the repository and the index of one side.
pub open spec fn index_call(
    config: GitReceiptConfigView,
    baseline: bool,
    arguments: Seq<Seq<u8>>,
) -> ReceiptActionView {
    ReceiptActionView::Run(
        GitCallView {
            repository: Some(config.repository),
            index: Some(index_of(config, baseline)),
            arguments,
            input: None,
        },
    )
}

/// The message of the report's commit.
pub open spec fn report_message(run_id: Seq<char>) -> Seq<char> {
    "fs-tracker report\n\nFs-Tracker-Run-Id: "@ + run_id + "\n"@
}

/// What is to be done next for a receipt, or why there is none.
pub open spec fn next_action(
    work: ReceiptWorkView,
    config: GitReceiptConfigView,
    changes: Seq<ChangeView>,
    repository_exists: bool,
) -> Result<ReceiptActionView, GitAdapterErrorView> {
    match work.phase {
        ReceiptPhase::Prepare => Ok(
            match parent_of(config.repository) {
                Some(directory) => ReceiptActionView::MakeDirectory(directory),
                None => ReceiptActionView::Skip,
            },
        ),
        ReceiptPhase::Init => Ok(
            if repository_exists {
                ReceiptActionView::Skip
            } else {
                ReceiptActionView::Run(
                    GitCallView {
                        repository: None,
                        index: None,
                        arguments: seq![
                            encode_utf8("init"@),
                            encode_utf8("--bare"@),
                            config.repository,
                        ],
                        input: None,
                    },
                )
            },
        ),
        ReceiptPhase::CheckRef => Ok(
            repository_call(
                config,
                seq![encode_utf8("check-ref-format"@), encode_utf8(config.report_ref)],
                None,
            ),
        ),
        ReceiptPhase::ClearIndex(baseline) => Ok(
            ReceiptActionView::Remove(seq![index_of(config, baseline)]),
        ),
        ReceiptPhase::EmptyIndex(baseline) => Ok(
            index_call(
                config,
                baseline,
                seq![encode_utf8("read-tree"@), encode_utf8("--empty"@)],
            ),
        ),
        ReceiptPhase::Entry(baseline, at) => if at >= changes.len() {
            Ok(index_call(config, baseline, seq![encode_utf8("write-tree"@)]))
        } else {
            match entry_of_change(config, changes[at as int], baseline) {
                Err(error) => Err(error),
                Ok(None) => Ok(ReceiptActionView::Skip),
                Ok(Some(entry)) => Ok(ReceiptActionView::Read(entry.object)),
            }
        },
        ReceiptPhase::Hash(baseline, at) => Ok(
            repository_call(
                config,
                seq![encode_utf8("hash-object"@), encode_utf8("-w"@), encode_utf8("--stdin"@)],
                Some(work.content),
            ),
        ),
        ReceiptPhase::Add(baseline, at) => if at >= changes.len() {
            Ok(ReceiptActionView::Skip)
        } else {
            match entry_of_change(config, changes[at as int], baseline) {
                Err(error) => Err(error),
                Ok(None) => Ok(ReceiptActionView::Skip),
                Ok(Some(entry)) => Ok(
                    index_call(
                        config,
                        baseline,
                        arguments_to_add(entry, work.blob),
                    ),
                ),
            }
        },
        ReceiptPhase::DropIndexes => Ok(
            ReceiptActionView::Remove(seq![index_of(config, true), index_of(config, false)]),
        ),
        ReceiptPhase::CommitBaseline => Ok(
            repository_call(
                config,
                seq![encode_utf8("commit-tree"@), encode_utf8(work.baseline_tree)],
                Some(encode_utf8("fs-tracker baseline\n"@)),
            ),
        ),
        ReceiptPhase::CommitReport => Ok(
            repository_call(
                config,
                seq![
                    encode_utf8("commit-tree"@),
                    encode_utf8(work.report_tree),
                    encode_utf8("-p"@),
                    encode_utf8(work.baseline_commit),
                ],
                Some(encode_utf8(report_message(config.run_id))),
            ),
        ),
        ReceiptPhase::UpdateRef => Ok(
            repository_call(
                config,
                seq![
                    encode_utf8("update-ref"@),
                    encode_utf8(config.report_ref),
                    encode_utf8(work.report_commit),
                ],
                None,
            ),
        ),
        ReceiptPhase::Publish => Ok(
            ReceiptActionView::Publish(
                GitReceiptV2View {
                    schema_version: RECEIPT_VERSION,
                    run_id: config.run_id,
                    workspace_id: config.workspace_id,
                    baseline_commit_sha: work.baseline_commit,
                    report_commit_sha: work.report_commit,
                },
            ),
        ),
    }
}

/// What came of an action: nothing to speak of, the text that Git answered, or the content of
/// a file.
pub enum ReceiptAnswerView {
    Done,
    Text(Seq<char>),
    Content(Seq<u8>),
}

/// What came of an action: nothing to speak of, the text that Git answered, or the content of
/// a file.
#[derive(Debug)]
pub enum ReceiptAnswer {
    Done,
    Text(String),
    Content(Vec<u8>),
}

impl View for ReceiptAnswer {
    type V = ReceiptAnswerView;

    open spec fn view(&self) -> ReceiptAnswerView {
        match self {
            ReceiptAnswer::Done => ReceiptAnswerView::Done,
            ReceiptAnswer::Text(text) => ReceiptAnswerView::Text(text@),
            ReceiptAnswer::Content(bytes) => ReceiptAnswerView::Content(bytes@),
        }
    }
}

/// The number of the next change, as far as numbers go.
pub open spec fn following(at: usize) -> usize {
    if at == usize::MAX {
        at
    } else {
        (at + 1) as usize
    }
}

/// The making of a receipt behind the answer to its last action. An answer that does not
/// belong to the action changes nothing.
pub open spec fn answered(work: ReceiptWorkView, answer: ReceiptAnswerView) -> ReceiptWorkView {
    match (work.phase, answer) {
        (ReceiptPhase::Prepare, _) => ReceiptWorkView { phase: ReceiptPhase::Init, ..work },
        (ReceiptPhase::Init, _) => ReceiptWorkView { phase: ReceiptPhase::CheckRef, ..work },
        (ReceiptPhase::CheckRef, _) => ReceiptWorkView {
            phase: ReceiptPhase::ClearIndex(true),
            ..work
        },
        (ReceiptPhase::ClearIndex(baseline), _) => ReceiptWorkView {
            phase: ReceiptPhase::EmptyIndex(baseline),
            ..work
        },
        (ReceiptPhase::EmptyIndex(baseline), _) => ReceiptWorkView {
            phase: ReceiptPhase::Entry(baseline, 0),
            ..work
        },
        (ReceiptPhase::Entry(baseline, at), ReceiptAnswerView::Text(tree)) => if baseline {
            ReceiptWorkView {
                phase: ReceiptPhase::ClearIndex(false),
                baseline_tree: tree,
                ..work
            }
        } else {
            ReceiptWorkView { phase: ReceiptPhase::DropIndexes, report_tree: tree, ..work }
        },
        (ReceiptPhase::Entry(baseline, at), ReceiptAnswerView::Content(content)) => ReceiptWorkView {
            phase: ReceiptPhase::Hash(baseline, at),
            content,
            ..work
        },
        (ReceiptPhase::Entry(baseline, at), ReceiptAnswerView::Done) => ReceiptWorkView {
            phase: ReceiptPhase::Entry(baseline, following(at)),
            ..work
        },
        (ReceiptPhase::Hash(baseline, at), ReceiptAnswerView::Text(blob)) => ReceiptWorkView {
            phase: ReceiptPhase::Add(baseline, at),
            blob,
            ..work
        },
        (ReceiptPhase::Add(baseline, at), _) => ReceiptWorkView {
            phase: ReceiptPhase::Entry(baseline, following(at)),
            ..work
        },
        (ReceiptPhase::DropIndexes, _) => ReceiptWorkView {
            phase: ReceiptPhase::CommitBaseline,
            ..work
        },
        (ReceiptPhase::CommitBaseline, ReceiptAnswerView::Text(commit)) => ReceiptWorkView {
            phase: ReceiptPhase::CommitReport,
            baseline_commit: commit,
            ..work
        },
        (ReceiptPhase::CommitReport, ReceiptAnswerView::Text(commit)) => ReceiptWorkView {
            phase: ReceiptPhase::UpdateRef,
            report_commit: commit,
            ..work
        },
        (ReceiptPhase::UpdateRef, _) => ReceiptWorkView { phase: ReceiptPhase::Publish, ..work },
        _ => work,
    }
}

/// The making of a receipt from its beginning.
pub open spec fn work_begun() -> ReceiptWorkView {
    ReceiptWorkView {
        phase: ReceiptPhase::Prepare,
        content: Seq::empty(),
        blob: Seq::empty(),
        baseline_tree: Seq::empty(),
        report_tree: Seq::empty(),
        baseline_commit: Seq::empty(),
        report_commit: Seq::empty(),
    }
}

/// How far the making of a receipt has come, with what Git has answered so far.
#[derive(Debug)]
pub struct ReceiptWork {
    phase: ReceiptPhase,
    content: Vec<u8>,
    blob: String,
    baseline_tree: String,
    report_tree: String,
    baseline_commit: String,
    report_commit: String,
}

impl View for ReceiptWork {
    type V = ReceiptWorkView;

    closed spec fn view(&self) -> ReceiptWorkView {
        ReceiptWorkView {
            phase: self.phase,
            content: self.content@,
            blob: self.blob@,
            baseline_tree: self.baseline_tree@,
            report_tree: self.report_tree@,
            baseline_commit: self.baseline_commit@,
            report_commit: self.report_commit@,
        }
    }
}

fn argument(text: &str) -> (bytes: Vec<u8>)
    ensures
        bytes@ == encode_utf8(text@),
{
    copy_bytes(text.as_bytes())
}

fn list1(a: Vec<u8>) -> (list: Vec<Vec<u8>>)
    ensures
        deep(list@) == seq![a@],
{
    let mut list: Vec<Vec<u8>> = Vec::new();
    list.push(a);
    assert(deep(list@) =~= seq![a@]);
    list
}

fn list2(a: Vec<u8>, b: Vec<u8>) -> (list: Vec<Vec<u8>>)
    ensures
        deep(list@) == seq![a@, b@],
{
    let mut list: Vec<Vec<u8>> = Vec::new();
    list.push(a);
    list.push(b);
    assert(deep(list@) =~= seq![a@, b@]);
    list
}

fn list3(a: Vec<u8>, b: Vec<u8>, c: Vec<u8>) -> (list: Vec<Vec<u8>>)
    ensures
        deep(list@) == seq![a@, b@, c@],
{
    let mut list: Vec<Vec<u8>> = Vec::new();
    list.push(a);
    list.push(b);
    list.push(c);
    assert(deep(list@) =~= seq![a@, b@, c@]);
    list
}

fn list4(a: Vec<u8>, b: Vec<u8>, c: Vec<u8>, d: Vec<u8>) -> (list: Vec<Vec<u8>>)
    ensures
        deep(list@) == seq![a@, b@, c@, d@],
{
    let mut list: Vec<Vec<u8>> = Vec::new();
    list.push(a);
    list.push(b);
    list.push(c);
    list.push(d);
    assert(deep(list@) =~= seq![a@, b@, c@, d@]);
    list
}

/// The arguments that put a file into an index.
pub open spec fn arguments_to_add(entry: TreeEntryView, blob: Seq<char>) -> Seq<Seq<u8>> {
    seq![
        encode_utf8("update-index"@),
        encode_utf8("--add"@),
        encode_utf8("--cacheinfo"@),
        encode_utf8(entry.mode),
        encode_utf8(blob),
        entry.path,
    ]
}

fn add_arguments(entry: TreeEntry, blob: &str) -> (list: Vec<Vec<u8>>)
    ensures
        deep(list@) == arguments_to_add(entry@, blob@),
{
    let mut list: Vec<Vec<u8>> = Vec::new();
    list.push(argument("update-index"));
    list.push(argument("--add"));
    list.push(argument("--cacheinfo"));
    list.push(argument(entry.mode.as_str()));
    list.push(argument(blob));
    list.push(entry.path);
    assert(deep(list@) =~= arguments_to_add(entry@, blob@));
    list
}

fn on_repository(config: &GitReceiptConfig, arguments: Vec<Vec<u8>>, input: Option<Vec<u8>>) -> (action:
    ReceiptAction)
    ensures
        action@ == repository_call(config@, deep(arguments@), optional_bytes(input)),
{
    ReceiptAction::Run(
        GitCall {
            repository: Some(copy_bytes(&config.repository)),
            index: None,
            arguments,
            input,
        },
    )
}

fn on_index(config: &GitReceiptConfig, baseline: bool, arguments: Vec<Vec<u8>>) -> (action:
    ReceiptAction)
    ensures
        action@ == index_call(config@, baseline, deep(arguments@)),
{
    ReceiptAction::Run(
        GitCall {
            repository: Some(copy_bytes(&config.repository)),
            index: Some(index_path(config, baseline)),
            arguments,
            input: None,
        },
    )
}

/// What the next action came to.
pub open spec fn action_result(result: Result<ReceiptAction, GitAdapterError>) -> Result<
    ReceiptActionView,
    GitAdapterErrorView,
> {
    match result {
        Ok(action) => Ok(action@),
        Err(error) => Err(error@),
    }
}

impl ReceiptWork {
    /// The making of a receipt from its beginning.
    pub fn new() -> (work: Self)
        ensures
            work@ == work_begun(),
    {
        let work = ReceiptWork {
            phase: ReceiptPhase::Prepare,
            content: Vec::new(),
            blob: String::new(),
            baseline_tree: String::new(),
            report_tree: String::new(),
            baseline_commit: String::new(),
            report_commit: String::new(),
        };
        assert(work@ =~= work_begun());
        work
    }

    /// What is to be done next for a receipt, or why there is none. The caller does it and
    /// records the answer.
    pub fn next(
        &self,
        config: &GitReceiptConfig,
        changes: &Vec<Change>,
        repository_exists: bool,
    ) -> (result: Result<ReceiptAction, GitAdapterError>)
        ensures
            action_result(result) == next_action(
                self@,
                config@,
                change_views(changes@),
                repository_exists,
            ),
    {
        match self.phase {
            ReceiptPhase::Prepare => match parent(&config.repository) {
                Some(directory) => Ok(ReceiptAction::MakeDirectory(directory)),
                None => Ok(ReceiptAction::Skip),
            },
            ReceiptPhase::Init => {
                if repository_exists {
                    return Ok(ReceiptAction::Skip);
                }
                let arguments = list3(
                    argument("init"),
                    argument("--bare"),
                    copy_bytes(&config.repository),
                );
                Ok(
                    ReceiptAction::Run(
                        GitCall { repository: None, index: None, arguments, input: None },
                    ),
                )
            },
            ReceiptPhase::CheckRef => Ok(
                on_repository(
                    config,
                    list2(argument("check-ref-format"), argument(config.report_ref.as_str())),
                    None,
                ),
            ),
            ReceiptPhase::ClearIndex(baseline) => Ok(
                ReceiptAction::Remove(list1(index_path(config, baseline))),
            ),
            ReceiptPhase::EmptyIndex(baseline) => Ok(
                on_index(config, baseline, list2(argument("read-tree"), argument("--empty"))),
            ),
            ReceiptPhase::Entry(baseline, at) => {
                if at >= changes.len() {
                    return Ok(on_index(config, baseline, list1(argument("write-tree"))));
                }
                assert(change_views(changes@)[at as int] == changes@[at as int]@);
                match tree_entry(config, &changes[at], baseline) {
                    Err(error) => Err(error),
                    Ok(None) => Ok(ReceiptAction::Skip),
                    Ok(Some(entry)) => Ok(ReceiptAction::Read(entry.object)),
                }
            },
            ReceiptPhase::Hash(_, _) => Ok(
                on_repository(
                    config,
                    list3(argument("hash-object"), argument("-w"), argument("--stdin")),
                    Some(copy_bytes(&self.content)),
                ),
            ),
            ReceiptPhase::Add(baseline, at) => {
                if at >= changes.len() {
                    return Ok(ReceiptAction::Skip);
                }
                assert(change_views(changes@)[at as int] == changes@[at as int]@);
                match tree_entry(config, &changes[at], baseline) {
                    Err(error) => Err(error),
                    Ok(None) => Ok(ReceiptAction::Skip),
                    Ok(Some(entry)) => Ok(
                        on_index(config, baseline, add_arguments(entry, self.blob.as_str())),
                    ),
                }
            },
            ReceiptPhase::DropIndexes => Ok(
                ReceiptAction::Remove(list2(index_path(config, true), index_path(config, false))),
            ),
            ReceiptPhase::CommitBaseline => Ok(
                on_repository(
                    config,
                    list2(argument("commit-tree"), argument(self.baseline_tree.as_str())),
                    Some(argument("fs-tracker baseline\n")),
                ),
            ),
            ReceiptPhase::CommitReport => {
                let message = concat3(
                    "fs-tracker report\n\nFs-Tracker-Run-Id: ",
                    config.run_id.as_str(),
                    "\n",
                );
                Ok(
                    on_repository(
                        config,
                        list4(
                            argument("commit-tree"),
                            argument(self.report_tree.as_str()),
                            argument("-p"),
                            argument(self.baseline_commit.as_str()),
                        ),
                        Some(argument(message.as_str())),
                    ),
                )
            },
            ReceiptPhase::UpdateRef => Ok(
                on_repository(
                    config,
                    list3(
                        argument("update-ref"),
                        argument(config.report_ref.as_str()),
                        argument(self.report_commit.as_str()),
                    ),
                    None,
                ),
            ),
            ReceiptPhase::Publish => Ok(
                ReceiptAction::Publish(
                    GitReceiptV2 {
                        schema_version: RECEIPT_VERSION,
                        run_id: config.run_id.clone(),
                        workspace_id: config.workspace_id.clone(),
                        baseline_commit_sha: self.baseline_commit.clone(),
                        report_commit_sha: self.report_commit.clone(),
                    },
                ),
            ),
        }
    }

    /// Records the answer to the last action.
    pub fn record(&mut self, answer: ReceiptAnswer)
        ensures
            final(self)@ == answered(old(self)@, answer@),
    {
        let ghost before = self@;
        let ghost view = answer@;
        match (self.phase, answer) {
            (ReceiptPhase::Prepare, _) => {
                self.phase = ReceiptPhase::Init;
            },
            (ReceiptPhase::Init, _) => {
                self.phase = ReceiptPhase::CheckRef;
            },
            (ReceiptPhase::CheckRef, _) => {
                self.phase = ReceiptPhase::ClearIndex(true);
            },
            (ReceiptPhase::ClearIndex(baseline), _) => {
                self.phase = ReceiptPhase::EmptyIndex(baseline);
            },
            (ReceiptPhase::EmptyIndex(baseline), _) => {
                self.phase = ReceiptPhase::Entry(baseline, 0);
            },
            (ReceiptPhase::Entry(baseline, _), ReceiptAnswer::Text(tree)) => {
                if baseline {
                    self.baseline_tree = tree;
                    self.phase = ReceiptPhase::ClearIndex(false);
                } else {
                    self.report_tree = tree;
                    self.phase = ReceiptPhase::DropIndexes;
                }
            },
            (ReceiptPhase::Entry(baseline, at), ReceiptAnswer::Content(content)) => {
                self.content = content;
                self.phase = ReceiptPhase::Hash(baseline, at);
            },
            (ReceiptPhase::Entry(baseline, at), ReceiptAnswer::Done) => {
                self.phase = ReceiptPhase::Entry(baseline, next_index(at));
            },
            (ReceiptPhase::Hash(baseline, at), ReceiptAnswer::Text(blob)) => {
                self.blob = blob;
                self.phase = ReceiptPhase::Add(baseline, at);
            },
            (ReceiptPhase::Add(baseline, at), _) => {
                self.phase = ReceiptPhase::Entry(baseline, next_index(at));
            },
            (ReceiptPhase::DropIndexes, _) => {
                self.phase = ReceiptPhase::CommitBaseline;
            },
            (ReceiptPhase::CommitBaseline, ReceiptAnswer::Text(commit)) => {
                self.baseline_commit = commit;
                self.phase = ReceiptPhase::CommitReport;
            },
            (ReceiptPhase::CommitReport, ReceiptAnswer::Text(commit)) => {
                self.report_commit = commit;
                self.phase = ReceiptPhase::UpdateRef;
            },
            (ReceiptPhase::UpdateRef, _) => {
                self.phase = ReceiptPhase::Publish;
            },
            _ => {},
        }
        assert(self@ =~= answered(before, view));
    }
}

fn next_index(at: usize) -> (next: usize)
    ensures
        next == following(at),
{
    if at == usize::MAX {
        at
    } else {
        at + 1
    }
}

/// The phase speaks of changes that are there.
pub open spec fn phase_fits(phase: ReceiptPhase, count: nat) -> bool {
    match phase {
        ReceiptPhase::Entry(baseline, at) => at <= count,
        ReceiptPhase::Hash(baseline, at) => at < count,
        ReceiptPhase::Add(baseline, at) => at < count,
        _ => true,
    }
}

/// The answer is one that the action can have.
pub open spec fn answers_action(action: ReceiptActionView, answer: ReceiptAnswerView) -> bool {
    match action {
        ReceiptActionView::Run(call) => answer is Text,
        ReceiptActionView::Read(path) => answer is Content,
        _ => answer is Done,
    }
}

/// The number of steps that the making of a receipt still takes, at most.
pub open spec fn steps_left(phase: ReceiptPhase, count: nat) -> int {
    let report = 5int;
    let baseline_side = report + 3 * count + 3;
    match phase {
        ReceiptPhase::Prepare => baseline_side + 3 * count + 6,
        ReceiptPhase::Init => baseline_side + 3 * count + 5,
        ReceiptPhase::CheckRef => baseline_side + 3 * count + 4,
        ReceiptPhase::ClearIndex(baseline) => if baseline {
            baseline_side + 3 * count + 3
        } else {
            report + 3 * count + 3
        },
        ReceiptPhase::EmptyIndex(baseline) => if baseline {
            baseline_side + 3 * count + 2
        } else {
            report + 3 * count + 2
        },
        ReceiptPhase::Entry(baseline, at) => if baseline {
            baseline_side + 3 * (count - at) + 1
        } else {
            report + 3 * (count - at) + 1
        },
        ReceiptPhase::Hash(baseline, at) => if baseline {
            baseline_side + 3 * (count - at)
        } else {
            report + 3 * (count - at)
        },
        ReceiptPhase::Add(baseline, at) => if baseline {
            baseline_side + 3 * (count - at) - 1
        } else {
            report + 3 * (count - at) - 1
        },
        ReceiptPhase::DropIndexes => 5,
        ReceiptPhase::CommitBaseline => 4,
        ReceiptPhase::CommitReport => 3,
        ReceiptPhase::UpdateRef => 2,
        ReceiptPhase::Publish => 1,
    }
}

/// The making of a receipt ends: as long as nothing fails, every answer leaves fewer steps to
/// be done, until the receipt is there to be published.
pub proof fn the_receipt_gets_done(
    work: ReceiptWorkView,
    config: GitReceiptConfigView,
    changes: Seq<ChangeView>,
    repository_exists: bool,
    answer: ReceiptAnswerView,
)
    requires
        phase_fits(work.phase, changes.len()),
        changes.len() < usize::MAX,
        next_action(work, config, changes, repository_exists) is Ok,
        answers_action(next_action(work, config, changes, repository_exists)->Ok_0, answer),
    ensures
        phase_fits(answered(work, answer).phase, changes.len()),
        work.phase is Publish || steps_left(answered(work, answer).phase, changes.len())
            < steps_left(work.phase, changes.len()),
        steps_left(work.phase, changes.len()) > 0,
{
}

/// A receipt names the two commits that Git answered: that of the baseline and, on top of it,
/// that of the report.
pub proof fn the_receipt_names_the_commits(
    work: ReceiptWorkView,
    config: GitReceiptConfigView,
    changes: Seq<ChangeView>,
    repository_exists: bool,
    baseline: Seq<char>,
    report: Seq<char>,
    updated: ReceiptAnswerView,
)
    requires
        work.phase is CommitBaseline,
    ensures
        ({
            let first = answered(work, ReceiptAnswerView::Text(baseline));
            let second = answered(first, ReceiptAnswerView::Text(report));
            let last = answered(second, updated);
            &&& next_action(first, config, changes, repository_exists) == Ok::<
                ReceiptActionView,
                GitAdapterErrorView,
            >(
                repository_call(
                    config,
                    seq![
                        encode_utf8("commit-tree"@),
                        encode_utf8(work.report_tree),
                        encode_utf8("-p"@),
                        encode_utf8(baseline),
                    ],
                    Some(encode_utf8(report_message(config.run_id))),
                ),
            )
            &&& next_action(last, config, changes, repository_exists) == Ok::<
                ReceiptActionView,
                GitAdapterErrorView,
            >(
                ReceiptActionView::Publish(
                    GitReceiptV2View {
                        schema_version: RECEIPT_VERSION,
                        run_id: config.run_id,
                        workspace_id: config.workspace_id,
                        baseline_commit_sha: baseline,
                        report_commit_sha: report,
                    },
                ),
            )
        }),
{
}

/// What the commits of a receipt depend on: a call of Git, with the side whose index it works
/// on, or the content of a stored object. Where the repository and the tracker's output lie
/// is left open.
pub enum Question {
    Git { side: Option<bool>, arguments: Seq<Seq<u8>>, input: Option<Seq<u8>> },
    Object { digest: Seq<char> },
}

/// The action that puts a question, with the places that the configuration names.
pub open spec fn action_for(question: Question, config: GitReceiptConfigView) -> ReceiptActionView {
    match question {
        Question::Git { side, arguments, input } => ReceiptActionView::Run(
            GitCallView {
                repository: Some(config.repository),
                index: match side {
                    Some(baseline) => Some(index_of(config, baseline)),
                    None => None,
                },
                arguments,
                input,
            },
        ),
        Question::Object { digest } => ReceiptActionView::Read(
            object_path_of(config.tracker_output, digest),
        ),
    }
}

/// The question that the next action puts, where the commits depend on its answer. Preparing
/// the repository, removing indexes, naming the report and publishing put none.
pub open spec fn question_of(
    work: ReceiptWorkView,
    config: GitReceiptConfigView,
    changes: Seq<ChangeView>,
) -> Option<Question> {
    match work.phase {
        ReceiptPhase::EmptyIndex(baseline) => Some(
            Question::Git {
                side: Some(baseline),
                arguments: seq![encode_utf8("read-tree"@), encode_utf8("--empty"@)],
                input: None,
            },
        ),
        ReceiptPhase::Entry(baseline, at) => if at >= changes.len() {
            Some(
                Question::Git {
                    side: Some(baseline),
                    arguments: seq![encode_utf8("write-tree"@)],
                    input: None,
                },
            )
        } else {
            match entry_of_change(config, changes[at as int], baseline) {
                Ok(Some(_)) => Some(
                    Question::Object {
                        digest: digest_in(
                            side_of(changes[at as int], baseline)->object.object_id,
                        )->0,
                    },
                ),
                _ => None,
            }
        },
        ReceiptPhase::Hash(baseline, at) => Some(
            Question::Git {
                side: None,
                arguments: seq![
                    encode_utf8("hash-object"@),
                    encode_utf8("-w"@),
                    encode_utf8("--stdin"@),
                ],
                input: Some(work.content),
            },
        ),
        ReceiptPhase::Add(baseline, at) => if at >= changes.len() {
            None
        } else {
            match entry_of_change(config, changes[at as int], baseline) {
                Ok(Some(entry)) => Some(
                    Question::Git {
                        side: Some(baseline),
                        arguments: arguments_to_add(entry, work.blob),
                        input: None,
                    },
                ),
                _ => None,
            }
        },
        ReceiptPhase::CommitBaseline => Some(
            Question::Git {
                side: None,
                arguments: seq![encode_utf8("commit-tree"@), encode_utf8(work.baseline_tree)],
                input: Some(encode_utf8("fs-tracker baseline\n"@)),
            },
        ),
        ReceiptPhase::CommitReport => Some(
            Question::Git {
                side: None,
                arguments: seq![
                    encode_utf8("commit-tree"@),
                    encode_utf8(work.report_tree),
                    encode_utf8("-p"@),
                    encode_utf8(work.baseline_commit),
                ],
                input: Some(encode_utf8(report_message(config.run_id))),
            },
        ),
        _ => None,
    }
}

/// The next action is the one that puts its question.
pub proof fn actions_put_their_questions(
    work: ReceiptWorkView,
    config: GitReceiptConfigView,
    changes: Seq<ChangeView>,
    repository_exists: bool,
)
    ensures
        match question_of(work, config, changes) {
            Some(question) => next_action(work, config, changes, repository_exists) == Ok::<
                ReceiptActionView,
                GitAdapterErrorView,
            >(action_for(question, config)),
            None => match next_action(work, config, changes, repository_exists) {
                Ok(ReceiptActionView::Run(_)) => work.phase is Init || work.phase is CheckRef
                    || work.phase is UpdateRef,
                Ok(ReceiptActionView::Read(_)) => false,
                _ => true,
            },
        },
{
}

/// The making of a receipt behind a question that was put, and the questions put so far. Git
/// answers each question by those that were put up to it, and an object has its content.
pub open spec fn question_answered(
    work: ReceiptWorkView,
    put: Seq<Question>,
    question: Option<Question>,
    git: spec_fn(Seq<Question>) -> Seq<char>,
    objects: spec_fn(Seq<char>) -> Seq<u8>,
) -> (ReceiptWorkView, Seq<Question>) {
    match question {
        None => (answered(work, ReceiptAnswerView::Done), put),
        Some(Question::Object { digest }) => (
            answered(work, ReceiptAnswerView::Content(objects(digest))),
            put.push(Question::Object { digest }),
        ),
        Some(asked) => (
            answered(work, ReceiptAnswerView::Text(git(put.push(asked)))),
            put.push(asked),
        ),
    }
}

/// The making of a receipt behind a number of steps, with the questions that were put. Where
/// there is an error, nothing goes on.
pub open spec fn course(
    config: GitReceiptConfigView,
    changes: Seq<ChangeView>,
    repository_exists: bool,
    git: spec_fn(Seq<Question>) -> Seq<char>,
    objects: spec_fn(Seq<char>) -> Seq<u8>,
    steps: nat,
) -> (ReceiptWorkView, Seq<Question>)
    decreases steps,
{
    if steps == 0 {
        (work_begun(), Seq::empty())
    } else {
        let (work, put) = course(
            config,
            changes,
            repository_exists,
            git,
            objects,
            (steps - 1) as nat,
        );
        if next_action(work, config, changes, repository_exists) is Err {
            (work, put)
        } else {
            question_answered(work, put, question_of(work, config, changes), git, objects)
        }
    }
}

/// The commit of the report has been made.
pub open spec fn report_is_committed(phase: ReceiptPhase) -> bool {
    phase is UpdateRef || phase is Publish
}

proof fn lemma_questions_are_alike(
    work: ReceiptWorkView,
    one: GitReceiptConfigView,
    other: GitReceiptConfigView,
    changes: Seq<ChangeView>,
    one_exists: bool,
    other_exists: bool,
)
    requires
        forall|id: Seq<char>| #[trigger]
            project_of(one.projects, id) == project_of(other.projects, id),
    ensures
        next_action(work, one, changes, one_exists) is Err == next_action(
            work,
            other,
            changes,
            other_exists,
        ) is Err,
        !(work.phase is CommitReport) || one.run_id == other.run_id ==> question_of(
            work,
            one,
            changes,
        ) == question_of(work, other, changes),
{
    match work.phase {
        ReceiptPhase::Entry(baseline, at) => {
            if at < changes.len() {
                lemma_entries_are_alike(one, other, changes[at as int], baseline);
            }
        },
        ReceiptPhase::Add(baseline, at) => {
            if at < changes.len() {
                lemma_entries_are_alike(one, other, changes[at as int], baseline);
            }
        },
        _ => {},
    }
}

proof fn lemma_entries_are_alike(
    one: GitReceiptConfigView,
    other: GitReceiptConfigView,
    change: ChangeView,
    baseline: bool,
)
    requires
        project_of(one.projects, change.root_id) == project_of(other.projects, change.root_id),
    ensures
        match (entry_of_change(one, change, baseline), entry_of_change(other, change, baseline)) {
            (Ok(Some(first)), Ok(Some(second))) => first.mode == second.mode && first.path
                == second.path,
            (Ok(None), Ok(None)) => true,
            (Err(_), Err(_)) => true,
            _ => false,
        },
{
}

proof fn lemma_committed_course_goes_on(
    first: ReceiptWorkView,
    second: ReceiptWorkView,
    config: GitReceiptConfigView,
    changes: Seq<ChangeView>,
    repository_exists: bool,
)
    requires
        first == (ReceiptWorkView { report_commit: first.report_commit, ..second }),
        report_is_committed(first.phase),
    ensures
        question_of(first, config, changes) is None,
        next_action(first, config, changes, repository_exists) is Ok,
        answered(first, ReceiptAnswerView::Done).phase is Publish,
        answered(first, ReceiptAnswerView::Done) == (ReceiptWorkView {
            report_commit: first.report_commit,
            ..answered(second, ReceiptAnswerView::Done)
        }),
{
}

proof fn lemma_courses_are_alike(
    one: GitReceiptConfigView,
    other: GitReceiptConfigView,
    changes: Seq<ChangeView>,
    one_exists: bool,
    other_exists: bool,
    git: spec_fn(Seq<Question>) -> Seq<char>,
    objects: spec_fn(Seq<char>) -> Seq<u8>,
    steps: nat,
)
    requires
        forall|id: Seq<char>| #[trigger]
            project_of(one.projects, id) == project_of(other.projects, id),
    ensures
        ({
            let (first, asked) = course(one, changes, one_exists, git, objects, steps);
            let (second, put) = course(other, changes, other_exists, git, objects, steps);
            &&& !report_is_committed(first.phase) || one.run_id == other.run_id ==> first == second
                && asked == put
            &&& first == (ReceiptWorkView { report_commit: first.report_commit, ..second })
        }),
    decreases steps,
{
    if steps > 0 {
        let less = (steps - 1) as nat;
        lemma_courses_are_alike(one, other, changes, one_exists, other_exists, git, objects, less);
        let first = course(one, changes, one_exists, git, objects, less).0;
        let second = course(other, changes, other_exists, git, objects, less).0;
        if report_is_committed(first.phase) {
            lemma_committed_course_goes_on(first, second, one, changes, one_exists);
            lemma_committed_course_goes_on(second, second, other, changes, other_exists);
        } else {
            lemma_questions_are_alike(first, one, other, changes, one_exists, other_exists);
        }
    }
}

/// The commits of a receipt are deterministic. Of the same changes, objects and projects, two
/// receipts put the same calls and the same input to Git up to the commit of the report,
/// whatever their run, workspace and ref are called, wherever their repositories and outputs
/// lie, and whenever they are made: the environment of the calls is fixed. So Git, which answers
/// the same calls alike, gives them the same baseline commit; and where the runs have the same
/// identifier, the same report commit.
pub proof fn the_commits_are_deterministic(
    one: GitReceiptConfigView,
    other: GitReceiptConfigView,
    changes: Seq<ChangeView>,
    one_exists: bool,
    other_exists: bool,
    git: spec_fn(Seq<Question>) -> Seq<char>,
    objects: spec_fn(Seq<char>) -> Seq<u8>,
    steps: nat,
)
    requires
        forall|id: Seq<char>| #[trigger]
            project_of(one.projects, id) == project_of(other.projects, id),
    ensures
        ({
            let (first, asked) = course(one, changes, one_exists, git, objects, steps);
            let (second, put) = course(other, changes, other_exists, git, objects, steps);
            &&& first.phase == second.phase
            &&& first.baseline_tree == second.baseline_tree
            &&& first.report_tree == second.report_tree
            &&& first.baseline_commit == second.baseline_commit
            &&& !report_is_committed(first.phase) ==> asked == put
            &&& one.run_id == other.run_id ==> first == second && asked == put
            &&& first.phase is Publish ==> ({
                let receipt = next_action(first, one, changes, one_exists)->Ok_0->Publish_0;
                let again = next_action(second, other, changes, other_exists)->Ok_0->Publish_0;
                &&& receipt.baseline_commit_sha == again.baseline_commit_sha
                &&& one.run_id == other.run_id ==> receipt.report_commit_sha
                    == again.report_commit_sha
            })
        }),
{
    lemma_courses_are_alike(one, other, changes, one_exists, other_exists, git, objects, steps);
}

/// What the program and the repository are called by.
pub open spec fn call_words(call: GitCallView) -> Seq<Seq<u8>> {
    let program = seq![encode_utf8("git"@)];
    match call.repository {
        Some(repository) => program.push(encode_utf8("--git-dir="@) + repository) + call.arguments,
        None => program + call.arguments,
    }
}

/// The position of the first zero byte in the first of the words that holds one.
pub open spec fn first_zero_in(words: Seq<Seq<u8>>) -> Option<nat>
    decreases words.len(),
{
    if words.len() == 0 {
        None
    } else {
        match first_zero(words[0]) {
            Some(position) => Some(position),
            None => first_zero_in(words.skip(1)),
        }
    }
}

/// What is said of an argument with a zero byte.
pub open spec fn zero_message(position: nat) -> Seq<char> {
    "nul byte found in provided data at position: "@ + decimal(position as int)
}

/// The words of a call of Git; none may hold a zero byte.
pub fn git_command(call: &GitCall) -> (result: Result<Vec<Vec<u8>>, GitAdapterError>)
    ensures
        match first_zero_in(call_words(call@)) {
            None => match result {
                Ok(words) => deep(words@) == call_words(call@),
                Err(_) => false,
            },
            Some(position) => match result {
                Ok(_) => false,
                Err(error) => error@ == GitAdapterErrorView::Io(zero_message(position)),
            },
        },
{
    let mut words: Vec<Vec<u8>> = Vec::new();
    words.push(argument("git"));
    assert(deep(words@) =~= seq![encode_utf8("git"@)]);
    if let Some(repository) = &call.repository {
        let mut word = argument("--git-dir=");
        append_bytes(&mut word, repository);
        let ghost before = words@;
        words.push(word);
        assert(deep(words@) =~= deep(before).push(encode_utf8("--git-dir="@) + repository@));
    }
    let ghost lead = deep(words@);
    let ghost all = deep(call.arguments@);
    assert(lead + all.take(0) =~= lead);
    let mut i: usize = 0;
    while i < call.arguments.len()
        invariant
            i <= call.arguments@.len(),
            all == deep(call.arguments@),
            deep(words@) == lead + all.take(i as int),
        decreases call.arguments@.len() - i,
    {
        let ghost before = words@;
        words.push(copy_bytes(&call.arguments[i]));
        assert(deep(words@) =~= deep(before).push(all[i as int]));
        assert(deep(words@) =~= lead + all.take(i + 1));
        i += 1;
    }
    assert(all.take(all.len() as int) =~= all);
    assert(deep(words@) =~= call_words(call@));
    let ghost whole = deep(words@);
    let mut j: usize = 0;
    assert(whole.skip(0) =~= whole);
    while j < words.len()
        invariant
            j <= words@.len(),
            whole == deep(words@),
            whole == call_words(call@),
            first_zero_in(whole) == first_zero_in(whole.skip(j as int)),
        decreases words@.len() - j,
    {
        proof {
            assert(whole.skip(j as int)[0] == words@[j as int]@);
            assert(whole.skip(j as int).skip(1) =~= whole.skip(j + 1));
        }
        if let Some(position) = nul_position(&words[j]) {
            return Err(
                GitAdapterError::Io(
                    concat2(
                        "nul byte found in provided data at position: ",
                        decimal_text(position as u64).as_str(),
                    ),
                ),
            );
        }
        j += 1;
    }
    Ok(words)
}

/// The names and values that Git finds in its environment, so that the same content always
/// makes the same commit.
pub open spec fn environment() -> Seq<(Seq<char>, Seq<char>)> {
    seq![
        ("GIT_AUTHOR_NAME"@, "fs-tracker"@),
        ("GIT_AUTHOR_EMAIL"@, "fs-tracker@localhost"@),
        ("GIT_COMMITTER_NAME"@, "fs-tracker"@),
        ("GIT_COMMITTER_EMAIL"@, "fs-tracker@localhost"@),
        ("GIT_AUTHOR_DATE"@, "2000-01-01T00:00:00Z"@),
        ("GIT_COMMITTER_DATE"@, "2000-01-01T00:00:00Z"@),
    ]
}

/// The names and values that Git finds in its environment.
pub fn git_environment() -> (pairs: Vec<(&'static str, &'static str)>)
    ensures
        pairs@.map_values(|pair: (&'static str, &'static str)| (pair.0@, pair.1@)) == environment(),
{
    let mut pairs: Vec<(&'static str, &'static str)> = Vec::new();
    pairs.push(("GIT_AUTHOR_NAME", "fs-tracker"));
    pairs.push(("GIT_AUTHOR_EMAIL", "fs-tracker@localhost"));
    pairs.push(("GIT_COMMITTER_NAME", "fs-tracker"));
    pairs.push(("GIT_COMMITTER_EMAIL", "fs-tracker@localhost"));
    pairs.push(("GIT_AUTHOR_DATE", "2000-01-01T00:00:00Z"));
    pairs.push(("GIT_COMMITTER_DATE", "2000-01-01T00:00:00Z"));
    assert(pairs@.map_values(|pair: (&'static str, &'static str)| (pair.0@, pair.1@))
        =~= environment());
    pairs
}

/// Words with a space between each two, read as text.
pub open spec fn spaced(words: Seq<Seq<u8>>) -> Seq<char>
    decreases words.len(),
{
    if words.len() == 0 {
        Seq::empty()
    } else if words.len() == 1 {
        lossy_text(words[0])
    } else {
        spaced(words.drop_last()) + " "@ + lossy_text(words.last())
    }
}

fn spaced_text(words: &Vec<Vec<u8>>) -> (text: String)
    ensures
        text@ == spaced(deep(words@)),
{
    let mut text = String::new();
    let ghost all = deep(words@);
    assert(all.take(0) =~= Seq::<Seq<u8>>::empty());
    assert(text@ =~= spaced(all.take(0)));
    let mut i: usize = 0;
    while i < words.len()
        invariant
            i <= words@.len(),
            all == deep(words@),
            text@ == spaced(all.take(i as int)),
        decreases words@.len() - i,
    {
        let ghost before = text@;
        proof {
            assert(all.take(i + 1).drop_last() =~= all.take(i as int));
            assert(all.take(i + 1).last() == words@[i as int]@);
        }
        if i > 0 {
            text.append(" ");
        }
        text.append(lossy(&words[i]).as_str());
        proof {
            if i == 0 {
                assert(text@ =~= lossy_text(words@[0]@));
            }
        }
        i += 1;
    }
    assert(all.take(all.len() as int) =~= all);
    text
}

/// How a call of Git ended: with the text that it wrote, without the white space around it,
/// where it ended well and the text is UTF-8.
pub open spec fn git_answer(call: GitCallView, status: i32, stdout: Seq<u8>, stderr: Seq<u8>) -> Result<
    Seq<char>,
    GitAdapterErrorView,
> {
    if !exited(status) || (status >> 8) & 0xff != 0 {
        Err(
            GitAdapterErrorView::Git {
                command: "git "@ + spaced(call.arguments),
                stderr: trimmed(lossy_text(stderr)),
            },
        )
    } else if !valid_utf8(stdout) {
        Err(GitAdapterErrorView::InvalidObjectId)
    } else {
        Ok(trimmed(decode_utf8(stdout)))
    }
}

/// What a call of Git came to.
pub open spec fn text_result(result: Result<String, GitAdapterError>) -> Result<
    Seq<char>,
    GitAdapterErrorView,
> {
    match result {
        Ok(text) => Ok(text@),
        Err(error) => Err(error@),
    }
}

/// How a call of Git ended.
pub fn git_outcome(call: &GitCall, status: i32, stdout: &[u8], stderr: &[u8]) -> (result: Result<
    String,
    GitAdapterError,
>)
    ensures
        text_result(result) == git_answer(call@, status, stdout@, stderr@),
{
    if !libc::WIFEXITED(status) || libc::WEXITSTATUS(status) != 0 {
        return Err(
            GitAdapterError::Git {
                command: concat2("git ", spaced_text(&call.arguments).as_str()),
                stderr: trim(lossy(stderr).as_str()).to_owned(),
            },
        );
    }
    match utf8_text(stdout) {
        Some(text) => Ok(trim(text).to_owned()),
        None => Err(GitAdapterError::InvalidObjectId),
    }
}

/// The most that is read of what Git writes to its output, in bytes.
pub const MAX_GIT_OUTPUT: usize = 65_536;

/// The most that is kept of what Git writes to its error stream, in bytes.
pub const MAX_GIT_ERRORS: usize = 1_048_576;

/// What is kept of everything that was read: its head or its tail, up to a limit.
pub open spec fn kept_part(total: Seq<u8>, limit: usize, keep_tail: bool) -> Seq<u8> {
    if total.len() <= limit {
        total
    } else if keep_tail {
        total.skip(total.len() - limit)
    } else {
        total.take(limit as int)
    }
}

/// What was kept of everything that was read, and whether something was left out.
#[verifier::ext_equal]
pub struct DrainView {
    pub limit: usize,
    pub keep_tail: bool,
    pub kept: Seq<u8>,
    pub truncated: bool,
}

/// What was kept is the part of the total that is to be kept.
pub open spec fn drained(drain: DrainView, total: Seq<u8>) -> bool {
    &&& drain.kept == kept_part(total, drain.limit, drain.keep_tail)
    &&& drain.truncated == (total.len() > drain.limit)
}

/// Reads everything and keeps its head or its tail, up to a limit.
#[derive(Debug)]
pub struct BoundedDrain {
    limit: usize,
    keep_tail: bool,
    kept: Vec<u8>,
    truncated: bool,
}

impl View for BoundedDrain {
    type V = DrainView;

    closed spec fn view(&self) -> DrainView {
        DrainView {
            limit: self.limit,
            keep_tail: self.keep_tail,
            kept: self.kept@,
            truncated: self.truncated,
        }
    }
}

impl BoundedDrain {
    /// A drain that has read nothing yet.
    pub fn new(limit: usize, keep_tail: bool) -> (drain: Self)
        ensures
            drain@.limit == limit,
            drain@.keep_tail == keep_tail,
            drained(drain@, Seq::empty()),
    {
        let drain = BoundedDrain { limit, keep_tail, kept: Vec::new(), truncated: false };
        assert(drain@.kept =~= Seq::<u8>::empty());
        drain
    }

    /// Takes in the next bytes: what is kept is then the part of everything that was read.
    pub fn absorb(&mut self, chunk: &[u8])
        ensures
            final(self)@.limit == old(self)@.limit,
            final(self)@.keep_tail == old(self)@.keep_tail,
            forall|total: Seq<u8>|
                #![trigger drained(old(self)@, total)]
                #![trigger drained(final(self)@, total + chunk@)]
                drained(old(self)@, total) ==> drained(final(self)@, total + chunk@),
    {
        let ghost before = self@;
        if self.keep_tail {
            append_bytes(&mut self.kept, chunk);
            let ghost whole = self.kept@;
            if self.kept.len() > self.limit {
                let overflow: usize = self.kept.len() - self.limit;
                let tail = self.kept.split_off(overflow);
                assert(tail@ =~= whole.skip(overflow as int));
                self.kept = tail;
                self.truncated = true;
            }
            proof {
                let after = self@;
                assert forall|total: Seq<u8>| drained(before, total) implies #[trigger] drained(
                    after,
                    total + chunk@,
                ) by {
                    lemma_tail_grows(total, chunk@, before.limit);
                }
            }
        } else if self.kept.len() < self.limit {
            let available: usize = self.limit - self.kept.len();
            if chunk.len() > available {
                append_bytes(&mut self.kept, vstd::slice::slice_subrange(chunk, 0, available));
                self.truncated = true;
            } else {
                append_bytes(&mut self.kept, chunk);
            }
            proof {
                let after = self@;
                assert forall|total: Seq<u8>| drained(before, total) implies #[trigger] drained(
                    after,
                    total + chunk@,
                ) by {
                    assert(after.kept =~= kept_part(total + chunk@, before.limit, false));
                }
            }
        } else {
            if chunk.len() > 0 {
                self.truncated = true;
            }
            proof {
                let after = self@;
                assert forall|total: Seq<u8>| drained(before, total) implies #[trigger] drained(
                    after,
                    total + chunk@,
                ) by {
                    assert(after.kept =~= kept_part(total + chunk@, before.limit, false));
                }
            }
        }
    }

    /// What was kept, and whether something was left out.
    pub fn into_parts(self) -> (parts: (Vec<u8>, bool))
        ensures
            parts.0@ == self@.kept,
            parts.1 == self@.truncated,
    {
        (self.kept, self.truncated)
    }
}

proof fn lemma_tail_grows(total: Seq<u8>, chunk: Seq<u8>, limit: usize)
    ensures
        ({
            let whole = kept_part(total, limit, true) + chunk;
            kept_part(total + chunk, limit, true) == (if whole.len() > limit {
                whole.skip(whole.len() - limit)
            } else {
                whole
            })
        }),
        ({
            let whole = kept_part(total, limit, true) + chunk;
            ((total + chunk).len() > limit) == (total.len() > limit || whole.len() > limit)
        }),
{
    let whole = kept_part(total, limit, true) + chunk;
    if whole.len() > limit {
        assert(kept_part(total + chunk, limit, true) =~= whole.skip(whole.len() - limit));
    } else {
        assert(kept_part(total + chunk, limit, true) =~= whole);
    }
}

/// How a helper thread ended.
#[derive(Debug)]
pub enum Pumped {
    /// It panicked.
    Panicked,
    /// It failed, with these words.
    Failed(String),
    /// It read this, and left something out or not.
    Read(Vec<u8>, bool),
    /// It wrote everything.
    Wrote,
}

/// How the streams and the process of a call of Git ended, taken together: the first thing
/// that went wrong counts.
pub open spec fn pumping(
    stdin: Pumped,
    stdout: Pumped,
    stderr: Pumped,
    status: Result<i32, String>,
    result: Result<(i32, Vec<u8>, Vec<u8>), String>,
) -> bool {
    if stdin is Panicked {
        result matches Err(message) && message@ == "git stdin pump panicked"@
    } else if stdout is Panicked {
        result matches Err(message) && message@ == "git stdout pump panicked"@
    } else if stderr is Panicked {
        result matches Err(message) && message@ == "git stderr pump panicked"@
    } else if stdin is Failed {
        result matches Err(message) && message@ == stdin->Failed_0@
    } else if stdout is Failed {
        result matches Err(message) && message@ == stdout->Failed_0@
    } else if stderr is Failed {
        result matches Err(message) && message@ == stderr->Failed_0@
    } else if stdout is Read && stdout->Read_1 {
        result matches Err(message) && message@ == "git stdout exceeded 64 KiB"@
    } else {
        match status {
            Err(words) => result matches Err(message) && message@ == words@,
            Ok(code) => result matches Ok(parts) && parts.0 == code && parts.1@ == read_bytes(stdout)
                && parts.2@ == read_bytes(stderr),
        }
    }
}

/// What a helper thread has read.
pub open spec fn read_bytes(pumped: Pumped) -> Seq<u8> {
    match pumped {
        Pumped::Read(bytes, truncated) => bytes@,
        _ => Seq::empty(),
    }
}

fn into_bytes(pumped: Pumped) -> (bytes: Vec<u8>)
    ensures
        bytes@ == read_bytes(pumped),
{
    match pumped {
        Pumped::Read(bytes, _) => bytes,
        _ => {
            let none: Vec<u8> = Vec::new();
            assert(none@ =~= Seq::<u8>::empty());
            none
        },
    }
}

/// How the streams and the process of a call of Git ended, taken together.
pub fn pump_child_io(
    stdin: Pumped,
    stdout: Pumped,
    stderr: Pumped,
    status: Result<i32, String>,
) -> (result: Result<(i32, Vec<u8>, Vec<u8>), String>)
    ensures
        pumping(stdin, stdout, stderr, status, result),
{
    if let Pumped::Panicked = &stdin {
        return Err("git stdin pump panicked".to_owned());
    }
    if let Pumped::Panicked = &stdout {
        return Err("git stdout pump panicked".to_owned());
    }
    if let Pumped::Panicked = &stderr {
        return Err("git stderr pump panicked".to_owned());
    }
    if let Pumped::Failed(words) = &stdin {
        return Err(words.clone());
    }
    if let Pumped::Failed(words) = &stdout {
        return Err(words.clone());
    }
    if let Pumped::Failed(words) = &stderr {
        return Err(words.clone());
    }
    if let Pumped::Read(_, truncated) = &stdout {
        if *truncated {
            return Err("git stdout exceeded 64 KiB".to_owned());
        }
    }
    match status {
        Err(words) => Err(words),
        Ok(code) => Ok((code, into_bytes(stdout), into_bytes(stderr))),
    }
}

/// The name without its extension: what stands before its last dot, where that is not at its
/// beginning.
pub open spec fn stem_of(name: Seq<u8>) -> Seq<u8> {
    match last_dot(name) {
        Some(position) if position > 0 => name.take(position as int),
        _ => name,
    }
}

/// Where the last dot is.
pub open spec fn last_dot(name: Seq<u8>) -> Option<nat>
    decreases name.len(),
{
    if name.len() == 0 {
        None
    } else if name.last() == DOT {
        Some((name.len() - 1) as nat)
    } else {
        last_dot(name.drop_last())
    }
}

fn stem(name: &Vec<u8>) -> (result: Vec<u8>)
    ensures
        result@ == stem_of(name@),
{
    let mut i: usize = name.len();
    assert(name@.take(name@.len() as int) =~= name@);
    while i > 0
        invariant
            i <= name@.len(),
            last_dot(name@) == last_dot(name@.take(i as int)),
        decreases i,
    {
        assert(name@.take(i as int).drop_last() =~= name@.take(i - 1));
        if name[i - 1] == DOT {
            if i == 1 {
                return copy_bytes(name);
            }
            let head = vstd::slice::slice_subrange(name.as_slice(), 0, i - 1);
            assert(head@ =~= name@.take(i - 1));
            return copy_bytes(head);
        }
        i -= 1;
    }
    copy_bytes(name)
}

/// Where a receipt is written: first to a temporary place beside it.
#[derive(Debug)]
pub struct ReceiptPlace {
    pub directory: Vec<u8>,
    pub temporary: Vec<u8>,
    pub bytes: Vec<u8>,
}

/// The temporary place of a receipt: its path with another extension.
pub open spec fn temporary_receipt(path: Seq<u8>) -> Seq<u8> {
    match file_name_of(path) {
        Some(name) => body_of(path).take(body_of(path).len() - name.len()) + stem_of(name)
            + encode_utf8(".tmp"@),
        None => path,
    }
}

/// Where and what to write for a receipt that is given as JSON: a newline goes behind it. A
/// receipt must lie in a directory.
pub fn receipt_place(path: &[u8], json: Vec<u8>) -> (result: Result<ReceiptPlace, GitAdapterError>)
    ensures
        match parent_of(path@) {
            None => match result {
                Err(error) => error@ == GitAdapterErrorView::Io("receipt has no parent"@),
                Ok(_) => false,
            },
            Some(directory) => match result {
                Ok(place) => {
                    &&& place.directory@ == directory
                    &&& place.temporary@ == temporary_receipt(path@)
                    &&& place.bytes@ == json@.push(NEWLINE)
                },
                Err(_) => false,
            },
        },
{
    let directory = match parent(path) {
        Some(directory) => directory,
        None => {
            return Err(GitAdapterError::Io("receipt has no parent".to_owned()));
        },
    };
    let temporary = match file_name(path) {
        Some(name) => {
            let whole = body(path);
            let lead = vstd::slice::slice_subrange(
                whole.as_slice(),
                0,
                whole.len() - name.len(),
            );
            let mut changed = copy_bytes(lead);
            assert(changed@ =~= body_of(path@).take(body_of(path@).len() - name@.len()));
            append_bytes(&mut changed, &stem(&name));
            append_bytes(&mut changed, ".tmp".as_bytes());
            changed
        },
        None => copy_bytes(path),
    };
    let mut bytes = json;
    bytes.push(NEWLINE);
    Ok(ReceiptPlace { directory, temporary, bytes })
}

/// The tree of one side holds the file of that side: the baseline tree the object and the mode
/// of the state before the run, the report tree those of the state after it, whatever the other
/// state is. A side without the file puts nothing into its tree.
pub proof fn each_tree_holds_its_own_side(
    config: GitReceiptConfig,
    change: Change,
    project: Seq<u8>,
    relative: Seq<u8>,
    before: Result<Option<TreeEntry>, GitAdapterError>,
    after: Result<Option<TreeEntry>, GitAdapterError>,
)
    requires
        call_ensures(tree_entry, (&config, &change, true), before),
        call_ensures(tree_entry, (&config, &change, false), after),
        project_of(root_views(config.projects@), change.root_id@) == Some(project),
        base64_decoded(change.path_bytes_base64@) == Ok::<Seq<u8>, Seq<char>>(relative),
    ensures
        !(change.before is Present) ==> before is Ok && before->Ok_0 is None,
        !(change.after is Present) ==> after is Ok && after->Ok_0 is None,
        change.before is Present && digest_in(change.before->object.object_id@) is Some ==> {
            &&& before is Ok
            &&& before->Ok_0 is Some
            &&& before->Ok_0->0.object@ == joined(
                joined(config.tracker_output@, encode_utf8("objects"@)),
                encode_utf8(digest_in(change.before->object.object_id@)->0),
            )
            &&& before->Ok_0->0.mode@ == git_mode_of(change.before->object.mode@)
            &&& before->Ok_0->0.path@ == encode_utf8(hex(sha256(project))).push(47u8) + relative
        },
        change.after is Present && digest_in(change.after->object.object_id@) is Some ==> {
            &&& after is Ok
            &&& after->Ok_0 is Some
            &&& after->Ok_0->0.object@ == joined(
                joined(config.tracker_output@, encode_utf8("objects"@)),
                encode_utf8(digest_in(change.after->object.object_id@)->0),
            )
            &&& after->Ok_0->0.mode@ == git_mode_of(change.after->object.mode@)
            &&& after->Ok_0->0.path@ == encode_utf8(hex(sha256(project))).push(47u8) + relative
        },
        change.before is Present && digest_in(change.before->object.object_id@) is None ==> before
            is Err && before->Err_0@ == GitAdapterErrorView::Io("invalid tracker object ID"@),
        change.after is Present && digest_in(change.after->object.object_id@) is None ==> after
            is Err && after->Err_0@ == GitAdapterErrorView::Io("invalid tracker object ID"@),
{
}

/// Files with different content before and after the run go into the two trees as different
/// objects.
pub proof fn a_modification_shows_in_the_trees(
    config: GitReceiptConfig,
    change: Change,
    old: Seq<char>,
    new: Seq<char>,
    before: Result<Option<TreeEntry>, GitAdapterError>,
    after: Result<Option<TreeEntry>, GitAdapterError>,
)
    requires
        call_ensures(tree_entry, (&config, &change, true), before),
        call_ensures(tree_entry, (&config, &change, false), after),
        project_of(root_views(config.projects@), change.root_id@) is Some,
        base64_decoded(change.path_bytes_base64@) is Ok,
        change.before is Present,
        change.after is Present,
        change.before->object.object_id@ == "sha256:"@ + old,
        change.after->object.object_id@ == "sha256:"@ + new,
        old != new,
        encode_utf8(old).len() > 0 ==> encode_utf8(old)[0] != 47,
        encode_utf8(new).len() > 0 ==> encode_utf8(new)[0] != 47,
    ensures
        before is Ok && before->Ok_0 is Some,
        after is Ok && after->Ok_0 is Some,
        before->Ok_0->0.object@ != after->Ok_0->0.object@,
        before->Ok_0->0.path@ == after->Ok_0->0.path@,
{
    let lead = "sha256:"@;
    let first = change.before->object.object_id@;
    let second = change.after->object.object_id@;
    assert(first.subrange(0, lead.len() as int) =~= lead);
    assert(first.skip(lead.len() as int) =~= old);
    assert(second.subrange(0, lead.len() as int) =~= lead);
    assert(second.skip(lead.len() as int) =~= new);
    if encode_utf8(old) == encode_utf8(new) {
        encoding_determines_text(old, new);
    }
    let dir = joined(config.tracker_output@, encode_utf8("objects"@));
    let a = joined(dir, encode_utf8(old));
    let b = joined(dir, encode_utf8(new));
    let cut = if dir.len() == 0 || dir.last() == 47 {
        dir.len() as int
    } else {
        dir.len() as int + 1
    };
    assert(a.skip(cut) =~= encode_utf8(old));
    assert(b.skip(cut) =~= encode_utf8(new));
}

/// A file without a project, or with a path that cannot be read, makes no tree.
pub proof fn a_file_needs_a_project_and_a_path(
    config: GitReceiptConfig,
    change: Change,
    baseline: bool,
    result: Result<Option<TreeEntry>, GitAdapterError>,
)
    requires
        call_ensures(tree_entry, (&config, &change, baseline), result),
    ensures
        project_of(root_views(config.projects@), change.root_id@) is None ==> result is Err
            && result->Err_0@ == GitAdapterErrorView::MissingProject(change.root_id@),
        project_of(root_views(config.projects@), change.root_id@) is Some && base64_decoded(
            change.path_bytes_base64@,
        ) is Err ==> result is Err && result->Err_0@ == GitAdapterErrorView::Io(
            base64_decoded(change.path_bytes_base64@)->Err_0,
        ),
{
}

/// The project of a root is that of the first mapping with its identifier.
pub proof fn a_project_is_that_of_the_first_mapping(projects: Seq<RootView>, id: Seq<char>, at: int)
    ensures
        0 <= at < projects.len() && projects[at].id == id && (forall|i: int|
            0 <= i < at ==> (#[trigger] projects[i]).id != id) ==> project_of(projects, id) == Some(
            projects[at].path,
        ),
        (forall|i: int| 0 <= i < projects.len() ==> (#[trigger] projects[i]).id != id)
            ==> project_of(projects, id) is None,
    decreases projects.len(),
{
    if projects.len() > 0 {
        let rest = projects.skip(1);
        assert forall|i: int| 0 <= i < rest.len() implies #[trigger] rest[i] == projects[i + 1] by {}
        a_project_is_that_of_the_first_mapping(rest, id, at - 1);
    }
}

/// Git knows three modes of a file: that of a link, where the mode begins with its type; that
/// of a program, where others may execute it; and that of any other file.
pub proof fn modes_become_modes_of_git(mode: &str, result: &'static str)
    requires
        call_ensures(git_mode, (mode,), result),
    ensures
        ({
            let link = mode@.len() >= 3 && mode@[0] == '1' && mode@[1] == '2' && mode@[2] == '0';
            let program = mode@.len() > 0 && (mode@.last() == '1' || mode@.last() == '3'
                || mode@.last() == '5' || mode@.last() == '7');
            &&& link ==> result@ == "120000"@
            &&& !link && program ==> result@ == "100755"@
            &&& !link && !program ==> result@ == "100644"@
        }),
{
    reveal_strlit("120");
    let lead = "120"@;
    if lead.is_prefix_of(mode@) {
        assert(mode@.subrange(0, 3)[0] == mode@[0]);
        assert(mode@.subrange(0, 3)[1] == mode@[1]);
        assert(mode@.subrange(0, 3)[2] == mode@[2]);
    }
    if mode@.len() >= 3 && mode@[0] == '1' && mode@[1] == '2' && mode@[2] == '0' {
        assert(mode@.subrange(0, 3) =~= lead);
    }
}

/// A receipt is refused exactly where the run's identifier is blank, or the workspace's is not
/// sixty-four hexadecimal digits in lower case; the run's is looked at first.
pub proof fn identities_are_checked(config: GitReceiptConfig, result: Result<(), GitAdapterError>)
    requires
        call_ensures(validate_identity, (&config,), result),
    ensures
        ({
            let blank = forall|i: int|
                0 <= i < config.run_id@.len() ==> is_white_space(#[trigger] config.run_id@[i]);
            let digits = config.workspace_id@.len() == 64 && forall|i: int|
                0 <= i < 64 ==> {
                    let c = #[trigger] config.workspace_id@[i];
                    ('0' <= c && c <= '9') || ('a' <= c && c <= 'f')
                };
            &&& result is Ok <==> !blank && digits
            &&& blank ==> result is Err && result->Err_0 is InvalidRunId
            &&& !blank && !digits ==> result is Err && result->Err_0 is InvalidWorkspaceId
        }),
{
    lemma_blank_text(config.run_id@);
    if result is Err {
        assert(result->Err_0@ is InvalidRunId || result->Err_0@ is InvalidWorkspaceId);
    }
    let id = config.workspace_id@;
    if is_workspace_id(id) {
        assert forall|i: int| 0 <= i < 64 implies {
            let c = #[trigger] id[i];
            ('0' <= c && c <= '9') || ('a' <= c && c <= 'f')
        } by {
            assert(is_lower_hex(id[i]));
        }
    }
}

/// A text is blank exactly where trimming leaves nothing of it.
proof fn lemma_blank_text(text: Seq<char>)
    ensures
        trimmed(text).len() == 0 <==> forall|i: int|
            0 <= i < text.len() ==> is_white_space(#[trigger] text[i]),
{
    trimming_takes_the_white_space_off(text);
    let (front, back) = choose|front: Seq<char>, back: Seq<char>| #[trigger]
        surrounds(text, front, trimmed(text), back);
    if trimmed(text).len() == 0 {
        assert(text =~= front + back);
        assert forall|i: int| 0 <= i < text.len() implies is_white_space(#[trigger] text[i]) by {
            if i < front.len() {
                assert(is_white_space(front[i]));
            } else {
                assert(is_white_space(back[i - front.len()]));
            }
        }
    } else {
        assert(text[front.len() as int] == trimmed(text)[0]);
    }
}

/// A report becomes a receipt exactly where it is finished or less is accepted.
pub proof fn only_finished_reports_are_taken(
    state: RunState,
    allow_partial: bool,
    result: Result<(), GitAdapterError>,
)
    requires
        call_ensures(check_report, (state, allow_partial), result),
    ensures
        result is Ok <==> state == RunState::Finished || allow_partial,
        result is Err ==> result->Err_0 is Incomplete && result->Err_0->Incomplete_0 == state,
{
    if result is Err {
        assert(result->Err_0@ is Incomplete);
    }
}

/// A call of Git names the repository where it has one, then its arguments, in their order; it
/// is refused exactly where a word holds a zero byte.
pub proof fn a_call_holds_all_its_words(call: GitCall, result: Result<Vec<Vec<u8>>, GitAdapterError>)
    requires
        call_ensures(git_command, (&call,), result),
    ensures
        result is Ok ==> {
            let lead = if call.repository is Some {
                2int
            } else {
                1
            };
            &&& result->Ok_0@.len() == lead + call.arguments@.len()
            &&& result->Ok_0@[0]@ == encode_utf8("git"@)
            &&& call.repository is Some ==> result->Ok_0@[1]@ == encode_utf8("--git-dir="@)
                + call.repository->0@
            &&& forall|i: int|
                0 <= i < call.arguments@.len() ==> (#[trigger] result->Ok_0@[lead + i])@
                    == call.arguments@[i]@
        },
        result is Ok ==> forall|i: int, j: int|
            0 <= i < call.arguments@.len() && 0 <= j < call.arguments@[i]@.len()
                ==> #[trigger] call.arguments@[i]@[j] != 0,
        result is Err ==> result->Err_0 is Io,
{
    let words = call_words(call@);
    if result is Ok {
        let found = result->Ok_0@;
        assert(deep(found) == words);
        assert(deep(found).len() == found.len());
        assert forall|i: int| 0 <= i < found.len() implies (#[trigger] found[i])@ == words[i] by {
            assert(deep(found)[i] == found[i]@);
        }
        lemma_no_zero_in(words);
        let lead = if call.repository is Some {
            2int
        } else {
            1
        };
        assert forall|i: int| 0 <= i < call.arguments@.len() implies (#[trigger] found[lead + i])@
            == call.arguments@[i]@ by {
            assert(deep(call.arguments@)[i] == call.arguments@[i]@);
            assert(words[lead + i] == deep(call.arguments@)[i]);
        }
        assert forall|i: int, j: int|
            0 <= i < call.arguments@.len() && 0 <= j < call.arguments@[i]@.len() implies
            #[trigger] call.arguments@[i]@[j] != 0 by {
            assert(deep(call.arguments@)[i] == call.arguments@[i]@);
            assert(words[lead + i] == call.arguments@[i]@);
            crate::linux::the_first_zero_is_first(words[lead + i]);
        }
    } else {
        assert(result->Err_0@ is Io);
    }
}

proof fn lemma_no_zero_in(words: Seq<Seq<u8>>)
    ensures
        first_zero_in(words) is None ==> forall|i: int|
            0 <= i < words.len() ==> first_zero(#[trigger] words[i]) is None,
    decreases words.len(),
{
    if words.len() > 0 && first_zero_in(words) is None {
        let rest = words.skip(1);
        lemma_no_zero_in(rest);
        assert forall|i: int| 0 <= i < words.len() implies first_zero(#[trigger] words[i]) is None by {
            if i > 0 {
                assert(rest[i - 1] == words[i]);
            }
        }
    }
}

/// Git finds a fixed author, committer and time.
pub proof fn commits_have_a_fixed_author_and_time(pairs: Vec<(&'static str, &'static str)>)
    requires
        call_ensures(git_environment, (), pairs),
    ensures
        pairs@.len() == 6,
        pairs@[0].0@ == "GIT_AUTHOR_NAME"@ && pairs@[0].1@ == "fs-tracker"@,
        pairs@[1].0@ == "GIT_AUTHOR_EMAIL"@ && pairs@[1].1@ == "fs-tracker@localhost"@,
        pairs@[2].0@ == "GIT_COMMITTER_NAME"@ && pairs@[2].1@ == "fs-tracker"@,
        pairs@[3].0@ == "GIT_COMMITTER_EMAIL"@ && pairs@[3].1@ == "fs-tracker@localhost"@,
        pairs@[4].0@ == "GIT_AUTHOR_DATE"@ && pairs@[4].1@ == "2000-01-01T00:00:00Z"@,
        pairs@[5].0@ == "GIT_COMMITTER_DATE"@ && pairs@[5].1@ == "2000-01-01T00:00:00Z"@,
{
    let views = pairs@.map_values(|pair: (&'static str, &'static str)| (pair.0@, pair.1@));
    assert(views.len() == pairs@.len());
    assert(views[0] == (pairs@[0].0@, pairs@[0].1@));
    assert(views[1] == (pairs@[1].0@, pairs@[1].1@));
    assert(views[2] == (pairs@[2].0@, pairs@[2].1@));
    assert(views[3] == (pairs@[3].0@, pairs@[3].1@));
    assert(views[4] == (pairs@[4].0@, pairs@[4].1@));
    assert(views[5] == (pairs@[5].0@, pairs@[5].1@));
}

/// A call of Git answers with what it wrote, without the white space around it, exactly where it
/// exited with zero and wrote UTF-8.
pub proof fn git_answers_where_it_ends_well(
    call: GitCall,
    status: i32,
    stdout: &[u8],
    stderr: &[u8],
    result: Result<String, GitAdapterError>,
)
    requires
        call_ensures(git_outcome, (&call, status, stdout, stderr), result),
    ensures
        ({
            let well = status & 0x7f == 0 && (status >> 8) & 0xff == 0;
            &&& result is Ok <==> well && valid_utf8(stdout@)
            &&& result is Ok ==> result->Ok_0@ == trimmed(decode_utf8(stdout@))
            &&& well && !valid_utf8(stdout@) ==> result->Err_0 is InvalidObjectId
            &&& !well ==> result->Err_0 is Git && result->Err_0->stderr@ == trimmed(
                lossy_text(stderr@),
            )
        }),
{
    if result is Err {
        assert(result->Err_0@ is Git || result->Err_0@ is InvalidObjectId);
    }
}

/// What is kept of a stream is its beginning, or its end, and as much of it as the limit allows.
pub proof fn a_bounded_part_is_kept(total: Seq<u8>, limit: usize, keep_tail: bool)
    ensures
        ({
            let kept = kept_part(total, limit, keep_tail);
            &&& kept.len() <= limit
            &&& kept.len() == limit || kept == total
            &&& !keep_tail ==> kept.is_prefix_of(total)
            &&& keep_tail ==> kept.is_suffix_of(total)
            &&& total.len() <= limit ==> kept == total
        }),
{
    let kept = kept_part(total, limit, keep_tail);
    if !keep_tail {
        assert(kept =~= total.subrange(0, kept.len() as int));
    } else {
        assert(kept =~= total.subrange((total.len() - kept.len()) as int, total.len() as int));
    }
}

/// A call of Git comes to its status and what it wrote exactly where every stream went well and
/// its output was not too long; what went wrong first is told otherwise.
pub proof fn a_call_succeeds_where_all_streams_do(
    stdin: Pumped,
    stdout: Pumped,
    stderr: Pumped,
    status: Result<i32, String>,
    result: Result<(i32, Vec<u8>, Vec<u8>), String>,
)
    requires
        call_ensures(pump_child_io, (stdin, stdout, stderr, status), result),
    ensures
        ({
            let panicked = stdin is Panicked || stdout is Panicked || stderr is Panicked;
            let failed = stdin is Failed || stdout is Failed || stderr is Failed;
            let long = stdout is Read && stdout->Read_1;
            &&& result is Ok <==> !panicked && !failed && !long && status is Ok
            &&& result is Ok ==> result->Ok_0.0 == status->Ok_0
            &&& result is Ok && stdout is Read ==> result->Ok_0.1@ == stdout->Read_0@
            &&& result is Ok && stderr is Read ==> result->Ok_0.2@ == stderr->Read_0@
            &&& !panicked && !failed && !long && status is Err ==> result->Err_0@
                == status->Err_0@
            &&& !panicked && !failed && long ==> result->Err_0@ == "git stdout exceeded 64 KiB"@
            &&& !panicked && stdin is Failed ==> result->Err_0@ == stdin->Failed_0@
        }),
{
}

/// A receipt is written beside its place, with a newline behind it; one that lies in no directory
/// cannot be written.
pub proof fn a_receipt_is_written_beside_its_place(
    path: &[u8],
    json: Vec<u8>,
    result: Result<ReceiptPlace, GitAdapterError>,
)
    requires
        call_ensures(receipt_place, (path, json), result),
    ensures
        result is Ok <==> parent_of(path@) is Some,
        result is Ok ==> result->Ok_0.directory@ == parent_of(path@)->0 && result->Ok_0.bytes@
            == json@.push(10u8),
        result is Ok && file_name_of(path@) is None ==> result->Ok_0.temporary@ == path@,
        result is Err ==> result->Err_0 is Io && result->Err_0->Io_0@ == "receipt has no parent"@,
{
    if result is Err {
        assert(result->Err_0@ is Io);
    }
}

/// The stem of a name is what stands before its last dot, unless the name begins with that dot
/// or has none.
pub proof fn a_stem_ends_before_the_last_dot(stem: Seq<u8>, extension: Seq<u8>)
    requires
        !extension.contains(46u8),
    ensures
        stem.len() > 0 ==> stem_of(stem.push(46u8) + extension) == stem,
        stem_of(seq![46u8] + extension) == seq![46u8] + extension,
        stem_of(extension) == extension,
{
    lemma_last_dot(stem.push(46u8), extension);
    lemma_last_dot(seq![46u8], extension);
    lemma_last_dot(Seq::empty(), extension);
    assert(Seq::<u8>::empty() + extension =~= extension);
    assert((stem.push(46u8) + extension).take(stem.len() as int) =~= stem);
}

proof fn lemma_last_dot(lead: Seq<u8>, rest: Seq<u8>)
    requires
        !rest.contains(46u8),
        lead.len() > 0 ==> lead.last() == 46,
    ensures
        last_dot(lead + rest) == if lead.len() == 0 {
            None
        } else {
            Some((lead.len() - 1) as nat)
        },
    decreases rest.len(),
{
    if rest.len() == 0 {
        assert(lead + rest =~= lead);
    } else {
        assert(rest.contains(rest.last()));
        assert((lead + rest).drop_last() =~= lead + rest.drop_last());
        assert forall|i: int| 0 <= i < rest.drop_last().len() implies rest.drop_last()[i] != 46 by {
            assert(rest.contains(rest[i]));
        }
        lemma_last_dot(lead, rest.drop_last());
    }
}

/// The places of a receipt: it is made in the repository, and each side is gathered in an index of
/// its own in the tracker's output.
pub proof fn each_side_has_its_own_index(config: GitReceiptConfigView)
    ensures
        index_of(config, true) == joined(
            config.tracker_output,
            encode_utf8(".git-baseline-index"@),
        ),
        index_of(config, false) == joined(config.tracker_output, encode_utf8(".git-report-index"@)),
{
}

/// A call of Git on the repository, and on the index of a side where there is one.
pub open spec fn calls_git(
    config: GitReceiptConfigView,
    side: Option<Seq<u8>>,
    arguments: Seq<Seq<u8>>,
    input: Option<Seq<u8>>,
) -> Result<ReceiptActionView, GitAdapterErrorView> {
    Ok(
        ReceiptActionView::Run(
            GitCallView { repository: Some(config.repository), index: side, arguments, input },
        ),
    )
}

/// How the repository is prepared: its directory is made, then itself where it is not there, and
/// the name of the report is checked.
pub proof fn a_receipt_prepares_its_repository(
    work: ReceiptWorkView,
    config: GitReceiptConfigView,
    changes: Seq<ChangeView>,
    repository_exists: bool,
)
    ensures
        work.phase is Prepare && parent_of(config.repository) is Some ==> next_action(
            work,
            config,
            changes,
            repository_exists,
        ) == Ok::<ReceiptActionView, GitAdapterErrorView>(
            ReceiptActionView::MakeDirectory(parent_of(config.repository)->0),
        ),
        work.phase is Init && repository_exists ==> next_action(
            work,
            config,
            changes,
            repository_exists,
        ) == Ok::<ReceiptActionView, GitAdapterErrorView>(ReceiptActionView::Skip),
        work.phase is Init && !repository_exists ==> next_action(
            work,
            config,
            changes,
            repository_exists,
        ) == Ok::<ReceiptActionView, GitAdapterErrorView>(
            ReceiptActionView::Run(
                GitCallView {
                    repository: None,
                    index: None,
                    arguments: seq![
                        encode_utf8("init"@),
                        encode_utf8("--bare"@),
                        config.repository,
                    ],
                    input: None,
                },
            ),
        ),
        work.phase is CheckRef ==> next_action(work, config, changes, repository_exists)
            == calls_git(
            config,
            None,
            seq![encode_utf8("check-ref-format"@), encode_utf8(config.report_ref)],
            None,
        ),
        answered(
            ReceiptWorkView { phase: ReceiptPhase::Prepare, ..work },
            ReceiptAnswerView::Done,
        ).phase is Init,
        forall|answer: ReceiptAnswerView|
            (#[trigger] answered(
                ReceiptWorkView { phase: ReceiptPhase::Init, ..work },
                answer,
            )).phase is CheckRef,
        forall|answer: ReceiptAnswerView|
            (#[trigger] answered(
                ReceiptWorkView { phase: ReceiptPhase::CheckRef, ..work },
                answer,
            )).phase == ReceiptPhase::ClearIndex(true),
{
}

/// How the tree of a side is made: its index is removed and emptied, every change is looked at in
/// its order, and the tree is written behind the last one. The file of a change is read, hashed,
/// and added with its mode, what Git called its content, and its path.
pub proof fn a_tree_is_made_of_the_files_of_its_side(
    work: ReceiptWorkView,
    config: GitReceiptConfigView,
    changes: Seq<ChangeView>,
    repository_exists: bool,
    baseline: bool,
    at: usize,
    entry: TreeEntryView,
)
    ensures
        work.phase == ReceiptPhase::ClearIndex(baseline) ==> next_action(
            work,
            config,
            changes,
            repository_exists,
        ) == Ok::<ReceiptActionView, GitAdapterErrorView>(
            ReceiptActionView::Remove(seq![index_of(config, baseline)]),
        ),
        work.phase == ReceiptPhase::EmptyIndex(baseline) ==> next_action(
            work,
            config,
            changes,
            repository_exists,
        ) == calls_git(
            config,
            Some(index_of(config, baseline)),
            seq![encode_utf8("read-tree"@), encode_utf8("--empty"@)],
            None,
        ),
        work.phase == ReceiptPhase::Entry(baseline, at) && at >= changes.len() ==> next_action(
            work,
            config,
            changes,
            repository_exists,
        ) == calls_git(
            config,
            Some(index_of(config, baseline)),
            seq![encode_utf8("write-tree"@)],
            None,
        ),
        work.phase == ReceiptPhase::Entry(baseline, at) && at < changes.len() && entry_of_change(
            config,
            changes[at as int],
            baseline,
        ) == Ok::<Option<TreeEntryView>, GitAdapterErrorView>(Some(entry)) ==> next_action(
            work,
            config,
            changes,
            repository_exists,
        ) == Ok::<ReceiptActionView, GitAdapterErrorView>(ReceiptActionView::Read(entry.object)),
        work.phase == ReceiptPhase::Entry(baseline, at) && at < changes.len() && entry_of_change(
            config,
            changes[at as int],
            baseline,
        ) == Ok::<Option<TreeEntryView>, GitAdapterErrorView>(None) ==> next_action(
            work,
            config,
            changes,
            repository_exists,
        ) == Ok::<ReceiptActionView, GitAdapterErrorView>(ReceiptActionView::Skip),
        work.phase == ReceiptPhase::Hash(baseline, at) ==> next_action(
            work,
            config,
            changes,
            repository_exists,
        ) == calls_git(
            config,
            None,
            seq![encode_utf8("hash-object"@), encode_utf8("-w"@), encode_utf8("--stdin"@)],
            Some(work.content),
        ),
        work.phase == ReceiptPhase::Add(baseline, at) && at < changes.len() && entry_of_change(
            config,
            changes[at as int],
            baseline,
        ) == Ok::<Option<TreeEntryView>, GitAdapterErrorView>(Some(entry)) ==> next_action(
            work,
            config,
            changes,
            repository_exists,
        ) == calls_git(
            config,
            Some(index_of(config, baseline)),
            seq![
                encode_utf8("update-index"@),
                encode_utf8("--add"@),
                encode_utf8("--cacheinfo"@),
                encode_utf8(entry.mode),
                encode_utf8(work.blob),
                entry.path,
            ],
            None,
        ),
{
}

/// What the answers come to while a tree is made: the content that was read is the one to be
/// hashed, what Git calls it is the one to be added, and the changes follow each other. The tree of
/// the baseline is kept and that of the report comes next; then both indexes go.
pub proof fn answers_make_up_the_trees(
    work: ReceiptWorkView,
    baseline: bool,
    at: usize,
    content: Seq<u8>,
    text: Seq<char>,
)
    requires
        at < usize::MAX,
    ensures
        answered(
            ReceiptWorkView { phase: ReceiptPhase::ClearIndex(baseline), ..work },
            ReceiptAnswerView::Done,
        ) == (ReceiptWorkView { phase: ReceiptPhase::EmptyIndex(baseline), ..work }),
        answered(
            ReceiptWorkView { phase: ReceiptPhase::EmptyIndex(baseline), ..work },
            ReceiptAnswerView::Text(text),
        ) == (ReceiptWorkView { phase: ReceiptPhase::Entry(baseline, 0), ..work }),
        answered(
            ReceiptWorkView { phase: ReceiptPhase::Entry(baseline, at), ..work },
            ReceiptAnswerView::Done,
        ) == (ReceiptWorkView { phase: ReceiptPhase::Entry(baseline, (at + 1) as usize), ..work }),
        answered(
            ReceiptWorkView { phase: ReceiptPhase::Entry(baseline, at), ..work },
            ReceiptAnswerView::Content(content),
        ) == (ReceiptWorkView { phase: ReceiptPhase::Hash(baseline, at), content, ..work }),
        answered(
            ReceiptWorkView { phase: ReceiptPhase::Hash(baseline, at), ..work },
            ReceiptAnswerView::Text(text),
        ) == (ReceiptWorkView { phase: ReceiptPhase::Add(baseline, at), blob: text, ..work }),
        answered(
            ReceiptWorkView { phase: ReceiptPhase::Add(baseline, at), ..work },
            ReceiptAnswerView::Text(text),
        ) == (ReceiptWorkView { phase: ReceiptPhase::Entry(baseline, (at + 1) as usize), ..work }),
        answered(
            ReceiptWorkView { phase: ReceiptPhase::Entry(true, at), ..work },
            ReceiptAnswerView::Text(text),
        ) == (ReceiptWorkView {
            phase: ReceiptPhase::ClearIndex(false),
            baseline_tree: text,
            ..work
        }),
        answered(
            ReceiptWorkView { phase: ReceiptPhase::Entry(false, at), ..work },
            ReceiptAnswerView::Text(text),
        ) == (ReceiptWorkView { phase: ReceiptPhase::DropIndexes, report_tree: text, ..work }),
        answered(
            ReceiptWorkView { phase: ReceiptPhase::DropIndexes, ..work },
            ReceiptAnswerView::Done,
        ) == (ReceiptWorkView { phase: ReceiptPhase::CommitBaseline, ..work }),
{
}

/// How the receipt ends: the baseline tree is committed alone, the report tree on top of it with
/// the run's identifier, and the report's name is set to the second commit; the receipt tells both.
pub proof fn the_report_is_committed_on_the_baseline(
    work: ReceiptWorkView,
    config: GitReceiptConfigView,
    changes: Seq<ChangeView>,
    repository_exists: bool,
    text: Seq<char>,
)
    ensures
        work.phase is DropIndexes ==> next_action(work, config, changes, repository_exists) == Ok::<
            ReceiptActionView,
            GitAdapterErrorView,
        >(ReceiptActionView::Remove(seq![index_of(config, true), index_of(config, false)])),
        work.phase is CommitBaseline ==> next_action(work, config, changes, repository_exists)
            == calls_git(
            config,
            None,
            seq![encode_utf8("commit-tree"@), encode_utf8(work.baseline_tree)],
            Some(encode_utf8("fs-tracker baseline\n"@)),
        ),
        work.phase is CommitReport ==> next_action(work, config, changes, repository_exists)
            == calls_git(
            config,
            None,
            seq![
                encode_utf8("commit-tree"@),
                encode_utf8(work.report_tree),
                encode_utf8("-p"@),
                encode_utf8(work.baseline_commit),
            ],
            Some(
                encode_utf8("fs-tracker report\n\nFs-Tracker-Run-Id: "@ + config.run_id + "\n"@),
            ),
        ),
        work.phase is UpdateRef ==> next_action(work, config, changes, repository_exists)
            == calls_git(
            config,
            None,
            seq![
                encode_utf8("update-ref"@),
                encode_utf8(config.report_ref),
                encode_utf8(work.report_commit),
            ],
            None,
        ),
        work.phase is Publish ==> next_action(work, config, changes, repository_exists) == Ok::<
            ReceiptActionView,
            GitAdapterErrorView,
        >(
            ReceiptActionView::Publish(
                GitReceiptV2View {
                    schema_version: 2,
                    run_id: config.run_id,
                    workspace_id: config.workspace_id,
                    baseline_commit_sha: work.baseline_commit,
                    report_commit_sha: work.report_commit,
                },
            ),
        ),
        answered(
            ReceiptWorkView { phase: ReceiptPhase::CommitBaseline, ..work },
            ReceiptAnswerView::Text(text),
        ) == (ReceiptWorkView {
            phase: ReceiptPhase::CommitReport,
            baseline_commit: text,
            ..work
        }),
        answered(
            ReceiptWorkView { phase: ReceiptPhase::CommitReport, ..work },
            ReceiptAnswerView::Text(text),
        ) == (ReceiptWorkView { phase: ReceiptPhase::UpdateRef, report_commit: text, ..work }),
        answered(
            ReceiptWorkView { phase: ReceiptPhase::UpdateRef, ..work },
            ReceiptAnswerView::Text(text),
        ) == (ReceiptWorkView { phase: ReceiptPhase::Publish, ..work }),
{
}

/// What is said where there is no receipt.
pub proof fn a_missing_receipt_says_why(error: GitAdapterError, text: String)
    requires
        call_ensures(GitAdapterError::message, (&error,), text),
    ensures
        error is Io ==> text@ == "I/O error: "@ + error->Io_0@,
        error is Report ==> text@ == "invalid tracker report: "@ + error->Report_0@,
        error is Incomplete && error->Incomplete_0 == RunState::Partial ==> text@
            == "tracker report state is "@ + "Partial"@ + "; use --allow-partial to override"@,
        error is MissingProject ==> text@ == "missing --project mapping for root ID "@
            + error->MissingProject_0@,
        error is InvalidWorkspaceId ==> text@
            == "invalid workspace ID; expected 64 lowercase hexadecimal characters"@,
        error is InvalidRunId ==> text@ == "run ID cannot be blank"@,
        error is Git ==> text@ == "git command failed: "@ + error->command@ + ": "@ + error->stderr@,
        error is InvalidObjectId ==> text@ == "git returned non-ASCII object ID"@,
{
}

/// The making of a receipt begins with nothing done, and goes by its phases and the answers.
pub proof fn a_receipt_goes_by_its_phases(
    begun: ReceiptWork,
    work: ReceiptWork,
    config: GitReceiptConfig,
    changes: Vec<Change>,
    repository_exists: bool,
    result: Result<ReceiptAction, GitAdapterError>,
)
    requires
        call_ensures(ReceiptWork::new, (), begun),
        call_ensures(ReceiptWork::next, (&work, &config, &changes, repository_exists), result),
    ensures
        begun@.phase is Prepare,
        action_result(result) == next_action(
            work@,
            config@,
            change_views(changes@),
            repository_exists,
        ),
{
}

/// An answer takes the making of a receipt to its next phase.
pub proof fn answers_take_the_receipt_on(work: &mut ReceiptWork, answer: ReceiptAnswer)
    requires
        call_ensures(ReceiptWork::record, (work, answer), ()),
    ensures
        final(work)@ == answered(old(work)@, answer@),
        answer is Text ==> answer@ == ReceiptAnswerView::Text(answer->Text_0@),
        answer is Content ==> answer@ == ReceiptAnswerView::Content(answer->Content_0@),
        answer is Done ==> answer@ is Done,
{
}

/// A stream is kept up to its limit, however it is cut into pieces: what is kept of two pieces is
/// what is kept of both together.
pub proof fn a_stream_is_kept_piece_by_piece(
    drain: &mut BoundedDrain,
    total: Seq<u8>,
    chunk: &[u8],
)
    requires
        call_ensures(BoundedDrain::absorb, (drain, chunk), ()),
        old(drain)@.kept == kept_part(total, old(drain)@.limit, old(drain)@.keep_tail),
        old(drain)@.truncated == (total.len() > old(drain)@.limit),
    ensures
        final(drain)@.kept == kept_part(
            total + chunk@,
            old(drain)@.limit,
            old(drain)@.keep_tail,
        ),
        final(drain)@.truncated == ((total + chunk@).len() > old(drain)@.limit),
        final(drain)@.limit == old(drain)@.limit,
        final(drain)@.keep_tail == old(drain)@.keep_tail,
{
    assert(drained(old(drain)@, total));
    assert(drained(final(drain)@, total + chunk@));
}

/// A drain begins empty, and gives back what it has kept and whether something was left out.
pub proof fn a_drain_gives_back_what_it_keeps(
    limit: usize,
    keep_tail: bool,
    begun: BoundedDrain,
    drain: BoundedDrain,
    parts: (Vec<u8>, bool),
)
    requires
        call_ensures(BoundedDrain::new, (limit, keep_tail), begun),
        call_ensures(BoundedDrain::into_parts, (drain,), parts),
    ensures
        begun@.limit == limit,
        begun@.keep_tail == keep_tail,
        begun@.kept.len() == 0,
        !begun@.truncated,
        parts.0@ == drain@.kept,
        parts.1 == drain@.truncated,
{
}

/// Words are shown in their order with one space between each two: a word that is added comes last.
pub proof fn shown_words_have_a_space_between(words: Seq<Seq<u8>>, word: Seq<u8>)
    ensures
        spaced(Seq::<Seq<u8>>::empty()).len() == 0,
        words.len() == 0 ==> spaced(words.push(word)) == lossy_text(word),
        words.len() > 0 ==> spaced(words.push(word)) == spaced(words) + " "@ + lossy_text(word),
{
    assert(words.push(word).drop_last() =~= words);
}

/// A helper that panicked is named, the one of the input first, then that of the output, then that
/// of the errors; a panic counts before every failure, and failures count in the same order.
pub proof fn the_first_fault_of_a_call_is_told(
    stdin: Pumped,
    stdout: Pumped,
    stderr: Pumped,
    status: Result<i32, String>,
    result: Result<(i32, Vec<u8>, Vec<u8>), String>,
)
    requires
        call_ensures(pump_child_io, (stdin, stdout, stderr, status), result),
    ensures
        stdin is Panicked ==> result is Err && result->Err_0@ == "git stdin pump panicked"@,
        stdout is Panicked && !(stdin is Panicked) ==> result is Err && result->Err_0@
            == "git stdout pump panicked"@,
        stderr is Panicked && !(stdin is Panicked) && !(stdout is Panicked) ==> result is Err
            && result->Err_0@ == "git stderr pump panicked"@,
        !(stdin is Panicked) && !(stdout is Panicked) && !(stderr is Panicked) ==> {
            &&& stdin is Failed ==> result is Err && result->Err_0@ == stdin->Failed_0@
            &&& stdout is Failed && !(stdin is Failed) ==> result is Err && result->Err_0@
                == stdout->Failed_0@
            &&& stderr is Failed && !(stdin is Failed) && !(stdout is Failed) ==> result is Err
                && result->Err_0@ == stderr->Failed_0@
        },
{
}

} // verus!
