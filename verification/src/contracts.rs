//! The documents that a run leaves behind: its status, its report, and their parts.
use vstd::prelude::*;

verus! {

/// The version of the layout of the documents.
pub const SCHEMA_VERSION: u32 = 1;

/// The version of the tracking policy that the report describes.
pub const POLICY_VERSION: u32 = 2;

/// How far a run has come.
#[derive(Debug, Clone, Copy, PartialEq, Eq, Structural)]
pub enum RunState {
    Starting,
    Running,
    Finished,
    Partial,
    Failed,
}

/// How the target command ended.
#[derive(Debug, Clone, Copy)]
pub struct TargetResult {
    pub exit_code: Option<i32>,
    pub signal: Option<i32>,
}

/// The text of an optional string.
pub open spec fn text_of(value: Option<String>) -> Option<Seq<char>> {
    match value {
        Some(text) => Some(text@),
        None => None,
    }
}

/// A copy of an optional string.
pub fn copy_text(value: &Option<String>) -> (copy: Option<String>)
    ensures
        text_of(copy) == text_of(*value),
{
    match value {
        Some(text) => Some(text.clone()),
        None => None,
    }
}

/// The state of a run, as it is published while the run goes on.
#[verifier::ext_equal]
pub struct StatusView {
    pub schema_version: u32,
    pub state: RunState,
    pub assurance: Seq<char>,
    pub message: Option<Seq<char>>,
    pub target: Option<TargetResult>,
}

/// The state of a run, as it is published while the run goes on.
#[derive(Debug)]
pub struct Status {
    pub schema_version: u32,
    pub state: RunState,
    pub assurance: String,
    pub message: Option<String>,
    pub target: Option<TargetResult>,
}

impl View for Status {
    type V = StatusView;

    open spec fn view(&self) -> StatusView {
        StatusView {
            schema_version: self.schema_version,
            state: self.state,
            assurance: self.assurance@,
            message: text_of(self.message),
            target: self.target,
        }
    }
}

impl Clone for Status {
    fn clone(&self) -> (copy: Self)
        ensures
            copy@ == self@,
    {
        Status {
            schema_version: self.schema_version,
            state: self.state,
            assurance: self.assurance.clone(),
            message: copy_text(&self.message),
            target: self.target,
        }
    }
}

/// The status of a run in a state: the layout's version and the level of assurance are
/// the same for every run.
pub open spec fn status_for(
    state: RunState,
    message: Option<Seq<char>>,
    target: Option<TargetResult>,
) -> StatusView {
    StatusView {
        schema_version: SCHEMA_VERSION,
        state,
        assurance: "best_effort"@,
        message,
        target,
    }
}

impl Status {
    /// The status of a run in a state.
    pub fn new(state: RunState, message: Option<String>, target: Option<TargetResult>) -> (status:
        Self)
        ensures
            status@ == status_for(state, text_of(message), target),
    {
        Self {
            schema_version: SCHEMA_VERSION,
            state,
            assurance: "best_effort".to_owned(),
            message,
            target,
        }
    }
}

/// Something that the tracker could not observe.
#[verifier::ext_equal]
pub struct GapView {
    pub kind: Seq<char>,
    pub detail: Seq<char>,
}

/// Something that the tracker could not observe.
#[derive(Debug, PartialEq, Eq, Hash)]
pub struct Gap {
    pub kind: String,
    pub detail: String,
}

impl View for Gap {
    type V = GapView;

    open spec fn view(&self) -> GapView {
        GapView { kind: self.kind@, detail: self.detail@ }
    }
}

impl Clone for Gap {
    fn clone(&self) -> (copy: Self)
        ensures
            copy@ == self@,
    {
        Gap { kind: self.kind.clone(), detail: self.detail.clone() }
    }
}

/// The views of a list of gaps.
pub open spec fn gap_views(gaps: Seq<Gap>) -> Seq<GapView> {
    gaps.map_values(|gap: Gap| gap@)
}

/// A copy of a list of gaps.
pub fn copy_gaps(gaps: &Vec<Gap>) -> (copy: Vec<Gap>)
    ensures
        gap_views(copy@) == gap_views(gaps@),
{
    let mut copy: Vec<Gap> = Vec::new();
    let ghost all = gap_views(gaps@);
    let mut i: usize = 0;
    while i < gaps.len()
        invariant
            i <= gaps@.len(),
            all == gap_views(gaps@),
            gap_views(copy@) == all.take(i as int),
        decreases gaps@.len() - i,
    {
        let ghost before = copy@;
        copy.push(gaps[i].clone());
        assert(gap_views(copy@) =~= gap_views(before).push(all[i as int]));
        i += 1;
    }
    assert(all.take(all.len() as int) =~= all);
    copy
}

/// The stored content of a file.
#[verifier::ext_equal]
pub struct ObjectRefView {
    pub object_id: Seq<char>,
    pub size: u64,
    pub mode: Seq<char>,
}

/// The stored content of a file.
#[derive(Debug)]
pub struct ObjectRef {
    pub object_id: String,
    pub size: u64,
    pub mode: String,
}

impl View for ObjectRef {
    type V = ObjectRefView;

    open spec fn view(&self) -> ObjectRefView {
        ObjectRefView { object_id: self.object_id@, size: self.size, mode: self.mode@ }
    }
}

impl Clone for ObjectRef {
    fn clone(&self) -> (copy: Self)
        ensures
            copy@ == self@,
    {
        ObjectRef { object_id: self.object_id.clone(), size: self.size, mode: self.mode.clone() }
    }
}

/// What is known of a file at one time.
#[verifier::ext_equal]
pub enum FileStateView {
    Absent,
    Present { object: ObjectRefView },
    Unavailable { reason: Seq<char> },
}

/// What is known of a file at one time.
#[derive(Debug)]
pub enum FileState {
    Absent,
    Present { object: ObjectRef },
    Unavailable { reason: String },
}

impl View for FileState {
    type V = FileStateView;

    open spec fn view(&self) -> FileStateView {
        match self {
            FileState::Absent => FileStateView::Absent,
            FileState::Present { object } => FileStateView::Present { object: object@ },
            FileState::Unavailable { reason } => FileStateView::Unavailable { reason: reason@ },
        }
    }
}

impl Clone for FileState {
    fn clone(&self) -> (copy: Self)
        ensures
            copy@ == self@,
    {
        match self {
            FileState::Absent => FileState::Absent,
            FileState::Present { object } => FileState::Present { object: object.clone() },
            FileState::Unavailable { reason } => FileState::Unavailable { reason: reason.clone() },
        }
    }
}

/// What has become of a file.
#[derive(Debug, Clone, Copy, PartialEq, Eq, Structural)]
pub enum ChangeKind {
    Added,
    Modified,
    Deleted,
    ModeChanged,
}

/// How a change of content is shown.
#[verifier::ext_equal]
pub struct DiffRefView {
    pub kind: Seq<char>,
    pub truncated: bool,
    pub patch_offset: Option<u64>,
    pub patch_bytes: Option<u64>,
    pub reason: Option<Seq<char>>,
}

/// How a change of content is shown.
#[derive(Debug)]
pub struct DiffRef {
    pub kind: String,
    pub truncated: bool,
    pub patch_offset: Option<u64>,
    pub patch_bytes: Option<u64>,
    pub reason: Option<String>,
}

impl View for DiffRef {
    type V = DiffRefView;

    open spec fn view(&self) -> DiffRefView {
        DiffRefView {
            kind: self.kind@,
            truncated: self.truncated,
            patch_offset: self.patch_offset,
            patch_bytes: self.patch_bytes,
            reason: text_of(self.reason),
        }
    }
}

impl Clone for DiffRef {
    fn clone(&self) -> (copy: Self)
        ensures
            copy@ == self@,
    {
        DiffRef {
            kind: self.kind.clone(),
            truncated: self.truncated,
            patch_offset: self.patch_offset,
            patch_bytes: self.patch_bytes,
            reason: copy_text(&self.reason),
        }
    }
}

/// A file that the run has changed.
#[verifier::ext_equal]
pub struct ChangeView {
    pub root_id: Seq<char>,
    pub path_bytes_base64: Seq<char>,
    pub display_path: Option<Seq<char>>,
    pub kind: ChangeKind,
    pub before: FileStateView,
    pub after: FileStateView,
    pub diff: DiffRefView,
}

/// A file that the run has changed.
#[derive(Debug)]
pub struct Change {
    pub root_id: String,
    pub path_bytes_base64: String,
    pub display_path: Option<String>,
    pub kind: ChangeKind,
    pub before: FileState,
    pub after: FileState,
    pub diff: DiffRef,
}

impl View for Change {
    type V = ChangeView;

    open spec fn view(&self) -> ChangeView {
        ChangeView {
            root_id: self.root_id@,
            path_bytes_base64: self.path_bytes_base64@,
            display_path: text_of(self.display_path),
            kind: self.kind,
            before: self.before@,
            after: self.after@,
            diff: self.diff@,
        }
    }
}

impl Clone for Change {
    fn clone(&self) -> (copy: Self)
        ensures
            copy@ == self@,
    {
        Change {
            root_id: self.root_id.clone(),
            path_bytes_base64: self.path_bytes_base64.clone(),
            display_path: copy_text(&self.display_path),
            kind: self.kind,
            before: self.before.clone(),
            after: self.after.clone(),
            diff: self.diff.clone(),
        }
    }
}

/// The views of a list of changes.
pub open spec fn change_views(changes: Seq<Change>) -> Seq<ChangeView> {
    changes.map_values(|change: Change| change@)
}

fn copy_changes(list: &Vec<Change>) -> (copy: Vec<Change>)
    ensures
        change_views(copy@) == change_views(list@),
{
    let mut copy: Vec<Change> = Vec::new();
    let ghost all = change_views(list@);
    let mut i: usize = 0;
    while i < list.len()
        invariant
            i <= list@.len(),
            all == change_views(list@),
            change_views(copy@) == all.take(i as int),
        decreases list@.len() - i,
    {
        let ghost before = copy@;
        copy.push(list[i].clone());
        assert(change_views(copy@) =~= change_views(before).push(all[i as int]));
        i += 1;
    }
    assert(all.take(all.len() as int) =~= all);
    copy
}

/// A subtree that the run was told to leave out.
#[verifier::ext_equal]
pub struct ConfiguredExclusionView {
    pub root_id: Seq<char>,
    pub path_bytes_base64: Seq<char>,
    pub display_path: Seq<char>,
}

/// A subtree that the run was told to leave out.
#[derive(Debug)]
pub struct ConfiguredExclusion {
    pub root_id: String,
    pub path_bytes_base64: String,
    pub display_path: String,
}

impl View for ConfiguredExclusion {
    type V = ConfiguredExclusionView;

    open spec fn view(&self) -> ConfiguredExclusionView {
        ConfiguredExclusionView {
            root_id: self.root_id@,
            path_bytes_base64: self.path_bytes_base64@,
            display_path: self.display_path@,
        }
    }
}

impl Clone for ConfiguredExclusion {
    fn clone(&self) -> (copy: Self)
        ensures
            copy@ == self@,
    {
        ConfiguredExclusion {
            root_id: self.root_id.clone(),
            path_bytes_base64: self.path_bytes_base64.clone(),
            display_path: self.display_path.clone(),
        }
    }
}

/// The views of a list of configured exclusions.
pub open spec fn configured_views(list: Seq<ConfiguredExclusion>) -> Seq<ConfiguredExclusionView> {
    list.map_values(|item: ConfiguredExclusion| item@)
}

fn copy_configured(list: &Vec<ConfiguredExclusion>) -> (copy: Vec<ConfiguredExclusion>)
    ensures
        configured_views(copy@) == configured_views(list@),
{
    let mut copy: Vec<ConfiguredExclusion> = Vec::new();
    let ghost all = configured_views(list@);
    let mut i: usize = 0;
    while i < list.len()
        invariant
            i <= list@.len(),
            all == configured_views(list@),
            configured_views(copy@) == all.take(i as int),
        decreases list@.len() - i,
    {
        let ghost before = copy@;
        copy.push(list[i].clone());
        assert(configured_views(copy@) =~= configured_views(before).push(all[i as int]));
        i += 1;
    }
    assert(all.take(all.len() as int) =~= all);
    copy
}

/// The texts of a list of strings.
pub open spec fn texts(list: Seq<String>) -> Seq<Seq<char>> {
    list.map_values(|item: String| item@)
}

/// A copy of a list of strings.
pub fn copy_texts(list: &Vec<String>) -> (copy: Vec<String>)
    ensures
        texts(copy@) == texts(list@),
{
    let mut copy: Vec<String> = Vec::new();
    let ghost all = texts(list@);
    let mut i: usize = 0;
    while i < list.len()
        invariant
            i <= list@.len(),
            all == texts(list@),
            texts(copy@) == all.take(i as int),
        decreases list@.len() - i,
    {
        let ghost before = copy@;
        copy.push(list[i].clone());
        assert(texts(copy@) =~= texts(before).push(all[i as int]));
        i += 1;
    }
    assert(all.take(all.len() as int) =~= all);
    copy
}

/// What a report covers and what it does not.
#[verifier::ext_equal]
pub struct CoverageView {
    pub policy_version: u32,
    pub external_writers: Seq<char>,
    pub supported_operations: Seq<Seq<char>>,
    pub unsupported_features: Seq<Seq<char>>,
    pub configured_exclusions: Seq<ConfiguredExclusionView>,
    pub configured_recursive_exclusions: Seq<Seq<char>>,
    pub gaps: Seq<GapView>,
}

/// What a report covers and what it does not.
#[derive(Debug)]
pub struct Coverage {
    pub policy_version: u32,
    pub external_writers: String,
    pub supported_operations: Vec<String>,
    pub unsupported_features: Vec<String>,
    pub configured_exclusions: Vec<ConfiguredExclusion>,
    pub configured_recursive_exclusions: Vec<String>,
    pub gaps: Vec<Gap>,
}

impl View for Coverage {
    type V = CoverageView;

    open spec fn view(&self) -> CoverageView {
        CoverageView {
            policy_version: self.policy_version,
            external_writers: self.external_writers@,
            supported_operations: texts(self.supported_operations@),
            unsupported_features: texts(self.unsupported_features@),
            configured_exclusions: configured_views(self.configured_exclusions@),
            configured_recursive_exclusions: texts(self.configured_recursive_exclusions@),
            gaps: gap_views(self.gaps@),
        }
    }
}

impl Clone for Coverage {
    fn clone(&self) -> (copy: Self)
        ensures
            copy@ == self@,
    {
        Coverage {
            policy_version: self.policy_version,
            external_writers: self.external_writers.clone(),
            supported_operations: copy_texts(&self.supported_operations),
            unsupported_features: copy_texts(&self.unsupported_features),
            configured_exclusions: copy_configured(&self.configured_exclusions),
            configured_recursive_exclusions: copy_texts(&self.configured_recursive_exclusions),
            gaps: copy_gaps(&self.gaps),
        }
    }
}

/// What a run has cost.
#[derive(Debug, Clone, Copy)]
pub struct RunMetrics {
    pub elapsed_ms: u64,
    pub notifications_received: u64,
    pub queue_bypassed: u64,
    pub candidate_paths: usize,
    pub captured_bytes: u64,
    pub final_changes: usize,
}

impl Default for RunMetrics {
    fn default() -> (metrics: Self)
        ensures
            metrics.elapsed_ms == 0,
            metrics.notifications_received == 0,
            metrics.queue_bypassed == 0,
            metrics.candidate_paths == 0,
            metrics.captured_bytes == 0,
            metrics.final_changes == 0,
    {
        RunMetrics {
            elapsed_ms: 0,
            notifications_received: 0,
            queue_bypassed: 0,
            candidate_paths: 0,
            captured_bytes: 0,
            final_changes: 0,
        }
    }
}

/// The outcome of a run.
#[verifier::ext_equal]
pub struct ReportView {
    pub schema_version: u32,
    pub state: RunState,
    pub assurance: Seq<char>,
    pub target: TargetResult,
    pub coverage: CoverageView,
    pub metrics: RunMetrics,
    pub changes: Seq<ChangeView>,
}

/// The outcome of a run.
#[derive(Debug)]
pub struct Report {
    pub schema_version: u32,
    pub state: RunState,
    pub assurance: String,
    pub target: TargetResult,
    pub coverage: Coverage,
    pub metrics: RunMetrics,
    pub changes: Vec<Change>,
}

impl View for Report {
    type V = ReportView;

    open spec fn view(&self) -> ReportView {
        ReportView {
            schema_version: self.schema_version,
            state: self.state,
            assurance: self.assurance@,
            target: self.target,
            coverage: self.coverage@,
            metrics: self.metrics,
            changes: change_views(self.changes@),
        }
    }
}

impl Clone for Report {
    fn clone(&self) -> (copy: Self)
        ensures
            copy@ == self@,
    {
        Report {
            schema_version: self.schema_version,
            state: self.state,
            assurance: self.assurance.clone(),
            target: self.target,
            coverage: self.coverage.clone(),
            metrics: self.metrics,
            changes: copy_changes(&self.changes),
        }
    }
}

/// A status says the state, the message and the target's end that it is made with.
pub proof fn a_status_says_what_it_is_made_with(
    state: RunState,
    message: Option<String>,
    target: Option<TargetResult>,
    status: Status,
)
    requires
        call_ensures(Status::new, (state, message, target), status),
    ensures
        status.schema_version == 1,
        status.assurance@ == "best_effort"@,
        status.state == state,
        status.target == target,
        status.message is Some <==> message is Some,
        message is Some ==> status.message->0@ == message->0@,
{
    assert(status@.message == text_of(status.message));
}

/// The copy of a state is in the same state.
pub proof fn a_copied_state_is_the_same(state: FileState, copy: FileState)
    requires
        call_ensures(FileState::clone, (&state,), copy),
    ensures
        copy is Absent <==> state is Absent,
        copy is Present <==> state is Present,
        state is Present ==> copy->object.object_id@ == state->object.object_id@
            && copy->object.size == state->object.size && copy->object.mode@ == state->object.mode@,
        state is Unavailable ==> copy->reason@ == state->reason@,
{
}

} // verus!
