//! The handling of one reported system call, from its arguments to the captures that have to
//! be made before it goes on.
use crate::capture::{
    answer, completed, file_quota_gap, gaps_stay_noted, located_in,
    locating_the_normal_form_is_the_same, noted, request_for, the_first_capture_is_kept, with_gap,
    CaptureOutcome, CaptureOutcomeView, CaptureRequest, CaptureRequestView, CaptureStore,
    HelperFailure, HelperFailureView, PathKey, PathKeyView, PendingCapture, StoreView,
};
use crate::contracts::{Gap, GapView};
use crate::linux::{first_zero, kind_among, table_entries, Notification, SyscallTable};
use crate::outside::base64_text;
use crate::paths::{file_name_of, joined, normalized, parent_of};
use crate::request::{
    base_link, base_link_path, based, capture_argument, capture_begun, capture_descriptor,
    descriptor_gap, descriptor_link, directory_gap, endless_path, is_deleted, is_writable,
    path_from, plan_open_how, plan_request, planned, resolve_gap, resolve_path, resolving,
    wanted, ArgumentStep, OpenHow, PathArgument, PathReader, PathStep, RequestPlan,
    RequestPlanView, Resolution, ResolutionView, ResolveStep, ResolveStepView, PATH_LIMIT,
};
use crate::text::{decimal, lossy_text};
use vstd::prelude::*;

verus! {

/// What follows the handling of an argument.
pub enum ThenView {
    Nothing,
    Capture(PathArgument),
    Note(GapView),
}

#[derive(Debug)]
enum Then {
    Nothing,
    Capture(PathArgument),
    Note(Gap),
}

impl View for Then {
    type V = ThenView;

    closed spec fn view(&self) -> ThenView {
        match *self {
            Then::Nothing => ThenView::Nothing,
            Then::Capture(argument) => ThenView::Capture(argument),
            Then::Note(gap) => ThenView::Note(gap@),
        }
    }
}

/// How far the handling of a system call is.
pub enum StageView {
    /// What the descriptor refers to has to be found out.
    Descriptor { fd: i32, raw: u64 },
    /// The `open_how` has to be read.
    OpenHow { address: u64, argument: PathArgument },
    /// The path of the argument has to be read on.
    Path { argument: PathArgument, then: ThenView, read: Seq<u8> },
    /// The directory that the path starts at has to be found out.
    Base { argument: PathArgument, then: ThenView, raw: Seq<u8> },
    /// The links of the path have to be followed, and what is there has to be looked at.
    Follow {
        then: ThenView,
        path: Seq<u8>,
        follow: bool,
        whole: ResolutionView,
        directory: ResolutionView,
    },
    /// The file has to be captured.
    Capture { then: ThenView, key: PathKeyView, path: Seq<u8> },
    /// It cannot be handled.
    Failed { message: Seq<char> },
    /// It may go on.
    Done,
}

#[derive(Debug)]
enum Stage {
    Descriptor { fd: i32, raw: u64 },
    OpenHow { address: u64, argument: PathArgument },
    Path { argument: PathArgument, then: Then, reader: PathReader },
    Base { argument: PathArgument, then: Then, raw: Vec<u8> },
    Follow {
        then: Then,
        path: Vec<u8>,
        follow: bool,
        whole: Resolution,
        directory: Resolution,
    },
    Capture { then: Then, key: PathKey, path: Vec<u8> },
    Failed { message: String },
    Done,
}

impl View for Stage {
    type V = StageView;

    closed spec fn view(&self) -> StageView {
        match *self {
            Stage::Descriptor { fd, raw } => StageView::Descriptor { fd, raw },
            Stage::OpenHow { address, argument } => StageView::OpenHow { address, argument },
            Stage::Path { argument, then, reader } => StageView::Path {
                argument,
                then: then@,
                read: reader@,
            },
            Stage::Base { argument, then, raw } => StageView::Base {
                argument,
                then: then@,
                raw: raw@,
            },
            Stage::Follow { then, path, follow, whole, directory } => StageView::Follow {
                then: then@,
                path: path@,
                follow,
                whole: whole@,
                directory: directory@,
            },
            Stage::Capture { then, key, path } => StageView::Capture {
                then: then@,
                key: key@,
                path: path@,
            },
            Stage::Failed { message } => StageView::Failed { message: message@ },
            Stage::Done => StageView::Done,
        }
    }
}

/// The handling of a system call.
pub struct HandlingView {
    pub pid: u32,
    pub stage: StageView,
}

/// What is to be done next about a system call.
pub enum HandlingActionView {
    ReadMemory { address: u64 },
    ReadOpenHow { address: u64 },
    ReadLink(Seq<char>),
    Canonicalize(Seq<u8>),
    Inspect(Seq<u8>),
    Capture(CaptureRequestView),
    Fail(Seq<char>),
    Done,
}

/// What is to be done next about a system call.
#[derive(Debug)]
pub enum HandlingAction {
    /// Read some bytes of the target's memory.
    ReadMemory { address: u64 },
    /// Read the `open_how` in the target's memory.
    ReadOpenHow { address: u64 },
    /// Read the link.
    ReadLink(String),
    /// Resolve the path to its canonical form.
    Canonicalize(Vec<u8>),
    /// Find out whether the path names a directory.
    Inspect(Vec<u8>),
    /// Have the capture helper carry out the request.
    Capture(CaptureRequest),
    /// Give up, for this reason.
    Fail(String),
    /// Let the system call go on.
    Done,
}

impl View for HandlingAction {
    type V = HandlingActionView;

    open spec fn view(&self) -> HandlingActionView {
        match *self {
            HandlingAction::ReadMemory { address } => HandlingActionView::ReadMemory { address },
            HandlingAction::ReadOpenHow { address } => HandlingActionView::ReadOpenHow { address },
            HandlingAction::ReadLink(link) => HandlingActionView::ReadLink(link@),
            HandlingAction::Canonicalize(path) => HandlingActionView::Canonicalize(path@),
            HandlingAction::Inspect(path) => HandlingActionView::Inspect(path@),
            HandlingAction::Capture(request) => HandlingActionView::Capture(request@),
            HandlingAction::Fail(message) => HandlingActionView::Fail(message@),
            HandlingAction::Done => HandlingActionView::Done,
        }
    }
}

/// What came of an action.
#[derive(Debug)]
pub enum HandlingAnswer {
    /// The bytes that were read, none at the end of the memory.
    Memory(Vec<u8>),
    /// The `open_how` that was read.
    OpenHow(OpenHow),
    /// What the link points to.
    Link(Vec<u8>),
    /// The canonical form, where there is one.
    Canonical(Option<Vec<u8>>),
    /// Whether it is a directory.
    Directory(bool),
    /// The capture helper's answer.
    Captured(Result<CaptureOutcome, HelperFailure>),
}

/// The handling at an argument of which nothing was read.
pub open spec fn at_argument(argument: PathArgument, then: ThenView) -> StageView {
    StageView::Path { argument, then, read: Seq::empty() }
}

/// How the handling of a system call begins, and the store then.
pub open spec fn handling_begun(plan: RequestPlanView, store: StoreView) -> (StageView, StoreView) {
    match plan {
        RequestPlanView::Nothing => (StageView::Done, store),
        RequestPlanView::Capture(argument) => (at_argument(argument, ThenView::Nothing), store),
        RequestPlanView::CapturePair(first, second) => (
            at_argument(first, ThenView::Capture(second)),
            store,
        ),
        RequestPlanView::CaptureLink(argument, gap) => (
            at_argument(argument, ThenView::Note(gap)),
            store,
        ),
        RequestPlanView::CaptureDescriptor { fd, raw } => (
            StageView::Descriptor { fd, raw },
            store,
        ),
        RequestPlanView::ReadOpenHow { address, argument } => (
            StageView::OpenHow { address, argument },
            store,
        ),
        RequestPlanView::Note(gap) => (StageView::Done, with_gap(store, gap)),
    }
}

/// What is to be done next.
pub open spec fn handling_action(work: HandlingView, store: StoreView) -> HandlingActionView {
    match work.stage {
        StageView::Descriptor { fd, raw } => HandlingActionView::ReadLink(
            "/proc/"@ + decimal(work.pid as int) + "/fd/"@ + decimal(fd as int),
        ),
        StageView::OpenHow { address, argument } => HandlingActionView::ReadOpenHow { address },
        StageView::Path { argument, then, read } => if argument.address + read.len() > u64::MAX {
            HandlingActionView::Fail(endless_path())
        } else {
            HandlingActionView::ReadMemory { address: (argument.address + read.len()) as u64 }
        },
        StageView::Base { argument, then, raw } => HandlingActionView::ReadLink(
            base_link(work.pid, argument.dirfd, raw),
        ),
        StageView::Follow { then, path, follow, whole, directory } => match resolving(
            path,
            follow,
            whole,
            directory,
        ) {
            ResolveStepView::Whole(wanted) => HandlingActionView::Canonicalize(wanted),
            ResolveStepView::Parent(wanted) => HandlingActionView::Canonicalize(wanted),
            ResolveStepView::Done(found) => HandlingActionView::Inspect(found),
        },
        StageView::Capture { then, key, path } => HandlingActionView::Capture(
            request_for(store, path, Some(key)),
        ),
        StageView::Failed { message } => HandlingActionView::Fail(message),
        StageView::Done => HandlingActionView::Done,
    }
}

/// What follows an argument that was handled, and the store then. The second name of a pair
/// is left alone where the first is a directory.
pub open spec fn argument_handled(then: ThenView, is_directory: bool, store: StoreView) -> (
    StageView,
    StoreView,
) {
    match then {
        ThenView::Nothing => (StageView::Done, store),
        ThenView::Capture(argument) => if is_directory {
            (StageView::Done, store)
        } else {
            (at_argument(argument, ThenView::Nothing), store)
        },
        ThenView::Note(gap) => (StageView::Done, with_gap(store, gap)),
    }
}

/// What follows a file that was found, and the store then: it is captured where the store
/// wants it.
pub open spec fn file_found(then: ThenView, path: Seq<u8>, store: StoreView) -> (
    StageView,
    StoreView,
) {
    match wanted(store, path) {
        Some(key) => (StageView::Capture { then, key, path: normalized(path) }, store),
        None => argument_handled(then, false, capture_begun(store, path)),
    }
}

/// How far a path is with a piece of memory read on.
pub open spec fn path_read(argument: PathArgument, then: ThenView, read: Seq<u8>, piece: Seq<u8>) -> StageView {
    match first_zero(piece) {
        Some(end) => StageView::Base { argument, then, raw: read + piece.take(end as int) },
        None => if piece.len() == 0 || (read + piece).len() >= PATH_LIMIT {
            StageView::Failed { message: endless_path() }
        } else {
            StageView::Path { argument, then, read: read + piece }
        },
    }
}

/// What trying to resolve a path came to.
pub open spec fn tried(canonical: Option<Vec<u8>>) -> ResolutionView {
    match canonical {
        Some(path) => ResolutionView::Found(path@),
        None => ResolutionView::Failed,
    }
}

/// How far the handling is with an answer taken in, and the store then. An answer to something
/// else changes nothing.
pub open spec fn answer_taken(work: HandlingView, store: StoreView, given: HandlingAnswer) -> (
    StageView,
    StoreView,
) {
    match (work.stage, given) {
        (StageView::Descriptor { fd, raw }, HandlingAnswer::Link(link)) => if is_deleted(link@) {
            (StageView::Done, with_gap(store, descriptor_gap(work.pid, raw)))
        } else {
            file_found(ThenView::Nothing, link@, store)
        },
        (StageView::OpenHow { address, argument }, HandlingAnswer::OpenHow(how)) => (
            if is_writable(how.flags as i32) {
                at_argument(argument, ThenView::Nothing)
            } else {
                StageView::Done
            },
            if how.resolve != 0 {
                with_gap(store, resolve_gap(how.resolve))
            } else {
                store
            },
        ),
        (StageView::Path { argument, then, read }, HandlingAnswer::Memory(piece)) => (
            path_read(argument, then, read, piece@),
            store,
        ),
        (StageView::Base { argument, then, raw }, HandlingAnswer::Link(base)) => (
            StageView::Follow {
                then,
                path: based(base@, raw),
                follow: argument.follow,
                whole: ResolutionView::Untried,
                directory: ResolutionView::Untried,
            },
            store,
        ),
        (
            StageView::Follow { then, path, follow, whole, directory },
            HandlingAnswer::Canonical(canonical),
        ) => (
            match resolving(path, follow, whole, directory) {
                ResolveStepView::Whole(wanted) => StageView::Follow {
                    then,
                    path,
                    follow,
                    whole: tried(canonical),
                    directory,
                },
                ResolveStepView::Parent(wanted) => StageView::Follow {
                    then,
                    path,
                    follow,
                    whole,
                    directory: tried(canonical),
                },
                ResolveStepView::Done(found) => work.stage,
            },
            store,
        ),
        (
            StageView::Follow { then, path, follow, whole, directory },
            HandlingAnswer::Directory(is_directory),
        ) => match resolving(path, follow, whole, directory) {
            ResolveStepView::Done(found) => if is_directory {
                argument_handled(then, true, with_gap(store, directory_gap(found)))
            } else {
                file_found(then, found, store)
            },
            _ => (work.stage, store),
        },
        (StageView::Capture { then, key, path }, HandlingAnswer::Captured(result)) => {
            argument_handled(then, false, completed(store, path, answer(result)))
        },
        _ => (work.stage, store),
    }
}

/// The handling of a system call of a process.
#[derive(Debug)]
pub struct Handling {
    pid: u32,
    stage: Stage,
}

impl View for Handling {
    type V = HandlingView;

    closed spec fn view(&self) -> HandlingView {
        HandlingView { pid: self.pid, stage: self.stage@ }
    }
}

fn start(argument: PathArgument, then: Then) -> (stage: Stage)
    ensures
        stage@ == at_argument(argument, then@),
{
    Stage::Path { argument, then, reader: PathReader::new() }
}

fn end_argument(then: Then, is_directory: bool, store: &mut CaptureStore) -> (stage: Stage)
    ensures
        (stage@, final(store)@) == argument_handled(then@, is_directory, old(store)@),
{
    match then {
        Then::Nothing => Stage::Done,
        Then::Capture(argument) => if is_directory {
            Stage::Done
        } else {
            start(argument, Then::Nothing)
        },
        Then::Note(gap) => {
            store.gap(gap.kind, gap.detail);
            Stage::Done
        },
    }
}

fn capture(then: Then, pending: PendingCapture) -> (stage: Stage)
    ensures
        stage@ == (StageView::Capture { then: then@, key: pending.key@, path: pending.path@ }),
{
    Stage::Capture { then, key: pending.key, path: pending.path }
}

fn resolution(canonical: Option<Vec<u8>>) -> (result: Resolution)
    ensures
        result@ == tried(canonical),
{
    match canonical {
        Some(path) => Resolution::Found(path),
        None => Resolution::Failed,
    }
}

impl Handling {
    /// Begins to handle a reported system call.
    pub fn new(request: &Notification, table: &SyscallTable, store: &mut CaptureStore) -> (work: Self)
        ensures
            work@.pid == request.pid,
            (work@.stage, final(store)@) == handling_begun(
                planned(
                    kind_among(table_entries(*table), request.data.nr),
                    request.data.nr,
                    request.data.args@,
                ),
                old(store)@,
            ),
    {
        let stage = match plan_request(request, table) {
            RequestPlan::Nothing => Stage::Done,
            RequestPlan::Capture(argument) => start(argument, Then::Nothing),
            RequestPlan::CapturePair(first, second) => start(first, Then::Capture(second)),
            RequestPlan::CaptureLink(argument, gap) => start(argument, Then::Note(gap)),
            RequestPlan::CaptureDescriptor { fd, raw } => Stage::Descriptor { fd, raw },
            RequestPlan::ReadOpenHow { address, argument } => Stage::OpenHow { address, argument },
            RequestPlan::Note(gap) => {
                store.gap(gap.kind, gap.detail);
                Stage::Done
            },
        };
        Handling { pid: request.pid, stage }
    }

    /// What is to be done next.
    pub fn next(&self, store: &CaptureStore) -> (action: HandlingAction)
        ensures
            action@ == handling_action(self@, store@),
    {
        match &self.stage {
            Stage::Descriptor { fd, .. } => HandlingAction::ReadLink(
                descriptor_link(self.pid, *fd),
            ),
            Stage::OpenHow { address, .. } => HandlingAction::ReadOpenHow { address: *address },
            Stage::Path { argument, reader, .. } => match reader.next_address(argument.address) {
                Some(address) => HandlingAction::ReadMemory { address },
                None => HandlingAction::Fail(
                    "pathname is missing NUL terminator or exceeds 64 KiB".to_owned(),
                ),
            },
            Stage::Base { argument, raw, .. } => HandlingAction::ReadLink(
                base_link_path(self.pid, argument.dirfd, raw),
            ),
            Stage::Follow { path, follow, whole, directory, .. } => match resolve_path(
                path,
                *follow,
                whole,
                directory,
            ) {
                ResolveStep::Whole(wanted) => HandlingAction::Canonicalize(wanted),
                ResolveStep::Parent(wanted) => HandlingAction::Canonicalize(wanted),
                ResolveStep::Done(found) => HandlingAction::Inspect(found),
            },
            Stage::Capture { key, path, .. } => HandlingAction::Capture(
                store.capture_request(path, Some(key.clone())),
            ),
            Stage::Failed { message } => HandlingAction::Fail(message.clone()),
            Stage::Done => HandlingAction::Done,
        }
    }

    /// Takes in what came of an action.
    pub fn record(self, store: &mut CaptureStore, given: HandlingAnswer) -> (work: Self)
        ensures
            work@.pid == self@.pid,
            (work@.stage, final(store)@) == answer_taken(self@, old(store)@, given),
    {
        let pid = self.pid;
        let stage = match (self.stage, given) {
            (Stage::Descriptor { raw, .. }, HandlingAnswer::Link(link)) => {
                match capture_descriptor(store, pid, raw, &link) {
                    Some(pending) => capture(Then::Nothing, pending),
                    None => Stage::Done,
                }
            },
            (Stage::OpenHow { argument, .. }, HandlingAnswer::OpenHow(how)) => {
                let (noted, writes) = plan_open_how(&how);
                if let Some(gap) = noted {
                    store.gap(gap.kind, gap.detail);
                }
                if writes {
                    start(argument, Then::Nothing)
                } else {
                    Stage::Done
                }
            },
            (Stage::Path { argument, then, reader }, HandlingAnswer::Memory(piece)) => {
                let mut reader = reader;
                match reader.feed(&piece) {
                    PathStep::More => Stage::Path { argument, then, reader },
                    PathStep::Complete(raw) => Stage::Base { argument, then, raw },
                    PathStep::Failed(message) => Stage::Failed { message },
                }
            },
            (Stage::Base { argument, then, raw }, HandlingAnswer::Link(base)) => Stage::Follow {
                then,
                path: path_from(&base, &raw),
                follow: argument.follow,
                whole: Resolution::Untried,
                directory: Resolution::Untried,
            },
            (
                Stage::Follow { then, path, follow, whole, directory },
                HandlingAnswer::Canonical(canonical),
            ) => match resolve_path(&path, follow, &whole, &directory) {
                ResolveStep::Whole(_) => Stage::Follow {
                    then,
                    path,
                    follow,
                    whole: resolution(canonical),
                    directory,
                },
                ResolveStep::Parent(_) => Stage::Follow {
                    then,
                    path,
                    follow,
                    whole,
                    directory: resolution(canonical),
                },
                ResolveStep::Done(_) => Stage::Follow { then, path, follow, whole, directory },
            },
            (
                Stage::Follow { then, path, follow, whole, directory },
                HandlingAnswer::Directory(is_directory),
            ) => match resolve_path(&path, follow, &whole, &directory) {
                ResolveStep::Done(found) => {
                    match capture_argument(store, &found, is_directory) {
                        ArgumentStep::Directory => end_argument(then, true, store),
                        ArgumentStep::Capture(pending) => capture(then, pending),
                        ArgumentStep::Nothing => end_argument(then, false, store),
                    }
                },
                _ => Stage::Follow { then, path, follow, whole, directory },
            },
            (Stage::Capture { then, path, .. }, HandlingAnswer::Captured(result)) => {
                store.complete_before(&path, result);
                end_argument(then, false, store)
            },
            (stage, _) => stage,
        };
        Handling { pid, stage }
    }
}

/// The answer is one to what is to be done next.
pub open spec fn fits(stage: StageView, given: HandlingAnswer) -> bool {
    match stage {
        StageView::Descriptor { fd, raw } => given is Link,
        StageView::OpenHow { address, argument } => given is OpenHow,
        StageView::Path { argument, then, read } => given is Memory,
        StageView::Base { argument, then, raw } => given is Link,
        StageView::Follow { then, path, follow, whole, directory } => if resolving(
            path,
            follow,
            whole,
            directory,
        ) is Done {
            given is Directory
        } else {
            given is Canonical
        },
        StageView::Capture { then, key, path } => given is Captured,
        StageView::Failed { message } => false,
        StageView::Done => false,
    }
}

/// The answers to come at most for what follows an argument.
pub open spec fn answers_then(then: ThenView) -> int {
    if then is Capture {
        PATH_LIMIT + 6
    } else {
        0
    }
}

/// The answers to come at most.
pub open spec fn answers_left(stage: StageView) -> int {
    match stage {
        StageView::Descriptor { fd, raw } => 2,
        StageView::OpenHow { address, argument } => PATH_LIMIT + 7,
        StageView::Path { argument, then, read } => answers_then(then) + 6 + if read.len()
            < PATH_LIMIT {
            PATH_LIMIT - read.len()
        } else {
            0
        },
        StageView::Base { argument, then, raw } => answers_then(then) + 5,
        StageView::Follow { then, path, follow, whole, directory } => answers_then(then) + match resolving(
            path,
            follow,
            whole,
            directory,
        ) {
            ResolveStepView::Whole(wanted) => 4int,
            ResolveStepView::Parent(wanted) => 3,
            ResolveStepView::Done(found) => 2,
        },
        StageView::Capture { then, key, path } => answers_then(then) + 1,
        StageView::Failed { message } => 0,
        StageView::Done => 0,
    }
}

/// The handling of a system call ends: each answer to what is to be done next leaves fewer
/// answers to come, until the system call goes on or cannot be handled.
pub proof fn the_system_call_gets_handled(work: HandlingView, store: StoreView, given: HandlingAnswer)
    requires
        fits(work.stage, given),
    ensures
        answers_left(work.stage) > 0,
        0 <= answers_left(answer_taken(work, store, given).0) < answers_left(work.stage),
{
}

/// How far the handling is with a list of answers taken in, and the store then.
pub open spec fn answers_taken(
    pid: u32,
    begun: (StageView, StoreView),
    answers: Seq<HandlingAnswer>,
) -> (StageView, StoreView)
    decreases answers.len(),
{
    if answers.len() == 0 {
        begun
    } else {
        let (stage, store) = answers_taken(pid, begun, answers.drop_last());
        answer_taken(HandlingView { pid, stage }, store, answers.last())
    }
}

/// The file that an answer was found to name, if there is one: something that a path leads to
/// and that is no directory, or what a descriptor refers to.
pub open spec fn named(stage: StageView, given: HandlingAnswer) -> Option<Seq<u8>> {
    match (stage, given) {
        (StageView::Descriptor { fd, raw }, HandlingAnswer::Link(link)) => if is_deleted(link@) {
            None
        } else {
            Some(link@)
        },
        (
            StageView::Follow { then, path, follow, whole, directory },
            HandlingAnswer::Directory(is_directory),
        ) => match resolving(path, follow, whole, directory) {
            ResolveStepView::Done(found) if !is_directory => Some(found),
            _ => None,
        },
        _ => None,
    }
}

/// The files that a system call was found to name, in the order in which they were found.
pub open spec fn all_named(
    pid: u32,
    begun: (StageView, StoreView),
    answers: Seq<HandlingAnswer>,
) -> Seq<Seq<u8>>
    decreases answers.len(),
{
    if answers.len() == 0 {
        Seq::empty()
    } else {
        let earlier = all_named(pid, begun, answers.drop_last());
        match named(answers_taken(pid, begun, answers.drop_last()).0, answers.last()) {
            Some(path) => earlier.push(path),
            None => earlier,
        }
    }
}

/// The file of a path is no matter of the run, or its state was captured, or it is noted that
/// there was no room for it.
pub open spec fn is_secured(store: StoreView, path: Seq<u8>) -> bool {
    match located_in(store, path) {
        Some(key) => store.candidates.contains_key(key) || store.gaps.contains(
            file_quota_gap(store.limits),
        ),
        None => true,
    }
}

/// The stage is the capture of a path that the store wants.
spec fn is_capturing(stage: StageView, store: StoreView, path: Seq<u8>) -> bool {
    &&& stage matches StageView::Capture { then, key, path: form } && wanted(store, path) == Some(
        key,
    ) && form == normalized(path)
}

proof fn lemma_gap_keeps_secured(store: StoreView, gap: GapView, path: Seq<u8>)
    requires
        is_secured(store, path),
    ensures
        is_secured(with_gap(store, gap), path),
{
    let quota = file_quota_gap(store.limits);
    if store.gaps.contains(quota) {
        lemma_noted_keeps(store.gaps, gap, quota);
    }
}

proof fn lemma_noted_keeps(gaps: Seq<GapView>, more: GapView, gap: GapView)
    requires
        gaps.contains(gap) || more == gap,
    ensures
        noted(gaps, more).contains(gap),
{
    if !gaps.contains(more) {
        if gaps.contains(gap) {
            let i = choose|i: int| 0 <= i < gaps.len() && gaps[i] == gap;
            assert(noted(gaps, more)[i] == gap);
        } else {
            assert(noted(gaps, more)[gaps.len() as int] == gap);
        }
    }
}

proof fn lemma_stays_secured(work: HandlingView, store: StoreView, given: HandlingAnswer, path: Seq<u8>)
    requires
        is_secured(store, path),
    ensures
        is_secured(answer_taken(work, store, given).1, path),
{
    assert forall|gap: GapView| is_secured(#[trigger] with_gap(store, gap), path) by {
        lemma_gap_keeps_secured(store, gap, path);
    }
    match (work.stage, given) {
        (StageView::Follow { then, path: raw, follow, whole, directory }, _) => {
            match (resolving(raw, follow, whole, directory), then) {
                (ResolveStepView::Done(found), ThenView::Note(gap)) => {
                    lemma_gap_keeps_secured(with_gap(store, directory_gap(found)), gap, path);
                    lemma_gap_keeps_secured(
                        with_gap(store, file_quota_gap(store.limits)),
                        gap,
                        path,
                    );
                },
                _ => {},
            }
        },
        (StageView::Capture { then, key, path: form }, HandlingAnswer::Captured(result)) => {
            let next = completed(store, form, answer(result));
            lemma_completed_stays_secured(store, form, answer(result), path);
            match then {
                ThenView::Note(gap) => {
                    lemma_gap_keeps_secured(next, gap, path);
                },
                _ => {},
            }
        },
        _ => {},
    }
}

proof fn lemma_completed_stays_secured(
    store: StoreView,
    form: Seq<u8>,
    result: Result<CaptureOutcomeView, HelperFailureView>,
    path: Seq<u8>,
)
    requires
        is_secured(store, path),
    ensures
        is_secured(completed(store, form, result), path),
{
    match located_in(store, path) {
        Some(key) => if store.candidates.contains_key(key) {
            the_first_capture_is_kept(store, form, result, key);
        } else {
            gaps_stay_noted(store, form, result, file_quota_gap(store.limits));
        },
        None => {},
    }
}

/// A file that is found is secured at once or is captured next, and is secured then, whatever
/// the capture comes to.
proof fn lemma_found_file_is_secured(
    then: ThenView,
    path: Seq<u8>,
    store: StoreView,
    result: Result<CaptureOutcomeView, HelperFailureView>,
)
    ensures
        match wanted(store, path) {
            Some(key) => is_secured(completed(store, normalized(path), result), path),
            None => is_secured(capture_begun(store, path), path) && is_secured(
                file_found(then, path, store).1,
                path,
            ),
        },
{
    match wanted(store, path) {
        Some(key) => {
            locating_the_normal_form_is_the_same(
                store.roots,
                store.exclusions,
                store.recursive_exclusions,
                path,
            );
        },
        None => {
            lemma_noted_keeps(
                store.gaps,
                file_quota_gap(store.limits),
                file_quota_gap(store.limits),
            );
            match then {
                ThenView::Note(gap) => {
                    lemma_gap_keeps_secured(capture_begun(store, path), gap, path);
                },
                _ => {},
            }
        },
    }
}

proof fn lemma_named_files_are_secured(
    pid: u32,
    begun: (StageView, StoreView),
    answers: Seq<HandlingAnswer>,
)
    requires
        !(begun.0 is Capture),
    ensures
        ({
            let (stage, store) = answers_taken(pid, begun, answers);
            let named = all_named(pid, begun, answers);
            &&& forall|i: int|
                0 <= i < named.len() ==> is_secured(store, #[trigger] named[i]) || (i == named.len() - 1
                    && is_capturing(stage, store, named[i]))
            &&& stage is Capture ==> named.len() > 0 && is_capturing(stage, store, named.last())
        }),
    decreases answers.len(),
{
    if answers.len() > 0 {
        let (stage, store) = answers_taken(pid, begun, answers.drop_last());
        let given = answers.last();
        let work = HandlingView { pid, stage };
        let (next_stage, next) = answer_taken(work, store, given);
        let earlier = all_named(pid, begun, answers.drop_last());
        let all = all_named(pid, begun, answers);
        lemma_named_files_are_secured(pid, begun, answers.drop_last());
        assert forall|i: int| 0 <= i < all.len() implies is_secured(next, #[trigger] all[i]) || (i
            == all.len() - 1 && is_capturing(next_stage, next, all[i])) by {
            if i < earlier.len() {
                assert(all[i] == earlier[i]);
                if is_secured(store, earlier[i]) {
                    lemma_stays_secured(work, store, given, earlier[i]);
                } else if given is Captured {
                    let result = answer(given->Captured_0);
                    lemma_found_file_is_secured(ThenView::Nothing, earlier[i], store, result);
                    match stage->Capture_then {
                        ThenView::Note(gap) => {
                            lemma_gap_keeps_secured(
                                completed(store, normalized(earlier[i]), result),
                                gap,
                                earlier[i],
                            );
                        },
                        _ => {},
                    }
                }
            } else {
                let then = match stage {
                    StageView::Follow { then, path, follow, whole, directory } => then,
                    _ => ThenView::Nothing,
                };
                if wanted(store, all[i]) is None {
                    lemma_found_file_is_secured(then, all[i], store, arbitrary());
                }
            }
        }
    }
}

/// When a system call goes on, every file that it was found to name has its state captured,
/// or it is noted that there was no room for it, or the file is no matter of the run.
pub proof fn named_files_are_captured_before_the_call_goes_on(
    pid: u32,
    plan: RequestPlanView,
    store: StoreView,
    answers: Seq<HandlingAnswer>,
)
    requires
        answers_taken(pid, handling_begun(plan, store), answers).0 is Done,
    ensures
        forall|i: int|
            0 <= i < all_named(pid, handling_begun(plan, store), answers).len() ==> is_secured(
                answers_taken(pid, handling_begun(plan, store), answers).1,
                #[trigger] all_named(pid, handling_begun(plan, store), answers)[i],
            ),
{
    lemma_named_files_are_secured(pid, handling_begun(plan, store), answers);
}

/// A system call is handled as it is planned: the path of its argument is read first, and what
/// comes behind it is kept in mind, the second name of a rename and the gap of a hard link; what
/// is to be noted is noted, and what changes no file goes on at once.
pub proof fn handling_begins_as_planned(
    first: PathArgument,
    second: PathArgument,
    gap: GapView,
    fd: i32,
    raw: u64,
    address: u64,
    store: StoreView,
)
    ensures
        handling_begun(RequestPlanView::Nothing, store) == (StageView::Done, store),
        handling_begun(RequestPlanView::Capture(first), store) == (
            StageView::Path { argument: first, then: ThenView::Nothing, read: Seq::<u8>::empty() },
            store,
        ),
        handling_begun(RequestPlanView::CapturePair(first, second), store) == (
            StageView::Path {
                argument: first,
                then: ThenView::Capture(second),
                read: Seq::<u8>::empty(),
            },
            store,
        ),
        handling_begun(RequestPlanView::CaptureLink(first, gap), store) == (
            StageView::Path {
                argument: first,
                then: ThenView::Note(gap),
                read: Seq::<u8>::empty(),
            },
            store,
        ),
        handling_begun(RequestPlanView::CaptureDescriptor { fd, raw }, store) == (
            StageView::Descriptor { fd, raw },
            store,
        ),
        handling_begun(RequestPlanView::ReadOpenHow { address, argument: first }, store) == (
            StageView::OpenHow { address, argument: first },
            store,
        ),
        handling_begun(RequestPlanView::Note(gap), store).0 is Done,
        handling_begun(RequestPlanView::Note(gap), store).1.gaps.contains(gap),
{
    lemma_noted_keeps(store.gaps, gap, gap);
}

/// What follows an argument: nothing, the gap that was kept in mind, or the second name, unless
/// the first one is a directory.
pub proof fn the_second_name_follows_the_first(argument: PathArgument, gap: GapView, store: StoreView)
    ensures
        argument_handled(ThenView::Nothing, true, store) == (StageView::Done, store),
        argument_handled(ThenView::Nothing, false, store) == (StageView::Done, store),
        argument_handled(ThenView::Capture(argument), false, store) == (
            StageView::Path { argument, then: ThenView::Nothing, read: Seq::<u8>::empty() },
            store,
        ),
        argument_handled(ThenView::Capture(argument), true, store) == (StageView::Done, store),
        forall|is_directory: bool|
            (#[trigger] argument_handled(ThenView::Note(gap), is_directory, store)).0 is Done
                && argument_handled(ThenView::Note(gap), is_directory, store).1.gaps.contains(gap)
                && argument_handled(ThenView::Note(gap), is_directory, store).1.candidates
                == store.candidates,
{
    lemma_noted_keeps(store.gaps, gap, gap);
}

/// What is asked for at each stage: the memory where the path was not read yet, the link of the
/// path's start or of the descriptor, the canonical forms of the path, whether it is a directory,
/// and the capture of the file with its entry in the journal.
pub proof fn each_stage_asks_for_what_it_lacks(work: HandlingView, store: StoreView)
    ensures
        match work.stage {
            StageView::Descriptor { fd, raw } => handling_action(work, store)
                == HandlingActionView::ReadLink(
                "/proc/"@ + decimal(work.pid as int) + "/fd/"@ + decimal(fd as int),
            ),
            StageView::OpenHow { address, argument } => handling_action(work, store)
                == (HandlingActionView::ReadOpenHow { address }),
            StageView::Path { argument, then, read } => {
                &&& handling_action(work, store) is ReadMemory <==> argument.address + read.len()
                    <= u64::MAX
                &&& handling_action(work, store) is ReadMemory ==> handling_action(
                    work,
                    store,
                )->ReadMemory_address == argument.address + read.len()
                &&& !(handling_action(work, store) is ReadMemory) ==> handling_action(work, store)
                    is Fail
            },
            StageView::Base { argument, then, raw } => {
                let process = "/proc/"@ + decimal(work.pid as int);
                let absolute = raw.len() > 0 && raw[0] == 47;
                &&& absolute ==> handling_action(work, store) == HandlingActionView::ReadLink(
                    process + "/root"@,
                )
                &&& !absolute && argument.dirfd == -100 ==> handling_action(work, store)
                    == HandlingActionView::ReadLink(process + "/cwd"@)
                &&& !absolute && argument.dirfd != -100 ==> handling_action(work, store)
                    == HandlingActionView::ReadLink(
                    process + "/fd/"@ + decimal(argument.dirfd as int),
                )
            },
            StageView::Follow { then, path, follow, whole, directory } => {
                &&& !follow ==> handling_action(work, store) == HandlingActionView::Inspect(path)
                &&& follow && whole is Untried ==> handling_action(work, store)
                    == HandlingActionView::Canonicalize(path)
                &&& follow && whole is Found ==> handling_action(work, store)
                    == HandlingActionView::Inspect(whole->Found_0)
                &&& follow && whole is Failed && parent_of(path) is Some && file_name_of(path)
                    is Some ==> {
                    &&& directory is Untried ==> handling_action(work, store)
                        == HandlingActionView::Canonicalize(parent_of(path)->0)
                    &&& directory is Found ==> handling_action(work, store)
                        == HandlingActionView::Inspect(
                        joined(directory->Found_0, file_name_of(path)->0),
                    )
                }
                &&& follow && whole is Failed && (directory is Failed || parent_of(path) is None
                    || file_name_of(path) is None) ==> handling_action(work, store)
                    == HandlingActionView::Inspect(path)
            },
            StageView::Capture { then, key, path } => {
                &&& handling_action(work, store) is Capture
                &&& handling_action(work, store)->Capture_0.path_base64 == base64_text(path)
                &&& handling_action(work, store)->Capture_0.output_base64 == base64_text(
                    store.output,
                )
                &&& handling_action(work, store)->Capture_0.journal == Some(key)
                &&& handling_action(work, store)->Capture_0.max_file_bytes
                    == store.limits.max_file_bytes
            },
            StageView::Failed { message } => handling_action(work, store)
                == HandlingActionView::Fail(message),
            StageView::Done => handling_action(work, store) is Done,
        },
{
}

/// A path is read up to its first zero byte, piece by piece; without one it cannot be handled
/// once the memory ends or the path is too long.
pub proof fn a_path_is_read_piece_by_piece(
    argument: PathArgument,
    then: ThenView,
    read: Seq<u8>,
    piece: Seq<u8>,
    end: int,
)
    ensures
        0 <= end < piece.len() && piece[end] == 0 && (forall|i: int|
            0 <= i < end ==> #[trigger] piece[i] != 0) ==> path_read(argument, then, read, piece)
            == (StageView::Base { argument, then, raw: read + piece.take(end) }),
        (forall|i: int| 0 <= i < piece.len() ==> #[trigger] piece[i] != 0) && piece.len() > 0
            && read.len() + piece.len() < 65_536 ==> path_read(argument, then, read, piece)
            == (StageView::Path { argument, then, read: read + piece }),
        (forall|i: int| 0 <= i < piece.len() ==> #[trigger] piece[i] != 0) && (piece.len() == 0
            || read.len() + piece.len() >= 65_536) ==> path_read(argument, then, read, piece)
            == (StageView::Failed {
            message: "pathname is missing NUL terminator or exceeds 64 KiB"@,
        }),
{
    crate::linux::the_first_zero_is_first(piece);
}

/// What an answer comes to on the way to a file: the path that was read is put behind its start,
/// and each canonical form is kept where it was asked for.
pub proof fn answers_lead_to_the_file(
    pid: u32,
    argument: PathArgument,
    then: ThenView,
    raw: Seq<u8>,
    path: Seq<u8>,
    base: Vec<u8>,
    canonical: Option<Vec<u8>>,
    piece: Vec<u8>,
    store: StoreView,
)
    ensures
        answer_taken(
            HandlingView { pid, stage: StageView::Path { argument, then, read: raw } },
            store,
            HandlingAnswer::Memory(piece),
        ) == (path_read(argument, then, raw, piece@), store),
        answer_taken(
            HandlingView { pid, stage: StageView::Base { argument, then, raw } },
            store,
            HandlingAnswer::Link(base),
        ) == (
            StageView::Follow {
                then,
                path: based(base@, raw),
                follow: argument.follow,
                whole: ResolutionView::Untried,
                directory: ResolutionView::Untried,
            },
            store,
        ),
        answer_taken(
            HandlingView {
                pid,
                stage: StageView::Follow {
                    then,
                    path,
                    follow: true,
                    whole: ResolutionView::Untried,
                    directory: ResolutionView::Untried,
                },
            },
            store,
            HandlingAnswer::Canonical(canonical),
        ) == (
            StageView::Follow {
                then,
                path,
                follow: true,
                whole: if canonical is Some {
                    ResolutionView::Found(canonical->0@)
                } else {
                    ResolutionView::Failed
                },
                directory: ResolutionView::Untried,
            },
            store,
        ),
        parent_of(path) is Some && file_name_of(path) is Some ==> answer_taken(
            HandlingView {
                pid,
                stage: StageView::Follow {
                    then,
                    path,
                    follow: true,
                    whole: ResolutionView::Failed,
                    directory: ResolutionView::Untried,
                },
            },
            store,
            HandlingAnswer::Canonical(canonical),
        ) == (
            StageView::Follow {
                then,
                path,
                follow: true,
                whole: ResolutionView::Failed,
                directory: if canonical is Some {
                    ResolutionView::Found(canonical->0@)
                } else {
                    ResolutionView::Failed
                },
            },
            store,
        ),
{
}

/// What a file comes to: a directory is noted and not captured; anything else is captured where
/// the store wants it, under its key and in normal form, and what follows the argument comes then.
pub proof fn a_file_is_captured_and_a_directory_noted(
    pid: u32,
    then: ThenView,
    path: Seq<u8>,
    store: StoreView,
)
    ensures
        ({
            let stage = StageView::Follow {
                then,
                path,
                follow: false,
                whole: ResolutionView::Untried,
                directory: ResolutionView::Untried,
            };
            let work = HandlingView { pid, stage };
            let directory = answer_taken(work, store, HandlingAnswer::Directory(true));
            let file = answer_taken(work, store, HandlingAnswer::Directory(false));
            &&& directory == argument_handled(
                then,
                true,
                with_gap(
                    store,
                    GapView {
                        kind: "directory_operation"@,
                        detail: "directory mutation at "@ + lossy_text(path),
                    },
                ),
            )
            &&& wanted(store, path) is Some ==> file == (
                StageView::Capture { then, key: wanted(store, path)->0, path: normalized(path) },
                store,
            )
            &&& wanted(store, path) is None ==> file == argument_handled(
                then,
                false,
                capture_begun(store, path),
            )
        }),
{
}

/// A descriptor leads to its file, unless the file has no name any more, which is noted; an
/// `open_how` leads to the path exactly where it can change a file.
pub proof fn descriptors_and_open_hows_lead_to_files(
    pid: u32,
    fd: i32,
    raw: u64,
    link: Vec<u8>,
    address: u64,
    argument: PathArgument,
    how: OpenHow,
    store: StoreView,
)
    ensures
        ({
            let work = HandlingView { pid, stage: StageView::Descriptor { fd, raw } };
            let next = answer_taken(work, store, HandlingAnswer::Link(link));
            let gone = exists|lead: Seq<u8>|
                link@ == #[trigger] (lead + vstd::utf8::encode_utf8(" (deleted)"@));
            &&& gone ==> next == (
                StageView::Done,
                with_gap(
                    store,
                    GapView {
                        kind: "fd_path"@,
                        detail: "cannot resolve pid "@ + decimal(pid as int) + " fd "@ + decimal(
                            raw as int,
                        ),
                    },
                ),
            )
            &&& !gone && wanted(store, link@) is Some ==> next == (
                StageView::Capture {
                    then: ThenView::Nothing,
                    key: wanted(store, link@)->0,
                    path: normalized(link@),
                },
                store,
            )
            &&& !gone && wanted(store, link@) is None ==> next == (
                StageView::Done,
                capture_begun(store, link@),
            )
        }),
        ({
            let work = HandlingView { pid, stage: StageView::OpenHow { address, argument } };
            let next = answer_taken(work, store, HandlingAnswer::OpenHow(how));
            &&& crate::request::opens_for_change(how.flags) ==> next.0 == (StageView::Path {
                argument,
                then: ThenView::Nothing,
                read: Seq::<u8>::empty(),
            })
            &&& !crate::request::opens_for_change(how.flags) ==> next.0 is Done
            &&& how.resolve == 0 ==> next.1 == store
            &&& how.resolve != 0 ==> next.1 == with_gap(
                store,
                GapView {
                    kind: "openat2_resolve"@,
                    detail: "unsupported resolve flags 0x"@ + crate::text::digits(
                        how.resolve as nat,
                        16,
                    ),
                },
            )
        }),
{
    crate::request::a_deleted_link_ends_with_the_mark(link@);
    crate::request::flags_are_told_by_their_bits(how.flags as i32);
}

/// The capture of a file ends with its candidate in the store, and what follows comes then.
pub proof fn a_capture_ends_with_a_candidate(
    pid: u32,
    then: ThenView,
    key: PathKeyView,
    path: Seq<u8>,
    result: Result<CaptureOutcome, HelperFailure>,
    store: StoreView,
)
    ensures
        answer_taken(
            HandlingView { pid, stage: StageView::Capture { then, key, path } },
            store,
            HandlingAnswer::Captured(result),
        ) == argument_handled(then, false, completed(store, path, answer(result))),
{
}

/// An answer to something else changes nothing.
pub proof fn other_answers_change_nothing(work: HandlingView, store: StoreView, given: HandlingAnswer)
    requires
        !fits(work.stage, given),
    ensures
        answer_taken(work, store, given) == (work.stage, store),
{
}

/// The handling of a system call goes by its plan, its stages and the answers.
pub proof fn handling_goes_by_its_stages(
    request: Notification,
    table: SyscallTable,
    store: &mut CaptureStore,
    begun: Handling,
    work: Handling,
    held: CaptureStore,
    action: HandlingAction,
)
    requires
        call_ensures(Handling::new, (&request, &table, store), begun),
        call_ensures(Handling::next, (&work, &held), action),
    ensures
        begun@.pid == request.pid,
        (begun@.stage, final(store)@) == handling_begun(
            planned(
                kind_among(table_entries(table), request.data.nr),
                request.data.nr,
                request.data.args@,
            ),
            old(store)@,
        ),
        action@ == handling_action(work@, held@),
{
}

/// An answer takes the handling of a system call to its next stage, and the store with it.
pub proof fn answers_take_the_handling_on(
    work: Handling,
    store: &mut CaptureStore,
    given: HandlingAnswer,
    next: Handling,
)
    requires
        call_ensures(Handling::record, (work, store, given), next),
    ensures
        next@.pid == work@.pid,
        (next@.stage, final(store)@) == answer_taken(work@, old(store)@, given),
{
}

} // verus!
