//! The end of a run, candidate by candidate: each file is captured once more, and what is
//! needed to show its change is read.
use crate::capture::{
    absorbed, answer, answered_state, lists_candidates, object_of, request_for, tracked_views,
    CandidateView, CaptureOutcome, CaptureRequest, CaptureRequestView, CaptureStore,
    HelperFailure, ObjectPlace, PathKeyView, StoreView, TrackedFile,
};
use crate::contracts::{FileState, FileStateView};
use crate::order::key_le;
use crate::outside::base64_text;
use crate::paths::joined;
use crate::report::{
    classified, content_needed, drafted, file_key, has_changed, same_content, shows,
    sorted_candidates, the_draft_holds_the_net_changes, Observation, ObservationView, ReportDraft,
};
use vstd::prelude::*;
use vstd::utf8::encode_utf8;

verus! {

/// What is known of the candidate that is being looked at.
pub enum StageView {
    /// Nothing yet.
    Begun,
    /// Its state after the run.
    Captured { after: FileStateView },
    /// Its state after the run and its content before it.
    HalfRead { after: FileStateView, before_bytes: Seq<u8> },
}

#[derive(Debug)]
enum Stage {
    Begun,
    Captured { after: FileState },
    HalfRead { after: FileState, before_bytes: Vec<u8> },
}

impl View for Stage {
    type V = StageView;

    closed spec fn view(&self) -> StageView {
        match *self {
            Stage::Begun => StageView::Begun,
            Stage::Captured { after } => StageView::Captured { after: after@ },
            Stage::HalfRead { after, before_bytes } => StageView::HalfRead {
                after: after@,
                before_bytes: before_bytes@,
            },
        }
    }
}

/// The end of a run: the candidates in their order, what was seen of the first ones, and what
/// is known of the one behind them.
#[verifier::ext_equal]
pub struct FinishingView {
    pub files: Seq<(PathKeyView, CandidateView)>,
    pub seen: Seq<ObservationView>,
    pub stage: StageView,
    pub limit: usize,
}

/// What is to be done next at the end of a run.
pub enum FinishActionView {
    /// Have the capture helper carry out the request.
    Capture(CaptureRequestView),
    /// Read the object at the path; without a path the content is empty.
    Read(Option<Seq<u8>>),
    /// Give up, for this reason.
    Fail(Seq<char>),
    /// Make the report: every candidate was looked at.
    Done,
}

/// What is to be done next at the end of a run.
#[derive(Debug)]
pub enum FinishAction {
    /// Have the capture helper carry out the request.
    Capture(CaptureRequest),
    /// Read the object at the path; without a path the content is empty.
    Read(Option<Vec<u8>>),
    /// Give up, for this reason.
    Fail(String),
    /// Make the report: every candidate was looked at.
    Done,
}

impl View for FinishAction {
    type V = FinishActionView;

    open spec fn view(&self) -> FinishActionView {
        match *self {
            FinishAction::Capture(request) => FinishActionView::Capture(request@),
            FinishAction::Read(None) => FinishActionView::Read(None),
            FinishAction::Read(Some(path)) => FinishActionView::Read(Some(path@)),
            FinishAction::Fail(reason) => FinishActionView::Fail(reason@),
            FinishAction::Done => FinishActionView::Done,
        }
    }
}

/// What came of an action.
#[derive(Debug)]
pub enum FinishAnswer {
    /// The capture helper's answer.
    Captured(Result<CaptureOutcome, HelperFailure>),
    /// The content that was read.
    Content(Vec<u8>),
}

/// Every candidate was looked at.
pub open spec fn is_over(run: FinishingView) -> bool {
    run.seen.len() >= run.files.len()
}

/// The candidate that is being looked at.
pub open spec fn current(run: FinishingView) -> (PathKeyView, CandidateView) {
    run.files[run.seen.len() as int]
}

/// The reading of a state's content.
pub open spec fn reading(output: Seq<u8>, state: FileStateView) -> FinishActionView {
    match object_of(output, state) {
        ObjectPlace::Nowhere => FinishActionView::Read(None),
        ObjectPlace::Misnamed => FinishActionView::Fail("invalid object identifier"@),
        ObjectPlace::At(path) => FinishActionView::Read(Some(path)),
    }
}

/// What is to be done next: each candidate is captured, and where its change has to be shown
/// its content is read, that before the run first.
pub open spec fn finish_action(run: FinishingView, store: StoreView) -> FinishActionView {
    if is_over(run) {
        FinishActionView::Done
    } else {
        match run.stage {
            StageView::Begun => FinishActionView::Capture(
                request_for(store, current(run).1.path, None),
            ),
            StageView::Captured { after } => reading(store.output, current(run).1.before),
            StageView::HalfRead { after, before_bytes } => reading(store.output, after),
        }
    }
}

/// The end of a run with one more candidate seen.
pub open spec fn seen_with(
    run: FinishingView,
    after: FileStateView,
    before_bytes: Seq<u8>,
    after_bytes: Seq<u8>,
) -> FinishingView {
    FinishingView {
        seen: run.seen.push(
            ObservationView {
                key: current(run).0,
                before: current(run).1.before,
                after,
                before_bytes,
                after_bytes,
            },
        ),
        stage: StageView::Begun,
        ..run
    }
}

/// The answer is one to what is to be done next.
pub open spec fn fits(run: FinishingView, given: FinishAnswer) -> bool {
    match given {
        FinishAnswer::Captured(result) => run.stage is Begun,
        FinishAnswer::Content(bytes) => !(run.stage is Begun),
    }
}

/// The end of a run with an answer taken in. An answer to something else changes nothing.
pub open spec fn taken_in(run: FinishingView, given: FinishAnswer) -> FinishingView {
    if is_over(run) || !fits(run, given) {
        run
    } else {
        match (run.stage, given) {
            (StageView::Captured { after }, FinishAnswer::Content(bytes)) => FinishingView {
                stage: StageView::HalfRead { after, before_bytes: bytes@ },
                ..run
            },
            (StageView::HalfRead { after, before_bytes }, FinishAnswer::Content(bytes)) => seen_with(
                run,
                after,
                before_bytes,
                bytes@,
            ),
            (_, FinishAnswer::Captured(result)) => {
                let after = answered_state(answer(result));
                let before = current(run).1.before;
                if classified(before, after) is Some && !same_content(before, after) {
                    FinishingView { stage: StageView::Captured { after }, ..run }
                } else {
                    seen_with(run, after, Seq::empty(), Seq::empty())
                }
            },
            _ => run,
        }
    }
}

/// The store with an answer taken in.
pub open spec fn store_taken_in(run: FinishingView, store: StoreView, given: FinishAnswer) -> StoreView {
    match given {
        FinishAnswer::Captured(result) => if is_over(run) || !fits(run, given) {
            store
        } else {
            absorbed(store, current(run).1.path, answer(result))
        },
        FinishAnswer::Content(bytes) => store,
    }
}

/// The end of a run at its beginning.
pub open spec fn begun(files: Seq<(PathKeyView, CandidateView)>, limit: usize) -> FinishingView {
    FinishingView { files, seen: Seq::empty(), stage: StageView::Begun, limit }
}

/// The end of a run, candidate by candidate.
pub struct Finishing {
    files: Vec<TrackedFile>,
    at: usize,
    stage: Stage,
    limit: usize,
    draft: ReportDraft,
    seen: Ghost<Seq<ObservationView>>,
}

impl View for Finishing {
    type V = FinishingView;

    closed spec fn view(&self) -> FinishingView {
        FinishingView {
            files: tracked_views(self.files@),
            seen: self.seen@,
            stage: self.stage@,
            limit: self.limit,
        }
    }
}

impl Finishing {
    #[verifier::type_invariant]
    spec fn is_sound(self) -> bool {
        &&& self.at <= self.files@.len()
        &&& self.at == self.seen@.len()
        &&& self.draft@ == drafted(self.seen@, self.limit)
    }

    /// Begins to end a run: every candidate of the store is to be looked at, in the order of
    /// the files.
    pub fn new(store: &CaptureStore) -> (run: Self)
        ensures
            lists_candidates(store@.candidates, run@.files),
            forall|i: int, j: int|
                0 <= i < j < run@.files.len() ==> key_le(
                    file_key((#[trigger] run@.files[i]).0),
                    file_key((#[trigger] run@.files[j]).0),
                ),
            run@ == begun(run@.files, store@.limits.max_diff_bytes),
    {
        let files = sorted_candidates(store);
        let run = Finishing {
            files,
            at: 0,
            stage: Stage::Begun,
            limit: store.max_diff_bytes(),
            draft: ReportDraft::new(),
            seen: Ghost(Seq::empty()),
        };
        proof {
            let list = run@.files;
            assert forall|i: int, j: int| 0 <= i < j < list.len() implies key_le(
                file_key((#[trigger] list[i]).0),
                file_key((#[trigger] list[j]).0),
            ) by {
                assert(list[i] == files@[i]@ && list[j] == files@[j]@);
            }
        }
        run
    }

    fn read(store: &CaptureStore, state: &FileState) -> (action: FinishAction)
        ensures
            action@ == reading(store@.output, state@),
    {
        match store.read_object(state) {
            Ok(path) => FinishAction::Read(path),
            Err(reason) => FinishAction::Fail(reason),
        }
    }

    /// What is to be done next.
    pub fn next(&self, store: &CaptureStore) -> (action: FinishAction)
        ensures
            action@ == finish_action(self@, store@),
    {
        proof {
            use_type_invariant(self);
        }
        if self.at >= self.files.len() {
            return FinishAction::Done;
        }
        let file = &self.files[self.at];
        assert(current(self@) == file@);
        match &self.stage {
            Stage::Begun => FinishAction::Capture(store.capture_request(&file.candidate.path, None)),
            Stage::Captured { .. } => Self::read(store, &file.candidate.before),
            Stage::HalfRead { after, .. } => Self::read(store, after),
        }
    }

    /// Takes in what came of an action.
    pub fn record(self, store: &mut CaptureStore, given: FinishAnswer) -> (run: Self)
        ensures
            run@ == taken_in(self@, given),
            final(store)@ == store_taken_in(self@, old(store)@, given),
    {
        proof {
            use_type_invariant(&self);
        }
        let ghost before = self@;
        if self.at >= self.files.len() {
            return self;
        }
        let Finishing { files, at, stage, limit, draft, seen } = self;
        let file = &files[at];
        let (after, before_bytes, after_bytes) = match (stage, given) {
            (Stage::Begun, FinishAnswer::Captured(result)) => {
                let after = store.capture_after(&file.candidate.path, result);
                if content_needed(&file.candidate.before, &after) {
                    return Finishing { files, at, stage: Stage::Captured { after }, limit, draft, seen };
                }
                (after, Vec::new(), Vec::new())
            },
            (Stage::Captured { after }, FinishAnswer::Content(before_bytes)) => {
                return Finishing {
                    files,
                    at,
                    stage: Stage::HalfRead { after, before_bytes },
                    limit,
                    draft,
                    seen,
                };
            },
            (Stage::HalfRead { after, before_bytes }, FinishAnswer::Content(bytes)) => (
                after,
                before_bytes,
                bytes,
            ),
            (stage, _) => {
                return Finishing { files, at, stage, limit, draft, seen };
            },
        };
        let observation = Observation {
            key: file.key.clone(),
            before: file.candidate.before.clone(),
            after,
            before_bytes,
            after_bytes,
        };
        let ghost all = seen@.push(observation@);
        let mut draft = draft;
        draft.observe(observation, limit);
        assert(all.drop_last() =~= seen@);
        Finishing { files, at: at + 1, stage: Stage::Begun, limit, draft, seen: Ghost(all) }
    }

    /// The draft of what was seen.
    pub fn into_draft(self) -> (draft: ReportDraft)
        ensures
            draft@ == drafted(self@.seen, self@.limit),
    {
        proof {
            use_type_invariant(&self);
        }
        self.draft
    }
}

/// The end of a run with a list of answers taken in, one by one.
pub open spec fn all_taken_in(run: FinishingView, answers: Seq<FinishAnswer>) -> FinishingView
    decreases answers.len(),
{
    if answers.len() == 0 {
        run
    } else {
        taken_in(all_taken_in(run, answers.drop_last()), answers.last())
    }
}

/// The number of answers that are still to come at most.
pub open spec fn answers_left(run: FinishingView) -> int {
    3 * (run.files.len() - run.seen.len()) - match run.stage {
        StageView::Begun => 0int,
        StageView::Captured { after } => 1,
        StageView::HalfRead { after, before_bytes } => 2,
    }
}

/// The end of a run is reached: each answer to what is to be done next leaves fewer answers
/// to come, and as long as a candidate is left there is one.
pub proof fn the_end_is_reached(run: FinishingView, given: FinishAnswer)
    requires
        !is_over(run),
        fits(run, given),
    ensures
        answers_left(run) > 0,
        0 <= answers_left(taken_in(run, given)) < answers_left(run),
{
}

/// What was seen are the first of the candidates.
pub open spec fn follows_files(run: FinishingView) -> bool {
    &&& run.seen.len() <= run.files.len()
    &&& forall|i: int|
        0 <= i < run.seen.len() ==> (#[trigger] run.seen[i]).key == run.files[i].0
            && run.seen[i].before == run.files[i].1.before
}

proof fn lemma_follows_files(
    files: Seq<(PathKeyView, CandidateView)>,
    limit: usize,
    answers: Seq<FinishAnswer>,
)
    ensures
        follows_files(all_taken_in(begun(files, limit), answers)),
        all_taken_in(begun(files, limit), answers).files == files,
        all_taken_in(begun(files, limit), answers).limit == limit,
    decreases answers.len(),
{
    if answers.len() > 0 {
        lemma_follows_files(files, limit, answers.drop_last());
    }
}

/// When the end of a run is reached, every candidate was seen once, with the state that was
/// captured before its first change; and the report holds a change for each one whose state
/// is another one in the end, and no other change.
pub proof fn the_report_holds_the_net_changes(
    candidates: Map<PathKeyView, CandidateView>,
    files: Seq<(PathKeyView, CandidateView)>,
    limit: usize,
    answers: Seq<FinishAnswer>,
)
    requires
        lists_candidates(candidates, files),
        is_over(all_taken_in(begun(files, limit), answers)),
    ensures
        ({
            let seen = all_taken_in(begun(files, limit), answers).seen;
            let changes = drafted(seen, limit).changes;
            &&& seen.len() == candidates.dom().len()
            &&& forall|i: int, j: int|
                0 <= i < j < seen.len() ==> (#[trigger] seen[i]).key != (#[trigger] seen[j]).key
            &&& forall|i: int|
                0 <= i < seen.len() ==> candidates.contains_key((#[trigger] seen[i]).key)
                    && candidates[seen[i].key].before == seen[i].before
            &&& forall|key: PathKeyView| #[trigger]
                candidates.contains_key(key) ==> exists|i: int|
                    0 <= i < seen.len() && (#[trigger] seen[i]).key == key
            &&& forall|i: int|
                0 <= i < seen.len() && has_changed(#[trigger] seen[i]) ==> exists|j: int|
                    0 <= j < changes.len() && shows(#[trigger] changes[j], seen[i])
            &&& forall|j: int|
                0 <= j < changes.len() ==> exists|i: int|
                    0 <= i < seen.len() && shows(#[trigger] changes[j], #[trigger] seen[i])
        }),
{
    let end = all_taken_in(begun(files, limit), answers);
    lemma_follows_files(files, limit, answers);
    the_draft_holds_the_net_changes(end.seen, limit);
    let seen = end.seen;
    assert forall|i: int, j: int| 0 <= i < j < seen.len() implies (#[trigger] seen[i]).key != (
    #[trigger] seen[j]).key by {
        assert(files[i].0 != files[j].0);
    }
    assert forall|i: int| 0 <= i < seen.len() implies candidates.contains_key(
        (#[trigger] seen[i]).key,
    ) && candidates[seen[i].key].before == seen[i].before by {
        assert(candidates.contains_key(files[i].0));
    }
    assert forall|key: PathKeyView| #[trigger] candidates.contains_key(key) implies exists|i: int|
        0 <= i < seen.len() && (#[trigger] seen[i]).key == key by {
        let i = choose|i: int| 0 <= i < files.len() && (#[trigger] files[i]).0 == key;
        assert(seen[i].key == key);
    }
}

/// What is asked for at the end of a run: the capture of each candidate at its path, without an
/// entry in the journal; then, where its change has to be shown, the object of its state before
/// the run and that of its state after it; and nothing more once all were seen.
pub proof fn the_end_asks_for_each_candidate(run: FinishingView, store: StoreView, digest: Seq<char>)
    ensures
        run.seen.len() >= run.files.len() <==> finish_action(run, store) is Done,
        run.seen.len() < run.files.len() ==> {
            let candidate = run.files[run.seen.len() as int].1;
            &&& run.stage is Begun ==> {
                &&& finish_action(run, store) is Capture
                &&& finish_action(run, store)->Capture_0.path_base64 == base64_text(candidate.path)
                &&& finish_action(run, store)->Capture_0.output_base64 == base64_text(store.output)
                &&& finish_action(run, store)->Capture_0.journal is None
                &&& finish_action(run, store)->Capture_0.max_file_bytes
                    == store.limits.max_file_bytes
            }
            &&& !(run.stage is Begun) ==> {
                let state = if run.stage is Captured {
                    candidate.before
                } else {
                    run.stage->HalfRead_after
                };
                &&& !(state is Present) ==> finish_action(run, store) == FinishActionView::Read(None)
                &&& state is Present && state->object.object_id == "sha256:"@ + digest
                    ==> finish_action(run, store) == FinishActionView::Read(
                    Some(
                        joined(
                            joined(store.output, encode_utf8("objects"@)),
                            encode_utf8(digest),
                        ),
                    ),
                )
            }
        },
{
    let lead = "sha256:"@;
    let id = lead + digest;
    assert(id.subrange(0, lead.len() as int) =~= lead);
    assert(id.skip(lead.len() as int) =~= digest);
}

/// What a capture at the end comes to: the state after the run is the one that was captured. Where
/// the content has changed it is read; otherwise the candidate is seen at once. The store takes in
/// what the capture says of the candidate's path.
pub proof fn the_last_capture_is_the_state_after(
    run: FinishingView,
    store: StoreView,
    result: Result<CaptureOutcome, HelperFailure>,
)
    requires
        run.seen.len() < run.files.len(),
        run.stage is Begun,
    ensures
        ({
            let next = taken_in(run, FinishAnswer::Captured(result));
            let (key, candidate) = run.files[run.seen.len() as int];
            let before = candidate.before;
            let after = if result is Ok {
                result->Ok_0.state@
            } else {
                FileStateView::Unavailable {
                    reason: if result->Err_0.timed_out {
                        "capture_timeout"@
                    } else {
                        "capture_helper"@
                    },
                }
            };
            let same = (before is Absent && after is Absent) || (before is Present && after is Present
                && before->object.object_id == after->object.object_id);
            &&& same ==> next == (FinishingView {
                files: run.files,
                seen: run.seen.push(
                    ObservationView {
                        key,
                        before,
                        after,
                        before_bytes: Seq::empty(),
                        after_bytes: Seq::empty(),
                    },
                ),
                stage: StageView::Begun,
                limit: run.limit,
            })
            &&& !same ==> next == (FinishingView {
                files: run.files,
                seen: run.seen,
                stage: StageView::Captured { after },
                limit: run.limit,
            })
            &&& store_taken_in(run, store, FinishAnswer::Captured(result)) == absorbed(
                store,
                candidate.path,
                answer(result),
            )
        }),
{
}

/// What is read at the end is the content before the run first and then that after it, and the
/// candidate is seen with both and with its two states.
pub proof fn contents_are_read_before_and_after(
    run: FinishingView,
    store: StoreView,
    after: FileStateView,
    first: Vec<u8>,
    second: Vec<u8>,
)
    requires
        run.seen.len() < run.files.len(),
        run.stage == (StageView::Captured { after }),
    ensures
        ({
            let half = taken_in(run, FinishAnswer::Content(first));
            let next = taken_in(half, FinishAnswer::Content(second));
            let (key, candidate) = run.files[run.seen.len() as int];
            &&& half == (FinishingView {
                files: run.files,
                seen: run.seen,
                stage: StageView::HalfRead { after, before_bytes: first@ },
                limit: run.limit,
            })
            &&& next == (FinishingView {
                files: run.files,
                seen: run.seen.push(
                    ObservationView {
                        key,
                        before: candidate.before,
                        after,
                        before_bytes: first@,
                        after_bytes: second@,
                    },
                ),
                stage: StageView::Begun,
                limit: run.limit,
            })
            &&& store_taken_in(run, store, FinishAnswer::Content(first)) == store
        }),
{
}

/// The end of a run goes through every candidate of the store, and its draft is that of what was
/// seen.
pub proof fn the_end_goes_through_the_candidates(
    store: CaptureStore,
    begun: Finishing,
    run: Finishing,
    action: FinishAction,
    draft: ReportDraft,
)
    requires
        call_ensures(Finishing::new, (&store,), begun),
        call_ensures(Finishing::next, (&run, &store), action),
        call_ensures(Finishing::into_draft, (run,), draft),
    ensures
        begun@.files.len() == store@.candidates.dom().len(),
        begun@.seen.len() == 0,
        begun@.stage is Begun,
        begun@.limit == store@.limits.max_diff_bytes,
        forall|i: int|
            0 <= i < begun@.files.len() ==> store@.candidates.contains_key(
                (#[trigger] begun@.files[i]).0,
            ) && store@.candidates[begun@.files[i].0] == begun@.files[i].1,
        action@ == finish_action(run@, store@),
        draft@ == drafted(run@.seen, run@.limit),
{
}

/// An answer takes the end of a run on, and the store with it.
pub proof fn answers_take_the_end_on(
    run: Finishing,
    store: &mut CaptureStore,
    given: FinishAnswer,
    next: Finishing,
)
    requires
        call_ensures(Finishing::record, (run, store, given), next),
    ensures
        next@ == taken_in(run@, given),
        final(store)@ == store_taken_in(run@, old(store)@, given),
{
}

/// A content whose object has no proper name is not read: the end of the run fails and says so. A
/// state without content is read as nothing.
pub proof fn a_misnamed_object_is_not_read(
    run: Finishing,
    store: CaptureStore,
    action: FinishAction,
)
    requires
        call_ensures(Finishing::next, (&run, &store), action),
        run@.seen.len() < run@.files.len(),
    ensures
        run@.stage is Captured ==> {
            let place = object_of(store@.output, run@.files[run@.seen.len() as int].1.before);
            &&& place is Misnamed ==> action@ == FinishActionView::Fail("invalid object identifier"@)
            &&& place is Nowhere ==> action@ == FinishActionView::Read(None)
        },
        run@.stage is HalfRead ==> {
            let place = object_of(store@.output, run@.stage->HalfRead_after);
            &&& place is Misnamed ==> action@ == FinishActionView::Fail("invalid object identifier"@)
            &&& place is Nowhere ==> action@ == FinishActionView::Read(None)
        },
{
}

/// Once every candidate was seen no answer changes the run or the store; neither does an answer
/// that nothing asked for. A content never changes the store.
pub proof fn late_answers_change_nothing(
    run: Finishing,
    store: &mut CaptureStore,
    given: FinishAnswer,
    next: Finishing,
)
    requires
        call_ensures(Finishing::record, (run, store, given), next),
    ensures
        run@.seen.len() >= run@.files.len() ==> next@ == run@ && final(store)@ == old(store)@,
        given is Captured && !(run@.stage is Begun) ==> next@ == run@ && final(store)@ == old(
            store,
        )@,
        given is Content && run@.stage is Begun ==> next@ == run@,
        given is Content ==> final(store)@ == old(store)@,
{
}

} // verus!
