//! The report of a run: which files have changed, how the changes look, and the documents
//! that say so.
use crate::capture::{
    absorbed, failures_are_noted, lists_candidates, tracked_views, CaptureOutcomeView,
    CaptureStore, HelperFailureView, PathKey, PathKeyView, StoreView, TrackedFile, NEWLINE,
};
use crate::config::{exclusion_views, Exclusion, ExclusionView};
use crate::contracts::{
    change_views, configured_views, copy_gaps, copy_texts, gap_views, text_of, texts, Change, ChangeKind,
    ChangeView, ConfiguredExclusion, ConfiguredExclusionView, Coverage, CoverageView, DiffRef,
    DiffRefView, FileState, FileStateView, GapView, Report, ReportView, RunMetrics, RunState,
    Status, TargetResult, POLICY_VERSION, SCHEMA_VERSION,
};
use crate::order::{
    bytes_at_most, bytes_le, bytes_le_total, key_le, key_le_reflexive, rearranged, same_bytes,
    sort_by_key, Keyed,
};
use crate::outside::{base64_text, encode_base64, unified_diff, unified_diff_text};
use crate::paths::{append_bytes, copy_bytes, join, joined};
use crate::text::{concat2, concat3, lossy, lossy_text, same_text, utf8_text};
use vstd::prelude::*;
use vstd::utf8::{decode_utf8, encode_utf8, valid_utf8};

verus! {

/// Where and what to write so that readers see the old file or the new one, never a part:
/// the bytes go to the temporary place first, which is then renamed.
#[derive(Debug)]
pub struct AtomicWrite {
    pub temporary: Vec<u8>,
    pub path: Vec<u8>,
    pub bytes: Vec<u8>,
}

/// The write that puts bytes into a file of the output directory.
pub open spec fn writes_file(write: AtomicWrite, output: Seq<u8>, name: Seq<char>, bytes: Seq<u8>) -> bool {
    &&& write.temporary@ == joined(output, encode_utf8("."@ + name + ".tmp"@))
    &&& write.path@ == joined(output, encode_utf8(name))
    &&& write.bytes@ == bytes
}

/// The write that puts bytes into a file of the output directory.
pub fn atomic_bytes(output: &[u8], name: &str, bytes: Vec<u8>) -> (write: AtomicWrite)
    ensures
        writes_file(write, output@, name@, bytes@),
{
    AtomicWrite {
        temporary: join(output, concat3(".", name, ".tmp").as_str().as_bytes()),
        path: join(output, name.as_bytes()),
        bytes,
    }
}

/// The write that puts a JSON document into a file of the output directory, with a newline
/// behind it.
pub fn atomic_json(output: &[u8], name: &str, json: Vec<u8>) -> (write: AtomicWrite)
    ensures
        writes_file(write, output@, name@, json@.push(NEWLINE)),
{
    let mut bytes = json;
    bytes.push(NEWLINE);
    atomic_bytes(output, name, bytes)
}

/// The write that publishes a status, given as JSON.
pub fn publish_status(output: &[u8], status: Vec<u8>) -> (write: AtomicWrite)
    ensures
        writes_file(write, output@, "status.json"@, status@.push(NEWLINE)),
{
    atomic_json(output, "status.json", status)
}

/// Where the patch of a run is.
pub fn patch_path(output: &[u8]) -> (path: Vec<u8>)
    ensures
        path@ == joined(output@, encode_utf8("changes.patch"@)),
{
    join(output, "changes.patch".as_bytes())
}

/// The bytes of a path.
pub fn encoded_path(path: &[u8]) -> (bytes: &[u8])
    ensures
        bytes@ == path@,
{
    path
}

/// Lines one behind the other, each with a newline.
pub open spec fn framed(lines: Seq<Seq<u8>>) -> Seq<u8>
    decreases lines.len(),
{
    if lines.len() == 0 {
        Seq::empty()
    } else {
        framed(lines.drop_last()) + lines.last().push(NEWLINE)
    }
}

/// The write of the diagnostics, given as one JSON line for each gap.
pub fn diagnostics(output: &[u8], lines: &Vec<Vec<u8>>) -> (write: AtomicWrite)
    ensures
        writes_file(
            write,
            output@,
            "diagnostics.jsonl"@,
            framed(crate::order::deep(lines@)),
        ),
{
    let mut bytes: Vec<u8> = Vec::new();
    let ghost all = crate::order::deep(lines@);
    assert(all.take(0) =~= Seq::<Seq<u8>>::empty());
    let mut i: usize = 0;
    while i < lines.len()
        invariant
            i <= lines@.len(),
            all == crate::order::deep(lines@),
            bytes@ == framed(all.take(i as int)),
        decreases lines@.len() - i,
    {
        let ghost before = bytes@;
        proof {
            assert(all.take(i + 1).drop_last() =~= all.take(i as int));
            assert(all.take(i + 1).last() == lines@[i as int]@);
        }
        append_bytes(&mut bytes, &lines[i]);
        bytes.push(NEWLINE);
        assert(bytes@ =~= before + lines@[i as int]@.push(NEWLINE));
        i += 1;
    }
    assert(all.take(all.len() as int) =~= all);
    atomic_bytes(output, "diagnostics.jsonl", bytes)
}

/// What has become of a file, if anything.
pub open spec fn classified(before: FileStateView, after: FileStateView) -> Option<ChangeKind> {
    match (before, after) {
        (FileStateView::Absent, FileStateView::Absent) => None,
        (FileStateView::Absent, FileStateView::Present { object }) => Some(ChangeKind::Added),
        (FileStateView::Present { object }, FileStateView::Absent) => Some(ChangeKind::Deleted),
        (FileStateView::Present { object: left }, FileStateView::Present { object: right }) => {
            if left.object_id != right.object_id {
                Some(ChangeKind::Modified)
            } else if left.mode != right.mode {
                Some(ChangeKind::ModeChanged)
            } else {
                None
            }
        },
        _ => Some(ChangeKind::Modified),
    }
}

/// What has become of a file, if anything.
pub fn classify(before: &FileState, after: &FileState) -> (kind: Option<ChangeKind>)
    ensures
        kind == classified(before@, after@),
{
    match (before, after) {
        (FileState::Absent, FileState::Absent) => None,
        (FileState::Absent, FileState::Present { .. }) => Some(ChangeKind::Added),
        (FileState::Present { .. }, FileState::Absent) => Some(ChangeKind::Deleted),
        (FileState::Present { object: left }, FileState::Present { object: right }) => {
            if !same_text(left.object_id.as_str(), right.object_id.as_str()) {
                Some(ChangeKind::Modified)
            } else if !same_text(left.mode.as_str(), right.mode.as_str()) {
                Some(ChangeKind::ModeChanged)
            } else {
                None
            }
        },
        _ => Some(ChangeKind::Modified),
    }
}

/// A file that is not there before nor after the run, or has the same content and mode, has
/// not changed; every other one has.
pub proof fn only_net_changes_count(before: FileStateView, after: FileStateView)
    ensures
        classified(before, after) is None <==> (before is Absent && after is Absent) || (
        before matches FileStateView::Present { object: left } && after matches FileStateView::Present {
            object: right,
        } && left.object_id == right.object_id && left.mode == right.mode),
{
}

/// A file in the same state before and after the run has not changed, unless the state is
/// not known.
pub proof fn a_restored_file_has_not_changed(state: FileStateView)
    requires
        !(state is Unavailable),
    ensures
        classified(state, state) is None,
{
}

/// Both states have the same content.
pub open spec fn same_content(before: FileStateView, after: FileStateView) -> bool {
    before matches FileStateView::Present { object: left } && after matches FileStateView::Present {
        object: right,
    } && left.object_id == right.object_id
}

/// Whether the stored content of both states is needed to report a file.
pub fn content_needed(before: &FileState, after: &FileState) -> (needed: bool)
    ensures
        needed == (classified(before@, after@) is Some && !same_content(before@, after@)),
{
    match (before, after) {
        (FileState::Present { object: left }, FileState::Present { object: right }) => {
            !same_text(left.object_id.as_str(), right.object_id.as_str())
        },
        _ => classify(before, after).is_some(),
    }
}

/// How a change is shown: what goes into the patch, and what is said of it.
#[verifier::ext_equal]
pub struct DiffView {
    pub patch: Option<Seq<u8>>,
    pub kind: Seq<char>,
    pub truncated: bool,
    pub reason: Option<Seq<char>>,
}

/// The unified diff of two texts of a file, as bytes.
pub open spec fn diff_bytes(relative: Seq<u8>, before: Seq<u8>, after: Seq<u8>) -> Seq<u8> {
    encode_utf8(
        unified_diff(
            decode_utf8(before),
            decode_utf8(after),
            "a/"@ + lossy_text(relative),
            "b/"@ + lossy_text(relative),
        ),
    )
}

/// How the change of a file is shown: as metadata where the content is the same; as binary
/// where one side is not UTF-8 or holds a zero byte; otherwise as a unified diff, of which
/// no more than the limit is kept.
pub open spec fn diff_of(
    relative: Seq<u8>,
    before: FileStateView,
    after: FileStateView,
    before_bytes: Seq<u8>,
    after_bytes: Seq<u8>,
    limit: usize,
) -> DiffView {
    if same_content(before, after) {
        DiffView { patch: None, kind: "metadata"@, truncated: false, reason: None }
    } else if !valid_utf8(before_bytes) || !valid_utf8(after_bytes) {
        DiffView { patch: None, kind: "binary"@, truncated: false, reason: Some("not_valid_utf8"@) }
    } else if before_bytes.contains(0u8) || after_bytes.contains(0u8) {
        DiffView { patch: None, kind: "binary"@, truncated: false, reason: Some("nul_byte"@) }
    } else {
        let bytes = diff_bytes(relative, before_bytes, after_bytes);
        DiffView {
            patch: Some(
                if bytes.len() > limit {
                    bytes.take(limit as int)
                } else {
                    bytes
                },
            ),
            kind: "unified"@,
            truncated: bytes.len() > limit,
            reason: None,
        }
    }
}

/// How a change is shown: what goes into the patch, and what is said of it.
#[derive(Debug)]
pub struct Diff {
    pub patch: Option<Vec<u8>>,
    pub kind: String,
    pub truncated: bool,
    pub reason: Option<String>,
}

impl View for Diff {
    type V = DiffView;

    open spec fn view(&self) -> DiffView {
        DiffView {
            patch: match self.patch {
                Some(bytes) => Some(bytes@),
                None => None,
            },
            kind: self.kind@,
            truncated: self.truncated,
            reason: text_of(self.reason),
        }
    }
}

fn holds_zero(bytes: &[u8]) -> (result: bool)
    ensures
        result == bytes@.contains(0u8),
{
    let mut i: usize = 0;
    while i < bytes.len()
        invariant
            i <= bytes@.len(),
            forall|j: int| 0 <= j < i ==> bytes@[j] != 0,
        decreases bytes@.len() - i,
    {
        if bytes[i] == 0 {
            assert(bytes@[i as int] == 0);
            return true;
        }
        i += 1;
    }
    false
}

/// How the change of a file is shown. The contents are those of the two states, empty where
/// a state has none.
pub fn create_diff(
    relative: &[u8],
    before: &FileState,
    after: &FileState,
    before_bytes: &[u8],
    after_bytes: &[u8],
    limit: usize,
) -> (diff: Diff)
    ensures
        diff@ == diff_of(relative@, before@, after@, before_bytes@, after_bytes@, limit),
{
    if let (FileState::Present { object: left }, FileState::Present { object: right }) = (
        before,
        after,
    ) {
        if same_text(left.object_id.as_str(), right.object_id.as_str()) {
            return Diff { patch: None, kind: "metadata".to_owned(), truncated: false, reason: None };
        }
    }
    let (old_text, new_text) = match (utf8_text(before_bytes), utf8_text(after_bytes)) {
        (Some(old_text), Some(new_text)) => (old_text, new_text),
        _ => {
            return Diff {
                patch: None,
                kind: "binary".to_owned(),
                truncated: false,
                reason: Some("not_valid_utf8".to_owned()),
            };
        },
    };
    if holds_zero(before_bytes) || holds_zero(after_bytes) {
        return Diff {
            patch: None,
            kind: "binary".to_owned(),
            truncated: false,
            reason: Some("nul_byte".to_owned()),
        };
    }
    let display = lossy(relative);
    let text = unified_diff_text(
        old_text,
        new_text,
        concat2("a/", display.as_str()).as_str(),
        concat2("b/", display.as_str()).as_str(),
    );
    let bytes = text.as_str().as_bytes();
    let truncated = bytes.len() > limit;
    let patch = if truncated {
        copy_bytes(vstd::slice::slice_subrange(bytes, 0, limit))
    } else {
        copy_bytes(bytes)
    };
    proof {
        assert(truncated ==> bytes@.subrange(0, limit as int) =~= bytes@.take(limit as int));
    }
    Diff { patch: Some(patch), kind: "unified".to_owned(), truncated, reason: None }
}

/// What is known of one candidate at the end of a run. The contents are those of the two
/// states, empty where a state has none or none is needed.
#[verifier::ext_equal]
pub struct ObservationView {
    pub key: PathKeyView,
    pub before: FileStateView,
    pub after: FileStateView,
    pub before_bytes: Seq<u8>,
    pub after_bytes: Seq<u8>,
}

/// What is known of one candidate at the end of a run. The contents are those of the two
/// states, empty where a state has none or none is needed.
#[derive(Debug)]
pub struct Observation {
    pub key: PathKey,
    pub before: FileState,
    pub after: FileState,
    pub before_bytes: Vec<u8>,
    pub after_bytes: Vec<u8>,
}

impl View for Observation {
    type V = ObservationView;

    open spec fn view(&self) -> ObservationView {
        ObservationView {
            key: self.key@,
            before: self.before@,
            after: self.after@,
            before_bytes: self.before_bytes@,
            after_bytes: self.after_bytes@,
        }
    }
}

/// The changes that were found so far and the patch that shows them.
#[verifier::ext_equal]
pub struct DraftView {
    pub changes: Seq<ChangeView>,
    pub patch: Seq<u8>,
}

/// The way a change is shown, with the place of its diff in the patch.
pub open spec fn placed(diff: DiffView, offset: nat) -> DiffRefView {
    DiffRefView {
        kind: diff.kind,
        truncated: diff.truncated,
        patch_offset: match diff.patch {
            Some(bytes) => Some(offset as u64),
            None => None,
        },
        patch_bytes: match diff.patch {
            Some(bytes) => Some(bytes.len() as u64),
            None => None,
        },
        reason: diff.reason,
    }
}

/// The bytes that a diff adds to the patch.
pub open spec fn patch_part(diff: DiffView) -> Seq<u8> {
    match diff.patch {
        Some(bytes) => bytes,
        None => Seq::empty(),
    }
}

/// The draft with one more candidate looked at: a change is added where there is one, and
/// its diff goes to the end of the patch.
pub open spec fn observed(draft: DraftView, seen: ObservationView, limit: usize) -> DraftView {
    match classified(seen.before, seen.after) {
        None => draft,
        Some(kind) => {
            let diff = diff_of(
                seen.key.relative,
                seen.before,
                seen.after,
                seen.before_bytes,
                seen.after_bytes,
                limit,
            );
            DraftView {
                changes: draft.changes.push(
                    ChangeView {
                        root_id: seen.key.root_id,
                        path_bytes_base64: base64_text(seen.key.relative),
                        display_path: if valid_utf8(seen.key.relative) {
                            Some(decode_utf8(seen.key.relative))
                        } else {
                            None
                        },
                        kind,
                        before: seen.before,
                        after: seen.after,
                        diff: placed(diff, draft.patch.len()),
                    },
                ),
                patch: draft.patch + patch_part(diff),
            }
        },
    }
}

/// The changes that were found so far and the patch that shows them.
#[derive(Debug)]
pub struct ReportDraft {
    changes: Vec<Change>,
    patch: Vec<u8>,
}

impl View for ReportDraft {
    type V = DraftView;

    closed spec fn view(&self) -> DraftView {
        DraftView { changes: change_views(self.changes@), patch: self.patch@ }
    }
}

impl ReportDraft {
    /// A draft without changes.
    pub fn new() -> (draft: Self)
        ensures
            draft@ == (DraftView { changes: Seq::empty(), patch: Seq::empty() }),
    {
        let draft = ReportDraft { changes: Vec::new(), patch: Vec::new() };
        assert(draft@ =~= (DraftView { changes: Seq::empty(), patch: Seq::empty() }));
        draft
    }

    /// Looks at one more candidate.
    pub fn observe(&mut self, seen: Observation, limit: usize)
        ensures
            final(self)@ == observed(old(self)@, seen@, limit),
    {
        let ghost earlier = self@;
        let ghost view = seen@;
        let kind = match classify(&seen.before, &seen.after) {
            Some(kind) => kind,
            None => {
                return ;
            },
        };
        let offset: u64 = self.patch.len() as u64;
        let diff = create_diff(
            &seen.key.relative,
            &seen.before,
            &seen.after,
            &seen.before_bytes,
            &seen.after_bytes,
            limit,
        );
        let ghost shown = diff@;
        let display_path = match utf8_text(&seen.key.relative) {
            Some(text) => Some(text.to_owned()),
            None => None,
        };
        let path_bytes_base64 = CaptureStore::path_base64(&seen.key);
        let (patch_offset, patch_bytes) = match &diff.patch {
            Some(bytes) => {
                append_bytes(&mut self.patch, bytes);
                (Some(offset), Some(bytes.len() as u64))
            },
            None => (None, None),
        };
        assert(self.patch@ =~= earlier.patch + patch_part(shown));
        let change = Change {
            root_id: seen.key.root_id,
            path_bytes_base64,
            display_path,
            kind,
            before: seen.before,
            after: seen.after,
            diff: DiffRef {
                kind: diff.kind,
                truncated: diff.truncated,
                patch_offset,
                patch_bytes,
                reason: diff.reason,
            },
        };
        let ghost held = self.changes@;
        let ghost added = change@;
        self.changes.push(change);
        assert(change_views(self.changes@) =~= change_views(held).push(added));
        assert(added.diff =~= placed(shown, earlier.patch.len()));
        assert(self@ =~= observed(earlier, view, limit));
    }
}

/// The bytes that the diffs of a list of changes take up in the patch.
pub open spec fn patch_total(changes: Seq<ChangeView>) -> int
    decreases changes.len(),
{
    if changes.len() == 0 {
        0
    } else {
        patch_total(changes.drop_last()) + match changes.last().diff.patch_bytes {
            Some(bytes) => bytes as int,
            None => 0,
        }
    }
}

/// The diffs of the changes lie in the patch one behind the other and make it up.
pub open spec fn patch_in_order(draft: DraftView) -> bool {
    &&& draft.patch.len() == patch_total(draft.changes)
    &&& forall|i: int|
        0 <= i < draft.changes.len() ==> match (#[trigger] draft.changes[i]).diff.patch_offset {
            Some(offset) => offset == patch_total(draft.changes.take(i))
                && draft.changes[i].diff.patch_bytes is Some,
            None => draft.changes[i].diff.patch_bytes is None,
        }
}

/// Looking at a candidate keeps the diffs of the changes one behind the other in the patch,
/// and adds the new one at its end. (Offsets count in 64 bits.)
pub proof fn diffs_fill_the_patch_in_order(draft: DraftView, seen: ObservationView, limit: usize)
    requires
        patch_in_order(draft),
        observed(draft, seen, limit).patch.len() <= u64::MAX,
    ensures
        patch_in_order(observed(draft, seen, limit)),
        draft.patch.is_prefix_of(observed(draft, seen, limit).patch),
        draft.changes.is_prefix_of(observed(draft, seen, limit).changes),
        classified(seen.before, seen.after) is Some ==> ({
            let next = observed(draft, seen, limit);
            let diff = diff_of(
                seen.key.relative,
                seen.before,
                seen.after,
                seen.before_bytes,
                seen.after_bytes,
                limit,
            );
            match next.changes.last().diff.patch_offset {
                Some(offset) => diff.patch == Some(
                    next.patch.subrange(
                        offset as int,
                        offset + next.changes.last().diff.patch_bytes->0,
                    ),
                ),
                None => diff.patch is None,
            }
        }),
{
    let next = observed(draft, seen, limit);
    match classified(seen.before, seen.after) {
        None => {
            assert(draft.patch =~= next.patch.subrange(0, draft.patch.len() as int));
            assert(draft.changes =~= next.changes.subrange(0, draft.changes.len() as int));
        },
        Some(kind) => {
            let diff = diff_of(
                seen.key.relative,
                seen.before,
                seen.after,
                seen.before_bytes,
                seen.after_bytes,
                limit,
            );
            assert(draft.patch =~= next.patch.subrange(0, draft.patch.len() as int));
            assert(draft.changes =~= next.changes.subrange(0, draft.changes.len() as int));
            assert(next.changes.drop_last() =~= draft.changes);
            let last = next.changes.last();
            assert(last.diff == placed(diff, draft.patch.len()));
            assert(patch_total(next.changes) == next.patch.len());
            assert forall|i: int| 0 <= i < next.changes.len() implies match (
            #[trigger] next.changes[i]).diff.patch_offset {
                Some(offset) => offset == patch_total(next.changes.take(i))
                    && next.changes[i].diff.patch_bytes is Some,
                None => next.changes[i].diff.patch_bytes is None,
            } by {
                if i < draft.changes.len() {
                    assert(next.changes[i] == draft.changes[i]);
                    assert(next.changes.take(i) =~= draft.changes.take(i));
                } else {
                    assert(next.changes.take(i) =~= draft.changes);
                }
            }
            match diff.patch {
                Some(bytes) => {
                    assert(bytes =~= next.patch.subrange(
                        draft.patch.len() as int,
                        (draft.patch.len() + bytes.len()) as int,
                    ));
                },
                None => {},
            }
        },
    }
}

fn pair_at_most(a: &[u8], x: &[u8], b: &[u8], y: &[u8]) -> (result: bool)
    ensures
        result == key_le(seq![a@, x@], seq![b@, y@]),
{
    proof {
        let k = seq![a@, x@];
        let l = seq![b@, y@];
        bytes_le_total(x@, y@);
        assert(k[0] == a@ && l[0] == b@);
        assert(k.skip(1) =~= seq![x@]);
        assert(l.skip(1) =~= seq![y@]);
        assert(k.skip(1)[0] == x@ && l.skip(1)[0] == y@);
        assert(key_le(k.skip(1).skip(1), l.skip(1).skip(1)));
        assert(key_le(k.skip(1), l.skip(1)) == bytes_le(x@, y@));
    }
    if same_bytes(a, b) {
        bytes_at_most(x, y)
    } else {
        bytes_at_most(a, b)
    }
}

/// The order of files: by the identifier of the root, then by the bytes of the path.
pub open spec fn file_key(key: PathKeyView) -> Seq<Seq<u8>> {
    seq![encode_utf8(key.root_id), key.relative]
}

impl Keyed for TrackedFile {
    open spec fn key(&self) -> Seq<Seq<u8>> {
        file_key(self@.0)
    }

    fn at_most(&self, other: &Self) -> (result: bool) {
        pair_at_most(
            self.key.root_id.as_str().as_bytes(),
            &self.key.relative,
            other.key.root_id.as_str().as_bytes(),
            &other.key.relative,
        )
    }
}

/// The order of changes: by the identifier of the root, then by the base64 text of the path.
pub open spec fn change_key(change: ChangeView) -> Seq<Seq<u8>> {
    seq![encode_utf8(change.root_id), encode_utf8(change.path_bytes_base64)]
}

impl Keyed for Change {
    open spec fn key(&self) -> Seq<Seq<u8>> {
        change_key(self@)
    }

    fn at_most(&self, other: &Self) -> (result: bool) {
        pair_at_most(
            self.root_id.as_str().as_bytes(),
            self.path_bytes_base64.as_str().as_bytes(),
            other.root_id.as_str().as_bytes(),
            other.path_bytes_base64.as_str().as_bytes(),
        )
    }
}

/// The candidates in the order of their files, each once.
pub fn sorted_candidates(store: &CaptureStore) -> (list: Vec<TrackedFile>)
    ensures
        lists_candidates(store@.candidates, tracked_views(list@)),
        forall|i: int, j: int|
            0 <= i < j < list@.len() ==> key_le(
                file_key((#[trigger] list@[i])@.0),
                file_key((#[trigger] list@[j])@.0),
            ),
{
    let held = store.candidates();
    let ghost pairs = tracked_views(held@);
    let mut copy: Vec<TrackedFile> = Vec::new();
    let mut i: usize = 0;
    while i < held.len()
        invariant
            i <= held@.len(),
            pairs == tracked_views(held@),
            tracked_views(copy@) == pairs.take(i as int),
        decreases held@.len() - i,
    {
        let ghost before = copy@;
        let file = TrackedFile { key: held[i].key.clone(), candidate: held[i].candidate.clone() };
        assert(file@ == pairs[i as int]);
        copy.push(file);
        assert(tracked_views(copy@) =~= tracked_views(before).push(pairs[i as int]));
        i += 1;
    }
    assert(pairs.take(pairs.len() as int) =~= pairs);
    let ghost items = copy@;
    let list = sort_by_key(copy);
    proof {
        let (order, places) = choose|order: Seq<int>, places: Seq<int>|
            #[trigger] rearranged(items, list@, order, places) && crate::order::keeps_order_of_equals(
                list@,
                order,
            );
        let sorted = tracked_views(list@);
        let map = store@.candidates;
        assert(tracked_views(items) == pairs);
        assert(pairs.len() == items.len());
        assert forall|k: int| 0 <= k < sorted.len() implies #[trigger] sorted[k] == pairs[order[k]]
            && 0 <= order[k] < pairs.len() by {
            assert(list@[k] == items[order[k]]);
            assert(pairs[order[k]] == items[order[k]]@);
        }
        assert forall|k: int, l: int| 0 <= k < l < sorted.len() implies (#[trigger] sorted[k]).0
            != (#[trigger] sorted[l]).0 by {
            assert(places[order[k]] == k && places[order[l]] == l);
            if order[k] < order[l] {
                assert(pairs[order[k]].0 != pairs[order[l]].0);
            } else {
                assert(pairs[order[l]].0 != pairs[order[k]].0);
            }
        }
        assert forall|k: int| 0 <= k < sorted.len() implies map.contains_key((#[trigger] sorted[k]).0)
            && map[sorted[k].0] == sorted[k].1 by {
            assert(map.contains_key(pairs[order[k]].0));
        }
        assert forall|key: PathKeyView| #[trigger] map.contains_key(key) implies exists|k: int|
            0 <= k < sorted.len() && (#[trigger] sorted[k]).0 == key by {
            let at = choose|at: int| 0 <= at < pairs.len() && (#[trigger] pairs[at]).0 == key;
            assert(order[places[at]] == at);
            assert(sorted[places[at]].0 == key);
        }
        assert forall|k: int, l: int| 0 <= k < l < list@.len() implies key_le(
            file_key((#[trigger] list@[k])@.0),
            file_key((#[trigger] list@[l])@.0),
        ) by {
            assert(key_le(list@[k].key(), list@[l].key()));
        }
    }
    list
}

/// Changes with equal keys keep their order.
pub open spec fn keeps_order_of_changes(reported: Seq<ChangeView>, order: Seq<int>) -> bool {
    forall|i: int, j: int|
        0 <= i < j < reported.len() && change_key(reported[i]) == change_key(reported[j])
            ==> #[trigger] order[i] < #[trigger] order[j]
}

/// The changes stand in their order in the report: the same ones, sorted, those with equal
/// keys in the order in which they were found.
pub open spec fn sorted_changes(found: Seq<ChangeView>, reported: Seq<ChangeView>) -> bool {
    &&& exists|order: Seq<int>, places: Seq<int>| #[trigger]
        rearranged(found, reported, order, places) && keeps_order_of_changes(reported, order)
    &&& forall|i: int, j: int|
        0 <= i < j < reported.len() ==> key_le(
            change_key(#[trigger] reported[i]),
            change_key(#[trigger] reported[j]),
        )
}

/// The state before or after the change is not known.
pub open spec fn is_uncertain(change: ChangeView) -> bool {
    change.before is Unavailable || change.after is Unavailable
}

/// How a run ends: finished where there is no gap and every change is known on both sides,
/// otherwise partial.
pub open spec fn final_state(gaps: Seq<GapView>, changes: Seq<ChangeView>) -> RunState {
    if gaps.len() == 0 && forall|i: int|
        0 <= i < changes.len() ==> !is_uncertain(#[trigger] changes[i]) {
        RunState::Finished
    } else {
        RunState::Partial
    }
}

/// A run with a gap ends as partial.
pub proof fn a_gap_makes_the_report_partial(gaps: Seq<GapView>, changes: Seq<ChangeView>)
    requires
        gaps.len() > 0,
    ensures
        final_state(gaps, changes) == RunState::Partial,
{
}

/// A capture that failed or came back with a gap makes the report partial.
pub proof fn an_incomplete_capture_makes_the_report_partial(
    store: StoreView,
    path: Seq<u8>,
    result: Result<CaptureOutcomeView, HelperFailureView>,
    changes: Seq<ChangeView>,
)
    requires
        result matches Ok(outcome) ==> outcome.gaps.len() > 0,
    ensures
        final_state(absorbed(store, path, result).gaps, changes) == RunState::Partial,
{
    failures_are_noted(store, path, result);
    let gaps = absorbed(store, path, result).gaps;
    match result {
        Ok(outcome) => {
            assert(gaps.contains(outcome.gaps[0]));
        },
        Err(failure) => {},
    }
    assert(gaps.len() > 0);
}

/// The operations that are observed.
pub open spec fn supported_operations() -> Seq<Seq<char>> {
    seq![
        "open/openat/openat2"@,
        "truncate/ftruncate"@,
        "unlink/unlinkat"@,
        "rename/renameat/renameat2"@,
        "chmod/fchmod/fchmodat"@,
        "symlink/symlinkat"@,
    ]
}

/// What is not observed.
pub open spec fn unsupported_features() -> Seq<Seq<char>> {
    seq![
        "external writable FD passing"@,
        "external or remote writers"@,
        "directory rename subtree expansion"@,
        "hard-link alias discovery"@,
        "special filesystem ioctls"@,
    ]
}

/// How an exclusion is shown in the report.
pub open spec fn configured(exclusion: ExclusionView) -> ConfiguredExclusionView {
    ConfiguredExclusionView {
        root_id: exclusion.root_id,
        path_bytes_base64: base64_text(exclusion.relative),
        display_path: lossy_text(exclusion.relative),
    }
}

/// How a list of exclusions is shown in the report.
pub open spec fn configured_all(list: Seq<ExclusionView>) -> Seq<ConfiguredExclusionView> {
    list.map_values(|item: ExclusionView| configured(item))
}

/// What the report of a store covers.
pub open spec fn coverage_of(store: StoreView) -> CoverageView {
    CoverageView {
        policy_version: POLICY_VERSION,
        external_writers: "not_observed_or_controlled"@,
        supported_operations: supported_operations(),
        unsupported_features: unsupported_features(),
        configured_exclusions: configured_all(store.exclusions),
        configured_recursive_exclusions: store.recursive_exclusions,
        gaps: store.gaps,
    }
}

/// The report is the one of a store, a draft, the target's end and the metrics of the run.
pub open spec fn reports(
    report: ReportView,
    store: StoreView,
    draft: DraftView,
    target: TargetResult,
    metrics: RunMetrics,
) -> bool {
    &&& report.schema_version == SCHEMA_VERSION
    &&& report.state == final_state(store.gaps, draft.changes)
    &&& report.assurance == "best_effort"@
    &&& report.target == target
    &&& report.coverage == coverage_of(store)
    &&& report.metrics.elapsed_ms == metrics.elapsed_ms
    &&& report.metrics.notifications_received == metrics.notifications_received
    &&& report.metrics.queue_bypassed == metrics.queue_bypassed
    &&& report.metrics.candidate_paths == store.candidates.dom().len()
    &&& report.metrics.captured_bytes == store.total_bytes
    &&& report.metrics.final_changes == draft.changes.len()
    &&& sorted_changes(draft.changes, report.changes)
}

/// Leaving files out does not make a report partial: runs with the same gaps and changes end
/// the same way, whatever was left out of them.
pub proof fn exclusions_do_not_change_the_state(
    first: ReportView,
    second: ReportView,
    one: StoreView,
    other: StoreView,
    draft: DraftView,
    target: TargetResult,
    metrics: RunMetrics,
)
    requires
        reports(first, one, draft, target, metrics),
        reports(second, other, draft, target, metrics),
        one.gaps == other.gaps,
    ensures
        first.state == second.state,
{
}

fn operation_texts() -> (list: Vec<String>)
    ensures
        texts(list@) == supported_operations(),
{
    let mut list: Vec<String> = Vec::new();
    list.push("open/openat/openat2".to_owned());
    list.push("truncate/ftruncate".to_owned());
    list.push("unlink/unlinkat".to_owned());
    list.push("rename/renameat/renameat2".to_owned());
    list.push("chmod/fchmod/fchmodat".to_owned());
    list.push("symlink/symlinkat".to_owned());
    assert(texts(list@) =~= supported_operations());
    list
}

fn feature_texts() -> (list: Vec<String>)
    ensures
        texts(list@) == unsupported_features(),
{
    let mut list: Vec<String> = Vec::new();
    list.push("external writable FD passing".to_owned());
    list.push("external or remote writers".to_owned());
    list.push("directory rename subtree expansion".to_owned());
    list.push("hard-link alias discovery".to_owned());
    list.push("special filesystem ioctls".to_owned());
    assert(texts(list@) =~= unsupported_features());
    list
}

fn configured_exclusions(exclusions: &Vec<Exclusion>) -> (list: Vec<ConfiguredExclusion>)
    ensures
        configured_views(list@) == configured_all(exclusion_views(exclusions@)),
{
    let mut list: Vec<ConfiguredExclusion> = Vec::new();
    let ghost all = configured_all(exclusion_views(exclusions@));
    let mut i: usize = 0;
    while i < exclusions.len()
        invariant
            i <= exclusions@.len(),
            all == configured_all(exclusion_views(exclusions@)),
            configured_views(list@) == all.take(i as int),
        decreases exclusions@.len() - i,
    {
        let ghost before = list@;
        let item = ConfiguredExclusion {
            root_id: exclusions[i].root_id.clone(),
            path_bytes_base64: encode_base64(&exclusions[i].relative),
            display_path: lossy(&exclusions[i].relative),
        };
        assert(exclusion_views(exclusions@)[i as int] == exclusions@[i as int]@);
        assert(item@ == all[i as int]);
        list.push(item);
        assert(configured_views(list@) =~= configured_views(before).push(all[i as int]));
        i += 1;
    }
    assert(all.take(all.len() as int) =~= all);
    list
}

fn all_certain(changes: &Vec<Change>) -> (result: bool)
    ensures
        result == (forall|i: int|
            0 <= i < changes@.len() ==> !is_uncertain(#[trigger] change_views(changes@)[i])),
{
    let ghost all = change_views(changes@);
    let mut i: usize = 0;
    while i < changes.len()
        invariant
            i <= changes@.len(),
            all == change_views(changes@),
            forall|j: int| 0 <= j < i ==> !is_uncertain(#[trigger] all[j]),
        decreases changes@.len() - i,
    {
        assert(all[i as int] == changes@[i as int]@);
        let unknown_before = match &changes[i].before {
            FileState::Unavailable { .. } => true,
            _ => false,
        };
        let unknown_after = match &changes[i].after {
            FileState::Unavailable { .. } => true,
            _ => false,
        };
        if unknown_before || unknown_after {
            assert(is_uncertain(all[i as int]));
            return false;
        }
        i += 1;
    }
    true
}

/// The end of a run: its report, the patch to write, and its last status.
#[derive(Debug)]
pub struct Finished {
    pub report: Report,
    pub patch: AtomicWrite,
    pub status: Status,
}

/// Ends a run: the changes of the draft become the report, and the status follows it.
pub fn finish(
    store: &CaptureStore,
    draft: ReportDraft,
    target: TargetResult,
    metrics: RunMetrics,
) -> (finished: Finished)
    ensures
        reports(finished.report@, store@, draft@, target, metrics),
        writes_file(finished.patch, store@.output, "changes.patch"@, draft@.patch),
        finished.status@ == crate::contracts::status_for(
            finished.report@.state,
            None,
            Some(target),
        ),
{
    let ghost found = draft@;
    let candidate_paths: usize = store.candidates().len();
    let certain = all_certain(&draft.changes);
    let gaps = store.gaps();
    assert(store@.gaps.len() == gaps@.len());
    let state = if gaps.len() == 0 && certain {
        RunState::Finished
    } else {
        RunState::Partial
    };
    assert(state == final_state(store@.gaps, found.changes));
    let ghost items = draft.changes@;
    let changes = sort_by_key(draft.changes);
    proof {
        let (order, places) = choose|order: Seq<int>, places: Seq<int>|
            #[trigger] rearranged(items, changes@, order, places)
                && crate::order::keeps_order_of_equals(changes@, order);
        let sorted = change_views(changes@);
        assert forall|i: int| 0 <= i < sorted.len() implies 0 <= #[trigger] order[i]
            < found.changes.len() && sorted[i] == found.changes[order[i]] && places[order[i]]
            == i by {
            assert(changes@[i] == items[order[i]]);
        }
        assert(rearranged(found.changes, sorted, order, places));
        assert forall|i: int, j: int|
            0 <= i < j < sorted.len() && change_key(sorted[i]) == change_key(sorted[j]) implies
            #[trigger] order[i] < #[trigger] order[j] by {
            key_le_reflexive(changes@[i].key());
            assert(key_le(changes@[j].key(), changes@[i].key()));
        }
        assert forall|i: int, j: int| 0 <= i < j < sorted.len() implies key_le(
            change_key(#[trigger] sorted[i]),
            change_key(#[trigger] sorted[j]),
        ) by {
            assert(key_le(changes@[i].key(), changes@[j].key()));
        }
        assert(sorted_changes(found.changes, sorted));
    }
    let counted = RunMetrics {
        elapsed_ms: metrics.elapsed_ms,
        notifications_received: metrics.notifications_received,
        queue_bypassed: metrics.queue_bypassed,
        candidate_paths,
        captured_bytes: store.captured_bytes(),
        final_changes: changes.len(),
    };
    let report = Report {
        schema_version: SCHEMA_VERSION,
        state,
        assurance: "best_effort".to_owned(),
        target,
        coverage: Coverage {
            policy_version: POLICY_VERSION,
            external_writers: "not_observed_or_controlled".to_owned(),
            supported_operations: operation_texts(),
            unsupported_features: feature_texts(),
            configured_exclusions: configured_exclusions(store.exclusions()),
            configured_recursive_exclusions: copy_texts(store.recursive_exclusions()),
            gaps: copy_gaps(gaps),
        },
        metrics: counted,
        changes,
    };
    Finished {
        report,
        patch: atomic_bytes(store.output(), "changes.patch", draft.patch),
        status: Status::new(state, None, Some(target)),
    }
}

/// The draft of a list of candidates, looked at one by one.
pub open spec fn drafted(list: Seq<ObservationView>, limit: usize) -> DraftView
    decreases list.len(),
{
    if list.len() == 0 {
        DraftView { changes: Seq::empty(), patch: Seq::empty() }
    } else {
        observed(drafted(list.drop_last(), limit), list.last(), limit)
    }
}

/// The change is the one of this candidate.
pub open spec fn shows(change: ChangeView, seen: ObservationView) -> bool {
    &&& change.root_id == seen.key.root_id
    &&& change.path_bytes_base64 == base64_text(seen.key.relative)
    &&& change.before == seen.before
    &&& change.after == seen.after
    &&& Some(change.kind) == classified(seen.before, seen.after)
}

/// The candidate has changed in the end.
pub open spec fn has_changed(seen: ObservationView) -> bool {
    classified(seen.before, seen.after) is Some
}

/// The draft of a list of candidates holds one change for each one that has changed, in their
/// order, and no other change.
pub proof fn the_draft_holds_the_net_changes(list: Seq<ObservationView>, limit: usize)
    ensures
        ({
            let changed = list.filter(|seen: ObservationView| has_changed(seen));
            let changes = drafted(list, limit).changes;
            &&& changes.len() == changed.len()
            &&& forall|i: int|
                0 <= i < changed.len() ==> shows(#[trigger] changes[i], #[trigger] changed[i])
        }),
        forall|i: int|
            0 <= i < list.len() && has_changed(#[trigger] list[i])
                ==> exists|j: int|
                0 <= j < drafted(list, limit).changes.len() && shows(
                    #[trigger] drafted(list, limit).changes[j],
                    list[i],
                ),
        forall|j: int|
            0 <= j < drafted(list, limit).changes.len() ==> exists|i: int|
                0 <= i < list.len() && shows(
                    #[trigger] drafted(list, limit).changes[j],
                    #[trigger] list[i],
                ),
    decreases list.len(),
{
    reveal(Seq::filter);
    if list.len() > 0 {
        let head = list.drop_last();
        let before = drafted(head, limit).changes;
        let after = drafted(list, limit).changes;
        the_draft_holds_the_net_changes(head, limit);
        assert forall|i: int|
            0 <= i < list.len() && has_changed(#[trigger] list[i])
            implies exists|j: int| 0 <= j < after.len() && shows(#[trigger] after[j], list[i]) by {
            if i < head.len() {
                assert(head[i] == list[i]);
                let j = choose|j: int|
                    0 <= j < before.len() && shows(#[trigger] before[j], head[i]);
                assert(after[j] == before[j]);
            } else {
                assert(shows(after[after.len() - 1], list[i]));
            }
        }
        assert forall|j: int| 0 <= j < after.len() implies exists|i: int|
            0 <= i < list.len() && shows(#[trigger] after[j], #[trigger] list[i]) by {
            if j < before.len() {
                assert(after[j] == before[j]);
                let i = choose|i: int|
                    0 <= i < head.len() && shows(before[j], #[trigger] head[i]);
                assert(list[i] == head[i]);
                assert(shows(after[j], list[i]));
            } else {
                assert(shows(after[j], list[list.len() - 1]));
            }
        }
    }
}

/// What the kind of a change says: a file was added exactly where it is there only after the
/// run, deleted exactly where it is there only before it, modified exactly where its content
/// is another one or not known, whatever its modes are, and has another mode exactly where
/// its content is the same.
pub proof fn the_kind_says_what_has_changed(
    before: FileState,
    after: FileState,
    kind: Option<ChangeKind>,
)
    requires
        call_ensures(classify, (&before, &after), kind),
    ensures
        kind == Some(ChangeKind::Added) <==> before is Absent && after is Present,
        kind == Some(ChangeKind::Deleted) <==> before is Present && after is Absent,
        kind == Some(ChangeKind::Modified) <==> before is Unavailable || after is Unavailable || (
        before is Present && after is Present && before->object.object_id@
            != after->object.object_id@),
        kind == Some(ChangeKind::ModeChanged) <==> before is Present && after is Present
            && before->object.object_id@ == after->object.object_id@ && before->object.mode@
            != after->object.mode@,
        kind is None <==> (before is Absent && after is Absent) || (before is Present
            && after is Present && before->object.object_id@ == after->object.object_id@
            && before->object.mode@ == after->object.mode@),
{
}

/// Swapping the two states turns additions into deletions and keeps every other kind.
pub proof fn changes_can_be_turned_round(
    before: FileState,
    after: FileState,
    kind: Option<ChangeKind>,
    back: Option<ChangeKind>,
)
    requires
        call_ensures(classify, (&before, &after), kind),
        call_ensures(classify, (&after, &before), back),
    ensures
        kind == Some(ChangeKind::Added) <==> back == Some(ChangeKind::Deleted),
        kind == Some(ChangeKind::Deleted) <==> back == Some(ChangeKind::Added),
        kind == Some(ChangeKind::Modified) <==> back == Some(ChangeKind::Modified),
        kind == Some(ChangeKind::ModeChanged) <==> back == Some(ChangeKind::ModeChanged),
{
}

/// Contents are needed for every file that has changed in more than its mode, and for no
/// other one.
pub proof fn contents_are_read_where_they_differ(before: FileState, after: FileState, needed: bool)
    requires
        call_ensures(content_needed, (&before, &after), needed),
    ensures
        !needed <==> (before is Absent && after is Absent) || (before is Present && after is Present
            && before->object.object_id@ == after->object.object_id@),
{
}

/// A change of text is shown by the beginning, up to the limit, of the unified diff that leads
/// from the content before the run to the content after it, whatever the two states are: a
/// deletion leads to the empty text, an addition from it. It is cut exactly where the whole
/// diff is longer than the limit.
pub proof fn a_diff_leads_from_before_to_after(
    relative: &[u8],
    before: FileState,
    after: FileState,
    before_bytes: &[u8],
    after_bytes: &[u8],
    limit: usize,
    diff: Diff,
)
    requires
        call_ensures(
            create_diff,
            (relative, &before, &after, before_bytes, after_bytes, limit),
            diff,
        ),
        !(before is Present && after is Present && before->object.object_id@
            == after->object.object_id@),
        valid_utf8(before_bytes@),
        valid_utf8(after_bytes@),
        forall|i: int| 0 <= i < before_bytes@.len() ==> #[trigger] before_bytes@[i] != 0,
        forall|i: int| 0 <= i < after_bytes@.len() ==> #[trigger] after_bytes@[i] != 0,
    ensures
        ({
            let whole = encode_utf8(
                unified_diff(
                    decode_utf8(before_bytes@),
                    decode_utf8(after_bytes@),
                    "a/"@ + lossy_text(relative@),
                    "b/"@ + lossy_text(relative@),
                ),
            );
            &&& diff.patch is Some
            &&& diff.patch->0@.is_prefix_of(whole)
            &&& diff.patch->0@.len() <= limit
            &&& diff.patch->0@.len() == limit || diff.patch->0@ == whole
            &&& diff.truncated <==> whole.len() > limit
        }),
        diff.kind@ == "unified"@,
        diff.reason is None,
{
    let whole = diff_bytes(relative@, before_bytes@, after_bytes@);
    assert(!before_bytes@.contains(0u8));
    assert(!after_bytes@.contains(0u8));
    if whole.len() > limit {
        assert(whole.take(limit as int) =~= whole.subrange(0, limit as int));
    } else {
        assert(whole =~= whole.subrange(0, whole.len() as int));
    }
}

/// There is no patch of a change that cannot be shown as text: of one in the mode alone, and
/// of content that is not UTF-8 or holds a zero byte, on either side.
pub proof fn only_text_is_shown_as_a_diff(
    relative: &[u8],
    before: FileState,
    after: FileState,
    before_bytes: &[u8],
    after_bytes: &[u8],
    limit: usize,
    diff: Diff,
)
    requires
        call_ensures(
            create_diff,
            (relative, &before, &after, before_bytes, after_bytes, limit),
            diff,
        ),
    ensures
        ({
            let same = before is Present && after is Present && before->object.object_id@
                == after->object.object_id@;
            let text = valid_utf8(before_bytes@) && valid_utf8(after_bytes@);
            let zero = (exists|i: int|
                0 <= i < before_bytes@.len() && #[trigger] before_bytes@[i] == 0) || (exists|i: int|
                0 <= i < after_bytes@.len() && #[trigger] after_bytes@[i] == 0);
            &&& diff.patch is None <==> same || !text || zero
            &&& diff.patch is None ==> !diff.truncated
            &&& same ==> diff.kind@ == "metadata"@ && diff.reason is None
            &&& !same && !text ==> diff.kind@ == "binary"@ && diff.reason is Some
                && diff.reason->0@ == "not_valid_utf8"@
            &&& !same && text && zero ==> diff.kind@ == "binary"@ && diff.reason is Some
                && diff.reason->0@ == "nul_byte"@
        }),
{
    if before_bytes@.contains(0u8) {
        let i = choose|i: int| 0 <= i < before_bytes@.len() && before_bytes@[i] == 0;
        assert(before_bytes@[i] == 0);
    }
    if after_bytes@.contains(0u8) {
        let i = choose|i: int| 0 <= i < after_bytes@.len() && after_bytes@[i] == 0;
        assert(after_bytes@[i] == 0);
    }
}

/// A file that is as it was leaves the draft as it is; any other one adds one change behind
/// the earlier ones, which tells the root, the path, the two states and the kind.
pub proof fn a_draft_takes_what_has_changed(draft: DraftView, seen: ObservationView, limit: usize)
    ensures
        ({
            let next = observed(draft, seen, limit);
            let same_file = seen.before is Present && seen.after is Present
                && seen.before->object.object_id == seen.after->object.object_id;
            let unchanged = (seen.before is Absent && seen.after is Absent) || (same_file
                && seen.before->object.mode == seen.after->object.mode);
            &&& unchanged ==> next == draft
            &&& !unchanged ==> {
                &&& next.changes.len() == draft.changes.len() + 1
                &&& next.changes.take(draft.changes.len() as int) == draft.changes
                &&& next.changes.last().root_id == seen.key.root_id
                &&& next.changes.last().path_bytes_base64 == base64_text(seen.key.relative)
                &&& next.changes.last().display_path == if valid_utf8(seen.key.relative) {
                    Some(decode_utf8(seen.key.relative))
                } else {
                    None
                }
                &&& next.changes.last().before == seen.before
                &&& next.changes.last().after == seen.after
                &&& next.changes.last().kind == ChangeKind::Added <==> seen.before is Absent
                    && seen.after is Present
                &&& next.changes.last().kind == ChangeKind::Deleted <==> seen.before is Present
                    && seen.after is Absent
                &&& next.changes.last().kind == ChangeKind::ModeChanged <==> same_file
            }
        }),
{
    let next = observed(draft, seen, limit);
    if next != draft {
        assert(next.changes.take(draft.changes.len() as int) =~= draft.changes);
    }
}

/// A change of text puts the beginning of its diff, up to the limit, behind the patch so far
/// and says where it stands there; any other change leaves the patch as it is and names no
/// place in it.
pub proof fn a_patch_takes_what_is_text(draft: DraftView, seen: ObservationView, limit: usize)
    requires
        classified(seen.before, seen.after) is Some,
        observed(draft, seen, limit).patch.len() <= u64::MAX,
    ensures
        ({
            let next = observed(draft, seen, limit);
            let diff = next.changes.last().diff;
            let same = seen.before is Present && seen.after is Present
                && seen.before->object.object_id == seen.after->object.object_id;
            let text = valid_utf8(seen.before_bytes) && valid_utf8(seen.after_bytes)
                && !seen.before_bytes.contains(0u8) && !seen.after_bytes.contains(0u8);
            let whole = encode_utf8(
                unified_diff(
                    decode_utf8(seen.before_bytes),
                    decode_utf8(seen.after_bytes),
                    "a/"@ + lossy_text(seen.key.relative),
                    "b/"@ + lossy_text(seen.key.relative),
                ),
            );
            let size = if whole.len() > limit {
                limit as int
            } else {
                whole.len() as int
            };
            &&& next.patch.take(draft.patch.len() as int) == draft.patch
            &&& diff.patch_offset is Some <==> !same && text
            &&& diff.patch_bytes is Some <==> !same && text
            &&& !same && text ==> {
                &&& diff.patch_offset->0 == draft.patch.len()
                &&& diff.patch_bytes->0 == size
                &&& next.patch.skip(draft.patch.len() as int) == whole.take(size)
                &&& diff.truncated <==> whole.len() > limit
                &&& diff.kind == "unified"@
                &&& diff.reason is None
            }
            &&& same || !text ==> next.patch == draft.patch && !diff.truncated
            &&& same ==> diff.kind == "metadata"@ && diff.reason is None
            &&& !same && !text ==> diff.kind == "binary"@ && diff.reason is Some
        }),
{
    let next = observed(draft, seen, limit);
    let part = patch_part(
        diff_of(
            seen.key.relative,
            seen.before,
            seen.after,
            seen.before_bytes,
            seen.after_bytes,
            limit,
        ),
    );
    assert(next.patch == draft.patch + part);
    assert(next.patch.take(draft.patch.len() as int) =~= draft.patch);
    assert(next.patch.skip(draft.patch.len() as int) =~= part);
    let whole = diff_bytes(seen.key.relative, seen.before_bytes, seen.after_bytes);
    assert(whole.take(whole.len() as int) =~= whole);
}

/// A run is finished exactly where it has no gap and no change with an unknown side.
pub proof fn a_finished_run_misses_nothing(gaps: Seq<GapView>, changes: Seq<ChangeView>)
    ensures
        final_state(gaps, changes) == RunState::Finished <==> gaps =~= Seq::empty() && forall|i: int|
            0 <= i < changes.len() ==> !((#[trigger] changes[i]).before is Unavailable)
                && !(changes[i].after is Unavailable),
        final_state(gaps, changes) == RunState::Partial <==> gaps.len() > 0 || exists|i: int|
            0 <= i < changes.len() && ((#[trigger] changes[i]).before is Unavailable
                || changes[i].after is Unavailable),
{
    if gaps.len() == 0 && !(forall|i: int|
        0 <= i < changes.len() ==> !is_uncertain(#[trigger] changes[i])) {
        let i = choose|i: int| 0 <= i < changes.len() && is_uncertain(#[trigger] changes[i]);
        assert(changes[i].before is Unavailable || changes[i].after is Unavailable);
    }
    if exists|i: int|
        0 <= i < changes.len() && ((#[trigger] changes[i]).before is Unavailable
            || changes[i].after is Unavailable) {
        let i = choose|i: int|
            0 <= i < changes.len() && ((#[trigger] changes[i]).before is Unavailable
                || changes[i].after is Unavailable);
        assert(is_uncertain(changes[i]));
    }
    if final_state(gaps, changes) == RunState::Finished {
        assert forall|i: int| 0 <= i < changes.len() implies !((#[trigger] changes[i]).before
            is Unavailable) && !(changes[i].after is Unavailable) by {
            assert(!is_uncertain(changes[i]));
        }
    }
}

proof fn lemma_pairs_in_order(a: Seq<u8>, x: Seq<u8>, b: Seq<u8>, y: Seq<u8>)
    requires
        key_le(seq![a, x], seq![b, y]),
    ensures
        bytes_le(a, b),
        a == b ==> bytes_le(x, y),
{
    let k = seq![a, x];
    let l = seq![b, y];
    bytes_le_total(a, a);
    bytes_le_total(x, x);
    assert(k[0] == a && l[0] == b);
    assert(k.skip(1) =~= seq![x]);
    assert(l.skip(1) =~= seq![y]);
    assert(k.skip(1)[0] == x && l.skip(1)[0] == y);
    if a == b {
        assert(key_le(k.skip(1), l.skip(1)));
    }
}

/// The report of a run says what the store and the draft hold: their gaps, exclusions and
/// counts, the end of the target, and every change that was found, no other one, by root and
/// then by the text of the path. Its status ends the run in the same state.
pub proof fn a_report_says_what_was_found(
    store: CaptureStore,
    draft: ReportDraft,
    target: TargetResult,
    metrics: RunMetrics,
    finished: Finished,
)
    requires
        call_ensures(finish, (&store, draft, target, metrics), finished),
    ensures
        finished.report.schema_version == 1,
        finished.report.assurance@ == "best_effort"@,
        finished.report.target == target,
        finished.report.state == RunState::Finished <==> store@.gaps.len() == 0 && forall|i: int|
            0 <= i < draft@.changes.len() ==> !((#[trigger] draft@.changes[i]).before is Unavailable)
                && !(draft@.changes[i].after is Unavailable),
        finished.report.state == RunState::Finished || finished.report.state == RunState::Partial,
        finished.report.coverage.policy_version == 2,
        finished.report.coverage.external_writers@ == "not_observed_or_controlled"@,
        gap_views(finished.report.coverage.gaps@) == store@.gaps,
        texts(finished.report.coverage.configured_recursive_exclusions@)
            == store@.recursive_exclusions,
        finished.report.coverage.configured_exclusions@.len() == store@.exclusions.len(),
        forall|i: int|
            0 <= i < store@.exclusions.len() ==> {
                let shown = #[trigger] finished.report.coverage.configured_exclusions@[i];
                &&& shown.root_id@ == store@.exclusions[i].root_id
                &&& shown.path_bytes_base64@ == base64_text(store@.exclusions[i].relative)
                &&& shown.display_path@ == lossy_text(store@.exclusions[i].relative)
            },
        finished.report.metrics.elapsed_ms == metrics.elapsed_ms,
        finished.report.metrics.notifications_received == metrics.notifications_received,
        finished.report.metrics.queue_bypassed == metrics.queue_bypassed,
        finished.report.metrics.candidate_paths == store@.candidates.dom().len(),
        finished.report.metrics.captured_bytes == store@.total_bytes,
        finished.report.metrics.final_changes == draft@.changes.len(),
        finished.report.changes@.len() == draft@.changes.len(),
        forall|change: ChangeView| #[trigger]
            draft@.changes.contains(change) <==> change_views(finished.report.changes@).contains(
                change,
            ),
        forall|i: int, j: int|
            0 <= i < j < finished.report.changes@.len() ==> {
                let first = #[trigger] finished.report.changes@[i];
                let second = #[trigger] finished.report.changes@[j];
                &&& bytes_le(encode_utf8(first.root_id@), encode_utf8(second.root_id@))
                &&& first.root_id@ == second.root_id@ ==> bytes_le(
                    encode_utf8(first.path_bytes_base64@),
                    encode_utf8(second.path_bytes_base64@),
                )
            },
        finished.status.state == finished.report.state,
        finished.status.target == Some(target),
        finished.status.message is None,
        finished.patch.path@ == joined(store@.output, encode_utf8("changes.patch"@)),
        finished.patch.bytes@ == draft@.patch,
{
    let report = finished.report;
    let found = draft@.changes;
    let listed = change_views(report.changes@);
    assert(report@.changes == listed);
    a_finished_run_misses_nothing(store@.gaps, found);
    assert(sorted_changes(found, listed));
    let (order, places) = choose|order: Seq<int>, places: Seq<int>| #[trigger]
        rearranged(found, listed, order, places) && keeps_order_of_changes(listed, order);
    assert forall|change: ChangeView| #[trigger] found.contains(change) <==> listed.contains(
        change,
    ) by {
        if found.contains(change) {
            let k = choose|k: int| 0 <= k < found.len() && found[k] == change;
            assert(order[places[k]] == k);
            assert(listed[places[k]] == found[k]);
        }
        if listed.contains(change) {
            let k = choose|k: int| 0 <= k < listed.len() && listed[k] == change;
            assert(listed[k] == found[order[k]]);
        }
    }
    assert forall|i: int, j: int| 0 <= i < j < report.changes@.len() implies {
        let first = #[trigger] report.changes@[i];
        let second = #[trigger] report.changes@[j];
        &&& bytes_le(encode_utf8(first.root_id@), encode_utf8(second.root_id@))
        &&& first.root_id@ == second.root_id@ ==> bytes_le(
            encode_utf8(first.path_bytes_base64@),
            encode_utf8(second.path_bytes_base64@),
        )
    } by {
        let first = report.changes@[i];
        let second = report.changes@[j];
        assert(listed[i] == first@ && listed[j] == second@);
        let k = change_key(listed[i]);
        let l = change_key(listed[j]);
        assert(key_le(k, l));
        lemma_pairs_in_order(
            encode_utf8(first.root_id@),
            encode_utf8(first.path_bytes_base64@),
            encode_utf8(second.root_id@),
            encode_utf8(second.path_bytes_base64@),
        );
    }
    assert(report@.coverage == coverage_of(store@));
    let shown = report.coverage.configured_exclusions@;
    assert(configured_views(shown) == configured_all(store@.exclusions));
    assert(configured_views(shown).len() == shown.len());
    assert forall|i: int| 0 <= i < store@.exclusions.len() implies {
        let one = #[trigger] shown[i];
        &&& one.root_id@ == store@.exclusions[i].root_id
        &&& one.path_bytes_base64@ == base64_text(store@.exclusions[i].relative)
        &&& one.display_path@ == lossy_text(store@.exclusions[i].relative)
    } by {
        assert(configured_views(shown)[i] == shown[i]@);
        assert(configured_all(store@.exclusions)[i] == configured(store@.exclusions[i]));
    }
}

/// The report names what is observed and what is not.
pub proof fn a_report_names_its_limits(
    store: CaptureStore,
    draft: ReportDraft,
    target: TargetResult,
    metrics: RunMetrics,
    finished: Finished,
)
    requires
        call_ensures(finish, (&store, draft, target, metrics), finished),
    ensures
        texts(finished.report.coverage.supported_operations@) =~= seq![
            "open/openat/openat2"@,
            "truncate/ftruncate"@,
            "unlink/unlinkat"@,
            "rename/renameat/renameat2"@,
            "chmod/fchmod/fchmodat"@,
            "symlink/symlinkat"@,
        ],
        texts(finished.report.coverage.unsupported_features@) =~= seq![
            "external writable FD passing"@,
            "external or remote writers"@,
            "directory rename subtree expansion"@,
            "hard-link alias discovery"@,
            "special filesystem ioctls"@,
        ],
{
    assert(finished.report@.coverage == coverage_of(store@));
}

/// Diagnostics are lines one behind the other: those of two lists are those of the first and
/// then those of the second, and each line ends with a newline.
pub proof fn lines_follow_each_other(first: Seq<Seq<u8>>, second: Seq<Seq<u8>>, line: Seq<u8>)
    ensures
        framed(Seq::empty()) == Seq::<u8>::empty(),
        framed(seq![line]) == line.push(10u8),
        framed(first + second) == framed(first) + framed(second),
    decreases second.len(),
{
    let one = seq![line];
    assert(one.drop_last() =~= Seq::<Seq<u8>>::empty());
    assert(framed(Seq::<Seq<u8>>::empty()) =~= Seq::<u8>::empty());
    assert(framed(one) =~= line.push(10u8));
    if second.len() == 0 {
        assert(first + second =~= first);
        assert(framed(first) + framed(second) =~= framed(first));
    } else {
        assert((first + second).drop_last() =~= first + second.drop_last());
        lines_follow_each_other(first, second.drop_last(), line);
        assert(framed(first + second) =~= framed(first) + framed(second));
    }
}

/// A document goes to its own name in the output directory, whole, and is written before
/// that under a name that begins with a dot.
pub proof fn documents_go_to_their_names(
    output: &[u8],
    name: &str,
    bytes: Vec<u8>,
    plain: AtomicWrite,
    json: AtomicWrite,
    status: AtomicWrite,
    patch: Vec<u8>,
)
    requires
        call_ensures(atomic_bytes, (output, name, bytes), plain),
        call_ensures(atomic_json, (output, name, bytes), json),
        call_ensures(publish_status, (output, bytes), status),
        call_ensures(patch_path, (output,), patch),
        output@.len() > 0,
        output@.last() != 47,
        encode_utf8(name@).len() > 0 ==> encode_utf8(name@)[0] != 47,
    ensures
        plain.path@ == output@.push(47u8) + encode_utf8(name@),
        plain.temporary@ == joined(output@, encode_utf8("."@ + name@ + ".tmp"@)),
        plain.bytes@ == bytes@,
        json.path@ == plain.path@,
        json.temporary@ == plain.temporary@,
        json.bytes@ == bytes@.push(10u8),
        status.bytes@ == bytes@.push(10u8),
        status.path@ == joined(output@, encode_utf8("status.json"@)),
        patch@ == joined(output@, encode_utf8("changes.patch"@)),
{
}

/// Candidates are looked at by root, and by path within a root.
pub proof fn candidates_come_by_root_and_path(store: CaptureStore, list: Vec<TrackedFile>)
    requires
        call_ensures(sorted_candidates, (&store,), list),
    ensures
        list@.len() == store@.candidates.dom().len(),
        forall|i: int|
            0 <= i < list@.len() ==> store@.candidates.contains_key((#[trigger] list@[i]).key@)
                && store@.candidates[list@[i].key@] == list@[i].candidate@,
        forall|i: int, j: int|
            0 <= i < j < list@.len() ==> {
                let first = (#[trigger] list@[i]).key;
                let second = (#[trigger] list@[j]).key;
                &&& first@ != second@
                &&& bytes_le(encode_utf8(first.root_id@), encode_utf8(second.root_id@))
                &&& first.root_id@ == second.root_id@ ==> bytes_le(
                    first.relative@,
                    second.relative@,
                )
            },
{
    let pairs = tracked_views(list@);
    assert(pairs.len() == list@.len());
    assert forall|i: int| 0 <= i < list@.len() implies store@.candidates.contains_key(
        (#[trigger] list@[i]).key@,
    ) && store@.candidates[list@[i].key@] == list@[i].candidate@ by {
        assert(pairs[i] == list@[i]@);
    }
    assert forall|i: int, j: int| 0 <= i < j < list@.len() implies {
        let first = (#[trigger] list@[i]).key;
        let second = (#[trigger] list@[j]).key;
        &&& first@ != second@
        &&& bytes_le(encode_utf8(first.root_id@), encode_utf8(second.root_id@))
        &&& first.root_id@ == second.root_id@ ==> bytes_le(first.relative@, second.relative@)
    } by {
        assert(pairs[i] == list@[i]@ && pairs[j] == list@[j]@);
        let k = file_key(list@[i]@.0);
        let l = file_key(list@[j]@.0);
        assert(key_le(k, l));
        lemma_pairs_in_order(
            encode_utf8(list@[i].key.root_id@),
            list@[i].key.relative@,
            encode_utf8(list@[j].key.root_id@),
            list@[j].key.relative@,
        );
    }
}

/// A draft begins empty, and takes what was seen of each candidate.
pub proof fn a_draft_takes_what_was_seen(
    begun: ReportDraft,
    draft: &mut ReportDraft,
    seen: Observation,
    limit: usize,
)
    requires
        call_ensures(ReportDraft::new, (), begun),
        call_ensures(ReportDraft::observe, (draft, seen, limit), ()),
    ensures
        begun@.changes.len() == 0,
        begun@.patch.len() == 0,
        final(draft)@ == observed(
            old(draft)@,
            ObservationView {
                key: PathKeyView { root_id: seen.key.root_id@, relative: seen.key.relative@ },
                before: seen.before@,
                after: seen.after@,
                before_bytes: seen.before_bytes@,
                after_bytes: seen.after_bytes@,
            },
            limit,
        ),
{
}

/// The diagnostics go to their own name in the output directory, each line with a newline behind
/// it: a line that is added comes last.
pub proof fn diagnostics_go_to_their_name(
    output: &[u8],
    lines: Vec<Vec<u8>>,
    longer: Vec<Vec<u8>>,
    line: Vec<u8>,
    write: AtomicWrite,
    next: AtomicWrite,
)
    requires
        call_ensures(diagnostics, (output, &lines), write),
        call_ensures(diagnostics, (output, &longer), next),
        longer@ == lines@.push(line),
    ensures
        write.path@ == joined(output@, encode_utf8("diagnostics.jsonl"@)),
        next.path@ == write.path@,
        lines@.len() == 0 ==> write.bytes@.len() == 0,
        next.bytes@ == write.bytes@ + line@ + seq![10u8],
{
    let all = crate::order::deep(lines@);
    assert(crate::order::deep(longer@) =~= all.push(line@));
    assert(all.push(line@).drop_last() =~= all);
    assert(next.bytes@ =~= write.bytes@ + line@ + seq![10u8]);
}

} // verus!
