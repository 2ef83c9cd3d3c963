//! Capturing files: which paths are tracked, what is asked of the capture helper, what is
//! made of its answers, and the store of everything that was captured.
use crate::config::{
    covers, distinct_ids, excluded_by, exclusion_views, overlapping, root_views, Exclusion,
    ExclusionView, Limits, Root, RootView,
};
use crate::contracts::{
    gap_views, texts, FileState, FileStateView, Gap, GapView, ObjectRef, ObjectRefView,
};
use crate::order::same_bytes;
use crate::outside::{
    base64_decoded, base64_text, decode_base64, encode_base64, sha256, sha256_digest,
};
use crate::paths::{
    all_names, append_bytes, below, component_views, components, components_of,
    components_of_lexical, copy_bytes, join, joined, lexical, lexical_components, lexical_path,
    lexical_paths_hold_names, normal_form_leads_to_the_same, normalized, render, rendered,
    rendering_keeps_components, starts_with, strip_base, Component, ComponentView, LexicalPathView,
};
use crate::text::{
    concat2, concat3, decimal, decimal_text, digits, hex, hex_text, lossy, lossy_text, octal6_text,
    same_text, zero_padded,
};
use vstd::prelude::*;
use vstd::utf8::encode_utf8;

verus! {

/// The lexical normal form of a path: `.` is dropped, and `..` takes the name before it
/// away.
pub fn normalize(path: &[u8]) -> (result: Vec<u8>)
    ensures
        result@ == normalized(path@),
{
    render(&lexical_path(path))
}

/// A tracked file: the root that it lies in and its path below that root.
#[verifier::ext_equal]
pub struct PathKeyView {
    pub root_id: Seq<char>,
    pub relative: Seq<u8>,
}

/// A tracked file: the root that it lies in and its path below that root.
#[derive(Debug, Hash, PartialEq, Eq)]
pub struct PathKey {
    pub root_id: String,
    pub relative: Vec<u8>,
}

impl View for PathKey {
    type V = PathKeyView;

    open spec fn view(&self) -> PathKeyView {
        PathKeyView { root_id: self.root_id@, relative: self.relative@ }
    }
}

impl Clone for PathKey {
    fn clone(&self) -> (copy: Self)
        ensures
            copy@ == self@,
    {
        PathKey { root_id: self.root_id.clone(), relative: copy_bytes(&self.relative) }
    }
}

fn same_key(a: &PathKey, b: &PathKey) -> (result: bool)
    ensures
        result == (a@ == b@),
{
    same_text(a.root_id.as_str(), b.root_id.as_str()) && same_bytes(&a.relative, &b.relative)
}

/// The key of an optional tracked file.
pub open spec fn key_of(key: Option<PathKey>) -> Option<PathKeyView> {
    match key {
        Some(found) => Some(found@),
        None => None,
    }
}

/// A file that the target may have changed, with its state before the first attempt.
#[verifier::ext_equal]
pub struct CandidateView {
    pub path: Seq<u8>,
    pub before: FileStateView,
}

/// A file that the target may have changed, with its state before the first attempt.
#[derive(Debug)]
pub struct Candidate {
    pub path: Vec<u8>,
    pub before: FileState,
}

impl View for Candidate {
    type V = CandidateView;

    open spec fn view(&self) -> CandidateView {
        CandidateView { path: self.path@, before: self.before@ }
    }
}

impl Clone for Candidate {
    fn clone(&self) -> (copy: Self)
        ensures
            copy@ == self@,
    {
        Candidate { path: copy_bytes(&self.path), before: self.before.clone() }
    }
}

/// What one capture came to.
#[verifier::ext_equal]
pub struct CaptureOutcomeView {
    pub state: FileStateView,
    pub captured_bytes: u64,
    pub gaps: Seq<GapView>,
}

/// What one capture came to.
#[derive(Debug)]
pub struct CaptureOutcome {
    pub state: FileState,
    pub captured_bytes: u64,
    pub gaps: Vec<Gap>,
}

impl View for CaptureOutcome {
    type V = CaptureOutcomeView;

    open spec fn view(&self) -> CaptureOutcomeView {
        CaptureOutcomeView {
            state: self.state@,
            captured_bytes: self.captured_bytes,
            gaps: gap_views(self.gaps@),
        }
    }
}

/// An order to the capture helper.
#[verifier::ext_equal]
pub struct CaptureRequestView {
    pub output_base64: Seq<char>,
    pub path_base64: Seq<char>,
    pub max_file_bytes: u64,
    pub max_total_bytes: u64,
    pub delay_millis: u64,
    pub journal: Option<PathKeyView>,
}

/// An order to the capture helper.
#[derive(Debug)]
pub struct CaptureRequest {
    pub output_base64: String,
    pub path_base64: String,
    pub max_file_bytes: u64,
    pub max_total_bytes: u64,
    pub delay_millis: u64,
    pub journal: Option<PathKey>,
}

impl View for CaptureRequest {
    type V = CaptureRequestView;

    open spec fn view(&self) -> CaptureRequestView {
        CaptureRequestView {
            output_base64: self.output_base64@,
            path_base64: self.path_base64@,
            max_file_bytes: self.max_file_bytes,
            max_total_bytes: self.max_total_bytes,
            delay_millis: self.delay_millis,
            journal: key_of(self.journal),
        }
    }
}

/// The nanoseconds of a millisecond.
pub const NANOS_PER_MILLI: u128 = 1_000_000;

/// A span of time in whole milliseconds, or the largest number there is.
pub open spec fn saturated_millis(nanos: u128) -> u64 {
    if nanos / NANOS_PER_MILLI > u64::MAX {
        u64::MAX
    } else {
        (nanos / NANOS_PER_MILLI) as u64
    }
}

/// A span of time in whole milliseconds, or the largest number there is.
pub fn clamp_millis(nanos: u128) -> (millis: u64)
    ensures
        millis == saturated_millis(nanos),
{
    let whole: u128 = nanos / NANOS_PER_MILLI;
    if whole > u64::MAX as u128 {
        u64::MAX
    } else {
        whole as u64
    }
}

impl CaptureRequest {
    /// The order to capture a path. The two paths go as base64, so that no byte of them is
    /// lost.
    pub fn new(
        output: &[u8],
        path: &[u8],
        max_file_bytes: u64,
        max_total_bytes: u64,
        delay: u128,
        journal: Option<PathKey>,
    ) -> (request: Self)
        ensures
            request@ == (CaptureRequestView {
                output_base64: base64_text(output@),
                path_base64: base64_text(path@),
                max_file_bytes,
                max_total_bytes,
                delay_millis: saturated_millis(delay),
                journal: key_of(journal),
            }),
    {
        CaptureRequest {
            output_base64: encode_base64(output),
            path_base64: encode_base64(path),
            max_file_bytes,
            max_total_bytes,
            delay_millis: clamp_millis(delay),
            journal,
        }
    }

    /// The output directory and the path that the order names, or the words of the first
    /// decoding error. An order made with `new` gives the two paths back that it was made
    /// with.
    pub fn paths(&self) -> (result: Result<(Vec<u8>, Vec<u8>), String>)
        ensures
            match base64_decoded(self.output_base64@) {
                Err(message) => match result {
                    Err(text) => text@ == message,
                    Ok(_) => false,
                },
                Ok(output) => match base64_decoded(self.path_base64@) {
                    Err(message) => match result {
                        Err(text) => text@ == message,
                        Ok(_) => false,
                    },
                    Ok(path) => match result {
                        Ok(found) => found.0@ == output && found.1@ == path,
                        Err(_) => false,
                    },
                },
            },
            forall|first: Seq<u8>, second: Seq<u8>|
                #[trigger] base64_text(first) == self.output_base64@ && #[trigger] base64_text(
                    second,
                ) == self.path_base64@ ==> result is Ok && result->Ok_0.0@ == first
                    && result->Ok_0.1@ == second,
    {
        let output = match decode_base64(self.output_base64.as_str()) {
            Ok(bytes) => bytes,
            Err(message) => {
                return Err(message);
            },
        };
        match decode_base64(self.path_base64.as_str()) {
            Ok(path) => Ok((output, path)),
            Err(message) => Err(message),
        }
    }
}

/// What a file is.
#[derive(Debug, Clone, Copy, PartialEq, Eq, Structural)]
pub enum FileKind {
    Symlink,
    Regular,
    Directory,
    Special,
}

/// What the file system says of a file itself, links not followed.
#[derive(Debug, Clone, Copy)]
pub struct FileFacts {
    pub mode: u32,
    pub size: u64,
    pub kind: FileKind,
}

/// What looking a file up came to.
#[derive(Debug)]
pub enum Lookup {
    Absent,
    Failed(String),
    Found(FileFacts),
}

/// What is to be done next to capture a file.
#[derive(Debug)]
pub enum CaptureStep {
    /// The capture is over.
    Done(CaptureOutcome),
    /// Read where the link points; this is what was found of it.
    ReadLink(FileFacts),
    /// Read the whole file; this is what was found of it.
    ReadFile(FileFacts),
}

/// What is to be done next with the content of a file.
#[derive(Debug)]
pub enum ContentStep {
    /// The capture is over.
    Done(CaptureOutcome),
    /// Store the object.
    Store(NewObject),
}

/// The outcome of a capture that has no content.
pub open spec fn unavailable_outcome(reason: Seq<char>, gaps: Seq<GapView>) -> CaptureOutcomeView {
    CaptureOutcomeView { state: FileStateView::Unavailable { reason }, captured_bytes: 0, gaps }
}

/// Why a file of this size is not captured.
pub open spec fn file_size_gap(path: Seq<u8>, size: u64) -> GapView {
    GapView {
        kind: "file_size_quota"@,
        detail: lossy_text(path) + " is "@ + decimal(size as int) + " bytes"@,
    }
}

/// Why a file that is neither regular nor a link nor a directory is not captured.
pub open spec fn special_file_gap(path: Seq<u8>) -> GapView {
    GapView { kind: "special_file"@, detail: lossy_text(path) }
}

/// Why content beyond the limit of the run is not captured.
pub open spec fn total_bytes_gap() -> GapView {
    GapView { kind: "total_byte_quota"@, detail: "capture byte limit exceeded"@ }
}

/// What the capture of a path begins with, by what looking it up came to.
pub open spec fn capture_start(path: Seq<u8>, lookup: Lookup, max_file_bytes: u64, step: CaptureStep) -> bool {
    match lookup {
        Lookup::Absent => match step {
            CaptureStep::Done(outcome) => outcome@ == (CaptureOutcomeView {
                state: FileStateView::Absent,
                captured_bytes: 0,
                gaps: Seq::empty(),
            }),
            _ => false,
        },
        Lookup::Failed(message) => match step {
            CaptureStep::Done(outcome) => outcome@ == unavailable_outcome(message@, Seq::empty()),
            _ => false,
        },
        Lookup::Found(facts) => match facts.kind {
            FileKind::Symlink => step matches CaptureStep::ReadLink(kept) && kept == facts,
            FileKind::Regular => if facts.size > max_file_bytes {
                match step {
                    CaptureStep::Done(outcome) => outcome@ == unavailable_outcome(
                        "file_size_quota"@,
                        seq![file_size_gap(path, facts.size)],
                    ),
                    _ => false,
                }
            } else {
                step matches CaptureStep::ReadFile(kept) && kept == facts
            },
            FileKind::Directory => match step {
                CaptureStep::Done(outcome) => outcome@ == unavailable_outcome(
                    "directory_not_reported"@,
                    Seq::empty(),
                ),
                _ => false,
            },
            FileKind::Special => match step {
                CaptureStep::Done(outcome) => outcome@ == unavailable_outcome(
                    "special_file_not_captured"@,
                    seq![special_file_gap(path)],
                ),
                _ => false,
            },
        },
    }
}

fn unavailable(reason: String, gaps: Vec<Gap>) -> (outcome: CaptureOutcome)
    ensures
        outcome@ == unavailable_outcome(reason@, gap_views(gaps@)),
{
    CaptureOutcome { state: FileState::Unavailable { reason }, captured_bytes: 0, gaps }
}

fn no_gaps() -> (gaps: Vec<Gap>)
    ensures
        gap_views(gaps@) == Seq::<GapView>::empty(),
{
    let gaps: Vec<Gap> = Vec::new();
    assert(gap_views(gaps@) =~= Seq::<GapView>::empty());
    gaps
}

fn one_gap(kind: &str, detail: String) -> (gaps: Vec<Gap>)
    ensures
        gap_views(gaps@) == seq![GapView { kind: kind@, detail: detail@ }],
{
    let mut gaps: Vec<Gap> = Vec::new();
    gaps.push(Gap { kind: kind.to_owned(), detail });
    assert(gap_views(gaps@) =~= seq![GapView { kind: kind@, detail: detail@ }]);
    gaps
}

/// Begins the capture of a path, by what looking it up came to: links and regular files
/// within the limit are read, everything else ends the capture at once.
pub fn capture_one(path: &[u8], lookup: &Lookup, max_file_bytes: u64) -> (step: CaptureStep)
    ensures
        capture_start(path@, *lookup, max_file_bytes, step),
{
    match lookup {
        Lookup::Absent => CaptureStep::Done(
            CaptureOutcome { state: FileState::Absent, captured_bytes: 0, gaps: no_gaps() },
        ),
        Lookup::Failed(message) => CaptureStep::Done(unavailable(message.clone(), no_gaps())),
        Lookup::Found(facts) => match facts.kind {
            FileKind::Symlink => CaptureStep::ReadLink(*facts),
            FileKind::Regular => {
                if facts.size > max_file_bytes {
                    let mut detail = concat2(lossy(path).as_str(), " is ");
                    detail.append(decimal_text(facts.size).as_str());
                    detail.append(" bytes");
                    CaptureStep::Done(
                        unavailable(
                            "file_size_quota".to_owned(),
                            one_gap("file_size_quota", detail),
                        ),
                    )
                } else {
                    CaptureStep::ReadFile(*facts)
                }
            },
            FileKind::Directory => CaptureStep::Done(
                unavailable("directory_not_reported".to_owned(), no_gaps()),
            ),
            FileKind::Special => CaptureStep::Done(
                unavailable(
                    "special_file_not_captured".to_owned(),
                    one_gap("special_file", lossy(path)),
                ),
            ),
        },
    }
}

/// The digest that names stored content.
pub open spec fn digest_of(bytes: Seq<u8>) -> Seq<char> {
    hex(sha256(bytes))
}

/// Content that is to be stored, with the digest that names it.
#[derive(Debug)]
pub struct NewObject {
    digest: String,
    content: Vec<u8>,
}

impl View for NewObject {
    type V = Seq<u8>;

    closed spec fn view(&self) -> Seq<u8> {
        self.content@
    }
}

impl NewObject {
    #[verifier::type_invariant]
    spec fn is_named(self) -> bool {
        self.digest@ == digest_of(self.content@)
    }

    /// The object with a content.
    pub fn new(content: Vec<u8>) -> (object: Self)
        ensures
            object@ == content@,
    {
        NewObject { digest: hex_text(&sha256_digest(&content)), content }
    }

    /// The digest that names the object.
    pub fn digest(&self) -> (digest: &str)
        ensures
            digest@ == digest_of(self@),
    {
        proof {
            use_type_invariant(self);
        }
        self.digest.as_str()
    }

    /// The content of the object.
    pub fn content(&self) -> (content: &[u8])
        ensures
            content@ == self@,
    {
        self.content.as_slice()
    }
}

/// Goes on with the content of a file: it is stored where it fits into what is left of the
/// limit of the run.
pub fn capture_content(content: Result<Vec<u8>, String>, max_total_bytes: u64) -> (step: ContentStep)
    ensures
        match content {
            Err(message) => match step {
                ContentStep::Done(outcome) => outcome@ == unavailable_outcome(
                    message@,
                    Seq::empty(),
                ),
                ContentStep::Store(object) => false,
            },
            Ok(bytes) => match step {
                ContentStep::Done(outcome) => bytes@.len() > max_total_bytes && outcome@
                    == unavailable_outcome("total_byte_quota"@, seq![total_bytes_gap()]),
                ContentStep::Store(object) => bytes@.len() <= max_total_bytes && object@ == bytes@,
            },
        },
{
    match content {
        Err(message) => ContentStep::Done(unavailable(message, no_gaps())),
        Ok(bytes) => {
            if bytes.len() as u64 > max_total_bytes {
                ContentStep::Done(
                    unavailable(
                        "total_byte_quota".to_owned(),
                        one_gap("total_byte_quota", "capture byte limit exceeded".to_owned()),
                    ),
                )
            } else {
                ContentStep::Store(NewObject::new(bytes))
            }
        },
    }
}

/// The permission and type bits of a mode, in octal.
pub open spec fn mode_text(mode: u32) -> Seq<char> {
    zero_padded(digits((mode & 0o177777) as nat, 8), 6)
}

/// The identifier of the object with a digest.
pub open spec fn object_id_of(digest: Seq<char>) -> Seq<char> {
    "sha256:"@ + digest
}

/// The outcome of the capture of a file whose content was stored.
pub open spec fn present_outcome(mode: u32, content: Seq<u8>) -> CaptureOutcomeView {
    CaptureOutcomeView {
        state: FileStateView::Present {
            object: ObjectRefView {
                object_id: object_id_of(digest_of(content)),
                size: content.len() as u64,
                mode: mode_text(mode),
            },
        },
        captured_bytes: content.len() as u64,
        gaps: Seq::empty(),
    }
}

/// Why the content of a file could not be stored.
pub open spec fn object_write_gap(path: Seq<u8>, message: Seq<char>) -> GapView {
    GapView { kind: "object_write"@, detail: lossy_text(path) + ": "@ + message }
}

/// Ends the capture of a file, by what storing its content came to: the object that is
/// reported has the digest and the size of that content, and its bytes are counted.
pub fn capture_stored(
    path: &[u8],
    facts: &FileFacts,
    object: &NewObject,
    stored: &Result<(), String>,
) -> (outcome: CaptureOutcome)
    ensures
        match *stored {
            Ok(_) => {
                &&& outcome@ == present_outcome(facts.mode, object@)
                &&& outcome@.captured_bytes == object@.len()
                &&& outcome@.state->object.size == object@.len()
                &&& outcome@.state->object.object_id == object_id_of(digest_of(object@))
            },
            Err(message) => outcome@ == unavailable_outcome(
                message@,
                seq![object_write_gap(path@, message@)],
            ),
        },
{
    match stored {
        Ok(_) => {
            let size: u64 = object.content().len() as u64;
            CaptureOutcome {
                state: FileState::Present {
                    object: ObjectRef {
                        object_id: concat2("sha256:", object.digest()),
                        size,
                        mode: octal6_text(facts.mode & 0o177777),
                    },
                },
                captured_bytes: size,
                gaps: no_gaps(),
            }
        },
        Err(message) => unavailable(
            message.clone(),
            one_gap("object_write", concat3(lossy(path).as_str(), ": ", message.as_str())),
        ),
    }
}

/// The directory of the stored objects.
pub open spec fn objects_dir(output: Seq<u8>) -> Seq<u8> {
    joined(output, encode_utf8("objects"@))
}

/// Where the object with a digest is stored.
pub open spec fn object_path_of(output: Seq<u8>, digest: Seq<char>) -> Seq<u8> {
    joined(objects_dir(output), encode_utf8(digest))
}

/// Where the object with a digest is stored.
pub fn object_path(output: &[u8], digest: &str) -> (path: Vec<u8>)
    ensures
        path@ == object_path_of(output@, digest@),
{
    join(&join(output, "objects".as_bytes()), digest.as_bytes())
}

/// Where the object with a digest is written before it gets its name: a process never
/// shares that place with another one.
pub fn temporary_object_path(output: &[u8], digest: &str, process: u32) -> (path: Vec<u8>)
    ensures
        path@ == joined(
            objects_dir(output@),
            encode_utf8("."@ + digest@ + "."@ + decimal(process as int) + ".tmp"@),
        ),
{
    let mut name = concat3(".", digest, ".");
    name.append(decimal_text(process as u64).as_str());
    name.append(".tmp");
    join(&join(output, "objects".as_bytes()), name.as_str().as_bytes())
}

/// The digest in the identifier of an object, where it is one.
pub open spec fn digest_in(object_id: Seq<char>) -> Option<Seq<char>> {
    if "sha256:"@.is_prefix_of(object_id) {
        Some(object_id.skip("sha256:"@.len() as int))
    } else {
        None
    }
}

/// The digest in the identifier of an object.
pub fn object_digest(object_id: &str) -> (result: Option<String>)
    ensures
        match result {
            Some(digest) => digest_in(object_id@) == Some(digest@),
            None => digest_in(object_id@) is None,
        },
{
    let lead = "sha256:";
    let size: usize = lead.unicode_len();
    let length: usize = object_id.unicode_len();
    if length < size {
        return None;
    }
    let start = object_id.substring_char(0, size);
    if same_text(start, lead) {
        let rest = object_id.substring_char(size, length);
        assert(rest@ =~= object_id@.skip(size as int));
        assert(lead@ =~= object_id@.subrange(0, size as int));
        Some(rest.to_owned())
    } else {
        None
    }
}

/// What is written to the journal when a file is captured before its first change.
#[derive(Debug)]
pub struct JournalEntry {
    pub event: String,
    pub root_id: String,
    pub path_bytes_base64: String,
    pub before: FileState,
}

/// The journal's entry for a captured file.
pub fn journal_entry(key: &PathKey, state: &FileState) -> (entry: JournalEntry)
    ensures
        entry.event@ == "before_captured"@,
        entry.root_id@ == key.root_id@,
        entry.path_bytes_base64@ == base64_text(key.relative@),
        entry.before@ == state@,
{
    JournalEntry {
        event: "before_captured".to_owned(),
        root_id: key.root_id.clone(),
        path_bytes_base64: encode_base64(&key.relative),
        before: state.clone(),
    }
}

/// The outcome of a capture whose entry in the journal could not be written.
pub fn journal_failed(outcome: CaptureOutcome, message: String) -> (result: CaptureOutcome)
    ensures
        result@ == (CaptureOutcomeView {
            state: outcome@.state,
            captured_bytes: outcome@.captured_bytes,
            gaps: outcome@.gaps.push(GapView { kind: "journal_write"@, detail: message@ }),
        }),
{
    let ghost before = outcome@;
    let mut gaps = outcome.gaps;
    let ghost held = gaps@;
    gaps.push(Gap { kind: "journal_write".to_owned(), detail: message });
    assert(gap_views(gaps@) =~= gap_views(held).push(
        GapView { kind: "journal_write"@, detail: message@ },
    ));
    CaptureOutcome { state: outcome.state, captured_bytes: outcome.captured_bytes, gaps }
}

/// Why the capture helper gave no outcome.
#[verifier::ext_equal]
pub struct HelperFailureView {
    pub timed_out: bool,
    pub message: Seq<char>,
}

/// Why the capture helper gave no outcome.
#[derive(Debug)]
pub struct HelperFailure {
    pub timed_out: bool,
    pub message: String,
}

impl View for HelperFailure {
    type V = HelperFailureView;

    open spec fn view(&self) -> HelperFailureView {
        HelperFailureView { timed_out: self.timed_out, message: self.message@ }
    }
}

/// What reading from the capture helper came to.
#[derive(Debug)]
pub enum ResponseEvent {
    Data(Vec<u8>),
    Closed,
    WouldBlock,
    Interrupted,
    Failed(String),
}

/// What is to be done next about an answer of the capture helper.
#[derive(Debug)]
pub enum ResponseStep {
    /// Read again at once.
    ReadOn,
    /// Wait until there is more to read.
    Wait,
    /// The answer is complete.
    Complete,
    /// There is no answer.
    Failed(HelperFailure),
}

/// The largest answer of the capture helper, in bytes.
pub const MAX_RESPONSE_BYTES: usize = 1_048_576;

/// The byte that ends a line.
pub const NEWLINE: u8 = 10;

/// Takes in what was read of an answer. The answer is complete where a newline ends what
/// was read so far; the newline is taken off.
pub fn drain_response(response: &mut Vec<u8>, event: &ResponseEvent) -> (step: ResponseStep)
    ensures
        match *event {
            ResponseEvent::Data(bytes) => {
                let whole = old(response)@ + bytes@;
                if whole.len() > MAX_RESPONSE_BYTES {
                    &&& final(response)@ == whole
                    &&& step matches ResponseStep::Failed(failure) && failure@ == (
                    HelperFailureView {
                        timed_out: false,
                        message: "capture helper response too large"@,
                    })
                } else if whole.len() > 0 && whole.last() == NEWLINE {
                    final(response)@ == whole.drop_last() && step is Complete
                } else {
                    final(response)@ == whole && step is ReadOn
                }
            },
            ResponseEvent::Closed => {
                &&& final(response)@ == old(response)@
                &&& step matches ResponseStep::Failed(failure) && failure@ == (HelperFailureView {
                    timed_out: false,
                    message: "capture helper closed stdout"@,
                })
            },
            ResponseEvent::WouldBlock => final(response)@ == old(response)@ && step is Wait,
            ResponseEvent::Interrupted => final(response)@ == old(response)@ && step is ReadOn,
            ResponseEvent::Failed(message) => {
                &&& final(response)@ == old(response)@
                &&& step matches ResponseStep::Failed(failure) && failure@ == (HelperFailureView {
                    timed_out: false,
                    message: message@,
                })
            },
        },
{
    match event {
        ResponseEvent::Data(bytes) => {
            append_bytes(response, bytes);
            if response.len() > MAX_RESPONSE_BYTES {
                return ResponseStep::Failed(
                    HelperFailure {
                        timed_out: false,
                        message: "capture helper response too large".to_owned(),
                    },
                );
            }
            if response.len() > 0 && response[response.len() - 1] == NEWLINE {
                let ghost whole = response@;
                let _newline = response.pop();
                assert(response@ =~= whole.drop_last());
                return ResponseStep::Complete;
            }
            ResponseStep::ReadOn
        },
        ResponseEvent::Closed => ResponseStep::Failed(
            HelperFailure { timed_out: false, message: "capture helper closed stdout".to_owned() },
        ),
        ResponseEvent::WouldBlock => ResponseStep::Wait,
        ResponseEvent::Interrupted => ResponseStep::ReadOn,
        ResponseEvent::Failed(message) => ResponseStep::Failed(
            HelperFailure { timed_out: false, message: message.clone() },
        ),
    }
}

/// What is to be done while the capture helper has not answered.
#[derive(Debug)]
pub enum HelperWait {
    /// Its time is up.
    TimedOut(HelperFailure),
    /// Wait for at most so many milliseconds.
    Poll(i32),
}

/// The milliseconds to wait for while so much time is left.
pub open spec fn poll_millis(remaining: u128) -> int {
    let whole = remaining / NANOS_PER_MILLI;
    if whole < 1 {
        1
    } else if whole > 50 {
        50
    } else {
        whole as int
    }
}

/// Whether to wait on for the capture helper, and for how long: between one and fifty
/// milliseconds at a time, until its time is up.
pub fn helper_wait(elapsed: u128, timeout: u128) -> (wait: HelperWait)
    ensures
        match wait {
            HelperWait::TimedOut(failure) => elapsed >= timeout && failure@ == (HelperFailureView {
                timed_out: true,
                message: "capture helper timed out"@,
            }),
            HelperWait::Poll(millis) => elapsed < timeout && millis == poll_millis(
                (timeout - elapsed) as u128,
            ),
        },
{
    if elapsed >= timeout {
        return HelperWait::TimedOut(
            HelperFailure { timed_out: true, message: "capture helper timed out".to_owned() },
        );
    }
    let whole: u128 = (timeout - elapsed) / NANOS_PER_MILLI;
    if whole < 1 {
        HelperWait::Poll(1)
    } else if whole > 50 {
        HelperWait::Poll(50)
    } else {
        HelperWait::Poll(whole as i32)
    }
}

/// The gaps with one more, where it is not among them yet.
pub open spec fn noted(gaps: Seq<GapView>, gap: GapView) -> Seq<GapView> {
    if gaps.contains(gap) {
        gaps
    } else {
        gaps.push(gap)
    }
}

/// The gaps with a list of further ones, each where it is not among them yet.
pub open spec fn noted_all(gaps: Seq<GapView>, more: Seq<GapView>) -> Seq<GapView>
    decreases more.len(),
{
    if more.len() == 0 {
        gaps
    } else {
        noted(noted_all(gaps, more.drop_last()), more.last())
    }
}

/// One of the names is a component of the path.
pub open spec fn excluded_by_name(names: Seq<Seq<char>>, relative: Seq<u8>) -> bool {
    exists|i: int|
        0 <= i < names.len() && components_of(relative).contains(
            ComponentView::Normal(encode_utf8(#[trigger] names[i])),
        )
}

/// The file that a path names below one root, where it is tracked there: it lies below the
/// root, and nothing leaves it out.
pub open spec fn tracked_in(
    root: RootView,
    exclusions: Seq<ExclusionView>,
    names: Seq<Seq<char>>,
    path: Seq<u8>,
) -> Option<PathKeyView> {
    match below(lexical(components_of(path)), components_of(root.path)) {
        None => None,
        Some(rest) => {
            let relative = rendered(rest);
            if relative.len() == 0 || excluded_by(exclusions, root.id, relative)
                || excluded_by_name(names, relative) {
                None
            } else {
                Some(PathKeyView { root_id: root.id, relative })
            }
        },
    }
}

/// The file that a path names below the first root that it is tracked in.
pub open spec fn located(
    roots: Seq<RootView>,
    exclusions: Seq<ExclusionView>,
    names: Seq<Seq<char>>,
    path: Seq<u8>,
) -> Option<PathKeyView>
    decreases roots.len(),
{
    if roots.len() == 0 {
        None
    } else {
        match located(roots.drop_last(), exclusions, names, path) {
            Some(key) => Some(key),
            None => tracked_in(roots.last(), exclusions, names, path),
        }
    }
}

/// Where no root covers another one, a path lies below one of them at most.
pub proof fn a_path_lies_in_one_root(roots: Seq<RootView>, path: Seq<u8>, i: int, j: int)
    requires
        !overlapping(roots),
        0 <= i < roots.len(),
        0 <= j < roots.len(),
        below(lexical(components_of(path)), components_of(roots[i].path)) is Some,
        below(lexical(components_of(path)), components_of(roots[j].path)) is Some,
    ensures
        i == j,
{
    if i != j {
        let whole = lexical_components(lexical(components_of(path)));
        let a = components_of(roots[i].path);
        let b = components_of(roots[j].path);
        if a.len() <= b.len() {
            assert(a =~= b.subrange(0, a.len() as int)) by {
                assert forall|k: int| 0 <= k < a.len() implies a[k] == b[k] by {
                    assert(a[k] == whole.subrange(0, a.len() as int)[k]);
                    assert(b[k] == whole.subrange(0, b.len() as int)[k]);
                }
            }
            assert(covers(roots[i].path, roots[j].path));
        } else {
            assert(b =~= a.subrange(0, b.len() as int)) by {
                assert forall|k: int| 0 <= k < b.len() implies a[k] == b[k] by {
                    assert(a[k] == whole.subrange(0, a.len() as int)[k]);
                    assert(b[k] == whole.subrange(0, b.len() as int)[k]);
                }
            }
            assert(covers(roots[j].path, roots[i].path));
        }
    }
}

/// The root that a path is tracked in.
proof fn lemma_located_in_a_root(
    roots: Seq<RootView>,
    exclusions: Seq<ExclusionView>,
    names: Seq<Seq<char>>,
    path: Seq<u8>,
) -> (at: int)
    requires
        located(roots, exclusions, names, path) is Some,
    ensures
        0 <= at < roots.len(),
        tracked_in(roots[at], exclusions, names, path) == located(roots, exclusions, names, path),
    decreases roots.len(),
{
    let head = roots.drop_last();
    match located(head, exclusions, names, path) {
        Some(key) => {
            let at = lemma_located_in_a_root(head, exclusions, names, path);
            assert(head[at] == roots[at]);
            at
        },
        None => roots.len() - 1,
    }
}

/// What lies below a base is told by the base and by what is left.
proof fn lemma_rest_tells_path(a: LexicalPathView, b: LexicalPathView, base: Seq<ComponentView>)
    requires
        all_names(a.parts),
        all_names(b.parts),
        below(a, base) is Some,
        below(b, base) is Some,
        rendered(below(a, base)->0) == rendered(below(b, base)->0),
    ensures
        a == b,
{
    let x = below(a, base)->0;
    let y = below(b, base)->0;
    lemma_rest_holds_names(a, base);
    lemma_rest_holds_names(b, base);
    assert(lexical_components(x) == lexical_components(y));
    lemma_lexical_components_tell_path(x, y);
    if base.len() > 0 {
        let p = lexical_components(a);
        let q = lexical_components(b);
        assert(base[0] == p.subrange(0, base.len() as int)[0]);
        assert(base[0] == q.subrange(0, base.len() as int)[0]);
        assert(a.absolute == (base[0] is RootDir)) by {
            if !a.absolute {
                assert(p[0] == ComponentView::Normal(a.parts[0]));
            }
        }
        assert(b.absolute == (base[0] is RootDir)) by {
            if !b.absolute {
                assert(q[0] == ComponentView::Normal(b.parts[0]));
            }
        }
        let lead = if a.absolute {
            1int
        } else {
            0int
        };
        let names = base.len() - lead;
        assert(x.parts == a.parts.skip(names) && y.parts == b.parts.skip(names));
        assert(a.parts.len() == b.parts.len());
        assert forall|i: int| 0 <= i < a.parts.len() implies a.parts[i] == b.parts[i] by {
            if i < names {
                assert(base[i + lead] == p.subrange(0, base.len() as int)[i + lead]);
                assert(base[i + lead] == q.subrange(0, base.len() as int)[i + lead]);
                assert(p[i + lead] == ComponentView::Normal(a.parts[i]));
                assert(q[i + lead] == ComponentView::Normal(b.parts[i]));
            } else {
                assert(a.parts[i] == x.parts[i - names]);
                assert(b.parts[i] == y.parts[i - names]);
            }
        }
        assert(a.parts =~= b.parts);
    }
}

proof fn lemma_lexical_components_tell_path(a: LexicalPathView, b: LexicalPathView)
    requires
        lexical_components(a) == lexical_components(b),
    ensures
        a == b,
{
    let p = lexical_components(a);
    let q = lexical_components(b);
    assert(p.len() == a.parts.len() + (if a.absolute {
        1int
    } else {
        0int
    }));
    assert(q.len() == b.parts.len() + (if b.absolute {
        1int
    } else {
        0int
    }));
    if a.absolute && !b.absolute {
        assert(p[0] is RootDir);
        assert(q[0] == ComponentView::Normal(b.parts[0]));
    }
    if b.absolute && !a.absolute {
        assert(q[0] is RootDir);
        assert(p[0] == ComponentView::Normal(a.parts[0]));
    }
    let lead = if a.absolute {
        1int
    } else {
        0int
    };
    assert(a.parts.len() == b.parts.len());
    assert forall|i: int| 0 <= i < a.parts.len() implies a.parts[i] == b.parts[i] by {
        assert(p[i + lead] == ComponentView::Normal(a.parts[i]));
        assert(q[i + lead] == ComponentView::Normal(b.parts[i]));
    }
    assert(a.parts =~= b.parts);
}

/// A tracked file has one path: two paths that name the same file have the same normal form.
pub proof fn a_key_names_one_file(
    roots: Seq<RootView>,
    exclusions: Seq<ExclusionView>,
    names: Seq<Seq<char>>,
    a: Seq<u8>,
    b: Seq<u8>,
)
    requires
        distinct_ids(roots),
        located(roots, exclusions, names, a) is Some,
        located(roots, exclusions, names, a) == located(roots, exclusions, names, b),
    ensures
        normalized(a) == normalized(b),
{
    let i = lemma_located_in_a_root(roots, exclusions, names, a);
    let j = lemma_located_in_a_root(roots, exclusions, names, b);
    assert(roots[i].id == roots[j].id);
    assert(i == j);
    lexical_paths_hold_names(a);
    lexical_paths_hold_names(b);
    lemma_rest_tells_path(
        lexical(components_of(a)),
        lexical(components_of(b)),
        components_of(roots[i].path),
    );
}

/// A name that is left out is left out as a whole component, wherever in a path it stands,
/// and nothing else is left out by name.
pub proof fn names_are_left_out_at_every_depth(names: Seq<Seq<char>>, parts: Seq<Seq<u8>>)
    requires
        all_names(parts),
    ensures
        excluded_by_name(names, rendered(LexicalPathView { absolute: false, parts })) == (exists|
            i: int,
            j: int,
        |
            0 <= i < names.len() && 0 <= j < parts.len() && encode_utf8(#[trigger] names[i])
                == #[trigger] parts[j]),
{
    let path = LexicalPathView { absolute: false, parts };
    let list = components_of(rendered(path));
    rendering_keeps_components(path);
    if excluded_by_name(names, rendered(path)) {
        let i = choose|i: int|
            0 <= i < names.len() && list.contains(
                ComponentView::Normal(encode_utf8(#[trigger] names[i])),
            );
        let j = choose|j: int|
            0 <= j < list.len() && list[j] == ComponentView::Normal(encode_utf8(names[i]));
        assert(encode_utf8(names[i]) == parts[j]);
    }
    if exists|i: int, j: int|
        0 <= i < names.len() && 0 <= j < parts.len() && encode_utf8(#[trigger] names[i])
            == #[trigger] parts[j] {
        let (i, j) = choose|i: int, j: int|
            0 <= i < names.len() && 0 <= j < parts.len() && encode_utf8(#[trigger] names[i])
                == #[trigger] parts[j];
        assert(list[j] == ComponentView::Normal(encode_utf8(names[i])));
        assert(list.contains(ComponentView::Normal(encode_utf8(names[i]))));
    }
}

/// A path and its normal form name the same file.
pub proof fn locating_the_normal_form_is_the_same(
    roots: Seq<RootView>,
    exclusions: Seq<ExclusionView>,
    names: Seq<Seq<char>>,
    path: Seq<u8>,
)
    ensures
        located(roots, exclusions, names, normalized(path)) == located(
            roots,
            exclusions,
            names,
            path,
        ),
    decreases roots.len(),
{
    normal_form_leads_to_the_same(path);
    if roots.len() > 0 {
        locating_the_normal_form_is_the_same(roots.drop_last(), exclusions, names, path);
    }
}

fn name_among(names: &Vec<String>, list: &Vec<Component>) -> (result: bool)
    ensures
        result == (exists|i: int|
            0 <= i < names@.len() && component_views(list@).contains(
                ComponentView::Normal(encode_utf8(#[trigger] texts(names@)[i])),
            )),
{
    let ghost all = texts(names@);
    let ghost c = component_views(list@);
    let mut i: usize = 0;
    while i < names.len()
        invariant
            i <= names@.len(),
            all == texts(names@),
            c == component_views(list@),
            forall|m: int|
                0 <= m < i ==> !c.contains(ComponentView::Normal(encode_utf8(#[trigger] all[m]))),
        decreases names@.len() - i,
    {
        let ghost wanted = ComponentView::Normal(encode_utf8(all[i as int]));
        let mut j: usize = 0;
        while j < list.len()
            invariant
                i < names@.len(),
                j <= list@.len(),
                all == texts(names@),
                c == component_views(list@),
                wanted == ComponentView::Normal(encode_utf8(all[i as int])),
                forall|n: int| 0 <= n < j ==> c[n] != wanted,
            decreases list@.len() - j,
        {
            assert(c[j as int] == list@[j as int]@);
            match &list[j] {
                Component::Normal(part) => {
                    if same_bytes(part, names[i].as_str().as_bytes()) {
                        assert(c[j as int] == wanted);
                        assert(c.contains(wanted));
                        assert(c.contains(ComponentView::Normal(encode_utf8(all[i as int]))));
                        return true;
                    }
                },
                _ => {},
            }
            j += 1;
        }
        i += 1;
    }
    false
}

fn exclusion_among(exclusions: &Vec<Exclusion>, root_id: &str, list: &Vec<Component>) -> (result:
    bool)
    ensures
        result == (exists|i: int|
            0 <= i < exclusions@.len() && (#[trigger] exclusion_views(exclusions@)[i]).root_id
                == root_id@ && components_of(
                exclusion_views(exclusions@)[i].relative,
            ).is_prefix_of(component_views(list@))),
{
    let ghost all = exclusion_views(exclusions@);
    let mut i: usize = 0;
    while i < exclusions.len()
        invariant
            i <= exclusions@.len(),
            all == exclusion_views(exclusions@),
            forall|m: int|
                0 <= m < i ==> !((#[trigger] all[m]).root_id == root_id@ && components_of(
                    all[m].relative,
                ).is_prefix_of(component_views(list@))),
        decreases exclusions@.len() - i,
    {
        assert(all[i as int] == exclusions@[i as int]@);
        if same_text(exclusions[i].root_id.as_str(), root_id) && starts_with(
            list,
            &components(&exclusions[i].relative),
        ) {
            return true;
        }
        i += 1;
    }
    false
}

/// What is left of a path of names below a base holds only names.
proof fn lemma_rest_holds_names(path: LexicalPathView, base: Seq<ComponentView>)
    requires
        all_names(path.parts),
        below(path, base) is Some,
    ensures
        all_names(below(path, base)->0.parts),
        components_of(rendered(below(path, base)->0)) == lexical_components(below(path, base)->0),
{
    let rest = below(path, base)->0;
    assert forall|i: int| 0 <= i < rest.parts.len() implies crate::paths::is_name(
        #[trigger] rest.parts[i],
    ) by {
        let whole = lexical_components(path);
        assert(base.len() <= whole.len());
        assert(exists|k: int| 0 <= k < path.parts.len() && path.parts[k] == rest.parts[i]) by {
            if base.len() == 0 {
                assert(path.parts[i] == rest.parts[i]);
            } else {
                let names = if path.absolute {
                    base.len() - 1
                } else {
                    base.len() as int
                };
                assert(rest.parts == path.parts.skip(names));
                assert(path.parts[i + names] == rest.parts[i]);
            }
        }
    }
    rendering_keeps_components(rest);
}

/// One candidate with the file that it stands for.
#[derive(Debug)]
pub struct TrackedFile {
    pub key: PathKey,
    pub candidate: Candidate,
}

impl View for TrackedFile {
    type V = (PathKeyView, CandidateView);

    open spec fn view(&self) -> (PathKeyView, CandidateView) {
        (self.key@, self.candidate@)
    }
}

/// The views of a list of tracked files.
pub open spec fn tracked_views(list: Seq<TrackedFile>) -> Seq<(PathKeyView, CandidateView)> {
    list.map_values(|item: TrackedFile| item@)
}

/// Each file occurs once.
pub open spec fn distinct_files(pairs: Seq<(PathKeyView, CandidateView)>) -> bool {
    forall|i: int, j: int|
        0 <= i < j < pairs.len() ==> (#[trigger] pairs[i]).0 != (#[trigger] pairs[j]).0
}

/// The candidates by the files that they stand for.
pub open spec fn candidate_map(pairs: Seq<(PathKeyView, CandidateView)>) -> Map<
    PathKeyView,
    CandidateView,
>
    decreases pairs.len(),
{
    if pairs.len() == 0 {
        Map::empty()
    } else {
        candidate_map(pairs.drop_last()).insert(pairs.last().0, pairs.last().1)
    }
}

/// The list holds just the entries of the map, each once.
pub open spec fn lists_candidates(
    map: Map<PathKeyView, CandidateView>,
    pairs: Seq<(PathKeyView, CandidateView)>,
) -> bool {
    &&& distinct_files(pairs)
    &&& map.dom().finite()
    &&& map.dom().len() == pairs.len()
    &&& forall|i: int|
        0 <= i < pairs.len() ==> map.contains_key((#[trigger] pairs[i]).0) && map[pairs[i].0]
            == pairs[i].1
    &&& forall|key: PathKeyView| #[trigger]
        map.contains_key(key) ==> exists|i: int| 0 <= i < pairs.len() && (#[trigger] pairs[i]).0 == key
}

proof fn lemma_map_lists_candidates(pairs: Seq<(PathKeyView, CandidateView)>)
    requires
        distinct_files(pairs),
    ensures
        lists_candidates(candidate_map(pairs), pairs),
    decreases pairs.len(),
{
    let map = candidate_map(pairs);
    if pairs.len() > 0 {
        let head = pairs.drop_last();
        let last = pairs.last();
        let smaller = candidate_map(head);
        assert forall|i: int, j: int| 0 <= i < j < head.len() implies (#[trigger] head[i]).0 != (
        #[trigger] head[j]).0 by {
            assert(pairs[i].0 != pairs[j].0);
        }
        lemma_map_lists_candidates(head);
        if smaller.contains_key(last.0) {
            let i = choose|i: int| 0 <= i < head.len() && (#[trigger] head[i]).0 == last.0;
            assert(pairs[i].0 != pairs[pairs.len() - 1].0);
        }
        assert(map.dom() =~= smaller.dom().insert(last.0));
        assert forall|i: int| 0 <= i < pairs.len() implies map.contains_key(
            (#[trigger] pairs[i]).0,
        ) && map[pairs[i].0] == pairs[i].1 by {
            if i < head.len() {
                assert(head[i] == pairs[i]);
                assert(pairs[i].0 != pairs[pairs.len() - 1].0);
            }
        }
        assert forall|key: PathKeyView| #[trigger] map.contains_key(key) implies exists|i: int|
            0 <= i < pairs.len() && (#[trigger] pairs[i]).0 == key by {
            if key == last.0 {
                assert(pairs[pairs.len() - 1].0 == key);
            } else {
                assert(smaller.contains_key(key));
                let i = choose|i: int| 0 <= i < head.len() && (#[trigger] head[i]).0 == key;
                assert(pairs[i].0 == key);
            }
        }
    } else {
        assert(map.dom() =~= Set::empty());
    }
}

/// Everything that a run has captured, and the rules that it captures by.
#[verifier::ext_equal]
pub struct StoreView {
    pub output: Seq<u8>,
    pub roots: Seq<RootView>,
    pub exclusions: Seq<ExclusionView>,
    pub recursive_exclusions: Seq<Seq<char>>,
    pub limits: Limits,
    pub capture_timeout: u128,
    pub capture_helper_delay: u128,
    pub total_bytes: u64,
    pub candidates: Map<PathKeyView, CandidateView>,
    pub gaps: Seq<GapView>,
}

/// The store with one more gap noted.
pub open spec fn with_gap(store: StoreView, gap: GapView) -> StoreView {
    StoreView { gaps: noted(store.gaps, gap), ..store }
}

/// The file that a path names, where the store tracks it.
pub open spec fn located_in(store: StoreView, path: Seq<u8>) -> Option<PathKeyView> {
    located(store.roots, store.exclusions, store.recursive_exclusions, path)
}

/// The bytes that the store may still capture.
pub open spec fn bytes_left(store: StoreView) -> u64 {
    if store.total_bytes >= store.limits.max_total_bytes {
        0
    } else {
        (store.limits.max_total_bytes - store.total_bytes) as u64
    }
}

/// The order to capture a path.
pub open spec fn request_for(store: StoreView, path: Seq<u8>, journal: Option<PathKeyView>) -> CaptureRequestView {
    CaptureRequestView {
        output_base64: base64_text(store.output),
        path_base64: base64_text(path),
        max_file_bytes: store.limits.max_file_bytes,
        max_total_bytes: bytes_left(store),
        delay_millis: saturated_millis(store.capture_helper_delay),
        journal,
    }
}

/// What the capture helper's answer came to.
pub open spec fn answer(result: Result<CaptureOutcome, HelperFailure>) -> Result<
    CaptureOutcomeView,
    HelperFailureView,
> {
    match result {
        Ok(outcome) => Ok(outcome@),
        Err(failure) => Err(failure@),
    }
}

/// The kind of gap that a failure of the capture helper is.
pub open spec fn failure_kind(failure: HelperFailureView) -> Seq<char> {
    if failure.timed_out {
        "capture_timeout"@
    } else {
        "capture_helper"@
    }
}

/// The state of a file by the capture helper's answer.
pub open spec fn answered_state(result: Result<CaptureOutcomeView, HelperFailureView>) -> FileStateView {
    match result {
        Ok(outcome) => outcome.state,
        Err(failure) => FileStateView::Unavailable { reason: failure_kind(failure) },
    }
}

/// The store with the capture helper's answer for a path taken in: its bytes are counted and
/// its gaps noted, and a failure is noted as a gap.
pub open spec fn absorbed(
    store: StoreView,
    path: Seq<u8>,
    result: Result<CaptureOutcomeView, HelperFailureView>,
) -> StoreView {
    match result {
        Ok(outcome) => StoreView {
            total_bytes: if store.total_bytes + outcome.captured_bytes > u64::MAX {
                u64::MAX
            } else {
                (store.total_bytes + outcome.captured_bytes) as u64
            },
            gaps: noted_all(store.gaps, outcome.gaps),
            ..store
        },
        Err(failure) => with_gap(
            store,
            GapView {
                kind: failure_kind(failure),
                detail: lossy_text(path) + ": "@ + failure.message,
            },
        ),
    }
}

/// The gap of a file that the limit on candidates leaves out.
pub open spec fn file_quota_gap(limits: Limits) -> GapView {
    GapView {
        kind: "file_quota"@,
        detail: "candidate limit "@ + decimal(limits.max_files as int) + " exceeded"@,
    }
}

/// The store with a candidate for a file that has none yet, as far as the limit allows.
pub open spec fn with_candidate(
    store: StoreView,
    key: PathKeyView,
    candidate: CandidateView,
) -> StoreView {
    if store.candidates.contains_key(key) {
        store
    } else if store.candidates.dom().len() >= store.limits.max_files {
        with_gap(store, file_quota_gap(store.limits))
    } else {
        StoreView { candidates: store.candidates.insert(key, candidate), ..store }
    }
}

/// The store with the capture of a path ended that was begun before a change.
pub open spec fn completed(
    store: StoreView,
    path: Seq<u8>,
    result: Result<CaptureOutcomeView, HelperFailureView>,
) -> StoreView {
    let next = absorbed(store, path, result);
    match located_in(next, path) {
        None => next,
        Some(key) => with_candidate(
            next,
            key,
            CandidateView { path: normalized(path), before: answered_state(result) },
        ),
    }
}

/// Every file is the tracked one that its candidate's path names.
pub open spec fn all_tracked(
    roots: Seq<RootView>,
    exclusions: Seq<ExclusionView>,
    names: Seq<Seq<char>>,
    pairs: Seq<(PathKeyView, CandidateView)>,
) -> bool {
    forall|i: int|
        0 <= i < pairs.len() ==> located(roots, exclusions, names, (#[trigger] pairs[i]).1.path)
            == Some(pairs[i].0)
}

/// A capture that is to be made before a file changes for the first time.
#[derive(Debug)]
pub struct PendingCapture {
    pub key: PathKey,
    pub path: Vec<u8>,
    pub request: CaptureRequest,
}

/// Everything that a run has captured, and the rules that it captures by.
#[derive(Debug)]
pub struct CaptureStore {
    output: Vec<u8>,
    roots: Vec<Root>,
    exclusions: Vec<Exclusion>,
    recursive_exclusions: Vec<String>,
    limits: Limits,
    capture_timeout: u128,
    capture_helper_delay: u128,
    total_bytes: u64,
    candidates: Vec<TrackedFile>,
    gaps: Vec<Gap>,
}

impl View for CaptureStore {
    type V = StoreView;

    closed spec fn view(&self) -> StoreView {
        StoreView {
            output: self.output@,
            roots: root_views(self.roots@),
            exclusions: exclusion_views(self.exclusions@),
            recursive_exclusions: texts(self.recursive_exclusions@),
            limits: self.limits,
            capture_timeout: self.capture_timeout,
            capture_helper_delay: self.capture_helper_delay,
            total_bytes: self.total_bytes,
            candidates: candidate_map(tracked_views(self.candidates@)),
            gaps: gap_views(self.gaps@),
        }
    }
}

impl CaptureStore {
    /// Each file has one candidate, there are no more candidates than the limit, no gap is
    /// noted twice, and every candidate is a tracked file.
    #[verifier::type_invariant]
    spec fn well_formed(self) -> bool {
        &&& distinct_files(tracked_views(self.candidates@))
        &&& self.candidates@.len() <= self.limits.max_files
        &&& gap_views(self.gaps@).no_duplicates()
        &&& all_tracked(
            root_views(self.roots@),
            exclusion_views(self.exclusions@),
            texts(self.recursive_exclusions@),
            tracked_views(self.candidates@),
        )
    }

    /// A store that has captured nothing yet.
    pub fn new(
        output: Vec<u8>,
        roots: Vec<Root>,
        exclusions: Vec<Exclusion>,
        recursive_exclusions: Vec<String>,
        limits: Limits,
        capture_timeout: u128,
        capture_helper_delay: u128,
    ) -> (store: Self)
        ensures
            store@ == (StoreView {
                output: output@,
                roots: root_views(roots@),
                exclusions: exclusion_views(exclusions@),
                recursive_exclusions: texts(recursive_exclusions@),
                limits,
                capture_timeout,
                capture_helper_delay,
                total_bytes: 0,
                candidates: Map::empty(),
                gaps: Seq::empty(),
            }),
    {
        let store = CaptureStore {
            output,
            roots,
            exclusions,
            recursive_exclusions,
            limits,
            capture_timeout,
            capture_helper_delay,
            total_bytes: 0,
            candidates: Vec::new(),
            gaps: Vec::new(),
        };
        assert(store@.gaps =~= Seq::<GapView>::empty());
        assert(tracked_views(store.candidates@) =~= Seq::empty());
        store
    }

    /// The directory that the results go to.
    pub fn output(&self) -> (path: &Vec<u8>)
        ensures
            path@ == self@.output,
    {
        &self.output
    }

    /// The bytes that one file's diff may have.
    pub fn max_diff_bytes(&self) -> (limit: usize)
        ensures
            limit == self@.limits.max_diff_bytes,
    {
        self.limits.max_diff_bytes
    }

    /// The bytes that were captured so far.
    pub fn captured_bytes(&self) -> (bytes: u64)
        ensures
            bytes == self@.total_bytes,
    {
        self.total_bytes
    }

    /// The time that one capture may take.
    pub fn capture_timeout(&self) -> (nanos: u128)
        ensures
            nanos == self@.capture_timeout,
    {
        self.capture_timeout
    }

    /// The subtrees that are left out.
    pub fn exclusions(&self) -> (list: &Vec<Exclusion>)
        ensures
            exclusion_views(list@) == self@.exclusions,
    {
        &self.exclusions
    }

    /// The names that are left out at every depth.
    pub fn recursive_exclusions(&self) -> (list: &Vec<String>)
        ensures
            texts(list@) == self@.recursive_exclusions,
    {
        &self.recursive_exclusions
    }

    /// What could not be observed, each once.
    pub fn gaps(&self) -> (list: &Vec<Gap>)
        ensures
            gap_views(list@) == self@.gaps,
            self@.gaps.no_duplicates(),
    {
        proof {
            use_type_invariant(self);
        }
        &self.gaps
    }

    /// The candidates, in no particular order. There are no more of them than the limit, and
    /// every one is a tracked file: it lies in a root, and nothing leaves it out.
    pub fn candidates(&self) -> (list: &Vec<TrackedFile>)
        ensures
            lists_candidates(self@.candidates, tracked_views(list@)),
            list@.len() <= self@.limits.max_files,
            all_tracked(
                self@.roots,
                self@.exclusions,
                self@.recursive_exclusions,
                tracked_views(list@),
            ),
    {
        proof {
            use_type_invariant(self);
            lemma_map_lists_candidates(tracked_views(self.candidates@));
        }
        &self.candidates
    }

    /// Notes a gap, unless it is noted already.
    pub fn gap(&mut self, kind: String, detail: String)
        ensures
            final(self)@ == with_gap(old(self)@, GapView { kind: kind@, detail: detail@ }),
    {
        proof {
            use_type_invariant(&*self);
        }
        let gap = Gap { kind, detail };
        let ghost before = gap_views(self.gaps@);
        let mut i: usize = 0;
        while i < self.gaps.len()
            invariant
                i <= self.gaps@.len(),
                *self == *old(self),
                before == gap_views(self.gaps@),
                before.no_duplicates(),
                forall|j: int| 0 <= j < i ==> before[j] != gap@,
                gap@ == (GapView { kind: kind@, detail: detail@ }),
            decreases self.gaps@.len() - i,
        {
            assert(before[i as int] == self.gaps@[i as int]@);
            if same_text(self.gaps[i].kind.as_str(), gap.kind.as_str()) && same_text(
                self.gaps[i].detail.as_str(),
                gap.detail.as_str(),
            ) {
                assert(before[i as int] == gap@);
                assert(before.contains(gap@));
                return ;
            }
            i += 1;
        }
        assert(!before.contains(gap@));
        let ghost held = self.gaps@;
        let ghost view = gap@;
        proof {
            assert(gap_views(held.push(gap)) =~= before.push(view));
            assert(before.push(view).no_duplicates());
        }
        let mut gaps: Vec<Gap> = Vec::new();
        core::mem::swap(&mut self.gaps, &mut gaps);
        gaps.push(gap);
        self.gaps = gaps;
        assert(self@ =~= with_gap(old(self)@, view));
    }
}

impl CaptureStore {
    /// The file that a path names and the path's normal form, where the file is tracked.
    pub fn locate(&self, path: &[u8]) -> (result: Option<(PathKey, Vec<u8>)>)
        ensures
            match result {
                Some(found) => located_in(self@, path@) == Some(found.0@) && found.1@ == normalized(
                    path@,
                ),
                None => located_in(self@, path@) is None,
            },
    {
        let form = lexical_path(path);
        let ghost all = root_views(self.roots@);
        let ghost exclusions = exclusion_views(self.exclusions@);
        let ghost names = texts(self.recursive_exclusions@);
        assert(all.take(0) =~= Seq::<RootView>::empty());
        let mut i: usize = 0;
        while i < self.roots.len()
            invariant
                i <= self.roots@.len(),
                all == root_views(self.roots@),
                exclusions == exclusion_views(self.exclusions@),
                names == texts(self.recursive_exclusions@),
                form@ == lexical(components_of(path@)),
                located(all.take(i as int), exclusions, names, path@) is None,
            decreases self.roots@.len() - i,
        {
            let root: &Root = &self.roots[i];
            proof {
                assert(all[i as int] == root@);
                assert(all.take(i + 1).drop_last() =~= all.take(i as int));
                assert(all.take(i + 1).last() == root@);
                lemma_located_stays(all, exclusions, names, path@, i + 1);
                lexical_paths_hold_names(path@);
            }
            if let Some(rest) = strip_base(&form, &components(&root.path)) {
                proof {
                    lemma_rest_holds_names(form@, components_of(root.path@));
                }
                let relative = render(&rest);
                let list = components_of_lexical(&rest);
                let left_out = exclusion_among(&self.exclusions, root.id.as_str(), &list);
                let left_out_by_name = name_among(&self.recursive_exclusions, &list);
                proof {
                    assert(component_views(list@) == components_of(relative@));
                    lemma_left_out(exclusions, root.id@, relative@);
                    assert(left_out == excluded_by(exclusions, root.id@, relative@));
                    assert(left_out_by_name == excluded_by_name(names, relative@));
                }
                if relative.len() > 0 && !left_out && !left_out_by_name {
                    return Some((PathKey { root_id: root.id.clone(), relative }, render(&form)));
                }
            }
            i += 1;
        }
        assert(all.take(all.len() as int) =~= all);
        None
    }

    fn is_candidate(&self, key: &PathKey) -> (result: bool)
        ensures
            result == self@.candidates.contains_key(key@),
    {
        proof {
            use_type_invariant(self);
            lemma_map_lists_candidates(tracked_views(self.candidates@));
        }
        let ghost all = tracked_views(self.candidates@);
        let ghost map = self@.candidates;
        let mut i: usize = 0;
        while i < self.candidates.len()
            invariant
                i <= self.candidates@.len(),
                all == tracked_views(self.candidates@),
                map == self@.candidates,
                lists_candidates(map, all),
                forall|j: int| 0 <= j < i ==> (#[trigger] all[j]).0 != key@,
            decreases self.candidates@.len() - i,
        {
            assert(all[i as int] == self.candidates@[i as int]@);
            if same_key(&self.candidates[i].key, key) {
                assert(map.contains_key(all[i as int].0));
                return true;
            }
            i += 1;
        }
        false
    }

    /// The order to capture a path, with an entry in the journal where one is asked for.
    pub fn capture_request(&self, path: &[u8], journal: Option<PathKey>) -> (request: CaptureRequest)
        ensures
            request@ == request_for(self@, path@, key_of(journal)),
    {
        let left: u64 = if self.total_bytes >= self.limits.max_total_bytes {
            0
        } else {
            self.limits.max_total_bytes - self.total_bytes
        };
        CaptureRequest::new(
            &self.output,
            path,
            self.limits.max_file_bytes,
            left,
            self.capture_helper_delay,
            journal,
        )
    }

    /// Begins to capture a path before it changes. Nothing is to be done for a file that is
    /// not tracked or has its candidate already; beyond the limit on candidates a gap is
    /// noted; otherwise the capture that is returned has to be made.
    pub fn capture_before(&mut self, path: &[u8]) -> (pending: Option<PendingCapture>)
        ensures
            match located_in(old(self)@, path@) {
                None => pending is None && final(self)@ == old(self)@,
                Some(key) => if old(self)@.candidates.contains_key(key) {
                    pending is None && final(self)@ == old(self)@
                } else if old(self)@.candidates.dom().len() >= old(self)@.limits.max_files {
                    pending is None && final(self)@ == with_gap(
                        old(self)@,
                        file_quota_gap(old(self)@.limits),
                    )
                } else {
                    &&& final(self)@ == old(self)@
                    &&& pending matches Some(capture) && capture.key@ == key && capture.path@
                        == normalized(path@) && capture.request@ == request_for(
                        old(self)@,
                        normalized(path@),
                        Some(key),
                    )
                },
            },
    {
        let (key, form) = match self.locate(path) {
            Some(found) => found,
            None => {
                return None;
            },
        };
        if self.is_candidate(&key) {
            return None;
        }
        proof {
            use_type_invariant(&*self);
            lemma_map_lists_candidates(tracked_views(self.candidates@));
        }
        if self.candidates.len() >= self.limits.max_files {
            self.note_file_quota();
            return None;
        }
        let request = self.capture_request(&form, Some(key.clone()));
        Some(PendingCapture { key, path: form, request })
    }

    fn note_file_quota(&mut self)
        ensures
            final(self)@ == with_gap(old(self)@, file_quota_gap(old(self)@.limits)),
    {
        let mut detail = concat2(
            "candidate limit ",
            decimal_text(self.limits.max_files as u64).as_str(),
        );
        detail.append(" exceeded");
        self.gap("file_quota".to_owned(), detail);
    }

    /// Takes in the capture helper's answer for a path and returns the state of the file.
    fn absorb(&mut self, path: &[u8], result: Result<CaptureOutcome, HelperFailure>) -> (state:
        FileState)
        ensures
            state@ == answered_state(answer(result)),
            final(self)@ == absorbed(old(self)@, path@, answer(result)),
    {
        match result {
            Ok(outcome) => {
                let total: u64 = match self.total_bytes.checked_add(outcome.captured_bytes) {
                    Some(sum) => sum,
                    None => u64::MAX,
                };
                proof {
                    use_type_invariant(&*self);
                }
                self.total_bytes = total;
                let ghost counted = self@;
                let ghost more = gap_views(outcome.gaps@);
                let mut i: usize = 0;
                assert(more.take(0) =~= Seq::<GapView>::empty());
                assert(self@ =~= (StoreView {
                    gaps: noted_all(counted.gaps, more.take(0)),
                    ..counted
                }));
                while i < outcome.gaps.len()
                    invariant
                        i <= outcome.gaps@.len(),
                        more == gap_views(outcome.gaps@),
                        self@ == (StoreView {
                            gaps: noted_all(counted.gaps, more.take(i as int)),
                            ..counted
                        }),
                    decreases outcome.gaps@.len() - i,
                {
                    proof {
                        assert(more.take(i + 1).drop_last() =~= more.take(i as int));
                        assert(more.take(i + 1).last() == outcome.gaps@[i as int]@);
                    }
                    self.gap(outcome.gaps[i].kind.clone(), outcome.gaps[i].detail.clone());
                    i += 1;
                }
                assert(more.take(more.len() as int) =~= more);
                outcome.state
            },
            Err(failure) => {
                let kind = if failure.timed_out {
                    "capture_timeout"
                } else {
                    "capture_helper"
                };
                self.gap(
                    kind.to_owned(),
                    concat3(lossy(path).as_str(), ": ", failure.message.as_str()),
                );
                FileState::Unavailable { reason: kind.to_owned() }
            },
        }
    }

    /// Ends a capture that was begun before a change: the answer is taken in, and the file
    /// gets its candidate. A candidate that is there already stays as it is.
    pub fn complete_before(&mut self, path: &[u8], result: Result<CaptureOutcome, HelperFailure>)
        ensures
            final(self)@ == completed(old(self)@, path@, answer(result)),
    {
        let before = self.absorb(path, result);
        let (key, form) = match self.locate(path) {
            Some(found) => found,
            None => {
                return ;
            },
        };
        if self.is_candidate(&key) {
            return ;
        }
        proof {
            use_type_invariant(&*self);
            lemma_map_lists_candidates(tracked_views(self.candidates@));
            locating_the_normal_form_is_the_same(
                self@.roots,
                self@.exclusions,
                self@.recursive_exclusions,
                path@,
            );
        }
        if self.candidates.len() >= self.limits.max_files {
            self.note_file_quota();
            return ;
        }
        let ghost held = tracked_views(self.candidates@);
        let ghost earlier = self@;
        let file = TrackedFile { key, candidate: Candidate { path: form, before } };
        let ghost view = file@;
        let ghost longer = held.push(view);
        proof {
            assert(tracked_views(self.candidates@.push(file)) =~= longer);
            assert(longer.drop_last() =~= held);
            assert forall|i: int, j: int| 0 <= i < j < longer.len() implies (
            #[trigger] longer[i]).0 != (#[trigger] longer[j]).0 by {
                assert(held[i].0 == longer[i].0);
                if j < held.len() {
                    assert(held[j].0 == longer[j].0);
                } else {
                    assert(earlier.candidates.contains_key(held[i].0));
                }
            }
            assert forall|i: int| 0 <= i < longer.len() implies located_in(
                earlier,
                (#[trigger] longer[i]).1.path,
            ) == Some(longer[i].0) by {
                if i < held.len() {
                    assert(held[i] == longer[i]);
                }
            }
        }
        let mut candidates: Vec<TrackedFile> = Vec::new();
        assert(tracked_views(candidates@) =~= Seq::empty());
        core::mem::swap(&mut self.candidates, &mut candidates);
        candidates.push(file);
        self.candidates = candidates;
        assert(self@ =~= (StoreView {
            candidates: earlier.candidates.insert(view.0, view.1),
            ..earlier
        }));
    }

    /// Takes in the capture helper's answer for a path after the run and returns the state of
    /// the file.
    pub fn capture_after(&mut self, path: &[u8], result: Result<CaptureOutcome, HelperFailure>) -> (state:
        FileState)
        ensures
            state@ == answered_state(answer(result)),
            final(self)@ == absorbed(old(self)@, path@, answer(result)),
    {
        self.absorb(path, result)
    }

    /// Where the stored content of a file is: nowhere for a file that has none, and an error
    /// where the identifier of its object is not well formed.
    pub fn read_object(&self, state: &FileState) -> (result: Result<Option<Vec<u8>>, String>)
        ensures
            match object_of(self@.output, state@) {
                ObjectPlace::Nowhere => result matches Ok(None),
                ObjectPlace::Misnamed => result matches Err(message) && message@
                    == "invalid object identifier"@,
                ObjectPlace::At(path) => result matches Ok(Some(found)) && found@ == path,
            },
    {
        match state {
            FileState::Present { object } => match object_digest(object.object_id.as_str()) {
                Some(digest) => Ok(Some(object_path(&self.output, digest.as_str()))),
                None => Err("invalid object identifier".to_owned()),
            },
            _ => Ok(None),
        }
    }

    /// The base64 text of a file's path below its root.
    pub fn path_base64(key: &PathKey) -> (text: String)
        ensures
            text@ == base64_text(key.relative@),
            forall|other: Seq<u8>| #[trigger] base64_text(other) == text@ ==> other == key.relative@,
    {
        encode_base64(&key.relative)
    }
}

/// Where the stored content of a file is.
pub enum ObjectPlace {
    Nowhere,
    Misnamed,
    At(Seq<u8>),
}

/// Where the stored content of a file is, below an output directory.
pub open spec fn object_of(output: Seq<u8>, state: FileStateView) -> ObjectPlace {
    match state {
        FileStateView::Present { object } => match digest_in(object.object_id) {
            Some(digest) => ObjectPlace::At(object_path_of(output, digest)),
            None => ObjectPlace::Misnamed,
        },
        _ => ObjectPlace::Nowhere,
    }
}

proof fn lemma_left_out(exclusions: Seq<ExclusionView>, root_id: Seq<char>, relative: Seq<u8>)
    ensures
        excluded_by(exclusions, root_id, relative) == (exists|i: int|
            0 <= i < exclusions.len() && (#[trigger] exclusions[i]).root_id == root_id
                && components_of(exclusions[i].relative).is_prefix_of(components_of(relative))),
{
}

/// The place of a path among the first roots is its place among all.
proof fn lemma_located_stays(
    roots: Seq<RootView>,
    exclusions: Seq<ExclusionView>,
    names: Seq<Seq<char>>,
    path: Seq<u8>,
    length: int,
)
    requires
        0 <= length <= roots.len(),
    ensures
        located(roots.take(length), exclusions, names, path) is Some ==> located(
            roots,
            exclusions,
            names,
            path,
        ) == located(roots.take(length), exclusions, names, path),
    decreases roots.len(),
{
    if length == roots.len() {
        assert(roots.take(length) =~= roots);
    } else {
        assert(roots.drop_last().take(length) =~= roots.take(length));
        lemma_located_stays(roots.drop_last(), exclusions, names, path, length);
    }
}

/// The state of a file before its first change is kept: whatever is captured later, a
/// candidate that is there stays as it is.
pub proof fn the_first_capture_is_kept(
    store: StoreView,
    path: Seq<u8>,
    result: Result<CaptureOutcomeView, HelperFailureView>,
    key: PathKeyView,
)
    requires
        store.candidates.contains_key(key),
    ensures
        completed(store, path, result).candidates.contains_key(key),
        completed(store, path, result).candidates[key] == store.candidates[key],
{
}

/// A gap that was noted stays noted.
pub proof fn gaps_stay_noted(
    store: StoreView,
    path: Seq<u8>,
    result: Result<CaptureOutcomeView, HelperFailureView>,
    gap: GapView,
)
    requires
        store.gaps.contains(gap),
    ensures
        absorbed(store, path, result).gaps.contains(gap),
        completed(store, path, result).gaps.contains(gap),
{
    match result {
        Ok(outcome) => {
            lemma_noting_keeps(store.gaps, outcome.gaps, gap);
        },
        Err(failure) => {
            lemma_noting_one_keeps(
                store.gaps,
                GapView {
                    kind: failure_kind(failure),
                    detail: lossy_text(path) + ": "@ + failure.message,
                },
                gap,
            );
        },
    }
    let next = absorbed(store, path, result);
    lemma_noting_one_keeps(next.gaps, file_quota_gap(next.limits), gap);
}

proof fn lemma_noting_one_keeps(gaps: Seq<GapView>, more: GapView, gap: GapView)
    requires
        gaps.contains(gap),
    ensures
        noted(gaps, more).contains(gap),
{
    let k = choose|k: int| 0 <= k < gaps.len() && gaps[k] == gap;
    assert(noted(gaps, more)[k] == gap);
}

proof fn lemma_noting_keeps(gaps: Seq<GapView>, more: Seq<GapView>, gap: GapView)
    requires
        gaps.contains(gap),
    ensures
        noted_all(gaps, more).contains(gap),
    decreases more.len(),
{
    if more.len() > 0 {
        lemma_noting_keeps(gaps, more.drop_last(), gap);
        lemma_noting_one_keeps(noted_all(gaps, more.drop_last()), more.last(), gap);
    }
}

/// A capture that fails leaves a gap behind, and so does each gap that an answer names.
pub proof fn failures_are_noted(
    store: StoreView,
    path: Seq<u8>,
    result: Result<CaptureOutcomeView, HelperFailureView>,
)
    ensures
        match result {
            Ok(outcome) => forall|i: int|
                0 <= i < outcome.gaps.len() ==> absorbed(store, path, result).gaps.contains(
                    #[trigger] outcome.gaps[i],
                ),
            Err(failure) => {
                &&& answered_state(result) == (FileStateView::Unavailable {
                    reason: failure_kind(failure),
                })
                &&& absorbed(store, path, result).gaps.contains(
                    GapView {
                        kind: failure_kind(failure),
                        detail: lossy_text(path) + ": "@ + failure.message,
                    },
                )
            },
        },
{
    match result {
        Ok(outcome) => {
            lemma_noted_all_holds(store.gaps, outcome.gaps);
        },
        Err(failure) => {
            let gap = GapView {
                kind: failure_kind(failure),
                detail: lossy_text(path) + ": "@ + failure.message,
            };
            if !store.gaps.contains(gap) {
                assert(absorbed(store, path, result).gaps[store.gaps.len() as int] == gap);
            }
        },
    }
}

proof fn lemma_noted_all_holds(gaps: Seq<GapView>, more: Seq<GapView>)
    ensures
        forall|i: int| 0 <= i < more.len() ==> noted_all(gaps, more).contains(#[trigger] more[i]),
    decreases more.len(),
{
    if more.len() > 0 {
        let head = more.drop_last();
        lemma_noted_all_holds(gaps, head);
        let before = noted_all(gaps, head);
        let after = noted_all(gaps, more);
        assert forall|i: int| 0 <= i < more.len() implies after.contains(#[trigger] more[i]) by {
            if i < head.len() {
                assert(head[i] == more[i]);
                lemma_noting_one_keeps(before, more.last(), more[i]);
            } else if !before.contains(more.last()) {
                assert(after[before.len() as int] == more.last());
            }
        }
    }
}

/// Captures that keep to the bytes they are given never take more than the run may.
pub proof fn captured_bytes_stay_within_the_limit(
    store: StoreView,
    path: Seq<u8>,
    journal: Option<PathKeyView>,
    outcome: CaptureOutcomeView,
)
    requires
        store.total_bytes <= store.limits.max_total_bytes,
        outcome.captured_bytes <= request_for(store, path, journal).max_total_bytes,
    ensures
        absorbed(store, path, Ok(outcome)).total_bytes <= store.limits.max_total_bytes,
        absorbed(store, path, Ok(outcome)).total_bytes == store.total_bytes
            + outcome.captured_bytes,
{
}

/// The stored content of a captured file is found where it was stored: the state that its
/// capture reports leads to the place that the digest of the content names.
pub proof fn stored_objects_are_found(output: Seq<u8>, content: Seq<u8>, mode: u32)
    ensures
        object_of(output, present_outcome(mode, content).state) == ObjectPlace::At(
            object_path_of(output, digest_of(content)),
        ),
{
    let lead = "sha256:"@;
    let digest = digest_of(content);
    let id = object_id_of(digest);
    assert(id.subrange(0, lead.len() as int) =~= lead);
    assert(id.skip(lead.len() as int) =~= digest);
}

/// A capture says that a file is not there exactly where looking it up found nothing. Every
/// link is read, and so is every regular file within the limit, however small it is; what is
/// too large, a directory, anything special, and what cannot be looked up is unavailable, with
/// the reason, and a gap where something is missed by it.
pub proof fn everything_that_is_there_is_captured(
    path: &[u8],
    lookup: Lookup,
    max_file_bytes: u64,
    step: CaptureStep,
)
    requires
        call_ensures(capture_one, (path, &lookup, max_file_bytes), step),
    ensures
        step is Done && step->Done_0.state is Absent <==> lookup is Absent,
        step is ReadLink <==> lookup is Found && lookup->Found_0.kind == FileKind::Symlink,
        step is ReadLink ==> step->ReadLink_0 == lookup->Found_0,
        step is ReadFile <==> lookup is Found && lookup->Found_0.kind == FileKind::Regular
            && lookup->Found_0.size <= max_file_bytes,
        step is ReadFile ==> step->ReadFile_0 == lookup->Found_0,
        step is Done ==> !(step->Done_0.state is Present) && step->Done_0.captured_bytes == 0,
        lookup is Absent ==> step->Done_0.gaps@.len() == 0,
        lookup is Failed ==> step is Done && step->Done_0.state is Unavailable
            && step->Done_0.state->reason@ == lookup->Failed_0@ && step->Done_0.gaps@.len() == 0,
        lookup is Found && lookup->Found_0.kind == FileKind::Directory ==> step is Done
            && step->Done_0.state is Unavailable && step->Done_0.state->reason@
            == "directory_not_reported"@ && step->Done_0.gaps@.len() == 0,
        lookup is Found && lookup->Found_0.kind == FileKind::Special ==> step is Done
            && step->Done_0.state is Unavailable && step->Done_0.state->reason@
            == "special_file_not_captured"@ && step->Done_0.gaps@.len() == 1
            && step->Done_0.gaps@[0].kind@ == "special_file"@ && step->Done_0.gaps@[0].detail@
            == lossy_text(path@),
        lookup is Found && lookup->Found_0.kind == FileKind::Regular && lookup->Found_0.size
            > max_file_bytes ==> step is Done && step->Done_0.state is Unavailable
            && step->Done_0.state->reason@ == "file_size_quota"@ && step->Done_0.gaps@.len() == 1
            && step->Done_0.gaps@[0].kind@ == "file_size_quota"@ && step->Done_0.gaps@[0].detail@
            == lossy_text(path@) + " is "@ + decimal(lookup->Found_0.size as int) + " bytes"@,
{
    if step is Done {
        let outcome = step->Done_0;
        assert(outcome@.gaps == gap_views(outcome.gaps@));
        assert(gap_views(outcome.gaps@).len() == outcome.gaps@.len());
        if outcome.gaps@.len() > 0 {
            assert(gap_views(outcome.gaps@)[0] == outcome.gaps@[0]@);
        }
    }
}

/// Content is stored exactly where it was read and fits into what is left of the limit of the
/// run; it is stored as it was read. Otherwise the file is unavailable, with the reason.
pub proof fn content_that_fits_is_stored(
    content: Result<Vec<u8>, String>,
    max_total_bytes: u64,
    step: ContentStep,
)
    requires
        call_ensures(capture_content, (content, max_total_bytes), step),
    ensures
        step is Store <==> content is Ok && content->Ok_0@.len() <= max_total_bytes,
        step is Store ==> step->Store_0@ == content->Ok_0@,
        step is Done ==> step->Done_0.state is Unavailable && step->Done_0.captured_bytes == 0,
        content is Err ==> step is Done && step->Done_0.state->reason@ == content->Err_0@
            && step->Done_0.gaps@.len() == 0,
        content is Ok && content->Ok_0@.len() > max_total_bytes ==> step is Done
            && step->Done_0.state->reason@ == "total_byte_quota"@ && step->Done_0.gaps@.len() == 1
            && step->Done_0.gaps@[0].kind@ == "total_byte_quota"@ && step->Done_0.gaps@[0].detail@
            == "capture byte limit exceeded"@,
{
    if step is Done {
        let outcome = step->Done_0;
        assert(outcome@.gaps == gap_views(outcome.gaps@));
        assert(gap_views(outcome.gaps@).len() == outcome.gaps@.len());
        if outcome.gaps@.len() > 0 {
            assert(gap_views(outcome.gaps@)[0] == outcome.gaps@[0]@);
        }
    }
}

/// A file that was stored is there, under the digest and with the size of its content and with
/// its mode, and its bytes are counted; one that could not be stored is unavailable, and that
/// is a gap.
pub proof fn a_stored_file_is_there(
    path: &[u8],
    facts: FileFacts,
    object: NewObject,
    stored: Result<(), String>,
    outcome: CaptureOutcome,
)
    requires
        call_ensures(capture_stored, (path, &facts, &object, &stored), outcome),
    ensures
        stored is Ok ==> {
            &&& outcome.state is Present
            &&& outcome.state->object.object_id@ == "sha256:"@ + hex(sha256(object@))
            &&& outcome.state->object.size == object@.len()
            &&& outcome.state->object.mode@ == zero_padded(
                digits((facts.mode & 0o177777) as nat, 8),
                6,
            )
            &&& outcome.captured_bytes == object@.len()
            &&& outcome.gaps@.len() == 0
        },
        stored is Err ==> {
            &&& outcome.state is Unavailable
            &&& outcome.state->reason@ == stored->Err_0@
            &&& outcome.captured_bytes == 0
            &&& outcome.gaps@.len() == 1
            &&& outcome.gaps@[0].kind@ == "object_write"@
            &&& outcome.gaps@[0].detail@ == lossy_text(path@) + ": "@ + stored->Err_0@
        },
{
    assert(outcome@.gaps == gap_views(outcome.gaps@));
    assert(gap_views(outcome.gaps@).len() == outcome.gaps@.len());
    if outcome.gaps@.len() > 0 {
        assert(gap_views(outcome.gaps@)[0] == outcome.gaps@[0]@);
    }
}

/// A regular file within the limits, an empty one too, ends as a file that is there with the
/// digest and the size of its content, where it is read and stored.
pub proof fn a_readable_file_ends_as_present(
    path: &[u8],
    facts: FileFacts,
    max_file_bytes: u64,
    max_total_bytes: u64,
    content: Vec<u8>,
    step: CaptureStep,
    next: ContentStep,
    outcome: CaptureOutcome,
)
    requires
        facts.kind == FileKind::Regular,
        facts.size <= max_file_bytes,
        content@.len() <= max_total_bytes,
        call_ensures(capture_one, (path, &Lookup::Found(facts), max_file_bytes), step),
        call_ensures(capture_content, (Ok(content), max_total_bytes), next),
        next is Store ==> call_ensures(
            capture_stored,
            (path, &facts, &next->Store_0, &Ok(())),
            outcome,
        ),
    ensures
        step == CaptureStep::ReadFile(facts),
        next is Store,
        outcome.state is Present,
        outcome.state->object.object_id@ == "sha256:"@ + hex(sha256(content@)),
        outcome.state->object.size == content@.len(),
        outcome.captured_bytes == content@.len(),
{
}

/// Objects lie in their directory below the output under their digest, and an identifier names
/// a digest exactly where it is `sha256:` and the digest.
pub proof fn identifiers_name_their_digests(
    output: &[u8],
    digest: &str,
    path: Vec<u8>,
    object_id: &str,
    found: Option<String>,
)
    requires
        call_ensures(object_path, (output, digest), path),
        call_ensures(object_digest, (object_id,), found),
    ensures
        path@ == joined(joined(output@, encode_utf8("objects"@)), encode_utf8(digest@)),
        found is Some ==> object_id@ == "sha256:"@ + found->0@,
        object_id@ == "sha256:"@ + digest@ ==> found is Some && found->0@ == digest@,
        found is None ==> forall|rest: Seq<char>| object_id@ != #[trigger] ("sha256:"@ + rest),
{
    let lead = "sha256:"@;
    if found is Some {
        assert(object_id@ =~= lead + object_id@.skip(lead.len() as int));
    }
    assert forall|rest: Seq<char>| object_id@ == #[trigger] (lead + rest) implies digest_in(
        object_id@,
    ) == Some(rest) by {
        assert(object_id@.subrange(0, lead.len() as int) =~= lead);
        assert(object_id@.skip(lead.len() as int) =~= rest);
    }
}

/// The content of a state is read from the place of its object: nowhere where the file was not
/// there or not captured, and an identifier that names no digest is an error.
pub proof fn contents_are_read_from_their_objects(
    store: CaptureStore,
    state: FileState,
    result: Result<Option<Vec<u8>>, String>,
    digest: Seq<char>,
)
    requires
        call_ensures(CaptureStore::read_object, (&store, &state), result),
    ensures
        !(state is Present) ==> result is Ok && result->Ok_0 is None,
        state is Present && state->object.object_id@ == "sha256:"@ + digest ==> result is Ok
            && result->Ok_0 is Some && result->Ok_0->0@ == joined(
            joined(store@.output, encode_utf8("objects"@)),
            encode_utf8(digest),
        ),
        state is Present && (forall|rest: Seq<char>|
            state->object.object_id@ != #[trigger] ("sha256:"@ + rest)) ==> result is Err
            && result->Err_0@ == "invalid object identifier"@,
{
    let lead = "sha256:"@;
    if state is Present {
        let id = state->object.object_id@;
        if id == lead + digest {
            assert(id.subrange(0, lead.len() as int) =~= lead);
            assert(id.skip(lead.len() as int) =~= digest);
        }
        if digest_in(id) is Some {
            assert(id =~= lead + id.skip(lead.len() as int));
        }
    }
}

/// While the capture helper has time left it is waited for, a millisecond at least and fifty at
/// most, and no longer than the time left where that is a millisecond or more.
pub proof fn the_helper_is_waited_for(elapsed: u128, timeout: u128, wait: HelperWait)
    requires
        call_ensures(helper_wait, (elapsed, timeout), wait),
    ensures
        wait is TimedOut <==> elapsed >= timeout,
        wait is TimedOut ==> wait->TimedOut_0.timed_out && wait->TimedOut_0.message@
            == "capture helper timed out"@,
        wait is Poll ==> {
            let millis = wait->Poll_0;
            let left = timeout - elapsed;
            &&& 1 <= millis <= 50
            &&& millis > 1 ==> millis * 1_000_000 <= left
            &&& millis < 50 ==> left < (millis + 1) * 1_000_000
        },
{
}

/// A span of time in milliseconds is the whole number of them, as far as numbers go.
pub proof fn milliseconds_are_whole(nanos: u128, millis: u64)
    requires
        call_ensures(clamp_millis, (nanos,), millis),
    ensures
        millis * 1_000_000 <= nanos,
        millis < u64::MAX ==> nanos < (millis + 1) * 1_000_000,
{
}

/// A gap is noted once: it is there then, what was there stays where it was, and nothing else
/// is added.
pub proof fn a_gap_is_noted_once(gaps: Seq<GapView>, gap: GapView)
    ensures
        noted(gaps, gap).contains(gap),
        gaps.is_prefix_of(noted(gaps, gap)),
        gaps.contains(gap) ==> noted(gaps, gap) == gaps,
        !gaps.contains(gap) ==> noted(gaps, gap).len() == gaps.len() + 1,
        forall|other: GapView| #[trigger]
            noted(gaps, gap).contains(other) ==> gaps.contains(other) || other == gap,
        gaps.no_duplicates() ==> noted(gaps, gap).no_duplicates(),
{
    let next = noted(gaps, gap);
    assert(gaps =~= next.subrange(0, gaps.len() as int));
    if !gaps.contains(gap) {
        assert(next[gaps.len() as int] == gap);
    }
    assert forall|other: GapView| #[trigger] next.contains(other) implies gaps.contains(other)
        || other == gap by {
        let k = choose|k: int| 0 <= k < next.len() && next[k] == other;
        if k < gaps.len() {
            assert(gaps[k] == other);
        }
    }
}

/// The gaps of an answer are noted with those that are there, and no other ones.
pub proof fn gaps_are_noted_together(gaps: Seq<GapView>, more: Seq<GapView>)
    ensures
        gaps.is_prefix_of(noted_all(gaps, more)),
        forall|gap: GapView| #[trigger]
            noted_all(gaps, more).contains(gap) <==> gaps.contains(gap) || more.contains(gap),
        gaps.no_duplicates() ==> noted_all(gaps, more).no_duplicates(),
    decreases more.len(),
{
    if more.len() == 0 {
        assert(gaps =~= gaps.subrange(0, gaps.len() as int));
    } else {
        let head = more.drop_last();
        let earlier = noted_all(gaps, head);
        let all = noted_all(gaps, more);
        gaps_are_noted_together(gaps, head);
        a_gap_is_noted_once(earlier, more.last());
        assert(gaps =~= all.subrange(0, gaps.len() as int)) by {
            assert forall|k: int| 0 <= k < gaps.len() implies gaps[k] == all[k] by {
                assert(gaps[k] == earlier.subrange(0, gaps.len() as int)[k]);
                assert(earlier[k] == all.subrange(0, earlier.len() as int)[k]);
            }
        }
        assert forall|gap: GapView| #[trigger] all.contains(gap) <==> gaps.contains(gap)
            || more.contains(gap) by {
            if more.contains(gap) {
                let k = choose|k: int| 0 <= k < more.len() && more[k] == gap;
                if k < head.len() {
                    assert(head[k] == gap);
                }
            }
            if head.contains(gap) {
                let k = choose|k: int| 0 <= k < head.len() && head[k] == gap;
                assert(more[k] == gap);
            }
            if gap == more.last() {
                assert(more[more.len() - 1] == gap);
            }
            if earlier.contains(gap) {
                lemma_noting_one_keeps(earlier, more.last(), gap);
            }
        }
    }
}

/// An answer of the capture helper adds its bytes and its gaps, and its state is the file's; a
/// failure makes the file unavailable and is noted, by whether it is one of time. Nothing else
/// of the store changes.
pub proof fn an_answer_adds_what_it_says(
    store: StoreView,
    path: Seq<u8>,
    result: Result<CaptureOutcomeView, HelperFailureView>,
)
    ensures
        ({
            let next = absorbed(store, path, result);
            &&& next.candidates == store.candidates
            &&& next.output == store.output
            &&& next.roots == store.roots
            &&& next.exclusions == store.exclusions
            &&& next.recursive_exclusions == store.recursive_exclusions
            &&& next.limits == store.limits
            &&& store.gaps.is_prefix_of(next.gaps)
            &&& result is Ok ==> {
                &&& answered_state(result) == result->Ok_0.state
                &&& next.total_bytes == store.total_bytes + result->Ok_0.captured_bytes
                    || next.total_bytes == u64::MAX <= store.total_bytes
                    + result->Ok_0.captured_bytes
                &&& forall|gap: GapView| #[trigger]
                    next.gaps.contains(gap) <==> store.gaps.contains(gap)
                        || result->Ok_0.gaps.contains(gap)
            }
            &&& result is Err ==> {
                let kind = if result->Err_0.timed_out {
                    "capture_timeout"@
                } else {
                    "capture_helper"@
                };
                &&& answered_state(result) == (FileStateView::Unavailable { reason: kind })
                &&& next.total_bytes == store.total_bytes
                &&& forall|gap: GapView| #[trigger]
                    next.gaps.contains(gap) <==> store.gaps.contains(gap) || gap == (GapView {
                        kind,
                        detail: lossy_text(path) + ": "@ + result->Err_0.message,
                    })
            }
        }),
{
    match result {
        Ok(outcome) => {
            gaps_are_noted_together(store.gaps, outcome.gaps);
        },
        Err(failure) => {
            let gap = GapView {
                kind: failure_kind(failure),
                detail: lossy_text(path) + ": "@ + failure.message,
            };
            a_gap_is_noted_once(store.gaps, gap);
            assert forall|other: GapView| #[trigger]
                noted(store.gaps, gap).contains(other) <==> store.gaps.contains(other) || other
                == gap by {
                if store.gaps.contains(other) {
                    lemma_noting_one_keeps(store.gaps, gap, other);
                }
            }
        },
    }
}

/// The end of a capture gives a tracked file its candidate, with the state that was captured
/// and the normal form of its path, where it has none yet and there is room; it gives no other
/// file one.
pub proof fn a_captured_file_becomes_a_candidate(
    store: StoreView,
    path: Seq<u8>,
    result: Result<CaptureOutcomeView, HelperFailureView>,
)
    ensures
        ({
            let next = completed(store, path, result);
            let key = located_in(store, path);
            let fresh = key is Some && !store.candidates.contains_key(key->0)
                && store.candidates.dom().len() < store.limits.max_files;
            &&& fresh ==> {
                &&& next.candidates == store.candidates.insert(
                    key->0,
                    CandidateView {
                        path: normalized(path),
                        before: if result is Ok {
                            result->Ok_0.state
                        } else {
                            FileStateView::Unavailable {
                                reason: if result->Err_0.timed_out {
                                    "capture_timeout"@
                                } else {
                                    "capture_helper"@
                                },
                            }
                        },
                    },
                )
            }
            &&& !fresh ==> next.candidates == store.candidates
            &&& next.total_bytes == absorbed(store, path, result).total_bytes
            &&& next.roots == store.roots && next.exclusions == store.exclusions
                && next.recursive_exclusions == store.recursive_exclusions
        }),
{
}

/// The order to capture a path names the output and the path so that they can be read back, and
/// leaves no more bytes than the run may still capture.
pub proof fn an_order_leaves_what_is_left(
    store: CaptureStore,
    path: &[u8],
    journal: Option<PathKey>,
    request: CaptureRequest,
)
    requires
        call_ensures(CaptureStore::capture_request, (&store, path, journal), request),
    ensures
        request.output_base64@ == base64_text(store@.output),
        request.path_base64@ == base64_text(path@),
        request.max_file_bytes == store@.limits.max_file_bytes,
        store@.total_bytes <= store@.limits.max_total_bytes ==> request.max_total_bytes
            + store@.total_bytes == store@.limits.max_total_bytes,
        store@.total_bytes > store@.limits.max_total_bytes ==> request.max_total_bytes == 0,
        request.delay_millis * 1_000_000 <= store@.capture_helper_delay,
        request.delay_millis < u64::MAX ==> store@.capture_helper_delay < (request.delay_millis + 1)
            * 1_000_000,
        request.journal is Some <==> journal is Some,
        journal is Some ==> request.journal->0.root_id@ == journal->0.root_id@
            && request.journal->0.relative@ == journal->0.relative@,
{
    assert(request@.journal == key_of(journal));
}

/// A path is tracked exactly where it lies below a root and is neither the root itself nor below
/// an excluded path of that root nor in anything with an excluded name; it is then known by the
/// root and by its path below it.
pub proof fn a_tracked_file_is_known_by_its_root(
    roots: Seq<RootView>,
    exclusions: Seq<ExclusionView>,
    names: Seq<Seq<char>>,
    path: Seq<u8>,
)
    ensures
        match located(roots, exclusions, names, path) {
            Some(key) => exists|i: int| #[trigger] is_tracked_at(roots, exclusions, names, path, i, key),
            None => forall|i: int, key: PathKeyView| !#[trigger]
                is_tracked_at(roots, exclusions, names, path, i, key),
        },
    decreases roots.len(),
{
    if roots.len() > 0 {
        let head = roots.drop_last();
        let last = roots.len() - 1;
        a_tracked_file_is_known_by_its_root(head, exclusions, names, path);
        lemma_tracked_in(roots, exclusions, names, path, last);
        match located(head, exclusions, names, path) {
            Some(key) => {
                let i = choose|i: int| #[trigger]
                    is_tracked_at(head, exclusions, names, path, i, key);
                assert(head[i] == roots[i]);
                assert(is_tracked_at(roots, exclusions, names, path, i, key));
            },
            None => {
                match tracked_in(roots.last(), exclusions, names, path) {
                    Some(key) => {
                        assert(is_tracked_at(roots, exclusions, names, path, last, key));
                    },
                    None => {
                        assert forall|i: int, key: PathKeyView| !#[trigger]
                            is_tracked_at(roots, exclusions, names, path, i, key) by {
                            if 0 <= i < head.len() {
                                assert(head[i] == roots[i]);
                                assert(!is_tracked_at(head, exclusions, names, path, i, key));
                            }
                        }
                    },
                }
            },
        }
    }
}

/// The path lies below the root at a position, where nothing leaves it out, and is known there
/// by the key: the components of the path are those of the root and, behind them, the names of
/// the key's path.
pub open spec fn is_tracked_at(
    roots: Seq<RootView>,
    exclusions: Seq<ExclusionView>,
    names: Seq<Seq<char>>,
    path: Seq<u8>,
    i: int,
    key: PathKeyView,
) -> bool {
    &&& 0 <= i < roots.len()
    &&& key.root_id == roots[i].id
    &&& key.relative.len() > 0
    &&& below(lexical(components_of(path)), components_of(roots[i].path)) is Some
    &&& key.relative == rendered(
        below(lexical(components_of(path)), components_of(roots[i].path))->0,
    )
    &&& forall|k: int|
        0 <= k < exclusions.len() ==> !((#[trigger] exclusions[k]).root_id == roots[i].id
            && components_of(exclusions[k].relative).is_prefix_of(components_of(key.relative)))
    &&& forall|k: int|
        0 <= k < names.len() ==> !components_of(key.relative).contains(
            ComponentView::Normal(encode_utf8(#[trigger] names[k])),
        )
}

proof fn lemma_tracked_in(
    roots: Seq<RootView>,
    exclusions: Seq<ExclusionView>,
    names: Seq<Seq<char>>,
    path: Seq<u8>,
    i: int,
)
    requires
        0 <= i < roots.len(),
    ensures
        match tracked_in(roots[i], exclusions, names, path) {
            Some(key) => is_tracked_at(roots, exclusions, names, path, i, key),
            None => forall|key: PathKeyView| !#[trigger]
                is_tracked_at(roots, exclusions, names, path, i, key),
        },
{
    let root = roots[i];
    match below(lexical(components_of(path)), components_of(root.path)) {
        None => {},
        Some(rest) => {
            let relative = rendered(rest);
            lemma_left_out(exclusions, root.id, relative);
        },
    }
}

/// The journal names the file and the state that was captured of it.
pub proof fn the_journal_tells_the_first_state(key: PathKey, state: FileState, entry: JournalEntry)
    requires
        call_ensures(journal_entry, (&key, &state), entry),
    ensures
        entry.event@ == "before_captured"@,
        entry.root_id@ == key.root_id@,
        entry.path_bytes_base64@ == base64_text(key.relative@),
        entry.before is Absent <==> state is Absent,
        entry.before is Present <==> state is Present,
        state is Present ==> entry.before->object.object_id@ == state->object.object_id@
            && entry.before->object.size == state->object.size && entry.before->object.mode@
            == state->object.mode@,
        state is Unavailable ==> entry.before->reason@ == state->reason@,
{
}

/// A journal that cannot be written adds one gap to the outcome and changes nothing else of it.
pub proof fn a_failed_journal_is_a_gap(
    outcome: CaptureOutcome,
    message: String,
    result: CaptureOutcome,
)
    requires
        call_ensures(journal_failed, (outcome, message), result),
    ensures
        result.state@ == outcome.state@,
        result.captured_bytes == outcome.captured_bytes,
        result.gaps@.len() == outcome.gaps@.len() + 1,
        result.gaps@.last().kind@ == "journal_write"@,
        result.gaps@.last().detail@ == message@,
        forall|i: int|
            0 <= i < outcome.gaps@.len() ==> (#[trigger] result.gaps@[i])@ == outcome.gaps@[i]@,
{
    let held = gap_views(outcome.gaps@);
    let all = gap_views(result.gaps@);
    assert(all.len() == result.gaps@.len() && held.len() == outcome.gaps@.len());
    assert(all[held.len() as int] == result.gaps@.last()@);
    assert forall|i: int| 0 <= i < outcome.gaps@.len() implies (#[trigger] result.gaps@[i])@
        == outcome.gaps@[i]@ by {
        assert(all[i] == result.gaps@[i]@ && held[i] == outcome.gaps@[i]@);
    }
}

/// What was read of an answer of the capture helper is collected: it is complete exactly where a
/// newline ends it, which is taken off, and there is none where it is too long or its source ends
/// or fails; an interrupted read is repeated.
pub proof fn an_answer_ends_with_a_newline(
    response: &mut Vec<u8>,
    event: ResponseEvent,
    step: ResponseStep,
)
    requires
        call_ensures(drain_response, (response, &event), step),
    ensures
        event is Data ==> {
            let whole = old(response)@ + event->Data_0@;
            let long = whole.len() > 1_048_576;
            let ended = whole.len() > 0 && whole.last() == 10;
            &&& step is Failed <==> long
            &&& step is Complete <==> !long && ended
            &&& step is ReadOn <==> !long && !ended
            &&& step is Complete ==> final(response)@.push(10u8) == whole
            &&& step is ReadOn ==> final(response)@ == whole
        },
        event is WouldBlock ==> step is Wait && final(response)@ == old(response)@,
        event is Interrupted ==> step is ReadOn && final(response)@ == old(response)@,
        event is Closed ==> step is Failed && step->Failed_0.message@
            == "capture helper closed stdout"@,
        event is Failed ==> step is Failed && step->Failed_0.message@ == event->Failed_0@,
        step is Failed ==> !step->Failed_0.timed_out,
{
    if event is Data {
        let whole = old(response)@ + event->Data_0@;
        if whole.len() > 0 {
            assert(whole.drop_last().push(whole.last()) =~= whole);
        }
    }
}

/// A capture begins before a file changes exactly where the file is tracked, has no candidate and
/// there is room for one. It is for that file, at the normal form of its path, and goes to the
/// journal; nothing of the store changes but that missing room is noted.
pub proof fn a_capture_begins_where_it_is_wanted(
    store: &mut CaptureStore,
    path: &[u8],
    pending: Option<PendingCapture>,
)
    requires
        call_ensures(CaptureStore::capture_before, (store, path), pending),
    ensures
        ({
            let key = located_in(old(store)@, path@);
            let fresh = key is Some && !old(store)@.candidates.contains_key(key->0);
            let room = old(store)@.candidates.dom().len() < old(store)@.limits.max_files;
            &&& pending is Some <==> fresh && room
            &&& pending is Some ==> {
                &&& pending->0.key@ == key->0
                &&& pending->0.path@ == normalized(path@)
                &&& pending->0.request.path_base64@ == base64_text(normalized(path@))
                &&& pending->0.request.output_base64@ == base64_text(old(store)@.output)
                &&& pending->0.request.journal is Some
                &&& pending->0.request.journal->0@ == key->0
            }
            &&& !(fresh && !room) ==> final(store)@ == old(store)@
            &&& fresh && !room ==> final(store)@.gaps == noted(
                old(store)@.gaps,
                GapView {
                    kind: "file_quota"@,
                    detail: "candidate limit "@ + decimal(old(store)@.limits.max_files as int)
                        + " exceeded"@,
                },
            ) && final(store)@.candidates == old(store)@.candidates
        }),
{
    if pending is Some {
        assert(pending->0.request@.journal == key_of(pending->0.request.journal));
    }
}

/// A capture that is ended gives the file the state that was captured, where it has none yet.
pub proof fn an_ended_capture_is_remembered(
    store: &mut CaptureStore,
    path: &[u8],
    result: Result<CaptureOutcome, HelperFailure>,
)
    requires
        call_ensures(CaptureStore::complete_before, (store, path, result), ()),
    ensures
        ({
            let key = located_in(old(store)@, path@);
            let fresh = key is Some && !old(store)@.candidates.contains_key(key->0)
                && old(store)@.candidates.dom().len() < old(store)@.limits.max_files;
            &&& fresh && result is Ok ==> final(store)@.candidates == old(store)@.candidates.insert(
                key->0,
                CandidateView { path: normalized(path@), before: result->Ok_0.state@ },
            )
            &&& fresh && result is Err ==> final(store)@.candidates.contains_key(key->0)
                && final(store)@.candidates[key->0].before is Unavailable
            &&& !fresh ==> final(store)@.candidates == old(store)@.candidates
            &&& result is Ok && old(store)@.total_bytes + result->Ok_0.captured_bytes <= u64::MAX
                ==> final(store)@.total_bytes == old(store)@.total_bytes
                + result->Ok_0.captured_bytes
        }),
{
}

/// The state of a file after the run is the one that was captured; a failed capture makes it
/// unavailable.
pub proof fn the_state_after_is_the_one_captured(
    store: &mut CaptureStore,
    path: &[u8],
    result: Result<CaptureOutcome, HelperFailure>,
    state: FileState,
)
    requires
        call_ensures(CaptureStore::capture_after, (store, path, result), state),
    ensures
        result is Ok ==> state@ == result->Ok_0.state@,
        result is Err ==> state is Unavailable && state->reason@ == if result->Err_0.timed_out {
            "capture_timeout"@
        } else {
            "capture_helper"@
        },
        final(store)@.candidates == old(store)@.candidates,
        final(store)@ == absorbed(old(store)@, path@, answer(result)),
{
}

/// A gap that is noted is there then, once, and nothing else of the store changes.
pub proof fn a_noted_gap_is_there(store: &mut CaptureStore, kind: String, detail: String)
    requires
        call_ensures(CaptureStore::gap, (store, kind, detail), ()),
    ensures
        final(store)@.gaps.contains(GapView { kind: kind@, detail: detail@ }),
        old(store)@.gaps.is_prefix_of(final(store)@.gaps),
        old(store)@.gaps.contains(GapView { kind: kind@, detail: detail@ }) ==> final(store)@.gaps
            == old(store)@.gaps,
        final(store)@.gaps.len() <= old(store)@.gaps.len() + 1,
        final(store)@.candidates == old(store)@.candidates,
        final(store)@.total_bytes == old(store)@.total_bytes,
{
    a_gap_is_noted_once(old(store)@.gaps, GapView { kind: kind@, detail: detail@ });
}

/// A path is located as the file that it names, with the normal form of the path.
pub proof fn a_path_is_located_as_its_file(
    store: CaptureStore,
    path: &[u8],
    result: Option<(PathKey, Vec<u8>)>,
)
    requires
        call_ensures(CaptureStore::locate, (&store, path), result),
    ensures
        result is Some ==> (result->0).1@ == normalized(path@) && exists|i: int| #[trigger]
            is_tracked_at(
                store@.roots,
                store@.exclusions,
                store@.recursive_exclusions,
                path@,
                i,
                (result->0).0@,
            ),
        result is None ==> forall|i: int, key: PathKeyView| !#[trigger]
            is_tracked_at(
                store@.roots,
                store@.exclusions,
                store@.recursive_exclusions,
                path@,
                i,
                key,
            ),
{
    a_tracked_file_is_known_by_its_root(
        store@.roots,
        store@.exclusions,
        store@.recursive_exclusions,
        path@,
    );
}

/// An order names the two paths that it is made with, and they are read back from it.
pub proof fn an_order_is_read_back(
    output: &[u8],
    path: &[u8],
    max_file_bytes: u64,
    max_total_bytes: u64,
    delay: u128,
    journal: Option<PathKey>,
    request: CaptureRequest,
    result: Result<(Vec<u8>, Vec<u8>), String>,
)
    requires
        call_ensures(
            CaptureRequest::new,
            (output, path, max_file_bytes, max_total_bytes, delay, journal),
            request,
        ),
        call_ensures(CaptureRequest::paths, (&request,), result),
    ensures
        result is Ok,
        result->Ok_0.0@ == output@,
        result->Ok_0.1@ == path@,
        request.max_file_bytes == max_file_bytes,
        request.max_total_bytes == max_total_bytes,
        request.delay_millis * 1_000_000 <= delay,
{
    assert(request@.output_base64 == base64_text(output@));
    assert(request@.path_base64 == base64_text(path@));
}

/// A path is brought into normal form by following its components.
pub proof fn a_normal_form_follows_the_components(path: &[u8], result: Vec<u8>)
    requires
        call_ensures(normalize, (path,), result),
    ensures
        result@ == rendered(lexical(components_of(path@))),
{
}

} // verus!
