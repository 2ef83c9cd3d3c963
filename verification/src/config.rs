//! What a run is told to do: the tracked roots, what is left out of them, where the results
//! go, and the limits that hold.
use crate::contracts::{copy_texts, texts};
use crate::order::{
    bytes_at_most, bytes_le, bytes_le_antisymmetric, bytes_le_total, key_le, key_le_antisymmetric,
    key_le_between_prefix, key_le_prefix, key_le_reflexive, rearranged, same_bytes, sort_by_key,
    sorted_by_key, Keyed,
};
use crate::paths::{
    component_views, components, components_key, components_of, copy_bytes, file_name, file_name_of,
    is_absolute, is_absolute_path, is_name, join, joined, keys_extend_like_components, lexical_path,
    normalized, normalizing_twice_changes_nothing, parent, parent_of, path_at_most, render,
    starts_with, Component, DOT, SEPARATOR,
};
use crate::text::{
    characters, concat2, decimal, decimal_text, encoding_determines_text, lossy, lossy_text, same_text,
    split_at_equals, split_equals,
};
use vstd::prelude::*;
use vstd::utf8::encode_utf8;

verus! {

/// A directory whose files are tracked.
#[verifier::ext_equal]
pub struct RootView {
    pub id: Seq<char>,
    pub path: Seq<u8>,
}

/// A directory whose files are tracked.
#[derive(Debug)]
pub struct Root {
    pub id: String,
    pub path: Vec<u8>,
}

impl View for Root {
    type V = RootView;

    open spec fn view(&self) -> RootView {
        RootView { id: self.id@, path: self.path@ }
    }
}

impl Clone for Root {
    fn clone(&self) -> (copy: Self)
        ensures
            copy@ == self@,
    {
        Root { id: self.id.clone(), path: copy_bytes(&self.path) }
    }
}

/// The views of a list of roots.
pub open spec fn root_views(roots: Seq<Root>) -> Seq<RootView> {
    roots.map_values(|root: Root| root@)
}

/// The order of paths, component by component.
pub open spec fn path_key(path: Seq<u8>) -> Seq<Seq<u8>> {
    components_key(components_of(path))
}

impl Keyed for Root {
    open spec fn key(&self) -> Seq<Seq<u8>> {
        path_key(self.path@)
    }

    fn at_most(&self, other: &Self) -> (result: bool) {
        path_at_most(&self.path, &other.path)
    }
}

/// A subtree of one root that is left out.
#[verifier::ext_equal]
pub struct ExclusionView {
    pub root_id: Seq<char>,
    pub relative: Seq<u8>,
}

/// A subtree of one root that is left out.
#[derive(Debug, PartialEq, Eq)]
pub struct Exclusion {
    pub root_id: String,
    pub relative: Vec<u8>,
}

impl View for Exclusion {
    type V = ExclusionView;

    open spec fn view(&self) -> ExclusionView {
        ExclusionView { root_id: self.root_id@, relative: self.relative@ }
    }
}

impl Clone for Exclusion {
    fn clone(&self) -> (copy: Self)
        ensures
            copy@ == self@,
    {
        Exclusion { root_id: self.root_id.clone(), relative: copy_bytes(&self.relative) }
    }
}

/// The views of a list of exclusions.
pub open spec fn exclusion_views(list: Seq<Exclusion>) -> Seq<ExclusionView> {
    list.map_values(|item: Exclusion| item@)
}

/// How much a run may capture.
#[derive(Debug, Clone, Copy)]
pub struct Limits {
    pub max_files: usize,
    pub max_file_bytes: u64,
    pub max_total_bytes: u64,
    pub max_diff_bytes: usize,
}

/// The number of files that are captured where nothing else is said.
pub const DEFAULT_MAX_FILES: usize = 10_000;

/// The size of a file that is captured where nothing else is said.
pub const DEFAULT_MAX_FILE_BYTES: u64 = 33_554_432;

/// The bytes that are captured in all where nothing else is said.
pub const DEFAULT_MAX_TOTAL_BYTES: u64 = 268_435_456;

/// The bytes of one file's diff where nothing else is said.
pub const DEFAULT_MAX_DIFF_BYTES: usize = 2_097_152;

impl Default for Limits {
    fn default() -> (limits: Self)
        ensures
            limits.max_files == DEFAULT_MAX_FILES,
            limits.max_file_bytes == DEFAULT_MAX_FILE_BYTES,
            limits.max_total_bytes == DEFAULT_MAX_TOTAL_BYTES,
            limits.max_diff_bytes == DEFAULT_MAX_DIFF_BYTES,
    {
        Limits {
            max_files: DEFAULT_MAX_FILES,
            max_file_bytes: DEFAULT_MAX_FILE_BYTES,
            max_total_bytes: DEFAULT_MAX_TOTAL_BYTES,
            max_diff_bytes: DEFAULT_MAX_DIFF_BYTES,
        }
    }
}

/// Everything that a run is told. Spans of time are in nanoseconds.
#[derive(Debug)]
pub struct RunConfig {
    pub roots: Vec<Root>,
    pub exclusions: Vec<Exclusion>,
    pub recursive_exclusions: Vec<String>,
    pub output: Vec<u8>,
    pub command: Vec<Vec<u8>>,
    pub limits: Limits,
    pub capture_workers: usize,
    pub notification_queue: usize,
    pub finish_fd: Option<i32>,
    pub termination_grace: u128,
    pub capture_timeout: u128,
    pub capture_helper_delay: u128,
}

/// Why a configuration is refused.
pub enum ConfigErrorView {
    InvalidRoot(Seq<char>),
    InvalidRootId(Seq<char>),
    DuplicateRootId(Seq<char>),
    InvalidExclusion(Seq<char>),
    UnknownExclusionRoot(Seq<char>),
    InvalidExclusionPath(Seq<char>),
    InvalidRecursiveExclusion(Seq<char>),
    RootIo { path: Seq<u8>, source: Seq<char> },
    OverlappingRoots(Seq<u8>, Seq<u8>),
    OutputExists(Seq<u8>),
    OutputInsideRoot(Seq<u8>),
    MissingCommand,
    PolicyTooLarge,
    UnsupportedPolicyVersion(u32),
}

/// Why a configuration is refused.
#[derive(Debug)]
pub enum ConfigError {
    InvalidRoot(String),
    InvalidRootId(String),
    DuplicateRootId(String),
    InvalidExclusion(String),
    UnknownExclusionRoot(String),
    InvalidExclusionPath(String),
    InvalidRecursiveExclusion(String),
    RootIo { path: Vec<u8>, source: String },
    OverlappingRoots(Vec<u8>, Vec<u8>),
    OutputExists(Vec<u8>),
    OutputInsideRoot(Vec<u8>),
    MissingCommand,
    PolicyTooLarge,
    UnsupportedPolicyVersion(u32),
}

impl View for ConfigError {
    type V = ConfigErrorView;

    open spec fn view(&self) -> ConfigErrorView {
        match self {
            ConfigError::InvalidRoot(value) => ConfigErrorView::InvalidRoot(value@),
            ConfigError::InvalidRootId(id) => ConfigErrorView::InvalidRootId(id@),
            ConfigError::DuplicateRootId(id) => ConfigErrorView::DuplicateRootId(id@),
            ConfigError::InvalidExclusion(value) => ConfigErrorView::InvalidExclusion(value@),
            ConfigError::UnknownExclusionRoot(id) => ConfigErrorView::UnknownExclusionRoot(id@),
            ConfigError::InvalidExclusionPath(path) => ConfigErrorView::InvalidExclusionPath(path@),
            ConfigError::InvalidRecursiveExclusion(name) => {
                ConfigErrorView::InvalidRecursiveExclusion(name@)
            },
            ConfigError::RootIo { path, source } => ConfigErrorView::RootIo {
                path: path@,
                source: source@,
            },
            ConfigError::OverlappingRoots(a, b) => ConfigErrorView::OverlappingRoots(a@, b@),
            ConfigError::OutputExists(path) => ConfigErrorView::OutputExists(path@),
            ConfigError::OutputInsideRoot(path) => ConfigErrorView::OutputInsideRoot(path@),
            ConfigError::MissingCommand => ConfigErrorView::MissingCommand,
            ConfigError::PolicyTooLarge => ConfigErrorView::PolicyTooLarge,
            ConfigError::UnsupportedPolicyVersion(version) => {
                ConfigErrorView::UnsupportedPolicyVersion(*version)
            },
        }
    }
}

/// What is said of a refused configuration.
pub open spec fn config_message(error: ConfigErrorView) -> Seq<char> {
    match error {
        ConfigErrorView::InvalidRoot(value) => "root must use ID=PATH syntax: "@ + value,
        ConfigErrorView::InvalidRootId(id) => {
            "root ID must contain only ASCII letters, digits, '_' or '-': "@ + id
        },
        ConfigErrorView::DuplicateRootId(id) => "duplicate root ID: "@ + id,
        ConfigErrorView::InvalidExclusion(value) => {
            "exclusion must use ROOT_ID=RELATIVE_PATH syntax: "@ + value
        },
        ConfigErrorView::UnknownExclusionRoot(id) => "exclusion references unknown root ID: "@ + id,
        ConfigErrorView::InvalidExclusionPath(path) => {
            "exclusion path must be a non-empty normalized relative path: "@ + path
        },
        ConfigErrorView::InvalidRecursiveExclusion(name) => {
            "recursive exclusion must be one path component: "@ + name
        },
        ConfigErrorView::RootIo { path, source } => "cannot resolve root "@ + lossy_text(path)
            + ": "@ + source,
        ConfigErrorView::OverlappingRoots(a, b) => "roots overlap: "@ + lossy_text(a) + " and "@
            + lossy_text(b),
        ConfigErrorView::OutputExists(path) => "output already exists: "@ + lossy_text(path),
        ConfigErrorView::OutputInsideRoot(path) => {
            "output cannot be inside a tracked root: "@ + lossy_text(path)
        },
        ConfigErrorView::MissingCommand => "no command provided after --"@,
        ConfigErrorView::PolicyTooLarge => "policy file exceeds 16 MiB"@,
        ConfigErrorView::UnsupportedPolicyVersion(version) => {
            "unsupported policy schemaVersion: "@ + decimal(version as int)
        },
    }
}

impl ConfigError {
    /// What is said of a refused configuration.
    pub fn message(&self) -> (text: String)
        ensures
            text@ == config_message(self@),
    {
        match self {
            ConfigError::InvalidRoot(value) => concat2(
                "root must use ID=PATH syntax: ",
                value.as_str(),
            ),
            ConfigError::InvalidRootId(id) => concat2(
                "root ID must contain only ASCII letters, digits, '_' or '-': ",
                id.as_str(),
            ),
            ConfigError::DuplicateRootId(id) => concat2("duplicate root ID: ", id.as_str()),
            ConfigError::InvalidExclusion(value) => concat2(
                "exclusion must use ROOT_ID=RELATIVE_PATH syntax: ",
                value.as_str(),
            ),
            ConfigError::UnknownExclusionRoot(id) => concat2(
                "exclusion references unknown root ID: ",
                id.as_str(),
            ),
            ConfigError::InvalidExclusionPath(path) => concat2(
                "exclusion path must be a non-empty normalized relative path: ",
                path.as_str(),
            ),
            ConfigError::InvalidRecursiveExclusion(name) => concat2(
                "recursive exclusion must be one path component: ",
                name.as_str(),
            ),
            ConfigError::RootIo { path, source } => {
                let mut text = concat2("cannot resolve root ", lossy(path).as_str());
                text.append(": ");
                text.append(source.as_str());
                text
            },
            ConfigError::OverlappingRoots(a, b) => {
                let mut text = concat2("roots overlap: ", lossy(a).as_str());
                text.append(" and ");
                text.append(lossy(b).as_str());
                text
            },
            ConfigError::OutputExists(path) => concat2(
                "output already exists: ",
                lossy(path).as_str(),
            ),
            ConfigError::OutputInsideRoot(path) => concat2(
                "output cannot be inside a tracked root: ",
                lossy(path).as_str(),
            ),
            ConfigError::MissingCommand => "no command provided after --".to_owned(),
            ConfigError::PolicyTooLarge => "policy file exceeds 16 MiB".to_owned(),
            ConfigError::UnsupportedPolicyVersion(version) => concat2(
                "unsupported policy schemaVersion: ",
                decimal_text(*version as u64).as_str(),
            ),
        }
    }
}

/// One configured pair of an identifier and a path, or a text that is none.
pub enum EntryView {
    Malformed(Seq<char>),
    Pair { id: Seq<char>, path: Seq<char> },
}

/// One configured pair of an identifier and a path, or a text that is none.
#[derive(Debug)]
pub enum Entry {
    Malformed(String),
    Pair { id: String, path: String },
}

impl View for Entry {
    type V = EntryView;

    open spec fn view(&self) -> EntryView {
        match self {
            Entry::Malformed(value) => EntryView::Malformed(value@),
            Entry::Pair { id, path } => EntryView::Pair { id: id@, path: path@ },
        }
    }
}

/// The views of a list of entries.
pub open spec fn entry_views(list: Seq<Entry>) -> Seq<EntryView> {
    list.map_values(|item: Entry| item@)
}

/// The entry that a text stands for: what stands before and behind its first `=`.
pub open spec fn entry_of(value: Seq<char>) -> EntryView {
    match split_at_equals(value) {
        Some((id, path)) => EntryView::Pair { id, path },
        None => EntryView::Malformed(value),
    }
}

/// The entries that a list of texts stands for.
pub open spec fn entries_of(values: Seq<Seq<char>>) -> Seq<EntryView> {
    values.map_values(|value: Seq<char>| entry_of(value))
}

/// The entries that a list of texts stands for.
pub fn entries(values: &[String]) -> (list: Vec<Entry>)
    ensures
        entry_views(list@) == entries_of(texts(values@)),
{
    let mut list: Vec<Entry> = Vec::new();
    let ghost all = entries_of(texts(values@));
    let mut i: usize = 0;
    while i < values.len()
        invariant
            i <= values@.len(),
            all == entries_of(texts(values@)),
            entry_views(list@) == all.take(i as int),
        decreases values@.len() - i,
    {
        let ghost before = list@;
        let value: &String = &values[i];
        let entry = match split_equals(value.as_str()) {
            Some((id, path)) => Entry::Pair { id: id.to_owned(), path: path.to_owned() },
            None => Entry::Malformed(value.clone()),
        };
        assert(entry@ == all[i as int]);
        list.push(entry);
        assert(entry_views(list@) =~= entry_views(before).push(all[i as int]));
        i += 1;
    }
    assert(all.take(all.len() as int) =~= all);
    list
}

/// The character may stand in the identifier of a root.
pub open spec fn is_id_char(c: char) -> bool {
    ('0' <= c && c <= '9') || ('A' <= c && c <= 'Z') || ('a' <= c && c <= 'z') || c == '_' || c == '-'
}

/// The text can be the identifier of a root.
pub open spec fn is_root_id(id: Seq<char>) -> bool {
    id.len() > 0 && forall|i: int| 0 <= i < id.len() ==> is_id_char(#[trigger] id[i])
}

fn root_id_allowed(id: &str) -> (result: bool)
    ensures
        result == is_root_id(id@),
{
    let list = characters(id);
    let length: usize = list.len();
    let mut i: usize = 0;
    while i < length
        invariant
            i <= length,
            list@ == id@,
            length == id@.len(),
            forall|j: int| 0 <= j < i ==> is_id_char(#[trigger] id@[j]),
        decreases length - i,
    {
        let c: char = list[i];
        if !(('0' <= c && c <= '9') || ('A' <= c && c <= 'Z') || ('a' <= c && c <= 'z') || c == '_'
            || c == '-') {
            assert(!is_id_char(id@[i as int]));
            return false;
        }
        i += 1;
    }
    length > 0
}

/// The identifier belongs to one of the roots.
pub open spec fn has_root(roots: Seq<RootView>, id: Seq<char>) -> bool {
    exists|i: int| 0 <= i < roots.len() && (#[trigger] roots[i]).id == id
}

fn knows_root(roots: &[Root], id: &str) -> (result: bool)
    ensures
        result == has_root(root_views(roots@), id@),
{
    let ghost all = root_views(roots@);
    let mut i: usize = 0;
    while i < roots.len()
        invariant
            i <= roots@.len(),
            all == root_views(roots@),
            forall|j: int| 0 <= j < i ==> (#[trigger] all[j]).id != id@,
        decreases roots@.len() - i,
    {
        if same_text(roots[i].id.as_str(), id) {
            assert(all[i as int].id == id@);
            return true;
        }
        assert(all[i as int].id != id@);
        i += 1;
    }
    false
}

/// What resolving a path came to: the canonical path, or the words of the error.
pub open spec fn resolution(result: Result<Vec<u8>, String>) -> Result<Seq<u8>, Seq<char>> {
    match result {
        Ok(path) => Ok(path@),
        Err(message) => Err(message@),
    }
}

/// What resolving a list of paths came to.
pub open spec fn resolutions(list: Seq<Result<Vec<u8>, String>>) -> Seq<Result<Seq<u8>, Seq<char>>> {
    list.map_values(|item: Result<Vec<u8>, String>| resolution(item))
}

/// How far the entries of roots can be taken with the paths that are resolved so far.
pub enum RootsScan {
    /// An entry is refused.
    Refused(ConfigErrorView),
    /// This path has to be resolved next.
    Resolve(Seq<u8>),
    /// Every entry is taken.
    Complete(Seq<RootView>),
}

/// Takes the entries one by one behind the roots that are taken already. An entry must be
/// a pair, its identifier well formed and new; then its path is resolved.
pub open spec fn scan_roots(
    list: Seq<EntryView>,
    resolved: Seq<Result<Seq<u8>, Seq<char>>>,
    taken: Seq<RootView>,
) -> RootsScan
    decreases list.len() - taken.len(),
{
    if taken.len() >= list.len() {
        RootsScan::Complete(taken)
    } else {
        match list[taken.len() as int] {
            EntryView::Malformed(value) => RootsScan::Refused(ConfigErrorView::InvalidRoot(value)),
            EntryView::Pair { id, path } => if !is_root_id(id) {
                RootsScan::Refused(ConfigErrorView::InvalidRootId(id))
            } else if has_root(taken, id) {
                RootsScan::Refused(ConfigErrorView::DuplicateRootId(id))
            } else if taken.len() >= resolved.len() {
                RootsScan::Resolve(encode_utf8(path))
            } else {
                match resolved[taken.len() as int] {
                    Err(source) => RootsScan::Refused(
                        ConfigErrorView::RootIo { path: encode_utf8(path), source },
                    ),
                    Ok(canonical) => scan_roots(
                        list,
                        resolved,
                        taken.push(RootView { id, path: canonical }),
                    ),
                }
            },
        }
    }
}

/// The identifiers of the roots are pairwise different.
pub open spec fn distinct_ids(roots: Seq<RootView>) -> bool {
    forall|i: int, j: int|
        0 <= i < j < roots.len() ==> (#[trigger] roots[i]).id != (#[trigger] roots[j]).id
}

/// The roots have well-formed identifiers, each once.
pub open spec fn well_named(roots: Seq<RootView>) -> bool {
    &&& forall|i: int| 0 <= i < roots.len() ==> is_root_id((#[trigger] roots[i]).id)
    &&& distinct_ids(roots)
}

/// Every list of roots that is accepted has well-formed identifiers, each once.
pub proof fn accepted_roots_are_well_named(
    list: Seq<EntryView>,
    resolved: Seq<Result<Seq<u8>, Seq<char>>>,
    taken: Seq<RootView>,
)
    requires
        well_named(taken),
    ensures
        scan_roots(list, resolved, taken) matches RootsScan::Complete(found) ==> well_named(found),
    decreases list.len() - taken.len(),
{
    if taken.len() < list.len() && taken.len() < resolved.len() {
        if let EntryView::Pair { id, path } = list[taken.len() as int] {
            if let Ok(canonical) = resolved[taken.len() as int] {
                if is_root_id(id) && !has_root(taken, id) {
                    let next = taken.push(RootView { id, path: canonical });
                    assert forall|i: int, j: int| 0 <= i < j < next.len() implies (
                    #[trigger] next[i]).id != (#[trigger] next[j]).id by {
                        assert(next[i] == taken[i]);
                        if j < taken.len() {
                            assert(next[j] == taken[j]);
                        }
                    }
                    accepted_roots_are_well_named(list, resolved, next);
                }
            }
        }
    }
}

/// The second path is the first one or lies below it.
pub open spec fn covers(base: Seq<u8>, path: Seq<u8>) -> bool {
    components_of(base).is_prefix_of(components_of(path))
}

/// One of the roots covers another one.
pub open spec fn overlapping(roots: Seq<RootView>) -> bool {
    exists|i: int, j: int|
        0 <= i < roots.len() && 0 <= j < roots.len() && i != j && #[trigger] covers(
            roots[i].path,
            roots[j].path,
        )
}

/// `a` and `b` are the paths of the first two roots, in the order of paths, of which one
/// covers the next.
pub open spec fn first_overlap(roots: Seq<RootView>, a: Seq<u8>, b: Seq<u8>) -> bool {
    exists|i: int, j: int| #[trigger] overlap_at(roots, a, b, i, j)
}

/// `a` and `b` are the paths of the roots at `i` and `j`; no root that covers another one
/// comes before `a`, and no other root that does not come before `a` comes before `b`.
pub open spec fn overlap_at(roots: Seq<RootView>, a: Seq<u8>, b: Seq<u8>, i: int, j: int) -> bool {
    &&& 0 <= i < roots.len()
    &&& 0 <= j < roots.len()
    &&& i != j
    &&& a == roots[i].path
    &&& b == roots[j].path
    &&& covers(a, b)
    &&& forall|m: int, n: int|
        0 <= m < roots.len() && 0 <= n < roots.len() && m != n && #[trigger] covers(
            roots[m].path,
            roots[n].path,
        ) ==> key_le(path_key(a), path_key(roots[m].path))
    &&& forall|n: int|
        0 <= n < roots.len() && n != i && key_le(path_key(a), path_key((#[trigger] roots[n]).path))
            ==> key_le(path_key(b), path_key(roots[n].path))
}

/// The roots come in the order of their paths.
pub open spec fn in_path_order(roots: Seq<RootView>) -> bool {
    forall|i: int, j: int|
        0 <= i < j < roots.len() ==> key_le(
            path_key((#[trigger] roots[i]).path),
            path_key((#[trigger] roots[j]).path),
        )
}

/// Both lists hold the same roots.
pub open spec fn same_roots(a: Seq<RootView>, b: Seq<RootView>) -> bool {
    &&& a.len() == b.len()
    &&& forall|root: RootView| #[trigger] a.contains(root) <==> b.contains(root)
}

/// A path that covers another one comes no later.
proof fn lemma_covering_comes_first(a: Seq<u8>, b: Seq<u8>)
    requires
        covers(a, b),
    ensures
        key_le(path_key(a), path_key(b)),
{
    keys_extend_like_components(components_of(a), components_of(b));
    key_le_prefix(path_key(a), path_key(b));
}

/// Every path between a path and one that it covers is covered too.
proof fn lemma_between_is_covered(a: Seq<u8>, b: Seq<u8>, c: Seq<u8>)
    requires
        key_le(path_key(a), path_key(b)),
        key_le(path_key(b), path_key(c)),
        covers(a, c),
    ensures
        covers(a, b),
{
    keys_extend_like_components(components_of(a), components_of(c));
    key_le_between_prefix(path_key(a), path_key(b), path_key(c));
    keys_extend_like_components(components_of(a), components_of(b));
}

/// In the order of paths, where one root covers another one some root before the last of
/// the two covers its successor.
proof fn lemma_overlap_shows_between_neighbours(sorted: Seq<RootView>, m: int, n: int) -> (at: int)
    requires
        in_path_order(sorted),
        0 <= m < sorted.len(),
        0 <= n < sorted.len(),
        m != n,
        covers(sorted[m].path, sorted[n].path),
    ensures
        0 <= at <= m,
        at + 1 < sorted.len(),
        covers(sorted[at].path, sorted[at + 1].path),
{
    let x = sorted[m].path;
    let y = sorted[n].path;
    if m < n {
        if m + 1 < n {
            assert(key_le(path_key(sorted[m].path), path_key(sorted[m + 1].path)));
            assert(key_le(path_key(sorted[m + 1].path), path_key(sorted[n].path)));
            lemma_between_is_covered(x, sorted[m + 1].path, y);
        }
        m
    } else {
        lemma_covering_comes_first(x, y);
        assert(key_le(path_key(sorted[n].path), path_key(sorted[m].path)));
        key_le_antisymmetric(path_key(x), path_key(y));
        let next = sorted[n + 1].path;
        assert(key_le(path_key(y), path_key(next)));
        if n + 1 < m {
            assert(key_le(path_key(next), path_key(x)));
        } else {
            key_le_reflexive(path_key(x));
        }
        key_le_antisymmetric(path_key(y), path_key(next));
        key_le_reflexive(path_key(y));
        assert(covers(y, y)) by {
            assert(components_of(y) =~= components_of(y).subrange(0, components_of(y).len() as int));
        }
        lemma_between_is_covered(y, next, y);
        n
    }
}

/// The roots in the order of their paths, where none covers another one.
fn order_roots(found: Vec<Root>) -> (result: Result<Vec<Root>, ConfigError>)
    ensures
        match result {
            Ok(roots) => {
                &&& !overlapping(root_views(found@))
                &&& in_path_order(root_views(roots@))
                &&& same_roots(root_views(roots@), root_views(found@))
            },
            Err(error) => match error@ {
                ConfigErrorView::OverlappingRoots(a, b) => first_overlap(
                    root_views(found@),
                    a,
                    b,
                ),
                _ => false,
            },
        },
{
    let ghost given = root_views(found@);
    let ghost items = found@;
    let roots = sort_by_key(found);
    let ghost sorted = root_views(roots@);
    let ghost (order, places) = choose|order: Seq<int>, places: Seq<int>|
        #[trigger] rearranged(items, roots@, order, places) && crate::order::keeps_order_of_equals(
            roots@,
            order,
        );
    proof {
        assert(sorted_by_key(roots@));
        assert forall|i: int, j: int| 0 <= i < j < sorted.len() implies key_le(
            path_key((#[trigger] sorted[i]).path),
            path_key((#[trigger] sorted[j]).path),
        ) by {
            assert(key_le(roots@[i].key(), roots@[j].key()));
        }
    }
    let mut i: usize = 1;
    while i < roots.len()
        invariant
            1 <= i,
            i <= roots@.len() || roots@.len() == 0,
            sorted == root_views(roots@),
            given == root_views(items),
            items == found@,
            rearranged(items, roots@, order, places),
            in_path_order(sorted),
            forall|k: int|
                0 <= k && k + 1 < i && k + 1 < sorted.len() ==> !covers(
                    (#[trigger] sorted[k]).path,
                    sorted[k + 1].path,
                ),
        decreases roots@.len() - i,
    {
        let earlier = components(&roots[i - 1].path);
        let later = components(&roots[i].path);
        if starts_with(&later, &earlier) {
            let a = copy_bytes(&roots[i - 1].path);
            let b = copy_bytes(&roots[i].path);
            proof {
                let p = i - 1;
                assert(covers(sorted[p].path, sorted[p + 1].path));
                let x = order[p];
                let y = order[p + 1];
                assert(places[order[p]] == p && places[order[p + 1]] == p + 1);
                assert(given[x] == sorted[p] && given[y] == sorted[p + 1]);
                assert forall|m: int, n: int|
                    0 <= m < given.len() && 0 <= n < given.len() && m != n && #[trigger] covers(
                        given[m].path,
                        given[n].path,
                    ) implies key_le(path_key(a@), path_key(given[m].path)) by {
                    let pm = places[m];
                    let pn = places[n];
                    assert(order[pm] == m && order[pn] == n);
                    assert(sorted[pm] == given[m] && sorted[pn] == given[n]);
                    if pm < p {
                        let at = lemma_overlap_shows_between_neighbours(sorted, pm, pn);
                        assert(!covers(sorted[at].path, sorted[at + 1].path));
                    } else if pm > p {
                        assert(key_le(path_key(sorted[p].path), path_key(sorted[pm].path)));
                    } else {
                        key_le_reflexive(path_key(a@));
                    }
                }
                assert forall|n: int|
                    0 <= n < given.len() && n != x && key_le(
                        path_key(a@),
                        path_key((#[trigger] given[n]).path),
                    ) implies key_le(path_key(b@), path_key(given[n].path)) by {
                    let pn = places[n];
                    assert(order[pn] == n);
                    assert(sorted[pn] == given[n]);
                    if pn < p {
                        assert(key_le(path_key(sorted[pn].path), path_key(sorted[p].path)));
                        key_le_antisymmetric(path_key(a@), path_key(given[n].path));
                        keys_extend_like_components(
                            components_of(given[n].path),
                            components_of(a@),
                        );
                        assert(path_key(given[n].path).is_prefix_of(path_key(a@))) by {
                            assert(path_key(a@) =~= path_key(a@).subrange(
                                0,
                                path_key(a@).len() as int,
                            ));
                        }
                        assert(covers(sorted[pn].path, sorted[p].path));
                        let at = lemma_overlap_shows_between_neighbours(sorted, pn, p as int);
                        assert(!covers(sorted[at].path, sorted[at + 1].path));
                    } else if pn > p + 1 {
                        assert(key_le(path_key(sorted[p + 1].path), path_key(sorted[pn].path)));
                    } else {
                        key_le_reflexive(path_key(b@));
                    }
                }
                assert(overlap_at(given, a@, b@, x, y));
            }
            return Err(ConfigError::OverlappingRoots(a, b));
        }
        proof {
            assert(!covers(sorted[i - 1].path, sorted[i as int].path));
        }
        i += 1;
    }
    proof {
        if overlapping(given) {
            let (m, n) = choose|m: int, n: int|
                0 <= m < given.len() && 0 <= n < given.len() && m != n && #[trigger] covers(
                    given[m].path,
                    given[n].path,
                );
            let pm = places[m];
            let pn = places[n];
            assert(order[pm] == m && order[pn] == n);
            assert(sorted[pm] == given[m] && sorted[pn] == given[n]);
            let at = lemma_overlap_shows_between_neighbours(sorted, pm, pn);
            assert(!covers(sorted[at].path, sorted[at + 1].path));
        }
        assert forall|root: RootView| #[trigger] sorted.contains(root) <==> given.contains(root) by {
            if sorted.contains(root) {
                let k = choose|k: int| 0 <= k < sorted.len() && sorted[k] == root;
                assert(0 <= order[k] < items.len());
                assert(given[order[k]] == root);
            }
            if given.contains(root) {
                let k = choose|k: int| 0 <= k < given.len() && given[k] == root;
                assert(order[places[k]] == k);
                assert(sorted[places[k]] == root);
            }
        }
    }
    Ok(roots)
}

/// What is to be done next about the roots.
#[derive(Debug)]
pub enum RootsStep {
    /// Resolve this path to its canonical form.
    Resolve(Vec<u8>),
    /// The roots, in the order of their paths.
    Done(Vec<Root>),
}

/// Whether a step on the roots is what the scan of their entries calls for.
pub open spec fn roots_step(scan: RootsScan, result: Result<RootsStep, ConfigError>) -> bool {
    match scan {
        RootsScan::Refused(fault) => match result {
            Err(error) => error@ == fault,
            Ok(_) => false,
        },
        RootsScan::Resolve(path) => match result {
            Ok(RootsStep::Resolve(wanted)) => wanted@ == path,
            _ => false,
        },
        RootsScan::Complete(found) => match result {
            Ok(RootsStep::Done(roots)) => {
                &&& !overlapping(found)
                &&& in_path_order(root_views(roots@))
                &&& same_roots(root_views(roots@), found)
            },
            Ok(RootsStep::Resolve(_)) => false,
            Err(error) => match error@ {
                ConfigErrorView::OverlappingRoots(a, b) => first_overlap(found, a, b),
                _ => false,
            },
        },
    }
}

/// Takes the entries of roots as far as the resolved paths go. The caller resolves the path
/// that is asked for, adds what came of it to `resolved`, and asks again.
pub fn check_roots(list: &Vec<Entry>, resolved: &[Result<Vec<u8>, String>]) -> (result: Result<
    RootsStep,
    ConfigError,
>)
    ensures
        roots_step(
            scan_roots(entry_views(list@), resolutions(resolved@), Seq::empty()),
            result,
        ),
{
    let ghost given = entry_views(list@);
    let ghost answers = resolutions(resolved@);
    let mut found: Vec<Root> = Vec::new();
    assert(root_views(found@) =~= Seq::<RootView>::empty());
    let mut i: usize = 0;
    while i < list.len()
        invariant
            i <= list@.len(),
            found@.len() == i,
            given == entry_views(list@),
            answers == resolutions(resolved@),
            scan_roots(given, answers, Seq::empty()) == scan_roots(
                given,
                answers,
                root_views(found@),
            ),
        decreases list@.len() - i,
    {
        let ghost before = found@;
        assert(given[i as int] == list@[i as int]@);
        match &list[i] {
            Entry::Malformed(value) => {
                return Err(ConfigError::InvalidRoot(value.clone()));
            },
            Entry::Pair { id, path } => {
                if !root_id_allowed(id.as_str()) {
                    return Err(ConfigError::InvalidRootId(id.clone()));
                }
                if knows_root(&found, id.as_str()) {
                    return Err(ConfigError::DuplicateRootId(id.clone()));
                }
                if i >= resolved.len() {
                    return Ok(RootsStep::Resolve(copy_bytes(path.as_str().as_bytes())));
                }
                assert(answers[i as int] == resolution(resolved@[i as int]));
                match &resolved[i] {
                    Err(source) => {
                        return Err(
                            ConfigError::RootIo {
                                path: copy_bytes(path.as_str().as_bytes()),
                                source: source.clone(),
                            },
                        );
                    },
                    Ok(canonical) => {
                        let root = Root { id: id.clone(), path: copy_bytes(canonical) };
                        found.push(root);
                        assert(root_views(found@) =~= root_views(before).push(root@));
                    },
                }
            },
        }
        i += 1;
    }
    assert(scan_roots(given, answers, root_views(found@)) == RootsScan::Complete(
        root_views(found@),
    ));
    match order_roots(found) {
        Ok(roots) => Ok(RootsStep::Done(roots)),
        Err(error) => Err(error),
    }
}

/// Takes roots written as `ID=PATH` as far as the resolved paths go.
pub fn parse_roots(values: &[String], resolved: &[Result<Vec<u8>, String>]) -> (result: Result<
    RootsStep,
    ConfigError,
>)
    ensures
        roots_step(
            scan_roots(entries_of(texts(values@)), resolutions(resolved@), Seq::empty()),
            result,
        ),
{
    check_roots(&entries(values), resolved)
}

/// Every component of the path is a name, and there is at least one.
pub open spec fn is_relative_name_path(path: Seq<u8>) -> bool {
    let list = components_of(path);
    list.len() > 0 && forall|i: int| 0 <= i < list.len() ==> #[trigger] list[i] is Normal
}

/// Why an entry of an exclusion is refused, if it is.
pub open spec fn exclusion_fault(entry: EntryView, roots: Seq<RootView>) -> Option<ConfigErrorView> {
    match entry {
        EntryView::Malformed(value) => Some(ConfigErrorView::InvalidExclusion(value)),
        EntryView::Pair { id, path } => if !has_root(roots, id) {
            Some(ConfigErrorView::UnknownExclusionRoot(id))
        } else if !is_relative_name_path(encode_utf8(path)) {
            Some(ConfigErrorView::InvalidExclusionPath(path))
        } else {
            None
        },
    }
}

/// The first fault among the entries of exclusions, if there is any.
pub open spec fn first_exclusion_fault(list: Seq<EntryView>, roots: Seq<RootView>) -> Option<
    ConfigErrorView,
>
    decreases list.len(),
{
    if list.len() == 0 {
        None
    } else {
        match first_exclusion_fault(list.drop_last(), roots) {
            Some(fault) => Some(fault),
            None => exclusion_fault(list.last(), roots),
        }
    }
}

/// The exclusion that an entry stands for.
pub open spec fn exclusion_of(entry: EntryView) -> ExclusionView {
    match entry {
        EntryView::Malformed(value) => ExclusionView { root_id: value, relative: Seq::empty() },
        EntryView::Pair { id, path } => ExclusionView {
            root_id: id,
            relative: normalized(encode_utf8(path)),
        },
    }
}

/// The exclusions that a list of entries stands for.
pub open spec fn exclusions_of(list: Seq<EntryView>) -> Seq<ExclusionView> {
    list.map_values(|entry: EntryView| exclusion_of(entry))
}

/// The order of exclusions: by the identifier of the root, then by the path.
pub open spec fn exclusion_key(exclusion: ExclusionView) -> Seq<Seq<u8>> {
    seq![encode_utf8(exclusion.root_id)] + path_key(exclusion.relative)
}

impl Keyed for Exclusion {
    open spec fn key(&self) -> Seq<Seq<u8>> {
        exclusion_key(self@)
    }

    fn at_most(&self, other: &Self) -> (result: bool) {
        let mine = self.root_id.as_str().as_bytes();
        let theirs = other.root_id.as_str().as_bytes();
        proof {
            assert(self.key().skip(1) =~= path_key(self.relative@));
            assert(other.key().skip(1) =~= path_key(other.relative@));
        }
        if same_bytes(mine, theirs) {
            path_at_most(&self.relative, &other.relative)
        } else {
            bytes_at_most(mine, theirs)
        }
    }
}

/// The first exclusion leaves out everything that the second one does.
pub open spec fn covers_exclusion(a: ExclusionView, b: ExclusionView) -> bool {
    a.root_id == b.root_id && covers(a.relative, b.relative)
}

/// The exclusion is among `all`, and no other one among them covers it.
pub open spec fn outermost(all: Seq<ExclusionView>, exclusion: ExclusionView) -> bool {
    &&& all.contains(exclusion)
    &&& forall|other: ExclusionView| #[trigger]
        all.contains(other) && covers_exclusion(other, exclusion) ==> other == exclusion
}

/// `reduced` holds the outermost ones of `all`, in their order, each once.
pub open spec fn is_reduction(all: Seq<ExclusionView>, reduced: Seq<ExclusionView>) -> bool {
    &&& forall|i: int, j: int|
        0 <= i < j < reduced.len() ==> key_le(
            exclusion_key(#[trigger] reduced[i]),
            exclusion_key(#[trigger] reduced[j]),
        ) && reduced[i] != reduced[j]
    &&& forall|exclusion: ExclusionView| #[trigger]
        reduced.contains(exclusion) <==> outermost(all, exclusion)
}

/// Something below one root is left out by one of the exclusions.
pub open spec fn excluded_by(all: Seq<ExclusionView>, root_id: Seq<char>, relative: Seq<u8>) -> bool {
    exists|i: int|
        0 <= i < all.len() && covers_exclusion(
            #[trigger] all[i],
            ExclusionView { root_id, relative },
        )
}

/// Covering is transitive.
proof fn lemma_covers_transitive(a: Seq<u8>, b: Seq<u8>, c: Seq<u8>)
    requires
        covers(a, b),
        covers(b, c),
    ensures
        covers(a, c),
{
    let x = components_of(a);
    let y = components_of(b);
    let z = components_of(c);
    assert(x =~= z.subrange(0, x.len() as int)) by {
        assert forall|i: int| 0 <= i < x.len() implies x[i] == z[i] by {
            assert(x[i] == y.subrange(0, x.len() as int)[i]);
            assert(y[i] == z.subrange(0, y.len() as int)[i]);
        }
    }
}

/// Exclusions in normal form that come no later than each other are the same.
proof fn lemma_exclusion_key_determines(a: ExclusionView, b: ExclusionView)
    requires
        exclusion_key(a) == exclusion_key(b),
        normalized(a.relative) == a.relative,
        normalized(b.relative) == b.relative,
    ensures
        a == b,
{
    assert(exclusion_key(a)[0] == encode_utf8(a.root_id));
    assert(exclusion_key(b)[0] == encode_utf8(b.root_id));
    encoding_determines_text(a.root_id, b.root_id);
    let x = components_of(a.relative);
    let y = components_of(b.relative);
    assert(exclusion_key(a).skip(1) =~= components_key(x));
    assert(exclusion_key(b).skip(1) =~= components_key(y));
    assert(components_key(x).is_prefix_of(components_key(y))) by {
        assert(components_key(y) =~= components_key(y).subrange(0, x.len() as int));
    }
    assert(components_key(y).is_prefix_of(components_key(x))) by {
        assert(components_key(x) =~= components_key(x).subrange(0, y.len() as int));
    }
    keys_extend_like_components(x, y);
    keys_extend_like_components(y, x);
    assert(x.len() == components_key(x).len() && y.len() == components_key(y).len());
    assert(y.subrange(0, x.len() as int) =~= y);
    assert(x == y);
}

/// An exclusion that covers another one comes no later.
proof fn lemma_covering_exclusion_comes_first(a: ExclusionView, b: ExclusionView)
    requires
        covers_exclusion(a, b),
    ensures
        key_le(exclusion_key(a), exclusion_key(b)),
{
    lemma_covering_comes_first(a.relative, b.relative);
    assert(exclusion_key(a).skip(1) =~= path_key(a.relative));
    assert(exclusion_key(b).skip(1) =~= path_key(b.relative));
}

/// Whether every component of a path is a name, and there is at least one.
fn relative_name_path(path: &[u8]) -> (result: bool)
    ensures
        result == is_relative_name_path(path@),
{
    let list = components(path);
    let ghost all = components_of(path@);
    let mut i: usize = 0;
    while i < list.len()
        invariant
            i <= list@.len(),
            all == component_views(list@),
            all == components_of(path@),
            forall|j: int| 0 <= j < i ==> #[trigger] all[j] is Normal,
        decreases list@.len() - i,
    {
        assert(all[i as int] == list@[i as int]@);
        match &list[i] {
            Component::Normal(_) => {},
            _ => {
                assert(!(all[i as int] is Normal));
                return false;
            },
        }
        i += 1;
    }
    list.len() > 0
}

/// The exclusions that a list of entries stands for, or the first fault.
fn read_exclusions(list: &Vec<Entry>, roots: &[Root]) -> (result: Result<
    Vec<Exclusion>,
    ConfigError,
>)
    ensures
        match result {
            Ok(read) => {
                &&& first_exclusion_fault(entry_views(list@), root_views(roots@)) is None
                &&& exclusion_views(read@) == exclusions_of(entry_views(list@))
            },
            Err(error) => first_exclusion_fault(entry_views(list@), root_views(roots@)) == Some(
                error@,
            ),
        },
{
    let ghost given = entry_views(list@);
    let ghost known = root_views(roots@);
    let mut read: Vec<Exclusion> = Vec::new();
    let mut i: usize = 0;
    assert(given.take(0) =~= Seq::<EntryView>::empty());
    assert(exclusion_views(read@) =~= exclusions_of(given.take(0)));
    while i < list.len()
        invariant
            i <= list@.len(),
            given == entry_views(list@),
            known == root_views(roots@),
            first_exclusion_fault(given.take(i as int), known) is None,
            exclusion_views(read@) == exclusions_of(given.take(i as int)),
        decreases list@.len() - i,
    {
        let ghost before = read@;
        proof {
            assert(given[i as int] == list@[i as int]@);
            assert(given.take(i + 1).drop_last() =~= given.take(i as int));
            assert(given.take(i + 1).last() == given[i as int]);
            lemma_first_fault_stays(given, known, i + 1);
        }
        match &list[i] {
            Entry::Malformed(value) => {
                return Err(ConfigError::InvalidExclusion(value.clone()));
            },
            Entry::Pair { id, path } => {
                if !knows_root(roots, id.as_str()) {
                    return Err(ConfigError::UnknownExclusionRoot(id.clone()));
                }
                if !relative_name_path(path.as_str().as_bytes()) {
                    return Err(ConfigError::InvalidExclusionPath(path.clone()));
                }
                let relative = render(&lexical_path(path.as_str().as_bytes()));
                let exclusion = Exclusion { root_id: id.clone(), relative };
                assert(exclusion@ == exclusion_of(given[i as int]));
                read.push(exclusion);
                assert(exclusion_views(read@) =~= exclusion_views(before).push(exclusion@));
                assert(exclusions_of(given.take(i + 1)) =~= exclusions_of(
                    given.take(i as int),
                ).push(exclusion_of(given[i as int])));
            },
        }
        i += 1;
    }
    assert(given.take(given.len() as int) =~= given);
    Ok(read)
}

/// A fault among the first entries is the first fault of all.
proof fn lemma_first_fault_stays(list: Seq<EntryView>, roots: Seq<RootView>, length: int)
    requires
        0 <= length <= list.len(),
    ensures
        first_exclusion_fault(list.take(length), roots) is Some ==> first_exclusion_fault(
            list,
            roots,
        ) == first_exclusion_fault(list.take(length), roots),
    decreases list.len(),
{
    if length == list.len() {
        assert(list.take(length) =~= list);
    } else {
        assert(list.drop_last().take(length) =~= list.take(length));
        lemma_first_fault_stays(list.drop_last(), roots, length);
    }
}

/// The outermost ones of a list of exclusions, in their order.
fn reduce_exclusions(read: Vec<Exclusion>) -> (reduced: Vec<Exclusion>)
    requires
        forall|i: int|
            0 <= i < read@.len() ==> normalized((#[trigger] read@[i]).relative@)
                == read@[i].relative@,
    ensures
        is_reduction(exclusion_views(read@), exclusion_views(reduced@)),
{
    let ghost items = read@;
    let ghost all = exclusion_views(read@);
    let sorted = sort_by_key(read);
    let ghost s = exclusion_views(sorted@);
    let ghost (order, places) = choose|order: Seq<int>, places: Seq<int>|
        #[trigger] rearranged(items, sorted@, order, places) && crate::order::keeps_order_of_equals(
            sorted@,
            order,
        );
    proof {
        assert forall|i: int| 0 <= i < s.len() implies normalized((#[trigger] s[i]).relative)
            == s[i].relative by {
            assert(0 <= order[i] < items.len());
            assert(s[i] == items[order[i]]@);
        }
        assert forall|i: int, j: int| 0 <= i < j < s.len() implies key_le(
            exclusion_key(#[trigger] s[i]),
            exclusion_key(#[trigger] s[j]),
        ) by {
            assert(key_le(sorted@[i].key(), sorted@[j].key()));
        }
    }
    let mut reduced: Vec<Exclusion> = Vec::new();
    let mut i: usize = 0;
    while i < sorted.len()
        invariant
            i <= sorted@.len(),
            s == exclusion_views(sorted@),
            forall|k: int|
                0 <= k < s.len() ==> normalized((#[trigger] s[k]).relative) == s[k].relative,
            forall|k: int, l: int|
                0 <= k < l < s.len() ==> key_le(
                    exclusion_key(#[trigger] s[k]),
                    exclusion_key(#[trigger] s[l]),
                ),
            reduced_so_far(s.take(i as int), exclusion_views(reduced@)),
        decreases sorted@.len() - i,
    {
        let ghost r = exclusion_views(reduced@);
        let exclusion: &Exclusion = &sorted[i];
        let covered = covered_by_one(&reduced, exclusion);
        proof {
            assert(s[i as int] == exclusion@);
            lemma_reduction_grows(s, i as int, r);
        }
        if !covered {
            let ghost held = reduced@;
            reduced.push(exclusion.clone());
            assert(exclusion_views(reduced@) =~= r.push(s[i as int]));
        }
        i += 1;
    }
    proof {
        let r = exclusion_views(reduced@);
        assert(s.take(s.len() as int) =~= s);
        assert forall|x: ExclusionView| #[trigger] r.contains(x) <==> outermost(all, x) by {
            lemma_same_members(items, sorted@, order, places);
            if r.contains(x) {
                let k = choose|k: int| 0 <= k < r.len() && r[k] == x;
                assert(s.contains(r[k]));
                assert(outermost(s, r[k]));
            }
            if outermost(all, x) {
                assert(s.contains(x));
                let k = choose|k: int| 0 <= k < s.len() && s[k] == x;
                assert(covered_in(r, s[k]));
                let m = choose|m: int| 0 <= m < r.len() && covers_exclusion(#[trigger] r[m], s[k]);
                assert(s.contains(r[m]));
                assert(all.contains(r[m]));
            }
        }
    }
    reduced
}

/// Rearranging keeps what is held.
proof fn lemma_same_members(
    items: Seq<Exclusion>,
    sorted: Seq<Exclusion>,
    order: Seq<int>,
    places: Seq<int>,
)
    requires
        rearranged(items, sorted, order, places),
    ensures
        forall|x: ExclusionView| #[trigger]
            exclusion_views(items).contains(x) <==> exclusion_views(sorted).contains(x),
{
    let all = exclusion_views(items);
    let s = exclusion_views(sorted);
    assert forall|x: ExclusionView| #[trigger] all.contains(x) <==> s.contains(x) by {
        if all.contains(x) {
            let k = choose|k: int| 0 <= k < all.len() && all[k] == x;
            assert(order[places[k]] == k);
            assert(s[places[k]] == x);
        }
        if s.contains(x) {
            let k = choose|k: int| 0 <= k < s.len() && s[k] == x;
            assert(0 <= order[k] < items.len());
            assert(all[order[k]] == x);
        }
    }
}

spec fn covered_in(reduced: Seq<ExclusionView>, x: ExclusionView) -> bool {
    exists|m: int| 0 <= m < reduced.len() && covers_exclusion(#[trigger] reduced[m], x)
}

/// The state of the reduction behind a part of the sorted exclusions.
spec fn reduced_so_far(part: Seq<ExclusionView>, reduced: Seq<ExclusionView>) -> bool {
    &&& forall|k: int| 0 <= k < part.len() ==> covered_in(reduced, #[trigger] part[k])
    &&& forall|m: int| 0 <= m < reduced.len() ==> outermost(part, #[trigger] reduced[m])
    &&& forall|m: int, n: int|
        0 <= m < n < reduced.len() ==> key_le(
            exclusion_key(#[trigger] reduced[m]),
            exclusion_key(#[trigger] reduced[n]),
        ) && reduced[m] != reduced[n]
}

proof fn lemma_reduction_grows(s: Seq<ExclusionView>, i: int, r: Seq<ExclusionView>)
    requires
        0 <= i < s.len(),
        forall|k: int|
            0 <= k < s.len() ==> normalized((#[trigger] s[k]).relative) == s[k].relative,
        forall|k: int, l: int|
            0 <= k < l < s.len() ==> key_le(
                exclusion_key(#[trigger] s[k]),
                exclusion_key(#[trigger] s[l]),
            ),
        reduced_so_far(s.take(i), r),
    ensures
        covered_in(r, s[i]) ==> reduced_so_far(s.take(i + 1), r),
        !covered_in(r, s[i]) ==> reduced_so_far(s.take(i + 1), r.push(s[i])),
{
    let part = s.take(i);
    let longer = s.take(i + 1);
    let x = s[i];
    let next = if covered_in(r, x) {
        r
    } else {
        r.push(x)
    };
    assert(longer =~= part.push(x));
    assert(covers_exclusion(x, x)) by {
        let c = components_of(x.relative);
        assert(c =~= c.subrange(0, c.len() as int));
    }
    assert forall|k: int| 0 <= k < longer.len() implies covered_in(next, #[trigger] longer[k]) by {
        if k < i {
            assert(covered_in(r, part[k]));
            let m = choose|m: int| 0 <= m < r.len() && covers_exclusion(#[trigger] r[m], part[k]);
            assert(next[m] == r[m]);
        } else if !covered_in(r, x) {
            assert(next[r.len() as int] == x);
        }
    }
    assert forall|m: int| 0 <= m < next.len() implies outermost(longer, #[trigger] next[m]) by {
        let y = next[m];
        if m < r.len() {
            assert(outermost(part, r[m]));
            let at = choose|at: int| 0 <= at < part.len() && part[at] == y;
            assert(longer[at] == y);
            assert forall|other: ExclusionView| #[trigger]
                longer.contains(other) && covers_exclusion(other, y) implies other == y by {
                let p = choose|p: int| 0 <= p < longer.len() && longer[p] == other;
                if p < i {
                    assert(part[p] == other);
                    assert(part.contains(other));
                } else {
                    lemma_covering_exclusion_comes_first(other, y);
                    assert(s[at] == y && s[i] == other);
                    assert(key_le(exclusion_key(s[at]), exclusion_key(s[i])));
                    key_le_antisymmetric(exclusion_key(other), exclusion_key(y));
                    lemma_exclusion_key_determines(other, y);
                }
            }
        } else {
            assert(longer[i] == x);
            assert forall|other: ExclusionView| #[trigger]
                longer.contains(other) && covers_exclusion(other, y) implies other == y by {
                let p = choose|p: int| 0 <= p < longer.len() && longer[p] == other;
                if p < i {
                    assert(covered_in(r, part[p]));
                    let q = choose|q: int|
                        0 <= q < r.len() && covers_exclusion(#[trigger] r[q], part[p]);
                    lemma_covers_transitive(r[q].relative, other.relative, x.relative);
                    assert(covers_exclusion(r[q], x));
                }
            }
        }
    }
    assert forall|m: int, n: int| 0 <= m < n < next.len() implies key_le(
        exclusion_key(#[trigger] next[m]),
        exclusion_key(#[trigger] next[n]),
    ) && next[m] != next[n] by {
        assert(next[m] == r[m]);
        if n < r.len() {
            assert(next[n] == r[n]);
        } else {
            assert(outermost(part, r[m]));
            let at = choose|at: int| 0 <= at < part.len() && part[at] == r[m];
            assert(s[at] == r[m]);
            assert(key_le(exclusion_key(s[at]), exclusion_key(s[i])));
        }
    }
}

fn covered_by_one(reduced: &Vec<Exclusion>, exclusion: &Exclusion) -> (result: bool)
    ensures
        result == covered_in(exclusion_views(reduced@), exclusion@),
{
    let ghost r = exclusion_views(reduced@);
    let inner = components(&exclusion.relative);
    let mut i: usize = 0;
    while i < reduced.len()
        invariant
            i <= reduced@.len(),
            r == exclusion_views(reduced@),
            component_views(inner@) == components_of(exclusion.relative@),
            forall|m: int| 0 <= m < i ==> !covers_exclusion(#[trigger] r[m], exclusion@),
        decreases reduced@.len() - i,
    {
        assert(r[i as int] == reduced@[i as int]@);
        if same_text(reduced[i].root_id.as_str(), exclusion.root_id.as_str()) && starts_with(
            &inner,
            &components(&reduced[i].relative),
        ) {
            assert(covers_exclusion(r[i as int], exclusion@));
            return true;
        }
        assert(!covers_exclusion(r[i as int], exclusion@));
        i += 1;
    }
    false
}

/// Reads the entries of exclusions: the outermost ones, in their order, or the first fault.
pub fn check_exclusions(list: &Vec<Entry>, roots: &[Root]) -> (result: Result<
    Vec<Exclusion>,
    ConfigError,
>)
    ensures
        match first_exclusion_fault(entry_views(list@), root_views(roots@)) {
            Some(fault) => match result {
                Err(error) => error@ == fault,
                Ok(_) => false,
            },
            None => match result {
                Ok(reduced) => is_reduction(
                    exclusions_of(entry_views(list@)),
                    exclusion_views(reduced@),
                ),
                Err(_) => false,
            },
        },
{
    let read = match read_exclusions(list, roots) {
        Ok(read) => read,
        Err(error) => {
            return Err(error);
        },
    };
    proof {
        let given = entry_views(list@);
        lemma_exclusions_are_normal(given, root_views(roots@));
        assert(exclusion_views(read@).len() == given.len());
        assert forall|i: int| 0 <= i < read@.len() implies normalized(
            (#[trigger] read@[i]).relative@,
        ) == read@[i].relative@ by {
            assert(exclusion_views(read@)[i] == read@[i]@);
            assert(exclusions_of(given)[i] == read@[i]@);
        }
    }
    Ok(reduce_exclusions(read))
}

/// Where there is no first fault, no entry is at fault.
proof fn lemma_unfaulted_entries(list: Seq<EntryView>, roots: Seq<RootView>)
    requires
        first_exclusion_fault(list, roots) is None,
    ensures
        forall|i: int| 0 <= i < list.len() ==> exclusion_fault(#[trigger] list[i], roots) is None,
    decreases list.len(),
{
    if list.len() > 0 {
        let head = list.drop_last();
        lemma_unfaulted_entries(head, roots);
        assert forall|i: int| 0 <= i < list.len() implies exclusion_fault(
            #[trigger] list[i],
            roots,
        ) is None by {
            if i < head.len() {
                assert(head[i] == list[i]);
            }
        }
    }
}

/// Reads exclusions written as `ROOT_ID=RELATIVE_PATH`: the outermost ones, in their order,
/// or the first fault.
pub fn parse_exclusions(values: &[String], roots: &[Root]) -> (result: Result<
    Vec<Exclusion>,
    ConfigError,
>)
    ensures
        match first_exclusion_fault(entries_of(texts(values@)), root_views(roots@)) {
            Some(fault) => match result {
                Err(error) => error@ == fault,
                Ok(_) => false,
            },
            None => match result {
                Ok(reduced) => is_reduction(
                    exclusions_of(entries_of(texts(values@))),
                    exclusion_views(reduced@),
                ),
                Err(_) => false,
            },
        },
{
    check_exclusions(&entries(values), roots)
}

/// Leaving out the exclusions that others cover changes nothing of what is excluded.
pub proof fn reduction_excludes_the_same(
    list: Seq<EntryView>,
    roots: Seq<RootView>,
    reduced: Seq<ExclusionView>,
    root_id: Seq<char>,
    relative: Seq<u8>,
)
    requires
        first_exclusion_fault(list, roots) is None,
        is_reduction(exclusions_of(list), reduced),
    ensures
        excluded_by(reduced, root_id, relative) == excluded_by(
            exclusions_of(list),
            root_id,
            relative,
        ),
{
    let all = exclusions_of(list);
    let x = ExclusionView { root_id, relative };
    lemma_exclusions_are_normal(list, roots);
    if excluded_by(reduced, root_id, relative) {
        let m = choose|m: int| 0 <= m < reduced.len() && covers_exclusion(#[trigger] reduced[m], x);
        assert(reduced.contains(reduced[m]));
        assert(outermost(all, reduced[m]));
        let k = choose|k: int| 0 <= k < all.len() && all[k] == reduced[m];
        assert(covers_exclusion(all[k], x));
    }
    if excluded_by(all, root_id, relative) {
        let k = choose|k: int| 0 <= k < all.len() && covers_exclusion(#[trigger] all[k], x);
        let y = lemma_outermost_exists(all, k);
        assert(reduced.contains(y));
        let m = choose|m: int| 0 <= m < reduced.len() && reduced[m] == y;
        lemma_covers_transitive(y.relative, all[k].relative, relative);
        assert(covers_exclusion(reduced[m], x));
    }
}

/// The exclusions of entries without a fault are in normal form.
proof fn lemma_exclusions_are_normal(list: Seq<EntryView>, roots: Seq<RootView>)
    requires
        first_exclusion_fault(list, roots) is None,
    ensures
        forall|i: int|
            0 <= i < list.len() ==> normalized((#[trigger] exclusions_of(list)[i]).relative)
                == exclusions_of(list)[i].relative,
{
    lemma_unfaulted_entries(list, roots);
    assert forall|i: int| 0 <= i < list.len() implies normalized(
        (#[trigger] exclusions_of(list)[i]).relative,
    ) == exclusions_of(list)[i].relative by {
        assert(exclusion_fault(list[i], roots) is None);
        match list[i] {
            EntryView::Pair { id, path } => {
                normalizing_twice_changes_nothing(encode_utf8(path));
            },
            EntryView::Malformed(_) => {},
        }
    }
}

/// Some outermost exclusion covers each exclusion.
proof fn lemma_outermost_exists(all: Seq<ExclusionView>, k: int) -> (y: ExclusionView)
    requires
        0 <= k < all.len(),
        forall|i: int|
            0 <= i < all.len() ==> normalized((#[trigger] all[i]).relative) == all[i].relative,
    ensures
        outermost(all, y),
        covers_exclusion(y, all[k]),
    decreases components_of(all[k].relative).len(),
{
    let x = all[k];
    let c = components_of(x.relative);
    assert(all.contains(x));
    assert(c =~= c.subrange(0, c.len() as int));
    if outermost(all, x) {
        x
    } else {
        let other = choose|other: ExclusionView| #[trigger]
            all.contains(other) && covers_exclusion(other, x) && other != x;
        let at = choose|at: int| 0 <= at < all.len() && all[at] == other;
        let d = components_of(other.relative);
        if d.len() >= c.len() {
            assert(c.subrange(0, d.len() as int) =~= c);
            assert(d == c);
            assert(exclusion_key(other) == exclusion_key(x));
            lemma_exclusion_key_determines(other, x);
        }
        let y = lemma_outermost_exists(all, at);
        lemma_covers_transitive(y.relative, other.relative, x.relative);
        y
    }
}

impl Keyed for String {
    open spec fn key(&self) -> Seq<Seq<u8>> {
        seq![encode_utf8(self@)]
    }

    fn at_most(&self, other: &Self) -> (result: bool) {
        proof {
            let a = encode_utf8(self@);
            let b = encode_utf8(other@);
            bytes_le_total(a, b);
            assert(self.key()[0] == a && other.key()[0] == b);
            assert(key_le(self.key().skip(1), other.key().skip(1)));
        }
        bytes_at_most(self.as_str().as_bytes(), other.as_str().as_bytes())
    }
}

/// The first of the names that is not one path component, if there is any.
pub open spec fn first_bad_name(names: Seq<Seq<char>>) -> Option<Seq<char>>
    decreases names.len(),
{
    if names.len() == 0 {
        None
    } else {
        match first_bad_name(names.drop_last()) {
            Some(name) => Some(name),
            None => if is_name(encode_utf8(names.last())) {
                None
            } else {
                Some(names.last())
            },
        }
    }
}

/// `list` holds the given names in the order of their bytes, each once.
pub open spec fn is_name_list(names: Seq<Seq<char>>, list: Seq<Seq<char>>) -> bool {
    &&& forall|i: int, j: int|
        0 <= i < j < list.len() ==> bytes_le(
            encode_utf8(#[trigger] list[i]),
            encode_utf8(#[trigger] list[j]),
        ) && list[i] != list[j]
    &&& forall|name: Seq<char>| #[trigger] list.contains(name) <==> names.contains(name)
}

/// Whether a byte string is one path component.
pub fn is_component_name(bytes: &[u8]) -> (result: bool)
    ensures
        result == is_name(bytes@),
{
    if bytes.len() == 0 {
        return false;
    }
    if bytes.len() == 1 && bytes[0] == DOT {
        assert(bytes@ =~= seq![DOT]);
        return false;
    }
    if bytes.len() == 2 && bytes[0] == DOT && bytes[1] == DOT {
        assert(bytes@ =~= seq![DOT, DOT]);
        return false;
    }
    let mut i: usize = 0;
    while i < bytes.len()
        invariant
            i <= bytes@.len(),
            forall|j: int| 0 <= j < i ==> bytes@[j] != SEPARATOR,
        decreases bytes@.len() - i,
    {
        if bytes[i] == SEPARATOR {
            assert(bytes@.contains(bytes@[i as int]));
            return false;
        }
        i += 1;
    }
    true
}

/// Reads the names that are left out at every depth of every root: each must be one path
/// component. They come back in the order of their bytes, each once.
pub fn parse_recursive_exclusions(values: &[String]) -> (result: Result<Vec<String>, ConfigError>)
    ensures
        match first_bad_name(texts(values@)) {
            Some(name) => match result {
                Err(error) => error@ == ConfigErrorView::InvalidRecursiveExclusion(name),
                Ok(_) => false,
            },
            None => match result {
                Ok(list) => is_name_list(texts(values@), texts(list@)),
                Err(_) => false,
            },
        },
{
    let ghost given = texts(values@);
    let mut names: Vec<String> = Vec::new();
    let mut i: usize = 0;
    assert(given.take(0) =~= Seq::<Seq<char>>::empty());
    while i < values.len()
        invariant
            i <= values@.len(),
            given == texts(values@),
            first_bad_name(given.take(i as int)) is None,
            texts(names@) == given.take(i as int),
        decreases values@.len() - i,
    {
        let ghost before = names@;
        proof {
            assert(given.take(i + 1).drop_last() =~= given.take(i as int));
            assert(given.take(i + 1).last() == given[i as int]);
            lemma_first_bad_name_stays(given, i + 1);
        }
        if !is_component_name(values[i].as_str().as_bytes()) {
            return Err(ConfigError::InvalidRecursiveExclusion(values[i].clone()));
        }
        names.push(values[i].clone());
        assert(texts(names@) =~= texts(before).push(given[i as int]));
        i += 1;
    }
    assert(given.take(given.len() as int) =~= given);
    let ghost items = names@;
    let sorted = sort_by_key(names);
    let ghost s = texts(sorted@);
    let ghost (order, places) = choose|order: Seq<int>, places: Seq<int>|
        #[trigger] rearranged(items, sorted@, order, places) && crate::order::keeps_order_of_equals(
            sorted@,
            order,
        );
    proof {
        assert forall|k: int, l: int| 0 <= k < l < s.len() implies bytes_le(
            encode_utf8(#[trigger] s[k]),
            encode_utf8(#[trigger] s[l]),
        ) by {
            assert(key_le(sorted@[k].key(), sorted@[l].key()));
            bytes_le_total(encode_utf8(s[k]), encode_utf8(s[l]));
        }
        assert forall|name: Seq<char>| #[trigger] s.contains(name) <==> given.contains(name) by {
            if s.contains(name) {
                let k = choose|k: int| 0 <= k < s.len() && s[k] == name;
                assert(0 <= order[k] < items.len());
                assert(texts(items)[order[k]] == name);
            }
            if given.contains(name) {
                let k = choose|k: int| 0 <= k < given.len() && given[k] == name;
                assert(texts(items)[k] == name);
                assert(order[places[k]] == k);
                assert(s[places[k]] == name);
            }
        }
    }
    let mut list: Vec<String> = Vec::new();
    let mut j: usize = 0;
    while j < sorted.len()
        invariant
            j <= sorted@.len(),
            s == texts(sorted@),
            forall|k: int, l: int|
                0 <= k < l < s.len() ==> bytes_le(
                    encode_utf8(#[trigger] s[k]),
                    encode_utf8(#[trigger] s[l]),
                ),
            is_name_list(s.take(j as int), texts(list@)),
            j > 0 ==> list@.len() > 0 && texts(list@).last() == s[j - 1],
            j == 0 ==> list@.len() == 0,
        decreases sorted@.len() - j,
    {
        let ghost part = s.take(j as int);
        let ghost longer = s.take(j + 1);
        let ghost before = list@;
        let ghost held = texts(list@);
        proof {
            assert(longer =~= part.push(s[j as int]));
            assert(s[j as int] == sorted@[j as int]@);
        }
        let repeated = list.len() > 0 && same_text(
            list[list.len() - 1].as_str(),
            sorted[j].as_str(),
        );
        if repeated {
            proof {
                assert(held.last() == s[j as int]);
                lemma_repeated_name_adds_nothing(part, held, s[j as int]);
            }
        } else {
            list.push(sorted[j].clone());
            proof {
                assert(texts(list@) =~= held.push(s[j as int]));
                lemma_new_name_comes_last(s, j as int, held);
            }
        }
        j += 1;
    }
    assert(s.take(s.len() as int) =~= s);
    Ok(list)
}

proof fn lemma_first_bad_name_stays(names: Seq<Seq<char>>, length: int)
    requires
        0 <= length <= names.len(),
    ensures
        first_bad_name(names.take(length)) is Some ==> first_bad_name(names) == first_bad_name(
            names.take(length),
        ),
    decreases names.len(),
{
    if length == names.len() {
        assert(names.take(length) =~= names);
    } else {
        assert(names.drop_last().take(length) =~= names.take(length));
        lemma_first_bad_name_stays(names.drop_last(), length);
    }
}

proof fn lemma_repeated_name_adds_nothing(part: Seq<Seq<char>>, list: Seq<Seq<char>>, name: Seq<char>)
    requires
        is_name_list(part, list),
        list.len() > 0,
        list.last() == name,
    ensures
        is_name_list(part.push(name), list),
{
    assert(list.contains(list[list.len() - 1]));
    assert forall|other: Seq<char>| #[trigger] list.contains(other) <==> part.push(name).contains(
        other,
    ) by {
        if part.push(name).contains(other) {
            let k = choose|k: int| 0 <= k < part.push(name).len() && part.push(name)[k] == other;
            if k < part.len() {
                assert(part[k] == other);
                assert(part.contains(other));
            }
        }
        if list.contains(other) {
            let k = choose|k: int| 0 <= k < part.len() && part[k] == other;
            assert(part.push(name)[k] == other);
        }
    }
}

proof fn lemma_new_name_comes_last(s: Seq<Seq<char>>, j: int, list: Seq<Seq<char>>)
    requires
        0 <= j < s.len(),
        forall|k: int, l: int|
            0 <= k < l < s.len() ==> bytes_le(
                encode_utf8(#[trigger] s[k]),
                encode_utf8(#[trigger] s[l]),
            ),
        is_name_list(s.take(j), list),
        j > 0 ==> list.len() > 0 && list.last() == s[j - 1] && list.last() != s[j],
        j == 0 ==> list.len() == 0,
    ensures
        is_name_list(s.take(j + 1), list.push(s[j])),
{
    let name = s[j];
    let part = s.take(j);
    let longer = s.take(j + 1);
    let next = list.push(name);
    assert(longer =~= part.push(name));
    assert forall|a: int, b: int| 0 <= a < b < next.len() implies bytes_le(
        encode_utf8(#[trigger] next[a]),
        encode_utf8(#[trigger] next[b]),
    ) && next[a] != next[b] by {
        assert(next[a] == list[a]);
        if b < list.len() {
            assert(next[b] == list[b]);
        } else {
            assert(list.contains(list[a]));
            let k = choose|k: int| 0 <= k < part.len() && part[k] == list[a];
            assert(bytes_le(encode_utf8(s[k]), encode_utf8(s[j])));
            if list[a] == name {
                assert(k <= j - 1);
                let last = list[list.len() - 1];
                if k < j - 1 {
                    assert(bytes_le(encode_utf8(s[k]), encode_utf8(s[j - 1])));
                }
                assert(bytes_le(encode_utf8(s[j - 1]), encode_utf8(s[j])));
                bytes_le_total(encode_utf8(name), encode_utf8(name));
                bytes_le_antisymmetric(encode_utf8(s[j - 1]), encode_utf8(name));
                encoding_determines_text(s[j - 1], name);
            }
        }
    }
    assert forall|other: Seq<char>| #[trigger] next.contains(other) <==> longer.contains(other) by {
        if next.contains(other) {
            let k = choose|k: int| 0 <= k < next.len() && next[k] == other;
            if k < list.len() {
                assert(list.contains(list[k]));
                let m = choose|m: int| 0 <= m < part.len() && part[m] == other;
                assert(longer[m] == other);
            } else {
                assert(longer[j] == other);
            }
        }
        if longer.contains(other) {
            let k = choose|k: int| 0 <= k < longer.len() && longer[k] == other;
            if k < j {
                assert(part[k] == other);
                assert(part.contains(other));
                assert(list.contains(other));
                let m = choose|m: int| 0 <= m < list.len() && list[m] == other;
                assert(next[m] == other);
            } else {
                assert(next[list.len() as int] == other);
            }
        }
    }
}

/// The largest policy file that is read, in bytes.
pub const MAX_POLICY_BYTES: u64 = 16_777_216;

/// The version of policy files that is understood.
pub const POLICY_SCHEMA_VERSION: u32 = 1;

/// An identifier and a path in a policy file.
#[derive(Debug)]
pub struct PolicyPair {
    pub id: String,
    pub path: String,
}

/// The limits in a policy file; what is not given has its default.
#[derive(Debug, Clone, Copy)]
pub struct PolicyLimits {
    pub max_files: Option<usize>,
    pub max_file_bytes: Option<u64>,
    pub max_total_bytes: Option<u64>,
    pub max_diff_bytes: Option<usize>,
}

/// The content of a policy file.
#[derive(Debug)]
pub struct Policy {
    pub schema_version: u32,
    pub roots: Vec<PolicyPair>,
    pub exclusions: Vec<PolicyPair>,
    pub recursive_exclusions: Vec<String>,
    pub limits: Option<PolicyLimits>,
}

/// What a policy file configures, before its roots and exclusions are checked.
#[derive(Debug)]
pub struct PolicyEntries {
    pub roots: Vec<Entry>,
    pub exclusions: Vec<Entry>,
    pub recursive_exclusions: Vec<String>,
    pub limits: Limits,
}

/// The entries that the pairs of a policy file stand for.
pub open spec fn pair_entries(pairs: Seq<PolicyPair>) -> Seq<EntryView> {
    pairs.map_values(|pair: PolicyPair| EntryView::Pair { id: pair.id@, path: pair.path@ })
}

/// A limit of a policy file, or its default.
pub open spec fn limit_or(limits: Option<PolicyLimits>) -> Limits {
    match limits {
        None => Limits {
            max_files: DEFAULT_MAX_FILES,
            max_file_bytes: DEFAULT_MAX_FILE_BYTES,
            max_total_bytes: DEFAULT_MAX_TOTAL_BYTES,
            max_diff_bytes: DEFAULT_MAX_DIFF_BYTES,
        },
        Some(given) => Limits {
            max_files: match given.max_files {
                Some(value) => value,
                None => DEFAULT_MAX_FILES,
            },
            max_file_bytes: match given.max_file_bytes {
                Some(value) => value,
                None => DEFAULT_MAX_FILE_BYTES,
            },
            max_total_bytes: match given.max_total_bytes {
                Some(value) => value,
                None => DEFAULT_MAX_TOTAL_BYTES,
            },
            max_diff_bytes: match given.max_diff_bytes {
                Some(value) => value,
                None => DEFAULT_MAX_DIFF_BYTES,
            },
        },
    }
}

/// Whether a policy file of a size is read.
pub fn check_policy_size(size: u64) -> (result: Result<(), ConfigError>)
    ensures
        match result {
            Ok(_) => size <= MAX_POLICY_BYTES,
            Err(error) => size > MAX_POLICY_BYTES && error@ == ConfigErrorView::PolicyTooLarge,
        },
{
    if size > MAX_POLICY_BYTES {
        Err(ConfigError::PolicyTooLarge)
    } else {
        Ok(())
    }
}

/// The limits that are given, each with its default where it is not.
pub fn policy_limits(limits: Option<PolicyLimits>) -> (result: Limits)
    ensures
        result == limit_or(limits),
{
    let defaults = Limits::default();
    match limits {
        None => defaults,
        Some(given) => Limits {
            max_files: match given.max_files {
                Some(value) => value,
                None => defaults.max_files,
            },
            max_file_bytes: match given.max_file_bytes {
                Some(value) => value,
                None => defaults.max_file_bytes,
            },
            max_total_bytes: match given.max_total_bytes {
                Some(value) => value,
                None => defaults.max_total_bytes,
            },
            max_diff_bytes: match given.max_diff_bytes {
                Some(value) => value,
                None => defaults.max_diff_bytes,
            },
        },
    }
}

fn policy_pairs(pairs: &Vec<PolicyPair>) -> (list: Vec<Entry>)
    ensures
        entry_views(list@) == pair_entries(pairs@),
{
    let mut list: Vec<Entry> = Vec::new();
    let ghost all = pair_entries(pairs@);
    let mut i: usize = 0;
    while i < pairs.len()
        invariant
            i <= pairs@.len(),
            all == pair_entries(pairs@),
            entry_views(list@) == all.take(i as int),
        decreases pairs@.len() - i,
    {
        let ghost before = list@;
        let entry = Entry::Pair { id: pairs[i].id.clone(), path: pairs[i].path.clone() };
        assert(entry@ == all[i as int]);
        list.push(entry);
        assert(entry_views(list@) =~= entry_views(before).push(all[i as int]));
        i += 1;
    }
    assert(all.take(all.len() as int) =~= all);
    list
}

/// What a policy file configures, where its version is understood. The entries go through
/// the same checks as those of the command line.
pub fn check_policy(policy: &Policy) -> (result: Result<PolicyEntries, ConfigError>)
    ensures
        match result {
            Ok(configured) => {
                &&& policy.schema_version == POLICY_SCHEMA_VERSION
                &&& entry_views(configured.roots@) == pair_entries(policy.roots@)
                &&& entry_views(configured.exclusions@) == pair_entries(policy.exclusions@)
                &&& texts(configured.recursive_exclusions@) == texts(policy.recursive_exclusions@)
                &&& configured.limits == limit_or(policy.limits)
            },
            Err(error) => {
                &&& policy.schema_version != POLICY_SCHEMA_VERSION
                &&& error@ == ConfigErrorView::UnsupportedPolicyVersion(policy.schema_version)
            },
        },
{
    if policy.schema_version != POLICY_SCHEMA_VERSION {
        return Err(ConfigError::UnsupportedPolicyVersion(policy.schema_version));
    }
    Ok(
        PolicyEntries {
            roots: policy_pairs(&policy.roots),
            exclusions: policy_pairs(&policy.exclusions),
            recursive_exclusions: copy_texts(&policy.recursive_exclusions),
            limits: policy_limits(policy.limits),
        },
    )
}

/// What is to be done next about the output directory.
#[derive(Debug)]
pub enum OutputStep {
    /// Resolve this path to its canonical form.
    Resolve(Vec<u8>),
    /// The output can be made.
    Accepted,
}

/// The output path from the root directory: a relative one starts at the current
/// directory, which is the root directory where it is not known.
pub open spec fn absolute_output(output: Seq<u8>, current_dir: Option<Seq<u8>>) -> Seq<u8> {
    if is_absolute_path(output) {
        output
    } else {
        match current_dir {
            Some(base) => joined(base, output),
            None => joined(seq![SEPARATOR], output),
        }
    }
}

/// The directory that the output is made in.
pub open spec fn output_parent(absolute: Seq<u8>) -> Seq<u8> {
    match parent_of(absolute) {
        Some(found) => found,
        None => seq![SEPARATOR],
    }
}

/// The output path inside the canonical form of the directory that it is made in.
pub open spec fn canonical_output(absolute: Seq<u8>, canonical_parent: Seq<u8>) -> Seq<u8> {
    joined(
        canonical_parent,
        match file_name_of(absolute) {
            Some(name) => name,
            None => Seq::empty(),
        },
    )
}

/// One of the roots covers the path.
pub open spec fn inside_a_root(path: Seq<u8>, roots: Seq<RootView>) -> bool {
    exists|i: int| 0 <= i < roots.len() && covers((#[trigger] roots[i]).path, path)
}

/// The path of an optional byte string.
pub open spec fn bytes_of(value: Option<Vec<u8>>) -> Option<Seq<u8>> {
    match value {
        Some(bytes) => Some(bytes@),
        None => None,
    }
}

/// Checks where the output goes: it must not exist, and it must not lie in a root. The
/// caller says whether it exists and what the current directory is, resolves the path that
/// is asked for, and asks again with what came of it.
pub fn validate_output(
    output: &[u8],
    exists_already: bool,
    current_dir: &Option<Vec<u8>>,
    resolved: &Option<Result<Vec<u8>, String>>,
    roots: &[Root],
) -> (result: Result<OutputStep, ConfigError>)
    ensures
        ({
            let absolute = absolute_output(output@, bytes_of(*current_dir));
            if exists_already {
                match result {
                    Err(error) => error@ == ConfigErrorView::OutputExists(output@),
                    Ok(_) => false,
                }
            } else {
                match *resolved {
                    None => match result {
                        Ok(OutputStep::Resolve(path)) => path@ == output_parent(absolute),
                        _ => false,
                    },
                    Some(Err(source)) => match result {
                        Err(error) => error@ == (ConfigErrorView::RootIo {
                            path: output_parent(absolute),
                            source: source@,
                        }),
                        Ok(_) => false,
                    },
                    Some(Ok(canonical)) => {
                        let path = canonical_output(absolute, canonical@);
                        match result {
                            Ok(OutputStep::Accepted) => !inside_a_root(path, root_views(roots@)),
                            Ok(OutputStep::Resolve(_)) => false,
                            Err(error) => {
                                &&& inside_a_root(path, root_views(roots@))
                                &&& error@ == ConfigErrorView::OutputInsideRoot(path)
                            },
                        }
                    },
                }
            }
        }),
{
    if exists_already {
        return Err(ConfigError::OutputExists(copy_bytes(output)));
    }
    let absolute = if is_absolute(output) {
        copy_bytes(output)
    } else {
        match current_dir {
            Some(base) => join(base, output),
            None => {
                let mut base: Vec<u8> = Vec::new();
                base.push(SEPARATOR);
                assert(base@ =~= seq![SEPARATOR]);
                join(&base, output)
            },
        }
    };
    let directory = match parent(&absolute) {
        Some(found) => found,
        None => {
            let mut base: Vec<u8> = Vec::new();
            base.push(SEPARATOR);
            assert(base@ =~= seq![SEPARATOR]);
            base
        },
    };
    match resolved {
        None => Ok(OutputStep::Resolve(directory)),
        Some(Err(source)) => Err(ConfigError::RootIo { path: directory, source: source.clone() }),
        Some(Ok(canonical)) => {
            let name = match file_name(&absolute) {
                Some(name) => name,
                None => Vec::new(),
            };
            assert(file_name_of(absolute@) is None ==> name@ =~= Seq::<u8>::empty());
            let path = join(canonical, &name);
            let list = components(&path);
            let ghost all = root_views(roots@);
            let mut i: usize = 0;
            while i < roots.len()
                invariant
                    i <= roots@.len(),
                    all == root_views(roots@),
                    component_views(list@) == components_of(path@),
                    forall|j: int| 0 <= j < i ==> !covers((#[trigger] all[j]).path, path@),
                    path@ == canonical_output(
                        absolute_output(output@, bytes_of(*current_dir)),
                        canonical@,
                    ),
                    !exists_already,
                    *resolved == Some(Ok::<Vec<u8>, String>(*canonical)),
                decreases roots@.len() - i,
            {
                assert(all[i as int] == roots@[i as int]@);
                if starts_with(&list, &components(&roots[i].path)) {
                    assert(covers(all[i as int].path, path@));
                    return Err(ConfigError::OutputInsideRoot(path));
                }
                assert(!covers(all[i as int].path, path@));
                i += 1;
            }
            Ok(OutputStep::Accepted)
        },
    }
}

/// An entry is a pair exactly where its text holds an equals sign: what stands before the first
/// one is the identifier, and everything behind it the path.
pub proof fn a_pair_is_split_at_the_first_equals(id: Seq<char>, path: Seq<char>)
    requires
        !id.contains('='),
    ensures
        entry_of(id + seq!['='] + path) == (EntryView::Pair { id, path }),
        entry_of(id) == EntryView::Malformed(id),
{
    crate::text::a_text_is_split_at_the_first_equals(id, path);
}

/// Entries stand for their texts one by one.
pub proof fn entries_stand_for_their_texts(values: &[String], list: Vec<Entry>, i: int)
    requires
        call_ensures(entries, (values,), list),
        0 <= i < values@.len(),
    ensures
        list@.len() == values@.len(),
        list@[i] is Malformed <==> !values@[i]@.contains('='),
        list@[i] is Malformed ==> list@[i]->Malformed_0@ == values@[i]@,
        list@[i] is Pair ==> !list@[i]->id@.contains('=') && values@[i]@ == list@[i]->id@ + seq!['=']
            + list@[i]->path@,
{
    let views = entry_views(list@);
    let given = texts(values@);
    assert(views.len() == list@.len() && given.len() == values@.len());
    assert(views[i] == list@[i]@);
    assert(given[i] == values@[i]@);
    assert(views[i] == entry_of(given[i]));
    let text = given[i];
    crate::text::first_index_is_first(text, '=');
    match crate::text::first_index(text, '=') {
        Some(index) => {
            assert(text.contains(text[index]));
            let id = text.subrange(0, index);
            let path = text.subrange(index + 1, text.len() as int);
            assert(text =~= id + seq!['='] + path);
            assert forall|k: int| 0 <= k < id.len() implies id[k] != '=' by {
                assert(text[k] != '=');
            }
        },
        None => {
            assert forall|k: int| 0 <= k < text.len() implies text[k] != '=' by {}
        },
    }
}

/// The character may stand in an identifier: an ASCII letter or digit, `_` or `-`.
pub open spec fn may_stand_in_an_id(c: char) -> bool {
    c == '-' || c == '_' || ('a' <= c && c <= 'z') || ('A' <= c && c <= 'Z') || ('0' <= c && c
        <= '9')
}

/// An identifier is not empty and made of ASCII letters, digits, `_` and `-` alone.
pub proof fn identifiers_are_plain(id: Seq<char>)
    ensures
        is_root_id(id) <==> id.len() > 0 && forall|i: int|
            0 <= i < id.len() ==> may_stand_in_an_id(#[trigger] id[i]),
{
    assert forall|i: int| 0 <= i < id.len() implies is_id_char(#[trigger] id[i])
        == may_stand_in_an_id(id[i]) by {}
    if is_root_id(id) {
        assert forall|i: int| 0 <= i < id.len() implies may_stand_in_an_id(#[trigger] id[i]) by {
            assert(is_id_char(id[i]));
        }
    }
    if id.len() > 0 && forall|i: int| 0 <= i < id.len() ==> may_stand_in_an_id(#[trigger] id[i]) {
        assert forall|i: int| 0 <= i < id.len() implies is_id_char(#[trigger] id[i]) by {
            assert(may_stand_in_an_id(id[i]));
        }
    }
}

/// The entry at a position is taken as a root: it is a pair with a well-formed identifier that no
/// entry before it has, and its path was resolved.
pub open spec fn is_taken(
    list: Seq<EntryView>,
    resolved: Seq<Result<Seq<u8>, Seq<char>>>,
    at: int,
    root: RootView,
) -> bool {
    &&& 0 <= at < list.len()
    &&& at < resolved.len()
    &&& list[at] is Pair
    &&& list[at]->id == root.id
    &&& is_root_id(root.id)
    &&& resolved[at] == Ok::<Seq<u8>, Seq<char>>(root.path)
    &&& forall|k: int| 0 <= k < at ==> !((#[trigger] list[k]) is Pair && list[k]->id == root.id)
}

/// Roots are taken one by one, in their order. All are taken exactly where every entry can be;
/// otherwise the first entry that cannot be decides: its path has to be resolved yet, or it is
/// refused because it is no pair, has a malformed or a used identifier, or cannot be resolved.
pub proof fn roots_are_taken_one_by_one(
    list: Seq<EntryView>,
    resolved: Seq<Result<Seq<u8>, Seq<char>>>,
    taken: Seq<RootView>,
)
    requires
        taken.len() <= list.len(),
        forall|i: int| 0 <= i < taken.len() ==> is_taken(list, resolved, i, #[trigger] taken[i]),
    ensures
        scan_roots(list, resolved, taken) is Complete ==> scan_roots(
            list,
            resolved,
            taken,
        )->Complete_0.len() == list.len(),
        scan_roots(list, resolved, taken) is Complete ==> forall|i: int|
            0 <= i < list.len() ==> is_taken(
                list,
                resolved,
                i,
                #[trigger] scan_roots(list, resolved, taken)->Complete_0[i],
            ),
        scan_roots(list, resolved, taken) is Resolve ==> is_asked_for(
            list,
            resolved,
            resolved.len() as int,
            scan_roots(list, resolved, taken)->Resolve_0,
        ),
        scan_roots(list, resolved, taken) is Refused ==> exists|at: int| #[trigger]
            is_refused(list, resolved, at, scan_roots(list, resolved, taken)->Refused_0),
    decreases list.len() - taken.len(),
{
    let at = taken.len() as int;
    if at < list.len() {
        assert forall|k: int| 0 <= k < at implies (#[trigger] list[k]) is Pair && list[k]->id
            == taken[k].id by {
            assert(is_taken(list, resolved, k, taken[k]));
        }
        assert(earlier_are_taken(list, resolved, at)) by {
            assert forall|k: int| 0 <= k < at implies #[trigger] can_be_taken(
                list,
                resolved,
                k,
            ) by {
                assert(is_taken(list, resolved, k, taken[k]));
            }
        }
        match list[at] {
            EntryView::Malformed(value) => {
                assert(is_refused(list, resolved, at, ConfigErrorView::InvalidRoot(value)));
            },
            EntryView::Pair { id, path } => {
                if !is_root_id(id) {
                    assert(is_refused(list, resolved, at, ConfigErrorView::InvalidRootId(id)));
                } else if has_root(taken, id) {
                    let k = choose|k: int| 0 <= k < taken.len() && (#[trigger] taken[k]).id == id;
                    assert(list[k] is Pair && list[k]->id == id);
                    assert(is_refused(list, resolved, at, ConfigErrorView::DuplicateRootId(id)));
                } else {
                    assert forall|k: int| 0 <= k < at implies !((#[trigger] list[k]) is Pair
                        && list[k]->id == id) by {
                        assert(taken[k].id != id);
                    }
                    if at >= resolved.len() {
                        if at > 0 {
                            assert(is_taken(list, resolved, at - 1, taken[at - 1]));
                        }
                        assert(is_asked_for(list, resolved, at, encode_utf8(path)));
                    } else {
                        match resolved[at] {
                            Err(source) => {
                                assert(is_refused(
                                    list,
                                    resolved,
                                    at,
                                    ConfigErrorView::RootIo { path: encode_utf8(path), source },
                                ));
                            },
                            Ok(canonical) => {
                                let next = taken.push(RootView { id, path: canonical });
                                assert forall|i: int| 0 <= i < next.len() implies is_taken(
                                    list,
                                    resolved,
                                    i,
                                    #[trigger] next[i],
                                ) by {
                                    if i < taken.len() {
                                        assert(next[i] == taken[i]);
                                    }
                                }
                                assert(scan_roots(list, resolved, taken) == scan_roots(
                                    list,
                                    resolved,
                                    next,
                                ));
                                roots_are_taken_one_by_one(list, resolved, next);
                            },
                        }
                    }
                }
            },
        }
    } else {
        assert(scan_roots(list, resolved, taken) == RootsScan::Complete(taken));
    }
}

/// Every entry before a position is taken.
pub open spec fn earlier_are_taken(
    list: Seq<EntryView>,
    resolved: Seq<Result<Seq<u8>, Seq<char>>>,
    at: int,
) -> bool {
    forall|k: int| 0 <= k < at ==> #[trigger] can_be_taken(list, resolved, k)
}

/// The entry at a position is taken as some root.
pub open spec fn can_be_taken(
    list: Seq<EntryView>,
    resolved: Seq<Result<Seq<u8>, Seq<char>>>,
    at: int,
) -> bool {
    exists|root: RootView| #[trigger] is_taken(list, resolved, at, root)
}

/// The path of the entry at a position has to be resolved next.
pub open spec fn is_asked_for(
    list: Seq<EntryView>,
    resolved: Seq<Result<Seq<u8>, Seq<char>>>,
    at: int,
    path: Seq<u8>,
) -> bool {
    &&& 0 <= at < list.len()
    &&& at == resolved.len()
    &&& earlier_are_taken(list, resolved, at)
    &&& list[at] is Pair
    &&& path == encode_utf8(list[at]->path)
    &&& is_root_id(list[at]->id)
    &&& forall|k: int|
        0 <= k < at ==> !((#[trigger] list[k]) is Pair && list[k]->id == list[at]->id)
}

/// The entry at a position is refused with an error.
pub open spec fn is_refused(
    list: Seq<EntryView>,
    resolved: Seq<Result<Seq<u8>, Seq<char>>>,
    at: int,
    error: ConfigErrorView,
) -> bool {
    &&& 0 <= at < list.len()
    &&& earlier_are_taken(list, resolved, at)
    &&& match error {
        ConfigErrorView::InvalidRoot(value) => list[at] == EntryView::Malformed(value),
        ConfigErrorView::InvalidRootId(id) => list[at] is Pair && list[at]->id == id && !is_root_id(
            id,
        ),
        ConfigErrorView::DuplicateRootId(id) => list[at] is Pair && list[at]->id == id
            && is_root_id(id) && exists|k: int|
            0 <= k < at && (#[trigger] list[k]) is Pair && list[k]->id == id,
        ConfigErrorView::RootIo { path, source } => list[at] is Pair && path == encode_utf8(
            list[at]->path,
        ) && at < resolved.len() && resolved[at] == Err::<Seq<u8>, Seq<char>>(source),
        _ => false,
    }
}

/// Roots that are accepted do not overlap: no root's components are the beginning of another's.
/// They are the ones that were taken, in the order of their paths; where two overlap, the two
/// are named, the outer one first.
pub proof fn accepted_roots_do_not_overlap(
    list: Vec<Entry>,
    resolved: &[Result<Vec<u8>, String>],
    found: Seq<RootView>,
    result: Result<RootsStep, ConfigError>,
)
    requires
        call_ensures(check_roots, (&list, resolved), result),
        scan_roots(entry_views(list@), resolutions(resolved@), Seq::empty())
            == RootsScan::Complete(found),
    ensures
        result is Ok <==> forall|i: int, j: int|
            0 <= i < found.len() && 0 <= j < found.len() && i != j ==> !components_of(
                (#[trigger] found[i]).path,
            ).is_prefix_of(components_of((#[trigger] found[j]).path)),
        result is Ok ==> result->Ok_0 is Done && result->Ok_0->Done_0@.len() == found.len()
            && forall|root: RootView| #[trigger]
            root_views(result->Ok_0->Done_0@).contains(root) <==> found.contains(root),
        result is Err ==> result->Err_0@ is OverlappingRoots && exists|i: int, j: int|
            0 <= i < found.len() && 0 <= j < found.len() && i != j && result->Err_0@
                == ConfigErrorView::OverlappingRoots(
                (#[trigger] found[i]).path,
                (#[trigger] found[j]).path,
            ) && components_of(found[i].path).is_prefix_of(components_of(found[j].path)),
{
    match result {
        Ok(step) => {
            assert(root_views(step->Done_0@).len() == step->Done_0@.len());
            assert forall|i: int, j: int|
                0 <= i < found.len() && 0 <= j < found.len() && i != j implies !components_of(
                (#[trigger] found[i]).path,
            ).is_prefix_of(components_of((#[trigger] found[j]).path)) by {
                assert(!covers(found[i].path, found[j].path));
            }
        },
        Err(error) => {
            match error@ {
                ConfigErrorView::OverlappingRoots(a, b) => {
                    let (i, j) = choose|i: int, j: int| #[trigger] overlap_at(found, a, b, i, j);
                    assert(components_of(found[i].path).is_prefix_of(
                        components_of(found[j].path),
                    ));
                },
                _ => {},
            }
        },
    }
}

/// The entry names a known root and a path of one or more names below it.
pub open spec fn can_be_excluded(entry: EntryView, roots: Seq<RootView>) -> bool {
    &&& entry is Pair
    &&& exists|i: int| 0 <= i < roots.len() && (#[trigger] roots[i]).id == entry->id
    &&& components_of(encode_utf8(entry->path)).len() > 0
    &&& forall|k: int|
        0 <= k < components_of(encode_utf8(entry->path)).len() ==> (#[trigger] components_of(
            encode_utf8(entry->path),
        )[k]) is Normal
}

/// Exclusions are accepted exactly where every entry is a pair of a known root and a path of
/// names. Otherwise the first entry that is none decides: no pair, an unknown root, or another
/// path, in this order.
pub proof fn exclusions_name_paths_below_known_roots(list: Seq<EntryView>, roots: Seq<RootView>)
    ensures
        match first_exclusion_fault(list, roots) {
            None => forall|i: int|
                0 <= i < list.len() ==> can_be_excluded(#[trigger] list[i], roots),
            Some(error) => exists|at: int| #[trigger] is_faulty(list, roots, at, error),
        },
    decreases list.len(),
{
    if list.len() > 0 {
        let head = list.drop_last();
        let last = list.len() - 1;
        exclusions_name_paths_below_known_roots(head, roots);
        match first_exclusion_fault(head, roots) {
            Some(error) => {
                let at = choose|at: int| #[trigger] is_faulty(head, roots, at, error);
                assert(head[at] == list[at]);
                assert forall|k: int| 0 <= k < at implies can_be_excluded(
                    #[trigger] list[k],
                    roots,
                ) by {
                    assert(head[k] == list[k]);
                }
                assert(is_faulty(list, roots, at, error));
            },
            None => {
                assert forall|k: int| 0 <= k < last implies can_be_excluded(
                    #[trigger] list[k],
                    roots,
                ) by {
                    assert(head[k] == list[k]);
                }
                match exclusion_fault(list.last(), roots) {
                    Some(error) => {
                        assert(list[last] == list.last());
                        assert(is_faulty(list, roots, last, error));
                    },
                    None => {
                        assert forall|i: int| 0 <= i < list.len() implies can_be_excluded(
                            #[trigger] list[i],
                            roots,
                        ) by {}
                    },
                }
            },
        }
    }
}

/// The entry at a position is the first that cannot be excluded, for the reason of the error.
pub open spec fn is_faulty(
    list: Seq<EntryView>,
    roots: Seq<RootView>,
    at: int,
    error: ConfigErrorView,
) -> bool {
    &&& 0 <= at < list.len()
    &&& forall|k: int| 0 <= k < at ==> can_be_excluded(#[trigger] list[k], roots)
    &&& !can_be_excluded(list[at], roots)
    &&& match error {
        ConfigErrorView::InvalidExclusion(value) => list[at] == EntryView::Malformed(value),
        ConfigErrorView::UnknownExclusionRoot(id) => list[at] is Pair && list[at]->id == id
            && forall|i: int| 0 <= i < roots.len() ==> (#[trigger] roots[i]).id != id,
        ConfigErrorView::InvalidExclusionPath(path) => list[at] is Pair && list[at]->path == path
            && exists|i: int| 0 <= i < roots.len() && (#[trigger] roots[i]).id == list[at]->id,
        _ => false,
    }
}

/// The exclusion is the one of an entry, with its path in normal form.
pub open spec fn was_given(list: Seq<Entry>, exclusion: Exclusion) -> bool {
    exists|k: int|
        0 <= k < list.len() && (#[trigger] list[k]) is Pair && list[k]->id@ == exclusion.root_id@
            && normalized(encode_utf8(list[k]->path@)) == exclusion.relative@
}

/// What exclusions come to: of all that were given, in normal form, those that no other one
/// covers, each once.
pub proof fn the_outermost_exclusions_are_kept(
    list: Vec<Entry>,
    roots: &[Root],
    result: Result<Vec<Exclusion>, ConfigError>,
)
    requires
        call_ensures(check_exclusions, (&list, roots), result),
        result is Ok,
    ensures
        forall|i: int|
            0 <= i < result->Ok_0@.len() ==> was_given(list@, #[trigger] result->Ok_0@[i]),
        forall|i: int, j: int|
            0 <= i < result->Ok_0@.len() && 0 <= j < result->Ok_0@.len() && i != j ==> !((
            #[trigger] result->Ok_0@[i]).root_id@ == (#[trigger] result->Ok_0@[j]).root_id@
                && components_of(result->Ok_0@[i].relative@).is_prefix_of(
                components_of(result->Ok_0@[j].relative@),
            )),
{
    let given = entry_views(list@);
    let all = exclusions_of(given);
    let kept = result->Ok_0@;
    let reduced = exclusion_views(kept);
    assert(given.len() == list@.len() && reduced.len() == kept.len() && all.len() == given.len());
    lemma_unfaulted_entries(given, root_views(roots@));
    assert forall|i: int| 0 <= i < kept.len() implies was_given(list@, #[trigger] kept[i]) by {
        assert(reduced[i] == kept[i]@);
        assert(reduced.contains(reduced[i]));
        assert(outermost(all, reduced[i]));
        let k = choose|k: int| 0 <= k < all.len() && all[k] == reduced[i];
        assert(given[k] == list@[k]@);
        assert(exclusion_fault(given[k], root_views(roots@)) is None);
        assert(all[k] == exclusion_of(given[k]));
        assert(list@[k] is Pair);
    }
    assert forall|i: int, j: int| 0 <= i < kept.len() && 0 <= j < kept.len() && i != j implies !((
    #[trigger] kept[i]).root_id@ == (#[trigger] kept[j]).root_id@ && components_of(
        kept[i].relative@,
    ).is_prefix_of(components_of(kept[j].relative@))) by {
        assert(reduced[i] == kept[i]@ && reduced[j] == kept[j]@);
        assert(reduced.contains(reduced[i]) && reduced.contains(reduced[j]));
        assert(outermost(all, reduced[i]) && outermost(all, reduced[j]));
        if i < j {
            assert(reduced[i] != reduced[j]);
        } else {
            assert(reduced[j] != reduced[i]);
        }
        if covers_exclusion(reduced[i], reduced[j]) {
            assert(all.contains(reduced[i]));
        }
    }
}

/// Names that are left out at every depth are accepted exactly where each is one component of a
/// path; they come back in the order of their bytes, each once.
pub proof fn names_to_leave_out_are_components(
    values: &[String],
    result: Result<Vec<String>, ConfigError>,
)
    requires
        call_ensures(parse_recursive_exclusions, (values,), result),
    ensures
        result is Ok <==> forall|i: int|
            0 <= i < values@.len() ==> crate::paths::can_be_a_name(
                encode_utf8((#[trigger] values@[i])@),
            ),
        result is Ok ==> forall|name: Seq<char>| #[trigger]
            texts(result->Ok_0@).contains(name) <==> texts(values@).contains(name),
        result is Ok ==> forall|i: int, j: int|
            0 <= i < j < result->Ok_0@.len() ==> (#[trigger] result->Ok_0@[i])@ != (
            #[trigger] result->Ok_0@[j])@ && bytes_le(
                encode_utf8(result->Ok_0@[i]@),
                encode_utf8(result->Ok_0@[j]@),
            ),
        result is Err ==> result->Err_0@ is InvalidRecursiveExclusion && exists|i: int|
            0 <= i < values@.len() && (#[trigger] values@[i])@
                == result->Err_0@->InvalidRecursiveExclusion_0 && !crate::paths::can_be_a_name(
                encode_utf8(values@[i]@),
            ),
{
    let given = texts(values@);
    assert(given.len() == values@.len());
    lemma_first_bad_name(given);
    assert forall|i: int| 0 <= i < values@.len() implies is_name(encode_utf8((#[trigger] values@[i])@))
        == crate::paths::can_be_a_name(encode_utf8(values@[i]@)) by {
        crate::paths::a_name_is_one_component(encode_utf8(values@[i]@));
    }
    match first_bad_name(given) {
        Some(name) => {
            let i = choose|i: int| 0 <= i < given.len() && (#[trigger] given[i]) == name && !is_name(
                encode_utf8(given[i]),
            );
            assert(given[i] == values@[i]@);
            assert(!crate::paths::can_be_a_name(encode_utf8(values@[i]@)));
        },
        None => {
            assert forall|i: int| 0 <= i < values@.len() implies crate::paths::can_be_a_name(
                encode_utf8((#[trigger] values@[i])@),
            ) by {
                assert(is_name(encode_utf8(given[i])));
            }
            let list = texts(result->Ok_0@);
            assert(list.len() == result->Ok_0@.len());
            assert forall|i: int, j: int| 0 <= i < j < result->Ok_0@.len() implies (
            #[trigger] result->Ok_0@[i])@ != (#[trigger] result->Ok_0@[j])@ && bytes_le(
                encode_utf8(result->Ok_0@[i]@),
                encode_utf8(result->Ok_0@[j]@),
            ) by {
                assert(list[i] == result->Ok_0@[i]@ && list[j] == result->Ok_0@[j]@);
            }
        },
    }
}

proof fn lemma_first_bad_name(names: Seq<Seq<char>>)
    ensures
        match first_bad_name(names) {
            Some(name) => exists|i: int|
                0 <= i < names.len() && (#[trigger] names[i]) == name && !is_name(
                    encode_utf8(names[i]),
                ),
            None => forall|i: int| 0 <= i < names.len() ==> is_name(encode_utf8(#[trigger] names[i])),
        },
    decreases names.len(),
{
    if names.len() > 0 {
        let head = names.drop_last();
        lemma_first_bad_name(head);
        match first_bad_name(head) {
            Some(name) => {
                let i = choose|i: int|
                    0 <= i < head.len() && (#[trigger] head[i]) == name && !is_name(
                        encode_utf8(head[i]),
                    );
                assert(names[i] == name);
            },
            None => {
                if !is_name(encode_utf8(names.last())) {
                    assert(names[names.len() - 1] == names.last());
                } else {
                    assert forall|i: int| 0 <= i < names.len() implies is_name(
                        encode_utf8(#[trigger] names[i]),
                    ) by {
                        if i < head.len() {
                            assert(head[i] == names[i]);
                        }
                    }
                }
            },
        }
    }
}

/// A limit that is given holds, whatever it is; one that is not has its default.
pub proof fn given_limits_hold(limits: Option<PolicyLimits>, result: Limits)
    requires
        call_ensures(policy_limits, (limits,), result),
    ensures
        limits is Some && limits->0.max_files is Some ==> result.max_files
            == limits->0.max_files->0,
        limits is None || limits->0.max_files is None ==> result.max_files == 10_000,
        limits is Some && limits->0.max_file_bytes is Some ==> result.max_file_bytes
            == limits->0.max_file_bytes->0,
        limits is None || limits->0.max_file_bytes is None ==> result.max_file_bytes == 33_554_432,
        limits is Some && limits->0.max_total_bytes is Some ==> result.max_total_bytes
            == limits->0.max_total_bytes->0,
        limits is None || limits->0.max_total_bytes is None ==> result.max_total_bytes
            == 268_435_456,
        limits is Some && limits->0.max_diff_bytes is Some ==> result.max_diff_bytes
            == limits->0.max_diff_bytes->0,
        limits is None || limits->0.max_diff_bytes is None ==> result.max_diff_bytes == 2_097_152,
{
}

/// A policy is understood exactly where its version is the known one; it then configures what it
/// says, entry by entry.
pub proof fn a_policy_configures_what_it_says(
    policy: Policy,
    result: Result<PolicyEntries, ConfigError>,
)
    requires
        call_ensures(check_policy, (&policy,), result),
    ensures
        result is Ok <==> policy.schema_version == 1,
        result is Err ==> result->Err_0@ == ConfigErrorView::UnsupportedPolicyVersion(
            policy.schema_version,
        ),
        result is Ok ==> {
            let configured = result->Ok_0;
            &&& configured.roots@.len() == policy.roots@.len()
            &&& forall|i: int|
                0 <= i < policy.roots@.len() ==> (#[trigger] configured.roots@[i]) is Pair
                    && configured.roots@[i]->id@ == policy.roots@[i].id@
                    && configured.roots@[i]->path@ == policy.roots@[i].path@
            &&& configured.exclusions@.len() == policy.exclusions@.len()
            &&& forall|i: int|
                0 <= i < policy.exclusions@.len() ==> (#[trigger] configured.exclusions@[i]) is Pair
                    && configured.exclusions@[i]->id@ == policy.exclusions@[i].id@
                    && configured.exclusions@[i]->path@ == policy.exclusions@[i].path@
            &&& texts(configured.recursive_exclusions@) == texts(policy.recursive_exclusions@)
            &&& configured.limits == limit_or(policy.limits)
        },
{
    if result is Ok {
        let configured = result->Ok_0;
        let roots = entry_views(configured.roots@);
        let exclusions = entry_views(configured.exclusions@);
        assert(roots.len() == configured.roots@.len());
        assert(exclusions.len() == configured.exclusions@.len());
        assert(pair_entries(policy.roots@).len() == policy.roots@.len());
        assert(pair_entries(policy.exclusions@).len() == policy.exclusions@.len());
        assert forall|i: int| 0 <= i < policy.roots@.len() implies (#[trigger] configured.roots@[i])
            is Pair && configured.roots@[i]->id@ == policy.roots@[i].id@
            && configured.roots@[i]->path@ == policy.roots@[i].path@ by {
            assert(roots[i] == configured.roots@[i]@);
            assert(roots[i] == pair_entries(policy.roots@)[i]);
        }
        assert forall|i: int| 0 <= i < policy.exclusions@.len() implies (
        #[trigger] configured.exclusions@[i]) is Pair && configured.exclusions@[i]->id@
            == policy.exclusions@[i].id@ && configured.exclusions@[i]->path@
            == policy.exclusions@[i].path@ by {
            assert(exclusions[i] == configured.exclusions@[i]@);
            assert(exclusions[i] == pair_entries(policy.exclusions@)[i]);
        }
    }
}

/// A policy file is read exactly where it has at most sixteen mebibytes.
pub proof fn policies_are_not_too_large(size: u64, result: Result<(), ConfigError>)
    requires
        call_ensures(check_policy_size, (size,), result),
    ensures
        result is Ok <==> size <= 16_777_216,
        result is Err ==> result->Err_0@ is PolicyTooLarge,
{
}

/// An output is accepted only where it does not exist and no root is it or holds it: it is looked
/// for in the canonical form of its directory, from the current directory where it is relative.
pub proof fn an_output_lies_outside_every_root(
    output: &[u8],
    exists_already: bool,
    current_dir: Option<Vec<u8>>,
    resolved: Option<Result<Vec<u8>, String>>,
    roots: &[Root],
    absolute: Seq<u8>,
    result: Result<OutputStep, ConfigError>,
)
    requires
        call_ensures(
            validate_output,
            (output, exists_already, &current_dir, &resolved, roots),
            result,
        ),
        output@.len() > 0 && output@[0] == 47 ==> absolute == output@,
        !(output@.len() > 0 && output@[0] == 47) && current_dir is Some ==> absolute == joined(
            current_dir->0@,
            output@,
        ),
        !(output@.len() > 0 && output@[0] == 47) && current_dir is None ==> absolute == joined(
            seq![47u8],
            output@,
        ),
    ensures
        exists_already ==> result is Err && result->Err_0@ == ConfigErrorView::OutputExists(output@),
        ({
            let directory = if parent_of(absolute) is Some {
                parent_of(absolute)->0
            } else {
                seq![47u8]
            };
            &&& !exists_already && resolved is None ==> result is Ok && result->Ok_0 is Resolve
                && result->Ok_0->Resolve_0@ == directory
            &&& !exists_already && resolved is Some && resolved->0 is Err ==> result is Err
                && result->Err_0@ == (ConfigErrorView::RootIo {
                path: directory,
                source: resolved->0->Err_0@,
            })
        }),
        !exists_already && resolved is Some && resolved->0 is Ok ==> {
            let path = joined(
                resolved->0->Ok_0@,
                if file_name_of(absolute) is Some {
                    file_name_of(absolute)->0
                } else {
                    Seq::empty()
                },
            );
            &&& result is Ok ==> result->Ok_0 is Accepted
            &&& result is Ok <==> forall|i: int|
                0 <= i < roots@.len() ==> !components_of(
                    (#[trigger] roots@[i]).path@,
                ).is_prefix_of(components_of(path))
            &&& result is Err ==> result->Err_0@ == ConfigErrorView::OutputInsideRoot(path)
        },
{
    let all = root_views(roots@);
    assert(all.len() == roots@.len());
    assert(absolute == absolute_output(output@, bytes_of(current_dir)));
    if !exists_already && resolved is Some && resolved->0 is Ok {
        let path = canonical_output(absolute, resolved->0->Ok_0@);
        if inside_a_root(path, all) {
            let i = choose|i: int| 0 <= i < all.len() && covers((#[trigger] all[i]).path, path);
            assert(all[i] == roots@[i]@);
            assert(components_of(roots@[i].path@).is_prefix_of(components_of(path)));
        } else {
            assert forall|i: int| 0 <= i < roots@.len() implies !components_of(
                (#[trigger] roots@[i]).path@,
            ).is_prefix_of(components_of(path)) by {
                assert(all[i] == roots@[i]@);
                assert(!covers(all[i].path, path));
            }
        }
    }
}

/// A refusal says what is refused.
pub proof fn a_refusal_says_what_is_refused(error: ConfigError, text: String)
    requires
        call_ensures(ConfigError::message, (&error,), text),
    ensures
        error is InvalidRoot ==> text@ == "root must use ID=PATH syntax: "@ + error->InvalidRoot_0@,
        error is InvalidRootId ==> text@
            == "root ID must contain only ASCII letters, digits, '_' or '-': "@
            + error->InvalidRootId_0@,
        error is DuplicateRootId ==> text@ == "duplicate root ID: "@ + error->DuplicateRootId_0@,
        error is InvalidExclusion ==> text@ == "exclusion must use ROOT_ID=RELATIVE_PATH syntax: "@
            + error->InvalidExclusion_0@,
        error is UnknownExclusionRoot ==> text@ == "exclusion references unknown root ID: "@
            + error->UnknownExclusionRoot_0@,
        error is InvalidExclusionPath ==> text@
            == "exclusion path must be a non-empty normalized relative path: "@
            + error->InvalidExclusionPath_0@,
        error is InvalidRecursiveExclusion ==> text@
            == "recursive exclusion must be one path component: "@
            + error->InvalidRecursiveExclusion_0@,
        error is RootIo ==> text@ == "cannot resolve root "@ + lossy_text(error->path@) + ": "@
            + error->source@,
        error is OverlappingRoots ==> text@ == "roots overlap: "@ + lossy_text(
            error->OverlappingRoots_0@,
        ) + " and "@ + lossy_text(error->OverlappingRoots_1@),
        error is OutputExists ==> text@ == "output already exists: "@ + lossy_text(
            error->OutputExists_0@,
        ),
        error is OutputInsideRoot ==> text@ == "output cannot be inside a tracked root: "@
            + lossy_text(error->OutputInsideRoot_0@),
        error is MissingCommand ==> text@ == "no command provided after --"@,
        error is PolicyTooLarge ==> text@ == "policy file exceeds 16 MiB"@,
        error is UnsupportedPolicyVersion ==> text@ == "unsupported policy schemaVersion: "@
            + decimal(error->UnsupportedPolicyVersion_0 as int),
{
}

} // verus!
