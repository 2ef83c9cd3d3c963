//! What is done about a reported system call: which of its arguments name a file that may
//! change, how the name is read and resolved, and what is captured or noted.
use crate::capture::{
    file_quota_gap, located_in, normalize, request_for, with_gap, CaptureStore, PathKeyView,
    PendingCapture, StoreView,
};
use crate::contracts::{Gap, GapView};
use crate::linux::{
    first_zero, kind_among, nul_position, syscall_kind, table_entries, Notification, SyscallKind,
    SyscallTable, AT_FDCWD,
};
use crate::order::same_bytes;
use crate::outside::{at_symlink_nofollow, enoent, esrch, o_creat, o_rdwr, o_trunc, o_wronly};
use crate::paths::{
    append_bytes, copy_bytes, file_name, file_name_of, is_absolute, is_absolute_path, join, joined,
    normalized, parent, parent_of, SEPARATOR,
};
use crate::text::{
    concat2, concat3, decimal, decimal_text, digits, digits_text, lossy, lossy_text, signed_text,
};
use vstd::prelude::*;
use vstd::utf8::encode_utf8;

verus! {

/// The longest path that is read from the target, in bytes.
pub const PATH_LIMIT: usize = 65_536;

/// The bits of an open for a file without a name.
pub const O_TMPFILE_MASK: i32 = 0o20200000;

/// The bytes of the kernel's `open_how`.
pub const OPEN_HOW_SIZE: u64 = 24;

/// The flags open a file for writing, make it or cut it.
pub open spec fn is_writable(flags: i32) -> bool {
    flags & 0o1103 != 0 || flags & O_TMPFILE_MASK == O_TMPFILE_MASK
}

/// Whether the flags open a file for writing, make it or cut it.
pub fn writable_flags(flags: i32) -> (result: bool)
    ensures
        result == is_writable(flags),
{
    let wanted: i32 = o_wronly() | o_rdwr() | o_creat() | o_trunc();
    assert(1i32 | 2i32 | 0o100i32 | 0o1000i32 == 0o1103i32) by (bit_vector);
    flags & wanted != 0 || flags & O_TMPFILE_MASK == O_TMPFILE_MASK
}

/// An open that is tracked stays tracked with more flags.
pub proof fn more_flags_stay_tracked(flags: i32, more: i32)
    requires
        is_writable(flags),
    ensures
        is_writable(flags | more),
{
    assert(flags & 0o1103 != 0 || flags & 0o20200000 == 0o20200000 ==> (flags | more) & 0o1103 != 0
        || (flags | more) & 0o20200000 == 0o20200000) by (bit_vector);
}

/// An argument of a system call that names a file: the directory it is looked up in, the
/// address of the path, and whether a link at its end is followed.
#[derive(Debug, Clone, Copy, PartialEq, Eq, Structural)]
pub struct PathArgument {
    pub dirfd: i32,
    pub address: u64,
    pub follow: bool,
}

/// What is to be done about a system call.
pub enum RequestPlanView {
    Nothing,
    Capture(PathArgument),
    CapturePair(PathArgument, PathArgument),
    CaptureLink(PathArgument, GapView),
    CaptureDescriptor { fd: i32, raw: u64 },
    ReadOpenHow { address: u64, argument: PathArgument },
    Note(GapView),
}

/// What is to be done about a system call.
#[derive(Debug)]
pub enum RequestPlan {
    /// It changes no file.
    Nothing,
    /// Capture the file that the argument names.
    Capture(PathArgument),
    /// Capture the file that the first argument names and, unless it is a directory, the one
    /// that the second names.
    CapturePair(PathArgument, PathArgument),
    /// Capture the file that the argument names, then note the gap.
    CaptureLink(PathArgument, Gap),
    /// Capture the file that an open descriptor of the target refers to.
    CaptureDescriptor { fd: i32, raw: u64 },
    /// Read the target's `open_how` at the address to see whether to capture the argument.
    ReadOpenHow { address: u64, argument: PathArgument },
    /// Note the gap.
    Note(Gap),
}

impl View for RequestPlan {
    type V = RequestPlanView;

    open spec fn view(&self) -> RequestPlanView {
        match self {
            RequestPlan::Nothing => RequestPlanView::Nothing,
            RequestPlan::Capture(argument) => RequestPlanView::Capture(*argument),
            RequestPlan::CapturePair(first, second) => RequestPlanView::CapturePair(*first, *second),
            RequestPlan::CaptureLink(argument, gap) => RequestPlanView::CaptureLink(*argument, gap@),
            RequestPlan::CaptureDescriptor { fd, raw } => RequestPlanView::CaptureDescriptor {
                fd: *fd,
                raw: *raw,
            },
            RequestPlan::ReadOpenHow { address, argument } => RequestPlanView::ReadOpenHow {
                address: *address,
                argument: *argument,
            },
            RequestPlan::Note(gap) => RequestPlanView::Note(gap@),
        }
    }
}

/// The argument at a path's address, looked up in the current directory of the target.
pub open spec fn argument_here(address: u64, follow: bool) -> PathArgument {
    PathArgument { dirfd: AT_FDCWD, address, follow }
}

/// The argument at a path's address, looked up in a directory of the target. The register
/// holds the descriptor in its lower half.
pub open spec fn argument_at(register: u64, address: u64, follow: bool) -> PathArgument {
    PathArgument { dirfd: register as i32, address, follow }
}

/// What is to be done about a system call of a kind, with its number and its arguments. An
/// open counts only where it can change a file; what removes, renames or makes a name works
/// on the name itself, everything else on what a link at its end points to.
pub open spec fn planned(kind: SyscallKind, number: i32, args: Seq<u64>) -> RequestPlanView {
    match kind {
        SyscallKind::Open => if is_writable(args[1] as i32) {
            RequestPlanView::Capture(argument_here(args[0], true))
        } else {
            RequestPlanView::Nothing
        },
        SyscallKind::OpenAt => if is_writable(args[2] as i32) {
            RequestPlanView::Capture(argument_at(args[0], args[1], true))
        } else {
            RequestPlanView::Nothing
        },
        SyscallKind::OpenAt2 => if args[3] < OPEN_HOW_SIZE {
            RequestPlanView::Note(
                GapView {
                    kind: "openat2_size"@,
                    detail: "open_how size "@ + decimal(args[3] as int) + " is too small"@,
                },
            )
        } else {
            RequestPlanView::ReadOpenHow {
                address: args[2],
                argument: argument_at(args[0], args[1], true),
            }
        },
        SyscallKind::Truncate => RequestPlanView::Capture(argument_here(args[0], true)),
        SyscallKind::Chmod => RequestPlanView::Capture(argument_here(args[0], true)),
        SyscallKind::Ftruncate => RequestPlanView::CaptureDescriptor {
            fd: args[0] as i32,
            raw: args[0],
        },
        SyscallKind::Fchmod => RequestPlanView::CaptureDescriptor {
            fd: args[0] as i32,
            raw: args[0],
        },
        SyscallKind::FchmodAt => RequestPlanView::Capture(argument_at(args[0], args[1], true)),
        SyscallKind::FchmodAt2 => RequestPlanView::Capture(
            argument_at(args[0], args[1], args[3] & 0x100 == 0),
        ),
        SyscallKind::Unlink => RequestPlanView::Capture(argument_here(args[0], false)),
        SyscallKind::UnlinkAt => RequestPlanView::Capture(argument_at(args[0], args[1], false)),
        SyscallKind::Rename => RequestPlanView::CapturePair(
            argument_here(args[0], false),
            argument_here(args[1], false),
        ),
        SyscallKind::RenameAt => RequestPlanView::CapturePair(
            argument_at(args[0], args[1], false),
            argument_at(args[2], args[3], false),
        ),
        SyscallKind::RenameAt2 => RequestPlanView::CapturePair(
            argument_at(args[0], args[1], false),
            argument_at(args[2], args[3], false),
        ),
        SyscallKind::Symlink => RequestPlanView::Capture(argument_here(args[1], false)),
        SyscallKind::SymlinkAt => RequestPlanView::Capture(argument_at(args[1], args[2], false)),
        SyscallKind::Link => RequestPlanView::CaptureLink(
            argument_here(args[1], false),
            GapView {
                kind: "hard_link"@,
                detail: "link observed; aliases cannot be fully discovered"@,
            },
        ),
        SyscallKind::LinkAt => RequestPlanView::CaptureLink(
            argument_at(args[2], args[3], false),
            GapView {
                kind: "hard_link"@,
                detail: "linkat observed; aliases cannot be fully discovered"@,
            },
        ),
        SyscallKind::Mkdir => RequestPlanView::Nothing,
        SyscallKind::MkdirAt => RequestPlanView::Nothing,
        SyscallKind::Rmdir => RequestPlanView::Nothing,
        SyscallKind::IoUringSetup => RequestPlanView::Note(
            GapView {
                kind: "io_uring"@,
                detail: "io_uring_setup observed; writes may bypass tracked entry points"@,
            },
        ),
        SyscallKind::Unknown => RequestPlanView::Note(
            GapView { kind: "unknown_syscall"@, detail: decimal(number as int) },
        ),
    }
}

/// The descriptor in the lower half of a register.
fn low_half(register: u64) -> (value: i32)
    ensures
        value == register as i32,
{
    #[verifier::truncate]
    (register as i32)
}

fn here(address: u64, follow: bool) -> (argument: PathArgument)
    ensures
        argument == argument_here(address, follow),
{
    PathArgument { dirfd: AT_FDCWD, address, follow }
}

fn at(register: u64, address: u64, follow: bool) -> (argument: PathArgument)
    ensures
        argument == argument_at(register, address, follow),
{
    PathArgument { dirfd: low_half(register), address, follow }
}

fn gap(kind: &str, detail: String) -> (gap: Gap)
    ensures
        gap@ == (GapView { kind: kind@, detail: detail@ }),
{
    Gap { kind: kind.to_owned(), detail }
}

/// What is to be done about a reported system call.
pub fn plan_request(request: &Notification, table: &SyscallTable) -> (plan: RequestPlan)
    ensures
        plan@ == planned(
            kind_among(table_entries(*table), request.data.nr),
            request.data.nr,
            request.data.args@,
        ),
{
    let args: [u64; 6] = request.data.args;
    match syscall_kind(request.data.nr, table) {
        SyscallKind::Open => {
            if writable_flags(low_half(args[1])) {
                RequestPlan::Capture(here(args[0], true))
            } else {
                RequestPlan::Nothing
            }
        },
        SyscallKind::OpenAt => {
            if writable_flags(low_half(args[2])) {
                RequestPlan::Capture(at(args[0], args[1], true))
            } else {
                RequestPlan::Nothing
            }
        },
        SyscallKind::OpenAt2 => {
            if args[3] < OPEN_HOW_SIZE {
                RequestPlan::Note(
                    gap(
                        "openat2_size",
                        concat3(
                            "open_how size ",
                            decimal_text(args[3]).as_str(),
                            " is too small",
                        ),
                    ),
                )
            } else {
                RequestPlan::ReadOpenHow { address: args[2], argument: at(args[0], args[1], true) }
            }
        },
        SyscallKind::Truncate => RequestPlan::Capture(here(args[0], true)),
        SyscallKind::Chmod => RequestPlan::Capture(here(args[0], true)),
        SyscallKind::Ftruncate => RequestPlan::CaptureDescriptor {
            fd: low_half(args[0]),
            raw: args[0],
        },
        SyscallKind::Fchmod => RequestPlan::CaptureDescriptor {
            fd: low_half(args[0]),
            raw: args[0],
        },
        SyscallKind::FchmodAt => RequestPlan::Capture(at(args[0], args[1], true)),
        SyscallKind::FchmodAt2 => {
            let follow = args[3] & at_symlink_nofollow() as u64 == 0;
            RequestPlan::Capture(at(args[0], args[1], follow))
        },
        SyscallKind::Unlink => RequestPlan::Capture(here(args[0], false)),
        SyscallKind::UnlinkAt => RequestPlan::Capture(at(args[0], args[1], false)),
        SyscallKind::Rename => RequestPlan::CapturePair(
            here(args[0], false),
            here(args[1], false),
        ),
        SyscallKind::RenameAt => RequestPlan::CapturePair(
            at(args[0], args[1], false),
            at(args[2], args[3], false),
        ),
        SyscallKind::RenameAt2 => RequestPlan::CapturePair(
            at(args[0], args[1], false),
            at(args[2], args[3], false),
        ),
        SyscallKind::Symlink => RequestPlan::Capture(here(args[1], false)),
        SyscallKind::SymlinkAt => RequestPlan::Capture(at(args[1], args[2], false)),
        SyscallKind::Link => RequestPlan::CaptureLink(
            here(args[1], false),
            gap("hard_link", "link observed; aliases cannot be fully discovered".to_owned()),
        ),
        SyscallKind::LinkAt => RequestPlan::CaptureLink(
            at(args[2], args[3], false),
            gap("hard_link", "linkat observed; aliases cannot be fully discovered".to_owned()),
        ),
        SyscallKind::Mkdir => RequestPlan::Nothing,
        SyscallKind::MkdirAt => RequestPlan::Nothing,
        SyscallKind::Rmdir => RequestPlan::Nothing,
        SyscallKind::IoUringSetup => RequestPlan::Note(
            gap(
                "io_uring",
                "io_uring_setup observed; writes may bypass tracked entry points".to_owned(),
            ),
        ),
        SyscallKind::Unknown => RequestPlan::Note(
            gap("unknown_syscall", signed_text(request.data.nr)),
        ),
    }
}

/// The target's `open_how`.
#[derive(Debug, Clone, Copy)]
pub struct OpenHow {
    pub flags: u64,
    pub mode: u64,
    pub resolve: u64,
}

/// The gap of an open that resolves its path in a way that is not supported.
pub open spec fn resolve_gap(resolve: u64) -> GapView {
    GapView {
        kind: "openat2_resolve"@,
        detail: "unsupported resolve flags 0x"@ + digits(resolve as nat, 16),
    }
}

/// The gap of an `open_how`, if there is one, and whether the open can change a file.
pub fn plan_open_how(how: &OpenHow) -> (plan: (Option<Gap>, bool))
    ensures
        match plan.0 {
            Some(found) => how.resolve != 0 && found@ == resolve_gap(how.resolve),
            None => how.resolve == 0,
        },
        plan.1 == is_writable(how.flags as i32),
{
    let noted = if how.resolve != 0 {
        Some(
            gap(
                "openat2_resolve",
                concat2(
                    "unsupported resolve flags 0x",
                    digits_text(how.resolve, 16).as_str(),
                ),
            ),
        )
    } else {
        None
    };
    (noted, writable_flags(low_half(how.flags)))
}

/// What was read so far of a path in the target's memory.
#[derive(Debug)]
pub struct PathReader {
    collected: Vec<u8>,
}

impl View for PathReader {
    type V = Seq<u8>;

    closed spec fn view(&self) -> Seq<u8> {
        self.collected@
    }
}

/// What is to be done next to read a path.
#[derive(Debug)]
pub enum PathStep {
    /// Read on.
    More,
    /// The path is complete.
    Complete(Vec<u8>),
    /// There is no path to be had.
    Failed(String),
}

/// What is said of a path that does not end.
pub open spec fn endless_path() -> Seq<char> {
    "pathname is missing NUL terminator or exceeds 64 KiB"@
}

impl PathReader {
    /// A reader that has read nothing yet.
    pub fn new() -> (reader: Self)
        ensures
            reader@ == Seq::<u8>::empty(),
    {
        let reader = PathReader { collected: Vec::new() };
        assert(reader@ =~= Seq::<u8>::empty());
        reader
    }

    /// Where to read on, for a path that starts at an address: nowhere behind the end of
    /// memory.
    pub fn next_address(&self, start: u64) -> (address: Option<u64>)
        ensures
            match address {
                Some(found) => found == start + self@.len(),
                None => start + self@.len() > u64::MAX,
            },
    {
        start.checked_add(self.collected.len() as u64)
    }

    /// Takes in the next bytes of the target's memory: the path ends at the first zero byte.
    /// It must end before the memory does, and before more than the limit was read without
    /// an end.
    pub fn feed(&mut self, chunk: &[u8]) -> (step: PathStep)
        ensures
            match first_zero(chunk@) {
                Some(end) => {
                    &&& final(self)@ == old(self)@ + chunk@.take(end as int)
                    &&& step matches PathStep::Complete(path) && path@ == final(self)@
                },
                None => {
                    &&& final(self)@ == old(self)@ + chunk@
                    &&& if chunk@.len() == 0 || final(self)@.len() >= PATH_LIMIT {
                        step matches PathStep::Failed(message) && message@ == endless_path()
                    } else {
                        step is More
                    }
                },
            },
    {
        if chunk.len() == 0 {
            assert(self@ + chunk@ =~= self@);
            return PathStep::Failed(
                "pathname is missing NUL terminator or exceeds 64 KiB".to_owned(),
            );
        }
        if let Some(end) = nul_position(chunk) {
            proof {
                lemma_zero_is_inside(chunk@);
            }
            append_bytes(&mut self.collected, vstd::slice::slice_subrange(chunk, 0, end));
            assert(chunk@.subrange(0, end as int) =~= chunk@.take(end as int));
            return PathStep::Complete(copy_bytes(&self.collected));
        }
        append_bytes(&mut self.collected, chunk);
        if self.collected.len() >= PATH_LIMIT {
            PathStep::Failed("pathname is missing NUL terminator or exceeds 64 KiB".to_owned())
        } else {
            PathStep::More
        }
    }
}

proof fn lemma_zero_is_inside(bytes: Seq<u8>)
    ensures
        first_zero(bytes) matches Some(position) ==> position < bytes.len(),
    decreases bytes.len(),
{
    if bytes.len() > 0 {
        lemma_zero_is_inside(bytes.skip(1));
    }
}

proof fn lemma_zero_behind_prefix(a: Seq<u8>, b: Seq<u8>)
    requires
        first_zero(a) is None,
    ensures
        first_zero(a + b) == match first_zero(b) {
            Some(position) => Some((position + a.len()) as nat),
            None => None,
        },
    decreases a.len(),
{
    if a.len() == 0 {
        assert(a + b =~= b);
    } else {
        assert((a + b).skip(1) =~= a.skip(1) + b);
        lemma_zero_behind_prefix(a.skip(1), b);
    }
}

/// However the target's memory is cut into pieces, the path is what stands before its first
/// zero byte: with no zero byte in what was read before, the bytes up to the one in the next
/// piece are the bytes up to the first one of all.
pub proof fn the_path_ends_at_the_first_zero(read: Seq<u8>, chunk: Seq<u8>, end: nat)
    requires
        first_zero(read) is None,
        first_zero(chunk) == Some(end),
    ensures
        first_zero(read + chunk) == Some((read.len() + end) as nat),
        (read + chunk).take((read.len() + end) as int) == read + chunk.take(end as int),
{
    lemma_zero_behind_prefix(read, chunk);
    lemma_zero_is_inside(chunk);
    assert((read + chunk).take((read.len() + end) as int) =~= read + chunk.take(end as int));
}

/// The link that says where a path of the target starts: its root directory for an absolute
/// path, otherwise its current directory or the directory that a descriptor refers to.
pub open spec fn base_link(pid: u32, dirfd: i32, raw: Seq<u8>) -> Seq<char> {
    let process = "/proc/"@ + decimal(pid as int);
    if is_absolute_path(raw) {
        process + "/root"@
    } else if dirfd == AT_FDCWD {
        process + "/cwd"@
    } else {
        process + "/fd/"@ + decimal(dirfd as int)
    }
}

/// The link that says where a path of the target starts.
pub fn base_link_path(pid: u32, dirfd: i32, raw: &[u8]) -> (link: String)
    ensures
        link@ == base_link(pid, dirfd, raw@),
{
    let mut link = concat2("/proc/", decimal_text(pid as u64).as_str());
    if is_absolute(raw) {
        link.append("/root");
    } else if dirfd == AT_FDCWD {
        link.append("/cwd");
    } else {
        link.append("/fd/");
        link.append(signed_text(dirfd).as_str());
    }
    link
}

/// A path without the separators that it starts with.
pub open spec fn relative_part(path: Seq<u8>) -> Seq<u8>
    decreases path.len(),
{
    if path.len() > 0 && path[0] == SEPARATOR {
        relative_part(path.skip(1))
    } else {
        path
    }
}

/// A path of the target as the tracker sees it, before links are followed.
pub open spec fn based(base: Seq<u8>, raw: Seq<u8>) -> Seq<u8> {
    normalized(joined(base, relative_part(raw)))
}

/// A path of the target as the tracker sees it, before links are followed: it starts at the
/// directory that the link of its start points to.
pub fn path_from(base: &[u8], raw: &[u8]) -> (path: Vec<u8>)
    ensures
        path@ == based(base@, raw@),
{
    let mut start: usize = 0;
    assert(raw@.skip(0) =~= raw@);
    while start < raw.len() && raw[start] == SEPARATOR
        invariant
            start <= raw@.len(),
            relative_part(raw@.skip(start as int)) == relative_part(raw@),
        decreases raw@.len() - start,
    {
        assert(raw@.skip(start as int).skip(1) =~= raw@.skip(start + 1));
        start += 1;
    }
    let part = vstd::slice::slice_subrange(raw, start, raw.len());
    assert(part@ =~= raw@.skip(start as int));
    normalize(&join(base, part))
}

/// What resolving a path to its canonical form came to, if it was tried.
pub enum ResolutionView {
    Untried,
    Failed,
    Found(Seq<u8>),
}

/// What resolving a path to its canonical form came to, if it was tried.
#[derive(Debug)]
pub enum Resolution {
    Untried,
    Failed,
    Found(Vec<u8>),
}

impl View for Resolution {
    type V = ResolutionView;

    open spec fn view(&self) -> ResolutionView {
        match *self {
            Resolution::Untried => ResolutionView::Untried,
            Resolution::Failed => ResolutionView::Failed,
            Resolution::Found(path) => ResolutionView::Found(path@),
        }
    }
}

/// What is to be done next to follow the links of a path.
pub enum ResolveStepView {
    Whole(Seq<u8>),
    Parent(Seq<u8>),
    Done(Seq<u8>),
}

/// What is to be done next to follow the links of a path.
#[derive(Debug)]
pub enum ResolveStep {
    /// Resolve the path to its canonical form.
    Whole(Vec<u8>),
    /// Resolve the directory that the path lies in to its canonical form.
    Parent(Vec<u8>),
    /// This is the path.
    Done(Vec<u8>),
}

impl View for ResolveStep {
    type V = ResolveStepView;

    open spec fn view(&self) -> ResolveStepView {
        match *self {
            ResolveStep::Whole(path) => ResolveStepView::Whole(path@),
            ResolveStep::Parent(path) => ResolveStepView::Parent(path@),
            ResolveStep::Done(path) => ResolveStepView::Done(path@),
        }
    }
}

/// The next step in following the links of a path: where a link at its end is followed, the
/// canonical form of the whole path counts; of a path that has none, that of its directory
/// with the last name behind it; and else the path itself.
pub open spec fn resolving(
    path: Seq<u8>,
    follow: bool,
    whole: ResolutionView,
    directory: ResolutionView,
) -> ResolveStepView {
    if !follow {
        ResolveStepView::Done(path)
    } else {
        match whole {
            ResolutionView::Untried => ResolveStepView::Whole(path),
            ResolutionView::Found(canonical) => ResolveStepView::Done(canonical),
            ResolutionView::Failed => match (parent_of(path), file_name_of(path)) {
                (Some(base), Some(name)) => match directory {
                    ResolutionView::Untried => ResolveStepView::Parent(base),
                    ResolutionView::Found(canonical) => ResolveStepView::Done(
                        joined(canonical, name),
                    ),
                    ResolutionView::Failed => ResolveStepView::Done(path),
                },
                _ => ResolveStepView::Done(path),
            },
        }
    }
}

/// The next step in following the links of a path.
pub fn resolve_path(path: &[u8], follow: bool, whole: &Resolution, directory: &Resolution) -> (step:
    ResolveStep)
    ensures
        step@ == resolving(path@, follow, whole@, directory@),
{
    if !follow {
        return ResolveStep::Done(copy_bytes(path));
    }
    match whole {
        Resolution::Untried => ResolveStep::Whole(copy_bytes(path)),
        Resolution::Found(canonical) => ResolveStep::Done(copy_bytes(canonical)),
        Resolution::Failed => match (parent(path), file_name(path)) {
            (Some(base), Some(name)) => match directory {
                Resolution::Untried => ResolveStep::Parent(base),
                Resolution::Found(canonical) => ResolveStep::Done(join(canonical, &name)),
                Resolution::Failed => ResolveStep::Done(copy_bytes(path)),
            },
            _ => ResolveStep::Done(copy_bytes(path)),
        },
    }
}

/// The link that says what a descriptor of the target refers to.
pub fn descriptor_link(pid: u32, fd: i32) -> (link: String)
    ensures
        link@ == "/proc/"@ + decimal(pid as int) + "/fd/"@ + decimal(fd as int),
{
    let mut link = concat2("/proc/", decimal_text(pid as u64).as_str());
    link.append("/fd/");
    link.append(signed_text(fd).as_str());
    link
}

/// What the kernel writes behind the path of a file that has no name any more.
pub open spec fn deleted_mark() -> Seq<u8> {
    encode_utf8(" (deleted)"@)
}

/// The file of a descriptor has no name any more.
pub open spec fn is_deleted(link: Seq<u8>) -> bool {
    link.len() >= deleted_mark().len() && link.skip(link.len() - deleted_mark().len())
        == deleted_mark()
}

/// The path of the file that a descriptor refers to, where it has one.
pub fn fd_path(link: &[u8]) -> (path: Option<Vec<u8>>)
    ensures
        match path {
            Some(found) => !is_deleted(link@) && found@ == link@,
            None => is_deleted(link@),
        },
{
    let mark = " (deleted)".as_bytes();
    if link.len() >= mark.len() {
        let start: usize = link.len() - mark.len();
        let tail = vstd::slice::slice_subrange(link, start, link.len());
        assert(tail@ =~= link@.skip(start as int));
        if same_bytes(tail, mark) {
            return None;
        }
    }
    Some(copy_bytes(link))
}

/// What is to be done about a file that a system call names.
#[derive(Debug)]
pub enum ArgumentStep {
    /// It is a directory; its change is noted as a gap.
    Directory,
    /// Make this capture.
    Capture(PendingCapture),
    /// Nothing is to be done.
    Nothing,
}

/// The gap of a change to a directory.
pub open spec fn directory_gap(path: Seq<u8>) -> GapView {
    GapView { kind: "directory_operation"@, detail: "directory mutation at "@ + lossy_text(path) }
}

/// The file of a path, where it is tracked and has no candidate yet.
pub open spec fn uncaptured(store: StoreView, path: Seq<u8>) -> Option<PathKeyView> {
    match located_in(store, path) {
        Some(key) if !store.candidates.contains_key(key) => Some(key),
        _ => None,
    }
}

/// There is room for one more candidate.
pub open spec fn has_room(store: StoreView) -> bool {
    store.candidates.dom().len() < store.limits.max_files
}

/// The store behind the beginning of a capture: a file for which there is no room is noted as
/// a gap.
pub open spec fn capture_begun(store: StoreView, path: Seq<u8>) -> StoreView {
    if uncaptured(store, path) is Some && !has_room(store) {
        with_gap(store, file_quota_gap(store.limits))
    } else {
        store
    }
}

/// The file of a path, where it has to be captured.
pub open spec fn wanted(store: StoreView, path: Seq<u8>) -> Option<PathKeyView> {
    if has_room(store) {
        uncaptured(store, path)
    } else {
        None
    }
}

/// The capture is the one that the store wants of a path.
pub open spec fn is_wanted_capture(store: StoreView, path: Seq<u8>, pending: Option<PendingCapture>) -> bool {
    match wanted(store, path) {
        Some(key) => pending matches Some(capture) && capture.key@ == key && capture.path@
            == normalized(path) && capture.request@ == request_for(
            store,
            normalized(path),
            Some(key),
        ),
        None => pending is None,
    }
}

/// Takes a file that a system call names: a directory is noted as a gap, anything else is
/// captured where the store wants it.
pub fn capture_argument(store: &mut CaptureStore, path: &[u8], is_directory: bool) -> (step:
    ArgumentStep)
    ensures
        if is_directory {
            step is Directory && final(store)@ == with_gap(old(store)@, directory_gap(path@))
        } else {
            &&& final(store)@ == capture_begun(old(store)@, path@)
            &&& match step {
                ArgumentStep::Directory => false,
                ArgumentStep::Capture(capture) => is_wanted_capture(
                    old(store)@,
                    path@,
                    Some(capture),
                ),
                ArgumentStep::Nothing => is_wanted_capture(old(store)@, path@, None),
            }
        },
{
    if is_directory {
        store.gap(
            "directory_operation".to_owned(),
            concat2("directory mutation at ", lossy(path).as_str()),
        );
        return ArgumentStep::Directory;
    }
    match store.capture_before(path) {
        Some(pending) => ArgumentStep::Capture(pending),
        None => ArgumentStep::Nothing,
    }
}

/// The gap of a descriptor whose file cannot be found.
pub open spec fn descriptor_gap(pid: u32, raw: u64) -> GapView {
    GapView {
        kind: "fd_path"@,
        detail: "cannot resolve pid "@ + decimal(pid as int) + " fd "@ + decimal(raw as int),
    }
}

/// Takes the link of a descriptor that a system call names: a file without a name is noted as
/// a gap, any other is captured where the store wants it.
pub fn capture_descriptor(store: &mut CaptureStore, pid: u32, raw: u64, link: &[u8]) -> (pending:
    Option<PendingCapture>)
    ensures
        if is_deleted(link@) {
            pending is None && final(store)@ == with_gap(old(store)@, descriptor_gap(pid, raw))
        } else {
            &&& final(store)@ == capture_begun(old(store)@, link@)
            &&& is_wanted_capture(old(store)@, link@, pending)
        },
{
    match fd_path(link) {
        Some(path) => store.capture_before(&path),
        None => {
            let mut detail = concat2("cannot resolve pid ", decimal_text(pid as u64).as_str());
            detail.append(" fd ");
            detail.append(decimal_text(raw).as_str());
            store.gap("fd_path".to_owned(), detail);
            None
        },
    }
}

/// The gap of a standard stream that cannot be looked at.
pub open spec fn stdio_gap(fd: i32, message: Seq<char>) -> GapView {
    GapView {
        kind: "stdio_fd"@,
        detail: "cannot inspect fd "@ + decimal(fd as int) + ": "@ + message,
    }
}

/// Whether a standard stream with these flags has to be looked at before the target starts.
/// A negative number stands for a stream that is not open.
pub fn stdio_matters(flags: i32) -> (result: bool)
    ensures
        result == (flags >= 0 && is_writable(flags)),
{
    flags >= 0 && writable_flags(flags)
}

/// Takes the link of a standard stream that the target may write to: a file is captured where
/// the store wants it, and a failure is noted as a gap.
pub fn capture_stdio(store: &mut CaptureStore, fd: i32, link: &Result<Vec<u8>, String>) -> (pending:
    Option<PendingCapture>)
    ensures
        match *link {
            Ok(path) => if is_absolute_path(path@) {
                &&& final(store)@ == capture_begun(old(store)@, path@)
                &&& is_wanted_capture(old(store)@, path@, pending)
            } else {
                pending is None && final(store)@ == old(store)@
            },
            Err(message) => pending is None && final(store)@ == with_gap(
                old(store)@,
                stdio_gap(fd, message@),
            ),
        },
{
    match link {
        Ok(path) => {
            if is_absolute(path) {
                store.capture_before(path)
            } else {
                None
            }
        },
        Err(message) => {
            let mut detail = concat2("cannot inspect fd ", signed_text(fd).as_str());
            detail.append(": ");
            detail.append(message.as_str());
            store.gap("stdio_fd".to_owned(), detail);
            None
        },
    }
}

/// The error code says that the target or what it named is gone.
pub open spec fn is_gone(code: Option<i32>) -> bool {
    code == Some(2i32) || code == Some(3i32)
}

/// The gap of a system call that could not be handled.
pub open spec fn processing_gap(request: Notification, message: Seq<char>) -> GapView {
    GapView {
        kind: "notification_processing"@,
        detail: "pid "@ + decimal(request.pid as int) + " syscall "@ + decimal(
            request.data.nr as int,
        ) + ": "@ + message,
    }
}

/// Takes an error in handling a system call, with its code and its words, and whether the
/// notification is still waiting. Returns whether the system call is to be let go on: not
/// where the target is gone together with its notification. Any other error is noted as a
/// gap.
pub fn processing_failed(
    store: &mut CaptureStore,
    request: &Notification,
    code: Option<i32>,
    message: &str,
    still_waiting: bool,
) -> (go_on: bool)
    ensures
        go_on == !(is_gone(code) && !still_waiting),
        final(store)@ == (if go_on {
            with_gap(old(store)@, processing_gap(*request, message@))
        } else {
            old(store)@
        }),
{
    let gone = match code {
        Some(number) => number == enoent() || number == esrch(),
        None => false,
    };
    if gone && !still_waiting {
        return false;
    }
    let mut detail = concat2("pid ", decimal_text(request.pid as u64).as_str());
    detail.append(" syscall ");
    detail.append(signed_text(request.data.nr).as_str());
    detail.append(": ");
    detail.append(message);
    store.gap("notification_processing".to_owned(), detail);
    true
}

/// Takes an error in letting a system call go on.
pub fn continue_failed(store: &mut CaptureStore, message: String)
    ensures
        final(store)@ == with_gap(
            old(store)@,
            GapView { kind: "notification_continue"@, detail: message@ },
        ),
{
    store.gap("notification_continue".to_owned(), message);
}

/// Flags open a file for a change exactly where they open it for writing, for reading and
/// writing, make it, cut it, or make one without a name; no other flag matters.
pub proof fn flags_that_change_files_are_known(flags: i32, result: bool)
    requires
        call_ensures(writable_flags, (flags,), result),
    ensures
        result <==> flags & 0o1 != 0 || flags & 0o2 != 0 || flags & 0o100 != 0 || flags & 0o1000
            != 0 || flags & 0o20200000 == 0o20200000,
{
    flags_are_told_by_their_bits(flags);
}

/// Flags open a file for a change exactly where one of their bits says so.
pub proof fn flags_are_told_by_their_bits(flags: i32)
    ensures
        is_writable(flags) <==> flags & 0o1 != 0 || flags & 0o2 != 0 || flags & 0o100 != 0 || flags
            & 0o1000 != 0 || flags & 0o20200000 == 0o20200000,
{
    assert(flags & 0o1103 != 0 <==> flags & 0o1 != 0 || flags & 0o2 != 0 || flags & 0o100 != 0
        || flags & 0o1000 != 0) by (bit_vector);
}

/// The lower half of a register opens a file for a change.
pub open spec fn opens_for_change(register: u64) -> bool {
    let flags = register as i32;
    flags & 0o1 != 0 || flags & 0o2 != 0 || flags & 0o100 != 0 || flags & 0o1000 != 0 || flags
        & 0o20200000 == 0o20200000
}

/// An open is left alone only where it cannot change a file; where it can, whatever its other
/// flags are, the file at its path is captured, with a link at its end followed. The path
/// starts at the current directory of the target, or at the directory of its descriptor.
pub proof fn an_open_that_can_change_a_file_is_captured(
    request: Notification,
    table: SyscallTable,
    kind: SyscallKind,
    plan: RequestPlan,
)
    requires
        call_ensures(syscall_kind, (request.data.nr, &table), kind),
        call_ensures(plan_request, (&request, &table), plan),
    ensures
        kind == SyscallKind::Open && opens_for_change(request.data.args@[1]) ==> plan
            == RequestPlan::Capture(
            PathArgument { dirfd: (-100) as i32, address: request.data.args@[0], follow: true },
        ),
        kind == SyscallKind::Open && !opens_for_change(request.data.args@[1]) ==> plan is Nothing,
        kind == SyscallKind::OpenAt && opens_for_change(request.data.args@[2]) ==> plan
            == RequestPlan::Capture(
            PathArgument {
                dirfd: request.data.args@[0] as i32,
                address: request.data.args@[1],
                follow: true,
            },
        ),
        kind == SyscallKind::OpenAt && !opens_for_change(request.data.args@[2]) ==> plan is Nothing,
        kind == SyscallKind::OpenAt2 && request.data.args@[3] >= 24 ==> plan
            == (RequestPlan::ReadOpenHow {
            address: request.data.args@[2],
            argument: PathArgument {
                dirfd: request.data.args@[0] as i32,
                address: request.data.args@[1],
                follow: true,
            },
        }),
        kind == SyscallKind::OpenAt2 && request.data.args@[3] < 24 ==> plan is Note
            && plan->Note_0.kind@ == "openat2_size"@ && plan->Note_0.detail@ == "open_how size "@
            + decimal(request.data.args@[3] as int) + " is too small"@,
{
    flags_are_told_by_their_bits(request.data.args@[1] as i32);
    flags_are_told_by_their_bits(request.data.args@[2] as i32);
}

/// Whatever changes a file by its name is captured by that name: truncating and changing the
/// mode work on what a link at its end points to, unless `fchmodat2` is told not to follow
/// it; removing, and making a link, work on the name itself.
pub proof fn a_change_by_name_is_captured(
    request: Notification,
    table: SyscallTable,
    kind: SyscallKind,
    plan: RequestPlan,
)
    requires
        call_ensures(syscall_kind, (request.data.nr, &table), kind),
        call_ensures(plan_request, (&request, &table), plan),
    ensures
        kind == SyscallKind::Truncate || kind == SyscallKind::Chmod ==> plan == RequestPlan::Capture(
            PathArgument { dirfd: (-100) as i32, address: request.data.args@[0], follow: true },
        ),
        kind == SyscallKind::FchmodAt ==> plan == RequestPlan::Capture(
            PathArgument {
                dirfd: request.data.args@[0] as i32,
                address: request.data.args@[1],
                follow: true,
            },
        ),
        kind == SyscallKind::FchmodAt2 ==> plan == RequestPlan::Capture(
            PathArgument {
                dirfd: request.data.args@[0] as i32,
                address: request.data.args@[1],
                follow: request.data.args@[3] & 0x100 == 0,
            },
        ),
        kind == SyscallKind::Unlink ==> plan == RequestPlan::Capture(
            PathArgument { dirfd: (-100) as i32, address: request.data.args@[0], follow: false },
        ),
        kind == SyscallKind::UnlinkAt ==> plan == RequestPlan::Capture(
            PathArgument {
                dirfd: request.data.args@[0] as i32,
                address: request.data.args@[1],
                follow: false,
            },
        ),
        kind == SyscallKind::Symlink ==> plan == RequestPlan::Capture(
            PathArgument { dirfd: (-100) as i32, address: request.data.args@[1], follow: false },
        ),
        kind == SyscallKind::SymlinkAt ==> plan == RequestPlan::Capture(
            PathArgument {
                dirfd: request.data.args@[1] as i32,
                address: request.data.args@[2],
                follow: false,
            },
        ),
        kind == SyscallKind::Ftruncate || kind == SyscallKind::Fchmod ==> plan
            == (RequestPlan::CaptureDescriptor {
            fd: request.data.args@[0] as i32,
            raw: request.data.args@[0],
        }),
{
}

/// A rename concerns both of its names, and a hard link the new one; what cannot be followed
/// is noted, and making or removing a directory changes no file.
pub proof fn renames_links_and_the_rest_are_planned(
    request: Notification,
    table: SyscallTable,
    kind: SyscallKind,
    plan: RequestPlan,
)
    requires
        call_ensures(syscall_kind, (request.data.nr, &table), kind),
        call_ensures(plan_request, (&request, &table), plan),
    ensures
        kind == SyscallKind::Rename ==> plan == RequestPlan::CapturePair(
            PathArgument { dirfd: (-100) as i32, address: request.data.args@[0], follow: false },
            PathArgument { dirfd: (-100) as i32, address: request.data.args@[1], follow: false },
        ),
        kind == SyscallKind::RenameAt || kind == SyscallKind::RenameAt2 ==> plan
            == RequestPlan::CapturePair(
            PathArgument {
                dirfd: request.data.args@[0] as i32,
                address: request.data.args@[1],
                follow: false,
            },
            PathArgument {
                dirfd: request.data.args@[2] as i32,
                address: request.data.args@[3],
                follow: false,
            },
        ),
        kind == SyscallKind::Link ==> plan is CaptureLink && plan->CaptureLink_0 == (PathArgument {
            dirfd: (-100) as i32,
            address: request.data.args@[1],
            follow: false,
        }) && plan->CaptureLink_1.kind@ == "hard_link"@ && plan->CaptureLink_1.detail@
            == "link observed; aliases cannot be fully discovered"@,
        kind == SyscallKind::LinkAt ==> plan is CaptureLink && plan->CaptureLink_0 == (PathArgument {
            dirfd: request.data.args@[2] as i32,
            address: request.data.args@[3],
            follow: false,
        }) && plan->CaptureLink_1.kind@ == "hard_link"@ && plan->CaptureLink_1.detail@
            == "linkat observed; aliases cannot be fully discovered"@,
        kind == SyscallKind::Mkdir || kind == SyscallKind::MkdirAt || kind == SyscallKind::Rmdir
            ==> plan is Nothing,
        kind == SyscallKind::IoUringSetup ==> plan is Note && plan->Note_0.kind@ == "io_uring"@
            && plan->Note_0.detail@
            == "io_uring_setup observed; writes may bypass tracked entry points"@,
        kind == SyscallKind::Unknown ==> plan is Note && plan->Note_0.kind@ == "unknown_syscall"@
            && plan->Note_0.detail@ == decimal(request.data.nr as int),
{
}

/// An `openat2` is captured exactly where its flags can change a file, and every way of
/// resolving its path is noted.
pub proof fn an_open_how_is_judged_by_its_flags(how: OpenHow, plan: (Option<Gap>, bool))
    requires
        call_ensures(plan_open_how, (&how,), plan),
    ensures
        plan.1 <==> opens_for_change(how.flags),
        plan.0 is Some <==> how.resolve != 0,
        plan.0 is Some ==> plan.0->0.kind@ == "openat2_resolve"@ && plan.0->0.detail@
            == "unsupported resolve flags 0x"@ + digits(how.resolve as nat, 16),
{
    flags_are_told_by_their_bits(how.flags as i32);
}

/// A standard stream matters exactly where it is open and can change a file.
pub proof fn open_streams_that_can_change_files_matter(flags: i32, result: bool)
    requires
        call_ensures(stdio_matters, (flags,), result),
    ensures
        result <==> flags >= 0 && (flags & 0o1 != 0 || flags & 0o2 != 0 || flags & 0o100 != 0
            || flags & 0o1000 != 0 || flags & 0o20200000 == 0o20200000),
{
    flags_are_told_by_their_bits(flags);
}

/// A path of the target starts at the target's root directory where it is absolute, else at
/// its current directory or at the directory of the descriptor.
pub proof fn a_path_starts_where_the_target_says(pid: u32, dirfd: i32, raw: &[u8], link: String)
    requires
        call_ensures(base_link_path, (pid, dirfd, raw), link),
    ensures
        raw@.len() > 0 && raw@[0] == 47 ==> link@ == "/proc/"@ + decimal(pid as int) + "/root"@,
        (raw@.len() == 0 || raw@[0] != 47) && dirfd == -100 ==> link@ == "/proc/"@ + decimal(
            pid as int,
        ) + "/cwd"@,
        (raw@.len() == 0 || raw@[0] != 47) && dirfd != -100 ==> link@ == "/proc/"@ + decimal(
            pid as int,
        ) + "/fd/"@ + decimal(dirfd as int),
{
}

/// The descriptor of a process is found under its number.
pub proof fn a_descriptor_is_found_under_its_number(pid: u32, fd: i32, link: String)
    requires
        call_ensures(descriptor_link, (pid, fd), link),
    ensures
        link@ == "/proc/"@ + decimal(pid as int) + "/fd/"@ + decimal(fd as int),
{
}

/// A path of the target is what its start and the path without leading separators lead to, in
/// normal form: leading separators count for nothing, however many there are.
pub proof fn a_path_is_joined_to_its_start(base: &[u8], raw: &[u8], rest: Seq<u8>, path: Vec<u8>)
    requires
        call_ensures(path_from, (base, raw), path),
        rest.len() <= raw@.len(),
        raw@.skip(raw@.len() - rest.len()) == rest,
        forall|i: int| 0 <= i < raw@.len() - rest.len() ==> #[trigger] raw@[i] == 47,
        rest.len() > 0 ==> rest[0] != 47,
    ensures
        path@ == normalized(joined(base@, rest)),
{
    lemma_relative_part(raw@, rest);
}

proof fn lemma_relative_part(raw: Seq<u8>, rest: Seq<u8>)
    requires
        rest.len() <= raw.len(),
        raw.skip(raw.len() - rest.len()) == rest,
        forall|i: int| 0 <= i < raw.len() - rest.len() ==> #[trigger] raw[i] == 47,
        rest.len() > 0 ==> rest[0] != 47,
    ensures
        relative_part(raw) == rest,
    decreases raw.len(),
{
    if raw.len() == rest.len() {
        assert(raw.skip(0) =~= raw);
    } else {
        assert(raw[0] == 47);
        let less = raw.skip(1);
        assert(less.skip(less.len() - rest.len()) =~= rest);
        assert forall|i: int| 0 <= i < less.len() - rest.len() implies #[trigger] less[i] == 47 by {
            assert(less[i] == raw[i + 1]);
        }
        lemma_relative_part(less, rest);
    }
}

/// Links are followed only where that is asked for. Then the canonical form of the path
/// counts; where it has none, that of its directory with its last name; and where that has
/// none either, the path itself. Each is asked for once at most.
pub proof fn links_are_followed_in_order(
    path: &[u8],
    follow: bool,
    whole: Resolution,
    directory: Resolution,
    step: ResolveStep,
)
    requires
        call_ensures(resolve_path, (path, follow, &whole, &directory), step),
    ensures
        !follow ==> step is Done && step->Done_0@ == path@,
        follow && whole is Untried ==> step is Whole && step->Whole_0@ == path@,
        follow && whole is Found ==> step is Done && step->Done_0@ == whole->Found_0@,
        ({
            let up = parent_of(path@);
            let name = file_name_of(path@);
            let split = up is Some && name is Some;
            follow && whole is Failed ==> {
                &&& split && directory is Untried ==> step is Parent && step->Parent_0@ == up->0
                &&& split && directory is Found ==> step is Done && step->Done_0@ == joined(
                    directory->Found_0@,
                    name->0,
                )
                &&& !split || directory is Failed ==> step is Done && step->Done_0@ == path@
            }
        }),
        step is Whole ==> whole is Untried,
        step is Parent ==> directory is Untried && whole is Failed,
{
}

/// A descriptor leads to a file exactly where the kernel does not say that its name is gone.
pub proof fn a_deleted_file_has_no_path(link: &[u8], path: Option<Vec<u8>>)
    requires
        call_ensures(fd_path, (link,), path),
    ensures
        path is None <==> exists|lead: Seq<u8>|
            link@ == #[trigger] (lead + encode_utf8(" (deleted)"@)),
        path is Some ==> path->0@ == link@,
{
    a_deleted_link_ends_with_the_mark(link@);
}

/// The kernel says that a name is gone exactly where its mark ends the link.
pub proof fn a_deleted_link_ends_with_the_mark(link: Seq<u8>)
    ensures
        is_deleted(link) <==> exists|lead: Seq<u8>|
            link == #[trigger] (lead + encode_utf8(" (deleted)"@)),
{
    let mark = encode_utf8(" (deleted)"@);
    if is_deleted(link) {
        let lead = link.take(link.len() - mark.len());
        assert(link =~= lead + mark);
    }
    if exists|lead: Seq<u8>| link == #[trigger] (lead + mark) {
        let lead = choose|lead: Seq<u8>| link == #[trigger] (lead + mark);
        assert(link.skip(link.len() - mark.len()) =~= mark);
    }
}

/// A path is to be captured exactly where it names a tracked file that has no candidate yet
/// and there is room for one; where there is no room, that is noted, and nothing else changes.
pub proof fn a_tracked_file_is_captured_once(store: StoreView, path: Seq<u8>)
    ensures
        wanted(store, path) is Some <==> located_in(store, path) is Some
            && !store.candidates.contains_key(located_in(store, path)->0)
            && store.candidates.dom().len() < store.limits.max_files,
        wanted(store, path) is Some ==> wanted(store, path) == located_in(store, path),
        wanted(store, path) is Some ==> capture_begun(store, path) == store,
        located_in(store, path) is None ==> capture_begun(store, path) == store,
        located_in(store, path) is Some && !store.candidates.contains_key(
            located_in(store, path)->0,
        ) && store.candidates.dom().len() >= store.limits.max_files ==> capture_begun(
            store,
            path,
        ).gaps.contains(
            GapView {
                kind: "file_quota"@,
                detail: "candidate limit "@ + decimal(store.limits.max_files as int)
                    + " exceeded"@,
            },
        ),
        located_in(store, path) is Some && store.candidates.contains_key(
            located_in(store, path)->0,
        ) ==> capture_begun(store, path) == store,
        capture_begun(store, path).candidates == store.candidates,
        capture_begun(store, path).total_bytes == store.total_bytes,
{
    let gap = file_quota_gap(store.limits);
    if !store.gaps.contains(gap) {
        assert(store.gaps.push(gap)[store.gaps.len() as int] == gap);
    }
}

/// A path is collected from the pieces of the target's memory: it is complete exactly where a
/// piece holds a zero byte, and is then everything before the first one; it fails where the memory
/// ends or the path is too long without one.
pub proof fn a_path_is_collected_from_its_pieces(
    reader: &mut PathReader,
    chunk: &[u8],
    step: PathStep,
)
    requires
        call_ensures(PathReader::feed, (reader, chunk), step),
    ensures
        step is Complete <==> exists|i: int| 0 <= i < chunk@.len() && #[trigger] chunk@[i] == 0,
        forall|end: int|
            0 <= end < chunk@.len() && #[trigger] chunk@[end] == 0 && (forall|i: int|
                0 <= i < end ==> #[trigger] chunk@[i] != 0) ==> step is Complete
                && step->Complete_0@ == old(reader)@ + chunk@.take(end),
        step is More ==> final(reader)@ == old(reader)@ + chunk@ && chunk@.len() > 0
            && final(reader)@.len() < 65_536,
        step is Failed <==> (forall|i: int| 0 <= i < chunk@.len() ==> #[trigger] chunk@[i] != 0) && (
        chunk@.len() == 0 || old(reader)@.len() + chunk@.len() >= 65_536),
        step is Failed ==> step->Failed_0@
            == "pathname is missing NUL terminator or exceeds 64 KiB"@,
{
    crate::linux::the_first_zero_is_first(chunk@);
    match first_zero(chunk@) {
        Some(position) => {
            assert(chunk@[position as int] == 0);
            assert forall|end: int|
                0 <= end < chunk@.len() && #[trigger] chunk@[end] == 0 && (forall|i: int|
                    0 <= i < end ==> #[trigger] chunk@[i] != 0) implies step is Complete
                && step->Complete_0@ == old(reader)@ + chunk@.take(end) by {
                assert(end == position);
            }
        },
        None => {},
    }
}

/// A path is read on behind what was read of it.
pub proof fn a_path_is_read_on_behind_itself(reader: PathReader, start: u64, address: Option<u64>)
    requires
        call_ensures(PathReader::next_address, (&reader, start), address),
    ensures
        address is Some <==> start + reader@.len() <= u64::MAX,
        address is Some ==> address->0 == start + reader@.len(),
{
}

/// A file that a call names is captured where the store wants it; a directory is noted and never
/// captured.
pub proof fn a_named_file_is_captured_or_noted(
    store: &mut CaptureStore,
    path: &[u8],
    is_directory: bool,
    step: ArgumentStep,
)
    requires
        call_ensures(capture_argument, (store, path, is_directory), step),
    ensures
        step is Directory <==> is_directory,
        is_directory ==> final(store)@ == with_gap(
            old(store)@,
            GapView {
                kind: "directory_operation"@,
                detail: "directory mutation at "@ + lossy_text(path@),
            },
        ),
        step is Capture <==> !is_directory && wanted(old(store)@, path@) is Some,
        step is Capture ==> step->Capture_0.key@ == wanted(old(store)@, path@)->0
            && step->Capture_0.path@ == normalized(path@),
        !is_directory ==> final(store)@ == capture_begun(old(store)@, path@),
{
}

/// The file of a descriptor is captured where the store wants it; one that has no name any more is
/// noted.
pub proof fn a_descriptors_file_is_captured_or_noted(
    store: &mut CaptureStore,
    pid: u32,
    raw: u64,
    link: &[u8],
    pending: Option<PendingCapture>,
)
    requires
        call_ensures(capture_descriptor, (store, pid, raw, link), pending),
    ensures
        ({
            let gone = exists|lead: Seq<u8>|
                link@ == #[trigger] (lead + encode_utf8(" (deleted)"@));
            &&& gone ==> pending is None && final(store)@ == with_gap(
                old(store)@,
                GapView {
                    kind: "fd_path"@,
                    detail: "cannot resolve pid "@ + decimal(pid as int) + " fd "@ + decimal(
                        raw as int,
                    ),
                },
            )
            &&& !gone ==> (pending is Some <==> wanted(old(store)@, link@) is Some)
                && final(store)@ == capture_begun(old(store)@, link@)
            &&& pending is Some ==> pending->0.key@ == wanted(old(store)@, link@)->0
                && pending->0.path@ == normalized(link@)
        }),
{
    a_deleted_link_ends_with_the_mark(link@);
}

/// The file of a standard stream is captured where the store wants it; a stream that is no file
/// changes nothing, and one that cannot be looked at is noted.
pub proof fn a_streams_file_is_captured_or_noted(
    store: &mut CaptureStore,
    fd: i32,
    link: Result<Vec<u8>, String>,
    pending: Option<PendingCapture>,
)
    requires
        call_ensures(capture_stdio, (store, fd, &link), pending),
    ensures
        ({
            let file = link is Ok && link->Ok_0@.len() > 0 && link->Ok_0@[0] == 47;
            &&& file ==> (pending is Some <==> wanted(old(store)@, link->Ok_0@) is Some)
                && final(store)@ == capture_begun(old(store)@, link->Ok_0@)
            &&& pending is Some ==> pending->0.key@ == wanted(old(store)@, link->Ok_0@)->0
                && pending->0.path@ == normalized(link->Ok_0@)
            &&& link is Ok && !file ==> pending is None && final(store)@ == old(store)@
            &&& link is Err ==> pending is None && final(store)@ == with_gap(
                old(store)@,
                GapView {
                    kind: "stdio_fd"@,
                    detail: "cannot inspect fd "@ + decimal(fd as int) + ": "@ + link->Err_0@,
                },
            )
        }),
{
}

/// A call that could not be handled goes on and is noted, unless its target is gone together with
/// the notification.
pub proof fn a_failed_call_goes_on_and_is_noted(
    store: &mut CaptureStore,
    request: Notification,
    code: Option<i32>,
    message: &str,
    still_waiting: bool,
    go_on: bool,
)
    requires
        call_ensures(processing_failed, (store, &request, code, message, still_waiting), go_on),
    ensures
        !go_on <==> !still_waiting && (code == Some(2i32) || code == Some(3i32)),
        !go_on ==> final(store)@ == old(store)@,
        go_on ==> final(store)@ == with_gap(
            old(store)@,
            GapView {
                kind: "notification_processing"@,
                detail: "pid "@ + decimal(request.pid as int) + " syscall "@ + decimal(
                    request.data.nr as int,
                ) + ": "@ + message@,
            },
        ),
{
}

/// A call that could not be let go on is noted.
pub proof fn a_stuck_call_is_noted(store: &mut CaptureStore, message: String)
    requires
        call_ensures(continue_failed, (store, message), ()),
    ensures
        final(store)@ == with_gap(
            old(store)@,
            GapView { kind: "notification_continue"@, detail: message@ },
        ),
{
}

} // verus!
