//! What the kernel reports of the target and how the filter picks it: the observed system
//! calls, the filter program, and the end of a process.
use crate::contracts::TargetResult;
use crate::text::{concat2, decimal, decimal_text};
use vstd::prelude::*;

verus! {

/// The descriptor that stands for the current directory.
pub const AT_FDCWD: i32 = -100;

/// The flag of an answer that lets the system call go on.
pub const USER_NOTIF_FLAG_CONTINUE: u32 = 1;

/// The filter's answer that ends the process.
pub const SECCOMP_RET_KILL_PROCESS: u32 = 0x8000_0000;

/// The filter's answer that reports the system call.
pub const SECCOMP_RET_USER_NOTIF: u32 = 0x7fc0_0000;

/// The filter's answer that lets the system call go on.
pub const SECCOMP_RET_ALLOW: u32 = 0x7fff_0000;

/// The instruction that loads a word of the data of a system call.
pub const BPF_LOAD_WORD: u16 = 0x20;

/// The instruction that jumps by whether the loaded word equals a constant.
pub const BPF_JUMP_EQUAL: u16 = 0x15;

/// The instruction that ends the program with a constant.
pub const BPF_RETURN: u16 = 0x06;

/// Where the number of the system call is in its data.
pub const NR_OFFSET: u32 = 0;

/// Where the architecture is in the data of a system call.
pub const ARCH_OFFSET: u32 = 4;

/// The number of the system call that has no name in every C library.
pub const SYS_FCHMODAT2: i32 = 452;

/// A system call, as the kernel describes it.
#[derive(Debug, Clone, Copy, Default)]
pub struct SeccompData {
    pub nr: i32,
    pub arch: u32,
    pub instruction_pointer: u64,
    pub args: [u64; 6],
}

/// A system call that waits for an answer.
#[derive(Debug, Clone, Copy, Default)]
pub struct Notification {
    pub id: u64,
    pub pid: u32,
    pub flags: u32,
    pub data: SeccompData,
}

/// What a system call does, as far as the tracker tells system calls apart.
#[derive(Debug, Clone, Copy, PartialEq, Eq, Structural)]
pub enum SyscallKind {
    Open,
    OpenAt,
    OpenAt2,
    Truncate,
    Ftruncate,
    Unlink,
    UnlinkAt,
    Rename,
    RenameAt,
    RenameAt2,
    Chmod,
    Fchmod,
    FchmodAt,
    FchmodAt2,
    Symlink,
    SymlinkAt,
    Link,
    LinkAt,
    Mkdir,
    MkdirAt,
    Rmdir,
    IoUringSetup,
    Unknown,
}

/// The numbers of the older system calls, which not every architecture has.
#[derive(Debug, Clone, Copy)]
pub struct LegacyNumbers {
    pub open: i32,
    pub unlink: i32,
    pub rename: i32,
    pub chmod: i32,
    pub symlink: i32,
    pub link: i32,
    pub mkdir: i32,
    pub rmdir: i32,
}

/// The numbers of the observed system calls on one architecture.
#[derive(Debug, Clone, Copy)]
pub struct SyscallTable {
    pub openat: i32,
    pub openat2: i32,
    pub truncate: i32,
    pub ftruncate: i32,
    pub unlinkat: i32,
    pub renameat: i32,
    pub renameat2: i32,
    pub fchmod: i32,
    pub fchmodat: i32,
    pub symlinkat: i32,
    pub linkat: i32,
    pub mkdirat: i32,
    pub io_uring_setup: i32,
    pub legacy: Option<LegacyNumbers>,
}

/// The observed system calls with their kinds, in the order in which a number is looked up.
pub open spec fn table_entries(table: SyscallTable) -> Seq<(i32, SyscallKind)> {
    match table.legacy {
        Some(legacy) => seq![
            (legacy.open, SyscallKind::Open),
            (table.openat, SyscallKind::OpenAt),
            (table.openat2, SyscallKind::OpenAt2),
            (table.truncate, SyscallKind::Truncate),
            (table.ftruncate, SyscallKind::Ftruncate),
            (legacy.unlink, SyscallKind::Unlink),
            (table.unlinkat, SyscallKind::UnlinkAt),
            (legacy.rename, SyscallKind::Rename),
            (table.renameat, SyscallKind::RenameAt),
            (table.renameat2, SyscallKind::RenameAt2),
            (legacy.chmod, SyscallKind::Chmod),
            (table.fchmod, SyscallKind::Fchmod),
            (table.fchmodat, SyscallKind::FchmodAt),
            (SYS_FCHMODAT2, SyscallKind::FchmodAt2),
            (legacy.symlink, SyscallKind::Symlink),
            (table.symlinkat, SyscallKind::SymlinkAt),
            (legacy.link, SyscallKind::Link),
            (table.linkat, SyscallKind::LinkAt),
            (legacy.mkdir, SyscallKind::Mkdir),
            (table.mkdirat, SyscallKind::MkdirAt),
            (legacy.rmdir, SyscallKind::Rmdir),
            (table.io_uring_setup, SyscallKind::IoUringSetup),
        ],
        None => seq![
            (table.openat, SyscallKind::OpenAt),
            (table.openat2, SyscallKind::OpenAt2),
            (table.truncate, SyscallKind::Truncate),
            (table.ftruncate, SyscallKind::Ftruncate),
            (table.unlinkat, SyscallKind::UnlinkAt),
            (table.renameat, SyscallKind::RenameAt),
            (table.renameat2, SyscallKind::RenameAt2),
            (table.fchmod, SyscallKind::Fchmod),
            (table.fchmodat, SyscallKind::FchmodAt),
            (SYS_FCHMODAT2, SyscallKind::FchmodAt2),
            (table.symlinkat, SyscallKind::SymlinkAt),
            (table.linkat, SyscallKind::LinkAt),
            (table.mkdirat, SyscallKind::MkdirAt),
            (table.io_uring_setup, SyscallKind::IoUringSetup),
        ],
    }
}

/// The kind of the first entry with a number.
pub open spec fn kind_among(entries: Seq<(i32, SyscallKind)>, number: i32) -> SyscallKind
    decreases entries.len(),
{
    if entries.len() == 0 {
        SyscallKind::Unknown
    } else if entries[0].0 == number {
        entries[0].1
    } else {
        kind_among(entries.skip(1), number)
    }
}

fn lookup(entries: &Vec<(i32, SyscallKind)>, number: i32) -> (kind: SyscallKind)
    ensures
        kind == kind_among(entries@, number),
{
    let mut i: usize = 0;
    assert(entries@.skip(0) =~= entries@);
    while i < entries.len()
        invariant
            i <= entries@.len(),
            kind_among(entries@.skip(i as int), number) == kind_among(entries@, number),
        decreases entries@.len() - i,
    {
        let entry: &(i32, SyscallKind) = &entries[i];
        assert(entries@.skip(i as int)[0] == *entry);
        assert(entries@.skip(i as int).skip(1) =~= entries@.skip(i + 1));
        if entry.0 == number {
            return entry.1;
        }
        i += 1;
    }
    SyscallKind::Unknown
}

fn entries(table: &SyscallTable) -> (list: Vec<(i32, SyscallKind)>)
    ensures
        list@ == table_entries(*table),
{
    let list: Vec<(i32, SyscallKind)> = match table.legacy {
        Some(legacy) => vec![
            (legacy.open, SyscallKind::Open),
            (table.openat, SyscallKind::OpenAt),
            (table.openat2, SyscallKind::OpenAt2),
            (table.truncate, SyscallKind::Truncate),
            (table.ftruncate, SyscallKind::Ftruncate),
            (legacy.unlink, SyscallKind::Unlink),
            (table.unlinkat, SyscallKind::UnlinkAt),
            (legacy.rename, SyscallKind::Rename),
            (table.renameat, SyscallKind::RenameAt),
            (table.renameat2, SyscallKind::RenameAt2),
            (legacy.chmod, SyscallKind::Chmod),
            (table.fchmod, SyscallKind::Fchmod),
            (table.fchmodat, SyscallKind::FchmodAt),
            (SYS_FCHMODAT2, SyscallKind::FchmodAt2),
            (legacy.symlink, SyscallKind::Symlink),
            (table.symlinkat, SyscallKind::SymlinkAt),
            (legacy.link, SyscallKind::Link),
            (table.linkat, SyscallKind::LinkAt),
            (legacy.mkdir, SyscallKind::Mkdir),
            (table.mkdirat, SyscallKind::MkdirAt),
            (legacy.rmdir, SyscallKind::Rmdir),
            (table.io_uring_setup, SyscallKind::IoUringSetup),
        ],
        None => vec![
            (table.openat, SyscallKind::OpenAt),
            (table.openat2, SyscallKind::OpenAt2),
            (table.truncate, SyscallKind::Truncate),
            (table.ftruncate, SyscallKind::Ftruncate),
            (table.unlinkat, SyscallKind::UnlinkAt),
            (table.renameat, SyscallKind::RenameAt),
            (table.renameat2, SyscallKind::RenameAt2),
            (table.fchmod, SyscallKind::Fchmod),
            (table.fchmodat, SyscallKind::FchmodAt),
            (SYS_FCHMODAT2, SyscallKind::FchmodAt2),
            (table.symlinkat, SyscallKind::SymlinkAt),
            (table.linkat, SyscallKind::LinkAt),
            (table.mkdirat, SyscallKind::MkdirAt),
            (table.io_uring_setup, SyscallKind::IoUringSetup),
        ],
    };
    assert(list@ =~= table_entries(*table));
    list
}

/// What the system call with a number does.
pub fn syscall_kind(number: i32, table: &SyscallTable) -> (kind: SyscallKind)
    ensures
        kind == kind_among(table_entries(*table), number),
{
    lookup(&entries(table), number)
}

/// The numbers of the observed system calls, those of every architecture first.
pub open spec fn supported_numbers(table: SyscallTable) -> Seq<i64> {
    let common = seq![
        table.openat as i64,
        table.openat2 as i64,
        table.truncate as i64,
        table.ftruncate as i64,
        table.unlinkat as i64,
        table.renameat as i64,
        table.renameat2 as i64,
        table.fchmod as i64,
        table.fchmodat as i64,
        SYS_FCHMODAT2 as i64,
        table.symlinkat as i64,
        table.linkat as i64,
        table.mkdirat as i64,
        table.io_uring_setup as i64,
    ];
    match table.legacy {
        None => common,
        Some(legacy) => common + seq![
            legacy.open as i64,
            legacy.unlink as i64,
            legacy.rename as i64,
            legacy.chmod as i64,
            legacy.symlink as i64,
            legacy.link as i64,
            legacy.mkdir as i64,
            legacy.rmdir as i64,
        ],
    }
}

/// The numbers of the observed system calls.
pub fn supported_syscall_numbers(table: &SyscallTable) -> (numbers: Vec<i64>)
    ensures
        numbers@ == supported_numbers(*table),
{
    let mut numbers: Vec<i64> = vec![
        table.openat as i64,
        table.openat2 as i64,
        table.truncate as i64,
        table.ftruncate as i64,
        table.unlinkat as i64,
        table.renameat as i64,
        table.renameat2 as i64,
        table.fchmod as i64,
        table.fchmodat as i64,
        SYS_FCHMODAT2 as i64,
        table.symlinkat as i64,
        table.linkat as i64,
        table.mkdirat as i64,
        table.io_uring_setup as i64,
    ];
    if let Some(legacy) = table.legacy {
        numbers.push(legacy.open as i64);
        numbers.push(legacy.unlink as i64);
        numbers.push(legacy.rename as i64);
        numbers.push(legacy.chmod as i64);
        numbers.push(legacy.symlink as i64);
        numbers.push(legacy.link as i64);
        numbers.push(legacy.mkdir as i64);
        numbers.push(legacy.rmdir as i64);
    }
    assert(numbers@ =~= supported_numbers(*table));
    numbers
}

proof fn lemma_kind_among_finds(entries: Seq<(i32, SyscallKind)>, number: i32)
    requires
        forall|i: int| 0 <= i < entries.len() ==> (#[trigger] entries[i]).1 != SyscallKind::Unknown,
    ensures
        kind_among(entries, number) != SyscallKind::Unknown <==> exists|i: int|
            0 <= i < entries.len() && (#[trigger] entries[i]).0 == number,
    decreases entries.len(),
{
    if entries.len() > 0 {
        let rest = entries.skip(1);
        assert forall|i: int| 0 <= i < rest.len() implies (#[trigger] rest[i]).1
            != SyscallKind::Unknown by {
            assert(rest[i] == entries[i + 1]);
        }
        lemma_kind_among_finds(rest, number);
        if exists|i: int| 0 <= i < entries.len() && (#[trigger] entries[i]).0 == number {
            let i = choose|i: int| 0 <= i < entries.len() && (#[trigger] entries[i]).0 == number;
            if i > 0 {
                assert(rest[i - 1].0 == number);
            }
        }
        if exists|i: int| 0 <= i < rest.len() && (#[trigger] rest[i]).0 == number {
            let i = choose|i: int| 0 <= i < rest.len() && (#[trigger] rest[i]).0 == number;
            assert(entries[i + 1].0 == number);
        }
    }
}

/// The filter reports just the system calls whose kind is known.
pub proof fn supported_numbers_have_a_kind(table: SyscallTable, number: i32)
    ensures
        supported_numbers(table).contains(number as i64) <==> kind_among(
            table_entries(table),
            number,
        ) != SyscallKind::Unknown,
{
    let entries = table_entries(table);
    let numbers = supported_numbers(table);
    lemma_kind_among_finds(entries, number);
    match table.legacy {
        None => {
            assert(numbers.len() == 14 && entries.len() == 14);
            assert forall|i: int| 0 <= i < 14 implies numbers[i] == (#[trigger] entries[i]).0 by {}
            if numbers.contains(number as i64) {
                let i = choose|i: int| 0 <= i < numbers.len() && numbers[i] == number as i64;
                assert(entries[i].0 == number);
            }
            if exists|i: int| 0 <= i < entries.len() && (#[trigger] entries[i]).0 == number {
                let i = choose|i: int|
                    0 <= i < entries.len() && (#[trigger] entries[i]).0 == number;
                assert(numbers[i] == number as i64);
            }
        },
        Some(legacy) => {
            let places: Seq<int> = seq![
                14, 0, 1, 2, 3, 15, 4, 16, 5, 6, 17, 7, 8, 9, 18, 10, 19, 11, 20, 12, 21, 13,
            ];
            let sources: Seq<int> = seq![
                1, 2, 3, 4, 6, 8, 9, 11, 12, 13, 15, 17, 19, 21, 0, 5, 7, 10, 14, 16, 18, 20,
            ];
            assert(numbers.len() == 22 && entries.len() == 22);
            assert forall|i: int| 0 <= i < 22 implies 0 <= places[i] < 22 && numbers[places[i]]
                == (#[trigger] entries[i]).0 by {}
            assert forall|i: int| 0 <= i < 22 implies 0 <= #[trigger] sources[i] < 22
                && entries[sources[i]].0 == numbers[i] by {}
            if numbers.contains(number as i64) {
                let i = choose|i: int| 0 <= i < numbers.len() && numbers[i] == number as i64;
                assert(0 <= sources[i] < 22);
                assert(entries[sources[i]].0 == number);
            }
            if exists|i: int| 0 <= i < entries.len() && (#[trigger] entries[i]).0 == number {
                let i = choose|i: int|
                    0 <= i < entries.len() && (#[trigger] entries[i]).0 == number;
                assert(numbers[places[i]] == number as i64);
            }
        },
    }
}

/// The system calls of a table have numbers of their own, none of them that of `fchmodat2`.
pub open spec fn has_distinct_numbers(table: SyscallTable) -> bool {
    let entries = table_entries(table);
    forall|i: int, j: int|
        0 <= i < j < entries.len() ==> (#[trigger] entries[i]).0 != (#[trigger] entries[j]).0
}

/// Where the system calls have numbers of their own, no number is listed twice, and each has
/// the kind of its system call: the number of `fchmodat2` is listed and has that kind.
pub proof fn each_number_is_listed_once(table: SyscallTable)
    requires
        has_distinct_numbers(table),
    ensures
        supported_numbers(table).no_duplicates(),
        supported_numbers(table).contains(SYS_FCHMODAT2 as i64),
        kind_among(table_entries(table), SYS_FCHMODAT2) == SyscallKind::FchmodAt2,
        forall|i: int|
            0 <= i < table_entries(table).len() ==> kind_among(
                table_entries(table),
                (#[trigger] table_entries(table)[i]).0,
            ) == table_entries(table)[i].1,
{
    let entries = table_entries(table);
    let numbers = supported_numbers(table);
    assert forall|i: int| 0 <= i < entries.len() implies kind_among(
        entries,
        (#[trigger] entries[i]).0,
    ) == entries[i].1 by {
        lemma_kind_of_entry(entries, i);
    }
    assert(numbers[9] == SYS_FCHMODAT2 as i64);
    match table.legacy {
        None => {
            assert(entries[9] == (SYS_FCHMODAT2, SyscallKind::FchmodAt2));
            assert forall|i: int| 0 <= i < 14 implies numbers[i] == (#[trigger] entries[i]).0 by {}
            assert forall|i: int, j: int|
                0 <= i < numbers.len() && 0 <= j < numbers.len() && i != j implies numbers[i]
                != numbers[j] by {
                assert(numbers[i] == entries[i].0 && numbers[j] == entries[j].0);
            }
        },
        Some(legacy) => {
            assert(entries[13] == (SYS_FCHMODAT2, SyscallKind::FchmodAt2));
            let sources: Seq<int> = seq![
                1, 2, 3, 4, 6, 8, 9, 11, 12, 13, 15, 17, 19, 21, 0, 5, 7, 10, 14, 16, 18, 20,
            ];
            assert(numbers.len() == 22 && entries.len() == 22);
            assert forall|i: int| 0 <= i < 22 implies 0 <= #[trigger] sources[i] < 22
                && entries[sources[i]].0 == numbers[i] by {}
            assert forall|i: int, j: int|
                0 <= i < numbers.len() && 0 <= j < numbers.len() && i != j implies numbers[i]
                != numbers[j] by {
                assert(sources[i] != sources[j]);
                assert(entries[sources[i]].0 == numbers[i]);
                assert(entries[sources[j]].0 == numbers[j]);
                if sources[i] < sources[j] {
                    assert(entries[sources[i]].0 != entries[sources[j]].0);
                } else {
                    assert(entries[sources[j]].0 != entries[sources[i]].0);
                }
            }
        },
    }
}

proof fn lemma_kind_of_entry(entries: Seq<(i32, SyscallKind)>, at: int)
    requires
        0 <= at < entries.len(),
        forall|i: int, j: int|
            0 <= i < j < entries.len() ==> (#[trigger] entries[i]).0 != (#[trigger] entries[j]).0,
    ensures
        kind_among(entries, entries[at].0) == entries[at].1,
    decreases entries.len(),
{
    if at > 0 {
        assert(entries[0].0 != entries[at].0);
        let rest = entries.skip(1);
        assert forall|i: int, j: int| 0 <= i < j < rest.len() implies (#[trigger] rest[i]).0 != (
        #[trigger] rest[j]).0 by {
            assert(rest[i] == entries[i + 1] && rest[j] == entries[j + 1]);
        }
        lemma_kind_of_entry(rest, at - 1);
    }
}

/// One instruction of a filter program.
#[derive(Debug, Clone, Copy, PartialEq, Eq, Structural)]
pub struct SockFilter {
    pub code: u16,
    pub jt: u8,
    pub jf: u8,
    pub k: u32,
}

/// An instruction that does not jump.
pub open spec fn stmt_of(code: u16, k: u32) -> SockFilter {
    SockFilter { code, jt: 0, jf: 0, k }
}

/// An instruction that jumps.
pub open spec fn jump_of(code: u16, k: u32, jt: u8, jf: u8) -> SockFilter {
    SockFilter { code, jt, jf, k }
}

/// An instruction that does not jump.
pub fn stmt(code: u16, k: u32) -> (instruction: SockFilter)
    ensures
        instruction == stmt_of(code, k),
{
    SockFilter { code, jt: 0, jf: 0, k }
}

/// An instruction that jumps.
pub fn jump(code: u16, k: u32, jt: u8, jf: u8) -> (instruction: SockFilter)
    ensures
        instruction == jump_of(code, k, jt, jf),
{
    SockFilter { code, jt, jf, k }
}

/// The instructions that end the program where the architecture is not the native one, and
/// load the number of the system call where it is.
pub open spec fn filter_head(arch: u32) -> Seq<SockFilter> {
    seq![
        stmt_of(BPF_LOAD_WORD, ARCH_OFFSET),
        jump_of(BPF_JUMP_EQUAL, arch, 1, 0),
        stmt_of(BPF_RETURN, SECCOMP_RET_KILL_PROCESS),
        stmt_of(BPF_LOAD_WORD, NR_OFFSET),
    ]
}

/// The instructions that report the system calls with the given numbers.
pub open spec fn filter_body(numbers: Seq<i64>) -> Seq<SockFilter>
    decreases numbers.len(),
{
    if numbers.len() == 0 {
        Seq::empty()
    } else {
        filter_body(numbers.drop_last()).push(
            jump_of(BPF_JUMP_EQUAL, numbers.last() as u32, 0, 1),
        ).push(stmt_of(BPF_RETURN, SECCOMP_RET_USER_NOTIF))
    }
}

/// The filter program for the given numbers.
pub open spec fn filter_of(arch: u32, numbers: Seq<i64>) -> Seq<SockFilter> {
    (filter_head(arch) + filter_body(numbers)).push(stmt_of(BPF_RETURN, SECCOMP_RET_ALLOW))
}

/// The filter program that the target is started with.
pub fn filter_program(arch: u32, table: &SyscallTable) -> (program: Vec<SockFilter>)
    ensures
        program@ == filter_of(arch, supported_numbers(*table)),
{
    let mut program: Vec<SockFilter> = vec![
        stmt(BPF_LOAD_WORD, ARCH_OFFSET),
        jump(BPF_JUMP_EQUAL, arch, 1, 0),
        stmt(BPF_RETURN, SECCOMP_RET_KILL_PROCESS),
        stmt(BPF_LOAD_WORD, NR_OFFSET),
    ];
    assert(program@ =~= filter_head(arch));
    let numbers = supported_syscall_numbers(table);
    let mut i: usize = 0;
    assert(numbers@.take(0) =~= Seq::<i64>::empty());
    assert(program@ =~= filter_head(arch) + filter_body(numbers@.take(0)));
    while i < numbers.len()
        invariant
            i <= numbers@.len(),
            program@ == filter_head(arch) + filter_body(numbers@.take(i as int)),
        decreases numbers@.len() - i,
    {
        let ghost before = filter_body(numbers@.take(i as int));
        proof {
            assert(numbers@.take(i + 1).drop_last() =~= numbers@.take(i as int));
            assert(numbers@.take(i + 1).last() == numbers@[i as int]);
        }
        program.push(jump(BPF_JUMP_EQUAL, #[verifier::truncate] (numbers[i] as u32), 0, 1));
        program.push(stmt(BPF_RETURN, SECCOMP_RET_USER_NOTIF));
        assert(program@ =~= filter_head(arch) + filter_body(numbers@.take(i + 1)));
        i += 1;
    }
    assert(numbers@.take(numbers@.len() as int) =~= numbers@);
    program.push(stmt(BPF_RETURN, SECCOMP_RET_ALLOW));
    program
}

/// What a filter program answers for a system call, from one of its instructions on: the
/// meaning of the three instructions that the tracker uses.
pub open spec fn filter_answer(
    program: Seq<SockFilter>,
    at: int,
    loaded: u32,
    nr: u32,
    arch: u32,
) -> Option<u32>
    decreases
            (if at < program.len() {
                program.len() - at
            } else {
                0
            }),
{
    if at < 0 || at >= program.len() {
        None
    } else {
        let step = program[at];
        if step.code == BPF_LOAD_WORD {
            if step.k == NR_OFFSET {
                filter_answer(program, at + 1, nr, nr, arch)
            } else if step.k == ARCH_OFFSET {
                filter_answer(program, at + 1, arch, nr, arch)
            } else {
                None
            }
        } else if step.code == BPF_JUMP_EQUAL {
            if loaded == step.k {
                filter_answer(program, at + 1 + step.jt, loaded, nr, arch)
            } else {
                filter_answer(program, at + 1 + step.jf, loaded, nr, arch)
            }
        } else if step.code == BPF_RETURN {
            Some(step.k)
        } else {
            None
        }
    }
}

/// The word that a system call's number is loaded as.
pub open spec fn nr_word(nr: i32) -> u32 {
    nr as u32
}

proof fn lemma_words_tell_numbers_apart(a: i32, b: i32)
    ensures
        ((a as i64) as u32 == b as u32) == (a == b),
{
    assert(((a as i64) as u32 == b as u32) == (a == b)) by (bit_vector);
}

proof fn lemma_body_shape(numbers: Seq<i64>)
    ensures
        filter_body(numbers).len() == 2 * numbers.len(),
        forall|i: int|
            0 <= i < numbers.len() ==> #[trigger] filter_body(numbers)[2 * i] == jump_of(
                BPF_JUMP_EQUAL,
                numbers[i] as u32,
                0,
                1,
            ),
        forall|i: int|
            0 <= i < numbers.len() ==> #[trigger] filter_body(numbers)[2 * i + 1] == stmt_of(
                BPF_RETURN,
                SECCOMP_RET_USER_NOTIF,
            ),
    decreases numbers.len(),
{
    if numbers.len() > 0 {
        let head = numbers.drop_last();
        lemma_body_shape(head);
        let before = filter_body(head);
        let after = filter_body(numbers);
        assert forall|i: int| 0 <= i < numbers.len() implies #[trigger] after[2 * i] == jump_of(
            BPF_JUMP_EQUAL,
            numbers[i] as u32,
            0,
            1,
        ) by {
            if i < head.len() {
                assert(after[2 * i] == before[2 * i]);
                assert(head[i] == numbers[i]);
            }
        }
        assert forall|i: int| 0 <= i < numbers.len() implies #[trigger] after[2 * i + 1] == stmt_of(
            BPF_RETURN,
            SECCOMP_RET_USER_NOTIF,
        ) by {
            if i < head.len() {
                assert(after[2 * i + 1] == before[2 * i + 1]);
            }
        }
    }
}

/// From the test of one number on, the program reports the system call where a number from
/// there on is its number, and lets it go on where none is.
proof fn lemma_body_answers(arch: u32, numbers: Seq<i64>, i: int, nr: u32)
    requires
        0 <= i <= numbers.len(),
    ensures
        filter_answer(filter_of(arch, numbers), 4 + 2 * i, nr, nr, arch) == (if exists|k: int|
            i <= k < numbers.len() && #[trigger] numbers[k] as u32 == nr {
            Some(SECCOMP_RET_USER_NOTIF)
        } else {
            Some(SECCOMP_RET_ALLOW)
        }),
    decreases numbers.len() - i,
{
    let program = filter_of(arch, numbers);
    let at = 4 + 2 * i;
    lemma_body_shape(numbers);
    if i == numbers.len() {
        assert(program[at] == stmt_of(BPF_RETURN, SECCOMP_RET_ALLOW));
    } else {
        assert(filter_body(numbers)[2 * i] == program[at]);
        assert(filter_body(numbers)[2 * i + 1] == program[at + 1]);
        lemma_body_answers(arch, numbers, i + 1, nr);
        if numbers[i] as u32 == nr {
            assert(filter_answer(program, at + 1, nr, nr, arch) == Some(SECCOMP_RET_USER_NOTIF));
        } else {
            assert(at + 2 == 4 + 2 * (i + 1));
        }
    }
}

/// The filter ends a process that makes system calls of another architecture, reports the
/// observed system calls, and lets all others go on.
pub proof fn the_filter_picks_the_observed_calls(table: SyscallTable, native: u32, nr: i32, arch: u32)
    ensures
        filter_answer(
            filter_of(native, supported_numbers(table)),
            0,
            0,
            nr_word(nr),
            arch,
        ) == Some(
            if arch != native {
                SECCOMP_RET_KILL_PROCESS
            } else if kind_among(table_entries(table), nr) != SyscallKind::Unknown {
                SECCOMP_RET_USER_NOTIF
            } else {
                SECCOMP_RET_ALLOW
            },
        ),
{
    let numbers = supported_numbers(table);
    let program = filter_of(native, numbers);
    let word = nr_word(nr);
    assert(program[0] == stmt_of(BPF_LOAD_WORD, ARCH_OFFSET));
    assert(program[1] == jump_of(BPF_JUMP_EQUAL, native, 1, 0));
    assert(program[2] == stmt_of(BPF_RETURN, SECCOMP_RET_KILL_PROCESS));
    assert(program[3] == stmt_of(BPF_LOAD_WORD, NR_OFFSET));
    assert(filter_answer(program, 0, 0, word, arch) == filter_answer(program, 1, arch, word, arch));
    if arch != native {
        assert(filter_answer(program, 1, arch, word, arch) == filter_answer(
            program,
            2,
            arch,
            word,
            arch,
        ));
    } else {
        assert(filter_answer(program, 1, arch, word, arch) == filter_answer(
            program,
            3,
            arch,
            word,
            arch,
        ));
        assert(filter_answer(program, 3, arch, word, arch) == filter_answer(
            program,
            4,
            word,
            word,
            arch,
        ));
        lemma_body_answers(native, numbers, 0, word);
        supported_numbers_have_a_kind(table, nr);
        lemma_numbers_fit(table);
        if numbers.contains(nr as i64) {
            let k = choose|k: int| 0 <= k < numbers.len() && numbers[k] == nr as i64;
            lemma_words_tell_numbers_apart(nr, nr);
            assert(numbers[k] as u32 == word);
        }
        if exists|k: int| 0 <= k < numbers.len() && #[trigger] numbers[k] as u32 == word {
            let k = choose|k: int| 0 <= k < numbers.len() && #[trigger] numbers[k] as u32 == word;
            let number = numbers[k] as i32;
            lemma_words_tell_numbers_apart(number, nr);
            assert(numbers[k] == number as i64);
            assert(numbers.contains(nr as i64));
        }
    }
}

proof fn lemma_numbers_fit(table: SyscallTable)
    ensures
        forall|k: int|
            0 <= k < supported_numbers(table).len() ==> i32::MIN <= #[trigger] supported_numbers(
                table,
            )[k] <= i32::MAX,
{
}

/// The wait status is that of a process that ended by itself.
pub open spec fn exited(status: i32) -> bool {
    status & 0x7f == 0
}

/// The wait status is that of a process that a signal ended.
pub open spec fn signaled(status: i32) -> bool {
    1 <= status & 0x7f && status & 0x7f <= 0x7e
}

/// How a process ended, by its wait status.
pub open spec fn ended(status: i32) -> TargetResult {
    if exited(status) {
        TargetResult { exit_code: Some((status >> 8) & 0xff), signal: None }
    } else if signaled(status) {
        TargetResult { exit_code: None, signal: Some(status & 0x7f) }
    } else {
        TargetResult { exit_code: None, signal: None }
    }
}

/// How a process ended, by its wait status.
pub fn target_result(status: i32) -> (result: TargetResult)
    ensures
        result == ended(status),
{
    if libc::WIFEXITED(status) {
        TargetResult { exit_code: Some(libc::WEXITSTATUS(status)), signal: None }
    } else if libc::WIFSIGNALED(status) {
        TargetResult { exit_code: None, signal: Some(libc::WTERMSIG(status)) }
    } else {
        TargetResult { exit_code: None, signal: None }
    }
}

/// A process never ends both by itself and by a signal; its exit code is a byte and its
/// signal below 127.
pub proof fn a_process_ends_one_way(status: i32)
    ensures
        ended(status).exit_code is None || ended(status).signal is None,
        ended(status).exit_code matches Some(code) ==> 0 <= code <= 255,
        ended(status).signal matches Some(signal) ==> 1 <= signal <= 126,
{
    assert(0 <= (status >> 8) & 0xff <= 255) by (bit_vector);
}

/// The size of a notification is the one that the tracker reads.
pub fn check_notification_size(size: u16, expected: usize) -> (result: Result<(), String>)
    ensures
        match result {
            Ok(_) => size == expected,
            Err(message) => size != expected && message@
                == "unsupported seccomp notification size "@ + decimal(size as int),
        },
{
    if size as usize != expected {
        Err(concat2("unsupported seccomp notification size ", decimal_text(size as u64).as_str()))
    } else {
        Ok(())
    }
}

/// Where the first zero byte of an argument is.
pub open spec fn first_zero(bytes: Seq<u8>) -> Option<nat>
    decreases bytes.len(),
{
    if bytes.len() == 0 {
        None
    } else if bytes[0] == 0 {
        Some(0)
    } else {
        match first_zero(bytes.skip(1)) {
            Some(position) => Some(position + 1),
            None => None,
        }
    }
}

/// Where the first zero byte of an argument is.
pub fn nul_position(bytes: &[u8]) -> (position: Option<usize>)
    ensures
        match position {
            Some(found) => first_zero(bytes@) == Some(found as nat),
            None => first_zero(bytes@) is None,
        },
{
    let mut i: usize = 0;
    assert(bytes@.skip(0) =~= bytes@);
    while i < bytes.len()
        invariant
            i <= bytes@.len(),
            first_zero(bytes@) == match first_zero(bytes@.skip(i as int)) {
                Some(position) => Some((position + i) as nat),
                None => None,
            },
        decreases bytes@.len() - i,
    {
        assert(bytes@.skip(i as int).skip(1) =~= bytes@.skip(i + 1));
        if bytes[i] == 0 {
            return Some(i);
        }
        i += 1;
    }
    None
}

/// Checks that the arguments of the target can be handed to it: none holds a zero byte.
pub fn check_command(command: &Vec<Vec<u8>>) -> (result: Result<(), String>)
    ensures
        match result {
            Ok(_) => forall|i: int|
                0 <= i < command@.len() ==> first_zero((#[trigger] command@[i])@) is None,
            Err(message) => message@ == "argv contains NUL"@ && exists|i: int|
                0 <= i < command@.len() && first_zero((#[trigger] command@[i])@) is Some,
        },
{
    let mut i: usize = 0;
    while i < command.len()
        invariant
            i <= command@.len(),
            forall|j: int| 0 <= j < i ==> first_zero((#[trigger] command@[j])@) is None,
        decreases command@.len() - i,
    {
        if nul_position(&command[i]).is_some() {
            assert(first_zero(command@[i as int]@) is Some);
            return Err("argv contains NUL".to_owned());
        }
        i += 1;
    }
    Ok(())
}

/// The numbers of the observed system calls, one for each.
pub open spec fn own_numbers(table: SyscallTable) -> Seq<int> {
    let common = seq![
        452int,
        table.openat as int,
        table.openat2 as int,
        table.truncate as int,
        table.ftruncate as int,
        table.unlinkat as int,
        table.renameat as int,
        table.renameat2 as int,
        table.fchmod as int,
        table.fchmodat as int,
        table.symlinkat as int,
        table.linkat as int,
        table.mkdirat as int,
        table.io_uring_setup as int,
    ];
    match table.legacy {
        None => common,
        Some(old) => common + seq![
            old.open as int,
            old.unlink as int,
            old.rename as int,
            old.chmod as int,
            old.symlink as int,
            old.link as int,
            old.mkdir as int,
            old.rmdir as int,
        ],
    }
}

/// Where no two system calls share a number, a number has the kind of the system call that it
/// belongs to, and no other number has it; the eight older ones are known only where the
/// architecture has them.
pub proof fn a_number_tells_its_system_call(number: i32, table: SyscallTable, kind: SyscallKind)
    requires
        call_ensures(syscall_kind, (number, &table), kind),
        own_numbers(table).no_duplicates(),
    ensures
        kind == SyscallKind::OpenAt <==> number == table.openat,
        kind == SyscallKind::OpenAt2 <==> number == table.openat2,
        kind == SyscallKind::Truncate <==> number == table.truncate,
        kind == SyscallKind::Ftruncate <==> number == table.ftruncate,
        kind == SyscallKind::UnlinkAt <==> number == table.unlinkat,
        kind == SyscallKind::RenameAt <==> number == table.renameat,
        kind == SyscallKind::RenameAt2 <==> number == table.renameat2,
        kind == SyscallKind::Fchmod <==> number == table.fchmod,
        kind == SyscallKind::FchmodAt <==> number == table.fchmodat,
        kind == SyscallKind::FchmodAt2 <==> number == 452,
        kind == SyscallKind::SymlinkAt <==> number == table.symlinkat,
        kind == SyscallKind::LinkAt <==> number == table.linkat,
        kind == SyscallKind::MkdirAt <==> number == table.mkdirat,
        kind == SyscallKind::IoUringSetup <==> number == table.io_uring_setup,
        kind == SyscallKind::Open <==> table.legacy is Some && number == table.legacy->0.open,
        kind == SyscallKind::Unlink <==> table.legacy is Some && number == table.legacy->0.unlink,
        kind == SyscallKind::Rename <==> table.legacy is Some && number == table.legacy->0.rename,
        kind == SyscallKind::Chmod <==> table.legacy is Some && number == table.legacy->0.chmod,
        kind == SyscallKind::Symlink <==> table.legacy is Some && number
            == table.legacy->0.symlink,
        kind == SyscallKind::Link <==> table.legacy is Some && number == table.legacy->0.link,
        kind == SyscallKind::Mkdir <==> table.legacy is Some && number == table.legacy->0.mkdir,
        kind == SyscallKind::Rmdir <==> table.legacy is Some && number == table.legacy->0.rmdir,
        kind == SyscallKind::Unknown <==> !own_numbers(table).contains(number as int),
{
    lemma_number_tells_its_system_call(number, table, kind);
}

proof fn lemma_number_tells_its_system_call(number: i32, table: SyscallTable, kind: SyscallKind)
    requires
        kind == kind_among(table_entries(table), number),
        own_numbers(table).no_duplicates(),
    ensures
        kind == SyscallKind::OpenAt <==> number == table.openat,
        kind == SyscallKind::OpenAt2 <==> number == table.openat2,
        kind == SyscallKind::Truncate <==> number == table.truncate,
        kind == SyscallKind::Ftruncate <==> number == table.ftruncate,
        kind == SyscallKind::UnlinkAt <==> number == table.unlinkat,
        kind == SyscallKind::RenameAt <==> number == table.renameat,
        kind == SyscallKind::RenameAt2 <==> number == table.renameat2,
        kind == SyscallKind::Fchmod <==> number == table.fchmod,
        kind == SyscallKind::FchmodAt <==> number == table.fchmodat,
        kind == SyscallKind::FchmodAt2 <==> number == 452,
        kind == SyscallKind::SymlinkAt <==> number == table.symlinkat,
        kind == SyscallKind::LinkAt <==> number == table.linkat,
        kind == SyscallKind::MkdirAt <==> number == table.mkdirat,
        kind == SyscallKind::IoUringSetup <==> number == table.io_uring_setup,
        kind == SyscallKind::Open <==> table.legacy is Some && number == table.legacy->0.open,
        kind == SyscallKind::Unlink <==> table.legacy is Some && number == table.legacy->0.unlink,
        kind == SyscallKind::Rename <==> table.legacy is Some && number == table.legacy->0.rename,
        kind == SyscallKind::Chmod <==> table.legacy is Some && number == table.legacy->0.chmod,
        kind == SyscallKind::Symlink <==> table.legacy is Some && number
            == table.legacy->0.symlink,
        kind == SyscallKind::Link <==> table.legacy is Some && number == table.legacy->0.link,
        kind == SyscallKind::Mkdir <==> table.legacy is Some && number == table.legacy->0.mkdir,
        kind == SyscallKind::Rmdir <==> table.legacy is Some && number == table.legacy->0.rmdir,
        kind == SyscallKind::Unknown <==> !own_numbers(table).contains(number as int),
{
    let all = own_numbers(table);
    let entries = table_entries(table);
    let sources: Seq<int> = match table.legacy {
        None => seq![1, 2, 3, 4, 5, 6, 7, 8, 9, 0, 10, 11, 12, 13],
        Some(_) => seq![
            14, 1, 2, 3, 4, 15, 5, 16, 6, 7, 17, 8, 9, 0, 18, 10, 19, 11, 20, 12, 21, 13,
        ],
    };
    assert(entries.len() == sources.len() == all.len());
    assert forall|i: int| 0 <= i < entries.len() implies 0 <= #[trigger] sources[i] < all.len()
        && all[sources[i]] == entries[i].0 by {}
    assert forall|i: int, j: int| 0 <= i < j < entries.len() implies (#[trigger] entries[i]).0 != (
    #[trigger] entries[j]).0 by {
        assert(sources[i] != sources[j]);
        assert(all[sources[i]] == entries[i].0 && all[sources[j]] == entries[j].0);
    }
    assert forall|i: int| 0 <= i < entries.len() implies belongs(
        table,
        (#[trigger] entries[i]).0,
        entries[i].1,
    ) && entries[i].1 != SyscallKind::Unknown by {}
    lemma_kind_among_finds(entries, number);
    assert forall|i: int| 0 <= i < entries.len() && (#[trigger] entries[i]).0 == number implies kind
        == entries[i].1 by {
        lemma_kind_of_entry(entries, i);
    }
    if kind != SyscallKind::Unknown {
        let i = choose|i: int| 0 <= i < entries.len() && (#[trigger] entries[i]).0 == number;
        assert(belongs(table, number, kind));
        assert(all[sources[i]] == number);
    }
    let at = |k: int| entries[k];
    match table.legacy {
        None => {
            assert(at(0).0 == table.openat && at(1).0 == table.openat2 && at(2).0 == table.truncate
                && at(3).0 == table.ftruncate && at(4).0 == table.unlinkat && at(5).0
                == table.renameat && at(6).0 == table.renameat2 && at(7).0 == table.fchmod && at(
                8,
            ).0 == table.fchmodat && at(9).0 == 452 && at(10).0 == table.symlinkat && at(11).0
                == table.linkat && at(12).0 == table.mkdirat && at(13).0 == table.io_uring_setup);
        },
        Some(old) => {
            assert(at(0).0 == old.open && at(1).0 == table.openat && at(2).0 == table.openat2 && at(
                3,
            ).0 == table.truncate && at(4).0 == table.ftruncate && at(5).0 == old.unlink && at(6).0
                == table.unlinkat && at(7).0 == old.rename && at(8).0 == table.renameat && at(9).0
                == table.renameat2 && at(10).0 == old.chmod && at(11).0 == table.fchmod && at(12).0
                == table.fchmodat && at(13).0 == 452 && at(14).0 == old.symlink && at(15).0
                == table.symlinkat && at(16).0 == old.link && at(17).0 == table.linkat && at(18).0
                == old.mkdir && at(19).0 == table.mkdirat && at(20).0 == old.rmdir && at(21).0
                == table.io_uring_setup);
        },
    }
    if all.contains(number as int) {
        let k = choose|k: int| 0 <= k < all.len() && all[k] == number;
        let targets: Seq<int> = match table.legacy {
            None => seq![9, 0, 1, 2, 3, 4, 5, 6, 7, 8, 10, 11, 12, 13],
            Some(_) => seq![
                13, 1, 2, 3, 4, 6, 8, 9, 11, 12, 15, 17, 19, 21, 0, 5, 7, 10, 14, 16, 18, 20,
            ],
        };
        assert forall|i: int| 0 <= i < all.len() implies 0 <= #[trigger] targets[i] < entries.len()
            && entries[targets[i]].0 == all[i] by {}
        assert(entries[targets[k]].0 == number);
    }
}

/// The number is that of the system call of a kind.
spec fn belongs(table: SyscallTable, number: i32, kind: SyscallKind) -> bool {
    match kind {
        SyscallKind::OpenAt => number == table.openat,
        SyscallKind::OpenAt2 => number == table.openat2,
        SyscallKind::Truncate => number == table.truncate,
        SyscallKind::Ftruncate => number == table.ftruncate,
        SyscallKind::UnlinkAt => number == table.unlinkat,
        SyscallKind::RenameAt => number == table.renameat,
        SyscallKind::RenameAt2 => number == table.renameat2,
        SyscallKind::Fchmod => number == table.fchmod,
        SyscallKind::FchmodAt => number == table.fchmodat,
        SyscallKind::FchmodAt2 => number == 452,
        SyscallKind::SymlinkAt => number == table.symlinkat,
        SyscallKind::LinkAt => number == table.linkat,
        SyscallKind::MkdirAt => number == table.mkdirat,
        SyscallKind::IoUringSetup => number == table.io_uring_setup,
        SyscallKind::Open => table.legacy is Some && number == table.legacy->0.open,
        SyscallKind::Unlink => table.legacy is Some && number == table.legacy->0.unlink,
        SyscallKind::Rename => table.legacy is Some && number == table.legacy->0.rename,
        SyscallKind::Chmod => table.legacy is Some && number == table.legacy->0.chmod,
        SyscallKind::Symlink => table.legacy is Some && number == table.legacy->0.symlink,
        SyscallKind::Link => table.legacy is Some && number == table.legacy->0.link,
        SyscallKind::Mkdir => table.legacy is Some && number == table.legacy->0.mkdir,
        SyscallKind::Rmdir => table.legacy is Some && number == table.legacy->0.rmdir,
        SyscallKind::Unknown => false,
    }
}

/// The filter looks at every system call: it reports those with one of the observed numbers,
/// lets all others go on, and ends a process that makes calls of another architecture.
pub proof fn the_filter_reports_just_the_observed_numbers(
    native: u32,
    table: SyscallTable,
    program: Vec<SockFilter>,
    nr: i32,
    arch: u32,
)
    requires
        call_ensures(filter_program, (native, &table), program),
        own_numbers(table).no_duplicates(),
    ensures
        arch != native ==> filter_answer(program@, 0, 0, nr as u32, arch) == Some(0x8000_0000u32),
        arch == native && own_numbers(table).contains(nr as int) ==> filter_answer(
            program@,
            0,
            0,
            nr as u32,
            arch,
        ) == Some(0x7fc0_0000u32),
        arch == native && !own_numbers(table).contains(nr as int) ==> filter_answer(
            program@,
            0,
            0,
            nr as u32,
            arch,
        ) == Some(0x7fff_0000u32),
{
    the_filter_picks_the_observed_calls(table, native, nr, arch);
    lemma_number_tells_its_system_call(nr, table, kind_among(table_entries(table), nr));
}

/// The numbers that the filter is made of are those of the observed system calls.
pub proof fn the_observed_numbers_are_listed(table: SyscallTable, numbers: Vec<i64>, number: i32)
    requires
        call_ensures(supported_syscall_numbers, (&table,), numbers),
        own_numbers(table).no_duplicates(),
    ensures
        numbers@.len() == own_numbers(table).len(),
        numbers@.contains(number as i64) <==> own_numbers(table).contains(number as int),
{
    supported_numbers_have_a_kind(table, number);
    lemma_number_tells_its_system_call(number, table, kind_among(table_entries(table), number));
}

/// The wait status of a process that exits holds its code, that of a process that a signal
/// ends holds the signal, with a core dump or without; any other status tells no end.
pub proof fn a_wait_status_tells_the_end(code: i32, signal: i32, status: i32, result: TargetResult)
    requires
        0 <= code <= 255,
        1 <= signal <= 126,
        call_ensures(target_result, (status,), result),
    ensures
        status == code * 256 ==> result.exit_code == Some(code) && result.signal is None,
        status == signal || status == signal + 128 ==> result.signal == Some(signal)
            && result.exit_code is None,
        status % 128 == 127 && status >= 0 ==> result.exit_code is None && result.signal is None,
{
    if status == code * 256 {
        assert(status & 0x7f == 0) by (bit_vector)
            requires
                status == code * 256,
                0 <= code <= 255,
        ;
        assert((status >> 8) & 0xff == code) by (bit_vector)
            requires
                status == code * 256,
                0 <= code <= 255,
        ;
    }
    if status == signal || status == signal + 128 {
        assert(status & 0x7f == signal) by (bit_vector)
            requires
                status == signal || status == signal + 128,
                1 <= signal <= 126,
        ;
    }
    if status >= 0 && status % 128 == 127 {
        assert(status & 0x7f == 127) by (bit_vector)
            requires
                status >= 0,
                status % 128 == 127,
        ;
    }
}

/// The first zero byte stands where it is said to, with none before it; where none is found
/// there is none.
pub proof fn the_first_zero_is_first(bytes: Seq<u8>)
    ensures
        match first_zero(bytes) {
            Some(position) => position < bytes.len() && bytes[position as int] == 0 && forall|i: int|
                0 <= i < position ==> #[trigger] bytes[i] != 0,
            None => forall|i: int| 0 <= i < bytes.len() ==> #[trigger] bytes[i] != 0,
        },
    decreases bytes.len(),
{
    if bytes.len() > 0 && bytes[0] != 0 {
        let rest = bytes.skip(1);
        the_first_zero_is_first(rest);
        match first_zero(rest) {
            Some(position) => {
                assert(rest[position as int] == bytes[position as int + 1]);
                assert forall|i: int| 0 <= i < position + 1 implies #[trigger] bytes[i] != 0 by {
                    if i > 0 {
                        assert(rest[i - 1] == bytes[i]);
                    }
                }
            },
            None => {
                assert forall|i: int| 0 <= i < bytes.len() implies #[trigger] bytes[i] != 0 by {
                    if i > 0 {
                        assert(rest[i - 1] == bytes[i]);
                    }
                }
            },
        }
    }
}

/// A command can be run exactly where none of its words holds a zero byte.
pub proof fn commands_hold_no_zero(command: Vec<Vec<u8>>, result: Result<(), String>)
    requires
        call_ensures(check_command, (&command,), result),
    ensures
        result is Ok <==> forall|i: int, j: int|
            0 <= i < command@.len() && 0 <= j < command@[i]@.len() ==> #[trigger] command@[i]@[j]
                != 0,
        result is Err ==> result->Err_0@ == "argv contains NUL"@,
{
    assert forall|i: int| 0 <= i < command@.len() implies (first_zero((#[trigger] command@[i])@)
        is None <==> forall|j: int|
        0 <= j < command@[i]@.len() ==> #[trigger] command@[i]@[j] != 0) by {
        the_first_zero_is_first(command@[i]@);
    }
    if result is Err {
        let i = choose|i: int|
            0 <= i < command@.len() && first_zero((#[trigger] command@[i])@) is Some;
        the_first_zero_is_first(command@[i]@);
        let j = first_zero(command@[i]@)->0 as int;
        assert(command@[i]@[j] == 0);
    }
}

/// A kernel is accepted exactly where its notifications have the size that is read.
pub proof fn notifications_have_the_size_that_is_read(
    size: u16,
    expected: usize,
    result: Result<(), String>,
)
    requires
        call_ensures(check_notification_size, (size, expected), result),
    ensures
        result is Ok <==> size == expected,
        result is Err ==> result->Err_0@ == "unsupported seccomp notification size "@ + decimal(
            size as int,
        ),
{
}

} // verus!
