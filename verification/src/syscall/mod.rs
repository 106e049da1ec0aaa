//! System calls: decoding a call's number and arguments, and the work of
//! the process-management calls.
//!
//! The single entry point to all system calls, [`syscall()`], is reached
//! whenever userspace performs a system call with the `ecall` instruction;
//! it names the call and its arguments, for the kernel to carry out.
use vstd::prelude::*;

pub mod process;

verus! {

/// write syscall
pub const SYSCALL_WRITE: usize = 64;
/// exit syscall
pub const SYSCALL_EXIT: usize = 93;
/// yield syscall
pub const SYSCALL_YIELD: usize = 124;
/// gettime syscall
pub const SYSCALL_GET_TIME: usize = 169;
/// sbrk syscall
pub const SYSCALL_SBRK: usize = 214;
/// munmap syscall
pub const SYSCALL_MUNMAP: usize = 215;
/// mmap syscall
pub const SYSCALL_MMAP: usize = 222;
/// trace syscall
pub const SYSCALL_TRACE: usize = 410;

/// enum for different syscall kinds
#[derive(Copy, Clone, Debug, PartialEq, Eq, Structural)]
pub enum SyscallKind {
    /// sys_write syscall
    Write,
    /// sys_exit syscall
    Exit,
    /// sys_yield syscall
    Yield,
    /// sys_get_time syscall
    GetTime,
    /// sys_sbrk syscall
    Sbrk,
    /// sys_munmap syscall
    Munmap,
    /// sys_mmap syscall
    Mmap,
    /// sys_trace syscall
    Trace,
}

/// The number of each syscall kind.
pub open spec fn syscall_number(k: SyscallKind) -> usize {
    match k {
        SyscallKind::Write => SYSCALL_WRITE,
        SyscallKind::Exit => SYSCALL_EXIT,
        SyscallKind::Yield => SYSCALL_YIELD,
        SyscallKind::GetTime => SYSCALL_GET_TIME,
        SyscallKind::Sbrk => SYSCALL_SBRK,
        SyscallKind::Munmap => SYSCALL_MUNMAP,
        SyscallKind::Mmap => SYSCALL_MMAP,
        SyscallKind::Trace => SYSCALL_TRACE,
    }
}

/// The slot of each syscall kind in an array of per-kind counts.
pub open spec fn kind_index(k: SyscallKind) -> usize {
    match k {
        SyscallKind::Write => 0,
        SyscallKind::Exit => 1,
        SyscallKind::Yield => 2,
        SyscallKind::GetTime => 3,
        SyscallKind::Sbrk => 4,
        SyscallKind::Munmap => 5,
        SyscallKind::Mmap => 6,
        SyscallKind::Trace => 7,
    }
}

impl SyscallKind {
    /// the number of syscall kinds
    pub const COUNT: usize = 8;

    /// get syscall kind from syscall number
    pub fn from_syscall_number(n: usize) -> (r: Option<Self>)
        ensures
            match r {
                Some(k) => syscall_number(k) == n,
                None => forall|k: SyscallKind| syscall_number(k) != n,
            },
    {
        match n {
            SYSCALL_WRITE => Some(Self::Write),
            SYSCALL_EXIT => Some(Self::Exit),
            SYSCALL_YIELD => Some(Self::Yield),
            SYSCALL_GET_TIME => Some(Self::GetTime),
            SYSCALL_SBRK => Some(Self::Sbrk),
            SYSCALL_MUNMAP => Some(Self::Munmap),
            SYSCALL_MMAP => Some(Self::Mmap),
            SYSCALL_TRACE => Some(Self::Trace),
            _ => None,
        }
    }

    /// get index of syscall kind for syscall count array
    pub fn as_index(self) -> (r: usize)
        ensures
            r == kind_index(self),
            r < Self::COUNT,
    {
        match self {
            Self::Write => 0,
            Self::Exit => 1,
            Self::Yield => 2,
            Self::GetTime => 3,
            Self::Sbrk => 4,
            Self::Munmap => 5,
            Self::Mmap => 6,
            Self::Trace => 7,
        }
    }
}

/// Distinct syscall kinds have distinct numbers and distinct count slots,
/// and every slot is below the number of kinds.
pub proof fn lemma_syscall_kinds_distinct(a: SyscallKind, b: SyscallKind)
    ensures
        a != b ==> syscall_number(a) != syscall_number(b),
        a != b ==> kind_index(a) != kind_index(b),
        kind_index(a) < SyscallKind::COUNT,
{
}

/// A system call with its arguments decoded.
#[derive(Copy, Clone, Debug, PartialEq, Eq, Structural)]
pub enum Syscall {
    Write { fd: usize, buf: usize, len: usize },
    Exit { exit_code: i32 },
    Yield,
    GetTime { ts: usize, tz: usize },
    Trace { trace_request: usize, id: usize, data: usize },
    Mmap { start: usize, len: usize, prot: usize },
    Munmap { start: usize, len: usize },
    Sbrk { size: i32 },
}

/// The call named by `syscall_id` with its arguments.
pub open spec fn decoded(syscall_id: usize, args: Seq<usize>) -> Option<Syscall> {
    if syscall_id == SYSCALL_WRITE {
        Some(Syscall::Write { fd: args[0], buf: args[1], len: args[2] })
    } else if syscall_id == SYSCALL_EXIT {
        Some(Syscall::Exit { exit_code: args[0] as i32 })
    } else if syscall_id == SYSCALL_YIELD {
        Some(Syscall::Yield)
    } else if syscall_id == SYSCALL_GET_TIME {
        Some(Syscall::GetTime { ts: args[0], tz: args[1] })
    } else if syscall_id == SYSCALL_TRACE {
        Some(Syscall::Trace { trace_request: args[0], id: args[1], data: args[2] })
    } else if syscall_id == SYSCALL_MMAP {
        Some(Syscall::Mmap { start: args[0], len: args[1], prot: args[2] })
    } else if syscall_id == SYSCALL_MUNMAP {
        Some(Syscall::Munmap { start: args[0], len: args[1] })
    } else if syscall_id == SYSCALL_SBRK {
        Some(Syscall::Sbrk { size: args[0] as i32 })
    } else {
        None
    }
}

/// handle syscall exception with `syscall_id` and other arguments: names
/// the call to carry out, or `None` for an unsupported `syscall_id`, on
/// which the caller must panic with "Unsupported syscall_id".
pub fn syscall(syscall_id: usize, args: [usize; 3]) -> (r: Option<Syscall>)
    ensures
        r == decoded(syscall_id, args@),
{
    match syscall_id {
        SYSCALL_WRITE => Some(Syscall::Write { fd: args[0], buf: args[1], len: args[2] }),
        SYSCALL_EXIT => Some(Syscall::Exit { exit_code: #[verifier::truncate] (args[0] as i32) }),
        SYSCALL_YIELD => Some(Syscall::Yield),
        SYSCALL_GET_TIME => Some(Syscall::GetTime { ts: args[0], tz: args[1] }),
        SYSCALL_TRACE => Some(Syscall::Trace { trace_request: args[0], id: args[1], data: args[2] }),
        SYSCALL_MMAP => Some(Syscall::Mmap { start: args[0], len: args[1], prot: args[2] }),
        SYSCALL_MUNMAP => Some(Syscall::Munmap { start: args[0], len: args[1] }),
        SYSCALL_SBRK => Some(Syscall::Sbrk { size: #[verifier::truncate] (args[0] as i32) }),
        _ => None,
    }
}

} // verus!
