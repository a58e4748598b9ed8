//! The trap-handling decision: what to do for each trap cause. The
//! surrounding runtime reads the cause register, performs the chosen
//! action, and returns to user mode through the trampoline.

use vstd::prelude::*;

use crate::task::TrapContext;

verus! {

/// Syscall ids of the ABI.
pub const SYSCALL_EXIT: u64 = 93;

pub const SYSCALL_YIELD: u64 = 124;

pub const SYSCALL_SET_PRIORITY: u64 = 140;

pub const SYSCALL_GET_TIME: u64 = 169;

pub const SYSCALL_MUNMAP: u64 = 215;

pub const SYSCALL_MMAP: u64 = 222;

pub const SYSCALL_TASK_INFO: u64 = 410;

/// The syscalls the kernel serves.
#[derive(Clone, Copy, PartialEq, Eq, Structural, Debug)]
pub enum SyscallKind {
    Exit,
    Yield,
    SetPriority,
    GetTime,
    Munmap,
    Mmap,
    TaskInfo,
    Unknown,
}

/// Trap causes the kernel distinguishes.
#[derive(Clone, Copy, PartialEq, Eq, Structural, Debug)]
pub enum TrapCause {
    UserEnvCall,
    StoreFault,
    StorePageFault,
    LoadPageFault,
    IllegalInstruction,
    SupervisorTimer,
    Unknown,
}

/// What the handler does for a cause.
#[derive(Clone, Copy, PartialEq, Eq, Structural, Debug)]
pub enum TrapAction {
    /// Advance `sepc` by 4, count the syscall, dispatch it, store the
    /// result in `x10`.
    Syscall,
    /// The faulting task exits; the scheduler picks the next one.
    ExitAndSchedule,
    /// Set the next timer trigger, then yield to the next task.
    TickAndSchedule,
    /// An unsupported trap: the kernel panics.
    Panic,
}

/// The dispatch of the trap handler, cause by cause.
pub fn trap_dispatch(cause: TrapCause) -> (r: TrapAction)
    ensures
        cause == TrapCause::UserEnvCall ==> r == TrapAction::Syscall,
        cause == TrapCause::StoreFault || cause == TrapCause::StorePageFault || cause
            == TrapCause::LoadPageFault || cause == TrapCause::IllegalInstruction ==> r
            == TrapAction::ExitAndSchedule,
        cause == TrapCause::SupervisorTimer ==> r == TrapAction::TickAndSchedule,
        cause == TrapCause::Unknown ==> r == TrapAction::Panic,
{
    match cause {
        TrapCause::UserEnvCall => TrapAction::Syscall,
        TrapCause::StoreFault => TrapAction::ExitAndSchedule,
        TrapCause::StorePageFault => TrapAction::ExitAndSchedule,
        TrapCause::LoadPageFault => TrapAction::ExitAndSchedule,
        TrapCause::IllegalInstruction => TrapAction::ExitAndSchedule,
        TrapCause::SupervisorTimer => TrapAction::TickAndSchedule,
        TrapCause::Unknown => TrapAction::Panic,
    }
}

/// Which syscall the id in `x17` names.
pub fn syscall_decode(id: u64) -> (r: SyscallKind)
    ensures
        r == (if id == SYSCALL_EXIT {
            SyscallKind::Exit
        } else if id == SYSCALL_YIELD {
            SyscallKind::Yield
        } else if id == SYSCALL_SET_PRIORITY {
            SyscallKind::SetPriority
        } else if id == SYSCALL_GET_TIME {
            SyscallKind::GetTime
        } else if id == SYSCALL_MUNMAP {
            SyscallKind::Munmap
        } else if id == SYSCALL_MMAP {
            SyscallKind::Mmap
        } else if id == SYSCALL_TASK_INFO {
            SyscallKind::TaskInfo
        } else {
            SyscallKind::Unknown
        }),
{
    if id == SYSCALL_EXIT {
        SyscallKind::Exit
    } else if id == SYSCALL_YIELD {
        SyscallKind::Yield
    } else if id == SYSCALL_SET_PRIORITY {
        SyscallKind::SetPriority
    } else if id == SYSCALL_GET_TIME {
        SyscallKind::GetTime
    } else if id == SYSCALL_MUNMAP {
        SyscallKind::Munmap
    } else if id == SYSCALL_MMAP {
        SyscallKind::Mmap
    } else if id == SYSCALL_TASK_INFO {
        SyscallKind::TaskInfo
    } else {
        SyscallKind::Unknown
    }
}

/// On a user environment call the saved pc steps past the four-byte
/// `ecall` before the syscall runs; nothing else of the context moves.
pub fn syscall_prologue(cx: &mut TrapContext)
    requires
        old(cx).sepc <= u64::MAX - 4,
    ensures
        *final(cx) == (TrapContext { sepc: (old(cx).sepc + 4) as u64, ..*old(cx) }),
{
    cx.sepc = cx.sepc + 4;
}

/// The syscall's result goes back to the caller in `x10`; nothing else
/// of the context moves.
pub fn store_syscall_ret(cx: &mut TrapContext, value: i64)
    requires
        old(cx).x@.len() == 32,
    ensures
        final(cx).x@ == old(cx).x@.update(10, value as u64),
        final(cx).sepc == old(cx).sepc,
        final(cx).sstatus == old(cx).sstatus,
        final(cx).kernel_satp == old(cx).kernel_satp,
        final(cx).kernel_sp == old(cx).kernel_sp,
        final(cx).trap_handler == old(cx).trap_handler,
{
    let slot = &mut cx.x[10];
    *slot = value as u64;
}

} // verus!
