//! Fixed layout constants of the SV39 kernel core.
//!
//! SV39 is a paging mode of 64-bit RISC-V, so machine words of the target
//! are held as `u64` regardless of the host's pointer width.

use vstd::prelude::*;

verus! {

/// Bytes per page.
pub const PAGE_SIZE: u64 = 4096;
/// log2 of `PAGE_SIZE`.
pub const PAGE_SIZE_BITS: u64 = 12;
/// Width of a physical address under SV39.
pub const PA_WIDTH_SV39: u64 = 56;
/// Width of a physical page number under SV39.
pub const PPN_WIDTH_SV39: u64 = 44;
/// Width of a virtual page number under SV39 (three 9-bit levels).
pub const VPN_WIDTH_SV39: u64 = 27;
/// First physical address past usable RAM.
pub const MEMORY_END: u64 = 0x80800000;
/// Bytes of stack given to each user task.
pub const USER_STACK_SIZE: u64 = 4096 * 2;
/// Bytes of kernel stack given to each task.
pub const KERNEL_STACK_SIZE: u64 = 4096 * 2;
/// Number of syscall ids whose calls are counted per task.
pub const MAX_SYSCALL_NUM: usize = 500;
/// Virtual address of the shared trampoline page: the highest page.
pub const TRAMPOLINE: u64 = 0xffff_ffff_ffff_f000;
/// Virtual address of a task's trap-context page: just below the trampoline.
pub const TRAP_CONTEXT: u64 = 0xffff_ffff_ffff_e000;

/// Kernel-stack window for a task: `(bottom, top)` virtual addresses in the
/// kernel space, carved downward from the trampoline with a guard page
/// between consecutive stacks.
pub fn kernel_stack_position(app_id: u64) -> (r: (u64, u64))
    requires
        app_id * (KERNEL_STACK_SIZE + PAGE_SIZE) + KERNEL_STACK_SIZE <= TRAMPOLINE,
    ensures
        r.1 == TRAMPOLINE - app_id * (KERNEL_STACK_SIZE + PAGE_SIZE),
        r.0 == r.1 - KERNEL_STACK_SIZE,
        r.0 < r.1,
{
    let top: u64 = TRAMPOLINE - app_id * (KERNEL_STACK_SIZE + PAGE_SIZE);
    let bottom: u64 = top - KERNEL_STACK_SIZE;
    (bottom, top)
}

} // verus!
