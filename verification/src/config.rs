//! Fixed layout constants of the kernel and helpers derived from them.

use vstd::prelude::*;

verus! {

/// Log2 of the page size.
pub const PAGESIZE_BITS: u64 = 12;

/// One page: 4 KiB.
pub const PAGESIZE: u64 = 4096;

/// Mask of the offset bits within a page.
pub const PAGEOFFSET_MASK: u64 = 4095;

/// Entries per page-table node (512 eight-byte entries fill one page).
pub const PAGETABLE_SIZE: u64 = 512;

/// Bytes of one user stack: 8 KiB.
pub const USER_STACK_SIZE: u64 = 8192;

/// Bytes of one per-task kernel stack: 8 KiB.
pub const KERNEL_STACK_SIZE: u64 = 8192;

/// Timer ticks per second of the platform clock.
pub const CLOCK_FREQ: u64 = 10000000;

/// Timer interrupts per second.
pub const TIMER_FREQ: u64 = 100;

/// Microseconds per second.
pub const MICRO_PER_SEC: u64 = 1000000;

/// End of usable physical memory.
pub const MEMORY_END: u64 = 0x80800000;

/// Physical base address at which the kernel is linked.
pub const KERNEL_BASE: u64 = 0x80200000;

/// Virtual address of the trampoline code page: the highest page of the
/// address space, mapped identically in the kernel and every user space.
pub const TRAMPOLINE: u64 = 0xFFFF_FFFF_FFFF_F000;

/// Virtual address of a task's trap-context page, directly below the
/// trampoline.
pub const TRAP_CONTEXT: u64 = 0xFFFF_FFFF_FFFF_E000;

/// Virtual span of one kernel stack together with its guard page.
pub const KERNEL_STACK_SPAN: u64 = 12288;

/// Returns the kernel-space virtual range `(top, bottom)` of the kernel
/// stack of task `app_id`: stacks hang below the trampoline page, one
/// guard page between neighbours, the stack occupying `[top, bottom)`.
pub fn kernel_stack_position(app_id: u64) -> (r: (u64, u64))
    requires
        (app_id + 1) * KERNEL_STACK_SPAN <= TRAMPOLINE,
    ensures
        r.0 == TRAMPOLINE - (app_id + 1) * KERNEL_STACK_SPAN,
        r.1 == r.0 + KERNEL_STACK_SIZE,
{
    let top = TRAMPOLINE - (app_id + 1) * KERNEL_STACK_SPAN;
    (top, top + KERNEL_STACK_SIZE)
}

} // verus!
