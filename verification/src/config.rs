//! Compile-time layout and platform constants, and the placement rule for
//! per-task kernel stacks.

use vstd::prelude::*;

verus! {

/// Greatest number of applications the task table will hold.
pub const MAX_APP_NUM: u64 = 20;

/// Bytes in one page frame (4 KiB).
pub const PAGE_SIZE: u64 = 4096;

/// Width of the in-page offset, in bits.
pub const PAGE_SIZE_BITS: u64 = 12;

/// Bytes reserved for each application's user-mode stack.
pub const USER_STACK_SIZE: u64 = 4096 * 2;

/// Bytes reserved for each application's kernel-mode stack.
pub const KERNEL_STACK_SIZE: u64 = 4096 * 2;

/// Timer frequency of the platform clock, in ticks per second.
pub const CLOCK_FREQ: u64 = 12500000;

/// First physical address past the memory the kernel may use.
pub const MEMORY_END: u64 = 0x80800000;

/// Virtual address of the trampoline page: the highest whole page.
pub const TRAMPOLINE: u64 = u64::MAX - PAGE_SIZE + 1;

/// Virtual address of each task's trap-context page, just below the
/// trampoline.
pub const TRAP_CONTEXT: u64 = TRAMPOLINE - PAGE_SIZE;

/// Virtual placement of the kernel stack for the task in slot `app_id`:
/// stacks hang below the trampoline, one fixed-size stride apart, so
/// distinct slots get disjoint stacks with unmapped space between them.
/// Returns `(bottom, top)`.
pub fn kernel_stack_position(app_id: u64) -> (r: (u64, u64))
    requires
        app_id <= MAX_APP_NUM,
    ensures
        r.1 == TRAMPOLINE - app_id * ((KERNEL_STACK_SIZE + 1) * PAGE_SIZE),
        r.0 == r.1 - KERNEL_STACK_SIZE,
{
    proof {
        assert(app_id * ((KERNEL_STACK_SIZE + 1) * PAGE_SIZE) <= 20 * ((KERNEL_STACK_SIZE + 1)
            * PAGE_SIZE)) by (nonlinear_arith)
            requires
                app_id <= 20,
        ;
    }
    let top: u64 = TRAMPOLINE - app_id * ((KERNEL_STACK_SIZE + 1) * PAGE_SIZE);
    let bottom: u64 = top - KERNEL_STACK_SIZE;
    (bottom, top)
}

} // verus!
