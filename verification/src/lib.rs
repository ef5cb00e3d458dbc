//! Core of a single-CPU RISC-V (SV39) teaching kernel: physical frame
//! allocation, three-level page tables, per-task address spaces built from
//! 64-bit ELF images, a round-robin task scheduler, and the trap/syscall
//! dispatcher that drives it.
//!
//! Hardware-only effects (CSR writes, the context-switch and trampoline
//! glue, console output) stay outside this crate.  The kernel state itself
//! — physical memory, page tables, task table, clock — is explicit data,
//! and every transition of it is specified and verified.  Register and
//! address values are `u64` throughout, as SV39 fixes the machine word at
//! 64 bits.

use vstd::prelude::*;

pub mod address;
pub mod config;
pub mod elf;
pub mod frame_allocator;
pub mod kernel;
pub mod memory_set;
pub mod page_table;
pub mod phys_mem;
pub mod syscall;
pub mod task;
pub mod timer;
pub mod trap;

verus! {

/// Every failure the kernel core can report.
///
/// `FrameExhausted` and `NoRunnableTask` are resource exhaustion, fatal to
/// the kernel; `InvalidElf` fails an application load and is surfaced to
/// the caller; the remaining variants are consistency violations
/// (double free, remap of a mapped page, unmap of an absent page, a
/// syscall or trap the kernel does not support), fatal when they reach the
/// dispatcher.
#[derive(Clone, Copy, Debug, PartialEq, Eq, Structural)]
pub enum KernelError {
    /// The frame allocator has no free frame left.
    FrameExhausted,
    /// A frame outside the ever-allocated range, or one already recycled,
    /// was handed back to the allocator.
    InvalidFrame,
    /// A leaf mapping already exists at the virtual page being mapped.
    AlreadyMapped,
    /// No leaf mapping exists at the virtual page being unmapped or
    /// translated.
    NotMapped,
    /// A translated page holds no plain bytes at the moment (it carries a
    /// saved trap context instead).
    NotDataPage,
    /// The application image is not a well-formed 64-bit ELF.
    InvalidElf,
    /// Every task has exited or is otherwise unrunnable.
    NoRunnableTask,
    /// `write` was asked for a file descriptor other than stdout.
    UnsupportedFd,
    /// A syscall number outside the supported set.
    UnknownSyscall,
    /// A trap cause the kernel does not handle.
    UnsupportedTrap,
}

} // verus!
