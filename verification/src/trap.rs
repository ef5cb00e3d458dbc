//! The saved register snapshot exchanged at every privilege transition,
//! and (further down) the dispatcher that classifies each trap and drives
//! the scheduler.

use vstd::prelude::*;

use crate::kernel::Kernel;
use crate::task::TaskStatus;
use crate::KernelError;

verus! {

/// Register snapshot saved on trap entry and consumed on trap return: the
/// 32 general registers, the privilege bit of `sstatus`, the faulting or
/// resuming program counter, and the three kernel-side values the
/// trampoline needs to re-enter supervisor mode.
///
/// One of these lives at a fixed virtual page inside each task's own
/// address space; it is the sole channel between the dispatcher and the
/// task.
pub struct TrapContext {
    /// General registers `x0`..`x31`; `x[2]` is the stack pointer.
    pub x: Vec<u64>,
    /// True when `sstatus.SPP` says the trap came from (and returns to)
    /// user mode.
    pub sstatus_spp_user: bool,
    /// Program counter to resume at.
    pub sepc: u64,
    /// Token of the kernel address space.
    pub kernel_satp: u64,
    /// Top of the owning kernel stack, as a kernel virtual address.
    pub kernel_sp: u64,
    /// Kernel virtual address of the trap handler.
    pub trap_handler: u64,
}

/// The two context fields hold equal register files and equal control
/// state.
pub open spec fn cx_eq(a: TrapContext, b: TrapContext) -> bool {
    &&& a.x@ == b.x@
    &&& a.sstatus_spp_user == b.sstatus_spp_user
    &&& a.sepc == b.sepc
    &&& a.kernel_satp == b.kernel_satp
    &&& a.kernel_sp == b.kernel_sp
    &&& a.trap_handler == b.trap_handler
}

impl TrapContext {
    /// A register file of the right size.
    pub open spec fn wf(self) -> bool {
        self.x@.len() == 32
    }

    /// Sets the saved user stack pointer (`x2`).
    pub fn set_sp(&mut self, sp: u64)
        requires
            old(self).wf(),
        ensures
            final(self).wf(),
            final(self).x@ == old(self).x@.update(2, sp),
            final(self).sstatus_spp_user == old(self).sstatus_spp_user,
            final(self).sepc == old(self).sepc,
            final(self).kernel_satp == old(self).kernel_satp,
            final(self).kernel_sp == old(self).kernel_sp,
            final(self).trap_handler == old(self).trap_handler,
    {
        self.x[2] = sp;
    }

    /// The context a freshly loaded application starts from: zeroed
    /// registers but for the user stack pointer, `SPP` set to user mode,
    /// and the program counter at the image entry point.
    pub fn app_init_context(
        entry: u64,
        sp: u64,
        kernel_satp: u64,
        kernel_sp: u64,
        trap_handler: u64,
    ) -> (r: TrapContext)
        ensures
            r.wf(),
            r.x@.len() == 32,
            forall|i: int| 0 <= i < 32 && i != 2 ==> r.x@[i] == 0,
            r.x@[2] == sp,
            r.sstatus_spp_user,
            r.sepc == entry,
            r.kernel_satp == kernel_satp,
            r.kernel_sp == kernel_sp,
            r.trap_handler == trap_handler,
    {
        let mut x: Vec<u64> = Vec::new();
        let mut i: usize = 0;
        while i < 32
            invariant
                i <= 32,
                x@.len() == i,
                forall|j: int| 0 <= j < i ==> x@[j] == 0,
            decreases 32 - i,
        {
            x.push(0);
            i = i + 1;
        }
        let mut cx = TrapContext {
            x,
            sstatus_spp_user: true,
            sepc: entry,
            kernel_satp,
            kernel_sp,
            trap_handler,
        };
        cx.set_sp(sp);
        cx
    }

    /// A field-for-field copy of this context.
    pub fn duplicate(&self) -> (r: TrapContext)
        ensures
            cx_eq(*self, r),
    {
        TrapContext {
            x: copy_regs(&self.x),
            sstatus_spp_user: self.sstatus_spp_user,
            sepc: self.sepc,
            kernel_satp: self.kernel_satp,
            kernel_sp: self.kernel_sp,
            trap_handler: self.trap_handler,
        }
    }
}

/// Copies a register file.
fn copy_regs(v: &Vec<u64>) -> (r: Vec<u64>)
    ensures
        r@ == v@,
{
    let mut out: Vec<u64> = Vec::new();
    let mut i: usize = 0;
    while i < v.len()
        invariant
            i <= v@.len(),
            out@ == v@.subrange(0, i as int),
        decreases v@.len() - i,
    {
        out.push(v[i]);
        i = i + 1;
    }
    proof {
        assert(out@ =~= v@);
    }
    out
}

/// Classified cause of a trap, as read from the cause register by the
/// entry glue.
#[derive(Clone, Copy, Debug, PartialEq, Eq, Structural)]
pub enum TrapCause {
    /// An `ecall` from user mode: a syscall.
    UserEnvCall,
    /// A store to an unmapped or unwritable address.
    StoreFault,
    /// A store refused by the page tables.
    StorePageFault,
    /// An instruction the hardware refuses.
    IllegalInstruction,
    /// The machine timer passed its deadline.
    SupervisorTimer,
    /// Anything else: unhandled, fatal to the kernel.
    Unknown,
}

/// What one trap did, as the return path and the console need to know
/// it.
#[derive(Debug)]
pub enum TrapOutcome {
    /// A syscall completed and the task keeps running: the value placed
    /// in its return register, and any bytes written to standard output.
    Syscall { ret: i64, written: Vec<u8> },
    /// The task exited by syscall; `next` now runs.
    Exited { code: i64, next: usize },
    /// The task was killed for a fault; `next` now runs.
    Killed { next: usize },
    /// The timer fired: the deadline was re-armed and the task yielded;
    /// `next` now runs.
    TimerTick { next: usize },
}

/// A trap that reaches the kernel while the kernel itself runs is a
/// kernel bug, not a task fault: there is nothing to isolate.
pub fn trap_from_kernel() -> (r: KernelError)
    ensures
        r == KernelError::UnsupportedTrap,
{
    KernelError::UnsupportedTrap
}

/// The frame holding the current task's saved trap context.
pub open spec fn cur_cx_ppn(k: Kernel) -> u64 {
    k.task_manager.inner.tasks@[k.cur()].trap_cx_ppn.0
}

/// The current task's saved trap context.
pub open spec fn cur_cx(k: Kernel) -> TrapContext {
    k.mem.trap_cx(cur_cx_ppn(k))
}

/// The single entry point for every privilege transition: classifies
/// the cause and acts.  A syscall is decoded from the saved registers
/// and dispatched; a store fault or illegal instruction kills the
/// offending task alone — the isolation boundary; a timer interrupt
/// re-arms the next deadline and treats the task as yielding; anything
/// else is fatal to the whole kernel.
#[verifier::rlimit(100)]
pub fn trap_handler(kernel: &mut Kernel, cause: TrapCause, stval: u64) -> (r: Result<
    TrapOutcome,
    KernelError,
>)
    requires
        old(kernel).inv(),
        old(kernel).status_of(old(kernel).cur()) == TaskStatus::Running,
        old(kernel).timer.spec_time() + crate::config::CLOCK_FREQ
            / crate::timer::TIME_SLICE_COUNT <= u64::MAX,
        old(kernel).timer.spec_time() / (crate::config::CLOCK_FREQ / 1000) <= i64::MAX,
    ensures
        final(kernel).inv(),
        final(kernel).task_manager.num_app == old(kernel).task_manager.num_app,
        cause == TrapCause::Unknown ==> r == Err::<TrapOutcome, KernelError>(
            KernelError::UnsupportedTrap,
        ) && *final(kernel) == *old(kernel),
        cause == TrapCause::StoreFault || cause == TrapCause::StorePageFault || cause
            == TrapCause::IllegalInstruction ==> {
            &&& final(kernel).status_of(old(kernel).cur()) == TaskStatus::Exited
            &&& final(kernel).timer == old(kernel).timer
            &&& final(kernel).mem == old(kernel).mem
            &&& forall|q: u64|
                final(kernel).allocator.live(q) == (old(kernel).allocator.live(q) && !old(kernel).task_manager.inner.tasks@[old(kernel).cur()].memory_set.owns(q))
            &&& forall|i: int|
                0 <= i < final(kernel).task_manager.num_app && i != old(kernel).cur()
                    ==> #[trigger] final(kernel).task_manager.inner.tasks@[i].memory_set == old(kernel).task_manager.inner.tasks@[i].memory_set
                    && final(kernel).task_manager.inner.tasks@[i].trap_cx_ppn == old(kernel).task_manager.inner.tasks@[i].trap_cx_ppn
            &&& forall|i: int|
                0 <= i < final(kernel).task_manager.num_app
                    ==> #[trigger] final(kernel).task_manager.inner.tasks@[i].task_cx == old(kernel).task_manager.inner.tasks@[i].task_cx
                    && final(kernel).task_manager.inner.tasks@[i].base_size == old(kernel).task_manager.inner.tasks@[i].base_size
            &&& (r matches Ok(o) ==> o matches TrapOutcome::Killed { next } && final(kernel).cur() == next && final(kernel).status_of(next as int) == TaskStatus::Running
                && next != old(kernel).cur() && forall|i: int|
                0 <= i < final(kernel).task_manager.num_app && i != next as int && i != old(kernel).cur() ==> final(kernel).status_of(i) == old(kernel).status_of(i))
            &&& (r is Err ==> r == Err::<TrapOutcome, KernelError>(KernelError::NoRunnableTask)
                && forall|i: int|
                0 <= i < final(kernel).task_manager.num_app && i != old(kernel).cur() ==> final(kernel).status_of(i) == old(kernel).status_of(i))
        },
        cause == TrapCause::SupervisorTimer ==> {
            &&& final(kernel).timer.spec_time() == old(kernel).timer.spec_time()
            &&& final(kernel).timer.spec_deadline() == old(kernel).timer.spec_time()
                + crate::config::CLOCK_FREQ / crate::timer::TIME_SLICE_COUNT
            &&& r is Ok
            &&& (r matches Ok(o) ==> o matches TrapOutcome::TimerTick { next } && final(kernel).cur() == next && final(kernel).status_of(next as int) == TaskStatus::Running
                && (next as int != old(kernel).cur() ==> final(kernel).status_of(
                old(kernel).cur(),
            ) == TaskStatus::Ready))
            &&& forall|i: int|
                0 <= i < final(kernel).task_manager.num_app ==> ((#[trigger] final(kernel).status_of(i) == TaskStatus::Exited) <==> old(kernel).status_of(i)
                    == TaskStatus::Exited)
            &&& final(kernel).mem == old(kernel).mem
            &&& final(kernel).allocator == old(kernel).allocator
            &&& forall|i: int|
                0 <= i < final(kernel).task_manager.num_app
                    ==> #[trigger] final(kernel).task_manager.inner.tasks@[i].memory_set == old(kernel).task_manager.inner.tasks@[i].memory_set
                    && final(kernel).task_manager.inner.tasks@[i].trap_cx_ppn == old(kernel).task_manager.inner.tasks@[i].trap_cx_ppn
                    && final(kernel).task_manager.inner.tasks@[i].task_cx == old(kernel).task_manager.inner.tasks@[i].task_cx
                    && final(kernel).task_manager.inner.tasks@[i].base_size == old(kernel).task_manager.inner.tasks@[i].base_size
        },
        cause == TrapCause::UserEnvCall ==> ({
            let cx0 = cur_cx(*old(kernel));
            let id = cx0.x@[17];
            let a0 = cx0.x@[10];
            let a1 = cx0.x@[11];
            let a2 = cx0.x@[12];
            &&& (r matches Ok(o) ==> (o is Syscall || o is Exited))
            &&& ((cx0.sepc > u64::MAX - 4) <==> r == Err::<TrapOutcome, KernelError>(
                KernelError::UnsupportedTrap,
            ))
            &&& (r == Err::<TrapOutcome, KernelError>(KernelError::UnsupportedTrap) ==> *final(kernel) == *old(kernel))
            &&& (r matches Ok(o) ==> (o matches TrapOutcome::Exited { code, next } ==> id
                == crate::syscall::SYSCALL_EXIT && code == a0 as i64 && final(kernel).status_of(
                old(kernel).cur(),
            ) == TaskStatus::Exited && final(kernel).cur() == next && final(kernel).status_of(
                next as int,
            ) == TaskStatus::Running))
            &&& (r matches Ok(o) ==> (o matches TrapOutcome::Syscall { ret, written } ==> ({
                let cxf = final(kernel).mem.trap_cx(cur_cx_ppn(*old(kernel)));
                &&& (id == crate::syscall::SYSCALL_WRITE || id == crate::syscall::SYSCALL_YIELD
                    || id == crate::syscall::SYSCALL_GET_TIME)
                &&& cxf.sepc == cx0.sepc + 4
                &&& cxf.x@ == cx0.x@.update(10, ret as u64)
                &&& cxf.kernel_satp == cx0.kernel_satp
                &&& cxf.kernel_sp == cx0.kernel_sp
                &&& cxf.trap_handler == cx0.trap_handler
                &&& cxf.sstatus_spp_user == cx0.sstatus_spp_user
                &&& final(kernel).mem.is_trap(cur_cx_ppn(*old(kernel)))
                &&& (id == crate::syscall::SYSCALL_YIELD ==> ret == 0 && written@.len() == 0)
                &&& (id == crate::syscall::SYSCALL_GET_TIME ==> ret == old(kernel).timer.spec_time() / (crate::config::CLOCK_FREQ / 1000) && written@.len() == 0)
                &&& (id == crate::syscall::SYSCALL_WRITE ==> a0 == crate::syscall::FD_STDOUT
                    && ret == a2 && written@ == Seq::new(
                    a2 as nat,
                    |i: int|
                        crate::page_table::user_byte(
                            old(kernel).mem,
                            old(kernel).task_manager.inner.tasks@[old(kernel).cur()].memory_set.pt(),
                            (a1 + i) as u64,
                        ),
                ))
            })))
            &&& (r matches Err(e) ==> e == KernelError::UnsupportedTrap || e
                == KernelError::UnknownSyscall || e == KernelError::UnsupportedFd || e
                == KernelError::NotMapped || e == KernelError::NotDataPage || e
                == KernelError::NoRunnableTask)
            &&& (cx0.sepc <= u64::MAX - 4 && id != crate::syscall::SYSCALL_WRITE && id
                != crate::syscall::SYSCALL_EXIT && id != crate::syscall::SYSCALL_YIELD && id
                != crate::syscall::SYSCALL_GET_TIME ==> r == Err::<TrapOutcome, KernelError>(
                KernelError::UnknownSyscall,
            ))
        }),
{
    match cause {
        TrapCause::Unknown => Err(KernelError::UnsupportedTrap),
        TrapCause::StoreFault | TrapCause::StorePageFault | TrapCause::IllegalInstruction => {
            // the task misbehaved: kill it, the kernel survives
            match crate::syscall::sys_exit(kernel, 0) {
                Ok(next) => Ok(TrapOutcome::Killed { next }),
                Err(e) => Err(e),
            }
        },
        TrapCause::SupervisorTimer => {
            crate::timer::set_next_trigger(&mut kernel.timer);
            match crate::syscall::sys_yield(kernel) {
                Ok(_) => {
                    let next = kernel.task_manager.get_current_task();
                    Ok(TrapOutcome::TimerTick { next })
                },
                Err(e) => {
                    proof {
                        assert(false);
                    }
                    Err(e)
                },
            }
        },
        TrapCause::UserEnvCall => {
            let cur0 = kernel.task_manager.get_current_task();
            let ghost pre = *old(kernel);
            let ghost cx0 = cur_cx(pre);
            let mut cx = kernel.task_manager.get_current_trap_cx(&kernel.mem);
            proof {
                assert(cx.sepc == cx0.sepc);
                assert(cx.x@ == cx0.x@);
            }
            if cx.sepc > 0xFFFF_FFFF_FFFF_FFFB {
                return Err(KernelError::UnsupportedTrap);
            }
            // step past the ecall instruction
            cx.sepc = cx.sepc + 4;
            let syscall_id = cx.x[17];
            let args: [u64; 3] = [cx.x[10], cx.x[11], cx.x[12]];
            proof {
                assert(syscall_id == cx0.x@[17]);
                assert(args[0] == cx0.x@[10] && args[1] == cx0.x@[11] && args[2] == cx0.x@[12]);
            }
            let ghost cur_ppn = kernel.task_manager.inner.tasks@[cur0 as int].trap_cx_ppn.0;
            kernel.task_manager.inner.tasks[cur0].set_trap_cx(&mut kernel.mem, cx);
            proof {
                lemma_trap_page_write_keeps_inv(pre, *kernel, cur0 as int);
            }
            let ghost mid = *kernel;
            let outcome = match crate::syscall::syscall(kernel, syscall_id, args) {
                Ok(o) => o,
                Err(e) => {
                    return Err(e);
                },
            };
            match outcome {
                crate::syscall::SyscallOutcome::Exited { code, next } => {
                    Ok(TrapOutcome::Exited { code, next })
                },
                crate::syscall::SyscallOutcome::Value { ret, written } => {
                    // hand the result back in the task's return register
                    proof {
                        assert(kernel.task_manager.inner.tasks@[cur0 as int].trap_cx_ppn.0
                            == cur_ppn);
                        assert(kernel.task_manager.status_of(cur0 as int) != TaskStatus::Exited);
                        assert(kernel.mem.is_trap(cur_ppn));
                        assert(kernel.mem == mid.mem);
                        // a write's bytes are the same whether read before
                        // or after the trap-frame update: the buffer's
                        // pages hold plain bytes, the trap frame does not
                        if syscall_id == crate::syscall::SYSCALL_WRITE {
                            let pt = pre.task_manager.inner.tasks@[pre.cur()].memory_set.pt();
                            assert(mid.task_manager.inner.tasks@[mid.cur()].memory_set.pt()
                                == pt);
                            assert(crate::syscall::write_buffer_ok(mid, args[1], args[2]));
                            assert forall|i: int|
                                0 <= i < args[2] implies #[trigger] crate::page_table::user_byte(
                                mid.mem,
                                pt,
                                (args[1] + i) as u64,
                            ) == crate::page_table::user_byte(
                                pre.mem,
                                pt,
                                (args[1] + i) as u64,
                            ) by {
                                let va = (args[1] + i) as u64;
                                assert(crate::page_table::va_ok(mid.mem, pt, va));
                                let p = pt.walk(va / 4096)->Some_0.spec_ppn();
                                assert(mid.mem.is_bytes(p));
                                assert(p != cur_ppn) by {
                                    assert(mid.mem.is_trap(cur_ppn));
                                }
                                assert(mid.mem.spec_frame(p) == pre.mem.spec_frame(p));
                            }
                            assert(written@ =~= Seq::new(
                                args[2] as nat,
                                |i: int|
                                    crate::page_table::user_byte(
                                        pre.mem,
                                        pt,
                                        (args[1] + i) as u64,
                                    ),
                            ));
                        }
                    }
                    let ghost before_ret = *kernel;
                    let mut cx2 = kernel.task_manager.inner.tasks[cur0].get_trap_cx(&kernel.mem);
                    proof {
                        assert(cx_eq(cx2, mid.mem.trap_cx(cur_ppn)));
                        assert(cx2.sepc == cx0.sepc + 4);
                        assert(cx2.x@ == cx0.x@);
                    }
                    cx2.x[10] = ret as u64;
                    kernel.task_manager.inner.tasks[cur0].set_trap_cx(&mut kernel.mem, cx2);
                    proof {
                        lemma_trap_page_write_keeps_inv(before_ret, *kernel, cur0 as int);
                        assert(cx_eq(kernel.mem.trap_cx(cur_ppn), cx2));
                        assert(kernel.mem.trap_cx(cur_ppn).x@ == cx0.x@.update(10, ret as u64));
                    }
                    Ok(TrapOutcome::Syscall { ret, written })
                },
            }
        },
    }
}

/// Writing a task's own trap frame keeps the kernel invariant: the
/// frame belongs to that task alone, so every other task's trap frame
/// and every accounted structure is untouched.
proof fn lemma_trap_page_write_keeps_inv(pre: Kernel, post: Kernel, t: int)
    requires
        pre.inv(),
        0 <= t < pre.task_manager.num_app,
        pre.task_manager.status_of(t) != TaskStatus::Exited,
        post.allocator == pre.allocator,
        post.kernel_space == pre.kernel_space,
        post.trampoline == pre.trampoline,
        post.task_manager == pre.task_manager,
        post.mem.wf(),
        post.mem.spec_base() == pre.mem.spec_base(),
        post.mem.spec_len() == pre.mem.spec_len(),
        post.mem.is_trap(pre.task_manager.inner.tasks@[t].trap_cx_ppn.0),
        forall|q: u64|
            pre.mem.in_range(q) && q != pre.task_manager.inner.tasks@[t].trap_cx_ppn.0
                ==> #[trigger] post.mem.spec_frame(q) == pre.mem.spec_frame(q),
    ensures
        post.inv(),
{
    assert forall|i: int|
        0 <= i < post.task_manager.num_app && post.task_manager.status_of(i) != TaskStatus::Exited
            implies (#[trigger] post.task_manager.inner.tasks@[i]).memory_set.wf_frames(
        post.allocator,
    ) && post.mem.is_trap(post.task_manager.inner.tasks@[i].trap_cx_ppn.0)
        && post.task_manager.inner.tasks@[i].memory_set.owns(
        post.task_manager.inner.tasks@[i].trap_cx_ppn.0,
    ) by {
        assert(pre.task_manager.inner.tasks@[i].memory_set.wf_frames(pre.allocator));
        if i != t {
            let ppn_i = pre.task_manager.inner.tasks@[i].trap_cx_ppn.0;
            let ppn_t = pre.task_manager.inner.tasks@[t].trap_cx_ppn.0;
            assert(ppn_i != ppn_t) by {
                assert(pre.task_manager.inner.tasks@[i].memory_set.owns(ppn_i));
                assert(pre.task_manager.inner.tasks@[t].memory_set.owns(ppn_t));
            }
            assert(pre.mem.is_trap(ppn_i));
            assert(post.mem.spec_frame(ppn_i) == pre.mem.spec_frame(ppn_i));
        }
    }
}

} // verus!
