//! The syscall surface: `write`, `exit`, `yield` and `get_time`,
//! dispatched by number with up to three integer arguments, exactly as
//! the trap path decodes them from the saved registers.

use vstd::prelude::*;

use crate::address::VA_LIMIT;
use crate::kernel::Kernel;
use crate::page_table::{concat_chunks, range_ok, translated_byte_buffer, user_byte};
use crate::task::{exit_current_and_run_next, suspended_current_and_run_next, TaskStatus};
use crate::timer::get_time_ms;
use crate::KernelError;

verus! {

/// Syscall number of `write`.
pub const SYSCALL_WRITE: u64 = 64;

/// Syscall number of `exit`.
pub const SYSCALL_EXIT: u64 = 93;

/// Syscall number of `yield`.
pub const SYSCALL_YIELD: u64 = 124;

/// Syscall number of `get_time`.
pub const SYSCALL_GET_TIME: u64 = 169;

/// File descriptor of standard output, the only one `write` serves.
pub const FD_STDOUT: u64 = 1;

/// What one syscall did.
pub enum SyscallOutcome {
    /// The task keeps running: the value to place in its return
    /// register, and any bytes it wrote to standard output.
    Value { ret: i64, written: Vec<u8> },
    /// The task exited with this code and another task was dispatched.
    Exited { code: i64, next: usize },
}

/// The bytes `[buf, buf + len)` of the current task's address space all
/// translate to plain-byte frames.
pub open spec fn write_buffer_ok(k: Kernel, buf: u64, len: u64) -> bool {
    &&& buf + len <= VA_LIMIT
    &&& range_ok(
        k.mem,
        k.task_manager.inner.tasks@[k.cur()].memory_set.pt(),
        buf,
        len,
    )
}

/// Writes `len` bytes at user address `buf` of the current task to
/// standard output — the only descriptor this kernel serves.  Returns
/// the byte count and the bytes themselves; any other descriptor, and
/// any unmapped buffer, is refused.
pub fn sys_write(kernel: &mut Kernel, fd: u64, buf: u64, len: u64) -> (r: Result<
    (i64, Vec<u8>),
    KernelError,
>)
    requires
        old(kernel).inv(),
        old(kernel).status_of(old(kernel).cur()) != TaskStatus::Exited,
    ensures
        *final(kernel) == *old(kernel),
        fd != FD_STDOUT ==> r == Err::<(i64, Vec<u8>), KernelError>(KernelError::UnsupportedFd),
        fd == FD_STDOUT ==> {
            &&& r is Ok <==> write_buffer_ok(*old(kernel), buf, len)
            &&& (r matches Err(e) ==> e == KernelError::NotMapped || e
                == KernelError::NotDataPage)
            &&& r matches Ok(t) ==> t.0 == len && t.1@ == Seq::new(
                len as nat,
                |i: int|
                    user_byte(
                        old(kernel).mem,
                        old(kernel).task_manager.inner.tasks@[old(kernel).cur()].memory_set.pt(),
                        (buf + i) as u64,
                    ),
            )
        },
{
    if fd != FD_STDOUT {
        return Err(KernelError::UnsupportedFd);
    }
    if len > VA_LIMIT || buf > VA_LIMIT - len {
        proof {
            assert(!write_buffer_ok(*old(kernel), buf, len));
        }
        return Err(KernelError::NotMapped);
    }
    let cur = kernel.task_manager.get_current_task();
    let pt = kernel.task_manager.inner.tasks[cur].memory_set.page_table_ref();
    let chunks = match translated_byte_buffer(&kernel.mem, pt, buf, len) {
        Ok(c) => c,
        Err(e) => {
            return Err(e);
        },
    };
    let bytes = concat_chunks(&chunks);
    proof {
        assert(bytes@ =~= Seq::new(
            len as nat,
            |i: int|
                user_byte(
                    kernel.mem,
                    kernel.task_manager.inner.tasks@[kernel.cur()].memory_set.pt(),
                    (buf + i) as u64,
                ),
        ));
    }
    Ok((len as i64, bytes))
}

/// Exits the current task with `code`: its frames are all returned to
/// the allocator and the next `Ready` task is dispatched.  The call
/// never returns to the exiting task; with no runnable task left the
/// kernel itself stops.
pub fn sys_exit(kernel: &mut Kernel, code: i64) -> (r: Result<usize, KernelError>)
    requires
        old(kernel).inv(),
        old(kernel).status_of(old(kernel).cur()) != TaskStatus::Exited,
    ensures
        final(kernel).inv(),
        final(kernel).task_manager.num_app == old(kernel).task_manager.num_app,
        final(kernel).mem == old(kernel).mem,
        final(kernel).timer == old(kernel).timer,
        final(kernel).status_of(old(kernel).cur()) == TaskStatus::Exited,
        forall|q: u64|
            final(kernel).allocator.live(q) == (old(kernel).allocator.live(q) && !old(kernel).task_manager.inner.tasks@[old(kernel).cur()].memory_set.owns(q)),
        r matches Ok(j) ==> {
            &&& final(kernel).cur() == j
            &&& j != old(kernel).cur()
            &&& final(kernel).status_of(j as int) == TaskStatus::Running
            &&& forall|i: int|
                0 <= i < final(kernel).task_manager.num_app && i != j && i != old(kernel).cur()
                    ==> final(kernel).status_of(i) == old(kernel).status_of(i)
        },
        r is Err ==> r == Err::<usize, KernelError>(KernelError::NoRunnableTask) && forall|i: int|
            0 <= i < final(kernel).task_manager.num_app && i != old(kernel).cur() ==> final(kernel).status_of(i) == old(kernel).status_of(i),
        forall|i: int|
            0 <= i < final(kernel).task_manager.num_app && i != old(kernel).cur()
                ==> #[trigger] final(kernel).task_manager.inner.tasks@[i].memory_set == old(kernel).task_manager.inner.tasks@[i].memory_set
                && final(kernel).task_manager.inner.tasks@[i].trap_cx_ppn == old(kernel).task_manager.inner.tasks@[i].trap_cx_ppn,
        forall|i: int|
            0 <= i < final(kernel).task_manager.num_app
                ==> #[trigger] final(kernel).task_manager.inner.tasks@[i].task_cx == old(kernel).task_manager.inner.tasks@[i].task_cx
                && final(kernel).task_manager.inner.tasks@[i].base_size == old(kernel).task_manager.inner.tasks@[i].base_size,
{
    let ghost pre = *old(kernel);
    let r = exit_current_and_run_next(
        &mut kernel.task_manager,
        &mut kernel.allocator,
        Ghost(kernel.mem),
    );
    proof {
        assert(kernel.kernel_space.wf_frames(kernel.allocator)) by {
            assert forall|q: u64|
                pre.kernel_space.owns(q) implies kernel.allocator.live(q) == pre.allocator.live(
                q,
            ) by {
                assert(!pre.task_manager.inner.tasks@[pre.cur()].memory_set.owns(q));
            }
            crate::memory_set::lemma_wf_frames_agree(
                pre.kernel_space,
                pre.allocator,
                kernel.allocator,
            );
        }
        assert forall|i: int, q: u64|
            0 <= i < kernel.task_manager.num_app implies !(
        #[trigger] kernel.task_manager.inner.tasks@[i].memory_set.owns(q)
            && kernel.kernel_space.owns(q)) by {
            if i == pre.cur() {
                assert(kernel.task_manager.status_of(i) == TaskStatus::Exited);
            } else {
                assert(kernel.task_manager.inner.tasks@[i].memory_set
                    == pre.task_manager.inner.tasks@[i].memory_set);
            }
        }
        assert forall|i: int|
            0 <= i < kernel.task_manager.num_app && kernel.task_manager.status_of(i)
                != TaskStatus::Exited implies ((
        #[trigger] kernel.task_manager.inner.tasks@[i]).memory_set.translate(
            (crate::address::VPN_LIMIT - 1) as u64,
        ) matches Some(e) && e.spec_ppn() == kernel.trampoline.0 / 4096 && e.spec_flags()
            == 11) by {
            assert(i != pre.cur());
            assert(kernel.task_manager.inner.tasks@[i].memory_set
                == pre.task_manager.inner.tasks@[i].memory_set);
            assert(pre.task_manager.status_of(i) != TaskStatus::Exited);
        }
    }
    match r {
        Ok(next) => Ok(next),
        Err(e) => Err(e),
    }
}

/// Voluntarily yields the processor: the current task goes back to
/// `Ready` and the next `Ready` task — possibly the same one — runs.
/// Returns the value the yielding task will see, which is zero.
pub fn sys_yield(kernel: &mut Kernel) -> (r: Result<i64, KernelError>)
    requires
        old(kernel).inv(),
        old(kernel).status_of(old(kernel).cur()) != TaskStatus::Exited,
    ensures
        final(kernel).inv(),
        final(kernel).task_manager.num_app == old(kernel).task_manager.num_app,
        final(kernel).mem == old(kernel).mem,
        final(kernel).timer == old(kernel).timer,
        final(kernel).allocator == old(kernel).allocator,
        final(kernel).kernel_space == old(kernel).kernel_space,
        r matches Ok(v) ==> v == 0,
        r is Ok,
        final(kernel).status_of(final(kernel).cur()) == TaskStatus::Running,
        forall|i: int|
            0 <= i < final(kernel).task_manager.num_app ==> #[trigger] final(kernel).task_manager.inner.tasks@[i].memory_set
                == old(kernel).task_manager.inner.tasks@[i].memory_set && final(kernel).task_manager.inner.tasks@[i].trap_cx_ppn
                == old(kernel).task_manager.inner.tasks@[i].trap_cx_ppn
                && final(kernel).task_manager.inner.tasks@[i].task_cx == old(kernel).task_manager.inner.tasks@[i].task_cx
                && final(kernel).task_manager.inner.tasks@[i].base_size == old(kernel).task_manager.inner.tasks@[i].base_size,
        forall|i: int|
            0 <= i < final(kernel).task_manager.num_app ==> ((#[trigger] final(kernel).status_of(i)
                == TaskStatus::Exited) <==> old(kernel).status_of(i) == TaskStatus::Exited),
        final(kernel).status_of(old(kernel).cur()) != TaskStatus::Exited,
        final(kernel).cur() < final(kernel).task_manager.num_app,
        final(kernel).cur() != old(kernel).cur() ==> final(kernel).status_of(old(kernel).cur())
            == TaskStatus::Ready,
{
    let ghost pre = *old(kernel);
    let r = suspended_current_and_run_next(&mut kernel.task_manager);
    proof {
        assert forall|i: int|
            0 <= i < kernel.task_manager.num_app implies ((
        #[trigger] kernel.task_manager.status_of(i) == TaskStatus::Exited)
            <==> pre.task_manager.status_of(i) == TaskStatus::Exited) by {
            if r is Err {
                if i == pre.cur() {
                    assert(kernel.task_manager.status_of(i) == TaskStatus::Ready);
                }
            } else {
                if i == pre.cur() && kernel.cur() != i {
                    assert(kernel.task_manager.status_of(i) == TaskStatus::Ready);
                } else if kernel.cur() == i {
                    assert(kernel.task_manager.status_of(i) == TaskStatus::Running);
                    if i != pre.cur() {
                        let j = r->Ok_0;
                        assert(j as int == kernel.cur());
                        assert(pre.task_manager.status_of(j as int) == TaskStatus::Ready);
                    }
                }
            }
        }
        assert forall|i: int|
            0 <= i < kernel.task_manager.num_app
                implies #[trigger] kernel.task_manager.inner.tasks@[i].memory_set
            == pre.task_manager.inner.tasks@[i].memory_set
            && kernel.task_manager.inner.tasks@[i].trap_cx_ppn
            == pre.task_manager.inner.tasks@[i].trap_cx_ppn by {
            assert(kernel.task_manager.inner.tasks@[i].trap_cx_ppn
                == pre.task_manager.inner.tasks@[i].trap_cx_ppn);
        }
        lemma_task_step_keeps_inv(pre, *kernel);
    }
    match r {
        Ok(_) => Ok(0),
        Err(e) => {
            proof {
                assert(false);
            }
            Err(e)
        },
    }
}

/// Milliseconds since boot.
pub fn sys_get_time(kernel: &Kernel) -> (r: i64)
    requires
        kernel.timer.spec_time() / (crate::config::CLOCK_FREQ / 1000) <= i64::MAX,
    ensures
        r == kernel.timer.spec_time() / (crate::config::CLOCK_FREQ / 1000),
{
    get_time_ms(&kernel.timer) as i64
}

/// The slot index of the task now running.
pub fn get_taskinfo(kernel: &Kernel) -> (r: usize)
    ensures
        r as int == kernel.cur(),
{
    crate::task::current_taskinfo(&kernel.task_manager)
}

/// Dispatches one syscall by number.  Unknown numbers are fatal, as is
/// a `write` to anything but standard output.
pub fn syscall(kernel: &mut Kernel, syscall_id: u64, args: [u64; 3]) -> (r: Result<
    SyscallOutcome,
    KernelError,
>)
    requires
        old(kernel).inv(),
        old(kernel).status_of(old(kernel).cur()) != TaskStatus::Exited,
        old(kernel).timer.spec_time() / (crate::config::CLOCK_FREQ / 1000) <= i64::MAX,
    ensures
        final(kernel).inv(),
        final(kernel).task_manager.num_app == old(kernel).task_manager.num_app,
        final(kernel).mem == old(kernel).mem,
        final(kernel).timer == old(kernel).timer,
        syscall_id != SYSCALL_WRITE && syscall_id != SYSCALL_EXIT && syscall_id != SYSCALL_YIELD
            && syscall_id != SYSCALL_GET_TIME ==> r == Err::<SyscallOutcome, KernelError>(
            KernelError::UnknownSyscall,
        ) && *final(kernel) == *old(kernel),
        syscall_id == SYSCALL_WRITE ==> *final(kernel) == *old(kernel) && (args[0] != FD_STDOUT
            ==> r == Err::<SyscallOutcome, KernelError>(KernelError::UnsupportedFd)) && (args[0]
            == FD_STDOUT && write_buffer_ok(*old(kernel), args[1], args[2]) ==> (r matches Ok(o)
            && o matches SyscallOutcome::Value { ret, written } && ret == args[2] && written@
            == Seq::new(
            args[2] as nat,
            |i: int|
                user_byte(
                    old(kernel).mem,
                    old(kernel).task_manager.inner.tasks@[old(kernel).cur()].memory_set.pt(),
                    (args[1] + i) as u64,
                ),
        ))),
        syscall_id == SYSCALL_EXIT ==> final(kernel).status_of(old(kernel).cur())
            == TaskStatus::Exited && forall|q: u64|
            final(kernel).allocator.live(q) == (old(kernel).allocator.live(q) && !old(kernel).task_manager.inner.tasks@[old(kernel).cur()].memory_set.owns(q)),
        syscall_id == SYSCALL_GET_TIME ==> *final(kernel) == *old(kernel) && (r matches Ok(o)
            && o matches SyscallOutcome::Value { ret, written } && ret == old(kernel).timer.spec_time() / (crate::config::CLOCK_FREQ / 1000) && written@.len() == 0),
        syscall_id == SYSCALL_YIELD ==> (r matches Ok(o) ==> o matches SyscallOutcome::Value {
            ret,
            written,
        } && ret == 0 && written@.len() == 0),
        r matches Err(e) ==> e == KernelError::UnknownSyscall || e == KernelError::UnsupportedFd
            || e == KernelError::NotMapped || e == KernelError::NotDataPage || e
            == KernelError::NoRunnableTask,
        r matches Ok(o) ==> (o matches SyscallOutcome::Exited { code, next } ==> syscall_id
            == SYSCALL_EXIT && code == args[0] as i64 && final(kernel).cur() == next && final(kernel).status_of(
            next as int,
        ) == TaskStatus::Running && final(kernel).status_of(old(kernel).cur())
            == TaskStatus::Exited),
        syscall_id == SYSCALL_WRITE ==> (r matches Ok(o) ==> (o matches SyscallOutcome::Value {
            ret,
            written,
        } ==> args[0] == FD_STDOUT && write_buffer_ok(*old(kernel), args[1], args[2]) && ret
            == args[2] && written@ == Seq::new(
            args[2] as nat,
            |i: int|
                user_byte(
                    old(kernel).mem,
                    old(kernel).task_manager.inner.tasks@[old(kernel).cur()].memory_set.pt(),
                    (args[1] + i) as u64,
                ),
        ))),
        syscall_id == SYSCALL_YIELD ==> (r matches Ok(o) ==> (o matches SyscallOutcome::Value {
            ret,
            written,
        } ==> ret == 0 && written@.len() == 0)),
        syscall_id == SYSCALL_GET_TIME ==> (r matches Ok(o) ==> (o
            matches SyscallOutcome::Value { ret, written } ==> ret == old(kernel).timer.spec_time()
            / (crate::config::CLOCK_FREQ / 1000) && written@.len() == 0)),
        r matches Ok(o) ==> (o matches SyscallOutcome::Value { ret, written } ==> syscall_id
            != SYSCALL_EXIT && final(kernel).status_of(old(kernel).cur()) != TaskStatus::Exited
            && forall|i: int|
            0 <= i < final(kernel).task_manager.num_app ==> #[trigger] final(kernel).task_manager.inner.tasks@[i].memory_set
                == old(kernel).task_manager.inner.tasks@[i].memory_set && final(kernel).task_manager.inner.tasks@[i].trap_cx_ppn
                == old(kernel).task_manager.inner.tasks@[i].trap_cx_ppn),
{
    if syscall_id == SYSCALL_WRITE {
        match sys_write(kernel, args[0], args[1], args[2]) {
            Ok((ret, written)) => Ok(SyscallOutcome::Value { ret, written }),
            Err(e) => Err(e),
        }
    } else if syscall_id == SYSCALL_EXIT {
        let code = args[0] as i64;
        match sys_exit(kernel, code) {
            Ok(next) => Ok(SyscallOutcome::Exited { code, next }),
            Err(e) => Err(e),
        }
    } else if syscall_id == SYSCALL_YIELD {
        match sys_yield(kernel) {
            Ok(v) => Ok(SyscallOutcome::Value { ret: v, written: Vec::new() }),
            Err(e) => Err(e),
        }
    } else if syscall_id == SYSCALL_GET_TIME {
        let ms = sys_get_time(kernel);
        Ok(SyscallOutcome::Value { ret: ms, written: Vec::new() })
    } else {
        Err(KernelError::UnknownSyscall)
    }
}

/// A scheduler step that only rewrote statuses and the current slot
/// keeps the kernel invariant.
proof fn lemma_task_step_keeps_inv(pre: Kernel, post: Kernel)
    requires
        pre.inv(),
        post.allocator == pre.allocator,
        post.mem == pre.mem,
        post.kernel_space == pre.kernel_space,
        post.trampoline == pre.trampoline,
        post.task_manager.basic_wf(),
        post.task_manager.num_app == pre.task_manager.num_app,
        forall|i: int|
            0 <= i < post.task_manager.num_app
                ==> #[trigger] post.task_manager.inner.tasks@[i].memory_set
                == pre.task_manager.inner.tasks@[i].memory_set
                && post.task_manager.inner.tasks@[i].trap_cx_ppn
                == pre.task_manager.inner.tasks@[i].trap_cx_ppn,
        forall|i: int|
            0 <= i < post.task_manager.num_app ==> ((#[trigger] post.task_manager.status_of(i)
                == TaskStatus::Exited) <==> pre.task_manager.status_of(i) == TaskStatus::Exited),
    ensures
        post.inv(),
{
    assert forall|i: int|
        0 <= i < post.task_manager.num_app && post.task_manager.status_of(i) != TaskStatus::Exited
            implies (#[trigger] post.task_manager.inner.tasks@[i]).memory_set.wf_frames(
        post.allocator,
    ) && post.mem.is_trap(post.task_manager.inner.tasks@[i].trap_cx_ppn.0) by {
        assert(pre.task_manager.status_of(i) != TaskStatus::Exited);
        assert(pre.task_manager.inner.tasks@[i].memory_set.wf_frames(pre.allocator));
    }
    assert forall|i: int, q: u64|
        0 <= i < post.task_manager.num_app && post.task_manager.status_of(i) == TaskStatus::Exited
            implies !#[trigger] post.task_manager.inner.tasks@[i].memory_set.owns(q) by {
        assert(pre.task_manager.status_of(i) == TaskStatus::Exited);
    }
    assert forall|i: int, j: int, q: u64|
        0 <= i < j < post.task_manager.num_app implies !(
    #[trigger] post.task_manager.inner.tasks@[i].memory_set.owns(q)
        && #[trigger] post.task_manager.inner.tasks@[j].memory_set.owns(q)) by {}
    assert forall|i: int, q: u64|
        0 <= i < post.task_manager.num_app implies !(
    #[trigger] post.task_manager.inner.tasks@[i].memory_set.owns(q) && post.kernel_space.owns(
        q,
    )) by {}
    assert forall|i: int|
        0 <= i < post.task_manager.num_app && post.task_manager.status_of(i) != TaskStatus::Exited
            implies ((#[trigger] post.task_manager.inner.tasks@[i]).memory_set.translate(
        (crate::address::VPN_LIMIT - 1) as u64,
    ) matches Some(e) && e.spec_ppn() == post.trampoline.0 / 4096 && e.spec_flags() == 11) by {
        assert(pre.task_manager.status_of(i) != TaskStatus::Exited);
        assert(post.task_manager.inner.tasks@[i].memory_set
            == pre.task_manager.inner.tasks@[i].memory_set);
    }
}

} // verus!
