//! Tasks and their round-robin scheduler: the per-task control block,
//! the saved kernel-mode context exchanged by the context-switch
//! primitive, and the manager that owns every task and decides what
//! runs next.

use vstd::arithmetic::div_mod::lemma_fundamental_div_mod_converse;
use vstd::prelude::*;

use crate::address::{PhysPageNum, VirtAddr, VPN_LIMIT};
use crate::config::{MAX_APP_NUM, TRAP_CONTEXT};
use crate::frame_allocator::StackFrameAllocator;
use crate::memory_set::MemorySet;
use crate::phys_mem::PhysMemory;
use crate::trap::{cx_eq, TrapContext};
use crate::KernelError;

verus! {

/// Lifecycle state of one task.
#[derive(Clone, Copy, Debug, PartialEq, Eq, Structural)]
pub enum TaskStatus {
    /// Slot created, no image loaded.
    UnInit,
    /// Runnable, waiting to be scheduled.
    Ready,
    /// Currently on the CPU.
    Running,
    /// Finished or killed; never scheduled again.
    Exited,
}

/// The minimal kernel-mode register set the context-switch primitive
/// saves and restores: return address, stack pointer and the twelve
/// callee-saved registers.  Full user registers live in the
/// `TrapContext`, not here.
pub struct TaskContext {
    /// Address execution resumes at after a switch.
    pub ra: u64,
    /// Kernel stack pointer.
    pub sp: u64,
    /// Callee-saved registers `s0`..`s11`.
    pub s: Vec<u64>,
}

impl TaskContext {
    /// Twelve saved registers.
    pub open spec fn wf(self) -> bool {
        self.s@.len() == 12
    }

    /// An all-zero context, used before any real context is saved.
    pub fn zero_init() -> (r: TaskContext)
        ensures
            r.wf(),
            r.ra == 0,
            r.sp == 0,
            forall|i: int| 0 <= i < 12 ==> r.s@[i] == 0,
    {
        TaskContext { ra: 0, sp: 0, s: zero_regs() }
    }

    /// The context a fresh task first switches into: resume at the trap
    /// return path, on the task's kernel stack.
    pub fn goto_trap_return(kstack_ptr: u64, trap_return: u64) -> (r: TaskContext)
        ensures
            r.wf(),
            r.ra == trap_return,
            r.sp == kstack_ptr,
            forall|i: int| 0 <= i < 12 ==> r.s@[i] == 0,
    {
        TaskContext { ra: trap_return, sp: kstack_ptr, s: zero_regs() }
    }
}

/// Twelve zeroed registers.
fn zero_regs() -> (r: Vec<u64>)
    ensures
        r@.len() == 12,
        forall|i: int| 0 <= i < 12 ==> r@[i] == 0,
{
    let mut v: Vec<u64> = Vec::new();
    let mut i: usize = 0;
    while i < 12
        invariant
            i <= 12,
            v@.len() == i,
            forall|k: int| 0 <= k < i ==> v@[k] == 0,
        decreases 12 - i,
    {
        v.push(0);
        i = i + 1;
    }
    v
}

/// One task's durable state: status, suspended kernel context, owned
/// address space, the frame holding its trap context, and its memory
/// footprint.
pub struct TaskControlBlock {
    pub status: TaskStatus,
    pub task_cx: TaskContext,
    pub memory_set: MemorySet,
    pub trap_cx_ppn: PhysPageNum,
    pub base_size: u64,
}

impl TaskControlBlock {
    /// The SV39 token of the owned address space.
    pub fn get_user_token(&self) -> (r: u64)
        requires
            self.memory_set.pt().wf(),
        ensures
            r == 0x8000_0000_0000_0000u64 + self.memory_set.pt().spec_root(),
    {
        self.memory_set.token()
    }

    /// Reads the saved trap context out of the owned trap frame.
    pub fn get_trap_cx(&self, mem: &PhysMemory) -> (r: TrapContext)
        requires
            mem.wf(),
            mem.is_trap(self.trap_cx_ppn.0),
        ensures
            cx_eq(r, mem.trap_cx(self.trap_cx_ppn.0)),
            r.wf(),
    {
        mem.read_trap_cx(self.trap_cx_ppn)
    }

    /// Stores a trap context into the owned trap frame.
    pub fn set_trap_cx(&self, mem: &mut PhysMemory, cx: TrapContext)
        requires
            old(mem).wf(),
            old(mem).in_range(self.trap_cx_ppn.0),
            cx.wf(),
        ensures
            final(mem).wf(),
            final(mem).spec_base() == old(mem).spec_base(),
            final(mem).spec_len() == old(mem).spec_len(),
            final(mem).is_trap(self.trap_cx_ppn.0),
            cx_eq(final(mem).trap_cx(self.trap_cx_ppn.0), cx),
            forall|q: u64|
                old(mem).in_range(q) && q != self.trap_cx_ppn.0 ==> #[trigger] final(mem).spec_frame(q) == old(mem).spec_frame(q),
    {
        mem.write_trap_cx(self.trap_cx_ppn, cx);
    }
}

/// The position of slot `i` in a round-robin sweep that starts just
/// after slot `c`: 1 for the slot right after `c`, up to `n` for `c`
/// itself.
pub open spec fn sweep_offset(c: int, i: int, n: int) -> int {
    if i - c <= 0 {
        i - c + n
    } else {
        i - c
    }
}

/// One round-robin sweep visits every slot exactly once: over the slots
/// `0..n`, the sweep positions after any current slot `c` are a
/// permutation of `1..=n` — no slot is visited twice before the sweep
/// wraps.
pub proof fn lemma_sweep_visits_each_once(c: int, n: int)
    requires
        0 <= c < n,
    ensures
        forall|i: int| 0 <= i < n ==> 1 <= #[trigger] sweep_offset(c, i, n) <= n,
        forall|i1: int, i2: int|
            0 <= i1 < n && 0 <= i2 < n && i1 != i2 ==> #[trigger] sweep_offset(c, i1, n)
                != #[trigger] sweep_offset(c, i2, n),
{
}

/// The slot at sweep position `k` after `c`.
pub open spec fn sweep_slot(c: int, k: int, n: int) -> int {
    if c + k < n {
        c + k
    } else {
        c + k - n
    }
}

/// Sweep positions and slots are inverse to each other.
proof fn lemma_sweep_inverse(c: int, k: int, n: int)
    requires
        0 <= c < n,
        1 <= k <= n,
    ensures
        0 <= sweep_slot(c, k, n) < n,
        sweep_offset(c, sweep_slot(c, k, n), n) == k,
{
}

/// Mutable core of the task manager: every control block, and which
/// slot is current.
pub struct TaskMangerInner {
    pub tasks: Vec<TaskControlBlock>,
    pub current_task: usize,
}

/// Owner of all task control blocks and sole mutator of task status and
/// of the current-task index.
pub struct TaskManger {
    pub num_app: u64,
    pub inner: TaskMangerInner,
}

impl TaskManger {
    /// The status of task `i`.
    pub open spec fn status_of(self, i: int) -> TaskStatus {
        self.inner.tasks@[i].status
    }

    /// The current slot.
    pub open spec fn cur(self) -> int {
        self.inner.current_task as int
    }

    /// Slot count agrees with the task list and the current slot is in
    /// range.
    pub open spec fn basic_wf(self) -> bool {
        &&& self.num_app == self.inner.tasks@.len()
        &&& 0 < self.inner.tasks@.len() <= MAX_APP_NUM
        &&& self.cur() < self.num_app
    }

    /// Marks the current task ready again — a voluntary yield or a timer
    /// preemption, indistinguishable at this level.
    pub fn mark_current_suspended(&mut self)
        requires
            old(self).basic_wf(),
        ensures
            final(self).basic_wf(),
            final(self).num_app == old(self).num_app,
            final(self).cur() == old(self).cur(),
            final(self).status_of(old(self).cur()) == TaskStatus::Ready,
            forall|i: int|
                0 <= i < final(self).num_app && i != old(self).cur() ==> final(self).status_of(i)
                    == old(self).status_of(i),
            forall|i: int|
                0 <= i < final(self).num_app ==> #[trigger] final(self).inner.tasks@[i].trap_cx_ppn
                    == old(self).inner.tasks@[i].trap_cx_ppn
                    && final(self).inner.tasks@[i].memory_set == old(self).inner.tasks@[i].memory_set
                    && final(self).inner.tasks@[i].task_cx == old(self).inner.tasks@[i].task_cx
                    && final(self).inner.tasks@[i].base_size == old(self).inner.tasks@[i].base_size,
    {
        let current = self.inner.current_task;
        set_status(&mut self.inner.tasks, current, TaskStatus::Ready);
    }

    /// Marks the current task exited — a completed or killed task.
    pub fn mark_current_exited(&mut self)
        requires
            old(self).basic_wf(),
        ensures
            final(self).basic_wf(),
            final(self).num_app == old(self).num_app,
            final(self).cur() == old(self).cur(),
            final(self).status_of(old(self).cur()) == TaskStatus::Exited,
            forall|i: int|
                0 <= i < final(self).num_app && i != old(self).cur() ==> final(self).status_of(i)
                    == old(self).status_of(i),
            forall|i: int|
                0 <= i < final(self).num_app ==> #[trigger] final(self).inner.tasks@[i].trap_cx_ppn
                    == old(self).inner.tasks@[i].trap_cx_ppn
                    && final(self).inner.tasks@[i].memory_set == old(self).inner.tasks@[i].memory_set
                    && final(self).inner.tasks@[i].task_cx == old(self).inner.tasks@[i].task_cx
                    && final(self).inner.tasks@[i].base_size == old(self).inner.tasks@[i].base_size,
    {
        let current = self.inner.current_task;
        set_status(&mut self.inner.tasks, current, TaskStatus::Exited);
    }

    /// Scans the slots starting just after the current one, wrapping
    /// round, and returns the first `Ready` task — the one every other
    /// `Ready` task trails in the sweep order.
    pub fn find_next_task(&self) -> (r: Option<usize>)
        requires
            self.basic_wf(),
        ensures
            r matches Some(j) ==> {
                &&& j < self.num_app
                &&& self.status_of(j as int) == TaskStatus::Ready
                &&& forall|i: int|
                    0 <= i < self.num_app && self.status_of(i) == TaskStatus::Ready
                        ==> sweep_offset(self.cur(), j as int, self.num_app as int)
                        <= #[trigger] sweep_offset(self.cur(), i, self.num_app as int)
            },
            r is None ==> forall|i: int|
                0 <= i < self.num_app ==> self.status_of(i) != TaskStatus::Ready,
    {
        let n = self.inner.tasks.len();
        let c = self.inner.current_task;
        let mut k: usize = 1;
        while k <= n
            invariant
                self.basic_wf(),
                n == self.num_app,
                c == self.cur(),
                1 <= k <= n + 1,
                forall|k2: int|
                    1 <= k2 < k ==> self.status_of(sweep_slot(c as int, k2, n as int))
                        != TaskStatus::Ready,
            decreases n + 1 - k,
        {
            let id = if c + k < n {
                c + k
            } else {
                c + k - n
            };
            proof {
                assert(id as int == sweep_slot(c as int, k as int, n as int));
                lemma_sweep_inverse(c as int, k as int, n as int);
            }
            if matches!(self.inner.tasks[id].status, TaskStatus::Ready) {
                proof {
                    assert forall|i: int|
                        0 <= i < self.num_app && self.status_of(i) == TaskStatus::Ready
                            implies sweep_offset(self.cur(), id as int, self.num_app as int)
                        <= #[trigger] sweep_offset(self.cur(), i, self.num_app as int) by {
                        let ki = sweep_offset(c as int, i, n as int);
                        if ki < k {
                            lemma_sweep_inverse(c as int, ki, n as int);
                            assert(sweep_slot(c as int, ki, n as int) == i);
                        }
                    }
                }
                return Some(id);
            }
            k = k + 1;
        }
        proof {
            assert forall|i: int|
                0 <= i < self.num_app implies self.status_of(i) != TaskStatus::Ready by {
                let ki = sweep_offset(c as int, i, n as int);
                lemma_sweep_inverse(c as int, ki, n as int);
                assert(sweep_slot(c as int, ki, n as int) == i);
            }
        }
        None
    }

    /// Dispatches the first `Ready` task after the current one: marks it
    /// `Running` and makes it current.  The raw register exchange (the
    /// context-switch primitive) happens outside this crate, on the two
    /// saved `TaskContext`s.  Fails when no task is runnable — this
    /// kernel has no idle state.
    pub fn run_next_task(&mut self) -> (r: Result<usize, KernelError>)
        requires
            old(self).basic_wf(),
        ensures
            final(self).basic_wf(),
            r matches Ok(j) ==> {
                &&& j < final(self).num_app
                &&& final(self).cur() == j
                &&& old(self).status_of(j as int) == TaskStatus::Ready
                &&& final(self).status_of(j as int) == TaskStatus::Running
                &&& forall|i: int|
                    0 <= i < final(self).num_app && i != j ==> final(self).status_of(i) == old(self).status_of(i)
                &&& forall|i: int|
                    0 <= i < old(self).num_app && old(self).status_of(i) == TaskStatus::Ready
                        ==> sweep_offset(old(self).cur(), j as int, old(self).num_app as int)
                        <= #[trigger] sweep_offset(old(self).cur(), i, old(self).num_app as int)
            },
            r is Err ==> r == Err::<usize, KernelError>(KernelError::NoRunnableTask) && (forall|
                i: int,
            |
                0 <= i < old(self).num_app ==> old(self).status_of(i) != TaskStatus::Ready) && (
            forall|i: int|
                0 <= i < final(self).num_app ==> final(self).status_of(i) == old(self).status_of(
                    i,
                )) && final(self).cur() == old(self).cur(),
            final(self).num_app == old(self).num_app,
            forall|i: int|
                0 <= i < final(self).num_app ==> #[trigger] final(self).inner.tasks@[i].trap_cx_ppn
                    == old(self).inner.tasks@[i].trap_cx_ppn && final(self).inner.tasks@[i].memory_set
                    == old(self).inner.tasks@[i].memory_set && final(self).inner.tasks@[i].task_cx
                    == old(self).inner.tasks@[i].task_cx && final(self).inner.tasks@[i].base_size
                    == old(self).inner.tasks@[i].base_size,
    {
        match self.find_next_task() {
            Some(next) => {
                set_status(&mut self.inner.tasks, next, TaskStatus::Running);
                self.inner.current_task = next;
                Ok(next)
            },
            None => Err(KernelError::NoRunnableTask),
        }
    }

    /// Starts the very first task: slot 0 becomes `Running` and current.
    pub fn run_first_task(&mut self)
        requires
            old(self).basic_wf(),
        ensures
            final(self).basic_wf(),
            final(self).cur() == 0,
            final(self).status_of(0) == TaskStatus::Running,
            forall|i: int|
                0 < i < final(self).num_app ==> final(self).status_of(i) == old(self).status_of(i),
            final(self).num_app == old(self).num_app,
            forall|i: int|
                0 <= i < final(self).num_app ==> #[trigger] final(self).inner.tasks@[i].trap_cx_ppn
                    == old(self).inner.tasks@[i].trap_cx_ppn && final(self).inner.tasks@[i].memory_set
                    == old(self).inner.tasks@[i].memory_set && final(self).inner.tasks@[i].task_cx
                    == old(self).inner.tasks@[i].task_cx && final(self).inner.tasks@[i].base_size
                    == old(self).inner.tasks@[i].base_size,
    {
        set_status(&mut self.inner.tasks, 0, TaskStatus::Running);
        self.inner.current_task = 0;
    }

    /// The current slot index.
    pub fn get_current_task(&self) -> (r: usize)
        ensures
            r as int == self.cur(),
    {
        self.inner.current_task
    }

    /// The SV39 token of the current task's address space.
    pub fn get_current_token(&self) -> (r: u64)
        requires
            self.basic_wf(),
            self.inner.tasks@[self.cur()].memory_set.pt().wf(),
        ensures
            r == 0x8000_0000_0000_0000u64
                + self.inner.tasks@[self.cur()].memory_set.pt().spec_root(),
    {
        self.inner.tasks[self.inner.current_task].get_user_token()
    }

    /// The current task's saved trap context.
    pub fn get_current_trap_cx(&self, mem: &PhysMemory) -> (r: TrapContext)
        requires
            self.basic_wf(),
            mem.wf(),
            mem.is_trap(self.inner.tasks@[self.cur()].trap_cx_ppn.0),
        ensures
            cx_eq(r, mem.trap_cx(self.inner.tasks@[self.cur()].trap_cx_ppn.0)),
            r.wf(),
    {
        self.inner.tasks[self.inner.current_task].get_trap_cx(mem)
    }
}

/// Overwrites the status of task `i`, leaving all else untouched.
fn set_status(tasks: &mut Vec<TaskControlBlock>, i: usize, status: TaskStatus)
    requires
        i < old(tasks)@.len(),
    ensures
        final(tasks)@.len() == old(tasks)@.len(),
        final(tasks)@[i as int].status == status,
        final(tasks)@[i as int].task_cx == old(tasks)@[i as int].task_cx,
        final(tasks)@[i as int].memory_set == old(tasks)@[i as int].memory_set,
        final(tasks)@[i as int].trap_cx_ppn == old(tasks)@[i as int].trap_cx_ppn,
        final(tasks)@[i as int].base_size == old(tasks)@[i as int].base_size,
        forall|k: int|
            0 <= k < old(tasks)@.len() && k != i ==> final(tasks)@[k] == old(tasks)@[k],
{
    let t = &mut tasks[i];
    t.status = status;
}

impl TaskManger {
    /// Frame accounting for the whole task table: every non-exited task's
    /// space is well-accounted, exited tasks own nothing, no two tasks
    /// share a frame, and every live task's trap frame really holds a
    /// trap context.
    pub open spec fn tasks_ok(self, a: StackFrameAllocator, mem: PhysMemory) -> bool {
        &&& forall|i: int|
            0 <= i < self.num_app && self.status_of(i) != TaskStatus::Exited
                ==> (#[trigger] self.inner.tasks@[i]).memory_set.wf_frames(a)
                && mem.is_trap(self.inner.tasks@[i].trap_cx_ppn.0)
                && self.inner.tasks@[i].memory_set.owns(self.inner.tasks@[i].trap_cx_ppn.0)
        &&& forall|i: int, q: u64|
            0 <= i < self.num_app && self.status_of(i) == TaskStatus::Exited
                ==> !#[trigger] self.inner.tasks@[i].memory_set.owns(q)
        &&& forall|i: int, j: int, q: u64|
            0 <= i < j < self.num_app ==> !(#[trigger] self.inner.tasks@[i].memory_set.owns(q)
                && #[trigger] self.inner.tasks@[j].memory_set.owns(q))
    }
}

/// Suspends the current task and dispatches the next `Ready` one.
pub fn suspended_current_and_run_next(tm: &mut TaskManger) -> (r: Result<usize, KernelError>)
    requires
        old(tm).basic_wf(),
    ensures
        final(tm).basic_wf(),
        final(tm).num_app == old(tm).num_app,
        r matches Ok(j) ==> {
            &&& final(tm).cur() == j
            &&& final(tm).status_of(j as int) == TaskStatus::Running
            &&& forall|i: int|
                0 <= i < final(tm).num_app && i != j && i != old(tm).cur() ==> final(tm).status_of(
                    i,
                ) == old(tm).status_of(i)
            &&& (j != old(tm).cur() ==> final(tm).status_of(old(tm).cur()) == TaskStatus::Ready)
            &&& (j != old(tm).cur() ==> old(tm).status_of(j as int) == TaskStatus::Ready)
        },
        r is Ok,
        final(tm).cur() != old(tm).cur() ==> final(tm).status_of(old(tm).cur())
            == TaskStatus::Ready,
        forall|i: int|
            0 <= i < final(tm).num_app ==> #[trigger] final(tm).inner.tasks@[i].trap_cx_ppn == old(tm).inner.tasks@[i].trap_cx_ppn && final(tm).inner.tasks@[i].memory_set == old(tm).inner.tasks@[i].memory_set
                && final(tm).inner.tasks@[i].task_cx == old(tm).inner.tasks@[i].task_cx
                && final(tm).inner.tasks@[i].base_size == old(tm).inner.tasks@[i].base_size,
{
    tm.mark_current_suspended();
    let ghost marked = *tm;
    let r = tm.run_next_task();
    proof {
        if r is Err {
            assert(marked.status_of(marked.cur()) == TaskStatus::Ready);
            assert(false);
        }
    }
    r
}

/// Exits the current task — releasing every frame its address space
/// owned, on this and every other exit path — and dispatches the next
/// `Ready` one.  Fails with no runnable task left once all have exited.
pub fn exit_current_and_run_next(
    tm: &mut TaskManger,
    allocator: &mut StackFrameAllocator,
    Ghost(mem): Ghost<PhysMemory>,
) -> (r: Result<usize, KernelError>)
    requires
        old(tm).basic_wf(),
        old(allocator).wf(),
        old(tm).tasks_ok(*old(allocator), mem),
        old(tm).status_of(old(tm).cur()) != TaskStatus::Exited,
    ensures
        final(tm).basic_wf(),
        final(allocator).wf(),
        final(tm).num_app == old(tm).num_app,
        final(allocator).spec_start() == old(allocator).spec_start(),
        final(allocator).spec_end() == old(allocator).spec_end(),
        final(tm).status_of(old(tm).cur()) == TaskStatus::Exited,
        forall|q: u64|
            final(allocator).live(q) == (old(allocator).live(q) && !old(tm).inner.tasks@[old(tm).cur()].memory_set.owns(q)),
        final(tm).tasks_ok(*final(allocator), mem),
        r matches Ok(j) ==> {
            &&& final(tm).cur() == j
            &&& final(tm).status_of(j as int) == TaskStatus::Running
            &&& forall|i: int|
                0 <= i < final(tm).num_app && i != j && i != old(tm).cur() ==> final(tm).status_of(
                    i,
                ) == old(tm).status_of(i)
        },
        r is Err ==> r == Err::<usize, KernelError>(KernelError::NoRunnableTask) && forall|i: int|
            0 <= i < final(tm).num_app && i != old(tm).cur() ==> final(tm).status_of(i) == old(tm).status_of(i),
        forall|i: int|
            0 <= i < final(tm).num_app && i != old(tm).cur()
                ==> #[trigger] final(tm).inner.tasks@[i].memory_set == old(tm).inner.tasks@[i].memory_set
                && final(tm).inner.tasks@[i].trap_cx_ppn == old(tm).inner.tasks@[i].trap_cx_ppn,
        forall|i: int|
            0 <= i < final(tm).num_app ==> #[trigger] final(tm).inner.tasks@[i].task_cx == old(tm).inner.tasks@[i].task_cx && final(tm).inner.tasks@[i].base_size == old(tm).inner.tasks@[i].base_size,
        final(tm).cur() == old(tm).cur() || (r matches Ok(j) && final(tm).cur() == j),
        r matches Ok(j) ==> j != old(tm).cur(),
{
    let ghost pre_tm = *tm;
    let ghost pre_a = *allocator;
    tm.mark_current_exited();
    let ghost tm_m = *tm;
    let current = tm.inner.current_task;
    let mut stub = MemorySet::new_empty();
    let ghost cur_ms = tm.inner.tasks@[current as int].memory_set;
    swap_memory_set(&mut tm.inner.tasks, current, &mut stub);
    proof {
        assert(stub == cur_ms);
        assert(cur_ms == pre_tm.inner.tasks@[pre_tm.cur()].memory_set);
        assert(cur_ms.wf_frames(pre_a));
        assert forall|i: int|
            0 <= i < tm.num_app && i != current as int implies #[trigger] tm.inner.tasks@[i]
            == tm_m.inner.tasks@[i] by {}
    }
    stub.release(allocator);
    proof {
        assert forall|i: int|
            0 <= i < tm.num_app && tm.status_of(i) != TaskStatus::Exited implies (
        #[trigger] tm.inner.tasks@[i]).memory_set.wf_frames(*allocator) && mem.is_trap(
            tm.inner.tasks@[i].trap_cx_ppn.0,
        ) && tm.inner.tasks@[i].memory_set.owns(tm.inner.tasks@[i].trap_cx_ppn.0) by {
            assert(i != current as int);
            assert(tm.inner.tasks@[i] == tm_m.inner.tasks@[i]);
            let _t = tm_m.inner.tasks@[i].trap_cx_ppn;
            assert(tm_m.inner.tasks@[i].memory_set == pre_tm.inner.tasks@[i].memory_set);
            assert(tm.inner.tasks@[i].memory_set == pre_tm.inner.tasks@[i].memory_set);
            assert(pre_tm.status_of(i) != TaskStatus::Exited);
            let ms_i = pre_tm.inner.tasks@[i].memory_set;
            assert(ms_i.wf_frames(pre_a));
            assert forall|q: u64| ms_i.owns(q) implies allocator.live(q) == pre_a.live(q) by {
                assert(!cur_ms.owns(q));
            }
            crate::memory_set::lemma_wf_frames_agree(ms_i, pre_a, *allocator);
        }
        assert forall|i: int, q: u64|
            0 <= i < tm.num_app && tm.status_of(i) == TaskStatus::Exited implies !#[trigger] tm.inner.tasks@[i].memory_set.owns(
            q,
        ) by {
            if i != current as int {
                assert(tm.inner.tasks@[i] == tm_m.inner.tasks@[i]);
                let _t = tm_m.inner.tasks@[i].trap_cx_ppn;
                assert(tm_m.inner.tasks@[i].memory_set == pre_tm.inner.tasks@[i].memory_set);
                assert(tm.status_of(i) == pre_tm.status_of(i));
            }
        }
        assert forall|i: int, j: int, q: u64|
            0 <= i < j < tm.num_app implies !(#[trigger] tm.inner.tasks@[i].memory_set.owns(q)
            && #[trigger] tm.inner.tasks@[j].memory_set.owns(q)) by {
            if i != current as int && j != current as int {
                assert(tm.inner.tasks@[i] == tm_m.inner.tasks@[i]);
                assert(tm.inner.tasks@[j] == tm_m.inner.tasks@[j]);
                let _ti = tm_m.inner.tasks@[i].trap_cx_ppn;
                let _tj = tm_m.inner.tasks@[j].trap_cx_ppn;
                assert(tm_m.inner.tasks@[i].memory_set == pre_tm.inner.tasks@[i].memory_set);
                assert(tm_m.inner.tasks@[j].memory_set == pre_tm.inner.tasks@[j].memory_set);
            }
        }
    }
    proof {
        assert forall|q: u64|
            allocator.live(q) == (pre_a.live(q) && !old(tm).inner.tasks@[old(tm).cur()].memory_set.owns(
                q,
            )) by {
            assert(allocator.live(q) == (pre_a.live(q) && !cur_ms.owns(q)));
        }
    }
    let ghost tm_mid = *tm;
    let r = tm.run_next_task();
    proof {
        assert forall|i: int|
            0 <= i < tm.num_app && tm.status_of(i) != TaskStatus::Exited implies (
        #[trigger] tm.inner.tasks@[i]).memory_set.wf_frames(*allocator) && mem.is_trap(
            tm.inner.tasks@[i].trap_cx_ppn.0,
        ) && tm.inner.tasks@[i].memory_set.owns(tm.inner.tasks@[i].trap_cx_ppn.0) by {
            let _t = tm.inner.tasks@[i].trap_cx_ppn;
            assert(tm.inner.tasks@[i].memory_set == tm_mid.inner.tasks@[i].memory_set);
            if tm.status_of(i) != tm_mid.status_of(i) {
                assert(tm_mid.status_of(i) == TaskStatus::Ready);
            }
        }
        assert forall|i: int, q: u64|
            0 <= i < tm.num_app && tm.status_of(i) == TaskStatus::Exited implies !#[trigger] tm.inner.tasks@[i].memory_set.owns(
            q,
        ) by {
            let _t = tm.inner.tasks@[i].trap_cx_ppn;
            assert(tm.inner.tasks@[i].memory_set == tm_mid.inner.tasks@[i].memory_set);
            assert(tm_mid.status_of(i) == TaskStatus::Exited);
        }
        assert forall|i: int, j: int, q: u64|
            0 <= i < j < tm.num_app implies !(#[trigger] tm.inner.tasks@[i].memory_set.owns(q)
            && #[trigger] tm.inner.tasks@[j].memory_set.owns(q)) by {
            let _ti = tm.inner.tasks@[i].trap_cx_ppn;
            let _tj = tm.inner.tasks@[j].trap_cx_ppn;
            assert(tm.inner.tasks@[i].memory_set == tm_mid.inner.tasks@[i].memory_set);
            assert(tm.inner.tasks@[j].memory_set == tm_mid.inner.tasks@[j].memory_set);
        }
        assert forall|i: int|
            0 <= i < tm.num_app && i != pre_tm.cur()
                implies #[trigger] tm.inner.tasks@[i].memory_set
            == pre_tm.inner.tasks@[i].memory_set && tm.inner.tasks@[i].trap_cx_ppn
            == pre_tm.inner.tasks@[i].trap_cx_ppn by {
            let _t = tm.inner.tasks@[i].trap_cx_ppn;
            assert(tm.inner.tasks@[i].memory_set == tm_mid.inner.tasks@[i].memory_set);
            assert(tm_mid.inner.tasks@[i] == tm_m.inner.tasks@[i]);
            let _t2 = tm_m.inner.tasks@[i].trap_cx_ppn;
            assert(tm_m.inner.tasks@[i].memory_set == pre_tm.inner.tasks@[i].memory_set);
        }
        assert forall|i: int|
            0 <= i < tm.num_app implies #[trigger] tm.inner.tasks@[i].task_cx
            == pre_tm.inner.tasks@[i].task_cx && tm.inner.tasks@[i].base_size
            == pre_tm.inner.tasks@[i].base_size by {
            let _t = tm.inner.tasks@[i].trap_cx_ppn;
            assert(tm.inner.tasks@[i].task_cx == tm_mid.inner.tasks@[i].task_cx);
            assert(tm.inner.tasks@[i].base_size == tm_mid.inner.tasks@[i].base_size);
            if i != current as int {
                assert(tm_mid.inner.tasks@[i] == tm_m.inner.tasks@[i]);
            }
            let _t2 = tm_m.inner.tasks@[i].trap_cx_ppn;
            assert(tm_m.inner.tasks@[i].task_cx == pre_tm.inner.tasks@[i].task_cx);
            assert(tm_m.inner.tasks@[i].base_size == pre_tm.inner.tasks@[i].base_size);
        }
    }
    r
}

/// A task space built from fresh frames and then torn down, across a
/// kernel-stack push, leaves live exactly the old pages plus the
/// kernel stack's new frames.
proof fn lemma_stack_abort_accounting(
    pre_a: StackFrameAllocator,
    a_mid: StackFrameAllocator,
    a_now: StackFrameAllocator,
    a_fin: StackFrameAllocator,
    ms: MemorySet,
    ks_before: MemorySet,
    ks_now: MemorySet,
)
    requires
        forall|q: u64| pre_a.live(q) ==> a_mid.live(q),
        forall|q: u64| #[trigger] ms.owns(q) ==> !pre_a.live(q) && a_mid.live(q),
        forall|q: u64| a_mid.live(q) && !pre_a.live(q) ==> ms.owns(q),
        forall|q: u64| a_mid.live(q) ==> a_now.live(q),
        forall|q: u64| #[trigger] ks_before.owns(q) ==> a_mid.live(q) && ks_now.owns(q),
        forall|q: u64|
            #[trigger] ks_now.owns(q) && !ks_before.owns(q) ==> !a_mid.live(q) && a_now.live(q),
        forall|q: u64| a_now.live(q) && !a_mid.live(q) ==> ks_now.owns(q),
        forall|q: u64| #[trigger] a_fin.live(q) == (a_now.live(q) && !ms.owns(q)),
    ensures
        forall|q: u64|
            #[trigger] a_fin.live(q) == (pre_a.live(q) || (ks_now.owns(q) && !ks_before.owns(
                q,
            ))),
{
    assert forall|q: u64|
        #[trigger] a_fin.live(q) == (pre_a.live(q) || (ks_now.owns(q) && !ks_before.owns(
            q,
        ))) by {
        if pre_a.live(q) {
            assert(a_now.live(q) && !ms.owns(q));
        }
        if ks_now.owns(q) && !ks_before.owns(q) {
            assert(!a_mid.live(q) && a_now.live(q));
            assert(!ms.owns(q));
        }
        if a_fin.live(q) && !pre_a.live(q) {
            if a_mid.live(q) {
                assert(ms.owns(q));
            } else {
                assert(ks_now.owns(q) && !ks_before.owns(q));
            }
        }
    }
}

/// Swaps the address space of task `i` with `other`.
fn swap_memory_set(tasks: &mut Vec<TaskControlBlock>, i: usize, other: &mut MemorySet)
    requires
        i < old(tasks)@.len(),
    ensures
        final(tasks)@.len() == old(tasks)@.len(),
        *final(other) == old(tasks)@[i as int].memory_set,
        final(tasks)@[i as int].memory_set == *old(other),
        final(tasks)@[i as int].status == old(tasks)@[i as int].status,
        final(tasks)@[i as int].task_cx == old(tasks)@[i as int].task_cx,
        final(tasks)@[i as int].trap_cx_ppn == old(tasks)@[i as int].trap_cx_ppn,
        final(tasks)@[i as int].base_size == old(tasks)@[i as int].base_size,
        forall|k: int|
            0 <= k < old(tasks)@.len() && k != i ==> final(tasks)@[k] == old(tasks)@[k],
{
    let t = &mut tasks[i];
    core::mem::swap(&mut t.memory_set, other);
}

/// Starts the first task: slot 0 is dispatched.
pub fn start_run_first_task(tm: &mut TaskManger)
    requires
        old(tm).basic_wf(),
    ensures
        final(tm).basic_wf(),
        final(tm).cur() == 0,
        final(tm).status_of(0) == TaskStatus::Running,
        forall|i: int|
            0 < i < final(tm).num_app ==> final(tm).status_of(i) == old(tm).status_of(i),
        final(tm).num_app == old(tm).num_app,
        forall|i: int|
            0 <= i < final(tm).num_app ==> #[trigger] final(tm).inner.tasks@[i].trap_cx_ppn == old(tm).inner.tasks@[i].trap_cx_ppn && final(tm).inner.tasks@[i].memory_set == old(tm).inner.tasks@[i].memory_set
                && final(tm).inner.tasks@[i].task_cx == old(tm).inner.tasks@[i].task_cx
                && final(tm).inner.tasks@[i].base_size == old(tm).inner.tasks@[i].base_size,
{
    tm.run_first_task();
    proof {
        assert forall|i: int|
            0 <= i < tm.num_app implies #[trigger] tm.inner.tasks@[i].trap_cx_ppn == old(tm).inner.tasks@[i].trap_cx_ppn
            && tm.inner.tasks@[i].memory_set == old(tm).inner.tasks@[i].memory_set by {
            assert(tm.inner.tasks@[i].trap_cx_ppn == old(tm).inner.tasks@[i].trap_cx_ppn);
        }
    }
}

/// The current slot index.
pub fn current_taskinfo(tm: &TaskManger) -> (r: usize)
    ensures
        r as int == tm.cur(),
{
    tm.get_current_task()
}

/// The SV39 token of the current task's address space.
pub fn current_tasktoken(tm: &TaskManger) -> (r: u64)
    requires
        tm.basic_wf(),
        tm.inner.tasks@[tm.cur()].memory_set.pt().wf(),
    ensures
        r == 0x8000_0000_0000_0000u64 + tm.inner.tasks@[tm.cur()].memory_set.pt().spec_root(),
{
    tm.get_current_token()
}

/// The current task's saved trap context.
pub fn current_trap_cx(tm: &TaskManger, mem: &PhysMemory) -> (r: TrapContext)
    requires
        tm.basic_wf(),
        mem.wf(),
        mem.is_trap(tm.inner.tasks@[tm.cur()].trap_cx_ppn.0),
    ensures
        cx_eq(r, mem.trap_cx(tm.inner.tasks@[tm.cur()].trap_cx_ppn.0)),
        r.wf(),
{
    tm.get_current_trap_cx(mem)
}

impl TaskControlBlock {
    /// Loads an application image into a fresh task: builds its address
    /// space from the ELF image, plants its kernel stack in the kernel
    /// address space at the slot's fixed position, and seeds its trap
    /// context so the first dispatch enters the image at its entry point
    /// in user mode.
    #[verifier::rlimit(100)]
    #[verifier::spinoff_prover]
    pub fn new(
        elf_data: &Vec<u8>,
        trampoline: crate::address::PhysAddr,
        app_id: u64,
        allocator: &mut StackFrameAllocator,
        mem: &mut PhysMemory,
        kernel_space: &mut MemorySet,
        kernel_token: u64,
        trap_handler_va: u64,
        trap_return_va: u64,
    ) -> (r: Result<TaskControlBlock, KernelError>)
        requires
            app_id <= MAX_APP_NUM,
            old(allocator).wf(),
            old(mem).wf(),
            old(kernel_space).wf_frames(*old(allocator)),
            old(allocator).spec_start() >= old(mem).spec_base(),
            old(allocator).spec_end() <= old(mem).spec_base() + old(mem).spec_len(),
            trampoline.wf(),
        ensures
            final(allocator).wf(),
            final(mem).wf(),
            final(allocator).spec_start() == old(allocator).spec_start(),
            final(allocator).spec_end() == old(allocator).spec_end(),
            final(mem).spec_base() == old(mem).spec_base(),
            final(mem).spec_len() == old(mem).spec_len(),
            final(kernel_space).wf_frames(*final(allocator)),
            forall|q: u64| old(allocator).live(q) ==> final(allocator).live(q),
            forall|q: u64| old(kernel_space).owns(q) ==> final(kernel_space).owns(q),
            forall|v: u64|
                !(kernel_stack_first_page(app_id) <= v < kernel_stack_end_page(app_id))
                    ==> #[trigger] final(kernel_space).translate(v) == old(kernel_space).translate(v),
            r matches Ok(tcb) ==> {
                &&& final(allocator).free_count() >= old(allocator).free_count() - (
                crate::memory_set::elf_budget(elf_data@) + 6)
                &&& tcb.status == TaskStatus::Ready
                &&& tcb.task_cx.wf()
                &&& tcb.task_cx.ra == trap_return_va
                &&& tcb.memory_set.wf_frames(*final(allocator))
                &&& final(mem).is_trap(tcb.trap_cx_ppn.0)
                &&& final(mem).in_range(tcb.trap_cx_ppn.0)
                &&& tcb.memory_set.owns(tcb.trap_cx_ppn.0)
                &&& final(mem).trap_cx(tcb.trap_cx_ppn.0).wf()
                &&& final(mem).trap_cx(tcb.trap_cx_ppn.0).sepc == crate::elf::spec_entry(
                    elf_data@,
                )
                &&& final(mem).trap_cx(tcb.trap_cx_ppn.0).x@[2] == tcb.base_size
                &&& final(mem).trap_cx(tcb.trap_cx_ppn.0).kernel_satp == kernel_token
                &&& final(mem).trap_cx(tcb.trap_cx_ppn.0).trap_handler == trap_handler_va
                &&& final(mem).trap_cx(tcb.trap_cx_ppn.0).sstatus_spp_user
                &&& (tcb.memory_set.translate((VPN_LIMIT - 1) as u64) matches Some(e)
                    && e.spec_ppn() == trampoline.0 / 4096 && e.spec_flags() == 11)
                &&& forall|q: u64|
                    tcb.memory_set.owns(q) ==> !old(allocator).live(q) && final(allocator).live(
                        q,
                    )
                &&& forall|q: u64|
                    final(kernel_space).owns(q) && !old(kernel_space).owns(q) ==> !old(allocator).live(q)
                &&& forall|q: u64| !(tcb.memory_set.owns(q) && final(kernel_space).owns(q))
                &&& forall|p: u64|
                    old(mem).in_range(p) && old(allocator).live(p) && !tcb.memory_set.owns(p)
                        ==> #[trigger] final(mem).spec_frame(p) == old(mem).spec_frame(p)
            },
            r matches Err(e) ==> e == KernelError::InvalidElf || e == KernelError::AlreadyMapped
                || e == KernelError::FrameExhausted,
            r is Err ==> forall|q: u64|
                final(allocator).live(q) == (old(allocator).live(q) || (final(kernel_space).owns(
                    q,
                ) && !old(kernel_space).owns(q))),
            crate::elf::elf_ok(elf_data@) && crate::memory_set::elf_geometry_ok(elf_data@)
                && crate::memory_set::segs_sorted(elf_data@) && old(allocator).free_count()
                >= crate::memory_set::elf_budget(elf_data@) + 6 && (forall|v: u64|
                kernel_stack_first_page(app_id) <= v < kernel_stack_end_page(app_id)
                    ==> #[trigger] old(kernel_space).translate(v) is None) ==> r is Ok,
    {
        let ghost pre_a = *old(allocator);
        let ghost pre_mem = *old(mem);
        let ghost pre_ks = *old(kernel_space);
        let ghost success_owed = crate::elf::elf_ok(elf_data@) && crate::memory_set::elf_geometry_ok(
            elf_data@,
        ) && crate::memory_set::segs_sorted(elf_data@) && old(allocator).free_count()
            >= crate::memory_set::elf_budget(elf_data@) + 6 && (forall|v: u64|
            kernel_stack_first_page(app_id) <= v < kernel_stack_end_page(app_id)
                ==> #[trigger] old(kernel_space).translate(v) is None);
        let (memory_set, user_sp, entry_point) = match MemorySet::load_elf(
            elf_data,
            trampoline,
            allocator,
            mem,
        ) {
            Ok(t) => t,
            Err(e) => {
                proof {
                    if success_owed {
                        assert(false);
                    }
                }
                proof {
                    assert forall|q: u64| pre_ks.owns(q) implies allocator.live(q) == pre_a.live(
                        q,
                    ) by {
                        crate::memory_set::lemma_ms_owns_live(pre_ks, pre_a, q);
                    }
                    crate::memory_set::lemma_wf_frames_agree(pre_ks, pre_a, *allocator);
                }
                return Err(e);
            },
        };
        let trap_vpn = VirtAddr::new(TRAP_CONTEXT).floor();
        proof {
            assert(trap_vpn.0 == VPN_LIMIT - 2);
        }
        let trap_cx_ppn = match memory_set.get_pte(trap_vpn) {
            Ok(pte) => pte.ppn(),
            Err(_) => {
                proof {
                    assert(false);
                }
                return Err(KernelError::NotMapped);
            },
        };
        let ghost a_mid = *allocator;
        let ghost mem_mid = *mem;
        let (kernel_stack_bottom, kernel_stack_top) = crate::config::kernel_stack_position(
            app_id,
        );
        proof {
            assert forall|q: u64| pre_ks.owns(q) implies a_mid.live(q) == pre_a.live(q) by {
                crate::memory_set::lemma_ms_owns_live(pre_ks, pre_a, q);
            }
            crate::memory_set::lemma_wf_frames_agree(pre_ks, pre_a, a_mid);
            lemma_kernel_stack_layout(app_id);
        }
        let ghost ks_before = *kernel_space;
        match kernel_space.push_kernel_stack_for_app(
            VirtAddr::new(kernel_stack_bottom),
            VirtAddr::new(kernel_stack_top),
            crate::memory_set::MapPermission::from_bits(
                crate::memory_set::MAP_R + crate::memory_set::MAP_W,
            ),
            allocator,
            mem,
        ) {
            Ok(_) => {},
            Err(e) => {
                proof {
                    assert forall|q: u64|
                        #[trigger] memory_set.owns(q) implies allocator.live(q) by {
                        crate::memory_set::lemma_ms_owns_live(memory_set, a_mid, q);
                    }
                }
                let ghost ms_val = memory_set;
                proof {
                    assert forall|q: u64| ms_val.owns(q) implies allocator.live(q) == a_mid.live(
                        q,
                    ) by {
                        crate::memory_set::lemma_ms_owns_live(ms_val, a_mid, q);
                    }
                    crate::memory_set::lemma_wf_frames_agree(ms_val, a_mid, *allocator);
                }
                let ghost a_now = *allocator;
                memory_set.release(allocator);
                proof {
                    assert forall|q: u64|
                        #[trigger] ks_before.owns(q) implies a_mid.live(q) && kernel_space.owns(
                        q,
                    ) by {
                        crate::memory_set::lemma_ms_owns_live(ks_before, a_mid, q);
                    }
                    assert forall|q: u64|
                        kernel_space.owns(q) implies allocator.live(q) == a_now.live(q) by {
                        assert(!ms_val.owns(q)) by {
                            if ms_val.owns(q) {
                                crate::memory_set::lemma_ms_owns_live(ms_val, a_mid, q);
                                assert(!old(allocator).live(q));
                                if ks_before.owns(q) {
                                    crate::memory_set::lemma_ms_owns_live(
                                        ks_before,
                                        *old(allocator),
                                        q,
                                    );
                                } else {
                                    assert(!a_mid.live(q));
                                }
                            }
                        }
                    }
                    crate::memory_set::lemma_wf_frames_agree(*kernel_space, a_now, *allocator);
                    lemma_stack_abort_accounting(
                        *old(allocator),
                        a_mid,
                        a_now,
                        *allocator,
                        ms_val,
                        ks_before,
                        *kernel_space,
                    );
                }
                return Err(e);
            },
        }
        let task_control_block = TaskControlBlock {
            status: TaskStatus::Ready,
            task_cx: TaskContext::goto_trap_return(kernel_stack_top, trap_return_va),
            memory_set,
            trap_cx_ppn,
            base_size: user_sp,
        };
        let cx = TrapContext::app_init_context(
            entry_point,
            user_sp,
            kernel_token,
            kernel_stack_top,
            trap_handler_va,
        );
        task_control_block.set_trap_cx(mem, cx);
        proof {
            let ms = task_control_block.memory_set;
            // the kernel-stack frames are disjoint from the new space's own
            assert forall|q: u64| !(ms.owns(q) && final(kernel_space).owns(q)) by {
                if ms.owns(q) && final(kernel_space).owns(q) {
                    if pre_ks.owns(q) {
                        assert(pre_a.live(q)) by {
                            crate::memory_set::lemma_ms_owns_live(pre_ks, pre_a, q);
                        }
                    } else {
                        assert(!a_mid.live(q));
                        assert(a_mid.live(q)) by {
                            crate::memory_set::lemma_ms_owns_live(ms, a_mid, q);
                        }
                    }
                }
            }
            // the new space's frames survive the later steps
            assert(ms.wf_frames(*final(allocator))) by {
                assert forall|q: u64| ms.owns(q) implies final(allocator).live(q) == a_mid.live(
                    q,
                ) by {
                    if !a_mid.live(q) {
                        crate::memory_set::lemma_ms_owns_live(ms, a_mid, q);
                    }
                }
                crate::memory_set::lemma_wf_frames_agree(ms, a_mid, *final(allocator));
            }
        }
        Ok(task_control_block)
    }
}

/// The concrete pages of slot `app_id`'s kernel stack: two pages, one
/// fixed stride per slot below the trampoline, descending as the slot
/// number grows.
pub proof fn lemma_kernel_stack_pages(app_id: u64)
    requires
        app_id <= MAX_APP_NUM,
    ensures
        kernel_stack_first_page(app_id) == crate::address::VPN_LIMIT - 3 - app_id * 0x2001,
        kernel_stack_end_page(app_id) == crate::address::VPN_LIMIT - 1 - app_id * 0x2001,
{
    lemma_kernel_stack_layout(app_id);
    let d = app_id * 0x2001000;
    assert(app_id * 0x2001 * 4096 == d) by (nonlinear_arith)
        requires
            d == app_id * 0x2001000,
    ;
    let top_m = 0x7FFFFFF000 - d;
    let bot_m = top_m - crate::config::KERNEL_STACK_SIZE;
    lemma_fundamental_div_mod_converse(
        bot_m as int,
        4096,
        crate::address::VPN_LIMIT - 3 - app_id * 0x2001,
        0,
    );
    lemma_fundamental_div_mod_converse(
        top_m + 4095,
        4096,
        crate::address::VPN_LIMIT - 1 - app_id * 0x2001,
        4095,
    );
}

/// Where the kernel stack of slot `app_id` lands after truncation to
/// the 39-bit virtual width: an aligned two-page stack, one stride per
/// slot below the trampoline.
pub proof fn lemma_kernel_stack_layout(app_id: u64)
    requires
        app_id <= MAX_APP_NUM,
    ensures
        (crate::config::TRAMPOLINE - app_id * ((crate::config::KERNEL_STACK_SIZE + 1) * 4096))
            % (crate::address::VA_LIMIT as int) == 0x7FFFFFF000 - app_id * 0x2001000,
        (crate::config::TRAMPOLINE - app_id * ((crate::config::KERNEL_STACK_SIZE + 1) * 4096)
            - crate::config::KERNEL_STACK_SIZE) % (crate::address::VA_LIMIT as int)
            == 0x7FFFFFF000 - app_id * 0x2001000 - crate::config::KERNEL_STACK_SIZE,
        app_id * 0x2001000 <= 20 * 0x2001000,
{
    let d = app_id * 0x2001000u64;
    assert(app_id * 0x2001000 <= 20 * 0x2001000) by (nonlinear_arith)
        requires
            app_id <= 20,
    ;
    assert((crate::config::KERNEL_STACK_SIZE + 1) * 4096 == 0x2001000);
    assert(app_id * ((crate::config::KERNEL_STACK_SIZE + 1) * 4096) == d);
    let m = crate::address::VA_LIMIT as int;
    let top = crate::config::TRAMPOLINE - d;
    assert(m == 0x8000000000);
    assert(d <= 0x28014000);
    assert(0 <= 0x7FFFFFF000 - d < m);
    assert(top == 0x1FFFFFF * m + (0x7FFFFFF000 - d)) by {
        assert(0x1FFFFFF * m == 0xFFFFFF8000000000);
    }
    lemma_fundamental_div_mod_converse(
        top as int,
        m,
        0x1FFFFFF,
        0x7FFFFFF000 - d,
    );
    let bot = top - crate::config::KERNEL_STACK_SIZE;
    lemma_fundamental_div_mod_converse(
        bot as int,
        m,
        0x1FFFFFF,
        0x7FFFFFF000 - d - crate::config::KERNEL_STACK_SIZE,
    );
}

/// First virtual page of the kernel stack of slot `app_id`.
pub open spec fn kernel_stack_first_page(app_id: u64) -> int {
    ((crate::config::TRAMPOLINE - app_id * ((crate::config::KERNEL_STACK_SIZE + 1) * 4096)
        - crate::config::KERNEL_STACK_SIZE) % (crate::address::VA_LIMIT as int)) / 4096
}

/// One past the last virtual page of the kernel stack of slot `app_id`.
pub open spec fn kernel_stack_end_page(app_id: u64) -> int {
    (((crate::config::TRAMPOLINE - app_id * ((crate::config::KERNEL_STACK_SIZE + 1) * 4096))
        % (crate::address::VA_LIMIT as int)) + 4095) / 4096
}

} // verus!
