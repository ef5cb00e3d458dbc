//! The kernel's whole state as one explicit value: physical memory, the
//! frame allocator, the kernel address space, the task table and the
//! clock — the boot-time singletons of a real machine, modelled as data
//! behind a single exclusive owner.

use vstd::prelude::*;

use crate::address::PhysAddr;
use crate::config::{MAX_APP_NUM, MEMORY_END};
use crate::frame_allocator::{init_frame_allocator, StackFrameAllocator};
use crate::memory_set::{KernelLayout, MemorySet};
use crate::phys_mem::PhysMemory;
use crate::task::{TaskControlBlock, TaskManger, TaskMangerInner, TaskStatus};
use crate::timer::Timer;
use crate::KernelError;

verus! {

/// The whole kernel state: initialised once at boot, then driven one
/// trap at a time.
pub struct Kernel {
    pub allocator: StackFrameAllocator,
    pub mem: PhysMemory,
    pub kernel_space: MemorySet,
    pub task_manager: TaskManger,
    pub timer: Timer,
    /// Physical address of the trampoline code page, mapped at the
    /// highest virtual page of the kernel space and of every live
    /// task's space alike.
    pub trampoline: PhysAddr,
}

/// Frames that suffice to load the first `n` application images, each
/// with its kernel stack.
pub open spec fn apps_budget(apps: Seq<Vec<u8>>, n: int) -> int
    decreases n,
{
    if n <= 0 {
        0
    } else {
        apps_budget(apps, n - 1) + crate::memory_set::elf_budget(apps[n - 1]@) + 6
    }
}

/// Every image in the set is well-formed, fits the space, and keeps its
/// loadable segments in ascending order.
pub open spec fn apps_loadable(apps: Seq<Vec<u8>>) -> bool {
    forall|k: int|
        0 <= k < apps.len() ==> crate::elf::elf_ok(#[trigger] apps[k]@)
            && crate::memory_set::elf_geometry_ok(apps[k]@) && crate::memory_set::segs_sorted(
            apps[k]@,
        )
}

/// The application budget is a sum of per-image budgets, never
/// negative.
proof fn lemma_apps_budget_nonneg(apps: Seq<Vec<u8>>, n: int)
    requires
        0 <= n <= apps.len(),
    ensures
        apps_budget(apps, n) >= 0,
    decreases n,
{
    if n > 0 {
        lemma_apps_budget_nonneg(apps, n - 1);
        crate::memory_set::lemma_elf_budget_nonneg(apps[n - 1]@);
    }
}

/// Prefixes of the application budget never exceed the whole.
proof fn lemma_apps_budget_bound(apps: Seq<Vec<u8>>, n: int, total: int)
    requires
        0 <= n <= total <= apps.len(),
    ensures
        apps_budget(apps, n) <= apps_budget(apps, total),
        apps_budget(apps, n) + (if n < total {
            crate::memory_set::elf_budget(apps[n]@) + 6
        } else {
            0
        }) <= apps_budget(apps, total),
    decreases total - n,
{
    if n < total {
        lemma_apps_budget_bound(apps, n + 1, total);
        crate::memory_set::lemma_elf_budget_nonneg(apps[n]@);
    }
}

/// Lower bound, in pages, under which no kernel stack of a slot before
/// `i` can lie: the stacks descend one stride per slot from just below
/// the trampoline.
pub open spec fn stack_floor(i: int) -> int {
    if i <= 0 {
        crate::address::VPN_LIMIT - 1
    } else {
        crate::task::kernel_stack_first_page((i - 1) as u64)
    }
}

/// With every mapped kernel page either an identity-mapped section, the
/// trampoline, or an already-placed stack, the next slot's stack pages
/// are still unmapped.
proof fn lemma_kernel_stack_ready(layout: KernelLayout, i: u64, ks: MemorySet)
    requires
        layout.wf(),
        i <= MAX_APP_NUM,
        forall|v: u64|
            (#[trigger] ks.translate(v)) is Some ==> layout.in_text(v) || layout.in_rodata(v)
                || layout.in_data(v) || layout.in_bss(v) || layout.in_free(v) || v
                == crate::address::VPN_LIMIT - 1 || v >= stack_floor(i as int),
    ensures
        forall|v: u64|
            crate::task::kernel_stack_first_page(i) <= v < crate::task::kernel_stack_end_page(i)
                ==> #[trigger] ks.translate(v) is None,
{
    crate::task::lemma_kernel_stack_pages(i);
    if i > 0 {
        crate::task::lemma_kernel_stack_pages((i - 1) as u64);
    }
    assert forall|v: u64|
        crate::task::kernel_stack_first_page(i) <= v < crate::task::kernel_stack_end_page(i)
            implies #[trigger] ks.translate(v) is None by {
        if ks.translate(v) is Some {
            assert(i * 0x2001 <= 20 * 0x2001) by (nonlinear_arith)
                requires
                    i <= 20,
            ;
            if layout.in_text(v) || layout.in_rodata(v) || layout.in_data(v) || layout.in_bss(v)
                || layout.in_free(v) {
                crate::memory_set::lemma_sections_below(layout, v);
            }
        }
    }
}

impl Kernel {
    /// The kernel-wide invariant: allocator and memory agree on the
    /// managed range, the kernel space and every live task's space are
    /// well-accounted, and no frame has two owners.
    pub open spec fn inv(self) -> bool {
        &&& self.allocator.wf()
        &&& self.mem.wf()
        &&& self.allocator.spec_start() >= self.mem.spec_base()
        &&& self.allocator.spec_end() <= self.mem.spec_base() + self.mem.spec_len()
        &&& self.kernel_space.wf_frames(self.allocator)
        &&& self.task_manager.basic_wf()
        &&& self.task_manager.tasks_ok(self.allocator, self.mem)
        &&& forall|i: int, q: u64|
            0 <= i < self.task_manager.num_app
                ==> !(#[trigger] self.task_manager.inner.tasks@[i].memory_set.owns(q)
                && self.kernel_space.owns(q))
        &&& (self.kernel_space.translate((crate::address::VPN_LIMIT - 1) as u64) matches Some(e)
            && e.spec_ppn() == self.trampoline.0 / 4096 && e.spec_flags() == 11)
        &&& forall|i: int|
            0 <= i < self.task_manager.num_app && self.task_manager.status_of(i)
                != TaskStatus::Exited ==> ((#[trigger] self.task_manager.inner.tasks@[i]).memory_set.translate(
                (crate::address::VPN_LIMIT - 1) as u64,
            ) matches Some(e) && e.spec_ppn() == self.trampoline.0 / 4096 && e.spec_flags()
                == 11)
    }

    /// Status of task `i`.
    pub open spec fn status_of(self, i: int) -> TaskStatus {
        self.task_manager.status_of(i)
    }

    /// The current task slot.
    pub open spec fn cur(self) -> int {
        self.task_manager.cur()
    }

    /// Boots the kernel: readies the allocator and physical memory over
    /// the range past the kernel image, builds the kernel address space,
    /// and loads one task per application image.  Every loaded task
    /// starts `Ready`, with slot 0 current.
    #[verifier::rlimit(100)]
    pub fn new(
        layout: &KernelLayout,
        apps: &Vec<Vec<u8>>,
        trap_handler_va: u64,
        trap_return_va: u64,
    ) -> (r: Result<Kernel, KernelError>)
        requires
            layout.wf(),
            layout.kernel_end >= 4096,
            layout.memory_end == MEMORY_END,
            0 < apps@.len() <= MAX_APP_NUM,
        ensures
            r matches Ok(k) ==> {
                &&& k.inv()
                &&& k.task_manager.num_app == apps@.len()
                &&& k.cur() == 0
                &&& forall|i: int|
                    0 <= i < apps@.len() ==> #[trigger] k.status_of(i) == TaskStatus::Ready
                &&& k.timer.spec_time() == 0
            },
            r matches Err(e) ==> e == KernelError::InvalidElf || e == KernelError::AlreadyMapped
                || e == KernelError::FrameExhausted,
            apps_loadable(apps@) && (layout.memory_end as int) / 4096 - (layout.kernel_end + 4095)
                / 4096 >= layout.page_budget() + apps_budget(apps@, apps@.len() as int)
                ==> r is Ok,
    {
        let ghost pool = (layout.memory_end as int) / 4096 - (layout.kernel_end + 4095) / 4096;
        let ghost success_owed = apps_loadable(apps@) && pool >= layout.page_budget() + apps_budget(
            apps@,
            apps@.len() as int,
        );
        proof {
            if success_owed {
                lemma_apps_budget_nonneg(apps@, apps@.len() as int);
                crate::memory_set::lemma_kernel_page_budget_nonneg(*layout);
            }
        }
        let mut allocator = StackFrameAllocator::new();
        let kernel_end_pa = PhysAddr::new(layout.kernel_end);
        let memory_end_pa = PhysAddr::new(layout.memory_end);
        proof {
            assert(memory_end_pa.0 == MEMORY_END);
            assert(kernel_end_pa.0 == layout.kernel_end);
        }
        if kernel_end_pa.0 > memory_end_pa.0 {
            proof {
                if success_owed {
                    vstd::arithmetic::div_mod::lemma_div_is_ordered(
                        layout.memory_end as int,
                        layout.kernel_end as int,
                        4096,
                    );
                    assert(false);
                }
            }
            return Err(KernelError::FrameExhausted);
        }
        let begin_ppn = kernel_end_pa.ceil();
        let end_ppn = memory_end_pa.floor();
        if begin_ppn.0 > end_ppn.0 {
            proof {
                if success_owed {
                    assert(false);
                }
            }
            return Err(KernelError::FrameExhausted);
        }
        init_frame_allocator(&mut allocator, kernel_end_pa, memory_end_pa);
        proof {
            assert(allocator.free_count() == pool);
        }
        let mut mem = PhysMemory::new(begin_ppn, end_ppn);
        let mut kernel_space = match MemorySet::new_kernel(layout, &mut allocator, &mut mem) {
            Ok(ks) => ks,
            Err(e) => {
                proof {
                    if success_owed {
                        assert(false);
                    }
                }
                return Err(e);
            },
        };
        let kernel_token = kernel_space.token();
        let mut tasks: Vec<TaskControlBlock> = Vec::new();
        let mut i: usize = 0;
        while i < apps.len()
            invariant
                0 <= i <= apps@.len(),
                apps@.len() <= MAX_APP_NUM,
                tasks@.len() == i,
                allocator.wf(),
                mem.wf(),
                allocator.spec_start() >= mem.spec_base(),
                allocator.spec_end() <= mem.spec_base() + mem.spec_len(),
                kernel_space.wf_frames(allocator),
                forall|k: int|
                    0 <= k < i ==> (#[trigger] tasks@[k]).status == TaskStatus::Ready
                        && tasks@[k].memory_set.wf_frames(allocator) && mem.is_trap(
                        tasks@[k].trap_cx_ppn.0,
                    ) && tasks@[k].memory_set.owns(tasks@[k].trap_cx_ppn.0),
                forall|k: int|
                    0 <= k < i ==> ((#[trigger] tasks@[k]).memory_set.translate(
                        (crate::address::VPN_LIMIT - 1) as u64,
                    ) matches Some(e) && e.spec_ppn() == layout.trampoline / 4096
                        && e.spec_flags() == 11),
                kernel_space.translate((crate::address::VPN_LIMIT - 1) as u64) matches Some(e)
                    && e.spec_ppn() == layout.trampoline / 4096 && e.spec_flags() == 11,
                layout.wf(),
                pool == (layout.memory_end as int) / 4096 - (layout.kernel_end + 4095) / 4096,
                success_owed == (apps_loadable(apps@) && pool >= layout.page_budget() + apps_budget(
                    apps@,
                    apps@.len() as int,
                )),
                allocator.free_count() >= pool - layout.page_budget() - apps_budget(
                    apps@,
                    i as int,
                ),
                forall|v: u64|
                    (#[trigger] kernel_space.translate(v)) is Some ==> layout.in_text(v)
                        || layout.in_rodata(v) || layout.in_data(v) || layout.in_bss(v)
                        || layout.in_free(v) || v == crate::address::VPN_LIMIT - 1 || v
                        >= stack_floor(i as int),
                forall|k: int, q: u64|
                    0 <= k < i ==> !(#[trigger] tasks@[k].memory_set.owns(q)
                        && kernel_space.owns(q)),
                forall|k: int, l: int, q: u64|
                    0 <= k < l < i ==> !(#[trigger] tasks@[k].memory_set.owns(q)
                        && #[trigger] tasks@[l].memory_set.owns(q)),
                forall|k: int, q: u64|
                    0 <= k < i && #[trigger] tasks@[k].memory_set.owns(q) ==> allocator.live(q),
            decreases apps@.len() - i,
        {
            let ghost a0 = allocator;
            let ghost mem0 = mem;
            let ghost ks0 = kernel_space;
            let ghost tasks0 = tasks@;
            let tcb = match TaskControlBlock::new(
                &apps[i],
                PhysAddr::new(layout.trampoline),
                i as u64,
                &mut allocator,
                &mut mem,
                &mut kernel_space,
                kernel_token,
                trap_handler_va,
                trap_return_va,
            ) {
                Ok(t) => t,
                Err(e) => {
                    proof {
                        if success_owed {
                            lemma_kernel_stack_ready(*layout, i as u64, ks0);
                            lemma_apps_budget_bound(apps@, i as int, apps@.len() as int);
                            assert(false);
                        }
                    }
                    return Err(e);
                },
            };
            proof {
                lemma_apps_budget_bound(apps@, i as int, apps@.len() as int);
                // nothing below the new stack was touched, and the stacks
                // only descend
                crate::task::lemma_kernel_stack_pages(i as u64);
                if i > 0 {
                    crate::task::lemma_kernel_stack_pages((i - 1) as u64);
                }
                assert forall|v: u64|
                    (#[trigger] kernel_space.translate(v)) is Some implies layout.in_text(v)
                    || layout.in_rodata(v) || layout.in_data(v) || layout.in_bss(v)
                    || layout.in_free(v) || v == crate::address::VPN_LIMIT - 1 || v
                    >= stack_floor(i as int + 1) by {
                    if !(crate::task::kernel_stack_first_page(i as u64) <= v
                        < crate::task::kernel_stack_end_page(i as u64)) {
                        assert(kernel_space.translate(v) == ks0.translate(v));
                        assert((i as int) * 0x2001 <= 20 * 0x2001) by (nonlinear_arith)
                            requires
                                i <= 20,
                        ;
                    }
                }
                // the kernel-space trampoline survives the new kernel stack
                crate::task::lemma_kernel_stack_layout(i as u64);
                assert(crate::task::kernel_stack_end_page(i as u64) <= crate::address::VPN_LIMIT
                    - 1);
                assert(kernel_space.translate((crate::address::VPN_LIMIT - 1) as u64) == ks0.translate(
                    (crate::address::VPN_LIMIT - 1) as u64,
                ));
                // earlier tasks keep their accounting and trap frames
                assert forall|k: int|
                    0 <= k < i implies (#[trigger] tasks@[k]).status == TaskStatus::Ready
                    && tasks@[k].memory_set.wf_frames(allocator) && mem.is_trap(
                    tasks@[k].trap_cx_ppn.0,
                ) && tasks@[k].memory_set.owns(tasks@[k].trap_cx_ppn.0) by {
                    let ms_k = tasks@[k].memory_set;
                    assert forall|q: u64| ms_k.owns(q) implies allocator.live(q) == a0.live(
                        q,
                    ) by {
                        crate::memory_set::lemma_ms_owns_live(ms_k, a0, q);
                    }
                    crate::memory_set::lemma_wf_frames_agree(ms_k, a0, allocator);
                    assert(a0.live(tasks@[k].trap_cx_ppn.0)) by {
                        crate::memory_set::lemma_ms_owns_live(
                            ms_k,
                            a0,
                            tasks@[k].trap_cx_ppn.0,
                        );
                    }
                    assert(mem.spec_frame(tasks@[k].trap_cx_ppn.0) == mem0.spec_frame(
                        tasks@[k].trap_cx_ppn.0,
                    ));
                }
                // the new task's frames are disjoint from everything loaded
                assert forall|k: int, q: u64|
                    0 <= k < i implies !(#[trigger] tasks@[k].memory_set.owns(q)
                    && tcb.memory_set.owns(q)) by {
                    if tasks@[k].memory_set.owns(q) && tcb.memory_set.owns(q) {
                        assert(a0.live(q)) by {
                            crate::memory_set::lemma_ms_owns_live(tasks@[k].memory_set, a0, q);
                        }
                        assert(!a0.live(q));
                    }
                }
            }
            tasks.push(tcb);
            proof {
                assert forall|k: int, q: u64|
                    0 <= k < i + 1 implies !(#[trigger] tasks@[k].memory_set.owns(q)
                    && kernel_space.owns(q)) by {
                    if k < i {
                        if tasks@[k].memory_set.owns(q) && kernel_space.owns(q) {
                            assert(tasks0[k].memory_set.owns(q));
                            if ks0.owns(q) {
                            } else {
                                assert(!a0.live(q));
                                assert(a0.live(q)) by {
                                    crate::memory_set::lemma_ms_owns_live(
                                        tasks0[k].memory_set,
                                        a0,
                                        q,
                                    );
                                }
                            }
                        }
                    }
                }
                assert forall|k: int, q: u64|
                    0 <= k < i + 1 && #[trigger] tasks@[k].memory_set.owns(q)
                    implies allocator.live(q) by {
                    crate::memory_set::lemma_ms_owns_live(tasks@[k].memory_set, allocator, q);
                }
            }
            i = i + 1;
        }
        let task_manager = TaskManger {
            num_app: apps.len() as u64,
            inner: TaskMangerInner { tasks, current_task: 0 },
        };
        let k = Kernel {
            allocator,
            mem,
            kernel_space,
            task_manager,
            timer: Timer::new(),
            trampoline: PhysAddr::new(layout.trampoline),
        };
        proof {
            assert(k.task_manager.basic_wf());
            assert forall|i2: int|
                0 <= i2 < k.task_manager.num_app && k.task_manager.status_of(i2)
                    != TaskStatus::Exited implies (
            #[trigger] k.task_manager.inner.tasks@[i2]).memory_set.wf_frames(k.allocator)
                && k.mem.is_trap(k.task_manager.inner.tasks@[i2].trap_cx_ppn.0)
                && k.task_manager.inner.tasks@[i2].memory_set.owns(
                k.task_manager.inner.tasks@[i2].trap_cx_ppn.0,
            ) by {}
            assert forall|i2: int, q: u64|
                0 <= i2 < k.task_manager.num_app && k.task_manager.status_of(i2)
                    == TaskStatus::Exited implies !#[trigger] k.task_manager.inner.tasks@[i2].memory_set.owns(
                q,
            ) by {
                assert(k.task_manager.status_of(i2) == TaskStatus::Ready);
            }
            assert(k.task_manager.tasks_ok(k.allocator, k.mem));
        }
        Ok(k)
    }

    /// Dispatches the first task.
    pub fn start_first_task(&mut self)
        requires
            old(self).inv(),
            old(self).status_of(0) != TaskStatus::Exited,
        ensures
            final(self).inv(),
            final(self).cur() == 0,
            final(self).status_of(0) == TaskStatus::Running,
            forall|i: int|
                0 < i < final(self).task_manager.num_app ==> final(self).status_of(i) == old(
                    self,
                ).status_of(i),
            final(self).task_manager.num_app == old(self).task_manager.num_app,
            final(self).timer == old(self).timer,
            final(self).mem == old(self).mem,
            final(self).allocator == old(self).allocator,
    {
        crate::task::start_run_first_task(&mut self.task_manager);
        proof {
            assert forall|i: int|
                0 <= i < self.task_manager.num_app
                    implies #[trigger] self.task_manager.inner.tasks@[i].memory_set == old(
                self,
            ).task_manager.inner.tasks@[i].memory_set
                && self.task_manager.inner.tasks@[i].trap_cx_ppn == old(
                self,
            ).task_manager.inner.tasks@[i].trap_cx_ppn by {
                assert(self.task_manager.inner.tasks@[i].trap_cx_ppn == old(
                    self,
                ).task_manager.inner.tasks@[i].trap_cx_ppn);
            }
            lemma_status_only_change(*old(self), *self);
        }
    }

    /// The hardware clock moving forward between traps.
    pub fn tick(&mut self, delta: u64)
        requires
            old(self).inv(),
            old(self).timer.spec_time() + delta <= u64::MAX,
        ensures
            final(self).inv(),
            final(self).timer.spec_time() == old(self).timer.spec_time() + delta,
            final(self).timer.spec_deadline() == old(self).timer.spec_deadline(),
            final(self).task_manager == old(self).task_manager,
            final(self).mem == old(self).mem,
    {
        self.timer.advance(delta);
    }
}

/// A transition that only rewrote task statuses and the current index
/// keeps the kernel invariant, as long as no live task became `Exited`
/// without its space having been emptied first.
proof fn lemma_status_only_change(pre: Kernel, post: Kernel)
    requires
        pre.inv(),
        post.allocator == pre.allocator,
        post.mem == pre.mem,
        post.kernel_space == pre.kernel_space,
        post.trampoline == pre.trampoline,
        post.task_manager.basic_wf(),
        post.task_manager.num_app == pre.task_manager.num_app,
        forall|i: int|
            0 <= i < post.task_manager.num_app
                ==> #[trigger] post.task_manager.inner.tasks@[i].memory_set
                == pre.task_manager.inner.tasks@[i].memory_set
                && post.task_manager.inner.tasks@[i].trap_cx_ppn
                == pre.task_manager.inner.tasks@[i].trap_cx_ppn,
        forall|i: int|
            0 <= i < post.task_manager.num_app ==> ((#[trigger] post.task_manager.status_of(i)
                == TaskStatus::Exited) <==> pre.task_manager.status_of(i) == TaskStatus::Exited),
    ensures
        post.inv(),
{
    assert forall|i: int|
        0 <= i < post.task_manager.num_app && post.task_manager.status_of(i) != TaskStatus::Exited
            implies (#[trigger] post.task_manager.inner.tasks@[i]).memory_set.wf_frames(
        post.allocator,
    ) && post.mem.is_trap(post.task_manager.inner.tasks@[i].trap_cx_ppn.0)
        && post.task_manager.inner.tasks@[i].memory_set.owns(
        post.task_manager.inner.tasks@[i].trap_cx_ppn.0,
    ) by {
        assert(pre.task_manager.status_of(i) != TaskStatus::Exited);
        assert(pre.task_manager.inner.tasks@[i].memory_set.wf_frames(pre.allocator));
    }
    assert forall|i: int, q: u64|
        0 <= i < post.task_manager.num_app && post.task_manager.status_of(i) == TaskStatus::Exited
            implies !#[trigger] post.task_manager.inner.tasks@[i].memory_set.owns(q) by {
        assert(pre.task_manager.status_of(i) == TaskStatus::Exited);
    }
    assert forall|i: int, j: int, q: u64|
        0 <= i < j < post.task_manager.num_app implies !(
    #[trigger] post.task_manager.inner.tasks@[i].memory_set.owns(q)
        && #[trigger] post.task_manager.inner.tasks@[j].memory_set.owns(q)) by {}
    assert forall|i: int, q: u64|
        0 <= i < post.task_manager.num_app implies !(
    #[trigger] post.task_manager.inner.tasks@[i].memory_set.owns(q) && post.kernel_space.owns(
        q,
    )) by {}
}

} // verus!
