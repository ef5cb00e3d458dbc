//! The round-robin scheduler on a bare task table.

use kernel_core::address::PhysPageNum;
use kernel_core::memory_set::MemorySet;
use kernel_core::task::{
    suspended_current_and_run_next, TaskContext, TaskControlBlock, TaskManger, TaskMangerInner,
    TaskStatus,
};
use kernel_core::KernelError;

fn bare_task(status: TaskStatus) -> TaskControlBlock {
    TaskControlBlock {
        status,
        task_cx: TaskContext::zero_init(),
        memory_set: MemorySet::new_empty(),
        trap_cx_ppn: PhysPageNum(0),
        base_size: 0,
    }
}

fn manager(statuses: &[TaskStatus], current: usize) -> TaskManger {
    TaskManger {
        num_app: statuses.len() as u64,
        inner: TaskMangerInner {
            tasks: statuses.iter().map(|s| bare_task(*s)).collect(),
            current_task: current,
        },
    }
}

#[test]
fn sweep_visits_each_ready_task_once_before_repeating() {
    // four ready tasks: a full sweep dispatches 1, 2, 3, 0 after task 0
    let mut tm = manager(
        &[TaskStatus::Running, TaskStatus::Ready, TaskStatus::Ready, TaskStatus::Ready],
        0,
    );
    let mut order: Vec<usize> = Vec::new();
    for _ in 0..4 {
        let next = suspended_current_and_run_next(&mut tm).unwrap();
        order.push(next);
    }
    assert_eq!(order, vec![1, 2, 3, 0]);
}

#[test]
fn scan_starts_just_after_the_current_task() {
    let tm = manager(
        &[TaskStatus::Ready, TaskStatus::Running, TaskStatus::Ready],
        1,
    );
    assert_eq!(tm.find_next_task(), Some(2));
}

#[test]
fn scan_wraps_around_to_earlier_slots() {
    let tm = manager(
        &[TaskStatus::Ready, TaskStatus::Exited, TaskStatus::Running],
        2,
    );
    assert_eq!(tm.find_next_task(), Some(0));
}

#[test]
fn exited_tasks_are_never_selected() {
    let tm = manager(
        &[TaskStatus::Running, TaskStatus::Exited, TaskStatus::Exited],
        0,
    );
    assert_eq!(tm.find_next_task(), None);
}

#[test]
fn a_task_may_be_rescheduled_to_itself() {
    let mut tm = manager(&[TaskStatus::Running, TaskStatus::Exited], 0);
    let next = suspended_current_and_run_next(&mut tm).unwrap();
    assert_eq!(next, 0);
    assert_eq!(tm.inner.tasks[0].status, TaskStatus::Running);
}

#[test]
fn no_runnable_task_is_fatal() {
    let mut tm = manager(&[TaskStatus::Running], 0);
    tm.mark_current_exited();
    assert_eq!(tm.run_next_task(), Err(KernelError::NoRunnableTask));
}
