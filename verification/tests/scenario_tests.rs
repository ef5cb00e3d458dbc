//! Whole-kernel scenarios: tasks loaded from images, driven trap by
//! trap through the dispatcher, exactly as the hardware glue would
//! drive it.

use kernel_core::kernel::Kernel;
use kernel_core::memory_set::KernelLayout;
use kernel_core::syscall::{SYSCALL_EXIT, SYSCALL_GET_TIME, SYSCALL_WRITE, SYSCALL_YIELD};
use kernel_core::task::TaskStatus;
use kernel_core::trap::{trap_handler, TrapCause, TrapOutcome};
use kernel_core::KernelError;

fn make_elf(entry: u64, segments: &[(u64, u32, Vec<u8>, u64)]) -> Vec<u8> {
    let ph_off: u64 = 64;
    let ph_entsize: u64 = 56;
    let ph_count = segments.len() as u64;
    let mut data_off = ph_off + ph_count * ph_entsize;
    let mut image = vec![0u8; data_off as usize];
    image[0] = 0x7f;
    image[1] = 0x45;
    image[2] = 0x4c;
    image[3] = 0x46;
    image[4] = 2;
    image[5] = 1;
    for i in 0..8 {
        image[24 + i] = (entry >> (8 * i)) as u8;
        image[32 + i] = (ph_off >> (8 * i)) as u8;
    }
    image[54] = ph_entsize as u8;
    image[56] = ph_count as u8;
    for (i, (vaddr, flags, bytes, mem_size)) in segments.iter().enumerate() {
        let base = (ph_off + i as u64 * ph_entsize) as usize;
        image[base] = 1;
        for k in 0..4 {
            image[base + 4 + k] = (*flags >> (8 * k)) as u8;
        }
        let file_size = bytes.len() as u64;
        for k in 0..8 {
            image[base + 8 + k] = (data_off >> (8 * k)) as u8;
            image[base + 16 + k] = (*vaddr >> (8 * k)) as u8;
            image[base + 32 + k] = (file_size >> (8 * k)) as u8;
            image[base + 40 + k] = (*mem_size >> (8 * k)) as u8;
        }
        image.extend_from_slice(bytes);
        data_off += file_size;
    }
    image
}

fn test_layout() -> KernelLayout {
    KernelLayout {
        text_start: 0x8020_0000,
        text_end: 0x8021_0000,
        rodata_start: 0x8021_0000,
        rodata_end: 0x8022_0000,
        data_start: 0x8022_0000,
        data_end: 0x8023_0000,
        bss_start: 0x8023_0000,
        bss_end: 0x8024_0000,
        kernel_end: 0x8030_0000,
        memory_end: 0x8080_0000,
        trampoline: 0x8020_0000,
    }
}

/// An application image holding one writable data segment with `msg`.
fn app_with_message(msg: &[u8]) -> Vec<u8> {
    make_elf(0x10000, &[(0x10000, 6, msg.to_vec(), msg.len() as u64)])
}

/// Plants a syscall in the current task's saved registers, as the task's
/// own `ecall` would.
fn issue(k: &mut Kernel, id: u64, a0: u64, a1: u64, a2: u64) -> Result<TrapOutcome, KernelError> {
    let cur = k.task_manager.get_current_task();
    let mut cx = k.task_manager.get_current_trap_cx(&k.mem);
    cx.x[17] = id;
    cx.x[10] = a0;
    cx.x[11] = a1;
    cx.x[12] = a2;
    k.task_manager.inner.tasks[cur].set_trap_cx(&mut k.mem, cx);
    trap_handler(k, TrapCause::UserEnvCall, 0)
}

fn boot(apps: Vec<Vec<u8>>) -> Kernel {
    let layout = test_layout();
    let mut k = Kernel::new(&layout, &apps, 0x8020_1000, 0x8020_2000).unwrap();
    k.start_first_task();
    k
}

#[test]
fn three_tasks_write_and_yield_ten_times_then_exit() {
    let msgs: Vec<Vec<u8>> = vec![b"a\n".to_vec(), b"b\n".to_vec(), b"c\n".to_vec()];
    let apps: Vec<Vec<u8>> = msgs.iter().map(|m| app_with_message(m)).collect();
    let mut k = boot(apps);
    let mut steps = [0usize; 3];
    let mut writes: Vec<(usize, Vec<u8>)> = Vec::new();
    let mut exit_notices: Vec<usize> = Vec::new();
    let mut fatal: Option<KernelError> = None;
    loop {
        let cur = k.task_manager.get_current_task();
        if steps[cur] < 20 {
            let even = steps[cur] % 2 == 0;
            steps[cur] += 1;
            if even {
                match issue(&mut k, SYSCALL_WRITE, 1, 0x10000, 2).unwrap() {
                    TrapOutcome::Syscall { ret, written } => {
                        assert_eq!(ret, 2);
                        writes.push((cur, written));
                    }
                    _ => panic!("write did not complete"),
                }
            } else {
                match issue(&mut k, SYSCALL_YIELD, 0, 0, 0).unwrap() {
                    TrapOutcome::Syscall { ret, written } => {
                        assert_eq!(ret, 0);
                        assert!(written.is_empty());
                    }
                    _ => panic!("yield did not complete"),
                }
            }
        } else {
            match issue(&mut k, SYSCALL_EXIT, 0, 0, 0) {
                Ok(TrapOutcome::Exited { code, next: _ }) => {
                    assert_eq!(code, 0);
                    exit_notices.push(cur);
                }
                Err(e) => {
                    exit_notices.push(cur);
                    fatal = Some(e);
                    break;
                }
                _ => panic!("exit produced a wrong outcome"),
            }
        }
    }
    // exactly thirty interleaved lines, ten per task, in strict rotation
    assert_eq!(writes.len(), 30);
    for (i, (task, bytes)) in writes.iter().enumerate() {
        assert_eq!(*task, i % 3);
        assert_eq!(bytes, &msgs[*task]);
    }
    // three exit notices, and then nothing left to run
    assert_eq!(exit_notices, vec![0, 1, 2]);
    assert_eq!(fatal, Some(KernelError::NoRunnableTask));
    for i in 0..3 {
        assert_eq!(k.task_manager.inner.tasks[i].status, TaskStatus::Exited);
    }
}

#[test]
fn store_fault_kills_only_the_offending_task() {
    let apps: Vec<Vec<u8>> = (0..3).map(|_| app_with_message(b"x")).collect();
    let mut k = boot(apps);
    // task 0 stores to a read-only page: killed, others untouched
    match trap_handler(&mut k, TrapCause::StoreFault, 0x10000).unwrap() {
        TrapOutcome::Killed { next } => assert_eq!(next, 1),
        _ => panic!("fault did not kill the task"),
    }
    assert_eq!(k.task_manager.inner.tasks[0].status, TaskStatus::Exited);
    assert_eq!(k.task_manager.inner.tasks[1].status, TaskStatus::Running);
    assert_eq!(k.task_manager.inner.tasks[2].status, TaskStatus::Ready);
    // the survivors still run and write
    match issue(&mut k, SYSCALL_WRITE, 1, 0x10000, 1).unwrap() {
        TrapOutcome::Syscall { ret, written } => {
            assert_eq!(ret, 1);
            assert_eq!(written, b"x".to_vec());
        }
        _ => panic!("survivor could not write"),
    }
}

#[test]
fn illegal_instruction_kills_only_the_offending_task() {
    let apps: Vec<Vec<u8>> = (0..2).map(|_| app_with_message(b"y")).collect();
    let mut k = boot(apps);
    match trap_handler(&mut k, TrapCause::IllegalInstruction, 0).unwrap() {
        TrapOutcome::Killed { next } => assert_eq!(next, 1),
        _ => panic!("fault did not kill the task"),
    }
    assert_eq!(k.task_manager.inner.tasks[0].status, TaskStatus::Exited);
    assert_eq!(k.task_manager.inner.tasks[1].status, TaskStatus::Running);
}

#[test]
fn get_time_is_tick_monotonic_across_yields() {
    let apps: Vec<Vec<u8>> = (0..2).map(|_| app_with_message(b"t")).collect();
    let mut k = boot(apps);
    let t1 = match issue(&mut k, SYSCALL_GET_TIME, 0, 0, 0).unwrap() {
        TrapOutcome::Syscall { ret, .. } => ret,
        _ => panic!("get_time failed"),
    };
    // a busy loop: the clock ticks, the timer fires, the task yields
    let mut last = t1;
    for _ in 0..5 {
        k.tick(1_000_000);
        match trap_handler(&mut k, TrapCause::SupervisorTimer, 0).unwrap() {
            TrapOutcome::TimerTick { .. } => {}
            _ => panic!("timer did not tick"),
        }
        let t = match issue(&mut k, SYSCALL_GET_TIME, 0, 0, 0).unwrap() {
            TrapOutcome::Syscall { ret, .. } => ret,
            _ => panic!("get_time failed"),
        };
        assert!(t >= last);
        last = t;
    }
    assert!(last >= t1 + 5 * (1_000_000 / 12_500));
}

#[test]
fn write_to_a_bad_descriptor_is_fatal() {
    let apps: Vec<Vec<u8>> = vec![app_with_message(b"z")];
    let mut k = boot(apps);
    assert_eq!(
        issue(&mut k, SYSCALL_WRITE, 2, 0x10000, 1).unwrap_err(),
        KernelError::UnsupportedFd
    );
}

#[test]
fn write_of_an_unmapped_buffer_fails() {
    let apps: Vec<Vec<u8>> = vec![app_with_message(b"z")];
    let mut k = boot(apps);
    assert_eq!(
        issue(&mut k, SYSCALL_WRITE, 1, 0x7000_0000, 4).unwrap_err(),
        KernelError::NotMapped
    );
}

#[test]
fn unknown_syscall_is_fatal() {
    let apps: Vec<Vec<u8>> = vec![app_with_message(b"z")];
    let mut k = boot(apps);
    assert_eq!(
        issue(&mut k, 777, 0, 0, 0).unwrap_err(),
        KernelError::UnknownSyscall
    );
}

#[test]
fn unknown_trap_cause_is_fatal() {
    let apps: Vec<Vec<u8>> = vec![app_with_message(b"z")];
    let mut k = boot(apps);
    assert_eq!(
        trap_handler(&mut k, TrapCause::Unknown, 0xdead).unwrap_err(),
        KernelError::UnsupportedTrap
    );
}

#[test]
fn exit_frees_frames_for_later_reuse() {
    let apps: Vec<Vec<u8>> = (0..2).map(|_| app_with_message(b"r")).collect();
    let mut k = boot(apps);
    match issue(&mut k, SYSCALL_EXIT, 7, 0, 0).unwrap() {
        TrapOutcome::Exited { code, next } => {
            assert_eq!(code, 7);
            assert_eq!(next, 1);
        }
        _ => panic!("exit produced a wrong outcome"),
    }
    assert_eq!(k.task_manager.inner.tasks[0].status, TaskStatus::Exited);
    // the survivor keeps working against the recycled pool
    match issue(&mut k, SYSCALL_WRITE, 1, 0x10000, 1).unwrap() {
        TrapOutcome::Syscall { ret, .. } => assert_eq!(ret, 1),
        _ => panic!("survivor could not write"),
    }
}

#[test]
fn write_over_the_trap_frame_is_refused() {
    // the page below the trampoline holds a saved trap context, not
    // plain bytes: reading it as a write buffer is refused
    let apps: Vec<Vec<u8>> = vec![app_with_message(b"z")];
    let mut k = boot(apps);
    assert_eq!(
        issue(&mut k, SYSCALL_WRITE, 1, 0x7F_FFFF_E000, 1).unwrap_err(),
        KernelError::NotDataPage
    );
}
