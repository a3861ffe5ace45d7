use sv39_kernel::address::{PhysPageNum, VirtPageNum};
use sv39_kernel::config::{TRAMPOLINE, TRAP_CONTEXT};
use sv39_kernel::kernel::{Kernel, KernelEnv, KernelError};
use sv39_kernel::loader::{get_app_data_by_name, get_num_app, App};
use sv39_kernel::mm::memory_set::KernelLayout;
use sv39_kernel::mm::user_memory::translated_frame;
use sv39_kernel::syscall::{syscall, SyscallOutcome};
use sv39_kernel::task::task::{TaskControlBlock, TaskStatus};
use sv39_kernel::task::processor::{
    current_index, current_task, current_trap_cx, current_user_token, take_current_task,
};
use sv39_kernel::task::{add_initproc, run_tasks, schedule};
use sv39_kernel::trap::cause::{trap_cause, TrapCause};
use sv39_kernel::trap::context::TrapContext;
use sv39_kernel::trap::handler::{
    finish_read, trap_from_kernel, trap_handler, trap_return, SwitchCause, TrapOutcome,
};

const TIMER: u64 = (1 << 63) | 5;
const HELLO: u64 = 0x11000;
const SHELL_NAME: u64 = 0x11010;
const NO_NAME: u64 = 0x11020;
const EXIT_CODE: u64 = 0x11100;

fn word16(buf: &mut Vec<u8>, at: usize, v: u16) {
    buf[at..at + 2].copy_from_slice(&v.to_le_bytes());
}

fn word32(buf: &mut Vec<u8>, at: usize, v: u32) {
    buf[at..at + 4].copy_from_slice(&v.to_le_bytes());
}

fn word64(buf: &mut Vec<u8>, at: usize, v: u64) {
    buf[at..at + 8].copy_from_slice(&v.to_le_bytes());
}

/// An ELF image with a code segment of one page at `base` and a data segment with the
/// bytes `data` on the page behind it.
fn program(base: u64, data: &[u8]) -> Vec<u8> {
    let mut image = vec![0u8; 64 + 2 * 56];
    image[0..4].copy_from_slice(&[0x7f, 0x45, 0x4c, 0x46]);
    image[4] = 2;
    image[5] = 1;
    image[6] = 1;
    word16(&mut image, 16, 2);
    word16(&mut image, 18, 0xf3);
    word32(&mut image, 20, 1);
    word64(&mut image, 24, base);
    word64(&mut image, 32, 64);
    word16(&mut image, 52, 64);
    word16(&mut image, 54, 56);
    word16(&mut image, 56, 2);
    let code = [0x73u8, 0, 0, 0, 0x6f, 0, 0, 0];
    let parts: [(u32, u64, &[u8], u64); 2] =
        [(5, base, &code, 0x1000), (6, base + 0x1000, data, 0x1000)];
    for (i, (flags, vaddr, bytes, mem_size)) in parts.iter().enumerate() {
        let at = 64 + 56 * i;
        let offset = image.len() as u64;
        word32(&mut image, at, 1);
        word32(&mut image, at + 4, *flags);
        word64(&mut image, at + 8, offset);
        word64(&mut image, at + 16, *vaddr);
        word64(&mut image, at + 24, *vaddr);
        word64(&mut image, at + 32, bytes.len() as u64);
        word64(&mut image, at + 40, *mem_size);
        word64(&mut image, at + 48, 4096);
        image.extend_from_slice(bytes);
    }
    image
}

fn initproc_image() -> Vec<u8> {
    let mut data = vec![0u8; 48];
    data[0..6].copy_from_slice(b"hello\n");
    data[16..27].copy_from_slice(b"user_shell\0");
    data[32..40].copy_from_slice(b"nothing\0");
    program(0x10000, &data)
}

fn shell_image() -> Vec<u8> {
    program(0x20000, b">> ")
}

fn apps() -> Vec<App> {
    vec![
        App { name: b"user_shell".to_vec(), data: shell_image() },
        App { name: b"initproc".to_vec(), data: initproc_image() },
    ]
}

fn layout() -> KernelLayout {
    KernelLayout {
        stext: 0x8020_0000,
        etext: 0x8020_3000,
        srodata: 0x8020_3000,
        erodata: 0x8020_4000,
        sdata: 0x8020_4000,
        edata: 0x8020_5000,
        sbss_with_stack: 0x8020_5000,
        ebss: 0x8020_8000,
        ekernel: 0x8020_8000,
        strampoline: 0x8020_1000,
    }
}

fn env() -> KernelEnv {
    KernelEnv { trap_handler: 0x8020_2000, trap_return: 0x8020_2100, sstatus: 0x8000_0000_0000_0122 }
}

fn boot_with(frames: u64) -> Kernel {
    Kernel::new(PhysPageNum(0x80208), PhysPageNum(0x80208 + frames), &layout(), env(), apps())
        .unwrap()
}

/// A kernel on which the first process runs.
fn running() -> Kernel {
    let mut kernel = boot_with(400);
    assert_eq!(add_initproc(&mut kernel), Ok(0));
    assert!(run_tasks(&mut kernel).is_some());
    kernel
}

fn free_frames(kernel: &Kernel) -> u64 {
    let mut n = 0u64;
    while kernel.pool.can_allocate(n + 1) {
        n += 1;
    }
    n
}

fn context(kernel: &Kernel, pid: usize) -> TrapContext {
    kernel.read_trap_cx(kernel.find_task(pid).unwrap())
}

fn status(kernel: &Kernel, pid: usize) -> TaskStatus {
    kernel.tasks[kernel.find_task(pid).unwrap()].inner_ref().task_status
}

fn user_bytes(kernel: &Kernel, pid: usize, addr: u64, len: u64) -> Vec<u8> {
    let token = kernel.tasks[kernel.find_task(pid).unwrap()].inner_ref().get_user_token();
    (addr..addr + len)
        .map(|a| {
            let ppn = translated_frame(&kernel.pool.memory, token, a).unwrap();
            kernel.pool.memory.read_byte(ppn, (a % 4096) as usize)
        })
        .collect()
}

/// The running task makes the system call `id` with the arguments `args`.
fn ecall(kernel: &mut Kernel, id: u64, args: [u64; 3]) -> TrapOutcome {
    let pid = kernel.processor.current().unwrap();
    let t = kernel.find_task(pid).unwrap();
    let mut cx = kernel.read_trap_cx(t);
    cx.x[17] = id;
    cx.x[10] = args[0];
    cx.x[11] = args[1];
    cx.x[12] = args[2];
    kernel.write_trap_cx(t, &cx);
    trap_handler(kernel, 8, 0, 0)
}

fn result_of(outcome: TrapOutcome) -> isize {
    match outcome {
        TrapOutcome::Resume(_, v) => v,
        TrapOutcome::Console(_, _, v) => v,
        _ => panic!("the task does not go on"),
    }
}

/// The running task gives up the processor and the next one gets it.
fn switch(kernel: &mut Kernel) -> usize {
    assert!(matches!(ecall(kernel, 124, [0, 0, 0]), TrapOutcome::Switch(SwitchCause::Yielded)));
    run_tasks(kernel).unwrap().0
}

#[test]
fn boot_installs_the_first_process() {
    let mut kernel = boot_with(400);
    assert_eq!(kernel.tasks.len(), 0);
    assert_eq!(kernel.manager.len(), 0);
    assert_eq!(kernel.processor.current(), None);
    assert!(run_tasks(&mut kernel).is_none());
    let text = kernel.kernel_space.translate(&kernel.pool, VirtPageNum(0x80200)).unwrap();
    assert_eq!(text.ppn(), PhysPageNum(0x80200));
    assert_eq!(add_initproc(&mut kernel), Ok(0));
    assert_eq!(kernel.tasks.len(), 1);
    assert_eq!(kernel.manager.len(), 1);
    assert_eq!(status(&kernel, 0), TaskStatus::Ready);
    let (pid, cx) = run_tasks(&mut kernel).unwrap();
    assert_eq!(pid, 0);
    assert_eq!(cx.ra, 0x8020_2100);
    assert_eq!(cx.sp, TRAMPOLINE);
    assert_eq!(cx.s, [0u64; 12]);
    assert_eq!(kernel.processor.current(), Some(0));
    assert_eq!(status(&kernel, 0), TaskStatus::Running);
    assert_eq!(kernel.manager.len(), 0);
    let trap = context(&kernel, 0);
    assert_eq!(trap.sepc, 0x10000);
    assert_eq!(trap.x[2], 0x15000);
    assert_eq!(trap.x[1], 0);
    assert_eq!(trap.sstatus, 0x8000_0000_0000_0022);
    assert_eq!(trap.kernel_satp, kernel.kernel_space.token());
    assert_eq!(trap.kernel_sp, TRAMPOLINE);
    assert_eq!(trap.trap_handler, 0x8020_2000);
    let stack = kernel
        .kernel_space
        .translate(&kernel.pool, VirtPageNum(0x7ff_fffd))
        .unwrap();
    assert!(stack.is_valid() && stack.writable());
    let idle = schedule(&kernel);
    assert_eq!(idle.ra, 0);
}

#[test]
fn the_way_back_to_user_mode() {
    let kernel = running();
    let (cx_ptr, token, restore) = trap_return(&kernel, 0x8020_1000, 0x8020_1064).unwrap();
    assert_eq!(cx_ptr, TRAP_CONTEXT);
    assert_eq!(restore, TRAMPOLINE + 0x64);
    assert_eq!(token, kernel.tasks[0].inner_ref().get_user_token());
    assert_eq!(token >> 60, 8);
    assert_eq!(trap_return(&kernel, 0x8020_1064, 0x8020_1000), Err(KernelError::BadLayout));
    let idle = boot_with(400);
    assert_eq!(trap_return(&idle, 0x8020_1000, 0x8020_1064), Err(KernelError::NoCurrentTask));
}

#[test]
fn boot_fails_without_memory_or_first_program() {
    let r = Kernel::new(PhysPageNum(0x80208), PhysPageNum(0x80208), &layout(), env(), apps());
    assert!(matches!(r, Err(KernelError::OutOfFrames)));
    let mut bad = layout();
    bad.etext = 0x8020_5000;
    let r = Kernel::new(PhysPageNum(0x80208), PhysPageNum(0x80300), &bad, env(), apps());
    assert!(matches!(r, Err(KernelError::BadLayout)));
    let mut kernel =
        Kernel::new(PhysPageNum(0x80208), PhysPageNum(0x80300), &layout(), env(), Vec::new())
            .unwrap();
    assert_eq!(add_initproc(&mut kernel), Err(KernelError::BadProgram));
    assert_eq!(kernel.tasks.len(), 0);
}

#[test]
fn a_task_needs_a_program_and_frames() {
    let mut kernel = boot_with(400);
    let before = free_frames(&kernel);
    assert_eq!(TaskControlBlock::new(&mut kernel, &[1, 2, 3]), Err(KernelError::BadProgram));
    assert_eq!(free_frames(&kernel), before);
    assert_eq!(TaskControlBlock::new(&mut kernel, &initproc_image()), Ok(0));
    assert_eq!(TaskControlBlock::new(&mut kernel, &shell_image()), Ok(1));
    let mut small = boot_with(15);
    let before = free_frames(&small);
    assert_eq!(
        TaskControlBlock::new(&mut small, &initproc_image()),
        Err(KernelError::OutOfFrames)
    );
    assert_eq!(free_frames(&small), before);
    assert_eq!(small.tasks.len(), 0);
}

#[test]
fn write_sends_the_bytes_to_the_console() {
    let mut kernel = running();
    match ecall(&mut kernel, 64, [1, HELLO, 6]) {
        TrapOutcome::Console(bytes, token, v) => {
            assert_eq!(bytes, b"hello\n".to_vec());
            assert_eq!(v, 6);
            assert_eq!(token, kernel.tasks[0].inner_ref().get_user_token());
        },
        _ => panic!("nothing for the console"),
    }
    let cx = context(&kernel, 0);
    assert_eq!(cx.x[10], 6);
    assert_eq!(cx.sepc, 0x10004);
    assert_eq!(result_of(ecall(&mut kernel, 64, [1, HELLO, 0])), 0);
    assert_eq!(context(&kernel, 0).sepc, 0x10008);
}

#[test]
fn write_of_unmapped_bytes_stops_the_kernel() {
    let mut kernel = running();
    let r = ecall(&mut kernel, 64, [1, 0x30000, 4]);
    assert!(matches!(r, TrapOutcome::Fatal(KernelError::BadAddress)));
    let r = ecall(&mut kernel, 64, [1, 0x11ffe, 4]);
    assert!(matches!(r, TrapOutcome::Fatal(KernelError::BadAddress)));
}

#[test]
fn a_bad_file_descriptor_ends_the_task() {
    let mut kernel = running();
    let r = ecall(&mut kernel, 64, [2, HELLO, 6]);
    assert!(matches!(r, TrapOutcome::Switch(SwitchCause::Exited(-1))));
    assert_eq!(status(&kernel, 0), TaskStatus::Zombie);
    assert_eq!(kernel.tasks[0].inner_ref().exit_code, -1);
    assert_eq!(kernel.processor.current(), None);
    let mut kernel = running();
    let r = ecall(&mut kernel, 63, [1, HELLO, 1]);
    assert!(matches!(r, TrapOutcome::Switch(SwitchCause::Exited(-1))));
}

#[test]
fn an_unknown_system_call_ends_the_task() {
    let mut kernel = running();
    let r = ecall(&mut kernel, 999, [0, 0, 0]);
    assert!(matches!(r, TrapOutcome::Switch(SwitchCause::Exited(-1))));
    assert_eq!(status(&kernel, 0), TaskStatus::Zombie);
    assert_eq!(kernel.tasks[0].inner_ref().exit_code, -1);
}

#[test]
fn read_takes_one_character_from_the_console() {
    let mut kernel = running();
    let r = ecall(&mut kernel, 63, [0, EXIT_CODE, 1]);
    match r {
        TrapOutcome::NeedChar(buf) => assert_eq!(buf, EXIT_CODE),
        _ => panic!("no character asked for"),
    }
    assert_eq!(context(&kernel, 0).sepc, 0x10004);
    let r = finish_read(&mut kernel, EXIT_CODE, 0);
    assert!(matches!(r, TrapOutcome::Switch(SwitchCause::Yielded)));
    assert_eq!(kernel.processor.current(), None);
    let waiting = context(&kernel, 0);
    assert_eq!(waiting.sepc, 0x10000);
    assert_eq!((waiting.x[17], waiting.x[10], waiting.x[11], waiting.x[12]), (63, 0, EXIT_CODE, 1));
    assert_eq!(user_bytes(&kernel, 0, EXIT_CODE, 2), vec![0, 0]);
    assert_eq!(run_tasks(&mut kernel).unwrap().0, 0);
    match trap_handler(&mut kernel, 8, 0, 0) {
        TrapOutcome::NeedChar(buf) => assert_eq!(buf, EXIT_CODE),
        _ => panic!("the task did not ask again"),
    }
    let r = finish_read(&mut kernel, EXIT_CODE, 0x141);
    assert_eq!(result_of(r), 0);
    assert_eq!(context(&kernel, 0).sepc, 0x10004);
    assert_eq!(user_bytes(&kernel, 0, EXIT_CODE, 2), vec![0x41, 0]);
    assert_eq!(context(&kernel, 0).x[10], 0);
    let r = ecall(&mut kernel, 63, [0, EXIT_CODE, 2]);
    assert!(matches!(r, TrapOutcome::Fatal(KernelError::UnsupportedRead)));
    let r = finish_read(&mut kernel, 0x10000, 0x41);
    assert!(matches!(r, TrapOutcome::Fatal(KernelError::BadAddress)));
}

#[test]
fn time_and_process_number() {
    let mut kernel = running();
    let pid = kernel.processor.current().unwrap();
    let t = kernel.find_task(pid).unwrap();
    let mut cx = kernel.read_trap_cx(t);
    cx.x[17] = 169;
    kernel.write_trap_cx(t, &cx);
    let r = trap_handler(&mut kernel, 8, 0, 12_500 * 1234 + 12_499);
    assert_eq!(result_of(r), 1234);
    assert_eq!(result_of(ecall(&mut kernel, 172, [0, 0, 0])), 0);
    assert!(matches!(syscall(&mut kernel, 172, [0, 0, 0], 0), SyscallOutcome::Done(0)));
    assert!(matches!(syscall(&mut kernel, 169, [0, 0, 0], 25_000), SyscallOutcome::Done(2)));
}

#[test]
fn an_illegal_instruction_ends_only_the_task_that_ran_it() {
    let mut kernel = running();
    let child = result_of(ecall(&mut kernel, 220, [0, 0, 0])) as usize;
    assert_eq!(child, 1);
    assert_eq!(switch(&mut kernel), child);
    let parent_frame = translated_frame(
        &kernel.pool.memory,
        kernel.tasks[0].inner_ref().get_user_token(),
        HELLO,
    );
    let r = trap_handler(&mut kernel, 2, 0, 0);
    assert!(matches!(r, TrapOutcome::Switch(SwitchCause::IllegalInstruction)));
    assert_eq!(status(&kernel, child), TaskStatus::Zombie);
    assert_eq!(kernel.tasks[kernel.find_task(child).unwrap()].inner_ref().exit_code, -1);
    assert_eq!(kernel.processor.current(), None);
    assert_eq!(status(&kernel, 0), TaskStatus::Ready);
    assert_eq!(user_bytes(&kernel, 0, HELLO, 6), b"hello\n".to_vec());
    assert_eq!(
        translated_frame(&kernel.pool.memory, kernel.tasks[0].inner_ref().get_user_token(), HELLO),
        parent_frame
    );
    assert_eq!(run_tasks(&mut kernel).unwrap().0, 0);
    assert!(run_tasks(&mut kernel).is_none());
    assert_eq!(result_of(ecall(&mut kernel, 260, [u64::MAX, EXIT_CODE, 0])), 1);
    assert_eq!(user_bytes(&kernel, 0, EXIT_CODE, 4), (-1i32).to_le_bytes().to_vec());
}

#[test]
fn memory_faults_end_the_task() {
    for cause in [5u64, 7, 13, 15] {
        let mut kernel = running();
        let r = trap_handler(&mut kernel, cause, 0xdead, 0);
        assert!(matches!(r, TrapOutcome::Switch(SwitchCause::PageFault)));
        assert_eq!(status(&kernel, 0), TaskStatus::Zombie);
        assert_eq!(kernel.tasks[0].inner_ref().exit_code, -1);
    }
}

#[test]
fn other_traps_stop_the_kernel() {
    for cause in [0u64, 1, 3, 9, 12, (1 << 63) | 1, (1 << 63) | 9] {
        let mut kernel = running();
        let r = trap_handler(&mut kernel, cause, 0, 0);
        assert!(matches!(r, TrapOutcome::Fatal(KernelError::UnsupportedTrap)));
        assert_eq!(status(&kernel, 0), TaskStatus::Running);
    }
    assert_eq!(trap_from_kernel(), KernelError::KernelTrap);
}

#[test]
fn a_trap_without_a_task_stops_the_kernel() {
    let mut kernel = boot_with(400);
    let r = trap_handler(&mut kernel, 8, 0, 0);
    assert!(matches!(r, TrapOutcome::Fatal(KernelError::NoCurrentTask)));
    let r = trap_handler(&mut kernel, TIMER, 0, 0);
    assert!(matches!(r, TrapOutcome::Fatal(KernelError::NoCurrentTask)));
    let r = trap_handler(&mut kernel, 2, 0, 0);
    assert!(matches!(r, TrapOutcome::Fatal(KernelError::NoCurrentTask)));
}

#[test]
fn causes_of_traps() {
    assert_eq!(trap_cause(8), TrapCause::UserEnvCall);
    assert_eq!(trap_cause(2), TrapCause::IllegalInstruction);
    assert_eq!(trap_cause(5), TrapCause::LoadFault);
    assert_eq!(trap_cause(7), TrapCause::StoreFault);
    assert_eq!(trap_cause(13), TrapCause::LoadPageFault);
    assert_eq!(trap_cause(15), TrapCause::StorePageFault);
    assert_eq!(trap_cause(TIMER), TrapCause::SupervisorTimer);
    assert_eq!(trap_cause(12), TrapCause::Other);
    assert_eq!(trap_cause(9), TrapCause::Other);
    assert_eq!(trap_cause(0), TrapCause::Other);
    assert_eq!(trap_cause(16), TrapCause::Other);
    assert_eq!(trap_cause(1 << 63), TrapCause::Other);
    assert_eq!(trap_cause((1 << 63) | 8), TrapCause::Other);
    assert_eq!(trap_cause((1 << 62) | 8), TrapCause::Other);
    assert_eq!(trap_cause(u64::MAX), TrapCause::Other);
}

#[test]
fn a_new_trap_context_goes_to_user_mode() {
    let cx = TrapContext::app_init_context(0x10000, 0x20000, 1, 2, 3, u64::MAX);
    assert_eq!(cx.sstatus, 0x8000_0003_000d_e662);
    assert_eq!(cx.sepc, 0x10000);
    assert_eq!(cx.x[2], 0x20000);
    assert_eq!((cx.kernel_satp, cx.kernel_sp, cx.trap_handler), (1, 2, 3));
    for i in (0..32).filter(|i| *i != 2) {
        assert_eq!(cx.x[i], 0);
    }
    let cx = TrapContext::app_init_context(0, 0, 0, 0, 0, 0x100);
    assert_eq!(cx.sstatus, 0);
    let cx = TrapContext::app_init_context(0, 0, 0, 0, 0, 0x122);
    assert_eq!(cx.sstatus, 0x22);
    let mut cx = cx;
    cx.set_sp(0x1234);
    assert_eq!(cx.x[2], 0x1234);
}

#[test]
fn fork_and_wait() {
    let mut kernel = running();
    let before = free_frames(&kernel);
    let r = ecall(&mut kernel, 220, [0, 0, 0]);
    let child = result_of(r) as usize;
    assert_eq!(child, 1);
    assert_eq!(context(&kernel, 0).x[10], 1);
    assert_eq!(context(&kernel, child).x[10], 0);
    assert_eq!(context(&kernel, child).sepc, context(&kernel, 0).sepc);
    assert_eq!(context(&kernel, child).kernel_sp, TRAMPOLINE - 0x3000);
    assert_eq!(status(&kernel, child), TaskStatus::Ready);
    assert_eq!(kernel.tasks[0].inner_ref().children, vec![child]);
    assert_eq!(kernel.tasks[1].inner_ref().parent, Some(0));
    assert!(free_frames(&kernel) < before);

    assert_eq!(result_of(ecall(&mut kernel, 260, [u64::MAX, EXIT_CODE, 0])), -2);
    assert_eq!(result_of(ecall(&mut kernel, 260, [1, EXIT_CODE, 0])), -2);
    assert_eq!(result_of(ecall(&mut kernel, 260, [5, EXIT_CODE, 0])), -1);
    assert_eq!(user_bytes(&kernel, 0, EXIT_CODE, 4), vec![0, 0, 0, 0]);

    assert_eq!(switch(&mut kernel), child);
    assert_eq!(result_of(ecall(&mut kernel, 172, [0, 0, 0])), 1);
    match ecall(&mut kernel, 64, [1, HELLO, 6]) {
        TrapOutcome::Console(bytes, _, 6) => assert_eq!(bytes, b"hello\n".to_vec()),
        _ => panic!("nothing for the console"),
    }
    assert_eq!(result_of(ecall(&mut kernel, 260, [u64::MAX, EXIT_CODE, 0])), -1);
    let r = ecall(&mut kernel, 93, [7, 0, 0]);
    assert!(matches!(r, TrapOutcome::Switch(SwitchCause::Exited(7))));
    assert_eq!(status(&kernel, child), TaskStatus::Zombie);

    assert_eq!(run_tasks(&mut kernel).unwrap().0, 0);
    assert_eq!(result_of(ecall(&mut kernel, 260, [u64::MAX, EXIT_CODE, 0])), 1);
    assert_eq!(user_bytes(&kernel, 0, EXIT_CODE, 4), vec![7, 0, 0, 0]);
    assert_eq!(kernel.find_task(child), None);
    assert_eq!(kernel.tasks.len(), 1);
    assert!(kernel.tasks[0].inner_ref().children.is_empty());
    assert_eq!(free_frames(&kernel), before);
    assert_eq!(result_of(ecall(&mut kernel, 260, [u64::MAX, EXIT_CODE, 0])), -1);
    assert_eq!(result_of(ecall(&mut kernel, 220, [0, 0, 0])), 1);
}

#[test]
fn a_child_has_its_own_copy_of_the_memory() {
    let mut kernel = running();
    let child = result_of(ecall(&mut kernel, 220, [0, 0, 0])) as usize;
    let parent_token = kernel.tasks[0].inner_ref().get_user_token();
    let child_token = kernel.tasks[1].inner_ref().get_user_token();
    assert_ne!(parent_token, child_token);
    for page in [0x10000u64, 0x11000, 0x13000, 0x14000] {
        let ours = translated_frame(&kernel.pool.memory, parent_token, page).unwrap();
        let theirs = translated_frame(&kernel.pool.memory, child_token, page).unwrap();
        assert_ne!(ours, theirs);
        assert_eq!(user_bytes(&kernel, 0, page, 4096), user_bytes(&kernel, child, page, 4096));
    }
    assert_ne!(
        kernel.tasks[0].inner_ref().get_trap_cx(),
        kernel.tasks[1].inner_ref().get_trap_cx()
    );
    assert_eq!(switch(&mut kernel), child);
    assert_eq!(result_of(finish_read(&mut kernel, HELLO, 0x4a)), 0);
    assert_eq!(user_bytes(&kernel, child, HELLO, 6), b"Jello\n".to_vec());
    assert_eq!(user_bytes(&kernel, 0, HELLO, 6), b"hello\n".to_vec());
}

#[test]
fn wait_for_a_child_by_number() {
    let mut kernel = running();
    let first = result_of(ecall(&mut kernel, 220, [0, 0, 0])) as usize;
    let second = result_of(ecall(&mut kernel, 220, [0, 0, 0])) as usize;
    assert_eq!((first, second), (1, 2));
    assert_eq!(switch(&mut kernel), first);
    assert!(matches!(ecall(&mut kernel, 93, [11, 0, 0]), TrapOutcome::Switch(_)));
    assert_eq!(run_tasks(&mut kernel).unwrap().0, second);
    assert!(matches!(ecall(&mut kernel, 93, [(-22i64) as u64, 0, 0]), TrapOutcome::Switch(_)));
    assert_eq!(run_tasks(&mut kernel).unwrap().0, 0);
    assert_eq!(result_of(ecall(&mut kernel, 260, [2, EXIT_CODE, 0])), 2);
    assert_eq!(user_bytes(&kernel, 0, EXIT_CODE, 4), (-22i32).to_le_bytes().to_vec());
    assert_eq!(result_of(ecall(&mut kernel, 260, [2, EXIT_CODE, 0])), -1);
    assert_eq!(result_of(ecall(&mut kernel, 260, [u64::MAX, EXIT_CODE + 8, 0])), 1);
    assert_eq!(user_bytes(&kernel, 0, EXIT_CODE + 8, 4), vec![11, 0, 0, 0]);
    assert_eq!(kernel.tasks.len(), 1);
}

#[test]
fn exec_replaces_the_program() {
    let mut kernel = running();
    let child = result_of(ecall(&mut kernel, 220, [0, 0, 0])) as usize;
    assert_eq!(switch(&mut kernel), child);
    let old_token = kernel.tasks[1].inner_ref().get_user_token();
    let old_frames: Vec<PhysPageNum> = [0x10000u64, 0x11000, 0x13000, 0x14000]
        .iter()
        .map(|a| translated_frame(&kernel.pool.memory, old_token, *a).unwrap())
        .collect();
    let old_trap = kernel.tasks[1].inner_ref().get_trap_cx();
    assert_eq!(result_of(ecall(&mut kernel, 221, [NO_NAME, 0, 0])), -1);
    assert_eq!(kernel.tasks[1].inner_ref().get_user_token(), old_token);

    match ecall(&mut kernel, 221, [SHELL_NAME, 0, 0]) {
        TrapOutcome::Resume(token, 0) => {
            assert_eq!(token, kernel.tasks[1].inner_ref().get_user_token());
            assert_ne!(token, old_token);
        },
        _ => panic!("the program was not replaced"),
    }
    let cx = context(&kernel, child);
    assert_eq!(cx.sepc, 0x20000);
    assert_eq!(cx.x[2], 0x25000);
    assert_eq!(cx.x[10], 0);
    assert_eq!(cx.kernel_sp, TRAMPOLINE - 0x3000);
    assert_eq!(kernel.tasks[1].inner_ref().base_size, 0x25000);
    for frame in old_frames {
        let owners = [0usize, 1]
            .iter()
            .filter(|t| {
                let space = &kernel.tasks[**t].inner_ref().memory_set;
                (0x10..0x30u64).any(|v| {
                    space.user_frame(VirtPageNum(v), 0) == Some(frame)
                })
            })
            .count();
        assert_eq!(owners, 0);
    }
    assert_ne!(kernel.tasks[1].inner_ref().get_trap_cx(), PhysPageNum(0));
    let _ = old_trap;
    let token = kernel.tasks[1].inner_ref().get_user_token();
    assert!(translated_frame(&kernel.pool.memory, token, 0x10000).is_none());
    match ecall(&mut kernel, 64, [1, 0x21000, 3]) {
        TrapOutcome::Console(bytes, _, 3) => assert_eq!(bytes, b">> ".to_vec()),
        _ => panic!("no prompt"),
    }
    assert_eq!(user_bytes(&kernel, 0, HELLO, 6), b"hello\n".to_vec());
    assert_eq!(kernel.tasks[1].inner_ref().parent, Some(0));
    assert_eq!(kernel.tasks[0].inner_ref().children, vec![child]);
}

#[test]
fn the_timer_takes_turns() {
    let mut kernel = running();
    let child = result_of(ecall(&mut kernel, 220, [0, 0, 0])) as usize;
    let mut order: Vec<usize> = Vec::new();
    let mut ticks = 1_000u64;
    for _ in 0..6 {
        order.push(kernel.processor.current().unwrap());
        match trap_handler(&mut kernel, TIMER, 0, ticks) {
            TrapOutcome::Switch(SwitchCause::Preempted(next)) => assert_eq!(next, ticks + 125_000),
            _ => panic!("the timer did not take the processor away"),
        }
        assert_eq!(kernel.processor.current(), None);
        ticks += 125_000;
        let (next, cx) = run_tasks(&mut kernel).unwrap();
        assert_eq!(status(&kernel, next), TaskStatus::Running);
        assert_eq!(cx.ra, 0x8020_2100);
    }
    assert_eq!(order, vec![0, child, 0, child, 0, child]);
    assert_eq!(context(&kernel, 0).sepc, 0x10004);
    assert_eq!(context(&kernel, child).sepc, 0x10004);
    match trap_handler(&mut kernel, TIMER, 0, u64::MAX) {
        TrapOutcome::Switch(SwitchCause::Preempted(next)) => assert_eq!(next, 124_999),
        _ => panic!("the timer did not take the processor away"),
    }
}

#[test]
fn children_of_a_task_that_ends_go_to_the_first_process() {
    let mut kernel = running();
    let child = result_of(ecall(&mut kernel, 220, [0, 0, 0])) as usize;
    assert_eq!(switch(&mut kernel), child);
    let grandchild = result_of(ecall(&mut kernel, 220, [0, 0, 0])) as usize;
    assert_eq!(grandchild, 2);
    assert_eq!(kernel.tasks[2].inner_ref().parent, Some(child));
    assert!(matches!(ecall(&mut kernel, 93, [3, 0, 0]), TrapOutcome::Switch(_)));
    assert_eq!(kernel.tasks[2].inner_ref().parent, Some(0));
    assert_eq!(kernel.tasks[0].inner_ref().children, vec![child, grandchild]);
    assert!(kernel.tasks[1].inner_ref().children.is_empty());
    assert_eq!(kernel.tasks[1].inner_ref().memory_set.area_count(), 0);
    assert_eq!(status(&kernel, grandchild), TaskStatus::Ready);
    assert_eq!(run_tasks(&mut kernel).unwrap().0, 0);
    assert_eq!(result_of(ecall(&mut kernel, 260, [2, EXIT_CODE, 0])), -2);
    assert_eq!(result_of(ecall(&mut kernel, 260, [u64::MAX, EXIT_CODE, 0])), 1);
    assert_eq!(user_bytes(&kernel, 0, EXIT_CODE, 4), vec![3, 0, 0, 0]);
    assert_eq!(kernel.tasks[0].inner_ref().children, vec![grandchild]);
}

#[test]
fn process_numbers_are_used_again() {
    let mut kernel = running();
    assert_eq!(result_of(ecall(&mut kernel, 220, [0, 0, 0])), 1);
    assert_eq!(result_of(ecall(&mut kernel, 220, [0, 0, 0])), 2);
    assert_eq!(switch(&mut kernel), 1);
    assert!(matches!(ecall(&mut kernel, 93, [0, 0, 0]), TrapOutcome::Switch(_)));
    assert_eq!(run_tasks(&mut kernel).unwrap().0, 2);
    assert_eq!(switch(&mut kernel), 0);
    assert_eq!(result_of(ecall(&mut kernel, 260, [1, EXIT_CODE, 0])), 1);
    assert_eq!(result_of(ecall(&mut kernel, 220, [0, 0, 0])), 1);
    assert_eq!(result_of(ecall(&mut kernel, 220, [0, 0, 0])), 3);
}

#[test]
fn fork_without_frames_stops_the_kernel() {
    let mut kernel = boot_with(40);
    assert_eq!(add_initproc(&mut kernel), Ok(0));
    assert!(run_tasks(&mut kernel).is_some());
    let mut forks = 0;
    loop {
        let before = free_frames(&kernel);
        match ecall(&mut kernel, 220, [0, 0, 0]) {
            TrapOutcome::Resume(_, _) => forks += 1,
            TrapOutcome::Fatal(e) => {
                assert_eq!(e, KernelError::OutOfFrames);
                assert_eq!(free_frames(&kernel), before);
                assert_eq!(kernel.tasks.len(), forks + 1);
                break;
            },
            _ => panic!("neither a child nor a stop"),
        }
        assert!(forks < 10);
    }
}

#[test]
fn programs_are_found_by_name() {
    let apps = apps();
    assert_eq!(get_num_app(&apps), 2);
    assert_eq!(get_app_data_by_name(&apps, &b"initproc".to_vec()), Some(1));
    assert_eq!(get_app_data_by_name(&apps, &b"user_shell".to_vec()), Some(0));
    assert_eq!(get_app_data_by_name(&apps, &b"user_shel".to_vec()), None);
    assert_eq!(get_app_data_by_name(&apps, &b"user_shell2".to_vec()), None);
    assert_eq!(get_app_data_by_name(&Vec::new(), &b"initproc".to_vec()), None);
    let twice = vec![
        App { name: b"a".to_vec(), data: vec![1] },
        App { name: b"a".to_vec(), data: vec![2] },
    ];
    assert_eq!(get_app_data_by_name(&twice, &b"a".to_vec()), Some(0));
}

#[test]
fn the_running_task_is_at_hand() {
    let mut kernel = running();
    assert_eq!(current_task(&kernel), Some(0));
    assert_eq!(current_index(&kernel), Ok(0));
    assert_eq!(current_user_token(&kernel), Ok(kernel.tasks[0].inner_ref().get_user_token()));
    let cx = current_trap_cx(&kernel).unwrap();
    assert_eq!(cx.sepc, 0x10000);
    assert_eq!(cx.x[2], 0x15000);
    assert_eq!(kernel.tasks[0].getpid(), 0);
    assert!(!kernel.tasks[0].inner_ref().is_zombie());
    assert_eq!(take_current_task(&mut kernel), Some(0));
    assert_eq!(take_current_task(&mut kernel), None);
    assert_eq!(current_task(&kernel), None);
    assert_eq!(current_index(&kernel), Err(KernelError::NoCurrentTask));
    assert_eq!(current_user_token(&kernel), Err(KernelError::NoCurrentTask));
    assert!(current_trap_cx(&kernel).is_err());
}

#[test]
fn every_page_of_every_task_translates() {
    let mut kernel = running();
    let child = result_of(ecall(&mut kernel, 220, [0, 0, 0])) as usize;
    for pid in [0, child] {
        let space = &kernel.tasks[kernel.find_task(pid).unwrap()].inner_ref().memory_set;
        for (vpn, bits) in [(0x10u64, 0x1b), (0x11, 0x17), (0x13, 0x17), (0x14, 0x17), (0x7ff_fffe, 0x07)] {
            let entry = space.translate(&kernel.pool, VirtPageNum(vpn)).unwrap();
            assert!(entry.is_valid());
            assert_eq!(entry.flags().bits, bits);
            assert!(kernel.pool.allocator.is_allocated(entry.ppn()));
            if vpn < 0x7ff_fffe {
                assert_eq!(space.user_frame(VirtPageNum(vpn), 0), Some(entry.ppn()));
            }
        }
        let guard = space.translate(&kernel.pool, VirtPageNum(0x12));
        assert!(guard.map_or(true, |e| !e.is_valid()));
    }
    for vpn in [0x80200u64, 0x80400, 0x807ff] {
        let entry = kernel.kernel_space.translate(&kernel.pool, VirtPageNum(vpn)).unwrap();
        assert!(entry.is_valid());
        assert_eq!(entry.ppn(), PhysPageNum(vpn));
    }
}

#[test]
fn a_task_is_made_whenever_frames_number_and_stack_are_there() {
    let mut kernel = boot_with(400);
    for expected in 0..8usize {
        assert_eq!(TaskControlBlock::new(&mut kernel, &initproc_image()), Ok(expected));
    }
    assert_eq!(kernel.tasks.len(), 8);
    let mut small = boot_with(15);
    assert_eq!(
        TaskControlBlock::new(&mut small, &initproc_image()),
        Err(KernelError::OutOfFrames)
    );
    assert_eq!(TaskControlBlock::new(&mut small, &[0u8; 8]), Err(KernelError::BadProgram));
}

#[test]
fn a_stack_place_that_is_taken_stops_a_new_task() {
    let mut kernel = boot_with(400);
    assert_eq!(kernel.alloc_kernel_stack(0), Ok(TRAMPOLINE));
    let before = free_frames(&kernel);
    assert_eq!(kernel.alloc_kernel_stack(0), Err(KernelError::StackInUse));
    assert_eq!(
        TaskControlBlock::new(&mut kernel, &initproc_image()),
        Err(KernelError::StackInUse)
    );
    assert_eq!(free_frames(&kernel), before);
    assert_eq!(kernel.tasks.len(), 0);
    kernel.free_kernel_stack(0);
    assert_eq!(TaskControlBlock::new(&mut kernel, &initproc_image()), Ok(0));
}

#[test]
fn a_kernel_stack_that_is_given_up_is_unmapped() {
    let mut kernel = boot_with(400);
    let areas = kernel.kernel_space.area_count();
    let before = free_frames(&kernel);
    assert_eq!(kernel.alloc_kernel_stack(3), Ok(TRAMPOLINE - 3 * 0x3000));
    assert_eq!(kernel.kernel_space.area_count(), areas + 1);
    let top_page = (TRAMPOLINE - 3 * 0x3000) / 4096 & 0x7ff_ffff;
    for vpn in [top_page - 2, top_page - 1] {
        let entry = kernel.kernel_space.translate(&kernel.pool, VirtPageNum(vpn)).unwrap();
        assert!(entry.is_valid() && entry.readable() && entry.writable());
    }
    let guard = kernel.kernel_space.translate(&kernel.pool, VirtPageNum(top_page));
    assert!(guard.map_or(true, |e| !e.is_valid()));
    let taken = before - free_frames(&kernel);
    assert!(taken >= 2);
    kernel.free_kernel_stack(3);
    assert_eq!(kernel.kernel_space.area_count(), areas);
    for vpn in [top_page - 2, top_page - 1] {
        let entry = kernel.kernel_space.translate(&kernel.pool, VirtPageNum(vpn));
        assert!(entry.map_or(true, |e| !e.is_valid()));
    }
    assert_eq!(free_frames(&kernel), before - (taken - 2));
    kernel.free_kernel_stack(3);
    assert_eq!(kernel.kernel_space.area_count(), areas);
}

#[test]
fn a_fault_leaves_queue_and_other_tasks_alone() {
    let mut kernel = running();
    let first = result_of(ecall(&mut kernel, 220, [0, 0, 0])) as usize;
    let second = result_of(ecall(&mut kernel, 220, [0, 0, 0])) as usize;
    assert_eq!(switch(&mut kernel), first);
    let areas = kernel.kernel_space.area_count();
    let parent_cx = context(&kernel, 0);
    let r = trap_handler(&mut kernel, 2, 0, 0);
    assert!(matches!(r, TrapOutcome::Switch(SwitchCause::IllegalInstruction)));
    assert_eq!(kernel.manager.len(), 2);
    assert_eq!(kernel.kernel_space.area_count(), areas);
    assert_eq!(status(&kernel, 0), TaskStatus::Ready);
    assert_eq!(status(&kernel, second), TaskStatus::Ready);
    assert_eq!(context(&kernel, 0).sepc, parent_cx.sepc);
    assert_eq!(context(&kernel, 0).x, parent_cx.x);
    assert_eq!(run_tasks(&mut kernel).unwrap().0, second);
    assert_eq!(switch(&mut kernel), 0);
}

#[test]
fn fork_leaves_the_trap_context_of_the_parent_alone() {
    let mut kernel = running();
    let t = kernel.find_task(0).unwrap();
    let mut cx = kernel.read_trap_cx(t);
    cx.x[5] = 0x5555;
    cx.x[31] = 0x3131;
    kernel.write_trap_cx(t, &cx);
    let frame = kernel.tasks[0].inner_ref().get_trap_cx();
    let child = result_of(ecall(&mut kernel, 220, [0, 0, 0])) as usize;
    assert_eq!(kernel.tasks[0].inner_ref().get_trap_cx(), frame);
    let after = context(&kernel, 0);
    assert_eq!(after.x[5], 0x5555);
    assert_eq!(after.x[31], 0x3131);
    assert_eq!(after.x[10], child as u64);
    assert_eq!(after.x[17], 220);
    assert_eq!(after.sepc, cx.sepc + 4);
    assert_eq!(after.kernel_sp, cx.kernel_sp);
    let theirs = context(&kernel, child);
    assert_eq!(theirs.x[5], 0x5555);
    assert_eq!(theirs.x[31], 0x3131);
}
