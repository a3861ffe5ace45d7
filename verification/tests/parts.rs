use sv39_kernel::address::{SimpleRange, StepByOne, VPNRange, VirtAddr, VirtPageNum};
use sv39_kernel::codec::{load_u32, load_u64, store_u32, store_u64};
use sv39_kernel::config::{
    CLOCK_FREQ, KERNEL_STACK_SIZE, MEMORY_END, PAGE_SIZE, TRAMPOLINE, TRAP_CONTEXT, USER_STACK_SIZE,
};
use sv39_kernel::mm::memory_set::KernelLayout;
use sv39_kernel::sync::up::UPSafeCell;
use sv39_kernel::task::context::TaskContext;
use sv39_kernel::task::manager::{add_task, fetch_task, TaskManager};
use sv39_kernel::task::pid::{kernel_stack_position, pid_alloc, KernelStack, PidAllocator, PidHandle};
use sv39_kernel::task::processor::Processor;
use sv39_kernel::timer::{get_time, get_time_ms, set_next_trigger};
use sv39_kernel::trap::{init, set_kernel_trap_entry, set_user_trap_entry};
use sv39_kernel::user::WaitStep;
use sv39_kernel::address::PhysPageNum;

#[test]
fn constants_of_the_machine() {
    assert_eq!(PAGE_SIZE, 4096);
    assert_eq!(USER_STACK_SIZE, 8192);
    assert_eq!(KERNEL_STACK_SIZE, 8192);
    assert_eq!(MEMORY_END, 0x8080_0000);
    assert_eq!(TRAMPOLINE, u64::MAX - 4095);
    assert_eq!(TRAP_CONTEXT, TRAMPOLINE - 4096);
    assert_eq!(CLOCK_FREQ, 12_500_000);
}

#[test]
fn ranges_of_pages() {
    let range: VPNRange = SimpleRange::new(VirtPageNum(3), VirtPageNum(6));
    assert_eq!(range.get_start(), VirtPageNum(3));
    assert_eq!(range.get_end(), VirtPageNum(6));
    let mut it = range.into_iter();
    assert_eq!(it.next(), Some(VirtPageNum(3)));
    assert_eq!(it.next(), Some(VirtPageNum(4)));
    assert_eq!(it.next(), Some(VirtPageNum(5)));
    assert_eq!(it.next(), None);
    assert_eq!(it.next(), None);
    let empty: VPNRange = SimpleRange::new(VirtPageNum(9), VirtPageNum(9));
    assert_eq!(empty.into_iter().next(), None);
    let mut page = VirtPageNum(41);
    page.step();
    assert_eq!(page, VirtPageNum(42));
}

#[test]
fn addresses_keep_their_width() {
    assert_eq!(VirtAddr::from(0x40_0000_1234u64).0, 0x40_0000_1234);
    assert_eq!(VirtAddr::from(0xffff_ffc0_0000_1234u64).0, 0x40_0000_1234);
    assert_eq!(u64::from(VirtAddr(0x40_0000_1234)), 0xffff_ffc0_0000_1234);
    assert_eq!(u64::from(VirtAddr(0x3f_ffff_ffff)), 0x3f_ffff_ffff);
    assert_eq!(VirtAddr::from(0x3f_ffff_ffffu64).0, 0x3f_ffff_ffff);
    assert_eq!(VirtPageNum::from(0xfff_ffffu64).0, 0x7ff_ffff);
    assert_eq!(VirtPageNum::from(VirtAddr(TRAMPOLINE)).0 & 0x7ff_ffff, 0x7ff_ffff);
}

#[test]
fn words_in_byte_buffers() {
    let mut buf = vec![0u8; 16];
    store_u32(&mut buf, 3, 0x0403_0201);
    assert_eq!(&buf[2..8], &[0, 1, 2, 3, 4, 0]);
    assert_eq!(load_u32(&buf, 3), 0x0403_0201);
    assert_eq!(load_u32(&buf, 4), 0x0004_0302);
    store_u64(&mut buf, 8, 0x0807_0605_0403_0201);
    assert_eq!(&buf[8..16], &[1, 2, 3, 4, 5, 6, 7, 8]);
    assert_eq!(load_u64(&buf, 8), 0x0807_0605_0403_0201);
    assert_eq!(load_u64(&buf, 0), 0x0004_0302_0100_0000);
}

#[test]
fn time_in_milliseconds() {
    assert_eq!(get_time(77), 77);
    assert_eq!(get_time_ms(0), 0);
    assert_eq!(get_time_ms(12_499), 0);
    assert_eq!(get_time_ms(12_500), 1);
    assert_eq!(get_time_ms(12_500_000), 1000);
    assert_eq!(set_next_trigger(0), 125_000);
    assert_eq!(set_next_trigger(1_000_000), 1_125_000);
    assert_eq!(set_next_trigger(u64::MAX), 124_999);
}

#[test]
fn trap_vectors() {
    assert_eq!(init(0x8020_2000), 0x8020_2000);
    assert_eq!(set_kernel_trap_entry(0x8020_2003), 0x8020_2000);
    assert_eq!(set_user_trap_entry(), TRAMPOLINE);
}

#[test]
fn process_numbers() {
    let mut allocator = PidAllocator::new();
    assert_eq!(allocator.allocate().map(|h| h.0), Some(0));
    assert_eq!(pid_alloc(&mut allocator).map(|h| h.0), Some(1));
    assert_eq!(allocator.allocate().map(|h| h.0), Some(2));
    assert!(allocator.in_use(1));
    assert!(!allocator.in_use(3));
    allocator.dealloc(0);
    allocator.dealloc(1);
    assert!(!allocator.in_use(1));
    assert_eq!(allocator.allocate().map(|h| h.0), Some(1));
    assert_eq!(allocator.allocate().map(|h| h.0), Some(0));
    assert_eq!(allocator.allocate().map(|h| h.0), Some(3));
}

#[test]
fn kernel_stacks_lie_below_the_trampoline() {
    assert_eq!(kernel_stack_position(0), (TRAMPOLINE - 0x2000, TRAMPOLINE));
    assert_eq!(kernel_stack_position(1), (TRAMPOLINE - 0x5000, TRAMPOLINE - 0x3000));
    assert_eq!(kernel_stack_position(10), (TRAMPOLINE - 0x20000, TRAMPOLINE - 0x1e000));
    let stack = KernelStack::new(&PidHandle(2));
    assert_eq!(stack.get_top(), TRAMPOLINE - 0x6000);
}

#[test]
fn the_ready_queue_is_first_in_first_out() {
    let mut manager = TaskManager::new();
    assert_eq!(manager.len(), 0);
    assert_eq!(manager.fetch(), None);
    manager.add(4);
    add_task(&mut manager, 2);
    manager.add(9);
    assert_eq!(manager.len(), 3);
    assert_eq!(manager.fetch(), Some(4));
    manager.add(4);
    assert_eq!(fetch_task(&mut manager), Some(2));
    assert_eq!(manager.fetch(), Some(9));
    assert_eq!(manager.fetch(), Some(4));
    assert_eq!(manager.fetch(), None);
}

#[test]
fn the_processor_holds_one_task() {
    let mut processor = Processor::new();
    assert_eq!(processor.current(), None);
    assert_eq!(processor.take_current(), None);
    processor.set_current(3);
    assert_eq!(processor.current(), Some(3));
    assert_eq!(processor.current(), Some(3));
    assert_eq!(processor.take_current(), Some(3));
    assert_eq!(processor.current(), None);
    assert_eq!(processor.get_idle_task_cx().ra, 0);
    processor.set_idle_task_cx(TaskContext::goto_trap_return(8, 9));
    assert_eq!(processor.get_idle_task_cx().sp, 8);
}

#[test]
fn task_contexts() {
    let zero = TaskContext::zero_init();
    assert_eq!((zero.ra, zero.sp), (0, 0));
    assert_eq!(zero.s, [0u64; 12]);
    let cx = TaskContext::goto_trap_return(0xffff_0000, 0x8020_2100);
    assert_eq!(cx.ra, 0x8020_2100);
    assert_eq!(cx.sp, 0xffff_0000);
    assert_eq!(cx.s, [0u64; 12]);
}

#[test]
fn a_cell_gives_its_value_out() {
    let mut cell = UPSafeCell::new(5u32);
    assert_eq!(*cell.get(), 5);
    *cell.exclusive_access() += 2;
    assert_eq!(*cell.get(), 7);
    assert_eq!(cell.into_inner(), 7);
}

#[test]
fn the_trampoline_frame_of_a_layout() {
    let layout = KernelLayout {
        stext: 0x8020_0000,
        etext: 0x8020_3000,
        srodata: 0x8020_3000,
        erodata: 0x8020_4000,
        sdata: 0x8020_4000,
        edata: 0x8020_5000,
        sbss_with_stack: 0x8020_5000,
        ebss: 0x8020_8000,
        ekernel: 0x8020_8000,
        strampoline: 0x8020_1000,
    };
    let (pool, space, satp) =
        sv39_kernel::mm::init(PhysPageNum(0x80208), PhysPageNum(0x80300), &layout).unwrap();
    assert_eq!(satp, space.token());
    assert_eq!(satp >> 60, 8);
    assert_eq!(space.trampoline_frame(), PhysPageNum(0x80201));
    assert!(pool.allocator.is_allocated(PhysPageNum(satp & 0xfff_ffff_ffff)));
}

#[test]
fn requests_of_user_programs() {
    let r = sv39_kernel::user::write(1, 0x1000, 5);
    assert_eq!((r.id, r.args), (64, [1, 0x1000, 5]));
    let r = sv39_kernel::user::read(0, 0x2000, 1);
    assert_eq!((r.id, r.args), (63, [0, 0x2000, 1]));
    let r = sv39_kernel::user::exit(-3);
    assert_eq!((r.id, r.args), (93, [(-3i64) as u64, 0, 0]));
    let r = sv39_kernel::user::yield_();
    assert_eq!((r.id, r.args), (124, [0, 0, 0]));
    let r = sv39_kernel::user::get_time();
    assert_eq!((r.id, r.args), (169, [0, 0, 0]));
    let r = sv39_kernel::user::getpid();
    assert_eq!((r.id, r.args), (172, [0, 0, 0]));
    let r = sv39_kernel::user::fork();
    assert_eq!((r.id, r.args), (220, [0, 0, 0]));
    let r = sv39_kernel::user::exec(0x3000);
    assert_eq!((r.id, r.args), (221, [0x3000, 0, 0]));
    let r = sv39_kernel::user::sys_waitpid(-1, 0x4000);
    assert_eq!((r.id, r.args), (260, [u64::MAX, 0x4000, 0]));
    let r = sv39_kernel::user::sys_waitpid(6, 0x4000);
    assert_eq!((r.id, r.args), (260, [6, 0x4000, 0]));
}

#[test]
fn waiting_in_user_programs() {
    assert_eq!(sv39_kernel::user::wait(-2), WaitStep::Yield);
    assert_eq!(sv39_kernel::user::wait(-1), WaitStep::Return(-1));
    assert_eq!(sv39_kernel::user::wait(4), WaitStep::Return(4));
    assert_eq!(sv39_kernel::user::waitpid(-2), WaitStep::Yield);
    assert_eq!(sv39_kernel::user::waitpid(-1), WaitStep::Return(-1));
    assert_eq!(sv39_kernel::user::waitpid(0), WaitStep::Return(0));
    assert_eq!(sv39_kernel::user::sleep(100, 100, 50), WaitStep::Yield);
    assert_eq!(sv39_kernel::user::sleep(100, 149, 50), WaitStep::Yield);
    assert_eq!(sv39_kernel::user::sleep(100, 150, 50), WaitStep::Return(0));
    assert_eq!(sv39_kernel::user::sleep(100, 100, 0), WaitStep::Return(0));
    assert_eq!(sv39_kernel::user::sleep(isize::MIN, isize::MAX, usize::MAX), WaitStep::Return(0));
}
