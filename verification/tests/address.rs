use sv39_kernel::address::{PhysAddr, VirtAddr, VirtPageNum};

#[test]
fn floor_and_ceil_of_addresses() {
    assert_eq!(PhysAddr(0x1234).floor().0, 1);
    assert_eq!(PhysAddr(0x1234).ceil().0, 2);
    assert_eq!(VirtAddr(0x2000).ceil().0, 2);
    assert_eq!(VirtAddr(0).ceil().0, 0);
}

#[test]
fn indexes_of_page_number() {
    let idx = VirtPageNum(0x7ff_ffff).indexes();
    assert_eq!(idx, [511, 511, 511]);
    let idx = VirtPageNum((3 << 18) | (2 << 9) | 1).indexes();
    assert_eq!(idx, [3, 2, 1]);
}
