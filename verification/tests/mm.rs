use sv39_kernel::address::{PhysAddr, PhysPageNum, VirtAddr, VirtPageNum};
use sv39_kernel::elf::{parse_elf, ElfError};
use sv39_kernel::mm::frame_allocator::StackFrameAllocator;
use sv39_kernel::mm::map_area::{MapArea, MapPermission, MapType, MAP_R, MAP_U, MAP_W, MAP_X};
use sv39_kernel::mm::memory_set::{
    check_specs, AreaSpec, BuildError, KernelLayout, LoadError, MemorySet,
};
use sv39_kernel::mm::page_table::{
    MemError, PTEFlags, PageTable, PageTableEntry, PTE_R, PTE_U, PTE_V, PTE_W, PTE_X,
};
use sv39_kernel::mm::phys_memory::{FramePool, PhysMemory};
use sv39_kernel::mm::user_memory::{
    translated_byte_buffer, translated_frame, translated_ref_mut, translated_str,
};

const TRAMPOLINE_FRAME: PhysPageNum = PhysPageNum(0x80001);

fn pool(frames: u64) -> FramePool {
    FramePool::new(PhysPageNum(0x80100), PhysPageNum(0x80100 + frames))
}

fn free_frames(pool: &FramePool) -> u64 {
    let mut n = 0u64;
    while pool.can_allocate(n + 1) {
        n += 1;
    }
    n
}

fn unmapped(entry: Option<PageTableEntry>) -> bool {
    match entry {
        Some(e) => !e.is_valid() && e.bits == 0,
        None => true,
    }
}

fn perm(bits: u8) -> MapPermission {
    MapPermission::from_bits(bits).unwrap()
}

fn flags(bits: u8) -> PTEFlags {
    PTEFlags::from_bits(bits).unwrap()
}

fn put16(buf: &mut Vec<u8>, at: usize, v: u16) {
    buf[at..at + 2].copy_from_slice(&v.to_le_bytes());
}

fn put32(buf: &mut Vec<u8>, at: usize, v: u32) {
    buf[at..at + 4].copy_from_slice(&v.to_le_bytes());
}

fn put64(buf: &mut Vec<u8>, at: usize, v: u64) {
    buf[at..at + 8].copy_from_slice(&v.to_le_bytes());
}

/// An ELF image of the 64-bit class with one program header for each segment: its
/// type, flags, address, bytes and size in memory.
fn elf_image(entry: u64, segments: &[(u32, u32, u64, Vec<u8>, u64)]) -> Vec<u8> {
    let headers = 64 + 56 * segments.len();
    let mut image = vec![0u8; headers];
    image[0..4].copy_from_slice(&[0x7f, 0x45, 0x4c, 0x46]);
    image[4] = 2;
    image[5] = 1;
    image[6] = 1;
    put16(&mut image, 16, 2);
    put16(&mut image, 18, 0xf3);
    put32(&mut image, 20, 1);
    put64(&mut image, 24, entry);
    put64(&mut image, 32, 64);
    put16(&mut image, 52, 64);
    put16(&mut image, 54, 56);
    put16(&mut image, 56, segments.len() as u16);
    for (i, (kind, flags, vaddr, bytes, mem_size)) in segments.iter().enumerate() {
        let at = 64 + 56 * i;
        let offset = image.len() as u64;
        put32(&mut image, at, *kind);
        put32(&mut image, at + 4, *flags);
        put64(&mut image, at + 8, offset);
        put64(&mut image, at + 16, *vaddr);
        put64(&mut image, at + 24, *vaddr);
        put64(&mut image, at + 32, bytes.len() as u64);
        put64(&mut image, at + 40, *mem_size);
        put64(&mut image, at + 48, 4096);
        image.extend_from_slice(bytes);
    }
    image
}

fn small_program() -> Vec<u8> {
    let code: Vec<u8> = (0..100u32).map(|i| (i * 3 + 1) as u8).collect();
    let data: Vec<u8> = (0..5000u32).map(|i| (i % 251) as u8).collect();
    elf_image(
        0x10040,
        &[(1, 5, 0x10000, code, 100), (6, 4, 0x10000, Vec::new(), 0), (1, 6, 0x11000, data, 0x2800)],
    )
}

fn user_byte(pool: &FramePool, space: &MemorySet, addr: u64) -> u8 {
    let ppn = translated_frame(&pool.memory, space.token(), addr).unwrap();
    pool.memory.read_byte(ppn, (addr % 4096) as usize)
}

#[test]
fn frame_allocator_round_trip() {
    let mut allocator = StackFrameAllocator::new(PhysPageNum(10), PhysPageNum(13));
    assert!(allocator.can_allocate(3));
    assert!(!allocator.can_allocate(4));
    let first = allocator.allocate().unwrap();
    assert_eq!(first, PhysPageNum(10));
    assert!(allocator.is_allocated(first));
    assert!(!allocator.is_allocated(PhysPageNum(11)));
    assert!(allocator.can_allocate(2));
    allocator.dealloc(first);
    assert!(!allocator.is_allocated(first));
    assert!(allocator.can_allocate(3));
    assert_eq!(allocator.allocate(), Some(PhysPageNum(10)));
    assert!(allocator.can_allocate(2));
}

#[test]
fn frame_allocator_runs_out() {
    let mut allocator = StackFrameAllocator::new(PhysPageNum(10), PhysPageNum(13));
    assert_eq!(allocator.allocate(), Some(PhysPageNum(10)));
    assert_eq!(allocator.allocate(), Some(PhysPageNum(11)));
    assert_eq!(allocator.allocate(), Some(PhysPageNum(12)));
    assert_eq!(allocator.allocate(), None);
    allocator.dealloc(PhysPageNum(11));
    assert_eq!(allocator.allocate(), Some(PhysPageNum(11)));
    assert_eq!(allocator.allocate(), None);
}

#[test]
fn frame_allocator_reuses_the_last_freed_frame_first() {
    let mut allocator = StackFrameAllocator::new(PhysPageNum(0), PhysPageNum(8));
    for _ in 0..4 {
        allocator.allocate();
    }
    allocator.dealloc(PhysPageNum(1));
    allocator.dealloc(PhysPageNum(3));
    assert_eq!(allocator.allocate(), Some(PhysPageNum(3)));
    assert_eq!(allocator.allocate(), Some(PhysPageNum(1)));
    assert_eq!(allocator.allocate(), Some(PhysPageNum(4)));
}

#[test]
fn an_empty_frame_allocator_has_nothing() {
    let mut allocator = StackFrameAllocator::new(PhysPageNum(5), PhysPageNum(5));
    assert!(allocator.can_allocate(0));
    assert!(!allocator.can_allocate(1));
    assert_eq!(allocator.allocate(), None);
}

#[test]
fn frames_come_zeroed() {
    let mut pool = pool(2);
    let frame = pool.frame_alloc().unwrap();
    let ppn = frame.ppn;
    pool.memory.write_byte(ppn, 17, 0xaa);
    pool.memory.write_u64(ppn, 511, u64::MAX);
    assert_eq!(pool.memory.read_byte(ppn, 17), 0xaa);
    pool.frame_dealloc(frame);
    let again = pool.frame_alloc().unwrap();
    assert_eq!(again.ppn, ppn);
    assert_eq!(pool.memory.read_byte(ppn, 17), 0);
    assert_eq!(pool.memory.read_u64(ppn, 511), 0);
}

#[test]
fn memory_words_are_little_endian() {
    let mut memory = PhysMemory::new(PhysPageNum(7), 2);
    assert!(memory.contains(PhysPageNum(7)));
    assert!(memory.contains(PhysPageNum(8)));
    assert!(!memory.contains(PhysPageNum(9)));
    assert!(!memory.contains(PhysPageNum(6)));
    memory.write_u64(PhysPageNum(8), 2, 0x0102_0304_0506_0708);
    assert_eq!(memory.read_byte(PhysPageNum(8), 16), 0x08);
    assert_eq!(memory.read_byte(PhysPageNum(8), 23), 0x01);
    memory.write_bytes(PhysPageNum(7), 4090, &[1, 2, 3, 4, 5, 6, 7, 8], 2, 6);
    assert_eq!(memory.read_byte(PhysPageNum(7), 4090), 3);
    assert_eq!(memory.read_byte(PhysPageNum(7), 4095), 8);
    memory.copy_frame(PhysPageNum(8), PhysPageNum(7));
    assert_eq!(memory.read_byte(PhysPageNum(8), 4095), 8);
    assert_eq!(memory.read_byte(PhysPageNum(8), 16), 0);
    memory.clear_frame(PhysPageNum(7));
    assert_eq!(memory.read_byte(PhysPageNum(7), 4095), 0);
}

#[test]
fn page_table_entry_packs_frame_and_flags() {
    let entry = PageTableEntry::new(PhysPageNum(0x12345), flags(PTE_V | PTE_R | PTE_X));
    assert_eq!(entry.bits, (0x12345 << 10) | 0x0b);
    assert_eq!(entry.ppn(), PhysPageNum(0x12345));
    assert_eq!(entry.flags().bits, 0x0b);
    assert!(entry.is_valid());
    assert!(entry.readable());
    assert!(!entry.writable());
    assert!(entry.executable());
    let none = PageTableEntry::empty();
    assert_eq!(none.bits, 0);
    assert!(!none.is_valid());
}

#[test]
fn flag_sets() {
    let rw = flags(PTE_R).union(flags(PTE_W));
    assert_eq!(rw.bits, 0x06);
    assert!(rw.contains(flags(PTE_W)));
    assert!(!rw.contains(flags(PTE_X)));
    assert!(rw.intersection(flags(PTE_X | PTE_U)).is_empty());
    assert!(PTEFlags::empty().is_empty());
    assert!(MapPermission::from_bits(0x01).is_none());
    assert!(MapPermission::from_bits(0x20).is_none());
    assert_eq!(perm(MAP_R).union(perm(MAP_U)).bits, 0x12);
    assert!(perm(MAP_R | MAP_W).contains(perm(MAP_W)));
    assert!(!perm(MAP_R | MAP_W).contains(perm(MAP_X)));
    assert_eq!(MapPermission::empty().bits, 0);
}

#[test]
fn page_table_maps_and_unmaps() {
    let mut pool = pool(16);
    let mut table = PageTable::new(&mut pool).unwrap();
    assert_eq!(table.token(), (8u64 << 60) | table.root_ppn().0);
    let vpn = VirtPageNum(0x12345);
    assert!(unmapped(table.translate(&pool.memory, vpn)));
    assert_eq!(table.missing_tables(&pool.memory, vpn), 2);
    table.map(&mut pool, vpn, PhysPageNum(0x80055), flags(PTE_R | PTE_W)).unwrap();
    assert_eq!(table.missing_tables(&pool.memory, vpn), 0);
    assert_eq!(table.missing_tables(&pool.memory, VirtPageNum(0x12346)), 0);
    assert_eq!(table.missing_tables(&pool.memory, VirtPageNum(0x12545)), 1);
    let entry = table.translate(&pool.memory, vpn).unwrap();
    assert!(entry.is_valid());
    assert_eq!(entry.ppn(), PhysPageNum(0x80055));
    assert_eq!(entry.flags().bits, PTE_V | PTE_R | PTE_W);
    assert!(unmapped(table.translate(&pool.memory, VirtPageNum(0x12346))));
    assert_eq!(
        table.translate_va(&pool.memory, VirtAddr(0x12345_678)),
        Some(PhysAddr(0x80055_678))
    );
    assert_eq!(table.translate_va(&pool.memory, VirtAddr(0x12346_010)), Some(PhysAddr(0x10)));
    assert_eq!(table.translate_va(&pool.memory, VirtAddr(0x4000_0000)), None);
    let seen = PageTable::from_token(table.token());
    assert_eq!(seen.translate(&pool.memory, vpn).unwrap().ppn(), PhysPageNum(0x80055));
    table.unmap(&mut pool, vpn);
    assert!(unmapped(table.translate(&pool.memory, vpn)));
    assert!(table.find_pte(&pool.memory, vpn).is_some());
    assert!(table.find_pte(&pool.memory, VirtPageNum(0x40000)).is_none());
    assert!(table.translate(&pool.memory, VirtPageNum(0x40000)).is_none());
}

#[test]
fn page_table_needs_frames() {
    let mut pool = pool(2);
    let mut table = PageTable::new(&mut pool).unwrap();
    assert_eq!(
        table.map(&mut pool, VirtPageNum(5), PhysPageNum(9), flags(PTE_R)),
        Err(MemError::OutOfFrames)
    );
    let mut none = FramePool::new(PhysPageNum(3), PhysPageNum(3));
    assert!(PageTable::new(&mut none).is_err());
}

#[test]
fn releasing_a_page_table_gives_its_frames_back() {
    let mut pool = pool(8);
    let mut table = PageTable::new(&mut pool).unwrap();
    table.map(&mut pool, VirtPageNum(1), PhysPageNum(9), flags(PTE_R)).unwrap();
    table.map(&mut pool, VirtPageNum(0x40000), PhysPageNum(9), flags(PTE_R)).unwrap();
    assert!(pool.can_allocate(3));
    assert!(!pool.can_allocate(4));
    table.release(&mut pool);
    assert!(pool.can_allocate(8));
}

#[test]
fn every_page_of_an_area_translates() {
    let mut pool = pool(32);
    let mut space = MemorySet::new_bare(&mut pool, TRAMPOLINE_FRAME).unwrap();
    space
        .insert_framed_area(&mut pool, VirtAddr(0x10000), VirtAddr(0x12001), perm(MAP_R | MAP_W | MAP_U))
        .unwrap();
    assert_eq!(space.area_count(), 1);
    let mut seen: Vec<u64> = Vec::new();
    for vpn in 0x10..0x13u64 {
        let entry = space.translate(&pool, VirtPageNum(vpn)).unwrap();
        assert!(entry.is_valid());
        assert_eq!(entry.flags().bits, PTE_V | PTE_R | PTE_W | PTE_U);
        assert_eq!(
            Some(entry.ppn()),
            space.data_frame(VirtPageNum(vpn), perm(MAP_R | MAP_W | MAP_U))
        );
        assert!(!seen.contains(&entry.ppn().0));
        seen.push(entry.ppn().0);
    }
    assert!(unmapped(space.translate(&pool, VirtPageNum(0x13))));
    assert!(unmapped(space.translate(&pool, VirtPageNum(0xf))));
    let trampoline = space.translate(&pool, VirtPageNum(0x7ff_ffff)).unwrap();
    assert_eq!(trampoline.ppn(), TRAMPOLINE_FRAME);
    assert_eq!(trampoline.flags().bits, PTE_V | PTE_R | PTE_X);
    assert_eq!(space.trampoline_frame(), TRAMPOLINE_FRAME);
}

#[test]
fn removing_an_area_frees_its_frames() {
    let mut pool = pool(32);
    let mut space = MemorySet::new_bare(&mut pool, TRAMPOLINE_FRAME).unwrap();
    assert!(space.is_free_range(VirtPageNum(0x10), VirtPageNum(0x14)));
    space
        .insert_framed_area(&mut pool, VirtAddr(0x10000), VirtAddr(0x14000), perm(MAP_R | MAP_U))
        .unwrap();
    assert!(!space.is_free_range(VirtPageNum(0x13), VirtPageNum(0x20)));
    assert!(space.is_free_range(VirtPageNum(0x14), VirtPageNum(0x20)));
    let frame = space.translate(&pool, VirtPageNum(0x11)).unwrap().ppn();
    assert!(pool.allocator.is_allocated(frame));
    space.remove_area_with_start_vpn(&mut pool, VirtPageNum(0x11));
    assert_eq!(space.area_count(), 1);
    space.remove_area_with_start_vpn(&mut pool, VirtPageNum(0x10));
    assert_eq!(space.area_count(), 0);
    assert!(unmapped(space.translate(&pool, VirtPageNum(0x11))));
    assert!(!pool.allocator.is_allocated(frame));
    space.destroy(&mut pool);
    assert!(pool.can_allocate(32));
}

#[test]
fn an_address_space_needs_frames() {
    let mut pool = pool(5);
    let mut space = MemorySet::new_bare(&mut pool, TRAMPOLINE_FRAME).unwrap();
    let r = space.insert_framed_area(&mut pool, VirtAddr(0x10000), VirtAddr(0x20000), perm(MAP_R | MAP_U));
    assert_eq!(r, Err(MemError::OutOfFrames));
    assert_eq!(space.area_count(), 0);
    assert!(unmapped(space.translate(&pool, VirtPageNum(0x10))));
}

#[test]
fn a_copy_has_the_same_bytes_on_other_frames() {
    let mut pool = pool(64);
    let mut parent = MemorySet::new_bare(&mut pool, TRAMPOLINE_FRAME).unwrap();
    parent
        .insert_framed_area(&mut pool, VirtAddr(0x10000), VirtAddr(0x12000), perm(MAP_R | MAP_W | MAP_U))
        .unwrap();
    parent
        .insert_framed_area(&mut pool, VirtAddr(0x40000), VirtAddr(0x41000), perm(MAP_R | MAP_X | MAP_U))
        .unwrap();
    for (k, vpn) in [0x10u64, 0x11, 0x40].iter().enumerate() {
        let ppn = parent.translate(&pool, VirtPageNum(*vpn)).unwrap().ppn();
        for offset in 0..4096usize {
            pool.memory.write_byte(ppn, offset, (offset * 7 + k) as u8);
        }
    }
    let child = MemorySet::from_existed_user(&mut pool, &parent).unwrap();
    assert_eq!(child.area_count(), 2);
    assert_ne!(child.token(), parent.token());
    for vpn in [0x10u64, 0x11, 0x40] {
        let ours = parent.translate(&pool, VirtPageNum(vpn)).unwrap();
        let theirs = child.translate(&pool, VirtPageNum(vpn)).unwrap();
        assert_ne!(ours.ppn(), theirs.ppn());
        assert_eq!(ours.flags().bits, theirs.flags().bits);
        for offset in 0..4096usize {
            assert_eq!(
                pool.memory.read_byte(ours.ppn(), offset),
                pool.memory.read_byte(theirs.ppn(), offset)
            );
        }
    }
    let theirs = child.translate(&pool, VirtPageNum(0x10)).unwrap().ppn();
    pool.memory.write_byte(theirs, 0, 0xff);
    assert_eq!(user_byte(&pool, &parent, 0x10000), 0);
    assert_eq!(user_byte(&pool, &child, 0x10000), 0xff);
    assert_eq!(child.translate(&pool, VirtPageNum(0x7ff_ffff)).unwrap().ppn(), TRAMPOLINE_FRAME);
}

#[test]
fn a_copy_that_runs_out_of_frames_leaves_nothing_behind() {
    let mut pool = pool(12);
    let mut parent = MemorySet::new_bare(&mut pool, TRAMPOLINE_FRAME).unwrap();
    parent
        .insert_framed_area(&mut pool, VirtAddr(0x10000), VirtAddr(0x14000), perm(MAP_R | MAP_W | MAP_U))
        .unwrap();
    let before = free_frames(&pool);
    assert!(before < 9);
    assert!(MemorySet::from_existed_user(&mut pool, &parent).is_err());
    assert_eq!(free_frames(&pool), before);
    assert!(parent.translate(&pool, VirtPageNum(0x13)).is_some());
}

#[test]
fn parse_elf_reads_entry_and_segments() {
    let image = parse_elf(&small_program()).unwrap();
    assert_eq!(image.entry_point, 0x10040);
    assert_eq!(image.segments.len(), 2);
    assert_eq!(image.segments[0].virtual_addr, 0x10000);
    assert_eq!(image.segments[0].offset, 64 + 56 * 3);
    assert_eq!(image.segments[0].file_size, 100);
    assert_eq!(image.segments[0].mem_size, 100);
    assert!(image.segments[0].readable);
    assert!(!image.segments[0].writable);
    assert!(image.segments[0].executable);
    assert_eq!(image.segments[1].virtual_addr, 0x11000);
    assert_eq!(image.segments[1].offset, 64 + 56 * 3 + 100);
    assert_eq!(image.segments[1].file_size, 5000);
    assert_eq!(image.segments[1].mem_size, 0x2800);
    assert!(image.segments[1].readable);
    assert!(image.segments[1].writable);
    assert!(!image.segments[1].executable);
}

#[test]
fn parse_elf_refuses_other_bytes() {
    assert_eq!(parse_elf(&[]).err(), Some(ElfError::NotElf));
    assert_eq!(parse_elf(&[0x7f, 0x45, 0x4c]).err(), Some(ElfError::NotElf));
    assert_eq!(parse_elf(&vec![0u8; 200]).err(), Some(ElfError::NotElf));
    let mut image = small_program();
    image[1] = 0x46;
    assert_eq!(parse_elf(&image).err(), Some(ElfError::NotElf));
    let mut image = small_program();
    image[4] = 9;
    assert_eq!(parse_elf(&image).err(), Some(ElfError::NotElf));
}

#[test]
fn parse_elf_refuses_program_headers_out_of_place() {
    let mut cut = small_program();
    cut.truncate(64 + 56 * 2 + 10);
    assert_eq!(parse_elf(&cut).err(), Some(ElfError::BadProgramHeader));
    let mut short = small_program();
    put16(&mut short, 54, 40);
    assert_eq!(parse_elf(&short).err(), Some(ElfError::BadProgramHeader));
    let mut odd = small_program();
    put64(&mut odd, 32, 65);
    assert_eq!(parse_elf(&odd).err(), Some(ElfError::BadProgramHeader));
}

#[test]
fn from_elf_lays_a_program_out() {
    let mut pool = pool(64);
    let image = small_program();
    let (space, user_sp, entry) = MemorySet::from_elf(&mut pool, &image, TRAMPOLINE_FRAME).unwrap();
    assert_eq!(entry, 0x10040);
    assert_eq!(user_sp, 0x17000);
    assert_eq!(space.area_count(), 4);
    let code = space.translate(&pool, VirtPageNum(0x10)).unwrap();
    assert_eq!(code.flags().bits, PTE_V | PTE_R | PTE_X | PTE_U);
    for vpn in 0x11..0x14u64 {
        let data = space.translate(&pool, VirtPageNum(vpn)).unwrap();
        assert_eq!(data.flags().bits, PTE_V | PTE_R | PTE_W | PTE_U);
    }
    assert!(unmapped(space.translate(&pool, VirtPageNum(0x14))));
    for vpn in 0x15..0x17u64 {
        let stack = space.translate(&pool, VirtPageNum(vpn)).unwrap();
        assert_eq!(stack.flags().bits, PTE_V | PTE_R | PTE_W | PTE_U);
    }
    assert!(unmapped(space.translate(&pool, VirtPageNum(0x17))));
    let trap = space.translate(&pool, VirtPageNum(0x7ff_fffe)).unwrap();
    assert_eq!(trap.flags().bits, PTE_V | PTE_R | PTE_W);
    let trampoline = space.translate(&pool, VirtPageNum(0x7ff_ffff)).unwrap();
    assert_eq!(trampoline.ppn(), TRAMPOLINE_FRAME);
    for i in 0..100u64 {
        assert_eq!(user_byte(&pool, &space, 0x10000 + i), (i * 3 + 1) as u8);
    }
    assert_eq!(user_byte(&pool, &space, 0x10000 + 100), 0);
    for i in [0u64, 1, 250, 251, 4095, 4096, 4999] {
        assert_eq!(user_byte(&pool, &space, 0x11000 + i), (i % 251) as u8);
    }
    assert_eq!(user_byte(&pool, &space, 0x11000 + 5000), 0);
    assert_eq!(user_byte(&pool, &space, 0x13fff), 0);
}

#[test]
fn from_elf_refuses_what_is_no_program() {
    let mut pool = pool(64);
    let r = MemorySet::from_elf(&mut pool, &[1, 2, 3], TRAMPOLINE_FRAME);
    assert!(matches!(r, Err(LoadError::Elf(ElfError::NotElf))));
    let mut cut = small_program();
    cut.truncate(100);
    let r = MemorySet::from_elf(&mut pool, &cut, TRAMPOLINE_FRAME);
    assert!(matches!(r, Err(LoadError::Elf(ElfError::BadProgramHeader))));
    assert!(pool.can_allocate(64));
}

#[test]
fn from_elf_refuses_a_bad_layout() {
    let mut pool = pool(64);
    let overlap = elf_image(
        0x10000,
        &[(1, 5, 0x10000, vec![1; 16], 0x2000), (1, 6, 0x11000, vec![2; 16], 0x1000)],
    );
    let r = MemorySet::from_elf(&mut pool, &overlap, TRAMPOLINE_FRAME);
    assert!(matches!(r, Err(LoadError::BadLayout)));
    let mut missing = elf_image(0x10000, &[(1, 5, 0x10000, vec![1; 16], 0x1000)]);
    missing.truncate(64 + 56 + 8);
    let r = MemorySet::from_elf(&mut pool, &missing, TRAMPOLINE_FRAME);
    assert!(matches!(r, Err(LoadError::BadLayout)));
    assert!(pool.can_allocate(64));
}

#[test]
fn from_elf_needs_frames() {
    let mut pool = pool(6);
    let r = MemorySet::from_elf(&mut pool, &small_program(), TRAMPOLINE_FRAME);
    assert!(matches!(r, Err(LoadError::OutOfFrames)));
    assert!(pool.can_allocate(6));
}

#[test]
fn kernel_space_maps_each_page_to_itself() {
    let layout = KernelLayout {
        stext: 0x8020_0000,
        etext: 0x8020_3000,
        srodata: 0x8020_3000,
        erodata: 0x8020_4000,
        sdata: 0x8020_4000,
        edata: 0x8020_5000,
        sbss_with_stack: 0x8020_5000,
        ebss: 0x8020_8000,
        ekernel: 0x8020_8000,
        strampoline: 0x8020_1000,
    };
    let mut pool = FramePool::new(PhysPageNum(0x80208), PhysPageNum(0x80300));
    let space = MemorySet::new_kernel(&mut pool, &layout).unwrap();
    assert_eq!(space.area_count(), 5);
    let text = space.translate(&pool, VirtPageNum(0x80202)).unwrap();
    assert_eq!(text.ppn(), PhysPageNum(0x80202));
    assert_eq!(text.flags().bits, PTE_V | PTE_R | PTE_X);
    let rodata = space.translate(&pool, VirtPageNum(0x80203)).unwrap();
    assert_eq!(rodata.flags().bits, PTE_V | PTE_R);
    let data = space.translate(&pool, VirtPageNum(0x80204)).unwrap();
    assert_eq!(data.flags().bits, PTE_V | PTE_R | PTE_W);
    let bss = space.translate(&pool, VirtPageNum(0x80207)).unwrap();
    assert_eq!(bss.flags().bits, PTE_V | PTE_R | PTE_W);
    let last = space.translate(&pool, VirtPageNum(0x807ff)).unwrap();
    assert_eq!(last.ppn(), PhysPageNum(0x807ff));
    assert_eq!(last.flags().bits, PTE_V | PTE_R | PTE_W);
    assert!(unmapped(space.translate(&pool, VirtPageNum(0x80800))));
    assert!(unmapped(space.translate(&pool, VirtPageNum(0x801ff))));
    let trampoline = space.translate(&pool, VirtPageNum(0x7ff_ffff)).unwrap();
    assert_eq!(trampoline.ppn(), PhysPageNum(0x80201));
    assert_eq!(trampoline.flags().bits, PTE_V | PTE_R | PTE_X);
}

#[test]
fn kernel_space_refuses_sections_out_of_order() {
    let layout = KernelLayout {
        stext: 0x8020_0000,
        etext: 0x8020_3000,
        srodata: 0x8020_2000,
        erodata: 0x8020_4000,
        sdata: 0x8020_4000,
        edata: 0x8020_5000,
        sbss_with_stack: 0x8020_5000,
        ebss: 0x8020_8000,
        ekernel: 0x8020_8000,
        strampoline: 0x8020_1000,
    };
    let mut pool = FramePool::new(PhysPageNum(0x80208), PhysPageNum(0x80300));
    let r = MemorySet::new_kernel(&mut pool, &layout);
    assert!(matches!(r, Err(BuildError::BadLayout)));
    assert!(pool.can_allocate(0xf8));
}

#[test]
fn area_descriptions_are_checked() {
    let area = |start: u64, end: u64, offset: usize, size: usize| AreaSpec {
        start_va: VirtAddr(start),
        end_va: VirtAddr(end),
        map_type: MapType::Framed,
        permission: perm(MAP_R | MAP_U),
        file_offset: offset,
        file_size: size,
    };
    assert!(check_specs(&vec![area(0x1000, 0x3000, 0, 100), area(0x3000, 0x4000, 100, 50)], 150));
    assert!(!check_specs(&vec![area(0x1000, 0x3000, 0, 100), area(0x2fff, 0x4000, 0, 0)], 150));
    assert!(!check_specs(&vec![area(0x1000, 0x3000, 100, 51)], 150));
    assert!(!check_specs(&vec![area(0x1000, 0x2000, 0, 4097)], 8192));
    assert!(check_specs(&Vec::new(), 0));
}

#[test]
fn user_buffers_are_cut_at_page_ends() {
    let mut pool = pool(32);
    let mut space = MemorySet::new_bare(&mut pool, TRAMPOLINE_FRAME).unwrap();
    space
        .insert_framed_area(&mut pool, VirtAddr(0x10000), VirtAddr(0x13000), perm(MAP_R | MAP_W | MAP_U))
        .unwrap();
    let token = space.token();
    let parts = translated_byte_buffer(&pool.memory, token, 0x10ff0, 0x1020).unwrap();
    assert_eq!(parts.len(), 3);
    assert_eq!((parts[0].start, parts[0].end), (0xff0, 4096));
    assert_eq!((parts[1].start, parts[1].end), (0, 4096));
    assert_eq!((parts[2].start, parts[2].end), (0, 0x10));
    assert_eq!(parts[0].ppn, space.translate(&pool, VirtPageNum(0x10)).unwrap().ppn());
    assert_eq!(parts[1].ppn, space.translate(&pool, VirtPageNum(0x11)).unwrap().ppn());
    assert_eq!(parts[2].ppn, space.translate(&pool, VirtPageNum(0x12)).unwrap().ppn());
    assert!(translated_byte_buffer(&pool.memory, token, 0x12ff0, 0x20).is_none());
    assert_eq!(translated_byte_buffer(&pool.memory, token, 0x10000, 0).unwrap().len(), 0);
}

#[test]
fn user_strings_end_at_the_zero_byte() {
    let mut pool = pool(32);
    let mut space = MemorySet::new_bare(&mut pool, TRAMPOLINE_FRAME).unwrap();
    space
        .insert_framed_area(&mut pool, VirtAddr(0x10000), VirtAddr(0x12000), perm(MAP_R | MAP_W | MAP_U))
        .unwrap();
    let token = space.token();
    let text = b"user_shell\0rest";
    for (i, b) in text.iter().enumerate() {
        let addr = 0x10ffa + i as u64;
        let ppn = translated_frame(&pool.memory, token, addr).unwrap();
        pool.memory.write_byte(ppn, (addr % 4096) as usize, *b);
    }
    assert_eq!(translated_str(&pool.memory, token, 0x10ffa), Some(b"user_shell".to_vec()));
    assert_eq!(translated_str(&pool.memory, token, 0x10ffa + 10), Some(Vec::new()));
    assert_eq!(translated_str(&pool.memory, token, 0x20000), None);
    let place = translated_ref_mut(&pool.memory, token, 0x11008, 4).unwrap();
    assert_eq!(place.0, space.translate(&pool, VirtPageNum(0x11)).unwrap().ppn());
    assert_eq!(place.1, 8);
    assert!(translated_ref_mut(&pool.memory, token, 0x30000, 4).is_none());
}

#[test]
fn an_area_maps_its_pages_in_order() {
    let mut pool = pool(32);
    let mut table = PageTable::new(&mut pool).unwrap();
    let mut area = MapArea::new(
        VirtAddr(0x5000),
        VirtAddr(0x7800),
        MapType::Framed,
        perm(MAP_R | MAP_W | MAP_U),
    );
    assert_eq!(area.start_vpn(), VirtPageNum(5));
    assert_eq!(area.end_vpn(), VirtPageNum(8));
    assert_eq!(area.map_type(), MapType::Framed);
    assert_eq!(area.permission().bits, MAP_R | MAP_W | MAP_U);
    assert_eq!(area.mapped_pages(), 0);
    assert_eq!(area.frame_count(), 0);
    area.map(&mut table, &mut pool).unwrap();
    assert_eq!(area.mapped_pages(), 3);
    assert_eq!(area.frame_count(), 3);
    for i in 0..3usize {
        let entry = table.translate(&pool.memory, VirtPageNum(5 + i as u64)).unwrap();
        assert_eq!(entry.ppn(), area.frame_at(i));
        assert_eq!(entry.flags().bits, PTE_V | PTE_R | PTE_W | PTE_U);
    }
    let data: Vec<u8> = (0..5000u32).map(|i| (i % 253) as u8).collect();
    area.copy_data(&table, &mut pool, &data);
    assert_eq!(pool.memory.read_byte(area.frame_at(0), 0), 0);
    assert_eq!(pool.memory.read_byte(area.frame_at(0), 4095), (4095 % 253) as u8);
    assert_eq!(pool.memory.read_byte(area.frame_at(1), 0), (4096 % 253) as u8);
    assert_eq!(pool.memory.read_byte(area.frame_at(1), 903), (4999 % 253) as u8);
    assert_eq!(pool.memory.read_byte(area.frame_at(1), 904), 0);
    assert_eq!(pool.memory.read_byte(area.frame_at(2), 0), 0);
    let twin = MapArea::from_another(&area);
    assert_eq!(twin.start_vpn(), VirtPageNum(5));
    assert_eq!(twin.end_vpn(), VirtPageNum(8));
    assert_eq!(twin.permission().bits, area.permission().bits);
    assert_eq!(twin.frame_count(), 0);
    let before = free_frames(&pool);
    area.unmap(&mut table, &mut pool);
    assert_eq!(area.mapped_pages(), 0);
    assert_eq!(free_frames(&pool), before + 3);
    assert!(unmapped(table.translate(&pool.memory, VirtPageNum(5))));
    assert!(unmapped(table.translate(&pool.memory, VirtPageNum(7))));
}

#[test]
fn an_identical_area_takes_no_frames_for_its_pages() {
    let mut pool = pool(8);
    let mut table = PageTable::new(&mut pool).unwrap();
    let mut area =
        MapArea::new(VirtAddr(0x80200000), VirtAddr(0x80203000), MapType::Identical, perm(MAP_R | MAP_X));
    area.map(&mut table, &mut pool).unwrap();
    assert_eq!(area.frame_count(), 0);
    assert_eq!(area.mapped_pages(), 3);
    assert_eq!(free_frames(&pool), 5);
    let entry = table.translate(&pool.memory, VirtPageNum(0x80202)).unwrap();
    assert_eq!(entry.ppn(), PhysPageNum(0x80202));
    assert_eq!(entry.flags().bits, PTE_V | PTE_R | PTE_X);
}

#[test]
fn an_area_that_runs_out_of_frames_keeps_what_it_mapped() {
    let mut pool = pool(5);
    let mut table = PageTable::new(&mut pool).unwrap();
    let mut area = MapArea::new(VirtAddr(0), VirtAddr(0x8000), MapType::Framed, perm(MAP_R));
    assert_eq!(area.map(&mut table, &mut pool), Err(MemError::OutOfFrames));
    assert_eq!(area.mapped_pages(), 2);
    assert_eq!(free_frames(&pool), 0);
    area.unmap(&mut table, &mut pool);
    assert_eq!(free_frames(&pool), 2);
}

#[test]
fn a_page_that_was_unmapped_can_be_mapped_again_without_frames() {
    let mut pool = pool(3);
    let mut table = PageTable::new(&mut pool).unwrap();
    let vpn = VirtPageNum(0x345);
    table.map(&mut pool, vpn, PhysPageNum(0x80055), flags(PTE_R)).unwrap();
    assert_eq!(free_frames(&pool), 0);
    table.unmap(&mut pool, vpn);
    assert_eq!(table.missing_tables(&pool.memory, vpn), 0);
    assert_eq!(table.translate(&pool.memory, vpn).map(|e| e.bits), Some(0));
    table.map(&mut pool, vpn, PhysPageNum(0x80066), flags(PTE_R | PTE_W)).unwrap();
    assert_eq!(table.translate(&pool.memory, vpn).unwrap().ppn(), PhysPageNum(0x80066));
    assert_eq!(free_frames(&pool), 0);
}

#[test]
fn the_frame_of_an_unmapped_page_is_handed_out_next() {
    let mut pool = pool(16);
    let mut table = PageTable::new(&mut pool).unwrap();
    let mut area = MapArea::new(VirtAddr(0x5000), VirtAddr(0x7000), MapType::Framed, perm(MAP_R | MAP_U));
    area.map_one(&mut table, &mut pool, VirtPageNum(5)).unwrap();
    area.map_one(&mut table, &mut pool, VirtPageNum(6)).unwrap();
    let last = area.frame_at(1);
    let before = free_frames(&pool);
    area.unmap_one(&mut table, &mut pool, VirtPageNum(6));
    assert_eq!(free_frames(&pool), before + 1);
    assert!(!pool.allocator.is_allocated(last));
    assert_eq!(area.frame_count(), 1);
    assert!(unmapped(table.translate(&pool.memory, VirtPageNum(6))));
    assert_eq!(pool.frame_alloc().map(|f| f.ppn), Some(last));
}

#[test]
fn frames_of_a_removed_area_go_back_last_page_first() {
    let mut pool = pool(32);
    let mut space = MemorySet::new_bare(&mut pool, TRAMPOLINE_FRAME).unwrap();
    space
        .insert_framed_area(&mut pool, VirtAddr(0x10000), VirtAddr(0x13000), perm(MAP_R | MAP_U))
        .unwrap();
    let frames: Vec<PhysPageNum> = (0x10..0x13u64)
        .map(|v| space.translate(&pool, VirtPageNum(v)).unwrap().ppn())
        .collect();
    space.remove_area_with_start_vpn(&mut pool, VirtPageNum(0x10));
    assert_eq!(pool.frame_alloc().map(|f| f.ppn), Some(frames[0]));
    assert_eq!(pool.frame_alloc().map(|f| f.ppn), Some(frames[1]));
    assert_eq!(pool.frame_alloc().map(|f| f.ppn), Some(frames[2]));
}

#[test]
fn an_area_takes_its_pages_and_the_new_tables() {
    let mut pool = pool(32);
    let mut space = MemorySet::new_bare(&mut pool, TRAMPOLINE_FRAME).unwrap();
    assert_eq!(free_frames(&pool), 29);
    space
        .insert_framed_area(&mut pool, VirtAddr(0x10000), VirtAddr(0x13000), perm(MAP_R | MAP_U))
        .unwrap();
    assert_eq!(free_frames(&pool), 29 - 3 - 2);
    space
        .insert_framed_area(&mut pool, VirtAddr(0x20000), VirtAddr(0x22000), perm(MAP_R | MAP_U))
        .unwrap();
    assert_eq!(free_frames(&pool), 24 - 2);
    space
        .insert_framed_area(&mut pool, VirtAddr(0x4000_0000), VirtAddr(0x4000_1000), perm(MAP_R | MAP_U))
        .unwrap();
    assert_eq!(free_frames(&pool), 22 - 1 - 2);
}

#[test]
fn pages_of_an_area_are_mapped_in_any_order() {
    let mut pool = pool(32);
    let mut table = PageTable::new(&mut pool).unwrap();
    let mut area =
        MapArea::new(VirtAddr(0x5000), VirtAddr(0x9000), MapType::Framed, perm(MAP_R | MAP_W | MAP_U));
    for vpn in [7u64, 5, 8, 6] {
        assert_eq!(area.frame_of(VirtPageNum(vpn)), None);
        area.map_one(&mut table, &mut pool, VirtPageNum(vpn)).unwrap();
        let entry = table.translate(&pool.memory, VirtPageNum(vpn)).unwrap();
        assert!(entry.is_valid());
        assert_eq!(entry.flags().bits, PTE_V | PTE_R | PTE_W | PTE_U);
        assert_eq!(area.frame_of(VirtPageNum(vpn)), Some(entry.ppn()));
        assert!(pool.allocator.is_allocated(entry.ppn()));
    }
    let frames: Vec<PhysPageNum> =
        (5..9u64).map(|v| area.frame_of(VirtPageNum(v)).unwrap()).collect();
    for i in 0..4 {
        for j in 0..i {
            assert_ne!(frames[i], frames[j]);
        }
    }
    for (vpn, frame) in (5..9u64).zip(frames.iter()) {
        assert_eq!(table.translate(&pool.memory, VirtPageNum(vpn)).unwrap().ppn(), *frame);
    }
}

#[test]
fn any_mapped_page_of_an_area_is_unmapped() {
    let mut pool = pool(32);
    let mut table = PageTable::new(&mut pool).unwrap();
    let mut area =
        MapArea::new(VirtAddr(0x5000), VirtAddr(0xa000), MapType::Framed, perm(MAP_R | MAP_U));
    for vpn in 5..10u64 {
        area.map_one(&mut table, &mut pool, VirtPageNum(vpn)).unwrap();
    }
    assert_eq!(area.mapped_pages(), 5);
    let kept: Vec<(u64, PhysPageNum)> =
        [5u64, 6, 8, 9].iter().map(|v| (*v, area.frame_of(VirtPageNum(*v)).unwrap())).collect();
    let seventh = area.frame_of(VirtPageNum(7)).unwrap();
    let before = free_frames(&pool);
    area.unmap_one(&mut table, &mut pool, VirtPageNum(7));
    assert_eq!(free_frames(&pool), before + 1);
    assert!(!pool.allocator.is_allocated(seventh));
    assert_eq!(area.frame_of(VirtPageNum(7)), None);
    assert!(unmapped(table.translate(&pool.memory, VirtPageNum(7))));
    for (vpn, frame) in kept.iter() {
        assert_eq!(area.frame_of(VirtPageNum(*vpn)), Some(*frame));
        assert_eq!(table.translate(&pool.memory, VirtPageNum(*vpn)).unwrap().ppn(), *frame);
    }
    assert_eq!(pool.frame_alloc().map(|f| f.ppn), Some(seventh));
    area.unmap_one(&mut table, &mut pool, VirtPageNum(9));
    area.unmap_one(&mut table, &mut pool, VirtPageNum(5));
    assert_eq!(area.frame_of(VirtPageNum(5)), None);
    assert_eq!(area.frame_of(VirtPageNum(6)), Some(kept[1].1));
    assert_eq!(area.frame_of(VirtPageNum(8)), Some(kept[2].1));
    area.map_one(&mut table, &mut pool, VirtPageNum(7)).unwrap();
    assert!(area.frame_of(VirtPageNum(7)).is_some());
}

#[test]
fn pages_of_an_identical_area_in_any_order() {
    let mut pool = pool(8);
    let mut table = PageTable::new(&mut pool).unwrap();
    let mut area =
        MapArea::new(VirtAddr(0x80200000), VirtAddr(0x80204000), MapType::Identical, perm(MAP_R | MAP_W));
    for vpn in [0x80202u64, 0x80200, 0x80203] {
        area.map_one(&mut table, &mut pool, VirtPageNum(vpn)).unwrap();
        assert_eq!(table.translate(&pool.memory, VirtPageNum(vpn)).unwrap().ppn(), PhysPageNum(vpn));
        assert_eq!(area.frame_of(VirtPageNum(vpn)), None);
    }
    assert!(unmapped(table.translate(&pool.memory, VirtPageNum(0x80201))));
    let before = free_frames(&pool);
    area.unmap_one(&mut table, &mut pool, VirtPageNum(0x80200));
    assert_eq!(free_frames(&pool), before);
    assert!(unmapped(table.translate(&pool.memory, VirtPageNum(0x80200))));
    assert!(table.translate(&pool.memory, VirtPageNum(0x80202)).unwrap().is_valid());
}
