use sv39_kernel::fs::bitmap::{decomposition, Bitmap};
use sv39_kernel::fs::block_cache::{BlockCache, BlockCacheManager};
use sv39_kernel::fs::block_dev::{zero_block, BlockDevice, MemDisk};
use sv39_kernel::fs::layout::{DiskInode, DiskInodeType, SuperBlock};

fn device_word(device: &MemDisk, block: usize, offset: usize) -> u32 {
    let mut buf = zero_block();
    device.read_block(block, &mut buf);
    u32::from_le_bytes([buf[offset], buf[offset + 1], buf[offset + 2], buf[offset + 3]])
}

#[test]
fn total_blocks_at_the_boundaries() {
    assert_eq!(DiskInode::total_blocks(0), 0);
    assert_eq!(DiskInode::total_blocks(28 * 512), 28);
    assert_eq!(DiskInode::total_blocks((28 + 128) * 512), 157);
    assert_eq!(DiskInode::total_blocks((28 + 128 + 128 * 128) * 512), 16670);
}

#[test]
fn total_blocks_next_to_the_boundaries() {
    assert_eq!(DiskInode::total_blocks(1), 1);
    assert_eq!(DiskInode::total_blocks(512), 1);
    assert_eq!(DiskInode::total_blocks(513), 2);
    assert_eq!(DiskInode::total_blocks(28 * 512 + 1), 30);
    assert_eq!(DiskInode::total_blocks(156 * 512 - 1), 157);
    assert_eq!(DiskInode::total_blocks(156 * 512 + 1), 160);
    assert_eq!(DiskInode::total_blocks((156 + 128) * 512), 156 + 128 + 3);
    assert_eq!(DiskInode::total_blocks((156 + 128) * 512 + 1), 156 + 129 + 4);
}

#[test]
fn total_blocks_never_shrinks() {
    let mut last = 0u32;
    let mut size = 0u32;
    while size <= 16540 * 512 {
        let now = DiskInode::total_blocks(size);
        assert!(now >= last, "size {}", size);
        last = now;
        size += 257;
    }
}

#[test]
fn data_blocks_round_up() {
    assert_eq!(DiskInode::_data_blocks(0), 0);
    assert_eq!(DiskInode::_data_blocks(1), 1);
    assert_eq!(DiskInode::_data_blocks(512), 1);
    assert_eq!(DiskInode::_data_blocks(513), 2);
    assert_eq!(DiskInode::_data_blocks(u32::MAX), 8_388_608);
}

#[test]
fn bit_positions() {
    assert_eq!(decomposition(0), (0, 0, 0));
    assert_eq!(decomposition(63), (0, 0, 63));
    assert_eq!(decomposition(64), (0, 1, 0));
    assert_eq!(decomposition(4095), (0, 63, 63));
    assert_eq!(decomposition(4096), (1, 0, 0));
    assert_eq!(decomposition(4096 * 3 + 64 * 5 + 7), (3, 5, 7));
}

#[test]
fn bitmap_hands_out_increasing_indices_until_full() {
    let mut device = MemDisk::new(4);
    let mut cache = BlockCacheManager::new();
    let bitmap = Bitmap::new(1, 2);
    assert_eq!(bitmap.maximum(), 8192);
    for expected in 0..8192usize {
        assert_eq!(bitmap.allocate(&mut cache, &mut device), Some(expected));
    }
    assert_eq!(bitmap.allocate(&mut cache, &mut device), None);
    assert_eq!(bitmap.allocate(&mut cache, &mut device), None);
}

#[test]
fn bitmap_gives_a_freed_index_again() {
    let mut device = MemDisk::new(4);
    let mut cache = BlockCacheManager::new();
    let bitmap = Bitmap::new(0, 1);
    for expected in 0..10usize {
        assert_eq!(bitmap.allocate(&mut cache, &mut device), Some(expected));
    }
    bitmap.dealloc(&mut cache, &mut device, 4);
    assert_eq!(bitmap.allocate(&mut cache, &mut device), Some(4));
    assert_eq!(bitmap.allocate(&mut cache, &mut device), Some(10));
}

#[test]
fn bitmap_prefers_the_lowest_free_index() {
    let mut device = MemDisk::new(4);
    let mut cache = BlockCacheManager::new();
    let bitmap = Bitmap::new(0, 1);
    for _ in 0..3 {
        bitmap.allocate(&mut cache, &mut device);
    }
    bitmap.dealloc(&mut cache, &mut device, 0);
    bitmap.dealloc(&mut cache, &mut device, 1);
    assert_eq!(bitmap.allocate(&mut cache, &mut device), Some(0));
    assert_eq!(bitmap.allocate(&mut cache, &mut device), Some(1));
    assert_eq!(bitmap.allocate(&mut cache, &mut device), Some(3));
}

#[test]
fn bitmap_lies_in_its_own_blocks() {
    let mut device = MemDisk::new(8);
    let mut cache = BlockCacheManager::new();
    let bitmap = Bitmap::new(3, 2);
    for _ in 0..4097 {
        bitmap.allocate(&mut cache, &mut device);
    }
    cache.sync_all(&mut device);
    assert_eq!(device_word(&device, 3, 0), u32::MAX);
    assert_eq!(device_word(&device, 3, 508), u32::MAX);
    assert_eq!(device_word(&device, 4, 0), 1);
    assert_eq!(device_word(&device, 2, 0), 0);
    assert_eq!(device_word(&device, 5, 0), 0);
}

#[test]
fn inodes_on_a_fresh_image() {
    let mut device = MemDisk::new(8192);
    let mut cache = BlockCacheManager::new();
    let mut superblock = SuperBlock::empty();
    assert!(!superblock.is_valid());
    superblock.initialize(8192, 1, 1024, 1, 7165);
    assert!(superblock.is_valid());
    superblock.store(0, &mut cache, &mut device);
    let inodes = Bitmap::new(1, 1);
    let mut given: Vec<usize> = Vec::new();
    for _ in 0..200 {
        given.push(inodes.allocate(&mut cache, &mut device).unwrap());
    }
    assert_eq!(given, (0..200).collect::<Vec<usize>>());
    for i in (0..200).step_by(2) {
        inodes.dealloc(&mut cache, &mut device, i);
    }
    let mut again: Vec<usize> = Vec::new();
    for _ in 0..100 {
        again.push(inodes.allocate(&mut cache, &mut device).unwrap());
    }
    assert_eq!(again, (0..200).step_by(2).collect::<Vec<usize>>());
    assert!(again.windows(2).all(|w| w[0] < w[1]));
    assert_eq!(inodes.allocate(&mut cache, &mut device), Some(200));

    cache.sync_all(&mut device);
    let mut remounted = BlockCacheManager::new();
    let found = SuperBlock::load(0, &mut remounted, &mut device);
    assert!(found.is_valid());
    assert_eq!(found.total_blocks, 8192);
    assert_eq!(found.inode_bitmap_blocks, 1);
    assert_eq!(found.inode_area_blocks, 1024);
    assert_eq!(found.data_bitmap_blocks, 1);
    assert_eq!(found.data_area_blocks, 7165);
    assert_eq!(inodes.allocate(&mut remounted, &mut device), Some(201));
}

#[test]
fn superblock_layout_on_disk() {
    let mut device = MemDisk::new(2);
    let mut cache = BlockCacheManager::new();
    let mut superblock = SuperBlock::empty();
    superblock.initialize(11, 22, 33, 44, 55);
    superblock.store(1, &mut cache, &mut device);
    cache.sync_all(&mut device);
    assert_eq!(device_word(&device, 1, 0), 0x3b80_0001);
    assert_eq!(device_word(&device, 1, 4), 11);
    assert_eq!(device_word(&device, 1, 8), 22);
    assert_eq!(device_word(&device, 1, 12), 33);
    assert_eq!(device_word(&device, 1, 16), 44);
    assert_eq!(device_word(&device, 1, 20), 55);
    assert_eq!(device_word(&device, 1, 24), 0);
    assert_eq!(device_word(&device, 0, 0), 0);
}

#[test]
fn a_block_of_zeros_holds_no_superblock() {
    let mut device = MemDisk::new(1);
    let mut cache = BlockCacheManager::new();
    let found = SuperBlock::load(0, &mut cache, &mut device);
    assert!(!found.is_valid());
    assert_eq!(found.total_blocks, 0);
}

#[test]
fn block_cache_writes_back_only_what_changed() {
    let mut device = MemDisk::new(4);
    let mut block = BlockCache::new(2, &device);
    assert_eq!(block.block_id(), 2);
    assert!(!block.is_modified());
    assert_eq!(block.read_u32(8), 0);
    block.modify_u32(8, 0xdead_beef);
    assert!(block.is_modified());
    assert_eq!(block.read_u32(8), 0xdead_beef);
    assert_eq!(block.read_u64(8), 0xdead_beef);
    assert_eq!(device_word(&device, 2, 8), 0);
    block.sync(&mut device);
    assert!(!block.is_modified());
    assert_eq!(device_word(&device, 2, 8), 0xdead_beef);
    block.modify_u64(504, 0x0102_0304_0506_0708);
    assert_eq!(block.read_u32(504), 0x0506_0708);
    assert_eq!(block.read_u32(508), 0x0102_0304);
}

#[test]
fn eviction_writes_a_changed_block_to_the_device() {
    let mut device = MemDisk::new(64);
    let mut cache = BlockCacheManager::new();
    cache.write_u32(5, 16, 0x1234_5678, &mut device);
    assert_eq!(device_word(&device, 5, 16), 0);
    for id in 10..25usize {
        assert_eq!(cache.read_u32(id, 0, &mut device), 0);
    }
    assert_eq!(cache.len(), 16);
    assert_eq!(device_word(&device, 5, 16), 0);
    cache.read_u32(30, 0, &mut device);
    assert_eq!(cache.len(), 16);
    assert_eq!(device_word(&device, 5, 16), 0x1234_5678);
    assert_eq!(cache.read_u32(5, 16, &mut device), 0x1234_5678);
}

#[test]
fn eviction_passes_over_a_block_in_use() {
    let mut device = MemDisk::new(64);
    let mut cache = BlockCacheManager::new();
    cache.write_u32(0, 0, 7, &mut device);
    cache.write_u32(1, 0, 8, &mut device);
    assert!(cache.pin(0));
    assert!(!cache.pin(40));
    for id in 2..16usize {
        cache.read_u32(id, 0, &mut device);
    }
    cache.read_u32(20, 0, &mut device);
    assert_eq!(device_word(&device, 0, 0), 0);
    assert_eq!(device_word(&device, 1, 0), 8);
    assert!(cache.unpin(0));
    cache.read_u32(21, 0, &mut device);
    assert_eq!(device_word(&device, 0, 0), 7);
}

#[test]
fn cache_returns_the_slot_of_a_block() {
    let mut device = MemDisk::new(8);
    let mut cache = BlockCacheManager::new();
    assert_eq!(cache.len(), 0);
    assert_eq!(cache.get_block_cache(3, &mut device), 0);
    assert_eq!(cache.get_block_cache(4, &mut device), 1);
    assert_eq!(cache.get_block_cache(3, &mut device), 0);
    assert_eq!(cache.len(), 2);
}

#[test]
fn a_small_file_uses_direct_slots() {
    let mut device = MemDisk::new(256);
    let mut cache = BlockCacheManager::new();
    let mut inode = DiskInode::new();
    inode.initialize(DiskInodeType::File);
    assert!(inode.is_file());
    assert!(!inode.is_dir());
    assert_eq!(inode.blocks_num_needed(3 * 512), 3);
    inode.increase_size(3 * 512, vec![100, 101, 102], &mut cache, &mut device);
    assert_eq!(inode.size, 3 * 512);
    assert_eq!(inode.data_blocks(), 3);
    assert_eq!(inode.get_block_id(0, &mut cache, &mut device), 100);
    assert_eq!(inode.get_block_id(1, &mut cache, &mut device), 101);
    assert_eq!(inode.get_block_id(2, &mut cache, &mut device), 102);
    assert_eq!(inode.blocks_num_needed(3 * 512), 0);
    assert_eq!(inode.blocks_num_needed(5 * 512), 2);
}

#[test]
fn a_file_grows_into_the_index_block() {
    let mut device = MemDisk::new(256);
    let mut cache = BlockCacheManager::new();
    let mut inode = DiskInode::new();
    inode.initialize(DiskInodeType::Directory);
    assert!(inode.is_dir());
    let first: Vec<u32> = (50..78).collect();
    inode.increase_size(28 * 512, first, &mut cache, &mut device);
    assert_eq!(inode.blocks_num_needed(30 * 512), 3);
    inode.increase_size(30 * 512, vec![90, 91, 92], &mut cache, &mut device);
    assert_eq!(inode.indirect1, 90);
    assert_eq!(inode.get_block_id(27, &mut cache, &mut device), 77);
    assert_eq!(inode.get_block_id(28, &mut cache, &mut device), 91);
    assert_eq!(inode.get_block_id(29, &mut cache, &mut device), 92);
    cache.sync_all(&mut device);
    assert_eq!(device_word(&device, 90, 0), 91);
    assert_eq!(device_word(&device, 90, 4), 92);
}

#[test]
fn a_file_grows_into_the_double_index() {
    let mut device = MemDisk::new(1024);
    let mut cache = BlockCacheManager::new();
    let mut inode = DiskInode::new();
    inode.initialize(DiskInodeType::File);
    let size: u32 = (156 + 130) * 512;
    let needed = inode.blocks_num_needed(size);
    assert_eq!(needed, 156 + 130 + 1 + 1 + 2);
    let blocks: Vec<u32> = (100..100 + needed).collect();
    inode.increase_size(size, blocks, &mut cache, &mut device);
    assert_eq!(inode.get_block_id(0, &mut cache, &mut device), 100);
    assert_eq!(inode.get_block_id(27, &mut cache, &mut device), 127);
    assert_eq!(inode.indirect1, 128);
    assert_eq!(inode.get_block_id(28, &mut cache, &mut device), 129);
    assert_eq!(inode.get_block_id(155, &mut cache, &mut device), 256);
    assert_eq!(inode.indirect2, 257);
    assert_eq!(inode.get_block_id(156, &mut cache, &mut device), 259);
    assert_eq!(inode.get_block_id(156 + 127, &mut cache, &mut device), 259 + 127);
    assert_eq!(inode.get_block_id(156 + 128, &mut cache, &mut device), 259 + 129);
    assert_eq!(inode.get_block_id(156 + 129, &mut cache, &mut device), 259 + 130);
}

#[test]
fn an_inode_survives_a_remount() {
    let mut device = MemDisk::new(256);
    let mut cache = BlockCacheManager::new();
    let mut inode = DiskInode::new();
    inode.initialize(DiskInodeType::Directory);
    let blocks: Vec<u32> = (100..131).collect();
    inode.increase_size(30 * 512, blocks, &mut cache, &mut device);
    inode.store(7, 128, &mut cache, &mut device);
    cache.sync_all(&mut device);
    assert_eq!(device_word(&device, 7, 128), 30 * 512);
    assert_eq!(device_word(&device, 7, 132), 100);
    assert_eq!(device_word(&device, 7, 128 + 4 + 4 * 27), 127);
    assert_eq!(device_word(&device, 7, 128 + 116), 128);
    assert_eq!(device_word(&device, 7, 128 + 120), 0);
    assert_eq!(device_word(&device, 7, 128 + 124), 1);
    assert_eq!(device_word(&device, 7, 124), 0);
    assert_eq!(device_word(&device, 7, 256), 0);
    let mut remounted = BlockCacheManager::new();
    let found = DiskInode::load(7, 128, &mut remounted, &mut device).unwrap();
    assert!(found.is_dir());
    assert_eq!(found.size, 30 * 512);
    assert_eq!(found.direct, inode.direct);
    assert_eq!(found.indirect1, 128);
    assert_eq!(found.indirect2, 0);
    assert_eq!(found.get_block_id(29, &mut remounted, &mut device), 130);
    let empty = DiskInode::load(7, 0, &mut remounted, &mut device).unwrap();
    assert!(empty.is_file());
    assert_eq!(empty.size, 0);
}

#[test]
fn bytes_of_another_kind_are_no_inode() {
    let mut device = MemDisk::new(4);
    let mut cache = BlockCacheManager::new();
    cache.write_u32(1, 124, 2, &mut device);
    assert!(DiskInode::load(1, 0, &mut cache, &mut device).is_none());
    cache.write_u32(1, 124, 0x0000_ff01, &mut device);
    assert!(DiskInode::load(1, 0, &mut cache, &mut device).unwrap().is_dir());
    cache.write_u32(1, 124, 0x100, &mut device);
    assert!(DiskInode::load(1, 0, &mut cache, &mut device).unwrap().is_file());
}

#[test]
fn giving_a_cache_up_writes_its_changes_back() {
    let mut device = MemDisk::new(8);
    let mut block = BlockCache::new(3, &device);
    block.modify_u32(0, 77);
    block.release(&mut device);
    assert_eq!(device_word(&device, 3, 0), 77);
    let clean = BlockCache::new(3, &device);
    clean.release(&mut device);
    assert_eq!(device_word(&device, 3, 0), 77);
    let mut cache = BlockCacheManager::new();
    cache.write_u32(1, 4, 5, &mut device);
    cache.write_u32(2, 8, 6, &mut device);
    assert_eq!(device_word(&device, 1, 4), 0);
    cache.release(&mut device);
    assert_eq!(device_word(&device, 1, 4), 5);
    assert_eq!(device_word(&device, 2, 8), 6);
    assert_eq!(device_word(&device, 3, 0), 77);
}

#[test]
fn growth_leaves_other_entries_alone() {
    let mut device = MemDisk::new(64);
    let mut cache = BlockCacheManager::new();
    cache.write_u32(38, 4, 0xaaaa, &mut device);
    cache.write_u32(38, 508, 0xbbbb, &mut device);
    let mut inode = DiskInode::new();
    inode.initialize(DiskInodeType::File);
    let blocks: Vec<u32> = (10..40).collect();
    inode.increase_size(29 * 512, blocks, &mut cache, &mut device);
    assert_eq!(inode.size, 29 * 512);
    for i in 0..28usize {
        assert_eq!(inode.direct[i], 10 + i as u32);
    }
    assert_eq!(inode.indirect1, 38);
    assert_eq!(inode.indirect2, 0);
    assert_eq!(inode.get_block_id(28, &mut cache, &mut device), 39);
    assert_eq!(cache.read_u32(38, 0, &mut device), 39);
    assert_eq!(cache.read_u32(38, 4, &mut device), 0xaaaa);
    assert_eq!(cache.read_u32(38, 8, &mut device), 0);
    assert_eq!(cache.read_u32(38, 508, &mut device), 0xbbbb);
    let mut small = DiskInode::new();
    small.initialize(DiskInodeType::File);
    small.increase_size(2 * 512, vec![50, 51], &mut cache, &mut device);
    assert_eq!(&small.direct[0..3], &[50, 51, 0]);
}

#[test]
fn direct_blocks_are_found_without_the_cache() {
    let mut device = MemDisk::new(64);
    let mut cache = BlockCacheManager::new();
    let mut inode = DiskInode::new();
    inode.initialize(DiskInodeType::File);
    inode.increase_size(3 * 512, vec![7, 8, 9], &mut cache, &mut device);
    assert_eq!(cache.len(), 0);
    for id in 0..16usize {
        cache.read_u32(20 + id, 0, &mut device);
        assert!(cache.pin(20 + id));
    }
    assert_eq!(inode.get_block_id(2, &mut cache, &mut device), 9);
    assert_eq!(inode.get_block_id(0, &mut cache, &mut device), 7);
    assert_eq!(cache.len(), 16);
    assert_eq!(inode.type_, DiskInodeType::File);
}
