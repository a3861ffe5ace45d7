//! The superblock and the inode as they lie on disk.

use vstd::prelude::*;
use crate::codec::{lemma_with_u32, u32_at, with_u32};
use crate::fs::block_cache::{has_room, lemma_disk_shape, BlockCacheManager};
use crate::fs::block_dev::{blocks_ok, BlockDevice};

verus! {

/// Magic number of a valid superblock.
pub const EFS_MAGIC: u32 = 0x3b80_0001;

/// Number of block numbers held in the inode itself.
pub const INODE_DIRECT_COUNT: usize = 28;

/// Number of block numbers held in one index block.
pub const INODE_INDIRECT1_COUNT: usize = 128;

/// Number of data blocks reachable through the double index.
pub const INODE_INDIRECT2_COUNT: usize = 16384;

/// Number of data blocks reachable through the inode itself.
pub const DIRECT_BOUND: usize = 28;

/// Number of data blocks reachable without the double index.
pub const INDIRECT1_BOUND: usize = 156;

/// Number of data blocks an inode can reach.
pub const INDIRECT2_BOUND: usize = 16540;

/// The first block of a device: where each area of the file system lies.
pub struct SuperBlock {
    magic: u32,
    pub total_blocks: u32,
    pub inode_bitmap_blocks: u32,
    pub inode_area_blocks: u32,
    pub data_bitmap_blocks: u32,
    pub data_area_blocks: u32,
}

impl SuperBlock {
    /// The magic number the superblock carries.
    pub closed spec fn magic(&self) -> u32 {
        self.magic
    }

    /// The five sizes the superblock carries: all blocks, then the blocks of the inode
    /// bitmap, the inode area, the data bitmap and the data area.
    pub closed spec fn sizes(&self) -> (u32, u32, u32, u32, u32) {
        (
            self.total_blocks,
            self.inode_bitmap_blocks,
            self.inode_area_blocks,
            self.data_bitmap_blocks,
            self.data_area_blocks,
        )
    }

    /// A superblock without magic number and with all sizes zero.
    pub fn empty() -> (r: Self)
        ensures
            r.magic() == 0,
            r.sizes() == (0u32, 0u32, 0u32, 0u32, 0u32),
    {
        SuperBlock {
            magic: 0,
            total_blocks: 0,
            inode_bitmap_blocks: 0,
            inode_area_blocks: 0,
            data_bitmap_blocks: 0,
            data_area_blocks: 0,
        }
    }

    /// Sets the magic number and the sizes of the areas.
    pub fn initialize(
        &mut self,
        total_blocks: u32,
        inode_bitmap_blocks: u32,
        inode_area_blocks: u32,
        data_bitmap_blocks: u32,
        data_area_blocks: u32,
    )
        ensures
            final(self).magic() == EFS_MAGIC,
            final(self).sizes() == (
                total_blocks,
                inode_bitmap_blocks,
                inode_area_blocks,
                data_bitmap_blocks,
                data_area_blocks,
            ),
    {
        self.magic = EFS_MAGIC;
        self.total_blocks = total_blocks;
        self.inode_bitmap_blocks = inode_bitmap_blocks;
        self.inode_area_blocks = inode_area_blocks;
        self.data_bitmap_blocks = data_bitmap_blocks;
        self.data_area_blocks = data_area_blocks;
    }

    /// Whether the superblock carries the magic number.
    pub fn is_valid(&self) -> (r: bool)
        ensures
            r == (self.magic() == EFS_MAGIC),
    {
        self.magic == EFS_MAGIC
    }
}

/// The superblock that the bytes of `block` stand for: the magic number, then the five
/// sizes, each a 32-bit integer, the lower byte first.
pub open spec fn superblock_at(block: Seq<u8>) -> (u32, (u32, u32, u32, u32, u32)) {
    (
        u32_at(block, 0),
        (u32_at(block, 4), u32_at(block, 8), u32_at(block, 12), u32_at(block, 16), u32_at(block, 20)),
    )
}

/// The bytes of `block` after the superblock with the magic number `magic` and the
/// sizes `sizes` was written to its start.
pub open spec fn with_superblock(block: Seq<u8>, magic: u32, sizes: (u32, u32, u32, u32, u32)) -> Seq<
    u8,
> {
    with_u32(
        with_u32(
            with_u32(with_u32(with_u32(with_u32(block, 0, magic), 4, sizes.0), 8, sizes.1), 12, sizes.2),
            16,
            sizes.3,
        ),
        20,
        sizes.4,
    )
}

/// A superblock that was written to a block is read from it again, and the bytes
/// behind it stay.
pub proof fn lemma_superblock_round_trip(
    block: Seq<u8>,
    magic: u32,
    sizes: (u32, u32, u32, u32, u32),
)
    requires
        block.len() == 512,
    ensures
        with_superblock(block, magic, sizes).len() == 512,
        superblock_at(with_superblock(block, magic, sizes)) == (magic, sizes),
        forall|k: int| 24 <= k < 512 ==> with_superblock(block, magic, sizes)[k] == block[k],
{
    let b1 = with_u32(block, 0, magic);
    let b2 = with_u32(b1, 4, sizes.0);
    let b3 = with_u32(b2, 8, sizes.1);
    let b4 = with_u32(b3, 12, sizes.2);
    let b5 = with_u32(b4, 16, sizes.3);
    let b6 = with_u32(b5, 20, sizes.4);
    lemma_with_u32(block, 0, magic);
    lemma_with_u32(b1, 4, sizes.0);
    lemma_with_u32(b2, 8, sizes.1);
    lemma_with_u32(b3, 12, sizes.2);
    lemma_with_u32(b4, 16, sizes.3);
    lemma_with_u32(b5, 20, sizes.4);
}

impl SuperBlock {
    /// Reads the superblock from block `block_id`, through the cache.
    pub fn load<D: BlockDevice>(block_id: usize, cache: &mut BlockCacheManager, device: &mut D) -> (r:
        Self)
        requires
            old(device).inv(),
            old(cache).wf(old(device).blocks()),
            block_id < old(device).blocks().len(),
            has_room(old(cache).slots()),
        ensures
            final(device).inv(),
            final(cache).wf(final(device).blocks()),
            has_room(final(cache).slots()),
            final(device).blocks().len() == old(device).blocks().len(),
            final(cache).disk(final(device).blocks()) == old(cache).disk(old(device).blocks()),
            (r.magic(), r.sizes()) == superblock_at(
                old(cache).disk(old(device).blocks())[block_id as int],
            ),
    {
        let magic = cache.read_u32(block_id, 0, device);
        let total_blocks = cache.read_u32(block_id, 4, device);
        let inode_bitmap_blocks = cache.read_u32(block_id, 8, device);
        let inode_area_blocks = cache.read_u32(block_id, 12, device);
        let data_bitmap_blocks = cache.read_u32(block_id, 16, device);
        let data_area_blocks = cache.read_u32(block_id, 20, device);
        SuperBlock {
            magic,
            total_blocks,
            inode_bitmap_blocks,
            inode_area_blocks,
            data_bitmap_blocks,
            data_area_blocks,
        }
    }

    /// Writes the superblock to the start of block `block_id`, through the cache.
    pub fn store<D: BlockDevice>(&self, block_id: usize, cache: &mut BlockCacheManager, device: &mut D)
        requires
            old(device).inv(),
            old(cache).wf(old(device).blocks()),
            block_id < old(device).blocks().len(),
            has_room(old(cache).slots()),
        ensures
            final(device).inv(),
            final(cache).wf(final(device).blocks()),
            has_room(final(cache).slots()),
            final(device).blocks().len() == old(device).blocks().len(),
            final(cache).disk(final(device).blocks()) == old(cache).disk(
                old(device).blocks(),
            ).update(
                block_id as int,
                with_superblock(
                    old(cache).disk(old(device).blocks())[block_id as int],
                    self.magic(),
                    self.sizes(),
                ),
            ),
    {
        let ghost disk0 = cache.disk(device.blocks());
        proof {
            device.lemma_inv_blocks();
            lemma_disk_shape(cache.slots(), device.blocks());
        }
        cache.write_u32(block_id, 0, self.magic, device);
        cache.write_u32(block_id, 4, self.total_blocks, device);
        cache.write_u32(block_id, 8, self.inode_bitmap_blocks, device);
        cache.write_u32(block_id, 12, self.inode_area_blocks, device);
        cache.write_u32(block_id, 16, self.data_bitmap_blocks, device);
        cache.write_u32(block_id, 20, self.data_area_blocks, device);
        proof {
            let b0 = disk0[block_id as int];
            let b1 = with_u32(b0, 0, self.magic);
            let b2 = with_u32(b1, 4, self.total_blocks);
            let b3 = with_u32(b2, 8, self.inode_bitmap_blocks);
            let b4 = with_u32(b3, 12, self.inode_area_blocks);
            let b5 = with_u32(b4, 16, self.data_bitmap_blocks);
            let b6 = with_u32(b5, 20, self.data_area_blocks);
            let d1 = disk0.update(block_id as int, b1);
            let d2 = d1.update(block_id as int, b2);
            let d3 = d2.update(block_id as int, b3);
            let d4 = d3.update(block_id as int, b4);
            let d5 = d4.update(block_id as int, b5);
            let d6 = d5.update(block_id as int, b6);
            assert(d6 =~= disk0.update(block_id as int, b6));
        }
    }
}

/// What an inode stands for.
#[derive(Clone, Copy, Debug, PartialEq, Eq, Structural)]
pub enum DiskInodeType {
    File,
    Directory,
}

/// An inode: the size of a file or directory and where its data blocks lie.
pub struct DiskInode {
    pub size: u32,
    pub direct: [u32; 28],
    pub indirect1: u32,
    pub indirect2: u32,
    pub type_: DiskInodeType,
}

/// The plain contents of an inode.
pub struct InodeView {
    /// Size of the file, in bytes.
    pub size: u32,
    /// The first 28 data block numbers.
    pub direct: Seq<u32>,
    /// Number of the index block for data blocks 28 to 155.
    pub indirect1: u32,
    /// Number of the block that lists the index blocks for data blocks from 156 on.
    pub indirect2: u32,
    /// Whether the inode stands for a file or a directory.
    pub kind: DiskInodeType,
}

/// Number of data blocks that hold `size` bytes.
pub open spec fn data_blocks_of(size: int) -> int {
    (size + 511) / 512
}

/// Number of blocks, index blocks included, that `data` data blocks take: one index
/// block beyond 28 data blocks; beyond 156, the double index block and one index block
/// for every 128 data blocks, begun or full.
pub open spec fn total_blocks_of(data: int) -> int {
    data + (if data > 28 {
        1int
    } else {
        0
    }) + (if data > 156 {
        1 + (data - 156 + 127) / 128
    } else {
        0
    })
}

/// Entry `i` of the index block `block`.
pub open spec fn index_entry(disk: Seq<Seq<u8>>, block: int, i: int) -> u32 {
    u32_at(disk[block], 4 * i)
}

/// Number of the data block that holds block `inner_id` of the file.
pub open spec fn slot_block(inode: InodeView, disk: Seq<Seq<u8>>, inner_id: int) -> u32 {
    if inner_id < 28 {
        inode.direct[inner_id]
    } else if inner_id < 156 {
        index_entry(disk, inode.indirect1 as int, inner_id - 28)
    } else {
        index_entry(
            disk,
            index_entry(disk, inode.indirect2 as int, (inner_id - 156) / 128) as int,
            (inner_id - 156) % 128,
        )
    }
}

/// Whether the index blocks on the way to block `inner_id` of the file exist on a
/// device of `num_blocks` blocks.
pub open spec fn slot_reachable(
    inode: InodeView,
    disk: Seq<Seq<u8>>,
    inner_id: int,
    num_blocks: int,
) -> bool {
    if inner_id < 28 {
        true
    } else if inner_id < 156 {
        inode.indirect1 < num_blocks
    } else {
        &&& inode.indirect2 < num_blocks
        &&& index_entry(disk, inode.indirect2 as int, (inner_id - 156) / 128) < num_blocks
    }
}

/// Number of index blocks below the double index that `data` data blocks use.
pub open spec fn children_of(data: int) -> int {
    if data > 156 {
        (data - 156 + 127) / 128
    } else {
        0
    }
}

/// Number of the `a`-th index block below the double index.
pub open spec fn child_block(inode: InodeView, disk: Seq<Seq<u8>>, a: int) -> u32 {
    index_entry(disk, inode.indirect2 as int, a)
}

/// Whether block `b` is one of the index blocks of an inode with `data` data blocks.
pub open spec fn is_index_block(inode: InodeView, disk: Seq<Seq<u8>>, data: int, b: int) -> bool {
    ||| data > 28 && b == inode.indirect1
    ||| data > 156 && b == inode.indirect2
    ||| exists|a: int| 0 <= a < children_of(data) && b == #[trigger] child_block(inode, disk, a)
}

/// The index blocks of an inode with `data` data blocks lie on a device of
/// `num_blocks` blocks, and no two of them are the same block.
pub open spec fn index_blocks_ok(
    inode: InodeView,
    disk: Seq<Seq<u8>>,
    data: int,
    num_blocks: int,
) -> bool {
    &&& data > 28 ==> inode.indirect1 < num_blocks
    &&& data > 156 ==> inode.indirect2 < num_blocks && inode.indirect2 != inode.indirect1
    &&& forall|a: int|
        0 <= a < children_of(data) ==> {
            &&& #[trigger] child_block(inode, disk, a) < num_blocks
            &&& child_block(inode, disk, a) != inode.indirect1
            &&& child_block(inode, disk, a) != inode.indirect2
        }
    &&& forall|a: int, b: int|
        0 <= a < b < children_of(data) ==> #[trigger] child_block(inode, disk, a)
            != #[trigger] child_block(inode, disk, b)
}

/// The block numbers `values` lie on the device, differ from each other and from the
/// index blocks that the inode already has.
pub open spec fn fresh_blocks(
    inode: InodeView,
    disk: Seq<Seq<u8>>,
    data: int,
    values: Seq<u32>,
    num_blocks: int,
) -> bool {
    &&& forall|j: int|
        0 <= j < values.len() ==> (#[trigger] values[j]) < num_blocks && !is_index_block(
            inode,
            disk,
            data,
            values[j] as int,
        )
    &&& forall|i: int, j: int|
        0 <= i < j < values.len() ==> #[trigger] values[i] != #[trigger] values[j]
}

/// Where, among the blocks handed to a file that grows from `old_data` data blocks,
/// the data block for block `i` of the file stands: index blocks come just before the
/// first data block that needs them.
pub open spec fn new_slot_position(old_data: int, i: int) -> int {
    total_blocks_of(i + 1) - 1 - total_blocks_of(old_data)
}

impl DiskInode {
    /// The plain contents of the inode.
    pub open spec fn view(&self) -> InodeView {
        InodeView {
            size: self.size,
            direct: self.direct@,
            indirect1: self.indirect1,
            indirect2: self.indirect2,
            kind: self.type_,
        }
    }

    /// An empty file.
    pub fn new() -> (r: Self)
        ensures
            r@.size == 0,
            r@.direct == Seq::new(28, |i: int| 0u32),
            r@.indirect1 == 0,
            r@.indirect2 == 0,
            r@.kind == DiskInodeType::File,
    {
        let r = DiskInode {
            size: 0,
            direct: [0u32; 28],
            indirect1: 0,
            indirect2: 0,
            type_: DiskInodeType::File,
        };
        assert(r@.direct =~= Seq::new(28, |i: int| 0u32));
        r
    }

    /// Makes the inode an empty file or directory.
    pub fn initialize(&mut self, type_: DiskInodeType)
        ensures
            final(self)@.size == 0,
            final(self)@.direct == Seq::new(28, |i: int| 0u32),
            final(self)@.indirect1 == 0,
            final(self)@.indirect2 == 0,
            final(self)@.kind == type_,
    {
        self.size = 0;
        self.direct = [0u32; 28];
        self.indirect1 = 0;
        self.indirect2 = 0;
        self.type_ = type_;
        assert(self@.direct =~= Seq::new(28, |i: int| 0u32));
    }

    /// Whether the inode stands for a directory.
    pub fn is_dir(&self) -> (r: bool)
        ensures
            r == (self@.kind == DiskInodeType::Directory),
    {
        self.type_ == DiskInodeType::Directory
    }

    /// Whether the inode stands for a file.
    pub fn is_file(&self) -> (r: bool)
        ensures
            r == (self@.kind == DiskInodeType::File),
    {
        self.type_ == DiskInodeType::File
    }

    /// Number of the data block that holds block `inner_id` of the file. For the first
    /// 28 blocks the inode itself has the number: cache and device are left alone.
    pub fn get_block_id<D: BlockDevice>(
        &self,
        inner_id: u32,
        cache: &mut BlockCacheManager,
        device: &mut D,
    ) -> (r: u32)
        requires
            inner_id < INDIRECT2_BOUND,
            old(device).inv(),
            old(cache).wf(old(device).blocks()),
            inner_id >= DIRECT_BOUND ==> has_room(old(cache).slots()),
            slot_reachable(
                self@,
                old(cache).disk(old(device).blocks()),
                inner_id as int,
                old(device).blocks().len() as int,
            ),
        ensures
            final(device).inv(),
            final(cache).wf(final(device).blocks()),
            has_room(old(cache).slots()) ==> has_room(final(cache).slots()),
            final(device).blocks().len() == old(device).blocks().len(),
            final(cache).disk(final(device).blocks()) == old(cache).disk(old(device).blocks()),
            r == slot_block(self@, old(cache).disk(old(device).blocks()), inner_id as int),
            inner_id < DIRECT_BOUND ==> final(cache).slots() == old(cache).slots() && final(device).blocks()
                == old(device).blocks(),
    {
        let inner: usize = inner_id as usize;
        if inner < DIRECT_BOUND {
            self.direct[inner]
        } else if inner < INDIRECT1_BOUND {
            cache.read_u32(self.indirect1 as usize, 4 * (inner - DIRECT_BOUND), device)
        } else {
            let rest: usize = inner - INDIRECT1_BOUND;
            let indirect1: u32 = cache.read_u32(
                self.indirect2 as usize,
                4 * (rest / INODE_INDIRECT1_COUNT),
                device,
            );
            cache.read_u32(indirect1 as usize, 4 * (rest % INODE_INDIRECT1_COUNT), device)
        }
    }

    /// Number of data blocks that hold `size` bytes.
    pub fn _data_blocks(size: u32) -> (r: u32)
        ensures
            r == data_blocks_of(size as int),
    {
        if size % 512 == 0 {
            size / 512
        } else {
            size / 512 + 1
        }
    }

    /// Number of data blocks of the file.
    pub fn data_blocks(&self) -> (r: u32)
        ensures
            r == data_blocks_of(self@.size as int),
    {
        Self::_data_blocks(self.size)
    }

    /// Number of blocks, index blocks included, that a file of `size` bytes takes.
    pub fn total_blocks(size: u32) -> (r: u32)
        ensures
            r == total_blocks_of(data_blocks_of(size as int)),
    {
        let data_blocks: u32 = Self::_data_blocks(size);
        let mut total: u32 = data_blocks;
        if data_blocks > 28 {
            total = total + 1;
        }
        if data_blocks > 156 {
            total = total + 1;
            total = total + (data_blocks - 156 + 127) / 128;
        }
        total
    }

    /// Number of blocks that must be added for the file to grow to `new_size` bytes.
    pub fn blocks_num_needed(&self, new_size: u32) -> (r: u32)
        requires
            new_size >= self@.size,
        ensures
            r == total_blocks_of(data_blocks_of(new_size as int)) - total_blocks_of(
                data_blocks_of(self@.size as int),
            ),
    {
        proof {
            lemma_total_blocks_monotone(
                data_blocks_of(self.size as int),
                data_blocks_of(new_size as int),
            );
        }
        Self::total_blocks(new_size) - Self::total_blocks(self.size)
    }
}

impl DiskInode {
    /// Grows the file to `new_size` bytes, wiring the blocks `new_blocks` into the
    /// inode: direct slots first, then the index block when it is first needed and its
    /// entries, then the double index block, and each index block below it followed by
    /// its entries.
    pub fn increase_size<D: BlockDevice>(
        &mut self,
        new_size: u32,
        new_blocks: Vec<u32>,
        cache: &mut BlockCacheManager,
        device: &mut D,
    )
        requires
            new_size >= old(self)@.size,
            old(device).inv(),
            old(cache).wf(old(device).blocks()),
            has_room(old(cache).slots()),
            grow_input_ok(
                old(self)@,
                old(cache).disk(old(device).blocks()),
                new_blocks@,
                old(device).blocks().len() as int,
                data_blocks_of(new_size as int),
            ),
        ensures
            final(device).inv(),
            final(cache).wf(final(device).blocks()),
            has_room(final(cache).slots()),
            final(device).blocks().len() == old(device).blocks().len(),
            final(self)@.size == new_size,
            final(self)@.kind == old(self)@.kind,
            grown(
                old(self)@,
                old(cache).disk(old(device).blocks()),
                final(self)@,
                final(cache).disk(final(device).blocks()),
                new_blocks@,
            ),
    {
        let ghost disk0 = cache.disk(device.blocks());
        let ghost inode0 = self@;
        let ghost n = device.blocks().len() as int;
        let ghost values = new_blocks@;
        proof {
            device.lemma_inv_blocks();
            lemma_disk_shape(cache.slots(), device.blocks());
        }
        let old_data: usize = self.data_blocks() as usize;
        self.size = new_size;
        let new_data: usize = self.data_blocks() as usize;
        let ghost t0 = total_blocks_of(old_data as int);
        let mut k: usize = 0;
        let mut current: usize = old_data;
        let direct_end: usize = if new_data < DIRECT_BOUND {
            new_data
        } else {
            DIRECT_BOUND
        };
        while current < direct_end
            invariant
                old_data <= new_data <= 16540,
                direct_end == if new_data < 28 { new_data } else { 28 },
                old_data <= current,
                current <= direct_end || current == old_data,
                k == current - old_data,
                values == new_blocks@,
                values.len() == total_blocks_of(new_data as int) - total_blocks_of(old_data as int),
                self@.size == new_size,
                self@.kind == inode0.kind,
                self@.indirect1 == inode0.indirect1,
                self@.indirect2 == inode0.indirect2,
                direct_grown(inode0.direct, self@.direct, values, old_data as int, current as int),
            decreases direct_end - current,
        {
            let v: u32 = new_blocks[k];
            self.direct[current] = v;
            current = current + 1;
            k = k + 1;
        }
        if new_data <= DIRECT_BOUND {
            proof {
                lemma_grown_direct(inode0, disk0, self@, values, n);
            }
            return ;
        }
        if current == DIRECT_BOUND {
            self.indirect1 = new_blocks[k];
            k = k + 1;
        }
        let from1: usize = current - DIRECT_BOUND;
        let to1: usize = if new_data - DIRECT_BOUND < INODE_INDIRECT1_COUNT {
            new_data - DIRECT_BOUND
        } else {
            INODE_INDIRECT1_COUNT
        };
        if from1 < to1 {
            proof {
                lemma_index_block_on_device(inode0, disk0, values, n, new_data as int);
            }
            fill_index_block(cache, device, self.indirect1, from1, to1, &new_blocks, k);
            k = k + (to1 - from1);
            current = DIRECT_BOUND + to1;
        }
        let ghost disk1 = cache.disk(device.blocks());
        proof {
            device.lemma_inv_blocks();
            lemma_disk_shape(cache.slots(), device.blocks());
        }
        if new_data <= INDIRECT1_BOUND {
            proof {
                lemma_grown_single(inode0, disk0, self@, disk1, values, n);
            }
            return ;
        }
        if current == INDIRECT1_BOUND {
            self.indirect2 = new_blocks[k];
            k = k + 1;
        }
        let tot2: usize = new_data - INDIRECT1_BOUND;
        let mut cur2: usize = current - INDIRECT1_BOUND;
        let ghost inode1 = self@;
        proof {
            lemma_grown_before_double(inode0, disk0, inode1, disk1, values, n);
        }
        while cur2 < tot2
            invariant
                old_data <= new_data <= 16540,
                new_data > 156,
                tot2 == new_data - 156,
                cur2 <= tot2,
                old_data <= 156 + cur2,
                old_data == data_blocks_of(inode0.size as int),
                new_data == data_blocks_of(inode1.size as int),
                k + t0 == 158 + cur2 + (cur2 + 127) / 128,
                t0 == total_blocks_of(old_data as int),
                values == new_blocks@,
                n == device.blocks().len(),
                n == old(device).blocks().len(),
                device.inv(),
                cache.wf(device.blocks()),
                has_room(cache.slots()),
                self@ == inode1,
                grow_input_ok(inode0, disk0, values, n, new_data as int),
                single_done(inode0, disk0, inode1, disk1, values),
                double_state(
                    inode0,
                    disk0,
                    inode1,
                    disk1,
                    cache.disk(device.blocks()),
                    values,
                    cur2 as int,
                    (cur2 + 127) / 128,
                ),
            decreases tot2 - cur2,
        {
            let ghost disk2 = cache.disk(device.blocks());
            let a: usize = cur2 / INODE_INDIRECT1_COUNT;
            let b: usize = cur2 % INODE_INDIRECT1_COUNT;
            let child: u32;
            if b == 0 {
                child = new_blocks[k];
                cache.write_u32(self.indirect2 as usize, 4 * a, child, device);
                proof {
                    lemma_double_new_child(
                        inode0,
                        disk0,
                        inode1,
                        disk1,
                        disk2,
                        cache.disk(device.blocks()),
                        values,
                        cur2 as int,
                    );
                }
                k = k + 1;
            } else {
                child = cache.read_u32(self.indirect2 as usize, 4 * a, device);
            }
            let to2: usize = if tot2 - a * INODE_INDIRECT1_COUNT < INODE_INDIRECT1_COUNT {
                tot2 - a * INODE_INDIRECT1_COUNT
            } else {
                INODE_INDIRECT1_COUNT
            };
            let ghost disk3 = cache.disk(device.blocks());
            assert(child == child_block(inode1, disk3, a as int));
            assert(child < n);
            fill_index_block(cache, device, child, b, to2, &new_blocks, k);
            proof {
                lemma_double_filled(
                    inode0,
                    disk0,
                    inode1,
                    disk1,
                    disk3,
                    cache.disk(device.blocks()),
                    values,
                    cur2 as int,
                    to2 as int,
                );
            }
            k = k + (to2 - b);
            cur2 = a * INODE_INDIRECT1_COUNT + to2;
        }
        proof {
            lemma_grown_double(inode0, disk0, inode1, disk1, cache.disk(device.blocks()), values);
        }
    }
}

/// Writes `new_blocks[k..]` into the entries `from` to `to - 1` of index block `block`.
fn fill_index_block<D: BlockDevice>(
    cache: &mut BlockCacheManager,
    device: &mut D,
    block: u32,
    from: usize,
    to: usize,
    new_blocks: &Vec<u32>,
    k: usize,
)
    requires
        old(device).inv(),
        old(cache).wf(old(device).blocks()),
        has_room(old(cache).slots()),
        block < old(device).blocks().len(),
        from <= to <= 128,
        k + (to - from) <= new_blocks.len(),
    ensures
        final(device).inv(),
        final(cache).wf(final(device).blocks()),
        has_room(final(cache).slots()),
        final(device).blocks().len() == old(device).blocks().len(),
        entries_filled(
            old(cache).disk(old(device).blocks()),
            final(cache).disk(final(device).blocks()),
            block as int,
            from as int,
            to as int,
            new_blocks@,
            k as int,
        ),
{
    let ghost disk0 = cache.disk(device.blocks());
    proof {
        device.lemma_inv_blocks();
        lemma_disk_shape(cache.slots(), device.blocks());
    }
    let mut i: usize = from;
    while i < to
        invariant
            from <= i <= to <= 128,
            k + (to - from) <= new_blocks.len(),
            device.inv(),
            cache.wf(device.blocks()),
            has_room(cache.slots()),
            device.blocks().len() == old(device).blocks().len(),
            block < device.blocks().len(),
            blocks_ok(disk0),
            disk0.len() == device.blocks().len(),
            entries_filled(
                disk0,
                cache.disk(device.blocks()),
                block as int,
                from as int,
                i as int,
                new_blocks@,
                k as int,
            ),
        decreases to - i,
    {
        let ghost disk1 = cache.disk(device.blocks());
        let v: u32 = new_blocks[k + (i - from)];
        cache.write_u32(block as usize, 4 * i, v, device);
        proof {
            lemma_with_u32(disk1[block as int], 4 * i as int, v);
            let disk2 = cache.disk(device.blocks());
            assert forall|m: int| 0 <= m < 128 implies index_entry(disk2, block as int, m) == (if from
                <= m < i + 1 {
                new_blocks@[k + m - from]
            } else {
                index_entry(disk0, block as int, m)
            }) by {
                if m != i {
                    assert(index_entry(disk2, block as int, m) == index_entry(
                        disk1,
                        block as int,
                        m,
                    ));
                }
            }
        }
        i = i + 1;
    }
}

/// `after` is `before` with the entries `from` to `to - 1` of index block `block`
/// replaced by `values[k..]`, and nothing else changed.
pub open spec fn entries_filled(
    before: Seq<Seq<u8>>,
    after: Seq<Seq<u8>>,
    block: int,
    from: int,
    to: int,
    values: Seq<u32>,
    k: int,
) -> bool {
    &&& after.len() == before.len()
    &&& after[block].len() == 512
    &&& forall|b: int| 0 <= b < before.len() && b != block ==> #[trigger] after[b] == before[b]
    &&& forall|m: int|
        0 <= m < 128 ==> #[trigger] index_entry(after, block, m) == (if from <= m < to {
            values[k + m - from]
        } else {
            index_entry(before, block, m)
        })
}

/// What `increase_size` asks of its input: the file grows to `new_data` data blocks,
/// which an inode can reach; `values` holds exactly the blocks the growth takes; the
/// index blocks the inode has are sound, and `values` is fresh.
pub open spec fn grow_input_ok(
    inode0: InodeView,
    disk0: Seq<Seq<u8>>,
    values: Seq<u32>,
    n: int,
    new_data: int,
) -> bool {
    let old_data = data_blocks_of(inode0.size as int);
    &&& old_data <= new_data <= 16540
    &&& disk0.len() == n
    &&& inode0.direct.len() == 28
    &&& values.len() == total_blocks_of(new_data) - total_blocks_of(old_data)
    &&& index_blocks_ok(inode0, disk0, old_data, n)
    &&& fresh_blocks(inode0, disk0, old_data, values, n)
}

/// What `increase_size` establishes: every block of the file below the old size lies
/// where it lay; every further block lies in the block that `values` holds for it; the
/// index blocks are sound; no block but an index block has changed; and the direct
/// slots and the entries of the index blocks that the growth does not fill are as they
/// were.
pub open spec fn grown(
    inode0: InodeView,
    disk0: Seq<Seq<u8>>,
    inode1: InodeView,
    disk1: Seq<Seq<u8>>,
    values: Seq<u32>,
) -> bool {
    let old_data = data_blocks_of(inode0.size as int);
    let new_data = data_blocks_of(inode1.size as int);
    let t0 = total_blocks_of(old_data);
    let n = disk0.len() as int;
    &&& disk1.len() == disk0.len()
    &&& index_blocks_ok(inode1, disk1, new_data, n)
    &&& forall|i: int|
        0 <= i < new_data ==> #[trigger] slot_block(inode1, disk1, i) == if i < old_data {
            slot_block(inode0, disk0, i)
        } else {
            values[new_slot_position(old_data, i)]
        }
    &&& inode1.indirect1 == if old_data <= 28 < new_data {
        values[28 - old_data]
    } else {
        inode0.indirect1
    }
    &&& inode1.indirect2 == if old_data <= 156 < new_data {
        values[157 - t0]
    } else {
        inode0.indirect2
    }
    &&& forall|a: int|
        0 <= a < children_of(new_data) ==> #[trigger] child_block(inode1, disk1, a) == if a
            < children_of(old_data) {
            child_block(inode0, disk0, a)
        } else {
            values[158 + 129 * a - t0]
        }
    &&& forall|b: int|
        0 <= b < n && !is_index_block(inode1, disk1, new_data, b) ==> #[trigger] disk1[b]
            == disk0[b]
    &&& inode1.direct.len() == 28
    &&& forall|i: int|
        0 <= i < 28 && !(old_data <= i < new_data) ==> #[trigger] inode1.direct[i]
            == inode0.direct[i]
    &&& new_data > 28 ==> forall|m: int|
        0 <= m < 128 && !(old_data <= 28 + m < new_data) ==> #[trigger] index_entry(
            disk1,
            inode1.indirect1 as int,
            m,
        ) == index_entry(disk0, inode1.indirect1 as int, m)
    &&& new_data > 156 ==> forall|a: int|
        children_of(new_data) <= a < 128 ==> #[trigger] index_entry(
            disk1,
            inode1.indirect2 as int,
            a,
        ) == index_entry(disk0, inode1.indirect2 as int, a)
    &&& forall|a: int, m: int|
        0 <= a < children_of(new_data) && 0 <= m < 128 && !(old_data <= 156 + 128 * a + m
            < new_data) ==> #[trigger] index_entry(disk1, child_block(inode1, disk1, a) as int, m)
            == index_entry(disk0, child_block(inode1, disk1, a) as int, m)
}

/// The direct slots `old_data` to `upto - 1` hold the first blocks of `values`; the
/// other slots are as before.
pub open spec fn direct_grown(
    direct0: Seq<u32>,
    direct1: Seq<u32>,
    values: Seq<u32>,
    old_data: int,
    upto: int,
) -> bool {
    &&& direct1.len() == 28
    &&& forall|i: int|
        0 <= i < 28 ==> #[trigger] direct1[i] == if old_data <= i < upto {
            values[i - old_data]
        } else {
            direct0[i]
        }
}

/// The state once the direct slots and the single index block are done, for a file
/// that grows beyond 28 data blocks.
pub open spec fn single_done(
    inode0: InodeView,
    disk0: Seq<Seq<u8>>,
    inode1: InodeView,
    disk1: Seq<Seq<u8>>,
    values: Seq<u32>,
) -> bool {
    let old_data = data_blocks_of(inode0.size as int);
    let new_data = data_blocks_of(inode1.size as int);
    let t0 = total_blocks_of(old_data);
    let from1 = if old_data < 28 {
        0
    } else {
        old_data - 28
    };
    let to1 = if new_data - 28 < 128 {
        new_data - 28
    } else {
        128
    };
    &&& inode1.kind == inode0.kind
    &&& direct_grown(inode0.direct, inode1.direct, values, old_data, 28)
    &&& inode1.indirect1 == if old_data <= 28 {
        values[28 - old_data]
    } else {
        inode0.indirect1
    }
    &&& disk1.len() == disk0.len()
    &&& blocks_ok(disk1)
    &&& if from1 < to1 {
        entries_filled(disk0, disk1, inode1.indirect1 as int, from1, to1, values, 29 + from1 - t0)
    } else {
        disk1 == disk0
    }
}

/// The state of the double index while it is filled: `children` index blocks hang
/// below it, and the first `entries` blocks of the file beyond block 156 are wired.
pub open spec fn double_state(
    inode0: InodeView,
    disk0: Seq<Seq<u8>>,
    inode1: InodeView,
    disk1: Seq<Seq<u8>>,
    disk: Seq<Seq<u8>>,
    values: Seq<u32>,
    entries: int,
    children: int,
) -> bool {
    let old_data = data_blocks_of(inode0.size as int);
    let t0 = total_blocks_of(old_data);
    let n = disk0.len() as int;
    &&& disk.len() == n
    &&& blocks_ok(disk)
    &&& inode1.indirect2 == if old_data <= 156 {
        values[157 - t0]
    } else {
        inode0.indirect2
    }
    &&& inode1.indirect1 < n
    &&& inode1.indirect2 < n
    &&& inode1.indirect2 != inode1.indirect1
    &&& forall|a: int|
        0 <= a < children ==> {
            &&& #[trigger] child_block(inode1, disk, a) < n
            &&& child_block(inode1, disk, a) != inode1.indirect1
            &&& child_block(inode1, disk, a) != inode1.indirect2
            &&& child_block(inode1, disk, a) == if a < children_of(old_data) {
                child_block(inode0, disk0, a)
            } else {
                values[158 + 129 * a - t0]
            }
        }
    &&& forall|a: int, b: int|
        0 <= a < b < children ==> #[trigger] child_block(inode1, disk, a) != #[trigger] child_block(
            inode1,
            disk,
            b,
        )
    &&& forall|j: int|
        0 <= j < entries ==> #[trigger] slot_block(inode1, disk, 156 + j) == if 156 + j
            < old_data {
            slot_block(inode0, disk0, 156 + j)
        } else {
            values[new_slot_position(old_data, 156 + j)]
        }
    &&& forall|b: int|
        0 <= b < n && b != inode1.indirect2 && (forall|a: int|
            0 <= a < children ==> b != #[trigger] child_block(inode1, disk, a)) ==> #[trigger] disk[b]
            == disk1[b]
    &&& forall|a: int|
        children <= a < 128 ==> #[trigger] index_entry(disk, inode1.indirect2 as int, a)
            == index_entry(disk1, inode1.indirect2 as int, a)
    &&& forall|a: int, m: int|
        0 <= a < children && 0 <= m < 128 && 128 * a + m >= entries ==> #[trigger] index_entry(
            disk,
            child_block(inode1, disk, a) as int,
            m,
        ) == index_entry(disk1, child_block(inode1, disk, a) as int, m)
}

/// The single index block of a file that grows beyond 28 data blocks lies on the device.
proof fn lemma_index_block_on_device(
    inode0: InodeView,
    disk0: Seq<Seq<u8>>,
    values: Seq<u32>,
    n: int,
    new_data: int,
)
    requires
        grow_input_ok(inode0, disk0, values, n, new_data),
        new_data > 28,
    ensures
        data_blocks_of(inode0.size as int) <= 28 ==> values[28 - data_blocks_of(inode0.size as int)]
            < n,
        data_blocks_of(inode0.size as int) > 28 ==> inode0.indirect1 < n,
{
}

/// Growth within the direct slots.
proof fn lemma_grown_direct(
    inode0: InodeView,
    disk0: Seq<Seq<u8>>,
    inode1: InodeView,
    values: Seq<u32>,
    n: int,
)
    requires
        grow_input_ok(inode0, disk0, values, n, data_blocks_of(inode1.size as int)),
        data_blocks_of(inode1.size as int) <= 28,
        inode1.indirect1 == inode0.indirect1,
        inode1.indirect2 == inode0.indirect2,
        direct_grown(
            inode0.direct,
            inode1.direct,
            values,
            data_blocks_of(inode0.size as int),
            data_blocks_of(inode1.size as int),
        ),
    ensures
        grown(inode0, disk0, inode1, disk0, values),
{
    let old_data = data_blocks_of(inode0.size as int);
    let new_data = data_blocks_of(inode1.size as int);
    assert forall|i: int| 0 <= i < new_data implies #[trigger] slot_block(inode1, disk0, i) == if i
        < old_data {
        slot_block(inode0, disk0, i)
    } else {
        values[new_slot_position(old_data, i)]
    } by {
        assert(inode1.direct[i] == if old_data <= i < new_data {
            values[i - old_data]
        } else {
            inode0.direct[i]
        });
    }
}

/// Growth that ends in the single index block.
proof fn lemma_grown_single(
    inode0: InodeView,
    disk0: Seq<Seq<u8>>,
    inode1: InodeView,
    disk1: Seq<Seq<u8>>,
    values: Seq<u32>,
    n: int,
)
    requires
        grow_input_ok(inode0, disk0, values, n, data_blocks_of(inode1.size as int)),
        28 < data_blocks_of(inode1.size as int) <= 156,
        inode1.indirect2 == inode0.indirect2,
        single_done(inode0, disk0, inode1, disk1, values),
    ensures
        grown(inode0, disk0, inode1, disk1, values),
{
    let old_data = data_blocks_of(inode0.size as int);
    let new_data = data_blocks_of(inode1.size as int);
    let t0 = total_blocks_of(old_data);
    assert forall|i: int| 0 <= i < new_data implies #[trigger] slot_block(inode1, disk1, i) == if i
        < old_data {
        slot_block(inode0, disk0, i)
    } else {
        values[new_slot_position(old_data, i)]
    } by {
        if i < 28 {
            assert(inode1.direct[i] == if old_data <= i < 28 {
                values[i - old_data]
            } else {
                inode0.direct[i]
            });
        } else {
            assert(index_entry(disk1, inode1.indirect1 as int, i - 28) == slot_block(
                inode1,
                disk1,
                i,
            ));
        }
    }
    assert forall|b: int|
        0 <= b < n && !is_index_block(inode1, disk1, new_data, b) implies #[trigger] disk1[b]
        == disk0[b] by {
        assert(b != inode1.indirect1);
    }
}

/// The double index is in order before its first new entry is written.
proof fn lemma_grown_before_double(
    inode0: InodeView,
    disk0: Seq<Seq<u8>>,
    inode1: InodeView,
    disk1: Seq<Seq<u8>>,
    values: Seq<u32>,
    n: int,
)
    requires
        grow_input_ok(inode0, disk0, values, n, data_blocks_of(inode1.size as int)),
        156 < data_blocks_of(inode1.size as int),
        single_done(inode0, disk0, inode1, disk1, values),
        inode1.indirect2 == if data_blocks_of(inode0.size as int) <= 156 {
            values[157 - total_blocks_of(data_blocks_of(inode0.size as int))]
        } else {
            inode0.indirect2
        },
    ensures
        ({
            let old_data = data_blocks_of(inode0.size as int);
            let cur2 = if old_data <= 156 {
                0
            } else {
                old_data - 156
            };
            double_state(inode0, disk0, inode1, disk1, disk1, values, cur2, (cur2 + 127) / 128)
        }),
{
    let old_data = data_blocks_of(inode0.size as int);
    let t0 = total_blocks_of(old_data);
    let cur2 = if old_data <= 156 {
        0
    } else {
        old_data - 156
    };
    let children = (cur2 + 127) / 128;
    if old_data > 156 {
        assert(disk1 == disk0);
        assert(children == children_of(old_data));
        assert forall|a: int| 0 <= a < children implies child_block(inode1, disk1, a)
            == child_block(inode0, disk0, a) by {}
    } else {
        assert(values[157 - t0] < n);
        if old_data <= 28 {
            assert(values[28 - old_data] != values[157 - t0]);
        } else {
            assert(is_index_block(inode0, disk0, old_data, inode0.indirect1 as int));
        }
    }
}

/// A new index block, entered below the double index, keeps the double index in order.
proof fn lemma_double_new_child(
    inode0: InodeView,
    disk0: Seq<Seq<u8>>,
    inode1: InodeView,
    disk1: Seq<Seq<u8>>,
    disk2: Seq<Seq<u8>>,
    disk3: Seq<Seq<u8>>,
    values: Seq<u32>,
    cur2: int,
)
    requires
        grow_input_ok(inode0, disk0, values, disk0.len() as int, data_blocks_of(inode1.size as int)),
        single_done(inode0, disk0, inode1, disk1, values),
        0 <= cur2 < data_blocks_of(inode1.size as int) - 156,
        cur2 % 128 == 0,
        data_blocks_of(inode0.size as int) <= 156 + cur2,
        double_state(inode0, disk0, inode1, disk1, disk2, values, cur2, cur2 / 128),
        disk3 == disk2.update(
            inode1.indirect2 as int,
            with_u32(
                disk2[inode1.indirect2 as int],
                4 * (cur2 / 128),
                values[158 + 129 * (cur2 / 128) - total_blocks_of(
                    data_blocks_of(inode0.size as int),
                )],
            ),
        ),
    ensures
        double_state(inode0, disk0, inode1, disk1, disk3, values, cur2, cur2 / 128 + 1),
{
    let old_data = data_blocks_of(inode0.size as int);
    let new_data = data_blocks_of(inode1.size as int);
    let t0 = total_blocks_of(old_data);
    let n = disk0.len() as int;
    let a = cur2 / 128;
    let c = values[158 + 129 * a - t0];
    let i2 = inode1.indirect2 as int;
    lemma_with_u32(disk2[i2], 4 * a, c);
    assert forall|x: int| 0 <= x < 128 && x != a implies #[trigger] child_block(inode1, disk3, x)
        == child_block(inode1, disk2, x) by {}
    assert(child_block(inode1, disk3, a) == c);
    assert(a >= children_of(old_data));
    // the new block differs from every index block in use
    assert(c != inode1.indirect2) by {
        if old_data <= 156 {
            assert(values[157 - t0] != values[158 + 129 * a - t0]);
        } else {
            assert(is_index_block(inode0, disk0, old_data, inode0.indirect2 as int));
        }
    }
    assert(c != inode1.indirect1) by {
        if old_data <= 28 {
            assert(values[28 - old_data] != values[158 + 129 * a - t0]);
        } else {
            assert(is_index_block(inode0, disk0, old_data, inode0.indirect1 as int));
        }
    }
    assert forall|x: int| 0 <= x < a implies #[trigger] child_block(inode1, disk3, x) != c by {
        if x < children_of(old_data) {
            assert(child_block(inode1, disk2, x) == child_block(inode0, disk0, x));
            assert(is_index_block(inode0, disk0, old_data, child_block(inode0, disk0, x) as int));
        } else {
            assert(values[158 + 129 * x - t0] != values[158 + 129 * a - t0]);
        }
    }
    assert forall|j: int| 0 <= j < cur2 implies #[trigger] slot_block(inode1, disk3, 156 + j)
        == slot_block(inode1, disk2, 156 + j) by {
        let x = j / 128;
        assert(child_block(inode1, disk3, x) == child_block(inode1, disk2, x));
        assert(child_block(inode1, disk2, x) != inode1.indirect2);
    }
    assert forall|b: int|
        0 <= b < n && b != inode1.indirect2 && (forall|x: int|
            0 <= x < a + 1 ==> b != #[trigger] child_block(inode1, disk3, x)) implies #[trigger] disk3[b]
        == disk1[b] by {
        assert forall|x: int| 0 <= x < a implies b != #[trigger] child_block(inode1, disk2, x) by {
            assert(b != child_block(inode1, disk3, x));
        }
    }
    assert forall|x: int| a + 1 <= x < 128 implies #[trigger] index_entry(disk3, i2, x)
        == index_entry(disk1, i2, x) by {
        assert(child_block(inode1, disk3, x) == child_block(inode1, disk2, x));
        assert(index_entry(disk2, i2, x) == index_entry(disk1, i2, x));
    }
    assert forall|x: int, m: int|
        0 <= x < a + 1 && 0 <= m < 128 && 128 * x + m >= cur2 implies #[trigger] index_entry(
        disk3,
        child_block(inode1, disk3, x) as int,
        m,
    ) == index_entry(disk1, child_block(inode1, disk3, x) as int, m) by {
        assert(x == a);
        assert(disk3[c as int] == disk2[c as int]);
        assert forall|y: int| 0 <= y < a implies c != #[trigger] child_block(inode1, disk2, y) by {
            assert(child_block(inode1, disk3, y) != c);
        }
        assert(disk2[c as int] == disk1[c as int]);
    }
}

/// Entries written into an index block below the double index keep it in order.
proof fn lemma_double_filled(
    inode0: InodeView,
    disk0: Seq<Seq<u8>>,
    inode1: InodeView,
    disk1: Seq<Seq<u8>>,
    disk3: Seq<Seq<u8>>,
    disk4: Seq<Seq<u8>>,
    values: Seq<u32>,
    cur2: int,
    to2: int,
)
    requires
        grow_input_ok(inode0, disk0, values, disk0.len() as int, data_blocks_of(inode1.size as int)),
        0 <= cur2 < data_blocks_of(inode1.size as int) - 156,
        data_blocks_of(inode0.size as int) <= 156 + cur2,
        cur2 % 128 < to2 <= 128,
        (cur2 / 128) * 128 + to2 <= data_blocks_of(inode1.size as int) - 156,
        double_state(inode0, disk0, inode1, disk1, disk3, values, cur2, cur2 / 128 + 1),
        entries_filled(
            disk3,
            disk4,
            child_block(inode1, disk3, cur2 / 128) as int,
            cur2 % 128,
            to2,
            values,
            159 + cur2 + cur2 / 128 - total_blocks_of(data_blocks_of(inode0.size as int)),
        ),
    ensures
        double_state(
            inode0,
            disk0,
            inode1,
            disk1,
            disk4,
            values,
            (cur2 / 128) * 128 + to2,
            cur2 / 128 + 1,
        ),
{
    let old_data = data_blocks_of(inode0.size as int);
    let t0 = total_blocks_of(old_data);
    let n = disk0.len() as int;
    let a = cur2 / 128;
    let b = cur2 % 128;
    let c = child_block(inode1, disk3, a) as int;
    assert(c != inode1.indirect2);
    assert forall|x: int| 0 <= x < a + 1 implies #[trigger] child_block(inode1, disk4, x)
        == child_block(inode1, disk3, x) by {
        assert(disk4[inode1.indirect2 as int] == disk3[inode1.indirect2 as int]);
    }
    assert forall|j: int| 0 <= j < a * 128 + to2 implies #[trigger] slot_block(
        inode1,
        disk4,
        156 + j,
    ) == if 156 + j < old_data {
        slot_block(inode0, disk0, 156 + j)
    } else {
        values[new_slot_position(old_data, 156 + j)]
    } by {
        let x = j / 128;
        let m = j % 128;
        assert(child_block(inode1, disk4, x) == child_block(inode1, disk3, x));
        if x < a {
            assert(child_block(inode1, disk3, x) != child_block(inode1, disk3, a));
            assert(disk4[child_block(inode1, disk3, x) as int] == disk3[child_block(
                inode1,
                disk3,
                x,
            ) as int]);
            assert(slot_block(inode1, disk4, 156 + j) == slot_block(inode1, disk3, 156 + j));
        } else {
            assert(index_entry(disk4, c, m) == if b <= m < to2 {
                values[159 + cur2 + a - t0 + m - b]
            } else {
                index_entry(disk3, c, m)
            });
            if m < b {
                assert(slot_block(inode1, disk4, 156 + j) == slot_block(inode1, disk3, 156 + j));
            }
        }
    }
    assert forall|bb: int|
        0 <= bb < n && bb != inode1.indirect2 && (forall|x: int|
            0 <= x < a + 1 ==> bb != #[trigger] child_block(inode1, disk4, x)) implies #[trigger] disk4[bb]
        == disk1[bb] by {
        assert(bb != child_block(inode1, disk4, a));
        assert forall|x: int| 0 <= x < a + 1 implies bb != #[trigger] child_block(
            inode1,
            disk3,
            x,
        ) by {
            assert(bb != child_block(inode1, disk4, x));
        }
    }
    assert forall|x: int| a + 1 <= x < 128 implies #[trigger] index_entry(
        disk4,
        inode1.indirect2 as int,
        x,
    ) == index_entry(disk1, inode1.indirect2 as int, x) by {
        assert(disk4[inode1.indirect2 as int] == disk3[inode1.indirect2 as int]);
        assert(index_entry(disk3, inode1.indirect2 as int, x) == index_entry(
            disk1,
            inode1.indirect2 as int,
            x,
        ));
    }
    assert forall|x: int, m: int|
        0 <= x < a + 1 && 0 <= m < 128 && 128 * x + m >= a * 128 + to2 implies #[trigger] index_entry(
        disk4,
        child_block(inode1, disk4, x) as int,
        m,
    ) == index_entry(disk1, child_block(inode1, disk4, x) as int, m) by {
        assert(x == a);
        assert(child_block(inode1, disk4, a) == child_block(inode1, disk3, a));
        assert(index_entry(disk4, c, m) == index_entry(disk3, c, m));
        assert(index_entry(disk3, child_block(inode1, disk3, a) as int, m) == index_entry(
            disk1,
            child_block(inode1, disk3, a) as int,
            m,
        ));
    }
}

/// Growth that ends below the double index.
proof fn lemma_grown_double(
    inode0: InodeView,
    disk0: Seq<Seq<u8>>,
    inode1: InodeView,
    disk1: Seq<Seq<u8>>,
    disk: Seq<Seq<u8>>,
    values: Seq<u32>,
)
    requires
        grow_input_ok(inode0, disk0, values, disk0.len() as int, data_blocks_of(inode1.size as int)),
        156 < data_blocks_of(inode1.size as int),
        single_done(inode0, disk0, inode1, disk1, values),
        double_state(
            inode0,
            disk0,
            inode1,
            disk1,
            disk,
            values,
            data_blocks_of(inode1.size as int) - 156,
            children_of(data_blocks_of(inode1.size as int)),
        ),
    ensures
        grown(inode0, disk0, inode1, disk, values),
{
    let old_data = data_blocks_of(inode0.size as int);
    let new_data = data_blocks_of(inode1.size as int);
    let t0 = total_blocks_of(old_data);
    let n = disk0.len() as int;
    let i1 = inode1.indirect1 as int;
    assert(disk[i1] == disk1[i1]) by {
        assert forall|a: int| 0 <= a < children_of(new_data) implies i1 != #[trigger] child_block(
            inode1,
            disk,
            a,
        ) by {}
    }
    assert forall|i: int| 0 <= i < new_data implies #[trigger] slot_block(inode1, disk, i) == if i
        < old_data {
        slot_block(inode0, disk0, i)
    } else {
        values[new_slot_position(old_data, i)]
    } by {
        if i < 28 {
            assert(inode1.direct[i] == if old_data <= i < 28 {
                values[i - old_data]
            } else {
                inode0.direct[i]
            });
        } else if i < 156 {
            assert(index_entry(disk, i1, i - 28) == index_entry(disk1, i1, i - 28));
            assert(index_entry(disk1, i1, i - 28) == slot_block(inode1, disk1, i));
        } else {
            let j = i - 156;
            assert(slot_block(inode1, disk, 156 + j) == if 156 + j < old_data {
                slot_block(inode0, disk0, 156 + j)
            } else {
                values[new_slot_position(old_data, 156 + j)]
            });
        }
    }
    assert forall|b: int|
        0 <= b < n && !is_index_block(inode1, disk, new_data, b) implies #[trigger] disk[b]
        == disk0[b] by {
        assert(b != inode1.indirect1);
        assert(b != inode1.indirect2);
        assert forall|a: int| 0 <= a < children_of(new_data) implies b != #[trigger] child_block(
            inode1,
            disk,
            a,
        ) by {}
        assert(disk[b] == disk1[b]);
    }
    assert forall|m: int| 0 <= m < 128 && !(old_data <= 28 + m < new_data) implies #[trigger] index_entry(
        disk,
        i1,
        m,
    ) == index_entry(disk0, i1, m) by {
        assert(index_entry(disk, i1, m) == index_entry(disk1, i1, m));
        assert(index_entry(disk1, i1, m) == index_entry(disk0, i1, m));
    }
    let i2 = inode1.indirect2 as int;
    assert(disk1[i2] == disk0[i2]);
    assert forall|a: int| children_of(new_data) <= a < 128 implies #[trigger] index_entry(disk, i2, a)
        == index_entry(disk0, i2, a) by {
        assert(index_entry(disk, i2, a) == index_entry(disk1, i2, a));
    }
    assert forall|a: int, m: int|
        0 <= a < children_of(new_data) && 0 <= m < 128 && !(old_data <= 156 + 128 * a + m
            < new_data) implies #[trigger] index_entry(disk, child_block(inode1, disk, a) as int, m)
        == index_entry(disk0, child_block(inode1, disk, a) as int, m) by {
        let c = child_block(inode1, disk, a) as int;
        let j = 128 * a + m;
        assert(j / 128 == a && j % 128 == m);
        assert(c != i1);
        assert(disk1[c] == disk0[c]);
        if 156 + j < old_data {
            assert(slot_block(inode1, disk, 156 + j) == slot_block(inode0, disk0, 156 + j));
            assert(a < children_of(old_data));
            assert(child_block(inode1, disk, a) == child_block(inode0, disk0, a));
        } else {
            assert(index_entry(disk, c, m) == index_entry(disk1, c, m));
        }
    }
}

/// A larger file never takes fewer blocks.
pub proof fn lemma_total_blocks_monotone(a: int, b: int)
    requires
        0 <= a <= b,
    ensures
        total_blocks_of(a) <= total_blocks_of(b),
{
}

/// A larger size never takes fewer blocks, counted from the size in bytes.
pub proof fn lemma_total_blocks_of_size_monotone(small: u32, large: u32)
    requires
        small <= large,
    ensures
        total_blocks_of(data_blocks_of(small as int)) <= total_blocks_of(
            data_blocks_of(large as int),
        ),
{
    lemma_total_blocks_monotone(data_blocks_of(small as int), data_blocks_of(large as int));
}

/// `block` with the 32-bit integers `words` written one behind the other from `offset`
/// on, each with the lower byte first.
pub open spec fn with_words(block: Seq<u8>, offset: int, words: Seq<u32>) -> Seq<u8>
    decreases words.len(),
{
    if words.len() == 0 {
        block
    } else {
        with_u32(
            with_words(block, offset, words.drop_last()),
            offset + 4 * (words.len() - 1),
            words.last(),
        )
    }
}

/// The number that stands for the kind of an inode on disk.
pub open spec fn kind_word(kind: DiskInodeType) -> u32 {
    match kind {
        DiskInodeType::File => 0,
        DiskInodeType::Directory => 1,
    }
}

/// The inode that the 128 bytes of `block` from `offset` on stand for: the size, the 28
/// direct block numbers, the numbers of the two index blocks, each a 32-bit integer
/// with the lower byte first, and a byte for the kind, zero for a file and one for a
/// directory. Nothing if that byte is another one.
pub open spec fn inode_at(block: Seq<u8>, offset: int) -> Option<InodeView> {
    let kind = u32_at(block, offset + 124) & 0xff;
    if kind > 1 {
        None
    } else {
        Some(
            InodeView {
                size: u32_at(block, offset),
                direct: Seq::new(28, |i: int| u32_at(block, offset + 4 + 4 * i)),
                indirect1: u32_at(block, offset + 116),
                indirect2: u32_at(block, offset + 120),
                kind: if kind == 0 {
                    DiskInodeType::File
                } else {
                    DiskInodeType::Directory
                },
            },
        )
    }
}

/// `block` with the inode `inode` written to the 128 bytes from `offset` on.
pub open spec fn with_inode(block: Seq<u8>, offset: int, inode: InodeView) -> Seq<u8> {
    with_u32(
        with_u32(
            with_u32(
                with_words(with_u32(block, offset, inode.size), offset + 4, inode.direct),
                offset + 116,
                inode.indirect1,
            ),
            offset + 120,
            inode.indirect2,
        ),
        offset + 124,
        kind_word(inode.kind),
    )
}

/// Integers that were written one behind the other are read again, and nothing else
/// changes.
pub proof fn lemma_with_words(block: Seq<u8>, offset: int, words: Seq<u32>)
    requires
        0 <= offset,
        offset + 4 * words.len() <= block.len(),
    ensures
        crate::codec::same_outside(
            block,
            with_words(block, offset, words),
            offset,
            4 * (words.len() as int),
        ),
        forall|i: int|
            0 <= i < words.len() ==> #[trigger] u32_at(
                with_words(block, offset, words),
                offset + 4 * i,
            ) == words[i],
    decreases words.len(),
{
    if words.len() > 0 {
        let n = words.len() - 1;
        let before = with_words(block, offset, words.drop_last());
        lemma_with_words(block, offset, words.drop_last());
        lemma_with_u32(before, offset + 4 * n, words.last());
        let after = with_words(block, offset, words);
        assert forall|i: int| 0 <= i < words.len() implies #[trigger] u32_at(after, offset + 4 * i)
            == words[i] by {
            if i < n {
                assert(u32_at(before, offset + 4 * i) == words.drop_last()[i]);
                assert(after[offset + 4 * i] == before[offset + 4 * i]);
                assert(after[offset + 4 * i + 1] == before[offset + 4 * i + 1]);
                assert(after[offset + 4 * i + 2] == before[offset + 4 * i + 2]);
                assert(after[offset + 4 * i + 3] == before[offset + 4 * i + 3]);
            }
        }
    }
}

/// An inode that was written to a block is read from it again, and the bytes around
/// it stay.
pub proof fn lemma_inode_round_trip(block: Seq<u8>, offset: int, inode: InodeView)
    requires
        0 <= offset,
        offset + 128 <= block.len(),
        inode.direct.len() == 28,
    ensures
        inode_at(with_inode(block, offset, inode), offset) == Some(inode),
        crate::codec::same_outside(block, with_inode(block, offset, inode), offset, 128),
{
    let b1 = with_u32(block, offset, inode.size);
    let b2 = with_words(b1, offset + 4, inode.direct);
    let b3 = with_u32(b2, offset + 116, inode.indirect1);
    let b4 = with_u32(b3, offset + 120, inode.indirect2);
    let b5 = with_u32(b4, offset + 124, kind_word(inode.kind));
    lemma_with_u32(block, offset, inode.size);
    lemma_with_words(b1, offset + 4, inode.direct);
    lemma_with_u32(b2, offset + 116, inode.indirect1);
    lemma_with_u32(b3, offset + 120, inode.indirect2);
    lemma_with_u32(b4, offset + 124, kind_word(inode.kind));
    assert(0u32 & 0xff == 0 && 1u32 & 0xff == 1) by (bit_vector);
    let found = inode_at(b5, offset)->Some_0;
    assert(u32_at(b5, offset) == inode.size) by {
        assert(u32_at(b1, offset) == inode.size);
    }
    assert forall|i: int| 0 <= i < 28 implies u32_at(b5, offset + 4 + 4 * i) == inode.direct[i] by {
        assert(u32_at(b2, offset + 4 + 4 * i) == inode.direct[i]);
    }
    assert(found.direct =~= inode.direct);
    assert(u32_at(b5, offset + 116) == inode.indirect1) by {
        assert(u32_at(b3, offset + 116) == inode.indirect1);
    }
    assert(u32_at(b5, offset + 120) == inode.indirect2) by {
        assert(u32_at(b4, offset + 120) == inode.indirect2);
    }
}

impl DiskInode {
    /// Reads the inode that lies at `offset` of block `block_id`, through the cache.
    /// Nothing if the bytes there stand for no inode.
    pub fn load<D: BlockDevice>(
        block_id: usize,
        offset: usize,
        cache: &mut BlockCacheManager,
        device: &mut D,
    ) -> (r: Option<Self>)
        requires
            old(device).inv(),
            old(cache).wf(old(device).blocks()),
            block_id < old(device).blocks().len(),
            has_room(old(cache).slots()),
            offset + 128 <= 512,
        ensures
            final(device).inv(),
            final(cache).wf(final(device).blocks()),
            has_room(final(cache).slots()),
            final(device).blocks().len() == old(device).blocks().len(),
            final(cache).disk(final(device).blocks()) == old(cache).disk(old(device).blocks()),
            match r {
                Some(inode) => inode_at(
                    old(cache).disk(old(device).blocks())[block_id as int],
                    offset as int,
                ) == Some(inode@),
                None => inode_at(
                    old(cache).disk(old(device).blocks())[block_id as int],
                    offset as int,
                ) is None,
            },
    {
        let ghost disk0 = cache.disk(device.blocks());
        let ghost block = disk0[block_id as int];
        let size = cache.read_u32(block_id, offset, device);
        let mut direct = [0u32;28];
        let mut i: usize = 0;
        while i < 28
            invariant
                i <= 28,
                offset + 128 <= 512,
                device.inv(),
                cache.wf(device.blocks()),
                has_room(cache.slots()),
                block_id < device.blocks().len(),
                device.blocks().len() == old(device).blocks().len(),
                cache.disk(device.blocks()) == disk0,
                block == disk0[block_id as int],
                forall|j: int| 0 <= j < i ==> #[trigger] direct@[j] == u32_at(block, offset + 4 + 4 * j),
            decreases 28 - i,
        {
            let word = cache.read_u32(block_id, offset + 4 + 4 * i, device);
            direct[i] = word;
            i = i + 1;
        }
        let indirect1 = cache.read_u32(block_id, offset + 116, device);
        let indirect2 = cache.read_u32(block_id, offset + 120, device);
        let kind = cache.read_u32(block_id, offset + 124, device) & 0xff;
        if kind > 1 {
            return None;
        }
        let type_ = if kind == 0 {
            DiskInodeType::File
        } else {
            DiskInodeType::Directory
        };
        let inode = DiskInode { size, direct, indirect1, indirect2, type_ };
        proof {
            assert(inode@.direct =~= inode_at(block, offset as int)->Some_0.direct);
        }
        Some(inode)
    }

    /// Writes the inode to the 128 bytes at `offset` of block `block_id`, through the
    /// cache.
    pub fn store<D: BlockDevice>(
        &self,
        block_id: usize,
        offset: usize,
        cache: &mut BlockCacheManager,
        device: &mut D,
    )
        requires
            old(device).inv(),
            old(cache).wf(old(device).blocks()),
            block_id < old(device).blocks().len(),
            has_room(old(cache).slots()),
            offset + 128 <= 512,
        ensures
            final(device).inv(),
            final(cache).wf(final(device).blocks()),
            has_room(final(cache).slots()),
            final(device).blocks().len() == old(device).blocks().len(),
            final(cache).disk(final(device).blocks()) == old(cache).disk(
                old(device).blocks(),
            ).update(
                block_id as int,
                with_inode(
                    old(cache).disk(old(device).blocks())[block_id as int],
                    offset as int,
                    self@,
                ),
            ),
    {
        let ghost disk0 = cache.disk(device.blocks());
        let ghost b0 = disk0[block_id as int];
        let ghost b1 = with_u32(b0, offset as int, self.size);
        proof {
            device.lemma_inv_blocks();
            lemma_disk_shape(cache.slots(), device.blocks());
        }
        cache.write_u32(block_id, offset, self.size, device);
        let mut i: usize = 0;
        while i < 28
            invariant
                i <= 28,
                offset + 128 <= 512,
                device.inv(),
                cache.wf(device.blocks()),
                has_room(cache.slots()),
                block_id < device.blocks().len(),
                device.blocks().len() == old(device).blocks().len(),
                disk0.len() == device.blocks().len(),
                b0 == disk0[block_id as int],
                b1 == with_u32(b0, offset as int, self.size),
                cache.disk(device.blocks()) == disk0.update(
                    block_id as int,
                    with_words(b1, offset + 4, self.direct@.subrange(0, i as int)),
                ),
            decreases 28 - i,
        {
            let ghost done = self.direct@.subrange(0, i as int);
            let ghost more = self.direct@.subrange(0, i + 1);
            cache.write_u32(block_id, offset + 4 + 4 * i, self.direct[i], device);
            proof {
                assert(more.drop_last() =~= done);
                assert(more.last() == self.direct@[i as int]);
                let next = with_words(b1, offset + 4, more);
                assert(cache.disk(device.blocks()) =~= disk0.update(block_id as int, next));
            }
            i = i + 1;
        }
        let ghost b2 = with_words(b1, offset + 4, self.direct@);
        proof {
            assert(self.direct@.subrange(0, 28) =~= self.direct@);
        }
        cache.write_u32(block_id, offset + 116, self.indirect1, device);
        cache.write_u32(block_id, offset + 120, self.indirect2, device);
        let word: u32 = match self.type_ {
            DiskInodeType::File => 0,
            DiskInodeType::Directory => 1,
        };
        cache.write_u32(block_id, offset + 124, word, device);
        proof {
            let b3 = with_u32(b2, offset + 116, self.indirect1);
            let b4 = with_u32(b3, offset + 120, self.indirect2);
            let b5 = with_u32(b4, offset + 124, word);
            assert(cache.disk(device.blocks()) =~= disk0.update(block_id as int, b5));
        }
    }
}

} // verus!
