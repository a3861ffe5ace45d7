//! Allocation bitmaps: a run of blocks in which each bit records whether an
//! inode or a data block is in use.

use vstd::prelude::*;
use vstd::std_specs::bits::{axiom_u64_trailing_ones, u64_trailing_ones};
use crate::codec::{lemma_with_u64, lemma_with_u64_twice, u64_at, with_u64};
use crate::fs::block_cache::{has_room, BlockCacheManager};
use crate::fs::block_dev::BlockDevice;

verus! {

/// Number of bits in one block.
pub const BLOCK_BITS: usize = 4096;

/// A bitmap that occupies `blocks` blocks of a device, from block `start_block_id` on.
pub struct Bitmap {
    start_block_id: usize,
    blocks: usize,
}

/// Whether bit `j` of `w` is set.
pub open spec fn word_bit(w: u64, j: u64) -> bool {
    (w >> j) & 1 == 1
}

/// The 64-bit word that holds bit `bit` of the bitmap starting at block `start`.
pub open spec fn bitmap_word(disk: Seq<Seq<u8>>, start: int, bit: int) -> u64 {
    u64_at(disk[start + bit / 4096], 8 * ((bit % 4096) / 64))
}

/// Whether bit `bit` of the bitmap starting at block `start` is set.
pub open spec fn bit_is_set(disk: Seq<Seq<u8>>, start: int, bit: int) -> bool {
    word_bit(bitmap_word(disk, start, bit), (bit % 64) as u64)
}

/// The disk with the word of bit `bit` replaced by `w`.
pub open spec fn with_bitmap_word(disk: Seq<Seq<u8>>, start: int, bit: int, w: u64) -> Seq<
    Seq<u8>,
> {
    disk.update(start + bit / 4096, with_u64(disk[start + bit / 4096], 8 * ((bit % 4096) / 64), w))
}

/// The disk with bit `bit` set.
pub open spec fn with_bit_set(disk: Seq<Seq<u8>>, start: int, bit: int) -> Seq<Seq<u8>> {
    with_bitmap_word(
        disk,
        start,
        bit,
        bitmap_word(disk, start, bit) | (1u64 << ((bit % 64) as u64)),
    )
}

/// The disk with bit `bit` cleared.
pub open spec fn with_bit_clear(disk: Seq<Seq<u8>>, start: int, bit: int) -> Seq<Seq<u8>> {
    with_bitmap_word(
        disk,
        start,
        bit,
        bitmap_word(disk, start, bit) & !(1u64 << ((bit % 64) as u64)),
    )
}

/// Whether `bit` is the lowest clear bit among the first `capacity` bits.
pub open spec fn is_first_clear(disk: Seq<Seq<u8>>, start: int, capacity: int, bit: int) -> bool {
    &&& 0 <= bit < capacity
    &&& !bit_is_set(disk, start, bit)
    &&& forall|j: int| 0 <= j < bit ==> #[trigger] bit_is_set(disk, start, j)
}

/// Whether the first `capacity` bits are all set.
pub open spec fn all_set(disk: Seq<Seq<u8>>, start: int, capacity: int) -> bool {
    forall|j: int| 0 <= j < capacity ==> #[trigger] bit_is_set(disk, start, j)
}

/// Splits a bit index into the block, the word of the block and the bit of the word.
pub fn decomposition(bit: usize) -> (r: (usize, usize, usize))
    ensures
        r.0 == bit / 4096,
        r.1 == (bit % 4096) / 64,
        r.2 == bit % 64,
        r.0 * 4096 + r.1 * 64 + r.2 == bit,
{
    let block_id: usize = bit / BLOCK_BITS;
    let bitmap_pos: usize = (bit % BLOCK_BITS) / 64;
    let bit_pos: usize = (bit % BLOCK_BITS) % 64;
    (block_id, bitmap_pos, bit_pos)
}

impl Bitmap {
    /// First block of the bitmap.
    pub closed spec fn start(&self) -> int {
        self.start_block_id as int
    }

    /// Number of bits of the bitmap.
    pub closed spec fn capacity(&self) -> int {
        self.blocks * 4096
    }

    /// The bitmap lies inside a device of `num_blocks` blocks.
    pub open spec fn fits(&self, num_blocks: int) -> bool {
        &&& self.start() + self.capacity() / 4096 <= num_blocks
        &&& self.capacity() <= usize::MAX
        &&& self.capacity() % 4096 == 0
    }

    /// A bitmap of `blocks` blocks that starts at block `start_block_id`.
    pub fn new(start_block_id: usize, blocks: usize) -> (r: Self)
        ensures
            r.start() == start_block_id,
            r.capacity() == blocks * 4096,
    {
        Self { start_block_id, blocks }
    }

    /// Number of bits of the bitmap.
    pub fn maximum(&self) -> (r: usize)
        requires
            self.capacity() <= usize::MAX,
        ensures
            r == self.capacity(),
    {
        self.blocks * BLOCK_BITS
    }

    /// Finds the lowest clear bit, sets it and returns its index; `None` when every
    /// bit is set.
    pub fn allocate<D: BlockDevice>(&self, cache: &mut BlockCacheManager, device: &mut D) -> (r:
        Option<usize>)
        requires
            old(device).inv(),
            old(cache).wf(old(device).blocks()),
            has_room(old(cache).slots()),
            self.fits(old(device).blocks().len() as int),
        ensures
            final(device).inv(),
            final(cache).wf(final(device).blocks()),
            has_room(final(cache).slots()),
            final(device).blocks().len() == old(device).blocks().len(),
            match r {
                Some(bit) => {
                    &&& bit < self.capacity()
                    &&& is_first_clear(
                        old(cache).disk(old(device).blocks()),
                        self.start(),
                        self.capacity(),
                        bit as int,
                    )
                    &&& final(cache).disk(final(device).blocks()) == with_bit_set(
                        old(cache).disk(old(device).blocks()),
                        self.start(),
                        bit as int,
                    )
                },
                None => {
                    &&& all_set(
                        old(cache).disk(old(device).blocks()),
                        self.start(),
                        self.capacity(),
                    )
                    &&& final(cache).disk(final(device).blocks()) == old(cache).disk(
                        old(device).blocks(),
                    )
                },
            },
    {
        let ghost disk0 = cache.disk(device.blocks());
        let ghost start = self.start_block_id as int;
        proof {
            device.lemma_inv_blocks();
        }
        let mut block_id: usize = 0;
        while block_id < self.blocks
            invariant
                block_id <= self.blocks,
                device.inv(),
                cache.wf(device.blocks()),
                has_room(cache.slots()),
                device.blocks().len() == old(device).blocks().len(),
                device.blocks().len() <= usize::MAX,
                self.fits(device.blocks().len() as int),
                start == self.start_block_id,
                disk0 == old(cache).disk(old(device).blocks()),
                cache.disk(device.blocks()) == disk0,
                prefix_set(disk0, start, block_id * 4096),
            decreases self.blocks - block_id,
        {
            let mut pos: usize = 0;
            while pos < 64
                invariant
                    pos <= 64,
                    block_id < self.blocks,
                    device.inv(),
                    cache.wf(device.blocks()),
                    has_room(cache.slots()),
                    device.blocks().len() == old(device).blocks().len(),
                    device.blocks().len() <= usize::MAX,
                    self.fits(device.blocks().len() as int),
                    start == self.start_block_id,
                    disk0 == old(cache).disk(old(device).blocks()),
                    cache.disk(device.blocks()) == disk0,
                    prefix_set(disk0, start, block_id * 4096 + pos * 64),
                decreases 64 - pos,
            {
                let word: u64 = cache.read_u64(self.start_block_id + block_id, 8 * pos, device);
                if word != u64::MAX {
                    let inner: u32 = word.trailing_ones();
                    proof {
                        axiom_u64_trailing_ones(word);
                        lemma_word_with_clear_bit(disk0, start, block_id as int, pos as int, word);
                    }
                    let bit: usize = block_id * BLOCK_BITS + pos * 64 + inner as usize;
                    let mask: u64 = 1u64 << (inner as u64);
                    let ghost gi = u64_trailing_ones(word) as int;
                    assert(bit as int == block_id * 4096 + pos * 64 + gi);
                    assert(mask == 1u64 << (gi as u64));
                    cache.write_u64(self.start_block_id + block_id, 8 * pos, word | mask, device);
                    return Some(bit);
                }
                proof {
                    lemma_full_word(disk0, start, block_id as int, pos as int);
                }
                pos = pos + 1;
            }
            block_id = block_id + 1;
        }
        None
    }

    /// Clears bit `bit`, which must be set.
    pub fn dealloc<D: BlockDevice>(&self, cache: &mut BlockCacheManager, device: &mut D, bit: usize)
        requires
            old(device).inv(),
            old(cache).wf(old(device).blocks()),
            has_room(old(cache).slots()),
            self.fits(old(device).blocks().len() as int),
            bit < self.capacity(),
            bit_is_set(old(cache).disk(old(device).blocks()), self.start(), bit as int),
        ensures
            final(device).inv(),
            final(cache).wf(final(device).blocks()),
            has_room(final(cache).slots()),
            final(device).blocks().len() == old(device).blocks().len(),
            final(cache).disk(final(device).blocks()) == with_bit_clear(
                old(cache).disk(old(device).blocks()),
                self.start(),
                bit as int,
            ),
    {
        proof {
            device.lemma_inv_blocks();
        }
        let (block_pos, bitmap_pos, bit_pos) = decomposition(bit);
        let block_id: usize = self.start_block_id + block_pos;
        let word: u64 = cache.read_u64(block_id, 8 * bitmap_pos, device);
        let mask: u64 = 1u64 << (bit_pos as u64);
        cache.write_u64(block_id, 8 * bitmap_pos, word & !mask, device);
    }
}

/// Whether the first `n` bits are all set.
pub open spec fn prefix_set(disk: Seq<Seq<u8>>, start: int, n: int) -> bool {
    forall|j: int| 0 <= j < n ==> #[trigger] bit_is_set(disk, start, j)
}

/// The block, word and bit of the `k`-th bit of word `pos` of block `block`.
pub proof fn lemma_bit_position(block: int, pos: int, k: int)
    requires
        0 <= block,
        0 <= pos < 64,
        0 <= k < 64,
    ensures
        (block * 4096 + pos * 64 + k) / 4096 == block,
        ((block * 4096 + pos * 64 + k) % 4096) / 64 == pos,
        (block * 4096 + pos * 64 + k) % 64 == k,
{
}

/// A word of all ones extends the run of set bits by 64.
pub proof fn lemma_full_word(disk: Seq<Seq<u8>>, start: int, block: int, pos: int)
    requires
        0 <= block,
        0 <= pos < 64,
        prefix_set(disk, start, block * 4096 + pos * 64),
        u64_at(disk[start + block], 8 * pos) == u64::MAX,
    ensures
        prefix_set(disk, start, block * 4096 + pos * 64 + 64),
{
    let base = block * 4096 + pos * 64;
    assert forall|j: int| 0 <= j < base + 64 implies #[trigger] bit_is_set(disk, start, j) by {
        if j >= base {
            let k = j - base;
            lemma_bit_position(block, pos, k);
            let kk = k as u64;
            assert(kk < 64 ==> (0xffff_ffff_ffff_ffffu64 >> kk) & 1u64 == 1u64) by (bit_vector);
        }
    }
}

/// In a word that is not all ones, the bit after its trailing ones is the lowest
/// clear bit of the bitmap, given that all bits before the word are set.
pub proof fn lemma_word_with_clear_bit(
    disk: Seq<Seq<u8>>,
    start: int,
    block: int,
    pos: int,
    word: u64,
)
    requires
        0 <= block,
        0 <= pos < 64,
        prefix_set(disk, start, block * 4096 + pos * 64),
        u64_at(disk[start + block], 8 * pos) == word,
        word != u64::MAX,
    ensures
        ({
            let inner = u64_trailing_ones(word) as int;
            let bit = block * 4096 + pos * 64 + inner;
            &&& 0 <= inner < 64
            &&& !bit_is_set(disk, start, bit)
            &&& prefix_set(disk, start, bit)
            &&& with_bit_set(disk, start, bit) == disk.update(
                start + block,
                with_u64(disk[start + block], 8 * pos, word | (1u64 << (inner as u64))),
            )
        }),
{
    axiom_u64_trailing_ones(word);
    let inner = u64_trailing_ones(word) as int;
    let base = block * 4096 + pos * 64;
    let bit = base + inner;
    lemma_bit_position(block, pos, inner);
    assert forall|j: int| 0 <= j < bit implies #[trigger] bit_is_set(disk, start, j) by {
        if j >= base {
            let k = j - base;
            lemma_bit_position(block, pos, k);
            let kk = k as u64;
            assert((word >> kk) & 1u64 == 1u64);
        }
    }
}

/// Setting or clearing a bit changes that bit and no other bit of the bitmap.
pub proof fn lemma_bit_update(disk: Seq<Seq<u8>>, start: int, capacity: int, bit: int)
    requires
        0 <= start,
        0 <= bit < capacity,
        start + (capacity + 4095) / 4096 <= disk.len(),
        forall|b: int| 0 <= b < disk.len() ==> (#[trigger] disk[b]).len() == 512,
    ensures
        bit_is_set(with_bit_set(disk, start, bit), start, bit),
        !bit_is_set(with_bit_clear(disk, start, bit), start, bit),
        forall|j: int|
            0 <= j < capacity && j != bit ==> bit_is_set(with_bit_set(disk, start, bit), start, j)
                == #[trigger] bit_is_set(disk, start, j),
        forall|j: int|
            0 <= j < capacity && j != bit ==> bit_is_set(with_bit_clear(disk, start, bit), start, j)
                == #[trigger] bit_is_set(disk, start, j),
{
    let w = bitmap_word(disk, start, bit);
    let k = (bit % 64) as u64;
    let off = 8 * ((bit % 4096) / 64);
    let blk = start + bit / 4096;
    let ws = w | (1u64 << k);
    let wc = w & !(1u64 << k);
    lemma_with_u64(disk[blk], off, ws);
    lemma_with_u64(disk[blk], off, wc);
    assert(k < 64 ==> ((w | (1u64 << k)) >> k) & 1 == 1) by (bit_vector);
    assert(k < 64 ==> ((w & !(1u64 << k)) >> k) & 1 == 0) by (bit_vector);
    assert forall|j: int| 0 <= j < capacity && j != bit implies bit_is_set(
        with_bit_set(disk, start, bit),
        start,
        j,
    ) == #[trigger] bit_is_set(disk, start, j) && bit_is_set(
        with_bit_clear(disk, start, bit),
        start,
        j,
    ) == bit_is_set(disk, start, j) by {
        let kj = (j % 64) as u64;
        let offj = 8 * ((j % 4096) / 64);
        let blkj = start + j / 4096;
        if blkj == blk && offj == off {
            assert(kj != k);
            assert(k < 64 && kj < 64 && kj != k ==> (((w | (1u64 << k)) >> kj) & 1) == ((w >> kj)
                & 1)) by (bit_vector);
            assert(k < 64 && kj < 64 && kj != k ==> (((w & !(1u64 << k)) >> kj) & 1) == ((w >> kj)
                & 1)) by (bit_vector);
        } else if blkj == blk {
            assert(offj + 8 <= off || off + 8 <= offj);
        }
    }
}

/// The bitmap lies inside `disk`, whose blocks are whole.
pub open spec fn bitmap_on_disk(disk: Seq<Seq<u8>>, start: int, capacity: int) -> bool {
    &&& 0 <= start
    &&& 0 <= capacity
    &&& start + (capacity + 4095) / 4096 <= disk.len()
    &&& forall|b: int| 0 <= b < disk.len() ==> (#[trigger] disk[b]).len() == 512
}

/// The lowest clear bit is determined by the disk.
pub proof fn lemma_first_clear_unique(
    disk: Seq<Seq<u8>>,
    start: int,
    capacity: int,
    a: int,
    b: int,
)
    requires
        is_first_clear(disk, start, capacity, a),
        is_first_clear(disk, start, capacity, b),
    ensures
        a == b,
{
    if a < b {
        assert(bit_is_set(disk, start, a));
    }
    if b < a {
        assert(bit_is_set(disk, start, b));
    }
}

/// Two allocations in a row hand out increasing indices: after the lowest clear bit
/// `first` was set, the lowest clear bit `second` lies above it.
pub proof fn lemma_allocations_increase(
    disk: Seq<Seq<u8>>,
    start: int,
    capacity: int,
    first: int,
    second: int,
)
    requires
        bitmap_on_disk(disk, start, capacity),
        is_first_clear(disk, start, capacity, first),
        is_first_clear(with_bit_set(disk, start, first), start, capacity, second),
    ensures
        first < second,
{
    lemma_bit_update(disk, start, capacity, first);
    if second < first {
        assert(bit_is_set(disk, start, second));
    }
}

/// On a bitmap whose first `k` bits are set and whose other bits are clear, an
/// allocation hands out `k` and leaves a bitmap of the same shape with `k + 1` bits
/// set. So an empty bitmap hands out 0, 1, 2 and so on, up to its capacity, and
/// then nothing.
pub proof fn lemma_allocation_in_order(disk: Seq<Seq<u8>>, start: int, capacity: int, k: int)
    requires
        bitmap_on_disk(disk, start, capacity),
        0 <= k <= capacity,
        prefix_set(disk, start, k),
        forall|j: int| k <= j < capacity ==> !#[trigger] bit_is_set(disk, start, j),
    ensures
        k == capacity ==> all_set(disk, start, capacity),
        k < capacity ==> {
            &&& is_first_clear(disk, start, capacity, k)
            &&& prefix_set(with_bit_set(disk, start, k), start, k + 1)
            &&& forall|j: int|
                k + 1 <= j < capacity ==> !#[trigger] bit_is_set(
                    with_bit_set(disk, start, k),
                    start,
                    j,
                )
        },
{
    if k < capacity {
        lemma_bit_update(disk, start, capacity, k);
        let after = with_bit_set(disk, start, k);
        assert forall|j: int| 0 <= j < k + 1 implies #[trigger] bit_is_set(after, start, j) by {
            if j < k {
                assert(bit_is_set(disk, start, j));
            }
        }
        assert forall|j: int| k + 1 <= j < capacity implies !#[trigger] bit_is_set(
            after,
            start,
            j,
        ) by {
            assert(!bit_is_set(disk, start, j));
        }
    }
}

/// Freeing bit `bit` and allocating again hands out `bit` and restores the disk,
/// provided that no lower bit is clear.
pub proof fn lemma_allocation_after_free(disk: Seq<Seq<u8>>, start: int, capacity: int, bit: int)
    requires
        bitmap_on_disk(disk, start, capacity),
        0 <= bit < capacity,
        bit_is_set(disk, start, bit),
        prefix_set(disk, start, bit),
    ensures
        is_first_clear(with_bit_clear(disk, start, bit), start, capacity, bit),
        with_bit_set(with_bit_clear(disk, start, bit), start, bit) == disk,
{
    lemma_bit_update(disk, start, capacity, bit);
    let freed = with_bit_clear(disk, start, bit);
    assert forall|j: int| 0 <= j < bit implies #[trigger] bit_is_set(freed, start, j) by {
        assert(bit_is_set(disk, start, j));
    }
    let w = bitmap_word(disk, start, bit);
    let k = (bit % 64) as u64;
    let off = 8 * ((bit % 4096) / 64);
    let blk = start + bit / 4096;
    let wc = w & !(1u64 << k);
    lemma_with_u64(disk[blk], off, wc);
    assert(bitmap_word(freed, start, bit) == wc);
    assert(k < 64 && (w >> k) & 1 == 1 ==> ((w & !(1u64 << k)) | (1u64 << k)) == w)
        by (bit_vector);
    lemma_with_u64_twice(disk[blk], off, wc, w);
    assert(with_bit_set(freed, start, bit) =~= disk);
}

} // verus!
