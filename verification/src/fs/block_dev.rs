//! Block devices: storage read and written one 512-byte block at a time.

use vstd::prelude::*;

verus! {

/// Size of a block, in bytes.
pub const BLOCK_SIZE: usize = 512;

/// Every block of `blocks` has exactly 512 bytes, and their number fits the machine.
pub open spec fn blocks_ok(blocks: Seq<Seq<u8>>) -> bool {
    &&& blocks.len() <= usize::MAX
    &&& forall|i: int| 0 <= i < blocks.len() ==> (#[trigger] blocks[i]).len() == 512
}

/// A device that stores numbered blocks of 512 bytes.
///
/// An implementation promises that a block reads back as it was last written.
pub trait BlockDevice {
    /// What the device holds: one byte sequence for each block.
    spec fn blocks(&self) -> Seq<Seq<u8>>;

    /// The implementation's own consistency condition.
    spec fn inv(&self) -> bool;

    /// A consistent device holds whole blocks only.
    proof fn lemma_inv_blocks(&self)
        requires
            self.inv(),
        ensures
            blocks_ok(self.blocks()),
    ;

    /// Copies block `block_id` into `buf`.
    fn read_block(&self, block_id: usize, buf: &mut Vec<u8>)
        requires
            self.inv(),
            block_id < self.blocks().len(),
            old(buf).len() == 512,
        ensures
            final(buf)@ == self.blocks()[block_id as int],
    ;

    /// Replaces block `block_id` by `buf`.
    fn write_block(&mut self, block_id: usize, buf: &Vec<u8>)
        requires
            old(self).inv(),
            block_id < old(self).blocks().len(),
            buf.len() == 512,
        ensures
            final(self).inv(),
            final(self).blocks() == old(self).blocks().update(block_id as int, buf@),
    ;
}

/// A block device kept in memory.
pub struct MemDisk {
    data: Vec<Vec<u8>>,
}

impl MemDisk {
    /// A device of `num_blocks` blocks, all zero.
    pub fn new(num_blocks: usize) -> (d: Self)
        ensures
            d.inv(),
            d.blocks().len() == num_blocks,
            forall|i: int, j: int|
                0 <= i < num_blocks && 0 <= j < 512 ==> (#[trigger] d.blocks()[i][j]) == 0,
    {
        let mut data: Vec<Vec<u8>> = Vec::new();
        let mut i: usize = 0;
        while i < num_blocks
            invariant
                i <= num_blocks,
                data.len() == i,
                forall|k: int| 0 <= k < i ==> (#[trigger] data[k]).len() == 512,
                forall|k: int, j: int| 0 <= k < i && 0 <= j < 512 ==> (#[trigger] data[k][j]) == 0,
            decreases num_blocks - i,
        {
            let block: Vec<u8> = zero_block();
            data.push(block);
            i = i + 1;
        }
        MemDisk { data }
    }

    /// Number of blocks of the device.
    pub fn num_blocks(&self) -> (n: usize)
        ensures
            n == self.blocks().len(),
    {
        self.data.len()
    }
}

/// A buffer of 512 zero bytes.
pub fn zero_block() -> (block: Vec<u8>)
    ensures
        block.len() == 512,
        forall|j: int| 0 <= j < 512 ==> block[j] == 0,
{
    let mut block: Vec<u8> = Vec::new();
    let mut j: usize = 0;
    while j < BLOCK_SIZE
        invariant
            j <= 512,
            block.len() == j,
            forall|k: int| 0 <= k < j ==> block[k] == 0,
        decreases 512 - j,
    {
        block.push(0u8);
        j = j + 1;
    }
    block
}

/// Copies the 512 bytes of `src` over `dst`.
pub fn copy_block(dst: &mut Vec<u8>, src: &Vec<u8>)
    requires
        old(dst).len() == 512,
        src.len() == 512,
    ensures
        final(dst)@ == src@,
{
    let mut j: usize = 0;
    while j < BLOCK_SIZE
        invariant
            j <= 512,
            dst.len() == 512,
            src.len() == 512,
            forall|k: int| 0 <= k < j ==> dst[k] == src[k],
        decreases 512 - j,
    {
        dst.set(j, src[j]);
        j = j + 1;
    }
    assert(dst@ =~= src@);
}

impl BlockDevice for MemDisk {
    closed spec fn blocks(&self) -> Seq<Seq<u8>> {
        Seq::new(self.data.len() as nat, |i: int| self.data[i]@)
    }

    closed spec fn inv(&self) -> bool {
        forall|i: int| 0 <= i < self.data.len() ==> (#[trigger] self.data[i]).len() == 512
    }

    proof fn lemma_inv_blocks(&self) {
    }

    fn read_block(&self, block_id: usize, buf: &mut Vec<u8>) {
        copy_block(buf, &self.data[block_id]);
    }

    fn write_block(&mut self, block_id: usize, buf: &Vec<u8>) {
        let mut block: Vec<u8> = zero_block();
        copy_block(&mut block, buf);
        self.data.set(block_id, block);
        assert(self.blocks() =~= old(self).blocks().update(block_id as int, buf@));
    }
}

} // verus!
