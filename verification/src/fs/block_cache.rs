//! A write-back cache of up to sixteen blocks in front of a block device.

use vstd::prelude::*;
use std::collections::VecDeque;
use crate::codec::{load_u32, load_u64, store_u32, store_u64, u32_at, u64_at, with_u32, with_u64};
use crate::fs::block_dev::{blocks_ok, zero_block, BlockDevice};

verus! {

/// Largest number of blocks the cache holds at a time.
pub const BLOCK_CACHE_SIZE: usize = 16;

/// One block held in memory, with the number of the block it stands for.
pub struct BlockCache {
    cache: Vec<u8>,
    block_id: usize,
    modified: bool,
}

impl BlockCache {
    /// The cached bytes.
    pub closed spec fn bytes(&self) -> Seq<u8> {
        self.cache@
    }

    /// Number of the block on the device.
    pub closed spec fn id(&self) -> usize {
        self.block_id
    }

    /// Whether the cached bytes were changed since they were last written to the device.
    pub closed spec fn dirty(&self) -> bool {
        self.modified
    }

    /// The cache holds a whole block.
    pub open spec fn wf(&self) -> bool {
        self.bytes().len() == 512
    }

    /// Reads block `block_id` from the device into a fresh cache.
    pub fn new<D: BlockDevice>(block_id: usize, device: &D) -> (c: Self)
        requires
            device.inv(),
            block_id < device.blocks().len(),
        ensures
            c.wf(),
            c.id() == block_id,
            !c.dirty(),
            c.bytes() == device.blocks()[block_id as int],
    {
        let mut cache: Vec<u8> = zero_block();
        device.read_block(block_id, &mut cache);
        proof {
            device.lemma_inv_blocks();
        }
        BlockCache { cache, block_id, modified: false }
    }

    /// Number of the block on the device.
    pub fn block_id(&self) -> (r: usize)
        ensures
            r == self.id(),
    {
        self.block_id
    }

    /// Whether the cached bytes differ from what was last written to the device.
    pub fn is_modified(&self) -> (r: bool)
        ensures
            r == self.dirty(),
    {
        self.modified
    }

    /// The 32-bit little-endian integer at `offset`.
    pub fn read_u32(&self, offset: usize) -> (r: u32)
        requires
            self.wf(),
            offset + 4 <= 512,
        ensures
            r == u32_at(self.bytes(), offset as int),
    {
        load_u32(&self.cache, offset)
    }

    /// The 64-bit little-endian integer at `offset`.
    pub fn read_u64(&self, offset: usize) -> (r: u64)
        requires
            self.wf(),
            offset + 8 <= 512,
        ensures
            r == u64_at(self.bytes(), offset as int),
    {
        load_u64(&self.cache, offset)
    }

    /// Stores `v` at `offset` and marks the block as changed.
    pub fn modify_u32(&mut self, offset: usize, v: u32)
        requires
            old(self).wf(),
            offset + 4 <= 512,
        ensures
            final(self).id() == old(self).id(),
            final(self).dirty(),
            final(self).bytes() == with_u32(old(self).bytes(), offset as int, v),
    {
        self.modified = true;
        store_u32(&mut self.cache, offset, v);
    }

    /// Stores `v` at `offset` and marks the block as changed.
    pub fn modify_u64(&mut self, offset: usize, v: u64)
        requires
            old(self).wf(),
            offset + 8 <= 512,
        ensures
            final(self).id() == old(self).id(),
            final(self).dirty(),
            final(self).bytes() == with_u64(old(self).bytes(), offset as int, v),
    {
        self.modified = true;
        store_u64(&mut self.cache, offset, v);
    }

    /// Writes the block back to the device if it was changed.
    pub fn sync<D: BlockDevice>(&mut self, device: &mut D)
        requires
            old(self).wf(),
            old(device).inv(),
            old(self).id() < old(device).blocks().len(),
        ensures
            final(self).bytes() == old(self).bytes(),
            final(self).id() == old(self).id(),
            !final(self).dirty(),
            final(device).inv(),
            final(device).blocks() == if old(self).dirty() {
                old(device).blocks().update(old(self).id() as int, old(self).bytes())
            } else {
                old(device).blocks()
            },
    {
        if self.modified {
            self.modified = false;
            device.write_block(self.block_id, &self.cache);
        }
    }
}

impl BlockCache {
    /// Gives the cached block up. If it was changed it is written back to the device
    /// first, so that no change is lost.
    pub fn release<D: BlockDevice>(self, device: &mut D)
        requires
            self.wf(),
            old(device).inv(),
            self.id() < old(device).blocks().len(),
        ensures
            final(device).inv(),
            final(device).blocks() == if self.dirty() {
                old(device).blocks().update(self.id() as int, self.bytes())
            } else {
                old(device).blocks()
            },
    {
        let mut cache = self;
        cache.sync(device);
    }
}

/// What the cache manager holds for one block.
pub struct SlotView {
    /// Number of the block on the device.
    pub id: usize,
    /// The cached bytes.
    pub bytes: Seq<u8>,
    /// Whether the bytes differ from the device's.
    pub dirty: bool,
    /// Number of outside holders that keep the block from being evicted.
    pub holders: nat,
}

/// Whether some slot stands for block `id`.
pub open spec fn has_slot(slots: Seq<SlotView>, id: usize) -> bool {
    exists|i: int| 0 <= i < slots.len() && (#[trigger] slots[i]).id == id
}

/// Index of the slot that stands for block `id`.
pub open spec fn slot_index(slots: Seq<SlotView>, id: usize) -> int {
    choose|i: int| 0 <= i < slots.len() && (#[trigger] slots[i]).id == id
}

/// Whether slot `i` is the first one that stands for block `id`.
pub open spec fn is_first_slot(slots: Seq<SlotView>, id: usize, i: int) -> bool {
    &&& 0 <= i < slots.len()
    &&& slots[i].id == id
    &&& forall|j: int| 0 <= j < i ==> (#[trigger] slots[j]).id != id
}

/// Index of the first slot that stands for block `id`.
pub open spec fn first_slot(slots: Seq<SlotView>, id: usize) -> int {
    choose|i: int| is_first_slot(slots, id, i)
}

/// Whether slot `i` is the first one without outside holders.
pub open spec fn is_first_free(slots: Seq<SlotView>, i: int) -> bool {
    &&& 0 <= i < slots.len()
    &&& slots[i].holders == 0
    &&& forall|j: int| 0 <= j < i ==> (#[trigger] slots[j]).holders != 0
}

/// Index of the first slot without outside holders.
pub open spec fn first_free(slots: Seq<SlotView>) -> int {
    choose|i: int| is_first_free(slots, i)
}

/// Whether a block that is not cached can be brought in.
pub open spec fn has_room(slots: Seq<SlotView>) -> bool {
    slots.len() < 16 || exists|i: int| 0 <= i < slots.len() && (#[trigger] slots[i]).holders == 0
}

/// Whether block `id` can be served: it is cached, or there is room to bring it in.
pub open spec fn can_load(slots: Seq<SlotView>, id: usize) -> bool {
    has_slot(slots, id) || has_room(slots)
}

/// The slots are consistent with each other and with the device contents `dev`.
pub open spec fn slots_ok(slots: Seq<SlotView>, dev: Seq<Seq<u8>>) -> bool {
    &&& slots.len() <= 16
    &&& forall|i: int|
        0 <= i < slots.len() ==> {
            &&& (#[trigger] slots[i]).id < dev.len()
            &&& slots[i].bytes.len() == 512
            &&& (!slots[i].dirty ==> slots[i].bytes == dev[slots[i].id as int])
        }
    &&& forall|i: int, j: int|
        0 <= i < slots.len() && 0 <= j < slots.len() && i != j ==> (#[trigger] slots[i]).id != (
        #[trigger] slots[j]).id
}

/// The disk as seen through the cache: cached bytes where a block is cached,
/// the device's bytes elsewhere.
pub open spec fn logical_disk(slots: Seq<SlotView>, dev: Seq<Seq<u8>>) -> Seq<Seq<u8>> {
    Seq::new(
        dev.len(),
        |b: int|
            if has_slot(slots, b as usize) {
                slots[slot_index(slots, b as usize)].bytes
            } else {
                dev[b]
            },
    )
}

/// The device after block `id` was asked for: unchanged, unless a changed block had to
/// make room, which is then written back.
pub open spec fn device_after_load(slots: Seq<SlotView>, dev: Seq<Seq<u8>>, id: usize) -> Seq<
    Seq<u8>,
> {
    if has_slot(slots, id) || slots.len() < 16 {
        dev
    } else {
        let victim = slots[first_free(slots)];
        if victim.dirty {
            dev.update(victim.id as int, victim.bytes)
        } else {
            dev
        }
    }
}

/// The slots after block `id` was asked for: unchanged on a hit; on a miss the block is
/// appended as read from the device, after the first slot without holders has left a
/// full cache.
pub open spec fn slots_after_load(slots: Seq<SlotView>, dev: Seq<Seq<u8>>, id: usize) -> Seq<
    SlotView,
> {
    if has_slot(slots, id) {
        slots
    } else {
        let kept = if slots.len() < 16 {
            slots
        } else {
            slots.remove(first_free(slots))
        };
        kept.push(
            SlotView {
                id,
                bytes: device_after_load(slots, dev, id)[id as int],
                dirty: false,
                holders: 0,
            },
        )
    }
}

/// One entry of the cache manager's queue.
pub struct CacheSlot {
    block_id: usize,
    holders: usize,
    cache: BlockCache,
}

/// The cache of blocks, oldest first.
pub struct BlockCacheManager {
    queue: VecDeque<CacheSlot>,
}

impl BlockCacheManager {
    /// What the manager holds, oldest first.
    pub closed spec fn slots(&self) -> Seq<SlotView> {
        Seq::new(
            self.queue@.len(),
            |i: int|
                SlotView {
                    id: self.queue@[i].block_id,
                    bytes: self.queue@[i].cache.bytes(),
                    dirty: self.queue@[i].cache.dirty(),
                    holders: self.queue@[i].holders as nat,
                },
        )
    }

    /// Each entry's cache stands for the block the entry is filed under.
    pub closed spec fn filed(&self) -> bool {
        forall|i: int|
            0 <= i < self.queue@.len() ==> (#[trigger] self.queue@[i]).cache.id()
                == self.queue@[i].block_id
    }

    /// The manager is consistent with the device contents `dev`.
    pub open spec fn wf(&self, dev: Seq<Seq<u8>>) -> bool {
        self.filed() && slots_ok(self.slots(), dev)
    }

    /// The disk as seen through the cache.
    pub open spec fn disk(&self, dev: Seq<Seq<u8>>) -> Seq<Seq<u8>> {
        logical_disk(self.slots(), dev)
    }

    /// Takes the entry at place `i` out of the queue.
    fn take(&mut self, i: usize) -> (slot: CacheSlot)
        requires
            i < old(self).queue@.len(),
        ensures
            slot == old(self).queue@[i as int],
            final(self).queue@ == old(self).queue@.remove(i as int),
    {
        self.queue.remove(i).unwrap()
    }

    /// Puts `slot` into the queue at place `i`.
    fn put(&mut self, i: usize, slot: CacheSlot)
        requires
            i <= old(self).queue@.len(),
        ensures
            final(self).queue@ == old(self).queue@.insert(i as int, slot),
            final(self).queue@.len() == old(self).queue@.len() + 1,
    {
        self.queue.insert(i, slot);
    }

    /// An empty cache.
    pub fn new() -> (m: Self)
        ensures
            m.slots().len() == 0,
            m.filed(),
    {
        BlockCacheManager { queue: VecDeque::new() }
    }

    /// Number of cached blocks.
    pub fn len(&self) -> (n: usize)
        ensures
            n == self.slots().len(),
    {
        self.queue.len()
    }

    fn find(&self, block_id: usize) -> (r: Option<usize>)
        ensures
            r is None ==> !has_slot(self.slots(), block_id),
            r matches Some(i) ==> is_first_slot(self.slots(), block_id, i as int),
    {
        let mut i: usize = 0;
        while i < self.queue.len()
            invariant
                i <= self.queue@.len(),
                forall|k: int| 0 <= k < i ==> (#[trigger] self.slots()[k]).id != block_id,
            decreases self.queue@.len() - i,
        {
            if self.queue[i].block_id == block_id {
                return Some(i);
            }
            i = i + 1;
        }
        None
    }

    fn find_free(&self) -> (r: Option<usize>)
        ensures
            r is None ==> forall|k: int|
                0 <= k < self.slots().len() ==> (#[trigger] self.slots()[k]).holders != 0,
            r matches Some(i) ==> is_first_free(self.slots(), i as int),
    {
        let mut i: usize = 0;
        while i < self.queue.len()
            invariant
                i <= self.queue@.len(),
                forall|k: int| 0 <= k < i ==> (#[trigger] self.slots()[k]).holders != 0,
            decreases self.queue@.len() - i,
        {
            if self.queue[i].holders == 0 {
                return Some(i);
            }
            i = i + 1;
        }
        None
    }

    /// Makes sure block `block_id` is cached and returns its place in the queue.
    ///
    /// On a miss with a full cache, the first block without outside holders leaves
    /// the cache, and is written to the device if it was changed.
    pub fn get_block_cache<D: BlockDevice>(&mut self, block_id: usize, device: &mut D) -> (idx:
        usize)
        requires
            old(device).inv(),
            old(self).wf(old(device).blocks()),
            block_id < old(device).blocks().len(),
            can_load(old(self).slots(), block_id),
        ensures
            final(device).inv(),
            final(self).wf(final(device).blocks()),
            final(device).blocks() == device_after_load(
                old(self).slots(),
                old(device).blocks(),
                block_id,
            ),
            final(self).slots() == slots_after_load(
                old(self).slots(),
                old(device).blocks(),
                block_id,
            ),
            final(device).blocks().len() == old(device).blocks().len(),
            idx < final(self).slots().len(),
            final(self).slots()[idx as int].id == block_id,
            final(self).disk(final(device).blocks()) == old(self).disk(old(device).blocks()),
            has_room(old(self).slots()) ==> has_room(final(self).slots()),
    {
        let ghost slots0 = self.slots();
        let ghost dev0 = device.blocks();
        proof {
            device.lemma_inv_blocks();
        }
        if let Some(i) = self.find(block_id) {
            return i;
        }
        if self.queue.len() == BLOCK_CACHE_SIZE {
            let found = self.find_free();
            assert(found is Some);
            let v: usize = found.unwrap();
            proof {
                lemma_first_free_unique(slots0, v as int);
            }
            let mut victim: CacheSlot = self.take(v);
            victim.cache.sync(device);
            assert(self.slots() =~= slots0.remove(v as int));
            proof {
                lemma_evict_keeps_disk(slots0, dev0, v as int);
                device.lemma_inv_blocks();
            }
        }
        let ghost slots1 = self.slots();
        let ghost dev1 = device.blocks();
        let cache = BlockCache::new(block_id, &*device);
        self.queue.push_back(CacheSlot { block_id, holders: 0, cache });
        let idx: usize = self.queue.len() - 1;
        let ghost fresh = SlotView { id: block_id, bytes: dev1[block_id as int], dirty: false, holders: 0 };
        assert(self.slots() =~= slots1.push(fresh));
        proof {
            lemma_load_keeps_disk(slots1, dev1, block_id);
            assert(self.slots()[idx as int].holders == 0);
        }
        idx
    }

    /// Writes every changed block back to the device. After that the device holds
    /// what was seen through the cache, and the cache holds the same blocks, none of
    /// them changed.
    pub fn sync_all<D: BlockDevice>(&mut self, device: &mut D)
        requires
            old(device).inv(),
            old(self).wf(old(device).blocks()),
        ensures
            final(device).inv(),
            final(self).wf(final(device).blocks()),
            final(device).blocks() == old(self).disk(old(device).blocks()),
            final(self).disk(final(device).blocks()) == final(device).blocks(),
            final(self).slots() == synced(old(self).slots()),
    {
        let ghost slots0 = self.slots();
        let ghost disk0 = self.disk(device.blocks());
        let mut i: usize = 0;
        while i < self.queue.len()
            invariant
                device.inv(),
                self.wf(device.blocks()),
                i <= self.queue@.len(),
                self.slots().len() == slots0.len(),
                self.disk(device.blocks()) == disk0,
                forall|j: int|
                    0 <= j < slots0.len() ==> #[trigger] self.slots()[j] == (if j < i {
                        SlotView { dirty: false, ..slots0[j] }
                    } else {
                        slots0[j]
                    }),
            decreases self.queue@.len() - i,
        {
            let ghost slots1 = self.slots();
            let ghost dev1 = device.blocks();
            proof {
                device.lemma_inv_blocks();
                assert(slots1[i as int].id < dev1.len());
                lemma_sync_keeps_disk(slots1, dev1, i as int);
            }
            let mut slot = self.take(i);
            slot.cache.sync(device);
            self.put(i, slot);
            proof {
                assert(self.slots() =~= slots1.update(
                    i as int,
                    SlotView { dirty: false, ..slots1[i as int] },
                ));
            }
            i += 1;
        }
        proof {
            device.lemma_inv_blocks();
            assert(self.slots() =~= synced(slots0));
            lemma_clean_disk(self.slots(), device.blocks());
        }
    }

    /// Gives the cache up. Every changed block is written back to the device first, so
    /// that the device holds what was seen through the cache.
    pub fn release<D: BlockDevice>(self, device: &mut D)
        requires
            old(device).inv(),
            self.wf(old(device).blocks()),
        ensures
            final(device).inv(),
            final(device).blocks() == self.disk(old(device).blocks()),
    {
        let mut manager = self;
        manager.sync_all(device);
    }

    /// Reads the 32-bit integer at `offset` of block `block_id`, through the cache.
    pub fn read_u32<D: BlockDevice>(&mut self, block_id: usize, offset: usize, device: &mut D) -> (r:
        u32)
        requires
            old(device).inv(),
            old(self).wf(old(device).blocks()),
            block_id < old(device).blocks().len(),
            can_load(old(self).slots(), block_id),
            offset + 4 <= 512,
        ensures
            final(device).inv(),
            final(self).wf(final(device).blocks()),
            final(self).disk(final(device).blocks()) == old(self).disk(old(device).blocks()),
            final(device).blocks().len() == old(device).blocks().len(),
            r == u32_at(old(self).disk(old(device).blocks())[block_id as int], offset as int),
            has_room(old(self).slots()) ==> has_room(final(self).slots()),
    {
        let idx = self.get_block_cache(block_id, device);
        proof {
            lemma_slot_index(self.slots(), device.blocks(), idx as int);
        }
        self.queue[idx].cache.read_u32(offset)
    }

    /// Reads the 64-bit integer at `offset` of block `block_id`, through the cache.
    pub fn read_u64<D: BlockDevice>(&mut self, block_id: usize, offset: usize, device: &mut D) -> (r:
        u64)
        requires
            old(device).inv(),
            old(self).wf(old(device).blocks()),
            block_id < old(device).blocks().len(),
            can_load(old(self).slots(), block_id),
            offset + 8 <= 512,
        ensures
            final(device).inv(),
            final(self).wf(final(device).blocks()),
            final(self).disk(final(device).blocks()) == old(self).disk(old(device).blocks()),
            final(device).blocks().len() == old(device).blocks().len(),
            r == u64_at(old(self).disk(old(device).blocks())[block_id as int], offset as int),
            has_room(old(self).slots()) ==> has_room(final(self).slots()),
    {
        let idx = self.get_block_cache(block_id, device);
        proof {
            lemma_slot_index(self.slots(), device.blocks(), idx as int);
        }
        self.queue[idx].cache.read_u64(offset)
    }

    /// Stores `v` at `offset` of block `block_id`, in the cache.
    pub fn write_u32<D: BlockDevice>(
        &mut self,
        block_id: usize,
        offset: usize,
        v: u32,
        device: &mut D,
    )
        requires
            old(device).inv(),
            old(self).wf(old(device).blocks()),
            block_id < old(device).blocks().len(),
            can_load(old(self).slots(), block_id),
            offset + 4 <= 512,
        ensures
            final(device).inv(),
            final(self).wf(final(device).blocks()),
            final(device).blocks().len() == old(device).blocks().len(),
            final(self).disk(final(device).blocks()) == old(self).disk(
                old(device).blocks(),
            ).update(
                block_id as int,
                with_u32(
                    old(self).disk(old(device).blocks())[block_id as int],
                    offset as int,
                    v,
                ),
            ),
            has_room(old(self).slots()) ==> has_room(final(self).slots()),
    {
        let idx = self.get_block_cache(block_id, device);
        let ghost slots1 = self.slots();
        proof {
            device.lemma_inv_blocks();
            lemma_slot_index(slots1, device.blocks(), idx as int);
        }
        let mut slot = self.take(idx);
        slot.cache.modify_u32(offset, v);
        self.put(idx, slot);
        proof {
            let changed = SlotView {
                id: block_id,
                bytes: with_u32(slots1[idx as int].bytes, offset as int, v),
                dirty: true,
                holders: slots1[idx as int].holders,
            };
            assert(self.slots() =~= slots1.update(idx as int, changed));
            lemma_modify_updates_disk(slots1, device.blocks(), idx as int, changed.bytes);
        }
    }

    /// Stores `v` at `offset` of block `block_id`, in the cache.
    pub fn write_u64<D: BlockDevice>(
        &mut self,
        block_id: usize,
        offset: usize,
        v: u64,
        device: &mut D,
    )
        requires
            old(device).inv(),
            old(self).wf(old(device).blocks()),
            block_id < old(device).blocks().len(),
            can_load(old(self).slots(), block_id),
            offset + 8 <= 512,
        ensures
            final(device).inv(),
            final(self).wf(final(device).blocks()),
            final(device).blocks().len() == old(device).blocks().len(),
            final(self).disk(final(device).blocks()) == old(self).disk(
                old(device).blocks(),
            ).update(
                block_id as int,
                with_u64(
                    old(self).disk(old(device).blocks())[block_id as int],
                    offset as int,
                    v,
                ),
            ),
            has_room(old(self).slots()) ==> has_room(final(self).slots()),
    {
        let idx = self.get_block_cache(block_id, device);
        let ghost slots1 = self.slots();
        proof {
            device.lemma_inv_blocks();
            lemma_slot_index(slots1, device.blocks(), idx as int);
        }
        let mut slot = self.take(idx);
        slot.cache.modify_u64(offset, v);
        self.put(idx, slot);
        proof {
            let changed = SlotView {
                id: block_id,
                bytes: with_u64(slots1[idx as int].bytes, offset as int, v),
                dirty: true,
                holders: slots1[idx as int].holders,
            };
            assert(self.slots() =~= slots1.update(idx as int, changed));
            lemma_modify_updates_disk(slots1, device.blocks(), idx as int, changed.bytes);
        }
    }

    /// Registers one more outside holder of the cached block `block_id`, which keeps
    /// the block in the cache. Returns whether the block was cached.
    pub fn pin(&mut self, block_id: usize) -> (r: bool)
        requires
            forall|i: int|
                0 <= i < old(self).slots().len() ==> (#[trigger] old(self).slots()[i]).holders
                    < usize::MAX,
        ensures
            r == has_slot(old(self).slots(), block_id),
            old(self).filed() ==> final(self).filed(),
            final(self).slots() == if r {
                let i = first_slot(old(self).slots(), block_id);
                old(self).slots().update(
                    i,
                    SlotView { holders: old(self).slots()[i].holders + 1, ..old(self).slots()[i] },
                )
            } else {
                old(self).slots()
            },
    {
        let ghost slots0 = self.slots();
        match self.find(block_id) {
            Some(i) => {
                proof {
                    lemma_first_slot_unique(slots0, block_id, i as int);
                }
                let h: usize = self.queue[i].holders;
                let mut slot = self.take(i);
                slot.holders = h + 1;
                self.put(i, slot);
                assert(self.slots() =~= slots0.update(
                    i as int,
                    SlotView { holders: slots0[i as int].holders + 1, ..slots0[i as int] },
                ));
                assert(self.queue@.len() == old(self).queue@.len());
                assert forall|k: int| 0 <= k < self.queue@.len() implies (#[trigger] self.queue@[k]).cache
                    == old(self).queue@[k].cache && self.queue@[k].block_id == old(self).queue@[k].block_id by {
                    if k != i {
                        assert(self.queue@[k] == old(self).queue@[k]);
                    }
                }
                true
            },
            None => false,
        }
    }

    /// Drops one outside holder of the cached block `block_id`. Returns whether the
    /// block was cached with a holder.
    pub fn unpin(&mut self, block_id: usize) -> (r: bool)
        ensures
            r == (has_slot(old(self).slots(), block_id) && old(self).slots()[first_slot(
                old(self).slots(),
                block_id,
            )].holders > 0),
            old(self).filed() ==> final(self).filed(),
            final(self).slots() == if r {
                let i = first_slot(old(self).slots(), block_id);
                old(self).slots().update(
                    i,
                    SlotView {
                        holders: (old(self).slots()[i].holders - 1) as nat,
                        ..old(self).slots()[i]
                    },
                )
            } else {
                old(self).slots()
            },
    {
        let ghost slots0 = self.slots();
        match self.find(block_id) {
            Some(i) => {
                proof {
                    lemma_first_slot_unique(slots0, block_id, i as int);
                }
                let h: usize = self.queue[i].holders;
                if h == 0 {
                    return false;
                }
                let mut slot = self.take(i);
                slot.holders = h - 1;
                self.put(i, slot);
                assert(self.slots() =~= slots0.update(
                    i as int,
                    SlotView { holders: (slots0[i as int].holders - 1) as nat, ..slots0[i as int] },
                ));
                assert(self.queue@.len() == old(self).queue@.len());
                assert forall|k: int| 0 <= k < self.queue@.len() implies (#[trigger] self.queue@[k]).cache
                    == old(self).queue@[k].cache && self.queue@[k].block_id == old(self).queue@[k].block_id by {
                    if k != i {
                        assert(self.queue@[k] == old(self).queue@[k]);
                    }
                }
                true
            },
            None => false,
        }
    }
}

/// The first slot of a block is determined by the slots.
pub proof fn lemma_first_slot_unique(slots: Seq<SlotView>, id: usize, i: int)
    requires
        is_first_slot(slots, id, i),
    ensures
        first_slot(slots, id) == i,
        has_slot(slots, id),
{
    let j = first_slot(slots, id);
    assert(is_first_slot(slots, id, j));
    if j < i {
        assert(slots[j].id != id);
    }
    if i < j {
        assert(slots[i].id != id);
    }
}

/// Changing the bytes of a cached block changes that block of the logical disk, and
/// no other.
pub proof fn lemma_modify_updates_disk(
    slots: Seq<SlotView>,
    dev: Seq<Seq<u8>>,
    i: int,
    bytes: Seq<u8>,
)
    requires
        slots_ok(slots, dev),
        dev.len() <= usize::MAX,
        0 <= i < slots.len(),
        bytes.len() == 512,
    ensures
        ({
            let changed = SlotView { bytes, dirty: true, ..slots[i] };
            &&& slots_ok(slots.update(i, changed), dev)
            &&& logical_disk(slots.update(i, changed), dev) == logical_disk(slots, dev).update(
                slots[i].id as int,
                bytes,
            )
            &&& has_room(slots) ==> has_room(slots.update(i, changed))
        }),
{
    let changed = SlotView { bytes, dirty: true, ..slots[i] };
    let more = slots.update(i, changed);
    assert forall|b: int| 0 <= b < dev.len() implies (#[trigger] logical_disk(more, dev)[b])
        == logical_disk(slots, dev).update(slots[i].id as int, bytes)[b] by {
        let bid = b as usize;
        if bid == slots[i].id {
            assert(more[i].id == bid);
            lemma_slot_index(more, dev, i);
        } else {
            if has_slot(slots, bid) {
                let k = slot_index(slots, bid);
                assert(more[k] == slots[k]);
                lemma_slot_index(more, dev, k);
            }
            if has_slot(more, bid) {
                let k = slot_index(more, bid);
                assert(more[k].id == slots[k].id);
            }
        }
    }
    assert(logical_disk(more, dev) =~= logical_disk(slots, dev).update(slots[i].id as int, bytes));
    if has_room(slots) && slots.len() >= 16 {
        let k = choose|k: int| 0 <= k < slots.len() && (#[trigger] slots[k]).holders == 0;
        assert(more[k].holders == 0);
    }
}

/// The logical disk has the device's number of blocks, all of them whole.
pub proof fn lemma_disk_shape(slots: Seq<SlotView>, dev: Seq<Seq<u8>>)
    requires
        slots_ok(slots, dev),
        blocks_ok(dev),
    ensures
        logical_disk(slots, dev).len() == dev.len(),
        blocks_ok(logical_disk(slots, dev)),
{
    assert forall|b: int| 0 <= b < dev.len() implies (#[trigger] logical_disk(slots, dev)[b]).len()
        == 512 by {
        if has_slot(slots, b as usize) {
            let i = slot_index(slots, b as usize);
            assert(slots[i].bytes.len() == 512);
        }
    }
}

/// The first slot without holders is determined by the slots.
pub proof fn lemma_first_free_unique(slots: Seq<SlotView>, i: int)
    requires
        is_first_free(slots, i),
    ensures
        first_free(slots) == i,
{
    let j = first_free(slots);
    assert(is_first_free(slots, j));
    if j < i {
        assert(slots[j].holders != 0);
    }
    if i < j {
        assert(slots[i].holders != 0);
    }
}

/// The slot of a cached block is determined by the block's number.
pub proof fn lemma_slot_index(slots: Seq<SlotView>, dev: Seq<Seq<u8>>, i: int)
    requires
        slots_ok(slots, dev),
        0 <= i < slots.len(),
    ensures
        has_slot(slots, slots[i].id),
        slot_index(slots, slots[i].id) == i,
{
    assert(slots[i].id == slots[i].id);
}

/// Evicting slot `v`, and writing it back if it was changed, leaves consistent slots
/// and the same logical disk.
pub proof fn lemma_evict_keeps_disk(slots: Seq<SlotView>, dev: Seq<Seq<u8>>, v: int)
    requires
        slots_ok(slots, dev),
        dev.len() <= usize::MAX,
        0 <= v < slots.len(),
    ensures
        ({
            let dev2 = if slots[v].dirty {
                dev.update(slots[v].id as int, slots[v].bytes)
            } else {
                dev
            };
            &&& slots_ok(slots.remove(v), dev2)
            &&& logical_disk(slots.remove(v), dev2) == logical_disk(slots, dev)
            &&& !has_slot(slots.remove(v), slots[v].id)
            &&& forall|id: usize|
                id != slots[v].id ==> (has_slot(slots.remove(v), id) == has_slot(slots, id))
        }),
{
    let dev2 = if slots[v].dirty {
        dev.update(slots[v].id as int, slots[v].bytes)
    } else {
        dev
    };
    let rest = slots.remove(v);
    assert forall|i: int| 0 <= i < rest.len() implies {
        &&& (#[trigger] rest[i]).id < dev2.len()
        &&& rest[i].bytes.len() == 512
        &&& (!rest[i].dirty ==> rest[i].bytes == dev2[rest[i].id as int])
        &&& rest[i].id != slots[v].id
    } by {
        let k = if i < v { i } else { i + 1 };
        assert(rest[i] == slots[k]);
    }
    assert forall|i: int, j: int| 0 <= i < rest.len() && 0 <= j < rest.len() && i != j implies (
    #[trigger] rest[i]).id != (#[trigger] rest[j]).id by {
        let ki = if i < v { i } else { i + 1 };
        let kj = if j < v { j } else { j + 1 };
        assert(rest[i] == slots[ki]);
        assert(rest[j] == slots[kj]);
    }
    assert(!has_slot(rest, slots[v].id));
    assert forall|id: usize| id != slots[v].id implies (has_slot(rest, id) == has_slot(
        slots,
        id,
    )) by {
        if has_slot(slots, id) {
            let k = slot_index(slots, id);
            let i = if k < v { k } else { k - 1 };
            assert(rest[i] == slots[k]);
        }
        if has_slot(rest, id) {
            let i = slot_index(rest, id);
            let k = if i < v { i } else { i + 1 };
            assert(rest[i] == slots[k]);
        }
    }
    assert forall|b: int| 0 <= b < dev.len() implies (#[trigger] logical_disk(rest, dev2)[b])
        == logical_disk(slots, dev)[b] by {
        let id = b as usize;
        if id == slots[v].id {
            lemma_slot_index(slots, dev, v);
        } else {
            if has_slot(slots, id) {
                let k = slot_index(slots, id);
                let i = if k < v { k } else { k - 1 };
                assert(rest[i] == slots[k]);
                lemma_slot_index(rest, dev2, i);
            }
        }
    }
    assert(logical_disk(rest, dev2) =~= logical_disk(slots, dev));
}

/// Appending a block as the device holds it leaves consistent slots and the same
/// logical disk.
pub proof fn lemma_load_keeps_disk(slots: Seq<SlotView>, dev: Seq<Seq<u8>>, id: usize)
    requires
        slots_ok(slots, dev),
        dev.len() <= usize::MAX,
        slots.len() < 16,
        !has_slot(slots, id),
        id < dev.len(),
        dev[id as int].len() == 512,
    ensures
        ({
            let fresh = SlotView { id, bytes: dev[id as int], dirty: false, holders: 0 };
            &&& slots_ok(slots.push(fresh), dev)
            &&& logical_disk(slots.push(fresh), dev) == logical_disk(slots, dev)
        }),
{
    let fresh = SlotView { id, bytes: dev[id as int], dirty: false, holders: 0 };
    let more = slots.push(fresh);
    assert forall|i: int| 0 <= i < slots.len() implies (#[trigger] slots[i]).id != id by {
    }
    assert forall|b: int| 0 <= b < dev.len() implies (#[trigger] logical_disk(more, dev)[b])
        == logical_disk(slots, dev)[b] by {
        let bid = b as usize;
        if bid == id {
            assert(more[slots.len() as int].id == id);
            lemma_slot_index(more, dev, slots.len() as int);
        } else {
            if has_slot(slots, bid) {
                let k = slot_index(slots, bid);
                assert(more[k] == slots[k]);
                lemma_slot_index(more, dev, k);
            }
            if has_slot(more, bid) {
                let k = slot_index(more, bid);
                assert(k < slots.len());
                assert(more[k] == slots[k]);
            }
        }
    }
    assert(logical_disk(more, dev) =~= logical_disk(slots, dev));
}

/// The slots after every changed block was written back: the same blocks, none of
/// them changed.
pub open spec fn synced(slots: Seq<SlotView>) -> Seq<SlotView> {
    Seq::new(slots.len(), |j: int| SlotView { dirty: false, ..slots[j] })
}

/// Writing slot `i` back if it was changed leaves consistent slots and the same
/// logical disk.
pub proof fn lemma_sync_keeps_disk(slots: Seq<SlotView>, dev: Seq<Seq<u8>>, i: int)
    requires
        slots_ok(slots, dev),
        dev.len() <= usize::MAX,
        0 <= i < slots.len(),
    ensures
        ({
            let dev2 = if slots[i].dirty {
                dev.update(slots[i].id as int, slots[i].bytes)
            } else {
                dev
            };
            let clean = slots.update(i, SlotView { dirty: false, ..slots[i] });
            &&& slots_ok(clean, dev2)
            &&& logical_disk(clean, dev2) == logical_disk(slots, dev)
        }),
{
    let dev2 = if slots[i].dirty {
        dev.update(slots[i].id as int, slots[i].bytes)
    } else {
        dev
    };
    let clean = slots.update(i, SlotView { dirty: false, ..slots[i] });
    assert forall|k: int| 0 <= k < clean.len() implies {
        &&& (#[trigger] clean[k]).id < dev2.len()
        &&& clean[k].bytes.len() == 512
        &&& (!clean[k].dirty ==> clean[k].bytes == dev2[clean[k].id as int])
    } by {
        assert(clean[k].id == slots[k].id);
        if k != i {
            assert(slots[k].id != slots[i].id);
        }
    }
    assert forall|k: int, j: int|
        0 <= k < clean.len() && 0 <= j < clean.len() && k != j implies (#[trigger] clean[k]).id != (
    #[trigger] clean[j]).id by {
        assert(clean[k].id == slots[k].id);
        assert(clean[j].id == slots[j].id);
    }
    assert forall|b: int| 0 <= b < dev.len() implies (#[trigger] logical_disk(clean, dev2)[b])
        == logical_disk(slots, dev)[b] by {
        let bid = b as usize;
        if has_slot(slots, bid) {
            let k = slot_index(slots, bid);
            assert(clean[k].id == bid);
            lemma_slot_index(clean, dev2, k);
        } else {
            if has_slot(clean, bid) {
                let k = slot_index(clean, bid);
                assert(clean[k].id == slots[k].id);
            }
            assert(bid != slots[i].id);
        }
    }
    assert(logical_disk(clean, dev2) =~= logical_disk(slots, dev));
}

/// Where no cached block was changed, the disk seen through the cache is the device.
pub proof fn lemma_clean_disk(slots: Seq<SlotView>, dev: Seq<Seq<u8>>)
    requires
        slots_ok(slots, dev),
        dev.len() <= usize::MAX,
        forall|i: int| 0 <= i < slots.len() ==> !(#[trigger] slots[i]).dirty,
    ensures
        logical_disk(slots, dev) == dev,
{
    assert forall|b: int| 0 <= b < dev.len() implies (#[trigger] logical_disk(slots, dev)[b])
        == dev[b] by {
        let bid = b as usize;
        if has_slot(slots, bid) {
            let k = slot_index(slots, bid);
            assert(slots[k].id == bid);
        }
    }
    assert(logical_disk(slots, dev) =~= dev);
}

} // verus!
