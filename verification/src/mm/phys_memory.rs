//! Physical memory: the bytes of the frames of the pool, and the pool itself.

use vstd::prelude::*;
use crate::address::PhysPageNum;
use crate::codec::{load_u64, store_u64, u64_at, with_u64};
use crate::mm::frame_allocator::{lemma_alloc, lemma_dealloc, StackFrameAllocator};

verus! {

/// Number of 64-bit words in a frame.
pub const FRAME_WORDS: usize = 512;

/// The bytes of a run of physical frames.
pub struct PhysMemory {
    base: u64,
    frames: Vec<Vec<u8>>,
}

/// `frame` with the bytes from `off` on replaced by `src`.
pub open spec fn with_bytes(frame: Seq<u8>, off: int, src: Seq<u8>) -> Seq<u8> {
    Seq::new(
        frame.len(),
        |i: int|
            if off <= i < off + src.len() {
                src[i - off]
            } else {
                frame[i]
            },
    )
}

/// A frame of 4096 zero bytes.
pub open spec fn zero_frame() -> Seq<u8> {
    Seq::new(4096, |i: int| 0u8)
}

impl PhysMemory {
    /// Page number of the first frame.
    pub closed spec fn base(&self) -> u64 {
        self.base
    }

    /// The bytes of each frame, the first frame first.
    pub closed spec fn frames(&self) -> Seq<Seq<u8>> {
        Seq::new(self.frames.len() as nat, |i: int| self.frames[i]@)
    }

    /// Every frame has 4096 bytes, and every page number has at most 44 bits.
    pub open spec fn wf(&self) -> bool {
        &&& self.base() + self.frames().len() <= 0x1000_0000_0000
        &&& forall|i: int| 0 <= i < self.frames().len() ==> (#[trigger] self.frames()[i]).len() == 4096
    }

    /// Whether the memory holds frame `ppn`.
    pub open spec fn has(&self, ppn: u64) -> bool {
        self.base() <= ppn < self.base() + self.frames().len()
    }

    /// The bytes of frame `ppn`.
    pub open spec fn frame(&self, ppn: u64) -> Seq<u8> {
        self.frames()[ppn - self.base()]
    }

    /// The `idx`-th 64-bit word of frame `ppn`.
    pub open spec fn word(&self, ppn: u64, idx: int) -> u64 {
        u64_at(self.frame(ppn), 8 * idx)
    }

    /// `count` zeroed frames, the first with page number `base`.
    pub fn new(base: PhysPageNum, count: usize) -> (m: Self)
        requires
            base.0 + count <= 0x1000_0000_0000,
        ensures
            m.wf(),
            m.base() == base.0,
            m.frames().len() == count,
            forall|i: int| 0 <= i < count ==> #[trigger] m.frames()[i] == zero_frame(),
    {
        let mut frames: Vec<Vec<u8>> = Vec::new();
        let mut i: usize = 0;
        while i < count
            invariant
                i <= count,
                frames.len() == i,
                forall|k: int| 0 <= k < i ==> (#[trigger] frames[k])@ == zero_frame(),
            decreases count - i,
        {
            frames.push(new_zero_frame());
            i = i + 1;
        }
        PhysMemory { base: base.0, frames }
    }

    /// Whether the memory holds frame `ppn`.
    pub fn contains(&self, ppn: PhysPageNum) -> (r: bool)
        ensures
            r == self.has(ppn.0),
    {
        ppn.0 >= self.base && ppn.0 - self.base < self.frames.len() as u64
    }

    /// The byte at `offset` of frame `ppn`.
    pub fn read_byte(&self, ppn: PhysPageNum, offset: usize) -> (r: u8)
        requires
            self.wf(),
            self.has(ppn.0),
            offset < 4096,
        ensures
            r == self.frame(ppn.0)[offset as int],
    {
        let i: usize = (ppn.0 - self.base) as usize;
        assert(self.frames()[i as int] == self.frames[i as int]@);
        self.frames[i][offset]
    }

    /// Sets the byte at `offset` of frame `ppn`.
    pub fn write_byte(&mut self, ppn: PhysPageNum, offset: usize, v: u8)
        requires
            old(self).wf(),
            old(self).has(ppn.0),
            offset < 4096,
        ensures
            final(self).wf(),
            final(self).base() == old(self).base(),
            final(self).frames() == old(self).frames().update(
                ppn.0 - old(self).base(),
                old(self).frame(ppn.0).update(offset as int, v),
            ),
    {
        let i: usize = (ppn.0 - self.base) as usize;
        assert(self.frames()[i as int] == self.frames[i as int]@);
        self.frames[i].set(offset, v);
        assert(self.frames() =~= old(self).frames().update(
            i as int,
            old(self).frame(ppn.0).update(offset as int, v),
        ));
    }

    /// The `idx`-th 64-bit word of frame `ppn`.
    pub fn read_u64(&self, ppn: PhysPageNum, idx: usize) -> (r: u64)
        requires
            self.wf(),
            self.has(ppn.0),
            idx < 512,
        ensures
            r == self.word(ppn.0, idx as int),
    {
        let i: usize = (ppn.0 - self.base) as usize;
        assert(self.frames()[i as int] == self.frames[i as int]@);
        load_u64(&self.frames[i], 8 * idx)
    }

    /// Sets the `idx`-th 64-bit word of frame `ppn`.
    pub fn write_u64(&mut self, ppn: PhysPageNum, idx: usize, v: u64)
        requires
            old(self).wf(),
            old(self).has(ppn.0),
            idx < 512,
        ensures
            final(self).wf(),
            final(self).base() == old(self).base(),
            final(self).frames() == old(self).frames().update(
                ppn.0 - old(self).base(),
                with_u64(old(self).frame(ppn.0), 8 * idx, v),
            ),
    {
        let i: usize = (ppn.0 - self.base) as usize;
        assert(self.frames()[i as int] == self.frames[i as int]@);
        store_u64(&mut self.frames[i], 8 * idx, v);
        assert(self.frames() =~= old(self).frames().update(
            i as int,
            with_u64(old(self).frame(ppn.0), 8 * idx, v),
        ));
    }

    /// Copies `src[from..from + len]` to frame `ppn`, from byte `offset` of the frame on.
    pub fn write_bytes(
        &mut self,
        ppn: PhysPageNum,
        offset: usize,
        src: &[u8],
        from: usize,
        len: usize,
    )
        requires
            old(self).wf(),
            old(self).has(ppn.0),
            offset + len <= 4096,
            from + len <= src@.len(),
        ensures
            final(self).wf(),
            final(self).base() == old(self).base(),
            final(self).frames() == old(self).frames().update(
                ppn.0 - old(self).base(),
                with_bytes(
                    old(self).frame(ppn.0),
                    offset as int,
                    src@.subrange(from as int, from + len),
                ),
            ),
    {
        let i: usize = (ppn.0 - self.base) as usize;
        let total: usize = src.len();
        let ghost frame0 = self.frame(ppn.0);
        let ghost piece = src@.subrange(from as int, from + len);
        assert(self.frames()[i as int] == self.frames[i as int]@);
        let mut k: usize = 0;
        while k < len
            invariant
                k <= len,
                offset + len <= 4096,
                from + len <= src@.len(),
                src@.len() == total,
                i < self.frames.len(),
                self.base == old(self).base,
                self.frames.len() == old(self).frames.len(),
                piece == src@.subrange(from as int, from + len),
                frame0.len() == 4096,
                self.frames[i as int]@ == with_bytes(
                    frame0,
                    offset as int,
                    piece.subrange(0, k as int),
                ),
                forall|j: int|
                    0 <= j < self.frames.len() && j != i ==> (#[trigger] self.frames[j])@ == old(self).frames[j]@,
            decreases len - k,
        {
            let b: u8 = src[from + k];
            let ghost before = self.frames[i as int]@;
            self.frames[i].set(offset + k, b);
            assert(self.frames[i as int]@ =~= with_bytes(
                frame0,
                offset as int,
                piece.subrange(0, k + 1),
            ));
            k = k + 1;
        }
        assert(piece.subrange(0, len as int) =~= piece);
        assert(self.frames() =~= old(self).frames().update(
            i as int,
            with_bytes(frame0, offset as int, piece),
        ));
    }

    /// Fills frame `ppn` with zero bytes.
    pub fn clear_frame(&mut self, ppn: PhysPageNum)
        requires
            old(self).wf(),
            old(self).has(ppn.0),
        ensures
            final(self).wf(),
            final(self).base() == old(self).base(),
            final(self).frames() == old(self).frames().update(
                ppn.0 - old(self).base(),
                zero_frame(),
            ),
    {
        let i: usize = (ppn.0 - self.base) as usize;
        self.frames.set(i, new_zero_frame());
        assert(self.frames() =~= old(self).frames().update(i as int, zero_frame()));
    }

    /// Copies the bytes of frame `src` over frame `dst`.
    pub fn copy_frame(&mut self, dst: PhysPageNum, src: PhysPageNum)
        requires
            old(self).wf(),
            old(self).has(dst.0),
            old(self).has(src.0),
        ensures
            final(self).wf(),
            final(self).base() == old(self).base(),
            final(self).frames() == old(self).frames().update(
                dst.0 - old(self).base(),
                old(self).frame(src.0),
            ),
    {
        let d: usize = (dst.0 - self.base) as usize;
        let s: usize = (src.0 - self.base) as usize;
        assert(self.frames()[s as int] == self.frames[s as int]@);
        let mut copy: Vec<u8> = Vec::new();
        let mut j: usize = 0;
        while j < 4096
            invariant
                j <= 4096,
                s < self.frames.len(),
                self.frames[s as int].len() == 4096,
                copy.len() == j,
                forall|k: int| 0 <= k < j ==> copy[k] == self.frames[s as int][k],
            decreases 4096 - j,
        {
            copy.push(self.frames[s][j]);
            j = j + 1;
        }
        assert(copy@ =~= self.frames[s as int]@);
        self.frames.set(d, copy);
        assert(self.frames() =~= old(self).frames().update(d as int, old(self).frame(src.0)));
    }
}

/// A fresh buffer of 4096 zero bytes.
pub fn new_zero_frame() -> (frame: Vec<u8>)
    ensures
        frame@ == zero_frame(),
{
    let mut frame: Vec<u8> = Vec::new();
    let mut j: usize = 0;
    while j < 4096
        invariant
            j <= 4096,
            frame.len() == j,
            forall|k: int| 0 <= k < j ==> frame[k] == 0,
        decreases 4096 - j,
    {
        frame.push(0u8);
        j = j + 1;
    }
    assert(frame@ =~= zero_frame());
    frame
}

/// The right to use one physical frame.
pub struct FrameTracker {
    pub ppn: PhysPageNum,
}

/// The pool of physical frames: their bytes, and which of them are handed out.
pub struct FramePool {
    pub memory: PhysMemory,
    pub allocator: StackFrameAllocator,
}

impl FramePool {
    /// The allocator hands out exactly the frames of the memory.
    pub open spec fn wf(&self) -> bool {
        &&& self.memory.wf()
        &&& self.allocator@.wf()
        &&& self.allocator@.start == self.memory.base()
        &&& self.allocator@.end == self.memory.base() + self.memory.frames().len()
    }

    /// Whether frame `ppn` is handed out at present.
    pub open spec fn is_live(&self, ppn: u64) -> bool {
        self.allocator@.is_allocated(ppn)
    }

    /// Number of frames that can still be handed out.
    pub open spec fn free_count(&self) -> int {
        self.allocator@.free_count()
    }

    /// Whether `n` frames can still be handed out.
    pub fn can_allocate(&self, n: u64) -> (r: bool)
        requires
            self.wf(),
        ensures
            r == (self.free_count() >= n),
    {
        self.allocator.can_allocate(n)
    }

    /// The bytes of frame `ppn`.
    pub open spec fn frame(&self, ppn: u64) -> Seq<u8> {
        self.memory.frame(ppn)
    }

    /// The two pools hold the same bytes and have handed out the same frames.
    pub open spec fn same_as(&self, other: FramePool) -> bool {
        &&& self.allocator@ == other.allocator@
        &&& self.memory.base() == other.memory.base()
        &&& self.memory.frames() == other.memory.frames()
    }

    /// A pool of zeroed frames from `start` up to, not including, `end`, none of them
    /// handed out.
    pub fn new(start: PhysPageNum, end: PhysPageNum) -> (pool: Self)
        requires
            start.0 <= end.0 <= 0x1000_0000_0000,
            end.0 - start.0 <= usize::MAX,
        ensures
            pool.wf(),
            pool.memory.base() == start.0,
            pool.memory.frames().len() == end.0 - start.0,
            pool.free_count() == end.0 - start.0,
            forall|ppn: u64| !pool.is_live(ppn),
    {
        let memory = PhysMemory::new(start, (end.0 - start.0) as usize);
        let allocator = StackFrameAllocator::new(start, end);
        FramePool { memory, allocator }
    }

    /// Hands out a frame filled with zero bytes, or `None` when the pool is exhausted.
    pub fn frame_alloc(&mut self) -> (r: Option<FrameTracker>)
        requires
            old(self).wf(),
        ensures
            final(self).wf(),
            final(self).memory.base() == old(self).memory.base(),
            final(self).memory.frames().len() == old(self).memory.frames().len(),
            match r {
                Some(frame) => {
                    &&& old(self).allocator@.alloc_result() == Some(frame.ppn.0)
                    &&& final(self).memory.has(frame.ppn.0)
                    &&& !old(self).is_live(frame.ppn.0)
                    &&& final(self).is_live(frame.ppn.0)
                    &&& final(self).frame(frame.ppn.0) == zero_frame()
                    &&& final(self).free_count() == old(self).free_count() - 1
                    &&& forall|q: u64|
                        q != frame.ppn.0 ==> final(self).is_live(q) == old(self).is_live(q)
                    &&& forall|q: u64|
                        q != frame.ppn.0 && old(self).memory.has(q) ==> #[trigger] final(self).frame(q)
                            == old(self).frame(q)
                },
                None => {
                    &&& old(self).free_count() == 0
                    &&& final(self).same_as(*old(self))
                },
            },
    {
        proof {
            lemma_alloc(self.allocator@);
        }
        match self.allocator.allocate() {
            Some(ppn) => {
                self.memory.clear_frame(ppn);
                Some(FrameTracker { ppn })
            },
            None => None,
        }
    }

    /// Takes back a frame.
    pub fn frame_dealloc(&mut self, frame: FrameTracker)
        requires
            old(self).wf(),
            old(self).is_live(frame.ppn.0),
        ensures
            final(self).wf(),
            final(self).memory == old(self).memory,
            final(self).allocator@ == old(self).allocator@.after_dealloc(frame.ppn.0),
            !final(self).is_live(frame.ppn.0),
            final(self).free_count() == old(self).free_count() + 1,
            forall|q: u64| q != frame.ppn.0 ==> final(self).is_live(q) == old(self).is_live(q),
    {
        proof {
            lemma_dealloc(self.allocator@, frame.ppn.0);
        }
        self.allocator.dealloc(frame.ppn);
    }
}

} // verus!
