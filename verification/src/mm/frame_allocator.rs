//! The allocator of physical frames: a bump pointer over a contiguous pool of page
//! numbers, with a last-in-first-out list of frames that were handed back.

use vstd::prelude::*;
use crate::address::PhysPageNum;

verus! {

/// The plain state of the allocator.
pub struct PoolView {
    /// First page number of the pool.
    pub start: u64,
    /// First page number that was never handed out.
    pub current: u64,
    /// Page number just past the pool.
    pub end: u64,
    /// The frames that were handed back, oldest first.
    pub recycled: Seq<u64>,
}

impl PoolView {
    /// The state is consistent: the bump pointer lies inside the pool, and the
    /// recycled frames were handed out before and are listed once.
    pub open spec fn wf(self) -> bool {
        &&& self.start <= self.current <= self.end
        &&& forall|i: int|
            0 <= i < self.recycled.len() ==> self.start <= #[trigger] self.recycled[i]
                < self.current
        &&& forall|i: int, j: int|
            0 <= i < j < self.recycled.len() ==> #[trigger] self.recycled[i]
                != #[trigger] self.recycled[j]
    }

    /// Whether frame `ppn` is handed out at present.
    pub open spec fn is_allocated(self, ppn: u64) -> bool {
        self.start <= ppn < self.current && !self.recycled.contains(ppn)
    }

    /// Number of frames that can still be handed out.
    pub open spec fn free_count(self) -> int {
        self.end - self.current + self.recycled.len()
    }

    /// Number of frames that are handed out at present.
    pub open spec fn live_count(self) -> int {
        self.current - self.start - self.recycled.len()
    }

    /// The frame that an allocation hands out: the frame handed back last, else the
    /// next frame never handed out, else none.
    pub open spec fn alloc_result(self) -> Option<u64> {
        if self.recycled.len() > 0 {
            Some(self.recycled.last())
        } else if self.current < self.end {
            Some(self.current)
        } else {
            None
        }
    }

    /// The state after an allocation.
    pub open spec fn after_alloc(self) -> PoolView {
        if self.recycled.len() > 0 {
            PoolView { recycled: self.recycled.drop_last(), ..self }
        } else if self.current < self.end {
            PoolView { current: (self.current + 1) as u64, ..self }
        } else {
            self
        }
    }

    /// The state after frame `ppn` was handed back.
    pub open spec fn after_dealloc(self, ppn: u64) -> PoolView {
        PoolView { recycled: self.recycled.push(ppn), ..self }
    }
}

/// The allocator of physical frames.
pub struct StackFrameAllocator {
    start: u64,
    current: u64,
    end: u64,
    recycled: Vec<u64>,
}

impl View for StackFrameAllocator {
    type V = PoolView;

    closed spec fn view(&self) -> PoolView {
        PoolView {
            start: self.start,
            current: self.current,
            end: self.end,
            recycled: self.recycled@,
        }
    }
}

impl StackFrameAllocator {
    /// An allocator over the frames from `start` up to, not including, `end`.
    pub fn new(start: PhysPageNum, end: PhysPageNum) -> (r: Self)
        requires
            start.0 <= end.0,
        ensures
            r@ == (PoolView { start: start.0, current: start.0, end: end.0, recycled: Seq::empty() }),
            r@.wf(),
    {
        StackFrameAllocator { start: start.0, current: start.0, end: end.0, recycled: Vec::new() }
    }

    /// Hands out a frame, or `None` when the pool is exhausted.
    pub fn allocate(&mut self) -> (r: Option<PhysPageNum>)
        requires
            old(self)@.wf(),
        ensures
            final(self)@.wf(),
            final(self)@ == old(self)@.after_alloc(),
            match r {
                Some(ppn) => old(self)@.alloc_result() == Some(ppn.0),
                None => old(self)@.alloc_result() is None,
            },
    {
        proof {
            lemma_alloc(self@);
        }
        if let Some(ppn) = self.recycled.pop() {
            Some(PhysPageNum(ppn))
        } else if self.current == self.end {
            None
        } else {
            let ppn: u64 = self.current;
            self.current = self.current + 1;
            Some(PhysPageNum(ppn))
        }
    }

    /// Takes back frame `ppn`, which must be handed out at present.
    pub fn dealloc(&mut self, ppn: PhysPageNum)
        requires
            old(self)@.wf(),
            old(self)@.is_allocated(ppn.0),
        ensures
            final(self)@.wf(),
            final(self)@ == old(self)@.after_dealloc(ppn.0),
    {
        proof {
            lemma_dealloc(self@, ppn.0);
        }
        self.recycled.push(ppn.0);
    }

    /// Whether frame `ppn` is handed out at present.
    pub fn is_allocated(&self, ppn: PhysPageNum) -> (r: bool)
        ensures
            r == self@.is_allocated(ppn.0),
    {
        if ppn.0 < self.start || ppn.0 >= self.current {
            return false;
        }
        let mut i: usize = 0;
        while i < self.recycled.len()
            invariant
                i <= self.recycled.len(),
                forall|k: int| 0 <= k < i ==> self.recycled@[k] != ppn.0,
            decreases self.recycled.len() - i,
        {
            if self.recycled[i] == ppn.0 {
                return false;
            }
            i = i + 1;
        }
        true
    }

    /// Whether `n` frames can still be handed out.
    pub fn can_allocate(&self, n: u64) -> (r: bool)
        requires
            self@.wf(),
        ensures
            r == (self@.free_count() >= n),
    {
        let fresh: u64 = self.end - self.current;
        if fresh >= n {
            true
        } else {
            self.recycled.len() as u64 >= n - fresh
        }
    }
}

/// An allocation keeps the state consistent, hands out a frame that was not handed
/// out, and changes the standing of no other frame.
pub proof fn lemma_alloc(pool: PoolView)
    requires
        pool.wf(),
    ensures
        pool.after_alloc().wf(),
        pool.alloc_result() is None <==> pool.free_count() == 0,
        pool.alloc_result() matches Some(ppn) ==> {
            &&& pool.start <= ppn < pool.end
            &&& !pool.is_allocated(ppn)
            &&& pool.after_alloc().is_allocated(ppn)
            &&& pool.after_alloc().free_count() == pool.free_count() - 1
            &&& pool.after_alloc().live_count() == pool.live_count() + 1
            &&& forall|q: u64|
                q != ppn ==> pool.after_alloc().is_allocated(q) == pool.is_allocated(q)
        },
        pool.alloc_result() is None ==> pool.after_alloc() == pool,
{
    if pool.recycled.len() > 0 {
        let last = pool.recycled.last();
        let rest = pool.recycled.drop_last();
        assert(pool.recycled[pool.recycled.len() - 1] == last);
        assert(!rest.contains(last)) by {
            if rest.contains(last) {
                let i = choose|i: int| 0 <= i < rest.len() && rest[i] == last;
                assert(pool.recycled[i] == rest[i]);
            }
        }
        assert forall|q: u64| q != last implies rest.contains(q) == pool.recycled.contains(q) by {
            if pool.recycled.contains(q) {
                let i = choose|i: int| 0 <= i < pool.recycled.len() && pool.recycled[i] == q;
                assert(rest[i] == q);
            }
            if rest.contains(q) {
                let i = choose|i: int| 0 <= i < rest.len() && rest[i] == q;
                assert(pool.recycled[i] == q);
            }
        }
        assert forall|i: int| 0 <= i < rest.len() implies pool.start <= #[trigger] rest[i]
            < pool.current by {
            assert(rest[i] == pool.recycled[i]);
        }
        assert forall|i: int, j: int| 0 <= i < j < rest.len() implies #[trigger] rest[i]
            != #[trigger] rest[j] by {
            assert(rest[i] == pool.recycled[i]);
            assert(rest[j] == pool.recycled[j]);
        }
    }
}

/// Handing back a frame keeps the state consistent and changes the standing of no
/// other frame.
pub proof fn lemma_dealloc(pool: PoolView, ppn: u64)
    requires
        pool.wf(),
        pool.is_allocated(ppn),
    ensures
        pool.after_dealloc(ppn).wf(),
        !pool.after_dealloc(ppn).is_allocated(ppn),
        pool.after_dealloc(ppn).free_count() == pool.free_count() + 1,
        pool.after_dealloc(ppn).live_count() == pool.live_count() - 1,
        forall|q: u64| q != ppn ==> pool.after_dealloc(ppn).is_allocated(q) == pool.is_allocated(q),
{
    let more = pool.recycled.push(ppn);
    assert(more[pool.recycled.len() as int] == ppn);
    assert forall|q: u64| q != ppn implies more.contains(q) == pool.recycled.contains(q) by {
        if pool.recycled.contains(q) {
            let i = choose|i: int| 0 <= i < pool.recycled.len() && pool.recycled[i] == q;
            assert(more[i] == q);
        }
        if more.contains(q) {
            let i = choose|i: int| 0 <= i < more.len() && more[i] == q;
            assert(pool.recycled[i] == q);
        }
    }
    assert forall|i: int, j: int| 0 <= i < j < more.len() implies #[trigger] more[i]
        != #[trigger] more[j] by {
        if j == pool.recycled.len() {
            assert(pool.recycled[i] == more[i]);
            assert(pool.recycled.contains(more[i]));
        }
    }
}

/// A frame that is handed out and handed back is the next frame handed out, and the
/// frames that are handed out in the end are those that were at the start.
pub proof fn lemma_alloc_dealloc_round_trip(pool: PoolView)
    requires
        pool.wf(),
        pool.alloc_result() is Some,
    ensures
        ({
            let ppn = pool.alloc_result()->Some_0;
            let back = pool.after_alloc().after_dealloc(ppn);
            &&& back.wf()
            &&& back.alloc_result() == Some(ppn)
            &&& back.live_count() == pool.live_count()
            &&& back.free_count() == pool.free_count()
            &&& forall|q: u64| back.is_allocated(q) == pool.is_allocated(q)
        }),
{
    let ppn = pool.alloc_result()->Some_0;
    lemma_alloc(pool);
    lemma_dealloc(pool.after_alloc(), ppn);
    let back = pool.after_alloc().after_dealloc(ppn);
    assert(back.recycled.last() == ppn);
}

} // verus!
