//! Mapped areas: runs of virtual pages that are mapped in the same way.

use vstd::prelude::*;
use crate::address::{VPNRange, VirtAddr, VirtPageNum};
use crate::mm::page_table::{
    frames_ok, leaf, lemma_owned_has, lemma_pte_bits, lemma_table_kept, mapping, missing_tables,
    pte_bits, pte_ppn, pte_valid, table_step, MemError, PTEFlags, PageTable, PageTableEntry,
};
use crate::mm::phys_memory::{with_bytes, zero_frame, FramePool, FrameTracker};

verus! {

/// Permission bit: the pages can be read.
pub const MAP_R: u8 = 0x02;

/// Permission bit: the pages can be written.
pub const MAP_W: u8 = 0x04;

/// Permission bit: the pages can be executed.
pub const MAP_X: u8 = 0x08;

/// Permission bit: the pages can be used from user mode.
pub const MAP_U: u8 = 0x10;

/// Virtual page number of the trampoline page.
pub const TRAMPOLINE_VPN: u64 = 0x7ff_ffff;

/// Virtual page number of the trap context page.
pub const TRAP_CONTEXT_VPN: u64 = 0x7ff_fffe;

/// How the pages of an area get their frames.
#[derive(Clone, Copy, Debug, PartialEq, Eq, Structural)]
pub enum MapType {
    /// Each page is mapped to the frame with its own number.
    Identical,
    /// Each page is mapped to a frame of its own, taken from the pool.
    Framed,
}

/// The permissions of an area: a subset of the page-table flags R, W, X and U.
#[derive(Clone, Copy, Debug, PartialEq, Eq, Structural)]
pub struct MapPermission {
    pub bits: u8,
}

impl MapPermission {
    /// No permission.
    pub fn empty() -> (r: Self)
        ensures
            r.bits == 0,
    {
        MapPermission { bits: 0 }
    }

    /// The permissions with the given bits, or `None` if a bit is none of R, W, X, U.
    pub fn from_bits(bits: u8) -> (r: Option<Self>)
        ensures
            r == if bits & 0xe1 == 0 {
                Some(MapPermission { bits })
            } else {
                None
            },
    {
        if bits & 0xe1 == 0 {
            Some(MapPermission { bits })
        } else {
            None
        }
    }

    /// The permissions of `self` and of `other` together.
    pub fn union(self, other: Self) -> (r: Self)
        ensures
            r.bits == self.bits | other.bits,
    {
        MapPermission { bits: self.bits | other.bits }
    }

    /// Whether every permission of `other` is in `self`.
    pub fn contains(self, other: Self) -> (r: bool)
        ensures
            r == (self.bits & other.bits == other.bits),
    {
        self.bits & other.bits == other.bits
    }
}

/// The plain contents of a mapped area.
pub struct AreaView {
    /// First page of the area.
    pub start: u64,
    /// Page just past the area.
    pub end: u64,
    /// How the pages get their frames.
    pub map_type: MapType,
    /// The permission bits.
    pub perm: u8,
    /// Number of pages that are mapped in order, counted from the first.
    pub mapped: int,
    /// For a framed area, the frames of the pages mapped in order.
    pub frames: Seq<u64>,
    /// The pages that were mapped out of order, as they came.
    pub extra_pages: Seq<u64>,
    /// For a framed area, the frames of the pages mapped out of order.
    pub extra_frames: Seq<u64>,
}

impl AreaView {
    /// The area lies below the trampoline, and holds one frame for each mapped page if
    /// it is framed, none if not.
    pub open spec fn wf(self) -> bool {
        &&& self.start <= self.end <= TRAMPOLINE_VPN
        &&& 0 <= self.mapped <= self.end - self.start
        &&& self.frames.len() == if self.map_type == MapType::Framed {
            self.mapped
        } else {
            0
        }
        &&& self.extra_frames.len() == if self.map_type == MapType::Framed {
            self.extra_pages.len()
        } else {
            0
        }
    }

    /// Whether page `vpn` is mapped by the area: it is one of the pages mapped in order,
    /// or one of those mapped out of order.
    pub open spec fn maps(self, vpn: u64) -> bool {
        self.start <= vpn < self.start + self.mapped || self.extra_pages.contains(vpn)
    }

    /// The frame of the `k`-th page that was mapped out of order.
    pub open spec fn extra_ppn(self, k: int) -> u64 {
        match self.map_type {
            MapType::Identical => self.extra_pages[k],
            MapType::Framed => self.extra_frames[k],
        }
    }

    /// Whether the area has page `vpn` mapped to frame `ppn`.
    pub open spec fn holds(self, vpn: u64, ppn: u64) -> bool {
        ||| self.start <= vpn < self.start + self.mapped && self.ppn(vpn - self.start) == ppn
        ||| exists|k: int|
            0 <= k < self.extra_pages.len() && #[trigger] self.extra_pages[k] == vpn
                && self.extra_ppn(k) == ppn
    }

    /// Number of pages of the area.
    pub open spec fn len(self) -> int {
        self.end - self.start
    }

    /// Whether the area has page `vpn`.
    pub open spec fn has(self, vpn: u64) -> bool {
        self.start <= vpn < self.end
    }

    /// Whether every page of the area is mapped.
    pub open spec fn complete(self) -> bool {
        self.mapped == self.end - self.start
    }

    /// The frame of the `i`-th page.
    pub open spec fn ppn(self, i: int) -> u64 {
        match self.map_type {
            MapType::Identical => (self.start + i) as u64,
            MapType::Framed => self.frames[i],
        }
    }

    /// The page-table entry of the `i`-th page: its frame, the permissions of the area
    /// and the valid flag.
    pub open spec fn pte(self, i: int) -> u64 {
        pte_bits(self.ppn(i), self.perm | 1)
    }

    /// Number of frames that mapping one more page takes, tables left aside.
    pub open spec fn page_cost(self) -> int {
        if self.map_type == MapType::Framed {
            1
        } else {
            0
        }
    }
}

/// The mapped pages of the area are mapped by the table below `root`, each to its frame
/// with the permissions of the area.
pub open spec fn area_in_table(a: AreaView, pool: FramePool, root: u64) -> bool {
    forall|i: int|
        0 <= i < a.mapped ==> #[trigger] mapping(pool.memory, root, (a.start + i) as u64) == Some(
            a.pte(i),
        )
}

/// The frames of the area are handed out, differ from each other and are none of the
/// frames `owned` of the page table.
pub open spec fn area_frames_ok(a: AreaView, pool: FramePool, owned: Seq<u64>) -> bool {
    &&& forall|i: int|
        0 <= i < a.frames.len() ==> pool.is_live(#[trigger] a.frames[i]) && !owned.contains(
            a.frames[i],
        )
    &&& forall|i: int, j: int|
        0 <= i < j < a.frames.len() ==> #[trigger] a.frames[i] != #[trigger] a.frames[j]
}

/// What mapping pages of an area may do to the pool: the page table may take frames
/// for tables and change the bytes of its frames; the frames in `data` are taken from
/// the pool. Every other frame keeps its standing and its bytes, so the pool has as
/// many frames fewer as there are new tables and frames in `data`.
pub open spec fn area_step(
    owned0: Seq<u64>,
    pool0: FramePool,
    owned1: Seq<u64>,
    pool1: FramePool,
    data: Seq<u64>,
) -> bool {
    &&& owned0.len() <= owned1.len()
    &&& owned1.subrange(0, owned0.len() as int) == owned0
    &&& forall|i: int| owned0.len() <= i < owned1.len() ==> !pool0.is_live(#[trigger] owned1[i])
    &&& pool1.memory.base() == pool0.memory.base()
    &&& pool1.memory.frames().len() == pool0.memory.frames().len()
    &&& forall|i: int|
        0 <= i < data.len() ==> !pool0.is_live(#[trigger] data[i]) && pool1.is_live(data[i])
    &&& forall|q: u64| pool0.is_live(q) ==> #[trigger] pool1.is_live(q)
    &&& forall|q: u64|
        !owned1.contains(q) && !data.contains(q) ==> #[trigger] pool1.is_live(q) == pool0.is_live(
            q,
        )
    &&& forall|q: u64|
        pool0.memory.has(q) && !owned1.contains(q) && !data.contains(q) ==> #[trigger] pool1.frame(
            q,
        ) == pool0.frame(q)
    &&& pool1.free_count() == pool0.free_count() - (owned1.len() - owned0.len()) - data.len()
}

/// What unmapping pages of an area may do to the pool: the page table changes the
/// bytes of its frames; the frames in `data` go back to the pool, the frame of the
/// last page first, so that the frame of the first page is the next to be handed
/// out. Every other frame keeps its standing, and every frame that is no table keeps
/// its bytes.
pub open spec fn area_release_step(
    owned: Seq<u64>,
    pool0: FramePool,
    pool1: FramePool,
    data: Seq<u64>,
) -> bool {
    &&& pool1.memory.base() == pool0.memory.base()
    &&& pool1.memory.frames().len() == pool0.memory.frames().len()
    &&& forall|i: int| 0 <= i < data.len() ==> !pool1.is_live(#[trigger] data[i])
    &&& forall|q: u64| !data.contains(q) ==> #[trigger] pool1.is_live(q) == pool0.is_live(q)
    &&& forall|q: u64|
        pool0.memory.has(q) && !owned.contains(q) ==> #[trigger] pool1.frame(q) == pool0.frame(q)
    &&& pool1.free_count() == pool0.free_count() + data.len()
    &&& pool1.allocator@ == (crate::mm::frame_allocator::PoolView {
        recycled: pool0.allocator@.recycled + backwards(data),
        ..pool0.allocator@
    })
}

/// The sequence `s` from its last element to its first.
pub open spec fn backwards(s: Seq<u64>) -> Seq<u64> {
    Seq::new(s.len(), |i: int| s[s.len() - 1 - i])
}

/// The part of `data` that goes to the `i`-th page of an area: the bytes from
/// `4096 * i` on, at most 4096 of them.
pub open spec fn page_piece(data: Seq<u8>, i: int) -> Seq<u8> {
    let from = if 4096 * i < data.len() {
        4096 * i
    } else {
        data.len() as int
    };
    let to = if 4096 * (i + 1) < data.len() {
        4096 * (i + 1)
    } else {
        data.len() as int
    };
    data.subrange(from, to)
}

/// `data` was copied into the frames `frames`, page by page: each frame holds its
/// part of `data` at its start and its former bytes behind; no other frame changed.
pub open spec fn data_copied(
    frames: Seq<u64>,
    pool0: FramePool,
    pool1: FramePool,
    data: Seq<u8>,
) -> bool {
    &&& pool1.memory.base() == pool0.memory.base()
    &&& pool1.memory.frames().len() == pool0.memory.frames().len()
    &&& forall|q: u64|
        pool0.memory.has(q) && !frames.contains(q) ==> #[trigger] pool1.frame(q) == pool0.frame(q)
    &&& forall|i: int|
        0 <= i < frames.len() ==> pool1.frame(#[trigger] frames[i]) == with_bytes(
            pool0.frame(frames[i]),
            0,
            page_piece(data, i),
        )
}

/// The area is consistent in itself, with the page table below `root` and with the
/// pool.
pub open spec fn area_ok(a: AreaView, pool: FramePool, root: u64, owned: Seq<u64>) -> bool {
    &&& a.wf()
    &&& a.extra_pages.len() == 0
    &&& area_in_table(a, pool, root)
    &&& area_frames_ok(a, pool, owned)
}

/// The pages of the area that were mapped out of order are pages of the area beside
/// those mapped in order, each listed once and mapped by the table below `root` to its
/// frame with the permissions of the area; their frames are handed out, differ from
/// each other and from the frames of the pages mapped in order, and are none of the
/// frames `owned` of the page table.
pub open spec fn extra_ok(a: AreaView, pool: FramePool, root: u64, owned: Seq<u64>) -> bool {
    &&& forall|k: int|
        0 <= k < a.extra_pages.len() ==> {
            &&& a.start <= #[trigger] a.extra_pages[k] < a.end
            &&& !(a.start <= a.extra_pages[k] < a.start + a.mapped)
            &&& mapping(pool.memory, root, a.extra_pages[k]) == Some(
                pte_bits(a.extra_ppn(k), a.perm | 1),
            )
        }
    &&& forall|j: int, k: int|
        0 <= j < k < a.extra_pages.len() ==> #[trigger] a.extra_pages[j]
            != #[trigger] a.extra_pages[k]
    &&& forall|k: int|
        0 <= k < a.extra_frames.len() ==> pool.is_live(#[trigger] a.extra_frames[k])
            && !owned.contains(a.extra_frames[k]) && !a.frames.contains(a.extra_frames[k])
    &&& forall|j: int, k: int|
        0 <= j < k < a.extra_frames.len() ==> #[trigger] a.extra_frames[j]
            != #[trigger] a.extra_frames[k]
}

/// The area is consistent with the page table below `root` and with the pool, whatever
/// the order in which its pages were mapped.
pub open spec fn area_held(a: AreaView, pool: FramePool, root: u64, owned: Seq<u64>) -> bool {
    &&& a.wf()
    &&& area_in_table(a, pool, root)
    &&& area_frames_ok(a, pool, owned)
    &&& extra_ok(a, pool, root, owned)
}

/// Two areas that differ in nothing but the pages that are mapped.
pub open spec fn same_area(a: AreaView, b: AreaView) -> bool {
    &&& a.start == b.start
    &&& a.end == b.end
    &&& a.map_type == b.map_type
    &&& a.perm == b.perm
}

/// A run of virtual pages that are mapped in the same way. Pages that are mapped one
/// after the other from the first page on are kept in order; a page that is mapped out
/// of that order is kept beside them.
pub struct MapArea {
    vpn_range: VPNRange,
    data_frames: Vec<FrameTracker>,
    mapped: u64,
    extra_pages: Vec<u64>,
    extra_frames: Vec<FrameTracker>,
    map_type: MapType,
    map_perm: MapPermission,
}

impl View for MapArea {
    type V = AreaView;

    closed spec fn view(&self) -> AreaView {
        AreaView {
            start: self.vpn_range.start().0,
            end: self.vpn_range.end().0,
            map_type: self.map_type,
            perm: self.map_perm.bits,
            mapped: self.mapped as int,
            frames: Seq::new(self.data_frames.len() as nat, |i: int| self.data_frames[i].ppn.0),
            extra_pages: self.extra_pages@,
            extra_frames: Seq::new(
                self.extra_frames.len() as nat,
                |i: int| self.extra_frames[i].ppn.0,
            ),
        }
    }
}

impl MapArea {
    /// The area of the pages that hold the addresses from `start_va` up to, not
    /// including, `end_va`; no page of it is mapped yet.
    pub fn new(start_va: VirtAddr, end_va: VirtAddr, map_type: MapType, map_perm: MapPermission) -> (r:
        Self)
        ensures
            r@ == (AreaView {
                start: start_va.0 / 4096,
                end: crate::address::pages_up(end_va.0 as int) as u64,
                map_type,
                perm: map_perm.bits,
                mapped: 0,
                frames: Seq::empty(),
                extra_pages: Seq::empty(),
                extra_frames: Seq::empty(),
            }),
    {
        let r = MapArea {
            vpn_range: VPNRange::new(start_va.floor(), end_va.ceil()),
            data_frames: Vec::new(),
            mapped: 0,
            extra_pages: Vec::new(),
            extra_frames: Vec::new(),
            map_type,
            map_perm,
        };
        assert(r@.frames =~= Seq::empty());
        assert(r@.extra_frames =~= Seq::empty());
        r
    }

    /// An area with the pages, the type and the permissions of `map_area`; no page of
    /// it is mapped yet.
    pub fn from_another(map_area: &MapArea) -> (r: Self)
        ensures
            r@ == (AreaView {
                mapped: 0,
                frames: Seq::empty(),
                extra_pages: Seq::empty(),
                extra_frames: Seq::empty(),
                ..map_area@
            }),
    {
        let r = MapArea {
            vpn_range: VPNRange::new(map_area.vpn_range.get_start(), map_area.vpn_range.get_end()),
            data_frames: Vec::new(),
            mapped: 0,
            extra_pages: Vec::new(),
            extra_frames: Vec::new(),
            map_type: map_area.map_type,
            map_perm: map_area.map_perm,
        };
        assert(r@.frames =~= Seq::empty());
        assert(r@.extra_frames =~= Seq::empty());
        r
    }

    /// First page of the area.
    pub fn start_vpn(&self) -> (r: VirtPageNum)
        ensures
            r.0 == self@.start,
    {
        self.vpn_range.get_start()
    }

    /// Page just past the area.
    pub fn end_vpn(&self) -> (r: VirtPageNum)
        ensures
            r.0 == self@.end,
    {
        self.vpn_range.get_end()
    }

    /// Number of pages that are mapped in order from the first page on.
    pub fn mapped_pages(&self) -> (r: u64)
        ensures
            r == self@.mapped,
    {
        self.mapped
    }

    /// How the pages get their frames.
    pub fn map_type(&self) -> (r: MapType)
        ensures
            r == self@.map_type,
    {
        self.map_type
    }

    /// The permissions of the area.
    pub fn permission(&self) -> (r: MapPermission)
        ensures
            r.bits == self@.perm,
    {
        self.map_perm
    }

    /// Maps page `vpn` of the area, which is not mapped yet: to the frame with its own
    /// number, or to a fresh zeroed frame, which the area then holds for the page.
    /// Fails, and changes nothing, when the pool has too few frames for the page and the
    /// tables it needs.
    pub fn map_one(&mut self, page_table: &mut PageTable, pool: &mut FramePool, vpn: VirtPageNum) -> (r:
        Result<(), MemError>)
        requires
            old(page_table).wf(*old(pool)),
            area_held(old(self)@, *old(pool), old(page_table).root(), old(page_table).owned()),
            old(self)@.has(vpn.0),
            !old(self)@.maps(vpn.0),
            old(page_table).mapping(*old(pool), vpn.0) is None,
        ensures
            final(page_table).wf(*final(pool)),
            final(page_table).root() == old(page_table).root(),
            r is Err <==> old(pool).free_count() < old(self)@.page_cost() + missing_tables(
                old(pool).memory,
                old(page_table).root(),
                vpn.0,
            ),
            r is Err ==> {
                &&& final(self)@ == old(self)@
                &&& final(pool).same_as(*old(pool))
                &&& final(page_table).owned() == old(page_table).owned()
            },
            r is Ok ==> {
                &&& same_area(final(self)@, old(self)@)
                &&& area_held(
                    final(self)@,
                    *final(pool),
                    final(page_table).root(),
                    final(page_table).owned(),
                )
                &&& exists|p: u64|
                    #![trigger final(self)@.holds(vpn.0, p)]
                    {
                        &&& final(self)@.holds(vpn.0, p)
                        &&& final(page_table).mapping(*final(pool), vpn.0) == Some(
                            pte_bits(p, old(self)@.perm | 1),
                        )
                        &&& old(self)@.map_type == MapType::Identical ==> p == vpn.0
                        &&& old(self)@.map_type == MapType::Framed ==> !old(pool).is_live(p) && final(pool).is_live(p) && final(pool).frame(p) == zero_frame()
                        &&& forall|v: u64, q: u64|
                            #[trigger] final(self)@.holds(v, q) == (old(self)@.holds(v, q) || (v
                                == vpn.0 && q == p))
                    }
                &&& forall|v: u64| #[trigger] final(self)@.maps(v) == (old(self)@.maps(v) || v == vpn.0)
                &&& final(pool).free_count() == old(pool).free_count() - old(self)@.page_cost()
                    - missing_tables(old(pool).memory, old(page_table).root(), vpn.0)
                &&& forall|v: u64|
                    v < 0x800_0000 && v != vpn.0 ==> final(page_table).mapping(*final(pool), v)
                        == old(page_table).mapping(*old(pool), v)
                &&& old(self)@.extra_pages.len() == 0 && vpn.0 == old(self)@.start + old(self)@.mapped
                    ==> final(self)@.extra_pages.len() == 0 && final(self)@.mapped == old(self)@.mapped
                    + 1
            },
    {
        let ghost area0 = self@;
        let ghost pool0 = *pool;
        if self.extra_pages.len() == 0 && vpn.0 - self.vpn_range.get_start().0 == self.mapped {
            let r = self.map_next(page_table, pool, vpn);
            proof {
                if r is Ok {
                    let area1 = self@;
                    let p = area1.ppn(area0.mapped);
                    assert(area1.extra_frames.len() == 0);
                    assert(area_held(area1, *pool, page_table.root(), page_table.owned()));
                    assert(mapping(pool.memory, page_table.root(), (area1.start + area0.mapped) as u64)
                        == Some(area1.pte(area0.mapped)));
                    assert forall|v: u64| #[trigger] area1.maps(v) == (area0.maps(v) || v == vpn.0) by {
                        assert(!area0.extra_pages.contains(v));
                        assert(!area1.extra_pages.contains(v));
                    }
                    assert forall|v: u64, q: u64| #[trigger] area1.holds(v, q) == (area0.holds(v, q)
                        || (v == vpn.0 && q == p)) by {
                        if area0.start <= v < area0.start + area0.mapped {
                            if area0.map_type == MapType::Framed {
                                assert(area1.frames.subrange(0, area0.frames.len() as int)[v
                                    - area0.start] == area1.frames[v - area0.start]);
                            }
                            assert(area1.ppn(v - area1.start) == area0.ppn(v - area0.start));
                        }
                    }
                    assert(area1.holds(vpn.0, p));
                    if area0.map_type == MapType::Framed {
                        assert(area1.frames.last() == p);
                    }
                }
            }
            r
        } else {
            let r = self.map_extra(page_table, pool, vpn);
            proof {
                if r is Ok {
                    let area1 = self@;
                    let last = area1.extra_pages.len() - 1;
                    let p = area1.extra_ppn(last);
                    assert forall|k: int| 0 <= k < area0.extra_pages.len() implies area1.extra_ppn(k)
                        == area0.extra_ppn(k) by {
                        assert(area1.extra_pages[k] == area0.extra_pages[k]);
                        if area0.map_type == MapType::Framed {
                            assert(area1.extra_frames.subrange(0, area0.extra_frames.len() as int)[k]
                                == area1.extra_frames[k]);
                        }
                    }
                    lemma_holds_pushed(area0, area1, vpn.0, p);
                    assert(area1.holds(vpn.0, p));
                    if area0.map_type == MapType::Framed {
                        assert(area1.extra_frames.last() == p);
                        assert(pool.is_live(area1.extra_frames[last]));
                    } else {
                        assert(area1.extra_pages[last] == vpn.0);
                    }
                }
            }
            r
        }
    }

    /// Unmaps page `vpn` of the area, which is mapped, and hands its frame back to the
    /// pool if the area is framed: that frame is the next to be handed out.
    pub fn unmap_one(&mut self, page_table: &mut PageTable, pool: &mut FramePool, vpn: VirtPageNum)
        requires
            old(page_table).wf(*old(pool)),
            area_held(old(self)@, *old(pool), old(page_table).root(), old(page_table).owned()),
            old(self)@.maps(vpn.0),
        ensures
            final(page_table).wf(*final(pool)),
            final(page_table).root() == old(page_table).root(),
            final(page_table).owned() == old(page_table).owned(),
            same_area(final(self)@, old(self)@),
            area_held(final(self)@, *final(pool), final(page_table).root(), final(page_table).owned()),
            forall|v: u64| #[trigger] final(self)@.maps(v) == (old(self)@.maps(v) && v != vpn.0),
            exists|p: u64|
                #![trigger old(self)@.holds(vpn.0, p)]
                {
                    &&& old(self)@.holds(vpn.0, p)
                    &&& forall|v: u64, q: u64|
                        #[trigger] final(self)@.holds(v, q) == (old(self)@.holds(v, q) && v != vpn.0)
                    &&& area_release_step(
                        old(page_table).owned(),
                        *old(pool),
                        *final(pool),
                        if old(self)@.map_type == MapType::Framed {
                            seq![p]
                        } else {
                            Seq::empty()
                        },
                    )
                },
            final(page_table).mapping(*final(pool), vpn.0) is None,
            forall|v: u64|
                v < 0x800_0000 && v != vpn.0 ==> final(page_table).mapping(*final(pool), v) == old(page_table).mapping(*old(pool), v),
            missing_tables(final(pool).memory, final(page_table).root(), vpn.0) == 0,
    {
        let ghost area0 = self@;
        let start: u64 = self.vpn_range.get_start().0;
        if vpn.0 >= start && vpn.0 - start < self.mapped {
            // take the pages behind it, and the page itself, out of the order
            while self.mapped > vpn.0 - start
                invariant
                    start == area0.start,
                    area0.start <= vpn.0 < area0.start + area0.mapped,
                    page_table.wf(*pool),
                    *pool == *old(pool),
                    *page_table == *old(page_table),
                    same_area(self@, area0),
                    self@.mapped <= area0.mapped,
                    area_held(self@, *pool, page_table.root(), page_table.owned()),
                    forall|v: u64| #[trigger] self@.maps(v) == area0.maps(v),
                    forall|v: u64, q: u64| #[trigger] self@.holds(v, q) == area0.holds(v, q),
                decreases self.mapped,
            {
                let ghost area1 = self@;
                self.demote_last(page_table, pool);
                proof {
                    let area2 = self@;
                    assert forall|k: int| 0 <= k < area1.extra_pages.len() implies area2.extra_ppn(k)
                        == area1.extra_ppn(k) by {
                        assert(area2.extra_pages[k] == area1.extra_pages[k]);
                        if area1.map_type == MapType::Framed {
                            assert(area2.extra_frames.subrange(0, area1.extra_frames.len() as int)[k]
                                == area2.extra_frames[k]);
                        }
                    }
                    lemma_holds_demoted(area1, area2);
                }
            }
        }
        let ghost area1 = self@;
        proof {
            assert(area1.maps(vpn.0));
        }
        let mut k: usize = 0;
        while k < self.extra_pages.len() && self.extra_pages[k] != vpn.0
            invariant
                self@ == area1,
                k <= area1.extra_pages.len(),
                forall|j: int| 0 <= j < k ==> area1.extra_pages[j] != vpn.0,
            decreases self.extra_pages.len() - k,
        {
            k = k + 1;
        }
        proof {
            if k >= area1.extra_pages.len() {
                let j = choose|j: int| 0 <= j < area1.extra_pages.len() && area1.extra_pages[j] == vpn.0;
                assert(false);
            }
            assert(area1.extra_pages[k as int] == vpn.0);
        }
        self.unmap_extra(page_table, pool, k);
        proof {
            lemma_holds_removed(area1, self@, k as int);
            let p = area1.extra_ppn(k as int);
            assert(area1.holds(vpn.0, p));
            assert(area0.holds(vpn.0, p));
            if area0.map_type == MapType::Framed {
                assert(p == area1.extra_frames[k as int]);
            }
        }
    }

    /// The frame that the area holds for page `vpn`, for a framed area.
    pub fn frame_of(&self, vpn: VirtPageNum) -> (r: Option<crate::address::PhysPageNum>)
        requires
            self@.wf(),
        ensures
            r matches Some(p) ==> self@.holds(vpn.0, p.0),
            r is None ==> self@.map_type == MapType::Identical || !self@.maps(vpn.0),
    {
        if self.map_type != MapType::Framed {
            return None;
        }
        let start: u64 = self.vpn_range.get_start().0;
        if vpn.0 >= start && vpn.0 - start < self.mapped {
            let i: usize = (vpn.0 - start) as usize;
            return Some(self.data_frames[i].ppn);
        }
        let mut k: usize = 0;
        while k < self.extra_pages.len() && self.extra_pages[k] != vpn.0
            invariant
                k <= self@.extra_pages.len(),
                forall|j: int| 0 <= j < k ==> self@.extra_pages[j] != vpn.0,
            decreases self.extra_pages.len() - k,
        {
            k = k + 1;
        }
        if k < self.extra_pages.len() {
            assert(self@.extra_pages[k as int] == vpn.0);
            Some(self.extra_frames[k].ppn)
        } else {
            None
        }
    }

    /// Unmaps the `k`-th of the pages that were mapped out of order, and hands its frame
    /// back to the pool if the area is framed.
    fn unmap_extra(&mut self, page_table: &mut PageTable, pool: &mut FramePool, k: usize)
        requires
            old(page_table).wf(*old(pool)),
            area_held(old(self)@, *old(pool), old(page_table).root(), old(page_table).owned()),
            k < old(self)@.extra_pages.len(),
        ensures
            final(page_table).wf(*final(pool)),
            final(page_table).root() == old(page_table).root(),
            final(page_table).owned() == old(page_table).owned(),
            same_area(final(self)@, old(self)@),
            final(self)@.mapped == old(self)@.mapped,
            final(self)@.frames == old(self)@.frames,
            final(self)@.extra_pages == old(self)@.extra_pages.remove(k as int),
            final(self)@.extra_frames == if old(self)@.map_type == MapType::Framed {
                old(self)@.extra_frames.remove(k as int)
            } else {
                old(self)@.extra_frames
            },
            area_held(final(self)@, *final(pool), final(page_table).root(), final(page_table).owned()),
            area_release_step(
                old(page_table).owned(),
                *old(pool),
                *final(pool),
                if old(self)@.map_type == MapType::Framed {
                    seq![old(self)@.extra_frames[k as int]]
                } else {
                    Seq::empty()
                },
            ),
            final(page_table).mapping(*final(pool), old(self)@.extra_pages[k as int]) is None,
            forall|v: u64|
                v < 0x800_0000 && v != old(self)@.extra_pages[k as int] ==> final(page_table).mapping(*final(pool), v)
                    == old(page_table).mapping(*old(pool), v),
            missing_tables(
                final(pool).memory,
                final(page_table).root(),
                old(self)@.extra_pages[k as int],
            ) == 0,
    {
        let ghost pool0 = *pool;
        let ghost area0 = self@;
        let ghost owned = page_table.owned();
        let ghost roles = page_table.roles();
        let ghost root = page_table.root();
        proof {
            assert(owned.contains(root)) by {
                assert(owned[0] == root);
            }
            assert(area0.start <= area0.extra_pages[k as int] < area0.end);
        }
        let vpn = VirtPageNum(self.extra_pages.remove(k));
        if self.map_type == MapType::Framed {
            let frame = self.extra_frames.remove(k);
            let ghost f = frame.ppn.0;
            assert(f == area0.extra_frames[k as int]);
            assert(self@.extra_frames =~= area0.extra_frames.remove(k as int));
            assert(pool0.is_live(f));
            pool.frame_dealloc(frame);
            proof {
                assert forall|i: int| 0 <= i < owned.len() implies pool.is_live(#[trigger] owned[i])
                    && pool.frame(owned[i]) == pool0.frame(owned[i]) by {
                    assert(pool0.is_live(owned[i]));
                    assert(owned.contains(owned[i]));
                }
                lemma_table_kept(pool0, *pool, root, owned, roles);
            }
        } else {
            assert(self@.extra_frames =~= area0.extra_frames);
        }
        let ghost pool1 = *pool;
        proof {
            assert(self@.frames =~= area0.frames);
            assert(page_table.mapping(*pool, vpn.0) == mapping(pool0.memory, root, vpn.0));
        }
        page_table.unmap(pool, vpn);
        proof {
            assert forall|v: u64| v < 0x800_0000 && v != vpn.0 implies mapping(
                pool.memory,
                root,
                v,
            ) == mapping(pool0.memory, root, v) by {
                assert(page_table.mapping(*pool, v) == mapping(pool1.memory, root, v));
            }
            assert forall|q: u64| owned.contains(q) implies pool0.is_live(q) && pool.is_live(q) by {
                lemma_owned_has(pool0, owned, q);
                lemma_owned_has(*pool, owned, q);
            }
            lemma_extra_unmapped(area0, self@, pool0, pool1, *pool, root, owned, k as int);
        }
    }

    /// Takes the last of the pages mapped in order into the pages mapped out of order.
    /// Nothing changes in the page table or in the pool.
    fn demote_last(&mut self, page_table: &PageTable, pool: &FramePool)
        requires
            page_table.wf(*pool),
            area_held(old(self)@, *pool, page_table.root(), page_table.owned()),
            old(self)@.mapped > 0,
        ensures
            same_area(final(self)@, old(self)@),
            final(self)@.mapped == old(self)@.mapped - 1,
            final(self)@.frames == old(self)@.frames.subrange(0, final(self)@.frames.len() as int),
            final(self)@.extra_pages == old(self)@.extra_pages.push(
                (old(self)@.start + old(self)@.mapped - 1) as u64,
            ),
            final(self)@.extra_ppn(final(self)@.extra_pages.len() - 1) == old(self)@.ppn(
                old(self)@.mapped - 1,
            ),
            final(self)@.extra_frames.subrange(0, old(self)@.extra_frames.len() as int)
                == old(self)@.extra_frames,
            area_held(final(self)@, *pool, page_table.root(), page_table.owned()),
    {
        let ghost area0 = self@;
        let ghost owned = page_table.owned();
        let ghost root = page_table.root();
        let vpn: u64 = self.vpn_range.get_start().0 + (self.mapped - 1);
        self.mapped = self.mapped - 1;
        if self.map_type == MapType::Framed {
            let frame = self.data_frames.pop().unwrap();
            assert(frame.ppn.0 == area0.frames[area0.frames.len() - 1]);
            self.extra_frames.push(frame);
            assert(self@.frames =~= area0.frames.subrange(0, area0.frames.len() - 1));
            assert(self@.extra_frames =~= area0.extra_frames.push(area0.frames.last()));
        } else {
            assert(self@.frames =~= area0.frames.subrange(0, 0));
            assert(self@.extra_frames =~= area0.extra_frames);
        }
        self.extra_pages.push(vpn);
        proof {
            let area2 = self@;
            let last = area2.extra_pages.len() - 1;
            assert(area2.extra_frames.subrange(0, area0.extra_frames.len() as int)
                =~= area0.extra_frames);
            assert(mapping(pool.memory, root, (area0.start + (area0.mapped - 1)) as u64) == Some(
                area0.pte(area0.mapped - 1),
            ));
            assert forall|i: int| 0 <= i < area2.mapped implies #[trigger] mapping(
                pool.memory,
                root,
                (area2.start + i) as u64,
            ) == Some(area2.pte(i)) by {
                assert(mapping(pool.memory, root, (area0.start + i) as u64) == Some(area0.pte(i)));
                if area0.map_type == MapType::Framed {
                    assert(area2.frames[i] == area0.frames[i]);
                }
            }
            assert forall|i: int| 0 <= i < area2.frames.len() implies pool.is_live(
                #[trigger] area2.frames[i],
            ) && !owned.contains(area2.frames[i]) by {
                assert(area2.frames[i] == area0.frames[i]);
            }
            assert forall|i: int, j: int| 0 <= i < j < area2.frames.len() implies #[trigger] area2.frames[i]
                != #[trigger] area2.frames[j] by {
                assert(area2.frames[i] == area0.frames[i]);
                assert(area2.frames[j] == area0.frames[j]);
            }
            assert forall|k: int| 0 <= k < area2.extra_pages.len() implies {
                &&& area2.start <= #[trigger] area2.extra_pages[k] < area2.end
                &&& !(area2.start <= area2.extra_pages[k] < area2.start + area2.mapped)
                &&& mapping(pool.memory, root, area2.extra_pages[k]) == Some(
                    pte_bits(area2.extra_ppn(k), area2.perm | 1),
                )
            } by {
                if k < last {
                    assert(area2.extra_pages[k] == area0.extra_pages[k]);
                    assert(area2.extra_ppn(k) == area0.extra_ppn(k));
                } else {
                    assert(area2.extra_pages[k] == vpn);
                    assert(area2.extra_ppn(k) == area0.ppn(area0.mapped - 1));
                }
            }
            assert forall|j: int, k: int| 0 <= j < k < area2.extra_pages.len() implies #[trigger] area2.extra_pages[j]
                != #[trigger] area2.extra_pages[k] by {
                if k == last {
                    assert(area2.extra_pages[j] == area0.extra_pages[j]);
                }
            }
            assert forall|k: int| 0 <= k < area2.extra_frames.len() implies pool.is_live(
                #[trigger] area2.extra_frames[k],
            ) && !owned.contains(area2.extra_frames[k]) && !area2.frames.contains(
                area2.extra_frames[k],
            ) by {
                let q = area2.extra_frames[k];
                if k < area0.extra_frames.len() {
                    assert(q == area0.extra_frames[k]);
                    if area2.frames.contains(q) {
                        let i = choose|i: int| 0 <= i < area2.frames.len() && area2.frames[i] == q;
                        assert(area0.frames[i] == q);
                    }
                } else {
                    assert(q == area0.frames[area0.frames.len() - 1]);
                    if area2.frames.contains(q) {
                        let i = choose|i: int| 0 <= i < area2.frames.len() && area2.frames[i] == q;
                        assert(area0.frames[i] == q);
                    }
                }
            }
            assert forall|j: int, k: int| 0 <= j < k < area2.extra_frames.len() implies #[trigger] area2.extra_frames[j]
                != #[trigger] area2.extra_frames[k] by {
                if k == area0.extra_frames.len() {
                    assert(area2.extra_frames[j] == area0.extra_frames[j]);
                    assert(!area0.frames.contains(area0.extra_frames[j]));
                }
            }
        }
    }

    /// Maps page `vpn` of the area out of order: to the frame with its own number, or to
    /// a fresh zeroed frame. Fails, and changes nothing, when the pool has too few
    /// frames for the page and the tables it needs.
    fn map_extra(&mut self, page_table: &mut PageTable, pool: &mut FramePool, vpn: VirtPageNum) -> (r:
        Result<(), MemError>)
        requires
            old(page_table).wf(*old(pool)),
            area_held(old(self)@, *old(pool), old(page_table).root(), old(page_table).owned()),
            old(self)@.has(vpn.0),
            !old(self)@.maps(vpn.0),
            old(page_table).mapping(*old(pool), vpn.0) is None,
        ensures
            final(page_table).wf(*final(pool)),
            final(page_table).root() == old(page_table).root(),
            r is Err <==> old(pool).free_count() < old(self)@.page_cost() + missing_tables(
                old(pool).memory,
                old(page_table).root(),
                vpn.0,
            ),
            r is Err ==> {
                &&& final(self)@ == old(self)@
                &&& final(pool).same_as(*old(pool))
                &&& final(page_table).owned() == old(page_table).owned()
                &&& final(page_table).roles() == old(page_table).roles()
            },
            r is Ok ==> {
                &&& same_area(final(self)@, old(self)@)
                &&& final(self)@.mapped == old(self)@.mapped
                &&& final(self)@.frames == old(self)@.frames
                &&& final(self)@.extra_pages == old(self)@.extra_pages.push(vpn.0)
                &&& final(self)@.extra_frames.subrange(0, old(self)@.extra_frames.len() as int)
                    == old(self)@.extra_frames
                &&& final(self)@.extra_frames.len() == old(self)@.extra_frames.len()
                    + old(self)@.page_cost()
                &&& old(self)@.map_type == MapType::Framed ==> {
                    &&& !old(pool).is_live(final(self)@.extra_frames.last())
                    &&& final(pool).frame(final(self)@.extra_frames.last()) == zero_frame()
                }
                &&& area_held(
                    final(self)@,
                    *final(pool),
                    final(page_table).root(),
                    final(page_table).owned(),
                )
                &&& area_step(
                    old(page_table).owned(),
                    *old(pool),
                    final(page_table).owned(),
                    *final(pool),
                    final(self)@.extra_frames.subrange(
                        old(self)@.extra_frames.len() as int,
                        final(self)@.extra_frames.len() as int,
                    ),
                )
                &&& final(pool).free_count() == old(pool).free_count() - old(self)@.page_cost()
                    - missing_tables(old(pool).memory, old(page_table).root(), vpn.0)
                &&& final(page_table).mapping(*final(pool), vpn.0) == Some(
                    pte_bits(
                        final(self)@.extra_ppn(final(self)@.extra_pages.len() - 1),
                        old(self)@.perm | 1,
                    ),
                )
                &&& forall|v: u64|
                    v < 0x800_0000 && v != vpn.0 ==> final(page_table).mapping(*final(pool), v)
                        == old(page_table).mapping(*old(pool), v)
            },
    {
        let ghost pool0 = *pool;
        let ghost area0 = self@;
        let ghost owned0 = page_table.owned();
        let ghost roles0 = page_table.roles();
        let ghost root = page_table.root();
        proof {
            assert(owned0.contains(root)) by {
                assert(owned0[0] == root);
            }
            lemma_owned_has(pool0, owned0, root);
        }
        let tables: u64 = page_table.missing_tables(&pool.memory, vpn);
        let ppn: crate::address::PhysPageNum;
        match self.map_type {
            MapType::Identical => {
                if !pool.can_allocate(tables) {
                    return Err(MemError::OutOfFrames);
                }
                ppn = crate::address::PhysPageNum(vpn.0);
            },
            MapType::Framed => {
                if !pool.can_allocate(tables + 1) {
                    return Err(MemError::OutOfFrames);
                }
                let frame = pool.frame_alloc().unwrap();
                ppn = frame.ppn;
                self.extra_frames.push(frame);
                proof {
                    assert(self@.extra_frames =~= area0.extra_frames.push(ppn.0));
                    assert(self@.frames =~= area0.frames);
                    assert forall|i: int| 0 <= i < owned0.len() implies pool.is_live(
                        #[trigger] owned0[i],
                    ) && pool.frame(owned0[i]) == pool0.frame(owned0[i]) by {
                        assert(pool0.is_live(owned0[i]));
                        lemma_owned_has(pool0, owned0, owned0[i]);
                    }
                    lemma_table_kept(pool0, *pool, root, owned0, roles0);
                }
            },
        }
        let ghost pool1 = *pool;
        let ghost area1 = self@;
        let flags = PTEFlags { bits: self.map_perm.bits };
        let mapped = page_table.map(pool, vpn, ppn, flags);
        assert(mapped is Ok);
        self.extra_pages.push(vpn.0);
        proof {
            let area2 = self@;
            let owned2 = page_table.owned();
            let last = area2.extra_pages.len() - 1;
            assert(area2.frames =~= area0.frames);
            assert(area2.extra_frames =~= area1.extra_frames);
            assert(area2.extra_frames.subrange(0, area0.extra_frames.len() as int)
                =~= area0.extra_frames);
            assert(area2.extra_ppn(last) == ppn.0);
            assert forall|q: u64| owned0.contains(q) implies owned2.contains(q) by {
                let i = choose|i: int| 0 <= i < owned0.len() && owned0[i] == q;
                assert(owned2.subrange(0, owned0.len() as int)[i] == owned2[i]);
            }
            // a frame that was handed out before the tables were made is no new table
            assert forall|q: u64| pool1.is_live(q) && !owned0.contains(q) implies !owned2.contains(
                q,
            ) by {
                if owned2.contains(q) {
                    let j = choose|j: int| 0 <= j < owned2.len() && owned2[j] == q;
                    if j < owned0.len() {
                        assert(owned2.subrange(0, owned0.len() as int)[j] == owned2[j]);
                        assert(owned0[j] == q);
                    } else {
                        assert(!pool1.is_live(owned2[j]));
                    }
                }
            }
            assert forall|i: int| 0 <= i < area2.mapped implies #[trigger] mapping(
                pool.memory,
                root,
                (area2.start + i) as u64,
            ) == Some(area2.pte(i)) by {
                let v = (area0.start + i) as u64;
                assert(v != vpn.0);
                assert(mapping(pool0.memory, root, v) == Some(area0.pte(i)));
                assert(mapping(pool1.memory, root, v) == mapping(pool0.memory, root, v));
                assert(page_table.mapping(*pool, v) == mapping(pool1.memory, root, v));
                if area0.map_type == MapType::Framed {
                    assert(area2.frames[i] == area0.frames[i]);
                }
            }
            assert forall|i: int| 0 <= i < area2.frames.len() implies pool.is_live(
                #[trigger] area2.frames[i],
            ) && !owned2.contains(area2.frames[i]) by {
                let q = area2.frames[i];
                assert(q == area0.frames[i]);
                assert(pool0.is_live(q) && !owned0.contains(q));
                assert(pool1.is_live(q));
            }
            assert forall|k: int| 0 <= k < area2.extra_pages.len() implies {
                &&& area2.start <= #[trigger] area2.extra_pages[k] < area2.end
                &&& !(area2.start <= area2.extra_pages[k] < area2.start + area2.mapped)
                &&& mapping(pool.memory, root, area2.extra_pages[k]) == Some(
                    pte_bits(area2.extra_ppn(k), area2.perm | 1),
                )
            } by {
                if k < last {
                    let v = area0.extra_pages[k];
                    assert(area2.extra_pages[k] == v);
                    assert(v != vpn.0);
                    assert(mapping(pool1.memory, root, v) == mapping(pool0.memory, root, v));
                    assert(page_table.mapping(*pool, v) == mapping(pool1.memory, root, v));
                    assert(area2.extra_ppn(k) == area0.extra_ppn(k));
                } else {
                    assert(area2.extra_pages[k] == vpn.0);
                    assert(page_table.mapping(*pool, vpn.0) == Some(
                        pte_bits(ppn.0, flags.bits | 1),
                    ));
                }
            }
            assert forall|j: int, k: int| 0 <= j < k < area2.extra_pages.len() implies #[trigger] area2.extra_pages[j]
                != #[trigger] area2.extra_pages[k] by {
                if k == last {
                    assert(area2.extra_pages[j] == area0.extra_pages[j]);
                }
            }
            assert forall|k: int| 0 <= k < area2.extra_frames.len() implies pool.is_live(
                #[trigger] area2.extra_frames[k],
            ) && !owned2.contains(area2.extra_frames[k]) && !area2.frames.contains(
                area2.extra_frames[k],
            ) by {
                let q = area2.extra_frames[k];
                if k < area0.extra_frames.len() {
                    assert(q == area0.extra_frames[k]);
                    assert(pool0.is_live(q) && !owned0.contains(q));
                } else {
                    assert(q == ppn.0);
                    assert(!pool0.is_live(q));
                    if owned0.contains(q) {
                        lemma_owned_has(pool0, owned0, q);
                    }
                    if area2.frames.contains(q) {
                        let i = choose|i: int| 0 <= i < area0.frames.len() && area0.frames[i] == q;
                        assert(pool0.is_live(area0.frames[i]));
                    }
                }
                assert(pool1.is_live(q));
            }
            assert forall|j: int, k: int| 0 <= j < k < area2.extra_frames.len() implies #[trigger] area2.extra_frames[j]
                != #[trigger] area2.extra_frames[k] by {
                if k == area0.extra_frames.len() {
                    assert(area2.extra_frames[j] == area0.extra_frames[j]);
                    assert(pool0.is_live(area0.extra_frames[j]));
                }
            }
            let data = area2.extra_frames.subrange(
                area0.extra_frames.len() as int,
                area2.extra_frames.len() as int,
            );
            assert forall|q: u64| !owned2.contains(q) && !data.contains(q) implies (
            #[trigger] pool.is_live(q)) == pool0.is_live(q) && (pool0.memory.has(q) ==> pool.frame(q)
                == pool0.frame(q)) by {
                if area0.map_type == MapType::Framed {
                    assert(data[0] == ppn.0);
                    assert(q != ppn.0);
                }
                assert(pool.is_live(q) == pool1.is_live(q));
                if pool0.memory.has(q) {
                    assert(pool.frame(q) == pool1.frame(q));
                    assert(pool1.frame(q) == pool0.frame(q));
                }
            }
            if area0.map_type == MapType::Framed {
                assert(area2.extra_frames.last() == ppn.0);
                assert(!owned2.contains(ppn.0));
                assert(pool.frame(ppn.0) == pool1.frame(ppn.0));
            }
        }
        Ok(())
    }

    /// Maps the next page of the area, `vpn`: to the frame with its own number, or to a
    /// fresh zeroed frame. Fails, and changes nothing, when the pool has too few frames
    /// for the page and the tables it needs.
    fn map_next(&mut self, page_table: &mut PageTable, pool: &mut FramePool, vpn: VirtPageNum) -> (r:
        Result<(), MemError>)
        requires
            old(self)@.wf(),
            old(self)@.mapped < old(self)@.len(),
            vpn.0 == old(self)@.start + old(self)@.mapped,
            old(page_table).wf(*old(pool)),
            area_in_table(old(self)@, *old(pool), old(page_table).root()),
            area_frames_ok(old(self)@, *old(pool), old(page_table).owned()),
            old(page_table).mapping(*old(pool), vpn.0) is None,
        ensures
            final(page_table).wf(*final(pool)),
            final(page_table).root() == old(page_table).root(),
            final(self)@.wf(),
            r is Err <==> old(pool).free_count() < old(self)@.page_cost() + missing_tables(
                old(pool).memory,
                old(page_table).root(),
                vpn.0,
            ),
            r is Err ==> {
                &&& final(self)@ == old(self)@
                &&& final(pool).same_as(*old(pool))
                &&& final(page_table).owned() == old(page_table).owned()
                &&& final(page_table).roles() == old(page_table).roles()
            },
            r is Ok ==> {
                &&& final(self)@.mapped == old(self)@.mapped + 1
                &&& same_area(final(self)@, old(self)@)
                &&& final(self)@.extra_pages == old(self)@.extra_pages
                &&& final(self)@.extra_frames == old(self)@.extra_frames
                &&& final(self)@.frames.subrange(0, old(self)@.frames.len() as int) == old(self)@.frames
                &&& old(self)@.map_type == MapType::Framed ==> {
                    &&& !old(pool).is_live(final(self)@.frames.last())
                    &&& final(pool).frame(final(self)@.frames.last()) == zero_frame()
                }
                &&& area_in_table(final(self)@, *final(pool), final(page_table).root())
                &&& area_frames_ok(final(self)@, *final(pool), final(page_table).owned())
                &&& area_step(
                    old(page_table).owned(),
                    *old(pool),
                    final(page_table).owned(),
                    *final(pool),
                    final(self)@.frames.subrange(
                        old(self)@.frames.len() as int,
                        final(self)@.frames.len() as int,
                    ),
                )
                &&& final(pool).free_count() == old(pool).free_count() - old(self)@.page_cost()
                    - missing_tables(old(pool).memory, old(page_table).root(), vpn.0)
                &&& forall|v: u64|
                    v < 0x800_0000 && v != vpn.0 ==> final(page_table).mapping(*final(pool), v)
                        == old(page_table).mapping(*old(pool), v)
            },
    {
        let ghost pool0 = *pool;
        let ghost area0 = self@;
        let ghost owned0 = page_table.owned();
        let ghost roles0 = page_table.roles();
        let ghost root = page_table.root();
        proof {
            assert(owned0.contains(root)) by {
                assert(owned0[0] == root);
            }
            lemma_owned_has(pool0, owned0, root);
        }
        let tables: u64 = page_table.missing_tables(&pool.memory, vpn);
        let ppn: crate::address::PhysPageNum;
        match self.map_type {
            MapType::Identical => {
                if !pool.can_allocate(tables) {
                    return Err(MemError::OutOfFrames);
                }
                ppn = crate::address::PhysPageNum(vpn.0);
            },
            MapType::Framed => {
                if !pool.can_allocate(tables + 1) {
                    return Err(MemError::OutOfFrames);
                }
                let frame = pool.frame_alloc().unwrap();
                ppn = frame.ppn;
                self.data_frames.push(frame);
                proof {
                    assert(self@.frames =~= area0.frames.push(ppn.0));
                    assert forall|i: int| 0 <= i < owned0.len() implies pool.is_live(
                        #[trigger] owned0[i],
                    ) && pool.frame(owned0[i]) == pool0.frame(owned0[i]) by {
                        assert(pool0.is_live(owned0[i]));
                        lemma_owned_has(pool0, owned0, owned0[i]);
                    }
                    lemma_table_kept(pool0, *pool, root, owned0, roles0);
                }
            },
        }
        let ghost pool1 = *pool;
        let ghost area1 = self@;
        let flags = PTEFlags { bits: self.map_perm.bits };
        let mapped = page_table.map(pool, vpn, ppn, flags);
        assert(mapped is Ok);
        self.mapped = self.mapped + 1;
        proof {
            let area2 = self@;
            let owned2 = page_table.owned();
            assert(area2.frames == area1.frames);
            assert(area2.frames.subrange(0, area0.frames.len() as int) =~= area0.frames);
            assert forall|q: u64| owned0.contains(q) implies owned2.contains(q) by {
                let i = choose|i: int| 0 <= i < owned0.len() && owned0[i] == q;
                assert(owned2.subrange(0, owned0.len() as int)[i] == owned2[i]);
            }
            assert forall|i: int| 0 <= i < area2.mapped implies #[trigger] mapping(
                pool.memory,
                root,
                (area2.start + i) as u64,
            ) == Some(area2.pte(i)) by {
                let v = (area0.start + i) as u64;
                if i < area0.mapped {
                    assert(mapping(pool0.memory, root, v) == Some(area0.pte(i)));
                    assert(mapping(pool1.memory, root, v) == mapping(pool0.memory, root, v));
                    assert(page_table.mapping(*pool, v) == mapping(pool1.memory, root, v));
                    if area0.map_type == MapType::Framed {
                        assert(area2.frames[i] == area0.frames[i]);
                    }
                } else {
                    assert(v == vpn.0);
                    assert(page_table.mapping(*pool, v) == Some(pte_bits(ppn.0, flags.bits | 1)));
                    assert(area2.ppn(i) == ppn.0);
                }
            }
            assert forall|i: int| 0 <= i < area2.frames.len() implies pool.is_live(
                #[trigger] area2.frames[i],
            ) && !owned2.contains(area2.frames[i]) by {
                let q = area2.frames[i];
                if i < area0.frames.len() {
                    assert(q == area0.frames[i]);
                    assert(pool0.is_live(q) && !owned0.contains(q));
                }
                assert(pool1.is_live(q));
                assert(!owned0.contains(q));
                if owned2.contains(q) {
                    let j = choose|j: int| 0 <= j < owned2.len() && owned2[j] == q;
                    if j < owned0.len() {
                        assert(owned2.subrange(0, owned0.len() as int)[j] == owned2[j]);
                        assert(owned0[j] == q);
                    } else {
                        assert(!pool1.is_live(owned2[j]));
                    }
                }
            }
            assert forall|i: int, j: int| 0 <= i < j < area2.frames.len() implies #[trigger] area2.frames[i]
                != #[trigger] area2.frames[j] by {
                if j == area0.frames.len() {
                    assert(area2.frames[i] == area0.frames[i]);
                    assert(pool0.is_live(area0.frames[i]));
                }
            }
            let data = area2.frames.subrange(area0.frames.len() as int, area2.frames.len() as int);
            assert forall|q: u64| !owned2.contains(q) && !data.contains(q) implies (
            #[trigger] pool.is_live(q)) == pool0.is_live(q) && (pool0.memory.has(q) ==> pool.frame(q)
                == pool0.frame(q)) by {
                if area0.map_type == MapType::Framed {
                    assert(data[0] == ppn.0);
                    assert(q != ppn.0);
                }
                assert(pool.is_live(q) == pool1.is_live(q));
                if pool0.memory.has(q) {
                    assert(pool.frame(q) == pool1.frame(q));
                    assert(pool1.frame(q) == pool0.frame(q));
                }
            }
            if area0.map_type == MapType::Framed {
                assert(area2.frames.last() == ppn.0);
                assert(!owned2.contains(ppn.0));
                assert(pool.frame(ppn.0) == pool1.frame(ppn.0));
            }
        }
        Ok(())
    }

    /// Unmaps the last mapped page of the area, `vpn`, and hands its frame back to the
    /// pool if the area is framed.
    fn unmap_last(&mut self, page_table: &mut PageTable, pool: &mut FramePool, vpn: VirtPageNum)
        requires
            old(self)@.mapped > 0,
            vpn.0 == old(self)@.start + old(self)@.mapped - 1,
            old(page_table).wf(*old(pool)),
            area_ok(old(self)@, *old(pool), old(page_table).root(), old(page_table).owned()),
        ensures
            final(page_table).wf(*final(pool)),
            final(page_table).root() == old(page_table).root(),
            final(page_table).owned() == old(page_table).owned(),
            same_area(final(self)@, old(self)@),
            final(self)@.mapped == old(self)@.mapped - 1,
            final(self)@.extra_pages == old(self)@.extra_pages,
            final(self)@.extra_frames == old(self)@.extra_frames,
            final(self)@.frames == old(self)@.frames.subrange(0, final(self)@.frames.len() as int),
            area_ok(final(self)@, *final(pool), final(page_table).root(), final(page_table).owned()),
            area_release_step(
                old(page_table).owned(),
                *old(pool),
                *final(pool),
                old(self)@.frames.subrange(
                    final(self)@.frames.len() as int,
                    old(self)@.frames.len() as int,
                ),
            ),
            final(page_table).mapping(*final(pool), vpn.0) is None,
            forall|v: u64|
                v < 0x800_0000 && v != vpn.0 ==> final(page_table).mapping(*final(pool), v) == old(page_table).mapping(*old(pool), v),
            final(pool).allocator@ == if old(self)@.map_type == MapType::Framed {
                old(pool).allocator@.after_dealloc(old(self)@.frames.last())
            } else {
                old(pool).allocator@
            },
            crate::mm::page_table::missing_tables(
                final(pool).memory,
                final(page_table).root(),
                vpn.0,
            ) == 0,
    {
        let ghost pool0 = *pool;
        let ghost area0 = self@;
        let ghost owned = page_table.owned();
        let ghost roles = page_table.roles();
        let ghost root = page_table.root();
        proof {
            assert(owned.contains(root)) by {
                assert(owned[0] == root);
            }
            assert(mapping(pool0.memory, root, (area0.start + (area0.mapped - 1)) as u64) == Some(
                area0.pte(area0.mapped - 1),
            ));
        }
        if self.map_type == MapType::Framed {
            let frame = self.data_frames.pop().unwrap();
            let ghost f = frame.ppn.0;
            assert(f == area0.frames[area0.frames.len() - 1]);
            assert(self@.frames =~= area0.frames.subrange(0, area0.frames.len() - 1));
            pool.frame_dealloc(frame);
            proof {
                assert forall|i: int| 0 <= i < owned.len() implies pool.is_live(#[trigger] owned[i])
                    && pool.frame(owned[i]) == pool0.frame(owned[i]) by {
                    assert(pool0.is_live(owned[i]));
                    assert(owned.contains(owned[i]));
                }
                lemma_table_kept(pool0, *pool, root, owned, roles);
            }
        } else {
            assert(self@.frames =~= area0.frames.subrange(0, 0));
        }
        let ghost pool1 = *pool;
        assert(page_table.mapping(*pool, vpn.0) == mapping(pool0.memory, root, vpn.0));
        page_table.unmap(pool, vpn);
        self.mapped = self.mapped - 1;
        proof {
            let area2 = self@;
            let data = area0.frames.subrange(area2.frames.len() as int, area0.frames.len() as int);
            assert forall|i: int| 0 <= i < area2.mapped implies #[trigger] mapping(
                pool.memory,
                root,
                (area2.start + i) as u64,
            ) == Some(area2.pte(i)) by {
                let v = (area0.start + i) as u64;
                assert(mapping(pool0.memory, root, v) == Some(area0.pte(i)));
                assert(mapping(pool1.memory, root, v) == mapping(pool0.memory, root, v));
                assert(page_table.mapping(*pool, v) == mapping(pool1.memory, root, v));
                if area0.map_type == MapType::Framed {
                    assert(area2.frames[i] == area0.frames[i]);
                }
            }
            assert forall|i: int| 0 <= i < area2.frames.len() implies pool.is_live(
                #[trigger] area2.frames[i],
            ) && !owned.contains(area2.frames[i]) by {
                assert(area2.frames[i] == area0.frames[i]);
                assert(pool0.is_live(area0.frames[i]));
                assert(area0.frames[i] != area0.frames[area0.frames.len() - 1]);
                assert(pool1.is_live(area2.frames[i]));
            }
            assert forall|i: int, j: int| 0 <= i < j < area2.frames.len() implies #[trigger] area2.frames[i]
                != #[trigger] area2.frames[j] by {
                assert(area2.frames[i] == area0.frames[i]);
                assert(area2.frames[j] == area0.frames[j]);
            }
            assert forall|q: u64| !data.contains(q) implies #[trigger] pool.is_live(q)
                == pool0.is_live(q) by {
                if area0.map_type == MapType::Framed {
                    assert(data[0] == area0.frames[area0.frames.len() - 1]);
                }
                assert(pool.is_live(q) == pool1.is_live(q));
            }
            assert forall|q: u64| pool0.memory.has(q) && !owned.contains(q) implies #[trigger] pool.frame(
                q,
            ) == pool0.frame(q) by {
                assert(pool.frame(q) == pool1.frame(q));
            }
            assert forall|i: int| 0 <= i < data.len() implies !pool.is_live(#[trigger] data[i]) by {
                assert(data[i] == area0.frames[area0.frames.len() - 1]);
                assert(!owned.contains(data[i]));
                assert(pool.is_live(data[i]) == pool1.is_live(data[i]));
            }
            if area0.map_type == MapType::Framed {
                assert(data.len() == 1 && data[0] == area0.frames.last());
                assert(pool0.allocator@.recycled + backwards(data)
                    =~= pool0.allocator@.recycled.push(area0.frames.last()));
            } else {
                assert(pool0.allocator@.recycled + backwards(data) =~= pool0.allocator@.recycled);
            }
        }
    }

    /// Maps the pages of the area that are not mapped yet, in ascending order. Stops
    /// at the first page for which the pool has too few frames, and fails.
    #[verifier::loop_isolation(false)]
    pub fn map(&mut self, page_table: &mut PageTable, pool: &mut FramePool) -> (r: Result<
        (),
        MemError,
    >)
        requires
            old(page_table).wf(*old(pool)),
            area_ok(old(self)@, *old(pool), old(page_table).root(), old(page_table).owned()),
            forall|v: u64|
                old(self)@.start + old(self)@.mapped <= v < old(self)@.end ==> old(page_table).mapping(*old(pool), v) is None,
        ensures
            final(page_table).wf(*final(pool)),
            final(page_table).root() == old(page_table).root(),
            same_area(final(self)@, old(self)@),
            final(self)@.mapped >= old(self)@.mapped,
            final(self)@.frames.subrange(0, old(self)@.frames.len() as int) == old(self)@.frames,
            forall|i: int|
                old(self)@.frames.len() <= i < final(self)@.frames.len() ==> final(pool).frame(
                    #[trigger] final(self)@.frames[i],
                ) == zero_frame(),
            area_ok(final(self)@, *final(pool), final(page_table).root(), final(page_table).owned()),
            area_step(
                old(page_table).owned(),
                *old(pool),
                final(page_table).owned(),
                *final(pool),
                final(self)@.frames.subrange(
                    old(self)@.frames.len() as int,
                    final(self)@.frames.len() as int,
                ),
            ),
            forall|v: u64|
                v < 0x800_0000 && !(old(self)@.start + old(self)@.mapped <= v < final(self)@.start
                    + final(self)@.mapped) ==> final(page_table).mapping(*final(pool), v) == old(page_table).mapping(*old(pool), v),
            r is Ok <==> final(self)@.complete(),
            r is Err ==> final(pool).free_count() < final(self)@.page_cost() + missing_tables(
                final(pool).memory,
                final(page_table).root(),
                (final(self)@.start + final(self)@.mapped) as u64,
            ),
            old(pool).free_count() >= 3 * (old(self)@.len() - old(self)@.mapped) ==> r is Ok,
            final(pool).free_count() >= old(pool).free_count() - 3 * (final(self)@.mapped - old(self)@.mapped),
    {
        let ghost pool0 = *pool;
        let ghost area0 = self@;
        let ghost pt0 = *page_table;
        let ghost owned0 = page_table.owned();
        let ghost root = page_table.root();
        let end: u64 = self.vpn_range.get_end().0;
        let start: u64 = self.vpn_range.get_start().0;
        proof {
            assert(owned0.subrange(0, owned0.len() as int) =~= owned0);
            assert(area0.frames.subrange(0, area0.frames.len() as int) =~= area0.frames);
        }
        while start + self.mapped < end
            invariant
                start == area0.start,
                end == area0.end,
                page_table.wf(*pool),
                page_table.root() == root,
                same_area(self@, area0),
                self@.mapped >= area0.mapped,
                self@.frames.subrange(0, area0.frames.len() as int) == area0.frames,
                area0.frames.len() <= self@.frames.len(),
                forall|i: int|
                    area0.frames.len() <= i < self@.frames.len() ==> pool.frame(
                        #[trigger] self@.frames[i],
                    ) == zero_frame(),
                area_ok(self@, *pool, root, page_table.owned()),
                area_step(
                    owned0,
                    pool0,
                    page_table.owned(),
                    *pool,
                    self@.frames.subrange(area0.frames.len() as int, self@.frames.len() as int),
                ),
                forall|v: u64|
                    v < 0x800_0000 && !(area0.start + area0.mapped <= v < self@.start
                        + self@.mapped) ==> page_table.mapping(*pool, v) == pt0.mapping(pool0, v),
                pool0.free_count() >= 3 * (area0.len() - area0.mapped) ==> pool.free_count() >= 3
                    * (self@.len() - self@.mapped),
                pool.free_count() >= pool0.free_count() - 3 * (self@.mapped - area0.mapped),
            decreases end - start - self.mapped,
        {
            let ghost pool1 = *pool;
            let ghost area1 = self@;
            let ghost pt1 = *page_table;
            let ghost owned1 = page_table.owned();
            let vpn = VirtPageNum(start + self.mapped);
            proof {
                assert(page_table.mapping(*pool, vpn.0) == pt0.mapping(pool0, vpn.0));
                assert(pt0.mapping(pool0, vpn.0) is None);
            }
            match self.map_next(page_table, pool, vpn) {
                Err(e) => {
                    proof {
                        assert(self@.frames.subrange(
                            area0.frames.len() as int,
                            self@.frames.len() as int,
                        ) =~= area1.frames.subrange(
                            area0.frames.len() as int,
                            area1.frames.len() as int,
                        ));
                        lemma_same_frames(pool1, *pool);
                    }
                    return Err(e);
                },
                Ok(()) => {},
            }
            proof {
                let area2 = self@;
                let owned2 = page_table.owned();
                let d1 = area1.frames.subrange(area0.frames.len() as int, area1.frames.len() as int);
                let d12 = area2.frames.subrange(
                    area1.frames.len() as int,
                    area2.frames.len() as int,
                );
                let d2 = area2.frames.subrange(area0.frames.len() as int, area2.frames.len() as int);
                assert(area2.frames.subrange(0, area0.frames.len() as int) =~= area0.frames) by {
                    assert forall|i: int| 0 <= i < area0.frames.len() implies area2.frames[i]
                        == area0.frames[i] by {
                        assert(area2.frames.subrange(0, area1.frames.len() as int)[i]
                            == area2.frames[i]);
                        assert(area1.frames.subrange(0, area0.frames.len() as int)[i]
                            == area1.frames[i]);
                    }
                }
                assert(d2 =~= d1 + d12) by {
                    assert forall|i: int| 0 <= i < d1.len() implies d2[i] == d1[i] by {
                        assert(area2.frames.subrange(0, area1.frames.len() as int)[i
                            + area0.frames.len()] == area2.frames[i + area0.frames.len()]);
                    }
                }
                lemma_area_step_trans(owned0, pool0, owned1, pool1, owned2, *pool, d1, d12);
                assert forall|i: int|
                    area0.frames.len() <= i < area2.frames.len() implies pool.frame(
                    #[trigger] area2.frames[i],
                ) == zero_frame() by {
                    if i < area1.frames.len() {
                        assert(area2.frames.subrange(0, area1.frames.len() as int)[i]
                            == area2.frames[i]);
                        let q = area1.frames[i];
                        assert(pool1.frame(q) == zero_frame());
                        assert(!owned2.contains(q));
                        assert(!d12.contains(q)) by {
                            if d12.contains(q) {
                                assert(d12[0] == q);
                                assert(pool1.is_live(area1.frames[i]));
                            }
                        }
                        assert(pool1.is_live(area1.frames[i]));
                        lemma_live_has(pool1, q);
                    }
                }
                assert forall|v: u64|
                    v < 0x800_0000 && !(area0.start + area0.mapped <= v < area2.start
                        + area2.mapped) implies page_table.mapping(*pool, v) == pt0.mapping(
                    pool0,
                    v,
                ) by {
                    assert(pt1.mapping(pool1, v) == pt0.mapping(pool0, v));
                }
            }
        }
        Ok(())
    }

    /// Unmaps the mapped pages of the area, in descending order, and hands their frames
    /// back to the pool if the area is framed.
    #[verifier::loop_isolation(false)]
    pub fn unmap(&mut self, page_table: &mut PageTable, pool: &mut FramePool)
        requires
            old(page_table).wf(*old(pool)),
            area_ok(old(self)@, *old(pool), old(page_table).root(), old(page_table).owned()),
        ensures
            final(page_table).wf(*final(pool)),
            final(page_table).root() == old(page_table).root(),
            final(page_table).owned() == old(page_table).owned(),
            same_area(final(self)@, old(self)@),
            final(self)@.mapped == 0,
            final(self)@.frames.len() == 0,
            area_release_step(old(page_table).owned(), *old(pool), *final(pool), old(self)@.frames),
            forall|v: u64|
                old(self)@.start <= v < old(self)@.start + old(self)@.mapped ==> final(page_table).mapping(*final(pool), v) is None,
            forall|v: u64|
                v < 0x800_0000 && !(old(self)@.start <= v < old(self)@.start + old(self)@.mapped)
                    ==> final(page_table).mapping(*final(pool), v) == old(page_table).mapping(
                    *old(pool),
                    v,
                ),
    {
        let ghost pool0 = *pool;
        let ghost area0 = self@;
        let ghost pt0 = *page_table;
        let ghost owned = page_table.owned();
        let ghost root = page_table.root();
        let start: u64 = self.vpn_range.get_start().0;
        proof {
            assert(area0.frames.subrange(area0.frames.len() as int, area0.frames.len() as int)
                =~= Seq::<u64>::empty());
        }
        while self.mapped > 0
            invariant
                start == area0.start,
                page_table.wf(*pool),
                page_table.root() == root,
                page_table.owned() == owned,
                same_area(self@, area0),
                self@.mapped <= area0.mapped,
                self@.frames == area0.frames.subrange(0, self@.frames.len() as int),
                self@.frames.len() <= area0.frames.len(),
                area0.wf(),
                area_ok(self@, *pool, root, owned),
                area_release_step(
                    owned,
                    pool0,
                    *pool,
                    area0.frames.subrange(self@.frames.len() as int, area0.frames.len() as int),
                ),
                forall|v: u64|
                    area0.start + self@.mapped <= v < area0.start + area0.mapped
                        ==> page_table.mapping(*pool, v) is None,
                forall|v: u64|
                    v < 0x800_0000 && !(area0.start + self@.mapped <= v < area0.start
                        + area0.mapped) ==> page_table.mapping(*pool, v) == pt0.mapping(pool0, v),
            decreases self.mapped,
        {
            let ghost pool1 = *pool;
            let ghost area1 = self@;
            let ghost pt1 = *page_table;
            let vpn = VirtPageNum(start + self.mapped - 1);
            self.unmap_last(page_table, pool, vpn);
            proof {
                let area2 = self@;
                let d1 = area0.frames.subrange(area1.frames.len() as int, area0.frames.len() as int);
                let d12 = area1.frames.subrange(
                    area2.frames.len() as int,
                    area1.frames.len() as int,
                );
                let d2 = area0.frames.subrange(area2.frames.len() as int, area0.frames.len() as int);
                assert(area2.frames =~= area0.frames.subrange(0, area2.frames.len() as int));
                assert(d2 =~= d12 + d1);
                assert(pool0.allocator@.recycled + backwards(d2) =~= (pool0.allocator@.recycled
                    + backwards(d1)) + backwards(d12));
                assert forall|q: u64| !d2.contains(q) implies #[trigger] pool.is_live(q)
                    == pool0.is_live(q) by {
                    assert(!d1.contains(q)) by {
                        if d1.contains(q) {
                            let i = choose|i: int| 0 <= i < d1.len() && d1[i] == q;
                            assert(d2[i + d12.len()] == q);
                        }
                    }
                    assert(!d12.contains(q)) by {
                        if d12.contains(q) {
                            let i = choose|i: int| 0 <= i < d12.len() && d12[i] == q;
                            assert(d2[i] == q);
                        }
                    }
                    assert(pool.is_live(q) == pool1.is_live(q));
                }
                assert forall|i: int| 0 <= i < d2.len() implies !pool.is_live(#[trigger] d2[i]) by {
                    if i < d12.len() {
                        assert(d2[i] == d12[i]);
                    } else {
                        let q = d1[i - d12.len()];
                        assert(d2[i] == q);
                        assert(!pool1.is_live(q));
                        if d12.contains(q) {
                            assert(d12[0] == q);
                            assert(pool1.is_live(area1.frames[area1.frames.len() - 1]));
                        }
                        assert(pool.is_live(q) == pool1.is_live(q));
                    }
                }
                assert forall|q: u64|
                    pool0.memory.has(q) && !owned.contains(q) implies #[trigger] pool.frame(q)
                    == pool0.frame(q) by {
                    assert(pool.frame(q) == pool1.frame(q));
                }
                assert forall|v: u64|
                    v < 0x800_0000 && !(area0.start + area2.mapped <= v < area0.start
                        + area0.mapped) implies page_table.mapping(*pool, v) == pt0.mapping(
                    pool0,
                    v,
                ) by {
                    assert(pt1.mapping(pool1, v) == pt0.mapping(pool0, v));
                }
            }
        }
        proof {
            assert(area0.frames.subrange(0, area0.frames.len() as int) =~= area0.frames);
        }
    }

    /// Copies `data` into the frames of the area, page by page from the first page on.
    /// The area must be framed, and its mapped pages must have room for `data`.
    #[verifier::loop_isolation(false)]
    pub fn copy_data(&mut self, page_table: &PageTable, pool: &mut FramePool, data: &[u8])
        requires
            old(self)@.map_type == MapType::Framed,
            data@.len() <= old(self)@.mapped * 4096,
            page_table.wf(*old(pool)),
            area_ok(old(self)@, *old(pool), page_table.root(), page_table.owned()),
        ensures
            final(self)@ == old(self)@,
            final(pool).allocator@ == old(pool).allocator@,
            page_table.wf(*final(pool)),
            area_ok(final(self)@, *final(pool), page_table.root(), page_table.owned()),
            data_copied(old(self)@.frames, *old(pool), *final(pool), data@),
            forall|v: u64|
                page_table.mapping(*final(pool), v) == page_table.mapping(*old(pool), v),
    {
        let ghost pool0 = *pool;
        let ghost area = self@;
        let ghost root = page_table.root();
        let ghost owned = page_table.owned();
        let len: usize = data.len();
        let start_vpn: u64 = self.vpn_range.get_start().0;
        let mut page: u64 = 0;
        let mut start: usize = 0;
        proof {
            assert(owned.contains(root)) by {
                assert(owned[0] == root);
            }
            lemma_table_kept(pool0, pool0, root, owned, page_table.roles());
        }
        while start < len
            invariant
                self@ == area,
                start == if page * 4096 < len { page * 4096 } else { len as int },
                start < len ==> page < area.mapped,
                pool.wf(),
                pool.allocator@ == pool0.allocator@,
                pool.memory.base() == pool0.memory.base(),
                pool.memory.frames().len() == pool0.memory.frames().len(),
                page_table.wf(*pool),
                area_ok(area, *pool, root, owned),
                forall|v: u64| page_table.mapping(*pool, v) == page_table.mapping(pool0, v),
                forall|q: u64|
                    pool0.memory.has(q) && !area.frames.contains(q) ==> #[trigger] pool.frame(q)
                        == pool0.frame(q),
                forall|i: int|
                    0 <= i < area.frames.len() ==> pool.frame(#[trigger] area.frames[i])
                        == if i < page {
                        with_bytes(pool0.frame(area.frames[i]), 0, page_piece(data@, i))
                    } else {
                        pool0.frame(area.frames[i])
                    },
            decreases len - start,
        {
            let ghost pool1 = *pool;
            let vpn = VirtPageNum(start_vpn + page);
            let n: usize = if len - start < 4096 {
                len - start
            } else {
                4096
            };
            proof {
                assert(mapping(pool1.memory, root, (area.start + page) as u64) == Some(
                    area.pte(page as int),
                ));
                assert(pool1.is_live(area.frames[page as int]));
                lemma_live_has(pool1, area.frames[page as int]);
                lemma_pte_bits(area.frames[page as int], area.perm | 1);
            }
            let pte = page_table.translate(&pool.memory, vpn).unwrap();
            let ppn = pte.ppn();
            assert(ppn.0 == area.frames[page as int]);
            pool.memory.write_bytes(ppn, 0, data, start, n);
            proof {
                assert(data@.subrange(start as int, start + n) =~= page_piece(data@, page as int));
                assert forall|q: u64| pool1.memory.has(q) && q != ppn.0 implies #[trigger] pool.frame(
                    q,
                ) == pool1.frame(q) by {}
                assert forall|i: int| 0 <= i < owned.len() implies pool.is_live(#[trigger] owned[i])
                    && pool.frame(owned[i]) == pool1.frame(owned[i]) by {
                    assert(pool1.is_live(owned[i]));
                    assert(owned.contains(owned[i]));
                    lemma_live_has(pool1, owned[i]);
                }
                lemma_table_kept(pool1, *pool, root, owned, page_table.roles());
                assert forall|i: int| 0 <= i < area.frames.len() implies pool.frame(
                    #[trigger] area.frames[i],
                ) == if i < page + 1 {
                    with_bytes(pool0.frame(area.frames[i]), 0, page_piece(data@, i))
                } else {
                    pool0.frame(area.frames[i])
                } by {
                    assert(pool1.is_live(area.frames[i]));
                    lemma_live_has(pool1, area.frames[i]);
                    if i != page {
                        assert(area.frames[i] != area.frames[page as int]);
                    }
                }
                assert forall|q: u64|
                    pool0.memory.has(q) && !area.frames.contains(q) implies #[trigger] pool.frame(q)
                    == pool0.frame(q) by {
                    assert(q != ppn.0);
                }
            }
            start = start + n;
            page = page + 1;
        }
        proof {
            assert forall|i: int| 0 <= i < area.frames.len() implies pool.frame(
                #[trigger] area.frames[i],
            ) == with_bytes(pool0.frame(area.frames[i]), 0, page_piece(data@, i)) by {
                if i >= page {
                    assert(page_piece(data@, i) =~= Seq::<u8>::empty());
                    assert(pool0.is_live(area.frames[i]));
                    lemma_live_has(pool0, area.frames[i]);
                    assert(with_bytes(pool0.frame(area.frames[i]), 0, Seq::<u8>::empty())
                        =~= pool0.frame(area.frames[i]));
                }
            }
        }
    }

    /// Copies the bytes of every page of `src` to the page of this area with the same
    /// number. Both areas must be framed and have the same number of mapped pages.
    #[verifier::loop_isolation(false)]
    pub fn copy_frames_from(&self, src: &MapArea, pool: &mut FramePool)
        requires
            old(pool).wf(),
            self@.frames.len() == src@.frames.len(),
            forall|i: int|
                0 <= i < self@.frames.len() ==> old(pool).is_live(#[trigger] self@.frames[i]),
            forall|i: int| 0 <= i < src@.frames.len() ==> old(pool).is_live(#[trigger] src@.frames[i]),
            forall|i: int, j: int|
                0 <= i < j < self@.frames.len() ==> #[trigger] self@.frames[i]
                    != #[trigger] self@.frames[j],
            forall|i: int|
                0 <= i < src@.frames.len() ==> !self@.frames.contains(#[trigger] src@.frames[i]),
        ensures
            final(pool).wf(),
            final(pool).allocator@ == old(pool).allocator@,
            final(pool).memory.base() == old(pool).memory.base(),
            final(pool).memory.frames().len() == old(pool).memory.frames().len(),
            forall|i: int|
                0 <= i < self@.frames.len() ==> final(pool).frame(#[trigger] self@.frames[i]) == old(pool).frame(src@.frames[i]),
            forall|q: u64|
                old(pool).memory.has(q) && !self@.frames.contains(q) ==> #[trigger] final(pool).frame(
                    q,
                ) == old(pool).frame(q),
    {
        let ghost pool0 = *pool;
        let ghost dst_frames = self@.frames;
        let ghost src_frames = src@.frames;
        let mut i: usize = 0;
        while i < self.data_frames.len()
            invariant
                i <= self.data_frames.len(),
                self.data_frames.len() == src.data_frames.len(),
                pool.wf(),
                pool.allocator@ == pool0.allocator@,
                pool.memory.base() == pool0.memory.base(),
                pool.memory.frames().len() == pool0.memory.frames().len(),
                forall|j: int|
                    0 <= j < i ==> pool.frame(#[trigger] dst_frames[j]) == pool0.frame(
                        src_frames[j],
                    ),
                forall|q: u64|
                    pool0.memory.has(q) && !dst_frames.contains(q) ==> #[trigger] pool.frame(q)
                        == pool0.frame(q),
            decreases self.data_frames.len() - i,
        {
            let ghost pool1 = *pool;
            let dst = self.data_frames[i].ppn;
            let from = src.data_frames[i].ppn;
            proof {
                assert(dst.0 == dst_frames[i as int]);
                assert(from.0 == src_frames[i as int]);
                assert(pool0.is_live(dst_frames[i as int]));
                assert(pool0.is_live(src_frames[i as int]));
                lemma_live_has(pool0, dst.0);
                lemma_live_has(pool0, from.0);
                assert(!dst_frames.contains(src_frames[i as int]));
                assert(pool1.frame(from.0) == pool0.frame(from.0));
            }
            pool.memory.copy_frame(dst, from);
            proof {
                assert forall|j: int| 0 <= j < i + 1 implies pool.frame(#[trigger] dst_frames[j])
                    == pool0.frame(src_frames[j]) by {
                    if j < i {
                        assert(dst_frames[j] != dst_frames[i as int]);
                        assert(pool0.is_live(dst_frames[j]));
                        lemma_live_has(pool0, dst_frames[j]);
                        assert(pool.frame(dst_frames[j]) == pool1.frame(dst_frames[j]));
                    }
                }
                assert forall|q: u64|
                    pool0.memory.has(q) && !dst_frames.contains(q) implies #[trigger] pool.frame(q)
                    == pool0.frame(q) by {
                    assert(q != dst.0);
                    assert(pool.frame(q) == pool1.frame(q));
                }
            }
            i = i + 1;
        }
    }

    /// The frame of the `i`-th page of a framed area.
    pub fn frame_at(&self, i: usize) -> (r: crate::address::PhysPageNum)
        requires
            i < self@.frames.len(),
        ensures
            r.0 == self@.frames[i as int],
    {
        self.data_frames[i].ppn
    }

    /// Number of frames of the area.
    pub fn frame_count(&self) -> (r: usize)
        ensures
            r == self@.frames.len(),
    {
        self.data_frames.len()
    }
}

/// Pools with the same bytes have the same frames.
pub proof fn lemma_same_frames(pool0: FramePool, pool1: FramePool)
    requires
        pool1.same_as(pool0),
    ensures
        forall|q: u64| #[trigger] pool1.frame(q) == pool0.frame(q),
        forall|q: u64| pool1.is_live(q) == pool0.is_live(q),
        pool1.memory.base() == pool0.memory.base(),
        pool1.memory.frames().len() == pool0.memory.frames().len(),
        pool1.free_count() == pool0.free_count(),
        forall|root: u64, v: u64|
            #![trigger mapping(pool1.memory, root, v)]
            mapping(pool1.memory, root, v) == mapping(pool0.memory, root, v) && missing_tables(
                pool1.memory,
                root,
                v,
            ) == missing_tables(pool0.memory, root, v),
{
    assert forall|root: u64, v: u64|
        #![trigger mapping(pool1.memory, root, v)]
        mapping(pool1.memory, root, v) == mapping(pool0.memory, root, v) && missing_tables(
            pool1.memory,
            root,
            v,
        ) == missing_tables(pool0.memory, root, v) by {
        crate::address::lemma_vpn_index(v, v);
    }
}

/// A frame that is handed out lies in memory.
pub proof fn lemma_live_has(pool: FramePool, q: u64)
    requires
        pool.wf(),
        pool.is_live(q),
    ensures
        pool.memory.has(q),
{
}

/// Two steps of mapping in a row are a step.
pub proof fn lemma_area_step_trans(
    owned0: Seq<u64>,
    pool0: FramePool,
    owned1: Seq<u64>,
    pool1: FramePool,
    owned2: Seq<u64>,
    pool2: FramePool,
    d1: Seq<u64>,
    d2: Seq<u64>,
)
    requires
        area_step(owned0, pool0, owned1, pool1, d1),
        area_step(owned1, pool1, owned2, pool2, d2),
        forall|i: int| 0 <= i < d1.len() ==> !owned2.contains(#[trigger] d1[i]),
    ensures
        area_step(owned0, pool0, owned2, pool2, d1 + d2),
{
    let d = d1 + d2;
    assert(owned2.subrange(0, owned0.len() as int) =~= owned0) by {
        assert forall|i: int| 0 <= i < owned0.len() implies owned2[i] == owned0[i] by {
            assert(owned1.subrange(0, owned0.len() as int)[i] == owned1[i]);
            assert(owned2.subrange(0, owned1.len() as int)[i] == owned2[i]);
        }
    }
    assert forall|q: u64| owned1.contains(q) implies owned2.contains(q) by {
        let i = choose|i: int| 0 <= i < owned1.len() && owned1[i] == q;
        assert(owned2.subrange(0, owned1.len() as int)[i] == owned2[i]);
    }
    assert forall|q: u64| d1.contains(q) || d2.contains(q) implies d.contains(q) by {
        if d1.contains(q) {
            let i = choose|i: int| 0 <= i < d1.len() && d1[i] == q;
            assert(d[i] == q);
        } else {
            let i = choose|i: int| 0 <= i < d2.len() && d2[i] == q;
            assert(d[i + d1.len()] == q);
        }
    }
    assert forall|i: int| 0 <= i < d.len() implies !pool0.is_live(#[trigger] d[i]) && pool2.is_live(
        d[i],
    ) by {
        if i < d1.len() {
            let q = d1[i];
            assert(d[i] == q);
            assert(pool1.is_live(q));
            assert(pool2.is_live(q));
        } else {
            let q = d2[i - d1.len()];
            assert(d[i] == q);
            assert(!pool1.is_live(q));
            if pool0.is_live(q) {
                assert(pool1.is_live(q));
            }
        }
    }
    assert forall|i: int| owned0.len() <= i < owned2.len() implies !pool0.is_live(
        #[trigger] owned2[i],
    ) by {
        let q = owned2[i];
        if i < owned1.len() {
            assert(owned2.subrange(0, owned1.len() as int)[i] == owned2[i]);
            assert(!pool0.is_live(owned1[i]));
        } else {
            assert(!pool1.is_live(q));
            if pool0.is_live(q) {
                assert(pool1.is_live(q));
            }
        }
    }
    assert forall|q: u64| pool0.is_live(q) implies #[trigger] pool2.is_live(q) by {
        assert(pool1.is_live(q));
    }
    assert forall|q: u64| !owned2.contains(q) && !d.contains(q) implies (#[trigger] pool2.is_live(
        q,
    )) == pool0.is_live(q) && (pool0.memory.has(q) ==> pool2.frame(q) == pool0.frame(q)) by {
        assert(pool2.is_live(q) == pool1.is_live(q));
        assert(pool1.is_live(q) == pool0.is_live(q));
        if pool0.memory.has(q) {
            assert(pool1.frame(q) == pool0.frame(q));
            assert(pool2.frame(q) == pool1.frame(q));
        }
    }
}

/// Taking the `k`-th of the pages mapped out of order out of an area, handing its frame
/// back and unmapping it, leaves a consistent area and releases that frame alone.
proof fn lemma_extra_unmapped(
    area0: AreaView,
    area2: AreaView,
    pool0: FramePool,
    pool1: FramePool,
    pool2: FramePool,
    root: u64,
    owned: Seq<u64>,
    k: int,
)
    requires
        area_held(area0, pool0, root, owned),
        0 <= k < area0.extra_pages.len(),
        same_area(area2, area0),
        area2.mapped == area0.mapped,
        area2.frames == area0.frames,
        area2.extra_pages == area0.extra_pages.remove(k),
        area2.extra_frames == if area0.map_type == MapType::Framed {
            area0.extra_frames.remove(k)
        } else {
            area0.extra_frames
        },
        // the frame went back to the pool
        pool1.memory == pool0.memory,
        if area0.map_type == MapType::Framed {
            &&& !pool1.is_live(area0.extra_frames[k])
            &&& pool1.allocator@ == pool0.allocator@.after_dealloc(area0.extra_frames[k])
            &&& pool1.free_count() == pool0.free_count() + 1
            &&& forall|q: u64|
                q != area0.extra_frames[k] ==> #[trigger] pool1.is_live(q) == pool0.is_live(q)
        } else {
            pool1 == pool0
        },
        // the page was unmapped
        table_step(owned, pool1, owned, pool2),
        pool2.allocator == pool1.allocator,
        forall|q: u64| owned.contains(q) ==> pool0.is_live(q) && pool2.is_live(q),
        forall|v: u64|
            v < 0x800_0000 && v != area0.extra_pages[k] ==> #[trigger] mapping(
                pool2.memory,
                root,
                v,
            ) == mapping(pool0.memory, root, v),
    ensures
        area_held(area2, pool2, root, owned),
        area_release_step(
            owned,
            pool0,
            pool2,
            if area0.map_type == MapType::Framed {
                seq![area0.extra_frames[k]]
            } else {
                Seq::empty()
            },
        ),
{
    let vpn = area0.extra_pages[k];
    let framed = area0.map_type == MapType::Framed;
    let data = if framed {
        seq![area0.extra_frames[k]]
    } else {
        Seq::<u64>::empty()
    };
    assert(area0.start <= vpn < area0.end);
    assert forall|i: int| 0 <= i < area2.mapped implies #[trigger] mapping(
        pool2.memory,
        root,
        (area2.start + i) as u64,
    ) == Some(area2.pte(i)) by {
        let v = (area0.start + i) as u64;
        assert(mapping(pool0.memory, root, v) == Some(area0.pte(i)));
        assert(v != vpn);
    }
    assert forall|i: int| 0 <= i < area2.frames.len() implies pool2.is_live(
        #[trigger] area2.frames[i],
    ) && !owned.contains(area2.frames[i]) by {
        let q = area0.frames[i];
        assert(pool0.is_live(q) && !owned.contains(q));
        if framed {
            assert(!area0.frames.contains(area0.extra_frames[k]));
        }
        assert(pool1.is_live(q));
        assert(pool2.is_live(q) == pool1.is_live(q));
    }
    assert forall|j: int| 0 <= j < area2.extra_pages.len() implies {
        &&& area2.start <= #[trigger] area2.extra_pages[j] < area2.end
        &&& !(area2.start <= area2.extra_pages[j] < area2.start + area2.mapped)
        &&& mapping(pool2.memory, root, area2.extra_pages[j]) == Some(
            pte_bits(area2.extra_ppn(j), area2.perm | 1),
        )
    } by {
        let w = if j < k {
            j
        } else {
            j + 1
        };
        let v = area0.extra_pages[w];
        assert(area2.extra_pages[j] == v);
        assert(v != vpn);
        assert(area2.extra_ppn(j) == area0.extra_ppn(w));
        assert(mapping(pool0.memory, root, v) == Some(pte_bits(area0.extra_ppn(w), area0.perm | 1)));
    }
    assert forall|i: int, j: int| 0 <= i < j < area2.extra_pages.len() implies #[trigger] area2.extra_pages[i]
        != #[trigger] area2.extra_pages[j] by {
        let wi = if i < k {
            i
        } else {
            i + 1
        };
        let wj = if j < k {
            j
        } else {
            j + 1
        };
        assert(area2.extra_pages[i] == area0.extra_pages[wi]);
        assert(area2.extra_pages[j] == area0.extra_pages[wj]);
    }
    assert forall|j: int| 0 <= j < area2.extra_frames.len() implies pool2.is_live(
        #[trigger] area2.extra_frames[j],
    ) && !owned.contains(area2.extra_frames[j]) && !area2.frames.contains(area2.extra_frames[j]) by {
        let w = if j < k {
            j
        } else {
            j + 1
        };
        let q = area0.extra_frames[w];
        assert(area2.extra_frames[j] == q);
        assert(pool0.is_live(q) && !owned.contains(q) && !area0.frames.contains(q));
        assert(q != area0.extra_frames[k]);
        assert(pool1.is_live(q));
        assert(pool2.is_live(q) == pool1.is_live(q));
    }
    assert forall|i: int, j: int| 0 <= i < j < area2.extra_frames.len() implies #[trigger] area2.extra_frames[i]
        != #[trigger] area2.extra_frames[j] by {
        let wi = if i < k {
            i
        } else {
            i + 1
        };
        let wj = if j < k {
            j
        } else {
            j + 1
        };
        assert(area2.extra_frames[i] == area0.extra_frames[wi]);
        assert(area2.extra_frames[j] == area0.extra_frames[wj]);
    }
    assert forall|q: u64| !data.contains(q) implies #[trigger] pool2.is_live(q) == pool0.is_live(
        q,
    ) by {
        if framed {
            assert(data[0] == area0.extra_frames[k]);
            assert(q != area0.extra_frames[k]);
        }
        if owned.contains(q) {
            assert(pool0.is_live(q) && pool2.is_live(q));
        }
    }
    assert forall|i: int| 0 <= i < data.len() implies !pool2.is_live(#[trigger] data[i]) by {
        assert(data[i] == area0.extra_frames[k]);
        assert(!owned.contains(data[i]));
    }
    if framed {
        assert(pool0.allocator@.recycled + backwards(data) =~= pool0.allocator@.recycled.push(
            area0.extra_frames[k],
        ));
    } else {
        assert(pool0.allocator@.recycled + backwards(data) =~= pool0.allocator@.recycled);
    }
}

/// An area that got page `vpn` on frame `p` behind its pages mapped out of order has
/// the pages it had, and that one.
pub proof fn lemma_holds_pushed(a0: AreaView, a1: AreaView, vpn: u64, p: u64)
    requires
        same_area(a1, a0),
        a1.mapped == a0.mapped,
        a1.frames == a0.frames,
        a1.extra_pages == a0.extra_pages.push(vpn),
        a1.extra_ppn(a1.extra_pages.len() - 1) == p,
        forall|k: int| 0 <= k < a0.extra_pages.len() ==> a1.extra_ppn(k) == a0.extra_ppn(k),
    ensures
        forall|v: u64| #[trigger] a1.maps(v) == (a0.maps(v) || v == vpn),
        forall|v: u64, q: u64| #[trigger] a1.holds(v, q) == (a0.holds(v, q) || (v == vpn && q == p)),
{
    let last = a1.extra_pages.len() - 1;
    assert forall|v: u64| #[trigger] a1.maps(v) == (a0.maps(v) || v == vpn) by {
        if a0.extra_pages.contains(v) {
            let k = choose|k: int| 0 <= k < a0.extra_pages.len() && a0.extra_pages[k] == v;
            assert(a1.extra_pages[k] == v);
        }
        if v == vpn {
            assert(a1.extra_pages[last] == v);
        }
        if a1.extra_pages.contains(v) {
            let k = choose|k: int| 0 <= k < a1.extra_pages.len() && a1.extra_pages[k] == v;
            if k < last {
                assert(a0.extra_pages[k] == v);
            }
        }
    }
    assert forall|v: u64, q: u64| #[trigger] a1.holds(v, q) == (a0.holds(v, q) || (v == vpn && q
        == p)) by {
        assert(a1.ppn(v - a1.start) == a0.ppn(v - a0.start));
        if a0.holds(v, q) && !(a0.start <= v < a0.start + a0.mapped && a0.ppn(v - a0.start) == q) {
            let k = choose|k: int|
                0 <= k < a0.extra_pages.len() && #[trigger] a0.extra_pages[k] == v && a0.extra_ppn(k)
                    == q;
            assert(a1.extra_pages[k] == v && a1.extra_ppn(k) == q);
        }
        if v == vpn && q == p {
            assert(a1.extra_pages[last] == v && a1.extra_ppn(last) == q);
        }
        if a1.holds(v, q) && !(a1.start <= v < a1.start + a1.mapped && a1.ppn(v - a1.start) == q) {
            let k = choose|k: int|
                0 <= k < a1.extra_pages.len() && #[trigger] a1.extra_pages[k] == v && a1.extra_ppn(k)
                    == q;
            if k < last {
                assert(a0.extra_pages[k] == v && a0.extra_ppn(k) == q);
            }
        }
    }
}

/// An area whose last page mapped in order was taken into the pages mapped out of
/// order has the pages it had, on their frames.
pub proof fn lemma_holds_demoted(a0: AreaView, a1: AreaView)
    requires
        a0.wf(),
        a0.mapped > 0,
        same_area(a1, a0),
        a1.mapped == a0.mapped - 1,
        a1.frames == a0.frames.subrange(0, a1.frames.len() as int),
        a1.map_type == MapType::Framed ==> a1.frames.len() == a1.mapped,
        a1.extra_pages == a0.extra_pages.push((a0.start + a0.mapped - 1) as u64),
        a1.extra_ppn(a1.extra_pages.len() - 1) == a0.ppn(a0.mapped - 1),
        forall|k: int| 0 <= k < a0.extra_pages.len() ==> a1.extra_ppn(k) == a0.extra_ppn(k),
    ensures
        forall|v: u64| #[trigger] a1.maps(v) == a0.maps(v),
        forall|v: u64, q: u64| #[trigger] a1.holds(v, q) == a0.holds(v, q),
{
    let last = a1.extra_pages.len() - 1;
    let top = (a0.start + a0.mapped - 1) as u64;
    assert forall|v: u64| #[trigger] a1.maps(v) == a0.maps(v) by {
        if a0.extra_pages.contains(v) {
            let k = choose|k: int| 0 <= k < a0.extra_pages.len() && a0.extra_pages[k] == v;
            assert(a1.extra_pages[k] == v);
        }
        if v == top {
            assert(a1.extra_pages[last] == v);
        }
        if a1.extra_pages.contains(v) {
            let k = choose|k: int| 0 <= k < a1.extra_pages.len() && a1.extra_pages[k] == v;
            if k < last {
                assert(a0.extra_pages[k] == v);
            }
        }
    }
    assert forall|v: u64, q: u64| #[trigger] a1.holds(v, q) == a0.holds(v, q) by {
        if a1.start <= v < a1.start + a1.mapped {
            if a0.map_type == MapType::Framed {
                assert(a1.frames[v - a1.start] == a0.frames[v - a0.start]);
            }
            assert(a1.ppn(v - a1.start) == a0.ppn(v - a0.start));
        }
        if a0.holds(v, q) {
            if a0.start <= v < a0.start + a0.mapped && a0.ppn(v - a0.start) == q {
                if v == top {
                    assert(a1.extra_pages[last] == v && a1.extra_ppn(last) == q);
                }
            } else {
                let k = choose|k: int|
                    0 <= k < a0.extra_pages.len() && #[trigger] a0.extra_pages[k] == v
                        && a0.extra_ppn(k) == q;
                assert(a1.extra_pages[k] == v && a1.extra_ppn(k) == q);
            }
        }
        if a1.holds(v, q) && !(a1.start <= v < a1.start + a1.mapped && a1.ppn(v - a1.start) == q) {
            let k = choose|k: int|
                0 <= k < a1.extra_pages.len() && #[trigger] a1.extra_pages[k] == v && a1.extra_ppn(k)
                    == q;
            if k < last {
                assert(a0.extra_pages[k] == v && a0.extra_ppn(k) == q);
            }
        }
    }
}

/// An area that lost the `k`-th of its pages mapped out of order has the other pages
/// it had, on their frames, and that page no more.
pub proof fn lemma_holds_removed(a0: AreaView, a1: AreaView, k: int)
    requires
        0 <= k < a0.extra_pages.len(),
        a0.wf(),
        same_area(a1, a0),
        a1.mapped == a0.mapped,
        a1.frames == a0.frames,
        a1.extra_pages == a0.extra_pages.remove(k),
        a1.extra_frames == if a0.map_type == MapType::Framed {
            a0.extra_frames.remove(k)
        } else {
            a0.extra_frames
        },
        !(a0.start <= a0.extra_pages[k] < a0.start + a0.mapped),
        forall|i: int, j: int|
            0 <= i < j < a0.extra_pages.len() ==> #[trigger] a0.extra_pages[i]
                != #[trigger] a0.extra_pages[j],
    ensures
        forall|v: u64| #[trigger] a1.maps(v) == (a0.maps(v) && v != a0.extra_pages[k]),
        forall|v: u64, q: u64|
            #[trigger] a1.holds(v, q) == (a0.holds(v, q) && v != a0.extra_pages[k]),
        a0.holds(a0.extra_pages[k], a0.extra_ppn(k)),
{
    let vpn = a0.extra_pages[k];
    assert forall|j: int| 0 <= j < a1.extra_pages.len() implies a1.extra_pages[j]
        == a0.extra_pages[if j < k {
        j
    } else {
        j + 1
    }] && a1.extra_ppn(j) == a0.extra_ppn(
        if j < k {
            j
        } else {
            j + 1
        },
    ) by {}
    assert forall|v: u64| #[trigger] a1.maps(v) == (a0.maps(v) && v != vpn) by {
        if a0.extra_pages.contains(v) && v != vpn {
            let w = choose|w: int| 0 <= w < a0.extra_pages.len() && a0.extra_pages[w] == v;
            let j = if w < k {
                w
            } else {
                w - 1
            };
            assert(a1.extra_pages[j] == v);
        }
        if a1.extra_pages.contains(v) {
            let j = choose|j: int| 0 <= j < a1.extra_pages.len() && a1.extra_pages[j] == v;
            let w = if j < k {
                j
            } else {
                j + 1
            };
            assert(a0.extra_pages[w] == v);
        }
    }
    assert forall|v: u64, q: u64| #[trigger] a1.holds(v, q) == (a0.holds(v, q) && v != vpn) by {
        assert(a1.ppn(v - a1.start) == a0.ppn(v - a0.start));
        if a0.holds(v, q) && v != vpn && !(a0.start <= v < a0.start + a0.mapped && a0.ppn(
            v - a0.start,
        ) == q) {
            let w = choose|w: int|
                0 <= w < a0.extra_pages.len() && #[trigger] a0.extra_pages[w] == v && a0.extra_ppn(w)
                    == q;
            let j = if w < k {
                w
            } else {
                w - 1
            };
            assert(a1.extra_pages[j] == v && a1.extra_ppn(j) == q);
        }
        if a1.holds(v, q) && !(a1.start <= v < a1.start + a1.mapped && a1.ppn(v - a1.start) == q) {
            let j = choose|j: int|
                0 <= j < a1.extra_pages.len() && #[trigger] a1.extra_pages[j] == v && a1.extra_ppn(j)
                    == q;
            let w = if j < k {
                j
            } else {
                j + 1
            };
            assert(a0.extra_pages[w] == v && a0.extra_ppn(w) == q);
        }
    }
    assert(a0.extra_pages[k] == vpn && a0.extra_ppn(k) == a0.extra_ppn(k));
}

} // verus!
