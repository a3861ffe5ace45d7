//! Address spaces: a page table and the areas it maps.

use vstd::prelude::*;
use crate::address::{PhysPageNum, VirtAddr, VirtPageNum};
use crate::mm::map_area::{
    area_frames_ok, area_in_table, area_ok, area_release_step, area_step, data_copied,
    lemma_live_has, lemma_same_frames, page_piece, same_area, AreaView, MapArea, MapPermission,
    MapType, TRAMPOLINE_VPN,
};
use crate::mm::page_table::{
    frames_ok, leaf, lemma_owned_has, lemma_table_kept, mapping, missing_tables, pte_bits,
    MemError, PTEFlags, PageTable, PageTableEntry, TableRole,
};
use crate::mm::phys_memory::{with_bytes, zero_frame, FramePool};
use crate::elf::{elf_image_of, parse_elf, ElfError, ElfImage, ImageView, ProgramHeaderInfo};
use crate::mm::map_area::{MAP_R, MAP_U, MAP_W, MAP_X, TRAP_CONTEXT_VPN};

verus! {

/// The plain contents of an address space.
pub struct SpaceView {
    /// Page number of the root table.
    pub root: u64,
    /// The frames of the page table.
    pub owned: Seq<u64>,
    /// The areas, in the order in which they were added.
    pub areas: Seq<AreaView>,
    /// The frame of the trampoline page.
    pub trampoline: u64,
}

/// Whether some area has page `v`.
pub open spec fn in_areas(areas: Seq<AreaView>, v: u64) -> bool {
    exists|a: int| 0 <= a < areas.len() && (#[trigger] areas[a]).has(v)
}

/// No page belongs to two areas.
pub open spec fn areas_disjoint(areas: Seq<AreaView>) -> bool {
    forall|a: int, b: int|
        0 <= a < b < areas.len() ==> (#[trigger] areas[a]).end <= (#[trigger] areas[b]).start
            || areas[b].end <= areas[a].start
}

/// Whether frame `q` is the frame of a page of some area.
pub open spec fn is_data_frame(areas: Seq<AreaView>, q: u64) -> bool {
    exists|a: int, i: int|
        0 <= a < areas.len() && 0 <= i < areas[a].frames.len() && #[trigger] areas[a].frames[i] == q
}

impl SpaceView {
    /// Whether the address space owns frame `q`, as a table or as the frame of a page.
    pub open spec fn owns(self, q: u64) -> bool {
        self.owned.contains(q) || is_data_frame(self.areas, q)
    }
}

/// The areas are all mapped, page by page as they say, by the table below the root; no
/// page belongs to two areas; `home` tells for each frame of a page which page it is;
/// and the table maps nothing but the areas and the trampoline.
pub open spec fn space_ok(s: SpaceView, pool: FramePool, home: spec_fn(u64) -> u64) -> bool {
    &&& forall|a: int|
        0 <= a < s.areas.len() ==> area_ok(#[trigger] s.areas[a], pool, s.root, s.owned)
            && s.areas[a].complete()
    &&& areas_disjoint(s.areas)
    &&& forall|a: int, i: int|
        0 <= a < s.areas.len() && 0 <= i < s.areas[a].frames.len() ==> home(
            #[trigger] s.areas[a].frames[i],
        ) == s.areas[a].start + i
    &&& forall|v: u64|
        v < 0x800_0000 && (#[trigger] mapping(pool.memory, s.root, v)) is Some ==> v
            == TRAMPOLINE_VPN || in_areas(s.areas, v)
    &&& mapping(pool.memory, s.root, TRAMPOLINE_VPN) == Some(pte_bits(s.trampoline, 0x0b))
}

/// What an operation on an address space may do to the pool: frames that `mine` does
/// not claim keep their standing, and their bytes if they are handed out.
#[verifier::opaque]
pub open spec fn untouched(pool0: FramePool, pool1: FramePool, mine: spec_fn(u64) -> bool) -> bool {
    &&& pool1.memory.base() == pool0.memory.base()
    &&& pool1.memory.frames().len() == pool0.memory.frames().len()
    &&& forall|q: u64| !mine(q) ==> #[trigger] pool1.is_live(q) == pool0.is_live(q)
    &&& forall|q: u64| !mine(q) && pool0.is_live(q) ==> #[trigger] pool1.frame(q) == pool0.frame(q)
}

/// The bytes that a new area holds: `data` at the start of its pages, zero behind.
pub open spec fn area_loaded(a: AreaView, pool: FramePool, data: Seq<u8>) -> bool {
    forall|i: int|
        0 <= i < a.frames.len() ==> pool.frame(#[trigger] a.frames[i]) == with_bytes(
            zero_frame(),
            0,
            page_piece(data, i),
        )
}

/// The frames of the pages of the areas hold in `pool1` what they held in `pool0`.
pub open spec fn data_kept(areas: Seq<AreaView>, pool0: FramePool, pool1: FramePool) -> bool {
    forall|a: int, i: int|
        0 <= a < areas.len() && 0 <= i < areas[a].frames.len() ==> pool1.frame(
            #[trigger] areas[a].frames[i],
        ) == pool0.frame(areas[a].frames[i])
}

/// No area has a page from `start` up to, not including, `end`.
pub open spec fn range_free(areas: Seq<AreaView>, start: u64, end: u64) -> bool {
    forall|a: int|
        0 <= a < areas.len() ==> (#[trigger] areas[a]).end <= start || end <= areas[a].start
}

/// `home` extended by the frames of area `a`.
pub open spec fn home_with(home: spec_fn(u64) -> u64, a: AreaView) -> spec_fn(u64) -> u64 {
    |q: u64|
        if a.frames.contains(q) {
            (a.start + a.frames.index_of(q)) as u64
        } else {
            home(q)
        }
}

/// An address space: a page table and the areas it maps.
pub struct MemorySet {
    page_table: PageTable,
    areas: Vec<MapArea>,
    trampoline: PhysPageNum,
    home: Ghost<spec_fn(u64) -> u64>,
}

impl View for MemorySet {
    type V = SpaceView;

    closed spec fn view(&self) -> SpaceView {
        SpaceView {
            root: self.page_table.root(),
            owned: self.page_table.owned(),
            areas: Seq::new(self.areas.len() as nat, |a: int| self.areas[a]@),
            trampoline: self.trampoline.0,
        }
    }
}

impl MemorySet {
    /// The page table of the address space.
    pub closed spec fn table(&self) -> PageTable {
        self.page_table
    }

    /// For each frame of a page, the page it is the frame of.
    pub closed spec fn home(&self) -> spec_fn(u64) -> u64 {
        self.home@
    }

    /// The address space is consistent in itself and with the pool.
    pub open spec fn wf(&self, pool: FramePool) -> bool {
        &&& self.table().wf(pool)
        &&& self.table().root() == self@.root
        &&& self.table().owned() == self@.owned
        &&& space_ok(self@, pool, self.home())
    }

    /// The valid entry that maps page `vpn`, if there is one.
    pub open spec fn mapping(&self, pool: FramePool, vpn: u64) -> Option<u64> {
        mapping(pool.memory, self@.root, vpn)
    }

    /// An address space with no area, in which only the trampoline page is mapped: to
    /// the frame `trampoline`, readable and executable. Takes three frames; fails, and
    /// changes nothing, when the pool has fewer.
    pub fn new_bare(pool: &mut FramePool, trampoline: PhysPageNum) -> (r: Result<Self, MemError>)
        requires
            old(pool).wf(),
        ensures
            final(pool).wf(),
            r is Err <==> old(pool).free_count() < 3,
            r is Err ==> final(pool).same_as(*old(pool)),
            r matches Ok(space) ==> {
                &&& space.wf(*final(pool))
                &&& space@.areas.len() == 0
                &&& space@.trampoline == trampoline.0
                &&& space@.owned.len() == 3
                &&& final(pool).free_count() == old(pool).free_count() - 3
                &&& forall|q: u64| space@.owns(q) ==> !old(pool).is_live(q)
                &&& untouched(*old(pool), *final(pool), |q: u64| space@.owns(q))
            },
    {
        proof {
            reveal(untouched);
        }
        let ghost pool0 = *pool;
        if !pool.can_allocate(3) {
            return Err(MemError::OutOfFrames);
        }
        let made = PageTable::new(pool);
        let mut page_table = made.unwrap();
        let ghost pool1 = *pool;
        let ghost table1 = page_table;
        let ghost owned1 = page_table.owned();
        let flags = PTEFlags { bits: 0x0a };
        let mapped = page_table.map(pool, VirtPageNum(TRAMPOLINE_VPN), trampoline, flags);
        assert(mapped is Ok);
        assert(0x0au8 | 1 == 0x0b) by (bit_vector);
        let space = MemorySet {
            page_table,
            areas: Vec::new(),
            trampoline,
            home: Ghost(|q: u64| 0u64),
        };
        proof {
            let owned2 = space@.owned;
            assert(space@.areas =~= Seq::<AreaView>::empty());
            assert forall|v: u64|
                v < 0x800_0000 && (#[trigger] mapping(pool.memory, space@.root, v))
                    is Some implies v == TRAMPOLINE_VPN by {
                if v != TRAMPOLINE_VPN {
                    assert(space.table().mapping(*pool, v) == table1.mapping(pool1, v));
                }
            }
            crate::mm::page_table::lemma_table_step_trans(
                Seq::empty(),
                pool0,
                owned1,
                pool1,
                owned2,
                *pool,
            );
            assert forall|q: u64| space@.owns(q) implies !pool0.is_live(q) by {
                let i = choose|i: int| 0 <= i < owned2.len() && owned2[i] == q;
                assert(!pool0.is_live(owned2[i]));
            }
        }
        Ok(space)
    }

    /// The value for the address-translation register that selects this address space.
    pub fn token(&self) -> (r: u64)
        ensures
            r == (8u64 << 60) | self@.root,
    {
        self.page_table.token()
    }

    /// The third-level entry for page `vpn`, valid or not; `None` if a table on the way
    /// is missing.
    pub fn translate(&self, pool: &FramePool, vpn: VirtPageNum) -> (r: Option<PageTableEntry>)
        requires
            pool.memory.wf(),
        ensures
            r == match leaf(pool.memory, self@.root, vpn.0) {
                Some(e) => Some(PageTableEntry { bits: e }),
                None => None,
            },
    {
        self.page_table.translate(&pool.memory, vpn)
    }

    /// Maps the area, fills it with `data` if given, and adds it to the address space.
    /// When the pool runs out of frames, the pages mapped so far are unmapped again,
    /// and the address space keeps the areas it had.
    fn push(&mut self, pool: &mut FramePool, map_area: MapArea, data: Option<&[u8]>) -> (r:
        Result<(), MemError>)
        requires
            old(self).wf(*old(pool)),
            map_area@.wf(),
            map_area@.mapped == 0,
            map_area@.extra_pages.len() == 0,
            range_free(old(self)@.areas, map_area@.start, map_area@.end),
            data matches Some(d) ==> map_area@.map_type == MapType::Framed && d@.len()
                <= map_area@.len() * 4096,
        ensures
            final(self).wf(*final(pool)),
            final(self)@.root == old(self)@.root,
            final(self)@.trampoline == old(self)@.trampoline,
            pushed(
                old(self)@,
                *old(pool),
                final(self)@,
                *final(pool),
                map_area@,
                match data {
                    Some(d) => d@,
                    None => Seq::empty(),
                },
                r is Ok,
            ),
            old(pool).free_count() >= 3 * map_area@.len() ==> r is Ok,
    {
        proof {
            reveal(untouched);
        }
        let ghost pool0 = *pool;
        let ghost space0 = self@;
        let ghost home0 = self.home();
        let ghost table0 = self.page_table;
        let ghost bytes = match data {
            Some(d) => d@,
            None => Seq::<u8>::empty(),
        };
        let mut map_area = map_area;
        let ghost area0 = map_area@;
        proof {
            assert(area0.frames =~= Seq::<u64>::empty());
            assert forall|v: u64| area0.start <= v < area0.end implies self.page_table.mapping(
                *pool,
                v,
            ) is None by {
                if mapping(pool0.memory, space0.root, v) is Some {
                    let a = choose|a: int| 0 <= a < space0.areas.len() && (#[trigger] space0.areas[a]).has(v);
                    assert(space0.areas[a].end <= area0.start || area0.end <= space0.areas[a].start);
                }
            }
        }
        let done = map_area.map(&mut self.page_table, pool);
        let ghost pool1 = *pool;
        let ghost area1 = map_area@;
        let ghost owned1 = self.page_table.owned();
        proof {
            assert(area1.frames.subrange(0, area1.frames.len() as int) =~= area1.frames);
        }
        match done {
            Err(e) => {
                map_area.unmap(&mut self.page_table, pool);
                proof {
                    lemma_push_undone(
                        space0,
                        pool0,
                        home0,
                        table0,
                        area0,
                        area1,
                        self.page_table,
                        pool1,
                        *pool,
                    );
                }
                return Err(e);
            },
            Ok(()) => {},
        }
        match data {
            Some(d) => {
                map_area.copy_data(&self.page_table, pool, d);
            },
            None => {
                proof {
                    assert forall|i: int| 0 <= i < area1.frames.len() implies pool.frame(
                        #[trigger] area1.frames[i],
                    ) == with_bytes(zero_frame(), 0, page_piece(bytes, i)) by {
                        assert(page_piece(bytes, i) =~= Seq::<u8>::empty());
                        assert(with_bytes(zero_frame(), 0, Seq::<u8>::empty()) =~= zero_frame());
                    }
                }
            },
        }
        self.home = Ghost(home_with(home0, area1));
        self.areas.push(map_area);
        proof {
            assert(self@.areas =~= space0.areas.push(area1));
            lemma_push_done(
                space0,
                pool0,
                home0,
                table0,
                area0,
                area1,
                self.page_table,
                pool1,
                *pool,
                bytes,
            );
        }
        Ok(())
    }

    /// Adds a framed area for the addresses from `start_va` up to, not including,
    /// `end_va`, with the permissions `permission`. No page of it may belong to an area
    /// already.
    pub fn insert_framed_area(
        &mut self,
        pool: &mut FramePool,
        start_va: VirtAddr,
        end_va: VirtAddr,
        permission: MapPermission,
    ) -> (r: Result<(), MemError>)
        requires
            old(self).wf(*old(pool)),
            framed_area(start_va, end_va, permission).wf(),
            range_free(
                old(self)@.areas,
                framed_area(start_va, end_va, permission).start,
                framed_area(start_va, end_va, permission).end,
            ),
        ensures
            final(self).wf(*final(pool)),
            final(self)@.root == old(self)@.root,
            final(self)@.trampoline == old(self)@.trampoline,
            pushed(
                old(self)@,
                *old(pool),
                final(self)@,
                *final(pool),
                framed_area(start_va, end_va, permission),
                Seq::empty(),
                r is Ok,
            ),
            old(pool).free_count() >= 3 * framed_area(start_va, end_va, permission).len() ==> r
                is Ok,
    {
        proof {
            reveal(untouched);
        }
        self.push(pool, MapArea::new(start_va, end_va, MapType::Framed, permission), None)
    }

    /// Removes the first area that starts at page `start_vpn`, if there is one: unmaps
    /// its pages and hands its frames back to the pool.
    pub fn remove_area_with_start_vpn(&mut self, pool: &mut FramePool, start_vpn: VirtPageNum)
        requires
            old(self).wf(*old(pool)),
        ensures
            final(self).wf(*final(pool)),
            final(self)@.root == old(self)@.root,
            final(self)@.trampoline == old(self)@.trampoline,
            final(self)@.owned == old(self)@.owned,
            match first_area_at(old(self)@.areas, start_vpn.0) {
                Some(idx) => removed(old(self)@, *old(pool), final(self)@, *final(pool), idx),
                None => final(self)@.areas == old(self)@.areas && final(pool).same_as(*old(pool)),
            },
    {
        proof {
            reveal(untouched);
        }
        let mut idx: usize = 0;
        while idx < self.areas.len() && self.areas[idx].start_vpn().0 != start_vpn.0
            invariant
                idx <= self.areas.len(),
                forall|b: int| 0 <= b < idx ==> (#[trigger] self@.areas[b]).start != start_vpn.0,
            decreases self.areas.len() - idx,
        {
            assert(self@.areas[idx as int] == self.areas[idx as int]@);
            idx = idx + 1;
        }
        if idx < self.areas.len() && self.areas[idx].start_vpn().0 == start_vpn.0 {
            proof {
                assert(self@.areas[idx as int] == self.areas[idx as int]@);
                lemma_first_area(self@.areas, start_vpn.0, idx as int);
            }
            self.remove_area(pool, idx);
        } else {
            proof {
                lemma_no_area(self@.areas, start_vpn.0);
            }
        }
    }

    /// Removes the `idx`-th area: unmaps its pages and hands its frames back to the
    /// pool.
    fn remove_area(&mut self, pool: &mut FramePool, idx: usize)
        requires
            old(self).wf(*old(pool)),
            idx < old(self)@.areas.len(),
        ensures
            final(self).wf(*final(pool)),
            final(self)@.root == old(self)@.root,
            final(self)@.trampoline == old(self)@.trampoline,
            final(self)@.owned == old(self)@.owned,
            final(self).home() == old(self).home(),
            removed(old(self)@, *old(pool), final(self)@, *final(pool), idx as int),
    {
        proof {
            reveal(untouched);
        }
        let ghost pool0 = *pool;
        let ghost space0 = self@;
        let ghost table0 = self.page_table;
        let mut area = self.areas.remove(idx);
        let ghost area0 = area@;
        proof {
            assert(space0.areas[idx as int] == area0);
            assert(self@.areas =~= space0.areas.remove(idx as int));
            assert(area_ok(space0.areas[idx as int], pool0, space0.root, space0.owned));
        }
        area.unmap(&mut self.page_table, pool);
        proof {
            lemma_area_removed(
                space0,
                pool0,
                self.home(),
                table0,
                idx as int,
                self.page_table,
                *pool,
            );
        }
    }

    /// Removes every area: unmaps all pages and hands their frames back to the pool.
    /// The page table and the mapping of the trampoline stay.
    #[verifier::loop_isolation(false)]
    pub fn release_areas(&mut self, pool: &mut FramePool)
        requires
            old(self).wf(*old(pool)),
        ensures
            final(self).wf(*final(pool)),
            final(self)@.root == old(self)@.root,
            final(self)@.trampoline == old(self)@.trampoline,
            final(self)@.owned == old(self)@.owned,
            final(self)@.areas.len() == 0,
            forall|q: u64| is_data_frame(old(self)@.areas, q) ==> !final(pool).is_live(q),
            untouched(*old(pool), *final(pool), |q: u64| old(self)@.owns(q)),
            forall|q: u64| old(self)@.owned.contains(q) ==> final(pool).is_live(q),
    {
        proof {
            reveal(untouched);
        }
        let ghost pool0 = *pool;
        let ghost space0 = self@;
        while self.areas.len() > 0
            invariant
                self.wf(*pool),
                self@.root == space0.root,
                self@.trampoline == space0.trampoline,
                self@.owned == space0.owned,
                self@.areas.len() <= space0.areas.len(),
                self@.areas == space0.areas.subrange(0, self@.areas.len() as int),
                space0 == old(self)@,
                pool0 == *old(pool),
                forall|a: int, i: int|
                    self@.areas.len() <= a < space0.areas.len() && 0 <= i
                        < space0.areas[a].frames.len() ==> !pool.is_live(
                        #[trigger] space0.areas[a].frames[i],
                    ),
                untouched(pool0, *pool, |q: u64| space0.owns(q)),
            decreases self.areas.len(),
        {
            let ghost pool1 = *pool;
            let ghost space1 = self@;
            let idx: usize = self.areas.len() - 1;
            self.remove_area(pool, idx);
            proof {
                assert(self@.areas =~= space0.areas.subrange(0, idx as int));
                assert(space1.areas[idx as int] == space0.areas[idx as int]);
                assert forall|a: int, i: int|
                    idx <= a < space0.areas.len() && 0 <= i
                        < space0.areas[a].frames.len() implies !pool.is_live(
                    #[trigger] space0.areas[a].frames[i],
                ) by {
                    let q = space0.areas[a].frames[i];
                    if a > idx {
                        assert(!pool1.is_live(q));
                        if space1.owns(q) {
                            lemma_owned_live(*self, space1, pool1, q);
                        }
                    }
                }
                assert forall|q: u64| !space0.owns(q) implies (#[trigger] pool.is_live(q))
                    == pool0.is_live(q) && (pool0.is_live(q) ==> pool.frame(q) == pool0.frame(q)) by {
                    if is_data_frame(space1.areas, q) {
                        let (a, i) = choose|a: int, i: int|
                            0 <= a < space1.areas.len() && 0 <= i < space1.areas[a].frames.len()
                                && #[trigger] space1.areas[a].frames[i] == q;
                        assert(space0.areas[a].frames[i] == q);
                    }
                    assert(!space1.owns(q));
                    assert(pool.is_live(q) == pool1.is_live(q));
                    if pool0.is_live(q) {
                        assert(pool1.frame(q) == pool0.frame(q));
                        assert(pool.frame(q) == pool1.frame(q));
                    }
                }
            }
        }
        proof {
            assert forall|q: u64| is_data_frame(space0.areas, q) implies !pool.is_live(q) by {
                let (a, i) = choose|a: int, i: int|
                    0 <= a < space0.areas.len() && 0 <= i < space0.areas[a].frames.len()
                        && #[trigger] space0.areas[a].frames[i] == q;
                assert(!pool.is_live(space0.areas[a].frames[i]));
            }
            assert forall|q: u64| space0.owned.contains(q) implies pool.is_live(q) by {
                let i = choose|i: int| 0 <= i < space0.owned.len() && space0.owned[i] == q;
                assert(pool.is_live(self@.owned[i]));
            }
        }
    }

    /// Gives every frame of the address space back to the pool: the frames of the
    /// pages and the frames of the page table.
    pub fn destroy(self, pool: &mut FramePool)
        requires
            self.wf(*old(pool)),
        ensures
            final(pool).wf(),
            forall|q: u64| self@.owns(q) ==> !final(pool).is_live(q),
            untouched(*old(pool), *final(pool), |q: u64| self@.owns(q)),
    {
        proof {
            reveal(untouched);
        }
        let ghost space0 = self@;
        let ghost pool0 = *pool;
        let mut space = self;
        space.release_areas(pool);
        let ghost pool1 = *pool;
        let MemorySet { page_table, areas, trampoline, home } = space;
        page_table.release(pool);
        proof {
            assert forall|q: u64| !space0.owns(q) implies (#[trigger] pool.is_live(q))
                == pool0.is_live(q) && (pool0.is_live(q) ==> pool.frame(q) == pool0.frame(q)) by {
                assert(pool1.is_live(q) == pool0.is_live(q));
                if pool0.is_live(q) {
                    assert(pool1.frame(q) == pool0.frame(q));
                }
            }
            assert forall|q: u64| space0.owns(q) implies !pool.is_live(q) by {
                if !space0.owned.contains(q) {
                    assert(!pool1.is_live(q));
                }
            }
        }
    }

    /// A copy of the address space `user_space`: the same areas, on frames of its own
    /// that hold the same bytes, and the trampoline. When the pool runs out of frames,
    /// every frame taken so far is handed back.
    #[verifier::loop_isolation(false)]
    #[verifier::rlimit(60)]
    pub fn from_existed_user(pool: &mut FramePool, user_space: &MemorySet) -> (r: Result<
        Self,
        MemError,
    >)
        requires
            user_space.wf(*old(pool)),
        ensures
            final(pool).wf(),
            user_space.wf(*final(pool)),
            data_kept(user_space@.areas, *old(pool), *final(pool)),
            match r {
                Ok(space) => {
                    &&& space.wf(*final(pool))
                    &&& space@.trampoline == user_space@.trampoline
                    &&& copied(user_space@.areas, space@.areas, *final(pool))
                    &&& forall|q: u64| space@.owns(q) ==> !old(pool).is_live(q)
                    &&& untouched(*old(pool), *final(pool), |q: u64| space@.owns(q))
                },
                Err(_) => untouched(*old(pool), *final(pool), |q: u64| false),
            },
            old(pool).free_count() >= 3 + 3 * total_pages(user_space@.areas) ==> r is Ok,
            r is Ok ==> final(pool).free_count() >= old(pool).free_count() - 3 - 3 * total_pages(
                user_space@.areas,
            ),
    {
        proof {
            reveal(untouched);
        }
        let ghost pool0 = *pool;
        let ghost parent = user_space@;
        let ghost enough = pool0.free_count() >= 3 + 3 * total_pages(parent.areas);
        proof {
            assert forall|q: u64| parent.owns(q) implies pool0.is_live(q) by {
                lemma_owned_live(*user_space, parent, pool0, q);
            }
            lemma_total_pages_prefix(parent.areas, 0);
        }
        let made = MemorySet::new_bare(pool, user_space.trampoline);
        let mut space = match made {
            Ok(space) => space,
            Err(e) => {
                proof {
                    lemma_same_frames(pool0, *pool);
                    lemma_memory_set_kept(*user_space, pool0, *pool, |q: u64| false);
                }
                return Err(e);
            },
        };
        proof {
            lemma_memory_set_kept(*user_space, pool0, *pool, |q: u64| space@.owns(q));
            assert(parent.areas.subrange(0, 0) =~= Seq::<AreaView>::empty());
        }
        let mut a: usize = 0;
        while a < user_space.areas.len()
            invariant
                a <= user_space.areas.len(),
                pool.wf(),
                space.wf(*pool),
                user_space.wf(*pool),
                space@.trampoline == parent.trampoline,
                copied(parent.areas.subrange(0, a as int), space@.areas, *pool),
                data_kept(parent.areas, pool0, *pool),
                forall|q: u64| space@.owns(q) ==> !pool0.is_live(q),
                untouched(pool0, *pool, |q: u64| space@.owns(q)),
                enough ==> pool.free_count() >= 3 * (total_pages(parent.areas) - total_pages(
                    parent.areas.subrange(0, a as int),
                )),
                pool.free_count() >= pool0.free_count() - 3 - 3 * total_pages(
                    parent.areas.subrange(0, a as int),
                ),
            decreases user_space.areas.len() - a,
        {
            let ghost pool1 = *pool;
            let ghost space1 = space@;
            let ghost prefix1 = parent.areas.subrange(0, a as int);
            let ghost prefix2 = parent.areas.subrange(0, a + 1);
            let src = &user_space.areas[a];
            proof {
                assert(parent.areas[a as int] == src@);
                assert(area_ok(parent.areas[a as int], pool1, parent.root, parent.owned)
                    && parent.areas[a as int].complete());
                assert forall|b: int| 0 <= b < space1.areas.len() implies (
                #[trigger] space1.areas[b]).end <= src@.start || src@.end
                    <= space1.areas[b].start by {
                    assert(same_area(space1.areas[b], prefix1[b]));
                    assert(parent.areas[b].end <= parent.areas[a as int].start
                        || parent.areas[a as int].end <= parent.areas[b].start);
                }
                lemma_total_pages_prefix(parent.areas, a + 1);
                assert(prefix2.drop_last() =~= prefix1);
            }
            let new_area = MapArea::from_another(src);
            let pushed_area = space.push(pool, new_area, None);
            let ghost pool2 = *pool;
            let ghost space2 = space@;
            proof {
                lemma_pushed_owns(
                    space1,
                    pool1,
                    space2,
                    pool2,
                    new_area@,
                    Seq::empty(),
                    pushed_area is Ok,
                );
                assert forall|q: u64| space2.owns(q) implies !pool0.is_live(q) by {
                    if !space1.owns(q) && pool0.is_live(q) {
                        assert(pool1.is_live(q) == pool0.is_live(q));
                    }
                }
                assert forall|q: u64| !space2.owns(q) implies (#[trigger] pool2.is_live(q))
                    == pool0.is_live(q) && (pool0.is_live(q) ==> pool2.frame(q) == pool0.frame(q)) by {
                    assert(pool1.is_live(q) == pool0.is_live(q));
                    assert(pool2.is_live(q) == pool1.is_live(q));
                    if pool0.is_live(q) {
                        assert(pool1.frame(q) == pool0.frame(q));
                        assert(pool2.frame(q) == pool1.frame(q));
                    }
                }
                lemma_memory_set_kept(*user_space, pool1, pool2, |q: u64| space2.owns(q));
            }
            match pushed_area {
                Err(e) => {
                    space.destroy(pool);
                    proof {
                        assert forall|q: u64|
                            (#[trigger] pool.is_live(q)) == pool0.is_live(q) && (pool0.is_live(q)
                                ==> pool.frame(q) == pool0.frame(q)) by {
                            if !space2.owns(q) {
                                assert(pool.is_live(q) == pool2.is_live(q));
                                if pool0.is_live(q) {
                                    assert(pool.frame(q) == pool2.frame(q));
                                }
                            }
                        }
                        lemma_memory_set_kept(*user_space, pool0, *pool, |q: u64| false);
                    }
                    return Err(e);
                },
                Ok(()) => {},
            }
            let ghost area2 = space2.areas.last();
            let idx: usize = space.areas.len() - 1;
            proof {
                assert(space2.areas[idx as int] == space.areas[idx as int]@);
                assert(area2 == space2.areas[idx as int]);
                assert(area_ok(area2, pool2, space2.root, space2.owned));
                assert(area2.frames.len() == src@.frames.len());
                assert forall|i: int| 0 <= i < src@.frames.len() implies !area2.frames.contains(
                    #[trigger] src@.frames[i],
                ) && pool2.is_live(src@.frames[i]) by {
                    assert(parent.areas[a as int].frames[i] == src@.frames[i]);
                    assert(is_data_frame(parent.areas, src@.frames[i]));
                    assert(parent.owns(src@.frames[i]));
                    lemma_owned_live(*user_space, parent, pool2, src@.frames[i]);
                    if area2.frames.contains(src@.frames[i]) {
                        let j = choose|j: int|
                            0 <= j < area2.frames.len() && area2.frames[j] == src@.frames[i];
                        assert(space2.areas[idx as int].frames[j] == area2.frames[j]);
                        assert(is_data_frame(space2.areas, area2.frames[j]));
                    }
                }
            }
            space.areas[idx].copy_frames_from(src, pool);
            proof {
                assert(space@ == space2);
                lemma_frames_copied(
                    space,
                    *user_space,
                    pool0,
                    pool1,
                    pool2,
                    *pool,
                    space1,
                    a as int,
                );
            }
            a = a + 1;
        }
        proof {
            assert(parent.areas.subrange(0, a as int) =~= parent.areas);
        }
        Ok(space)
    }

    /// An address space with the trampoline and the areas that `specs` describes, in
    /// that order, each framed area filled with its part of `data`. Fails on areas that
    /// are out of bounds or overlap, and when the pool runs out of frames; every frame
    /// taken is then handed back.
    #[verifier::loop_isolation(false)]
    #[verifier::rlimit(60)]
    pub fn build(
        pool: &mut FramePool,
        trampoline: PhysPageNum,
        specs: &Vec<AreaSpec>,
        data: &[u8],
    ) -> (r: Result<Self, BuildError>)
        requires
            old(pool).wf(),
        ensures
            final(pool).wf(),
            r == Err::<Self, BuildError>(BuildError::BadLayout) <==> !specs_ok(
                specs@,
                data@.len() as int,
            ),
            match r {
                Ok(space) => {
                    &&& space.wf(*final(pool))
                    &&& space@.trampoline == trampoline.0
                    &&& built(specs@, data@, space@.areas, *final(pool))
                    &&& forall|q: u64| space@.owns(q) ==> !old(pool).is_live(q)
                    &&& untouched(*old(pool), *final(pool), |q: u64| space@.owns(q))
                },
                Err(_) => untouched(*old(pool), *final(pool), |q: u64| false),
            },
            specs_ok(specs@, data@.len() as int) && old(pool).free_count() >= 3 + 3 * spec_pages(
                specs@,
            ) ==> r is Ok,
            r is Ok ==> final(pool).free_count() >= old(pool).free_count() - 3 - 3 * spec_pages(
                specs@,
            ),
    {
        proof {
            reveal(untouched);
        }
        let ghost pool0 = *pool;
        let ghost enough = pool0.free_count() >= 3 + 3 * spec_pages(specs@);
        if !check_specs(specs, data.len()) {
            proof {
                lemma_same_frames(pool0, *pool);
            }
            return Err(BuildError::BadLayout);
        }
        proof {
            lemma_spec_pages_prefix(specs@, 0);
        }
        let made = MemorySet::new_bare(pool, trampoline);
        let mut space = match made {
            Ok(space) => space,
            Err(e) => {
                proof {
                    lemma_same_frames(pool0, *pool);
                }
                return Err(BuildError::OutOfFrames);
            },
        };
        proof {
            assert(specs@.subrange(0, 0) =~= Seq::<AreaSpec>::empty());
        }
        let mut k: usize = 0;
        while k < specs.len()
            invariant
                k <= specs.len(),
                pool.wf(),
                space.wf(*pool),
                space@.trampoline == trampoline.0,
                built(specs@.subrange(0, k as int), data@, space@.areas, *pool),
                forall|q: u64| space@.owns(q) ==> !pool0.is_live(q),
                untouched(pool0, *pool, |q: u64| space@.owns(q)),
                enough ==> pool.free_count() >= 3 * (spec_pages(specs@) - spec_pages(
                    specs@.subrange(0, k as int),
                )),
                pool.free_count() >= pool0.free_count() - 3 - 3 * spec_pages(
                    specs@.subrange(0, k as int),
                ),
            decreases specs.len() - k,
        {
            let ghost pool1 = *pool;
            let ghost space1 = space@;
            let ghost prefix1 = specs@.subrange(0, k as int);
            let ghost prefix2 = specs@.subrange(0, k + 1);
            let spec = specs[k];
            proof {
                assert(spec_ok(specs@[k as int], data@.len() as int));
                assert forall|b: int| 0 <= b < space1.areas.len() implies (
                #[trigger] space1.areas[b]).end <= spec.area().start || spec.area().end
                    <= space1.areas[b].start by {
                    assert(same_area(space1.areas[b], prefix1[b].area()));
                    assert(specs@[b].area().end <= specs@[k as int].area().start
                        || specs@[k as int].area().end <= specs@[b].area().start);
                }
                lemma_spec_pages_prefix(specs@, k + 1);
                assert(prefix2.drop_last() =~= prefix1);
            }
            let area = MapArea::new(spec.start_va, spec.end_va, spec.map_type, spec.permission);
            let pushed_area = match spec.map_type {
                MapType::Framed => {
                    let piece = vstd::slice::slice_subrange(
                        data,
                        spec.file_offset,
                        spec.file_offset + spec.file_size,
                    );
                    space.push(pool, area, Some(piece))
                },
                MapType::Identical => {
                    assert(data@.subrange(
                        spec.file_offset as int,
                        spec.file_offset + spec.file_size,
                    ) =~= Seq::<u8>::empty());
                    space.push(pool, area, None)
                },
            };
            let ghost pool2 = *pool;
            let ghost space2 = space@;
            proof {
                lemma_pushed_owns(
                    space1,
                    pool1,
                    space2,
                    pool2,
                    area@,
                    spec.bytes(data@),
                    pushed_area is Ok,
                );
                assert forall|q: u64| space2.owns(q) implies !pool0.is_live(q) by {
                    if !space1.owns(q) && pool0.is_live(q) {
                        assert(pool1.is_live(q) == pool0.is_live(q));
                    }
                }
                assert forall|q: u64| !space2.owns(q) implies (#[trigger] pool2.is_live(q))
                    == pool0.is_live(q) && (pool0.is_live(q) ==> pool2.frame(q) == pool0.frame(q)) by {
                    assert(pool1.is_live(q) == pool0.is_live(q));
                    assert(pool2.is_live(q) == pool1.is_live(q));
                    if pool0.is_live(q) {
                        assert(pool1.frame(q) == pool0.frame(q));
                        assert(pool2.frame(q) == pool1.frame(q));
                    }
                }
            }
            match pushed_area {
                Err(e) => {
                    space.destroy(pool);
                    proof {
                        assert forall|q: u64|
                            (#[trigger] pool.is_live(q)) == pool0.is_live(q) && (pool0.is_live(q)
                                ==> pool.frame(q) == pool0.frame(q)) by {
                            if !space2.owns(q) {
                                assert(pool.is_live(q) == pool2.is_live(q));
                                if pool0.is_live(q) {
                                    assert(pool.frame(q) == pool2.frame(q));
                                }
                            }
                        }
                    }
                    return Err(BuildError::OutOfFrames);
                },
                Ok(()) => {},
            }
            proof {
                lemma_built_step(specs@, data@, space1.areas, pool1, space2.areas, pool2, k as int);
            }
            k = k + 1;
        }
        proof {
            assert(specs@.subrange(0, k as int) =~= specs@);
        }
        Ok(space)
    }

    /// The address space of the kernel: the sections of the kernel image and the rest of
    /// physical memory, each page mapped to the frame with its own number, and the
    /// trampoline.
    pub fn new_kernel(pool: &mut FramePool, layout: &KernelLayout) -> (r: Result<Self, BuildError>)
        requires
            old(pool).wf(),
        ensures
            final(pool).wf(),
            r == Err::<Self, BuildError>(BuildError::BadLayout) <==> !specs_ok(layout.specs(), 0),
            match r {
                Ok(space) => {
                    &&& space.wf(*final(pool))
                    &&& space@.trampoline == layout.trampoline_ppn()
                    &&& built(layout.specs(), Seq::empty(), space@.areas, *final(pool))
                    &&& forall|q: u64| space@.owns(q) ==> !old(pool).is_live(q)
                    &&& untouched(*old(pool), *final(pool), |q: u64| space@.owns(q))
                },
                Err(_) => untouched(*old(pool), *final(pool), |q: u64| false),
            },
            specs_ok(layout.specs(), 0) && old(pool).free_count() >= 3 + 3 * spec_pages(
                layout.specs(),
            ) ==> r is Ok,
    {
        proof {
            reveal(untouched);
        }
        let specs = layout.area_specs();
        let trampoline = PhysPageNum((layout.strampoline & 0xff_ffff_ffff_ffff) / 4096);
        let nothing: Vec<u8> = Vec::new();
        assert(nothing@ =~= Seq::<u8>::empty());
        MemorySet::build(pool, trampoline, &specs, nothing.as_slice())
    }

    /// The address space of the program that the ELF image `elf_data` holds: a framed
    /// area for each segment to load, with the permissions of the segment and user
    /// access, filled with the bytes of the segment; after a guard page behind the last
    /// segment, the user stack; the trap context page just below the trampoline; and the
    /// trampoline. Returns the address space, the top of the user stack and the entry
    /// point of the program.
    pub fn from_elf(pool: &mut FramePool, elf_data: &[u8], trampoline: PhysPageNum) -> (r: Result<
        (Self, u64, u64),
        LoadError,
    >)
        requires
            old(pool).wf(),
        ensures
            final(pool).wf(),
            match elf_image_of(elf_data@) {
                Ok(image) => loaded(image, elf_data@, trampoline.0, *old(pool), r, *final(pool)),
                Err(e) => r == Err::<(Self, u64, u64), LoadError>(LoadError::Elf(e)) && untouched(
                    *old(pool),
                    *final(pool),
                    |q: u64| false,
                ),
            },
    {
        proof {
            reveal(untouched);
        }
        let ghost pool0 = *pool;
        match parse_elf(elf_data) {
            Ok(image) => MemorySet::from_image(pool, &image, elf_data, trampoline),
            Err(e) => {
                proof {
                    lemma_same_frames(pool0, *pool);
                }
                Err(LoadError::Elf(e))
            },
        }
    }

    /// The address space of the program `image`, whose bytes are in `elf_data`. See
    /// `from_elf`.
    pub fn from_image(
        pool: &mut FramePool,
        image: &ElfImage,
        elf_data: &[u8],
        trampoline: PhysPageNum,
    ) -> (r: Result<(Self, u64, u64), LoadError>)
        requires
            old(pool).wf(),
        ensures
            final(pool).wf(),
            loaded(image@, elf_data@, trampoline.0, *old(pool), r, *final(pool)),
    {
        proof {
            reveal(untouched);
        }
        let ghost pool0 = *pool;
        let (specs, user_sp) = match image_layout(image) {
            Some(layout) => layout,
            None => {
                proof {
                    lemma_same_frames(pool0, *pool);
                }
                return Err(LoadError::BadLayout);
            },
        };
        match MemorySet::build(pool, trampoline, &specs, elf_data) {
            Ok(space) => Ok((space, user_sp, image.entry_point)),
            Err(BuildError::BadLayout) => Err(LoadError::BadLayout),
            Err(BuildError::OutOfFrames) => Err(LoadError::OutOfFrames),
        }
    }

    /// The frame of page `vpn`, if a framed area with exactly the permissions
    /// `permission` has the page.
    pub fn data_frame(&self, vpn: VirtPageNum, permission: MapPermission) -> (r: Option<PhysPageNum>)
        ensures
            match r {
                Some(ppn) => exists|a: int|
                    0 <= a < self@.areas.len() && (#[trigger] self@.areas[a]).has(vpn.0)
                        && self@.areas[a].map_type == MapType::Framed && self@.areas[a].perm
                        == permission.bits && vpn.0 - self@.areas[a].start
                        < self@.areas[a].frames.len() && self@.areas[a].frames[vpn.0
                        - self@.areas[a].start] == ppn.0,
                None => forall|a: int|
                    0 <= a < self@.areas.len() ==> !((#[trigger] self@.areas[a]).has(vpn.0)
                        && self@.areas[a].map_type == MapType::Framed && self@.areas[a].perm
                        == permission.bits && vpn.0 - self@.areas[a].start
                        < self@.areas[a].frames.len()),
            },
    {
        let mut a: usize = 0;
        while a < self.areas.len()
            invariant
                a <= self.areas.len(),
                forall|b: int|
                    0 <= b < a ==> !((#[trigger] self@.areas[b]).has(vpn.0)
                        && self@.areas[b].map_type == MapType::Framed && self@.areas[b].perm
                        == permission.bits && vpn.0 - self@.areas[b].start
                        < self@.areas[b].frames.len()),
            decreases self.areas.len() - a,
        {
            let area = &self.areas[a];
            assert(self@.areas[a as int] == area@);
            if area.start_vpn().0 <= vpn.0 && vpn.0 < area.end_vpn().0 && area.map_type()
                == MapType::Framed && area.permission().bits == permission.bits {
                let i: u64 = vpn.0 - area.start_vpn().0;
                if i < area.frame_count() as u64 {
                    return Some(area.frame_at(i as usize));
                }
            }
            a = a + 1;
        }
        None
    }

    /// The frame of page `vpn`, if a framed area with at least the permissions `need`
    /// has the page.
    pub fn user_frame(&self, vpn: VirtPageNum, need: u8) -> (r: Option<PhysPageNum>)
        ensures
            r matches Some(ppn) ==> has_page(self@.areas, vpn.0, need, ppn.0),
            r is None ==> forall|q: u64| !has_page(self@.areas, vpn.0, need, q),
    {
        let mut found: Option<PhysPageNum> = None;
        let mut a: usize = 0;
        while a < self.areas.len() && found.is_none()
            invariant
                a <= self.areas.len(),
                found matches Some(ppn) ==> has_page(self@.areas, vpn.0, need, ppn.0),
                found is None ==> forall|b: int, q: u64|
                    0 <= b < a ==> !#[trigger] is_page_of(self@.areas, b, vpn.0, need, q),
            decreases self.areas.len() - a + (if found is None { 1int } else { 0int }),
        {
            let area = &self.areas[a];
            assert(self@.areas[a as int] == area@);
            if area.start_vpn().0 <= vpn.0 && vpn.0 < area.end_vpn().0 && area.map_type()
                == MapType::Framed && area.permission().bits & need == need {
                let i: u64 = vpn.0 - area.start_vpn().0;
                if i < area.frame_count() as u64 {
                    let ppn = area.frame_at(i as usize);
                    assert(is_page_of(self@.areas, a as int, vpn.0, need, ppn.0));
                    found = Some(ppn);
                }
            }
            if found.is_none() {
                a = a + 1;
            }
        }
        found
    }

    /// The frame of the trampoline page.
    pub fn trampoline_frame(&self) -> (r: PhysPageNum)
        ensures
            r.0 == self@.trampoline,
    {
        self.trampoline
    }

    /// Number of areas.
    pub fn area_count(&self) -> (r: usize)
        ensures
            r == self@.areas.len(),
    {
        self.areas.len()
    }

    /// Whether no area has a page from `start` up to, not including, `end`.
    pub fn is_free_range(&self, start: VirtPageNum, end: VirtPageNum) -> (r: bool)
        ensures
            r == forall|a: int|
                0 <= a < self@.areas.len() ==> (#[trigger] self@.areas[a]).end <= start.0 || end.0
                    <= self@.areas[a].start || end.0 <= start.0,
    {
        proof {
            reveal(untouched);
        }
        if end.0 <= start.0 {
            return true;
        }
        let mut a: usize = 0;
        while a < self.areas.len()
            invariant
                a <= self.areas.len(),
                start.0 < end.0,
                forall|b: int|
                    0 <= b < a ==> (#[trigger] self@.areas[b]).end <= start.0 || end.0
                        <= self@.areas[b].start,
            decreases self.areas.len() - a,
        {
            let area = &self.areas[a];
            assert(self@.areas[a as int] == area@);
            if !(area.end_vpn().0 <= start.0 || end.0 <= area.start_vpn().0) {
                return false;
            }
            a = a + 1;
        }
        true
    }
}

/// The framed area for the addresses from `start_va` up to, not including, `end_va`,
/// before any page of it is mapped.
pub open spec fn framed_area(start_va: VirtAddr, end_va: VirtAddr, permission: MapPermission) -> AreaView {
    AreaView {
        start: start_va.0 / 4096,
        end: crate::address::pages_up(end_va.0 as int) as u64,
        map_type: MapType::Framed,
        perm: permission.bits,
        mapped: 0,
        frames: Seq::empty(),
        extra_pages: Seq::empty(),
        extra_frames: Seq::empty(),
    }
}

/// What adding an area does. If it succeeds, the address space has one more area: the
/// given one, all mapped, on frames that were not handed out, which hold `data` and
/// zero bytes behind. If it fails, the address space has the areas it had. Either way
/// the former areas keep their frames and their bytes, and frames of others are not
/// touched: the pool has as many frames fewer as the page table has new tables and,
/// if the area was added, a framed area has pages.
pub open spec fn pushed(
    space0: SpaceView,
    pool0: FramePool,
    space1: SpaceView,
    pool1: FramePool,
    area: AreaView,
    data: Seq<u8>,
    ok: bool,
) -> bool {
    &&& if ok {
        &&& space1.areas.len() == space0.areas.len() + 1
        &&& space1.areas.subrange(0, space0.areas.len() as int) == space0.areas
        &&& same_area(space1.areas.last(), area)
        &&& space1.areas.last().complete()
        &&& area_loaded(space1.areas.last(), pool1, data)
        &&& forall|i: int|
            0 <= i < space1.areas.last().frames.len() ==> !pool0.is_live(
                #[trigger] space1.areas.last().frames[i],
            )
    } else {
        space1.areas == space0.areas
    }
    &&& space0.owned.len() <= space1.owned.len()
    &&& space1.owned.subrange(0, space0.owned.len() as int) == space0.owned
    &&& forall|i: int|
        space0.owned.len() <= i < space1.owned.len() ==> !pool0.is_live(#[trigger] space1.owned[i])
    &&& data_kept(space0.areas, pool0, pool1)
    &&& untouched(pool0, pool1, |q: u64| space1.owns(q))
    &&& pool1.free_count() >= pool0.free_count() - 3 * area.len()
    &&& pool1.free_count() == pool0.free_count() - (space1.owned.len() - space0.owned.len()) - (if ok {
        space1.areas.last().frames.len()
    } else {
        0
    })
    &&& forall|v: u64|
        v < 0x800_0000 && !(ok && area.start <= v < area.end) ==> mapping(
            pool1.memory,
            space1.root,
            v,
        ) == mapping(pool0.memory, space0.root, v)
}

/// An address space is not affected by what happens to frames it does not own.
pub proof fn lemma_space_kept(
    s: SpaceView,
    pool0: FramePool,
    pool1: FramePool,
    home: spec_fn(u64) -> u64,
)
    requires
        space_ok(s, pool0, home),
        forall|v: u64| mapping(pool1.memory, s.root, v) == mapping(pool0.memory, s.root, v),
        forall|q: u64| is_data_frame(s.areas, q) && pool0.is_live(q) ==> pool1.is_live(q),
    ensures
        space_ok(s, pool1, home),
{
    reveal(untouched);
    assert forall|a: int| 0 <= a < s.areas.len() implies area_ok(
        #[trigger] s.areas[a],
        pool1,
        s.root,
        s.owned,
    ) by {
        let area = s.areas[a];
        assert(area_ok(area, pool0, s.root, s.owned));
        assert forall|i: int| 0 <= i < area.mapped implies #[trigger] mapping(
            pool1.memory,
            s.root,
            (area.start + i) as u64,
        ) == Some(area.pte(i)) by {
            assert(mapping(pool0.memory, s.root, (area.start + i) as u64) == Some(area.pte(i)));
        }
        assert forall|i: int| 0 <= i < area.frames.len() implies pool1.is_live(
            #[trigger] area.frames[i],
        ) by {
            assert(s.areas[a].frames[i] == area.frames[i]);
            assert(is_data_frame(s.areas, area.frames[i]));
            assert(pool0.is_live(area.frames[i]));
        }
    }
    assert forall|v: u64|
        v < 0x800_0000 && (#[trigger] mapping(pool1.memory, s.root, v)) is Some implies v
        == TRAMPOLINE_VPN || in_areas(s.areas, v) by {
        assert(mapping(pool0.memory, s.root, v) is Some);
    }
}

/// A whole address space, page table included, is not affected by what happens to
/// frames it does not own.
pub proof fn lemma_memory_set_kept(
    space: MemorySet,
    pool0: FramePool,
    pool1: FramePool,
    mine: spec_fn(u64) -> bool,
)
    requires
        space.wf(pool0),
        pool1.wf(),
        untouched(pool0, pool1, mine),
        forall|q: u64| space@.owns(q) ==> !mine(q),
    ensures
        space.wf(pool1),
        forall|v: u64| space.mapping(pool1, v) == space.mapping(pool0, v),
        data_kept(space@.areas, pool0, pool1),
{
    reveal(untouched);
    let s = space@;
    assert(s.owned.contains(s.root)) by {
        assert(s.owned[0] == s.root);
    }
    assert forall|i: int| 0 <= i < s.owned.len() implies pool1.is_live(#[trigger] s.owned[i])
        && pool1.frame(s.owned[i]) == pool0.frame(s.owned[i]) by {
        assert(s.owned.contains(s.owned[i]));
        assert(s.owns(s.owned[i]));
        assert(pool0.is_live(s.owned[i]));
    }
    lemma_table_kept(pool0, pool1, s.root, s.owned, space.table().roles());
    assert forall|q: u64| is_data_frame(s.areas, q) && pool0.is_live(q) implies pool1.is_live(q) by {
        assert(s.owns(q));
    }
    lemma_space_kept(s, pool0, pool1, space.home());
    assert forall|a: int, i: int|
        0 <= a < s.areas.len() && 0 <= i < s.areas[a].frames.len() implies pool1.frame(
        #[trigger] s.areas[a].frames[i],
    ) == pool0.frame(s.areas[a].frames[i]) by {
        let q = s.areas[a].frames[i];
        assert(is_data_frame(s.areas, q));
        assert(s.owns(q));
        assert(area_ok(s.areas[a], pool0, s.root, s.owned));
        assert(pool0.is_live(q));
    }
}

/// After an area was mapped and filled, the address space with that area added is
/// consistent.
proof fn lemma_push_done(
    space0: SpaceView,
    pool0: FramePool,
    home0: spec_fn(u64) -> u64,
    table0: PageTable,
    area0: AreaView,
    area1: AreaView,
    table2: PageTable,
    pool1: FramePool,
    pool2: FramePool,
    data: Seq<u8>,
)
    requires
        table0.wf(pool0),
        table0.root() == space0.root,
        table0.owned() == space0.owned,
        space_ok(space0, pool0, home0),
        area0.wf(),
        area0.mapped == 0,
        area0.frames.len() == 0,
        range_free(space0.areas, area0.start, area0.end),
        // what mapping the area gave
        table2.wf(pool1),
        table2.root() == space0.root,
        same_area(area1, area0),
        area1.complete(),
        area_ok(area1, pool1, space0.root, table2.owned()),
        area_step(space0.owned, pool0, table2.owned(), pool1, area1.frames),
        pool1.free_count() >= pool0.free_count() - 3 * area1.mapped,
        forall|i: int|
            0 <= i < area1.frames.len() ==> pool1.frame(#[trigger] area1.frames[i]) == zero_frame(),
        forall|v: u64|
            v < 0x800_0000 && !(area0.start <= v < area0.end) ==> table2.mapping(pool1, v)
                == table0.mapping(pool0, v),
        // what filling the area gave
        table2.wf(pool2),
        pool2.allocator@ == pool1.allocator@,
        area_ok(area1, pool2, space0.root, table2.owned()),
        forall|v: u64| table2.mapping(pool2, v) == table2.mapping(pool1, v),
        data_copied(area1.frames, pool1, pool2, data) || (pool2 == pool1 && area_loaded(
            area1,
            pool2,
            data,
        )),
    ensures
        space_ok(
            SpaceView {
                root: space0.root,
                owned: table2.owned(),
                areas: space0.areas.push(area1),
                trampoline: space0.trampoline,
            },
            pool2,
            home_with(home0, area1),
        ),
        pushed(
            space0,
            pool0,
            SpaceView {
                root: space0.root,
                owned: table2.owned(),
                areas: space0.areas.push(area1),
                trampoline: space0.trampoline,
            },
            pool2,
            area0,
            data,
            true,
        ),
{
    reveal(untouched);
    let owned2 = table2.owned();
    let areas1 = space0.areas.push(area1);
    let space1 = SpaceView {
        root: space0.root,
        owned: owned2,
        areas: areas1,
        trampoline: space0.trampoline,
    };
    let home1 = home_with(home0, area1);
    let root = space0.root;
    let n = space0.areas.len() as int;
    assert(areas1.subrange(0, n) =~= space0.areas);
    assert(areas1.last() == area1);
    assert forall|q: u64| space0.owned.contains(q) implies owned2.contains(q) by {
        let i = choose|i: int| 0 <= i < space0.owned.len() && space0.owned[i] == q;
        assert(owned2.subrange(0, space0.owned.len() as int)[i] == owned2[i]);
    }
    // frames of the new area against frames of the former areas
    assert forall|a: int, i: int|
        0 <= a < n && 0 <= i < space0.areas[a].frames.len() implies !area1.frames.contains(
        #[trigger] space0.areas[a].frames[i],
    ) && pool1.is_live(space0.areas[a].frames[i]) && pool2.is_live(space0.areas[a].frames[i])
        && !owned2.contains(space0.areas[a].frames[i]) && pool2.frame(space0.areas[a].frames[i])
        == pool0.frame(space0.areas[a].frames[i]) by {
        let q = space0.areas[a].frames[i];
        assert(area_ok(space0.areas[a], pool0, root, space0.owned));
        assert(pool0.is_live(q));
        assert(!space0.owned.contains(q));
        if area1.frames.contains(q) {
            let j = choose|j: int| 0 <= j < area1.frames.len() && area1.frames[j] == q;
            assert(!pool0.is_live(area1.frames[j]));
        }
        assert(pool1.is_live(q));
        if owned2.contains(q) {
            let j = choose|j: int| 0 <= j < owned2.len() && owned2[j] == q;
            if j < space0.owned.len() {
                assert(owned2.subrange(0, space0.owned.len() as int)[j] == owned2[j]);
                assert(space0.owned[j] == q);
            } else {
                assert(!pool0.is_live(owned2[j]));
            }
        }
        lemma_live_has(pool0, q);
        assert(pool1.frame(q) == pool0.frame(q));
        assert(pool2.frame(q) == pool1.frame(q));
    }
    assert forall|v: u64| mapping(pool2.memory, root, v) == table2.mapping(pool1, v) by {
        assert(table2.mapping(pool2, v) == table2.mapping(pool1, v));
    }
    assert forall|a: int| 0 <= a < areas1.len() implies area_ok(
        #[trigger] areas1[a],
        pool2,
        root,
        owned2,
    ) && areas1[a].complete() by {
        if a < n {
            let area = space0.areas[a];
            assert(areas1[a] == area);
            assert(area_ok(area, pool0, root, space0.owned) && area.complete());
            assert(area.end <= area0.start || area0.end <= area.start);
            assert forall|i: int| 0 <= i < area.mapped implies #[trigger] mapping(
                pool2.memory,
                root,
                (area.start + i) as u64,
            ) == Some(area.pte(i)) by {
                let v = (area.start + i) as u64;
                assert(mapping(pool0.memory, root, v) == Some(area.pte(i)));
                assert(table2.mapping(pool1, v) == table0.mapping(pool0, v));
            }
            assert forall|i: int| 0 <= i < area.frames.len() implies pool2.is_live(
                #[trigger] area.frames[i],
            ) && !owned2.contains(area.frames[i]) by {
                assert(space0.areas[a].frames[i] == area.frames[i]);
            }
        }
    }
    assert(areas_disjoint(areas1)) by {
        assert forall|a: int, b: int| 0 <= a < b < areas1.len() implies (#[trigger] areas1[a]).end
            <= (#[trigger] areas1[b]).start || areas1[b].end <= areas1[a].start by {
            if b < n {
                assert(areas1[a] == space0.areas[a]);
                assert(areas1[b] == space0.areas[b]);
            } else {
                assert(areas1[a] == space0.areas[a]);
            }
        }
    }
    assert forall|a: int, i: int|
        0 <= a < areas1.len() && 0 <= i < areas1[a].frames.len() implies home1(
        #[trigger] areas1[a].frames[i],
    ) == areas1[a].start + i by {
        let q = areas1[a].frames[i];
        if a < n {
            assert(areas1[a] == space0.areas[a]);
            assert(!area1.frames.contains(space0.areas[a].frames[i]));
            assert(home0(space0.areas[a].frames[i]) == space0.areas[a].start + i);
        } else {
            assert(area1.frames[i] == q);
            let j = area1.frames.index_of(q);
            assert(area1.frames.contains(q));
            assert(area1.frames[j] == q);
            if j != i {
                if j < i {
                    assert(area1.frames[j] != area1.frames[i]);
                } else {
                    assert(area1.frames[i] != area1.frames[j]);
                }
            }
        }
    }
    assert forall|v: u64|
        v < 0x800_0000 && (#[trigger] mapping(pool2.memory, root, v)) is Some implies v
        == TRAMPOLINE_VPN || in_areas(areas1, v) by {
        if area0.start <= v < area0.end {
            assert(areas1[n].has(v));
        } else {
            assert(table2.mapping(pool1, v) == table0.mapping(pool0, v));
            assert(mapping(pool0.memory, root, v) is Some);
            if v != TRAMPOLINE_VPN {
                let a = choose|a: int| 0 <= a < n && (#[trigger] space0.areas[a]).has(v);
                assert(areas1[a].has(v));
            }
        }
    }
    assert(mapping(pool2.memory, root, TRAMPOLINE_VPN) == Some(pte_bits(space0.trampoline, 0x0b)))
        by {
        assert(table2.mapping(pool1, TRAMPOLINE_VPN) == table0.mapping(pool0, TRAMPOLINE_VPN));
    }
    // the new area holds the data
    assert(area_loaded(area1, pool2, data)) by {
        if data_copied(area1.frames, pool1, pool2, data) {
            assert forall|i: int| 0 <= i < area1.frames.len() implies pool2.frame(
                #[trigger] area1.frames[i],
            ) == with_bytes(zero_frame(), 0, page_piece(data, i)) by {
                assert(pool1.frame(area1.frames[i]) == zero_frame());
            }
        }
    }
    assert(data_kept(space0.areas, pool0, pool2));
    assert(untouched(pool0, pool2, |q: u64| space1.owns(q))) by {
        assert forall|q: u64| !space1.owns(q) implies (#[trigger] pool2.is_live(q))
            == pool0.is_live(q) && (pool0.is_live(q) ==> pool2.frame(q) == pool0.frame(q)) by {
            assert(!owned2.contains(q));
            assert(!area1.frames.contains(q)) by {
                if area1.frames.contains(q) {
                    let j = choose|j: int| 0 <= j < area1.frames.len() && area1.frames[j] == q;
                    assert(areas1[n].frames[j] == q);
                    assert(is_data_frame(areas1, q));
                }
            }
            assert(pool1.is_live(q) == pool0.is_live(q));
            if pool0.is_live(q) {
                lemma_live_has(pool0, q);
                assert(pool1.frame(q) == pool0.frame(q));
                assert(pool2.frame(q) == pool1.frame(q));
            }
        }
    }
    assert forall|v: u64|
        v < 0x800_0000 && !(area0.start <= v < area0.end) implies mapping(pool2.memory, root, v)
        == mapping(pool0.memory, root, v) by {
        assert(table2.mapping(pool1, v) == table0.mapping(pool0, v));
    }
}

/// After the pages of an area that could not be mapped whole were unmapped again, the
/// address space is as consistent as it was.
proof fn lemma_push_undone(
    space0: SpaceView,
    pool0: FramePool,
    home0: spec_fn(u64) -> u64,
    table0: PageTable,
    area0: AreaView,
    area1: AreaView,
    table2: PageTable,
    pool1: FramePool,
    pool2: FramePool,
)
    requires
        table0.wf(pool0),
        table0.root() == space0.root,
        table0.owned() == space0.owned,
        space_ok(space0, pool0, home0),
        area0.wf(),
        area0.mapped == 0,
        area0.frames.len() == 0,
        range_free(space0.areas, area0.start, area0.end),
        same_area(area1, area0),
        area1.wf(),
        area_step(space0.owned, pool0, table2.owned(), pool1, area1.frames),
        pool1.free_count() >= pool0.free_count() - 3 * area1.mapped,
        forall|v: u64|
            v < 0x800_0000 && !(area0.start <= v < area1.start + area1.mapped) ==> mapping(
                pool1.memory,
                space0.root,
                v,
            ) == table0.mapping(pool0, v),
        table2.wf(pool2),
        table2.root() == space0.root,
        area_release_step(table2.owned(), pool1, pool2, area1.frames),
        forall|v: u64|
            area1.start <= v < area1.start + area1.mapped ==> table2.mapping(pool2, v) is None,
        forall|v: u64|
            v < 0x800_0000 && !(area1.start <= v < area1.start + area1.mapped) ==> table2.mapping(
                pool2,
                v,
            ) == mapping(pool1.memory, space0.root, v),
    ensures
        space_ok(
            SpaceView {
                root: space0.root,
                owned: table2.owned(),
                areas: space0.areas,
                trampoline: space0.trampoline,
            },
            pool2,
            home0,
        ),
        pushed(
            space0,
            pool0,
            SpaceView {
                root: space0.root,
                owned: table2.owned(),
                areas: space0.areas,
                trampoline: space0.trampoline,
            },
            pool2,
            area0,
            Seq::empty(),
            false,
        ),
{
    reveal(untouched);
    let owned2 = table2.owned();
    let root = space0.root;
    let space1 = SpaceView {
        root,
        owned: owned2,
        areas: space0.areas,
        trampoline: space0.trampoline,
    };
    let n = space0.areas.len() as int;
    assert forall|q: u64| space0.owned.contains(q) implies owned2.contains(q) by {
        let i = choose|i: int| 0 <= i < space0.owned.len() && space0.owned[i] == q;
        assert(owned2.subrange(0, space0.owned.len() as int)[i] == owned2[i]);
    }
    assert forall|v: u64| v < 0x800_0000 implies (#[trigger] mapping(pool2.memory, root, v))
        == mapping(pool0.memory, root, v) by {
        if area1.start <= v < area1.start + area1.mapped {
            assert(table2.mapping(pool2, v) is None);
            if mapping(pool0.memory, root, v) is Some {
                let a = choose|a: int| 0 <= a < n && (#[trigger] space0.areas[a]).has(v);
                assert(space0.areas[a].end <= area0.start || area0.end <= space0.areas[a].start);
            }
        } else {
            assert(table2.mapping(pool2, v) == mapping(pool1.memory, root, v));
            assert(mapping(pool1.memory, root, v) == table0.mapping(pool0, v));
        }
    }
    assert forall|a: int, i: int|
        0 <= a < n && 0 <= i < space0.areas[a].frames.len() implies !area1.frames.contains(
        #[trigger] space0.areas[a].frames[i],
    ) && pool2.is_live(space0.areas[a].frames[i]) && !owned2.contains(space0.areas[a].frames[i])
        && pool2.frame(space0.areas[a].frames[i]) == pool0.frame(space0.areas[a].frames[i]) by {
        let q = space0.areas[a].frames[i];
        assert(area_ok(space0.areas[a], pool0, root, space0.owned));
        assert(pool0.is_live(q));
        assert(!space0.owned.contains(q));
        if area1.frames.contains(q) {
            let j = choose|j: int| 0 <= j < area1.frames.len() && area1.frames[j] == q;
            assert(!pool0.is_live(area1.frames[j]));
        }
        assert(pool1.is_live(q));
        assert(pool2.is_live(q) == pool1.is_live(q));
        if owned2.contains(q) {
            let j = choose|j: int| 0 <= j < owned2.len() && owned2[j] == q;
            if j < space0.owned.len() {
                assert(owned2.subrange(0, space0.owned.len() as int)[j] == owned2[j]);
                assert(space0.owned[j] == q);
            } else {
                assert(!pool0.is_live(owned2[j]));
            }
        }
        lemma_live_has(pool0, q);
        assert(pool1.frame(q) == pool0.frame(q));
        assert(pool2.frame(q) == pool1.frame(q));
    }
    assert forall|a: int| 0 <= a < n implies area_ok(
        #[trigger] space0.areas[a],
        pool2,
        root,
        owned2,
    ) by {
        let area = space0.areas[a];
        assert(area_ok(area, pool0, root, space0.owned));
        assert forall|i: int| 0 <= i < area.mapped implies #[trigger] mapping(
            pool2.memory,
            root,
            (area.start + i) as u64,
        ) == Some(area.pte(i)) by {
            assert(mapping(pool0.memory, root, (area.start + i) as u64) == Some(area.pte(i)));
        }
        assert forall|i: int| 0 <= i < area.frames.len() implies pool2.is_live(
            #[trigger] area.frames[i],
        ) && !owned2.contains(area.frames[i]) by {
            assert(space0.areas[a].frames[i] == area.frames[i]);
        }
    }
    assert forall|v: u64|
        v < 0x800_0000 && (#[trigger] mapping(pool2.memory, root, v)) is Some implies v
        == TRAMPOLINE_VPN || in_areas(space0.areas, v) by {
        assert(mapping(pool0.memory, root, v) is Some);
    }
    assert(space1.areas.subrange(0, n) =~= space0.areas);
    assert(untouched(pool0, pool2, |q: u64| space1.owns(q))) by {
        assert forall|q: u64| !space1.owns(q) implies (#[trigger] pool2.is_live(q))
            == pool0.is_live(q) && (pool0.is_live(q) ==> pool2.frame(q) == pool0.frame(q)) by {
            assert(!owned2.contains(q));
            if area1.frames.contains(q) {
                let j = choose|j: int| 0 <= j < area1.frames.len() && area1.frames[j] == q;
                assert(!pool0.is_live(area1.frames[j]));
                assert(!pool2.is_live(area1.frames[j]));
            } else {
                assert(pool1.is_live(q) == pool0.is_live(q));
                assert(pool2.is_live(q) == pool1.is_live(q));
                if pool0.is_live(q) {
                    lemma_live_has(pool0, q);
                    assert(pool1.frame(q) == pool0.frame(q));
                    assert(pool2.frame(q) == pool1.frame(q));
                }
            }
        }
    }
}

/// Index of the first area that starts at page `vpn`, if there is one.
pub open spec fn first_area_at(areas: Seq<AreaView>, vpn: u64) -> Option<int> {
    if exists|a: int| is_first_area_at(areas, vpn, a) {
        Some(choose|a: int| is_first_area_at(areas, vpn, a))
    } else {
        None
    }
}

/// Whether the `a`-th area is the first that starts at page `vpn`.
pub open spec fn is_first_area_at(areas: Seq<AreaView>, vpn: u64, a: int) -> bool {
    &&& 0 <= a < areas.len()
    &&& areas[a].start == vpn
    &&& forall|b: int| 0 <= b < a ==> (#[trigger] areas[b]).start != vpn
}

/// The first area that starts at a page is determined by the areas.
pub proof fn lemma_first_area(areas: Seq<AreaView>, vpn: u64, a: int)
    requires
        is_first_area_at(areas, vpn, a),
    ensures
        first_area_at(areas, vpn) == Some(a),
{
    let c = choose|c: int| is_first_area_at(areas, vpn, c);
    if c < a {
        assert(areas[c].start != vpn);
    }
    if a < c {
        assert(areas[a].start != vpn);
    }
}

/// If no area starts at a page, there is no first one.
pub proof fn lemma_no_area(areas: Seq<AreaView>, vpn: u64)
    requires
        forall|b: int| 0 <= b < areas.len() ==> (#[trigger] areas[b]).start != vpn,
    ensures
        first_area_at(areas, vpn) is None,
{
    reveal(untouched);
    if exists|a: int| is_first_area_at(areas, vpn, a) {
        let a = choose|a: int| is_first_area_at(areas, vpn, a);
        assert(areas[a].start != vpn);
    }
}

/// What removing the `idx`-th area does: the other areas stay, with their frames and
/// bytes; the pages of the area are unmapped and its frames are back in the pool, the
/// frame of the last page first; frames of others are not touched.
pub open spec fn removed(
    space0: SpaceView,
    pool0: FramePool,
    space1: SpaceView,
    pool1: FramePool,
    idx: int,
) -> bool {
    &&& 0 <= idx < space0.areas.len()
    &&& space1.areas == space0.areas.remove(idx)
    &&& forall|i: int|
        0 <= i < space0.areas[idx].frames.len() ==> !pool1.is_live(
            #[trigger] space0.areas[idx].frames[i],
        )
    &&& data_kept(space1.areas, pool0, pool1)
    &&& untouched(pool0, pool1, |q: u64| space0.owns(q))
    &&& forall|q: u64| space1.owns(q) ==> pool1.is_live(q)
    &&& pool1.free_count() == pool0.free_count() + space0.areas[idx].frames.len()
    &&& pool1.allocator@ == (crate::mm::frame_allocator::PoolView {
        recycled: pool0.allocator@.recycled + crate::mm::map_area::backwards(
            space0.areas[idx].frames,
        ),
        ..pool0.allocator@
    })
    &&& forall|v: u64|
        v < 0x800_0000 ==> mapping(pool1.memory, space1.root, v) == if space0.areas[idx].has(v) {
            None
        } else {
            mapping(pool0.memory, space0.root, v)
        }
}

/// A frame that a consistent address space owns is handed out.
pub proof fn lemma_owned_live(space: MemorySet, s: SpaceView, pool: FramePool, q: u64)
    requires
        space.wf(pool),
        s == space@,
        s.owns(q),
    ensures
        pool.is_live(q),
{
    if s.owned.contains(q) {
        lemma_owned_has(pool, s.owned, q);
    } else {
        let (a, i) = choose|a: int, i: int|
            0 <= a < s.areas.len() && 0 <= i < s.areas[a].frames.len()
                && #[trigger] s.areas[a].frames[i] == q;
        assert(area_ok(s.areas[a], pool, s.root, s.owned));
    }
}

/// After the pages of an area were unmapped, the address space without that area is
/// consistent.
proof fn lemma_area_removed(
    space0: SpaceView,
    pool0: FramePool,
    home: spec_fn(u64) -> u64,
    table0: PageTable,
    idx: int,
    table1: PageTable,
    pool1: FramePool,
)
    requires
        table0.wf(pool0),
        table0.root() == space0.root,
        table0.owned() == space0.owned,
        space_ok(space0, pool0, home),
        0 <= idx < space0.areas.len(),
        table1.wf(pool1),
        table1.root() == space0.root,
        table1.owned() == space0.owned,
        area_release_step(space0.owned, pool0, pool1, space0.areas[idx].frames),
        forall|v: u64|
            space0.areas[idx].start <= v < space0.areas[idx].start + space0.areas[idx].mapped
                ==> table1.mapping(pool1, v) is None,
        forall|v: u64|
            v < 0x800_0000 && !(space0.areas[idx].start <= v < space0.areas[idx].start
                + space0.areas[idx].mapped) ==> table1.mapping(pool1, v) == table0.mapping(
                pool0,
                v,
            ),
    ensures
        space_ok(
            SpaceView {
                root: space0.root,
                owned: space0.owned,
                areas: space0.areas.remove(idx),
                trampoline: space0.trampoline,
            },
            pool1,
            home,
        ),
        removed(
            space0,
            pool0,
            SpaceView {
                root: space0.root,
                owned: space0.owned,
                areas: space0.areas.remove(idx),
                trampoline: space0.trampoline,
            },
            pool1,
            idx,
        ),
        forall|p: u64|
            pool0.memory.has(p) && !space0.owned.contains(p) ==> #[trigger] pool1.frame(p)
                == pool0.frame(p),
        forall|p: u64| !is_data_frame(space0.areas, p) ==> #[trigger] pool1.is_live(p)
            == pool0.is_live(p),
{
    reveal(untouched);
    let root = space0.root;
    let owned = space0.owned;
    let gone = space0.areas[idx];
    let rest = space0.areas.remove(idx);
    let space1 = SpaceView { root, owned, areas: rest, trampoline: space0.trampoline };
    assert(area_ok(gone, pool0, root, owned) && gone.complete());
    // an area of the rest is an area of before
    assert forall|a: int| 0 <= a < rest.len() implies rest[a] == space0.areas[if a < idx {
        a
    } else {
        a + 1
    }] by {}
    assert forall|a: int, i: int|
        0 <= a < rest.len() && 0 <= i < rest[a].frames.len() implies !gone.frames.contains(
        #[trigger] rest[a].frames[i],
    ) && pool1.is_live(rest[a].frames[i]) && pool1.frame(rest[a].frames[i]) == pool0.frame(
        rest[a].frames[i],
    ) by {
        let b = if a < idx {
            a
        } else {
            a + 1
        };
        let q = rest[a].frames[i];
        assert(rest[a] == space0.areas[b]);
        assert(space0.areas[b].frames[i] == q);
        assert(area_ok(space0.areas[b], pool0, root, owned));
        assert(home(q) == space0.areas[b].start + i);
        if gone.frames.contains(q) {
            let j = choose|j: int| 0 <= j < gone.frames.len() && gone.frames[j] == q;
            assert(space0.areas[idx].frames[j] == q);
            assert(home(q) == gone.start + j);
            if b < idx {
                assert(space0.areas[b].end <= space0.areas[idx].start || space0.areas[idx].end
                    <= space0.areas[b].start);
            } else {
                assert(space0.areas[idx].end <= space0.areas[b].start || space0.areas[b].end
                    <= space0.areas[idx].start);
            }
        }
        assert(pool0.is_live(q));
        assert(pool1.is_live(q) == pool0.is_live(q));
        lemma_live_has(pool0, q);
        assert(!owned.contains(q));
        assert(pool1.frame(q) == pool0.frame(q));
    }
    assert forall|v: u64| v < 0x800_0000 implies (#[trigger] mapping(pool1.memory, root, v))
        == if gone.has(v) {
        None
    } else {
        mapping(pool0.memory, root, v)
    } by {
        if gone.has(v) {
            assert(table1.mapping(pool1, v) is None);
        } else {
            assert(table1.mapping(pool1, v) == table0.mapping(pool0, v));
        }
    }
    assert forall|a: int| 0 <= a < rest.len() implies area_ok(#[trigger] rest[a], pool1, root, owned)
        && rest[a].complete() by {
        let b = if a < idx {
            a
        } else {
            a + 1
        };
        let area = rest[a];
        assert(area == space0.areas[b]);
        assert(area_ok(area, pool0, root, owned) && area.complete());
        if b < idx {
            assert(space0.areas[b].end <= space0.areas[idx].start || space0.areas[idx].end
                <= space0.areas[b].start);
        } else {
            assert(space0.areas[idx].end <= space0.areas[b].start || space0.areas[b].end
                <= space0.areas[idx].start);
        }
        assert forall|i: int| 0 <= i < area.mapped implies #[trigger] mapping(
            pool1.memory,
            root,
            (area.start + i) as u64,
        ) == Some(area.pte(i)) by {
            assert(mapping(pool0.memory, root, (area.start + i) as u64) == Some(area.pte(i)));
        }
        assert forall|i: int| 0 <= i < area.frames.len() implies pool1.is_live(
            #[trigger] area.frames[i],
        ) by {
            assert(rest[a].frames[i] == area.frames[i]);
        }
    }
    assert(areas_disjoint(rest)) by {
        assert forall|a: int, b: int| 0 <= a < b < rest.len() implies (#[trigger] rest[a]).end <= (
        #[trigger] rest[b]).start || rest[b].end <= rest[a].start by {
            let a0 = if a < idx {
                a
            } else {
                a + 1
            };
            let b0 = if b < idx {
                b
            } else {
                b + 1
            };
            assert(rest[a] == space0.areas[a0]);
            assert(rest[b] == space0.areas[b0]);
            assert(space0.areas[a0].end <= space0.areas[b0].start || space0.areas[b0].end
                <= space0.areas[a0].start);
        }
    }
    assert forall|a: int, i: int|
        0 <= a < rest.len() && 0 <= i < rest[a].frames.len() implies home(
        #[trigger] rest[a].frames[i],
    ) == rest[a].start + i by {
        let b = if a < idx {
            a
        } else {
            a + 1
        };
        assert(rest[a] == space0.areas[b]);
        assert(home(space0.areas[b].frames[i]) == space0.areas[b].start + i);
    }
    assert forall|v: u64|
        v < 0x800_0000 && (#[trigger] mapping(pool1.memory, root, v)) is Some implies v
        == TRAMPOLINE_VPN || in_areas(rest, v) by {
        assert(!gone.has(v));
        assert(mapping(pool0.memory, root, v) is Some);
        if v != TRAMPOLINE_VPN {
            let b = choose|b: int| 0 <= b < space0.areas.len() && (#[trigger] space0.areas[b]).has(v);
            assert(b != idx);
            let a = if b < idx {
                b
            } else {
                b - 1
            };
            assert(rest[a] == space0.areas[b]);
            assert(rest[a].has(v));
        }
    }
    assert(mapping(pool1.memory, root, TRAMPOLINE_VPN) == Some(pte_bits(space0.trampoline, 0x0b)));
    assert forall|i: int| 0 <= i < gone.frames.len() implies !pool1.is_live(
        #[trigger] space0.areas[idx].frames[i],
    ) by {
        assert(!pool1.is_live(gone.frames[i]));
    }
    assert forall|p: u64| !is_data_frame(space0.areas, p) implies #[trigger] pool1.is_live(p)
        == pool0.is_live(p) by {
        if gone.frames.contains(p) {
            let j = choose|j: int| 0 <= j < gone.frames.len() && gone.frames[j] == p;
            assert(space0.areas[idx].frames[j] == p);
        }
    }
    assert(untouched(pool0, pool1, |q: u64| space0.owns(q))) by {
        assert forall|q: u64| !space0.owns(q) implies (#[trigger] pool1.is_live(q))
            == pool0.is_live(q) && (pool0.is_live(q) ==> pool1.frame(q) == pool0.frame(q)) by {
            if gone.frames.contains(q) {
                let j = choose|j: int| 0 <= j < gone.frames.len() && gone.frames[j] == q;
                assert(space0.areas[idx].frames[j] == q);
            }
            if pool0.is_live(q) {
                lemma_live_has(pool0, q);
            }
        }
    }
    assert forall|q: u64| space1.owns(q) implies pool1.is_live(q) by {
        if owned.contains(q) {
            lemma_owned_has(pool1, owned, q);
        } else {
            let (a, i) = choose|a: int, i: int|
                0 <= a < rest.len() && 0 <= i < rest[a].frames.len() && #[trigger] rest[a].frames[i]
                    == q;
            assert(pool1.is_live(rest[a].frames[i]));
        }
    }
}

/// The areas `dst` are the areas `src` over again: as many, the same pages with the
/// same type and permissions, all mapped, and each page holds the bytes of the page it
/// was copied from.
pub open spec fn copied(src: Seq<AreaView>, dst: Seq<AreaView>, pool: FramePool) -> bool {
    &&& dst.len() == src.len()
    &&& forall|a: int|
        0 <= a < src.len() ==> same_area(#[trigger] dst[a], src[a]) && dst[a].complete()
            && dst[a].frames.len() == src[a].frames.len()
    &&& forall|a: int, i: int|
        0 <= a < src.len() && 0 <= i < dst[a].frames.len() ==> pool.frame(
            #[trigger] dst[a].frames[i],
        ) == pool.frame(src[a].frames[i])
}

/// Number of pages of all the areas together.
pub open spec fn total_pages(areas: Seq<AreaView>) -> int
    decreases areas.len(),
{
    if areas.len() == 0 {
        0
    } else {
        total_pages(areas.drop_last()) + areas.last().len()
    }
}

/// The first `k` areas have no more pages than all the areas, where no area has a
/// negative number of pages.
pub proof fn lemma_total_pages_prefix(areas: Seq<AreaView>, k: int)
    requires
        0 <= k <= areas.len(),
        forall|a: int| 0 <= a < areas.len() ==> (#[trigger] areas[a]).len() >= 0,
    ensures
        0 <= total_pages(areas.subrange(0, k)) <= total_pages(areas),
        k < areas.len() ==> total_pages(areas.subrange(0, k)) + areas[k].len() <= total_pages(
            areas,
        ),
    decreases areas.len() - k,
{
    if k == areas.len() {
        assert(areas.subrange(0, k) =~= areas);
        lemma_total_pages_nonnegative(areas);
    } else {
        lemma_total_pages_prefix(areas, k + 1);
        let longer = areas.subrange(0, k + 1);
        assert(longer.drop_last() =~= areas.subrange(0, k));
        assert(longer.last() == areas[k]);
        lemma_total_pages_nonnegative(areas.subrange(0, k));
    }
}

/// Areas without negative sizes have no negative number of pages together.
pub proof fn lemma_total_pages_nonnegative(areas: Seq<AreaView>)
    requires
        forall|a: int| 0 <= a < areas.len() ==> (#[trigger] areas[a]).len() >= 0,
    ensures
        total_pages(areas) >= 0,
    decreases areas.len(),
{
    if areas.len() > 0 {
        lemma_total_pages_nonnegative(areas.drop_last());
    }
}

/// After an area was added, or not, the address space owns what it owned, and besides
/// only frames that were not handed out.
pub proof fn lemma_pushed_owns(
    space0: SpaceView,
    pool0: FramePool,
    space1: SpaceView,
    pool1: FramePool,
    area: AreaView,
    data: Seq<u8>,
    ok: bool,
)
    requires
        pushed(space0, pool0, space1, pool1, area, data, ok),
    ensures
        forall|q: u64| space0.owns(q) ==> space1.owns(q),
        forall|q: u64| space1.owns(q) ==> space0.owns(q) || !pool0.is_live(q),
{
    reveal(untouched);
    assert forall|q: u64| space0.owns(q) implies space1.owns(q) by {
        if space0.owned.contains(q) {
            let i = choose|i: int| 0 <= i < space0.owned.len() && space0.owned[i] == q;
            assert(space1.owned.subrange(0, space0.owned.len() as int)[i] == space1.owned[i]);
        } else {
            let (a, i) = choose|a: int, i: int|
                0 <= a < space0.areas.len() && 0 <= i < space0.areas[a].frames.len()
                    && #[trigger] space0.areas[a].frames[i] == q;
            if ok {
                assert(space1.areas.subrange(0, space0.areas.len() as int)[a] == space1.areas[a]);
            }
            assert(space1.areas[a].frames[i] == q);
        }
    }
    assert forall|q: u64| space1.owns(q) implies space0.owns(q) || !pool0.is_live(q) by {
        if space1.owned.contains(q) {
            let i = choose|i: int| 0 <= i < space1.owned.len() && space1.owned[i] == q;
            if i < space0.owned.len() {
                assert(space1.owned.subrange(0, space0.owned.len() as int)[i] == space1.owned[i]);
                assert(space0.owned[i] == q);
            } else {
                assert(!pool0.is_live(space1.owned[i]));
            }
        } else {
            let (a, i) = choose|a: int, i: int|
                0 <= a < space1.areas.len() && 0 <= i < space1.areas[a].frames.len()
                    && #[trigger] space1.areas[a].frames[i] == q;
            if a < space0.areas.len() {
                if ok {
                    assert(space1.areas.subrange(0, space0.areas.len() as int)[a]
                        == space1.areas[a]);
                }
                assert(space0.areas[a].frames[i] == q);
            } else {
                assert(space1.areas.last().frames[i] == q);
            }
        }
    }
}

/// An address space whose pages got new bytes, and nothing else, is as consistent as
/// it was.
pub proof fn lemma_data_changed(space: MemorySet, pool0: FramePool, pool1: FramePool)
    requires
        space.wf(pool0),
        pool1.wf(),
        pool1.allocator@ == pool0.allocator@,
        pool1.memory.base() == pool0.memory.base(),
        pool1.memory.frames().len() == pool0.memory.frames().len(),
        forall|q: u64|
            pool0.memory.has(q) && !is_data_frame(space@.areas, q) ==> #[trigger] pool1.frame(q)
                == pool0.frame(q),
    ensures
        space.wf(pool1),
        forall|v: u64| space.mapping(pool1, v) == space.mapping(pool0, v),
{
    reveal(untouched);
    let s = space@;
    assert(s.owned.contains(s.root)) by {
        assert(s.owned[0] == s.root);
    }
    assert forall|i: int| 0 <= i < s.owned.len() implies pool1.is_live(#[trigger] s.owned[i])
        && pool1.frame(s.owned[i]) == pool0.frame(s.owned[i]) by {
        let q = s.owned[i];
        assert(s.owned.contains(q));
        lemma_owned_has(pool0, s.owned, q);
        if is_data_frame(s.areas, q) {
            let (a, j) = choose|a: int, j: int|
                0 <= a < s.areas.len() && 0 <= j < s.areas[a].frames.len()
                    && #[trigger] s.areas[a].frames[j] == q;
            assert(area_ok(s.areas[a], pool0, s.root, s.owned));
        }
    }
    lemma_table_kept(pool0, pool1, s.root, s.owned, space.table().roles());
    lemma_space_kept(s, pool0, pool1, space.home());
}

/// After the pages of the newest area were filled from the `a`-th area of the parent,
/// parent and copy are consistent, and the copy holds the parent's bytes so far.
#[verifier::rlimit(60)]
proof fn lemma_frames_copied(
    space: MemorySet,
    user_space: MemorySet,
    pool0: FramePool,
    pool1: FramePool,
    pool2: FramePool,
    pool3: FramePool,
    space1: SpaceView,
    a: int,
)
    requires
        0 <= a < user_space@.areas.len(),
        space.wf(pool2),
        user_space.wf(pool2),
        user_space.wf(pool0),
        pool3.wf(),
        pushed(space1, pool1, space@, pool2, user_space@.areas[a], Seq::empty(), true)
            || pushed(
            space1,
            pool1,
            space@,
            pool2,
            AreaView { mapped: 0, frames: Seq::empty(), ..user_space@.areas[a] },
            Seq::empty(),
            true,
        ),
        copied(user_space@.areas.subrange(0, a), space1.areas, pool1),
        data_kept(user_space@.areas, pool0, pool1),
        data_kept(user_space@.areas, pool1, pool2),
        forall|q: u64| space@.owns(q) ==> !pool0.is_live(q),
        untouched(pool0, pool2, |q: u64| space@.owns(q)),
        space@.areas.last().frames.len() == user_space@.areas[a].frames.len(),
        // what the copy of the frames gave
        pool3.allocator@ == pool2.allocator@,
        pool3.memory.base() == pool2.memory.base(),
        pool3.memory.frames().len() == pool2.memory.frames().len(),
        forall|i: int|
            0 <= i < space@.areas.last().frames.len() ==> pool3.frame(
                #[trigger] space@.areas.last().frames[i],
            ) == pool2.frame(user_space@.areas[a].frames[i]),
        forall|q: u64|
            pool2.memory.has(q) && !space@.areas.last().frames.contains(q) ==> #[trigger] pool3.frame(
                q,
            ) == pool2.frame(q),
    ensures
        space.wf(pool3),
        user_space.wf(pool3),
        copied(user_space@.areas.subrange(0, a + 1), space@.areas, pool3),
        data_kept(user_space@.areas, pool0, pool3),
        untouched(pool0, pool3, |q: u64| space@.owns(q)),
{
    reveal(untouched);
    let parent = user_space@;
    let s = space@;
    let n = s.areas.len() as int;
    let last = s.areas.last();
    let prefix1 = parent.areas.subrange(0, a);
    let prefix2 = parent.areas.subrange(0, a + 1);
    assert(n == a + 1);
    assert forall|q: u64| last.frames.contains(q) implies is_data_frame(s.areas, q) by {
        let j = choose|j: int| 0 <= j < last.frames.len() && last.frames[j] == q;
        assert(s.areas[n - 1].frames[j] == q);
    }
    assert forall|q: u64| parent.owns(q) implies pool0.is_live(q) && !s.owns(q) by {
        lemma_owned_live(user_space, parent, pool0, q);
    }
    lemma_data_changed(space, pool2, pool3);
    assert(untouched(pool2, pool3, |q: u64| is_data_frame(s.areas, q))) by {
        assert forall|q: u64| !is_data_frame(s.areas, q) && pool2.is_live(q) implies #[trigger] pool3.frame(
            q,
        ) == pool2.frame(q) by {
            lemma_live_has(pool2, q);
        }
    }
    lemma_memory_set_kept(user_space, pool2, pool3, |q: u64| is_data_frame(s.areas, q));
    assert forall|b: int, i: int|
        0 <= b < parent.areas.len() && 0 <= i < parent.areas[b].frames.len() implies pool3.frame(
        #[trigger] parent.areas[b].frames[i],
    ) == pool0.frame(parent.areas[b].frames[i]) by {
        let q = parent.areas[b].frames[i];
        assert(pool1.frame(q) == pool0.frame(q));
        assert(pool2.frame(q) == pool1.frame(q));
        assert(is_data_frame(parent.areas, q));
        assert(parent.owns(q));
        lemma_owned_live(user_space, parent, pool2, q);
        lemma_live_has(pool2, q);
    }
    assert(untouched(pool0, pool3, |q: u64| s.owns(q))) by {
        assert forall|q: u64| !s.owns(q) implies (#[trigger] pool3.is_live(q)) == pool0.is_live(q)
            && (pool0.is_live(q) ==> pool3.frame(q) == pool0.frame(q)) by {
            assert(pool2.is_live(q) == pool0.is_live(q));
            if pool0.is_live(q) {
                assert(pool2.frame(q) == pool0.frame(q));
                lemma_live_has(pool2, q);
                assert(pool3.frame(q) == pool2.frame(q));
            }
        }
    }
    assert(s.areas.subrange(0, a) == space1.areas);
    assert forall|b: int| 0 <= b < prefix2.len() implies same_area(#[trigger] s.areas[b], prefix2[b])
        && s.areas[b].complete() && s.areas[b].frames.len() == prefix2[b].frames.len() by {
        if b < a {
            assert(s.areas.subrange(0, a)[b] == s.areas[b]);
            assert(same_area(space1.areas[b], prefix1[b]));
        }
    }
    assert forall|b: int, i: int|
        0 <= b < prefix2.len() && 0 <= i < s.areas[b].frames.len() implies pool3.frame(
        #[trigger] s.areas[b].frames[i],
    ) == pool3.frame(prefix2[b].frames[i]) by {
        let q = s.areas[b].frames[i];
        let p = prefix2[b].frames[i];
        assert(parent.areas[b].frames[i] == p);
        assert(pool3.frame(parent.areas[b].frames[i]) == pool0.frame(p));
        assert(pool2.frame(p) == pool1.frame(p));
        assert(pool1.frame(p) == pool0.frame(p));
        if b < a {
            assert(s.areas.subrange(0, a)[b] == s.areas[b]);
            assert(space1.areas[b].frames[i] == q);
            assert(pool1.frame(space1.areas[b].frames[i]) == pool1.frame(prefix1[b].frames[i]));
            assert(pool2.frame(space1.areas[b].frames[i]) == pool1.frame(
                space1.areas[b].frames[i],
            ));
            // a frame of an earlier area is no frame of the newest area
            assert(space.home()(q) == s.areas[b].start + i);
            assert(!last.frames.contains(q)) by {
                if last.frames.contains(q) {
                    let j = choose|j: int| 0 <= j < last.frames.len() && last.frames[j] == q;
                    assert(s.areas[n - 1].frames[j] == q);
                    assert(space.home()(s.areas[n - 1].frames[j]) == s.areas[n - 1].start + j);
                    assert(s.areas[b].end <= s.areas[n - 1].start || s.areas[n - 1].end
                        <= s.areas[b].start);
                    assert(area_ok(s.areas[b], pool2, s.root, s.owned));
                    assert(area_ok(s.areas[n - 1], pool2, s.root, s.owned));
                }
            }
            assert(area_ok(s.areas[b], pool2, s.root, s.owned));
            assert(pool2.is_live(s.areas[b].frames[i]));
            lemma_live_has(pool2, q);
            assert(pool3.frame(q) == pool2.frame(q));
        } else {
            assert(s.areas[b] == last);
            assert(pool3.frame(last.frames[i]) == pool2.frame(parent.areas[a].frames[i]));
        }
    }
}

/// Why an address space could not be built.
#[derive(Clone, Copy, Debug, PartialEq, Eq, Structural)]
pub enum BuildError {
    /// An area is out of bounds, overlaps another, or asks for bytes that are not there.
    BadLayout,
    /// The pool has no frame left.
    OutOfFrames,
}

/// The description of an area to build: its addresses, how it is mapped, and which
/// bytes of the data at hand go to its start.
#[derive(Clone, Copy, Debug)]
pub struct AreaSpec {
    /// First address of the area.
    pub start_va: VirtAddr,
    /// Address just past the area.
    pub end_va: VirtAddr,
    /// How the pages get their frames.
    pub map_type: MapType,
    /// The permissions.
    pub permission: MapPermission,
    /// Where in the data the bytes of the area start.
    pub file_offset: usize,
    /// Number of bytes of the data that go to the area.
    pub file_size: usize,
}

impl AreaSpec {
    /// The area before any page of it is mapped.
    pub open spec fn area(self) -> AreaView {
        AreaView {
            start: self.start_va.0 / 4096,
            end: crate::address::pages_up(self.end_va.0 as int) as u64,
            map_type: self.map_type,
            perm: self.permission.bits,
            mapped: 0,
            frames: Seq::empty(),
            extra_pages: Seq::empty(),
            extra_frames: Seq::empty(),
        }
    }

    /// The bytes of `data` that go to the area.
    pub open spec fn bytes(self, data: Seq<u8>) -> Seq<u8> {
        data.subrange(self.file_offset as int, self.file_offset + self.file_size)
    }
}

/// The area lies below the trampoline; its bytes lie inside the data and fit the area;
/// and an area that is not framed takes no bytes.
pub open spec fn spec_ok(spec: AreaSpec, data_len: int) -> bool {
    &&& spec.area().wf()
    &&& spec.file_offset + spec.file_size <= data_len
    &&& spec.file_size <= spec.area().len() * 4096
    &&& spec.map_type == MapType::Identical ==> spec.file_size == 0
}

/// Every area is in order, and no page belongs to two areas.
pub open spec fn specs_ok(specs: Seq<AreaSpec>, data_len: int) -> bool {
    &&& forall|k: int| 0 <= k < specs.len() ==> spec_ok(#[trigger] specs[k], data_len)
    &&& forall|j: int, k: int|
        0 <= j < k < specs.len() ==> (#[trigger] specs[j]).area().end <= (
        #[trigger] specs[k]).area().start || specs[k].area().end <= specs[j].area().start
}

/// Number of pages of all the described areas together.
pub open spec fn spec_pages(specs: Seq<AreaSpec>) -> int
    decreases specs.len(),
{
    if specs.len() == 0 {
        0
    } else {
        spec_pages(specs.drop_last()) + specs.last().area().len()
    }
}

/// The areas `areas` are the areas that `specs` describes: as many, each with the
/// pages, the type and the permissions described, all mapped, and holding its bytes
/// of `data` with zero bytes behind.
pub open spec fn built(
    specs: Seq<AreaSpec>,
    data: Seq<u8>,
    areas: Seq<AreaView>,
    pool: FramePool,
) -> bool {
    &&& areas.len() == specs.len()
    &&& forall|k: int|
        0 <= k < specs.len() ==> same_area(#[trigger] areas[k], specs[k].area())
            && areas[k].complete() && area_loaded(areas[k], pool, specs[k].bytes(data))
}

/// Whether the areas described are in order and apart from each other.
pub fn check_specs(specs: &Vec<AreaSpec>, data_len: usize) -> (r: bool)
    ensures
        r == specs_ok(specs@, data_len as int),
{
    let mut k: usize = 0;
    while k < specs.len()
        invariant
            k <= specs.len(),
            specs_ok(specs@.subrange(0, k as int), data_len as int),
        decreases specs.len() - k,
    {
        let spec = specs[k];
        let start: u64 = spec.start_va.floor().0;
        let end: u64 = spec.end_va.ceil().0;
        let good = start <= end && end <= TRAMPOLINE_VPN && spec.file_offset <= data_len
            && spec.file_size <= data_len - spec.file_offset && (spec.file_size as u64) / 4096
            <= end - start && ((spec.file_size as u64) / 4096 < end - start || spec.file_size
            % 4096 == 0) && (spec.file_size == 0 || spec.map_type == MapType::Framed);
        if !good {
            assert(!spec_ok(specs@[k as int], data_len as int));
            return false;
        }
        assert(spec_ok(specs@[k as int], data_len as int));
        let mut j: usize = 0;
        while j < k
            invariant
                j <= k < specs.len(),
                start == specs@[k as int].area().start,
                end == specs@[k as int].area().end,
                forall|i: int|
                    0 <= i < j ==> (#[trigger] specs@[i]).area().end <= start || end
                        <= specs@[i].area().start,
            decreases k - j,
        {
            let other = specs[j];
            if !(other.end_va.ceil().0 <= start || end <= other.start_va.floor().0) {
                assert(!(specs@[j as int].area().end <= specs@[k as int].area().start
                    || specs@[k as int].area().end <= specs@[j as int].area().start));
                return false;
            }
            j = j + 1;
        }
        proof {
            let longer = specs@.subrange(0, k + 1);
            let shorter = specs@.subrange(0, k as int);
            assert forall|i: int| 0 <= i < longer.len() implies spec_ok(
                #[trigger] longer[i],
                data_len as int,
            ) by {
                if i < k {
                    assert(shorter[i] == longer[i]);
                }
            }
            assert forall|i: int, m: int| 0 <= i < m < longer.len() implies (
            #[trigger] longer[i]).area().end <= (#[trigger] longer[m]).area().start
                || longer[m].area().end <= longer[i].area().start by {
                if m < k {
                    assert(shorter[i] == longer[i]);
                    assert(shorter[m] == longer[m]);
                } else {
                    assert(specs@[i] == longer[i]);
                }
            }
        }
        k = k + 1;
    }
    assert(specs@.subrange(0, k as int) =~= specs@);
    true
}

/// The first `k` described areas have no more pages than all of them.
pub proof fn lemma_spec_pages_prefix(specs: Seq<AreaSpec>, k: int)
    requires
        0 <= k <= specs.len(),
        forall|a: int| 0 <= a < specs.len() ==> (#[trigger] specs[a]).area().len() >= 0,
    ensures
        0 <= spec_pages(specs.subrange(0, k)) <= spec_pages(specs),
        k < specs.len() ==> spec_pages(specs.subrange(0, k)) + specs[k].area().len()
            <= spec_pages(specs),
    decreases specs.len() - k,
{
    if k == specs.len() {
        assert(specs.subrange(0, k) =~= specs);
        lemma_spec_pages_nonnegative(specs);
    } else {
        lemma_spec_pages_prefix(specs, k + 1);
        let longer = specs.subrange(0, k + 1);
        assert(longer.drop_last() =~= specs.subrange(0, k));
        assert(longer.last() == specs[k]);
        lemma_spec_pages_nonnegative(specs.subrange(0, k));
    }
}

/// Described areas without negative sizes have no negative number of pages together.
pub proof fn lemma_spec_pages_nonnegative(specs: Seq<AreaSpec>)
    requires
        forall|a: int| 0 <= a < specs.len() ==> (#[trigger] specs[a]).area().len() >= 0,
    ensures
        spec_pages(specs) >= 0,
    decreases specs.len(),
{
    if specs.len() > 0 {
        lemma_spec_pages_nonnegative(specs.drop_last());
    }
}

/// After the `k`-th described area was added, the areas are those that the first
/// `k + 1` descriptions describe.
proof fn lemma_built_step(
    specs: Seq<AreaSpec>,
    data: Seq<u8>,
    areas1: Seq<AreaView>,
    pool1: FramePool,
    areas2: Seq<AreaView>,
    pool2: FramePool,
    k: int,
)
    requires
        0 <= k < specs.len(),
        built(specs.subrange(0, k), data, areas1, pool1),
        areas2.len() == areas1.len() + 1,
        areas2.subrange(0, areas1.len() as int) == areas1,
        same_area(areas2.last(), specs[k].area()),
        areas2.last().complete(),
        area_loaded(areas2.last(), pool2, specs[k].bytes(data)),
        data_kept(areas1, pool1, pool2),
    ensures
        built(specs.subrange(0, k + 1), data, areas2, pool2),
{
    let prefix1 = specs.subrange(0, k);
    let prefix2 = specs.subrange(0, k + 1);
    assert forall|b: int| 0 <= b < prefix2.len() implies same_area(
        #[trigger] areas2[b],
        prefix2[b].area(),
    ) && areas2[b].complete() && area_loaded(areas2[b], pool2, prefix2[b].bytes(data)) by {
        if b < k {
            assert(areas2.subrange(0, k)[b] == areas2[b]);
            assert(prefix1[b] == prefix2[b]);
            assert(same_area(areas1[b], prefix1[b].area()));
            assert(area_loaded(areas1[b], pool1, prefix1[b].bytes(data)));
            assert forall|i: int| 0 <= i < areas1[b].frames.len() implies pool2.frame(
                #[trigger] areas1[b].frames[i],
            ) == with_bytes(zero_frame(), 0, page_piece(prefix1[b].bytes(data), i)) by {
                assert(pool2.frame(areas1[b].frames[i]) == pool1.frame(areas1[b].frames[i]));
            }
        } else {
            assert(areas2[b] == areas2.last());
        }
    }
}

/// Where the linker put the kernel: the bounds of its sections, the end of the image
/// and the address of the trampoline code.
#[derive(Clone, Copy, Debug)]
pub struct KernelLayout {
    pub stext: u64,
    pub etext: u64,
    pub srodata: u64,
    pub erodata: u64,
    pub sdata: u64,
    pub edata: u64,
    pub sbss_with_stack: u64,
    pub ebss: u64,
    pub ekernel: u64,
    pub strampoline: u64,
}

/// The area for the addresses from `start` up to, not including, `end`, of which each
/// page is mapped to the frame with its own number.
pub open spec fn identical_spec(start: u64, end: u64, perm: u8) -> AreaSpec {
    AreaSpec {
        start_va: VirtAddr(start & 0x7f_ffff_ffff),
        end_va: VirtAddr(end & 0x7f_ffff_ffff),
        map_type: MapType::Identical,
        permission: MapPermission { bits: perm },
        file_offset: 0,
        file_size: 0,
    }
}

impl KernelLayout {
    /// The areas of the kernel: code, readable and executable; constants, readable;
    /// data and zeroed data, readable and writable; and the memory behind the kernel
    /// image, readable and writable.
    pub open spec fn specs(self) -> Seq<AreaSpec> {
        seq![
            identical_spec(self.stext, self.etext, 0x0a),
            identical_spec(self.srodata, self.erodata, 0x02),
            identical_spec(self.sdata, self.edata, 0x06),
            identical_spec(self.sbss_with_stack, self.ebss, 0x06),
            identical_spec(self.ekernel, 0x8080_0000, 0x06),
        ]
    }

    /// Page number of the frame that holds the trampoline code.
    pub open spec fn trampoline_ppn(self) -> u64 {
        (self.strampoline & 0xff_ffff_ffff_ffff) / 4096
    }

    /// The areas of the kernel.
    pub fn area_specs(&self) -> (r: Vec<AreaSpec>)
        ensures
            r@ == self.specs(),
    {
        let mut specs: Vec<AreaSpec> = Vec::new();
        specs.push(identical(self.stext, self.etext, MAP_R | MAP_X));
        specs.push(identical(self.srodata, self.erodata, MAP_R));
        specs.push(identical(self.sdata, self.edata, MAP_R | MAP_W));
        specs.push(identical(self.sbss_with_stack, self.ebss, MAP_R | MAP_W));
        specs.push(identical(self.ekernel, crate::config::MEMORY_END, MAP_R | MAP_W));
        proof {
            assert(0x02u8 | 0x08u8 == 0x0a && 0x02u8 | 0x04u8 == 0x06) by (bit_vector);
            assert(specs@ =~= self.specs());
        }
        specs
    }
}

/// The description of an area of which each page is mapped to the frame with its own
/// number.
fn identical(start: u64, end: u64, perm: u8) -> (r: AreaSpec)
    ensures
        r == identical_spec(start, end, perm),
{
    proof {
        reveal(untouched);
    }
    AreaSpec {
        start_va: VirtAddr::from(start),
        end_va: VirtAddr::from(end),
        map_type: MapType::Identical,
        permission: MapPermission { bits: perm },
        file_offset: 0,
        file_size: 0,
    }
}

/// Why a program could not be loaded.
#[derive(Clone, Copy, Debug, PartialEq, Eq, Structural)]
pub enum LoadError {
    /// The bytes hold no program.
    Elf(ElfError),
    /// A segment or the stack is out of bounds, overlaps another area, or asks for
    /// bytes that are not in the image.
    BadLayout,
    /// The pool has no frame left.
    OutOfFrames,
}

/// The permission bits of a segment: user access, and what the segment allows.
pub open spec fn segment_perm(ph: ProgramHeaderInfo) -> u8 {
    0x10u8 | (if ph.readable {
        0x02u8
    } else {
        0u8
    }) | (if ph.writable {
        0x04u8
    } else {
        0u8
    }) | (if ph.executable {
        0x08u8
    } else {
        0u8
    })
}

/// The area of a segment, if its addresses and its place in the image fit the machine.
pub open spec fn segment_spec(ph: ProgramHeaderInfo) -> Option<AreaSpec> {
    if ph.virtual_addr + ph.mem_size > u64::MAX || ph.offset + ph.file_size > usize::MAX {
        None
    } else {
        Some(
            AreaSpec {
                start_va: VirtAddr(ph.virtual_addr & 0x7f_ffff_ffff),
                end_va: VirtAddr(((ph.virtual_addr + ph.mem_size) as u64) & 0x7f_ffff_ffff),
                map_type: MapType::Framed,
                permission: MapPermission { bits: segment_perm(ph) },
                file_offset: ph.offset as usize,
                file_size: ph.file_size as usize,
            },
        )
    }
}

/// The areas of the first `n` segments, if all of them fit the machine.
pub open spec fn segment_specs(segments: Seq<ProgramHeaderInfo>, n: int) -> Option<Seq<AreaSpec>>
    decreases n,
{
    if n <= 0 {
        Some(Seq::empty())
    } else {
        match (segment_specs(segments, n - 1), segment_spec(segments[n - 1])) {
            (Some(before), Some(spec)) => Some(before.push(spec)),
            _ => None,
        }
    }
}

/// The page just past the last segment; page 0 if there is no segment.
pub open spec fn last_end_vpn(specs: Seq<AreaSpec>) -> u64 {
    if specs.len() == 0 {
        0
    } else {
        specs.last().area().end
    }
}

/// The lowest address of the user stack: one guard page behind the last segment.
pub open spec fn user_stack_bottom(specs: Seq<AreaSpec>) -> int {
    crate::address::sign_extend_39(((last_end_vpn(specs) << 12) as u64)) + 4096
}

/// The areas of a program and the top of its user stack: the segments, the user stack
/// of 8192 bytes, readable and writable with user access, and the trap context page,
/// readable and writable. Nothing if an address does not fit the machine.
pub open spec fn image_layout_of(image: ImageView) -> Option<(Seq<AreaSpec>, u64)> {
    match segment_specs(image.segments, image.segments.len() as int) {
        None => None,
        Some(specs) => {
            let bottom = user_stack_bottom(specs);
            let top = bottom + 8192;
            if top > u64::MAX {
                None
            } else {
                Some(
                    (
                        specs.push(
                            AreaSpec {
                                start_va: VirtAddr((bottom as u64) & 0x7f_ffff_ffff),
                                end_va: VirtAddr((top as u64) & 0x7f_ffff_ffff),
                                map_type: MapType::Framed,
                                permission: MapPermission { bits: 0x16 },
                                file_offset: 0,
                                file_size: 0,
                            },
                        ).push(
                            AreaSpec {
                                start_va: VirtAddr(0x7f_ffff_e000),
                                end_va: VirtAddr(0x7f_ffff_f000),
                                map_type: MapType::Framed,
                                permission: MapPermission { bits: 0x06 },
                                file_offset: 0,
                                file_size: 0,
                            },
                        ),
                        top as u64,
                    ),
                )
            }
        },
    }
}

/// What loading a program does. Areas that do not fit the machine or each other give
/// `BadLayout`, and the pool is as it was. Otherwise the address space is built from
/// the areas of the program; on success the result holds it, with the top of the user
/// stack and the entry point of the program; when the pool runs out of frames, every
/// frame taken is handed back.
pub open spec fn loaded(
    image: ImageView,
    data: Seq<u8>,
    trampoline: u64,
    pool0: FramePool,
    r: Result<(MemorySet, u64, u64), LoadError>,
    pool1: FramePool,
) -> bool {
    match image_layout_of(image) {
        None => r == Err::<(MemorySet, u64, u64), LoadError>(LoadError::BadLayout) && untouched(
            pool0,
            pool1,
            |q: u64| false,
        ),
        Some((specs, user_sp)) => {
            &&& r == Err::<(MemorySet, u64, u64), LoadError>(LoadError::BadLayout) <==> !specs_ok(
                specs,
                data.len() as int,
            )
            &&& !(r matches Err(LoadError::Elf(_)))
            &&& match r {
                Ok((space, sp, entry)) => {
                    &&& sp == user_sp
                    &&& entry == image.entry_point
                    &&& space.wf(pool1)
                    &&& space@.trampoline == trampoline
                    &&& built(specs, data, space@.areas, pool1)
                    &&& forall|q: u64| space@.owns(q) ==> !pool0.is_live(q)
                    &&& untouched(pool0, pool1, |q: u64| space@.owns(q))
                    &&& pool1.free_count() >= pool0.free_count() - 3 - 3 * spec_pages(specs)
                },
                Err(_) => untouched(pool0, pool1, |q: u64| false),
            }
            &&& specs_ok(specs, data.len() as int) && pool0.free_count() >= 3 + 3 * spec_pages(
                specs,
            ) ==> r is Ok
        },
    }
}

/// The area of a segment, if its addresses and its place in the image fit the machine.
pub fn segment_area(ph: &ProgramHeaderInfo) -> (r: Option<AreaSpec>)
    ensures
        r == segment_spec(*ph),
{
    if ph.mem_size > u64::MAX - ph.virtual_addr {
        return None;
    }
    if ph.file_size > u64::MAX - ph.offset {
        return None;
    }
    let file_end: u64 = ph.offset + ph.file_size;
    if file_end as usize as u64 != file_end {
        return None;
    }
    let mut bits: u8 = MAP_U;
    if ph.readable {
        bits = bits | MAP_R;
    }
    if ph.writable {
        bits = bits | MAP_W;
    }
    if ph.executable {
        bits = bits | MAP_X;
    }
    proof {
        assert(0x10u8 | 0u8 == 0x10u8 && 0x10u8 | 0x02u8 | 0u8 == 0x10u8 | 0x02u8) by (bit_vector);
        let b = 0x10u8 | (if ph.readable { 0x02u8 } else { 0u8 });
        let c = b | (if ph.writable { 0x04u8 } else { 0u8 });
        assert(b | 0u8 == b && c | 0u8 == c) by (bit_vector);
    }
    Some(
        AreaSpec {
            start_va: VirtAddr::from(ph.virtual_addr),
            end_va: VirtAddr::from(ph.virtual_addr + ph.mem_size),
            map_type: MapType::Framed,
            permission: MapPermission { bits },
            file_offset: ph.offset as usize,
            file_size: ph.file_size as usize,
        },
    )
}

/// The areas of a program and the top of its user stack.
pub fn image_layout(image: &ElfImage) -> (r: Option<(Vec<AreaSpec>, u64)>)
    ensures
        match r {
            Some((specs, sp)) => image_layout_of(image@) == Some((specs@, sp)),
            None => image_layout_of(image@) is None,
        },
{
    let mut specs: Vec<AreaSpec> = Vec::new();
    let mut max_end_vpn = VirtPageNum(0);
    let mut k: usize = 0;
    while k < image.segments.len()
        invariant
            k <= image.segments.len(),
            segment_specs(image@.segments, k as int) == Some(specs@),
            max_end_vpn.0 == last_end_vpn(specs@),
        decreases image.segments.len() - k,
    {
        match segment_area(&image.segments[k]) {
            None => {
                proof {
                    lemma_segment_specs_none(image@.segments, k as int, image@.segments.len() as int);
                }
                return None;
            },
            Some(spec) => {
                max_end_vpn = spec.end_va.ceil();
                specs.push(spec);
            },
        }
        k = k + 1;
    }
    let max_end_va: VirtAddr = VirtAddr::from(max_end_vpn);
    let reached: u64 = u64::from(max_end_va);
    if reached > u64::MAX - 4096 - 8192 {
        return None;
    }
    let user_stack_bottom: u64 = reached + crate::config::PAGE_SIZE;
    let user_stack_top: u64 = user_stack_bottom + crate::config::USER_STACK_SIZE;
    specs.push(
        AreaSpec {
            start_va: VirtAddr::from(user_stack_bottom),
            end_va: VirtAddr::from(user_stack_top),
            map_type: MapType::Framed,
            permission: MapPermission { bits: MAP_R | MAP_W | MAP_U },
            file_offset: 0,
            file_size: 0,
        },
    );
    specs.push(
        AreaSpec {
            start_va: VirtAddr::from(crate::config::TRAP_CONTEXT),
            end_va: VirtAddr::from(crate::config::TRAMPOLINE),
            map_type: MapType::Framed,
            permission: MapPermission { bits: MAP_R | MAP_W },
            file_offset: 0,
            file_size: 0,
        },
    );
    proof {
        assert(0x02u8 | 0x04u8 | 0x10u8 == 0x16 && 0x02u8 | 0x04u8 == 0x06
            && 0xffff_ffff_ffff_e000u64 & 0x7f_ffff_ffff == 0x7f_ffff_e000 && 0xffff_ffff_ffff_f000u64
            & 0x7f_ffff_ffff == 0x7f_ffff_f000) by (bit_vector);
    }
    Some((specs, user_stack_top))
}

/// If a segment does not fit the machine, the segments up to any later point do not.
proof fn lemma_segment_specs_none(segments: Seq<ProgramHeaderInfo>, k: int, n: int)
    requires
        0 <= k < n,
        segment_spec(segments[k]) is None,
    ensures
        segment_specs(segments, n) is None,
    decreases n - k,
{
    if n > k + 1 {
        lemma_segment_specs_none(segments, k, n - 1);
    }
}

/// After an area was removed, or none, the address space owns nothing that it did not
/// own.
pub proof fn lemma_removed_owns(
    space0: SpaceView,
    pool0: FramePool,
    space1: SpaceView,
    pool1: FramePool,
    vpn: u64,
)
    requires
        space1.owned == space0.owned,
        match first_area_at(space0.areas, vpn) {
            Some(idx) => removed(space0, pool0, space1, pool1, idx),
            None => space1.areas == space0.areas && pool1.same_as(pool0),
        },
    ensures
        forall|q: u64| space1.owns(q) ==> space0.owns(q),
        untouched(pool0, pool1, |q: u64| space0.owns(q)),
        untouched(pool0, pool1, |q: u64| space0.owns(q) || space1.owns(q)),
{
    reveal(untouched);
    match first_area_at(space0.areas, vpn) {
        Some(idx) => {
            assert forall|q: u64| space1.owns(q) implies space0.owns(q) by {
                if !space1.owned.contains(q) {
                    let (a, i) = choose|a: int, i: int|
                        0 <= a < space1.areas.len() && 0 <= i < space1.areas[a].frames.len()
                            && #[trigger] space1.areas[a].frames[i] == q;
                    let b = if a < idx {
                        a
                    } else {
                        a + 1
                    };
                    assert(space0.areas[b].frames[i] == q);
                }
            }
        },
        None => {
            lemma_same_frames(pool0, pool1);
        },
    }
}

/// The program is in place: the areas are those that `specs` describes, all mapped,
/// and each but the last, which holds the trap context, holds its bytes of `data` with
/// zero bytes behind.
pub open spec fn program_in_place(
    specs: Seq<AreaSpec>,
    data: Seq<u8>,
    areas: Seq<AreaView>,
    pool: FramePool,
) -> bool {
    &&& areas.len() == specs.len()
    &&& forall|k: int|
        0 <= k < specs.len() ==> same_area(#[trigger] areas[k], specs[k].area())
            && areas[k].complete()
    &&& forall|k: int|
        0 <= k < specs.len() - 1 ==> area_loaded(#[trigger] areas[k], pool, specs[k].bytes(data))
}

/// A program that was built stays in place when the frame of its last area, the trap
/// context, gets new bytes and its other frames keep theirs.
pub proof fn lemma_program_kept(
    specs: Seq<AreaSpec>,
    data: Seq<u8>,
    space: MemorySet,
    pool0: FramePool,
    pool1: FramePool,
)
    requires
        space.wf(pool0),
        built(specs, data, space@.areas, pool0),
        specs.len() > 0,
        forall|q: u64|
            is_data_frame(space@.areas, q) && !space@.areas.last().frames.contains(q)
                ==> #[trigger] pool1.frame(q) == pool0.frame(q),
    ensures
        program_in_place(specs, data, space@.areas, pool1),
{
    reveal(untouched);
    let areas = space@.areas;
    let n = areas.len() as int;
    assert forall|k: int| 0 <= k < specs.len() - 1 implies area_loaded(
        #[trigger] areas[k],
        pool1,
        specs[k].bytes(data),
    ) by {
        assert(area_loaded(areas[k], pool0, specs[k].bytes(data)));
        assert forall|i: int| 0 <= i < areas[k].frames.len() implies pool1.frame(
            #[trigger] areas[k].frames[i],
        ) == with_bytes(zero_frame(), 0, page_piece(specs[k].bytes(data), i)) by {
            let q = areas[k].frames[i];
            assert(is_data_frame(areas, q));
            assert(space.home()(areas[k].frames[i]) == areas[k].start + i);
            assert(area_ok(areas[k], pool0, space@.root, space@.owned));
            assert(area_ok(areas[n - 1], pool0, space@.root, space@.owned));
            if areas.last().frames.contains(q) {
                let j = choose|j: int| 0 <= j < areas.last().frames.len() && areas.last().frames[j] == q;
                assert(areas[n - 1].frames[j] == q);
                assert(space.home()(areas[n - 1].frames[j]) == areas[n - 1].start + j);
                assert(areas[k].end <= areas[n - 1].start || areas[n - 1].end <= areas[k].start);
            }
        }
    }
}

/// What holds apart from the frames that one claim covers holds apart from the frames
/// that a wider claim covers.
pub proof fn lemma_untouched_weaken(
    pool0: FramePool,
    pool1: FramePool,
    claim: spec_fn(u64) -> bool,
    wider: spec_fn(u64) -> bool,
)
    requires
        untouched(pool0, pool1, claim),
        forall|q: u64| #[trigger] claim(q) ==> wider(q),
    ensures
        untouched(pool0, pool1, wider),
{
    reveal(untouched);
}

/// Two operations one after the other touch no frame that neither of them claims.
pub proof fn lemma_untouched_trans(
    pool0: FramePool,
    pool1: FramePool,
    pool2: FramePool,
    first: spec_fn(u64) -> bool,
    second: spec_fn(u64) -> bool,
    both: spec_fn(u64) -> bool,
)
    requires
        untouched(pool0, pool1, first),
        untouched(pool1, pool2, second),
        forall|q: u64| #[trigger] first(q) ==> both(q),
        forall|q: u64| #[trigger] second(q) ==> both(q),
    ensures
        untouched(pool0, pool2, both),
{
    reveal(untouched);
    assert forall|q: u64| !both(q) implies #[trigger] pool2.is_live(q) == pool0.is_live(q) by {
        assert(pool1.is_live(q) == pool0.is_live(q));
    }
    assert forall|q: u64| !both(q) && pool0.is_live(q) implies #[trigger] pool2.frame(q)
        == pool0.frame(q) by {
        assert(pool1.is_live(q) == pool0.is_live(q));
        assert(pool1.frame(q) == pool0.frame(q));
    }
}

/// Whether some framed area with at least the permissions `need` has page `vpn` on
/// frame `ppn`.
pub open spec fn has_page(areas: Seq<AreaView>, vpn: u64, need: u8, ppn: u64) -> bool {
    exists|a: int| #[trigger] is_page_of(areas, a, vpn, need, ppn)
}

/// Whether the `a`-th area is framed, has at least the permissions `need`, and has
/// page `vpn` on frame `ppn`.
pub open spec fn is_page_of(areas: Seq<AreaView>, a: int, vpn: u64, need: u8, ppn: u64) -> bool {
    &&& 0 <= a < areas.len()
    &&& areas[a].has(vpn)
    &&& areas[a].map_type == MapType::Framed
    &&& areas[a].perm & need == need
    &&& vpn - areas[a].start < areas[a].frames.len()
    &&& areas[a].frames[vpn - areas[a].start] == ppn
}

/// In a consistent address space, every page of every area translates to a valid
/// entry with the frame and the permissions of the area: the frame with the number of
/// the page for an area mapped identically, the frame that the area holds for the page
/// for a framed area.
pub proof fn lemma_area_pages_translate(space: MemorySet, pool: FramePool, a: int, i: int)
    requires
        space.wf(pool),
        0 <= a < space@.areas.len(),
        0 <= i < space@.areas[a].len(),
    ensures
        ({
            let area = space@.areas[a];
            let vpn = (area.start + i) as u64;
            &&& leaf(pool.memory, space@.root, vpn) matches Some(e) && {
                &&& crate::mm::page_table::pte_valid(e)
                &&& e == pte_bits(area.ppn(i), area.perm | 1)
                &&& crate::mm::page_table::pte_flags(e) == area.perm | 1
                &&& area.map_type == MapType::Framed ==> crate::mm::page_table::pte_ppn(e)
                    == area.frames[i]
                &&& area.map_type == MapType::Identical ==> crate::mm::page_table::pte_ppn(e)
                    == area.start + i
            }
        }),
{
    let area = space@.areas[a];
    let vpn = (area.start + i) as u64;
    assert(area_ok(area, pool, space@.root, space@.owned) && area.complete());
    assert(mapping(pool.memory, space@.root, (area.start + i) as u64) == Some(area.pte(i)));
    if area.map_type == MapType::Framed {
        assert(pool.is_live(area.frames[i]));
        lemma_live_has(pool, area.frames[i]);
    }
    crate::mm::page_table::lemma_pte_bits(area.ppn(i), area.perm | 1);
}

/// After an address space was copied, every page of the parent and the page of the
/// child with the same number lie on different frames that hold the same bytes.
pub proof fn lemma_copy_pages(
    parent: MemorySet,
    child: MemorySet,
    pool0: FramePool,
    pool1: FramePool,
    a: int,
    i: int,
)
    requires
        parent.wf(pool0),
        copied(parent@.areas, child@.areas, pool1),
        data_kept(parent@.areas, pool0, pool1),
        forall|q: u64| child@.owns(q) ==> !pool0.is_live(q),
        0 <= a < parent@.areas.len(),
        0 <= i < parent@.areas[a].frames.len(),
    ensures
        same_area(child@.areas[a], parent@.areas[a]),
        child@.areas[a].frames[i] != parent@.areas[a].frames[i],
        pool1.frame(child@.areas[a].frames[i]) == pool1.frame(parent@.areas[a].frames[i]),
        pool1.frame(parent@.areas[a].frames[i]) == pool0.frame(parent@.areas[a].frames[i]),
{
    let p = parent@.areas[a].frames[i];
    let c = child@.areas[a].frames[i];
    assert(is_data_frame(parent@.areas, p));
    assert(is_data_frame(child@.areas, c));
    assert(child@.owns(c));
    lemma_owned_live(parent, parent@, pool0, p);
}

} // verus!
