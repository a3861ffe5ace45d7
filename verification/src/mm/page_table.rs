//! SV39 page tables: three levels of 512 entries each, kept in frames of the pool.

use vstd::prelude::*;
use crate::address::{lemma_vpn_index, vpn_index, PhysAddr, PhysPageNum, VirtAddr, VirtPageNum};
use crate::codec::{lemma_with_u64, u64_at, with_u64};
use crate::mm::phys_memory::{zero_frame, FramePool, FrameTracker, PhysMemory};

verus! {

/// Flag bit: the entry is valid.
pub const PTE_V: u8 = 0x01;

/// Flag bit: the page can be read.
pub const PTE_R: u8 = 0x02;

/// Flag bit: the page can be written.
pub const PTE_W: u8 = 0x04;

/// Flag bit: the page can be executed.
pub const PTE_X: u8 = 0x08;

/// Flag bit: the page can be used from user mode.
pub const PTE_U: u8 = 0x10;

/// Flag bit: the mapping is global.
pub const PTE_G: u8 = 0x20;

/// Flag bit: the page was accessed.
pub const PTE_A: u8 = 0x40;

/// Flag bit: the page was written.
pub const PTE_D: u8 = 0x80;

/// Largest virtual page number of SV39, plus one.
pub const VPN_LIMIT: u64 = 0x800_0000;

/// The flags of a page-table entry.
#[derive(Clone, Copy, Debug, PartialEq, Eq, Structural)]
pub struct PTEFlags {
    pub bits: u8,
}

impl PTEFlags {
    /// No flag.
    pub fn empty() -> (r: Self)
        ensures
            r.bits == 0,
    {
        PTEFlags { bits: 0 }
    }

    /// The flags with the given bits. Every bit is a flag, so this never fails.
    pub fn from_bits(bits: u8) -> (r: Option<Self>)
        ensures
            r == Some(PTEFlags { bits }),
    {
        Some(PTEFlags { bits })
    }

    /// The flags of `self` and of `other` together.
    pub fn union(self, other: Self) -> (r: Self)
        ensures
            r.bits == self.bits | other.bits,
    {
        PTEFlags { bits: self.bits | other.bits }
    }

    /// The flags that `self` and `other` share.
    pub fn intersection(self, other: Self) -> (r: Self)
        ensures
            r.bits == self.bits & other.bits,
    {
        PTEFlags { bits: self.bits & other.bits }
    }

    /// Whether every flag of `other` is set in `self`.
    pub fn contains(self, other: Self) -> (r: bool)
        ensures
            r == (self.bits & other.bits == other.bits),
    {
        self.bits & other.bits == other.bits
    }

    /// Whether no flag is set.
    pub fn is_empty(self) -> (r: bool)
        ensures
            r == (self.bits == 0),
    {
        self.bits == 0
    }
}

/// Whether an entry with these bits is valid.
pub open spec fn pte_valid(e: u64) -> bool {
    e & 1 == 1
}

/// The page number that an entry with these bits refers to.
pub open spec fn pte_ppn(e: u64) -> u64 {
    (e >> 10) & 0xfff_ffff_ffff
}

/// The flag bits of an entry with these bits.
pub open spec fn pte_flags(e: u64) -> u8 {
    (e & 0xff) as u8
}

/// The bits of an entry that refers to page `ppn` with flag bits `flags`.
pub open spec fn pte_bits(ppn: u64, flags: u8) -> u64 {
    (ppn << 10) | (flags as u64)
}

/// An entry built from a page number of at most 44 bits gives the number and the flags
/// back.
pub proof fn lemma_pte_bits(ppn: u64, flags: u8)
    requires
        ppn < 0x1000_0000_0000,
    ensures
        pte_ppn(pte_bits(ppn, flags)) == ppn,
        pte_flags(pte_bits(ppn, flags)) == flags,
        pte_valid(pte_bits(ppn, flags)) == (flags & 1 == 1),
        pte_valid(pte_bits(ppn, flags | 1)),
        !pte_valid(0),
{
    assert(ppn < 0x1000_0000_0000 ==> (((ppn << 10) | (flags as u64)) >> 10) & 0xfff_ffff_ffff
        == ppn) by (bit_vector);
    assert(ppn < 0x1000_0000_0000 ==> ((((ppn << 10) | (flags as u64)) & 0xff) as u8) == flags)
        by (bit_vector);
    assert((((ppn << 10) | (flags as u64)) & 1 == 1) == (flags & 1 == 1)) by (bit_vector);
    assert(((ppn << 10) | ((flags | 1) as u64)) & 1 == 1) by (bit_vector);
    assert(0u64 & 1 != 1) by (bit_vector);
}

/// A page-table entry.
#[derive(Clone, Copy, Debug, PartialEq, Eq, Structural)]
pub struct PageTableEntry {
    pub bits: u64,
}

impl PageTableEntry {
    /// The entry that refers to page `ppn` with the flags `flags`.
    pub fn new(ppn: PhysPageNum, flags: PTEFlags) -> (r: Self)
        ensures
            r.bits == pte_bits(ppn.0, flags.bits),
    {
        PageTableEntry { bits: (ppn.0 << 10) | (flags.bits as u64) }
    }

    /// The entry of all zero bits, which is not valid.
    pub fn empty() -> (r: Self)
        ensures
            r.bits == 0,
    {
        PageTableEntry { bits: 0 }
    }

    /// The page number the entry refers to.
    pub fn ppn(&self) -> (r: PhysPageNum)
        ensures
            r.0 == pte_ppn(self.bits),
    {
        PhysPageNum((self.bits >> 10) & 0xfff_ffff_ffff)
    }

    /// The flags of the entry.
    pub fn flags(&self) -> (r: PTEFlags)
        ensures
            r.bits == pte_flags(self.bits),
    {
        PTEFlags { bits: (self.bits & 0xff) as u8 }
    }

    /// Whether the entry is valid.
    pub fn is_valid(&self) -> (r: bool)
        ensures
            r == pte_valid(self.bits),
    {
        self.bits & 1 == 1
    }

    /// Whether the page can be read.
    pub fn readable(&self) -> (r: bool)
        ensures
            r == (self.bits & 2 == 2),
    {
        self.bits & 2 == 2
    }

    /// Whether the page can be written.
    pub fn writable(&self) -> (r: bool)
        ensures
            r == (self.bits & 4 == 4),
    {
        self.bits & 4 == 4
    }

    /// Whether the page can be executed.
    pub fn executable(&self) -> (r: bool)
        ensures
            r == (self.bits & 8 == 8),
    {
        self.bits & 8 == 8
    }
}

/// The second-level table that entry `i2` of the root table refers to.
pub open spec fn table1(mem: PhysMemory, root: u64, i2: int) -> Option<u64> {
    if mem.has(root) && pte_valid(mem.word(root, i2)) {
        Some(pte_ppn(mem.word(root, i2)))
    } else {
        None
    }
}

/// The third-level table reached through entry `i2` of the root table and entry `i1`
/// of the second-level table.
pub open spec fn table0(mem: PhysMemory, root: u64, i2: int, i1: int) -> Option<u64> {
    match table1(mem, root, i2) {
        Some(t1) => if mem.has(t1) && pte_valid(mem.word(t1, i1)) {
            Some(pte_ppn(mem.word(t1, i1)))
        } else {
            None
        },
        None => None,
    }
}

/// The frame that holds the third-level entry for page `vpn`, if the tables on the
/// way exist.
pub open spec fn leaf_table(mem: PhysMemory, root: u64, vpn: u64) -> Option<u64> {
    match table0(mem, root, vpn_index(vpn, 0) as int, vpn_index(vpn, 1) as int) {
        Some(t0) => if mem.has(t0) {
            Some(t0)
        } else {
            None
        },
        None => None,
    }
}

/// The third-level entry for page `vpn`, valid or not, if the tables on the way exist.
pub open spec fn leaf(mem: PhysMemory, root: u64, vpn: u64) -> Option<u64> {
    match leaf_table(mem, root, vpn) {
        Some(t0) => Some(mem.word(t0, vpn_index(vpn, 2) as int)),
        None => None,
    }
}

/// The valid entry that maps page `vpn`, if there is one.
pub open spec fn mapping(mem: PhysMemory, root: u64, vpn: u64) -> Option<u64> {
    match leaf(mem, root, vpn) {
        Some(e) => if pte_valid(e) {
            Some(e)
        } else {
            None
        },
        None => None,
    }
}

/// Number of tables that must be created before page `vpn` can be mapped.
pub open spec fn missing_tables(mem: PhysMemory, root: u64, vpn: u64) -> int {
    if table1(mem, root, vpn_index(vpn, 0) as int) is None {
        2
    } else if table0(mem, root, vpn_index(vpn, 0) as int, vpn_index(vpn, 1) as int) is None {
        1
    } else {
        0
    }
}

/// Why an operation on memory could not be completed.
#[derive(Clone, Copy, Debug, PartialEq, Eq, Structural)]
pub enum MemError {
    /// The pool has no frame left.
    OutOfFrames,
}

/// A page table: the root frame and every table frame created below it.
pub struct PageTable {
    root_ppn: PhysPageNum,
    frames: Vec<FrameTracker>,
    roles: Ghost<spec_fn(u64) -> TableRole>,
}

/// The place of a table frame in the tree of tables.
pub enum TableRole {
    /// The root table.
    Root,
    /// The second-level table under entry `0` of the root.
    Mid(int),
    /// The third-level table under entry `0` of the root and entry `1` of the
    /// second-level table.
    Leaf(int, int),
}

/// `roles` with the place `role` for frame `f`.
pub open spec fn with_role(roles: spec_fn(u64) -> TableRole, f: u64, role: TableRole) -> spec_fn(
    u64,
) -> TableRole {
    |q: u64|
        if q == f {
            role
        } else {
            roles(q)
        }
}

/// The tables below `root` form a tree of frames from `owned`: `roles` gives every
/// table the one place where it hangs.
pub open spec fn tables_ok(
    mem: PhysMemory,
    root: u64,
    owned: Seq<u64>,
    roles: spec_fn(u64) -> TableRole,
) -> bool {
    &&& roles(root) == TableRole::Root
    &&& forall|i2: int|
        0 <= i2 < 512 ==> (#[trigger] table1(mem, root, i2) matches Some(t1) ==> owned.contains(t1)
            && roles(t1) == TableRole::Mid(i2))
    &&& forall|i2: int, i1: int|
        0 <= i2 < 512 && 0 <= i1 < 512 ==> (#[trigger] table0(mem, root, i2, i1) matches Some(
            t0,
        ) ==> owned.contains(t0) && roles(t0) == TableRole::Leaf(i2, i1))
}

/// The frames `owned` are handed out, and listed once.
pub open spec fn frames_ok(pool: FramePool, owned: Seq<u64>) -> bool {
    &&& forall|i: int| 0 <= i < owned.len() ==> pool.is_live(#[trigger] owned[i])
    &&& forall|i: int, j: int| 0 <= i < j < owned.len() ==> #[trigger] owned[i] != #[trigger] owned[j]
}

impl PageTable {
    /// Page number of the root table.
    pub closed spec fn root(&self) -> u64 {
        self.root_ppn.0
    }

    /// Page numbers of the frames the table owns, the root first.
    pub closed spec fn owned(&self) -> Seq<u64> {
        Seq::new(self.frames.len() as nat, |i: int| self.frames[i].ppn.0)
    }

    /// The place of each table frame in the tree of tables.
    pub closed spec fn roles(&self) -> spec_fn(u64) -> TableRole {
        self.roles@
    }

    /// The table owns its root and the frames of all its tables, which form a tree.
    pub open spec fn wf(&self, pool: FramePool) -> bool {
        &&& pool.wf()
        &&& self.owned().len() > 0
        &&& self.owned()[0] == self.root()
        &&& frames_ok(pool, self.owned())
        &&& tables_ok(pool.memory, self.root(), self.owned(), self.roles())
    }

    /// The valid entry that maps page `vpn`, if there is one.
    pub open spec fn mapping(&self, pool: FramePool, vpn: u64) -> Option<u64> {
        mapping(pool.memory, self.root(), vpn)
    }

    /// A page table without any mapping. Takes one frame for the root.
    pub fn new(pool: &mut FramePool) -> (r: Result<Self, MemError>)
        requires
            old(pool).wf(),
        ensures
            final(pool).wf(),
            r is Err <==> old(pool).free_count() == 0,
            r is Err ==> final(pool).same_as(*old(pool)),
            r matches Ok(table) ==> {
                &&& table.wf(*final(pool))
                &&& table.owned().len() == 1
                &&& final(pool).frame(table.root()) == zero_frame()
                &&& table_step(Seq::empty(), *old(pool), table.owned(), *final(pool))
                &&& forall|vpn: u64| table.mapping(*final(pool), vpn) is None
                &&& forall|vpn: u64| missing_tables(final(pool).memory, table.root(), vpn) == 2
            },
    {
        match pool.frame_alloc() {
            Some(frame) => {
                let root_ppn = frame.ppn;
                let mut frames: Vec<FrameTracker> = Vec::new();
                frames.push(frame);
                let table = PageTable {
                    root_ppn,
                    frames,
                    roles: Ghost(|q: u64| TableRole::Root),
                };
                proof {
                    lemma_zero_frame_words();
                    assert(table.owned() =~= seq![root_ppn.0]);
                    assert forall|i2: int| 0 <= i2 < 512 implies table1(
                        pool.memory,
                        root_ppn.0,
                        i2,
                    ) is None by {
                        assert(pool.memory.word(root_ppn.0, i2) == u64_at(
                            zero_frame(),
                            8 * i2,
                        ));
                    }
                    assert forall|vpn: u64| table.mapping(*pool, vpn) is None by {
                        lemma_vpn_index(vpn, vpn);
                        assert(table1(pool.memory, root_ppn.0, vpn_index(vpn, 0) as int) is None);
                    }
                    assert forall|vpn: u64| missing_tables(pool.memory, root_ppn.0, vpn) == 2 by {
                        lemma_vpn_index(vpn, vpn);
                        assert(table1(pool.memory, root_ppn.0, vpn_index(vpn, 0) as int) is None);
                    }
                    assert(table.owned().subrange(0, 0) =~= Seq::<u64>::empty());
                    assert forall|q: u64| !table.owned().contains(q) implies q != root_ppn.0 by {
                        assert(table.owned()[0] == root_ppn.0);
                    }
                }
                Ok(table)
            },
            None => Err(MemError::OutOfFrames),
        }
    }

    /// The page table whose root the address-translation register value `satp` names.
    /// It owns no frame: it serves to look mappings up.
    pub fn from_token(satp: u64) -> (r: Self)
        ensures
            r.root() == satp & 0xfff_ffff_ffff,
            r.owned().len() == 0,
    {
        PageTable {
            root_ppn: PhysPageNum(satp & 0xfff_ffff_ffff),
            frames: Vec::new(),
            roles: Ghost(|q: u64| TableRole::Root),
        }
    }

    /// The value for the address-translation register: mode 8 (SV39) and the root.
    pub fn token(&self) -> (r: u64)
        ensures
            r == (8u64 << 60) | self.root(),
    {
        (8u64 << 60) | self.root_ppn.0
    }

    /// The frame and the index of the third-level entry for page `vpn`, if the tables on
    /// the way exist.
    pub fn find_pte(&self, memory: &PhysMemory, vpn: VirtPageNum) -> (r: Option<
        (PhysPageNum, usize),
    >)
        requires
            memory.wf(),
        ensures
            r == match leaf_table(*memory, self.root(), vpn.0) {
                Some(t0) => Some((PhysPageNum(t0), vpn_index(vpn.0, 2) as usize)),
                None => None,
            },
    {
        let idxs = vpn.indexes();
        if !memory.contains(self.root_ppn) {
            return None;
        }
        let e2 = PageTableEntry { bits: memory.read_u64(self.root_ppn, idxs[0]) };
        if !e2.is_valid() {
            return None;
        }
        let t1 = e2.ppn();
        if !memory.contains(t1) {
            return None;
        }
        let e1 = PageTableEntry { bits: memory.read_u64(t1, idxs[1]) };
        if !e1.is_valid() {
            return None;
        }
        let t0 = e1.ppn();
        if !memory.contains(t0) {
            return None;
        }
        Some((t0, idxs[2]))
    }

    /// Like `find_pte`, but creates the tables that are missing on the way.
    fn find_pte_create(&mut self, pool: &mut FramePool, vpn: VirtPageNum) -> (r: Result<
        (PhysPageNum, usize),
        MemError,
    >)
        requires
            old(self).wf(*old(pool)),
        ensures
            final(self).wf(*final(pool)),
            final(self).root() == old(self).root(),
            table_step(old(self).owned(), *old(pool), final(self).owned(), *final(pool)),
            r is Err <==> old(pool).free_count() < missing_tables(
                old(pool).memory,
                old(self).root(),
                vpn.0,
            ),
            forall|v: u64|
                mapping(final(pool).memory, final(self).root(), v) == mapping(
                    old(pool).memory,
                    old(self).root(),
                    v,
                ),
            r matches Ok(place) ==> leaf_table(final(pool).memory, final(self).root(), vpn.0)
                == Some(place.0.0) && place.1 == vpn_index(vpn.0, 2),
            r is Ok ==> final(self).owned().len() - old(self).owned().len() == missing_tables(
                old(pool).memory,
                old(self).root(),
                vpn.0,
            ),
    {
        let ghost pool0 = *pool;
        let ghost owned0 = self.owned();
        let ghost roles0 = self.roles();
        let ghost root = self.root();
        let idxs = vpn.indexes();
        proof {
            lemma_vpn_index(vpn.0, vpn.0);
            assert(owned0.contains(root)) by {
                assert(owned0[0] == root);
            }
            lemma_table_step_refl(owned0, pool0);
        }
        let e2 = PageTableEntry { bits: pool.memory.read_u64(self.root_ppn, idxs[0]) };
        let t1: PhysPageNum;
        if !e2.is_valid() {
            match pool.frame_alloc() {
                None => {
                    proof {
                        lemma_same_pool(pool0, *pool, root, owned0, roles0);
                    }
                    return Err(MemError::OutOfFrames);
                },
                Some(frame) => {
                    let ghost pool1 = *pool;
                    t1 = frame.ppn;
                    let entry = PageTableEntry::new(frame.ppn, PTEFlags { bits: PTE_V });
                    pool.memory.write_u64(self.root_ppn, idxs[0], entry.bits);
                    self.frames.push(frame);
                    self.roles = Ghost(with_role(roles0, t1.0, TableRole::Mid(idxs[0] as int)));
                    proof {
                        assert(self.owned() =~= owned0.push(t1.0));
                        lemma_add_table1(
                            pool0,
                            pool1,
                            *pool,
                            root,
                            owned0,
                            roles0,
                            idxs[0] as int,
                            t1.0,
                        );
                    }
                },
            }
        } else {
            t1 = e2.ppn();
        }
        let ghost pool2 = *pool;
        let ghost owned2 = self.owned();
        let ghost roles2 = self.roles();
        proof {
            assert(table1(pool2.memory, root, idxs[0] as int) == Some(t1.0));
            assert(owned2.contains(t1.0));
            lemma_owned_has(pool2, owned2, t1.0);
        }
        let e1 = PageTableEntry { bits: pool.memory.read_u64(t1, idxs[1]) };
        let t0: PhysPageNum;
        if !e1.is_valid() {
            match pool.frame_alloc() {
                None => {
                    proof {
                        lemma_same_pool(pool2, *pool, root, owned2, roles2);
                        lemma_table_step_trans(owned0, pool0, owned2, pool2, owned2, *pool);
                    }
                    return Err(MemError::OutOfFrames);
                },
                Some(frame) => {
                    let ghost pool3 = *pool;
                    t0 = frame.ppn;
                    let entry = PageTableEntry::new(frame.ppn, PTEFlags { bits: PTE_V });
                    pool.memory.write_u64(t1, idxs[1], entry.bits);
                    self.frames.push(frame);
                    self.roles = Ghost(
                        with_role(roles2, t0.0, TableRole::Leaf(idxs[0] as int, idxs[1] as int)),
                    );
                    proof {
                        assert(self.owned() =~= owned2.push(t0.0));
                        lemma_add_table0(
                            pool2,
                            pool3,
                            *pool,
                            root,
                            owned2,
                            roles2,
                            idxs[0] as int,
                            idxs[1] as int,
                            t0.0,
                        );
                        lemma_table_step_trans(owned0, pool0, owned2, pool2, self.owned(), *pool);
                    }
                },
            }
        } else {
            t0 = e1.ppn();
        }
        proof {
            assert(table0(pool.memory, root, idxs[0] as int, idxs[1] as int) == Some(t0.0));
            assert(self.owned().contains(t0.0));
            lemma_owned_has(*pool, self.owned(), t0.0);
        }
        Ok((t0, idxs[2]))
    }

    /// Maps page `vpn` to frame `ppn` with the flags `flags` and the valid flag. The
    /// page must not be mapped. Fails when the pool runs out of frames for new tables.
    pub fn map(
        &mut self,
        pool: &mut FramePool,
        vpn: VirtPageNum,
        ppn: PhysPageNum,
        flags: PTEFlags,
    ) -> (r: Result<(), MemError>)
        requires
            old(self).wf(*old(pool)),
            vpn.0 < VPN_LIMIT,
            old(self).mapping(*old(pool), vpn.0) is None,
        ensures
            final(self).wf(*final(pool)),
            final(self).root() == old(self).root(),
            table_step(old(self).owned(), *old(pool), final(self).owned(), *final(pool)),
            r is Err <==> old(pool).free_count() < missing_tables(
                old(pool).memory,
                old(self).root(),
                vpn.0,
            ),
            final(self).mapping(*final(pool), vpn.0) == if r is Ok {
                Some(pte_bits(ppn.0, flags.bits | 1))
            } else {
                None
            },
            r is Ok ==> final(self).owned().len() - old(self).owned().len() == missing_tables(
                old(pool).memory,
                old(self).root(),
                vpn.0,
            ),
            forall|v: u64|
                v < VPN_LIMIT && v != vpn.0 ==> final(self).mapping(*final(pool), v) == old(self).mapping(*old(pool), v),
    {
        match self.find_pte_create(pool, vpn) {
            Err(e) => Err(e),
            Ok((t0, i0)) => {
                let ghost pool1 = *pool;
                let entry = PageTableEntry::new(ppn, PTEFlags { bits: flags.bits | PTE_V });
                proof {
                    lemma_vpn_index(vpn.0, vpn.0);
                }
                pool.memory.write_u64(t0, i0, entry.bits);
                proof {
                    lemma_set_leaf(
                        pool1,
                        *pool,
                        self.root(),
                        self.owned(),
                        self.roles(),
                        vpn.0,
                        entry.bits,
                    );
                    lemma_pte_valid_with_v(ppn.0, flags.bits);
                    lemma_table_step_trans(
                        old(self).owned(),
                        *old(pool),
                        self.owned(),
                        pool1,
                        self.owned(),
                        *pool,
                    );
                }
                Ok(())
            },
        }
    }

    /// Removes the mapping of page `vpn`, which must be mapped. The tables stay.
    pub fn unmap(&mut self, pool: &mut FramePool, vpn: VirtPageNum)
        requires
            old(self).wf(*old(pool)),
            vpn.0 < VPN_LIMIT,
            old(self).mapping(*old(pool), vpn.0) is Some,
        ensures
            final(self).wf(*final(pool)),
            final(self).root() == old(self).root(),
            final(self).owned() == old(self).owned(),
            table_step(old(self).owned(), *old(pool), final(self).owned(), *final(pool)),
            final(self).mapping(*final(pool), vpn.0) is None,
            forall|v: u64|
                v < VPN_LIMIT && v != vpn.0 ==> final(self).mapping(*final(pool), v) == old(self).mapping(*old(pool), v),
            final(pool).allocator == old(pool).allocator,
            missing_tables(final(pool).memory, final(self).root(), vpn.0) == 0,
            leaf(final(pool).memory, final(self).root(), vpn.0) == Some(0u64),
    {
        let ghost pool0 = *pool;
        let found = self.find_pte(&pool.memory, vpn);
        let (t0, i0) = found.unwrap();
        proof {
            lemma_vpn_index(vpn.0, vpn.0);
        }
        pool.memory.write_u64(t0, i0, 0);
        proof {
            lemma_set_leaf(pool0, *pool, self.root(), self.owned(), self.roles(), vpn.0, 0);
            lemma_zero_frame_words();
        }
    }

    /// The third-level entry for page `vpn`, valid or not; `None` if a table on the way
    /// is missing.
    pub fn translate(&self, memory: &PhysMemory, vpn: VirtPageNum) -> (r: Option<PageTableEntry>)
        requires
            memory.wf(),
        ensures
            r == match leaf(*memory, self.root(), vpn.0) {
                Some(e) => Some(PageTableEntry { bits: e }),
                None => None,
            },
    {
        match self.find_pte(memory, vpn) {
            Some((t0, i0)) => {
                proof {
                    lemma_vpn_index(vpn.0, vpn.0);
                }
                Some(PageTableEntry { bits: memory.read_u64(t0, i0) })
            },
            None => None,
        }
    }

    /// The physical address that virtual address `va` stands for, by the third-level
    /// entry of its page; `None` if a table on the way is missing.
    pub fn translate_va(&self, memory: &PhysMemory, va: VirtAddr) -> (r: Option<PhysAddr>)
        requires
            memory.wf(),
        ensures
            r == match leaf(*memory, self.root(), va.0 / 4096) {
                Some(e) => Some(
                    PhysAddr((((pte_ppn(e) << 12) + va.0 % 4096) as u64) & 0xff_ffff_ffff_ffff),
                ),
                None => None,
            },
    {
        match self.translate(memory, va.floor()) {
            Some(pte) => {
                let base: u64 = pte.ppn().0 << 12;
                let e: u64 = pte.bits;
                assert((((e >> 10) & 0xfff_ffff_ffff) << 12) <= 0xff_ffff_ffff_f000) by (bit_vector);
                Some(PhysAddr((base + va.page_offset()) & 0xff_ffff_ffff_ffff))
            },
            None => None,
        }
    }

    /// Number of tables that must be created before page `vpn` can be mapped.
    pub fn missing_tables(&self, memory: &PhysMemory, vpn: VirtPageNum) -> (r: u64)
        requires
            memory.wf(),
            memory.has(self.root()),
        ensures
            r == missing_tables(*memory, self.root(), vpn.0),
            r <= 2,
    {
        let idxs = vpn.indexes();
        let e2 = PageTableEntry { bits: memory.read_u64(self.root_ppn, idxs[0]) };
        if !e2.is_valid() {
            return 2;
        }
        let t1 = e2.ppn();
        if !memory.contains(t1) {
            return 1;
        }
        let e1 = PageTableEntry { bits: memory.read_u64(t1, idxs[1]) };
        if !e1.is_valid() {
            return 1;
        }
        0
    }

    /// Hands the frames of the tables back to the pool. The table must not be used
    /// afterwards.
    pub fn release(self, pool: &mut FramePool)
        requires
            old(pool).wf(),
            frames_ok(*old(pool), self.owned()),
        ensures
            final(pool).wf(),
            final(pool).memory == old(pool).memory,
            final(pool).free_count() == old(pool).free_count() + self.owned().len(),
            forall|q: u64|
                final(pool).is_live(q) == (old(pool).is_live(q) && !self.owned().contains(q)),
    {
        let mut frames = self.frames;
        let ghost owned = self.owned();
        let ghost n = owned.len();
        while frames.len() > 0
            invariant
                pool.wf(),
                pool.memory == old(pool).memory,
                frames.len() <= n,
                n == owned.len(),
                frames_ok(*old(pool), owned),
                forall|i: int| 0 <= i < frames.len() ==> (#[trigger] frames[i]).ppn.0 == owned[i],
                pool.free_count() == old(pool).free_count() + (n - frames.len()),
                forall|q: u64|
                    pool.is_live(q) == (old(pool).is_live(q) && !owned.subrange(
                        frames.len() as int,
                        n as int,
                    ).contains(q)),
            decreases frames.len(),
        {
            let ghost k = frames.len() - 1;
            let ghost before = *pool;
            let frame = frames.pop().unwrap();
            assert(frame.ppn.0 == owned[k]);
            assert(pool.is_live(frame.ppn.0)) by {
                assert(old(pool).is_live(owned[k]));
                let tail = owned.subrange(k + 1, n as int);
                if tail.contains(owned[k]) {
                    let j = choose|j: int| 0 <= j < tail.len() && tail[j] == owned[k];
                    assert(owned[k + 1 + j] == owned[k]);
                }
            }
            pool.frame_dealloc(frame);
            assert forall|q: u64|
                pool.is_live(q) == (old(pool).is_live(q) && !owned.subrange(k, n as int).contains(
                    q,
                )) by {
                let longer = owned.subrange(k, n as int);
                let shorter = owned.subrange(k + 1, n as int);
                assert(longer[0] == owned[k]);
                if shorter.contains(q) {
                    let j = choose|j: int| 0 <= j < shorter.len() && shorter[j] == q;
                    assert(longer[j + 1] == q);
                }
                if longer.contains(q) && q != owned[k] {
                    let j = choose|j: int| 0 <= j < longer.len() && longer[j] == q;
                    assert(shorter[j - 1] == q);
                }
            }
        }
        assert(owned.subrange(0, n as int) =~= owned);
    }

    /// Page number of the root table.
    pub fn root_ppn(&self) -> (r: PhysPageNum)
        ensures
            r.0 == self.root(),
    {
        self.root_ppn
    }
}

/// Every word of a zeroed frame is zero, an entry that is not valid.
pub proof fn lemma_zero_frame_words()
    ensures
        forall|i: int| 0 <= i < 512 ==> #[trigger] u64_at(zero_frame(), 8 * i) == 0,
        !pte_valid(0),
{
    assert(0u64 & 1 != 1) by (bit_vector);
    assert forall|i: int| 0 <= i < 512 implies #[trigger] u64_at(zero_frame(), 8 * i)
        == 0 by {
        assert((((0u8 as u32) | ((0u8 as u32) << 8) | ((0u8 as u32) << 16) | ((0u8 as u32) << 24))
            as u64) | ((((0u8 as u32) | ((0u8 as u32) << 8) | ((0u8 as u32) << 16) | ((0u8 as u32)
            << 24)) as u64) << 32) == 0) by (bit_vector);
    }
}

/// What an operation on a page table may do to the pool: take frames that were not
/// handed out, which the table then owns, and change the bytes of frames that the table
/// owns. Every other frame keeps its standing and its bytes.
pub open spec fn table_step(
    owned0: Seq<u64>,
    pool0: FramePool,
    owned1: Seq<u64>,
    pool1: FramePool,
) -> bool {
    &&& owned0.len() <= owned1.len()
    &&& owned1.subrange(0, owned0.len() as int) == owned0
    &&& forall|i: int| owned0.len() <= i < owned1.len() ==> !pool0.is_live(#[trigger] owned1[i])
    &&& pool1.free_count() == pool0.free_count() - (owned1.len() - owned0.len())
    &&& pool1.memory.base() == pool0.memory.base()
    &&& pool1.memory.frames().len() == pool0.memory.frames().len()
    &&& forall|q: u64| !owned1.contains(q) ==> #[trigger] pool1.is_live(q) == pool0.is_live(q)
    &&& forall|q: u64| pool0.is_live(q) ==> #[trigger] pool1.is_live(q)
    &&& forall|q: u64|
        pool0.memory.has(q) && !owned1.contains(q) ==> #[trigger] pool1.frame(q) == pool0.frame(q)
}

/// Doing nothing is a step.
pub proof fn lemma_table_step_refl(owned: Seq<u64>, pool: FramePool)
    ensures
        table_step(owned, pool, owned, pool),
{
    assert(owned.subrange(0, owned.len() as int) =~= owned);
}

/// Two steps in a row are a step.
pub proof fn lemma_table_step_trans(
    owned0: Seq<u64>,
    pool0: FramePool,
    owned1: Seq<u64>,
    pool1: FramePool,
    owned2: Seq<u64>,
    pool2: FramePool,
)
    requires
        table_step(owned0, pool0, owned1, pool1),
        table_step(owned1, pool1, owned2, pool2),
    ensures
        table_step(owned0, pool0, owned2, pool2),
{
    assert(owned2.subrange(0, owned0.len() as int) =~= owned0) by {
        assert forall|i: int| 0 <= i < owned0.len() implies owned2[i] == owned0[i] by {
            assert(owned1.subrange(0, owned0.len() as int)[i] == owned1[i]);
            assert(owned2.subrange(0, owned1.len() as int)[i] == owned2[i]);
        }
    }
    assert forall|q: u64| owned1.contains(q) implies owned2.contains(q) by {
        let i = choose|i: int| 0 <= i < owned1.len() && owned1[i] == q;
        assert(owned2.subrange(0, owned1.len() as int)[i] == owned2[i]);
    }
    assert forall|i: int| owned0.len() <= i < owned2.len() implies !pool0.is_live(
        #[trigger] owned2[i],
    ) by {
        if i < owned1.len() {
            assert(owned2.subrange(0, owned1.len() as int)[i] == owned2[i]);
            assert(!pool0.is_live(owned1[i]));
        } else {
            assert(!pool1.is_live(owned2[i]));
            if pool0.is_live(owned2[i]) {
                assert(pool1.is_live(owned2[i]));
            }
        }
    }
}

/// A frame that the table owns lies in memory.
pub proof fn lemma_owned_has(pool: FramePool, owned: Seq<u64>, p: u64)
    requires
        pool.wf(),
        frames_ok(pool, owned),
        owned.contains(p),
    ensures
        pool.memory.has(p),
        pool.is_live(p),
        p < 0x1000_0000_0000,
{
    let i = choose|i: int| 0 <= i < owned.len() && owned[i] == p;
    assert(pool.is_live(owned[i]));
}

/// A page table is not affected by what happens to frames it does not own: in a pool
/// where its frames are still handed out and hold the same bytes, it is the same tree
/// with the same mappings.
pub proof fn lemma_table_kept(
    pool0: FramePool,
    pool1: FramePool,
    root: u64,
    owned: Seq<u64>,
    roles: spec_fn(u64) -> TableRole,
)
    requires
        pool0.wf(),
        pool1.wf(),
        pool1.memory.base() == pool0.memory.base(),
        pool1.memory.frames().len() == pool0.memory.frames().len(),
        owned.contains(root),
        frames_ok(pool0, owned),
        tables_ok(pool0.memory, root, owned, roles),
        forall|i: int|
            0 <= i < owned.len() ==> pool1.is_live(#[trigger] owned[i]) && pool1.frame(owned[i])
                == pool0.frame(owned[i]),
    ensures
        frames_ok(pool1, owned),
        tables_ok(pool1.memory, root, owned, roles),
        forall|v: u64| leaf(pool1.memory, root, v) == leaf(pool0.memory, root, v),
        forall|v: u64| mapping(pool1.memory, root, v) == mapping(pool0.memory, root, v),
        forall|v: u64| missing_tables(pool1.memory, root, v) == missing_tables(
            pool0.memory,
            root,
            v,
        ),
{
    let m0 = pool0.memory;
    let m1 = pool1.memory;
    assert forall|q: u64| owned.contains(q) implies m0.has(q) && m1.has(q) && m1.frame(q)
        == m0.frame(q) by {
        let i = choose|i: int| 0 <= i < owned.len() && owned[i] == q;
        assert(pool1.frame(owned[i]) == pool0.frame(owned[i]));
        lemma_owned_has(pool0, owned, q);
    }
    assert forall|j2: int| 0 <= j2 < 512 implies table1(m1, root, j2) == table1(m0, root, j2) by {
        assert(m1.frame(root) == m0.frame(root));
    }
    assert forall|j2: int, j1: int| 0 <= j2 < 512 && 0 <= j1 < 512 implies table0(m1, root, j2, j1)
        == table0(m0, root, j2, j1) by {
        assert(table1(m1, root, j2) == table1(m0, root, j2));
        if table1(m0, root, j2) is Some {
            let t1 = table1(m0, root, j2)->Some_0;
            assert(owned.contains(t1));
            assert(m1.frame(t1) == m0.frame(t1));
        }
    }
    assert forall|v: u64|
        leaf(m1, root, v) == leaf(m0, root, v) && mapping(m1, root, v) == mapping(m0, root, v)
            && missing_tables(m1, root, v) == missing_tables(m0, root, v) by {
        lemma_vpn_index(v, v);
        let j2 = vpn_index(v, 0) as int;
        let j1 = vpn_index(v, 1) as int;
        assert(table1(m1, root, j2) == table1(m0, root, j2));
        assert(table0(m1, root, j2, j1) == table0(m0, root, j2, j1));
        if table0(m0, root, j2, j1) is Some {
            let t0 = table0(m0, root, j2, j1)->Some_0;
            assert(owned.contains(t0));
            assert(m1.frame(t0) == m0.frame(t0));
        }
    }
}

/// A pool with the same bytes and the same frames handed out serves a page table as
/// well.
pub proof fn lemma_same_pool(
    pool0: FramePool,
    pool1: FramePool,
    root: u64,
    owned: Seq<u64>,
    roles: spec_fn(u64) -> TableRole,
)
    requires
        pool0.wf(),
        pool1.same_as(pool0),
        frames_ok(pool0, owned),
        tables_ok(pool0.memory, root, owned, roles),
    ensures
        pool1.wf(),
        frames_ok(pool1, owned),
        tables_ok(pool1.memory, root, owned, roles),
        table_step(owned, pool0, owned, pool1),
        forall|v: u64| mapping(pool1.memory, root, v) == mapping(pool0.memory, root, v),
        forall|v: u64| missing_tables(pool1.memory, root, v) == missing_tables(
            pool0.memory,
            root,
            v,
        ),
{
    let m0 = pool0.memory;
    let m1 = pool1.memory;
    assert(owned.subrange(0, owned.len() as int) =~= owned);
    assert forall|j2: int| 0 <= j2 < 512 implies table1(m1, root, j2) == table1(m0, root, j2) by {}
    assert forall|j2: int, j1: int| 0 <= j2 < 512 && 0 <= j1 < 512 implies table0(m1, root, j2, j1)
        == table0(m0, root, j2, j1) by {
        assert(table1(m1, root, j2) == table1(m0, root, j2));
    }
    assert forall|v: u64| mapping(m1, root, v) == mapping(m0, root, v) && missing_tables(
        m1,
        root,
        v,
    ) == missing_tables(m0, root, v) by {
        lemma_vpn_index(v, v);
        assert(table1(m1, root, vpn_index(v, 0) as int) == table1(
            m0,
            root,
            vpn_index(v, 0) as int,
        ));
        assert(table0(m1, root, vpn_index(v, 0) as int, vpn_index(v, 1) as int) == table0(
            m0,
            root,
            vpn_index(v, 0) as int,
            vpn_index(v, 1) as int,
        ));
    }
    assert forall|i: int| 0 <= i < owned.len() implies pool1.is_live(#[trigger] owned[i]) by {
        assert(pool0.is_live(owned[i]));
    }
}

/// The register value that names a root table gives the root table back, for page
/// numbers of at most 44 bits.
pub proof fn lemma_token_root(root: u64)
    ensures
        root < 0x1000_0000_0000 ==> ((8u64 << 60) | root) & 0xfff_ffff_ffff == root,
{
    assert(root < 0x1000_0000_0000 ==> ((8u64 << 60) | root) & 0xfff_ffff_ffff == root)
        by (bit_vector);
}

/// The entry that hangs table `f` into its parent is valid and refers to `f`.
pub proof fn lemma_table_entry(f: u64)
    requires
        f < 0x1000_0000_0000,
    ensures
        pte_valid(pte_bits(f, 1)),
        pte_ppn(pte_bits(f, 1)) == f,
{
    assert(f < 0x1000_0000_0000 ==> ((f << 10) | (1u8 as u64)) & 1 == 1 && ((((f << 10) | (1u8
        as u64)) >> 10) & 0xfff_ffff_ffff) == f) by (bit_vector);
}

/// An entry with the valid flag added is valid.
pub proof fn lemma_pte_valid_with_v(ppn: u64, flags: u8)
    ensures
        pte_valid(pte_bits(ppn, flags | 1)),
{
    assert(((ppn << 10) | ((flags | 1) as u64)) & 1 == 1) by (bit_vector);
}

/// What a write of one word does to memory.
pub open spec fn word_written(mem0: PhysMemory, mem1: PhysMemory, p: u64, k: int, v: u64) -> bool {
    &&& mem1.base() == mem0.base()
    &&& mem1.frames() == mem0.frames().update(p - mem0.base(), with_u64(mem0.frame(p), 8 * k, v))
}

/// A written word reads back; every other word is as before.
pub proof fn lemma_word_written(mem0: PhysMemory, mem1: PhysMemory, p: u64, k: int, v: u64)
    requires
        mem0.wf(),
        mem0.has(p),
        0 <= k < 512,
        word_written(mem0, mem1, p, k, v),
    ensures
        mem1.wf(),
        mem1.word(p, k) == v,
        forall|q: u64| mem1.has(q) == mem0.has(q),
        forall|q: u64| mem0.has(q) && q != p ==> #[trigger] mem1.frame(q) == mem0.frame(q),
        forall|q: u64, j: int|
            mem0.has(q) && 0 <= j < 512 && (q != p || j != k) ==> #[trigger] mem1.word(q, j)
                == mem0.word(q, j),
{
    lemma_with_u64(mem0.frame(p), 8 * k, v);
}

/// A new second-level table, entered into the root, keeps the tables a tree and
/// changes no mapping.
pub proof fn lemma_add_table1(
    pool0: FramePool,
    pool1: FramePool,
    pool2: FramePool,
    root: u64,
    owned: Seq<u64>,
    roles: spec_fn(u64) -> TableRole,
    i2: int,
    f: u64,
)
    requires
        pool0.wf(),
        frames_ok(pool0, owned),
        tables_ok(pool0.memory, root, owned, roles),
        owned.contains(root),
        0 <= i2 < 512,
        table1(pool0.memory, root, i2) is None,
        fresh_frame(pool0, pool1, f),
        pool2.allocator@ == pool1.allocator@,
        word_written(pool1.memory, pool2.memory, root, i2, pte_bits(f, 1)),
    ensures
        pool2.wf(),
        frames_ok(pool2, owned.push(f)),
        tables_ok(pool2.memory, root, owned.push(f), with_role(roles, f, TableRole::Mid(i2))),
        table_step(owned, pool0, owned.push(f), pool2),
        table1(pool2.memory, root, i2) == Some(f),
        forall|i1: int| 0 <= i1 < 512 ==> table0(pool2.memory, root, i2, i1) is None,
        forall|v: u64| mapping(pool2.memory, root, v) == mapping(pool0.memory, root, v),
        forall|v: u64|
            vpn_index(v, 0) != i2 ==> missing_tables(pool2.memory, root, v) == missing_tables(
                pool0.memory,
                root,
                v,
            ),
{
    let m0 = pool0.memory;
    let m1 = pool1.memory;
    let m2 = pool2.memory;
    let owned2 = owned.push(f);
    let roles2 = with_role(roles, f, TableRole::Mid(i2));
    lemma_owned_has(pool0, owned, root);
    lemma_word_written(m1, m2, root, i2, pte_bits(f, 1));
    lemma_table_entry(f);
    lemma_zero_frame_words();
    assert forall|q: u64| pool1.memory.has(q) && !owned.contains(q) implies #[trigger] pool2.frame(
        q,
    ) == pool1.frame(q) by {
        assert(m2.frame(q) == m1.frame(q));
    }
    lemma_push_fresh(pool0, pool1, pool2, owned, f);
    assert forall|j2: int| 0 <= j2 < 512 && j2 != i2 implies table1(m2, root, j2) == table1(
        m0,
        root,
        j2,
    ) by {
        assert(m2.word(root, j2) == m1.word(root, j2));
        assert(pool1.frame(root) == pool0.frame(root));
    }
    assert(table1(m2, root, i2) == Some(f));
    assert forall|i1: int| 0 <= i1 < 512 implies table0(m2, root, i2, i1) is None by {
        assert(m2.word(f, i1) == m1.word(f, i1));
        assert(m1.word(f, i1) == u64_at(zero_frame(), 8 * i1));
    }
    assert forall|j2: int, j1: int| 0 <= j2 < 512 && 0 <= j1 < 512 && j2 != i2 implies table0(
        m2,
        root,
        j2,
        j1,
    ) == table0(m0, root, j2, j1) by {
        assert(table1(m2, root, j2) == table1(m0, root, j2));
        if table1(m0, root, j2) is Some {
            let t1 = table1(m0, root, j2)->Some_0;
            assert(owned.contains(t1));
            lemma_owned_has(pool0, owned, t1);
            assert(m2.word(t1, j1) == m1.word(t1, j1));
            assert(pool1.frame(t1) == pool0.frame(t1));
        }
    }
    assert forall|v: u64| mapping(m2, root, v) == mapping(m0, root, v) && (vpn_index(v, 0) != i2
        ==> missing_tables(m2, root, v) == missing_tables(m0, root, v)) by {
        lemma_vpn_index(v, v);
        let j2 = vpn_index(v, 0) as int;
        let j1 = vpn_index(v, 1) as int;
        let j0 = vpn_index(v, 2) as int;
        if j2 != i2 {
            assert(table1(m2, root, j2) == table1(m0, root, j2));
            assert(table0(m2, root, j2, j1) == table0(m0, root, j2, j1));
            if table0(m0, root, j2, j1) is Some {
                let t0 = table0(m0, root, j2, j1)->Some_0;
                assert(owned.contains(t0));
                lemma_owned_has(pool0, owned, t0);
                assert(roles(t0) != roles(root));
                assert(m2.word(t0, j0) == m1.word(t0, j0));
                assert(pool1.frame(t0) == pool0.frame(t0));
            }
        } else {
            assert(table0(m2, root, i2, j1) is None);
        }
    }
    assert(tables_ok(m2, root, owned2, roles2)) by {
        assert forall|j2: int| 0 <= j2 < 512 && table1(m2, root, j2) is Some implies owned2.contains(
            table1(m2, root, j2)->Some_0,
        ) && roles2(table1(m2, root, j2)->Some_0) == TableRole::Mid(j2) by {
            if j2 != i2 {
                assert(table1(m2, root, j2) == table1(m0, root, j2));
                assert(owned.contains(table1(m0, root, j2)->Some_0));
            }
        }
        assert forall|j2: int, j1: int|
            0 <= j2 < 512 && 0 <= j1 < 512 && table0(m2, root, j2, j1) is Some implies owned2.contains(
            table0(m2, root, j2, j1)->Some_0,
        ) && roles2(table0(m2, root, j2, j1)->Some_0) == TableRole::Leaf(j2, j1) by {
            if j2 != i2 {
                assert(table0(m2, root, j2, j1) == table0(m0, root, j2, j1));
                assert(owned.contains(table0(m0, root, j2, j1)->Some_0));
            }
        }
    }
}

/// Taking a fresh frame into the frames a table owns, and writing to a frame the table
/// owned already, is a step.
pub proof fn lemma_push_fresh(
    pool0: FramePool,
    pool1: FramePool,
    pool2: FramePool,
    owned: Seq<u64>,
    f: u64,
)
    requires
        pool0.wf(),
        frames_ok(pool0, owned),
        fresh_frame(pool0, pool1, f),
        pool2.allocator@ == pool1.allocator@,
        pool2.memory.base() == pool1.memory.base(),
        pool2.memory.frames().len() == pool1.memory.frames().len(),
        pool2.memory.wf(),
        forall|q: u64|
            pool1.memory.has(q) && !owned.contains(q) ==> #[trigger] pool2.frame(q) == pool1.frame(
                q,
            ),
    ensures
        pool2.wf(),
        !owned.contains(f),
        frames_ok(pool2, owned.push(f)),
        table_step(owned, pool0, owned.push(f), pool2),
        forall|q: u64| owned.contains(q) ==> owned.push(f).contains(q) && q != f,
        owned.push(f).contains(f),
{
    let owned2 = owned.push(f);
    assert(!owned.contains(f)) by {
        if owned.contains(f) {
            lemma_owned_has(pool0, owned, f);
        }
    }
    assert forall|q: u64| owned.contains(q) implies owned2.contains(q) && q != f by {
        let i = choose|i: int| 0 <= i < owned.len() && owned[i] == q;
        assert(owned2[i] == q);
    }
    assert(owned2[owned.len() as int] == f);
    assert(owned2.subrange(0, owned.len() as int) =~= owned);
    assert forall|i: int, j: int| 0 <= i < j < owned2.len() implies #[trigger] owned2[i]
        != #[trigger] owned2[j] by {
        if j == owned.len() {
            assert(owned.contains(owned[i]));
        }
    }
    assert forall|i: int| 0 <= i < owned2.len() implies pool2.is_live(#[trigger] owned2[i]) by {
        if i < owned.len() {
            assert(pool0.is_live(owned[i]));
        }
    }
    assert forall|q: u64| pool0.memory.has(q) && !owned2.contains(q) implies #[trigger] pool2.frame(
        q,
    ) == pool0.frame(q) by {
        assert(q != f);
        assert(pool2.frame(q) == pool1.frame(q));
        assert(pool1.frame(q) == pool0.frame(q));
    }
}

/// The pool after it handed out frame `f`, filled with zero bytes.
pub open spec fn fresh_frame(pool0: FramePool, pool1: FramePool, f: u64) -> bool {
    &&& pool1.wf()
    &&& pool1.memory.base() == pool0.memory.base()
    &&& pool1.memory.frames().len() == pool0.memory.frames().len()
    &&& pool1.memory.has(f)
    &&& !pool0.is_live(f)
    &&& pool1.is_live(f)
    &&& pool1.frame(f) == zero_frame()
    &&& pool1.free_count() == pool0.free_count() - 1
    &&& forall|q: u64| q != f ==> pool1.is_live(q) == pool0.is_live(q)
    &&& forall|q: u64| q != f && pool0.memory.has(q) ==> #[trigger] pool1.frame(q) == pool0.frame(q)
}

/// A new third-level table, entered into its second-level table, keeps the tables a
/// tree and changes no mapping.
pub proof fn lemma_add_table0(
    pool0: FramePool,
    pool1: FramePool,
    pool2: FramePool,
    root: u64,
    owned: Seq<u64>,
    roles: spec_fn(u64) -> TableRole,
    i2: int,
    i1: int,
    f: u64,
)
    requires
        pool0.wf(),
        frames_ok(pool0, owned),
        tables_ok(pool0.memory, root, owned, roles),
        owned.contains(root),
        0 <= i2 < 512,
        0 <= i1 < 512,
        table1(pool0.memory, root, i2) is Some,
        table0(pool0.memory, root, i2, i1) is None,
        fresh_frame(pool0, pool1, f),
        pool2.allocator@ == pool1.allocator@,
        word_written(
            pool1.memory,
            pool2.memory,
            table1(pool0.memory, root, i2)->Some_0,
            i1,
            pte_bits(f, 1),
        ),
    ensures
        pool2.wf(),
        frames_ok(pool2, owned.push(f)),
        tables_ok(pool2.memory, root, owned.push(f), with_role(roles, f, TableRole::Leaf(i2, i1))),
        table_step(owned, pool0, owned.push(f), pool2),
        table1(pool2.memory, root, i2) == table1(pool0.memory, root, i2),
        table0(pool2.memory, root, i2, i1) == Some(f),
        forall|v: u64| mapping(pool2.memory, root, v) == mapping(pool0.memory, root, v),
{
    let m0 = pool0.memory;
    let m1 = pool1.memory;
    let m2 = pool2.memory;
    let owned2 = owned.push(f);
    let roles2 = with_role(roles, f, TableRole::Leaf(i2, i1));
    let t1 = table1(m0, root, i2)->Some_0;
    assert(owned.contains(t1) && roles(t1) == TableRole::Mid(i2));
    lemma_owned_has(pool0, owned, root);
    lemma_owned_has(pool0, owned, t1);
    lemma_word_written(m1, m2, t1, i1, pte_bits(f, 1));
    lemma_table_entry(f);
    lemma_zero_frame_words();
    assert forall|q: u64| pool1.memory.has(q) && !owned.contains(q) implies #[trigger] pool2.frame(
        q,
    ) == pool1.frame(q) by {
        assert(m2.frame(q) == m1.frame(q));
    }
    lemma_push_fresh(pool0, pool1, pool2, owned, f);
    assert forall|j2: int| 0 <= j2 < 512 implies table1(m2, root, j2) == table1(m0, root, j2) by {
        assert(m2.word(root, j2) == m1.word(root, j2));
        assert(pool1.frame(root) == pool0.frame(root));
    }
    assert forall|j2: int, j1: int|
        0 <= j2 < 512 && 0 <= j1 < 512 && (j2 != i2 || j1 != i1) implies table0(m2, root, j2, j1)
        == table0(m0, root, j2, j1) by {
        assert(table1(m2, root, j2) == table1(m0, root, j2));
        if table1(m0, root, j2) is Some {
            let u1 = table1(m0, root, j2)->Some_0;
            assert(owned.contains(u1) && roles(u1) == TableRole::Mid(j2));
            lemma_owned_has(pool0, owned, u1);
            assert(m2.word(u1, j1) == m1.word(u1, j1));
            assert(pool1.frame(u1) == pool0.frame(u1));
        }
    }
    assert(table0(m2, root, i2, i1) == Some(f)) by {
        assert(table1(m2, root, i2) == table1(m0, root, i2));
    }
    assert forall|v: u64| mapping(m2, root, v) == mapping(m0, root, v) by {
        lemma_vpn_index(v, v);
        let j2 = vpn_index(v, 0) as int;
        let j1 = vpn_index(v, 1) as int;
        let j0 = vpn_index(v, 2) as int;
        if j2 != i2 || j1 != i1 {
            assert(table0(m2, root, j2, j1) == table0(m0, root, j2, j1));
            if table0(m0, root, j2, j1) is Some {
                let t0 = table0(m0, root, j2, j1)->Some_0;
                assert(owned.contains(t0) && roles(t0) == TableRole::Leaf(j2, j1));
                lemma_owned_has(pool0, owned, t0);
                assert(m2.word(t0, j0) == m1.word(t0, j0));
                assert(pool1.frame(t0) == pool0.frame(t0));
            }
        } else {
            assert(m2.word(f, j0) == m1.word(f, j0));
            assert(m1.word(f, j0) == u64_at(zero_frame(), 8 * j0));
        }
    }
    assert(tables_ok(m2, root, owned2, roles2)) by {
        assert forall|j2: int| 0 <= j2 < 512 && table1(m2, root, j2) is Some implies owned2.contains(
            table1(m2, root, j2)->Some_0,
        ) && roles2(table1(m2, root, j2)->Some_0) == TableRole::Mid(j2) by {
            assert(table1(m2, root, j2) == table1(m0, root, j2));
            assert(owned.contains(table1(m0, root, j2)->Some_0));
        }
        assert forall|j2: int, j1: int|
            0 <= j2 < 512 && 0 <= j1 < 512 && table0(m2, root, j2, j1) is Some implies owned2.contains(
            table0(m2, root, j2, j1)->Some_0,
        ) && roles2(table0(m2, root, j2, j1)->Some_0) == TableRole::Leaf(j2, j1) by {
            if j2 != i2 || j1 != i1 {
                assert(table0(m2, root, j2, j1) == table0(m0, root, j2, j1));
                assert(owned.contains(table0(m0, root, j2, j1)->Some_0));
            }
        }
    }
}

/// Writing the third-level entry of page `vpn` keeps the tables a tree, sets the entry
/// of that page and changes the entry of no other page.
pub proof fn lemma_set_leaf(
    pool0: FramePool,
    pool1: FramePool,
    root: u64,
    owned: Seq<u64>,
    roles: spec_fn(u64) -> TableRole,
    vpn: u64,
    e: u64,
)
    requires
        pool0.wf(),
        frames_ok(pool0, owned),
        tables_ok(pool0.memory, root, owned, roles),
        owned.contains(root),
        vpn < VPN_LIMIT,
        leaf_table(pool0.memory, root, vpn) is Some,
        pool1.allocator@ == pool0.allocator@,
        word_written(
            pool0.memory,
            pool1.memory,
            leaf_table(pool0.memory, root, vpn)->Some_0,
            vpn_index(vpn, 2) as int,
            e,
        ),
    ensures
        pool1.wf(),
        frames_ok(pool1, owned),
        tables_ok(pool1.memory, root, owned, roles),
        table_step(owned, pool0, owned, pool1),
        leaf(pool1.memory, root, vpn) == Some(e),
        forall|v: u64| v < VPN_LIMIT && v != vpn ==> leaf(pool1.memory, root, v) == leaf(
            pool0.memory,
            root,
            v,
        ),
        forall|v: u64| missing_tables(pool1.memory, root, v) == missing_tables(
            pool0.memory,
            root,
            v,
        ),
{
    let m0 = pool0.memory;
    let m1 = pool1.memory;
    lemma_vpn_index(vpn, vpn);
    let i2 = vpn_index(vpn, 0) as int;
    let i1 = vpn_index(vpn, 1) as int;
    let i0 = vpn_index(vpn, 2) as int;
    let t0 = leaf_table(m0, root, vpn)->Some_0;
    assert(table0(m0, root, i2, i1) == Some(t0));
    assert(owned.contains(t0) && roles(t0) == TableRole::Leaf(i2, i1));
    lemma_owned_has(pool0, owned, root);
    lemma_word_written(m0, m1, t0, i0, e);
    assert(owned.subrange(0, owned.len() as int) =~= owned);
    assert forall|j2: int| 0 <= j2 < 512 implies table1(m1, root, j2) == table1(m0, root, j2) by {
        assert(m1.word(root, j2) == m0.word(root, j2));
    }
    assert forall|j2: int, j1: int| 0 <= j2 < 512 && 0 <= j1 < 512 implies table0(m1, root, j2, j1)
        == table0(m0, root, j2, j1) by {
        assert(table1(m1, root, j2) == table1(m0, root, j2));
        if table1(m0, root, j2) is Some {
            let u1 = table1(m0, root, j2)->Some_0;
            assert(owned.contains(u1) && roles(u1) == TableRole::Mid(j2));
            lemma_owned_has(pool0, owned, u1);
            assert(m1.word(u1, j1) == m0.word(u1, j1));
        }
    }
    assert forall|v: u64| missing_tables(m1, root, v) == missing_tables(m0, root, v) by {
        lemma_vpn_index(v, v);
        assert(table1(m1, root, vpn_index(v, 0) as int) == table1(
            m0,
            root,
            vpn_index(v, 0) as int,
        ));
        assert(table0(m1, root, vpn_index(v, 0) as int, vpn_index(v, 1) as int) == table0(
            m0,
            root,
            vpn_index(v, 0) as int,
            vpn_index(v, 1) as int,
        ));
    }
    assert forall|v: u64| v < VPN_LIMIT && v != vpn implies leaf(m1, root, v) == leaf(
        m0,
        root,
        v,
    ) by {
        lemma_vpn_index(v, vpn);
        let j2 = vpn_index(v, 0) as int;
        let j1 = vpn_index(v, 1) as int;
        let j0 = vpn_index(v, 2) as int;
        assert(table0(m1, root, j2, j1) == table0(m0, root, j2, j1));
        if table0(m0, root, j2, j1) is Some {
            let u0 = table0(m0, root, j2, j1)->Some_0;
            assert(roles(u0) == TableRole::Leaf(j2, j1));
            if m0.has(u0) {
                assert(m1.word(u0, j0) == m0.word(u0, j0));
            }
        }
    }
    assert(leaf(m1, root, vpn) == Some(e)) by {
        assert(table0(m1, root, i2, i1) == table0(m0, root, i2, i1));
    }
    assert forall|i: int| 0 <= i < owned.len() implies pool1.is_live(#[trigger] owned[i]) by {
        assert(pool0.is_live(owned[i]));
    }
    assert forall|q: u64| m0.has(q) && !owned.contains(q) implies #[trigger] pool1.frame(q)
        == pool0.frame(q) by {
        assert(q != t0);
    }
}

} // verus!
