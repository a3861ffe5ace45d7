//! Typed physical and virtual addresses and page numbers for SV39.

use vstd::prelude::*;
use vstd::std_specs::convert::FromSpecImpl;
use crate::config::PAGE_SIZE;

verus! {

/// Width of a physical address, in bits.
pub const PA_WIDTH_SV39: u64 = 56;

/// Width of a virtual address, in bits.
pub const VA_WIDTH_SV39: u64 = 39;

/// Width of a physical page number, in bits.
pub const PPN_WIDTH_SV39: u64 = 44;

/// Width of a virtual page number, in bits.
pub const VPN_WIDTH_SV39: u64 = 27;

/// A physical address.
#[derive(Clone, Copy, Debug, PartialEq, Eq, PartialOrd, Ord, Structural)]
pub struct PhysAddr(pub u64);

/// A physical page number.
#[derive(Clone, Copy, Debug, PartialEq, Eq, PartialOrd, Ord, Structural)]
pub struct PhysPageNum(pub u64);

/// A virtual address.
#[derive(Clone, Copy, Debug, PartialEq, Eq, PartialOrd, Ord, Structural)]
pub struct VirtAddr(pub u64);

/// A virtual page number.
#[derive(Clone, Copy, Debug, PartialEq, Eq, PartialOrd, Ord, Structural)]
pub struct VirtPageNum(pub u64);

/// Number of pages needed to hold `bytes` bytes.
pub open spec fn pages_up(bytes: int) -> int {
    (bytes + 4095) / 4096
}

/// The `level`-th 9-bit index of a virtual page number; level 0 is the most significant.
pub open spec fn vpn_index(vpn: u64, level: int) -> u64 {
    if level == 0 {
        (vpn >> 18) & 0x1ff
    } else if level == 1 {
        (vpn >> 9) & 0x1ff
    } else {
        vpn & 0x1ff
    }
}

/// Each index of a page number is below 512, and page numbers of at most 27 bits with
/// the same three indices are the same.
pub proof fn lemma_vpn_index(a: u64, b: u64)
    ensures
        vpn_index(a, 0) < 512 && vpn_index(a, 1) < 512 && vpn_index(a, 2) < 512,
        a < 0x800_0000 && b < 0x800_0000 && vpn_index(a, 0) == vpn_index(b, 0) && vpn_index(a, 1)
            == vpn_index(b, 1) && vpn_index(a, 2) == vpn_index(b, 2) ==> a == b,
{
    assert(((a >> 18) & 0x1ff) < 512 && ((a >> 9) & 0x1ff) < 512 && (a & 0x1ff) < 512 && (a
        < 0x800_0000 && b < 0x800_0000 && ((a >> 18) & 0x1ff) == ((b >> 18) & 0x1ff) && ((a >> 9)
        & 0x1ff) == ((b >> 9) & 0x1ff) && (a & 0x1ff) == (b & 0x1ff) ==> a == b)) by (bit_vector);
}

impl PhysAddr {
    /// The page that holds this address.
    pub fn floor(&self) -> (r: PhysPageNum)
        ensures
            r.0 == self.0 / 4096,
    {
        PhysPageNum(self.0 / PAGE_SIZE)
    }

    /// The first page at or above this address.
    pub fn ceil(&self) -> (r: PhysPageNum)
        ensures
            r.0 == pages_up(self.0 as int),
    {
        if self.0 % PAGE_SIZE == 0 {
            PhysPageNum(self.0 / PAGE_SIZE)
        } else {
            PhysPageNum(self.0 / PAGE_SIZE + 1)
        }
    }

    /// Offset of this address inside its page.
    pub fn page_offset(&self) -> (r: u64)
        ensures
            r == self.0 % 4096,
    {
        let v: u64 = self.0;
        assert(v & 0xfff == v % 4096) by (bit_vector);
        self.0 & (PAGE_SIZE - 1)
    }

    /// Whether this address is the first of its page.
    pub fn aligned(&self) -> (r: bool)
        ensures
            r == (self.0 % 4096 == 0),
    {
        self.page_offset() == 0
    }
}

impl VirtAddr {
    /// The page that holds this address.
    pub fn floor(&self) -> (r: VirtPageNum)
        ensures
            r.0 == self.0 / 4096,
    {
        VirtPageNum(self.0 / PAGE_SIZE)
    }

    /// The first page at or above this address.
    pub fn ceil(&self) -> (r: VirtPageNum)
        ensures
            r.0 == pages_up(self.0 as int),
    {
        if self.0 % PAGE_SIZE == 0 {
            VirtPageNum(self.0 / PAGE_SIZE)
        } else {
            VirtPageNum(self.0 / PAGE_SIZE + 1)
        }
    }

    /// Offset of this address inside its page.
    pub fn page_offset(&self) -> (r: u64)
        ensures
            r == self.0 % 4096,
    {
        let v: u64 = self.0;
        assert(v & 0xfff == v % 4096) by (bit_vector);
        self.0 & (PAGE_SIZE - 1)
    }

    /// Whether this address is the first of its page.
    pub fn aligned(&self) -> (r: bool)
        ensures
            r == (self.0 % 4096 == 0),
    {
        self.page_offset() == 0
    }
}

impl VirtPageNum {
    /// The three 9-bit page-table indices of this page number, most significant first.
    pub fn indexes(&self) -> (r: [usize; 3])
        ensures
            r[0] == vpn_index(self.0, 0),
            r[1] == vpn_index(self.0, 1),
            r[2] == vpn_index(self.0, 2),
            r[0] < 512 && r[1] < 512 && r[2] < 512,
    {
        let vpn: u64 = self.0;
        proof {
            lemma_vpn_index(vpn, vpn);
        }
        assert((vpn >> 9) >> 9 == vpn >> 18) by (bit_vector);
        let mut idxs: [usize; 3] = [0usize; 3];
        let mut rest: u64 = vpn;
        idxs[2] = (rest & 0x1ff) as usize;
        rest = rest >> 9;
        idxs[1] = (rest & 0x1ff) as usize;
        rest = rest >> 9;
        idxs[0] = (rest & 0x1ff) as usize;
        idxs
    }
}

impl From<u64> for PhysAddr {
    /// Keeps the low 56 bits.
    fn from(v: u64) -> (r: Self) {
        PhysAddr(v & 0xff_ffff_ffff_ffff)
    }
}

impl FromSpecImpl<u64> for PhysAddr {
    open spec fn obeys_from_spec() -> bool {
        true
    }

    open spec fn from_spec(v: u64) -> Self {
        PhysAddr(v & 0xff_ffff_ffff_ffff)
    }
}

impl From<u64> for PhysPageNum {
    /// Keeps the low 44 bits.
    fn from(v: u64) -> (r: Self) {
        PhysPageNum(v & 0xfff_ffff_ffff)
    }
}

impl FromSpecImpl<u64> for PhysPageNum {
    open spec fn obeys_from_spec() -> bool {
        true
    }

    open spec fn from_spec(v: u64) -> Self {
        PhysPageNum(v & 0xfff_ffff_ffff)
    }
}

impl From<PhysAddr> for u64 {
    fn from(v: PhysAddr) -> (r: Self) {
        v.0
    }
}

impl FromSpecImpl<PhysAddr> for u64 {
    open spec fn obeys_from_spec() -> bool {
        true
    }

    open spec fn from_spec(v: PhysAddr) -> Self {
        v.0
    }
}

impl From<PhysPageNum> for u64 {
    fn from(v: PhysPageNum) -> (r: Self) {
        v.0
    }
}

impl FromSpecImpl<PhysPageNum> for u64 {
    open spec fn obeys_from_spec() -> bool {
        true
    }

    open spec fn from_spec(v: PhysPageNum) -> Self {
        v.0
    }
}

impl From<u64> for VirtAddr {
    /// Keeps the low 39 bits.
    fn from(v: u64) -> (r: Self) {
        VirtAddr(v & 0x7f_ffff_ffff)
    }
}

impl FromSpecImpl<u64> for VirtAddr {
    open spec fn obeys_from_spec() -> bool {
        true
    }

    open spec fn from_spec(v: u64) -> Self {
        VirtAddr(v & 0x7f_ffff_ffff)
    }
}

impl From<u64> for VirtPageNum {
    /// Keeps the low 27 bits.
    fn from(v: u64) -> (r: Self) {
        VirtPageNum(v & 0x7ff_ffff)
    }
}

impl FromSpecImpl<u64> for VirtPageNum {
    open spec fn obeys_from_spec() -> bool {
        true
    }

    open spec fn from_spec(v: u64) -> Self {
        VirtPageNum(v & 0x7ff_ffff)
    }
}

impl From<PhysAddr> for PhysPageNum {
    /// The page that holds the address; exact for an aligned address.
    fn from(v: PhysAddr) -> (r: Self) {
        PhysPageNum(v.0 / PAGE_SIZE)
    }
}

impl FromSpecImpl<PhysAddr> for PhysPageNum {
    open spec fn obeys_from_spec() -> bool {
        true
    }

    open spec fn from_spec(v: PhysAddr) -> Self {
        PhysPageNum(v.0 / 4096)
    }
}

impl From<PhysPageNum> for PhysAddr {
    /// The first address of the page.
    fn from(v: PhysPageNum) -> (r: Self) {
        PhysAddr(v.0 << 12)
    }
}

impl FromSpecImpl<PhysPageNum> for PhysAddr {
    open spec fn obeys_from_spec() -> bool {
        true
    }

    open spec fn from_spec(v: PhysPageNum) -> Self {
        PhysAddr(v.0 << 12)
    }
}

/// A 39-bit virtual address as it appears on the bus: bit 38 copied into bits 39 to 63.
pub open spec fn sign_extend_39(v: u64) -> u64 {
    if v >= 0x40_0000_0000 {
        v | 0xffff_ff80_0000_0000
    } else {
        v
    }
}

impl From<VirtAddr> for u64 {
    /// The address sign-extended from bit 38.
    fn from(v: VirtAddr) -> (r: Self) {
        if v.0 >= 0x40_0000_0000 {
            v.0 | 0xffff_ff80_0000_0000
        } else {
            v.0
        }
    }
}

impl FromSpecImpl<VirtAddr> for u64 {
    open spec fn obeys_from_spec() -> bool {
        true
    }

    open spec fn from_spec(v: VirtAddr) -> Self {
        sign_extend_39(v.0)
    }
}

impl From<VirtPageNum> for u64 {
    fn from(v: VirtPageNum) -> (r: Self) {
        v.0
    }
}

impl FromSpecImpl<VirtPageNum> for u64 {
    open spec fn obeys_from_spec() -> bool {
        true
    }

    open spec fn from_spec(v: VirtPageNum) -> Self {
        v.0
    }
}

impl From<VirtAddr> for VirtPageNum {
    /// The page that holds the address; exact for an aligned address.
    fn from(v: VirtAddr) -> (r: Self) {
        VirtPageNum(v.0 / PAGE_SIZE)
    }
}

impl FromSpecImpl<VirtAddr> for VirtPageNum {
    open spec fn obeys_from_spec() -> bool {
        true
    }

    open spec fn from_spec(v: VirtAddr) -> Self {
        VirtPageNum(v.0 / 4096)
    }
}

impl From<VirtPageNum> for VirtAddr {
    /// The first address of the page.
    fn from(v: VirtPageNum) -> (r: Self) {
        VirtAddr(v.0 << 12)
    }
}

impl FromSpecImpl<VirtPageNum> for VirtAddr {
    open spec fn obeys_from_spec() -> bool {
        true
    }

    open spec fn from_spec(v: VirtPageNum) -> Self {
        VirtAddr(v.0 << 12)
    }
}

/// A position that can move forward one place at a time.
pub trait StepByOne: Sized {
    /// Where the value stands, counted in steps.
    spec fn position(&self) -> int;

    /// Whether a further step exists.
    spec fn can_step(&self) -> bool;

    /// Moves one place forward.
    fn step(&mut self)
        requires
            old(self).can_step(),
        ensures
            final(self).position() == old(self).position() + 1,
    ;

    /// Whether two values stand at the same place.
    fn same_position(&self, other: &Self) -> (r: bool)
        ensures
            r == (self.position() == other.position()),
    ;
}

impl StepByOne for VirtPageNum {
    open spec fn position(&self) -> int {
        self.0 as int
    }

    open spec fn can_step(&self) -> bool {
        self.0 < u64::MAX
    }

    fn step(&mut self) {
        self.0 = self.0 + 1;
    }

    fn same_position(&self, other: &Self) -> (r: bool) {
        self.0 == other.0
    }
}

/// The half-open range of positions from `l` up to `r`.
#[derive(Clone, Copy)]
pub struct SimpleRange<T: StepByOne + Copy> {
    l: T,
    r: T,
}

impl<T: StepByOne + Copy> SimpleRange<T> {
    /// First position of the range.
    pub closed spec fn start(&self) -> T {
        self.l
    }

    /// Position just past the range.
    pub closed spec fn end(&self) -> T {
        self.r
    }

    /// The range from `start` up to, not including, `end`.
    pub fn new(start: T, end: T) -> (r: Self)
        ensures
            r.start() == start,
            r.end() == end,
    {
        Self { l: start, r: end }
    }

    /// First position of the range.
    pub fn get_start(&self) -> (r: T)
        ensures
            r == self.start(),
    {
        self.l
    }

    /// Position just past the range.
    pub fn get_end(&self) -> (r: T)
        ensures
            r == self.end(),
    {
        self.r
    }

    /// A cursor that walks the range from its start.
    pub fn into_iter(self) -> (r: SimpleRangeIterator<T>)
        ensures
            r.current() == self.start(),
            r.end() == self.end(),
    {
        SimpleRangeIterator::new(self.l, self.r)
    }
}

/// A cursor over a range of positions.
pub struct SimpleRangeIterator<T: StepByOne + Copy> {
    current: T,
    end: T,
}

impl<T: StepByOne + Copy> SimpleRangeIterator<T> {
    /// The position that `next` hands out next.
    pub closed spec fn current(&self) -> T {
        self.current
    }

    /// The position at which the cursor stops.
    pub closed spec fn end(&self) -> T {
        self.end
    }

    /// A cursor from `l` up to, not including, `r`.
    pub fn new(l: T, r: T) -> (it: Self)
        ensures
            it.current() == l,
            it.end() == r,
    {
        Self { current: l, end: r }
    }

    /// Hands out the current position and moves past it, or `None` at the end.
    pub fn next(&mut self) -> (r: Option<T>)
        requires
            !old(self).at_end() ==> old(self).current().can_step(),
        ensures
            final(self).end() == old(self).end(),
            old(self).at_end() ==> r is None && final(self).current() == old(self).current(),
            !old(self).at_end() ==> r == Some(old(self).current())
                && final(self).current().position() == old(self).current().position() + 1,
    {
        if self.current.same_position(&self.end) {
            None
        } else {
            let t = self.current;
            self.current.step();
            Some(t)
        }
    }

    /// Whether the cursor has reached its end.
    pub open spec fn at_end(&self) -> bool {
        self.current().position() == self.end().position()
    }
}

/// A range of virtual page numbers.
pub type VPNRange = SimpleRange<VirtPageNum>;

} // verus!
