//! Addresses and page numbers of the SV39 scheme, the rules that convert
//! between them, and the half-open ranges of page numbers.
use crate::config::{PAGE_SIZE, PAGE_SIZE_BITS};
use vstd::prelude::*;

verus! {

/// Low 56 bits: the physical address space of SV39.
pub const PA_MASK: u64 = 0x00ff_ffff_ffff_ffff;
/// Low 39 bits: the virtual address space of SV39.
pub const VA_MASK: u64 = 0x0000_007f_ffff_ffff;
/// Low 44 bits: a physical page number of SV39.
pub const PPN_MASK: u64 = 0x0000_0fff_ffff_ffff;
/// Low 12 bits: the offset inside a page.
pub const OFFSET_MASK: u64 = 0xfff;
/// Low 9 bits: one index of a three-level walk.
pub const INDEX_MASK: u64 = 0x1ff;

/// The address `x` rounded down to a page, as a page number.
pub open spec fn page_floor(x: int) -> int {
    x / PAGE_SIZE as int
}

/// The address `x` rounded up to a page, as a page number.
pub open spec fn page_ceil(x: int) -> int {
    (x + PAGE_SIZE as int - 1) / PAGE_SIZE as int
}

/// The three 9-bit indexes of a virtual page number, highest level first.
pub open spec fn vpn_index(vpn: u64, level: int) -> usize {
    if level == 0 {
        ((vpn >> 18u64) & 0x1ffu64) as usize
    } else if level == 1 {
        ((vpn >> 9u64) & 0x1ffu64) as usize
    } else {
        (vpn & 0x1ffu64) as usize
    }
}

/// The 64-bit value that a 39-bit virtual address stands for: bit 38 is
/// copied into all higher bits.
pub open spec fn sign_extend_va(v: u64) -> u64 {
    if v >= 0x40_0000_0000u64 {
        v | !VA_MASK
    } else {
        v
    }
}

/// Masking with a low-bits mask is taking the remainder by a power of two.
pub proof fn lemma_masks_are_remainders(v: u64)
    ensures
        v & PA_MASK == v % 0x100_0000_0000_0000,
        v & VA_MASK == v % 0x80_0000_0000,
        v & PPN_MASK == v % 0x1000_0000_0000,
        v & OFFSET_MASK == v % 4096,
        v & INDEX_MASK == v % 512,
{
    crate::bits::lemma_u64_masks();
}

/// Shifting a page number left by the page bits multiplies it by the page
/// size, as long as nothing is shifted out.
pub proof fn lemma_shift_page(v: u64)
    requires
        v < 0x10_0000_0000_0000,
    ensures
        v << 12u64 == v * 4096,
        (v << 12u64) / 4096 == v,
        (v << 12u64) % 4096 == 0,
{
    vstd::arithmetic::power2::lemma2_to64();
    vstd::bits::lemma_u64_shl_is_mul(v, 12);
}

/// A physical address.
#[derive(Copy, Clone, Debug, PartialEq, Eq, Structural, PartialOrd, Ord)]
pub struct PhysAddr(pub u64);

/// A physical page number.
#[derive(Copy, Clone, Debug, PartialEq, Eq, Structural, PartialOrd, Ord)]
pub struct PhysPageNum(pub u64);

/// A virtual address.
#[derive(Copy, Clone, Debug, PartialEq, Eq, Structural, PartialOrd, Ord)]
pub struct VirtAddr(pub u64);

/// A virtual page number.
#[derive(Copy, Clone, Debug, PartialEq, Eq, Structural, PartialOrd, Ord)]
pub struct VirtPageNum(pub u64);

/// Only the low 56 bits of a `u64` make a physical address.
impl From<u64> for PhysAddr {
    fn from(v: u64) -> (r: Self) {
        PhysAddr(v & PA_MASK)
    }
}

impl vstd::std_specs::convert::FromSpecImpl<u64> for PhysAddr {
    open spec fn obeys_from_spec() -> bool {
        true
    }

    open spec fn from_spec(v: u64) -> PhysAddr {
        PhysAddr(v & PA_MASK)
    }
}

/// The first address of a physical page.
impl From<PhysPageNum> for PhysAddr {
    fn from(v: PhysPageNum) -> (r: Self) {
        PhysAddr(v.0 << PAGE_SIZE_BITS)
    }
}

impl vstd::std_specs::convert::FromSpecImpl<PhysPageNum> for PhysAddr {
    open spec fn obeys_from_spec() -> bool {
        true
    }

    open spec fn from_spec(v: PhysPageNum) -> PhysAddr {
        PhysAddr(v.0 << 12u64)
    }
}

/// Only the low 44 bits of a `u64` make a physical page number.
impl From<u64> for PhysPageNum {
    fn from(v: u64) -> (r: Self) {
        PhysPageNum(v & PPN_MASK)
    }
}

impl vstd::std_specs::convert::FromSpecImpl<u64> for PhysPageNum {
    open spec fn obeys_from_spec() -> bool {
        true
    }

    open spec fn from_spec(v: u64) -> PhysPageNum {
        PhysPageNum(v & PPN_MASK)
    }
}

/// Only the low 39 bits of a `u64` make a virtual address.
impl From<u64> for VirtAddr {
    fn from(v: u64) -> (r: Self) {
        VirtAddr(v & VA_MASK)
    }
}

impl vstd::std_specs::convert::FromSpecImpl<u64> for VirtAddr {
    open spec fn obeys_from_spec() -> bool {
        true
    }

    open spec fn from_spec(v: u64) -> VirtAddr {
        VirtAddr(v & VA_MASK)
    }
}

/// The first address of a virtual page.
impl From<VirtPageNum> for VirtAddr {
    fn from(v: VirtPageNum) -> (r: Self) {
        VirtAddr(v.0 << PAGE_SIZE_BITS)
    }
}

impl vstd::std_specs::convert::FromSpecImpl<VirtPageNum> for VirtAddr {
    open spec fn obeys_from_spec() -> bool {
        true
    }

    open spec fn from_spec(v: VirtPageNum) -> VirtAddr {
        VirtAddr(v.0 << 12u64)
    }
}

/// Every `u64` is a virtual page number.
impl From<u64> for VirtPageNum {
    fn from(v: u64) -> (r: Self) {
        VirtPageNum(v)
    }
}

impl vstd::std_specs::convert::FromSpecImpl<u64> for VirtPageNum {
    open spec fn obeys_from_spec() -> bool {
        true
    }

    open spec fn from_spec(v: u64) -> VirtPageNum {
        VirtPageNum(v)
    }
}

/// A virtual address read back as a 64-bit value: the high bits copy bit 38.
impl From<VirtAddr> for u64 {
    fn from(v: VirtAddr) -> (r: u64) {
        if v.0 >= 0x40_0000_0000u64 {
            v.0 | !VA_MASK
        } else {
            v.0
        }
    }
}

impl vstd::std_specs::convert::FromSpecImpl<VirtAddr> for u64 {
    open spec fn obeys_from_spec() -> bool {
        true
    }

    open spec fn from_spec(v: VirtAddr) -> u64 {
        sign_extend_va(v.0)
    }
}

/// A physical address read back as a `u64`.
impl From<PhysAddr> for u64 {
    fn from(v: PhysAddr) -> (r: u64) {
        v.0
    }
}

impl vstd::std_specs::convert::FromSpecImpl<PhysAddr> for u64 {
    open spec fn obeys_from_spec() -> bool {
        true
    }

    open spec fn from_spec(v: PhysAddr) -> u64 {
        v.0
    }
}

/// A physical page number read back as a `u64`.
impl From<PhysPageNum> for u64 {
    fn from(v: PhysPageNum) -> (r: u64) {
        v.0
    }
}

impl vstd::std_specs::convert::FromSpecImpl<PhysPageNum> for u64 {
    open spec fn obeys_from_spec() -> bool {
        true
    }

    open spec fn from_spec(v: PhysPageNum) -> u64 {
        v.0
    }
}

impl PhysAddr {
    /// The offset of the address inside its page.
    pub fn page_offset(&self) -> (r: u64)
        ensures
            r == self.0 % 4096,
            r < PAGE_SIZE,
    {
        proof {
            lemma_masks_are_remainders(self.0);
        }
        self.0 & OFFSET_MASK
    }

    /// The page that holds the address.
    pub fn floor(&self) -> (r: PhysPageNum)
        ensures
            r.0 == page_floor(self.0 as int),
    {
        PhysPageNum(self.0 / PAGE_SIZE)
    }

    /// The first page that starts at or after the address.
    pub fn ceil(&self) -> (r: PhysPageNum)
        requires
            self.0 + PAGE_SIZE <= u64::MAX,
        ensures
            r.0 == page_ceil(self.0 as int),
    {
        PhysPageNum((self.0 + PAGE_SIZE - 1) / PAGE_SIZE)
    }

    /// Whether the address starts a page.
    pub fn aligned(&self) -> (r: bool)
        ensures
            r == (self.0 % 4096 == 0),
    {
        self.page_offset() == 0
    }

    /// The page that an address at the start of a page begins.
    pub fn to_page_num(&self) -> (r: PhysPageNum)
        requires
            self.0 % 4096 == 0,
        ensures
            r.0 * 4096 == self.0,
    {
        self.floor()
    }
}

impl VirtAddr {
    /// The page that holds the address.
    pub fn floor(&self) -> (r: VirtPageNum)
        ensures
            r.0 == page_floor(self.0 as int),
    {
        VirtPageNum(self.0 / PAGE_SIZE)
    }

    /// The first page that starts at or after the address. The address is
    /// decremented first, so address 0 is out of its domain.
    pub fn ceil(&self) -> (r: VirtPageNum)
        requires
            1 <= self.0,
            self.0 - 1 + PAGE_SIZE <= u64::MAX,
        ensures
            r.0 == page_ceil(self.0 as int),
    {
        VirtPageNum((self.0 - 1 + PAGE_SIZE) / PAGE_SIZE)
    }

    /// The offset of the address inside its page.
    pub fn page_offset(&self) -> (r: u64)
        ensures
            r == self.0 % 4096,
            r < PAGE_SIZE,
    {
        proof {
            lemma_masks_are_remainders(self.0);
        }
        self.0 & OFFSET_MASK
    }

    /// Whether the address starts a page.
    pub fn aligned(&self) -> (r: bool)
        ensures
            r == (self.0 % 4096 == 0),
    {
        self.page_offset() == 0
    }

    /// The page that an address at the start of a page begins.
    pub fn to_page_num(&self) -> (r: VirtPageNum)
        requires
            self.0 % 4096 == 0,
        ensures
            r.0 * 4096 == self.0,
    {
        self.floor()
    }
}

impl PhysPageNum {
    /// The page `n` pages after this one.
    pub fn add_pages(&self, n: u64) -> (r: PhysPageNum)
        requires
            self.0 + n <= u64::MAX,
        ensures
            r.0 == self.0 + n,
    {
        PhysPageNum(self.0 + n)
    }
}

impl VirtPageNum {
    /// Page number 0.
    pub fn empty() -> (r: Self)
        ensures
            r.0 == 0,
    {
        VirtPageNum(0)
    }

    /// The indexes into the three levels of the page table, highest level
    /// first: bits 18..27, 9..18 and 0..9 of the page number.
    pub fn indexes(&self) -> (r: [usize; 3])
        ensures
            r@.len() == 3,
            forall|i: int| 0 <= i < 3 ==> #[trigger] r@[i] == vpn_index(self.0, i),
            forall|i: int| 0 <= i < 3 ==> #[trigger] r@[i] < 512,
    {
        let mut vpn = self.0;
        let i2 = (vpn & INDEX_MASK) as usize;
        vpn = vpn >> 9u64;
        let i1 = (vpn & INDEX_MASK) as usize;
        vpn = vpn >> 9u64;
        let i0 = (vpn & INDEX_MASK) as usize;
        let v = self.0;
        assert((v >> 9u64) & 0x1ffu64 == (v >> 9u64) & 0x1ffu64);
        proof {
            crate::bits::lemma_u64_masks();
        }
        assert(((v >> 9u64) >> 9u64) == v >> 18u64);
        assert(v & 0x1ffu64 < 512);
        assert((v >> 9u64) & 0x1ffu64 < 512);
        assert((v >> 18u64) & 0x1ffu64 < 512);
        let r = [i0, i1, i2];
        assert(r@ =~= seq![i0, i1, i2]);
        r
    }

    /// The number of pages from `other` up to this page.
    pub fn pages_since(&self, other: VirtPageNum) -> (r: u64)
        requires
            other.0 <= self.0,
        ensures
            r == self.0 - other.0,
    {
        self.0 - other.0
    }

    /// The page `rhs.0` pages after this one.
    pub fn add_pages(&self, rhs: VirtPageNum) -> (r: VirtPageNum)
        requires
            self.0 + rhs.0 <= u64::MAX,
        ensures
            r.0 == self.0 + rhs.0,
    {
        VirtPageNum(self.0 + rhs.0)
    }
}

/// A page number that can be advanced by one page.
pub trait StepByOne: Sized {
    /// The page number as an integer.
    spec fn step_value(&self) -> u64;

    /// The page number as an integer.
    fn value(&self) -> (r: u64)
        ensures
            r == self.step_value(),
    ;

    /// Advances to the next page.
    fn step(&mut self)
        requires
            old(self).step_value() < u64::MAX,
        ensures
            final(self).step_value() == old(self).step_value() + 1,
    ;
}

impl StepByOne for VirtPageNum {
    open spec fn step_value(&self) -> u64 {
        self.0
    }

    fn value(&self) -> (r: u64) {
        self.0
    }

    fn step(&mut self) {
        self.0 = self.0 + 1;
    }
}

impl StepByOne for PhysPageNum {
    open spec fn step_value(&self) -> u64 {
        self.0
    }

    fn value(&self) -> (r: u64) {
        self.0
    }

    fn step(&mut self) {
        self.0 = self.0 + 1;
    }
}

/// The half-open range of pages `[l, r)`.
#[derive(Copy, Clone)]
pub struct SimpleRange<T: StepByOne + Copy> {
    l: T,
    r: T,
}

/// A range of virtual page numbers.
pub type VPNRange = SimpleRange<VirtPageNum>;

impl<T: StepByOne + Copy> SimpleRange<T> {
    /// The first page of the range.
    pub closed spec fn start(&self) -> T {
        self.l
    }

    /// The page right after the range.
    pub closed spec fn end(&self) -> T {
        self.r
    }

    /// The page numbers of the range, in increasing order: `start`,
    /// `start + 1`, and so on, up to the one before `end`.
    pub open spec fn values(&self) -> Seq<u64> {
        Seq::new(
            (self.end().step_value() - self.start().step_value()) as nat,
            |i: int| (self.start().step_value() + i) as u64,
        )
    }

    /// The range `[start, end)`; `start` may not lie after `end`. Its pages
    /// (see `pages`) are exactly the numbers from `start` up to `end`.
    pub fn new(start: T, end: T) -> (r: Self)
        requires
            start.step_value() <= end.step_value(),
        ensures
            r.start() == start,
            r.end() == end,
            r.values().len() == end.step_value() - start.step_value(),
            forall|i: int| 0 <= i < r.values().len() ==> #[trigger] r.values()[i] == start.step_value() + i,
    {
        SimpleRange { l: start, r: end }
    }

    /// The first page of the range.
    pub fn get_start(&self) -> (r: T)
        ensures
            r == self.start(),
    {
        self.l
    }

    /// The page right after the range.
    pub fn get_end(&self) -> (r: T)
        ensures
            r == self.end(),
    {
        self.r
    }

    /// Moves the end of the range (a heap grows this way).
    pub fn set_end(&mut self, end: T)
        ensures
            final(self).start() == old(self).start(),
            final(self).end() == end,
    {
        self.r = end;
    }

    /// Whether the page numbered `v` lies in the range.
    pub fn contains_value(&self, v: u64) -> (r: bool)
        ensures
            r == (self.start().step_value() <= v < self.end().step_value()),
    {
        self.l.value() <= v && v < self.r.value()
    }

    /// The pages of the range, as its iterator hands them out: exactly
    /// `start`, `start + 1`, and so on, up to the one before `end`.
    pub fn pages(&self) -> (r: Vec<T>)
        requires
            self.start().step_value() <= self.end().step_value(),
        ensures
            r@.len() == self.end().step_value() - self.start().step_value(),
            forall|i: int| 0 <= i < r@.len() ==> #[trigger] r@[i].step_value() == self.start().step_value() + i,
            r@.map_values(|p: T| p.step_value()) == self.values(),
    {
        let mut it = self.iter();
        let mut out: Vec<T> = Vec::new();
        loop
            invariant
                it.stop() == self.end(),
                self.start().step_value() <= it.current().step_value() <= it.stop().step_value(),
                out@.len() == it.current().step_value() - self.start().step_value(),
                forall|i: int| 0 <= i < out@.len() ==> #[trigger] out@[i].step_value() == self.start().step_value() + i,
            decreases it.stop().step_value() - it.current().step_value(),
        {
            match it.next() {
                Some(p) => {
                    out.push(p);
                },
                None => {
                    assert(out@.map_values(|p: T| p.step_value()) =~= self.values());
                    return out;
                },
            }
        }
    }

    /// An iterator over the pages of the range, in increasing order.
    pub fn iter(&self) -> (it: SimpleRangeIterator<T>)
        ensures
            it.current() == self.start(),
            it.stop() == self.end(),
    {
        SimpleRangeIterator::new(self.l, self.r)
    }
}

/// The pages of a range, handed out one by one.
pub struct SimpleRangeIterator<T: StepByOne + Copy> {
    current: T,
    end: T,
}

impl<T: StepByOne + Copy> SimpleRangeIterator<T> {
    /// The next page to hand out.
    pub closed spec fn current(&self) -> T {
        self.current
    }

    /// The page at which the iteration stops.
    pub closed spec fn stop(&self) -> T {
        self.end
    }

    /// An iterator from `l` up to, not including, `r`.
    pub fn new(l: T, r: T) -> (it: Self)
        ensures
            it.current() == l,
            it.stop() == r,
    {
        SimpleRangeIterator { current: l, end: r }
    }

    /// Hands out the current page and advances, or `None` once the end is
    /// reached.
    pub fn next(&mut self) -> (r: Option<T>)
        requires
            old(self).current().step_value() <= old(self).stop().step_value(),
        ensures
            final(self).stop() == old(self).stop(),
            final(self).current().step_value() <= final(self).stop().step_value(),
            old(self).current().step_value() == old(self).stop().step_value() ==> {
                &&& r is None
                &&& final(self).current() == old(self).current()
            },
            old(self).current().step_value() < old(self).stop().step_value() ==> {
                &&& r == Some(old(self).current())
                &&& final(self).current().step_value() == old(self).current().step_value() + 1
            },
    {
        if self.current.value() == self.end.value() {
            None
        } else {
            let t = self.current;
            self.current.step();
            Some(t)
        }
    }
}

} // verus!
