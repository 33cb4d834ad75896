//! Physical / virtual addresses and page numbers with sv39 widths, page
//! arithmetic, and iteration over ranges of virtual pages.

use vstd::prelude::*;

verus! {

/// A 56-bit sv39 physical address.
#[derive(Clone, Copy, PartialEq, Eq, Structural, Debug)]
pub struct PhysAddr(pub u64);

/// A 39-bit sv39 virtual address.
#[derive(Clone, Copy, PartialEq, Eq, Structural, Debug)]
pub struct VirtAddr(pub u64);

/// A 44-bit physical page number: a physical address shifted right by 12.
#[derive(Clone, Copy, PartialEq, Eq, Structural, Debug)]
pub struct PhysPageNum(pub u64);

/// A 27-bit virtual page number: a virtual address shifted right by 12.
#[derive(Clone, Copy, PartialEq, Eq, Structural, Debug)]
pub struct VirtPageNum(pub u64);

/// Width of a physical address.
pub const PA_WIDTH_SV39: u64 = 56;

/// Width of a virtual address.
pub const VA_WIDTH_SV39: u64 = 39;

/// Width of a physical page number.
pub const PPN_WIDTH_SV39: u64 = 44;

/// Width of a virtual page number.
pub const VPN_WIDTH_SV39: u64 = 27;

/// An address type with a page offset; implemented by both address kinds.
pub trait PageAddr: Sized + Copy {
    /// The raw address value.
    spec fn addr_value(self) -> u64;

    /// The offset of the address within its page.
    fn page_offset(self) -> (r: u64)
        ensures
            r == self.addr_value() % 4096,
    ;

    /// Whether the address sits on a page boundary.
    fn aligned(self) -> (r: bool)
        ensures
            r == (self.addr_value() % 4096 == 0),
    ;
}

impl PhysAddr {
    /// Whether the address fits the sv39 physical width.
    pub open spec fn wf(self) -> bool {
        self.0 < 0x0100_0000_0000_0000u64
    }

    /// Keeps the low 56 bits of `value`.
    pub fn new(value: u64) -> (r: Self)
        ensures
            r.0 == value % 0x0100_0000_0000_0000u64,
            r.wf(),
            value < 0x0100_0000_0000_0000u64 ==> r.0 == value,
    {
        proof {
            assert((value & 0x00FF_FFFF_FFFF_FFFF) == value % 0x0100_0000_0000_0000
                && (value & 0x00FF_FFFF_FFFF_FFFF) < 0x0100_0000_0000_0000
                && (value < 0x0100_0000_0000_0000 ==> (value & 0x00FF_FFFF_FFFF_FFFF) == value))
                by (bit_vector);
        }
        PhysAddr(value & 0x00FF_FFFF_FFFF_FFFF)
    }

    /// The page containing this address.
    pub fn floor(self) -> (r: PhysPageNum)
        ensures
            r.0 == self.addr_value() / 4096,
            self.wf() ==> r.wf(),
    {
        proof {
            let v = self.0;
            assert(v < 0x0100_0000_0000_0000u64 ==> v / 4096 < 0x1000_0000_0000u64)
                by (bit_vector);
        }
        PhysPageNum(self.0 / 4096)
    }

    /// The first page boundary at or above this address; the result is
    /// masked to the page-number width, so an address in the last page of
    /// the physical space rounds to page zero.
    pub fn ceil(self) -> (r: PhysPageNum)
        requires
            self.wf(),
        ensures
            r.wf(),
            self.addr_value() + 4095 < 0x0100_0000_0000_0000u64 ==> r.0 == (self.addr_value()
                + 4095) / 4096,
    {
        proof {
            assert(self.0 + 4095 < 0x0100_0000_0000_0000u64 ==> (self.0 + 4095) / 4096
                < 0x1000_0000_0000u64) by (nonlinear_arith);
        }
        PhysPageNum::new((self.0 + 4095) / 4096)
    }

    /// The page number of a page-aligned address.
    pub fn page_num(self) -> (r: PhysPageNum)
        requires
            self.addr_value() % 4096 == 0,
        ensures
            r.0 == self.addr_value() / 4096,
            self.wf() ==> r.wf(),
    {
        self.floor()
    }
}

impl PageAddr for PhysAddr {
    open spec fn addr_value(self) -> u64 {
        self.0
    }

    fn page_offset(self) -> (r: u64) {
        self.0 % 4096
    }

    fn aligned(self) -> (r: bool) {
        self.0 % 4096 == 0
    }
}

impl VirtAddr {
    /// Whether the address fits the sv39 virtual width.
    pub open spec fn wf(self) -> bool {
        self.0 < 0x80_0000_0000u64
    }

    /// Keeps the low 39 bits of `value`.
    pub fn new(value: u64) -> (r: Self)
        ensures
            r.0 == value % 0x80_0000_0000u64,
            r.wf(),
            value < 0x80_0000_0000u64 ==> r.0 == value,
    {
        proof {
            assert((value & 0x7F_FFFF_FFFF) == value % 0x80_0000_0000
                && (value & 0x7F_FFFF_FFFF) < 0x80_0000_0000
                && (value < 0x80_0000_0000 ==> (value & 0x7F_FFFF_FFFF) == value))
                by (bit_vector);
        }
        VirtAddr(value & 0x7F_FFFF_FFFF)
    }

    /// The page containing this address.
    pub fn floor(self) -> (r: VirtPageNum)
        ensures
            r.0 == self.addr_value() / 4096,
            self.wf() ==> r.wf(),
    {
        proof {
            let v = self.0;
            assert(v < 0x80_0000_0000u64 ==> v / 4096 < 0x800_0000u64) by (bit_vector);
        }
        VirtPageNum(self.0 / 4096)
    }

    /// The first page boundary at or above this address; the result is
    /// masked to the page-number width, so an address in the last page of
    /// the virtual space rounds to page zero.
    pub fn ceil(self) -> (r: VirtPageNum)
        requires
            self.wf(),
        ensures
            r.wf(),
            self.addr_value() + 4095 < 0x80_0000_0000u64 ==> r.0 == (self.addr_value() + 4095)
                / 4096,
    {
        proof {
            assert(self.0 + 4095 < 0x80_0000_0000u64 ==> (self.0 + 4095) / 4096
                < 0x800_0000u64) by (nonlinear_arith);
        }
        VirtPageNum::new((self.0 + 4095) / 4096)
    }

    /// The page number of a page-aligned address.
    pub fn page_num(self) -> (r: VirtPageNum)
        requires
            self.addr_value() % 4096 == 0,
        ensures
            r.0 == self.addr_value() / 4096,
            self.wf() ==> r.wf(),
    {
        self.floor()
    }
}

impl PageAddr for VirtAddr {
    open spec fn addr_value(self) -> u64 {
        self.0
    }

    fn page_offset(self) -> (r: u64) {
        self.0 % 4096
    }

    fn aligned(self) -> (r: bool) {
        self.0 % 4096 == 0
    }
}

impl PhysPageNum {
    /// Whether the page number fits the sv39 physical width.
    pub open spec fn wf(self) -> bool {
        self.0 < 0x1000_0000_0000u64
    }

    /// Keeps the low 44 bits of `value`.
    pub fn new(value: u64) -> (r: Self)
        ensures
            r.0 == value % 0x1000_0000_0000u64,
            r.wf(),
            value < 0x1000_0000_0000u64 ==> r.0 == value,
    {
        proof {
            assert((value & 0xFFF_FFFF_FFFF) == value % 0x1000_0000_0000
                && (value & 0xFFF_FFFF_FFFF) < 0x1000_0000_0000
                && (value < 0x1000_0000_0000 ==> (value & 0xFFF_FFFF_FFFF) == value))
                by (bit_vector);
        }
        PhysPageNum(value & 0xFFF_FFFF_FFFF)
    }

    /// The first address of the page.
    pub fn base_addr(self) -> (r: PhysAddr)
        requires
            self.wf(),
        ensures
            r.0 == self.0 * 4096,
            r.wf(),
            r.0 % 4096 == 0,
    {
        proof {
            assert(self.0 * 4096 < 0x0100_0000_0000_0000u64 && self.0 * 4096 % 4096 == 0)
                by (nonlinear_arith)
                requires self.0 < 0x1000_0000_0000u64;
        }
        PhysAddr(self.0 * 4096)
    }
}

impl VirtPageNum {
    /// Whether the page number fits the sv39 virtual width.
    pub open spec fn wf(self) -> bool {
        self.0 < 0x800_0000u64
    }

    /// Keeps the low 27 bits of `value`.
    pub fn new(value: u64) -> (r: Self)
        ensures
            r.0 == value % 0x800_0000u64,
            r.wf(),
            value < 0x800_0000u64 ==> r.0 == value,
    {
        proof {
            assert((value & 0x7FF_FFFF) == value % 0x800_0000
                && (value & 0x7FF_FFFF) < 0x800_0000
                && (value < 0x800_0000 ==> (value & 0x7FF_FFFF) == value))
                by (bit_vector);
        }
        VirtPageNum(value & 0x7FF_FFFF)
    }

    /// The first address of the page.
    pub fn base_addr(self) -> (r: VirtAddr)
        requires
            self.wf(),
        ensures
            r.0 == self.0 * 4096,
            r.wf(),
            r.0 % 4096 == 0,
    {
        proof {
            assert(self.0 * 4096 < 0x80_0000_0000u64 && self.0 * 4096 % 4096 == 0)
                by (nonlinear_arith)
                requires self.0 < 0x800_0000u64;
        }
        VirtAddr(self.0 * 4096)
    }

    /// The level-0 (root) index of the page-table walk.
    pub open spec fn spec_idx0(self) -> u64 {
        (self.0 >> 18) & 0x1FF
    }

    /// The level-1 index of the page-table walk.
    pub open spec fn spec_idx1(self) -> u64 {
        (self.0 >> 9) & 0x1FF
    }

    /// The level-2 (leaf) index of the page-table walk.
    pub open spec fn spec_idx2(self) -> u64 {
        self.0 & 0x1FF
    }

    /// The three 9-bit page-table indices of this page number, top level
    /// first.
    pub fn indexes(&self) -> (r: [u64; 3])
        ensures
            r@[0] == self.spec_idx0(),
            r@[1] == self.spec_idx1(),
            r@[2] == self.spec_idx2(),
    {
        let r = [(self.0 >> 18) & 0x1FF, (self.0 >> 9) & 0x1FF, self.0 & 0x1FF];
        r
    }
}

/// Each index of the walk is below the node width.
pub proof fn lemma_indexes_bounded(vpn: VirtPageNum)
    ensures
        vpn.spec_idx0() < 512,
        vpn.spec_idx1() < 512,
        vpn.spec_idx2() < 512,
{
    let v = vpn.0;
    assert(((v >> 18) & 0x1FF) < 512 && ((v >> 9) & 0x1FF) < 512 && (v & 0x1FF) < 512)
        by (bit_vector);
}

/// The three indices of the walk determine a well-formed page number:
/// two distinct page numbers differ in at least one index.
pub proof fn lemma_indexes_injective(a: VirtPageNum, b: VirtPageNum)
    requires
        a.wf(),
        b.wf(),
        a.spec_idx0() == b.spec_idx0(),
        a.spec_idx1() == b.spec_idx1(),
        a.spec_idx2() == b.spec_idx2(),
    ensures
        a == b,
{
    let x = a.0;
    let y = b.0;
    assert(x < 0x800_0000u64 && y < 0x800_0000u64 && ((x >> 18) & 0x1FF) == ((y >> 18) & 0x1FF)
        && ((x >> 9) & 0x1FF) == ((y >> 9) & 0x1FF) && (x & 0x1FF) == (y & 0x1FF) ==> x == y)
        by (bit_vector);
}

/// A value that walks a range one index at a time.
pub trait StepByOne: Sized + Copy {
    /// The position of the value in its range.
    spec fn index_value(self) -> u64;

    /// Advances the value by one position.
    fn step(&mut self)
        requires
            old(self).index_value() < 0xFFFF_FFFF_FFFF_FFFF,
        ensures
            final(self).index_value() == old(self).index_value() + 1,
    ;

    /// Whether two values sit at the same position.
    fn index_eq(&self, other: &Self) -> (r: bool)
        ensures
            r == (self.index_value() == other.index_value()),
    ;

    /// Whether this value sits at or before `other`.
    fn index_le(&self, other: &Self) -> (r: bool)
        ensures
            r == (self.index_value() <= other.index_value()),
    ;
}

impl StepByOne for VirtPageNum {
    open spec fn index_value(self) -> u64 {
        self.0
    }

    fn step(&mut self) {
        self.0 = self.0 + 1;
    }

    fn index_eq(&self, other: &Self) -> (r: bool) {
        self.0 == other.0
    }

    fn index_le(&self, other: &Self) -> (r: bool) {
        self.0 <= other.0
    }
}

/// A half-open range `[start, end)` of steppable values.
#[derive(Clone, Copy)]
pub struct SimpleRange<T: StepByOne> {
    start: T,
    end: T,
}

impl<T: StepByOne> SimpleRange<T> {
    /// The first value of the range.
    pub closed spec fn first(self) -> T {
        self.start
    }

    /// The past-the-end value of the range.
    pub closed spec fn last(self) -> T {
        self.end
    }

    /// Builds the range `[start, end)`.
    pub fn new(start: T, end: T) -> (r: Self)
        requires
            start.index_value() <= end.index_value(),
        ensures
            r.first() == start,
            r.last() == end,
    {
        SimpleRange { start, end }
    }

    /// Returns the first value of the range.
    pub fn start(&self) -> (r: T)
        ensures
            r == self.first(),
    {
        self.start
    }

    /// Returns the past-the-end value of the range.
    pub fn end(&self) -> (r: T)
        ensures
            r == self.last(),
    {
        self.end
    }

    /// An iterator over the range.
    pub fn iter(&self) -> (r: SimpleRangeIterator<T>)
        requires
            self.first().index_value() <= self.last().index_value(),
        ensures
            r.inv(),
            r.current() == self.first(),
            r.past_end() == self.last(),
    {
        SimpleRangeIterator::new(self.start, self.end)
    }
}

/// Walks a `SimpleRange` from its start to its end.
pub struct SimpleRangeIterator<T: StepByOne> {
    current: T,
    end: T,
}

impl<T: StepByOne> SimpleRangeIterator<T> {
    /// The next value the iterator will yield.
    pub closed spec fn current(self) -> T {
        self.current
    }

    /// The value at which the iterator stops.
    pub closed spec fn past_end(self) -> T {
        self.end
    }

    /// The iterator has not run past its end.
    pub open spec fn inv(self) -> bool {
        self.current().index_value() <= self.past_end().index_value()
    }

    /// Builds an iterator from `current` up to `end`.
    pub fn new(current: T, end: T) -> (r: Self)
        requires
            current.index_value() <= end.index_value(),
        ensures
            r.inv(),
            r.current() == current,
            r.past_end() == end,
    {
        SimpleRangeIterator { current, end }
    }

    /// Yields the current value and advances, or stops at the end.
    pub fn next(&mut self) -> (r: Option<T>)
        requires
            old(self).inv(),
        ensures
            final(self).inv(),
            final(self).past_end() == old(self).past_end(),
            match r {
                Option::None => {
                    &&& old(self).current().index_value() == old(self).past_end().index_value()
                    &&& final(self).current() == old(self).current()
                },
                Option::Some(t) => {
                    &&& old(self).current().index_value() < old(self).past_end().index_value()
                    &&& t == old(self).current()
                    &&& final(self).current().index_value() == old(self).current().index_value() + 1
                },
            },
    {
        if self.current.index_eq(&self.end) {
            None
        } else {
            let t = self.current;
            self.current.step();
            Some(t)
        }
    }
}

/// A range of virtual pages.
pub type VirtPageRange = SimpleRange<VirtPageNum>;

} // verus!
