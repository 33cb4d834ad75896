//! The physical frame allocator: a bump pointer over the frames after the
//! kernel image, with a stack of recycled frames for reuse.  A frame handed
//! out is owned by exactly one `FrameTracker` and reads as all zeros.

use vstd::prelude::*;

use crate::address::PhysAddr;
use crate::address::PhysPageNum;
use crate::phys_mem::PhysMemory;

verus! {

/// Bump-pointer allocator with a recycling stack.
pub struct StackFrameAllocator {
    next: u64,
    end: u64,
    recycled: Vec<u64>,
    start: Ghost<u64>,
}

impl StackFrameAllocator {
    /// The first page the allocator may ever hand out.
    pub closed spec fn start_ppn(self) -> u64 {
        self.start@
    }

    /// The next never-yet-handed-out page.
    pub closed spec fn next_ppn(self) -> u64 {
        self.next
    }

    /// The past-the-end page of the allocator's range.
    pub closed spec fn end_ppn(self) -> u64 {
        self.end
    }

    /// The pages currently sitting on the recycling stack.
    pub closed spec fn recycled_seq(self) -> Seq<u64> {
        self.recycled@
    }

    /// Whether `ppn` is currently handed out.
    pub open spec fn is_allocated(self, ppn: u64) -> bool {
        self.start_ppn() <= ppn < self.next_ppn() && !self.recycled_seq().contains(ppn)
    }

    /// How many frames the allocator can still hand out.
    pub open spec fn free_count(self) -> int {
        self.end_ppn() - self.next_ppn() + self.recycled_seq().len()
    }

    /// The bump pointer stays inside the range, recycled pages were handed
    /// out before and are mutually distinct, and the range fits the sv39
    /// physical width.
    pub open spec fn wf(self) -> bool {
        &&& self.start_ppn() <= self.next_ppn() <= self.end_ppn()
        &&& self.end_ppn() < 0x1000_0000_0000u64
        &&& forall|i: int|
            0 <= i < self.recycled_seq().len()
                ==> self.start_ppn() <= #[trigger] self.recycled_seq()[i] < self.next_ppn()
        &&& forall|i: int, j: int|
            0 <= i < j < self.recycled_seq().len()
                ==> self.recycled_seq()[i] != self.recycled_seq()[j]
    }

    /// An empty allocator; `init` gives it its range.
    pub fn new() -> (r: Self)
        ensures
            r.wf(),
            r.free_count() == 0,
            forall|ppn: u64| !r.is_allocated(ppn),
    {
        StackFrameAllocator { next: 0, end: 0, recycled: Vec::new(), start: Ghost(0) }
    }

    /// Gives the allocator the range `[start, end)` of physical pages.
    pub fn init(&mut self, start: PhysPageNum, end: PhysPageNum)
        requires
            start.0 <= end.0,
            end.0 < 0x1000_0000_0000u64,
            old(self).recycled_seq().len() == 0,
        ensures
            final(self).wf(),
            final(self).start_ppn() == start.0,
            final(self).next_ppn() == start.0,
            final(self).end_ppn() == end.0,
            final(self).free_count() == end.0 - start.0,
            forall|ppn: u64| !final(self).is_allocated(ppn),
    {
        self.next = start.0;
        self.end = end.0;
        proof {
            self.start@ = start.0;
        }
    }

    /// Hands out a free page: the most recently recycled one if any,
    /// otherwise the next fresh one.  Returns `None` exactly when no frame
    /// is left.
    pub fn alloc_ppn(&mut self) -> (r: Option<PhysPageNum>)
        requires
            old(self).wf(),
        ensures
            final(self).wf(),
            final(self).start_ppn() == old(self).start_ppn(),
            final(self).end_ppn() == old(self).end_ppn(),
            match r {
                Option::None => {
                    &&& old(self).free_count() == 0
                    &&& final(self).next_ppn() == old(self).next_ppn()
                    &&& final(self).recycled_seq() == old(self).recycled_seq()
                    &&& forall|q: u64|
                        final(self).is_allocated(q) == old(self).is_allocated(q)
                },
                Option::Some(ppn) => {
                    &&& ppn.wf()
                    &&& !old(self).is_allocated(ppn.0)
                    &&& final(self).is_allocated(ppn.0)
                    &&& forall|q: u64|
                        q != ppn.0 ==> final(self).is_allocated(q) == old(self).is_allocated(q)
                    &&& final(self).free_count() == old(self).free_count() - 1
                },
            },
            r is None <==> old(self).free_count() == 0,
    {
        match self.recycled.pop() {
            Some(ppn) => {
                proof {
                    assert(old(self).recycled_seq().contains(ppn)) by {
                        assert(old(self).recycled_seq()[old(self).recycled_seq().len() - 1]
                            == ppn);
                    }
                    assert forall|q: u64| q != ppn implies self.recycled_seq().contains(q)
                        == old(self).recycled_seq().contains(q) by {
                        if old(self).recycled_seq().contains(q) {
                            let i = choose|i: int|
                                0 <= i < old(self).recycled_seq().len() && old(
                                    self,
                                ).recycled_seq()[i] == q;
                            assert(i != old(self).recycled_seq().len() - 1);
                            assert(self.recycled_seq()[i] == q);
                        }
                        if self.recycled_seq().contains(q) {
                            let i = choose|i: int|
                                0 <= i < self.recycled_seq().len()
                                    && self.recycled_seq()[i] == q;
                            assert(old(self).recycled_seq()[i] == q);
                        }
                    }
                    assert(!self.recycled_seq().contains(ppn)) by {
                        if self.recycled_seq().contains(ppn) {
                            let i = choose|i: int|
                                0 <= i < self.recycled_seq().len()
                                    && self.recycled_seq()[i] == ppn;
                            assert(old(self).recycled_seq()[i] == ppn);
                        }
                    }
                }
                Some(PhysPageNum(ppn))
            },
            None => {
                if self.next == self.end {
                    None
                } else {
                    let ppn: u64 = self.next;
                    self.next = self.next + 1;
                    Some(PhysPageNum(ppn))
                }
            },
        }
    }

    /// Takes back a handed-out page.
    pub fn dealloc(&mut self, ppn: PhysPageNum)
        requires
            old(self).wf(),
            old(self).is_allocated(ppn.0),
        ensures
            final(self).wf(),
            final(self).start_ppn() == old(self).start_ppn(),
            final(self).next_ppn() == old(self).next_ppn(),
            final(self).end_ppn() == old(self).end_ppn(),
            !final(self).is_allocated(ppn.0),
            forall|q: u64|
                q != ppn.0 ==> final(self).is_allocated(q) == old(self).is_allocated(q),
            final(self).free_count() == old(self).free_count() + 1,
    {
        self.recycled.push(ppn.0);
        proof {
            assert forall|q: u64| self.recycled_seq().contains(q) implies q == ppn.0 || old(
                self,
            ).recycled_seq().contains(q) by {
                let i = choose|i: int|
                    0 <= i < self.recycled_seq().len() && self.recycled_seq()[i] == q;
                if i < old(self).recycled_seq().len() {
                    assert(old(self).recycled_seq()[i] == q);
                }
            }
            assert(self.recycled_seq().contains(ppn.0)) by {
                assert(self.recycled_seq()[self.recycled_seq().len() - 1] == ppn.0);
            }
            assert forall|q: u64| old(self).recycled_seq().contains(q) implies self
                .recycled_seq().contains(q) by {
                let i = choose|i: int|
                    0 <= i < old(self).recycled_seq().len() && old(self).recycled_seq()[i]
                        == q;
                assert(self.recycled_seq()[i] == q);
            }
        }
    }
}

/// Exclusive ownership of one handed-out physical frame.
pub struct FrameTracker {
    /// The owned frame.
    pub ppn: PhysPageNum,
}

/// The allocator's range lies inside the modelled physical memory.
pub open spec fn allocator_in_memory(fa: StackFrameAllocator, mem: PhysMemory) -> bool {
    &&& mem.base_ppn() <= fa.start_ppn()
    &&& fa.end_ppn() <= mem.base_ppn() + mem.num_frames()
}

/// Builds the allocator over `[ekernel.ceil(), memory_end.floor())`: the
/// frames between the kernel image and the end of RAM.
pub fn init_frame_allocator(ekernel: PhysAddr, memory_end: PhysAddr) -> (r: StackFrameAllocator)
    requires
        ekernel.wf(),
        memory_end.wf(),
        (ekernel.0 + 4095) / 4096 <= memory_end.0 / 4096,
    ensures
        r.wf(),
        r.start_ppn() == (ekernel.0 + 4095) / 4096,
        r.next_ppn() == r.start_ppn(),
        r.end_ppn() == memory_end.0 / 4096,
        r.free_count() == r.end_ppn() - r.start_ppn(),
        forall|ppn: u64| !r.is_allocated(ppn),
{
    let start = ekernel.ceil();
    let end = memory_end.floor();
    let mut fa = StackFrameAllocator::new();
    fa.init(start, end);
    fa
}

/// Hands out one frame wrapped in a tracker, zeroing it first: a freshly
/// allocated frame reads as all zeros.  Returns `None` exactly when no
/// frame is left.
pub fn frame_alloc(fa: &mut StackFrameAllocator, mem: &mut PhysMemory) -> (r: Option<
    FrameTracker,
>)
    requires
        old(fa).wf(),
        old(mem).wf(),
        allocator_in_memory(*old(fa), *old(mem)),
    ensures
        final(fa).wf(),
        final(mem).wf(),
        allocator_in_memory(*final(fa), *final(mem)),
        final(fa).start_ppn() == old(fa).start_ppn(),
        final(fa).end_ppn() == old(fa).end_ppn(),
        final(mem).base_ppn() == old(mem).base_ppn(),
        final(mem).num_frames() == old(mem).num_frames(),
        match r {
            Option::None => {
                &&& old(fa).free_count() == 0
                &&& final(fa).free_count() == 0
                &&& forall|q: u64| final(fa).is_allocated(q) == old(fa).is_allocated(q)
                &&& *final(mem) == *old(mem)
            },
            Option::Some(ft) => {
                &&& ft.ppn.wf()
                &&& old(mem).contains_ppn(ft.ppn.0)
                &&& !old(fa).is_allocated(ft.ppn.0)
                &&& final(fa).is_allocated(ft.ppn.0)
                &&& forall|q: u64|
                    q != ft.ppn.0 ==> final(fa).is_allocated(q) == old(fa).is_allocated(q)
                &&& final(fa).free_count() == old(fa).free_count() - 1
                &&& final(mem).frame_zero(ft.ppn.0)
                &&& forall|p: u64, k: int|
                    old(mem).contains_ppn(p) && 0 <= k < 512 && p != ft.ppn.0
                        ==> final(mem).word(p, k) == old(mem).word(p, k)
            },
        },
        r is None <==> old(fa).free_count() == 0,
{
    match fa.alloc_ppn() {
        Some(ppn) => {
            mem.zero_frame(ppn.0);
            Some(FrameTracker { ppn })
        },
        None => None,
    }
}

/// Hands out one zeroed frame; the caller guarantees one is free.
pub fn frame_alloc_must(fa: &mut StackFrameAllocator, mem: &mut PhysMemory) -> (ft: FrameTracker)
    requires
        old(fa).wf(),
        old(mem).wf(),
        allocator_in_memory(*old(fa), *old(mem)),
        old(fa).free_count() >= 1,
    ensures
        final(fa).wf(),
        final(mem).wf(),
        allocator_in_memory(*final(fa), *final(mem)),
        final(fa).start_ppn() == old(fa).start_ppn(),
        final(fa).end_ppn() == old(fa).end_ppn(),
        final(mem).base_ppn() == old(mem).base_ppn(),
        final(mem).num_frames() == old(mem).num_frames(),
        ft.ppn.wf(),
        old(mem).contains_ppn(ft.ppn.0),
        !old(fa).is_allocated(ft.ppn.0),
        final(fa).is_allocated(ft.ppn.0),
        forall|q: u64| q != ft.ppn.0 ==> final(fa).is_allocated(q) == old(fa).is_allocated(q),
        final(fa).free_count() == old(fa).free_count() - 1,
        final(mem).frame_zero(ft.ppn.0),
        forall|p: u64, k: int|
            old(mem).contains_ppn(p) && 0 <= k < 512 && p != ft.ppn.0 ==> final(mem).word(p, k)
                == old(mem).word(p, k),
{
    match frame_alloc(fa, mem) {
        Some(ft) => ft,
        None => {
            proof {
                assert(false);
            }
            vstd::pervasive::unreached()
        },
    }
}

/// Takes back the frame a tracker owns.
pub fn frame_dealloc(fa: &mut StackFrameAllocator, ft: FrameTracker)
    requires
        old(fa).wf(),
        old(fa).is_allocated(ft.ppn.0),
    ensures
        final(fa).wf(),
        final(fa).start_ppn() == old(fa).start_ppn(),
        final(fa).next_ppn() == old(fa).next_ppn(),
        final(fa).end_ppn() == old(fa).end_ppn(),
        !final(fa).is_allocated(ft.ppn.0),
        forall|q: u64|
            q != ft.ppn.0 ==> final(fa).is_allocated(q) == old(fa).is_allocated(q),
        final(fa).free_count() == old(fa).free_count() + 1,
{
    fa.dealloc(ft.ppn);
}

/// Handing a frame out and giving it back returns the allocator to its
/// exact starting set of handed-out frames and free count: the
/// alloc / dealloc pair leaks nothing.
pub proof fn lemma_alloc_dealloc_leak_free(
    a0: StackFrameAllocator,
    a1: StackFrameAllocator,
    a2: StackFrameAllocator,
    ppn: u64,
)
    requires
        !a0.is_allocated(ppn),
        a1.is_allocated(ppn),
        forall|q: u64| q != ppn ==> a1.is_allocated(q) == a0.is_allocated(q),
        a1.free_count() == a0.free_count() - 1,
        !a2.is_allocated(ppn),
        forall|q: u64| q != ppn ==> a2.is_allocated(q) == a1.is_allocated(q),
        a2.free_count() == a1.free_count() + 1,
    ensures
        a2.free_count() == a0.free_count(),
        forall|q: u64| a2.is_allocated(q) == a0.is_allocated(q),
{
}

} // verus!
