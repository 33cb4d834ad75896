//! Address spaces: segments of virtual pages mapped with uniform
//! permissions, either identical to their physical page numbers (kernel
//! ranges) or backed by freshly allocated frames, gathered into memory
//! sets with the kernel builder and the ELF loader.

use vstd::prelude::*;

use crate::address::VirtAddr;
use crate::address::VirtPageNum;
use crate::address::PhysPageNum;
use crate::frame_allocator::allocator_in_memory;
use crate::frame_allocator::frame_alloc_must;
use crate::frame_allocator::frame_dealloc;
use crate::frame_allocator::FrameTracker;
use crate::frame_allocator::StackFrameAllocator;
use crate::page_table::translation;
use crate::page_table::walk_path_ok;
use crate::page_table::translations_agree;
use crate::page_table::translations_agree_except;
use crate::page_table::PageTable;
use crate::page_table::PTEFlags;
use crate::phys_mem::PhysMemory;

verus! {

/// The R (readable) permission bit, matching the page-table flag.
pub const MAP_R: u8 = 2;

/// The W (writable) permission bit.
pub const MAP_W: u8 = 4;

/// The X (executable) permission bit.
pub const MAP_X: u8 = 8;

/// The U (user-accessible) permission bit.
pub const MAP_U: u8 = 16;


/// How many 512-page table groups the page range `[start, end)` touches.
pub open spec fn seg_groups(start: u64, end: u64) -> int {
    if end <= start {
        0
    } else {
        (end - 1) as u64 / 512 - start / 512 + 1
    }
}

/// An upper bound on the frames mapping `[start, end)` can consume: one
/// per page when framed, plus two interior nodes per touched group.
pub open spec fn seg_frames_needed(framed: bool, start: u64, end: u64) -> int {
    (if framed {
        end - start
    } else {
        0
    }) + 2 * seg_groups(start, end) + 3
}

/// Extending a range by one page adds a group exactly when the new page
/// starts one.
proof fn lemma_groups_step(start: u64, i: u64)
    requires
        start + i + 1 <= 0x800_0000u64,
    ensures
        seg_groups(start, (start + i + 1) as u64) == seg_groups(start, (start + i) as u64) + (
        if i == 0 {
            1int
        } else if (start + i) % 512 == 0 {
            1int
        } else {
            0int
        }),
{
    if i > 0 {
        let d: u64 = (start + i) as u64;
        assert(d >= 1);
        assert(d % 512 == 0 ==> d / 512 == (d - 1) as u64 / 512 + 1) by (bit_vector)
            requires d >= 1;
        assert(d % 512 != 0 ==> d / 512 == (d - 1) as u64 / 512) by (bit_vector)
            requires d >= 1;
    }
}

/// Two pages of the same 512-page group walk through the same two
/// interior entries.
proof fn lemma_same_group_same_path(a: VirtPageNum, b: VirtPageNum)
    requires
        a.0 / 512 == b.0 / 512,
    ensures
        a.spec_idx0() == b.spec_idx0(),
        a.spec_idx1() == b.spec_idx1(),
{
    let x = a.0;
    let y = b.0;
    assert(x / 512 == y / 512 ==> ((x >> 18) & 0x1FF) == ((y >> 18) & 0x1FF) && ((x >> 9)
        & 0x1FF) == ((y >> 9) & 0x1FF)) by (bit_vector);
}

/// A segment's permission bits: a subset of R, W, X, U.
#[derive(Clone, Copy, PartialEq, Eq, Structural, Debug)]
pub struct MapPermission {
    /// The packed permission bits.
    pub bits: u8,
}

impl MapPermission {
    /// Permissions from packed bits.
    pub fn from_bits(bits: u8) -> (r: Self)
        ensures
            r.bits == bits,
    {
        MapPermission { bits }
    }

    /// Both permission sets combined.
    pub fn union(self, other: Self) -> (r: Self)
        ensures
            r.bits == self.bits | other.bits,
    {
        MapPermission { bits: self.bits | other.bits }
    }
}

/// How a segment is backed: mapped to the equal physical page, or to
/// frames of its own.
#[derive(Clone, Copy, PartialEq, Eq, Structural, Debug)]
pub enum MapType {
    /// Virtual page and physical page coincide (kernel ranges).
    Identical,
    /// Each page is backed by a freshly allocated frame.
    Framed,
}

/// A contiguous range of virtual pages mapped with one permission and one
/// backing strategy; a framed segment owns the frame of each of its pages.
pub struct Segment {
    map_type: MapType,
    map_perm: MapPermission,
    vpn_range: (VirtPageNum, VirtPageNum),
    data_frames: Vec<FrameTracker>,
}

impl Segment {
    /// The first page of the segment.
    pub closed spec fn start_vpn(self) -> u64 {
        self.vpn_range.0.0
    }

    /// The past-the-end page of the segment.
    pub closed spec fn end_vpn(self) -> u64 {
        self.vpn_range.1.0
    }

    /// The permission bits of the segment.
    pub closed spec fn perm_bits(self) -> u8 {
        self.map_perm.bits
    }

    /// Whether the segment owns its backing frames.
    pub closed spec fn is_framed(self) -> bool {
        self.map_type is Framed
    }

    /// The page numbers of the owned frames, one per page, in page order.
    pub closed spec fn frames_seq(self) -> Seq<u64> {
        self.data_frames@.map_values(|ft: FrameTracker| ft.ppn.0)
    }

    /// Whether virtual page `v` lies in the segment.
    pub open spec fn contains_vpn(self, v: u64) -> bool {
        self.start_vpn() <= v < self.end_vpn()
    }

    /// The physical page backing virtual page `v` of the segment.
    pub open spec fn page_ppn(self, v: u64) -> u64 {
        if self.is_framed() {
            self.frames_seq()[v - self.start_vpn()]
        } else {
            v
        }
    }

    /// An unmapped segment: a well-formed range and no frames yet.
    pub open spec fn init_wf(self) -> bool {
        &&& self.start_vpn() <= self.end_vpn() <= 0x800_0000u64
        &&& self.frames_seq().len() == 0
    }

    /// A mapped segment: a framed one owns one frame per page.
    pub open spec fn seg_wf(self) -> bool {
        &&& self.start_vpn() <= self.end_vpn() <= 0x800_0000u64
        &&& self.is_framed() ==> self.frames_seq().len() == self.end_vpn() - self.start_vpn()
        &&& !self.is_framed() ==> self.frames_seq().len() == 0
    }

    /// Builds the unmapped segment covering `[start.floor(), end.ceil())`.
    pub fn new(start: VirtAddr, end: VirtAddr, map_type: MapType, map_perm: MapPermission) -> (r:
        Self)
        requires
            start.0 <= end.0,
            end.wf(),
            end.0 + 4095 < 0x80_0000_0000u64,
        ensures
            r.init_wf(),
            r.start_vpn() == start.0 / 4096,
            r.end_vpn() == (end.0 + 4095) / 4096,
            r.is_framed() == (map_type is Framed),
            r.perm_bits() == map_perm.bits,
    {
        let s = start.floor();
        let e = end.ceil();
        proof {
            assert(start.0 / 4096 <= (end.0 + 4095) / 4096) by (nonlinear_arith)
                requires start.0 <= end.0;
        }
        Segment { map_type, map_perm, vpn_range: (s, e), data_frames: Vec::new() }
    }

    /// Maps every page of the segment into `pt`, allocating a zeroed frame
    /// per page when framed.  The pages must be unmapped beforehand; no
    /// other translation changes, and no word of a frame that is neither a
    /// node of `pt` nor newly owned here is touched.
    pub fn map(
        &mut self,
        pt: &mut PageTable,
        mem: &mut PhysMemory,
        fa: &mut StackFrameAllocator,
    )
        requires
            old(self).init_wf(),
            old(pt).wf(*old(mem)),
            old(pt).nodes_allocated(*old(fa)),
            old(fa).wf(),
            allocator_in_memory(*old(fa), *old(mem)),
            old(fa).free_count() >= seg_frames_needed(
                old(self).is_framed(),
                old(self).start_vpn(),
                old(self).end_vpn(),
            ),
            forall|v: VirtPageNum|
                v.wf() && old(self).contains_vpn(v.0) ==> translation(
                    *old(mem),
                    old(pt).root(),
                    v,
                ) is None,
        ensures
            final(self).seg_wf(),
            final(self).start_vpn() == old(self).start_vpn(),
            final(self).end_vpn() == old(self).end_vpn(),
            final(self).perm_bits() == old(self).perm_bits(),
            final(self).is_framed() == old(self).is_framed(),
            final(pt).wf(*final(mem)),
            final(pt).nodes_allocated(*final(fa)),
            final(fa).wf(),
            allocator_in_memory(*final(fa), *final(mem)),
            final(pt).root() == old(pt).root(),
            final(mem).base_ppn() == old(mem).base_ppn(),
            final(mem).num_frames() == old(mem).num_frames(),
            final(fa).start_ppn() == old(fa).start_ppn(),
            final(fa).end_ppn() == old(fa).end_ppn(),
            forall|v: VirtPageNum|
                v.wf() && final(self).contains_vpn(v.0) ==> translation(
                    *final(mem),
                    old(pt).root(),
                    v,
                ) == Some((final(self).page_ppn(v.0), (final(self).perm_bits() | 1) as u8)),
            forall|v: VirtPageNum|
                v.wf() && !final(self).contains_vpn(v.0) ==> translation(
                    *final(mem),
                    old(pt).root(),
                    v,
                ) == translation(*old(mem), old(pt).root(), v),
            forall|i: int|
                0 <= i < final(self).frames_seq().len() ==> {
                    &&& !old(fa).is_allocated(#[trigger] final(self).frames_seq()[i])
                    &&& final(fa).is_allocated(final(self).frames_seq()[i])
                    &&& final(mem).contains_ppn(final(self).frames_seq()[i])
                    &&& !final(pt).node_set().contains(final(self).frames_seq()[i])
                    &&& final(mem).frame_zero(final(self).frames_seq()[i])
                },
            forall|i: int, j: int|
                0 <= i < j < final(self).frames_seq().len() ==> final(self).frames_seq()[i]
                    != final(self).frames_seq()[j],
            forall|p: u64|
                old(pt).node_set().contains(p) ==> final(pt).node_set().contains(p),
            forall|p: u64|
                final(pt).node_set().contains(p) ==> old(pt).node_set().contains(p) || !old(
                    fa,
                ).is_allocated(p),
            forall|p: u64, k: int|
                old(mem).contains_ppn(p) && 0 <= k < 512 && !final(pt).node_set().contains(p)
                    && !final(self).frames_seq().contains(p)
                    ==> final(mem).word(p, k) == old(mem).word(p, k),
            forall|q: u64| old(fa).is_allocated(q) ==> final(fa).is_allocated(q),
            forall|q: u64|
                final(fa).is_allocated(q) ==> old(fa).is_allocated(q)
                    || final(pt).node_set().contains(q)
                    || final(self).frames_seq().contains(q),
            final(fa).free_count() >= old(fa).free_count() - seg_frames_needed(
                old(self).is_framed(),
                old(self).start_vpn(),
                old(self).end_vpn(),
            ),
    {
        let start = self.vpn_range.0.0;
        let end = self.vpn_range.1.0;
        let framed = match self.map_type {
            MapType::Framed => true,
            MapType::Identical => false,
        };
        let mut i: u64 = 0;
        let ghost mut g: int = 0;
        while i < end - start
            invariant
                self.start_vpn() == start,
                self.end_vpn() == end,
                self.perm_bits() == old(self).perm_bits(),
                self.is_framed() == old(self).is_framed(),
                self.map_type == old(self).map_type,
                framed == self.is_framed(),
                start == old(self).start_vpn(),
                end == old(self).end_vpn(),
                start <= end <= 0x800_0000u64,
                0 <= i <= end - start,
                old(fa).free_count() >= seg_frames_needed(
                    old(self).is_framed(),
                    start,
                    end,
                ),
                forall|v: VirtPageNum|
                    v.wf() && start <= v.0 < end ==> translation(
                        *old(mem),
                        old(pt).root(),
                        v,
                    ) is None,
                framed ==> self.frames_seq().len() == i,
                !framed ==> self.frames_seq().len() == 0,
                pt.wf(*mem),
                pt.nodes_allocated(*fa),
                fa.wf(),
                allocator_in_memory(*fa, *mem),
                pt.root() == old(pt).root(),
                mem.base_ppn() == old(mem).base_ppn(),
                mem.num_frames() == old(mem).num_frames(),
                fa.start_ppn() == old(fa).start_ppn(),
                fa.end_ppn() == old(fa).end_ppn(),
                g == seg_groups(start, (start + i) as u64),
                fa.free_count() >= old(fa).free_count() - (if old(self).is_framed() {
                    i as int
                } else {
                    0int
                }) - 2 * g,
                forall|v: VirtPageNum|
                    v.wf() && start <= v.0 < start + i ==> translation(*mem, pt.root(), v)
                        == Some((self.page_ppn(v.0), (self.perm_bits() | 1) as u8)),
                forall|v: VirtPageNum|
                    v.wf() && !(start <= v.0 < start + i) ==> translation(*mem, pt.root(), v)
                        == translation(*old(mem), pt.root(), v),
                forall|ii: int|
                    0 <= ii < self.frames_seq().len() ==> {
                        &&& !old(fa).is_allocated(#[trigger] self.frames_seq()[ii])
                        &&& fa.is_allocated(self.frames_seq()[ii])
                        &&& mem.contains_ppn(self.frames_seq()[ii])
                        &&& !pt.node_set().contains(self.frames_seq()[ii])
                        &&& mem.frame_zero(self.frames_seq()[ii])
                    },
                forall|ii: int, jj: int|
                    0 <= ii < jj < self.frames_seq().len() ==> self.frames_seq()[ii]
                        != self.frames_seq()[jj],
                forall|p: u64| old(pt).node_set().contains(p) ==> pt.node_set().contains(p),
                forall|p: u64|
                    pt.node_set().contains(p) ==> old(pt).node_set().contains(p) || !old(
                        fa,
                    ).is_allocated(p),
                forall|p: u64, k: int|
                    old(mem).contains_ppn(p) && 0 <= k < 512 && !pt.node_set().contains(p)
                        && !self.frames_seq().contains(p) ==> mem.word(p, k) == old(mem).word(
                        p,
                        k,
                    ),
                forall|q: u64| old(fa).is_allocated(q) ==> fa.is_allocated(q),
                forall|q: u64|
                    fa.is_allocated(q) ==> old(fa).is_allocated(q) || pt.node_set().contains(
                        q,
                    ) || self.frames_seq().contains(q),
            decreases end - start - i,
        {
            let vpn = VirtPageNum(start + i);
            let ghost frames_pre = self.frames_seq();
            let ghost pt_pre = *pt;
            let ghost mem_pre = *mem;
            let ghost fa_pre = *fa;
            let ghost fresh_group: bool = i == 0 || (start + i) % 512 == 0;
            proof {
                lemma_groups_step(start, i);
                if fresh_group {
                    assert(seg_groups(start, (start + i + 1) as u64) == g + 1);
                    assert(seg_groups(start, (start + i + 1) as u64) <= seg_groups(
                        start,
                        end,
                    )) by {
                        assert(start + i + 1 >= 1);
                        assert(end >= 1);
                        let x: u64 = (start + i) as u64;
                        let y: u64 = (end - 1) as u64;
                        assert(x <= y ==> x / 512 <= y / 512) by (bit_vector);
                    }
                    assert(g <= seg_groups(start, end) - 1);
                } else {
                    assert(g <= seg_groups(start, end)) by {
                        assert(start + i >= 1);
                        let x: u64 = (start + i - 1) as u64;
                        let y: u64 = (end - 1) as u64;
                        assert(x <= y ==> x / 512 <= y / 512) by (bit_vector);
                    }
                }
                assert(fa.free_count() >= 3);
            }
            let ppn: PhysPageNum;
            if framed {
                let ft = frame_alloc_must(fa, mem);
                ppn = ft.ppn;
                self.data_frames.push(ft);
                proof {
                    assert(self.frames_seq() =~= frames_pre.push(ppn.0));
                }
            } else {
                ppn = PhysPageNum(start + i);
                proof {
                    assert(self.frames_seq() == frames_pre);
                }
            }
            let ghost mem_alloc = *mem;
            proof {
                if framed {
                    assert forall|p: u64, k: int|
                        mem_pre.contains_ppn(p) && 0 <= k < 512 && pt.node_set().contains(
                            p,
                        ) implies mem.word(p, k) == mem_pre.word(p, k) by {
                        assert(fa_pre.is_allocated(p));
                        assert(p != ppn.0);
                    }
                    crate::page_table::lemma_non_node_write_preserves(*pt, mem_pre, *mem);
                    assert(translation(*mem, pt.root(), vpn) == translation(
                        mem_pre,
                        pt.root(),
                        vpn,
                    ));
                }
                assert(vpn.wf());
                assert(!(start <= vpn.0 < start + i));
                assert(translation(mem_pre, pt.root(), vpn) == translation(
                    *old(mem),
                    pt.root(),
                    vpn,
                ));
                assert(old(self).contains_vpn(vpn.0));
                assert(translation(*old(mem), old(pt).root(), vpn) is None);
                assert(translation(*mem, pt.root(), vpn) is None);
                assert(ppn.wf());
                assert(fa.free_count() >= 2);
            }
            let flags = PTEFlags { bits: self.map_perm.bits };
            let ghost fa_alloc = *fa;
            pt.map(mem, fa, vpn, ppn, flags);
            proof {
                assert forall|v: VirtPageNum|
                    v.wf() && start <= v.0 < start + i + 1 implies translation(
                    *mem,
                    pt.root(),
                    v,
                ) == Some((self.page_ppn(v.0), (self.perm_bits() | 1) as u8)) by {
                    if v.0 == start + i {
                        assert(self.page_ppn(v.0) == ppn.0);
                    } else {
                        assert(translation(*mem, pt.root(), v) == translation(
                            mem_alloc,
                            pt.root(),
                            v,
                        ));
                        if framed {
                            assert(translation(mem_alloc, pt.root(), v) == translation(
                                mem_pre,
                                pt.root(),
                                v,
                            ));
                            assert(self.page_ppn(v.0) == frames_pre[v.0 - start]);
                        }
                    }
                }
                assert forall|ii: int|
                    0 <= ii < self.frames_seq().len() implies {
                    &&& !old(fa).is_allocated(#[trigger] self.frames_seq()[ii])
                    &&& fa.is_allocated(self.frames_seq()[ii])
                    &&& mem.contains_ppn(self.frames_seq()[ii])
                    &&& !pt.node_set().contains(self.frames_seq()[ii])
                    &&& mem.frame_zero(self.frames_seq()[ii])
                } by {
                    let f = self.frames_seq()[ii];
                    if framed && ii == self.frames_seq().len() - 1 {
                        assert(f == ppn.0);
                        assert(fa.is_allocated(f));
                        assert(!pt.node_set().contains(f)) by {
                            if pt.node_set().contains(f) {
                                assert(pt_pre.node_set().contains(f) || !fa_pre.is_allocated(
                                    f,
                                ));
                            }
                        }
                        assert(mem.frame_zero(f)) by {
                            assert(mem_alloc.frame_zero(f));
                            assert forall|k: int| 0 <= k < 512 implies mem.word(f, k)
                                == 0 by {
                                assert(mem.word(f, k) == mem_alloc.word(f, k));
                            }
                        }
                    } else {
                        assert(f == frames_pre[ii]);
                        assert(fa_pre.is_allocated(f));
                        assert(!pt_pre.node_set().contains(f));
                        assert(!pt.node_set().contains(f)) by {
                            if pt.node_set().contains(f) {
                                assert(pt_pre.node_set().contains(f) || !fa_pre.is_allocated(
                                    f,
                                ));
                            }
                        }
                        assert(mem.frame_zero(f)) by {
                            assert(mem_pre.frame_zero(f));
                            assert forall|k: int| 0 <= k < 512 implies mem.word(f, k)
                                == 0 by {
                                assert(mem_alloc.word(f, k) == mem_pre.word(f, k));
                                assert(mem.word(f, k) == mem_alloc.word(f, k));
                            }
                        }
                    }
                }
                assert forall|p: u64, k: int|
                    old(mem).contains_ppn(p) && 0 <= k < 512 && !pt.node_set().contains(p)
                        && !self.frames_seq().contains(p) implies mem.word(p, k) == old(
                    mem,
                ).word(p, k) by {
                    assert(!frames_pre.contains(p)) by {
                        if frames_pre.contains(p) {
                            let ii = choose|ii: int|
                                0 <= ii < frames_pre.len() && #[trigger] frames_pre[ii] == p;
                            assert(self.frames_seq()[ii] == p);
                        }
                    }
                    if framed {
                        assert(p != ppn.0) by {
                            assert(self.frames_seq()[self.frames_seq().len() - 1] == ppn.0);
                        }
                        assert(mem_alloc.word(p, k) == mem_pre.word(p, k));
                    }
                    assert(mem.word(p, k) == mem_alloc.word(p, k));
                }
                assert forall|q: u64|
                    fa.is_allocated(q) implies old(fa).is_allocated(q) || pt.node_set()
                    .contains(q) || self.frames_seq().contains(q) by {
                    if !pt.node_set().contains(q) {
                        assert(fa_alloc.is_allocated(q));
                        if framed && q == ppn.0 {
                            assert(self.frames_seq()[self.frames_seq().len() - 1] == ppn.0);
                        } else {
                            assert(fa_pre.is_allocated(q));
                            if !old(fa).is_allocated(q) {
                                if pt_pre.node_set().contains(q) {
                                    assert(pt.node_set().contains(q));
                                } else {
                                    assert(frames_pre.contains(q));
                                    let ii = choose|ii: int|
                                        0 <= ii < frames_pre.len() && #[trigger] frames_pre[ii]
                                            == q;
                                    assert(self.frames_seq()[ii] == q);
                                }
                            }
                        }
                    }
                }
                if fresh_group {
                    g = g + 1;
                } else {
                    let prev = VirtPageNum((start + i - 1) as u64);
                    assert(i > 0 && (start + i) % 512 != 0);
                    let d: u64 = (start + i) as u64;
                    assert(d % 512 != 0 ==> d / 512 == (d - 1) as u64 / 512) by (bit_vector)
                        requires d >= 1;
                    lemma_same_group_same_path(vpn, prev);
                    assert(prev.wf());
                    assert(translation(mem_pre, pt.root(), prev) is Some);
                    assert(translation(mem_alloc, pt.root(), prev) is Some);
                    assert(walk_path_ok(mem_alloc, pt.root(), prev));
                    assert(walk_path_ok(mem_alloc, pt.root(), vpn));
                    assert(fa.free_count() == fa_alloc.free_count());
                }
                assert(g == seg_groups(start, (start + i + 1) as u64));
            }
            i = i + 1;
        }
        proof {
            assert forall|v: VirtPageNum|
                v.wf() && self.contains_vpn(v.0) implies translation(*mem, pt.root(), v)
                == Some((self.page_ppn(v.0), (self.perm_bits() | 1) as u8)) by {
                assert(start <= v.0 < start + (end - start));
            }
        }
    }

    /// Clears the mapping of every page of the segment and, for a framed
    /// segment, returns its frames to the allocator; the segment is
    /// consumed.
    pub fn unmap(self, pt: &PageTable, mem: &mut PhysMemory, fa: &mut StackFrameAllocator)
        requires
            self.seg_wf(),
            pt.wf(*old(mem)),
            old(fa).wf(),
            forall|v: VirtPageNum|
                v.wf() && self.contains_vpn(v.0) ==> translation(
                    *old(mem),
                    pt.root(),
                    v,
                ) is Some,
            forall|i: int|
                0 <= i < self.frames_seq().len() ==> old(fa).is_allocated(
                    #[trigger] self.frames_seq()[i],
                ),
            forall|i: int, j: int|
                0 <= i < j < self.frames_seq().len() ==> self.frames_seq()[i]
                    != self.frames_seq()[j],
        ensures
            pt.wf(*final(mem)),
            final(fa).wf(),
            final(mem).base_ppn() == old(mem).base_ppn(),
            final(mem).num_frames() == old(mem).num_frames(),
            final(fa).start_ppn() == old(fa).start_ppn(),
            final(fa).end_ppn() == old(fa).end_ppn(),
            forall|v: VirtPageNum|
                v.wf() && self.contains_vpn(v.0) ==> translation(
                    *final(mem),
                    pt.root(),
                    v,
                ) is None,
            forall|v: VirtPageNum|
                v.wf() && !self.contains_vpn(v.0) ==> translation(*final(mem), pt.root(), v)
                    == translation(*old(mem), pt.root(), v),
            forall|p: u64, k: int|
                old(mem).contains_ppn(p) && 0 <= k < 512 && !pt.node_set().contains(p)
                    ==> final(mem).word(p, k) == old(mem).word(p, k),
            final(fa).free_count() == old(fa).free_count() + self.frames_seq().len(),
        {
        let Segment { map_type, map_perm, vpn_range, data_frames } = self;
        let start = vpn_range.0.0;
        let end = vpn_range.1.0;
        let mut i: u64 = 0;
        let ghost mut g: int = 0;
        while i < end - start
            invariant
                start == self.start_vpn(),
                end == self.end_vpn(),
                start <= end <= 0x800_0000u64,
                0 <= i <= end - start,
                pt.wf(*mem),
                mem.base_ppn() == old(mem).base_ppn(),
                mem.num_frames() == old(mem).num_frames(),
                forall|v: VirtPageNum|
                    v.wf() && self.contains_vpn(v.0) && v.0 >= start + i ==> translation(
                        *old(mem),
                        pt.root(),
                        v,
                    ) is Some && translation(*mem, pt.root(), v) == translation(
                        *old(mem),
                        pt.root(),
                        v,
                    ),
                forall|v: VirtPageNum|
                    v.wf() && start <= v.0 < start + i ==> translation(
                        *mem,
                        pt.root(),
                        v,
                    ) is None,
                forall|v: VirtPageNum|
                    v.wf() && !self.contains_vpn(v.0) ==> translation(*mem, pt.root(), v)
                        == translation(*old(mem), pt.root(), v),
                forall|p: u64, k: int|
                    old(mem).contains_ppn(p) && 0 <= k < 512 && !pt.node_set().contains(p)
                        ==> mem.word(p, k) == old(mem).word(p, k),
            decreases end - start - i,
        {
            let vpn = VirtPageNum(start + i);
            let ghost mem_pre = *mem;
            proof {
                assert(vpn.wf());
                assert(translation(*mem, pt.root(), vpn) is Some);
            }
            pt.unmap(mem, vpn);
            proof {
                assert forall|p: u64, k: int|
                    old(mem).contains_ppn(p) && 0 <= k < 512 && !pt.node_set().contains(
                        p,
                    ) implies mem.word(p, k) == old(mem).word(p, k) by {
                    assert(mem_pre.contains_ppn(p));
                    assert(mem.word(p, k) == mem_pre.word(p, k));
                }
            }
            i = i + 1;
        }
        let ghost frames = self.frames_seq();
        let mut frames_vec = data_frames;
        let ghost n_all = frames.len() as int;
        while frames_vec.len() > 0
            invariant
                fa.wf(),
                fa.start_ppn() == old(fa).start_ppn(),
                fa.end_ppn() == old(fa).end_ppn(),
                frames_vec@.map_values(|ft: FrameTracker| ft.ppn.0) == frames.take(
                    frames_vec@.len() as int,
                ),
                frames_vec@.len() <= frames.len(),
                forall|a: int, b: int| 0 <= a < b < frames.len() ==> frames[a] != frames[b],
                forall|a: int|
                    0 <= a < frames_vec@.len() ==> fa.is_allocated(#[trigger] frames[a]),
                fa.free_count() == old(fa).free_count() + (frames.len()
                    - frames_vec@.len()),
            decreases frames_vec@.len(),
        {
            let ghost k = frames_vec@.len() as int;
            let ft = match frames_vec.pop() {
                Some(ft) => ft,
                None => {
                    proof {
                        assert(false);
                    }
                    vstd::pervasive::unreached()
                },
            };
            proof {
                assert(frames.take(k)[k - 1] == frames[k - 1]);
                assert(ft.ppn.0 == frames[k - 1]);
            }
            let ghost fa_pre = *fa;
            frame_dealloc(fa, ft);
            proof {
                assert(frames_vec@.map_values(|ft: FrameTracker| ft.ppn.0) =~= frames.take(
                    k - 1,
                ));
                assert forall|a: int| 0 <= a < frames_vec@.len() implies fa.is_allocated(
                    #[trigger] frames[a],
                ) by {
                    assert(frames[a] != frames[k - 1]);
                    assert(fa_pre.is_allocated(frames[a]));
                }
            }
        }
    }

    /// Copies `len` bytes of `data` starting at `src_off` into the frames
    /// of a framed segment, page by page from its first page.  Only the
    /// written bytes of the segment's own frames change, so every
    /// translation survives.
    pub fn copy_data(
        &self,
        mem: &mut PhysMemory,
        data: &Vec<u8>,
        src_off: usize,
        len: usize,
    )
        requires
            old(mem).wf(),
            self.seg_wf(),
            self.is_framed(),
            src_off + len <= data@.len(),
            len <= 0x1000_0000,
            len <= 4096 * (self.end_vpn() - self.start_vpn()),
            forall|i: int|
                0 <= i < self.frames_seq().len() ==> old(mem).contains_ppn(
                    #[trigger] self.frames_seq()[i],
                ),
            forall|i: int, j: int|
                0 <= i < j < self.frames_seq().len() ==> self.frames_seq()[i]
                    != self.frames_seq()[j],
        ensures
            final(mem).wf(),
            final(mem).base_ppn() == old(mem).base_ppn(),
            final(mem).num_frames() == old(mem).num_frames(),
            forall|i: int, jj: int|
                0 <= i < self.frames_seq().len() && 0 <= jj < 4096 && 4096 * i + jj < len
                    ==> #[trigger] final(mem).byte(self.frames_seq()[i], jj) == data@[src_off
                    + 4096 * i + jj],
            forall|i: int, jj: int|
                0 <= i < self.frames_seq().len() && 0 <= jj < 4096 && 4096 * i + jj >= len
                    ==> #[trigger] final(mem).byte(self.frames_seq()[i], jj) == old(mem).byte(
                    self.frames_seq()[i],
                    jj,
                ),
            forall|p: u64, k: int|
                old(mem).contains_ppn(p) && 0 <= k < 512 && !self.frames_seq().contains(p)
                    ==> final(mem).word(p, k) == old(mem).word(p, k),
    {
        let nframes: usize = self.data_frames.len();
        let dlen: usize = data.len();
        let mut i: usize = 0;
        while i < nframes && 4096 * i < len
            invariant
                mem.wf(),
                mem.base_ppn() == old(mem).base_ppn(),
                mem.num_frames() == old(mem).num_frames(),
                self.seg_wf(),
                self.is_framed(),
                nframes == self.frames_seq().len(),
                src_off + len <= data@.len(),
                data@.len() == dlen,
                len <= 0x1000_0000,
                len <= 4096 * (self.end_vpn() - self.start_vpn()),
                0 <= i <= nframes,
                i > 0 ==> 4096 * (i - 1) < len,
                forall|a: int|
                    0 <= a < nframes ==> old(mem).contains_ppn(#[trigger] self.frames_seq()[a]),
                forall|a: int, b: int|
                    0 <= a < b < nframes ==> self.frames_seq()[a] != self.frames_seq()[b],
                forall|a: int, jj: int|
                    0 <= a < i && 0 <= jj < 4096 && 4096 * a + jj < len ==> #[trigger] mem
                        .byte(self.frames_seq()[a], jj) == data@[src_off + 4096 * a + jj],
                forall|a: int, jj: int|
                    0 <= a < nframes && 0 <= jj < 4096 && (a >= i || 4096 * a + jj >= len)
                        ==> #[trigger] mem.byte(self.frames_seq()[a], jj) == old(mem).byte(
                        self.frames_seq()[a],
                        jj,
                    ),
                forall|p: u64, k: int|
                    old(mem).contains_ppn(p) && 0 <= k < 512 && !self.frames_seq().contains(
                        p,
                    ) ==> mem.word(p, k) == old(mem).word(p, k),
            decreases nframes - i,
        {
            let f = self.data_frames[i].ppn.0;
            let page_len: usize = if len - 4096 * i < 4096 {
                len - 4096 * i
            } else {
                4096
            };
            proof {
                assert(f == self.frames_seq()[i as int]);
                assert(old(mem).contains_ppn(f));
                assert(0 < page_len <= 4096);
                assert(4096 * i + page_len <= len);
            }
            let mut jj: usize = 0;
            while jj < page_len
                invariant
                    mem.wf(),
                    mem.base_ppn() == old(mem).base_ppn(),
                    mem.num_frames() == old(mem).num_frames(),
                    self.seg_wf(),
                    self.is_framed(),
                    nframes == self.frames_seq().len(),
                    src_off + len <= data@.len(),
                    data@.len() == dlen,
                    len <= 0x1000_0000,
                    0 <= i < nframes,
                    f == self.frames_seq()[i as int],
                    old(mem).contains_ppn(f),
                    0 < page_len <= 4096,
                    4096 * i + page_len <= len,
                    page_len == 4096 || 4096 * i + page_len == len,
                    0 <= jj <= page_len,
                    forall|a: int|
                        0 <= a < nframes ==> old(mem).contains_ppn(
                            #[trigger] self.frames_seq()[a],
                        ),
                    forall|a: int, b: int|
                        0 <= a < b < nframes ==> self.frames_seq()[a]
                            != self.frames_seq()[b],
                    forall|a: int, jjj: int|
                        0 <= a < i && 0 <= jjj < 4096 && 4096 * a + jjj < len
                            ==> #[trigger] mem.byte(self.frames_seq()[a], jjj) == data@[
                            src_off + 4096 * a + jjj],
                    forall|jjj: int|
                        0 <= jjj < jj ==> mem.byte(f, jjj) == data@[src_off + 4096 * i
                            + jjj],
                    forall|a: int, jjj: int|
                        0 <= a < nframes && 0 <= jjj < 4096 && (a > i || (a == i && jjj
                            >= jj)) ==> #[trigger] mem.byte(self.frames_seq()[a], jjj) == old(
                            mem,
                        ).byte(self.frames_seq()[a], jjj),
                    forall|p: u64, k: int|
                        old(mem).contains_ppn(p) && 0 <= k < 512
                            && !self.frames_seq().contains(p) ==> mem.word(p, k) == old(
                            mem,
                        ).word(p, k),
                decreases page_len - jj,
            {
                proof {
                    assert(4096 * i + jj < len);
                }
                let b = data[src_off + 4096 * i + jj];
                let ghost mem_pre = *mem;
                mem.write_byte(f, jj, b);
                proof {
                    assert forall|a: int, jjj: int|
                        0 <= a < i && 0 <= jjj < 4096 && 4096 * a + jjj < len implies
                        #[trigger] mem.byte(self.frames_seq()[a], jjj) == data@[src_off + 4096
                        * a + jjj] by {
                        assert(self.frames_seq()[a] != f);
                        assert(mem.byte(self.frames_seq()[a], jjj) == mem_pre.byte(
                            self.frames_seq()[a],
                            jjj,
                        ));
                    }
                    assert forall|a: int, jjj: int|
                        0 <= a < nframes && 0 <= jjj < 4096 && (a > i || (a == i && jjj >= jj
                            + 1)) implies #[trigger] mem.byte(self.frames_seq()[a], jjj)
                        == old(mem).byte(self.frames_seq()[a], jjj) by {
                        if a != i {
                            assert(self.frames_seq()[a] != f);
                        }
                        assert(mem.byte(self.frames_seq()[a], jjj) == mem_pre.byte(
                            self.frames_seq()[a],
                            jjj,
                        ));
                    }
                    assert forall|p: u64, k: int|
                        old(mem).contains_ppn(p) && 0 <= k < 512
                            && !self.frames_seq().contains(p) implies mem.word(p, k) == old(
                        mem,
                    ).word(p, k) by {
                        assert(p != f) by {
                            if p == f {
                                assert(self.frames_seq()[i as int] == p);
                            }
                        }
                        assert(mem.word(p, k) == mem_pre.word(p, k));
                    }
                }
                jj = jj + 1;
            }
            i = i + 1;
            proof {
                assert forall|a: int, jjj: int|
                    0 <= a < i && 0 <= jjj < 4096 && 4096 * a + jjj < len implies
                    #[trigger] mem.byte(self.frames_seq()[a], jjj) == data@[src_off + 4096 * a
                    + jjj] by {
                    if a == i - 1 {
                        assert(jjj < page_len) by (nonlinear_arith)
                            requires
                                4096 * a + jjj < len,
                                a == i - 1,
                                0 <= jjj,
                                4096 * (i - 1) + page_len == len || page_len == 4096,
                                jjj < 4096,
                        ;
                    }
                }
            }
        }
        proof {
            assert forall|a: int, jj: int|
                0 <= a < self.frames_seq().len() && 0 <= jj < 4096 && 4096 * a + jj
                    < len implies #[trigger] mem.byte(self.frames_seq()[a], jj) == data@[
                src_off + 4096 * a + jj] by {
                if a >= i {
                    assert(i < nframes);
                    assert(4096 * i >= len);
                    assert(4096 * a >= 4096 * i) by (nonlinear_arith)
                        requires a >= i, i >= 0;
                    assert(false);
                }
            }
            assert forall|a: int, jj: int|
                0 <= a < self.frames_seq().len() && 0 <= jj < 4096 && 4096 * a + jj
                    >= len implies #[trigger] mem.byte(self.frames_seq()[a], jj) == old(
                mem,
            ).byte(self.frames_seq()[a], jj) by {
            }
        }
    }
}


/// The virtual page number of the trampoline page: the highest page.
pub const TRAMPOLINE_VPN: u64 = 0x7FF_FFFF;

/// The virtual page number of a task's trap-context page.
pub const TRAP_CONTEXT_VPN: u64 = 0x7FF_FFFE;

/// An address space: a page table and the segments that populate it,
/// plus the trampoline mapping shared by every space.
pub struct MemorySet {
    page_table: PageTable,
    areas: Vec<Segment>,
    trampoline: Option<PhysPageNum>,
}

impl MemorySet {
    /// The root page number of the space's table.
    pub closed spec fn root(self) -> u64 {
        self.page_table.root()
    }

    /// The page table of the space.
    pub closed spec fn pt(self) -> PageTable {
        self.page_table
    }

    /// The segments of the space, in the order they were pushed.
    pub closed spec fn areas_seq(self) -> Seq<Segment> {
        self.areas@
    }

    /// The physical page the trampoline maps to, once installed.
    pub closed spec fn tramp_ppn(self) -> Option<u64> {
        match self.trampoline {
            Some(p) => Some(p.0),
            None => None,
        }
    }

    /// Whether some segment of the space contains page `v`.
    pub open spec fn vpn_in_areas(self, v: u64) -> bool {
        exists|a: int|
            0 <= a < self.areas_seq().len() && (#[trigger] self.areas_seq()[a]).contains_vpn(v)
    }

    /// The translations the space promises: each page of each segment maps
    /// to that segment's backing page with the segment's permissions plus
    /// V; the trampoline page, when installed, maps R X; every other page
    /// is unmapped.
    pub open spec fn wf_mapping(self, mem: PhysMemory) -> bool {
        &&& forall|a: int|
            0 <= a < self.areas_seq().len() ==> (#[trigger] self.areas_seq()[a]).seg_wf()
        &&& forall|a: int, b: int|
            0 <= a < b < self.areas_seq().len() ==> (#[trigger] self.areas_seq()[a]).end_vpn()
                <= (#[trigger] self.areas_seq()[b]).start_vpn() || self.areas_seq()[b].end_vpn()
                <= self.areas_seq()[a].start_vpn()
        &&& forall|a: int, v: VirtPageNum|
            #![trigger self.areas_seq()[a], translation(mem, self.root(), v)]
            0 <= a < self.areas_seq().len() && v.wf() && self.areas_seq()[a].contains_vpn(v.0)
                ==> translation(mem, self.root(), v) == Some(
                (
                    self.areas_seq()[a].page_ppn(v.0),
                    (self.areas_seq()[a].perm_bits() | 1) as u8,
                ),
            )
        &&& self.tramp_ppn() matches Some(p) ==> translation(
            mem,
            self.root(),
            VirtPageNum(TRAMPOLINE_VPN),
        ) == Some((p, 11u8))
        &&& self.tramp_ppn() is Some ==> !self.vpn_in_areas(TRAMPOLINE_VPN)
        &&& forall|v: VirtPageNum|
            v.wf() && !self.vpn_in_areas(v.0) && !(self.tramp_ppn() is Some && v.0
                == TRAMPOLINE_VPN) ==> #[trigger] translation(mem, self.root(), v) is None
    }

    /// The ownership side: the table is a well-formed tree, and every
    /// backing frame of every segment is handed out, lies in memory, is no
    /// node of the table, and is owned by exactly one page.
    pub open spec fn wf_frames(self, mem: PhysMemory, fa: StackFrameAllocator) -> bool {
        &&& self.pt().wf(mem)
        &&& self.pt().nodes_allocated(fa)
        &&& forall|a: int, i: int|
            #![trigger self.areas_seq()[a].frames_seq()[i]]
            0 <= a < self.areas_seq().len() && 0 <= i < self.areas_seq()[a].frames_seq().len()
                ==> {
                &&& fa.is_allocated(self.areas_seq()[a].frames_seq()[i])
                &&& mem.contains_ppn(self.areas_seq()[a].frames_seq()[i])
                &&& !self.pt().node_set().contains(self.areas_seq()[a].frames_seq()[i])
            }
        &&& forall|a: int, i: int, b: int, j: int|
            #![trigger self.areas_seq()[a].frames_seq()[i], self.areas_seq()[b].frames_seq()[j]]
            0 <= a < self.areas_seq().len() && 0 <= i < self.areas_seq()[a].frames_seq().len()
                && 0 <= b < self.areas_seq().len() && 0 <= j
                < self.areas_seq()[b].frames_seq().len() && !(a == b && i == j)
                ==> self.areas_seq()[a].frames_seq()[i] != self.areas_seq()[b].frames_seq()[j]
    }

    /// The full invariant of an address space.
    pub open spec fn wf(self, mem: PhysMemory, fa: StackFrameAllocator) -> bool {
        self.wf_mapping(mem) && self.wf_frames(mem, fa)
    }

    /// A fresh address space with an empty table mapping nothing.
    pub fn new_bare(mem: &mut PhysMemory, fa: &mut StackFrameAllocator) -> (r: Self)
        requires
            old(fa).wf(),
            old(mem).wf(),
            allocator_in_memory(*old(fa), *old(mem)),
            old(fa).free_count() >= 1,
        ensures
            final(fa).wf(),
            final(mem).wf(),
            allocator_in_memory(*final(fa), *final(mem)),
            final(fa).start_ppn() == old(fa).start_ppn(),
            final(fa).end_ppn() == old(fa).end_ppn(),
            final(mem).base_ppn() == old(mem).base_ppn(),
            final(mem).num_frames() == old(mem).num_frames(),
            r.wf(*final(mem), *final(fa)),
            r.areas_seq().len() == 0,
            r.tramp_ppn() is None,
            forall|v: VirtPageNum| translation(*final(mem), r.root(), v) is None,
            forall|q: u64| old(fa).is_allocated(q) ==> final(fa).is_allocated(q),
            forall|q: u64|
                final(fa).is_allocated(q) ==> old(fa).is_allocated(q)
                    || r.pt().node_set().contains(q),
            forall|p: u64| r.pt().node_set().contains(p) ==> !old(fa).is_allocated(p),
            final(fa).free_count() == old(fa).free_count() - 1,
            forall|p: u64, k: int|
                old(mem).contains_ppn(p) && 0 <= k < 512 && old(fa).is_allocated(p)
                    ==> final(mem).word(p, k) == old(mem).word(p, k),
    {
        let pt = PageTable::new(fa, mem);
        let r = MemorySet { page_table: pt, areas: Vec::new(), trampoline: None };
        proof {
            assert forall|p: u64, k: int|
                old(mem).contains_ppn(p) && 0 <= k < 512 && old(fa).is_allocated(p) implies
                mem.word(p, k) == old(mem).word(p, k) by {
                assert(p != r.pt().root());
            }
        }
        r
    }

    /// The translation token of the space: sv39 mode plus the root.
    pub fn token(&self) -> (r: u64)
        ensures
            r == 0x8000_0000_0000_0000u64 | self.root(),
            r & 0xFFF_FFFF_FFFF == self.root() % 0x1000_0000_0000u64,
    {
        self.page_table.token()
    }

    /// The leaf entry of `vpn`, if its walk is complete.
    pub fn translate(&self, mem: &PhysMemory, vpn: VirtPageNum) -> (r: Option<
        crate::page_table::PageTableEntry,
    >)
        requires
            mem.wf(),
            self.pt().wf(*mem),
        ensures
            match r {
                Option::None => translation(*mem, self.root(), vpn) is None,
                Option::Some(pte) => {
                    &&& crate::page_table::pte_valid(pte.bits) ==> translation(
                        *mem,
                        self.root(),
                        vpn,
                    ) == Some(
                        (
                            crate::page_table::pte_ppn(pte.bits),
                            crate::page_table::pte_flag_bits(pte.bits),
                        ),
                    )
                    &&& !crate::page_table::pte_valid(pte.bits) ==> translation(
                        *mem,
                        self.root(),
                        vpn,
                    ) is None
                },
            },
    {
        proof {
            self.page_table.lemma_wf_readable(*mem);
        }
        self.page_table.translate(mem, vpn)
    }

    /// Installs the trampoline mapping: the highest virtual page maps R X
    /// to the given kernel code page, in this space as in every other.
    pub fn map_trampoline(
        &mut self,
        mem: &mut PhysMemory,
        fa: &mut StackFrameAllocator,
        strampoline: PhysPageNum,
    )
        requires
            old(self).wf(*old(mem), *old(fa)),
            old(fa).wf(),
            old(mem).wf(),
            allocator_in_memory(*old(fa), *old(mem)),
            old(self).tramp_ppn() is None,
            !old(self).vpn_in_areas(TRAMPOLINE_VPN),
            strampoline.wf(),
            old(fa).free_count() >= 2,
        ensures
            final(self).wf(*final(mem), *final(fa)),
            final(fa).wf(),
            final(mem).wf(),
            allocator_in_memory(*final(fa), *final(mem)),
            final(self).root() == old(self).root(),
            final(self).areas_seq() == old(self).areas_seq(),
            final(self).tramp_ppn() == Some(strampoline.0),
            final(mem).base_ppn() == old(mem).base_ppn(),
            final(mem).num_frames() == old(mem).num_frames(),
            final(fa).start_ppn() == old(fa).start_ppn(),
            final(fa).end_ppn() == old(fa).end_ppn(),
            translation(*final(mem), old(self).root(), VirtPageNum(TRAMPOLINE_VPN)) == Some(
                (strampoline.0, 11u8),
            ),
            forall|v: VirtPageNum|
                v.wf() && v.0 != TRAMPOLINE_VPN ==> translation(
                    *final(mem),
                    old(self).root(),
                    v,
                ) == translation(*old(mem), old(self).root(), v),
            forall|q: u64| old(fa).is_allocated(q) ==> final(fa).is_allocated(q),
            forall|q: u64|
                final(fa).is_allocated(q) ==> old(fa).is_allocated(q) || final(self).pt().node_set().contains(q),
            forall|p: u64|
                final(self).pt().node_set().contains(p) ==> old(self).pt().node_set().contains(
                    p,
                ) || !old(fa).is_allocated(p),
            final(fa).free_count() >= old(fa).free_count() - 2,
            forall|p: u64, k: int|
                old(mem).contains_ppn(p) && 0 <= k < 512 && old(fa).is_allocated(p) && !old(
                    self,
                ).pt().node_set().contains(p) ==> final(mem).word(p, k) == old(mem).word(
                    p,
                    k,
                ),
    {
        let vpn = VirtPageNum(TRAMPOLINE_VPN);
        proof {
            assert(vpn.wf());
            assert(translation(*old(mem), old(self).root(), vpn) is None);
        }
        let flags = PTEFlags { bits: 10 };
        self.page_table.map(mem, fa, vpn, strampoline, flags);
        self.trampoline = Some(strampoline);
        proof {
            assert((10u8 | 1) == 11u8) by (bit_vector);
            assert forall|p: u64, k: int|
                old(mem).contains_ppn(p) && 0 <= k < 512 && old(fa).is_allocated(p) && !old(
                    self,
                ).pt().node_set().contains(p) implies mem.word(p, k) == old(mem).word(
                p,
                k,
            ) by {
                assert(!self.pt().node_set().contains(p));
            }
            assert forall|a: int, v: VirtPageNum|
                #![trigger self.areas_seq()[a], translation(*mem, self.root(), v)]
                0 <= a < self.areas_seq().len() && v.wf() && self.areas_seq()[a].contains_vpn(
                    v.0,
                ) implies translation(*mem, self.root(), v) == Some(
                (
                    self.areas_seq()[a].page_ppn(v.0),
                    (self.areas_seq()[a].perm_bits() | 1) as u8,
                ),
            ) by {
                assert(self.areas_seq() == old(self).areas_seq());
                assert(old(self).areas_seq()[a].contains_vpn(v.0));
                assert(old(self).vpn_in_areas(v.0));
                assert(v.0 != TRAMPOLINE_VPN);
                assert(translation(*mem, self.root(), v) == translation(
                    *old(mem),
                    old(self).root(),
                    v,
                ));
            }
            assert forall|v: VirtPageNum|
                v.wf() && !self.vpn_in_areas(v.0) && !(self.tramp_ppn() is Some && v.0
                    == TRAMPOLINE_VPN) implies #[trigger] translation(
                *mem,
                self.root(),
                v,
            ) is None by {
                assert(v.0 != TRAMPOLINE_VPN);
                assert(self.areas_seq() == old(self).areas_seq());
                assert(!old(self).vpn_in_areas(v.0)) by {
                    if old(self).vpn_in_areas(v.0) {
                        let a = choose|a: int|
                            0 <= a < old(self).areas_seq().len() && (#[trigger] old(
                                self,
                            ).areas_seq()[a]).contains_vpn(v.0);
                        assert(self.areas_seq()[a].contains_vpn(v.0));
                    }
                }
                assert(translation(*mem, self.root(), v) == translation(
                    *old(mem),
                    old(self).root(),
                    v,
                ));
            }
            assert forall|a: int, i: int|
                #![trigger self.areas_seq()[a].frames_seq()[i]]
                0 <= a < self.areas_seq().len() && 0 <= i
                    < self.areas_seq()[a].frames_seq().len() implies {
                &&& fa.is_allocated(self.areas_seq()[a].frames_seq()[i])
                &&& mem.contains_ppn(self.areas_seq()[a].frames_seq()[i])
                &&& !self.pt().node_set().contains(self.areas_seq()[a].frames_seq()[i])
            } by {
                let f = self.areas_seq()[a].frames_seq()[i];
                assert(f == old(self).areas_seq()[a].frames_seq()[i]);
                assert(old(fa).is_allocated(f));
                assert(!old(self).pt().node_set().contains(f));
                assert(!self.pt().node_set().contains(f));
            }
        }
    }

    /// Maps a new segment into the space and, when given, copies `data`
    /// into its first bytes.  The segment's range must be untouched:
    /// disjoint from every existing segment and from the trampoline page.
    pub fn push(
        &mut self,
        mem: &mut PhysMemory,
        fa: &mut StackFrameAllocator,
        seg: Segment,
        data: Option<&Vec<u8>>,
    )
        requires
            old(self).wf(*old(mem), *old(fa)),
            old(fa).wf(),
            old(mem).wf(),
            allocator_in_memory(*old(fa), *old(mem)),
            seg.init_wf(),
            forall|a: int|
                0 <= a < old(self).areas_seq().len() ==> (#[trigger] old(
                    self,
                ).areas_seq()[a]).end_vpn() <= seg.start_vpn() || seg.end_vpn() <= old(
                    self,
                ).areas_seq()[a].start_vpn(),
            old(self).tramp_ppn() is Some ==> !seg.contains_vpn(TRAMPOLINE_VPN),
            old(fa).free_count() >= seg_frames_needed(
                seg.is_framed(),
                seg.start_vpn(),
                seg.end_vpn(),
            ),
            data matches Some(d) ==> {
                &&& seg.is_framed()
                &&& d@.len() <= 4096 * (seg.end_vpn() - seg.start_vpn())
                &&& d@.len() <= 0x1000_0000
            },
        ensures
            final(self).wf(*final(mem), *final(fa)),
            final(fa).wf(),
            final(mem).wf(),
            allocator_in_memory(*final(fa), *final(mem)),
            final(self).root() == old(self).root(),
            final(self).tramp_ppn() == old(self).tramp_ppn(),
            final(mem).base_ppn() == old(mem).base_ppn(),
            final(mem).num_frames() == old(mem).num_frames(),
            final(fa).start_ppn() == old(fa).start_ppn(),
            final(fa).end_ppn() == old(fa).end_ppn(),
            final(self).areas_seq().len() == old(self).areas_seq().len() + 1,
            forall|a: int|
                0 <= a < old(self).areas_seq().len() ==> final(self).areas_seq()[a] == old(
                    self,
                ).areas_seq()[a],
            ({
                let ns = final(self).areas_seq()[old(self).areas_seq().len() as int];
                &&& ns.start_vpn() == seg.start_vpn()
                &&& ns.end_vpn() == seg.end_vpn()
                &&& ns.perm_bits() == seg.perm_bits()
                &&& ns.is_framed() == seg.is_framed()
                &&& ns.seg_wf()
                &&& forall|v: VirtPageNum|
                    v.wf() && ns.contains_vpn(v.0) ==> translation(
                        *final(mem),
                        old(self).root(),
                        v,
                    ) == Some((ns.page_ppn(v.0), (ns.perm_bits() | 1) as u8))
                &&& data matches Some(d) ==> forall|i: int, jj: int|
                    0 <= i < ns.frames_seq().len() && 0 <= jj < 4096 && 4096 * i + jj
                        < d@.len() ==> #[trigger] final(mem).byte(ns.frames_seq()[i], jj)
                        == d@[4096 * i + jj]
                &&& forall|i: int, jj: int|
                    0 <= i < ns.frames_seq().len() && 0 <= jj < 4096 && (data matches Some(d)
                        ==> 4096 * i + jj >= d@.len()) ==> #[trigger] final(mem).byte(
                        ns.frames_seq()[i],
                        jj,
                    ) == 0
                &&& forall|i: int|
                    0 <= i < ns.frames_seq().len() ==> !old(fa).is_allocated(
                        #[trigger] ns.frames_seq()[i],
                    )
            }),
            forall|v: VirtPageNum|
                v.wf() && !seg.contains_vpn(v.0) ==> translation(
                    *final(mem),
                    old(self).root(),
                    v,
                ) == translation(*old(mem), old(self).root(), v),
            forall|q: u64| old(fa).is_allocated(q) ==> final(fa).is_allocated(q),
            final(fa).free_count() >= old(fa).free_count() - seg_frames_needed(
                seg.is_framed(),
                seg.start_vpn(),
                seg.end_vpn(),
            ),
            forall|q: u64|
                final(fa).is_allocated(q) ==> old(fa).is_allocated(q) || final(self).pt().node_set().contains(q) || final(self).areas_seq()[old(
                    self,
                ).areas_seq().len() as int].frames_seq().contains(q),
            forall|p: u64|
                final(self).pt().node_set().contains(p) ==> old(self).pt().node_set().contains(
                    p,
                ) || !old(fa).is_allocated(p),
            forall|p: u64, k: int|
                old(mem).contains_ppn(p) && 0 <= k < 512 && old(fa).is_allocated(p) && !old(
                    self,
                ).pt().node_set().contains(p) ==> final(mem).word(p, k) == old(mem).word(
                    p,
                    k,
                ),
    {
        let mut seg = seg;
        proof {
            assert forall|v: VirtPageNum|
                v.wf() && seg.contains_vpn(v.0) implies translation(
                *old(mem),
                old(self).root(),
                v,
            ) is None by {
                assert(!old(self).vpn_in_areas(v.0));
            }
        }
        seg.map(&mut self.page_table, mem, fa);
        let ghost mem_m = *mem;
        let ghost fa_m = *fa;
        match data {
            Some(d) => {
                proof {
                    assert(seg.is_framed());
                }
                seg.copy_data(mem, d, 0, d.len());
                proof {
                    crate::page_table::lemma_non_node_write_preserves(
                        self.page_table,
                        mem_m,
                        *mem,
                    );
                }
            },
            None => {},
        }
        let ghost segf = seg;
        self.areas.push(seg);
        proof {
            let n = old(self).areas_seq().len() as int;
            assert(self.areas_seq() =~= old(self).areas_seq().push(segf));
            assert(self.areas_seq()[n] == segf);
            // bytes of the new frames: written prefix from data, zero tail
            assert forall|i: int, jj: int|
                0 <= i < segf.frames_seq().len() && 0 <= jj < 4096 && (data matches Some(d)
                    ==> 4096 * i + jj >= d@.len()) implies #[trigger] mem.byte(
                segf.frames_seq()[i],
                jj,
            ) == 0 by {
                assert(mem_m.frame_zero(segf.frames_seq()[i]));
                crate::phys_mem::lemma_zero_frame_bytes(mem_m, segf.frames_seq()[i]);
                if data is Some {
                    assert(mem.byte(segf.frames_seq()[i], jj) == mem_m.byte(
                        segf.frames_seq()[i],
                        jj,
                    ));
                } else {
                    assert(*mem == mem_m);
                }
            }
            // translations of old areas survive
            assert forall|a: int, v: VirtPageNum|
                #![trigger self.areas_seq()[a], translation(*mem, self.root(), v)]
                0 <= a < self.areas_seq().len() && v.wf() && self.areas_seq()[a].contains_vpn(
                    v.0,
                ) implies translation(*mem, self.root(), v) == Some(
                (
                    self.areas_seq()[a].page_ppn(v.0),
                    (self.areas_seq()[a].perm_bits() | 1) as u8,
                ),
            ) by {
                if a < n {
                    assert(self.areas_seq()[a] == old(self).areas_seq()[a]);
                    assert(old(self).vpn_in_areas(v.0));
                    assert(!seg.contains_vpn(v.0));
                    assert(translation(*mem, self.root(), v) == translation(
                        mem_m,
                        self.root(),
                        v,
                    ));
                    assert(translation(mem_m, self.root(), v) == translation(
                        *old(mem),
                        self.root(),
                        v,
                    ));
                } else {
                    assert(translation(*mem, self.root(), v) == translation(
                        mem_m,
                        self.root(),
                        v,
                    ));
                }
            }
            // the trampoline survives
            if self.tramp_ppn() is Some {
                let tv = VirtPageNum(TRAMPOLINE_VPN);
                assert(tv.wf());
                assert(!segf.contains_vpn(TRAMPOLINE_VPN));
                assert(translation(*mem, self.root(), tv) == translation(
                    mem_m,
                    self.root(),
                    tv,
                ));
                assert(translation(mem_m, self.root(), tv) == translation(
                    *old(mem),
                    self.root(),
                    tv,
                ));
                assert(!self.vpn_in_areas(TRAMPOLINE_VPN)) by {
                    if self.vpn_in_areas(TRAMPOLINE_VPN) {
                        let a = choose|a: int|
                            0 <= a < self.areas_seq().len() && (
                            #[trigger] self.areas_seq()[a]).contains_vpn(TRAMPOLINE_VPN);
                        if a < n {
                            assert(old(self).vpn_in_areas(TRAMPOLINE_VPN));
                        }
                    }
                }
            }
            // pages outside every area and the trampoline stay unmapped
            assert forall|v: VirtPageNum|
                v.wf() && !self.vpn_in_areas(v.0) && !(self.tramp_ppn() is Some && v.0
                    == TRAMPOLINE_VPN) implies #[trigger] translation(
                *mem,
                self.root(),
                v,
            ) is None by {
                assert(!segf.contains_vpn(v.0)) by {
                    if segf.contains_vpn(v.0) {
                        assert(self.areas_seq()[n].contains_vpn(v.0));
                    }
                }
                assert(!old(self).vpn_in_areas(v.0)) by {
                    if old(self).vpn_in_areas(v.0) {
                        let a = choose|a: int|
                            0 <= a < old(self).areas_seq().len() && (#[trigger] old(
                                self,
                            ).areas_seq()[a]).contains_vpn(v.0);
                        assert(self.areas_seq()[a].contains_vpn(v.0));
                    }
                }
                assert(translation(*mem, self.root(), v) == translation(
                    mem_m,
                    self.root(),
                    v,
                ));
                assert(translation(mem_m, self.root(), v) == translation(
                    *old(mem),
                    self.root(),
                    v,
                ));
            }
            // ownership bookkeeping
            assert forall|a: int, i: int|
                #![trigger self.areas_seq()[a].frames_seq()[i]]
                0 <= a < self.areas_seq().len() && 0 <= i
                    < self.areas_seq()[a].frames_seq().len() implies {
                &&& fa.is_allocated(self.areas_seq()[a].frames_seq()[i])
                &&& mem.contains_ppn(self.areas_seq()[a].frames_seq()[i])
                &&& !self.pt().node_set().contains(self.areas_seq()[a].frames_seq()[i])
            } by {
                let f = self.areas_seq()[a].frames_seq()[i];
                if a < n {
                    assert(old(fa).is_allocated(f));
                    assert(!old(self).pt().node_set().contains(f));
                    assert(!self.pt().node_set().contains(f));
                    assert(fa.is_allocated(f));
                } else {
                    assert(f == segf.frames_seq()[i]);
                }
            }
            assert forall|a: int, i: int, b: int, j: int|
                #![trigger self.areas_seq()[a].frames_seq()[i], self.areas_seq()[b].frames_seq()[j]]
                0 <= a < self.areas_seq().len() && 0 <= i
                    < self.areas_seq()[a].frames_seq().len() && 0 <= b
                    < self.areas_seq().len() && 0 <= j < self.areas_seq()[b].frames_seq().len()
                    && !(a == b && i == j) implies self.areas_seq()[a].frames_seq()[i]
                != self.areas_seq()[b].frames_seq()[j] by {
                let fx = self.areas_seq()[a].frames_seq()[i];
                let fy = self.areas_seq()[b].frames_seq()[j];
                if a < n && b < n {
                    assert(old(self).areas_seq()[a].frames_seq()[i] != old(
                        self,
                    ).areas_seq()[b].frames_seq()[j]);
                } else if a < n && b == n {
                    assert(old(fa).is_allocated(fx));
                    assert(!old(fa).is_allocated(fy));
                } else if a == n && b < n {
                    assert(old(fa).is_allocated(fy));
                    assert(!old(fa).is_allocated(fx));
                }
            }
            // words of frames already handed out before the call survive
            assert forall|p: u64, k: int|
                old(mem).contains_ppn(p) && 0 <= k < 512 && old(fa).is_allocated(p) && !old(
                    self,
                ).pt().node_set().contains(p) implies mem.word(p, k) == old(mem).word(
                p,
                k,
            ) by {
                assert(!self.pt().node_set().contains(p));
                assert(!segf.frames_seq().contains(p)) by {
                    if segf.frames_seq().contains(p) {
                        let i = choose|i: int|
                            0 <= i < segf.frames_seq().len() && #[trigger] segf.frames_seq()[i]
                                == p;
                        assert(!old(fa).is_allocated(segf.frames_seq()[i]));
                    }
                }
                assert(mem_m.word(p, k) == old(mem).word(p, k));
                assert(mem.word(p, k) == mem_m.word(p, k));
            }
        }
    }

    /// Maps the range `[start, end)` as a framed segment with the given
    /// permissions.
    pub fn insert_segment(
        &mut self,
        mem: &mut PhysMemory,
        fa: &mut StackFrameAllocator,
        start: VirtAddr,
        end: VirtAddr,
        permission: MapPermission,
    )
        requires
            old(self).wf(*old(mem), *old(fa)),
            old(fa).wf(),
            old(mem).wf(),
            allocator_in_memory(*old(fa), *old(mem)),
            start.0 <= end.0,
            end.wf(),
            end.0 + 4095 < 0x80_0000_0000u64,
            forall|a: int|
                0 <= a < old(self).areas_seq().len() ==> (#[trigger] old(
                    self,
                ).areas_seq()[a]).end_vpn() <= start.0 / 4096 || (end.0 + 4095) / 4096 <= old(
                    self,
                ).areas_seq()[a].start_vpn(),
            old(self).tramp_ppn() is Some ==> (end.0 + 4095) / 4096 <= TRAMPOLINE_VPN,
            old(fa).free_count() >= seg_frames_needed(
                true,
                start.0 / 4096,
                ((end.0 + 4095) / 4096) as u64,
            ),
        ensures
            final(self).wf(*final(mem), *final(fa)),
            final(fa).wf(),
            final(mem).wf(),
            allocator_in_memory(*final(fa), *final(mem)),
            final(self).root() == old(self).root(),
            final(self).tramp_ppn() == old(self).tramp_ppn(),
            final(mem).base_ppn() == old(mem).base_ppn(),
            final(mem).num_frames() == old(mem).num_frames(),
            final(fa).start_ppn() == old(fa).start_ppn(),
            final(fa).end_ppn() == old(fa).end_ppn(),
            final(self).areas_seq().len() == old(self).areas_seq().len() + 1,
            forall|a: int|
                0 <= a < old(self).areas_seq().len() ==> final(self).areas_seq()[a] == old(
                    self,
                ).areas_seq()[a],
            ({
                let ns = final(self).areas_seq()[old(self).areas_seq().len() as int];
                &&& ns.start_vpn() == start.0 / 4096
                &&& ns.end_vpn() == (end.0 + 4095) / 4096
                &&& ns.perm_bits() == permission.bits
                &&& ns.is_framed()
                &&& forall|v: VirtPageNum|
                    v.wf() && ns.contains_vpn(v.0) ==> translation(
                        *final(mem),
                        old(self).root(),
                        v,
                    ) == Some((ns.page_ppn(v.0), (permission.bits | 1) as u8))
                &&& forall|i: int|
                    0 <= i < ns.frames_seq().len() ==> !old(fa).is_allocated(
                        #[trigger] ns.frames_seq()[i],
                    )
                &&& forall|i: int, jj: int|
                    0 <= i < ns.frames_seq().len() && 0 <= jj < 4096
                        ==> #[trigger] final(mem).byte(ns.frames_seq()[i], jj) == 0
            }),
            forall|v: VirtPageNum|
                v.wf() && !(start.0 / 4096 <= v.0 < (end.0 + 4095) / 4096) ==> translation(
                    *final(mem),
                    old(self).root(),
                    v,
                ) == translation(*old(mem), old(self).root(), v),
            forall|q: u64| old(fa).is_allocated(q) ==> final(fa).is_allocated(q),
            forall|p: u64|
                final(self).pt().node_set().contains(p) ==> old(self).pt().node_set().contains(
                    p,
                ) || !old(fa).is_allocated(p),
            final(fa).free_count() >= old(fa).free_count() - seg_frames_needed(
                true,
                start.0 / 4096,
                ((end.0 + 4095) / 4096) as u64,
            ),
            forall|p: u64, k: int|
                old(mem).contains_ppn(p) && 0 <= k < 512 && old(fa).is_allocated(p) && !old(
                    self,
                ).pt().node_set().contains(p) ==> final(mem).word(p, k) == old(mem).word(
                    p,
                    k,
                ),
    {
        let seg = Segment::new(start, end, MapType::Framed, permission);
        self.push(mem, fa, seg, None);
    }
}



/// The linker-provided layout of the kernel image: section bounds, the
/// end of the image, the end of RAM, and the trampoline code page.  All
/// page-aligned, in ascending order.
#[derive(Clone, Copy, PartialEq, Eq, Structural, Debug)]
pub struct KernelLayout {
    /// Start of the kernel text.
    pub stext: u64,
    /// End of the kernel text.
    pub etext: u64,
    /// Start of read-only data.
    pub srodata: u64,
    /// End of read-only data.
    pub erodata: u64,
    /// Start of initialised data.
    pub sdata: u64,
    /// End of initialised data.
    pub edata: u64,
    /// Start of zero-initialised data.
    pub sbss: u64,
    /// End of zero-initialised data.
    pub ebss: u64,
    /// End of the kernel image; usable frames start here.
    pub ekernel: u64,
    /// End of RAM.
    pub memory_end: u64,
    /// Physical address of the trampoline code page, inside the text.
    pub strampoline: u64,
}

impl KernelLayout {
    /// Sections are page-aligned, ascending, and RAM ends below 4 GiB.
    pub open spec fn wf(self) -> bool {
        &&& self.stext % 4096 == 0 && self.etext % 4096 == 0
        &&& self.srodata % 4096 == 0 && self.erodata % 4096 == 0
        &&& self.sdata % 4096 == 0 && self.edata % 4096 == 0
        &&& self.sbss % 4096 == 0 && self.ebss % 4096 == 0
        &&& self.ekernel % 4096 == 0 && self.memory_end % 4096 == 0
        &&& self.strampoline % 4096 == 0
        &&& 0 < self.stext <= self.etext <= self.srodata <= self.erodata <= self.sdata
            <= self.edata <= self.sbss <= self.ebss <= self.ekernel <= self.memory_end
        &&& self.memory_end <= 0x1_0000_0000u64
        &&& self.stext <= self.strampoline < self.etext
    }

    /// An upper bound on the frames building the kernel space consumes.
    pub open spec fn frames_needed(self) -> int {
        seg_frames_needed(false, self.stext / 4096, self.etext / 4096) + seg_frames_needed(
            false,
            self.srodata / 4096,
            self.erodata / 4096,
        ) + seg_frames_needed(false, self.sdata / 4096, self.edata / 4096)
            + seg_frames_needed(false, self.sbss / 4096, self.ebss / 4096)
            + seg_frames_needed(false, self.ekernel / 4096, self.memory_end / 4096) + 3
    }
}

/// A page-aligned address rounds up to its own page.
proof fn lemma_aligned_ceil(e: u64)
    requires
        e % 4096 == 0,
        e + 4095 < 0x80_0000_0000u64,
    ensures
        (e + 4095) / 4096 == e / 4096,
{
    assert(e % 4096 == 0 && e + 4095 < 0x80_0000_0000u64 ==> (e + 4095) as u64 / 4096 == e
        / 4096) by (bit_vector);
}

impl MemorySet {
    /// Maps the kernel sections and the usable RAM into this (fresh)
    /// space, identical to their physical pages: text R X, read-only data
    /// R, data and bss R W, and all frames past the image R W so the
    /// kernel can reach every frame it hands out.
    pub fn map_kernel(
        &mut self,
        mem: &mut PhysMemory,
        fa: &mut StackFrameAllocator,
        layout: &KernelLayout,
    )
        requires
            old(self).wf(*old(mem), *old(fa)),
            old(fa).wf(),
            old(mem).wf(),
            allocator_in_memory(*old(fa), *old(mem)),
            old(self).areas_seq().len() == 0,
            layout.wf(),
            old(fa).free_count() >= layout.frames_needed(),
        ensures
            final(self).wf(*final(mem), *final(fa)),
            final(fa).wf(),
            final(mem).wf(),
            allocator_in_memory(*final(fa), *final(mem)),
            final(self).root() == old(self).root(),
            final(self).tramp_ppn() == old(self).tramp_ppn(),
            final(mem).base_ppn() == old(mem).base_ppn(),
            final(mem).num_frames() == old(mem).num_frames(),
            final(fa).start_ppn() == old(fa).start_ppn(),
            final(fa).end_ppn() == old(fa).end_ppn(),
            final(self).areas_seq().len() == 5,
            forall|a: int|
                0 <= a < final(self).areas_seq().len() ==> !(
                #[trigger] final(self).areas_seq()[a]).is_framed(),
            forall|a: int|
                0 <= a < final(self).areas_seq().len() ==> (
                #[trigger] final(self).areas_seq()[a]).start_vpn()
                    <= final(self).areas_seq()[a].end_vpn()
                    && final(self).areas_seq()[a].end_vpn() <= layout.memory_end / 4096,
            forall|v: VirtPageNum|
                v.wf() && layout.stext / 4096 <= v.0 < layout.etext / 4096 ==> translation(
                    *final(mem),
                    old(self).root(),
                    v,
                ) == Some((v.0, 11u8)),
            forall|v: VirtPageNum|
                v.wf() && layout.srodata / 4096 <= v.0 < layout.erodata / 4096
                    ==> translation(*final(mem), old(self).root(), v) == Some((v.0, 3u8)),
            forall|v: VirtPageNum|
                v.wf() && layout.sdata / 4096 <= v.0 < layout.edata / 4096 ==> translation(
                    *final(mem),
                    old(self).root(),
                    v,
                ) == Some((v.0, 7u8)),
            forall|v: VirtPageNum|
                v.wf() && layout.sbss / 4096 <= v.0 < layout.ebss / 4096 ==> translation(
                    *final(mem),
                    old(self).root(),
                    v,
                ) == Some((v.0, 7u8)),
            forall|v: VirtPageNum|
                v.wf() && layout.ekernel / 4096 <= v.0 < layout.memory_end / 4096
                    ==> translation(*final(mem), old(self).root(), v) == Some((v.0, 7u8)),
            forall|v: VirtPageNum|
                v.wf() && !(layout.stext / 4096 <= v.0 < layout.memory_end / 4096)
                    ==> translation(*final(mem), old(self).root(), v) == translation(
                    *old(mem),
                    old(self).root(),
                    v,
                ),
            forall|q: u64| old(fa).is_allocated(q) ==> final(fa).is_allocated(q),
            final(fa).free_count() >= old(fa).free_count() - layout.frames_needed(),
            forall|p: u64|
                final(self).pt().node_set().contains(p) ==> old(self).pt().node_set().contains(
                    p,
                ) || !old(fa).is_allocated(p),
            forall|p: u64, k: int|
                old(mem).contains_ppn(p) && 0 <= k < 512 && old(fa).is_allocated(p)
                    && !old(self).pt().node_set().contains(p) ==> final(mem).word(p, k)
                    == old(mem).word(p, k),
    {
        proof {
            lemma_aligned_ceil(layout.etext);
            lemma_aligned_ceil(layout.erodata);
            lemma_aligned_ceil(layout.edata);
            lemma_aligned_ceil(layout.ebss);
            lemma_aligned_ceil(layout.memory_end);
            assert(layout.stext / 4096 <= layout.etext / 4096 && layout.etext / 4096
                <= layout.srodata / 4096 && layout.srodata / 4096 <= layout.erodata / 4096
                && layout.erodata / 4096 <= layout.sdata / 4096 && layout.sdata / 4096
                <= layout.edata / 4096 && layout.edata / 4096 <= layout.sbss / 4096
                && layout.sbss / 4096 <= layout.ebss / 4096 && layout.ebss / 4096
                <= layout.ekernel / 4096 && layout.ekernel / 4096 <= layout.memory_end
                / 4096) by (nonlinear_arith)
                requires
                    layout.stext <= layout.etext <= layout.srodata <= layout.erodata
                        <= layout.sdata <= layout.edata <= layout.sbss <= layout.ebss
                        <= layout.ekernel <= layout.memory_end,
            ;
        }
        let rx = MapPermission { bits: 10 };
        let ro = MapPermission { bits: 2 };
        let rw = MapPermission { bits: 6 };
        self.push(
            mem,
            fa,
            Segment::new(VirtAddr(layout.stext), VirtAddr(layout.etext), MapType::Identical, rx),
            None,
        );
        let ghost k1 = *self;
        proof {
            assert((10u8 | 1) == 11u8) by (bit_vector);
        }
        self.push(
            mem,
            fa,
            Segment::new(
                VirtAddr(layout.srodata),
                VirtAddr(layout.erodata),
                MapType::Identical,
                ro,
            ),
            None,
        );
        let ghost k2 = *self;
        self.push(
            mem,
            fa,
            Segment::new(VirtAddr(layout.sdata), VirtAddr(layout.edata), MapType::Identical, rw),
            None,
        );
        let ghost k3 = *self;
        self.push(
            mem,
            fa,
            Segment::new(VirtAddr(layout.sbss), VirtAddr(layout.ebss), MapType::Identical, rw),
            None,
        );
        let ghost k4 = *self;
        self.push(
            mem,
            fa,
            Segment::new(
                VirtAddr(layout.ekernel),
                VirtAddr(layout.memory_end),
                MapType::Identical,
                rw,
            ),
            None,
        );
        proof {
            assert((6u8 | 1) == 7u8) by (bit_vector);
            assert((2u8 | 1) == 3u8) by (bit_vector);
            assert forall|a: int|
                0 <= a < self.areas_seq().len() implies !(
            #[trigger] self.areas_seq()[a]).is_framed() by {
                if a == 0 {
                    assert(self.areas_seq()[0] == k1.areas_seq()[0]);
                } else if a == 1 {
                    assert(self.areas_seq()[1] == k2.areas_seq()[1]);
                } else if a == 2 {
                    assert(self.areas_seq()[2] == k3.areas_seq()[2]);
                } else if a == 3 {
                    assert(self.areas_seq()[3] == k4.areas_seq()[3]);
                }
            }
            assert forall|a: int|
                0 <= a < self.areas_seq().len() implies (
            #[trigger] self.areas_seq()[a]).start_vpn() <= self.areas_seq()[a].end_vpn()
                && self.areas_seq()[a].end_vpn() <= layout.memory_end / 4096 by {
                if a == 0 {
                    assert(self.areas_seq()[0] == k1.areas_seq()[0]);
                } else if a == 1 {
                    assert(self.areas_seq()[1] == k2.areas_seq()[1]);
                } else if a == 2 {
                    assert(self.areas_seq()[2] == k3.areas_seq()[2]);
                } else if a == 3 {
                    assert(self.areas_seq()[3] == k4.areas_seq()[3]);
                }
            }
        }
    }

    /// Builds the kernel address space: the trampoline page plus the
    /// identical section and RAM mappings of `map_kernel`.
    pub fn new_kernel(
        mem: &mut PhysMemory,
        fa: &mut StackFrameAllocator,
        layout: &KernelLayout,
    ) -> (r: Self)
        requires
            old(fa).wf(),
            old(mem).wf(),
            allocator_in_memory(*old(fa), *old(mem)),
            layout.wf(),
            old(fa).free_count() >= layout.frames_needed() + 3,
        ensures
            final(fa).wf(),
            final(mem).wf(),
            allocator_in_memory(*final(fa), *final(mem)),
            final(mem).base_ppn() == old(mem).base_ppn(),
            final(mem).num_frames() == old(mem).num_frames(),
            final(fa).start_ppn() == old(fa).start_ppn(),
            final(fa).end_ppn() == old(fa).end_ppn(),
            r.wf(*final(mem), *final(fa)),
            r.tramp_ppn() == Some(layout.strampoline / 4096),
            final(fa).free_count() >= old(fa).free_count() - layout.frames_needed() - 3,
            forall|a: int|
                0 <= a < r.areas_seq().len() ==> (#[trigger] r.areas_seq()[a]).start_vpn()
                    <= r.areas_seq()[a].end_vpn() && r.areas_seq()[a].end_vpn()
                    <= layout.memory_end / 4096,
            translation(*final(mem), r.root(), VirtPageNum(TRAMPOLINE_VPN)) == Some(
                (layout.strampoline / 4096, 11u8),
            ),
            forall|v: VirtPageNum|
                v.wf() && layout.stext / 4096 <= v.0 < layout.etext / 4096 ==> translation(
                    *final(mem),
                    r.root(),
                    v,
                ) == Some((v.0, 11u8)),
            forall|v: VirtPageNum|
                v.wf() && layout.srodata / 4096 <= v.0 < layout.erodata / 4096
                    ==> translation(*final(mem), r.root(), v) == Some((v.0, 3u8)),
            forall|v: VirtPageNum|
                v.wf() && layout.sdata / 4096 <= v.0 < layout.edata / 4096 ==> translation(
                    *final(mem),
                    r.root(),
                    v,
                ) == Some((v.0, 7u8)),
            forall|v: VirtPageNum|
                v.wf() && layout.sbss / 4096 <= v.0 < layout.ebss / 4096 ==> translation(
                    *final(mem),
                    r.root(),
                    v,
                ) == Some((v.0, 7u8)),
            forall|v: VirtPageNum|
                v.wf() && layout.ekernel / 4096 <= v.0 < layout.memory_end / 4096
                    ==> translation(*final(mem), r.root(), v) == Some((v.0, 7u8)),
            forall|q: u64| old(fa).is_allocated(q) ==> final(fa).is_allocated(q),
            forall|q: u64|
                r.owned_frame(q) ==> !old(fa).is_allocated(q) && final(fa).is_allocated(q),
            forall|p: u64, k: int|
                old(mem).contains_ppn(p) && 0 <= k < 512 && old(fa).is_allocated(p)
                    ==> final(mem).word(p, k) == old(mem).word(p, k),
    {
        let mut ms = MemorySet::new_bare(mem, fa);
        let ghost ms1 = ms;
        let ghost mem1 = *mem;
        let ghost fa1 = *fa;
        let strampoline_ppn = PhysPageNum(layout.strampoline / 4096);
        proof {
            assert(layout.strampoline / 4096 < 0x1000_0000_0000u64) by (nonlinear_arith)
                requires layout.strampoline <= 0x1_0000_0000u64;
            assert(!ms.vpn_in_areas(TRAMPOLINE_VPN));
        }
        ms.map_trampoline(mem, fa, strampoline_ppn);
        let ghost ms2 = ms;
        let ghost mem2 = *mem;
        let ghost fa2 = *fa;
        proof {
            assert(layout.memory_end / 4096 <= 0x100_000u64) by (nonlinear_arith)
                requires layout.memory_end <= 0x1_0000_0000u64;
        }
        ms.map_kernel(mem, fa, layout);
        proof {
            assert(TRAMPOLINE_VPN >= layout.memory_end / 4096);
            assert(translation(*mem, ms.root(), VirtPageNum(TRAMPOLINE_VPN)) == translation(
                mem2,
                ms.root(),
                VirtPageNum(TRAMPOLINE_VPN),
            ));
            assert forall|p: u64, k: int|
                old(mem).contains_ppn(p) && 0 <= k < 512 && old(fa).is_allocated(p) implies
                mem.word(p, k) == old(mem).word(p, k) by {
                assert(mem1.word(p, k) == old(mem).word(p, k));
                assert(fa1.is_allocated(p));
                assert(!ms1.pt().node_set().contains(p));
                assert(mem1.contains_ppn(p));
                assert(mem2.word(p, k) == mem1.word(p, k));
                assert(fa2.is_allocated(p));
                assert(!ms2.pt().node_set().contains(p));
                assert(mem2.contains_ppn(p));
                assert(mem.word(p, k) == mem2.word(p, k));
            }
            assert forall|q: u64|
                ms.owned_frame(q) implies !old(fa).is_allocated(q) && fa.is_allocated(
                q,
            ) by {
                if ms.pt().node_set().contains(q) {
                    assert(fa.is_allocated(q));
                    if old(fa).is_allocated(q) {
                        assert(fa1.is_allocated(q));
                        assert(fa2.is_allocated(q));
                        assert(!ms1.pt().node_set().contains(q));
                        assert(!ms2.pt().node_set().contains(q));
                        assert(false);
                    }
                } else {
                    let (a, i) = choose|a: int, i: int|
                        0 <= a < ms.areas_seq().len() && 0 <= i
                            < ms.areas_seq()[a].frames_seq().len() && (
                        #[trigger] ms.areas_seq()[a].frames_seq()[i]) == q;
                    assert(fa.is_allocated(q));
                    assert(!ms.areas_seq()[a].is_framed() ==> ms.areas_seq()[a].frames_seq()
                        .len() == 0);
                    assert(!fa2.is_allocated(q));
                }
            }
        }
        ms
    }

    /// Whether the space owns physical frame `q`, as a table node or as a
    /// segment's backing frame.
    pub open spec fn owned_frame(self, q: u64) -> bool {
        self.pt().node_set().contains(q) || exists|a: int, i: int|
            0 <= a < self.areas_seq().len() && 0 <= i < self.areas_seq()[a].frames_seq().len()
                && (#[trigger] self.areas_seq()[a].frames_seq()[i]) == q
    }

    /// Returns every frame the space owns to the allocator; afterwards a
    /// frame is handed out exactly when it was handed out before and is
    /// not owned by the dropped space.
    pub fn recycle(self, mem: &PhysMemory, fa: &mut StackFrameAllocator)
        requires
            old(fa).wf(),
            self.wf(*mem, *old(fa)),
        ensures
            final(fa).wf(),
            final(fa).start_ppn() == old(fa).start_ppn(),
            final(fa).end_ppn() == old(fa).end_ppn(),
            forall|q: u64|
                final(fa).is_allocated(q) == (old(fa).is_allocated(q) && !self.owned_frame(
                    q,
                )),
    {
        let MemorySet { page_table, mut areas, trampoline } = self;
        page_table.recycle(mem, fa);
        let ghost all_areas = self.areas_seq();
        let ghost n_all = all_areas.len() as int;
        while areas.len() > 0
            invariant
                fa.wf(),
                fa.start_ppn() == old(fa).start_ppn(),
                fa.end_ppn() == old(fa).end_ppn(),
                areas@ == all_areas.take(areas@.len() as int),
                areas@.len() <= n_all,
                n_all == all_areas.len(),
                forall|a: int, i: int, b: int, j: int|
                    #![trigger all_areas[a].frames_seq()[i], all_areas[b].frames_seq()[j]]
                    0 <= a < n_all && 0 <= i < all_areas[a].frames_seq().len() && 0 <= b
                        < n_all && 0 <= j < all_areas[b].frames_seq().len() && !(a == b && i
                        == j) ==> all_areas[a].frames_seq()[i] != all_areas[b].frames_seq()[j],
                forall|q: u64|
                    #[trigger] fa.is_allocated(q) == (old(fa).is_allocated(q)
                        && !self.pt().node_set().contains(q) && !exists|a: int, i: int|
                        areas@.len() <= a < n_all && 0 <= i
                            < all_areas[a].frames_seq().len() && (
                        #[trigger] all_areas[a].frames_seq()[i]) == q),
                forall|a: int, i: int|
                    #![trigger all_areas[a].frames_seq()[i]]
                    0 <= a < areas@.len() && 0 <= i < all_areas[a].frames_seq().len() ==> fa
                        .is_allocated(all_areas[a].frames_seq()[i]),
            decreases areas@.len(),
        {
            let ghost k = areas@.len() as int;
            let area = match areas.pop() {
                Some(a) => a,
                None => {
                    proof {
                        assert(false);
                    }
                    vstd::pervasive::unreached()
                },
            };
            proof {
                assert(all_areas.take(k)[k - 1] == all_areas[k - 1]);
                assert(area == all_areas[k - 1]);
                assert(areas@ =~= all_areas.take(k - 1));
            }
            let ghost frames = area.frames_seq();
            let Segment { map_type, map_perm, vpn_range, data_frames } = area;
            let mut fv = data_frames;
            while fv.len() > 0
                invariant
                    fa.wf(),
                    fa.start_ppn() == old(fa).start_ppn(),
                    fa.end_ppn() == old(fa).end_ppn(),
                    0 <= k - 1 < n_all,
                    n_all == all_areas.len(),
                    frames == all_areas[k - 1].frames_seq(),
                    fv@.map_values(|ft: FrameTracker| ft.ppn.0) == frames.take(
                        fv@.len() as int,
                    ),
                    fv@.len() <= frames.len(),
                    forall|a: int, i: int, b: int, j: int|
                        #![trigger all_areas[a].frames_seq()[i], all_areas[b].frames_seq()[j]]
                        0 <= a < n_all && 0 <= i < all_areas[a].frames_seq().len() && 0 <= b
                            < n_all && 0 <= j < all_areas[b].frames_seq().len() && !(a == b
                            && i == j) ==> all_areas[a].frames_seq()[i]
                            != all_areas[b].frames_seq()[j],
                    forall|q: u64|
                        #[trigger] fa.is_allocated(q) == (old(fa).is_allocated(q)
                            && !self.pt().node_set().contains(q) && !exists|a: int, i: int|
                            k <= a < n_all && 0 <= i < all_areas[a].frames_seq().len() && (
                            #[trigger] all_areas[a].frames_seq()[i]) == q && true
                            && !(fv@.len() <= i < frames.len() && a == k - 1)
                            || (a == k - 1 && fv@.len() <= i < frames.len()
                            && all_areas[a].frames_seq()[i] == q)),
                    forall|a: int, i: int|
                        #![trigger all_areas[a].frames_seq()[i]]
                        0 <= a < k - 1 && 0 <= i < all_areas[a].frames_seq().len() ==> fa
                            .is_allocated(all_areas[a].frames_seq()[i]),
                    forall|i: int|
                        0 <= i < fv@.len() ==> fa.is_allocated(#[trigger] frames[i]),
                decreases fv@.len(),
            {
                let ghost m = fv@.len() as int;
                let ft = match fv.pop() {
                    Some(ft) => ft,
                    None => {
                        proof {
                            assert(false);
                        }
                        vstd::pervasive::unreached()
                    },
                };
                proof {
                    assert(frames.take(m)[m - 1] == frames[m - 1]);
                    assert(ft.ppn.0 == frames[m - 1]);
                }
                let ghost fa_pre = *fa;
                frame_dealloc(fa, ft);
                proof {
                    assert(fv@.map_values(|ft: FrameTracker| ft.ppn.0) =~= frames.take(
                        m - 1,
                    ));
                    assert forall|i: int| 0 <= i < fv@.len() implies fa.is_allocated(
                        #[trigger] frames[i],
                    ) by {
                        assert(frames[i] != frames[m - 1]);
                        assert(fa_pre.is_allocated(frames[i]));
                    }
                    assert forall|a: int, i: int|
                        #![trigger all_areas[a].frames_seq()[i]]
                        0 <= a < k - 1 && 0 <= i < all_areas[a].frames_seq().len() implies fa
                        .is_allocated(all_areas[a].frames_seq()[i]) by {
                        assert(all_areas[a].frames_seq()[i] != frames[m - 1]);
                        assert(fa_pre.is_allocated(all_areas[a].frames_seq()[i]));
                    }
                }
            }
        }
        proof {
            assert forall|q: u64|
                final(fa).is_allocated(q) == (old(fa).is_allocated(q) && !self.owned_frame(
                    q,
                )) by {
            }
        }
    }
}



/// The virtual address `j` bytes into the segment of program header `h`.
pub open spec fn load_va(s: Seq<u8>, h: int, j: int) -> u64 {
    (crate::elf::ph_vaddr(s, h) + j) as u64
}

/// The frames the loadable segments of the first `n` program headers can
/// consume.
pub open spec fn elf_load_frames_needed(s: Seq<u8>, n: int) -> int
    decreases n,
{
    if n <= 0 {
        0
    } else {
        elf_load_frames_needed(s, n - 1) + if crate::elf::ph_is_load(s, n - 1) {
            seg_frames_needed(
                true,
                (crate::elf::ph_vaddr(s, n - 1) / 4096) as u64,
                ((crate::elf::ph_vaddr(s, n - 1) + crate::elf::ph_memsz(s, n - 1) + 4095)
                    / 4096) as u64,
            )
        } else {
            0
        }
    }
}

/// The budget of one loadable segment is non-negative.
proof fn lemma_seg_needed_nonneg(st: u64, en: u64)
    requires
        st <= en,
    ensures
        seg_frames_needed(true, st, en) >= 0,
        seg_frames_needed(false, st, en) >= 0,
{
    if en > st {
        assert(st / 512 <= (en - 1) as u64 / 512) by (bit_vector)
            requires st <= (en - 1) as u64 + 1, en >= 1, st <= en - 1;
    }
}

/// Loading budgets are non-negative and grow with the header count.
proof fn lemma_load_frames_bounds(s: Seq<u8>, a: int, b: int)
    requires
        0 <= a <= b,
    ensures
        0 <= elf_load_frames_needed(s, a) <= elf_load_frames_needed(s, b),
    decreases b - a,
{
    if a < b {
        lemma_load_frames_bounds(s, a, b - 1);
        if crate::elf::ph_is_load(s, b - 1) {
            let va = crate::elf::ph_vaddr(s, b - 1);
            let msz = crate::elf::ph_memsz(s, b - 1);
            let st: u64 = va / 4096;
            let en: u64 = ((va + msz + 4095) / 4096) as u64;
            assert(st <= en) by (nonlinear_arith)
                requires
                    st == va / 4096,
                    en == ((va + msz + 4095) / 4096) as u64,
            ;
            lemma_seg_needed_nonneg(st, en);
        }
    } else {
        lemma_load_frames_bounds_zero(s, a);
    }
}

/// Loading budgets are non-negative.
proof fn lemma_load_frames_bounds_zero(s: Seq<u8>, a: int)
    requires
        0 <= a,
    ensures
        elf_load_frames_needed(s, a) >= 0,
    decreases a,
{
    if a > 0 {
        lemma_load_frames_bounds_zero(s, a - 1);
        if crate::elf::ph_is_load(s, a - 1) {
            let va = crate::elf::ph_vaddr(s, a - 1);
            let msz = crate::elf::ph_memsz(s, a - 1);
            let st: u64 = va / 4096;
            let en: u64 = ((va + msz + 4095) / 4096) as u64;
            assert(st <= en) by (nonlinear_arith)
                requires
                    st == va / 4096,
                    en == ((va + msz + 4095) / 4096) as u64,
            ;
            lemma_seg_needed_nonneg(st, en);
        }
    }
}

/// The frames building a whole user space from the image can consume:
/// its loadable segments plus the table root, the trampoline's interior
/// nodes, the user stack and the trap-context page.
pub open spec fn elf_space_frames_needed(s: Seq<u8>) -> int {
    elf_load_frames_needed(s, crate::elf::elf_phnum(s) as int) + 30
}

impl MemorySet {
    /// Builds a user address space from an ELF image: one framed
    /// user-accessible segment per loadable header, holding the header's
    /// file bytes followed by zeros; then a guard page, the user stack,
    /// the trampoline, and the trap-context page.  Returns the space, the
    /// initial user stack pointer, and the entry point.
    #[verifier::rlimit(100)]
    pub fn new_elf(
        mem: &mut PhysMemory,
        fa: &mut StackFrameAllocator,
        elf_data: &Vec<u8>,
        strampoline: PhysPageNum,
    ) -> (r: (Self, u64, u64))
        requires
            old(fa).wf(),
            old(mem).wf(),
            allocator_in_memory(*old(fa), *old(mem)),
            crate::elf::elf_wf(elf_data@),
            strampoline.wf(),
            old(fa).free_count() >= elf_space_frames_needed(elf_data@),
        ensures
            final(fa).wf(),
            final(mem).wf(),
            allocator_in_memory(*final(fa), *final(mem)),
            final(mem).base_ppn() == old(mem).base_ppn(),
            final(mem).num_frames() == old(mem).num_frames(),
            final(fa).start_ppn() == old(fa).start_ppn(),
            final(fa).end_ppn() == old(fa).end_ppn(),
            r.0.wf(*final(mem), *final(fa)),
            r.2 == crate::elf::elf_entry(elf_data@),
            r.1 % 4096 == 0,
            4096 * 3 <= r.1 <= 0x4100_0000u64,
            forall|h: int, j: int|
                0 <= h < crate::elf::elf_phnum(elf_data@) && crate::elf::ph_is_load(
                    elf_data@,
                    h,
                ) && 0 <= j < crate::elf::ph_filesz(elf_data@, h)
                    ==> crate::page_table::user_byte(
                    *final(mem),
                    r.0.root(),
                    #[trigger] load_va(elf_data@, h, j),
                ) == elf_data@[crate::elf::ph_offset(elf_data@, h) + j],
            forall|h: int, j: int|
                0 <= h < crate::elf::elf_phnum(elf_data@) && crate::elf::ph_is_load(
                    elf_data@,
                    h,
                ) && crate::elf::ph_filesz(elf_data@, h) <= j < crate::elf::ph_memsz(
                    elf_data@,
                    h,
                ) ==> crate::page_table::user_byte(
                    *final(mem),
                    r.0.root(),
                    #[trigger] load_va(elf_data@, h, j),
                ) == 0,
            forall|h: int, j: int|
                0 <= h < crate::elf::elf_phnum(elf_data@) && crate::elf::ph_is_load(
                    elf_data@,
                    h,
                ) && 0 <= j < crate::elf::ph_memsz(elf_data@, h)
                    ==> crate::page_table::va_mapped(
                    *final(mem),
                    r.0.root(),
                    #[trigger] load_va(elf_data@, h, j),
                ),
            translation(*final(mem), r.0.root(), VirtPageNum(TRAMPOLINE_VPN)) == Some(
                (strampoline.0, 11u8),
            ),
            translation(*final(mem), r.0.root(), VirtPageNum(TRAP_CONTEXT_VPN)) matches Some(
                t,
            ) && (t.1 == 7 && final(mem).contains_ppn(t.0) && !r.0.pt().node_set().contains(
                t.0,
            )),
            forall|v: VirtPageNum|
                v.wf() && r.1 / 4096 - 2 <= v.0 < r.1 / 4096 ==> (translation(
                    *final(mem),
                    r.0.root(),
                    v,
                ) matches Some(t) && (t.1 == 23u8 && final(mem).contains_ppn(t.0))),
            forall|q: u64| old(fa).is_allocated(q) ==> final(fa).is_allocated(q),
            final(fa).free_count() >= old(fa).free_count() - elf_space_frames_needed(
                elf_data@,
            ),
            forall|a: int|
                0 <= a < r.0.areas_seq().len() ==> (#[trigger] r.0.areas_seq()[a]).is_framed(),
            forall|q: u64|
                r.0.owned_frame(q) ==> !old(fa).is_allocated(q) && final(fa).is_allocated(
                    q,
                ),
            forall|p: u64, k: int|
                old(mem).contains_ppn(p) && 0 <= k < 512 && old(fa).is_allocated(p)
                    ==> final(mem).word(p, k) == old(mem).word(p, k),
    {
        let ghost s = elf_data@;
        proof {
            lemma_load_frames_bounds(s, 0, crate::elf::elf_phnum(s) as int);
            assert(old(fa).free_count() >= 30);
        }
        let mut ms = MemorySet::new_bare(mem, fa);
        let ghost ms1 = ms;
        let ghost mem1 = *mem;
        let ghost fa1 = *fa;
        proof {
            assert(!ms.vpn_in_areas(TRAMPOLINE_VPN));
        }
        ms.map_trampoline(mem, fa, strampoline);
        proof {
            assert forall|p: u64| ms.pt().node_set().contains(p) implies !old(
                fa,
            ).is_allocated(p) by {
                if ms.pt().node_set().contains(p) && old(fa).is_allocated(p) {
                    assert(fa1.is_allocated(p));
                    assert(!ms1.pt().node_set().contains(p));
                }
            }
            assert forall|p: u64| old(fa).is_allocated(p) implies !ms.pt().node_set()
                .contains(p) by {
                assert(fa1.is_allocated(p));
                assert(!ms1.pt().node_set().contains(p));
            }
            assert forall|p: u64, k: int|
                old(mem).contains_ppn(p) && 0 <= k < 512 && old(fa).is_allocated(p) implies
                mem.word(p, k) == old(mem).word(p, k) by {
                assert(mem1.word(p, k) == old(mem).word(p, k));
                assert(fa1.is_allocated(p));
                assert(!ms1.pt().node_set().contains(p));
                assert(mem1.contains_ppn(p));
                assert(mem.word(p, k) == mem1.word(p, k));
            }
        }
        let nh64 = crate::elf::elf_num_prog_headers(elf_data);
        let nh: usize = nh64 as usize;
        let mut max_end_vpn: u64 = 0;
        let mut h: usize = 0;
        while h < nh
            invariant
                fa.wf(),
                mem.wf(),
                allocator_in_memory(*fa, *mem),
                mem.base_ppn() == old(mem).base_ppn(),
                mem.num_frames() == old(mem).num_frames(),
                fa.start_ppn() == old(fa).start_ppn(),
                fa.end_ppn() == old(fa).end_ppn(),
                s == elf_data@,
                crate::elf::elf_wf(s),
                nh == crate::elf::elf_phnum(s),
                0 <= h <= nh,
                old(fa).free_count() >= elf_load_frames_needed(s, nh as int) + 30,
                ms.wf(*mem, *fa),
                ms.tramp_ppn() == Some(strampoline.0),
                strampoline.wf(),
                max_end_vpn <= 0x40001u64,
                forall|a: int|
                    0 <= a < ms.areas_seq().len() ==> (#[trigger] ms.areas_seq()[a]).is_framed(),
                forall|a: int, i: int|
                    #![trigger ms.areas_seq()[a].frames_seq()[i]]
                    0 <= a < ms.areas_seq().len() && 0 <= i
                        < ms.areas_seq()[a].frames_seq().len() ==> !old(fa).is_allocated(
                        ms.areas_seq()[a].frames_seq()[i],
                    ),
                forall|p: u64|
                    ms.pt().node_set().contains(p) ==> !old(fa).is_allocated(p),
                forall|a: int|
                    0 <= a < ms.areas_seq().len() ==> (#[trigger] ms.areas_seq()[a]).end_vpn()
                        <= max_end_vpn,
                forall|hh: int|
                    h <= hh < nh && crate::elf::ph_is_load(s, hh) ==> max_end_vpn
                        <= crate::elf::ph_vaddr(s, hh) / 4096,
                fa.free_count() >= old(fa).free_count() - 3 - elf_load_frames_needed(s, h as int),
                forall|q: u64| old(fa).is_allocated(q) ==> fa.is_allocated(q),
                forall|p: u64|
                    old(fa).is_allocated(p) ==> !ms.pt().node_set().contains(p),
                forall|p: u64, k: int|
                    old(mem).contains_ppn(p) && 0 <= k < 512 && old(fa).is_allocated(p)
                        ==> mem.word(p, k) == old(mem).word(p, k),
                forall|hh: int, j: int|
                    0 <= hh < h && crate::elf::ph_is_load(s, hh) && 0 <= j
                        < crate::elf::ph_filesz(s, hh) ==> crate::page_table::user_byte(
                        *mem,
                        ms.root(),
                        #[trigger] load_va(s, hh, j),
                    ) == s[crate::elf::ph_offset(s, hh) + j],
                forall|hh: int, j: int|
                    0 <= hh < h && crate::elf::ph_is_load(s, hh) && crate::elf::ph_filesz(
                        s,
                        hh,
                    ) <= j < crate::elf::ph_memsz(s, hh) ==> crate::page_table::user_byte(
                        *mem,
                        ms.root(),
                        #[trigger] load_va(s, hh, j),
                    ) == 0,
                forall|hh: int, j: int|
                    0 <= hh < h && crate::elf::ph_is_load(s, hh) && 0 <= j
                        < crate::elf::ph_memsz(s, hh) ==> ms.vpn_in_areas(
                        crate::page_table::va_page(#[trigger] load_va(s, hh, j)).0,
                    ),
                forall|hh: int, j: int|
                    0 <= hh < h && crate::elf::ph_is_load(s, hh) && 0 <= j
                        < crate::elf::ph_memsz(s, hh) ==> crate::page_table::va_mapped(
                        *mem,
                        ms.root(),
                        #[trigger] load_va(s, hh, j),
                    ),
            decreases nh - h,
        {
            let ph = crate::elf::elf_prog_header(elf_data, h);
            if ph.ptype == 1 {
                let mut permbits: u8 = 16;
                if ph.flags & 4 == 4 {
                    permbits = permbits | 2;
                }
                if ph.flags & 2 == 2 {
                    permbits = permbits | 4;
                }
                if ph.flags & 1 == 1 {
                    permbits = permbits | 8;
                }
                let perm = MapPermission { bits: permbits };
                proof {
                    assert(crate::elf::ph_is_load(s, h as int));
                    assert(crate::elf::ph_vaddr(s, h as int) + crate::elf::ph_memsz(
                        s,
                        h as int,
                    ) <= 0x4000_0000);
                }
                let seg = Segment::new(
                    VirtAddr(ph.vaddr),
                    VirtAddr(ph.vaddr + ph.memsz),
                    MapType::Framed,
                    perm,
                );
                let mut chunk: Vec<u8> = Vec::new();
                let mut cidx: usize = 0;
                proof {
                    assert(crate::elf::ph_offset(s, h as int) + crate::elf::ph_filesz(
                        s,
                        h as int,
                    ) <= s.len());
                    assert(s.len() <= 0x1000_0000);
                }
                let flen: usize = ph.filesz as usize;
                let off: usize = ph.offset as usize;
                let dlen: usize = elf_data.len();
                while cidx < flen
                    invariant
                        s == elf_data@,
                        flen == crate::elf::ph_filesz(s, h as int),
                        off == crate::elf::ph_offset(s, h as int),
                        dlen == s.len(),
                        off + flen <= dlen,
                        0 <= cidx <= flen,
                        chunk@.len() == cidx,
                        forall|j: int| 0 <= j < cidx ==> chunk@[j] == s[off + j],
                    decreases flen - cidx,
                {
                    let b = elf_data[off + cidx];
                    chunk.push(b);
                    cidx = cidx + 1;
                }
                proof {
                    assert(forall|j: int|
                        0 <= j < chunk@.len() ==> chunk@[j] == s[crate::elf::ph_offset(
                            s,
                            h as int,
                        ) + j]);
                }
                let ghost ms_pre = ms;
                let ghost mem_pre = *mem;
                let ghost fa_pre = *fa;
                proof {
                    assert(crate::elf::ph_is_load(s, h as int));
                    assert(crate::elf::ph_vaddr(s, h as int) % 4096 == 0);
                    assert(crate::elf::ph_vaddr(s, h as int) + crate::elf::ph_memsz(
                        s,
                        h as int,
                    ) <= 0x4000_0000);
                    assert(seg.start_vpn() == ph.vaddr / 4096);
                    assert(seg.end_vpn() == ((ph.vaddr + ph.memsz + 4095) / 4096) as u64);
                    assert(seg.end_vpn() <= 0x40001u64) by (nonlinear_arith)
                        requires
                            seg.end_vpn() == ((ph.vaddr + ph.memsz + 4095) / 4096) as u64,
                            ph.vaddr + ph.memsz <= 0x4000_0000,
                    ;
                    assert(max_end_vpn <= ph.vaddr / 4096);
                    assert(seg.start_vpn() <= seg.end_vpn());
                    assert(!seg.contains_vpn(TRAMPOLINE_VPN));
                    assert(chunk@.len() <= 4096 * (seg.end_vpn() - seg.start_vpn()))
                        by (nonlinear_arith)
                        requires
                            chunk@.len() <= crate::elf::ph_memsz(s, h as int),
                            crate::elf::ph_vaddr(s, h as int) % 4096 == 0,
                            seg.start_vpn() == crate::elf::ph_vaddr(s, h as int) / 4096,
                            seg.end_vpn() == ((crate::elf::ph_vaddr(s, h as int)
                                + crate::elf::ph_memsz(s, h as int) + 4095) / 4096) as u64,
                    ;
                    assert(chunk@.len() <= 0x1000_0000);
                    assert(elf_load_frames_needed(s, h + 1) == elf_load_frames_needed(
                        s,
                        h as int,
                    ) + seg_frames_needed(true, seg.start_vpn(), seg.end_vpn()));
                    lemma_load_frames_bounds(s, h + 1, nh as int);
                    assert(fa.free_count() >= seg_frames_needed(
                        true,
                        seg.start_vpn(),
                        seg.end_vpn(),
                    ) + 27);
                }
                ms.push(mem, fa, seg, Some(&chunk));
                max_end_vpn = ((ph.vaddr + ph.memsz + 4095) / 4096);
                proof {
                    let n = ms_pre.areas_seq().len() as int;
                    let ns = ms.areas_seq()[n];
                    let va0 = crate::elf::ph_vaddr(s, h as int);
                    let fsz = crate::elf::ph_filesz(s, h as int);
                    let msz = crate::elf::ph_memsz(s, h as int);
                    // the new segment's own bytes, seen through its mapping
                    assert forall|j: int| 0 <= j < msz implies {
                        &&& crate::page_table::user_byte(
                            *mem,
                            ms.root(),
                            #[trigger] load_va(s, h as int, j),
                        ) == (if j < fsz {
                            s[crate::elf::ph_offset(s, h as int) + j]
                        } else {
                            0u8
                        })
                    } by {
                        let va: u64 = load_va(s, h as int, j);
                        assert(va == (va0 + j) as u64);
                        let pg: u64 = (va0 / 4096 + j / 4096) as u64;
                        assert(va / 4096 == va0 / 4096 + j / 4096 && va % 4096 == j % 4096
                            && j == 4096 * (j / 4096) + (j % 4096) && 0 <= j % 4096 < 4096
                            && (j / 4096) * 4096 <= j) by (nonlinear_arith)
                            requires
                                va == va0 + j,
                                va0 % 4096 == 0,
                                0 <= j,
                        ;
                        let v = VirtPageNum(pg);
                        assert(v.wf());
                        assert(ns.contains_vpn(pg)) by (nonlinear_arith)
                            requires
                                ns.start_vpn() == va0 / 4096,
                                ns.end_vpn() == ((va0 + msz + 4095) / 4096) as u64,
                                pg == va0 / 4096 + j / 4096,
                                0 <= j < msz,
                                va0 % 4096 == 0,
                        ;
                        assert(translation(*mem, ms.root(), v) == Some(
                            (ns.page_ppn(pg), (ns.perm_bits() | 1) as u8),
                        ));
                        assert(crate::page_table::va_page(va) == v);
                        assert(ns.page_ppn(pg) == ns.frames_seq()[j / 4096]);
                        assert(j / 4096 < ns.frames_seq().len());
                        if j < fsz {
                            assert(4096 * (j / 4096) + (j % 4096) < chunk@.len());
                            assert(mem.byte(ns.frames_seq()[j / 4096], j % 4096)
                                == chunk@[4096 * (j / 4096) + (j % 4096)]);
                            assert(chunk@[j] == s[crate::elf::ph_offset(s, h as int) + j]);
                        } else {
                            assert(4096 * (j / 4096) + (j % 4096) >= chunk@.len());
                            assert(mem.byte(ns.frames_seq()[j / 4096], j % 4096) == 0);
                        }
                    }
                    assert forall|j: int|
                        0 <= j < msz implies crate::page_table::va_mapped(
                        *mem,
                        ms.root(),
                        #[trigger] load_va(s, h as int, j),
                    ) by {
                        let va: u64 = load_va(s, h as int, j);
                        let pg: u64 = (va0 / 4096 + j / 4096) as u64;
                        assert(va / 4096 == va0 / 4096 + j / 4096) by (nonlinear_arith)
                            requires
                                va == va0 + j,
                                va0 % 4096 == 0,
                                0 <= j,
                        ;
                        let v = VirtPageNum(pg);
                        assert(ns.contains_vpn(pg)) by (nonlinear_arith)
                            requires
                                ns.start_vpn() == va0 / 4096,
                                ns.end_vpn() == ((va0 + msz + 4095) / 4096) as u64,
                                pg == va0 / 4096 + j / 4096,
                                0 <= j < msz,
                                va0 % 4096 == 0,
                        ;
                        assert(translation(*mem, ms.root(), v) == Some(
                            (ns.page_ppn(pg), (ns.perm_bits() | 1) as u8),
                        ));
                        assert(crate::page_table::va_page(va) == v);
                    }
                    // bytes of earlier loadable segments survive this push
                    assert forall|hh: int, j: int|
                        0 <= hh < h && crate::elf::ph_is_load(s, hh) && 0 <= j
                            < crate::elf::ph_memsz(s, hh) implies {
                        &&& crate::page_table::user_byte(
                            *mem,
                            ms.root(),
                            #[trigger] load_va(s, hh, j),
                        ) == crate::page_table::user_byte(
                            mem_pre,
                            ms_pre.root(),
                            load_va(s, hh, j),
                        )
                    } by {
                        let va: u64 = load_va(s, hh, j);
                        let v = crate::page_table::va_page(va);
                        assert(v.wf()) by (nonlinear_arith)
                            requires
                                v.0 == va / 4096,
                                va < 0x80_0000_0000u64,
                        ;
                        assert(ms_pre.vpn_in_areas(v.0));
                        assert(!seg.contains_vpn(v.0)) by {
                            let a = choose|a: int|
                                0 <= a < ms_pre.areas_seq().len() && (
                                #[trigger] ms_pre.areas_seq()[a]).contains_vpn(v.0);
                            assert(ms_pre.areas_seq()[a].end_vpn() <= max_end_vpn
                                || ms_pre.areas_seq()[a].end_vpn() <= seg.start_vpn());
                        }
                        lemma_user_byte_preserved(ms_pre, mem_pre, *mem, fa_pre, va, seg);
                        assert(translation(*mem, ms_pre.root(), crate::page_table::va_page(
                            va,
                        )) == translation(mem_pre, ms_pre.root(), crate::page_table::va_page(
                            va,
                        )));
                        assert(crate::page_table::va_mapped(*mem, ms.root(), va));
                    }
                    // every page of every processed segment lies in some area
                    assert forall|hh: int, j: int|
                        0 <= hh < h + 1 && crate::elf::ph_is_load(s, hh) && 0 <= j
                            < crate::elf::ph_memsz(s, hh) implies ms.vpn_in_areas(
                        crate::page_table::va_page(#[trigger] load_va(s, hh, j)).0,
                    ) by {
                        let va: u64 = load_va(s, hh, j);
                        let v = crate::page_table::va_page(va);
                        if hh < h {
                            assert(ms_pre.vpn_in_areas(v.0));
                            let a = choose|a: int|
                                0 <= a < ms_pre.areas_seq().len() && (
                                #[trigger] ms_pre.areas_seq()[a]).contains_vpn(v.0);
                            assert(ms.areas_seq()[a].contains_vpn(v.0));
                        } else {
                            let va0h = crate::elf::ph_vaddr(s, hh);
                            let mszh = crate::elf::ph_memsz(s, hh);
                            assert(v.0 == va0h / 4096 + j / 4096 && ns.contains_vpn(v.0))
                                by (nonlinear_arith)
                                requires
                                    v.0 == va / 4096,
                                    va == va0h + j,
                                    va0h % 4096 == 0,
                                    0 <= j < mszh,
                                    ns.start_vpn() == va0h / 4096,
                                    ns.end_vpn() == ((va0h + mszh + 4095) / 4096) as u64,
                            ;
                        }
                    }
                }
            } else {
                proof {
                    assert(elf_load_frames_needed(s, h + 1) == elf_load_frames_needed(
                        s,
                        h as int,
                    ));
                }
            }
            h = h + 1;
        }
        // guard page, then the user stack
        let stack_start_vpn: u64 = max_end_vpn + 1;
        let user_sp: u64 = (stack_start_vpn + 2) * 4096;
        let ghost ms_a = ms;
        let ghost mem_a = *mem;
        let ghost fa_a = *fa;
        proof {
            assert(seg_frames_needed(true, stack_start_vpn, (stack_start_vpn + 2) as u64)
                <= 9) by {
                assert(seg_groups(stack_start_vpn, (stack_start_vpn + 2) as u64) <= 2) by {
                    let x: u64 = stack_start_vpn;
                    assert((x + 1) as u64 / 512 <= x / 512 + 1) by (bit_vector);
                }
            }
            assert((stack_start_vpn * 4096) % 4096 == 0 && ((stack_start_vpn + 2) * 4096)
                % 4096 == 0 && (stack_start_vpn * 4096) / 4096 == stack_start_vpn && ((
            stack_start_vpn + 2) * 4096) / 4096 == stack_start_vpn + 2) by (nonlinear_arith)
                requires stack_start_vpn <= 0x40002u64;
        }
        let rwu = MapPermission { bits: 22 };
        let stack_lo = VirtAddr(stack_start_vpn * 4096);
        let stack_hi = VirtAddr(user_sp);
        proof {
            lemma_aligned_ceil(stack_hi.0);
            lemma_load_frames_bounds(s, nh as int, nh as int);
            assert(fa.free_count() >= 27);
            assert(stack_lo.0 / 4096 == stack_start_vpn && (stack_hi.0 + 4095) / 4096
                == stack_start_vpn + 2);
            assert forall|a: int|
                0 <= a < ms.areas_seq().len() implies (#[trigger] ms.areas_seq()[a]).end_vpn()
                <= stack_lo.0 / 4096 by {
                assert(ms.areas_seq()[a].end_vpn() <= max_end_vpn);
            }
        }
        ms.insert_segment(mem, fa, stack_lo, stack_hi, rwu);
        let ghost ms_b = ms;
        let ghost mem_b = *mem;
        let ghost fa_b = *fa;
        // the trap-context page, directly below the trampoline
        let tc_lo = VirtAddr(TRAP_CONTEXT_VPN * 4096);
        let tc_hi = VirtAddr(TRAMPOLINE_VPN * 4096);
        proof {
            assert(TRAP_CONTEXT_VPN * 4096 == 0x7F_FFFF_E000u64);
            assert(TRAMPOLINE_VPN * 4096 == 0x7F_FFFF_F000u64);
            lemma_aligned_ceil(tc_hi.0);
            assert((TRAMPOLINE_VPN - 1) as u64 == TRAP_CONTEXT_VPN);
            assert(seg_groups(TRAP_CONTEXT_VPN, TRAMPOLINE_VPN) == 1);
            assert(seg_frames_needed(true, TRAP_CONTEXT_VPN, TRAMPOLINE_VPN) <= 6);
        }
        proof {
            assert(fa.free_count() >= 18);
            assert(tc_lo.0 / 4096 == TRAP_CONTEXT_VPN && (tc_hi.0 + 4095) / 4096
                == TRAMPOLINE_VPN);
            assert forall|a: int|
                0 <= a < ms.areas_seq().len() implies (#[trigger] ms.areas_seq()[a]).end_vpn()
                <= tc_lo.0 / 4096 by {
                if a < ms_a.areas_seq().len() {
                    assert(ms.areas_seq()[a] == ms_a.areas_seq()[a]);
                    assert(ms_a.areas_seq()[a].end_vpn() <= max_end_vpn);
                } else {
                    assert(ms.areas_seq()[a].end_vpn() == stack_start_vpn + 2);
                }
            }
        }
        let rw = MapPermission { bits: 6 };
        ms.insert_segment(mem, fa, tc_lo, tc_hi, rw);
        let entry = crate::elf::elf_entry_point(elf_data);
        proof {
            assert((22u8 | 1) == 23u8 && (6u8 | 1) == 7u8) by (bit_vector);
            // the two framed pushes preserve the loaded bytes
            assert forall|hh: int, j: int|
                0 <= hh < nh && crate::elf::ph_is_load(s, hh) && 0 <= j
                    < crate::elf::ph_memsz(s, hh) implies {
                &&& crate::page_table::user_byte(
                    *mem,
                    ms.root(),
                    #[trigger] load_va(s, hh, j),
                ) == crate::page_table::user_byte(
                    mem_a,
                    ms_a.root(),
                    load_va(s, hh, j),
                )
            } by {
                let va: u64 = load_va(s, hh, j);
                let v = crate::page_table::va_page(va);
                assert(v.wf()) by (nonlinear_arith)
                    requires
                        v.0 == va / 4096,
                        va < 0x80_0000_0000u64,
                ;
                assert(ms_a.vpn_in_areas(v.0));
                let a0 = choose|a: int|
                    0 <= a < ms_a.areas_seq().len() && (
                    #[trigger] ms_a.areas_seq()[a]).contains_vpn(v.0);
                assert(v.0 < max_end_vpn) by {
                    assert(ms_a.areas_seq()[a0].end_vpn() <= max_end_vpn);
                }
                let sseg = ms_b.areas_seq()[ms_a.areas_seq().len() as int];
                assert(!sseg.contains_vpn(v.0));
                lemma_user_byte_preserved(ms_a, mem_a, mem_b, fa_a, va, sseg);
                assert(ms_b.vpn_in_areas(v.0)) by {
                    assert(ms_b.areas_seq()[a0].contains_vpn(v.0));
                }
                assert forall|a: int|
                    0 <= a < ms_b.areas_seq().len() implies (
                #[trigger] ms_b.areas_seq()[a]).is_framed() by {
                    if a < ms_a.areas_seq().len() {
                        assert(ms_b.areas_seq()[a] == ms_a.areas_seq()[a]);
                    }
                }
                let tseg = ms.areas_seq()[ms_b.areas_seq().len() as int];
                assert(!tseg.contains_vpn(v.0));
                lemma_user_byte_preserved(ms_b, mem_b, *mem, fa_b, va, tseg);
                assert(translation(mem_b, ms_a.root(), v) == translation(mem_a, ms_a.root(), v));
                assert(translation(*mem, ms_b.root(), v) == translation(mem_b, ms_b.root(), v));
                assert(crate::page_table::va_mapped(*mem, ms.root(), va));
            }
            // the trap-context page is mapped R W
            let tcv = VirtPageNum(TRAP_CONTEXT_VPN);
            let tcs = ms.areas_seq()[ms_b.areas_seq().len() as int];
            assert(tcs.contains_vpn(TRAP_CONTEXT_VPN));
            assert(translation(*mem, ms.root(), tcv) == Some(
                (tcs.page_ppn(TRAP_CONTEXT_VPN), 7u8),
            ));
            assert(tcs.page_ppn(TRAP_CONTEXT_VPN) == tcs.frames_seq()[0]);
            assert(mem.contains_ppn(tcs.frames_seq()[0]));
            assert(!ms.pt().node_set().contains(tcs.frames_seq()[0]));
            // the stack pages are mapped R W U
            assert forall|v: VirtPageNum|
                v.wf() && user_sp / 4096 - 2 <= v.0 < user_sp / 4096 implies translation(
                *mem,
                ms.root(),
                v,
            ) matches Some(t) && (t.1 == 23u8 && mem.contains_ppn(t.0)) by {
                assert(user_sp / 4096 == stack_start_vpn + 2) by (nonlinear_arith)
                    requires
                        user_sp == (stack_start_vpn + 2) * 4096,
                        stack_start_vpn <= 0x40002u64,
                ;
                let sseg = ms_b.areas_seq()[ms_a.areas_seq().len() as int];
                assert(sseg.contains_vpn(v.0));
                assert(translation(mem_b, ms_b.root(), v) == Some(
                    (sseg.page_ppn(v.0), 23u8),
                ));
                assert(!tcs.contains_vpn(v.0));
                assert(translation(*mem, ms.root(), v) == translation(mem_b, ms_b.root(), v));
                assert(sseg.page_ppn(v.0) == sseg.frames_seq()[v.0 - sseg.start_vpn()]);
                assert(mem.contains_ppn(sseg.frames_seq()[v.0 - sseg.start_vpn()]));
            }
            // the trampoline still maps to the kernel code page
            assert(translation(*mem, ms.root(), VirtPageNum(TRAMPOLINE_VPN)) == Some(
                (strampoline.0, 11u8),
            ));
            assert(user_sp % 4096 == 0 && 4096 * 3 <= user_sp <= 0x4100_0000u64)
                by (nonlinear_arith)
                requires
                    user_sp == (stack_start_vpn + 2) * 4096,
                    1 <= stack_start_vpn <= 0x40002u64,
            ;
            assert forall|p: u64, k: int|
                old(mem).contains_ppn(p) && 0 <= k < 512 && old(fa).is_allocated(p) implies
                mem.word(p, k) == old(mem).word(p, k) by {
                assert(mem_a.word(p, k) == old(mem).word(p, k));
                assert(fa_a.is_allocated(p));
                assert(!ms_a.pt().node_set().contains(p));
                assert(mem_a.contains_ppn(p));
                assert(mem_b.word(p, k) == mem_a.word(p, k));
                assert(fa_b.is_allocated(p));
                assert(!ms_b.pt().node_set().contains(p));
                assert(mem_b.contains_ppn(p));
                assert(mem.word(p, k) == mem_b.word(p, k));
            }
            let na = ms_a.areas_seq().len() as int;
            let nb = ms_b.areas_seq().len() as int;
            assert forall|a: int|
                0 <= a < ms.areas_seq().len() implies (
            #[trigger] ms.areas_seq()[a]).is_framed() by {
                if a < na {
                    assert(ms.areas_seq()[a] == ms_a.areas_seq()[a]);
                } else if a == na {
                    assert(ms.areas_seq()[a] == ms_b.areas_seq()[na]);
                }
            }
            assert forall|q: u64|
                ms.owned_frame(q) implies !old(fa).is_allocated(q) && fa.is_allocated(
                q,
            ) by {
                if ms.pt().node_set().contains(q) {
                    assert(fa.is_allocated(q));
                    if old(fa).is_allocated(q) {
                        assert(fa_a.is_allocated(q));
                        assert(fa_b.is_allocated(q));
                        assert(!ms_a.pt().node_set().contains(q));
                        assert(!ms_b.pt().node_set().contains(q));
                        assert(false);
                    }
                } else {
                    let (a, i) = choose|a: int, i: int|
                        0 <= a < ms.areas_seq().len() && 0 <= i
                            < ms.areas_seq()[a].frames_seq().len() && (
                        #[trigger] ms.areas_seq()[a].frames_seq()[i]) == q;
                    assert(fa.is_allocated(q));
                    if a < na {
                        assert(ms.areas_seq()[a] == ms_a.areas_seq()[a]);
                        assert(!old(fa).is_allocated(ms_a.areas_seq()[a].frames_seq()[i]));
                    } else if a == na {
                        assert(!fa_a.is_allocated(ms_b.areas_seq()[na].frames_seq()[i]));
                    } else {
                        assert(a == nb);
                        assert(!fa_b.is_allocated(ms.areas_seq()[nb].frames_seq()[i]));
                    }
                }
            }
        }
        (ms, user_sp, entry)
    }
}

/// A byte read through a space's mapping survives mapping one more
/// disjoint segment: the translation is untouched and the backing frame
/// is no new frame and no table node.
proof fn lemma_user_byte_preserved(
    ms_pre: MemorySet,
    mem_pre: PhysMemory,
    mem_post: PhysMemory,
    fa_pre: StackFrameAllocator,
    va: u64,
    seg: Segment,
)
    requires
        ms_pre.wf(mem_pre, fa_pre),
        crate::page_table::va_page(va).wf(),
        ms_pre.vpn_in_areas(crate::page_table::va_page(va).0),
        forall|a: int|
            0 <= a < ms_pre.areas_seq().len() ==> (#[trigger] ms_pre.areas_seq()[a]).is_framed(),
        !seg.contains_vpn(crate::page_table::va_page(va).0),
        translation(mem_post, ms_pre.root(), crate::page_table::va_page(va)) == translation(
            mem_pre,
            ms_pre.root(),
            crate::page_table::va_page(va),
        ),
        forall|p: u64, k: int|
            mem_pre.contains_ppn(p) && 0 <= k < 512 && fa_pre.is_allocated(p)
                && !ms_pre.pt().node_set().contains(p) ==> mem_post.word(p, k) == mem_pre.word(
                p,
                k,
            ),
    ensures
        crate::page_table::user_byte(mem_post, ms_pre.root(), va) == crate::page_table::user_byte(
            mem_pre,
            ms_pre.root(),
            va,
        ),
{
    let v = crate::page_table::va_page(va);
    let a = choose|a: int|
        0 <= a < ms_pre.areas_seq().len() && (#[trigger] ms_pre.areas_seq()[a]).contains_vpn(
            v.0,
        );
    let area = ms_pre.areas_seq()[a];
    assert(translation(mem_pre, ms_pre.root(), v) == Some(
        (area.page_ppn(v.0), (area.perm_bits() | 1) as u8),
    ));
    let f = area.page_ppn(v.0);
    assert(f == area.frames_seq()[v.0 - area.start_vpn()]);
    assert(fa_pre.is_allocated(f) && mem_pre.contains_ppn(f)
        && !ms_pre.pt().node_set().contains(f));
    assert(0 <= va % 4096 < 4096);
    assert(mem_post.word(f, (va % 4096) as int / 8) == mem_pre.word(f, (va % 4096) as int / 8));
    assert(mem_post.byte(f, (va % 4096) as int) == mem_pre.byte(f, (va % 4096) as int));
}



impl MemorySet {
    /// A write that leaves the table's tree and every translation alone
    /// (a data write) leaves the space's invariant alone.
    pub proof fn lemma_wf_preserved_by_data_write(
        self,
        mem_pre: PhysMemory,
        mem_post: PhysMemory,
        fa: StackFrameAllocator,
    )
        requires
            self.wf(mem_pre, fa),
            self.pt().wf(mem_post),
            mem_pre.base_ppn() == mem_post.base_ppn(),
            mem_pre.num_frames() == mem_post.num_frames(),
            translations_agree(mem_pre, mem_post, self.pt().root()),
        ensures
            self.wf(mem_post, fa),
    {
        assert(self.root() == self.pt().root());
        assert forall|a: int, v: VirtPageNum|
            #![trigger self.areas_seq()[a], translation(mem_post, self.root(), v)]
            0 <= a < self.areas_seq().len() && v.wf() && self.areas_seq()[a].contains_vpn(
                v.0,
            ) implies translation(mem_post, self.root(), v) == Some(
            (self.areas_seq()[a].page_ppn(v.0), (self.areas_seq()[a].perm_bits() | 1) as u8),
        ) by {
            assert(translation(mem_post, self.root(), v) == translation(
                mem_pre,
                self.root(),
                v,
            ));
        }
        if self.tramp_ppn() is Some {
            let tv = VirtPageNum(TRAMPOLINE_VPN);
            assert(tv.wf());
            assert(translation(mem_post, self.root(), tv) == translation(
                mem_pre,
                self.root(),
                tv,
            ));
        }
        assert forall|v: VirtPageNum|
            v.wf() && !self.vpn_in_areas(v.0) && !(self.tramp_ppn() is Some && v.0
                == TRAMPOLINE_VPN) implies #[trigger] translation(
            mem_post,
            self.root(),
            v,
        ) is None by {
            assert(translation(mem_post, self.root(), v) == translation(
                mem_pre,
                self.root(),
                v,
            ));
        }
        assert forall|a: int, i: int|
            #![trigger self.areas_seq()[a].frames_seq()[i]]
            0 <= a < self.areas_seq().len() && 0 <= i
                < self.areas_seq()[a].frames_seq().len() implies {
            &&& fa.is_allocated(self.areas_seq()[a].frames_seq()[i])
            &&& mem_post.contains_ppn(self.areas_seq()[a].frames_seq()[i])
            &&& !self.pt().node_set().contains(self.areas_seq()[a].frames_seq()[i])
        } by {
            assert(mem_pre.contains_ppn(self.areas_seq()[a].frames_seq()[i]));
        }
    }
}



impl MemorySet {
    /// The space's root accessor agrees with its table's.
    pub proof fn lemma_root_is_pt_root(self)
        ensures
            self.root() == self.pt().root(),
    {
    }

    /// A well-formed space can be walked read-only, its root fits the
    /// page-number width, and its token names its root.
    pub proof fn lemma_token_readable(self, mem: PhysMemory, fa: StackFrameAllocator)
        requires
            self.wf(mem, fa),
        ensures
            crate::page_table::readable_tree(mem, self.root()),
            self.root() < 0x1000_0000_0000u64,
            (0x8000_0000_0000_0000u64 | self.root()) & 0xFFF_FFFF_FFFF == self.root(),
    {
        self.page_table.lemma_wf_readable(mem);
        assert(mem.contains_ppn(self.page_table.root()));
        crate::phys_mem::PhysMemory::lemma_wf_ppn_bound(mem, self.page_table.root());
        let r = self.root();
        assert(r < 0x1000_0000_0000u64 ==> (0x8000_0000_0000_0000u64 | r) & 0xFFF_FFFF_FFFF
            == r) by (bit_vector);
    }
}



/// A user-space budget is never negative.
pub proof fn lemma_elf_space_frames_nonneg(s: Seq<u8>)
    ensures
        elf_space_frames_needed(s) >= 0,
{
    lemma_load_frames_bounds_zero(s, crate::elf::elf_phnum(s) as int);
}

/// A page-aligned kernel-image end rounds to its own page.
pub proof fn lemma_ekernel_ceil(e: u64)
    requires
        e % 4096 == 0,
        e <= 0x1_0000_0000u64,
    ensures
        (e + 4095) / 4096 == e / 4096,
{
    lemma_aligned_ceil(e);
}

impl MemorySet {
    /// The space's invariant survives the allocator handing out more
    /// frames: everything it owns stays handed out.
    pub proof fn lemma_wf_monotone_allocator(
        self,
        mem: PhysMemory,
        fa0: StackFrameAllocator,
        fa1: StackFrameAllocator,
    )
        requires
            self.wf(mem, fa0),
            forall|q: u64| fa0.is_allocated(q) ==> fa1.is_allocated(q),
        ensures
            self.wf(mem, fa1),
    {
        assert forall|p: u64| self.pt().node_set().contains(p) implies #[trigger] fa1
            .is_allocated(p) by {
            assert(fa0.is_allocated(p));
        }
        assert forall|a: int, i: int|
            #![trigger self.areas_seq()[a].frames_seq()[i]]
            0 <= a < self.areas_seq().len() && 0 <= i
                < self.areas_seq()[a].frames_seq().len() implies {
            &&& fa1.is_allocated(self.areas_seq()[a].frames_seq()[i])
            &&& mem.contains_ppn(self.areas_seq()[a].frames_seq()[i])
            &&& !self.pt().node_set().contains(self.areas_seq()[a].frames_seq()[i])
        } by {
            assert(fa0.is_allocated(self.areas_seq()[a].frames_seq()[i]));
        }
    }
}



impl MemorySet {
    /// Every mapped page of a well-formed space carries exactly its
    /// segment's declared permissions plus V — or it is the trampoline;
    /// every other page is unmapped.  Flags can never exceed what the
    /// owning segment declares.
    pub proof fn lemma_translation_matches_segment(
        self,
        mem: PhysMemory,
        fa: StackFrameAllocator,
        v: VirtPageNum,
        t: (u64, u8),
    )
        requires
            self.wf(mem, fa),
            v.wf(),
            translation(mem, self.root(), v) == Some(t),
        ensures
            (self.tramp_ppn() matches Some(p) && v.0 == TRAMPOLINE_VPN && t == (p, 11u8))
                || exists|a: int|
                0 <= a < self.areas_seq().len() && (#[trigger] self.areas_seq()[a]).contains_vpn(
                    v.0,
                ) && t == (
                    self.areas_seq()[a].page_ppn(v.0),
                    (self.areas_seq()[a].perm_bits() | 1) as u8,
                ),
    {
        if !(self.tramp_ppn() is Some && v.0 == TRAMPOLINE_VPN) {
            assert(self.vpn_in_areas(v.0)) by {
                if !self.vpn_in_areas(v.0) {
                    assert(translation(mem, self.root(), v) is None);
                }
            }
            let a = choose|a: int|
                0 <= a < self.areas_seq().len() && (#[trigger] self.areas_seq()[a]).contains_vpn(
                    v.0,
                );
            assert(translation(mem, self.root(), v) == Some(
                (
                    self.areas_seq()[a].page_ppn(v.0),
                    (self.areas_seq()[a].perm_bits() | 1) as u8,
                ),
            ));
        }
    }
}

/// Mapping a page and then unmapping it returns every translation to
/// where it started: the mapped page reads back exactly what was mapped
/// while it lasts, and nothing else ever moves.
pub proof fn lemma_map_unmap_roundtrip(
    mem0: PhysMemory,
    mem1: PhysMemory,
    mem2: PhysMemory,
    root: u64,
    vpn: VirtPageNum,
    ppn: u64,
    flags: u8,
)
    requires
        translation(mem1, root, vpn) == Some((ppn, (flags | 1) as u8)),
        translations_agree_except(mem0, mem1, root, vpn),
        translation(mem2, root, vpn) is None,
        translations_agree_except(mem1, mem2, root, vpn),
    ensures
        forall|v: VirtPageNum|
            v.wf() && v != vpn ==> #[trigger] translation(mem2, root, v) == translation(
                mem0,
                root,
                v,
            ),
{
    assert forall|v: VirtPageNum|
        v.wf() && v != vpn implies #[trigger] translation(mem2, root, v) == translation(
        mem0,
        root,
        v,
    ) by {
        assert(translation(mem1, root, v) == translation(mem0, root, v));
        assert(translation(mem2, root, v) == translation(mem1, root, v));
    }
}

/// Building a space and recycling it leaks nothing: the allocator's
/// handed-out set returns exactly to what it was before the build.
pub proof fn lemma_space_recycle_leak_free(
    fa0: StackFrameAllocator,
    fa1: StackFrameAllocator,
    fa2: StackFrameAllocator,
    ms: MemorySet,
)
    requires
        forall|q: u64| fa0.is_allocated(q) ==> fa1.is_allocated(q),
        forall|q: u64|
            fa1.is_allocated(q) ==> fa0.is_allocated(q) || #[trigger] ms.owned_frame(q),
        forall|q: u64| #[trigger] ms.owned_frame(q) ==> !fa0.is_allocated(q),
        forall|q: u64|
            #[trigger] fa2.is_allocated(q) == (fa1.is_allocated(q) && !ms.owned_frame(q)),
    ensures
        forall|q: u64| #[trigger] fa2.is_allocated(q) == fa0.is_allocated(q),
{
}



impl MemorySet {
    /// A byte read through a mapped, non-trampoline page survives any
    /// change that leaves the words of every frame the space owns alone.
    pub proof fn lemma_user_byte_kept(
        self,
        mem_pre: PhysMemory,
        mem_post: PhysMemory,
        fa: StackFrameAllocator,
        va: u64,
    )
        requires
            self.wf(mem_pre, fa),
            forall|a: int|
                0 <= a < self.areas_seq().len() ==> (#[trigger] self.areas_seq()[a]).is_framed(),
            crate::page_table::va_page(va).wf(),
            crate::page_table::va_page(va).0 != TRAMPOLINE_VPN,
            crate::page_table::va_mapped(mem_pre, self.pt().root(), va),
            translation(mem_post, self.pt().root(), crate::page_table::va_page(va))
                == translation(mem_pre, self.pt().root(), crate::page_table::va_page(va)),
            mem_pre.base_ppn() == mem_post.base_ppn(),
            mem_pre.num_frames() == mem_post.num_frames(),
            forall|p: u64, k: int|
                mem_pre.contains_ppn(p) && 0 <= k < 512 && self.owned_frame(p)
                    ==> #[trigger] mem_post.word(p, k) == mem_pre.word(p, k),
        ensures
            crate::page_table::user_byte(mem_post, self.pt().root(), va)
                == crate::page_table::user_byte(mem_pre, self.pt().root(), va),
            crate::page_table::va_mapped(mem_post, self.pt().root(), va),
    {
        let v = crate::page_table::va_page(va);
        assert(self.root() == self.pt().root());
        assert(self.vpn_in_areas(v.0)) by {
            if !self.vpn_in_areas(v.0) {
                assert(translation(mem_pre, self.root(), v) is None);
            }
        }
        let a = choose|a: int|
            0 <= a < self.areas_seq().len() && (#[trigger] self.areas_seq()[a]).contains_vpn(
                v.0,
            );
        let area = self.areas_seq()[a];
        assert(translation(mem_pre, self.root(), v) == Some(
            (area.page_ppn(v.0), (area.perm_bits() | 1) as u8),
        ));
        let f = area.page_ppn(v.0);
        assert(f == area.frames_seq()[v.0 - area.start_vpn()]);
        assert(self.owned_frame(f));
        assert(mem_pre.contains_ppn(f));
        assert(0 <= va % 4096 < 4096);
        assert(mem_post.word(f, (va % 4096) as int / 8) == mem_pre.word(
            f,
            (va % 4096) as int / 8,
        ));
        assert(mem_post.byte(f, (va % 4096) as int) == mem_pre.byte(f, (va % 4096) as int));
    }

    /// A byte read through a mapped, non-trampoline page also survives a
    /// write confined to the frame behind one other page of the space.
    pub proof fn lemma_user_byte_kept_except(
        self,
        mem_pre: PhysMemory,
        mem_post: PhysMemory,
        fa: StackFrameAllocator,
        va: u64,
        excl_vpn: u64,
    )
        requires
            self.wf(mem_pre, fa),
            forall|a: int|
                0 <= a < self.areas_seq().len() ==> (#[trigger] self.areas_seq()[a]).is_framed(),
            crate::page_table::va_page(va).wf(),
            crate::page_table::va_page(va).0 != TRAMPOLINE_VPN,
            crate::page_table::va_page(va).0 != excl_vpn,
            excl_vpn < 0x800_0000u64,
            excl_vpn != TRAMPOLINE_VPN,
            crate::page_table::va_mapped(mem_pre, self.pt().root(), va),
            translation(mem_pre, self.pt().root(), VirtPageNum(excl_vpn)) is Some,
            translation(mem_post, self.pt().root(), crate::page_table::va_page(va))
                == translation(mem_pre, self.pt().root(), crate::page_table::va_page(va)),
            mem_pre.base_ppn() == mem_post.base_ppn(),
            mem_pre.num_frames() == mem_post.num_frames(),
            forall|p: u64, k: int|
                mem_pre.contains_ppn(p) && 0 <= k < 512 && p != translation(
                    mem_pre,
                    self.pt().root(),
                    VirtPageNum(excl_vpn),
                )->Some_0.0 ==> mem_post.word(p, k) == mem_pre.word(p, k),
        ensures
            crate::page_table::user_byte(mem_post, self.pt().root(), va)
                == crate::page_table::user_byte(mem_pre, self.pt().root(), va),
            crate::page_table::va_mapped(mem_post, self.pt().root(), va),
    {
        let v = crate::page_table::va_page(va);
        let ev = VirtPageNum(excl_vpn);
        assert(self.root() == self.pt().root());
        assert(self.vpn_in_areas(v.0)) by {
            if !self.vpn_in_areas(v.0) {
                assert(translation(mem_pre, self.root(), v) is None);
            }
        }
        assert(ev.wf());
        assert(self.vpn_in_areas(excl_vpn)) by {
            if !self.vpn_in_areas(excl_vpn) {
                assert(translation(mem_pre, self.root(), ev) is None);
            }
        }
        let a = choose|a: int|
            0 <= a < self.areas_seq().len() && (#[trigger] self.areas_seq()[a]).contains_vpn(
                v.0,
            );
        let b = choose|b: int|
            0 <= b < self.areas_seq().len() && (#[trigger] self.areas_seq()[b]).contains_vpn(
                excl_vpn,
            );
        let area = self.areas_seq()[a];
        let areb = self.areas_seq()[b];
        assert(translation(mem_pre, self.root(), v) == Some(
            (area.page_ppn(v.0), (area.perm_bits() | 1) as u8),
        ));
        assert(translation(mem_pre, self.root(), ev) == Some(
            (areb.page_ppn(excl_vpn), (areb.perm_bits() | 1) as u8),
        ));
        let f = area.page_ppn(v.0);
        let e = areb.page_ppn(excl_vpn);
        assert(f == area.frames_seq()[v.0 - area.start_vpn()]);
        assert(e == areb.frames_seq()[excl_vpn - areb.start_vpn()]);
        assert(f != e) by {
            if a == b {
                assert(v.0 - area.start_vpn() != excl_vpn - areb.start_vpn());
            }
            assert(self.areas_seq()[a].frames_seq()[v.0 - area.start_vpn()]
                != self.areas_seq()[b].frames_seq()[excl_vpn - areb.start_vpn()]);
        }
        assert(mem_pre.contains_ppn(f));
        assert(0 <= va % 4096 < 4096);
        assert(mem_post.word(f, (va % 4096) as int / 8) == mem_pre.word(
            f,
            (va % 4096) as int / 8,
        ));
        assert(mem_post.byte(f, (va % 4096) as int) == mem_pre.byte(f, (va % 4096) as int));
    }
}


} // verus!
