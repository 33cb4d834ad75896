//! The three-level sv39 page table, stored in physical frames owned by the
//! table.  The table's shape is tracked by a ghost map assigning each owned
//! node frame its unique position in the tree; that uniqueness is what
//! makes one mapping operation leave every other translation unchanged.

use vstd::prelude::*;

use crate::address::PhysPageNum;
use crate::address::VirtAddr;
use crate::address::VirtPageNum;
use crate::frame_allocator::frame_alloc;
use crate::frame_allocator::frame_alloc_must;
use crate::frame_allocator::allocator_in_memory;
use crate::frame_allocator::FrameTracker;
use crate::frame_allocator::StackFrameAllocator;
use crate::phys_mem::PhysMemory;

verus! {

/// The V (valid) flag bit.
pub const PTE_V: u8 = 1;

/// The R (readable) flag bit.
pub const PTE_R: u8 = 2;

/// The W (writable) flag bit.
pub const PTE_W: u8 = 4;

/// The X (executable) flag bit.
pub const PTE_X: u8 = 8;

/// The U (user-accessible) flag bit.
pub const PTE_U: u8 = 16;

/// The G (global) flag bit.
pub const PTE_G: u8 = 32;

/// The A (accessed) flag bit.
pub const PTE_A: u8 = 64;

/// The D (dirty) flag bit.
pub const PTE_D: u8 = 128;

/// The eight sv39 page-table entry flags packed into a byte.
#[derive(Clone, Copy, PartialEq, Eq, Structural, Debug)]
pub struct PTEFlags {
    /// The packed flag bits.
    pub bits: u8,
}

impl PTEFlags {
    /// No flags set.
    pub fn empty() -> (r: Self)
        ensures
            r.bits == 0,
    {
        PTEFlags { bits: 0 }
    }

    /// Flags from packed bits.
    pub fn from_bits(bits: u8) -> (r: Self)
        ensures
            r.bits == bits,
    {
        PTEFlags { bits }
    }

    /// Both flag sets combined.
    pub fn union(self, other: Self) -> (r: Self)
        ensures
            r.bits == self.bits | other.bits,
    {
        PTEFlags { bits: self.bits | other.bits }
    }

    /// Whether every flag of `other` is also set in `self`.
    pub fn contains(self, other: Self) -> (r: bool)
        ensures
            r == (self.bits & other.bits == other.bits),
    {
        self.bits & other.bits == other.bits
    }
}

/// Whether the entry word has its V bit set.
pub open spec fn pte_valid(w: u64) -> bool {
    w & 1 == 1
}

/// The physical page number packed in the entry word.
pub open spec fn pte_ppn(w: u64) -> u64 {
    (w >> 10) & 0xFFF_FFFF_FFFF
}

/// The flag byte packed in the entry word.
pub open spec fn pte_flag_bits(w: u64) -> u8 {
    (w & 0xFF) as u8
}

/// The entry word packing `ppn` and `flags`.
pub open spec fn pte_word(ppn: u64, flags: u8) -> u64 {
    (ppn << 10) | flags as u64
}

/// Packing a well-formed page number and flags and unpacking them gives
/// both back, and the word is valid exactly when the V bit is in `flags`.
pub proof fn lemma_pte_word_roundtrip(ppn: u64, flags: u8)
    requires
        ppn < 0x1000_0000_0000u64,
    ensures
        pte_ppn(pte_word(ppn, flags)) == ppn,
        pte_flag_bits(pte_word(ppn, flags)) == flags,
        pte_valid(pte_word(ppn, flags)) == (flags & 1 == 1),
{
    assert(ppn < 0x1000_0000_0000u64 ==> ((((ppn << 10) | flags as u64) >> 10)
        & 0xFFF_FFFF_FFFF) == ppn) by (bit_vector);
    assert((((ppn << 10) | flags as u64) & 0xFF) as u8 == flags) by (bit_vector);
    assert((((ppn << 10) | flags as u64) & 1 == 1) == (flags & 1 == 1)) by (bit_vector);
}

/// A single sv39 page-table entry: `(ppn << 10) | flags`.
#[derive(Clone, Copy, PartialEq, Eq, Structural, Debug)]
pub struct PageTableEntry {
    /// The packed entry word.
    pub bits: u64,
}

impl PageTableEntry {
    /// Packs a page number and flags into an entry.
    pub fn new(ppn: PhysPageNum, flags: PTEFlags) -> (r: Self)
        requires
            ppn.wf(),
        ensures
            r.bits == pte_word(ppn.0, flags.bits),
            pte_ppn(r.bits) == ppn.0,
            pte_flag_bits(r.bits) == flags.bits,
            pte_valid(r.bits) == (flags.bits & 1 == 1),
    {
        proof {
            lemma_pte_word_roundtrip(ppn.0, flags.bits);
        }
        PageTableEntry { bits: (ppn.0 << 10u64) | flags.bits as u64 }
    }

    /// The all-zero (invalid) entry.
    pub fn empty() -> (r: Self)
        ensures
            r.bits == 0,
            !pte_valid(r.bits),
    {
        proof {
            assert(0u64 & 1 == 0) by (bit_vector);
        }
        PageTableEntry { bits: 0 }
    }

    /// The physical page number the entry points at.
    pub fn ppn(&self) -> (r: PhysPageNum)
        ensures
            r.0 == pte_ppn(self.bits),
            r.wf(),
    {
        let b = self.bits;
        proof {
            assert(((b >> 10) & 0xFFF_FFFF_FFFF) < 0x1000_0000_0000u64) by (bit_vector);
        }
        PhysPageNum((self.bits >> 10) & 0xFFF_FFFF_FFFF)
    }

    /// The flag byte of the entry.
    pub fn flags(&self) -> (r: PTEFlags)
        ensures
            r.bits == pte_flag_bits(self.bits),
    {
        PTEFlags { bits: (self.bits & 0xFF) as u8 }
    }

    /// Whether the V bit is set.
    pub fn is_valid(&self) -> (r: bool)
        ensures
            r == pte_valid(self.bits),
    {
        self.bits & 1 == 1
    }

    /// Whether the R bit is set.
    pub fn readable(&self) -> (r: bool)
        ensures
            r == (pte_flag_bits(self.bits) & PTE_R == PTE_R),
    {
        let b = self.bits;
        proof {
            assert(((b & 0xFF) as u8 & 2 == 2) == (b & 2 == 2)) by (bit_vector);
        }
        self.bits & 2 == 2
    }

    /// Whether the W bit is set.
    pub fn writable(&self) -> (r: bool)
        ensures
            r == (pte_flag_bits(self.bits) & PTE_W == PTE_W),
    {
        let b = self.bits;
        proof {
            assert(((b & 0xFF) as u8 & 4 == 4) == (b & 4 == 4)) by (bit_vector);
        }
        self.bits & 4 == 4
    }

    /// Whether the X bit is set.
    pub fn executable(&self) -> (r: bool)
        ensures
            r == (pte_flag_bits(self.bits) & PTE_X == PTE_X),
    {
        let b = self.bits;
        proof {
            assert(((b & 0xFF) as u8 & 8 == 8) == (b & 8 == 8)) by (bit_vector);
        }
        self.bits & 8 == 8
    }
}

/// The position of an owned node frame inside the three-level tree.
pub enum NodePos {
    /// The root node.
    Root,
    /// The level-1 child reached through the given root index.
    L1(u64),
    /// The level-2 child reached through the given root and level-1
    /// indices.
    L2(u64, u64),
}

/// The entry word the walk for `vpn` reads at the root.
pub open spec fn walk_l0_word(mem: PhysMemory, root: u64, vpn: VirtPageNum) -> u64 {
    mem.word(root, vpn.spec_idx0() as int)
}

/// The level-1 node the walk for `vpn` visits.
pub open spec fn walk_l1_node(mem: PhysMemory, root: u64, vpn: VirtPageNum) -> u64 {
    pte_ppn(walk_l0_word(mem, root, vpn))
}

/// The entry word the walk for `vpn` reads at level 1.
pub open spec fn walk_l1_word(mem: PhysMemory, root: u64, vpn: VirtPageNum) -> u64 {
    mem.word(walk_l1_node(mem, root, vpn), vpn.spec_idx1() as int)
}

/// The level-2 node the walk for `vpn` visits.
pub open spec fn walk_l2_node(mem: PhysMemory, root: u64, vpn: VirtPageNum) -> u64 {
    pte_ppn(walk_l1_word(mem, root, vpn))
}

/// The leaf entry word of the walk for `vpn`.
pub open spec fn walk_leaf_word(mem: PhysMemory, root: u64, vpn: VirtPageNum) -> u64 {
    mem.word(walk_l2_node(mem, root, vpn), vpn.spec_idx2() as int)
}

/// Whether both interior entries of the walk for `vpn` are valid, so the
/// leaf entry exists.
pub open spec fn walk_path_ok(mem: PhysMemory, root: u64, vpn: VirtPageNum) -> bool {
    pte_valid(walk_l0_word(mem, root, vpn)) && pte_valid(walk_l1_word(mem, root, vpn))
}

/// What the table rooted at `root` maps `vpn` to: the leaf's page number
/// and flag byte, or `None` if any entry on the walk is invalid.
pub open spec fn translation(mem: PhysMemory, root: u64, vpn: VirtPageNum) -> Option<(u64, u8)> {
    if walk_path_ok(mem, root, vpn) && pte_valid(walk_leaf_word(mem, root, vpn)) {
        Some((pte_ppn(walk_leaf_word(mem, root, vpn)), pte_flag_bits(walk_leaf_word(mem, root, vpn))))
    } else {
        None
    }
}

/// Every valid interior entry reachable from `root` points into the
/// modelled memory: what a read-only walk needs.
pub open spec fn readable_tree(mem: PhysMemory, root: u64) -> bool {
    &&& mem.contains_ppn(root)
    &&& forall|vpn: VirtPageNum|
        pte_valid(#[trigger] walk_l0_word(mem, root, vpn))
            ==> mem.contains_ppn(walk_l1_node(mem, root, vpn))
    &&& forall|vpn: VirtPageNum|
        pte_valid(#[trigger] walk_l0_word(mem, root, vpn)) && pte_valid(walk_l1_word(mem, root, vpn))
            ==> mem.contains_ppn(walk_l2_node(mem, root, vpn))
}


/// Two memories translate every well-formed page the same way under
/// `root`.
pub open spec fn translations_agree(mem0: PhysMemory, mem1: PhysMemory, root: u64) -> bool {
    forall|v: VirtPageNum|
        v.wf() ==> #[trigger] translation(mem1, root, v) == translation(mem0, root, v)
}

/// Two memories translate every well-formed page except `vpn` the same
/// way under `root`.
pub open spec fn translations_agree_except(
    mem0: PhysMemory,
    mem1: PhysMemory,
    root: u64,
    vpn: VirtPageNum,
) -> bool {
    forall|v: VirtPageNum|
        v.wf() && v != vpn ==> #[trigger] translation(mem1, root, v) == translation(
            mem0,
            root,
            v,
        )
}

/// Hooking a fresh zeroed frame `f` into an invalid root entry changes no
/// translation: pages through other root entries walk the same nodes, and
/// pages through this entry stay unmapped because `f` is all zeros.
proof fn lemma_hook_l1_preserves(
    pt: PageTable,
    mem_pre: PhysMemory,
    mem_post: PhysMemory,
    i0: u64,
    f: u64,
)
    requires
        pt.wf(mem_post),
        i0 < 512,
        pt.node_set().contains(f),
        pt.node_pos()[f] == NodePos::L1(i0),
        !pte_valid(mem_pre.word(pt.root(), i0 as int)),
        pte_ppn(mem_post.word(pt.root(), i0 as int)) == f,
        mem_post.frame_zero(f),
        mem_pre.base_ppn() == mem_post.base_ppn(),
        mem_pre.num_frames() == mem_post.num_frames(),
        forall|p: u64, k: int|
            mem_pre.contains_ppn(p) && 0 <= k < 512 && p != f && !(p == pt.root() && k
                == i0 as int) ==> mem_post.word(p, k) == mem_pre.word(p, k),
    ensures
        translations_agree(mem_pre, mem_post, pt.root()),
{
    let root = pt.root();
    assert forall|v: VirtPageNum| v.wf() implies #[trigger] translation(mem_post, root, v)
        == translation(mem_pre, root, v) by {
        crate::address::lemma_indexes_bounded(v);
        let j0 = v.spec_idx0() as int;
        let j1 = v.spec_idx1() as int;
        let j2 = v.spec_idx2() as int;
        assert(0u64 & 1 != 1) by (bit_vector);
        assert(mem_post.contains_ppn(root));
        if v.spec_idx0() == i0 {
            assert(!pte_valid(walk_l0_word(mem_pre, root, v)));
            assert(translation(mem_pre, root, v) is None);
            if pte_valid(walk_l0_word(mem_post, root, v)) {
                assert(walk_l1_node(mem_post, root, v) == f);
                assert(mem_post.word(f, j1) == 0);
                assert(!pte_valid(walk_l1_word(mem_post, root, v)));
            }
            assert(translation(mem_post, root, v) is None);
        } else {
            assert(root != f);
            assert(mem_post.word(root, j0) == mem_pre.word(root, j0));
            if pte_valid(walk_l0_word(mem_post, root, v)) {
                let c1 = walk_l1_node(mem_post, root, v);
                assert(pt.node_set().contains(c1) && pt.node_pos()[c1] == NodePos::L1(
                    v.spec_idx0(),
                ));
                assert(mem_post.contains_ppn(c1));
                assert(c1 != f && c1 != root);
                assert(mem_post.word(c1, j1) == mem_pre.word(c1, j1));
                if pte_valid(walk_l1_word(mem_post, root, v)) {
                    let c2 = walk_l2_node(mem_post, root, v);
                    assert(pt.node_set().contains(c2) && pt.node_pos()[c2] == NodePos::L2(
                        v.spec_idx0(),
                        v.spec_idx1(),
                    ));
                    assert(mem_post.contains_ppn(c2));
                    assert(c2 != f && c2 != root);
                    assert(mem_post.word(c2, j2) == mem_pre.word(c2, j2));
                }
            }
        }
    }
}

/// Hooking a fresh zeroed frame `f` into an invalid entry of the level-1
/// node at root index `i0` changes no translation.
proof fn lemma_hook_l2_preserves(
    pt: PageTable,
    mem_pre: PhysMemory,
    mem_post: PhysMemory,
    n1: u64,
    i0: u64,
    i1: u64,
    f: u64,
)
    requires
        pt.wf(mem_post),
        i0 < 512,
        i1 < 512,
        pt.node_set().contains(n1),
        pt.node_pos()[n1] == NodePos::L1(i0),
        pt.node_set().contains(f),
        pt.node_pos()[f] == NodePos::L2(i0, i1),
        !pte_valid(mem_pre.word(n1, i1 as int)),
        pte_ppn(mem_post.word(n1, i1 as int)) == f,
        pte_valid(mem_post.word(pt.root(), i0 as int)),
        pte_ppn(mem_post.word(pt.root(), i0 as int)) == n1,
        mem_post.frame_zero(f),
        mem_pre.base_ppn() == mem_post.base_ppn(),
        mem_pre.num_frames() == mem_post.num_frames(),
        forall|p: u64, k: int|
            mem_pre.contains_ppn(p) && 0 <= k < 512 && p != f && !(p == n1 && k == i1 as int)
                ==> mem_post.word(p, k) == mem_pre.word(p, k),
    ensures
        translations_agree(mem_pre, mem_post, pt.root()),
{
    let root = pt.root();
    assert forall|v: VirtPageNum| v.wf() implies #[trigger] translation(mem_post, root, v)
        == translation(mem_pre, root, v) by {
        crate::address::lemma_indexes_bounded(v);
        let j0 = v.spec_idx0() as int;
        let j1 = v.spec_idx1() as int;
        let j2 = v.spec_idx2() as int;
        assert(0u64 & 1 != 1) by (bit_vector);
        assert(mem_post.contains_ppn(root));
        assert(root != n1 && root != f);
        assert(mem_post.word(root, j0) == mem_pre.word(root, j0));
        if pte_valid(walk_l0_word(mem_post, root, v)) {
            let c1 = walk_l1_node(mem_post, root, v);
            assert(pt.node_set().contains(c1) && pt.node_pos()[c1] == NodePos::L1(
                v.spec_idx0(),
            ));
            assert(mem_post.contains_ppn(c1));
            assert(c1 != f);
            if v.spec_idx0() == i0 {
                assert(c1 == n1);
            }
            if c1 == n1 && v.spec_idx1() == i1 {
                // the freshly hooked entry: unmapped before, and the
                // fresh node is all zeros after
                assert(!pte_valid(walk_l1_word(mem_pre, root, v)));
                assert(translation(mem_pre, root, v) is None);
                assert(walk_l1_word(mem_post, root, v) == mem_post.word(n1, i1 as int));
                if pte_valid(walk_l1_word(mem_post, root, v)) {
                    assert(walk_l2_node(mem_post, root, v) == f);
                    assert(mem_post.word(f, j2) == 0);
                }
                assert(translation(mem_post, root, v) is None);
            } else {
                assert(mem_post.word(c1, j1) == mem_pre.word(c1, j1));
                if pte_valid(walk_l1_word(mem_post, root, v)) {
                    let c2 = walk_l2_node(mem_post, root, v);
                    assert(pt.node_set().contains(c2) && pt.node_pos()[c2] == NodePos::L2(
                        v.spec_idx0(),
                        v.spec_idx1(),
                    ));
                    assert(mem_post.contains_ppn(c2));
                    assert(c2 != f);
                    assert(c2 != n1);
                    assert(mem_post.word(c2, j2) == mem_pre.word(c2, j2));
                }
            }
        }
    }
}

/// A change that leaves every word of every node frame alone leaves the
/// tree invariant and every translation alone: data writes cannot move
/// mappings.
pub proof fn lemma_non_node_write_preserves(
    pt: PageTable,
    mem_pre: PhysMemory,
    mem_post: PhysMemory,
)
    requires
        pt.wf(mem_pre),
        mem_post.wf(),
        mem_pre.base_ppn() == mem_post.base_ppn(),
        mem_pre.num_frames() == mem_post.num_frames(),
        forall|p: u64, k: int|
            mem_pre.contains_ppn(p) && 0 <= k < 512 && pt.node_set().contains(p)
                ==> mem_post.word(p, k) == mem_pre.word(p, k),
    ensures
        pt.wf(mem_post),
        translations_agree(mem_pre, mem_post, pt.root()),
{
    let root = pt.root();
    assert forall|i0: u64|
        i0 < 512 && pte_valid(#[trigger] mem_post.word(root, i0 as int)) implies {
        &&& pt.node_set().contains(pte_ppn(mem_post.word(root, i0 as int)))
        &&& pt.node_pos()[pte_ppn(mem_post.word(root, i0 as int))] == NodePos::L1(i0)
    } by {
        assert(mem_pre.contains_ppn(root));
        assert(mem_post.word(root, i0 as int) == mem_pre.word(root, i0 as int));
    }
    assert forall|p: u64, i1: u64|
        (pt.node_set().contains(p) && i1 < 512 && pte_valid(
            #[trigger] mem_post.word(p, i1 as int),
        )) implies (pt.node_pos()[p] matches NodePos::L1(k0) ==> {
        &&& pt.node_set().contains(pte_ppn(mem_post.word(p, i1 as int)))
        &&& pt.node_pos()[pte_ppn(mem_post.word(p, i1 as int))] == NodePos::L2(k0, i1)
    }) by {
        assert(mem_pre.contains_ppn(p));
        assert(mem_post.word(p, i1 as int) == mem_pre.word(p, i1 as int));
    }
    assert forall|p: u64| pt.node_set().contains(p) implies #[trigger] mem_post.contains_ppn(
        p,
    ) by {
        assert(mem_pre.contains_ppn(p));
    }
    assert(pt.wf(mem_post));
    assert forall|v: VirtPageNum| v.wf() implies #[trigger] translation(mem_post, root, v)
        == translation(mem_pre, root, v) by {
        crate::address::lemma_indexes_bounded(v);
        let j0 = v.spec_idx0() as int;
        let j1 = v.spec_idx1() as int;
        let j2 = v.spec_idx2() as int;
        assert(mem_pre.contains_ppn(root));
        assert(mem_post.word(root, j0) == mem_pre.word(root, j0));
        if pte_valid(walk_l0_word(mem_post, root, v)) {
            let c1 = walk_l1_node(mem_post, root, v);
            assert(pt.node_set().contains(c1));
            assert(mem_pre.contains_ppn(c1));
            assert(mem_post.word(c1, j1) == mem_pre.word(c1, j1));
            if pte_valid(walk_l1_word(mem_post, root, v)) {
                let c2 = walk_l2_node(mem_post, root, v);
                assert(pt.node_set().contains(c2));
                assert(mem_pre.contains_ppn(c2));
                assert(mem_post.word(c2, j2) == mem_pre.word(c2, j2));
            }
        }
    }
}

/// Writing the leaf entry of `vpn` changes no other translation: another
/// page either walks through different nodes, or reaches the same leaf
/// node at a different index.
proof fn lemma_leaf_write_preserves(
    pt: PageTable,
    mem_pre: PhysMemory,
    mem_post: PhysMemory,
    vpn: VirtPageNum,
    n2: u64,
)
    requires
        pt.wf(mem_post),
        vpn.wf(),
        pt.node_set().contains(n2),
        pt.node_pos()[n2] == NodePos::L2(vpn.spec_idx0(), vpn.spec_idx1()),
        mem_pre.base_ppn() == mem_post.base_ppn(),
        mem_pre.num_frames() == mem_post.num_frames(),
        forall|p: u64, k: int|
            mem_pre.contains_ppn(p) && 0 <= k < 512 && !(p == n2 && k == vpn.spec_idx2()
                as int) ==> mem_post.word(p, k) == mem_pre.word(p, k),
    ensures
        translations_agree_except(mem_pre, mem_post, pt.root(), vpn),
{
    let root = pt.root();
    assert forall|v: VirtPageNum| v.wf() && v != vpn implies #[trigger] translation(
        mem_post,
        root,
        v,
    ) == translation(mem_pre, root, v) by {
        crate::address::lemma_indexes_bounded(v);
        crate::address::lemma_indexes_bounded(vpn);
        let j0 = v.spec_idx0() as int;
        let j1 = v.spec_idx1() as int;
        let j2 = v.spec_idx2() as int;
        assert(mem_post.contains_ppn(root));
        assert(root != n2);
        assert(mem_post.word(root, j0) == mem_pre.word(root, j0));
        if pte_valid(walk_l0_word(mem_post, root, v)) {
            let c1 = walk_l1_node(mem_post, root, v);
            assert(pt.node_set().contains(c1) && pt.node_pos()[c1] == NodePos::L1(
                v.spec_idx0(),
            ));
            assert(mem_post.contains_ppn(c1));
            assert(c1 != n2);
            assert(mem_post.word(c1, j1) == mem_pre.word(c1, j1));
            if pte_valid(walk_l1_word(mem_post, root, v)) {
                let c2 = walk_l2_node(mem_post, root, v);
                assert(pt.node_set().contains(c2) && pt.node_pos()[c2] == NodePos::L2(
                    v.spec_idx0(),
                    v.spec_idx1(),
                ));
                assert(mem_post.contains_ppn(c2));
                if c2 == n2 && j2 == vpn.spec_idx2() as int {
                    assert(NodePos::L2(v.spec_idx0(), v.spec_idx1()) == NodePos::L2(
                        vpn.spec_idx0(),
                        vpn.spec_idx1(),
                    ));
                    crate::address::lemma_indexes_injective(v, vpn);
                    assert(false);
                }
                assert(mem_post.word(c2, j2) == mem_pre.word(c2, j2));
            }
        }
    }
}

/// The three-level sv39 page table: the root node plus every node frame
/// the table has allocated, with the ghost position of each node.
pub struct PageTable {
    root_ppn: PhysPageNum,
    frames: Vec<FrameTracker>,
    pos: Ghost<Map<u64, NodePos>>,
}

impl PageTable {
    /// The root node's page number.
    pub closed spec fn root(self) -> u64 {
        self.root_ppn.0
    }

    /// The ghost position map of the owned node frames.
    pub closed spec fn node_pos(self) -> Map<u64, NodePos> {
        self.pos@
    }

    /// The set of owned node frames.
    pub open spec fn node_set(self) -> Set<u64> {
        self.node_pos().dom()
    }

    /// The page numbers of the owned frame trackers, in order.
    pub closed spec fn owned_ppns(self) -> Seq<u64> {
        self.frames@.map_values(|ft: FrameTracker| ft.ppn.0)
    }

    /// Every owned node frame is currently handed out by `fa`.
    pub open spec fn nodes_allocated(self, fa: StackFrameAllocator) -> bool {
        forall|p: u64| self.node_set().contains(p) ==> #[trigger] fa.is_allocated(p)
    }

    /// The tree invariant: the ghost positions cover exactly the owned
    /// frames, each owned frame lies in the modelled memory, the root's
    /// position is `Root`, and each valid interior entry points at an
    /// owned frame whose position is the path that reaches it.  Since a
    /// position map gives each frame one position, two different paths
    /// reach two different frames.
    pub open spec fn wf(self, mem: PhysMemory) -> bool {
        &&& mem.wf()
        &&& self.node_set().contains(self.root())
        &&& self.node_pos()[self.root()] == NodePos::Root
        &&& forall|i: int|
            0 <= i < self.owned_ppns().len() ==> self.node_set().contains(
                #[trigger] self.owned_ppns()[i],
            )
        &&& forall|i: int, j: int|
            0 <= i < j < self.owned_ppns().len() ==> self.owned_ppns()[i]
                != self.owned_ppns()[j]
        &&& forall|p: u64| self.node_set().contains(p) ==> self.owned_ppns().contains(p)
        &&& forall|p: u64| self.node_set().contains(p) ==> #[trigger] mem.contains_ppn(p)
        &&& forall|i0: u64|
            i0 < 512 && pte_valid(#[trigger] mem.word(self.root(), i0 as int)) ==> {
                &&& self.node_set().contains(pte_ppn(mem.word(self.root(), i0 as int)))
                &&& self.node_pos()[pte_ppn(mem.word(self.root(), i0 as int))]
                    == NodePos::L1(i0)
            }
        &&& forall|p: u64, i1: u64|
            (self.node_set().contains(p) && i1 < 512 && pte_valid(
                #[trigger] mem.word(p, i1 as int),
            )) ==> (self.node_pos()[p] matches NodePos::L1(i0) ==> {
                &&& self.node_set().contains(pte_ppn(mem.word(p, i1 as int)))
                &&& self.node_pos()[pte_ppn(mem.word(p, i1 as int))] == NodePos::L2(i0, i1)
            })
    }

    /// A well-formed table can be walked read-only.
    pub proof fn lemma_wf_readable(self, mem: PhysMemory)
        requires
            self.wf(mem),
        ensures
            readable_tree(mem, self.root()),
    {
        assert forall|vpn: VirtPageNum|
            pte_valid(#[trigger] walk_l0_word(mem, self.root(), vpn)) implies mem.contains_ppn(
            walk_l1_node(mem, self.root(), vpn),
        ) by {
            crate::address::lemma_indexes_bounded(vpn);
        }
        assert forall|vpn: VirtPageNum|
            pte_valid(#[trigger] walk_l0_word(mem, self.root(), vpn)) && pte_valid(
                walk_l1_word(mem, self.root(), vpn),
            ) implies mem.contains_ppn(walk_l2_node(mem, self.root(), vpn)) by {
            crate::address::lemma_indexes_bounded(vpn);
        }
    }

    /// Creates a table with a single zeroed root frame, mapping nothing.
    pub fn new(fa: &mut StackFrameAllocator, mem: &mut PhysMemory) -> (r: Self)
        requires
            old(fa).wf(),
            old(mem).wf(),
            allocator_in_memory(*old(fa), *old(mem)),
            old(fa).free_count() >= 1,
        ensures
            final(fa).wf(),
            final(mem).wf(),
            allocator_in_memory(*final(fa), *final(mem)),
            final(fa).start_ppn() == old(fa).start_ppn(),
            final(fa).end_ppn() == old(fa).end_ppn(),
            final(mem).base_ppn() == old(mem).base_ppn(),
            final(mem).num_frames() == old(mem).num_frames(),
            r.wf(*final(mem)),
            r.nodes_allocated(*final(fa)),
            r.node_set() == Set::<u64>::empty().insert(r.root()),
            !old(fa).is_allocated(r.root()),
            final(fa).is_allocated(r.root()),
            forall|q: u64|
                q != r.root() ==> final(fa).is_allocated(q) == old(fa).is_allocated(q),
            final(fa).free_count() == old(fa).free_count() - 1,
            forall|p: u64, k: int|
                old(mem).contains_ppn(p) && 0 <= k < 512 && p != r.root() ==> final(mem).word(
                    p,
                    k,
                ) == old(mem).word(p, k),
            forall|vpn: VirtPageNum| translation(*final(mem), r.root(), vpn) is None,
    {
        let ft_opt = frame_alloc(fa, mem);
        let ft = match ft_opt {
            Some(ft) => ft,
            None => {
                proof {
                    assert(false);
                }
                vstd::pervasive::unreached()
            },
        };
        let root_ppn = ft.ppn;
        let mut frames: Vec<FrameTracker> = Vec::new();
        frames.push(ft);
        let r = PageTable {
            root_ppn,
            frames,
            pos: Ghost(Map::<u64, NodePos>::empty().insert(root_ppn.0, NodePos::Root)),
        };
        proof {
            assert(r.owned_ppns().len() == 1 && r.owned_ppns()[0] == root_ppn.0);
            assert(r.node_set() =~= Set::<u64>::empty().insert(root_ppn.0));
            assert(0u64 & 1 != 1) by (bit_vector);
            assert forall|i0: u64| i0 < 512 implies !pte_valid(
                #[trigger] mem.word(root_ppn.0, i0 as int),
            ) by {
                assert(mem.word(root_ppn.0, i0 as int) == 0);
            }
            assert forall|vpn: VirtPageNum|
                translation(*mem, r.root(), vpn) is None by {
                crate::address::lemma_indexes_bounded(vpn);
                assert(mem.word(root_ppn.0, vpn.spec_idx0() as int) == 0);
            }
        }
        r
    }

    /// The value for the supervisor address-translation register: sv39
    /// mode in the top bits, the root page number in the low bits.
    pub fn token(&self) -> (r: u64)
        ensures
            r == 0x8000_0000_0000_0000u64 | self.root(),
            r & 0xFFF_FFFF_FFFF == self.root() % 0x1000_0000_0000u64,
    {
        let root = self.root_ppn.0;
        proof {
            assert((0x8000_0000_0000_0000u64 | root) & 0xFFF_FFFF_FFFF == root
                % 0x1000_0000_0000u64) by (bit_vector);
        }
        0x8000_0000_0000_0000u64 | root
    }

    /// A non-owning view of the table a token names, good only for
    /// read-only translation: it owns no frames and must never map or
    /// unmap.
    pub fn from_token(satp: u64) -> (r: Self)
        ensures
            r.root() == satp & 0xFFF_FFFF_FFFF,
            r.node_set() == Set::<u64>::empty(),
    {
        proof {
            assert(Map::<u64, NodePos>::empty().dom() =~= Set::<u64>::empty());
        }
        PageTable {
            root_ppn: PhysPageNum(satp & 0xFFF_FFFF_FFFF),
            frames: Vec::new(),
            pos: Ghost(Map::empty()),
        }
    }

    /// Walks the tree without allocating; returns the node and index of
    /// the leaf slot of `vpn` if both interior entries are valid.
    fn find(&self, mem: &PhysMemory, vpn: VirtPageNum) -> (r: Option<(u64, usize)>)
        requires
            mem.wf(),
            readable_tree(*mem, self.root()),
        ensures
            match r {
                Option::None => !walk_path_ok(*mem, self.root(), vpn),
                Option::Some(slot) => {
                    &&& walk_path_ok(*mem, self.root(), vpn)
                    &&& slot.0 == walk_l2_node(*mem, self.root(), vpn)
                    &&& slot.1 == vpn.spec_idx2()
                    &&& mem.contains_ppn(slot.0)
                    &&& slot.1 < 512
                },
            },
    {
        proof {
            crate::address::lemma_indexes_bounded(vpn);
        }
        let idx = vpn.indexes();
        let w0 = mem.read_word(self.root_ppn.0, idx[0] as usize);
        if w0 & 1 != 1 {
            return None;
        }
        let n1 = (w0 >> 10) & 0xFFF_FFFF_FFFF;
        proof {
            assert(w0 == walk_l0_word(*mem, self.root(), vpn));
            assert(pte_valid(walk_l0_word(*mem, self.root(), vpn)));
            assert(n1 == walk_l1_node(*mem, self.root(), vpn));
        }
        let w1 = mem.read_word(n1, idx[1] as usize);
        if w1 & 1 != 1 {
            return None;
        }
        let n2 = (w1 >> 10) & 0xFFF_FFFF_FFFF;
        proof {
            assert(w1 == walk_l1_word(*mem, self.root(), vpn));
            assert(n2 == walk_l2_node(*mem, self.root(), vpn));
        }
        Some((n2, idx[2] as usize))
    }


    /// Installs the mapping `vpn -> ppn` with flags `flags | V` in the
    /// leaf of the walk, allocating up to two zeroed interior nodes on
    /// the way.  Requires the page to be unmapped.  Every other
    /// translation is unchanged, and no word outside the table's own node
    /// frames is touched.
    pub fn map(
        &mut self,
        mem: &mut PhysMemory,
        fa: &mut StackFrameAllocator,
        vpn: VirtPageNum,
        ppn: PhysPageNum,
        flags: PTEFlags,
    )
        requires
            old(self).wf(*old(mem)),
            old(self).nodes_allocated(*old(fa)),
            old(fa).wf(),
            allocator_in_memory(*old(fa), *old(mem)),
            old(fa).free_count() >= 2,
            vpn.wf(),
            ppn.wf(),
            translation(*old(mem), old(self).root(), vpn) is None,
        ensures
            final(self).wf(*final(mem)),
            final(self).nodes_allocated(*final(fa)),
            final(fa).wf(),
            allocator_in_memory(*final(fa), *final(mem)),
            final(self).root() == old(self).root(),
            final(mem).base_ppn() == old(mem).base_ppn(),
            final(mem).num_frames() == old(mem).num_frames(),
            final(fa).start_ppn() == old(fa).start_ppn(),
            final(fa).end_ppn() == old(fa).end_ppn(),
            translation(*final(mem), old(self).root(), vpn) == Some(
                (ppn.0, (flags.bits | 1) as u8),
            ),
            translations_agree_except(*old(mem), *final(mem), old(self).root(), vpn),
            forall|p: u64|
                old(self).node_set().contains(p) ==> final(self).node_set().contains(p),
            forall|p: u64|
                final(self).node_set().contains(p) ==> old(self).node_set().contains(p)
                    || !old(fa).is_allocated(p),
            forall|p: u64, k: int|
                old(mem).contains_ppn(p) && 0 <= k < 512 && !final(self).node_set().contains(
                    p,
                ) ==> final(mem).word(p, k) == old(mem).word(p, k),
            forall|q: u64| old(fa).is_allocated(q) ==> final(fa).is_allocated(q),
            forall|q: u64|
                final(fa).is_allocated(q) ==> old(fa).is_allocated(q)
                    || final(self).node_set().contains(q),
            old(fa).free_count() - 2 <= final(fa).free_count() <= old(fa).free_count(),
            walk_path_ok(*old(mem), old(self).root(), vpn) ==> {
                &&& final(fa).free_count() == old(fa).free_count()
                &&& forall|q: u64| final(fa).is_allocated(q) == old(fa).is_allocated(q)
                &&& final(self).node_set() == old(self).node_set()
            },
    {
        proof {
            crate::address::lemma_indexes_bounded(vpn);
        }
        let ghost mut hooked_a: bool = false;
        let ghost mut hooked_b: bool = false;
        let idx = vpn.indexes();
        let root = self.root_ppn.0;
        let ghost j0 = vpn.spec_idx0() as int;
        let ghost j1 = vpn.spec_idx1() as int;
        let ghost j2 = vpn.spec_idx2() as int;

        // ---- level 0: find or create the level-1 node ----
        let w0 = mem.read_word(root, idx[0] as usize);
        let n1: u64;
        if w0 & 1 == 1 {
            n1 = (w0 >> 10) & 0xFFF_FFFF_FFFF;
        } else {
            proof {
                hooked_a = true;
            }
            let ft = frame_alloc_must(fa, mem);
            let f = ft.ppn.0;
            proof {
                lemma_pte_word_roundtrip(f, 1);
                assert(forall|i: int|
                    0 <= i < old(self).owned_ppns().len() ==> #[trigger] old(
                        self,
                    ).owned_ppns()[i] != f);
                assert(!old(self).node_set().contains(f));
            }
            let ghost mem_z = *mem;
            let w = (f << 10u64) | 1u64;
            proof {
                assert(old(mem).contains_ppn(root));
                assert(mem.contains_ppn(root));
            }
            mem.write_word(root, idx[0] as usize, w);
            self.frames.push(ft);
            proof {
                self.pos@ = self.pos@.insert(f, NodePos::L1(vpn.spec_idx0()));
            }
            n1 = f;
            proof {
                let pt1 = *self;
                assert(pt1.owned_ppns() =~= old(self).owned_ppns().push(f));
                assert(pt1.node_set() =~= old(self).node_set().insert(f));
                assert(1u8 & 1 == 1) by (bit_vector);
                assert(w == pte_word(f, 1u8));
                assert(mem.word(root, j0) == w && pte_valid(w) && pte_ppn(w) == f);
                assert(0u64 & 1 != 1) by (bit_vector);
                assert(root != f);
                assert forall|k: int| 0 <= k < 512 implies mem.word(f, k) == 0 by {
                    assert(mem_z.word(f, k) == 0);
                }
                assert(mem.frame_zero(f));
                assert forall|p: u64| pt1.node_set().contains(p) implies pt1.owned_ppns()
                    .contains(p) by {
                    if p == f {
                        assert(pt1.owned_ppns()[pt1.owned_ppns().len() - 1] == f);
                    } else {
                        let i = choose|i: int|
                            0 <= i < old(self).owned_ppns().len() && old(self).owned_ppns()[i]
                                == p;
                        assert(pt1.owned_ppns()[i] == p);
                    }
                }
                assert forall|i0: u64|
                    i0 < 512 && pte_valid(#[trigger] mem.word(root, i0 as int)) implies {
                    &&& pt1.node_set().contains(pte_ppn(mem.word(root, i0 as int)))
                    &&& pt1.node_pos()[pte_ppn(mem.word(root, i0 as int))] == NodePos::L1(i0)
                } by {
                    if i0 as int != j0 {
                        assert(mem.word(root, i0 as int) == old(mem).word(root, i0 as int));
                        let c = pte_ppn(mem.word(root, i0 as int));
                        assert(old(self).node_set().contains(c));
                        assert(c != f);
                    }
                }
                assert forall|p: u64, i1: u64|
                    (pt1.node_set().contains(p) && i1 < 512 && pte_valid(
                        #[trigger] mem.word(p, i1 as int),
                    )) implies (pt1.node_pos()[p] matches NodePos::L1(k0) ==> {
                    &&& pt1.node_set().contains(pte_ppn(mem.word(p, i1 as int)))
                    &&& pt1.node_pos()[pte_ppn(mem.word(p, i1 as int))] == NodePos::L2(k0, i1)
                }) by {
                    if pt1.node_pos()[p] is L1 {
                        if p == f {
                            assert(mem.word(f, i1 as int) == 0);
                        } else {
                            assert(old(self).node_set().contains(p));
                            assert(p != root);
                            assert(old(mem).contains_ppn(p));
                            assert(mem_z.word(p, i1 as int) == old(mem).word(p, i1 as int));
                            assert(mem.word(p, i1 as int) == old(mem).word(p, i1 as int));
                            if pte_valid(mem.word(p, i1 as int)) {
                                let c = pte_ppn(mem.word(p, i1 as int));
                                assert(old(self).node_set().contains(c));
                                assert(c != f);
                            }
                        }
                    }
                }
                assert(mem.contains_ppn(f));
                assert(pt1.node_set().contains(pt1.root()));
                assert(pt1.node_pos()[pt1.root()] == NodePos::Root);
                assert forall|i: int|
                    0 <= i < pt1.owned_ppns().len() implies pt1.node_set().contains(
                    #[trigger] pt1.owned_ppns()[i],
                ) by {
                    if i < old(self).owned_ppns().len() {
                        assert(pt1.owned_ppns()[i] == old(self).owned_ppns()[i]);
                    }
                }
                assert forall|i: int, j: int|
                    0 <= i < j < pt1.owned_ppns().len() implies pt1.owned_ppns()[i] != pt1
                    .owned_ppns()[j] by {
                    if j < old(self).owned_ppns().len() {
                        assert(old(self).owned_ppns()[i] != old(self).owned_ppns()[j]);
                    } else {
                        assert(pt1.owned_ppns()[j] == f);
                        assert(old(self).owned_ppns()[i] != f);
                    }
                }
                assert forall|p: u64| pt1.node_set().contains(p) implies #[trigger] mem
                    .contains_ppn(p) by {
                    if p != f {
                        assert(old(mem).contains_ppn(p));
                    }
                }
                assert(pt1.wf(*mem));
                lemma_hook_l1_preserves(pt1, *old(mem), *mem, vpn.spec_idx0(), f);
            }
        }
        let ghost pt_a = *self;
        let ghost mem_a = *mem;
        let ghost fa_a = *fa;
        proof {
            assert(!hooked_a ==> *fa == *old(fa) && *self == *old(self) && *mem == *old(
                mem,
            ));
            assert(hooked_a ==> !walk_path_ok(*old(mem), old(self).root(), vpn));
            assert(pt_a.wf(mem_a));
            assert(pt_a.nodes_allocated(fa_a));
            assert(pte_valid(mem_a.word(root, j0)) && pte_ppn(mem_a.word(root, j0)) == n1);
            assert(pt_a.node_set().contains(n1) && pt_a.node_pos()[n1] == NodePos::L1(
                vpn.spec_idx0(),
            ));
            assert(translations_agree(*old(mem), mem_a, root));
            assert(fa_a.free_count() >= 1);
        }

        // ---- level 1: find or create the level-2 node ----
        let w1 = mem.read_word(n1, idx[1] as usize);
        let n2: u64;
        if w1 & 1 == 1 {
            n2 = (w1 >> 10) & 0xFFF_FFFF_FFFF;
        } else {
            proof {
                hooked_b = true;
            }
            let ft = frame_alloc_must(fa, mem);
            let f = ft.ppn.0;
            proof {
                lemma_pte_word_roundtrip(f, 1);
                assert(forall|i: int|
                    0 <= i < pt_a.owned_ppns().len() ==> #[trigger] pt_a.owned_ppns()[i]
                        != f);
                assert(!pt_a.node_set().contains(f));
            }
            let ghost mem_z = *mem;
            let w = (f << 10u64) | 1u64;
            proof {
                assert(mem_a.contains_ppn(n1));
                assert(mem.contains_ppn(n1));
            }
            mem.write_word(n1, idx[1] as usize, w);
            self.frames.push(ft);
            proof {
                self.pos@ = self.pos@.insert(
                    f,
                    NodePos::L2(vpn.spec_idx0(), vpn.spec_idx1()),
                );
            }
            n2 = f;
            proof {
                let pt1 = *self;
                assert(pt1.owned_ppns() =~= pt_a.owned_ppns().push(f));
                assert(pt1.node_set() =~= pt_a.node_set().insert(f));
                assert(1u8 & 1 == 1) by (bit_vector);
                assert(w == pte_word(f, 1u8));
                assert(mem.word(n1, j1) == w && pte_valid(w) && pte_ppn(w) == f);
                assert(0u64 & 1 != 1) by (bit_vector);
                assert(n1 != root && n1 != f && root != f);
                assert forall|k: int| 0 <= k < 512 implies mem.word(f, k) == 0 by {
                    assert(mem_z.word(f, k) == 0);
                }
                assert(mem.frame_zero(f));
                assert forall|p: u64| pt1.node_set().contains(p) implies pt1.owned_ppns()
                    .contains(p) by {
                    if p == f {
                        assert(pt1.owned_ppns()[pt1.owned_ppns().len() - 1] == f);
                    } else {
                        let i = choose|i: int|
                            0 <= i < pt_a.owned_ppns().len() && pt_a.owned_ppns()[i] == p;
                        assert(pt1.owned_ppns()[i] == p);
                    }
                }
                assert forall|i0: u64|
                    i0 < 512 && pte_valid(#[trigger] mem.word(root, i0 as int)) implies {
                    &&& pt1.node_set().contains(pte_ppn(mem.word(root, i0 as int)))
                    &&& pt1.node_pos()[pte_ppn(mem.word(root, i0 as int))] == NodePos::L1(i0)
                } by {
                    assert(mem_a.contains_ppn(root));
                    assert(mem_z.word(root, i0 as int) == mem_a.word(root, i0 as int));
                    assert(mem.word(root, i0 as int) == mem_z.word(root, i0 as int));
                    let c = pte_ppn(mem.word(root, i0 as int));
                    assert(pt_a.node_set().contains(c));
                    assert(c != f);
                }
                assert forall|p: u64, i1: u64|
                    (pt1.node_set().contains(p) && i1 < 512 && pte_valid(
                        #[trigger] mem.word(p, i1 as int),
                    )) implies (pt1.node_pos()[p] matches NodePos::L1(k0) ==> {
                    &&& pt1.node_set().contains(pte_ppn(mem.word(p, i1 as int)))
                    &&& pt1.node_pos()[pte_ppn(mem.word(p, i1 as int))] == NodePos::L2(k0, i1)
                }) by {
                    if pt1.node_pos()[p] is L1 {
                        assert(p != f);
                        assert(pt_a.node_set().contains(p));
                        if p == n1 && i1 as int == j1 {
                            assert(pte_ppn(mem.word(p, i1 as int)) == f);
                            assert(pt1.node_pos()[p] == NodePos::L1(vpn.spec_idx0()));
                        } else {
                            assert(mem_a.contains_ppn(p));
                            assert(mem_z.word(p, i1 as int) == mem_a.word(p, i1 as int));
                            assert(mem.word(p, i1 as int) == mem_a.word(p, i1 as int));
                            if pte_valid(mem.word(p, i1 as int)) {
                                let c = pte_ppn(mem.word(p, i1 as int));
                                assert(pt_a.node_set().contains(c));
                                assert(c != f);
                            }
                        }
                    }
                }
                assert(mem.contains_ppn(f));
                assert(pt1.node_set().contains(pt1.root()));
                assert(pt1.node_pos()[pt1.root()] == NodePos::Root);
                assert forall|i: int|
                    0 <= i < pt1.owned_ppns().len() implies pt1.node_set().contains(
                    #[trigger] pt1.owned_ppns()[i],
                ) by {
                    if i < pt_a.owned_ppns().len() {
                        assert(pt1.owned_ppns()[i] == pt_a.owned_ppns()[i]);
                    }
                }
                assert forall|i: int, j: int|
                    0 <= i < j < pt1.owned_ppns().len() implies pt1.owned_ppns()[i] != pt1
                    .owned_ppns()[j] by {
                    if j < pt_a.owned_ppns().len() {
                        assert(pt_a.owned_ppns()[i] != pt_a.owned_ppns()[j]);
                    } else {
                        assert(pt1.owned_ppns()[j] == f);
                        assert(pt_a.owned_ppns()[i] != f);
                    }
                }
                assert forall|p: u64| pt1.node_set().contains(p) implies #[trigger] mem
                    .contains_ppn(p) by {
                    if p != f {
                        assert(mem_a.contains_ppn(p));
                    }
                }
                assert(pt1.wf(*mem));
                assert(mem_a.contains_ppn(root));
                assert(mem_z.word(root, j0) == mem_a.word(root, j0));
                assert(mem.word(root, j0) == mem_z.word(root, j0));
                assert(pte_valid(mem.word(root, j0)) && pte_ppn(mem.word(root, j0)) == n1);
                lemma_hook_l2_preserves(
                    pt1,
                    mem_a,
                    *mem,
                    n1,
                    vpn.spec_idx0(),
                    vpn.spec_idx1(),
                    f,
                );
            }
        }
        let ghost pt_b = *self;
        let ghost mem_b = *mem;
        proof {
            assert(!hooked_b ==> *fa == fa_a && *self == pt_a && *mem == mem_a);
            assert(hooked_b && !hooked_a ==> !pte_valid(old(mem).word(n1, j1)));
            assert(hooked_b ==> !walk_path_ok(*old(mem), old(self).root(), vpn));
            assert(!hooked_a && !hooked_b ==> *fa == *old(fa) && self.node_set() == old(
                self,
            ).node_set());
            assert(walk_path_ok(*old(mem), old(self).root(), vpn) ==> !hooked_a
                && !hooked_b);
            assert(pt_b.wf(mem_b));
            assert(pte_valid(mem_b.word(root, j0)) && pte_ppn(mem_b.word(root, j0)) == n1);
            assert(pte_valid(mem_b.word(n1, j1)) && pte_ppn(mem_b.word(n1, j1)) == n2);
            assert(pt_b.node_set().contains(n2) && pt_b.node_pos()[n2] == NodePos::L2(
                vpn.spec_idx0(),
                vpn.spec_idx1(),
            ));
            assert(translations_agree(*old(mem), mem_b, root));
            assert(walk_path_ok(mem_b, root, vpn));
            assert(translation(mem_b, root, vpn) is None);
            assert(!pte_valid(walk_leaf_word(mem_b, root, vpn)));
        }

        // ---- leaf: the page must be unmapped; install the entry ----
        let fb: u8 = flags.bits | 1;
        proof {
            lemma_pte_word_roundtrip(ppn.0, fb);
            let fbits = flags.bits;
            assert((fbits | 1) & 1 == 1) by (bit_vector);
        }
        let w = (ppn.0 << 10u64) | (fb as u64);
        mem.write_word(n2, idx[2] as usize, w);
        proof {
            let pt1 = *self;
            assert(n2 != root);
            assert forall|i0: u64|
                i0 < 512 && pte_valid(#[trigger] mem.word(root, i0 as int)) implies {
                &&& pt1.node_set().contains(pte_ppn(mem.word(root, i0 as int)))
                &&& pt1.node_pos()[pte_ppn(mem.word(root, i0 as int))] == NodePos::L1(i0)
            } by {
                assert(mem.word(root, i0 as int) == mem_b.word(root, i0 as int));
            }
            assert forall|p: u64, i1: u64|
                (pt1.node_set().contains(p) && i1 < 512 && pte_valid(
                    #[trigger] mem.word(p, i1 as int),
                )) implies (pt1.node_pos()[p] matches NodePos::L1(k0) ==> {
                &&& pt1.node_set().contains(pte_ppn(mem.word(p, i1 as int)))
                &&& pt1.node_pos()[pte_ppn(mem.word(p, i1 as int))] == NodePos::L2(k0, i1)
            }) by {
                if pt1.node_pos()[p] is L1 {
                    assert(p != n2);
                    assert(mem.word(p, i1 as int) == mem_b.word(p, i1 as int));
                }
            }
            assert forall|p: u64| pt1.node_set().contains(p) implies #[trigger] mem
                .contains_ppn(p) by {
                assert(mem_b.contains_ppn(p));
            }
            assert(pt1.wf(*mem));
            lemma_leaf_write_preserves(pt1, mem_b, *mem, vpn, n2);
            assert(mem.word(root, j0) == mem_b.word(root, j0));
            assert(mem.word(n1, j1) == mem_b.word(n1, j1)) by {
                assert(n1 != n2);
            }
            assert(walk_l1_node(*mem, root, vpn) == n1);
            assert(walk_l2_node(*mem, root, vpn) == n2);
            assert(walk_leaf_word(*mem, root, vpn) == w);
            assert(translation(*mem, root, vpn) == Some((ppn.0, fb)));
            assert forall|v: VirtPageNum| v.wf() && v != vpn implies #[trigger] translation(
                *mem,
                root,
                v,
            ) == translation(*old(mem), root, v) by {
                assert(translation(*mem, root, v) == translation(mem_b, root, v));
                assert(translation(mem_b, root, v) == translation(*old(mem), root, v));
            }
        }
    }


    /// Clears the leaf entry of `vpn`, which must be mapped.  Every other
    /// translation is unchanged, and only that one word of memory is
    /// touched.
    pub fn unmap(&self, mem: &mut PhysMemory, vpn: VirtPageNum)
        requires
            self.wf(*old(mem)),
            vpn.wf(),
            translation(*old(mem), self.root(), vpn) is Some,
        ensures
            self.wf(*final(mem)),
            final(mem).base_ppn() == old(mem).base_ppn(),
            final(mem).num_frames() == old(mem).num_frames(),
            translation(*final(mem), self.root(), vpn) is None,
            translations_agree_except(*old(mem), *final(mem), self.root(), vpn),
            forall|p: u64, k: int|
                old(mem).contains_ppn(p) && 0 <= k < 512 && !self.node_set().contains(p)
                    ==> final(mem).word(p, k) == old(mem).word(p, k),
    {
        proof {
            crate::address::lemma_indexes_bounded(vpn);
            self.lemma_wf_readable(*mem);
        }
        let root = self.root_ppn.0;
        let ghost j0 = vpn.spec_idx0() as int;
        let ghost j1 = vpn.spec_idx1() as int;
        let ghost j2 = vpn.spec_idx2() as int;
        let slot = self.find(mem, vpn);
        let (n2, i2) = match slot {
            Some(s) => s,
            None => {
                proof {
                    assert(false);
                }
                vstd::pervasive::unreached()
            },
        };
        let ghost mem_b = *mem;
        proof {
            let c1 = walk_l1_node(mem_b, root, vpn);
            assert(self.node_set().contains(c1) && self.node_pos()[c1] == NodePos::L1(
                vpn.spec_idx0(),
            ));
            assert(self.node_set().contains(n2) && self.node_pos()[n2] == NodePos::L2(
                vpn.spec_idx0(),
                vpn.spec_idx1(),
            ));
        }
        mem.write_word(n2, i2, 0);
        proof {
            let pt1 = *self;
            assert(0u64 & 1 != 1) by (bit_vector);
            assert(n2 != root);
            assert forall|i0: u64|
                i0 < 512 && pte_valid(#[trigger] mem.word(root, i0 as int)) implies {
                &&& pt1.node_set().contains(pte_ppn(mem.word(root, i0 as int)))
                &&& pt1.node_pos()[pte_ppn(mem.word(root, i0 as int))] == NodePos::L1(i0)
            } by {
                assert(mem.word(root, i0 as int) == mem_b.word(root, i0 as int));
            }
            assert forall|p: u64, i1: u64|
                (pt1.node_set().contains(p) && i1 < 512 && pte_valid(
                    #[trigger] mem.word(p, i1 as int),
                )) implies (pt1.node_pos()[p] matches NodePos::L1(k0) ==> {
                &&& pt1.node_set().contains(pte_ppn(mem.word(p, i1 as int)))
                &&& pt1.node_pos()[pte_ppn(mem.word(p, i1 as int))] == NodePos::L2(k0, i1)
            }) by {
                if pt1.node_pos()[p] is L1 {
                    assert(p != n2);
                    assert(mem.word(p, i1 as int) == mem_b.word(p, i1 as int));
                }
            }
            assert forall|p: u64| pt1.node_set().contains(p) implies #[trigger] mem
                .contains_ppn(p) by {
                assert(mem_b.contains_ppn(p));
            }
            assert(pt1.wf(*mem));
            lemma_leaf_write_preserves(pt1, mem_b, *mem, vpn, n2);
            assert(mem.word(root, j0) == mem_b.word(root, j0));
            let c1 = walk_l1_node(mem_b, root, vpn);
            assert(c1 != n2);
            assert(mem.word(c1, j1) == mem_b.word(c1, j1));
            assert(walk_leaf_word(*mem, root, vpn) == 0);
            assert(translation(*mem, root, vpn) is None);
        }
    }

    /// Returns every node frame the table owns to the allocator; the
    /// table is consumed.
    pub fn recycle(self, mem: &PhysMemory, fa: &mut StackFrameAllocator)
        requires
            old(fa).wf(),
            self.wf(*mem),
            self.nodes_allocated(*old(fa)),
        ensures
            final(fa).wf(),
            final(fa).start_ppn() == old(fa).start_ppn(),
            final(fa).next_ppn() == old(fa).next_ppn(),
            final(fa).end_ppn() == old(fa).end_ppn(),
            final(fa).free_count() == old(fa).free_count() + self.owned_ppns().len(),
            forall|q: u64|
                final(fa).is_allocated(q) == (old(fa).is_allocated(q)
                    && !self.node_set().contains(q)),
    {
        let PageTable { root_ppn, mut frames, pos } = self;
        let ghost all = frames@.map_values(|ft: FrameTracker| ft.ppn.0);
        proof {
            assert(all == self.owned_ppns());
        }
        while frames.len() > 0
            invariant
                fa.wf(),
                fa.start_ppn() == old(fa).start_ppn(),
                fa.next_ppn() == old(fa).next_ppn(),
                fa.end_ppn() == old(fa).end_ppn(),
                frames@.map_values(|ft: FrameTracker| ft.ppn.0) == all.take(
                    frames@.len() as int,
                ),
                frames@.len() <= all.len(),
                forall|i: int, j: int| 0 <= i < j < all.len() ==> all[i] != all[j],
                forall|i: int|
                    0 <= i < frames@.len() ==> fa.is_allocated(#[trigger] all[i]),
                fa.free_count() == old(fa).free_count() + (all.len() - frames@.len()),
                forall|q: u64|
                    #[trigger] fa.is_allocated(q) == (old(fa).is_allocated(q) && !all.skip(
                        frames@.len() as int,
                    ).contains(q)),
            decreases frames@.len(),
        {
            let ghost k = frames@.len() as int;
            let ft = match frames.pop() {
                Some(ft) => ft,
                None => {
                    proof {
                        assert(false);
                    }
                    vstd::pervasive::unreached()
                },
            };
            proof {
                assert(all.take(k)[k - 1] == all[k - 1]);
                assert(ft.ppn.0 == all[k - 1]);
                assert(fa.is_allocated(ft.ppn.0));
            }
            let ghost fa_pre = *fa;
            crate::frame_allocator::frame_dealloc(fa, ft);
            proof {
                assert(frames@.map_values(|ft: FrameTracker| ft.ppn.0) =~= all.take(k - 1));
                assert forall|q: u64|
                    #[trigger] fa.is_allocated(q) == (old(fa).is_allocated(q) && !all.skip(
                        k - 1,
                    ).contains(q)) by {
                    assert(all.skip(k - 1)[0] == all[k - 1]);
                    if all.skip(k - 1).contains(q) {
                        let i = choose|i: int|
                            0 <= i < all.skip(k - 1).len() && #[trigger] all.skip(k - 1)[i]
                                == q;
                        if i > 0 {
                            assert(all.skip(k)[i - 1] == q);
                        }
                    }
                    if all.skip(k).contains(q) {
                        let i = choose|i: int|
                            0 <= i < all.skip(k).len() && #[trigger] all.skip(k)[i] == q;
                        assert(all.skip(k - 1)[i + 1] == q);
                    }
                }
                assert forall|i: int| 0 <= i < frames@.len() implies fa.is_allocated(
                    #[trigger] all[i],
                ) by {
                    assert(all[i] != all[k - 1]);
                    assert(fa_pre.is_allocated(all[i]));
                }
            }
        }
        proof {
            assert(all.skip(0) == all);
            assert forall|q: u64|
                final(fa).is_allocated(q) == (old(fa).is_allocated(q)
                    && !self.node_set().contains(q)) by {
                if self.node_set().contains(q) {
                    assert(self.owned_ppns().contains(q));
                }
                if all.contains(q) {
                    let i = choose|i: int| 0 <= i < all.len() && #[trigger] all[i] == q;
                    assert(self.node_set().contains(self.owned_ppns()[i]));
                }
            }
        }
    }

    /// Returns the leaf entry of `vpn` if both interior entries of its
    /// walk are valid; the entry itself may still be invalid.
    pub fn translate(&self, mem: &PhysMemory, vpn: VirtPageNum) -> (r: Option<PageTableEntry>)
        requires
            mem.wf(),
            readable_tree(*mem, self.root()),
        ensures
            match r {
                Option::None => {
                    &&& !walk_path_ok(*mem, self.root(), vpn)
                    &&& translation(*mem, self.root(), vpn) is None
                },
                Option::Some(pte) => {
                    &&& walk_path_ok(*mem, self.root(), vpn)
                    &&& pte.bits == walk_leaf_word(*mem, self.root(), vpn)
                    &&& pte_valid(pte.bits) ==> translation(*mem, self.root(), vpn)
                        == Some((pte_ppn(pte.bits), pte_flag_bits(pte.bits)))
                    &&& !pte_valid(pte.bits) ==> translation(*mem, self.root(), vpn) is None
                },
            },
    {
        match self.find(mem, vpn) {
            None => None,
            Some((node, i)) => Some(PageTableEntry { bits: mem.read_word(node, i) }),
        }
    }
}


/// The page containing virtual address `va`.
pub open spec fn va_page(va: u64) -> VirtPageNum {
    VirtPageNum((va / 4096) as u64)
}

/// Whether the page of `va` is mapped under `root`.
pub open spec fn va_mapped(mem: PhysMemory, root: u64, va: u64) -> bool {
    translation(mem, root, va_page(va)) is Some
}

/// The physical location (frame, byte offset) of virtual address `va`.
pub open spec fn user_loc(mem: PhysMemory, root: u64, va: u64) -> (u64, int) {
    match translation(mem, root, va_page(va)) {
        Some(t) => (t.0, (va % 4096) as int),
        None => (0, 0),
    }
}

/// The byte at virtual address `va` under `root`.
pub open spec fn user_byte(mem: PhysMemory, root: u64, va: u64) -> u8 {
    mem.byte(user_loc(mem, root, va).0, user_loc(mem, root, va).1)
}

/// A run of bytes `[start, end)` inside one physical frame.
#[derive(Clone, Copy, PartialEq, Eq, Structural, Debug)]
pub struct PhysSlice {
    /// The frame holding the bytes.
    pub ppn: u64,
    /// The first byte offset of the run.
    pub start: usize,
    /// The past-the-end byte offset of the run.
    pub end: usize,
}

impl PhysSlice {
    /// A slice stays inside one frame of the memory.
    pub open spec fn wf(self, mem: PhysMemory) -> bool {
        &&& mem.contains_ppn(self.ppn)
        &&& self.start < self.end <= 4096
    }
}

/// The byte locations a slice names, in order.
pub open spec fn slice_locs(s: PhysSlice) -> Seq<(u64, int)> {
    Seq::new((s.end - s.start) as nat, |i: int| (s.ppn, s.start + i))
}

/// The byte locations a list of slices names, in order.
pub open spec fn slices_locs(ss: Seq<PhysSlice>) -> Seq<(u64, int)>
    decreases ss.len(),
{
    if ss.len() == 0 {
        Seq::empty()
    } else {
        slice_locs(ss[0]) + slices_locs(ss.drop_first())
    }
}

/// Appending a slice appends its locations.
pub proof fn lemma_slices_locs_push(ss: Seq<PhysSlice>, s: PhysSlice)
    ensures
        slices_locs(ss.push(s)) == slices_locs(ss) + slice_locs(s),
    decreases ss.len(),
{
    if ss.len() == 0 {
        assert(ss.push(s)[0] == s);
        assert(ss.push(s).drop_first() =~= Seq::<PhysSlice>::empty());
        assert(slices_locs(ss.push(s).drop_first()) == Seq::<(u64, int)>::empty());
        assert(slices_locs(ss.push(s)) =~= slice_locs(s) + Seq::<(u64, int)>::empty());
        assert(slices_locs(ss) == Seq::<(u64, int)>::empty());
        assert(slices_locs(ss.push(s)) =~= slices_locs(ss) + slice_locs(s));
    } else {
        assert(ss.push(s).drop_first() =~= ss.drop_first().push(s));
        lemma_slices_locs_push(ss.drop_first(), s);
        assert(ss.push(s)[0] == ss[0]);
        assert(slices_locs(ss.push(s)) == slice_locs(ss[0]) + slices_locs(
            ss.drop_first().push(s),
        ));
        assert(slices_locs(ss.push(s)) =~= slices_locs(ss) + slice_locs(s));
    }
}

/// The locations of a slice list split at `m`.
pub proof fn lemma_slices_locs_split(ss: Seq<PhysSlice>, m: int)
    requires
        0 <= m <= ss.len(),
    ensures
        slices_locs(ss) == slices_locs(ss.take(m)) + slices_locs(ss.skip(m)),
    decreases m,
{
    if m == 0 {
        assert(ss.take(0int) =~= Seq::<PhysSlice>::empty());
        assert(ss.skip(0int) =~= ss);
        assert(slices_locs(ss.take(0int)) == Seq::<(u64, int)>::empty());
        assert(slices_locs(ss) =~= slices_locs(ss.take(0int)) + slices_locs(ss.skip(0int)));
    } else {
        let rest = ss.drop_first();
        lemma_slices_locs_split(rest, m - 1);
        assert(ss.take(m)[0] == ss[0]);
        assert(ss.take(m).drop_first() =~= rest.take(m - 1));
        assert(ss.skip(m) =~= rest.skip(m - 1));
        assert(slices_locs(ss.take(m)) == slice_locs(ss[0]) + slices_locs(rest.take(m - 1)));
        assert(slices_locs(ss) == slice_locs(ss[0]) + slices_locs(rest));
        assert(slices_locs(ss) =~= slices_locs(ss.take(m)) + slices_locs(ss.skip(m)));
    }
}

/// Every location of a list of well-formed slices lies inside the memory.
pub proof fn lemma_slices_locs_wf(ss: Seq<PhysSlice>, mem: PhysMemory)
    requires
        forall|j: int| 0 <= j < ss.len() ==> (#[trigger] ss[j]).wf(mem),
    ensures
        forall|i: int|
            0 <= i < slices_locs(ss).len() ==> mem.contains_ppn(
                (#[trigger] slices_locs(ss)[i]).0,
            ) && 0 <= slices_locs(ss)[i].1 < 4096,
    decreases ss.len(),
{
    if ss.len() > 0 {
        let rest = ss.drop_first();
        assert(forall|j: int| 0 <= j < rest.len() ==> rest[j] == ss[j + 1]);
        lemma_slices_locs_wf(rest, mem);
        assert(ss[0].wf(mem));
        assert forall|i: int|
            0 <= i < slices_locs(ss).len() implies mem.contains_ppn(
            (#[trigger] slices_locs(ss)[i]).0,
        ) && 0 <= slices_locs(ss)[i].1 < 4096 by {
            if i < slice_locs(ss[0]).len() {
                assert(slices_locs(ss)[i] == slice_locs(ss[0])[i]);
            } else {
                assert(slices_locs(ss)[i] == slices_locs(rest)[i - slice_locs(ss[0]).len()]);
            }
        }
    }
}

/// Splits the user buffer `[ptr, ptr + len)` into the physical byte runs
/// that back it, page by page; every page of the range must be mapped.
pub fn translate_byte_buffer(mem: &PhysMemory, token: u64, ptr: VirtAddr, len: usize) -> (r:
    Vec<PhysSlice>)
    requires
        mem.wf(),
        readable_tree(*mem, token & 0xFFF_FFFF_FFFF),
        ptr.wf(),
        ptr.0 + len <= 0x80_0000_0000u64,
        forall|i: int|
            0 <= i < len ==> #[trigger] va_mapped(
                *mem,
                token & 0xFFF_FFFF_FFFF,
                (ptr.0 + i) as u64,
            ),
        forall|i: int|
            0 <= i < len ==> mem.contains_ppn(
                (#[trigger] user_loc(*mem, token & 0xFFF_FFFF_FFFF, (ptr.0 + i) as u64)).0,
            ),
    ensures
        slices_locs(r@) == Seq::new(
            len as nat,
            |i: int| user_loc(*mem, token & 0xFFF_FFFF_FFFF, (ptr.0 + i) as u64),
        ),
        forall|j: int| 0 <= j < r@.len() ==> (#[trigger] r@[j]).wf(*mem),
        forall|j: int|
            0 <= j < r@.len() ==> exists|i: int|
                0 <= i < len && (#[trigger] r@[j]).ppn == (#[trigger] user_loc(
                    *mem,
                    token & 0xFFF_FFFF_FFFF,
                    (ptr.0 + i) as u64,
                )).0,
{
    let ghost root = token & 0xFFF_FFFF_FFFF;
    let page_table = PageTable::from_token(token);
    let mut v: Vec<PhysSlice> = Vec::new();
    let mut start: u64 = ptr.0;
    let end: u64 = ptr.0 + len as u64;
    while start < end
        invariant
            mem.wf(),
            readable_tree(*mem, root),
            page_table.root() == root,
            ptr.0 <= start <= end,
            end == ptr.0 + len,
            end <= 0x80_0000_0000u64,
            forall|i: int|
                0 <= i < len ==> #[trigger] va_mapped(*mem, root, (ptr.0 + i) as u64),
            forall|i: int|
                0 <= i < len ==> mem.contains_ppn(
                    (#[trigger] user_loc(*mem, root, (ptr.0 + i) as u64)).0,
                ),
            slices_locs(v@) == Seq::new(
                (start - ptr.0) as nat,
                |i: int| user_loc(*mem, root, (ptr.0 + i) as u64),
            ),
            forall|j: int| 0 <= j < v@.len() ==> (#[trigger] v@[j]).wf(*mem),
            forall|j: int|
                0 <= j < v@.len() ==> exists|i: int|
                    0 <= i < len && (#[trigger] v@[j]).ppn == (#[trigger] user_loc(
                        *mem,
                        root,
                        (ptr.0 + i) as u64,
                    )).0,
        decreases end - start,
    {
        let va = VirtAddr(start);
        let vpn = va.floor();
        proof {
            let i: int = start - ptr.0;
            assert(0 <= i < len);
            assert((ptr.0 + i) as u64 == start);
            assert(va_mapped(*mem, root, start));
            assert(mem.contains_ppn(user_loc(*mem, root, start).0));
            assert(va_page(start) == vpn);
        }
        let pte = match page_table.translate(mem, vpn) {
            Some(pte) => pte,
            None => {
                proof {
                    assert(false);
                }
                vstd::pervasive::unreached()
            },
        };
        proof {
            if !pte_valid(pte.bits) {
                assert(translation(*mem, root, vpn) is None);
                assert(false);
            }
        }
        let ppn = pte.ppn();
        let page_base: u64 = (start / 4096) * 4096;
        let page_next: u64 = page_base + 4096;
        let seg_end: u64 = if page_next < end {
            page_next
        } else {
            end
        };
        let s = PhysSlice {
            ppn: ppn.0,
            start: (start - page_base) as usize,
            end: (seg_end - page_base) as usize,
        };
        proof {
            let t = translation(*mem, root, vpn);
            assert(t == Some((pte_ppn(pte.bits), pte_flag_bits(pte.bits))));
            assert(user_loc(*mem, root, start).0 == ppn.0);
            assert(mem.contains_ppn(ppn.0));
            assert(s.wf(*mem));
            assert forall|va2: u64| start <= va2 < seg_end implies va_page(va2) == vpn
                && va2 % 4096 == start % 4096 + (va2 - start) by {
                assert(va2 / 4096 == start / 4096 && va2 % 4096 == va2 - (start / 4096)
                    * 4096) by (nonlinear_arith)
                    requires
                        (start / 4096) * 4096 <= va2,
                        va2 < (start / 4096) * 4096 + 4096,
                        (start / 4096) * 4096 == start - start % 4096,
                ;
            }
            lemma_slices_locs_push(v@, s);
            assert(slices_locs(v@.push(s)) =~= Seq::new(
                (seg_end - ptr.0) as nat,
                |i: int| user_loc(*mem, root, (ptr.0 + i) as u64),
            ));
            let i0: int = start - ptr.0;
            assert(0 <= i0 < len);
            assert(s.ppn == user_loc(*mem, root, (ptr.0 + i0) as u64).0);
        }
        v.push(s);
        start = seg_end;
    }
    v
}

/// Gathers the bytes a list of slices names, in order.
pub fn read_byte_buffer(mem: &PhysMemory, slices: &Vec<PhysSlice>) -> (r: Vec<u8>)
    requires
        mem.wf(),
        forall|j: int| 0 <= j < slices@.len() ==> (#[trigger] slices@[j]).wf(*mem),
    ensures
        r@.len() == slices_locs(slices@).len(),
        forall|i: int|
            0 <= i < r@.len() ==> r@[i] == mem.byte(
                (#[trigger] slices_locs(slices@)[i]).0,
                slices_locs(slices@)[i].1,
            ),
{
    let mut r: Vec<u8> = Vec::new();
    let mut j: usize = 0;
    proof {
        assert(slices@.take(0int) =~= Seq::<PhysSlice>::empty());
    }
    while j < slices.len()
        invariant
            mem.wf(),
            forall|jj: int| 0 <= jj < slices@.len() ==> (#[trigger] slices@[jj]).wf(*mem),
            j <= slices@.len(),
            r@.len() == slices_locs(slices@.take(j as int)).len(),
            forall|i: int|
                0 <= i < r@.len() ==> r@[i] == mem.byte(
                    (#[trigger] slices_locs(slices@.take(j as int))[i]).0,
                    slices_locs(slices@.take(j as int))[i].1,
                ),
        decreases slices@.len() - j,
    {
        let s = slices[j];
        let ghost locs_before = slices_locs(slices@.take(j as int));
        let mut off: usize = s.start;
        while off < s.end
            invariant
                mem.wf(),
                s.wf(*mem),
                s.start <= off <= s.end,
                r@.len() == locs_before.len() + (off - s.start),
                forall|i: int|
                    0 <= i < locs_before.len() ==> r@[i] == mem.byte(
                        (#[trigger] locs_before[i]).0,
                        locs_before[i].1,
                    ),
                forall|i: int|
                    locs_before.len() <= i < r@.len() ==> r@[i] == mem.byte(
                        s.ppn,
                        s.start + (i - locs_before.len()),
                    ),
            decreases s.end - off,
        {
            let b = mem.read_byte(s.ppn, off);
            r.push(b);
            off = off + 1;
        }
        proof {
            assert(slices@.take(j + 1) =~= slices@.take(j as int).push(s));
            lemma_slices_locs_push(slices@.take(j as int), s);
            assert forall|i: int|
                0 <= i < r@.len() implies r@[i] == mem.byte(
                (#[trigger] slices_locs(slices@.take(j + 1))[i]).0,
                slices_locs(slices@.take(j + 1))[i].1,
            ) by {
                if i < locs_before.len() {
                    assert(slices_locs(slices@.take(j + 1))[i] == locs_before[i]);
                } else {
                    assert(slices_locs(slices@.take(j + 1))[i] == slice_locs(s)[i
                        - locs_before.len()]);
                }
            }
        }
        j = j + 1;
    }
    proof {
        assert(slices@.take(slices@.len() as int) =~= slices@);
    }
    r
}

/// Scatters `src` into the byte runs of `dest`, in order.  When the named
/// locations are mutually distinct, every location afterwards holds its
/// byte of `src`; bytes at other locations, and words of frames no slice
/// names, are unchanged.
pub fn copy_byte_buffer(mem: &mut PhysMemory, src: &Vec<u8>, dest: &Vec<PhysSlice>)
    requires
        old(mem).wf(),
        forall|j: int| 0 <= j < dest@.len() ==> (#[trigger] dest@[j]).wf(*old(mem)),
        src@.len() == slices_locs(dest@).len(),
        forall|i: int, j: int|
            0 <= i < j < slices_locs(dest@).len() ==> slices_locs(dest@)[i] != slices_locs(
                dest@,
            )[j],
    ensures
        final(mem).wf(),
        final(mem).base_ppn() == old(mem).base_ppn(),
        final(mem).num_frames() == old(mem).num_frames(),
        forall|i: int|
            0 <= i < src@.len() ==> final(mem).byte(
                (#[trigger] slices_locs(dest@)[i]).0,
                slices_locs(dest@)[i].1,
            ) == src@[i],
        forall|p: u64, jj: int|
            old(mem).contains_ppn(p) && 0 <= jj < 4096 && !slices_locs(dest@).contains(
                (p, jj),
            ) ==> final(mem).byte(p, jj) == old(mem).byte(p, jj),
        forall|p: u64, k: int|
            old(mem).contains_ppn(p) && 0 <= k < 512 && (forall|j: int|
                0 <= j < dest@.len() ==> (#[trigger] dest@[j]).ppn != p) ==> final(mem).word(
                p,
                k,
            ) == old(mem).word(p, k),
    {
        let ghost all_locs = slices_locs(dest@);
        let srclen: usize = src.len();
        let mut n: usize = 0;
        let mut j: usize = 0;
        proof {
            assert(dest@.take(0int) =~= Seq::<PhysSlice>::empty());
            lemma_slices_locs_wf(dest@, *mem);
        }
        while j < dest.len()
            invariant
                mem.wf(),
                mem.base_ppn() == old(mem).base_ppn(),
                mem.num_frames() == old(mem).num_frames(),
                forall|jj: int| 0 <= jj < dest@.len() ==> (#[trigger] dest@[jj]).wf(*old(mem)),
                src@.len() == all_locs.len(),
                src@.len() == srclen,
                all_locs == slices_locs(dest@),
                forall|i: int, jj: int|
                    0 <= i < jj < all_locs.len() ==> all_locs[i] != all_locs[jj],
                forall|i: int|
                    0 <= i < all_locs.len() ==> old(mem).contains_ppn(
                        (#[trigger] all_locs[i]).0,
                    ) && 0 <= all_locs[i].1 < 4096,
                j <= dest@.len(),
                n == slices_locs(dest@.take(j as int)).len(),
                n <= all_locs.len(),
                slices_locs(dest@.take(j as int)) == all_locs.take(n as int),
                forall|i: int|
                    0 <= i < n ==> mem.byte((#[trigger] all_locs[i]).0, all_locs[i].1)
                        == src@[i],
                forall|p: u64, jj: int|
                    old(mem).contains_ppn(p) && 0 <= jj < 4096 && !all_locs.take(
                        n as int,
                    ).contains((p, jj)) ==> mem.byte(p, jj) == old(mem).byte(p, jj),
                forall|p: u64, k: int|
                    old(mem).contains_ppn(p) && 0 <= k < 512 && (forall|jj: int|
                        0 <= jj < dest@.len() ==> (#[trigger] dest@[jj]).ppn != p)
                        ==> mem.word(p, k) == old(mem).word(p, k),
            decreases dest@.len() - j,
        {
            let s = dest[j];
            let ghost n0 = n as int;
            proof {
                assert(dest@.take(j + 1) =~= dest@.take(j as int).push(s));
                lemma_slices_locs_push(dest@.take(j as int), s);
                lemma_slices_locs_split(dest@, j as int);
                assert(dest@.skip(j as int)[0] == s);
                assert(dest@.skip(j as int).drop_first() =~= dest@.skip(j + 1));
                assert(slices_locs(dest@.skip(j as int)) == slice_locs(s) + slices_locs(
                    dest@.skip(j + 1),
                ));
                assert(all_locs == slices_locs(dest@.take(j as int)) + slices_locs(
                    dest@.skip(j as int),
                ));
                assert(slices_locs(dest@.take(j as int)).len() == n0);
                assert forall|i: int|
                    n0 <= i < n0 + (s.end - s.start) implies #[trigger] all_locs[i] == (
                    s.ppn,
                    s.start + (i - n0),
                ) by {
                    assert(all_locs[i] == slices_locs(dest@.skip(j as int))[i - n0]);
                    assert(slices_locs(dest@.skip(j as int))[i - n0] == slice_locs(s)[i
                        - n0]);
                }
                assert(n0 + (s.end - s.start) <= all_locs.len());
            }
            let mut off: usize = s.start;
            while off < s.end
                invariant
                    mem.wf(),
                    mem.base_ppn() == old(mem).base_ppn(),
                    mem.num_frames() == old(mem).num_frames(),
                    s.wf(*old(mem)),
                    0 <= j < dest@.len(),
                    dest@[j as int] == s,
                    s.start <= off <= s.end,
                    src@.len() == all_locs.len(),
                    src@.len() == srclen,
                    forall|i: int, jj: int|
                        0 <= i < jj < all_locs.len() ==> all_locs[i] != all_locs[jj],
                    forall|i: int|
                        0 <= i < all_locs.len() ==> old(mem).contains_ppn(
                            (#[trigger] all_locs[i]).0,
                        ) && 0 <= all_locs[i].1 < 4096,
                    n == n0 + (off - s.start),
                    n0 + (s.end - s.start) <= all_locs.len(),
                    forall|i: int|
                        n0 <= i < n0 + (s.end - s.start) ==> #[trigger] all_locs[i] == (
                        s.ppn,
                        s.start + (i - n0),
                        ),
                    forall|i: int|
                        0 <= i < n ==> mem.byte((#[trigger] all_locs[i]).0, all_locs[i].1)
                            == src@[i],
                    forall|p: u64, jj: int|
                        old(mem).contains_ppn(p) && 0 <= jj < 4096 && !all_locs.take(
                            n as int,
                        ).contains((p, jj)) ==> mem.byte(p, jj) == old(mem).byte(p, jj),
                    forall|p: u64, k: int|
                        old(mem).contains_ppn(p) && 0 <= k < 512 && (forall|jj: int|
                            0 <= jj < dest@.len() ==> (#[trigger] dest@[jj]).ppn != p)
                            ==> mem.word(p, k) == old(mem).word(p, k),
                decreases s.end - off,
            {
                proof {
                    assert(all_locs[n as int] == (s.ppn, s.start + (n - n0)));
                    assert(s.start + (n - n0) == off as int);
                    assert(n < all_locs.len());
                }
                let b = src[n];
                let ghost mem_pre = *mem;
                mem.write_byte(s.ppn, off, b);
                proof {
                    assert forall|i: int|
                        0 <= i < n + 1 implies mem.byte(
                        (#[trigger] all_locs[i]).0,
                        all_locs[i].1,
                    ) == src@[i] by {
                        if i < n {
                            assert(all_locs[i] != all_locs[n as int]);
                            assert(old(mem).contains_ppn(all_locs[i].0));
                            assert(mem_pre.contains_ppn(all_locs[i].0));
                            assert(mem.byte(all_locs[i].0, all_locs[i].1) == mem_pre.byte(
                                all_locs[i].0,
                                all_locs[i].1,
                            ));
                        }
                    }
                    assert forall|p: u64, jj: int|
                        old(mem).contains_ppn(p) && 0 <= jj < 4096 && !all_locs.take(
                            n + 1,
                        ).contains((p, jj)) implies mem.byte(p, jj) == old(mem).byte(
                        p,
                        jj,
                    ) by {
                        assert(all_locs.take(n + 1)[n as int] == all_locs[n as int]);
                        assert((p, jj) != all_locs[n as int]);
                        if all_locs.take(n as int).contains((p, jj)) {
                            let i = choose|i: int|
                                0 <= i < n && #[trigger] all_locs.take(n as int)[i] == (
                                p,
                                jj,
                                );
                            assert(all_locs.take(n + 1)[i] == (p, jj));
                            assert(false);
                        }
                        assert(mem_pre.byte(p, jj) == old(mem).byte(p, jj));
                    }
                }
                n = n + 1;
                off = off + 1;
            }
            j = j + 1;
            proof {
                assert(slices_locs(dest@.take(j as int)) =~= all_locs.take(n as int));
            }
        }
        proof {
            assert(dest@.take(dest@.len() as int) =~= dest@);
            assert(all_locs.take(all_locs.len() as int) =~= all_locs);
        }
    }


} // verus!
