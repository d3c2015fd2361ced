//! SV39 page table entries and the three-level page table that lives in
//! physical frames.
use super::address::{vpn_index, PhysPageNum, VirtAddr, VirtPageNum, PPN_MASK};
use crate::config::PAGE_SIZE;
use super::flags::PTEFlags;
use super::frame::{
    frame_alloc, FrameAllocatorModel, PhysFrame, PhysMem, StackFrameAllocator, zero_page,
    FRAME_WORDS, PPN_LIMIT,
};
use vstd::prelude::*;

verus! {

/// Entries in one page table frame.
pub const ENTRIES_PER_TABLE: usize = 512;

/// The page number that an entry points to: bits 10..54.
pub open spec fn pte_ppn(bits: u64) -> u64 {
    (bits >> 10u64) & PPN_MASK
}

/// The flag byte of an entry: bits 0..8.
pub open spec fn pte_flags(bits: u64) -> u8 {
    bits as u8
}

/// Whether the V bit of an entry is set.
pub open spec fn pte_valid(bits: u64) -> bool {
    bits & 1u64 != 0
}

/// The entry that points to page `ppn` with flags `f`.
pub open spec fn pte_make(ppn: u64, f: u8) -> u64 {
    (ppn << 10u64) | (f as u64)
}

/// An entry made of a page number below the SV39 limit gives back that page
/// number and those flags; it is valid exactly when the V flag is set.
/// Whatever the page number, an entry is valid exactly when its flags hold V.
pub proof fn lemma_pte_make_valid(ppn: u64, f: u8)
    ensures
        pte_valid(pte_make(ppn, f)) == (f & 1 != 0),
{
    let fw = f as u64;
    crate::bits::lemma_pte_bits();
    assert((((ppn << 10u64) | fw) & 1u64 != 0) == (fw & 1u64 != 0));
    assert((fw & 1u64 != 0) == (f & 1u8 != 0));
}

pub proof fn lemma_pte_make(ppn: u64, f: u8)
    requires
        ppn < PPN_LIMIT,
    ensures
        pte_ppn(pte_make(ppn, f)) == ppn,
        pte_flags(pte_make(ppn, f)) == f,
        pte_valid(pte_make(ppn, f)) == (f & 1 != 0),
{
    let fw = f as u64;
    assert(fw < 256);
    crate::bits::lemma_pte_bits();
    assert((((ppn << 10u64) | fw) >> 10u64) & 0x0000_0fff_ffff_ffffu64 == ppn);
    assert(((ppn << 10u64) | fw) as u8 == fw as u8);
    assert((((ppn << 10u64) | fw) & 1u64 != 0) == (fw & 1u64 != 0));
    assert((fw & 1u64 != 0) == (f & 1u8 != 0));
}

/// A cleared word is an invalid entry.
pub proof fn lemma_zero_invalid()
    ensures
        !pte_valid(0u64),
        pte_ppn(0u64) == 0,
{
    crate::bits::lemma_bit_constants();
}

/// One entry of a page table: a page number and its flags.
#[derive(Copy, Clone)]
pub struct PageTableEntry {
    pub bits: u64,
}

impl PageTableEntry {
    /// The entry that points to `ppn` with `flags`.
    pub fn new(ppn: PhysPageNum, flags: PTEFlags) -> (r: Self)
        ensures
            r.bits == pte_make(ppn.0, flags@),
    {
        PageTableEntry { bits: (ppn.0 << 10u64) | (flags.bits() as u64) }
    }

    /// The entry with nothing set; its V flag is clear.
    pub fn empty() -> (r: Self)
        ensures
            r.bits == 0,
            !pte_valid(r.bits),
    {
        proof {
            lemma_zero_invalid();
        }
        PageTableEntry { bits: 0 }
    }

    /// The page number that the entry points to.
    pub fn ppn(&self) -> (r: PhysPageNum)
        ensures
            r.0 == pte_ppn(self.bits),
    {
        let b = self.bits;
        let v = (b >> 10u64) & PPN_MASK;
        proof {
            crate::bits::lemma_u64_masks();
            assert(v & 0x0000_0fff_ffff_ffffu64 == v % 0x1000_0000_0000);
        }
        PhysPageNum::from(v)
    }

    /// The flags of the entry.
    pub fn flags(&self) -> (r: PTEFlags)
        ensures
            r@ == pte_flags(self.bits),
    {
        match PTEFlags::from_bits(self.bits as u8) {
            Some(f) => f,
            None => PTEFlags::empty(),
        }
    }

    /// Whether the entry is valid.
    pub fn valid(&self) -> (r: bool)
        ensures
            r == pte_valid(self.bits),
    {
        let b = self.bits;
        proof {
            crate::bits::lemma_low_byte_flags();
        }
        assert(((b as u8) & 1u8 != 0) == (b & 1u64 != 0));
        !self.flags().intersection(PTEFlags::V()).is_empty()
    }

    /// Whether the page may be read.
    pub fn readable(&self) -> (r: bool)
        ensures
            r == (self.bits & 2u64 != 0),
    {
        let b = self.bits;
        proof {
            crate::bits::lemma_low_byte_flags();
        }
        assert(((b as u8) & 2u8 != 0) == (b & 2u64 != 0));
        !self.flags().intersection(PTEFlags::R()).is_empty()
    }

    /// Whether the page may be written.
    pub fn writable(&self) -> (r: bool)
        ensures
            r == (self.bits & 4u64 != 0),
    {
        let b = self.bits;
        proof {
            crate::bits::lemma_low_byte_flags();
        }
        assert(((b as u8) & 4u8 != 0) == (b & 4u64 != 0));
        !self.flags().intersection(PTEFlags::W()).is_empty()
    }

    /// Whether the page may be executed.
    pub fn executable(&self) -> (r: bool)
        ensures
            r == (self.bits & 8u64 != 0),
    {
        let b = self.bits;
        proof {
            crate::bits::lemma_low_byte_flags();
        }
        assert(((b as u8) & 8u8 != 0) == (b & 8u64 != 0));
        !self.flags().intersection(PTEFlags::X()).is_empty()
    }
}

/// Frame `p` is present and is a table of 512 entries.
pub open spec fn table_ok(mem: Map<u64, Seq<u64>>, p: u64) -> bool {
    mem.contains_key(p) && mem[p].len() == ENTRIES_PER_TABLE
}

/// Entry `i` of frame `p` can be read.
pub open spec fn readable_at(mem: Map<u64, Seq<u64>>, p: u64, i: usize) -> bool {
    mem.contains_key(p) && i < mem[p].len()
}

/// Where the walk from `root` puts the last-level entry of `vpn`: the frame
/// and the index. There is none when an upper-level entry is invalid or a
/// frame on the way is missing.
pub open spec fn leaf_location(mem: Map<u64, Seq<u64>>, root: u64, vpn: u64) -> Option<(u64, usize)> {
    let i0 = vpn_index(vpn, 0);
    let i1 = vpn_index(vpn, 1);
    let i2 = vpn_index(vpn, 2);
    if !readable_at(mem, root, i0) {
        None
    } else if !pte_valid(mem[root][i0 as int]) {
        None
    } else {
        let p1 = pte_ppn(mem[root][i0 as int]);
        if !readable_at(mem, p1, i1) {
            None
        } else if !pte_valid(mem[p1][i1 as int]) {
            None
        } else {
            let p2 = pte_ppn(mem[p1][i1 as int]);
            if !readable_at(mem, p2, i2) {
                None
            } else {
                Some((p2, i2))
            }
        }
    }
}

/// The last-level entry of `vpn` under `root`, valid or not.
pub open spec fn walk(mem: Map<u64, Seq<u64>>, root: u64, vpn: u64) -> Option<u64> {
    match leaf_location(mem, root, vpn) {
        Some((p, i)) => Some(mem[p][i as int]),
        None => None,
    }
}

/// `vpn` is mapped: its last-level entry exists and is valid.
pub open spec fn is_mapped(mem: Map<u64, Seq<u64>>, root: u64, vpn: u64) -> bool {
    walk(mem, root, vpn) matches Some(e) && pte_valid(e)
}

/// The translation of `vpn`: the page it maps to, when it is mapped.
pub open spec fn translation(mem: Map<u64, Seq<u64>>, root: u64, vpn: u64) -> Option<u64> {
    match walk(mem, root, vpn) {
        Some(e) => if pte_valid(e) { Some(pte_ppn(e)) } else { None },
        None => None,
    }
}

/// How many table frames mapping `vpn` would have to add.
pub open spec fn tables_needed(mem: Map<u64, Seq<u64>>, root: u64, vpn: u64) -> int {
    let i0 = vpn_index(vpn, 0);
    let i1 = vpn_index(vpn, 1);
    if !pte_valid(mem[root][i0 as int]) {
        2
    } else if !pte_valid(mem[pte_ppn(mem[root][i0 as int])][i1 as int]) {
        1
    } else {
        0
    }
}

/// The frames of `lv` form a tree of three levels under `root`: every frame
/// is a present table, every valid entry of an upper level points to a table
/// of the next level, and no two valid upper-level entries point to the same
/// frame.
pub open spec fn tree_ok(lv: Map<u64, nat>, mem: Map<u64, Seq<u64>>, root: u64) -> bool {
    &&& lv.contains_key(root)
    &&& lv[root] == 0
    &&& forall|p: u64| #[trigger] lv.contains_key(p) ==> table_ok(mem, p) && lv[p] <= 2
    &&& forall|p: u64, i: int|
        #![trigger mem[p][i], lv.contains_key(p)]
        lv.contains_key(p) && lv[p] < 2 && 0 <= i < ENTRIES_PER_TABLE && pte_valid(mem[p][i])
            ==> lv.contains_key(pte_ppn(mem[p][i])) && lv[pte_ppn(mem[p][i])] == lv[p] + 1
    &&& forall|p: u64, i: int, q: u64, j: int|
        #![trigger mem[p][i], mem[q][j], lv.contains_key(p), lv.contains_key(q)]
        lv.contains_key(p) && lv[p] < 2 && 0 <= i < ENTRIES_PER_TABLE && pte_valid(mem[p][i])
            && lv.contains_key(q) && lv[q] < 2 && 0 <= j < ENTRIES_PER_TABLE && pte_valid(mem[q][j])
            && pte_ppn(mem[p][i]) == pte_ppn(mem[q][j]) ==> p == q && i == j
}

/// A page table and its view of memory, before and after adding an empty
/// table at level `k + 1` in fresh frame `t`, linked from entry `i` of the
/// level-`k` table `p`.
pub open spec fn with_new_table(mem: Map<u64, Seq<u64>>, p: u64, i: int, t: u64) -> Map<u64, Seq<u64>> {
    let m1 = mem.insert(t, zero_page());
    m1.insert(p, m1[p].update(i, pte_make(t, 1)))
}

/// Every index of a page number is below 512.
pub proof fn lemma_vpn_index_bound(v: u64)
    ensures
        vpn_index(v, 0) < 512,
        vpn_index(v, 1) < 512,
        vpn_index(v, 2) < 512,
{
    crate::bits::lemma_u64_masks();
    assert((v >> 18u64) & 0x1ffu64 < 512);
    assert((v >> 9u64) & 0x1ffu64 < 512);
    assert(v & 0x1ffu64 < 512);
}

/// Adding an empty table keeps the tree well formed and changes no
/// translation.
pub proof fn lemma_add_table(lv: Map<u64, nat>, mem: Map<u64, Seq<u64>>, root: u64, p: u64, i: int, t: u64)
    requires
        tree_ok(lv, mem, root),
        lv.contains_key(p),
        lv[p] < 2,
        0 <= i < ENTRIES_PER_TABLE,
        !pte_valid(mem[p][i]),
        !lv.contains_key(t),
        t < PPN_LIMIT,
    ensures
        tree_ok(lv.insert(t, lv[p] + 1), with_new_table(mem, p, i, t), root),
        forall|v: u64| #[trigger] translation(with_new_table(mem, p, i, t), root, v) == translation(mem, root, v),
        forall|v: u64| is_mapped(mem, root, v) ==> #[trigger] walk(with_new_table(mem, p, i, t), root, v) == walk(mem, root, v),
{
    let m1 = mem.insert(t, zero_page());
    let m2 = with_new_table(mem, p, i, t);
    let lv2 = lv.insert(t, lv[p] + 1);
    lemma_pte_make(t, 1);
    lemma_zero_invalid();
    crate::bits::lemma_bit_constants();
    assert(p != t);
    assert forall|x: u64| #[trigger] lv2.contains_key(x) implies table_ok(m2, x) && lv2[x] <= 2 by {
        if x != t && x != p {
            assert(m2[x] == mem[x]);
        }
    }
    assert forall|x: u64, k: int|
        #![trigger m2[x][k], lv2.contains_key(x)]
        lv2.contains_key(x) && lv2[x] < 2 && 0 <= k < ENTRIES_PER_TABLE && pte_valid(m2[x][k])
        implies lv2.contains_key(pte_ppn(m2[x][k])) && lv2[pte_ppn(m2[x][k])] == lv2[x] + 1 by {
        if x == t {
            assert(m2[x][k] == 0u64);
        } else if x == p && k == i {
        } else {
            assert(m2[x][k] == mem[x][k]);
            assert(lv.contains_key(pte_ppn(mem[x][k])));
        }
    }
    assert forall|x: u64, k: int, y: u64, l: int|
        #![trigger m2[x][k], m2[y][l], lv2.contains_key(x), lv2.contains_key(y)]
        lv2.contains_key(x) && lv2[x] < 2 && 0 <= k < ENTRIES_PER_TABLE && pte_valid(m2[x][k])
            && lv2.contains_key(y) && lv2[y] < 2 && 0 <= l < ENTRIES_PER_TABLE && pte_valid(m2[y][l])
            && pte_ppn(m2[x][k]) == pte_ppn(m2[y][l]) implies x == y && k == l by {
        if x == t {
            assert(m2[x][k] == 0u64);
        }
        if y == t {
            assert(m2[y][l] == 0u64);
        }
        if x != t && y != t {
            let xe = !(x == p && k == i);
            let ye = !(y == p && l == i);
            if xe {
                assert(m2[x][k] == mem[x][k]);
                assert(lv.contains_key(pte_ppn(mem[x][k])));
            }
            if ye {
                assert(m2[y][l] == mem[y][l]);
                assert(lv.contains_key(pte_ppn(mem[y][l])));
            }
        }
    }
    assert forall|v: u64| #[trigger] translation(m2, root, v) == translation(mem, root, v)
        && (is_mapped(mem, root, v) ==> walk(m2, root, v) == walk(mem, root, v)) by {
        lemma_vpn_index_bound(v);
        let i0 = vpn_index(v, 0) as int;
        let i1 = vpn_index(v, 1) as int;
        let i2 = vpn_index(v, 2) as int;
        assert(root != t);
        if root == p && i0 == i {
            assert(m2[root][i0] == pte_make(t, 1));
            assert(m2[t][i1] == 0u64);
        } else {
            assert(m2[root][i0] == mem[root][i0]);
            if pte_valid(mem[root][i0]) {
                let p1 = pte_ppn(mem[root][i0]);
                assert(lv.contains_key(p1));
                assert(p1 != t);
                if p1 == p && i1 == i {
                    assert(m2[p1][i1] == pte_make(t, 1));
                    assert(m2[t][i2] == 0u64);
                } else {
                    assert(m2[p1][i1] == mem[p1][i1]);
                    if pte_valid(mem[p1][i1]) {
                        let p2 = pte_ppn(mem[p1][i1]);
                        assert(lv.contains_key(p2));
                        assert(lv[p2] == 2);
                        assert(p2 != t);
                        assert(p2 != p);
                        assert(m2[p2] == mem[p2]);
                    }
                }
            }
        }
    }
}

/// Writing a last-level entry keeps the tree well formed; a translation
/// changes only when its walk ends at the written entry.
pub proof fn lemma_write_leaf(lv: Map<u64, nat>, mem: Map<u64, Seq<u64>>, root: u64, p: u64, i: int, w: u64)
    requires
        tree_ok(lv, mem, root),
        lv.contains_key(p),
        lv[p] == 2,
        0 <= i < ENTRIES_PER_TABLE,
    ensures
        tree_ok(lv, mem.insert(p, mem[p].update(i, w)), root),
        forall|v: u64| leaf_location(mem, root, v) != Some((p, i as usize))
            ==> #[trigger] walk(mem.insert(p, mem[p].update(i, w)), root, v) == walk(mem, root, v),
        forall|v: u64| leaf_location(mem, root, v) == Some((p, i as usize))
            ==> #[trigger] walk(mem.insert(p, mem[p].update(i, w)), root, v) == Some(w),
{
    let m2 = mem.insert(p, mem[p].update(i, w));
    assert forall|x: u64| #[trigger] lv.contains_key(x) implies table_ok(m2, x) && lv[x] <= 2 by {
        if x != p {
            assert(m2[x] == mem[x]);
        }
    }
    assert forall|x: u64, k: int|
        #![trigger m2[x][k], lv.contains_key(x)]
        lv.contains_key(x) && lv[x] < 2 && 0 <= k < ENTRIES_PER_TABLE && pte_valid(m2[x][k])
        implies lv.contains_key(pte_ppn(m2[x][k])) && lv[pte_ppn(m2[x][k])] == lv[x] + 1 by {
        assert(x != p);
        assert(m2[x][k] == mem[x][k]);
    }
    assert forall|x: u64, k: int, y: u64, l: int|
        #![trigger m2[x][k], m2[y][l], lv.contains_key(x), lv.contains_key(y)]
        lv.contains_key(x) && lv[x] < 2 && 0 <= k < ENTRIES_PER_TABLE && pte_valid(m2[x][k])
            && lv.contains_key(y) && lv[y] < 2 && 0 <= l < ENTRIES_PER_TABLE && pte_valid(m2[y][l])
            && pte_ppn(m2[x][k]) == pte_ppn(m2[y][l]) implies x == y && k == l by {
        assert(m2[x][k] == mem[x][k]);
        assert(m2[y][l] == mem[y][l]);
    }
    assert forall|v: u64| leaf_location(mem, root, v) != Some((p, i as usize))
        implies #[trigger] walk(m2, root, v) == walk(mem, root, v) by {
        lemma_vpn_index_bound(v);
        let i0 = vpn_index(v, 0) as int;
        let i1 = vpn_index(v, 1) as int;
        assert(lv[root] == 0);
        assert(m2[root] == mem[root]);
        if pte_valid(mem[root][i0]) {
            let p1 = pte_ppn(mem[root][i0]);
            assert(lv[p1] == 1);
            assert(m2[p1] == mem[p1]);
            if pte_valid(mem[p1][i1]) {
                let p2 = pte_ppn(mem[p1][i1]);
                assert(lv[p2] == 2);
                if p2 != p {
                    assert(m2[p2] == mem[p2]);
                }
            }
        }
    }
    assert forall|v: u64| leaf_location(mem, root, v) == Some((p, i as usize))
        implies #[trigger] walk(m2, root, v) == Some(w) by {
        lemma_vpn_index_bound(v);
        let i0 = vpn_index(v, 0) as int;
        let i1 = vpn_index(v, 1) as int;
        assert(m2[root] == mem[root]);
        let p1 = pte_ppn(mem[root][i0]);
        assert(lv[p1] == 1);
        assert(m2[p1] == mem[p1]);
    }
}

/// `v` and `w` select the same entry at every level.
pub open spec fn same_indexes(v: u64, w: u64) -> bool {
    &&& vpn_index(v, 0) == vpn_index(w, 0)
    &&& vpn_index(v, 1) == vpn_index(w, 1)
    &&& vpn_index(v, 2) == vpn_index(w, 2)
}

/// In a tree, two walks that end at the same entry took the same indexes.
pub proof fn lemma_leaf_unique(lv: Map<u64, nat>, mem: Map<u64, Seq<u64>>, root: u64, v: u64, w: u64)
    requires
        tree_ok(lv, mem, root),
        leaf_location(mem, root, v) is Some,
        leaf_location(mem, root, v) == leaf_location(mem, root, w),
    ensures
        same_indexes(v, w),
{
    lemma_vpn_index_bound(v);
    lemma_vpn_index_bound(w);
    let i0 = vpn_index(v, 0) as int;
    let i1 = vpn_index(v, 1) as int;
    let j0 = vpn_index(w, 0) as int;
    let j1 = vpn_index(w, 1) as int;
    let p1 = pte_ppn(mem[root][i0]);
    let q1 = pte_ppn(mem[root][j0]);
    assert(lv.contains_key(p1) && lv[p1] == 1);
    assert(lv.contains_key(q1) && lv[q1] == 1);
    assert(pte_ppn(mem[p1][i1]) == pte_ppn(mem[q1][j1]));
    assert(p1 == q1 && i1 == j1);
    assert(i0 == j0);
}

/// A multi-level page table: the frame of its root, and every frame that it
/// took for its tables.
pub struct PageTable {
    root_ppn: PhysPageNum,
    frames: Vec<PhysFrame>,
    levels: Ghost<Map<u64, nat>>,
}

impl PageTable {
    /// The frame of the root table.
    pub closed spec fn root(&self) -> u64 {
        self.root_ppn.0
    }

    /// The frames that the table owns, in the order it took them.
    pub closed spec fn owned_frames(&self) -> Seq<u64> {
        self.frames@.map_values(|f: PhysFrame| f.ppn.0)
    }

    /// The level of every table frame: 0 for the root, 2 for the last level.
    pub closed spec fn levels(&self) -> Map<u64, nat> {
        self.levels@
    }

    /// The table frames form a tree of three levels (see `tree_ok`).
    pub closed spec fn tree_wf(&self, mem: Map<u64, Seq<u64>>) -> bool {
        tree_ok(self.levels@, mem, self.root_ppn.0)
    }

    /// The frames that the table owns are exactly its table frames, each
    /// once, and the allocator counts each as handed out.
    pub closed spec fn frames_wf(&self, fa: FrameAllocatorModel) -> bool {
        let lv = self.levels@;
        let fs = self.owned_frames();
        &&& fs.no_duplicates()
        &&& forall|i: int| 0 <= i < fs.len() ==> lv.contains_key(#[trigger] fs[i])
        &&& forall|p: u64| #[trigger] lv.contains_key(p) ==> fs.contains(p)
        &&& forall|p: u64| #[trigger] lv.contains_key(p) ==> fa.is_allocated(p)
    }

    /// The table is well formed in memory `mem` under allocator state `fa`.
    pub open spec fn wf(&self, mem: Map<u64, Seq<u64>>, fa: FrameAllocatorModel) -> bool {
        self.tree_wf(mem) && self.frames_wf(fa)
    }

    /// The frames of the table stay well accounted for under another state
    /// of the allocator that still counts each of them as handed out.
    pub proof fn lemma_frames_wf_moves(&self, fa0: FrameAllocatorModel, fa1: FrameAllocatorModel)
        requires
            self.frames_wf(fa0),
            forall|p: u64| #[trigger] self.levels().contains_key(p) ==> fa1.is_allocated(p),
        ensures
            self.frames_wf(fa1),
    {
        assert forall|p: u64| #[trigger] self.levels@.contains_key(p) implies fa1.is_allocated(p) by {
            assert(self.levels().contains_key(p));
        }
    }

    /// Every table frame is handed out.
    pub proof fn lemma_levels_allocated(&self, fa: FrameAllocatorModel)
        requires
            self.frames_wf(fa),
        ensures
            forall|p: u64| #[trigger] self.levels().contains_key(p) ==> fa.is_allocated(p),
    {
    }

    /// Gives every frame of the table back to the allocator: the table is
    /// gone. Frames that are not the table's keep their state.
    pub fn release(self, allocator: &mut StackFrameAllocator)
        requires
            self.frames_wf(old(allocator)@),
            old(allocator)@.wf(),
        ensures
            final(allocator)@.wf(),
            forall|p: u64| #[trigger] self.levels().contains_key(p) ==> !final(allocator)@.is_allocated(p),
            forall|q: u64| !self.levels().contains_key(q) ==> #[trigger] final(allocator)@.is_allocated(q)
                == old(allocator)@.is_allocated(q),
    {
        let ghost fs = self.owned_frames();
        let ghost lv = self.levels();
        let ghost fa0 = allocator@;
        let mut i: usize = 0;
        while i < self.frames.len()
            invariant
                fs == self.owned_frames(),
                lv == self.levels(),
                fs.len() == self.frames@.len(),
                self.frames_wf(fa0),
                i <= fs.len(),
                allocator@.wf(),
                forall|k: int| 0 <= k < i ==> !allocator@.is_allocated(#[trigger] fs[k]),
                forall|k: int| i <= k < fs.len() ==> allocator@.is_allocated(#[trigger] fs[k]),
                forall|q: u64| !fs.contains(q) ==> #[trigger] allocator@.is_allocated(q) == fa0.is_allocated(q),
            decreases fs.len() - i,
        {
            let f = self.frames[i].ppn;
            let ghost fap = allocator@;
            proof {
                assert(fs[i as int] == f.0);
            }
            allocator.dealloc(f);
            proof {
                assert forall|k: int| 0 <= k < i + 1 implies !allocator@.is_allocated(#[trigger] fs[k]) by {
                    if k < i {
                        assert(fs[k] != fs[i as int]);
                        super::frame::lemma_dealloc_other(fap, f.0, fs[k]);
                    } else {
                        assert(fap.dealloc(f.0).recycled[fap.recycled.len() as int] == f.0);
                        assert(fap.dealloc(f.0).recycled.contains(f.0));
                    }
                }
                assert forall|k: int| i + 1 <= k < fs.len() implies allocator@.is_allocated(#[trigger] fs[k]) by {
                    assert(fs[k] != fs[i as int]);
                    super::frame::lemma_dealloc_other(fap, f.0, fs[k]);
                }
                assert forall|q: u64| !fs.contains(q) implies #[trigger] allocator@.is_allocated(q) == fa0.is_allocated(q) by {
                    assert(q != fs[i as int]);
                    super::frame::lemma_dealloc_other(fap, f.0, q);
                }
            }
            i = i + 1;
        }
        proof {
            assert forall|p: u64| #[trigger] lv.contains_key(p) implies !allocator@.is_allocated(p) by {
                assert(fs.contains(p));
                let k = choose|k: int| 0 <= k < fs.len() && fs[k] == p;
                assert(!allocator@.is_allocated(fs[k]));
            }
            assert forall|q: u64| !lv.contains_key(q) implies #[trigger] allocator@.is_allocated(q) == fa0.is_allocated(q) by {
                if fs.contains(q) {
                    let k = choose|k: int| 0 <= k < fs.len() && fs[k] == q;
                    assert(lv.contains_key(fs[k]));
                }
            }
        }
    }

    /// A table with an empty root, in a freshly taken frame.
    pub fn new(mem: &mut PhysMem, allocator: &mut StackFrameAllocator) -> (r: Self)
        requires
            old(allocator)@.wf(),
            old(allocator)@.free_count() >= 1,
        ensures
            final(allocator)@ == old(allocator)@.allocate().0,
            final(allocator)@.wf(),
            old(allocator)@.allocate().1 == Some(r.root()),
            final(mem).view() == old(mem).view().insert(r.root(), zero_page()),
            r.owned_frames() == seq![r.root()],
            forall|q: u64| #[trigger] r.levels().contains_key(q) ==> q == r.root(),
            r.wf(final(mem).view(), final(allocator)@),
            forall|v: u64| walk(final(mem).view(), r.root(), v) is None,
    {
        proof {
            super::frame::lemma_alloc_takes_a_free_frame(old(allocator)@);
        }
        let frame = frame_alloc(allocator, mem).unwrap();
        let root_ppn = frame.ppn;
        let mut frames: Vec<PhysFrame> = Vec::new();
        frames.push(frame);
        let pt = PageTable {
            root_ppn,
            frames,
            levels: Ghost(Map::<u64, nat>::empty().insert(root_ppn.0, 0nat)),
        };
        proof {
            lemma_zero_invalid();
            let m = mem.view();
            assert(pt.owned_frames() =~= seq![root_ppn.0]);
            assert(pt.owned_frames()[0] == root_ppn.0);
            assert(table_ok(m, root_ppn.0));
            assert(forall|i: int| 0 <= i < ENTRIES_PER_TABLE ==> m[root_ppn.0][i] == 0u64);
            assert(pt.tree_wf(m));
            assert(allocator@.is_allocated(root_ppn.0));
            assert(pt.frames_wf(allocator@));
            assert forall|v: u64| walk(m, root_ppn.0, v) is None by {
                let i0 = vpn_index(v, 0);
                super::address::lemma_masks_are_remainders(v);
                assert(vpn_index(v, 0) < 512) by {
                    let x = v >> 18u64;
                    crate::bits::lemma_u64_masks();
                    assert(x & 0x1ffu64 < 512);
                }
                assert(m[root_ppn.0][i0 as int] == 0);
            }
        }
        pt
    }

    /// Links an empty table, in a freshly taken frame, from the invalid entry
    /// `i` of table `p`; returns the new frame.
    fn add_table(&mut self, mem: &mut PhysMem, allocator: &mut StackFrameAllocator, p: u64, i: usize) -> (t: u64)
        requires
            old(self).wf(old(mem).view(), old(allocator)@),
            old(allocator)@.wf(),
            old(allocator)@.free_count() >= 1,
            old(self).levels().contains_key(p),
            old(self).levels()[p] < 2,
            i < ENTRIES_PER_TABLE,
            !pte_valid(old(mem).view()[p][i as int]),
        ensures
            final(self).wf(final(mem).view(), final(allocator)@),
            final(allocator)@.wf(),
            final(allocator)@ == old(allocator)@.allocate().0,
            old(allocator)@.allocate().1 == Some(t),
            final(self).root() == old(self).root(),
            final(self).levels() == old(self).levels().insert(t, old(self).levels()[p] + 1),
            !old(self).levels().contains_key(t),
            final(mem).view() == with_new_table(old(mem).view(), p, i as int, t),
            forall|v: u64| #[trigger] translation(final(mem).view(), final(self).root(), v)
                == translation(old(mem).view(), old(self).root(), v),
            forall|v: u64| is_mapped(old(mem).view(), old(self).root(), v) ==> #[trigger] walk(final(mem).view(), final(self).root(), v)
                == walk(old(mem).view(), old(self).root(), v),
    {
        proof {
            super::frame::lemma_alloc_takes_a_free_frame(old(allocator)@);
        }
        let frame = frame_alloc(allocator, mem).unwrap();
        let t = frame.ppn.0;
        let ghost m1 = mem.view();
        proof {
            assert(!old(self).levels().contains_key(t));
            assert(p != t);
            assert(m1[p] == old(mem).view()[p]);
        }
        let entry = PageTableEntry::new(frame.ppn, PTEFlags::V());
        mem.write_word(p, i, entry.bits);
        let ghost old_frames = self.owned_frames();
        self.frames.push(frame);
        proof {
            let lv = old(self).levels();
            self.levels@ = lv.insert(t, lv[p] + 1);
            assert(mem.view() =~= with_new_table(old(mem).view(), p, i as int, t));
            lemma_add_table(lv, old(mem).view(), self.root_ppn.0, p, i as int, t);
            let fs = self.owned_frames();
            assert(fs =~= old_frames.push(t));
            assert(!old_frames.contains(t));
            assert forall|a: int, b: int| 0 <= a < b < fs.len() implies fs[a] != fs[b] by {
                if b == old_frames.len() {
                    assert(fs[a] == old_frames[a]);
                }
            }
            assert forall|x: u64| #[trigger] self.levels@.contains_key(x) implies fs.contains(x) by {
                if x == t {
                    assert(fs[old_frames.len() as int] == t);
                } else {
                    assert(old_frames.contains(x));
                    let k = choose|k: int| 0 <= k < old_frames.len() && old_frames[k] == x;
                    assert(fs[k] == x);
                }
            }
            assert(self.frames_wf(allocator@));
        }
        t
    }

    /// Finds the location of the last-level entry of `vpn`, linking empty
    /// tables on the way where entries are invalid.
    fn find_pte_create(
        &mut self,
        mem: &mut PhysMem,
        allocator: &mut StackFrameAllocator,
        vpn: VirtPageNum,
    ) -> (r: (u64, usize))
        requires
            old(self).wf(old(mem).view(), old(allocator)@),
            old(allocator)@.wf(),
            old(allocator)@.free_count() >= tables_needed(old(mem).view(), old(self).root(), vpn.0),
        ensures
            final(self).wf(final(mem).view(), final(allocator)@),
            final(allocator)@.wf(),
            final(self).root() == old(self).root(),
            final(self).levels().contains_key(r.0),
            final(self).levels()[r.0] == 2,
            r.1 < ENTRIES_PER_TABLE,
            leaf_location(final(mem).view(), final(self).root(), vpn.0) == Some(r),
            walk(old(mem).view(), old(self).root(), vpn.0) matches Some(e) ==> final(mem).view()[r.0][r.1 as int] == e,
            forall|v: u64| #[trigger] translation(final(mem).view(), final(self).root(), v)
                == translation(old(mem).view(), old(self).root(), v),
            forall|v: u64| is_mapped(old(mem).view(), old(self).root(), v) ==> #[trigger] walk(final(mem).view(), final(self).root(), v)
                == walk(old(mem).view(), old(self).root(), v),
            final(allocator)@.free_count() == old(allocator)@.free_count() - tables_needed(old(mem).view(), old(self).root(), vpn.0),
            forall|q: u64| old(allocator)@.is_allocated(q) ==> #[trigger] final(allocator)@.is_allocated(q),
            forall|q: u64| #[trigger] old(self).levels().contains_key(q) ==> final(self).levels().contains_key(q)
                && final(self).levels()[q] == old(self).levels()[q],
            forall|q: u64| #[trigger] final(self).levels().contains_key(q) ==> old(self).levels().contains_key(q)
                || !old(allocator)@.is_allocated(q),
            forall|q: u64| old(allocator)@.is_allocated(q) && !#[trigger] old(self).levels().contains_key(q)
                ==> final(mem).view().contains_key(q) == old(mem).view().contains_key(q)
                && final(mem).view()[q] == old(mem).view()[q],
    {
        let idxs = vpn.indexes();
        let root = self.root_ppn.0;
        proof {
            lemma_vpn_index_bound(vpn.0);
            super::frame::lemma_alloc_takes_a_free_frame(old(allocator)@);
        }
        let e0 = PageTableEntry { bits: mem.read_word(root, idxs[0]).unwrap() };
        let p1 = if !e0.valid() {
            self.add_table(mem, allocator, root, idxs[0])
        } else {
            e0.ppn().0
        };
        let ghost mid_mem = mem.view();
        let ghost mid_alloc = allocator@;
        let ghost mid_lv = self.levels();
        proof {
            lemma_pte_make(p1, 1);
            crate::bits::lemma_bit_constants();
            assert(mem.view()[root][idxs[0] as int] == pte_make(p1, 1) || mem.view()[root][idxs[0] as int] == old(mem).view()[root][idxs[0] as int]);
            assert(self.levels().contains_key(p1) && self.levels()[p1] == 1);
            super::frame::lemma_alloc_takes_a_free_frame(allocator@);
        }
        let e1 = PageTableEntry { bits: mem.read_word(p1, idxs[1]).unwrap() };
        let p2 = if !e1.valid() {
            self.add_table(mem, allocator, p1, idxs[1])
        } else {
            e1.ppn().0
        };
        proof {
            lemma_pte_make(p2, 1);
            lemma_zero_invalid();
            assert(self.levels().contains_key(p2) && self.levels()[p2] == 2);
        }
        (p2, idxs[2])
    }

    /// Maps `vpn` to frame `ppn` with `flags` and V; `vpn` must not be
    /// mapped yet, and the allocator must hold a frame for every table that
    /// is missing on the way.
    pub fn map(
        &mut self,
        mem: &mut PhysMem,
        allocator: &mut StackFrameAllocator,
        vpn: VirtPageNum,
        ppn: PhysPageNum,
        flags: PTEFlags,
    )
        requires
            old(self).wf(old(mem).view(), old(allocator)@),
            old(allocator)@.wf(),
            old(allocator)@.free_count() >= tables_needed(old(mem).view(), old(self).root(), vpn.0),
            !is_mapped(old(mem).view(), old(self).root(), vpn.0),
        ensures
            final(self).wf(final(mem).view(), final(allocator)@),
            final(allocator)@.wf(),
            final(self).root() == old(self).root(),
            walk(final(mem).view(), final(self).root(), vpn.0) == Some(pte_make(ppn.0, flags@ | 1u8)),
            ppn.0 < PPN_LIMIT ==> translation(final(mem).view(), final(self).root(), vpn.0) == Some(ppn.0),
            forall|v: u64| !same_indexes(v, vpn.0) ==> #[trigger] translation(final(mem).view(), final(self).root(), v)
                == translation(old(mem).view(), old(self).root(), v),
            forall|v: u64| !same_indexes(v, vpn.0) && is_mapped(old(mem).view(), old(self).root(), v)
                ==> #[trigger] walk(final(mem).view(), final(self).root(), v) == walk(old(mem).view(), old(self).root(), v),
            final(allocator)@.free_count() == old(allocator)@.free_count() - tables_needed(old(mem).view(), old(self).root(), vpn.0),
            forall|q: u64| old(allocator)@.is_allocated(q) ==> #[trigger] final(allocator)@.is_allocated(q),
            forall|q: u64| old(allocator)@.is_allocated(q) && !#[trigger] old(self).levels().contains_key(q)
                ==> final(mem).view().contains_key(q) == old(mem).view().contains_key(q)
                && final(mem).view()[q] == old(mem).view()[q],
            forall|q: u64| #[trigger] old(self).levels().contains_key(q) ==> final(self).levels().contains_key(q),
            forall|q: u64| #[trigger] final(self).levels().contains_key(q) ==> old(self).levels().contains_key(q)
                || !old(allocator)@.is_allocated(q),
    {
        let (p, i) = self.find_pte_create(mem, allocator, vpn);
        let ghost m1 = mem.view();
        let entry = PageTableEntry::new(ppn, flags.union(PTEFlags::V()));
        mem.write_word(p, i, entry.bits);
        proof {
            lemma_write_leaf(self.levels(), m1, self.root(), p, i as int, entry.bits);
            assert(mem.view() == m1.insert(p, m1[p].update(i as int, entry.bits)));
            let fb = flags@;
            let f = (fb | 1u8);
            crate::bits::lemma_u8_bits();
            assert(f & 1u8 != 0);
            if ppn.0 < PPN_LIMIT {
                lemma_pte_make(ppn.0, f);
            }
            assert forall|v: u64| !same_indexes(v, vpn.0) implies #[trigger] translation(mem.view(), self.root(), v)
                == translation(old(mem).view(), old(self).root(), v) by {
                if leaf_location(m1, self.root(), v) == Some((p, i)) {
                    lemma_leaf_unique(self.levels(), m1, self.root(), v, vpn.0);
                }
                assert(translation(m1, self.root(), v) == translation(old(mem).view(), old(self).root(), v));
            }
            assert forall|v: u64| !same_indexes(v, vpn.0) && is_mapped(old(mem).view(), old(self).root(), v)
                implies #[trigger] walk(mem.view(), self.root(), v) == walk(old(mem).view(), old(self).root(), v) by {
                if leaf_location(m1, self.root(), v) == Some((p, i)) {
                    lemma_leaf_unique(self.levels(), m1, self.root(), v, vpn.0);
                }
                assert(walk(m1, self.root(), v) == walk(old(mem).view(), old(self).root(), v));
            }
            assert forall|q: u64| old(allocator)@.is_allocated(q) && !#[trigger] old(self).levels().contains_key(q)
                implies mem.view().contains_key(q) == old(mem).view().contains_key(q)
                && mem.view()[q] == old(mem).view()[q] by {
                assert(self.levels().contains_key(p));
                assert(q != p);
            }
        }
    }

    /// Removes the mapping of `vpn`, which must be mapped.
    pub fn unmap(&mut self, mem: &mut PhysMem, vpn: VirtPageNum)
        requires
            old(self).tree_wf(old(mem).view()),
            is_mapped(old(mem).view(), old(self).root(), vpn.0),
        ensures
            final(self).tree_wf(final(mem).view()),
            *final(self) == *old(self),
            walk(final(mem).view(), final(self).root(), vpn.0) == Some(0u64),
            translation(final(mem).view(), final(self).root(), vpn.0) is None,
            forall|v: u64| !same_indexes(v, vpn.0) ==> #[trigger] translation(final(mem).view(), final(self).root(), v)
                == translation(old(mem).view(), old(self).root(), v),
            forall|v: u64| !same_indexes(v, vpn.0) ==> #[trigger] walk(final(mem).view(), final(self).root(), v)
                == walk(old(mem).view(), old(self).root(), v),
            forall|q: u64| !#[trigger] old(self).levels().contains_key(q)
                ==> final(mem).view().contains_key(q) == old(mem).view().contains_key(q)
                && final(mem).view()[q] == old(mem).view()[q],
    {
        let (p, i) = self.find_pte(mem, vpn).unwrap();
        let ghost m1 = mem.view();
        proof {
            lemma_vpn_index_bound(vpn.0);
            let i0 = vpn_index(vpn.0, 0) as int;
            let p1 = pte_ppn(m1[self.root()][i0]);
            assert(self.levels().contains_key(p1) && self.levels()[p1] == 1);
            assert(self.levels().contains_key(p) && self.levels()[p] == 2);
            lemma_zero_invalid();
        }
        let entry = PageTableEntry::empty();
        mem.write_word(p, i, entry.bits);
        proof {
            lemma_write_leaf(self.levels(), m1, self.root(), p, i as int, entry.bits);
            assert(mem.view() == m1.insert(p, m1[p].update(i as int, entry.bits)));
            assert forall|v: u64| !same_indexes(v, vpn.0) implies #[trigger] translation(mem.view(), self.root(), v)
                == translation(old(mem).view(), old(self).root(), v) && walk(mem.view(), self.root(), v)
                == walk(old(mem).view(), old(self).root(), v) by {
                if leaf_location(m1, self.root(), v) == Some((p, i)) {
                    lemma_leaf_unique(self.levels(), m1, self.root(), v, vpn.0);
                }
            }
        }
    }

    /// Points the entry of `vpn` at `ppn` with `flags` and V, whatever it held
    /// before; missing tables on the way are added.
    pub fn relink(
        &mut self,
        mem: &mut PhysMem,
        allocator: &mut StackFrameAllocator,
        vpn: VirtPageNum,
        ppn: PhysPageNum,
        flags: PTEFlags,
    )
        requires
            old(self).wf(old(mem).view(), old(allocator)@),
            old(allocator)@.wf(),
            old(allocator)@.free_count() >= tables_needed(old(mem).view(), old(self).root(), vpn.0),
        ensures
            final(self).wf(final(mem).view(), final(allocator)@),
            final(allocator)@.wf(),
            final(self).root() == old(self).root(),
            walk(final(mem).view(), final(self).root(), vpn.0) == Some(pte_make(ppn.0, flags@ | 1u8)),
            ppn.0 < PPN_LIMIT ==> translation(final(mem).view(), final(self).root(), vpn.0) == Some(ppn.0),
            forall|v: u64| !same_indexes(v, vpn.0) ==> #[trigger] translation(final(mem).view(), final(self).root(), v)
                == translation(old(mem).view(), old(self).root(), v),
            forall|v: u64| !same_indexes(v, vpn.0) && is_mapped(old(mem).view(), old(self).root(), v)
                ==> #[trigger] walk(final(mem).view(), final(self).root(), v) == walk(old(mem).view(), old(self).root(), v),
            final(allocator)@.free_count() == old(allocator)@.free_count() - tables_needed(old(mem).view(), old(self).root(), vpn.0),
            forall|q: u64| old(allocator)@.is_allocated(q) ==> #[trigger] final(allocator)@.is_allocated(q),
            forall|q: u64| old(allocator)@.is_allocated(q) && !#[trigger] old(self).levels().contains_key(q)
                ==> final(mem).view().contains_key(q) == old(mem).view().contains_key(q)
                && final(mem).view()[q] == old(mem).view()[q],
            forall|q: u64| #[trigger] old(self).levels().contains_key(q) ==> final(self).levels().contains_key(q),
            forall|q: u64| #[trigger] final(self).levels().contains_key(q) ==> old(self).levels().contains_key(q)
                || !old(allocator)@.is_allocated(q),
    {
        let (p, i) = self.find_pte_create(mem, allocator, vpn);
        let ghost m1 = mem.view();
        let entry = PageTableEntry::new(ppn, flags.union(PTEFlags::V()));
        mem.write_word(p, i, entry.bits);
        proof {
            lemma_write_leaf(self.levels(), m1, self.root(), p, i as int, entry.bits);
            assert(mem.view() == m1.insert(p, m1[p].update(i as int, entry.bits)));
            let fb = flags@;
            let f = (fb | 1u8);
            crate::bits::lemma_u8_bits();
            assert(f & 1u8 != 0);
            if ppn.0 < PPN_LIMIT {
                lemma_pte_make(ppn.0, f);
            }
            assert forall|v: u64| !same_indexes(v, vpn.0) implies #[trigger] translation(mem.view(), self.root(), v)
                == translation(old(mem).view(), old(self).root(), v) by {
                if leaf_location(m1, self.root(), v) == Some((p, i)) {
                    lemma_leaf_unique(self.levels(), m1, self.root(), v, vpn.0);
                }
                assert(translation(m1, self.root(), v) == translation(old(mem).view(), old(self).root(), v));
            }
            assert forall|v: u64| !same_indexes(v, vpn.0) && is_mapped(old(mem).view(), old(self).root(), v)
                implies #[trigger] walk(mem.view(), self.root(), v) == walk(old(mem).view(), old(self).root(), v) by {
                if leaf_location(m1, self.root(), v) == Some((p, i)) {
                    lemma_leaf_unique(self.levels(), m1, self.root(), v, vpn.0);
                }
                assert(walk(m1, self.root(), v) == walk(old(mem).view(), old(self).root(), v));
            }
            assert forall|q: u64| old(allocator)@.is_allocated(q) && !#[trigger] old(self).levels().contains_key(q)
                implies mem.view().contains_key(q) == old(mem).view().contains_key(q)
                && mem.view()[q] == old(mem).view()[q] by {
                assert(self.levels().contains_key(p));
                assert(q != p);
            }
        }
    }

    /// Looks up the location of the last-level entry of `vpn`.
    fn find_pte(&self, mem: &PhysMem, vpn: VirtPageNum) -> (r: Option<(u64, usize)>)
        ensures
            r == leaf_location(mem.view(), self.root(), vpn.0),
    {
        let idxs = vpn.indexes();
        let e0 = match mem.read_word(self.root_ppn.0, idxs[0]) {
            Some(w) => PageTableEntry { bits: w },
            None => return None,
        };
        if !e0.valid() {
            return None;
        }
        let p1 = e0.ppn().0;
        let e1 = match mem.read_word(p1, idxs[1]) {
            Some(w) => PageTableEntry { bits: w },
            None => return None,
        };
        if !e1.valid() {
            return None;
        }
        let p2 = e1.ppn().0;
        match mem.read_word(p2, idxs[2]) {
            Some(_) => Some((p2, idxs[2])),
            None => None,
        }
    }

    /// The last-level entry of `vpn`, if the walk reaches one.
    pub fn translate(&self, mem: &PhysMem, vpn: VirtPageNum) -> (r: Option<PageTableEntry>)
        ensures
            match walk(mem.view(), self.root(), vpn.0) {
                Some(e) => r matches Some(x) && x.bits == e,
                None => r is None,
            },
    {
        match self.find_pte(mem, vpn) {
            Some((p, i)) => match mem.read_word(p, i) {
                Some(w) => Some(PageTableEntry { bits: w }),
                None => None,
            },
            None => None,
        }
    }

    /// The value of the `satp` register that selects this table: SV39 mode
    /// (8) in bits 60..64, the root frame below.
    pub fn token(&self) -> (r: u64)
        ensures
            r == (8u64 << 60u64) | self.root(),
    {
        let mode: u64 = 8;
        (mode << 60u64) | self.root_ppn.0
    }

    /// A table that only reads through the root named by a `satp` value; it
    /// owns no frame.
    pub fn from_token(satp: u64) -> (r: Self)
        ensures
            r.root() == satp & PPN_MASK,
            r.owned_frames() == Seq::<u64>::empty(),
    {
        let root = satp & PPN_MASK;
        proof {
            crate::bits::lemma_u64_masks();
            assert(root & 0x0000_0fff_ffff_ffffu64 == root % 0x1000_0000_0000);
        }
        let r = PageTable {
            root_ppn: PhysPageNum::from(root),
            frames: Vec::new(),
            levels: Ghost(Map::<u64, nat>::empty()),
        };
        assert(r.owned_frames() =~= Seq::<u64>::empty());
        r
    }
}


/// The page numbers of SV39: 27 bits, as a `VirtAddr` keeps the low 39 bits
/// of an address.
pub open spec fn sv39_vpn(v: u64) -> bool {
    v < 0x800_0000
}

/// Every page of `[start, end)` is an SV39 page.
pub open spec fn sv39_range(start: u64, end: u64) -> bool {
    end <= 0x800_0000
}

/// Two SV39 page numbers that select the same entries are equal.
pub proof fn lemma_sv39_same_indexes(v: u64, w: u64)
    requires
        sv39_vpn(v),
        sv39_vpn(w),
        same_indexes(v, w),
    ensures
        v == w,
{
    assert(((v >> 18u64) & 0x1ffu64) == ((w >> 18u64) & 0x1ffu64) && ((v >> 9u64) & 0x1ffu64) == ((w >> 9u64) & 0x1ffu64)
        && (v & 0x1ffu64) == (w & 0x1ffu64) && v < 0x800_0000u64 && w < 0x800_0000u64 ==> v == w) by (bit_vector);
    crate::bits::lemma_u64_masks();
    assert(((v >> 18u64) & 0x1ffu64) < 512 && ((w >> 18u64) & 0x1ffu64) < 512);
    assert(((v >> 9u64) & 0x1ffu64) < 512 && ((w >> 9u64) & 0x1ffu64) < 512);
    assert((v & 0x1ffu64) < 512 && (w & 0x1ffu64) < 512);
}

/// A page that is not the first of its run of 512 shares its two upper
/// indexes with the page before it.
pub proof fn lemma_same_block(v: u64)
    requires
        v < u64::MAX,
        (v + 1) % 512 != 0,
    ensures
        vpn_index((v + 1) as u64, 0) == vpn_index(v, 0),
        vpn_index((v + 1) as u64, 1) == vpn_index(v, 1),
{
    let w = (v + 1) as u64;
    crate::bits::lemma_u64_masks();
    assert(w & 0x1ffu64 == w % 512);
    assert(w & 0x1ffu64 != 0 && w == v + 1 ==> (w >> 18u64) & 0x1ffu64 == (v >> 18u64) & 0x1ffu64
        && (w >> 9u64) & 0x1ffu64 == (v >> 9u64) & 0x1ffu64) by (bit_vector);
}

/// Once the walk of `v` reaches a last-level table, mapping a page with the
/// same two upper indexes needs no new table.
pub proof fn lemma_tables_present(mem: Map<u64, Seq<u64>>, root: u64, v: u64, w: u64)
    requires
        leaf_location(mem, root, v) is Some,
        vpn_index(v, 0) == vpn_index(w, 0),
        vpn_index(v, 1) == vpn_index(w, 1),
    ensures
        tables_needed(mem, root, w) == 0,
{
}

impl PageTable {
    /// Changing a frame that is not a table of this page table keeps it well
    /// formed and changes no walk.
    pub proof fn lemma_write_outside(&self, mem: Map<u64, Seq<u64>>, q: u64, c: Seq<u64>)
        requires
            self.tree_wf(mem),
            !self.levels().contains_key(q),
        ensures
            self.tree_wf(mem.insert(q, c)),
            forall|v: u64| #[trigger] walk(mem.insert(q, c), self.root(), v) == walk(mem, self.root(), v),
            forall|v: u64| #[trigger] translation(mem.insert(q, c), self.root(), v) == translation(mem, self.root(), v),
            forall|v: u64| #[trigger] tables_needed(mem.insert(q, c), self.root(), v) == tables_needed(mem, self.root(), v),
    {
        self.lemma_same_tables(mem, mem.insert(q, c));
    }

    /// Every table frame of a well-formed table is present in memory.
    pub proof fn lemma_tables_in_mem(&self, mem: Map<u64, Seq<u64>>)
        requires
            self.tree_wf(mem),
        ensures
            forall|x: u64| #[trigger] self.levels().contains_key(x) ==> mem.contains_key(x),
    {
    }

    /// Two memories that agree on the table frames give the same walks, and
    /// the table is well formed in both.
    pub proof fn lemma_same_tables(&self, mem: Map<u64, Seq<u64>>, m2: Map<u64, Seq<u64>>)
        requires
            self.tree_wf(mem),
            forall|x: u64| #[trigger] self.levels().contains_key(x) ==> m2.contains_key(x) && m2[x] == mem[x],
        ensures
            self.tree_wf(m2),
            forall|v: u64| #[trigger] walk(m2, self.root(), v) == walk(mem, self.root(), v),
            forall|v: u64| #[trigger] translation(m2, self.root(), v) == translation(mem, self.root(), v),
            forall|v: u64| #[trigger] tables_needed(m2, self.root(), v) == tables_needed(mem, self.root(), v),
    {
        let lv = self.levels();
        assert forall|x: u64| #[trigger] lv.contains_key(x) implies table_ok(m2, x) && lv[x] <= 2 by {
            assert(m2[x] == mem[x]);
        }
        assert forall|x: u64, k: int|
            #![trigger m2[x][k], lv.contains_key(x)]
            lv.contains_key(x) && lv[x] < 2 && 0 <= k < ENTRIES_PER_TABLE && pte_valid(m2[x][k])
            implies lv.contains_key(pte_ppn(m2[x][k])) && lv[pte_ppn(m2[x][k])] == lv[x] + 1 by {
            assert(m2[x] == mem[x]);
        }
        assert forall|x: u64, k: int, y: u64, l: int|
            #![trigger m2[x][k], m2[y][l], lv.contains_key(x), lv.contains_key(y)]
            lv.contains_key(x) && lv[x] < 2 && 0 <= k < ENTRIES_PER_TABLE && pte_valid(m2[x][k])
                && lv.contains_key(y) && lv[y] < 2 && 0 <= l < ENTRIES_PER_TABLE && pte_valid(m2[y][l])
                && pte_ppn(m2[x][k]) == pte_ppn(m2[y][l]) implies x == y && k == l by {
            assert(m2[x] == mem[x]);
            assert(m2[y] == mem[y]);
        }
        assert forall|v: u64|
            #![trigger walk(m2, self.root(), v)]
            #![trigger translation(m2, self.root(), v)]
            #![trigger tables_needed(m2, self.root(), v)]
            walk(m2, self.root(), v) == walk(mem, self.root(), v)
            && translation(m2, self.root(), v) == translation(mem, self.root(), v)
            && tables_needed(m2, self.root(), v) == tables_needed(mem, self.root(), v) by {
            lemma_vpn_index_bound(v);
            let root = self.root();
            let i0 = vpn_index(v, 0) as int;
            let i1 = vpn_index(v, 1) as int;
            assert(m2[root] == mem[root]);
            if pte_valid(mem[root][i0]) {
                let p1 = pte_ppn(mem[root][i0]);
                assert(lv.contains_key(p1));
                assert(m2[p1] == mem[p1]);
                if pte_valid(mem[p1][i1]) {
                    let p2 = pte_ppn(mem[p1][i1]);
                    assert(lv.contains_key(p2));
                    assert(m2[p2] == mem[p2]);
                }
            }
        }
    }

    /// An allocation leaves the table's frames allocated.
    pub proof fn lemma_frames_after_allocate(&self, fa: FrameAllocatorModel)
        requires
            fa.wf(),
            self.frames_wf(fa),
        ensures
            self.frames_wf(fa.allocate().0),
    {
        super::frame::lemma_alloc_takes_a_free_frame(fa);
    }

    /// Giving back a frame that is not one of the table's leaves the table's
    /// frames allocated.
    pub proof fn lemma_frames_after_dealloc(&self, fa: FrameAllocatorModel, p: u64)
        requires
            fa.wf(),
            self.frames_wf(fa),
            !self.levels().contains_key(p),
        ensures
            self.frames_wf(fa.dealloc(p)),
    {
        let lv = self.levels@;
        assert forall|x: u64| #[trigger] lv.contains_key(x) implies fa.dealloc(p).is_allocated(x) by {
            assert(x != p);
            if fa.dealloc(p).recycled.contains(x) {
                let i = choose|i: int| 0 <= i < fa.dealloc(p).recycled.len() && fa.dealloc(p).recycled[i] == x;
                assert(fa.recycled[i] == x);
            }
        }
    }

    /// The table's frames stay counted as handed out when the allocator
    /// hands out more.
    pub proof fn lemma_frames_more_allocated(&self, fa0: FrameAllocatorModel, fa: FrameAllocatorModel)
        requires
            self.frames_wf(fa0),
            forall|q: u64| fa0.is_allocated(q) ==> #[trigger] fa.is_allocated(q),
        ensures
            self.frames_wf(fa),
            forall|q: u64| #[trigger] self.levels().contains_key(q) ==> fa0.is_allocated(q),
    {
    }

    /// A frame that the allocator counts as free is not one of the table's.
    pub proof fn lemma_free_not_table(&self, fa: FrameAllocatorModel, p: u64)
        requires
            self.frames_wf(fa),
            !fa.is_allocated(p),
        ensures
            !self.levels().contains_key(p),
    {
    }
}


/// One piece of a user buffer: bytes `start..end` of physical page `ppn`.
#[derive(Clone, Copy, Debug, PartialEq, Eq)]
pub struct BufferPiece {
    pub ppn: PhysPageNum,
    pub start: usize,
    pub end: usize,
}

/// The first virtual address of piece `k` of the buffer `ptr..ptr + len`:
/// the buffer's own start for the first piece, a page start after it.
pub open spec fn piece_va_start(ptr: int, k: int) -> int {
    if k == 0 {
        ptr
    } else {
        (ptr / 4096 + k) * 4096
    }
}

/// The virtual address just past piece `k`: the end of its page or the end
/// of the buffer, whichever comes first.
pub open spec fn piece_va_end(ptr: int, len: int, k: int) -> int {
    let page_end = (ptr / 4096 + k + 1) * 4096;
    if ptr + len < page_end {
        ptr + len
    } else {
        page_end
    }
}

/// How many pages the buffer `ptr..ptr + len` touches.
pub open spec fn piece_count(ptr: int, len: int) -> int {
    if len == 0 {
        0
    } else {
        (ptr + len - 1) / 4096 - ptr / 4096 + 1
    }
}

/// Every page that the buffer touches has a last-level entry under `root`.
pub open spec fn buffer_walkable(mem: Map<u64, Seq<u64>>, root: u64, ptr: int, len: int) -> bool {
    forall|k: int|
        0 <= k < piece_count(ptr, len) ==> #[trigger] walk(mem, root, (ptr / 4096 + k) as u64) is Some
}

/// Piece `k` as the walk under `root` places it in physical memory.
pub open spec fn buffer_piece(mem: Map<u64, Seq<u64>>, root: u64, ptr: int, len: int, k: int) -> BufferPiece {
    let s = piece_va_start(ptr, k);
    let e = piece_va_end(ptr, len, k);
    BufferPiece {
        ppn: PhysPageNum(pte_ppn(walk(mem, root, (ptr / 4096 + k) as u64).unwrap())),
        start: (s % 4096) as usize,
        end: (s % 4096 + (e - s)) as usize,
    }
}

/// Splits the user buffer `ptr..ptr + len`, seen through the table that
/// `token` names, into its pieces, one per page and in address order.
/// The page number of each piece is read from the last-level entry, valid
/// or not, as the hardware walk would find it.
pub fn translated_byte_buffer(mem: &PhysMem, token: u64, ptr: u64, len: u64) -> (r: Vec<BufferPiece>)
    requires
        ptr + len <= 0x80_0000_0000,
        buffer_walkable(mem.view(), token & PPN_MASK, ptr as int, len as int),
    ensures
        r.len() == piece_count(ptr as int, len as int),
        forall|k: int|
            0 <= k < r.len() ==> #[trigger] r[k] == buffer_piece(mem.view(), token & PPN_MASK, ptr as int, len as int, k),
{
    let page_table = PageTable::from_token(token);
    let end = ptr + len;
    let mut start = ptr;
    let mut ret: Vec<BufferPiece> = Vec::new();
    let ghost root = token & PPN_MASK;
    while start < end
        invariant
            page_table.root() == root,
            end == ptr + len,
            end <= 0x80_0000_0000,
            ptr <= start <= end,
            start < end ==> start == piece_va_start(ptr as int, ret.len() as int),
            start < end ==> ret.len() < piece_count(ptr as int, len as int),
            start == end ==> ret.len() == piece_count(ptr as int, len as int),
            buffer_walkable(mem.view(), root, ptr as int, len as int),
            forall|k: int|
                0 <= k < ret.len() ==> #[trigger] ret[k] == buffer_piece(mem.view(), root, ptr as int, len as int, k),
        decreases end - start,
    {
        let ghost k = ret.len() as int;
        let vpn = start / PAGE_SIZE;
        assert(vpn == ptr / 4096 + k);
        assert(walk(mem.view(), root, (ptr / 4096 + k) as u64) is Some);
        let pte = page_table.translate(mem, VirtPageNum(vpn));
        let ppn = match pte {
            Some(e) => e.ppn(),
            None => {
                assert(false);
                return ret;
            },
        };
        let next_page = (vpn + 1) * PAGE_SIZE;
        let end_va = if end < next_page { end } else { next_page };
        let off = start % PAGE_SIZE;
        let piece_end = if end_va % PAGE_SIZE == 0 { PAGE_SIZE } else { end_va % PAGE_SIZE };
        assert(piece_end == off + (end_va - start));
        ret.push(BufferPiece { ppn, start: off as usize, end: piece_end as usize });
        assert(ret[k] == buffer_piece(mem.view(), root, ptr as int, len as int, k));
        start = end_va;
    }
    ret
}

} // verus!
