//! Segments: runs of virtual pages mapped with one permission, either onto
//! the same physical pages (identical) or onto frames of their own (framed).
use super::address::{page_ceil, page_floor, PhysPageNum, SimpleRange, VPNRange, VirtAddr, VirtPageNum};
use super::flags::{MapPermission, PTEFlags};
use super::frame::{frame_alloc, pack_page, FrameAllocatorModel, PhysMem, StackFrameAllocator};
use super::page_table::{
    is_mapped, lemma_pte_make_valid, lemma_same_block, lemma_sv39_same_indexes, lemma_tables_present, pte_make, same_indexes,
    sv39_range, sv39_vpn, tables_needed, translation, walk, PageTable,
};
use vstd::hash_map::HashMapWithView;
use vstd::prelude::*;

verus! {

/// How a segment's pages find their frames.
#[derive(Copy, Clone, Debug, PartialEq, Eq, Structural)]
pub enum MapType {
    /// Page `n` maps to frame `n` (the kernel sees physical memory this way).
    Identical,
    /// Each page gets a frame of its own, taken when it is mapped.
    Framed,
}

/// A run of virtual pages `[start, end)` with one permission; for a framed
/// segment, the frame of each page mapped so far.
pub struct Segment {
    pub vpn_range: VPNRange,
    pub data_frames: HashMapWithView<u64, u64>,
    pub map_type: MapType,
    pub map_perm: MapPermission,
}

impl Segment {
    /// The first page.
    pub open spec fn start(&self) -> u64 {
        self.vpn_range.start().0
    }

    /// The page after the last.
    pub open spec fn end(&self) -> u64 {
        self.vpn_range.end().0
    }

    /// The frames of the pages mapped so far (framed segments).
    pub open spec fn frames(&self) -> Map<u64, u64> {
        self.data_frames@
    }

    /// Frame `q` is the frame of one of the segment's pages.
    pub open spec fn owns_frame(&self, q: u64) -> bool {
        exists|v: u64| self.start() <= v < self.end() && #[trigger] self.frames()[v] == q
    }

    /// The frame that page `v` maps to.
    pub open spec fn target(&self, v: u64) -> u64 {
        match self.map_type {
            MapType::Identical => v,
            MapType::Framed => self.frames()[v],
        }
    }

    /// Page `v` is mapped the way this segment says: to its frame, with the
    /// segment's permission and V.
    pub open spec fn maps_page(&self, mem: Map<u64, Seq<u64>>, root: u64, v: u64) -> bool {
        &&& (self.map_type == MapType::Framed ==> self.frames().contains_key(v))
        &&& walk(mem, root, v) == Some(pte_make(self.target(v), self.map_perm@ | 1u8))
    }

    /// Page `v` is mapped to its frame with the segment's permission but
    /// without W, and V: a page shared copy-on-write since a fork.
    pub open spec fn maps_page_cow(&self, mem: Map<u64, Seq<u64>>, root: u64, v: u64) -> bool {
        &&& (self.map_type == MapType::Framed ==> self.frames().contains_key(v))
        &&& walk(mem, root, v) == Some(pte_make(self.target(v), (self.map_perm@ & !4u8) | 1u8))
    }

    /// Page `v` is mapped as the segment says, or as a copy-on-write page.
    pub open spec fn holds_page(&self, mem: Map<u64, Seq<u64>>, root: u64, v: u64) -> bool {
        self.maps_page(mem, root, v) || self.maps_page_cow(mem, root, v)
    }

    /// The segment covering the pages of `[start_va, end_va)`: the start is
    /// rounded down and the end up to pages.
    pub fn new(start_va: VirtAddr, end_va: VirtAddr, map_type: MapType, map_perm: MapPermission) -> (r: Self)
        requires
            1 <= end_va.0,
            end_va.0 - 1 + 4096 <= u64::MAX,
            page_floor(start_va.0 as int) <= page_ceil(end_va.0 as int),
        ensures
            r.start() == page_floor(start_va.0 as int),
            r.end() == page_ceil(end_va.0 as int),
            r.frames() == Map::<u64, u64>::empty(),
            r.map_type == map_type,
            r.map_perm == map_perm,
    {
        broadcast use vstd::std_specs::hash::group_hash_axioms;
        let start_vpn = start_va.floor();
        let end_vpn = end_va.ceil();
        Segment {
            vpn_range: SimpleRange::new(start_vpn, end_vpn),
            data_frames: HashMapWithView::new(),
            map_type,
            map_perm,
        }
    }

    /// Whether address `vaddr` lies in the segment's pages.
    pub fn contains(&self, vaddr: u64) -> (r: bool)
        requires
            self.start() <= self.end() < 0x10_0000_0000_0000,
        ensures
            r == (self.start() * 4096 <= vaddr < self.end() * 4096),
    {
        let start_addr = VirtAddr::from(self.vpn_range.get_start());
        let end_addr = VirtAddr::from(self.vpn_range.get_end());
        proof {
            super::address::lemma_shift_page(self.start());
            super::address::lemma_shift_page(self.end());
        }
        start_addr.0 <= vaddr && vaddr < end_addr.0
    }

    /// The page table flags of the segment's permission.
    fn pte_flags(&self) -> (r: PTEFlags)
        ensures
            r@ == self.map_perm@,
    {
        self.map_perm.to_pte_flags()
    }

    /// Maps page `vpn`, taking a frame for it when the segment is framed;
    /// returns the frame it maps to.
    pub fn alloc_one(
        &mut self,
        page_table: &mut PageTable,
        mem: &mut PhysMem,
        allocator: &mut StackFrameAllocator,
        vpn: VirtPageNum,
    ) -> (r: PhysPageNum)
        requires
            old(page_table).wf(old(mem).view(), old(allocator)@),
            old(allocator)@.wf(),
            old(allocator)@.free_count() >= (if old(self).map_type == MapType::Framed { 1int } else { 0 })
                + tables_needed(old(mem).view(), old(page_table).root(), vpn.0),
            !is_mapped(old(mem).view(), old(page_table).root(), vpn.0),
            old(self).map_type == MapType::Framed ==> !old(self).frames().contains_key(vpn.0),
        ensures
            final(page_table).wf(final(mem).view(), final(allocator)@),
            final(allocator)@.wf(),
            final(page_table).root() == old(page_table).root(),
            final(self).vpn_range == old(self).vpn_range,
            final(self).map_type == old(self).map_type,
            final(self).map_perm == old(self).map_perm,
            old(self).map_type == MapType::Identical ==> r.0 == vpn.0 && final(self).frames() == old(self).frames(),
            old(self).map_type == MapType::Framed ==> final(self).frames() == old(self).frames().insert(vpn.0, r.0)
                && !old(allocator)@.is_allocated(r.0) && final(allocator)@.is_allocated(r.0)
                && !final(page_table).levels().contains_key(r.0) && final(mem).view().contains_key(r.0),
            final(self).maps_page(final(mem).view(), final(page_table).root(), vpn.0),
            walk(final(mem).view(), final(page_table).root(), vpn.0) == Some(pte_make(r.0, old(self).map_perm@ | 1u8)),
            forall|v: u64| !same_indexes(v, vpn.0) ==> #[trigger] translation(final(mem).view(), final(page_table).root(), v)
                == translation(old(mem).view(), old(page_table).root(), v),
            forall|v: u64| !same_indexes(v, vpn.0) && is_mapped(old(mem).view(), old(page_table).root(), v)
                ==> #[trigger] walk(final(mem).view(), final(page_table).root(), v) == walk(old(mem).view(), old(page_table).root(), v),
            final(allocator)@.free_count() == old(allocator)@.free_count() - (if old(self).map_type == MapType::Framed { 1int } else { 0 })
                - tables_needed(old(mem).view(), old(page_table).root(), vpn.0),
            forall|q: u64| old(allocator)@.is_allocated(q) ==> #[trigger] final(allocator)@.is_allocated(q),
            forall|q: u64| old(allocator)@.is_allocated(q) && !#[trigger] old(page_table).levels().contains_key(q)
                ==> final(mem).view().contains_key(q) == old(mem).view().contains_key(q)
                && final(mem).view()[q] == old(mem).view()[q],
            forall|q: u64| #[trigger] old(page_table).levels().contains_key(q) ==> final(page_table).levels().contains_key(q),
            forall|q: u64| #[trigger] final(page_table).levels().contains_key(q) ==> old(page_table).levels().contains_key(q)
                || !old(allocator)@.is_allocated(q),
    {
        let ppn = match self.map_type {
            MapType::Identical => PhysPageNum(vpn.0),
            MapType::Framed => {
                let ghost m0 = mem.view();
                let ghost fa0 = allocator@;
                proof {
                    super::frame::lemma_alloc_takes_a_free_frame(fa0);
                }
                let frame = frame_alloc(allocator, mem).unwrap();
                let ret = frame.ppn;
                proof {
                    page_table.lemma_free_not_table(fa0, ret.0);
                    page_table.lemma_write_outside(m0, ret.0, super::frame::zero_page());
                    page_table.lemma_frames_after_allocate(fa0);
                }
                self.data_frames.insert(vpn.0, ret.0);
                ret
            },
        };
        let flags = self.pte_flags();
        let ghost m1 = mem.view();
        let ghost fa1 = allocator@;
        page_table.map(mem, allocator, vpn, ppn, flags);
        proof {
            if self.map_type == MapType::Framed {
                assert(self.frames()[vpn.0] == ppn.0);
                assert(fa1.is_allocated(ppn.0));
                assert(m1.contains_key(ppn.0));
            }
            assert forall|q: u64| old(allocator)@.is_allocated(q) && !#[trigger] old(page_table).levels().contains_key(q)
                implies mem.view().contains_key(q) == old(mem).view().contains_key(q)
                && mem.view()[q] == old(mem).view()[q] by {
                assert(fa1.is_allocated(q));
                if self.map_type == MapType::Framed {
                    assert(q != ppn.0);
                }
            }
            assert forall|q: u64| #[trigger] page_table.levels().contains_key(q) implies old(page_table).levels().contains_key(q)
                || !old(allocator)@.is_allocated(q) by {
                if old(allocator)@.is_allocated(q) {
                    assert(fa1.is_allocated(q));
                }
            }
        }
        ppn
    }

    /// Gives mapped page `vpn` of a framed segment a new cleared frame, and
    /// points its entry at it with the segment's permission; returns the
    /// frame.
    pub fn realloc_one(
        &mut self,
        page_table: &mut PageTable,
        mem: &mut PhysMem,
        allocator: &mut StackFrameAllocator,
        vpn: VirtPageNum,
    ) -> (r: PhysPageNum)
        requires
            old(page_table).wf(old(mem).view(), old(allocator)@),
            old(allocator)@.wf(),
            old(allocator)@.free_count() >= 1 + tables_needed(old(mem).view(), old(page_table).root(), vpn.0),
            old(self).map_type == MapType::Framed,
            old(self).frames().contains_key(vpn.0),
        ensures
            final(page_table).wf(final(mem).view(), final(allocator)@),
            final(allocator)@.wf(),
            final(page_table).root() == old(page_table).root(),
            final(self).vpn_range == old(self).vpn_range,
            final(self).map_type == old(self).map_type,
            final(self).map_perm == old(self).map_perm,
            final(self).frames() == old(self).frames().insert(vpn.0, r.0),
            old(allocator)@.allocate().1 == Some(r.0),
            !old(allocator)@.is_allocated(r.0) && final(allocator)@.is_allocated(r.0),
            !final(page_table).levels().contains_key(r.0),
            final(mem).view().contains_key(r.0),
            final(self).maps_page(final(mem).view(), final(page_table).root(), vpn.0),
            walk(final(mem).view(), final(page_table).root(), vpn.0) == Some(pte_make(r.0, old(self).map_perm@ | 1u8)),
            forall|v: u64| !same_indexes(v, vpn.0) ==> #[trigger] translation(final(mem).view(), final(page_table).root(), v)
                == translation(old(mem).view(), old(page_table).root(), v),
            forall|v: u64| !same_indexes(v, vpn.0) && is_mapped(old(mem).view(), old(page_table).root(), v)
                ==> #[trigger] walk(final(mem).view(), final(page_table).root(), v) == walk(old(mem).view(), old(page_table).root(), v),
            forall|q: u64| old(allocator)@.is_allocated(q) ==> #[trigger] final(allocator)@.is_allocated(q),
            forall|q: u64| old(allocator)@.is_allocated(q) && !#[trigger] old(page_table).levels().contains_key(q)
                ==> final(mem).view().contains_key(q) == old(mem).view().contains_key(q)
                && final(mem).view()[q] == old(mem).view()[q],
            forall|q: u64| #[trigger] old(page_table).levels().contains_key(q) ==> final(page_table).levels().contains_key(q),
            forall|q: u64| #[trigger] final(page_table).levels().contains_key(q) ==> old(page_table).levels().contains_key(q)
                || !old(allocator)@.is_allocated(q),
            final(allocator)@.free_count() == old(allocator)@.free_count() - 1 - tables_needed(old(mem).view(), old(page_table).root(), vpn.0),
    {
        let ghost m0 = mem.view();
        let ghost fa0 = allocator@;
        proof {
            super::frame::lemma_alloc_takes_a_free_frame(fa0);
        }
        let frame = frame_alloc(allocator, mem).unwrap();
        let ppn = frame.ppn;
        proof {
            page_table.lemma_free_not_table(fa0, ppn.0);
            page_table.lemma_write_outside(m0, ppn.0, super::frame::zero_page());
            page_table.lemma_frames_after_allocate(fa0);
        }
        self.data_frames.insert(vpn.0, ppn.0);
        let flags = self.pte_flags();
        let ghost m1 = mem.view();
        let ghost fa1 = allocator@;
        page_table.relink(mem, allocator, vpn, ppn, flags);
        proof {
            assert(self.frames()[vpn.0] == ppn.0);
            assert(fa1.is_allocated(ppn.0));
            assert(m1.contains_key(ppn.0));
            assert forall|q: u64| old(allocator)@.is_allocated(q) && !#[trigger] old(page_table).levels().contains_key(q)
                implies mem.view().contains_key(q) == old(mem).view().contains_key(q)
                && mem.view()[q] == old(mem).view()[q] by {
                assert(fa1.is_allocated(q));
                assert(q != ppn.0);
            }
            assert forall|q: u64| #[trigger] page_table.levels().contains_key(q) implies old(page_table).levels().contains_key(q)
                || !old(allocator)@.is_allocated(q) by {
                if old(allocator)@.is_allocated(q) {
                    assert(fa1.is_allocated(q));
                }
            }
        }
        ppn
    }

    /// Copies `data` into the frames of the segment's pages, one page after
    /// the other from the first; each frame written holds its part of the
    /// data, then zeros. The segment is framed and its pages have distinct
    /// frames; the data fits in its pages.
    #[verifier::spinoff_prover]
    pub fn copy_data(&self, mem: &mut PhysMem, data: &[u8])
        requires
            self.map_type == MapType::Framed,
            self.start() < self.end(),
            data@.len() <= (self.end() - self.start()) * 4096,
            forall|v: u64| self.start() <= v < self.end() ==> #[trigger] self.frames().contains_key(v),
            forall|v: u64, w: u64| self.start() <= v < self.end() && self.start() <= w < self.end() && v != w
                ==> #[trigger] self.frames()[v] != #[trigger] self.frames()[w],
        ensures
            forall|k: int| 0 <= k < data_pages(data@.len() as int) ==> #[trigger] final(mem).view()[self.frames()[(self.start() + k) as u64]]
                == pack_page(data_chunk(data@, k)),
            forall|k: int| 0 <= k < data_pages(data@.len() as int) ==> #[trigger] final(mem).view().contains_key(
                self.frames()[(self.start() + k) as u64],
            ),
            forall|q: u64| !#[trigger] self.owns_frame(q) ==> final(mem).view().contains_key(q) == old(mem).view().contains_key(q)
                && final(mem).view()[q] == old(mem).view()[q],
            forall|q: u64| #[trigger] old(mem).view().contains_key(q) ==> final(mem).view().contains_key(q),
    {
        let len = data.len();
        let mut start: usize = 0;
        let mut vpn: u64 = self.vpn_range.get_start().0;
        let ghost first = self.start();
        proof {
            lemma_data_pages(len as int);
        }
        loop
            invariant
                first == self.start(),
                self.map_type == MapType::Framed,
                first < self.end(),
                len == data@.len(),
                len <= (self.end() - first) * 4096,
                start == (vpn - first) * 4096,
                start <= len,
                first <= vpn < self.end(),
                (vpn - first) < data_pages(len as int),
                data_pages(len as int) <= self.end() - first,
                forall|v: u64| first <= v < self.end() ==> #[trigger] self.frames().contains_key(v),
                forall|v: u64, w: u64| first <= v < self.end() && first <= w < self.end() && v != w
                    ==> #[trigger] self.frames()[v] != #[trigger] self.frames()[w],
                forall|k: int| 0 <= k < vpn - first ==> #[trigger] mem.view()[self.frames()[(first + k) as u64]]
                    == pack_page(data_chunk(data@, k)) && mem.view().contains_key(self.frames()[(first + k) as u64]),
                forall|q: u64| !#[trigger] self.owns_frame(q) ==> mem.view().contains_key(q) == old(mem).view().contains_key(q)
                    && mem.view()[q] == old(mem).view()[q],
                forall|q: u64| #[trigger] old(mem).view().contains_key(q) ==> mem.view().contains_key(q),
            ensures
                forall|q: u64| #[trigger] old(mem).view().contains_key(q) ==> mem.view().contains_key(q),
                forall|k: int| 0 <= k < data_pages(data@.len() as int) ==> #[trigger] mem.view()[self.frames()[(self.start() + k) as u64]]
                    == pack_page(data_chunk(data@, k)),
                forall|k: int| 0 <= k < data_pages(data@.len() as int) ==> #[trigger] mem.view().contains_key(
                    self.frames()[(self.start() + k) as u64],
                ),
                forall|q: u64| !#[trigger] self.owns_frame(q) ==> mem.view().contains_key(q) == old(mem).view().contains_key(q)
                    && mem.view()[q] == old(mem).view()[q],
            decreases self.end() - vpn,
        {
            let stop = if len - start <= 4096 { len } else { start + 4096 };
            assert(self.frames().contains_key(vpn));
            let src = &data[start..stop];
            let ppn = *self.data_frames.get(&vpn).unwrap();
            let ghost m0 = mem.view();
            mem.write_page(ppn, src);
            proof {
                let k0 = (vpn - first) as int;
                assert(src@ == data_chunk(data@, k0));
                assert forall|k: int| 0 <= k < k0 + 1 implies #[trigger] mem.view()[self.frames()[(first + k) as u64]]
                    == pack_page(data_chunk(data@, k)) && mem.view().contains_key(self.frames()[(first + k) as u64]) by {
                    assert((first + k) as u64 == first + k);
                    if k < k0 {
                        assert(first <= ((first + k) as u64) && ((first + k) as u64) < vpn);
                        assert(self.frames()[(first + k) as u64] != self.frames()[vpn]);
                        assert(m0[self.frames()[(first + k) as u64]] == pack_page(data_chunk(data@, k)));
                    }
                }
                assert forall|q: u64| !#[trigger] self.owns_frame(q)
                    implies mem.view().contains_key(q) == old(mem).view().contains_key(q)
                    && mem.view()[q] == old(mem).view()[q] by {
                    assert(self.frames()[vpn] != q);
                }
            }
            if len - start <= 4096 {
                proof {
                    lemma_data_pages_last(len as int, (vpn - first) as int);
                    assert forall|k: int| 0 <= k < data_pages(data@.len() as int) implies #[trigger] mem.view().contains_key(
                        self.frames()[(self.start() + k) as u64],
                    ) by {
                        assert(mem.view()[self.frames()[(first + k) as u64]] == pack_page(data_chunk(data@, k)));
                    }
                }
                break;
            }
            proof {
                lemma_data_pages_more(len as int, (vpn - first) as int);
            }
            start = start + 4096;
            vpn = vpn + 1;
        }
    }

    /// The frames that mapping the whole segment may take: one per page for
    /// a framed segment, and two tables for each run of 512 pages it touches.
    pub open spec fn map_cost(&self) -> int {
        (if self.map_type == MapType::Framed { self.end() - self.start() } else { 0int })
            + 2 * page_blocks(self.start() as int, self.end() as int)
    }

    /// Maps every page of the segment; the pages must be SV39 pages not
    /// mapped yet, and the allocator must hold the frames that this may take.
    pub fn map(&mut self, page_table: &mut PageTable, mem: &mut PhysMem, allocator: &mut StackFrameAllocator)
        requires
            old(page_table).wf(old(mem).view(), old(allocator)@),
            old(allocator)@.wf(),
            old(self).start() <= old(self).end(),
            sv39_range(old(self).start(), old(self).end()),
            old(allocator)@.free_count() >= old(self).map_cost(),
            forall|v: u64| old(self).start() <= v < old(self).end() ==> !#[trigger] is_mapped(old(mem).view(), old(page_table).root(), v),
            old(self).map_type == MapType::Framed ==> forall|v: u64| old(self).start() <= v < old(self).end()
                ==> !#[trigger] old(self).frames().contains_key(v),
        ensures
            final(page_table).wf(final(mem).view(), final(allocator)@),
            final(allocator)@.wf(),
            final(page_table).root() == old(page_table).root(),
            final(self).vpn_range == old(self).vpn_range,
            final(self).map_type == old(self).map_type,
            final(self).map_perm == old(self).map_perm,
            forall|v: u64| final(self).start() <= v < final(self).end() ==> #[trigger] final(self).maps_page(
                final(mem).view(),
                final(page_table).root(),
                v,
            ),
            forall|v: u64| !(old(self).start() <= v < old(self).end()) && sv39_vpn(v)
                ==> #[trigger] translation(final(mem).view(), final(page_table).root(), v)
                == translation(old(mem).view(), old(page_table).root(), v),
            forall|v: u64| !(old(self).start() <= v < old(self).end()) && sv39_vpn(v) && is_mapped(old(mem).view(), old(page_table).root(), v)
                ==> #[trigger] walk(final(mem).view(), final(page_table).root(), v) == walk(old(mem).view(), old(page_table).root(), v),
            forall|v: u64| !(old(self).start() <= v < old(self).end()) ==> (#[trigger] final(self).frames().contains_key(v)
                <==> old(self).frames().contains_key(v)),
            forall|v: u64| !(old(self).start() <= v < old(self).end()) && old(self).frames().contains_key(v)
                ==> #[trigger] final(self).frames()[v] == old(self).frames()[v],
            old(allocator)@.free_count() - old(self).map_cost() <= final(allocator)@.free_count() <= old(allocator)@.free_count(),
            forall|q: u64| old(allocator)@.is_allocated(q) ==> #[trigger] final(allocator)@.is_allocated(q),
            forall|q: u64| old(allocator)@.is_allocated(q) && !#[trigger] old(page_table).levels().contains_key(q)
                ==> final(mem).view().contains_key(q) == old(mem).view().contains_key(q)
                && final(mem).view()[q] == old(mem).view()[q],
            forall|q: u64| #[trigger] old(page_table).levels().contains_key(q) ==> final(page_table).levels().contains_key(q),
            forall|q: u64| #[trigger] final(page_table).levels().contains_key(q) ==> old(page_table).levels().contains_key(q)
                || !old(allocator)@.is_allocated(q),
            old(self).map_type == MapType::Framed ==> forall|v: u64| old(self).start() <= v < old(self).end()
                ==> !old(allocator)@.is_allocated(#[trigger] final(self).frames()[v])
                && final(allocator)@.is_allocated(final(self).frames()[v])
                && !final(page_table).levels().contains_key(final(self).frames()[v])
                && final(mem).view().contains_key(final(self).frames()[v]),
            old(self).map_type == MapType::Framed ==> forall|v: u64, w: u64|
                old(self).start() <= v < old(self).end() && old(self).start() <= w < old(self).end() && v != w
                ==> #[trigger] final(self).frames()[v] != #[trigger] final(self).frames()[w],
    {
        let start = self.vpn_range.get_start().0;
        let end = self.vpn_range.get_end().0;
        let ghost framed: bool = self.map_type == MapType::Framed;
        let mut cur: u64 = start;
        while cur < end
            invariant
                start == old(self).start(),
                end == old(self).end(),
                start <= cur <= end,
                sv39_range(start, end),
                framed == (old(self).map_type == MapType::Framed),
                page_table.wf(mem.view(), allocator@),
                allocator@.wf(),
                page_table.root() == old(page_table).root(),
                self.vpn_range == old(self).vpn_range,
                self.map_type == old(self).map_type,
                self.map_perm == old(self).map_perm,
                allocator@.free_count() >= still_needed(framed, start, cur, end),
                old(allocator)@.free_count() - allocator@.free_count() + still_needed(framed, start, cur, end)
                    <= old(self).map_cost(),
                allocator@.free_count() <= old(allocator)@.free_count(),
                forall|v: u64| start <= v < cur ==> #[trigger] self.maps_page(mem.view(), page_table.root(), v),
                forall|v: u64| cur <= v < end ==> !#[trigger] is_mapped(mem.view(), page_table.root(), v),
                self.map_type == MapType::Framed ==> forall|v: u64| cur <= v < end ==> !#[trigger] self.frames().contains_key(v),
                forall|v: u64| !(start <= v < cur) && sv39_vpn(v) ==> #[trigger] translation(mem.view(), page_table.root(), v)
                    == translation(old(mem).view(), old(page_table).root(), v),
                forall|v: u64| !(start <= v < cur) && sv39_vpn(v) && is_mapped(old(mem).view(), old(page_table).root(), v)
                    ==> #[trigger] walk(mem.view(), page_table.root(), v) == walk(old(mem).view(), old(page_table).root(), v),
                forall|v: u64| !(start <= v < cur) ==> (#[trigger] self.frames().contains_key(v)
                    <==> old(self).frames().contains_key(v)),
                forall|v: u64| !(start <= v < cur) && old(self).frames().contains_key(v)
                    ==> #[trigger] self.frames()[v] == old(self).frames()[v],
                forall|q: u64| old(allocator)@.is_allocated(q) ==> #[trigger] allocator@.is_allocated(q),
                forall|q: u64| old(allocator)@.is_allocated(q) && !#[trigger] old(page_table).levels().contains_key(q)
                    ==> mem.view().contains_key(q) == old(mem).view().contains_key(q)
                    && mem.view()[q] == old(mem).view()[q],
                forall|q: u64| #[trigger] old(page_table).levels().contains_key(q) ==> page_table.levels().contains_key(q),
                forall|q: u64| #[trigger] page_table.levels().contains_key(q) ==> old(page_table).levels().contains_key(q)
                    || !old(allocator)@.is_allocated(q),
                framed ==> forall|v: u64| start <= v < cur
                    ==> !old(allocator)@.is_allocated(#[trigger] self.frames()[v])
                    && allocator@.is_allocated(self.frames()[v])
                    && !page_table.levels().contains_key(self.frames()[v])
                    && mem.view().contains_key(self.frames()[v]),
                framed ==> forall|v: u64, w: u64| start <= v < cur && start <= w < cur && v != w
                    ==> #[trigger] self.frames()[v] != #[trigger] self.frames()[w],
            decreases end - cur,
        {
            let ghost m0 = mem.view();
            let ghost pt_levels0 = page_table.levels();
            let ghost s0 = *self;
            let ghost free0 = allocator@.free_count();
            let ghost fa0 = allocator@;
            proof {
                lemma_sv39_range_member(start, end, cur);
                if start < cur && cur % 512 != 0 {
                    let prev = (cur - 1) as u64;
                    assert(s0.maps_page(m0, page_table.root(), prev));
                    lemma_same_block(prev);
                    lemma_tables_present(m0, page_table.root(), prev, cur);
                }
                lemma_still_needed_step(framed, start, cur, end, tables_needed(m0, page_table.root(), cur));
            }
            let r = self.alloc_one(page_table, mem, allocator, VirtPageNum(cur));
            proof {
                if framed {
                    assert forall|v: u64| start <= v < cur + 1
                        implies !old(allocator)@.is_allocated(#[trigger] self.frames()[v])
                        && allocator@.is_allocated(self.frames()[v])
                        && !page_table.levels().contains_key(self.frames()[v])
                        && mem.view().contains_key(self.frames()[v]) by {
                        if v < cur {
                            let q = s0.frames()[v];
                            assert(self.frames()[v] == q);
                            assert(fa0.is_allocated(q));
                            assert(!pt_levels0.contains_key(q));
                            assert(m0.contains_key(q));
                            assert(allocator@.is_allocated(q));
                            assert(!page_table.levels().contains_key(q));
                            assert(mem.view().contains_key(q));
                            assert(!old(allocator)@.is_allocated(q));
                        } else {
                            assert(self.frames()[v] == r.0);
                            assert(self.maps_page(mem.view(), page_table.root(), v));
                        }
                    }
                    assert forall|v: u64, w: u64| start <= v < cur + 1 && start <= w < cur + 1 && v != w
                        implies #[trigger] self.frames()[v] != #[trigger] self.frames()[w] by {
                        if v < cur && w < cur {
                            assert(self.frames()[v] == s0.frames()[v]);
                            assert(self.frames()[w] == s0.frames()[w]);
                        } else if v < cur {
                            assert(fa0.is_allocated(s0.frames()[v]));
                            assert(self.frames()[v] == s0.frames()[v]);
                        } else {
                            assert(fa0.is_allocated(s0.frames()[w]));
                            assert(self.frames()[w] == s0.frames()[w]);
                        }
                    }
                }
                assert forall|v: u64| start <= v < cur + 1 implies #[trigger] self.maps_page(mem.view(), page_table.root(), v) by {
                    if v < cur {
                        assert(s0.maps_page(m0, page_table.root(), v));
                        lemma_sv39_range_member(start, end, v);
                        assert(!same_indexes(v, cur)) by {
                            if same_indexes(v, cur) {
                                lemma_sv39_same_indexes(v, cur);
                            }
                        }
                        let perm = s0.map_perm@;
                        crate::bits::lemma_u8_bits();
                        assert(((perm | 1u8) & 1u8) != 0);
                        lemma_pte_make_valid(s0.target(v), perm | 1u8);
                        assert(is_mapped(m0, page_table.root(), v));
                        assert(self.target(v) == s0.target(v));
                    }
                }
                assert forall|v: u64| cur + 1 <= v < end implies !#[trigger] is_mapped(mem.view(), page_table.root(), v) by {
                    lemma_sv39_range_member(start, end, v);
                    assert(!same_indexes(v, cur)) by {
                        if same_indexes(v, cur) {
                            lemma_sv39_same_indexes(v, cur);
                        }
                    }
                    assert(!is_mapped(m0, page_table.root(), v));
                    assert(translation(mem.view(), page_table.root(), v) == translation(m0, page_table.root(), v));
                }
                assert forall|v: u64| !(start <= v < cur + 1) && sv39_vpn(v) implies #[trigger] translation(
                    mem.view(),
                    page_table.root(),
                    v,
                ) == translation(old(mem).view(), old(page_table).root(), v) by {
                    assert(!same_indexes(v, cur)) by {
                        if same_indexes(v, cur) {
                            lemma_sv39_same_indexes(v, cur);
                        }
                    }
                }
                assert forall|v: u64| !(start <= v < cur + 1) && sv39_vpn(v) && is_mapped(old(mem).view(), old(page_table).root(), v)
                    implies #[trigger] walk(mem.view(), page_table.root(), v) == walk(old(mem).view(), old(page_table).root(), v) by {
                    assert(!same_indexes(v, cur)) by {
                        if same_indexes(v, cur) {
                            lemma_sv39_same_indexes(v, cur);
                        }
                    }
                    assert(is_mapped(m0, page_table.root(), v));
                }
                assert forall|q: u64| old(allocator)@.is_allocated(q) && !#[trigger] old(page_table).levels().contains_key(q)
                    implies mem.view().contains_key(q) == old(mem).view().contains_key(q)
                    && mem.view()[q] == old(mem).view()[q] by {
                    assert(!pt_levels0.contains_key(q));
                }
                assert forall|q: u64| #[trigger] page_table.levels().contains_key(q) implies old(page_table).levels().contains_key(q)
                    || !old(allocator)@.is_allocated(q) by {
                    if !pt_levels0.contains_key(q) && old(allocator)@.is_allocated(q) {
                    }
                }
            }
            cur = cur + 1;
        }
    }
}

/// The runs of 512 pages that `[s, e)` touches.
pub open spec fn page_blocks(s: int, e: int) -> int {
    if s < e {
        (e - 1) / 512 - s / 512 + 1
    } else {
        0
    }
}

/// What is left to pay when the pages `[start, cur)` of `[start, end)` are
/// mapped: the frames of the pages left, and two tables for each run left,
/// but for the run of `cur` when the page before it already set its tables.
pub open spec fn still_needed(framed: bool, start: u64, cur: u64, end: u64) -> int {
    (if framed { end - cur } else { 0int }) + 2 * page_blocks(cur as int, end as int)
        - (if start < cur < end && cur % 512 != 0 { 2int } else { 0int })
}

/// Mapping page `cur` costs at most what it takes off what is still needed.
proof fn lemma_still_needed_step(framed: bool, start: u64, cur: u64, end: u64, tables: int)
    requires
        start <= cur < end,
        0 <= tables <= 2,
        start < cur && cur % 512 != 0 ==> tables == 0,
    ensures
        still_needed(framed, start, cur, end) >= (if framed { 1int } else { 0int }) + tables
            + still_needed(framed, start, (cur + 1) as u64, end),
        still_needed(framed, start, cur, end) >= (if framed { 1int } else { 0int }) + tables,
        still_needed(framed, start, start, end) == (if framed { end - start } else { 0int }) + 2 * page_blocks(
            start as int,
            end as int,
        ),
{
    let c = cur as int;
    let e = end as int;
    let q = c / 512;
    let r = c % 512;
    assert(c == 512 * q + r && 0 <= r < 512);
    if r == 511 {
        assert((c + 1) / 512 == q + 1 && (c + 1) % 512 == 0);
    } else {
        assert((c + 1) / 512 == q && (c + 1) % 512 == r + 1);
    }
    assert((e - 1) / 512 >= q);
    if c + 1 == e {
        assert((e - 1) / 512 == q);
    }
}

/// The pages of an SV39 range are SV39 pages.
pub proof fn lemma_sv39_range_member(start: u64, end: u64, v: u64)
    requires
        sv39_range(start, end),
        start <= v < end,
    ensures
        sv39_vpn(v),
{
}

/// The pages that data of `n` bytes is spread over: at least one.
pub open spec fn data_pages(n: int) -> int {
    if n <= 4096 {
        1
    } else {
        (n + 4095) / 4096
    }
}

/// Part `k` of `data`: its bytes `[4096 k, 4096 (k + 1))`, cut at its end.
pub open spec fn data_chunk(data: Seq<u8>, k: int) -> Seq<u8> {
    let lo = if 4096 * k < data.len() { 4096 * k } else { data.len() as int };
    let hi = if 4096 * (k + 1) < data.len() { 4096 * (k + 1) } else { data.len() as int };
    data.subrange(lo, hi)
}

proof fn lemma_data_pages(n: int)
    requires
        n >= 0,
    ensures
        data_pages(n) >= 1,
        n <= 4096 * data_pages(n),
        data_pages(n) == 1 || 4096 * (data_pages(n) - 1) < n,
{
}

/// The data ends within page `k`: `k` is its last page.
proof fn lemma_data_pages_last(n: int, k: int)
    requires
        0 <= k,
        4096 * k <= n || k == 0,
        k < data_pages(n),
        n <= 4096 * (k + 1),
    ensures
        k + 1 == data_pages(n),
{
}

/// The data goes on past page `k`: there is a page after it.
proof fn lemma_data_pages_more(n: int, k: int)
    requires
        0 <= k,
        4096 * (k + 1) < n,
    ensures
        k + 1 < data_pages(n),
{
}

} // verus!
