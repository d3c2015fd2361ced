//! Address spaces: a page table and the segments mapped through it.
use super::address::{page_floor, PhysPageNum, SimpleRange, VirtAddr, VirtPageNum};
use vstd::hash_map::HashMapWithView;
use super::flags::{MapPermission, PTEFlags};
use super::frame::{holders, pack_page, zero_page, FrameRefs, PhysMem, StackFrameAllocator};
use super::page_table::{
    is_mapped, lemma_pte_make_valid, lemma_sv39_same_indexes, pte_make, pte_valid, same_indexes, sv39_range, sv39_vpn,
    tables_needed, translation, walk, PageTable, PageTableEntry,
};
use super::segment::{data_chunk, data_pages, lemma_sv39_range_member, MapType, Segment};
use super::kernel_view::KernelView;
use super::segment::page_blocks;
use super::address::page_ceil;
use super::elf::{elf_headers_fit_spec, elf_parse, elf_perm, elf_permission, parse_elf, ElfImage, ElfKind, ElfSegment};
use crate::config::{mmio_regions, mmio_spec, MAX_THREADS, MEMORY_END, PAGE_SIZE, TRAMPOLINE, TRAP_CONTEXT, USER_STACK_SIZE};
use crate::task::uresource::{spec_trap_ctx_bottom, spec_ustack_bottom};
use vstd::prelude::*;

verus! {

/// The page of the trampoline: the last SV39 page.
pub open spec fn trampoline_vpn() -> u64 {
    0x7ff_ffff
}

/// Frame `q` holds a page's data: it is handed out, present, and not a
/// table of `table`.
pub open spec fn data_frame_ok(
    table: PageTable,
    mem: Map<u64, Seq<u64>>,
    fa: super::frame::FrameAllocatorModel,
    q: u64,
) -> bool {
    fa.is_allocated(q) && mem.contains_key(q) && !table.levels().contains_key(q)
}

/// The segment covers page `v`.
pub open spec fn in_seg(s: Segment, v: u64) -> bool {
    s.start() <= v < s.end()
}

/// A segment that an address space can hold: a range of SV39 pages below
/// the trampoline.
pub open spec fn seg_ok(s: Segment) -> bool {
    s.start() <= s.end() && s.end() < trampoline_vpn() + 1 && s.end() <= trampoline_vpn()
}

/// The two segments share no page.
pub open spec fn disjoint(a: Segment, b: Segment) -> bool {
    a.end() <= b.start() || b.end() <= a.start()
}

/// An address space: the page table of a process (or of the kernel) and the
/// segments it is made of.
pub struct AddressSpace {
    page_table: PageTable,
    segments: Vec<Segment>,
}

impl AddressSpace {
    /// The page table.
    pub closed spec fn table(&self) -> PageTable {
        self.page_table
    }

    /// The frame of the root table.
    pub open spec fn root(&self) -> u64 {
        self.table().root()
    }

    /// The segments, in the order they were added.
    pub closed spec fn segs(&self) -> Seq<Segment> {
        self.segments@
    }

    /// Some segment of the space covers page `v`.
    pub open spec fn covers(&self, v: u64) -> bool {
        exists|j: int| 0 <= j < self.segs().len() && #[trigger] in_seg(self.segs()[j], v)
    }

    /// The space is well formed in memory `mem` under allocator state `fa`:
    /// its table is; its segments are SV39 ranges below the trampoline that
    /// share no page; every mapped page of a segment is mapped the way the
    /// segment says; and a framed segment records a frame exactly for its
    /// mapped pages.
    pub open spec fn wf(&self, mem: Map<u64, Seq<u64>>, fa: super::frame::FrameAllocatorModel) -> bool {
        let segs = self.segs();
        let root = self.root();
        &&& self.table().wf(mem, fa)
        &&& forall|i: int| 0 <= i < segs.len() ==> seg_ok(#[trigger] segs[i])
        &&& forall|i: int, j: int| 0 <= i < j < segs.len() ==> disjoint(#[trigger] segs[i], #[trigger] segs[j])
        &&& forall|i: int, v: u64|
            #![trigger segs[i], is_mapped(mem, root, v)]
            0 <= i < segs.len() && in_seg(segs[i], v) && is_mapped(mem, root, v) ==> segs[i].holds_page(mem, root, v)
        &&& forall|i: int, v: u64|
            0 <= i < segs.len() && segs[i].map_type == MapType::Framed && #[trigger] segs[i].frames().contains_key(v)
                ==> in_seg(segs[i], v) && is_mapped(mem, root, v)
        &&& self.data_frames_ok(mem, fa)
    }

    /// The frames of the framed segments hold data: they are handed out,
    /// present, and not tables.
    pub open spec fn data_frames_ok(&self, mem: Map<u64, Seq<u64>>, fa: super::frame::FrameAllocatorModel) -> bool {
        forall|i: int, v: u64|
            0 <= i < self.segs().len() && self.segs()[i].map_type == MapType::Framed
                && #[trigger] self.segs()[i].frames().contains_key(v) ==> data_frame_ok(
                self.table(),
                mem,
                fa,
                self.segs()[i].frames()[v],
            )
    }

    /// An empty space: a fresh root table and no segment.
    pub fn new_bare(mem: &mut PhysMem, allocator: &mut StackFrameAllocator) -> (r: Self)
        requires
            old(allocator)@.wf(),
            old(allocator)@.free_count() >= 1,
        ensures
            r.wf(final(mem).view(), final(allocator)@),
            final(allocator)@.wf(),
            final(allocator)@.free_count() == old(allocator)@.free_count() - 1,
            r.segs() == Seq::<Segment>::empty(),
            forall|v: u64| !#[trigger] is_mapped(final(mem).view(), r.root(), v),
            forall|q: u64| #[trigger] r.table().levels().contains_key(q) ==> !old(allocator)@.is_allocated(q),
            forall|q: u64| old(allocator)@.is_allocated(q) ==> #[trigger] final(allocator)@.is_allocated(q),
            forall|q: u64| old(allocator)@.is_allocated(q) ==> final(mem).view().contains_key(q) == old(mem).view().contains_key(
                q,
            ) && #[trigger] final(mem).view()[q] == old(mem).view()[q],
    {
        proof {
            super::frame::lemma_alloc_takes_a_free_frame(old(allocator)@);
        }
        let page_table = PageTable::new(mem, allocator);
        AddressSpace { page_table, segments: Vec::new() }
    }

    /// Maps the trampoline page onto the frame of `strampoline`, readable
    /// and executable from the kernel only.
    pub fn map_trampoline(
        &mut self,
        mem: &mut PhysMem,
        allocator: &mut StackFrameAllocator,
        strampoline: u64,
    )
        requires
            old(self).wf(old(mem).view(), old(allocator)@),
            old(allocator)@.wf(),
            old(allocator)@.free_count() >= 2,
            !is_mapped(old(mem).view(), old(self).root(), trampoline_vpn()),
            strampoline < 0x100_0000_0000_0000,
        ensures
            final(self).wf(final(mem).view(), final(allocator)@),
            final(allocator)@.wf(),
            final(self).root() == old(self).root(),
            final(self).segs() == old(self).segs(),
            walk(final(mem).view(), final(self).root(), trampoline_vpn()) == Some(
                pte_make(strampoline / 4096, 2u8 | 8u8 | 1u8),
            ),
            forall|v: u64| v != trampoline_vpn() && sv39_vpn(v) ==> #[trigger] is_mapped(final(mem).view(), final(self).root(), v)
                == is_mapped(old(mem).view(), old(self).root(), v),
            final(allocator)@.free_count() >= old(allocator)@.free_count() - 2,
            forall|q: u64| old(allocator)@.is_allocated(q) ==> #[trigger] final(allocator)@.is_allocated(q),
            forall|q: u64| old(allocator)@.is_allocated(q) && !#[trigger] old(self).table().levels().contains_key(q)
                ==> final(mem).view().contains_key(q) == old(mem).view().contains_key(q)
                && final(mem).view()[q] == old(mem).view()[q],
            forall|q: u64| #[trigger] final(self).table().levels().contains_key(q) ==> old(self).table().levels().contains_key(q)
                || !old(allocator)@.is_allocated(q),
    {
        let vpn = VirtAddr::from(TRAMPOLINE).floor();
        let ppn = super::address::PhysAddr::from(strampoline).floor();
        proof {
            crate::bits::lemma_bit_constants();
            crate::bits::lemma_u64_masks();
            assert(strampoline & 0x00ff_ffff_ffff_ffffu64 == strampoline % 0x100_0000_0000_0000);
        }
        let flags = PTEFlags::R().union(PTEFlags::X());
        let ghost m0 = mem.view();
        let ghost t0 = self.page_table;
        proof {
            assert(tables_needed(m0, t0.root(), vpn.0) <= 2);
        }
        self.page_table.map(mem, allocator, vpn, ppn, flags);
        proof {
            let root = self.root();
            let tv = trampoline_vpn();
            assert forall|v: u64| v != tv && sv39_vpn(v) implies #[trigger] is_mapped(mem.view(), root, v)
                == is_mapped(m0, root, v) by {
                if same_indexes(v, tv) {
                    lemma_sv39_same_indexes(v, tv);
                }
                assert(translation(mem.view(), root, v) == translation(m0, root, v));
            }
            let segs = self.segs();
            assert forall|i: int, v: u64|
                0 <= i < segs.len() && in_seg(segs[i], v) && #[trigger] is_mapped(mem.view(), root, v)
                implies #[trigger] segs[i].holds_page(mem.view(), root, v) by {
                assert(seg_ok(segs[i]));
                if same_indexes(v, tv) {
                    lemma_sv39_same_indexes(v, tv);
                }
                assert(translation(mem.view(), root, v) == translation(m0, root, v));
                assert(is_mapped(m0, root, v));
                assert(segs[i].holds_page(m0, root, v));
                assert(walk(mem.view(), root, v) == walk(m0, root, v));
            }
            assert forall|i: int, v: u64|
                0 <= i < segs.len() && segs[i].map_type == MapType::Framed && #[trigger] segs[i].frames().contains_key(v)
                implies in_seg(segs[i], v) && is_mapped(mem.view(), root, v) by {
                assert(seg_ok(segs[i]));
                assert(is_mapped(m0, root, v));
                if same_indexes(v, tv) {
                    lemma_sv39_same_indexes(v, tv);
                }
                assert(translation(mem.view(), root, v) == translation(m0, root, v));
            }
        }
    }

    /// Maps every page of `segment` and adds it to the space. Its pages must
    /// be free: unmapped, and outside every segment of the space.
    fn map_and_add(&mut self, segment: Segment, mem: &mut PhysMem, allocator: &mut StackFrameAllocator)
        requires
            old(self).wf(old(mem).view(), old(allocator)@),
            old(allocator)@.wf(),
            seg_ok(segment),
            segment.map_type == MapType::Framed ==> segment.frames() == Map::<u64, u64>::empty(),
            forall|i: int| 0 <= i < old(self).segs().len() ==> disjoint(segment, #[trigger] old(self).segs()[i]),
            forall|v: u64| in_seg(segment, v) ==> !#[trigger] is_mapped(old(mem).view(), old(self).root(), v),
            old(allocator)@.free_count() >= segment.map_cost(),
        ensures
            final(self).wf(final(mem).view(), final(allocator)@),
            final(allocator)@.wf(),
            final(self).root() == old(self).root(),
            final(self).segs().len() == old(self).segs().len() + 1,
            final(self).segs().drop_last() == old(self).segs(),
            final(self).segs().last().vpn_range == segment.vpn_range,
            final(self).segs().last().map_type == segment.map_type,
            final(self).segs().last().map_perm == segment.map_perm,
            forall|v: u64| in_seg(segment, v) ==> #[trigger] final(self).segs().last().maps_page(
                final(mem).view(),
                final(self).root(),
                v,
            ),
            forall|v: u64| !in_seg(segment, v) && sv39_vpn(v) ==> #[trigger] is_mapped(final(mem).view(), final(self).root(), v)
                == is_mapped(old(mem).view(), old(self).root(), v),
            forall|v: u64| !in_seg(segment, v) && sv39_vpn(v) && is_mapped(old(mem).view(), old(self).root(), v)
                ==> #[trigger] walk(final(mem).view(), final(self).root(), v) == walk(old(mem).view(), old(self).root(), v),
            old(allocator)@.free_count() - segment.map_cost() <= final(allocator)@.free_count() <= old(allocator)@.free_count(),
            forall|q: u64| old(allocator)@.is_allocated(q) ==> #[trigger] final(allocator)@.is_allocated(q),
            forall|q: u64| old(allocator)@.is_allocated(q) && !#[trigger] old(self).table().levels().contains_key(q)
                ==> final(mem).view().contains_key(q) == old(mem).view().contains_key(q)
                && final(mem).view()[q] == old(mem).view()[q],
            forall|q: u64| #[trigger] final(self).table().levels().contains_key(q) ==> old(self).table().levels().contains_key(q)
                || !old(allocator)@.is_allocated(q),
            segment.map_type == MapType::Framed ==> forall|v: u64| in_seg(segment, v)
                ==> !old(allocator)@.is_allocated(#[trigger] final(self).segs().last().frames()[v])
                && final(self).segs().last().frames().contains_key(v),
            segment.map_type == MapType::Framed ==> forall|v: u64, w: u64| in_seg(segment, v) && in_seg(segment, w) && v != w
                ==> #[trigger] final(self).segs().last().frames()[v] != #[trigger] final(self).segs().last().frames()[w],
    {
        let mut segment = segment;
        let ghost m0 = mem.view();
        let ghost segs0 = self.segs();
        assert forall|v: u64| segment.start() <= v < segment.end() implies !#[trigger] is_mapped(
            mem.view(),
            self.page_table.root(),
            v,
        ) by {
            assert(in_seg(segment, v));
            assert(self.page_table.root() == old(self).root());
            assert(mem.view() == old(mem).view());
            assert(!is_mapped(old(mem).view(), old(self).root(), v));
        }
        segment.map(&mut self.page_table, mem, allocator);
        self.segments.push(segment);
        proof {
            let root = self.root();
            assert(root == old(self).root());
            let segs = self.segs();
            let n = segs0.len();
            assert(segs.drop_last() =~= segs0);
            assert(segs.last() == segment);
            if segment.map_type == MapType::Framed {
                assert forall|v: u64| in_seg(segment, v) implies !old(allocator)@.is_allocated(
                    #[trigger] segs.last().frames()[v],
                ) && segs.last().frames().contains_key(v) by {
                    assert(segment.maps_page(mem.view(), root, v));
                }
            }
            assert forall|v: u64| !in_seg(segment, v) && sv39_vpn(v) implies #[trigger] is_mapped(mem.view(), root, v)
                == is_mapped(m0, root, v) by {
                assert(translation(mem.view(), root, v) == translation(m0, root, v));
            }
            assert forall|i: int| 0 <= i < segs.len() implies seg_ok(#[trigger] segs[i]) by {
                if i < n {
                    assert(segs[i] == segs0[i]);
                }
            }
            assert forall|i: int, j: int| 0 <= i < j < segs.len() implies disjoint(#[trigger] segs[i], #[trigger] segs[j]) by {
                assert(segs[i] == segs0[i]);
                if j < n {
                    assert(segs[j] == segs0[j]);
                } else {
                    assert(disjoint(segment, segs0[i]));
                }
            }
            assert forall|i: int, v: u64|
                0 <= i < segs.len() && in_seg(segs[i], v) && #[trigger] is_mapped(mem.view(), root, v)
                implies #[trigger] segs[i].holds_page(mem.view(), root, v) by {
                if i < n {
                    assert(segs[i] == segs0[i]);
                    assert(seg_ok(segs0[i]));
                    lemma_sv39_range_member(segs0[i].start(), segs0[i].end(), v);
                    assert(disjoint(segment, segs0[i]));
                    assert(translation(mem.view(), root, v) == translation(m0, root, v));
                    assert(is_mapped(m0, old(self).root(), v));
                    assert(old(self).segs()[i] == segs0[i]);
                    assert(segs0[i].holds_page(m0, root, v));
                }
            }
            assert forall|i: int, v: u64|
                0 <= i < segs.len() && segs[i].map_type == MapType::Framed && #[trigger] segs[i].frames().contains_key(v)
                implies in_seg(segs[i], v) && is_mapped(mem.view(), root, v) by {
                if i < n {
                    assert(segs[i] == segs0[i]);
                    assert(seg_ok(segs0[i]));
                    assert(is_mapped(m0, root, v));
                    lemma_sv39_range_member(segs0[i].start(), segs0[i].end(), v);
                    assert(disjoint(segment, segs0[i]));
                    assert(translation(mem.view(), root, v) == translation(m0, root, v));
                } else {
                    assert(segs[i].maps_page(mem.view(), root, v));
                    let perm = segs[i].map_perm@;
                    crate::bits::lemma_u8_bits();
                    assert(((perm | 1u8) & 1u8) != 0);
                    lemma_pte_make_valid(segs[i].target(v), perm | 1u8);
                }
            }
        }
    }

    /// Maps every page of `segment`, copies `data` (if any) into its frames
    /// from the first page on, and adds it to the space. Its pages must be
    /// free: unmapped, and outside every segment of the space.
    fn push(&mut self, segment: Segment, data: Option<&[u8]>, mem: &mut PhysMem, allocator: &mut StackFrameAllocator)
        requires
            old(self).wf(old(mem).view(), old(allocator)@),
            old(allocator)@.wf(),
            seg_ok(segment),
            segment.map_type == MapType::Framed ==> segment.frames() == Map::<u64, u64>::empty(),
            forall|i: int| 0 <= i < old(self).segs().len() ==> disjoint(segment, #[trigger] old(self).segs()[i]),
            forall|v: u64| in_seg(segment, v) ==> !#[trigger] is_mapped(old(mem).view(), old(self).root(), v),
            old(allocator)@.free_count() >= segment.map_cost(),
            data matches Some(d) ==> segment.map_type == MapType::Framed && segment.start() < segment.end()
                && d@.len() <= (segment.end() - segment.start()) * 4096,
        ensures
            final(self).wf(final(mem).view(), final(allocator)@),
            final(allocator)@.wf(),
            final(self).root() == old(self).root(),
            final(self).segs().len() == old(self).segs().len() + 1,
            final(self).segs().drop_last() == old(self).segs(),
            final(self).segs().last().vpn_range == segment.vpn_range,
            final(self).segs().last().map_type == segment.map_type,
            final(self).segs().last().map_perm == segment.map_perm,
            forall|v: u64| in_seg(segment, v) ==> #[trigger] final(self).segs().last().maps_page(
                final(mem).view(),
                final(self).root(),
                v,
            ),
            forall|v: u64| !in_seg(segment, v) && sv39_vpn(v) ==> #[trigger] is_mapped(final(mem).view(), final(self).root(), v)
                == is_mapped(old(mem).view(), old(self).root(), v),
            forall|v: u64| !in_seg(segment, v) && sv39_vpn(v) && is_mapped(old(mem).view(), old(self).root(), v)
                ==> #[trigger] walk(final(mem).view(), final(self).root(), v) == walk(old(mem).view(), old(self).root(), v),
            old(allocator)@.free_count() - segment.map_cost() <= final(allocator)@.free_count() <= old(allocator)@.free_count(),
            forall|q: u64| old(allocator)@.is_allocated(q) ==> #[trigger] final(allocator)@.is_allocated(q),
            forall|q: u64| old(allocator)@.is_allocated(q) && !#[trigger] old(self).table().levels().contains_key(q)
                ==> final(mem).view().contains_key(q) == old(mem).view().contains_key(q)
                && final(mem).view()[q] == old(mem).view()[q],
            forall|q: u64| #[trigger] final(self).table().levels().contains_key(q) ==> old(self).table().levels().contains_key(q)
                || !old(allocator)@.is_allocated(q),
            segment.map_type == MapType::Framed ==> forall|v: u64| in_seg(segment, v)
                ==> !old(allocator)@.is_allocated(#[trigger] final(self).segs().last().frames()[v])
                && final(self).segs().last().frames().contains_key(v),
            data matches Some(d) ==> forall|k: int| 0 <= k < data_pages(d@.len() as int) ==> #[trigger] final(mem).view()[
                final(self).segs().last().frames()[(segment.start() + k) as u64]] == pack_page(data_chunk(d@, k)),
    {
        let ghost fa0 = allocator@;
        let ghost m0 = mem.view();
        self.map_and_add(segment, mem, allocator);
        let n = self.segments.len() - 1;
        let ghost m1 = mem.view();
        let ghost segs1 = self.segs();
        proof {
            assert(self.segments@[n as int] == segs1.last());
        }
        match data {
            Some(d) => {
                proof {
                    let last = segs1.last();
                    assert forall|v: u64| last.start() <= v < last.end() implies #[trigger] last.frames().contains_key(v) by {
                        assert(in_seg(segment, v));
                        assert(!fa0.is_allocated(last.frames()[v]));
                    }
                }
                self.segments[n].copy_data(mem, d);
                proof {
                    let last = segs1.last();
                    let root = self.root();
                    let fa = allocator@;
                    self.table().lemma_tables_in_mem(m1);
                    assert forall|x: u64| #[trigger] self.table().levels().contains_key(x) implies mem.view().contains_key(x)
                        && mem.view()[x] == m1[x] by {
                        if last.owns_frame(x) {
                            let v = choose|v: u64| last.start() <= v < last.end() && #[trigger] last.frames()[v] == x;
                            assert(segs1[n as int] == last);
                            assert(segs1[n as int].frames().contains_key(v));
                            assert(data_frame_ok(self.table(), m1, fa, last.frames()[v]));
                        }
                        assert(self.table().wf(m1, fa));
                    }
                    self.table().lemma_same_tables(m1, mem.view());
                    assert forall|v: u64| #[trigger] is_mapped(mem.view(), root, v) == is_mapped(m1, root, v)
                        && walk(mem.view(), root, v) == walk(m1, root, v) by {
                        assert(walk(mem.view(), root, v) == walk(m1, root, v));
                    }
                    assert(self.segs() == segs1);
                    assert forall|v: u64| in_seg(segment, v) implies #[trigger] segs1.last().maps_page(mem.view(), root, v) by {
                        assert(segs1.last().maps_page(m1, root, v));
                        assert(walk(mem.view(), root, v) == walk(m1, root, v));
                    }
                    let segs = segs1;
                    assert forall|i: int, v: u64|
                        #![trigger segs[i], is_mapped(mem.view(), root, v)]
                        0 <= i < segs.len() && in_seg(segs[i], v) && is_mapped(mem.view(), root, v) implies segs[i].holds_page(
                        mem.view(),
                        root,
                        v,
                    ) by {
                        assert(is_mapped(m1, root, v));
                    }
                    assert forall|i: int, v: u64|
                        0 <= i < segs.len() && segs[i].map_type == MapType::Framed && #[trigger] segs[i].frames().contains_key(v)
                        implies in_seg(segs[i], v) && is_mapped(mem.view(), root, v) by {
                        assert(is_mapped(m1, root, v));
                    }
                    assert forall|i: int, v: u64|
                        0 <= i < segs.len() && segs[i].map_type == MapType::Framed && #[trigger] segs[i].frames().contains_key(v)
                        implies data_frame_ok(self.table(), mem.view(), fa, segs[i].frames()[v]) by {
                        let q = segs[i].frames()[v];
                        assert(data_frame_ok(self.table(), m1, fa, q));
                        if !last.owns_frame(q) {
                        } else {
                            assert(m1.contains_key(q));
                        }
                    }
                    assert forall|q: u64| fa0.is_allocated(q) && !#[trigger] old(self).table().levels().contains_key(q)
                        implies mem.view().contains_key(q) == old(mem).view().contains_key(q)
                        && mem.view()[q] == old(mem).view()[q] by {
                        if last.owns_frame(q) {
                            let w = choose|w: u64| last.start() <= w < last.end() && #[trigger] last.frames()[w] == q;
                            assert(!fa0.is_allocated(last.frames()[w]));
                        }
                    }
                }
            },
            None => {},
        }
    }

    /// The pages `[start, end)` can take a new segment of the space: they lie
    /// below the trampoline, outside every segment, and none is mapped.
    pub open spec fn pages_free(&self, mem: Map<u64, Seq<u64>>, start: int, end: int) -> bool {
        &&& 0 <= start <= end <= trampoline_vpn()
        &&& forall|i: int|
            0 <= i < self.segs().len() ==> end <= (#[trigger] self.segs()[i]).start() || self.segs()[i].end() <= start
        &&& forall|v: u64| start <= v < end ==> !#[trigger] is_mapped(mem, self.root(), v)
    }

    /// Maps the pages that cover `[start_va, end_va)` to fresh frames with
    /// `permission` and adds them to the space as a new framed segment.
    pub fn insert_framed_segment(
        &mut self,
        start_va: VirtAddr,
        end_va: VirtAddr,
        permission: MapPermission,
        mem: &mut PhysMem,
        allocator: &mut StackFrameAllocator,
    )
        requires
            old(self).wf(old(mem).view(), old(allocator)@),
            old(allocator)@.wf(),
            1 <= end_va.0,
            end_va.0 - 1 + 4096 <= u64::MAX,
            old(self).pages_free(old(mem).view(), page_floor(start_va.0 as int), page_ceil(end_va.0 as int)),
            old(allocator)@.free_count() >= page_ceil(end_va.0 as int) - page_floor(start_va.0 as int) + 2 * page_blocks(
                page_floor(start_va.0 as int),
                page_ceil(end_va.0 as int),
            ),
        ensures
            final(self).wf(final(mem).view(), final(allocator)@),
            final(allocator)@.wf(),
            final(self).root() == old(self).root(),
            final(self).segs().drop_last() == old(self).segs(),
            final(self).segs().len() == old(self).segs().len() + 1,
            final(self).segs().last().start() == page_floor(start_va.0 as int),
            final(self).segs().last().end() == page_ceil(end_va.0 as int),
            final(self).segs().last().map_type == MapType::Framed,
            final(self).segs().last().map_perm == permission,
            forall|v: u64| page_floor(start_va.0 as int) <= v < page_ceil(end_va.0 as int)
                ==> #[trigger] final(self).segs().last().maps_page(final(mem).view(), final(self).root(), v),
            forall|v: u64|
                !(page_floor(start_va.0 as int) <= v < page_ceil(end_va.0 as int)) && sv39_vpn(v) ==> #[trigger] is_mapped(
                    final(mem).view(),
                    final(self).root(),
                    v,
                ) == is_mapped(old(mem).view(), old(self).root(), v),
            forall|q: u64| old(allocator)@.is_allocated(q) ==> #[trigger] final(allocator)@.is_allocated(q),
    {
        let segment = Segment::new(start_va, end_va, MapType::Framed, permission);
        proof {
            assert forall|i: int| 0 <= i < old(self).segs().len() implies disjoint(segment, #[trigger] old(self).segs()[i]) by {}
        }
        self.push(segment, None, mem, allocator);
    }

    /// Adds `segment` without mapping anything: its pages get frames when
    /// first touched. Its pages must be free: unmapped, and outside every
    /// segment of the space.
    fn push_lazy(&mut self, segment: Segment, mem: &PhysMem, allocator: &StackFrameAllocator)
        requires
            old(self).wf(mem.view(), allocator@),
            seg_ok(segment),
            segment.frames() == Map::<u64, u64>::empty(),
            forall|i: int| 0 <= i < old(self).segs().len() ==> disjoint(segment, #[trigger] old(self).segs()[i]),
            forall|v: u64| in_seg(segment, v) ==> !#[trigger] is_mapped(mem.view(), old(self).root(), v),
        ensures
            final(self).wf(mem.view(), allocator@),
            final(self).root() == old(self).root(),
            final(self).table() == old(self).table(),
            final(self).segs() == old(self).segs().push(segment),
    {
        let ghost segs0 = self.segs();
        self.segments.push(segment);
        proof {
            let segs = self.segs();
            let n = segs0.len();
            let root = self.root();
            assert forall|i: int, j: int| 0 <= i < j < segs.len() implies disjoint(#[trigger] segs[i], #[trigger] segs[j]) by {
                if j == n {
                    assert(disjoint(segment, segs0[i]));
                }
            }
            assert forall|i: int, v: u64|
                #![trigger segs[i], is_mapped(mem.view(), root, v)]
                0 <= i < segs.len() && in_seg(segs[i], v) && is_mapped(mem.view(), root, v) implies segs[i].holds_page(
                mem.view(),
                root,
                v,
            ) by {
                assert(root == old(self).root());
                if i == n {
                    assert(segs[i] == segment);
                    assert(!is_mapped(mem.view(), old(self).root(), v));
                } else {
                    assert(segs[i] == segs0[i]);
                    assert(root == old(self).root());
                    assert(old(self).segs()[i] == segs0[i]);
                    assert(old(self).segs()[i].holds_page(mem.view(), old(self).root(), v));
                }
            }
        }
    }

    /// Whether `vaddr` lies in a segment whose permission holds `perm` and
    /// U: an access there that faulted can be served by mapping the page.
    pub fn is_page_fault(&self, vaddr: u64, perm: MapPermission) -> (r: bool)
        requires
            forall|i: int| 0 <= i < self.segs().len() ==> seg_ok(#[trigger] self.segs()[i]),
            perm.wf(),
        ensures
            r == exists|i: int|
                0 <= i < self.segs().len() && #[trigger] self.segs()[i].start() * 4096 <= vaddr < self.segs()[i].end() * 4096
                    && self.segs()[i].map_perm@ & (perm@ | 16u8) == (perm@ | 16u8),
    {
        let wanted = perm.union(MapPermission::U());
        let mut i: usize = 0;
        while i < self.segments.len()
            invariant
                i <= self.segments@.len(),
                self.segments@ == self.segs(),
                forall|k: int| 0 <= k < self.segs().len() ==> seg_ok(#[trigger] self.segs()[k]),
                wanted@ == perm@ | 16u8,
                forall|k: int|
                    0 <= k < i ==> !(#[trigger] self.segs()[k].start() * 4096 <= vaddr < self.segs()[k].end() * 4096
                        && self.segs()[k].map_perm@ & (perm@ | 16u8) == (perm@ | 16u8)),
            decreases self.segments@.len() - i,
        {
            let seg = &self.segments[i];
            proof {
                assert(seg_ok(self.segs()[i as int]));
            }
            if seg.contains(vaddr) && seg.map_perm.contains(wanted) {
                return true;
            }
            i = i + 1;
        }
        false
    }

    /// Maps the page of `vaddr` in the segment that holds it, taking a frame
    /// for it when the segment is framed; returns the frame. The page must
    /// not be mapped yet and a segment must hold it.
    pub fn map_phys_page(&mut self, vaddr: u64, mem: &mut PhysMem, allocator: &mut StackFrameAllocator) -> (r: PhysPageNum)
        requires
            old(self).wf(old(mem).view(), old(allocator)@),
            old(allocator)@.wf(),
            old(allocator)@.free_count() >= 3,
            !is_mapped(old(mem).view(), old(self).root(), vaddr / 4096),
            exists|i: int| 0 <= i < old(self).segs().len() && #[trigger] in_seg(old(self).segs()[i], vaddr / 4096),
        ensures
            final(self).wf(final(mem).view(), final(allocator)@),
            final(allocator)@.wf(),
            final(self).root() == old(self).root(),
            final(self).segs().len() == old(self).segs().len(),
            exists|i: int|
                0 <= i < old(self).segs().len() && #[trigger] in_seg(old(self).segs()[i], vaddr / 4096)
                && final(self).segs() == old(self).segs().update(i, final(self).segs()[i])
                && final(self).segs()[i].vpn_range == old(self).segs()[i].vpn_range
                && final(self).segs()[i].map_type == old(self).segs()[i].map_type
                && final(self).segs()[i].map_perm == old(self).segs()[i].map_perm
                && walk(final(mem).view(), final(self).root(), vaddr / 4096) == Some(
                    pte_make(r.0, old(self).segs()[i].map_perm@ | 1u8),
                )
                && (old(self).segs()[i].map_type == MapType::Identical ==> r.0 == vaddr / 4096
                    && final(self).segs()[i].frames() == old(self).segs()[i].frames())
                && (old(self).segs()[i].map_type == MapType::Framed ==> !old(allocator)@.is_allocated(r.0)
                    && final(self).segs()[i].frames() == old(self).segs()[i].frames().insert(vaddr / 4096, r.0)),
            is_mapped(final(mem).view(), final(self).root(), vaddr / 4096),
            forall|v: u64| v != vaddr / 4096 && sv39_vpn(v) ==> #[trigger] is_mapped(final(mem).view(), final(self).root(), v)
                == is_mapped(old(mem).view(), old(self).root(), v),
            forall|v: u64| v != vaddr / 4096 && sv39_vpn(v) && is_mapped(old(mem).view(), old(self).root(), v)
                ==> #[trigger] walk(final(mem).view(), final(self).root(), v) == walk(old(mem).view(), old(self).root(), v),
            forall|q: u64| old(allocator)@.is_allocated(q) ==> #[trigger] final(allocator)@.is_allocated(q),
            forall|q: u64| old(allocator)@.is_allocated(q) && !#[trigger] old(self).table().levels().contains_key(q)
                ==> final(mem).view().contains_key(q) == old(mem).view().contains_key(q)
                && final(mem).view()[q] == old(mem).view()[q],
            final(allocator)@.free_count() >= old(allocator)@.free_count() - 3,
    {
        let vpn = VirtAddr(vaddr).floor();
        let ghost segs0 = self.segs();
        let ghost m0 = mem.view();
        let ghost fa0 = allocator@;
        let ghost root = self.root();
        let mut i: usize = 0;
        while i < self.segments.len()
            invariant
                i <= self.segments@.len(),
                self.segments@ == segs0,
                self.segs() == segs0,
                *self == *old(self),
                mem.view() == m0,
                m0 == old(mem).view(),
                allocator@ == fa0,
                fa0 == old(allocator)@,
                root == old(self).root(),
                old(self).wf(m0, fa0),
                fa0.wf(),
                fa0.free_count() >= 3,
                !is_mapped(m0, root, vaddr / 4096),
                vpn.0 == vaddr / 4096,
                forall|k: int| 0 <= k < segs0.len() ==> seg_ok(#[trigger] segs0[k]),
                forall|k: int| 0 <= k < i ==> !#[trigger] in_seg(segs0[k], vaddr / 4096),
                exists|k: int| 0 <= k < segs0.len() && #[trigger] in_seg(segs0[k], vaddr / 4096),
            decreases self.segments@.len() - i,
        {
            proof {
                assert(seg_ok(segs0[i as int]));
            }
            if self.segments[i].contains(vaddr) {
                let mut seg = self.segments.remove(i);
                proof {
                    assert(seg == segs0[i as int]);
                    assert(in_seg(seg, vpn.0));
                    if seg.map_type == MapType::Framed && seg.frames().contains_key(vpn.0) {
                        assert(old(self).segs()[i as int].frames().contains_key(vpn.0));
                    }
                    assert(tables_needed(m0, root, vpn.0) <= 2);
                }
                let r = seg.alloc_one(&mut self.page_table, mem, allocator, vpn);
                self.segments.insert(i, seg);
                proof {
                    let segs = self.segs();
                    let k = i as int;
                    assert(segs == segs0.update(k, seg));
                    assert forall|v: u64| v != vpn.0 && sv39_vpn(v) implies #[trigger] is_mapped(mem.view(), root, v)
                        == is_mapped(m0, root, v) by {
                        if same_indexes(v, vpn.0) {
                            lemma_sv39_range_member(segs0[k].start(), segs0[k].end(), vpn.0);
                            lemma_sv39_same_indexes(v, vpn.0);
                        }
                        assert(translation(mem.view(), root, v) == translation(m0, root, v));
                    }
                    assert forall|v: u64| v != vpn.0 && sv39_vpn(v) && is_mapped(m0, root, v)
                        implies #[trigger] walk(mem.view(), root, v) == walk(m0, root, v) by {
                        if same_indexes(v, vpn.0) {
                            lemma_sv39_range_member(segs0[k].start(), segs0[k].end(), vpn.0);
                            lemma_sv39_same_indexes(v, vpn.0);
                        }
                    }
                    let m1 = mem.view();
                    let fa1 = allocator@;
                    let v0 = vpn.0;
                    let perm0 = seg.map_perm@;
                    crate::bits::lemma_u8_bits();
                    assert(((perm0 | 1u8) & 1u8) != 0);
                    lemma_pte_make_valid(r.0, perm0 | 1u8);
                    assert forall|j: int| 0 <= j < segs.len() implies seg_ok(#[trigger] segs[j]) by {
                        assert(seg_ok(segs0[j]));
                    }
                    assert forall|a: int, b: int| 0 <= a < b < segs.len() implies disjoint(#[trigger] segs[a], #[trigger] segs[b]) by {
                        assert(disjoint(segs0[a], segs0[b]));
                    }
                    assert forall|j: int, v: u64|
                        #![trigger segs[j], is_mapped(m1, root, v)]
                        0 <= j < segs.len() && in_seg(segs[j], v) && is_mapped(m1, root, v) implies segs[j].holds_page(m1, root, v) by {
                        if v == v0 {
                            if j != k {
                                assert(disjoint(segs0[j], segs0[k]) || disjoint(segs0[k], segs0[j]));
                            }
                        } else {
                            lemma_sv39_range_member(segs0[j].start(), segs0[j].end(), v);
                            assert(is_mapped(m0, root, v));
                            assert(segs0[j].holds_page(m0, root, v));
                        }
                    }
                    assert forall|j: int, v: u64|
                        0 <= j < segs.len() && segs[j].map_type == MapType::Framed && #[trigger] segs[j].frames().contains_key(v)
                        implies in_seg(segs[j], v) && is_mapped(m1, root, v) && data_frame_ok(self.table(), m1, fa1, segs[j].frames()[v]) by {
                        if j == k && v == v0 {
                            assert(seg.maps_page(m1, root, v0));
                            let perm = seg.map_perm@;
                            crate::bits::lemma_u8_bits();
                    assert(((perm | 1u8) & 1u8) != 0);
                            lemma_pte_make_valid(seg.target(v0), perm | 1u8);
                        } else {
                            assert(segs0[j].frames().contains_key(v));
                            assert(segs[j].frames()[v] == segs0[j].frames()[v]);
                            let q = segs0[j].frames()[v];
                            assert(data_frame_ok(old(self).table(), m0, fa0, q));
                            assert(is_mapped(m0, root, v));
                            lemma_sv39_range_member(segs0[j].start(), segs0[j].end(), v);
                        }
                    }
                }
                return r;
            }
            i = i + 1;
        }
        proof {
            let k = choose|k: int| 0 <= k < segs0.len() && #[trigger] in_seg(segs0[k], vaddr / 4096);
            assert(k >= i);
        }
        PhysPageNum(0)
    }

    /// Takes W away from the entries of the mapped pages of framed segment
    /// `j`, keeping their frames: they become copy-on-write pages. The
    /// segment's own permission is left as it is.
    pub fn protect_segment(&mut self, j: usize, mem: &mut PhysMem, allocator: &mut StackFrameAllocator)
        requires
            old(self).wf(old(mem).view(), old(allocator)@),
            old(allocator)@.wf(),
            j < old(self).segs().len(),
            old(self).segs()[j as int].map_type == MapType::Framed,
        ensures
            final(self).wf(final(mem).view(), final(allocator)@),
            final(allocator)@.wf(),
            final(self).segs() == old(self).segs(),
            final(self).root() == old(self).root(),
            final(allocator)@.free_count() == old(allocator)@.free_count(),
            forall|v: u64|
                #[trigger] old(self).segs()[j as int].frames().contains_key(v) ==> walk(final(mem).view(), final(self).root(), v)
                    == Some(pte_make(old(self).segs()[j as int].frames()[v], (old(self).segs()[j as int].map_perm@ & !4u8) | 1u8)),
            forall|v: u64| !in_seg(old(self).segs()[j as int], v) && sv39_vpn(v) ==> #[trigger] is_mapped(final(mem).view(), final(self).root(), v)
                == is_mapped(old(mem).view(), old(self).root(), v),
            forall|v: u64| !in_seg(old(self).segs()[j as int], v) && sv39_vpn(v) && is_mapped(old(mem).view(), old(self).root(), v)
                ==> #[trigger] walk(final(mem).view(), final(self).root(), v) == walk(old(mem).view(), old(self).root(), v),
            forall|q: u64| old(allocator)@.is_allocated(q) ==> #[trigger] final(allocator)@.is_allocated(q),
            forall|q: u64| old(allocator)@.is_allocated(q) && !#[trigger] old(self).table().levels().contains_key(q)
                ==> final(mem).view().contains_key(q) == old(mem).view().contains_key(q)
                && final(mem).view()[q] == old(mem).view()[q],
            forall|q: u64| #[trigger] final(self).table().levels().contains_key(q) ==> old(self).table().levels().contains_key(q)
                || !old(allocator)@.is_allocated(q),
    {
        let ghost segs0 = self.segs();
        let ghost m0 = mem.view();
        let ghost fa0 = allocator@;
        let ghost root = self.root();
        let ghost t0 = self.table();
        let ghost seg = segs0[j as int];
        let start = self.segments[j].vpn_range.get_start().0;
        let end = self.segments[j].vpn_range.get_end().0;
        let pb = self.segments[j].map_perm.bits();
        let flags = PTEFlags::from_bits(pb & 0xfbu8).unwrap();
        proof {
            assert(seg_ok(seg));
            assert(pb & 0xfbu8 == pb & !4u8) by (bit_vector);
        }
        let mut v = start;
        while v < end
            invariant
                start == seg.start(),
                end == seg.end(),
                seg_ok(seg),
                start <= v <= end,
                seg == segs0[j as int],
                j < segs0.len(),
                seg.map_type == MapType::Framed,
                flags@ == seg.map_perm@ & !4u8,
                self.wf(mem.view(), allocator@),
                allocator@.wf(),
                self.segs() == segs0,
                self.root() == root,
                root == old(self).root(),
                t0 == old(self).table(),
                segs0 == old(self).segs(),
                m0 == old(mem).view(),
                fa0 == old(allocator)@,
                allocator@.free_count() == fa0.free_count(),
                forall|w: u64|
                    start <= w < v && #[trigger] seg.frames().contains_key(w) ==> walk(mem.view(), root, w) == Some(
                        pte_make(seg.frames()[w], (seg.map_perm@ & !4u8) | 1u8),
                    ),
                forall|w: u64| !(start <= w < v) && sv39_vpn(w) ==> #[trigger] is_mapped(mem.view(), root, w) == is_mapped(m0, root, w),
                forall|w: u64| !(start <= w < v) && sv39_vpn(w) && is_mapped(m0, root, w) ==> #[trigger] walk(mem.view(), root, w)
                    == walk(m0, root, w),
                forall|q: u64| fa0.is_allocated(q) ==> #[trigger] allocator@.is_allocated(q),
                forall|q: u64| fa0.is_allocated(q) && !#[trigger] t0.levels().contains_key(q)
                    ==> mem.view().contains_key(q) == m0.contains_key(q) && mem.view()[q] == m0[q],
                forall|q: u64| #[trigger] self.table().levels().contains_key(q) ==> t0.levels().contains_key(q)
                    || !fa0.is_allocated(q),
            decreases end - v,
        {
            let ghost prev = *self;
            let ghost mp = mem.view();
            let ghost fap = allocator@;
            match self.segments[j].data_frames.get(&v) {
                Some(f) => {
                    let f = *f;
                    proof {
                        assert(segs0[j as int].frames().contains_key(v));
                        assert(is_mapped(mp, root, v));
                        assert(tables_needed(mp, root, v) == 0);
                    }
                    self.page_table.relink(mem, allocator, VirtPageNum(v), PhysPageNum(f), flags);
                    proof {
                        assert(seg.frames().insert(v, f) =~= seg.frames());
                        assert(data_frame_ok(prev.table(), mp, fap, f));
                        lemma_fix_keeps_wf(prev, *self, mp, mem.view(), fap, allocator@, j as int, v, f, true);
                        assert forall|w: u64|
                            start <= w < v + 1 && #[trigger] seg.frames().contains_key(w) implies walk(mem.view(), root, w)
                                == Some(pte_make(seg.frames()[w], (seg.map_perm@ & !4u8) | 1u8)) by {
                            if w != v {
                                lemma_sv39_range_member(seg.start(), seg.end(), w);
                                assert(is_mapped(mp, root, w));
                            }
                        }
                        assert forall|w: u64| !(start <= w < v + 1) && sv39_vpn(w) implies #[trigger] is_mapped(mem.view(), root, w)
                            == is_mapped(m0, root, w) by {
                            assert(w != v);
                        }
                        assert forall|w: u64| !(start <= w < v + 1) && sv39_vpn(w) && is_mapped(m0, root, w)
                            implies #[trigger] walk(mem.view(), root, w) == walk(m0, root, w) by {
                            assert(w != v);
                            assert(is_mapped(mp, root, w));
                        }
                        assert forall|q: u64| fa0.is_allocated(q) && !#[trigger] t0.levels().contains_key(q)
                            implies mem.view().contains_key(q) == m0.contains_key(q) && mem.view()[q] == m0[q] by {
                            assert(fap.is_allocated(q));
                            assert(!prev.table().levels().contains_key(q));
                        }
                        assert forall|q: u64| #[trigger] self.table().levels().contains_key(q) implies t0.levels().contains_key(q)
                            || !fa0.is_allocated(q) by {
                            if fa0.is_allocated(q) {
                                assert(fap.is_allocated(q));
                            }
                        }
                    }
                },
                None => {
                    proof {
                        assert(!seg.frames().contains_key(v));
                    }
                },
            }
            v = v + 1;
        }
    }

    /// Adds a segment with the range, kind and permission of the framed
    /// segment `src` of another space, whose pages share the frames of
    /// `src`: each page that has a frame there is mapped to that frame, with
    /// W taken away when `cow`. Each shared frame gets one more holder per
    /// page that uses it.
    pub fn from_another(
        &mut self,
        src: &Segment,
        cow: bool,
        mem: &mut PhysMem,
        allocator: &mut StackFrameAllocator,
        refs: &mut FrameRefs,
    )
        requires
            old(self).wf(old(mem).view(), old(allocator)@),
            old(allocator)@.wf(),
            src.map_type == MapType::Framed,
            seg_ok(*src),
            forall|i: int| 0 <= i < old(self).segs().len() ==> disjoint(*src, #[trigger] old(self).segs()[i]),
            forall|v: u64| in_seg(*src, v) ==> !#[trigger] is_mapped(old(mem).view(), old(self).root(), v),
            forall|v: u64| #[trigger] src.frames().contains_key(v) ==> in_seg(*src, v) && old(allocator)@.is_allocated(
                src.frames()[v],
            ) && old(mem).view().contains_key(src.frames()[v]) && !old(self).table().levels().contains_key(src.frames()[v]),
            old(allocator)@.free_count() >= 2 * (src.end() - src.start()),
            forall|q: u64| #[trigger] holders(old(refs)@, q) + (src.end() - src.start()) <= u64::MAX,
        ensures
            final(self).wf(final(mem).view(), final(allocator)@),
            final(allocator)@.wf(),
            final(self).root() == old(self).root(),
            final(self).segs().len() == old(self).segs().len() + 1,
            final(self).segs().drop_last() == old(self).segs(),
            final(self).segs().last().vpn_range == src.vpn_range,
            final(self).segs().last().map_type == MapType::Framed,
            final(self).segs().last().map_perm == src.map_perm,
            final(self).segs().last().frames() == src.frames(),
            forall|v: u64| #[trigger] src.frames().contains_key(v) ==> walk(final(mem).view(), final(self).root(), v) == Some(
                pte_make(src.frames()[v], (if cow { src.map_perm@ & !4u8 } else { src.map_perm@ }) | 1u8),
            ),
            forall|v: u64| !in_seg(*src, v) && sv39_vpn(v) ==> #[trigger] is_mapped(final(mem).view(), final(self).root(), v)
                == is_mapped(old(mem).view(), old(self).root(), v),
            forall|v: u64| !in_seg(*src, v) && sv39_vpn(v) && is_mapped(old(mem).view(), old(self).root(), v)
                ==> #[trigger] walk(final(mem).view(), final(self).root(), v) == walk(old(mem).view(), old(self).root(), v),
            forall|q: u64| old(allocator)@.is_allocated(q) ==> #[trigger] final(allocator)@.is_allocated(q),
            forall|q: u64| old(allocator)@.is_allocated(q) && !#[trigger] old(self).table().levels().contains_key(q)
                ==> final(mem).view().contains_key(q) == old(mem).view().contains_key(q)
                && final(mem).view()[q] == old(mem).view()[q],
            forall|q: u64| #[trigger] final(self).table().levels().contains_key(q) ==> old(self).table().levels().contains_key(q)
                || !old(allocator)@.is_allocated(q),
            final(allocator)@.free_count() >= old(allocator)@.free_count() - 2 * (src.end() - src.start()),
            forall|q: u64| #[trigger] holders(final(refs)@, q) == holders(old(refs)@, q) + sharers(
                src.frames(),
                q,
                src.start() as int,
                src.end() as int,
            ),
    {
        broadcast use vstd::std_specs::hash::group_hash_axioms;
        let ghost segs0 = self.segs();
        let ghost m0 = mem.view();
        let ghost fa0 = allocator@;
        let ghost root = self.root();
        let ghost t0 = self.table();
        let ghost refs0 = refs@;
        let start = src.vpn_range.get_start().0;
        let end = src.vpn_range.get_end().0;
        let pb = src.map_perm.bits();
        let fb = if cow { pb & 0xfbu8 } else { pb };
        let flags = PTEFlags::from_bits(fb).unwrap();
        proof {
            assert(pb & 0xfbu8 == pb & !4u8) by (bit_vector);
        }
        let mut frames: HashMapWithView<u64, u64> = HashMapWithView::new();
        let mut v = start;
        while v < end
            invariant
                start == src.start(),
                end == src.end(),
                seg_ok(*src),
                start <= v <= end,
                flags@ == (if cow { src.map_perm@ & !4u8 } else { src.map_perm@ }),
                self.wf(mem.view(), allocator@),
                allocator@.wf(),
                self.segs() == segs0,
                self.root() == root,
                root == old(self).root(),
                t0 == old(self).table(),
                segs0 == old(self).segs(),
                m0 == old(mem).view(),
                fa0 == old(allocator)@,
                refs0 == old(refs)@,
                forall|i: int| 0 <= i < segs0.len() ==> disjoint(*src, #[trigger] segs0[i]),
                forall|w: u64| #[trigger] src.frames().contains_key(w) ==> in_seg(*src, w) && fa0.is_allocated(src.frames()[w])
                    && m0.contains_key(src.frames()[w]) && !t0.levels().contains_key(src.frames()[w]),
                allocator@.free_count() >= 2 * (end - v),
                allocator@.free_count() >= fa0.free_count() - 2 * (v - start),
                forall|w: u64| #[trigger] frames@.contains_key(w) == (start <= w < v && src.frames().contains_key(w)),
                forall|w: u64| #[trigger] frames@.contains_key(w) ==> frames@[w] == src.frames()[w],
                forall|w: u64|
                    start <= w < v && #[trigger] src.frames().contains_key(w) ==> walk(mem.view(), root, w) == Some(
                        pte_make(src.frames()[w], (if cow { src.map_perm@ & !4u8 } else { src.map_perm@ }) | 1u8),
                    ),
                forall|w: u64| in_seg(*src, w) && !(start <= w < v && src.frames().contains_key(w))
                    ==> !#[trigger] is_mapped(mem.view(), root, w),
                forall|w: u64| !in_seg(*src, w) && sv39_vpn(w) ==> #[trigger] is_mapped(mem.view(), root, w) == is_mapped(m0, root, w),
                forall|w: u64| !in_seg(*src, w) && sv39_vpn(w) && is_mapped(m0, root, w) ==> #[trigger] walk(mem.view(), root, w)
                    == walk(m0, root, w),
                forall|q: u64| fa0.is_allocated(q) ==> #[trigger] allocator@.is_allocated(q),
                forall|q: u64| fa0.is_allocated(q) && !#[trigger] t0.levels().contains_key(q)
                    ==> mem.view().contains_key(q) == m0.contains_key(q) && mem.view()[q] == m0[q],
                forall|q: u64| #[trigger] self.table().levels().contains_key(q) ==> t0.levels().contains_key(q)
                    || !fa0.is_allocated(q),
                forall|q: u64| #[trigger] holders(old(refs)@, q) + (src.end() - src.start()) <= u64::MAX,
                forall|q: u64| #[trigger] holders(refs@, q) == holders(refs0, q) + sharers(src.frames(), q, start as int, v as int),
            decreases end - v,
        {
            let ghost prev = *self;
            let ghost mp = mem.view();
            let ghost fap = allocator@;
            let ghost rp = refs@;
            proof {
                lemma_sharers_step(src.frames(), start as int, v as int);
            }
            match src.data_frames.get(&v) {
                Some(f) => {
                    let f = *f;
                    proof {
                        assert(src.frames().contains_key(v));
                        assert(!is_mapped(mp, root, v));
                        assert(tables_needed(mp, root, v) <= 2);
                        lemma_sv39_range_member(src.start(), src.end(), v);
                        assert forall|i: int| 0 <= i < segs0.len() implies !#[trigger] in_seg(segs0[i], v) by {
                            assert(disjoint(*src, segs0[i]));
                        }
                        lemma_sharers_bound(src.frames(), f, start as int, v as int);
                    }
                    self.page_table.map(mem, allocator, VirtPageNum(v), PhysPageNum(f), flags);
                    frames.insert(v, f);
                    refs.share(f);
                    proof {
                        lemma_page_outside_keeps_wf(prev, *self, mp, mem.view(), fap, allocator@, v);
                        assert forall|w: u64|
                            start <= w < v + 1 && #[trigger] src.frames().contains_key(w) implies walk(mem.view(), root, w) == Some(
                                pte_make(src.frames()[w], (if cow { src.map_perm@ & !4u8 } else { src.map_perm@ }) | 1u8),
                            ) by {
                            if w != v {
                                lemma_sv39_range_member(src.start(), src.end(), w);
                                let pf = if cow { src.map_perm@ & !4u8 } else { src.map_perm@ };
                                crate::bits::lemma_u8_bits();
                                assert(((pf | 1u8) & 1u8) != 0);
                                lemma_pte_make_valid(src.frames()[w], pf | 1u8);
                                assert(is_mapped(mp, root, w));
                            } else {
                                assert(f == src.frames()[v]);
                                assert(walk(mem.view(), root, v) == Some(pte_make(f, flags@ | 1u8)));
                            }
                        }
                        assert forall|w: u64| in_seg(*src, w) && !(start <= w < v + 1 && src.frames().contains_key(w))
                            implies !#[trigger] is_mapped(mem.view(), root, w) by {
                            lemma_sv39_range_member(src.start(), src.end(), w);
                            assert(w != v);
                        }
                        assert forall|w: u64| !in_seg(*src, w) && sv39_vpn(w) implies #[trigger] is_mapped(mem.view(), root, w)
                            == is_mapped(m0, root, w) by {
                            assert(w != v);
                        }
                        assert forall|w: u64| !in_seg(*src, w) && sv39_vpn(w) && is_mapped(m0, root, w)
                            implies #[trigger] walk(mem.view(), root, w) == walk(m0, root, w) by {
                            assert(w != v);
                            assert(is_mapped(mp, root, w));
                        }
                        assert forall|q: u64| fa0.is_allocated(q) && !#[trigger] t0.levels().contains_key(q)
                            implies mem.view().contains_key(q) == m0.contains_key(q) && mem.view()[q] == m0[q] by {
                            assert(fap.is_allocated(q));
                            assert(!prev.table().levels().contains_key(q));
                        }
                        assert forall|q: u64| #[trigger] self.table().levels().contains_key(q) implies t0.levels().contains_key(q)
                            || !fa0.is_allocated(q) by {
                            if fa0.is_allocated(q) {
                                assert(fap.is_allocated(q));
                            }
                        }
                        assert forall|q: u64| #[trigger] holders(refs@, q) == holders(refs0, q) + sharers(
                            src.frames(),
                            q,
                            start as int,
                            v + 1,
                        ) by {
                            assert(holders(rp, q) == holders(refs0, q) + sharers(src.frames(), q, start as int, v as int));
                        }
                    }
                },
                None => {
                    proof {
                        assert(!src.frames().contains_key(v));
                        assert forall|q: u64| #[trigger] holders(refs@, q) == holders(refs0, q) + sharers(
                            src.frames(),
                            q,
                            start as int,
                            v + 1,
                        ) by {
                            assert(holders(rp, q) == holders(refs0, q) + sharers(src.frames(), q, start as int, v as int));
                        }
                    }
                },
            }
            v = v + 1;
        }
        let seg = Segment {
            vpn_range: src.vpn_range,
            data_frames: frames,
            map_type: MapType::Framed,
            map_perm: src.map_perm,
        };
        proof {
            assert(seg.frames() =~= src.frames());
        }
        let ghost before = *self;
        self.segments.push(seg);
        proof {
            let segs = self.segs();
            let n = segs0.len();
            let m = mem.view();
            let fa = allocator@;
            assert(segs.drop_last() =~= segs0);
            assert(segs[n as int] == seg);
            assert forall|i: int| 0 <= i < segs.len() implies seg_ok(#[trigger] segs[i]) by {
                if i < n {
                    assert(segs[i] == segs0[i]);
                }
            }
            assert forall|i: int, j: int| 0 <= i < j < segs.len() implies disjoint(#[trigger] segs[i], #[trigger] segs[j]) by {
                assert(segs[i] == segs0[i]);
                if j < n {
                    assert(segs[j] == segs0[j]);
                } else {
                    assert(disjoint(*src, segs0[i]));
                }
            }
            let pf = if cow { src.map_perm@ & !4u8 } else { src.map_perm@ };
            crate::bits::lemma_u8_bits();
            assert(((pf | 1u8) & 1u8) != 0);
            assert forall|i: int, w: u64|
                #![trigger segs[i], is_mapped(m, root, w)]
                0 <= i < segs.len() && in_seg(segs[i], w) && is_mapped(m, root, w) implies segs[i].holds_page(m, root, w) by {
                if i < n {
                    assert(segs[i] == segs0[i]);
                    assert(before.segs()[i] == segs0[i]);
                } else {
                    assert(src.frames().contains_key(w));
                    if cow {
                        assert(seg.maps_page_cow(m, root, w));
                    } else {
                        assert(seg.maps_page(m, root, w));
                    }
                }
            }
            assert forall|i: int, w: u64|
                0 <= i < segs.len() && segs[i].map_type == MapType::Framed && #[trigger] segs[i].frames().contains_key(w)
                implies in_seg(segs[i], w) && is_mapped(m, root, w) && data_frame_ok(self.table(), m, fa, segs[i].frames()[w]) by {
                if i < n {
                    assert(segs[i] == segs0[i]);
                    assert(before.segs()[i] == segs0[i]);
                } else {
                    let q = src.frames()[w];
                    assert(src.frames().contains_key(w));
                    lemma_pte_make_valid(q, pf | 1u8);
                    assert(fa0.is_allocated(q));
                    assert(!t0.levels().contains_key(q));
                }
            }
        }
    }

    /// The space of a child made by fork: the trampoline; a trap context
    /// page of its own holding a copy of the parent's; then every other
    /// segment of the parent with the same range and permission, its mapped
    /// pages sharing the parent's frames. The pages of writable segments
    /// lose W in both spaces: they are copied on the first write. Each
    /// shared frame gets one more holder per page that uses it.
    pub fn from_fork(
        parent: &mut AddressSpace,
        strampoline: u64,
        mem: &mut PhysMem,
        allocator: &mut StackFrameAllocator,
        refs: &mut FrameRefs,
    ) -> (child: AddressSpace)
        requires
            old(parent).wf(old(mem).view(), old(allocator)@),
            old(allocator)@.wf(),
            strampoline < 0x100_0000_0000_0000,
            old(parent).segs().len() >= 1,
            old(parent).segs()[0].map_type == MapType::Framed,
            old(parent).segs()[0].end() == old(parent).segs()[0].start() + 1,
            old(parent).segs()[0].frames().contains_key(old(parent).segs()[0].start()),
            forall|i: int| 1 <= i < old(parent).segs().len() ==> (#[trigger] old(parent).segs()[i]).map_type == MapType::Framed,
            old(allocator)@.free_count() >= 6 + 2 * seg_pages(old(parent).segs(), old(parent).segs().len() as int),
            forall|q: u64| #[trigger] holders(old(refs)@, q) + seg_pages(old(parent).segs(), old(parent).segs().len() as int)
                <= u64::MAX,
        ensures
            child.wf(final(mem).view(), final(allocator)@),
            final(parent).wf(final(mem).view(), final(allocator)@),
            final(allocator)@.wf(),
            final(parent).segs() == old(parent).segs(),
            final(parent).root() == old(parent).root(),
            walk(final(mem).view(), child.root(), trampoline_vpn()) == Some(pte_make(strampoline / 4096, 2u8 | 8u8 | 1u8)),
            child.segs().len() == old(parent).segs().len(),
            forall|i: int| 0 <= i < child.segs().len() ==> (#[trigger] child.segs()[i]).vpn_range == old(parent).segs()[i].vpn_range
                && child.segs()[i].map_type == old(parent).segs()[i].map_type
                && child.segs()[i].map_perm == old(parent).segs()[i].map_perm,
            forall|i: int| 1 <= i < child.segs().len() ==> (#[trigger] child.segs()[i]).frames() == old(parent).segs()[i].frames(),
            ({
                let t = old(parent).segs()[0].start();
                &&& child.segs()[0].frames().contains_key(t)
                &&& !old(allocator)@.is_allocated(child.segs()[0].frames()[t])
                &&& final(mem).view()[child.segs()[0].frames()[t]] == old(mem).view()[old(parent).segs()[0].frames()[t]]
                &&& child.segs()[0].maps_page(final(mem).view(), child.root(), t)
            }),
            forall|i: int, v: u64|
                1 <= i < old(parent).segs().len() && #[trigger] old(parent).segs()[i].frames().contains_key(v) ==> walk(
                    final(mem).view(),
                    child.root(),
                    v,
                ) == Some(
                    pte_make(
                        old(parent).segs()[i].frames()[v],
                        (if old(parent).segs()[i].map_perm@ & 4u8 != 0 {
                            old(parent).segs()[i].map_perm@ & !4u8
                        } else {
                            old(parent).segs()[i].map_perm@
                        }) | 1u8,
                    ),
                ),
            forall|i: int, v: u64|
                1 <= i < old(parent).segs().len() && old(parent).segs()[i].map_perm@ & 4u8 != 0
                    && #[trigger] old(parent).segs()[i].frames().contains_key(v) ==> walk(final(mem).view(), final(parent).root(), v)
                    == Some(pte_make(old(parent).segs()[i].frames()[v], (old(parent).segs()[i].map_perm@ & !4u8) | 1u8)),
            forall|v: u64|
                sv39_vpn(v) && (forall|i: int|
                    1 <= i < old(parent).segs().len() && old(parent).segs()[i].map_perm@ & 4u8 != 0 ==> !#[trigger] in_seg(
                        old(parent).segs()[i],
                        v,
                    )) ==> #[trigger] is_mapped(final(mem).view(), final(parent).root(), v) == is_mapped(
                    old(mem).view(),
                    old(parent).root(),
                    v,
                ) && (is_mapped(old(mem).view(), old(parent).root(), v) ==> walk(final(mem).view(), final(parent).root(), v)
                    == walk(old(mem).view(), old(parent).root(), v)),
            forall|q: u64| #[trigger] holders(final(refs)@, q) == holders(old(refs)@, q) + fork_sharers(
                old(parent).segs(),
                q,
                old(parent).segs().len() as int,
            ),
    {
        broadcast use vstd::std_specs::hash::group_hash_axioms;
        let ghost segs0 = parent.segs();
        let ghost m0 = mem.view();
        let ghost fa0 = allocator@;
        let ghost rootp = parent.root();
        let ghost refs0 = refs@;
        let ghost n = segs0.len() as int;
        let ghost t = segs0[0].start();
        let ghost ptrap = segs0[0].frames()[t];
        proof {
            super::frame::lemma_alloc_takes_a_free_frame(fa0);
            lemma_seg_pages_mono(segs0, 1, n);
            assert(seg_ok(segs0[0]));
            assert(data_frame_ok(parent.table(), m0, fa0, ptrap));
            parent.table().lemma_frames_more_allocated(fa0, fa0);
            parent.table().lemma_tables_in_mem(m0);
        }
        let mut child = AddressSpace::new_bare(mem, allocator);
        proof {
            assert forall|q: u64| #[trigger] parent.table().levels().contains_key(q) implies mem.view().contains_key(q)
                && mem.view()[q] == m0[q] by {
                assert(fa0.is_allocated(q));
                assert(m0.contains_key(q));
                assert(mem.view()[q] == m0[q]);
                assert(mem.view().contains_key(q));
            }
            assert forall|i: int, v: u64|
                0 <= i < parent.segs().len() && parent.segs()[i].map_type == MapType::Framed
                    && #[trigger] parent.segs()[i].frames().contains_key(v) implies mem.view().contains_key(
                parent.segs()[i].frames()[v],
            ) && mem.view()[parent.segs()[i].frames()[v]] == m0[parent.segs()[i].frames()[v]] by {
                let q = parent.segs()[i].frames()[v];
                assert(data_frame_ok(parent.table(), m0, fa0, q));
                assert(fa0.is_allocated(q));
                assert(m0.contains_key(q));
                assert(mem.view()[q] == m0[q]);
            }
            lemma_space_stable(*parent, m0, mem.view(), fa0, allocator@);
        }
        let ghost m1 = mem.view();
        let ghost fa1 = allocator@;
        let ghost tc1 = child.table();
        child.map_trampoline(mem, allocator, strampoline);
        proof {
            parent.table().lemma_tables_in_mem(m1);
            assert forall|q: u64| #[trigger] parent.table().levels().contains_key(q) implies mem.view().contains_key(q)
                && mem.view()[q] == m1[q] by {
                assert(fa0.is_allocated(q));
                assert(!tc1.levels().contains_key(q));
            }
            assert forall|i: int, v: u64|
                0 <= i < parent.segs().len() && parent.segs()[i].map_type == MapType::Framed
                    && #[trigger] parent.segs()[i].frames().contains_key(v) implies mem.view().contains_key(
                parent.segs()[i].frames()[v],
            ) && mem.view()[parent.segs()[i].frames()[v]] == m1[parent.segs()[i].frames()[v]] by {
                assert(data_frame_ok(parent.table(), m0, fa0, parent.segs()[i].frames()[v]));
                assert(!tc1.levels().contains_key(parent.segs()[i].frames()[v]));
            }
            lemma_space_stable(*parent, m1, mem.view(), fa1, allocator@);
            assert forall|q: u64| #[trigger] child.table().levels().contains_key(q) implies !fa0.is_allocated(q) by {
                if tc1.levels().contains_key(q) {
                } else {
                    assert(!fa1.is_allocated(q));
                }
            }
            assert(mem.view()[ptrap] == m0[ptrap]) by {
                assert(parent.segs()[0].frames().contains_key(t));
            }
            crate::bits::lemma_bit_constants();
            lemma_pte_make_valid(strampoline / 4096, 2u8 | 8u8 | 1u8);
        }
        let trap_seg = Segment {
            vpn_range: parent.segments[0].vpn_range,
            data_frames: HashMapWithView::new(),
            map_type: MapType::Framed,
            map_perm: parent.segments[0].map_perm,
        };
        let ghost m2 = mem.view();
        let ghost fa2 = allocator@;
        let ghost tc2 = child.table();
        proof {
            assert(trap_seg.frames() =~= Map::<u64, u64>::empty());
            assert(page_blocks(trap_seg.start() as int, trap_seg.end() as int) == 1);
            assert forall|v: u64| in_seg(trap_seg, v) implies !#[trigger] is_mapped(mem.view(), child.root(), v) by {
                assert(v != trampoline_vpn());
                assert(sv39_vpn(v));
            }
        }
        child.push(trap_seg, None, mem, allocator);
        proof {
            assert(in_seg(trap_seg, t));
            assert(child.segs().len() == 1);
            assert(child.segs()[0] == child.segs().last());
            assert(!fa2.is_allocated(child.segs().last().frames()[t]));
            assert(child.segs().last().frames().contains_key(t));
        }
        let c = *child.segments[0].data_frames.get(&parent.segments[0].vpn_range.get_start().0).unwrap();
        let p = *parent.segments[0].data_frames.get(&parent.segments[0].vpn_range.get_start().0).unwrap();
        proof {
            assert(child.segs().drop_last() =~= Seq::<Segment>::empty());
            assert(in_seg(trap_seg, t));
            parent.table().lemma_tables_in_mem(m2);
            assert forall|q: u64| #[trigger] parent.table().levels().contains_key(q) implies mem.view().contains_key(q)
                && mem.view()[q] == m2[q] by {
                assert(fa0.is_allocated(q));
                assert(!tc2.levels().contains_key(q));
            }
            assert forall|i: int, v: u64|
                0 <= i < parent.segs().len() && parent.segs()[i].map_type == MapType::Framed
                    && #[trigger] parent.segs()[i].frames().contains_key(v) implies mem.view().contains_key(
                parent.segs()[i].frames()[v],
            ) && mem.view()[parent.segs()[i].frames()[v]] == m2[parent.segs()[i].frames()[v]] by {
                assert(data_frame_ok(parent.table(), m0, fa0, parent.segs()[i].frames()[v]));
                assert(!tc2.levels().contains_key(parent.segs()[i].frames()[v]));
            }
            lemma_space_stable(*parent, m2, mem.view(), fa2, allocator@);
            assert(child.segs()[0].frames().contains_key(t));
            assert(data_frame_ok(child.table(), mem.view(), allocator@, c));
            assert(!fa2.is_allocated(c));
            assert(mem.view()[ptrap] == m0[ptrap]) by {
                assert(parent.segs()[0].frames().contains_key(t));
            }
            assert(p == ptrap);
            assert forall|q: u64| #[trigger] child.table().levels().contains_key(q) implies !fa0.is_allocated(q) by {
                if tc2.levels().contains_key(q) {
                } else {
                    assert(!fa2.is_allocated(q));
                }
            }
            assert(child.segs()[0].maps_page(mem.view(), child.root(), t));
            assert(walk(mem.view(), child.root(), trampoline_vpn()) == Some(pte_make(strampoline / 4096, 2u8 | 8u8 | 1u8)));
            assert forall|v: u64| sv39_vpn(v) && #[trigger] is_mapped(mem.view(), child.root(), v) implies v == trampoline_vpn()
                || in_seg(child.segs()[0], v) by {
                if !in_seg(trap_seg, v) && v != trampoline_vpn() {
                    assert(is_mapped(m2, child.root(), v) == is_mapped(m1, child.root(), v));
                }
            }
        }
        let ghost m3 = mem.view();
        mem.copy_frame(c, p);
        proof {
            child.table().lemma_write_outside(m3, c, m3[p]);
            parent.table().lemma_write_outside(m3, c, m3[p]);
            assert(!fa0.is_allocated(c));
            lemma_copy_keeps_wf(child, m3, mem.view(), allocator@, c);
            assert forall|i: int, v: u64|
                0 <= i < parent.segs().len() && parent.segs()[i].map_type == MapType::Framed
                    && #[trigger] parent.segs()[i].frames().contains_key(v) implies mem.view().contains_key(
                parent.segs()[i].frames()[v],
            ) && mem.view()[parent.segs()[i].frames()[v]] == m3[parent.segs()[i].frames()[v]] by {
                assert(data_frame_ok(parent.table(), m0, fa0, parent.segs()[i].frames()[v]));
            }
            parent.table().lemma_tables_in_mem(m3);
            lemma_space_stable(*parent, m3, mem.view(), allocator@, allocator@);
            child.table().lemma_frames_more_allocated(allocator@, allocator@);
            assert(child.segs()[0].maps_page(mem.view(), child.root(), t));
            assert(mem.view()[c] == m0[ptrap]);
            assert forall|v: u64| sv39_vpn(v) && #[trigger] is_mapped(mem.view(), child.root(), v) implies v == trampoline_vpn()
                || exists|i: int| 0 <= i < 1 && #[trigger] in_seg(child.segs()[i], v) by {
                assert(is_mapped(m3, child.root(), v));
                if v != trampoline_vpn() {
                    assert(in_seg(child.segs()[0], v));
                }
            }
            assert forall|q: u64| #[trigger] child.table().levels().contains_key(q) implies !parent.table().levels().contains_key(q) by {
                if parent.table().levels().contains_key(q) {
                    assert(fa0.is_allocated(q));
                }
            }
            assert forall|i: int, v: u64|
                0 <= i < n && segs0[i].map_type == MapType::Framed && #[trigger] segs0[i].frames().contains_key(v)
                implies fa0.is_allocated(segs0[i].frames()[v]) by {
                assert(data_frame_ok(old(parent).table(), m0, fa0, segs0[i].frames()[v]));
            }
        }
        let mut j: usize = 1;
        while j < parent.segments.len()
            invariant
                1 <= j <= n,
                n == segs0.len(),
                parent.segs() == segs0,
                parent.root() == rootp,
                segs0 == old(parent).segs(),
                rootp == old(parent).root(),
                m0 == old(mem).view(),
                fa0 == old(allocator)@,
                refs0 == old(refs)@,
                t == segs0[0].start(),
                ptrap == segs0[0].frames()[t],
                parent.wf(mem.view(), allocator@),
                child.wf(mem.view(), allocator@),
                allocator@.wf(),
                forall|i: int| 1 <= i < n ==> (#[trigger] segs0[i]).map_type == MapType::Framed,
                segs0[0].map_type == MapType::Framed,
                segs0[0].end() == segs0[0].start() + 1,
                forall|i: int, v: u64|
                    0 <= i < n && segs0[i].map_type == MapType::Framed && #[trigger] segs0[i].frames().contains_key(v)
                        ==> fa0.is_allocated(segs0[i].frames()[v]),
                forall|q: u64| fa0.is_allocated(q) ==> #[trigger] allocator@.is_allocated(q),
                allocator@.free_count() >= 2 * (seg_pages(segs0, n) - seg_pages(segs0, j as int)),
                forall|q: u64| #[trigger] holders(old(refs)@, q) + seg_pages(segs0, n) <= u64::MAX,
                forall|q: u64| #[trigger] holders(refs@, q) == holders(refs0, q) + fork_sharers(segs0, q, j as int),
                child.segs().len() == j,
                forall|i: int| 0 <= i < j ==> (#[trigger] child.segs()[i]).vpn_range == segs0[i].vpn_range
                    && child.segs()[i].map_type == segs0[i].map_type && child.segs()[i].map_perm == segs0[i].map_perm,
                forall|i: int| 1 <= i < j ==> (#[trigger] child.segs()[i]).frames() == segs0[i].frames(),
                child.segs()[0].frames().contains_key(t),
                child.segs()[0].frames()[t] == c,
                !fa0.is_allocated(c),
                mem.view()[c] == m0[ptrap],
                child.segs()[0].maps_page(mem.view(), child.root(), t),
                !parent.table().levels().contains_key(c),
                walk(mem.view(), child.root(), trampoline_vpn()) == Some(pte_make(strampoline / 4096, 2u8 | 8u8 | 1u8)),
                forall|v: u64| sv39_vpn(v) && #[trigger] is_mapped(mem.view(), child.root(), v) ==> v == trampoline_vpn() || exists|i: int|
                    0 <= i < j && #[trigger] in_seg(child.segs()[i], v),
                forall|q: u64| #[trigger] child.table().levels().contains_key(q) ==> !parent.table().levels().contains_key(q),
                forall|q: u64| #[trigger] child.table().levels().contains_key(q) ==> !fa0.is_allocated(q),
                forall|i: int, v: u64|
                    1 <= i < j && #[trigger] segs0[i].frames().contains_key(v) ==> walk(mem.view(), child.root(), v) == Some(
                        pte_make(
                            segs0[i].frames()[v],
                            (if segs0[i].map_perm@ & 4u8 != 0 { segs0[i].map_perm@ & !4u8 } else { segs0[i].map_perm@ }) | 1u8,
                        ),
                    ),
                forall|i: int, v: u64|
                    1 <= i < j && segs0[i].map_perm@ & 4u8 != 0 && #[trigger] segs0[i].frames().contains_key(v) ==> walk(
                        mem.view(),
                        rootp,
                        v,
                    ) == Some(pte_make(segs0[i].frames()[v], (segs0[i].map_perm@ & !4u8) | 1u8)),
                forall|v: u64|
                    sv39_vpn(v) && (forall|i: int| 1 <= i < j && segs0[i].map_perm@ & 4u8 != 0 ==> !#[trigger] in_seg(segs0[i], v))
                        ==> #[trigger] is_mapped(mem.view(), rootp, v) == is_mapped(m0, rootp, v) && (is_mapped(m0, rootp, v)
                        ==> walk(mem.view(), rootp, v) == walk(m0, rootp, v)),
            decreases n - j,
        {
            proof {
                lemma_seg_pages_mono(segs0, j as int + 1, n);
                assert(seg_ok(segs0[j as int]));
                lemma_fork_sharers_bound(segs0, 0, j as int);
            }
            let writable = parent.segments[j].map_perm.bits() & 4u8 != 0;
            let ghost mb = mem.view();
            let ghost fab = allocator@;
            let ghost pb = *parent;
            let ghost cb = child;
            if writable {
                parent.protect_segment(j, mem, allocator);
                proof {
                    lemma_fork_after_protect(cb, pb, *parent, mb, mem.view(), fab, allocator@, c);
                }
            }
            let ghost mc = mem.view();
            let ghost fac = allocator@;
            let ghost pc = *parent;
            let ghost cc = child;
            let ghost rc = refs@;
            proof {
                assert(segs0[j as int] == parent.segs()[j as int]);
                assert forall|i: int| 0 <= i < child.segs().len() implies disjoint(segs0[j as int], #[trigger] child.segs()[i]) by {
                    assert(disjoint(segs0[i], segs0[j as int]));
                }
                assert forall|v: u64| in_seg(segs0[j as int], v) implies !#[trigger] is_mapped(mem.view(), child.root(), v) by {
                    assert(seg_ok(segs0[j as int]));
                    if is_mapped(mem.view(), child.root(), v) {
                        if v != trampoline_vpn() {
                            let i = choose|i: int| 0 <= i < j && #[trigger] in_seg(child.segs()[i], v);
                            assert(disjoint(segs0[i], segs0[j as int]));
                        }
                    }
                }
                assert forall|v: u64| #[trigger] segs0[j as int].frames().contains_key(v) implies in_seg(segs0[j as int], v)
                    && allocator@.is_allocated(segs0[j as int].frames()[v]) && mem.view().contains_key(segs0[j as int].frames()[v])
                    && !child.table().levels().contains_key(segs0[j as int].frames()[v]) by {
                    assert(data_frame_ok(parent.table(), mem.view(), allocator@, segs0[j as int].frames()[v]));
                    assert(fa0.is_allocated(segs0[j as int].frames()[v]));
                }
                assert forall|q: u64| #[trigger] holders(refs@, q) + (segs0[j as int].end() - segs0[j as int].start()) <= u64::MAX by {
                    lemma_fork_sharers_bound(segs0, q, j as int);
                }
            }
            child.from_another(&parent.segments[j], writable, mem, allocator, refs);
            proof {
                lemma_fork_after_another(cc, child, pc, mc, mem.view(), fac, allocator@, fa0);
                assert(seg_ok(segs0[j as int]));
                assert(!in_seg(segs0[j as int], trampoline_vpn()));
                crate::bits::lemma_bit_constants();
                lemma_pte_make_valid(strampoline / 4096, 2u8 | 8u8 | 1u8);
                assert(is_mapped(mc, child.root(), trampoline_vpn()));
                assert(!in_seg(segs0[j as int], t)) by {
                    assert(disjoint(segs0[0], segs0[j as int]));
                }
                assert(cc.segs()[0].frames().contains_key(t));
                assert(data_frame_ok(cc.table(), mc, fac, c));
                assert(mem.view()[c] == mc[c]);
                let perm0 = cc.segs()[0].map_perm@;
                crate::bits::lemma_u8_bits();
                assert(((perm0 | 1u8) & 1u8) != 0);
                lemma_pte_make_valid(c, perm0 | 1u8);
                assert(is_mapped(mc, child.root(), t));
                assert(child.segs()[0] == cc.segs()[0]);
                assert(child.segs()[0].maps_page(mem.view(), child.root(), t));
                assert forall|q: u64| #[trigger] holders(refs@, q) == holders(refs0, q) + fork_sharers(segs0, q, j as int + 1) by {
                    assert(holders(rc, q) == holders(refs0, q) + fork_sharers(segs0, q, j as int));
                }
                assert forall|i: int| 0 <= i < j + 1 implies (#[trigger] child.segs()[i]).vpn_range == segs0[i].vpn_range
                    && child.segs()[i].map_type == segs0[i].map_type && child.segs()[i].map_perm == segs0[i].map_perm by {
                    if i < j {
                        assert(child.segs()[i] == cc.segs()[i]);
                    }
                }
                assert forall|i: int| 1 <= i < j + 1 implies (#[trigger] child.segs()[i]).frames() == segs0[i].frames() by {
                    if i < j {
                        assert(child.segs()[i] == cc.segs()[i]);
                    }
                }
                assert(child.segs()[0] == cc.segs()[0]);
                assert forall|v: u64| sv39_vpn(v) && #[trigger] is_mapped(mem.view(), child.root(), v) implies v == trampoline_vpn()
                    || exists|i: int| 0 <= i < j + 1 && #[trigger] in_seg(child.segs()[i], v) by {
                    if in_seg(segs0[j as int], v) {
                        assert(in_seg(child.segs()[j as int], v));
                    } else {
                        assert(is_mapped(mc, child.root(), v));
                        if v != trampoline_vpn() {
                            let i = choose|i: int| 0 <= i < j && #[trigger] in_seg(cc.segs()[i], v);
                            assert(child.segs()[i] == cc.segs()[i]);
                        }
                    }
                }
                assert forall|i: int, v: u64|
                    1 <= i < j + 1 && #[trigger] segs0[i].frames().contains_key(v) implies walk(mem.view(), child.root(), v) == Some(
                        pte_make(
                            segs0[i].frames()[v],
                            (if segs0[i].map_perm@ & 4u8 != 0 { segs0[i].map_perm@ & !4u8 } else { segs0[i].map_perm@ }) | 1u8,
                        ),
                    ) by {
                    if i < j {
                        assert(seg_ok(segs0[i]));
                        assert(in_seg(segs0[i], v));
                        lemma_sv39_range_member(segs0[i].start(), segs0[i].end(), v);
                        assert(disjoint(segs0[i], segs0[j as int]));
                        let pf = if segs0[i].map_perm@ & 4u8 != 0 { segs0[i].map_perm@ & !4u8 } else { segs0[i].map_perm@ };
                        crate::bits::lemma_u8_bits();
                        assert(((pf | 1u8) & 1u8) != 0);
                        lemma_pte_make_valid(segs0[i].frames()[v], pf | 1u8);
                        assert(is_mapped(mc, child.root(), v));
                    }
                }
            }
            let ghost jo = j as int;
            j = j + 1;
            proof {
                assert forall|v: u64|
                        sv39_vpn(v) && (forall|i: int| 1 <= i < j && segs0[i].map_perm@ & 4u8 != 0 ==> !#[trigger] in_seg(segs0[i], v))
                        implies #[trigger] is_mapped(mem.view(), rootp, v) == is_mapped(m0, rootp, v) && (is_mapped(m0, rootp, v)
                        ==> walk(mem.view(), rootp, v) == walk(m0, rootp, v)) by {
                        assert(forall|i: int| 1 <= i < jo && segs0[i].map_perm@ & 4u8 != 0 ==> !#[trigger] in_seg(segs0[i], v));
                        assert(is_mapped(mb, rootp, v) == is_mapped(m0, rootp, v));
                        if writable {
                            assert(!in_seg(segs0[jo], v));
                        }
                        assert(is_mapped(mc, rootp, v) == is_mapped(mb, rootp, v));
                        assert(is_mapped(mem.view(), rootp, v) == is_mapped(mc, rootp, v));
                        if is_mapped(m0, rootp, v) {
                            assert(walk(mb, rootp, v) == walk(m0, rootp, v));
                            assert(walk(mc, rootp, v) == walk(mb, rootp, v));
                            assert(walk(mem.view(), rootp, v) == walk(mc, rootp, v));
                        }
                    }
            }
        }
        proof {
            assert forall|q: u64| #[trigger] holders(refs@, q) == holders(refs0, q) + fork_sharers(segs0, q, n) by {}
        }
        child
    }

    /// The first segment that starts at page `start`, if any.
    pub fn find_segment_starting(&self, start: u64) -> (r: Option<usize>)
        ensures
            match r {
                Some(i) => i < self.segs().len() && self.segs()[i as int].start() == start && forall|k: int|
                    0 <= k < i ==> (#[trigger] self.segs()[k]).start() != start,
                None => forall|k: int| 0 <= k < self.segs().len() ==> (#[trigger] self.segs()[k]).start() != start,
            },
    {
        let mut i: usize = 0;
        while i < self.segments.len()
            invariant
                i <= self.segments@.len(),
                self.segments@ == self.segs(),
                forall|k: int| 0 <= k < i ==> (#[trigger] self.segs()[k]).start() != start,
            decreases self.segments@.len() - i,
        {
            if self.segments[i].vpn_range.get_start().0 == start {
                return Some(i);
            }
            i = i + 1;
        }
        None
    }

    /// Removes the first segment that starts at page `start_vpn`, if there
    /// is one. Each of its pages, which must all be mapped, is unmapped; the
    /// frame of a framed page is given back when this space was its last
    /// holder, and otherwise has one holder less.
    pub fn release_kernel_stack_segment(
        &mut self,
        start_vpn: VirtPageNum,
        mem: &mut PhysMem,
        allocator: &mut StackFrameAllocator,
        refs: &mut FrameRefs,
    )
        requires
            old(self).wf(old(mem).view(), old(allocator)@),
            old(allocator)@.wf(),
            forall|i: int| 0 <= i < old(self).segs().len() && (#[trigger] old(self).segs()[i]).start() == start_vpn.0
                ==> releasable(old(self).segs(), old(mem).view(), old(self).root(), old(refs)@, i),
        ensures
            final(self).wf(final(mem).view(), final(allocator)@),
            final(allocator)@.wf(),
            final(self).root() == old(self).root(),
            (forall|k: int| 0 <= k < old(self).segs().len() ==> (#[trigger] old(self).segs()[k]).start() != start_vpn.0)
                ==> *final(self) == *old(self) && final(mem).view() == old(mem).view() && final(allocator)@ == old(allocator)@
                && final(refs)@ == old(refs)@,
            forall|i: int|
                0 <= i < old(self).segs().len() && (#[trigger] old(self).segs()[i]).start() == start_vpn.0 && (forall|k: int|
                    0 <= k < i ==> (#[trigger] old(self).segs()[k]).start() != start_vpn.0) ==> ({
                    let seg = old(self).segs()[i];
                    &&& final(self).segs() == old(self).segs().remove(i)
                    &&& forall|v: u64| in_seg(seg, v) ==> #[trigger] walk(final(mem).view(), final(self).root(), v) == Some(0u64)
                    &&& forall|v: u64| !in_seg(seg, v) && sv39_vpn(v) ==> #[trigger] is_mapped(final(mem).view(), final(self).root(), v)
                        == is_mapped(old(mem).view(), old(self).root(), v)
                    &&& seg.map_type == MapType::Framed ==> forall|v: u64| in_seg(seg, v) ==> {
                        let f = #[trigger] seg.frames()[v];
                        &&& holders(old(refs)@, f) == 1 ==> !final(allocator)@.is_allocated(f)
                        &&& holders(old(refs)@, f) != 1 ==> final(allocator)@.is_allocated(f) && holders(final(refs)@, f)
                            == holders(old(refs)@, f) - 1
                    }
                }),
    {
        let found = self.find_segment_starting(start_vpn.0);
        let i = match found {
            Some(i) => i,
            None => return,
        };
        let ghost segs0 = self.segs();
        let ghost m0 = mem.view();
        let ghost fa0 = allocator@;
        let ghost root = self.root();
        let ghost refs0 = refs@;
        let ghost s0 = *self;
        let seg = self.segments.remove(i);
        proof {
            assert(seg == segs0[i as int]);
            lemma_drop_segment_keeps_wf(s0, *self, m0, fa0, i as int);
            assert(releasable(segs0, m0, root, refs0, i as int));
            assert(seg_ok(seg));
        }
        let start = seg.vpn_range.get_start().0;
        let end = seg.vpn_range.get_end().0;
        proof {
            if seg.map_type == MapType::Framed {
                assert forall|w: u64| start <= w < end implies {
                    let f = #[trigger] seg.frames()[w];
                    &&& allocator@.is_allocated(f)
                    &&& holders(refs@, f) == holders(refs0, f)
                    &&& !self.table().levels().contains_key(f)
                } by {
                    assert(in_seg(seg, w));
                    assert(is_mapped(m0, root, w));
                    assert(old(self).segs()[i as int].holds_page(m0, root, w));
                    assert(seg.frames().contains_key(w));
                    assert(data_frame_ok(old(self).table(), m0, fa0, seg.frames()[w]));
                }
            }
        }
        let mut v = start;
        while v < end
            invariant
                start == seg.start(),
                end == seg.end(),
                seg_ok(seg),
                start <= v <= end,
                seg == segs0[i as int],
                i < segs0.len(),
                segs0 == old(self).segs(),
                m0 == old(mem).view(),
                fa0 == old(allocator)@,
                refs0 == old(refs)@,
                root == old(self).root(),
                self.root() == root,
                self.segs() == segs0.remove(i as int),
                self.wf(mem.view(), allocator@),
                allocator@.wf(),
                releasable(segs0, m0, root, refs0, i as int),
                old(self).wf(m0, fa0),
                forall|k: int| 0 <= k < segs0.len() && k != i ==> disjoint(seg, #[trigger] segs0[k]),
                forall|w: u64| start <= w < v ==> #[trigger] walk(mem.view(), root, w) == Some(0u64),
                forall|w: u64| v <= w < end ==> #[trigger] walk(mem.view(), root, w) == walk(m0, root, w),
                forall|w: u64| !in_seg(seg, w) && sv39_vpn(w) ==> #[trigger] is_mapped(mem.view(), root, w) == is_mapped(m0, root, w),
                forall|w: u64| !in_seg(seg, w) && sv39_vpn(w) && is_mapped(m0, root, w) ==> #[trigger] walk(mem.view(), root, w)
                    == walk(m0, root, w),
                seg.map_type == MapType::Framed ==> forall|w: u64| start <= w < v ==> {
                    let f = #[trigger] seg.frames()[w];
                    &&& holders(refs0, f) == 1 ==> !allocator@.is_allocated(f)
                    &&& holders(refs0, f) != 1 ==> allocator@.is_allocated(f) && holders(refs@, f) == holders(refs0, f) - 1
                },
                seg.map_type == MapType::Framed ==> forall|w: u64| v <= w < end ==> {
                    let f = #[trigger] seg.frames()[w];
                    &&& allocator@.is_allocated(f)
                    &&& holders(refs@, f) == holders(refs0, f)
                    &&& !self.table().levels().contains_key(f)
                },
            decreases end - v,
        {
            let ghost mp = mem.view();
            let ghost fap = allocator@;
            let ghost prev = *self;
            let ghost rp = refs@;
            proof {
                assert(in_seg(seg, v));
                assert(is_mapped(m0, root, v));
                assert(walk(mp, root, v) == walk(m0, root, v));
                lemma_sv39_range_member(seg.start(), seg.end(), v);
                assert forall|k: int| 0 <= k < prev.segs().len() implies !#[trigger] in_seg(prev.segs()[k], v) by {
                    let k0 = if k < i { k } else { k + 1 };
                    assert(prev.segs()[k] == segs0[k0]);
                    assert(disjoint(seg, segs0[k0]));
                }
            }
            self.page_table.unmap(mem, VirtPageNum(v));
            proof {
                lemma_page_outside_keeps_wf(prev, *self, mp, mem.view(), fap, allocator@, v);
            }
            if seg.map_type == MapType::Framed {
                let f = *seg.data_frames.get(&v).unwrap();
                let ghost pre = *self;
                proof {
                    assert(f == seg.frames()[v]);
                }
                proof {
                    assert(seg.frames().contains_key(v)) by {
                        assert(old(self).segs()[i as int].holds_page(m0, root, v));
                    }
                }
                if refs.count(f) == 1 {
                    proof {
                        assert forall|k: int, w: u64|
                            0 <= k < pre.segs().len() && pre.segs()[k].map_type == MapType::Framed
                                && #[trigger] pre.segs()[k].frames().contains_key(w) implies pre.segs()[k].frames()[w] != f by {
                            let k0 = if k < i { k } else { k + 1 };
                            assert(pre.segs()[k] == segs0[k0]);
                            assert(segs0[k0].frames().contains_key(w));
                        }
                        lemma_dealloc_keeps_wf(pre, mem.view(), allocator@, f);
                    }
                    allocator.dealloc(PhysPageNum(f));
                } else {
                    refs.release(f);
                }
                proof {
                    assert forall|w: u64| start <= w < v + 1 implies {
                        let g = #[trigger] seg.frames()[w];
                        &&& holders(refs0, g) == 1 ==> !allocator@.is_allocated(g)
                        &&& holders(refs0, g) != 1 ==> allocator@.is_allocated(g) && holders(refs@, g) == holders(refs0, g) - 1
                    } by {
                        if w != v {
                            assert(seg.frames()[w] != seg.frames()[v]);
                            super::frame::lemma_dealloc_other(fap, f, seg.frames()[w]);
                        } else {
                            assert(fap.dealloc(f).recycled[fap.recycled.len() as int] == f);
                            assert(fap.dealloc(f).recycled.contains(f));
                        }
                    }
                    assert forall|w: u64| v + 1 <= w < end implies {
                        let g = #[trigger] seg.frames()[w];
                        &&& allocator@.is_allocated(g)
                        &&& holders(refs@, g) == holders(refs0, g)
                        &&& !self.table().levels().contains_key(g)
                    } by {
                        assert(seg.frames()[w] != seg.frames()[v]);
                        super::frame::lemma_dealloc_other(fap, f, seg.frames()[w]);
                    }
                }
            }
            proof {
                assert forall|w: u64| start <= w < v + 1 implies #[trigger] walk(mem.view(), root, w) == Some(0u64) by {
                    if w != v {
                        lemma_sv39_range_member(seg.start(), seg.end(), w);
                        if same_indexes(w, v) {
                            lemma_sv39_same_indexes(w, v);
                        }
                    }
                }
                assert forall|w: u64| v + 1 <= w < end implies #[trigger] walk(mem.view(), root, w) == walk(m0, root, w) by {
                    lemma_sv39_range_member(seg.start(), seg.end(), w);
                    if same_indexes(w, v) {
                        lemma_sv39_same_indexes(w, v);
                    }
                }
                assert forall|w: u64| !in_seg(seg, w) && sv39_vpn(w) implies #[trigger] is_mapped(mem.view(), root, w)
                    == is_mapped(m0, root, w) by {
                    assert(w != v);
                }
                assert forall|w: u64| !in_seg(seg, w) && sv39_vpn(w) && is_mapped(m0, root, w)
                    implies #[trigger] walk(mem.view(), root, w) == walk(m0, root, w) by {
                    assert(w != v);
                    assert(is_mapped(mp, root, w));
                }
            }
            v = v + 1;
        }
        proof {
            let segs = self.segs();
            assert forall|w: u64| in_seg(seg, w) implies #[trigger] walk(mem.view(), root, w) == Some(0u64) by {}
        }
    }

    /// Gives the space back: each frame that holds a page of a framed
    /// segment goes back to the allocator when the space was its last
    /// holder, and otherwise has one holder less; every frame of the page
    /// table goes back. Other frames keep their state.
    pub fn release_space(self, mem: &PhysMem, allocator: &mut StackFrameAllocator, refs: &mut FrameRefs)
        requires
            self.wf(mem.view(), old(allocator)@),
            old(allocator)@.wf(),
            frames_distinct(self.segs()),
            forall|i: int, v: u64| #[trigger] holds_frame(self.segs(), i, v) ==> holders(old(refs)@, self.segs()[i].frames()[v]) >= 1,
        ensures
            final(allocator)@.wf(),
            forall|i: int, v: u64| #[trigger] holds_frame(self.segs(), i, v) ==> given_back(
                old(refs)@,
                final(refs)@,
                final(allocator)@,
                self.segs()[i].frames()[v],
            ),
            forall|p: u64| #[trigger] self.table().levels().contains_key(p) ==> !final(allocator)@.is_allocated(p),
            forall|q: u64| !self.table().levels().contains_key(q) && !is_data_frame(self.segs(), q)
                ==> #[trigger] final(allocator)@.is_allocated(q) == old(allocator)@.is_allocated(q),
            forall|q: u64| !is_data_frame(self.segs(), q) ==> #[trigger] holders(final(refs)@, q) == holders(old(refs)@, q),
    {
        let ghost s0 = self;
        let ghost segs = self.segs();
        let ghost fa0 = allocator@;
        let ghost refs0 = refs@;
        let ghost m = mem.view();
        let AddressSpace { page_table, segments } = self;
        proof {
            assert(segments@ == segs);
            assert(page_table == s0.table());
        }
        let mut i: usize = 0;
        while i < segments.len()
            invariant
                segments@ == segs,
                segs == s0.segs(),
                s0.wf(m, fa0),
                frames_distinct(segs),
                forall|k: int, v: u64| #[trigger] holds_frame(segs, k, v) ==> holders(refs0, segs[k].frames()[v]) >= 1,
                i <= segs.len(),
                allocator@.wf(),
                forall|k: int, v: u64| #[trigger] holds_frame(segs, k, v) && k < i ==> given_back(refs0, refs@, allocator@, segs[k].frames()[v]),
                forall|k: int, v: u64| #[trigger] holds_frame(segs, k, v) && k >= i ==> allocator@.is_allocated(segs[k].frames()[v])
                    && holders(refs@, segs[k].frames()[v]) == holders(refs0, segs[k].frames()[v]),
                forall|q: u64| !is_data_frame(segs, q) ==> #[trigger] allocator@.is_allocated(q) == fa0.is_allocated(q),
                forall|q: u64| !is_data_frame(segs, q) ==> #[trigger] holders(refs@, q) == holders(refs0, q),
            decreases segs.len() - i,
        {
            let seg = &segments[i];
            proof {
                assert(seg == segs[i as int]);
                assert(seg_ok(*seg));
            }
            if seg.map_type == MapType::Framed {
                let start = seg.vpn_range.get_start().0;
                let end = seg.vpn_range.get_end().0;
                let mut v = start;
                while v < end
                    invariant
                        segments@ == segs,
                        seg == segs[i as int],
                        seg.map_type == MapType::Framed,
                        start == seg.start(),
                        end == seg.end(),
                        start <= v <= end,
                        i < segs.len(),
                        segs == s0.segs(),
                        s0.wf(m, fa0),
                        frames_distinct(segs),
                        forall|k: int, w: u64| #[trigger] holds_frame(segs, k, w) ==> holders(refs0, segs[k].frames()[w]) >= 1,
                        allocator@.wf(),
                        forall|k: int, w: u64|
                            #[trigger] holds_frame(segs, k, w) && (k < i || (k == i && w < v)) ==> given_back(
                                refs0,
                                refs@,
                                allocator@,
                                segs[k].frames()[w],
                            ),
                        forall|k: int, w: u64|
                            #[trigger] holds_frame(segs, k, w) && (k > i || (k == i && w >= v)) ==> allocator@.is_allocated(
                                segs[k].frames()[w],
                            ) && holders(refs@, segs[k].frames()[w]) == holders(refs0, segs[k].frames()[w]),
                        forall|q: u64| !is_data_frame(segs, q) ==> #[trigger] allocator@.is_allocated(q) == fa0.is_allocated(q),
                        forall|q: u64| !is_data_frame(segs, q) ==> #[trigger] holders(refs@, q) == holders(refs0, q),
                    decreases end - v,
                {
                    if seg.data_frames.contains_key(&v) {
                        let f = *seg.data_frames.get(&v).unwrap();
                        let ghost fap = allocator@;
                        let ghost rp = refs@;
                        proof {
                            assert(holds_frame(segs, i as int, v));
                            assert(segs[i as int].frames()[v] == f);
                            assert(is_data_frame(segs, f));
                        }
                        if refs.count(f) == 1 {
                            allocator.dealloc(PhysPageNum(f));
                            proof {
                                assert(fap.dealloc(f).recycled[fap.recycled.len() as int] == f);
                                assert(fap.dealloc(f).recycled.contains(f));
                            }
                        } else {
                            refs.release(f);
                        }
                        proof {
                            assert forall|k: int, w: u64| #[trigger] holds_frame(segs, k, w) && (k != i || w != v)
                                implies segs[k].frames()[w] != f by {}
                            assert forall|k: int, w: u64| #[trigger] holds_frame(segs, k, w) && (k != i || w != v)
                                implies allocator@.is_allocated(segs[k].frames()[w]) == fap.is_allocated(segs[k].frames()[w])
                                && holders(refs@, segs[k].frames()[w]) == holders(rp, segs[k].frames()[w]) by {
                                super::frame::lemma_dealloc_other(fap, f, segs[k].frames()[w]);
                            }
                            assert forall|q: u64| !is_data_frame(segs, q) implies #[trigger] allocator@.is_allocated(q)
                                == fa0.is_allocated(q) by {
                                super::frame::lemma_dealloc_other(fap, f, q);
                            }
                            assert forall|q: u64| !is_data_frame(segs, q) implies #[trigger] holders(refs@, q) == holders(refs0, q) by {
                                assert(holders(rp, q) == holders(refs0, q));
                                assert(q != f);
                            }
                        }
                    } else {
                        proof {
                            assert(!segs[i as int].frames().contains_key(v));
                        }
                    }
                    v = v + 1;
                }
                proof {
                    assert forall|w: u64| #[trigger] holds_frame(segs, i as int, w) implies start <= w < end by {
                        assert(segs[i as int].frames().contains_key(w));
                    }
                }
            } else {
                proof {
                    assert forall|w: u64| !#[trigger] holds_frame(segs, i as int, w) by {}
                }
            }
            i = i + 1;
        }
        proof {
            s0.table().lemma_levels_allocated(fa0);
            assert forall|p: u64| #[trigger] page_table.levels().contains_key(p) implies allocator@.is_allocated(p) by {
                if is_data_frame(segs, p) {
                    let (k, w) = choose|k: int, w: u64| #[trigger] holds_frame(segs, k, w) && segs[k].frames()[w] == p;
                    assert(data_frame_ok(s0.table(), m, fa0, segs[k].frames()[w]));
                }
            }
            page_table.lemma_frames_wf_moves(fa0, allocator@);
        }
        let ghost fa1 = allocator@;
        page_table.release(allocator);
        proof {
            assert forall|k: int, w: u64| #[trigger] holds_frame(segs, k, w) implies given_back(
                refs0,
                refs@,
                allocator@,
                segs[k].frames()[w],
            ) by {
                let f = segs[k].frames()[w];
                assert(data_frame_ok(s0.table(), m, fa0, f));
                assert(!page_table.levels().contains_key(f));
            }
        }
    }

    /// Serves a store fault at `vaddr` on a copy-on-write page of a
    /// writable framed segment. When no other space holds its frame, the
    /// page is made writable again in place; otherwise it gets a frame of
    /// its own holding a copy of the shared one, writable, and the shared
    /// frame has one holder less.
    pub fn fix_cow(&mut self, vaddr: u64, mem: &mut PhysMem, allocator: &mut StackFrameAllocator, refs: &mut FrameRefs)
        requires
            old(self).wf(old(mem).view(), old(allocator)@),
            old(allocator)@.wf(),
            old(allocator)@.free_count() >= 1,
            is_mapped(old(mem).view(), old(self).root(), vaddr / 4096),
            exists|i: int|
                0 <= i < old(self).segs().len() && #[trigger] in_seg(old(self).segs()[i], vaddr / 4096)
                    && old(self).segs()[i].map_type == MapType::Framed
                    && old(self).segs()[i].map_perm@ & 4u8 == 4u8
                    && old(self).segs()[i].frames().contains_key(vaddr / 4096)
                    && holders(old(refs)@, old(self).segs()[i].frames()[vaddr / 4096]) >= 1,
        ensures
            final(self).wf(final(mem).view(), final(allocator)@),
            final(allocator)@.wf(),
            final(self).root() == old(self).root(),
            exists|i: int|
                0 <= i < old(self).segs().len() && #[trigger] in_seg(old(self).segs()[i], vaddr / 4096) && ({
                    let seg = old(self).segs()[i];
                    let f = seg.frames()[vaddr / 4096];
                    &&& final(self).segs() == old(self).segs().update(i, final(self).segs()[i])
                    &&& final(self).segs()[i].vpn_range == seg.vpn_range
                    &&& final(self).segs()[i].map_type == seg.map_type
                    &&& final(self).segs()[i].map_perm == seg.map_perm
                    &&& holders(old(refs)@, f) == 1 ==> final(self).segs()[i].frames() == seg.frames()
                        && walk(final(mem).view(), final(self).root(), vaddr / 4096) == Some(pte_make(f, seg.map_perm@ | 1u8))
                        && *final(refs) == *old(refs) && final(mem).view()[f] == old(mem).view()[f]
                    &&& holders(old(refs)@, f) != 1 ==> (old(allocator)@.allocate().1 matches Some(q)
                        && final(self).segs()[i].frames() == seg.frames().insert(vaddr / 4096, q)
                        && final(mem).view()[q] == old(mem).view()[f]
                        && walk(final(mem).view(), final(self).root(), vaddr / 4096) == Some(pte_make(q, seg.map_perm@ | 1u8))
                        && final(refs)@ == old(refs)@.insert(f, (holders(old(refs)@, f) - 1) as u64))
                }),
            forall|v: u64| v != vaddr / 4096 && sv39_vpn(v) ==> #[trigger] is_mapped(final(mem).view(), final(self).root(), v)
                == is_mapped(old(mem).view(), old(self).root(), v),
            forall|v: u64| v != vaddr / 4096 && sv39_vpn(v) && is_mapped(old(mem).view(), old(self).root(), v)
                ==> #[trigger] walk(final(mem).view(), final(self).root(), v) == walk(old(mem).view(), old(self).root(), v),
    {
        let vpn = VirtAddr(vaddr).floor();
        let ghost segs0 = self.segs();
        let ghost m0 = mem.view();
        let ghost fa0 = allocator@;
        let ghost root = self.root();
        let mut i: usize = 0;
        while i < self.segments.len()
            invariant
                i <= self.segments@.len(),
                self.segments@ == segs0,
                self.segs() == segs0,
                *self == *old(self),
                mem.view() == m0,
                m0 == old(mem).view(),
                allocator@ == fa0,
                fa0 == old(allocator)@,
                *refs == *old(refs),
                root == old(self).root(),
                old(self).wf(m0, fa0),
                fa0.wf(),
                fa0.free_count() >= 1,
                is_mapped(m0, root, vaddr / 4096),
                vpn.0 == vaddr / 4096,
                forall|k: int| 0 <= k < segs0.len() ==> seg_ok(#[trigger] segs0[k]),
                forall|k: int| 0 <= k < i ==> !#[trigger] in_seg(segs0[k], vaddr / 4096),
                exists|k: int|
                    0 <= k < segs0.len() && #[trigger] in_seg(segs0[k], vaddr / 4096) && segs0[k].map_type == MapType::Framed
                        && segs0[k].map_perm@ & 4u8 == 4u8 && segs0[k].frames().contains_key(vaddr / 4096)
                        && holders(old(refs)@, segs0[k].frames()[vaddr / 4096]) >= 1,
            decreases self.segments@.len() - i,
        {
            proof {
                assert(seg_ok(segs0[i as int]));
            }
            if self.segments[i].contains(vaddr) {
                let ghost k = i as int;
                proof {
                    let w = choose|w: int|
                        0 <= w < segs0.len() && #[trigger] in_seg(segs0[w], vaddr / 4096) && segs0[w].map_type == MapType::Framed
                            && segs0[w].map_perm@ & 4u8 == 4u8 && segs0[w].frames().contains_key(vaddr / 4096)
                            && holders(old(refs)@, segs0[w].frames()[vaddr / 4096]) >= 1;
                    assert(in_seg(segs0[k], vpn.0));
                    if w != k {
                        assert(disjoint(segs0[w], segs0[k]) || disjoint(segs0[k], segs0[w]));
                    }
                    assert(w == k);
                }
                let mut seg = self.segments.remove(i);
                let f = *seg.data_frames.get(&vpn.0).unwrap();
                proof {
                    assert(seg == segs0[k]);
                    assert(data_frame_ok(old(self).table(), m0, fa0, f));
                    assert(tables_needed(m0, root, vpn.0) == 0);
                }
                if refs.count(f) == 1 {
                    let flags = seg.map_perm.to_pte_flags();
                    self.page_table.relink(mem, allocator, vpn, PhysPageNum(f), flags);
                    self.segments.insert(i, seg);
                    proof {
                        assert(seg.frames() =~= segs0[k].frames().insert(vpn.0, f));
                        lemma_fix_keeps_wf(*old(self), *self, m0, mem.view(), fa0, allocator@, k, vpn.0, f, false);
                    }
                } else {
                    let q = seg.realloc_one(&mut self.page_table, mem, allocator, vpn);
                    let ghost m1 = mem.view();
                    proof {
                        assert(m1.contains_key(f));
                    }
                    mem.copy_frame(q.0, f);
                    proof {
                        self.page_table.lemma_write_outside(m1, q.0, m1[f]);
                    }
                    refs.release(f);
                    self.segments.insert(i, seg);
                    proof {
                        lemma_fix_keeps_wf(*old(self), *self, m0, mem.view(), fa0, allocator@, k, vpn.0, q.0, false);
                    }
                }
                return;
            }
            i = i + 1;
        }
        proof {
            let k = choose|k: int|
                0 <= k < segs0.len() && #[trigger] in_seg(segs0[k], vaddr / 4096) && segs0[k].map_type == MapType::Framed
                    && segs0[k].map_perm@ & 4u8 == 4u8 && segs0[k].frames().contains_key(vaddr / 4096)
                    && holders(old(refs)@, segs0[k].frames()[vaddr / 4096]) >= 1;
            assert(k >= i);
        }
    }

    /// Serves a page fault at `vaddr` in a segment whose pages are mapped
    /// when first touched (the stack and the heap) by mapping its page.
    pub fn fix_page_missing(&mut self, vaddr: u64, mem: &mut PhysMem, allocator: &mut StackFrameAllocator)
        requires
            old(self).wf(old(mem).view(), old(allocator)@),
            old(allocator)@.wf(),
            old(allocator)@.free_count() >= 3,
            !is_mapped(old(mem).view(), old(self).root(), vaddr / 4096),
            exists|i: int| 0 <= i < old(self).segs().len() && #[trigger] in_seg(old(self).segs()[i], vaddr / 4096),
        ensures
            final(self).wf(final(mem).view(), final(allocator)@),
            final(allocator)@.wf(),
            final(self).root() == old(self).root(),
            is_mapped(final(mem).view(), final(self).root(), vaddr / 4096),
            forall|v: u64| v != vaddr / 4096 && sv39_vpn(v) ==> #[trigger] is_mapped(final(mem).view(), final(self).root(), v)
                == is_mapped(old(mem).view(), old(self).root(), v),
    {
        self.map_phys_page(vaddr, mem, allocator);
    }

    /// The value of `satp` that selects this space.
    pub fn token(&self) -> (r: u64)
        ensures
            r == (8u64 << 60u64) | self.root(),
    {
        self.page_table.token()
    }

    /// The last-level entry of page `vpn`, if the walk reaches one.
    pub fn translate_vpn(&self, mem: &PhysMem, vpn: VirtPageNum) -> (r: Option<PageTableEntry>)
        ensures
            match walk(mem.view(), self.root(), vpn.0) {
                Some(e) => r matches Some(x) && x.bits == e,
                None => r is None,
            },
    {
        self.page_table.translate(mem, vpn)
    }

    /// Adds the user resources of thread `tid` (not the main thread): its
    /// user stack of `USER_STACK_SIZE` bytes at `ustack_base + tid * (PAGE_SIZE
    /// + USER_STACK_SIZE)`, readable and writable from user mode and mapped
    /// when first touched, then its trap context page below the main
    /// thread's, readable and writable by the kernel and mapped at once.
    pub fn alloc_uresource(
        &mut self,
        ustack_base: u64,
        tid: usize,
        mem: &mut PhysMem,
        allocator: &mut StackFrameAllocator,
    )
        requires
            old(self).wf(old(mem).view(), old(allocator)@),
            old(allocator)@.wf(),
            old(allocator)@.free_count() >= 3,
            1 <= tid < MAX_THREADS,
            ustack_base % 4096 == 0,
            spec_ustack_bottom(ustack_base as int, tid as int) + USER_STACK_SIZE < 0x80_0000_0000,
            uresource_room(old(self).segs(), ustack_page(ustack_base, tid), trap_ctx_page(tid)),
            forall|v: u64|
                ustack_page(ustack_base, tid) <= v < ustack_page(ustack_base, tid) + 2 || v == trap_ctx_page(tid)
                    ==> !#[trigger] is_mapped(old(mem).view(), old(self).root(), v),
        ensures
            final(self).wf(final(mem).view(), final(allocator)@),
            final(allocator)@.wf(),
            final(self).root() == old(self).root(),
            final(self).segs().len() == old(self).segs().len() + 2,
            final(self).segs().subrange(0, old(self).segs().len() as int) == old(self).segs(),
            final(self).segs()[old(self).segs().len() as int].start() == ustack_page(ustack_base, tid),
            final(self).segs()[old(self).segs().len() as int].end() == ustack_page(ustack_base, tid) + 2,
            final(self).segs()[old(self).segs().len() as int].map_type == MapType::Framed,
            final(self).segs()[old(self).segs().len() as int].map_perm@ == 22u8,
            final(self).segs()[old(self).segs().len() as int + 1].start() == trap_ctx_page(tid),
            final(self).segs()[old(self).segs().len() as int + 1].end() == trap_ctx_page(tid) + 1,
            final(self).segs()[old(self).segs().len() as int + 1].map_type == MapType::Framed,
            final(self).segs()[old(self).segs().len() as int + 1].map_perm@ == 6u8,
            is_mapped(final(mem).view(), final(self).root(), trap_ctx_page(tid)),
            forall|v: u64| v != trap_ctx_page(tid) && sv39_vpn(v) ==> #[trigger] is_mapped(final(mem).view(), final(self).root(), v)
                == is_mapped(old(mem).view(), old(self).root(), v),
    {
        let ghost n = self.segs().len();
        let ghost segs0 = self.segs();
        let bottom = crate::task::uresource::ustack_bottom(ustack_base, tid);
        let top = bottom + USER_STACK_SIZE;
        let rwu = MapPermission::R().union(MapPermission::W()).union(MapPermission::U());
        let rw = MapPermission::R().union(MapPermission::W());
        let trap_bottom = crate::task::uresource::trap_ctx_bottom(tid);
        let trap_top = trap_bottom + PAGE_SIZE;
        proof {
            crate::bits::lemma_bit_constants();
            crate::bits::lemma_u64_masks();
            let tb = trap_bottom;
            let tt = trap_top;
            assert(bottom & 0x7f_ffff_ffffu64 == bottom % 0x80_0000_0000);
            assert(top & 0x7f_ffff_ffffu64 == top % 0x80_0000_0000);
            assert(tb & 0x7f_ffff_ffffu64 == tb % 0x80_0000_0000);
            assert(tt & 0x7f_ffff_ffffu64 == tt % 0x80_0000_0000);
            lemma_trap_page(tid as int);
        }
        let stack_seg = Segment::new(VirtAddr::from(bottom), VirtAddr::from(top), MapType::Framed, rwu);
        proof {
            assert(stack_seg.start() == ustack_page(ustack_base, tid));
            assert(stack_seg.end() == ustack_page(ustack_base, tid) + 2);
            assert forall|j: int| 0 <= j < segs0.len() implies disjoint(stack_seg, #[trigger] segs0[j]) by {}
        }
        self.push_lazy(stack_seg, mem, allocator);
        let ghost segs1 = self.segs();
        let trap_seg = Segment::new(VirtAddr::from(trap_bottom), VirtAddr::from(trap_top), MapType::Framed, rw);
        proof {
            assert(trap_seg.start() == trap_ctx_page(tid));
            assert(trap_seg.end() == trap_ctx_page(tid) + 1);
            assert forall|j: int| 0 <= j < segs1.len() implies disjoint(trap_seg, #[trigger] segs1[j]) by {
                if j < n {
                    assert(segs1[j] == segs0[j]);
                }
            }
            assert(page_blocks(trap_seg.start() as int, trap_seg.end() as int) == 1);
        }
        self.push(trap_seg, None, mem, allocator);
        proof {
            let segs = self.segs();
            assert(segs.subrange(0, n as int) =~= segs0) by {
                assert forall|j: int| 0 <= j < n implies segs[j] == segs0[j] by {
                    assert(segs[j] == segs1[j]);
                }
            }
            assert(segs[n as int] == segs1[n as int]);
            let tv = trap_ctx_page(tid);
            assert(in_seg(segs[n + 1int], tv));
            assert(segs[n + 1int].maps_page(mem.view(), self.root(), tv));
        }
    }

    /// The heap, the last segment, can grow by `increment` bytes: the grown
    /// heap stays below the trampoline, reaches no other segment and no
    /// mapped page, and its end, as an address, fits an `isize`.
    pub open spec fn heap_can_grow(&self, mem: Map<u64, Seq<u64>>, increment: int) -> bool {
        let last = self.segs().last();
        let new_end = last.end() + heap_pages(increment);
        &&& new_end <= trampoline_vpn()
        &&& new_end * 4096 <= isize::MAX
        &&& heap_room(self.segs(), new_end)
        &&& forall|v: u64| last.end() <= v < new_end ==> !#[trigger] is_mapped(mem, self.root(), v)
    }

    /// Whether the heap can grow by `increment` bytes (see `heap_can_grow`).
    pub fn heap_growth_ok(&self, mem: &PhysMem, increment: u64) -> (r: bool)
        requires
            self.segs().len() >= 1,
            forall|i: int| 0 <= i < self.segs().len() ==> seg_ok(#[trigger] self.segs()[i]),
        ensures
            r == self.heap_can_grow(mem.view(), increment as int),
    {
        let n = self.segments.len();
        let last_end = self.segments[n - 1].vpn_range.get_end().0;
        let pages = increment / 4096 + if increment % 4096 == 0 { 0 } else { 1 };
        proof {
            assert(self.segments@[n - 1] == self.segs().last());
            assert(seg_ok(self.segs()[n - 1]));
            assert(pages == heap_pages(increment as int));
        }
        if pages > 0x7ff_ffff - last_end {
            return false;
        }
        let new_end = last_end + pages;
        if new_end > (isize::MAX as u64) / 4096 {
            return false;
        }
        let mut j: usize = 0;
        while j + 1 < n
            invariant
                n == self.segs().len(),
                n >= 1,
                self.segments@ == self.segs(),
                j < n,
                new_end == self.segs().last().end() + heap_pages(increment as int),
                forall|k: int| 0 <= k < j ==> #[trigger] self.segs()[k].end() <= self.segs().last().start()
                    || new_end <= self.segs()[k].start(),
            decreases n - j,
        {
            let seg = &self.segments[j];
            if !(seg.vpn_range.get_end().0 <= self.segments[n - 1].vpn_range.get_start().0
                || new_end <= seg.vpn_range.get_start().0) {
                proof {
                    assert(self.segs()[j as int] == *seg);
                    assert(self.segments@[n - 1] == self.segs().last());
                    assert(!(self.segs()[j as int].end() <= self.segs().last().start() || new_end <= self.segs()[j as int].start()));
                }
                return false;
            }
            j = j + 1;
        }
        let mut v = last_end;
        while v < new_end
            invariant
                self.segs().len() >= 1,
                last_end == self.segs().last().end(),
                new_end == self.segs().last().end() + heap_pages(increment as int),
                last_end <= v <= new_end,
                new_end <= 0x7ff_ffff,
                forall|w: u64| last_end <= w < v ==> !#[trigger] is_mapped(mem.view(), self.root(), w),
            decreases new_end - v,
        {
            match self.translate_vpn(mem, VirtPageNum(v)) {
                Some(e) => {
                    if e.valid() {
                        proof {
                            assert(is_mapped(mem.view(), self.root(), v));
                        }
                        return false;
                    }
                },
                None => {},
            }
            v = v + 1;
        }
        true
    }

    /// Grows the heap, the last segment, by `increment` bytes rounded up to
    /// whole pages, and returns the new end of the heap as an address; with
    /// an increment of 0 it returns the current end. The new pages are
    /// mapped later, when they are first touched.
    pub fn sbrk(&mut self, mem: &PhysMem, allocator: &StackFrameAllocator, increment: u64) -> (r: u64)
        requires
            old(self).wf(mem.view(), allocator@),
            old(self).segs().len() >= 2,
            old(self).segs().last().map_perm@ & 16u8 == 16u8,
            old(self).segs().last().end() + heap_pages(increment as int) <= trampoline_vpn(),
            heap_room(old(self).segs(), old(self).segs().last().end() + heap_pages(increment as int)),
            forall|v: u64|
                old(self).segs().last().end() <= v < old(self).segs().last().end() + heap_pages(increment as int)
                    ==> !#[trigger] is_mapped(mem.view(), old(self).root(), v),
        ensures
            final(self).wf(mem.view(), allocator@),
            final(self).root() == old(self).root(),
            final(self).segs().len() == old(self).segs().len(),
            forall|j: int| 0 <= j < old(self).segs().len() - 1 ==> #[trigger] final(self).segs()[j] == old(self).segs()[j],
            final(self).segs().last().start() == old(self).segs().last().start(),
            final(self).segs().last().end() == old(self).segs().last().end() + heap_pages(increment as int),
            final(self).segs().last().frames() == old(self).segs().last().frames(),
            final(self).segs().last().map_type == old(self).segs().last().map_type,
            final(self).segs().last().map_perm == old(self).segs().last().map_perm,
            r == final(self).segs().last().end() * 4096,
    {
        let ghost segs0 = self.segs();
        let ghost root = self.root();
        let mut heap = self.segments.pop().unwrap();
        let end = heap.vpn_range.get_end().0;
        if increment == 0 {
            self.segments.push(heap);
            proof {
                assert(self.segs() =~= segs0);
            }
            return end * PAGE_SIZE;
        }
        let grown = if increment % PAGE_SIZE == 0 { increment } else { (increment / PAGE_SIZE + 1) * PAGE_SIZE };
        let new_end = end + grown / PAGE_SIZE;
        heap.vpn_range.set_end(VirtPageNum(new_end));
        self.segments.push(heap);
        proof {
            let segs = self.segs();
            let n = segs.len();
            assert(segs.len() == segs0.len());
            assert forall|j: int| 0 <= j < n - 1 implies #[trigger] segs[j] == segs0[j] by {}
            assert(segs[n - 1].frames() == segs0[n - 1].frames());
            assert forall|i: int| 0 <= i < segs.len() implies seg_ok(#[trigger] segs[i]) by {
                if i < n - 1 {
                    assert(segs[i] == segs0[i]);
                }
            }
            assert forall|i: int, j: int| 0 <= i < j < segs.len() implies disjoint(#[trigger] segs[i], #[trigger] segs[j]) by {
                assert(segs[i] == segs0[i]);
                if j < n - 1 {
                    assert(segs[j] == segs0[j]);
                }
            }
            let m = mem.view();
            assert forall|i: int, v: u64|
                #![trigger segs[i], is_mapped(m, root, v)]
                0 <= i < segs.len() && in_seg(segs[i], v) && is_mapped(m, root, v) implies segs[i].holds_page(m, root, v) by {
                if i < n - 1 {
                    assert(segs[i] == segs0[i]);
                } else {
                    assert(in_seg(segs0[i], v));
                    assert(segs0[i].holds_page(m, root, v));
                }
            }
            assert forall|i: int, v: u64|
                0 <= i < segs.len() && segs[i].map_type == MapType::Framed && #[trigger] segs[i].frames().contains_key(v)
                implies in_seg(segs[i], v) && is_mapped(m, root, v) by {
                if i < n - 1 {
                    assert(segs[i] == segs0[i]);
                } else {
                    assert(segs0[i].frames().contains_key(v));
                }
            }
            assert forall|i: int, v: u64|
                0 <= i < segs.len() && segs[i].map_type == MapType::Framed && #[trigger] segs[i].frames().contains_key(v)
                implies data_frame_ok(self.table(), m, allocator@, segs[i].frames()[v]) by {
                if i < n - 1 {
                    assert(segs[i] == segs0[i]);
                } else {
                    assert(segs0[i].frames().contains_key(v));
                }
            }
        }
        new_end * PAGE_SIZE
    }
}


/// A space in which one page `v0` of framed segment `k` was pointed at
/// frame `target` (its frame now) with the segment's permission, with no
/// other walk changed and no other allocated frame written, stays well
/// formed.
proof fn lemma_fix_keeps_wf(
    s0: AddressSpace,
    s: AddressSpace,
    m0: Map<u64, Seq<u64>>,
    m: Map<u64, Seq<u64>>,
    fa0: super::frame::FrameAllocatorModel,
    fa: super::frame::FrameAllocatorModel,
    k: int,
    v0: u64,
    target: u64,
    cow: bool,
)
    requires
        s0.wf(m0, fa0),
        s.table().wf(m, fa),
        s.root() == s0.root(),
        0 <= k < s0.segs().len(),
        s.segs().len() == s0.segs().len(),
        forall|j: int| 0 <= j < s0.segs().len() && j != k ==> #[trigger] s.segs()[j] == s0.segs()[j],
        s.segs()[k].vpn_range == s0.segs()[k].vpn_range,
        s.segs()[k].map_type == MapType::Framed,
        s0.segs()[k].map_type == MapType::Framed,
        s.segs()[k].map_perm == s0.segs()[k].map_perm,
        s.segs()[k].frames() == s0.segs()[k].frames().insert(v0, target),
        in_seg(s0.segs()[k], v0),
        walk(m, s.root(), v0) == Some(
            pte_make(target, (if cow { s0.segs()[k].map_perm@ & !4u8 } else { s0.segs()[k].map_perm@ }) | 1u8),
        ),
        forall|v: u64| !same_indexes(v, v0) ==> #[trigger] translation(m, s.root(), v) == translation(m0, s0.root(), v),
        forall|v: u64| !same_indexes(v, v0) && is_mapped(m0, s0.root(), v) ==> #[trigger] walk(m, s.root(), v) == walk(
            m0,
            s0.root(),
            v,
        ),
        forall|q: u64| fa0.is_allocated(q) ==> #[trigger] fa.is_allocated(q),
        forall|q: u64| fa0.is_allocated(q) && !#[trigger] s0.table().levels().contains_key(q) && q != target
            ==> m.contains_key(q) == m0.contains_key(q) && m[q] == m0[q],
        forall|q: u64| #[trigger] s.table().levels().contains_key(q) ==> s0.table().levels().contains_key(q)
            || !fa0.is_allocated(q),
        fa.is_allocated(target),
        m.contains_key(target),
        !s.table().levels().contains_key(target),
    ensures
        s.wf(m, fa),
        forall|v: u64| v != v0 && sv39_vpn(v) ==> #[trigger] is_mapped(m, s.root(), v) == is_mapped(m0, s0.root(), v),
        forall|v: u64| v != v0 && sv39_vpn(v) && is_mapped(m0, s0.root(), v) ==> #[trigger] walk(m, s.root(), v) == walk(
            m0,
            s0.root(),
            v,
        ),
{
    let segs0 = s0.segs();
    let segs = s.segs();
    let root = s.root();
    assert(seg_ok(segs0[k]));
    assert forall|v: u64| v != v0 && sv39_vpn(v) implies #[trigger] is_mapped(m, root, v) == is_mapped(m0, root, v) by {
        if same_indexes(v, v0) {
            lemma_sv39_range_member(segs0[k].start(), segs0[k].end(), v0);
            lemma_sv39_same_indexes(v, v0);
        }
        assert(translation(m, root, v) == translation(m0, root, v));
    }
    assert forall|v: u64| v != v0 && sv39_vpn(v) && is_mapped(m0, root, v) implies #[trigger] walk(m, root, v) == walk(
        m0,
        root,
        v,
    ) by {
        if same_indexes(v, v0) {
            lemma_sv39_range_member(segs0[k].start(), segs0[k].end(), v0);
            lemma_sv39_same_indexes(v, v0);
        }
    }
    let perm0 = segs0[k].map_perm@;
    let pf = if cow { perm0 & !4u8 } else { perm0 };
    crate::bits::lemma_u8_bits();
    assert(((pf | 1u8) & 1u8) != 0);
    lemma_pte_make_valid(target, pf | 1u8);
    assert(is_mapped(m, root, v0));
    assert forall|j: int| 0 <= j < segs.len() implies seg_ok(#[trigger] segs[j]) by {
        assert(seg_ok(segs0[j]));
    }
    assert forall|a: int, b: int| 0 <= a < b < segs.len() implies disjoint(#[trigger] segs[a], #[trigger] segs[b]) by {
        assert(disjoint(segs0[a], segs0[b]));
    }
    assert forall|j: int, v: u64|
        #![trigger segs[j], is_mapped(m, root, v)]
        0 <= j < segs.len() && in_seg(segs[j], v) && is_mapped(m, root, v) implies segs[j].holds_page(m, root, v) by {
        if v == v0 {
            if j != k {
                assert(disjoint(segs0[j], segs0[k]) || disjoint(segs0[k], segs0[j]));
            } else if cow {
                assert(segs[k].maps_page_cow(m, root, v0));
            } else {
                assert(segs[k].maps_page(m, root, v0));
            }
        } else {
            lemma_sv39_range_member(segs0[j].start(), segs0[j].end(), v);
            assert(is_mapped(m0, root, v));
            assert(segs0[j].holds_page(m0, root, v));
            if j == k {
                assert(segs[k].frames().contains_key(v) == segs0[k].frames().contains_key(v));
                assert(segs[k].target(v) == segs0[k].target(v));
            }
        }
    }
    assert forall|j: int, v: u64|
        0 <= j < segs.len() && segs[j].map_type == MapType::Framed && #[trigger] segs[j].frames().contains_key(v)
        implies in_seg(segs[j], v) && is_mapped(m, root, v) && data_frame_ok(s.table(), m, fa, segs[j].frames()[v]) by {
        if j == k && v == v0 {
        } else {
            assert(segs0[j].frames().contains_key(v));
            assert(segs[j].frames()[v] == segs0[j].frames()[v]);
            let q = segs0[j].frames()[v];
            assert(data_frame_ok(s0.table(), m0, fa0, q));
            assert(is_mapped(m0, root, v));
            lemma_sv39_range_member(segs0[j].start(), segs0[j].end(), v);
            if q != target {
                assert(m.contains_key(q));
            }
        }
    }
}

/// How many pages in `[lo, hi)` use frame `q` in `frames`.
pub open spec fn sharers(frames: Map<u64, u64>, q: u64, lo: int, hi: int) -> int
    decreases hi - lo,
{
    if hi <= lo {
        0
    } else {
        sharers(frames, q, lo, hi - 1) + if frames.contains_key((hi - 1) as u64) && frames[(hi - 1) as u64] == q {
            1int
        } else {
            0int
        }
    }
}

/// Counting one page more adds that page.
proof fn lemma_sharers_step(frames: Map<u64, u64>, lo: int, hi: int)
    requires
        lo <= hi,
    ensures
        forall|q: u64| #[trigger] sharers(frames, q, lo, hi + 1) == sharers(frames, q, lo, hi) + if frames.contains_key(
            hi as u64,
        ) && frames[hi as u64] == q {
            1int
        } else {
            0int
        },
{
}

/// No more pages than the range holds use a frame.
proof fn lemma_sharers_bound(frames: Map<u64, u64>, q: u64, lo: int, hi: int)
    requires
        lo <= hi,
    ensures
        0 <= sharers(frames, q, lo, hi) <= hi - lo,
    decreases hi - lo,
{
    if hi > lo {
        lemma_sharers_bound(frames, q, lo, hi - 1);
    }
}

/// The pages of the segments `1..k` (all but the trap context page).
pub open spec fn seg_pages(segs: Seq<Segment>, k: int) -> int
    decreases k,
{
    if k <= 1 {
        0
    } else {
        seg_pages(segs, k - 1) + (segs[k - 1].end() - segs[k - 1].start())
    }
}

/// How many pages of the segments `1..k` use frame `q`.
pub open spec fn fork_sharers(segs: Seq<Segment>, q: u64, k: int) -> int
    decreases k,
{
    if k <= 1 {
        0
    } else {
        fork_sharers(segs, q, k - 1) + sharers(segs[k - 1].frames(), q, segs[k - 1].start() as int, segs[k - 1].end() as int)
    }
}

/// Counting the pages of the segments `1..k` that use a frame counts no
/// more than their pages; segments that go forward have pages to count.
proof fn lemma_fork_sharers_bound(segs: Seq<Segment>, q: u64, k: int)
    requires
        forall|i: int| 0 <= i < segs.len() ==> seg_ok(#[trigger] segs[i]),
        k <= segs.len(),
    ensures
        0 <= fork_sharers(segs, q, k) <= seg_pages(segs, k),
        seg_pages(segs, k) >= 0,
    decreases k,
{
    if k > 1 {
        lemma_fork_sharers_bound(segs, q, k - 1);
        assert(seg_ok(segs[k - 1]));
        lemma_sharers_bound(segs[k - 1].frames(), q, segs[k - 1].start() as int, segs[k - 1].end() as int);
    }
}

/// The pages counted grow with the segments counted.
proof fn lemma_seg_pages_mono(segs: Seq<Segment>, j: int, k: int)
    requires
        forall|i: int| 0 <= i < segs.len() ==> seg_ok(#[trigger] segs[i]),
        1 <= j <= k <= segs.len(),
    ensures
        seg_pages(segs, j) <= seg_pages(segs, k),
    decreases k - j,
{
    if j < k {
        lemma_seg_pages_mono(segs, j, k - 1);
        assert(seg_ok(segs[k - 1]));
    }
}

/// A space stays well formed when a frame that is not one of its tables is
/// written, and no walk changes.
proof fn lemma_copy_keeps_wf(
    s: AddressSpace,
    m0: Map<u64, Seq<u64>>,
    m: Map<u64, Seq<u64>>,
    fa: super::frame::FrameAllocatorModel,
    c: u64,
)
    requires
        s.wf(m0, fa),
        !s.table().levels().contains_key(c),
        m == m0.insert(c, m[c]),
    ensures
        s.wf(m, fa),
        forall|v: u64| #[trigger] walk(m, s.root(), v) == walk(m0, s.root(), v),
        forall|v: u64| #[trigger] is_mapped(m, s.root(), v) == is_mapped(m0, s.root(), v),
{
    let t = s.table();
    t.lemma_write_outside(m0, c, m[c]);
    assert(m0.insert(c, m[c]) == m);
    let segs = s.segs();
    let root = s.root();
    assert forall|v: u64| #[trigger] is_mapped(m, root, v) == is_mapped(m0, root, v) by {
        assert(walk(m, root, v) == walk(m0, root, v));
    }
    assert forall|i: int, v: u64|
        #![trigger segs[i], is_mapped(m, root, v)]
        0 <= i < segs.len() && in_seg(segs[i], v) && is_mapped(m, root, v) implies segs[i].holds_page(m, root, v) by {
        assert(is_mapped(m0, root, v));
        assert(walk(m, root, v) == walk(m0, root, v));
    }
    assert forall|i: int, v: u64|
        0 <= i < segs.len() && segs[i].map_type == MapType::Framed && #[trigger] segs[i].frames().contains_key(v)
        implies in_seg(segs[i], v) && is_mapped(m, root, v) && data_frame_ok(t, m, fa, segs[i].frames()[v]) by {
        assert(is_mapped(m0, root, v));
        assert(data_frame_ok(t, m0, fa, segs[i].frames()[v]));
    }
}

/// After the parent's pages of one segment lose W, the child being built
/// is as it was: still well formed, with the same walks, no table shared
/// with the parent, and its trap context frame untouched.
proof fn lemma_fork_after_protect(
    cb: AddressSpace,
    pb: AddressSpace,
    pa: AddressSpace,
    mb: Map<u64, Seq<u64>>,
    ma: Map<u64, Seq<u64>>,
    fab: super::frame::FrameAllocatorModel,
    faa: super::frame::FrameAllocatorModel,
    c: u64,
)
    requires
        cb.wf(mb, fab),
        pb.wf(mb, fab),
        cb.segs().len() >= 1,
        cb.segs().len() <= pb.segs().len(),
        cb.segs()[0].map_type == MapType::Framed,
        forall|i: int| 1 <= i < pb.segs().len() ==> (#[trigger] pb.segs()[i]).map_type == MapType::Framed,
        forall|i: int| 1 <= i < cb.segs().len() ==> (#[trigger] cb.segs()[i]).map_type == MapType::Framed,
        cb.segs()[0].end() == cb.segs()[0].start() + 1,
        cb.segs()[0].frames().contains_key(cb.segs()[0].start()),
        cb.segs()[0].frames()[cb.segs()[0].start()] == c,
        forall|i: int| 1 <= i < cb.segs().len() ==> (#[trigger] cb.segs()[i]).frames() == pb.segs()[i].frames(),
        forall|q: u64| #[trigger] cb.table().levels().contains_key(q) ==> !pb.table().levels().contains_key(q),
        !pb.table().levels().contains_key(c),
        pa.segs() == pb.segs(),
        pa.root() == pb.root(),
        forall|q: u64| fab.is_allocated(q) ==> #[trigger] faa.is_allocated(q),
        forall|q: u64| fab.is_allocated(q) && !#[trigger] pb.table().levels().contains_key(q)
            ==> ma.contains_key(q) == mb.contains_key(q) && ma[q] == mb[q],
        forall|q: u64| #[trigger] pa.table().levels().contains_key(q) ==> pb.table().levels().contains_key(q)
            || !fab.is_allocated(q),
    ensures
        cb.wf(ma, faa),
        forall|v: u64| #[trigger] walk(ma, cb.root(), v) == walk(mb, cb.root(), v),
        forall|v: u64| #[trigger] is_mapped(ma, cb.root(), v) == is_mapped(mb, cb.root(), v),
        forall|q: u64| #[trigger] cb.table().levels().contains_key(q) ==> !pa.table().levels().contains_key(q),
        !pa.table().levels().contains_key(c),
        ma[c] == mb[c],
{
    let tc = cb.table();
    tc.lemma_frames_more_allocated(fab, fab);
    tc.lemma_tables_in_mem(mb);
    let s0 = cb.segs()[0];
    assert(seg_ok(s0));
    assert(data_frame_ok(tc, mb, fab, c));
    assert forall|q: u64| #[trigger] tc.levels().contains_key(q) implies ma.contains_key(q) && ma[q] == mb[q] by {
        assert(fab.is_allocated(q));
        assert(mb.contains_key(q));
    }
    assert forall|i: int, v: u64|
        0 <= i < cb.segs().len() && cb.segs()[i].map_type == MapType::Framed && #[trigger] cb.segs()[i].frames().contains_key(v)
            implies ma.contains_key(cb.segs()[i].frames()[v]) && ma[cb.segs()[i].frames()[v]] == mb[cb.segs()[i].frames()[v]] by {
        if i == 0 {
            assert(in_seg(s0, v));
            assert(v == s0.start());
        } else {
            assert(pb.segs()[i].frames().contains_key(v));
            assert(data_frame_ok(pb.table(), mb, fab, pb.segs()[i].frames()[v]));
        }
    }
    lemma_space_stable(cb, mb, ma, fab, faa);
    assert forall|q: u64| #[trigger] tc.levels().contains_key(q) implies !pa.table().levels().contains_key(q) by {
        assert(fab.is_allocated(q));
    }
}

/// After a segment is added to the child being built, the parent is as it
/// was: still well formed with the same walks, sharing no table with the
/// child, and the child's tables and trap context frame stay apart.
proof fn lemma_fork_after_another(
    cc: AddressSpace,
    ca: AddressSpace,
    pc: AddressSpace,
    mc: Map<u64, Seq<u64>>,
    ma: Map<u64, Seq<u64>>,
    fac: super::frame::FrameAllocatorModel,
    faa: super::frame::FrameAllocatorModel,
    fa0: super::frame::FrameAllocatorModel,
)
    requires
        pc.wf(mc, fac),
        cc.wf(mc, fac),
        forall|q: u64| #[trigger] cc.table().levels().contains_key(q) ==> !pc.table().levels().contains_key(q),
        forall|q: u64| #[trigger] cc.table().levels().contains_key(q) ==> !fa0.is_allocated(q),
        forall|i: int, v: u64|
            0 <= i < pc.segs().len() && pc.segs()[i].map_type == MapType::Framed && #[trigger] pc.segs()[i].frames().contains_key(v)
                ==> fa0.is_allocated(pc.segs()[i].frames()[v]),
        forall|q: u64| fa0.is_allocated(q) ==> #[trigger] fac.is_allocated(q),
        forall|q: u64| fac.is_allocated(q) ==> #[trigger] faa.is_allocated(q),
        forall|q: u64| fac.is_allocated(q) && !#[trigger] cc.table().levels().contains_key(q)
            ==> ma.contains_key(q) == mc.contains_key(q) && ma[q] == mc[q],
        forall|q: u64| #[trigger] ca.table().levels().contains_key(q) ==> cc.table().levels().contains_key(q)
            || !fac.is_allocated(q),
    ensures
        pc.wf(ma, faa),
        forall|v: u64| #[trigger] walk(ma, pc.root(), v) == walk(mc, pc.root(), v),
        forall|v: u64| #[trigger] is_mapped(ma, pc.root(), v) == is_mapped(mc, pc.root(), v),
        forall|q: u64| #[trigger] ca.table().levels().contains_key(q) ==> !pc.table().levels().contains_key(q),
        forall|q: u64| #[trigger] ca.table().levels().contains_key(q) ==> !fa0.is_allocated(q),
{
    let tp = pc.table();
    tp.lemma_frames_more_allocated(fac, fac);
    tp.lemma_tables_in_mem(mc);
    assert forall|q: u64| #[trigger] tp.levels().contains_key(q) implies ma.contains_key(q) && ma[q] == mc[q] by {
        assert(fac.is_allocated(q));
        assert(mc.contains_key(q));
        assert(!cc.table().levels().contains_key(q));
    }
    assert forall|i: int, v: u64|
        0 <= i < pc.segs().len() && pc.segs()[i].map_type == MapType::Framed && #[trigger] pc.segs()[i].frames().contains_key(v)
            implies ma.contains_key(pc.segs()[i].frames()[v]) && ma[pc.segs()[i].frames()[v]] == mc[pc.segs()[i].frames()[v]] by {
        let q = pc.segs()[i].frames()[v];
        assert(data_frame_ok(tp, mc, fac, q));
        assert(fa0.is_allocated(q));
        assert(!cc.table().levels().contains_key(q));
    }
    lemma_space_stable(pc, mc, ma, fac, faa);
    assert forall|q: u64| #[trigger] ca.table().levels().contains_key(q) implies !pc.table().levels().contains_key(q)
        && !fa0.is_allocated(q) by {
        if !cc.table().levels().contains_key(q) {
            assert(!fac.is_allocated(q));
        }
    }
}

/// Segment `k` is framed and holds a frame for page `v`.
pub open spec fn holds_frame(segs: Seq<Segment>, k: int, v: u64) -> bool {
    0 <= k < segs.len() && segs[k].map_type == MapType::Framed && segs[k].frames().contains_key(v)
}

/// No two pages of the segments share a frame.
pub open spec fn frames_distinct(segs: Seq<Segment>) -> bool {
    forall|i: int, v: u64, j: int, w: u64|
        #[trigger] holds_frame(segs, i, v) && #[trigger] holds_frame(segs, j, w) && (i != j || v != w)
            ==> segs[i].frames()[v] != segs[j].frames()[w]
}

/// Frame `q` holds a page of one of the segments.
pub open spec fn is_data_frame(segs: Seq<Segment>, q: u64) -> bool {
    exists|i: int, v: u64| #[trigger] holds_frame(segs, i, v) && segs[i].frames()[v] == q
}

/// Frame `f` was given back by one of its holders: with one holder it is
/// free now, else it has one holder less.
pub open spec fn given_back(refs0: Map<u64, u64>, refs: Map<u64, u64>, fa: super::frame::FrameAllocatorModel, f: u64) -> bool {
    &&& holders(refs0, f) == 1 ==> !fa.is_allocated(f)
    &&& holders(refs0, f) != 1 ==> fa.is_allocated(f) && holders(refs, f) == holders(refs0, f) - 1
}

/// Segment `i` can be released: all its pages are mapped; a framed one
/// uses a distinct frame for each page, none of them used by another
/// segment, each with a holder.
pub open spec fn releasable(segs: Seq<Segment>, mem: Map<u64, Seq<u64>>, root: u64, refs: Map<u64, u64>, i: int) -> bool {
    let s = segs[i];
    &&& forall|v: u64| in_seg(s, v) ==> #[trigger] is_mapped(mem, root, v)
    &&& s.map_type == MapType::Framed ==> forall|v: u64, w: u64|
        in_seg(s, v) && in_seg(s, w) && v != w ==> #[trigger] s.frames()[v] != #[trigger] s.frames()[w]
    &&& s.map_type == MapType::Framed ==> forall|j: int, w: u64, v: u64|
        0 <= j < segs.len() && j != i && segs[j].map_type == MapType::Framed && #[trigger] segs[j].frames().contains_key(w)
            && in_seg(s, v) ==> segs[j].frames()[w] != #[trigger] s.frames()[v]
    &&& s.map_type == MapType::Framed ==> forall|v: u64| in_seg(s, v) ==> #[trigger] holders(refs, s.frames()[v]) >= 1
}

/// Dropping a segment from a well-formed space leaves it well formed.
proof fn lemma_drop_segment_keeps_wf(s0: AddressSpace, s: AddressSpace, m: Map<u64, Seq<u64>>, fa: super::frame::FrameAllocatorModel, i: int)
    requires
        s0.wf(m, fa),
        0 <= i < s0.segs().len(),
        s.table() == s0.table(),
        s.segs() == s0.segs().remove(i),
    ensures
        s.wf(m, fa),
{
    let segs0 = s0.segs();
    let segs = s.segs();
    let root = s.root();
    assert forall|k: int| 0 <= k < segs.len() implies #[trigger] segs[k] == (if k < i { segs0[k] } else { segs0[k + 1] }) by {}
    assert forall|k: int| 0 <= k < segs.len() implies seg_ok(#[trigger] segs[k]) by {
        if k < i {
            assert(seg_ok(segs0[k]));
        } else {
            assert(seg_ok(segs0[k + 1]));
        }
    }
    assert forall|a: int, b: int| 0 <= a < b < segs.len() implies disjoint(#[trigger] segs[a], #[trigger] segs[b]) by {
        let a0 = if a < i { a } else { a + 1 };
        let b0 = if b < i { b } else { b + 1 };
        assert(disjoint(segs0[a0], segs0[b0]));
    }
    assert forall|k: int, v: u64|
        #![trigger segs[k], is_mapped(m, root, v)]
        0 <= k < segs.len() && in_seg(segs[k], v) && is_mapped(m, root, v) implies segs[k].holds_page(m, root, v) by {
        let k0 = if k < i { k } else { k + 1 };
        assert(segs[k] == segs0[k0]);
        assert(s0.root() == root);
        assert(is_mapped(m, s0.root(), v));
        assert(segs0[k0].holds_page(m, s0.root(), v));
    }
    assert forall|k: int, v: u64|
        0 <= k < segs.len() && segs[k].map_type == MapType::Framed && #[trigger] segs[k].frames().contains_key(v)
        implies in_seg(segs[k], v) && is_mapped(m, root, v) && data_frame_ok(s.table(), m, fa, segs[k].frames()[v]) by {
        let k0 = if k < i { k } else { k + 1 };
        assert(segs[k] == segs0[k0]);
        assert(segs0[k0].frames().contains_key(v));
    }
}

/// Giving back a frame that no segment of a well-formed space uses and
/// that is not one of its tables leaves the space well formed.
proof fn lemma_dealloc_keeps_wf(s: AddressSpace, m: Map<u64, Seq<u64>>, fa: super::frame::FrameAllocatorModel, f: u64)
    requires
        s.wf(m, fa),
        fa.wf(),
        !s.table().levels().contains_key(f),
        forall|k: int, v: u64|
            0 <= k < s.segs().len() && s.segs()[k].map_type == MapType::Framed && #[trigger] s.segs()[k].frames().contains_key(v)
                ==> s.segs()[k].frames()[v] != f,
    ensures
        s.wf(m, fa.dealloc(f)),
{
    s.table().lemma_frames_after_dealloc(fa, f);
    let segs = s.segs();
    let root = s.root();
    assert forall|k: int, v: u64|
        0 <= k < segs.len() && segs[k].map_type == MapType::Framed && #[trigger] segs[k].frames().contains_key(v)
        implies data_frame_ok(s.table(), m, fa.dealloc(f), segs[k].frames()[v]) by {
        assert(data_frame_ok(s.table(), m, fa, segs[k].frames()[v]));
        super::frame::lemma_dealloc_other(fa, f, segs[k].frames()[v]);
    }
}

/// A space stays well formed when the entry of a page `v0` that no segment
/// holds changes, with no other walk changed and no other allocated frame
/// written.
proof fn lemma_page_outside_keeps_wf(
    s0: AddressSpace,
    s: AddressSpace,
    m0: Map<u64, Seq<u64>>,
    m: Map<u64, Seq<u64>>,
    fa0: super::frame::FrameAllocatorModel,
    fa: super::frame::FrameAllocatorModel,
    v0: u64,
)
    requires
        s0.wf(m0, fa0),
        s.table().wf(m, fa),
        s.root() == s0.root(),
        s.segs() == s0.segs(),
        sv39_vpn(v0),
        forall|i: int| 0 <= i < s0.segs().len() ==> !#[trigger] in_seg(s0.segs()[i], v0),
        forall|v: u64| !same_indexes(v, v0) ==> #[trigger] translation(m, s.root(), v) == translation(m0, s0.root(), v),
        forall|v: u64| !same_indexes(v, v0) && is_mapped(m0, s0.root(), v) ==> #[trigger] walk(m, s.root(), v) == walk(
            m0,
            s0.root(),
            v,
        ),
        forall|q: u64| fa0.is_allocated(q) ==> #[trigger] fa.is_allocated(q),
        forall|q: u64| fa0.is_allocated(q) && !#[trigger] s0.table().levels().contains_key(q)
            ==> m.contains_key(q) == m0.contains_key(q) && m[q] == m0[q],
        forall|q: u64| #[trigger] s.table().levels().contains_key(q) ==> s0.table().levels().contains_key(q)
            || !fa0.is_allocated(q),
    ensures
        s.wf(m, fa),
        forall|v: u64| v != v0 && sv39_vpn(v) ==> #[trigger] is_mapped(m, s.root(), v) == is_mapped(m0, s0.root(), v),
        forall|v: u64| v != v0 && sv39_vpn(v) && is_mapped(m0, s0.root(), v) ==> #[trigger] walk(m, s.root(), v) == walk(
            m0,
            s0.root(),
            v,
        ),
{
    let segs = s.segs();
    let root = s.root();
    assert forall|v: u64| v != v0 && sv39_vpn(v) implies #[trigger] is_mapped(m, root, v) == is_mapped(m0, root, v) by {
        if same_indexes(v, v0) {
            lemma_sv39_same_indexes(v, v0);
        }
        assert(translation(m, root, v) == translation(m0, root, v));
    }
    assert forall|v: u64| v != v0 && sv39_vpn(v) && is_mapped(m0, root, v) implies #[trigger] walk(m, root, v) == walk(
        m0,
        root,
        v,
    ) by {
        if same_indexes(v, v0) {
            lemma_sv39_same_indexes(v, v0);
        }
    }
    assert forall|j: int, v: u64|
        #![trigger segs[j], is_mapped(m, root, v)]
        0 <= j < segs.len() && in_seg(segs[j], v) && is_mapped(m, root, v) implies segs[j].holds_page(m, root, v) by {
        assert(seg_ok(segs[j]));
        lemma_sv39_range_member(segs[j].start(), segs[j].end(), v);
        assert(v != v0);
        assert(is_mapped(m0, root, v));
        assert(segs[j].holds_page(m0, root, v));
    }
    assert forall|j: int, v: u64|
        0 <= j < segs.len() && segs[j].map_type == MapType::Framed && #[trigger] segs[j].frames().contains_key(v)
        implies in_seg(segs[j], v) && is_mapped(m, root, v) && data_frame_ok(s.table(), m, fa, segs[j].frames()[v]) by {
        assert(seg_ok(segs[j]));
        lemma_sv39_range_member(segs[j].start(), segs[j].end(), v);
        assert(is_mapped(m0, root, v));
        let q = segs[j].frames()[v];
        assert(data_frame_ok(s0.table(), m0, fa0, q));
    }
}

/// A space stays well formed when memory changes only outside its tables
/// and data frames and the allocator hands out more frames.
proof fn lemma_space_stable(
    s: AddressSpace,
    m0: Map<u64, Seq<u64>>,
    m: Map<u64, Seq<u64>>,
    fa0: super::frame::FrameAllocatorModel,
    fa: super::frame::FrameAllocatorModel,
)
    requires
        s.wf(m0, fa0),
        forall|q: u64| fa0.is_allocated(q) ==> #[trigger] fa.is_allocated(q),
        forall|q: u64| #[trigger] s.table().levels().contains_key(q) ==> m.contains_key(q) && m[q] == m0[q],
        forall|i: int, v: u64|
            0 <= i < s.segs().len() && s.segs()[i].map_type == MapType::Framed && #[trigger] s.segs()[i].frames().contains_key(v)
                ==> m.contains_key(s.segs()[i].frames()[v]) && m[s.segs()[i].frames()[v]] == m0[s.segs()[i].frames()[v]],
    ensures
        s.wf(m, fa),
        forall|v: u64| #[trigger] walk(m, s.root(), v) == walk(m0, s.root(), v),
        forall|v: u64| #[trigger] is_mapped(m, s.root(), v) == is_mapped(m0, s.root(), v),
{
    let t = s.table();
    t.lemma_same_tables(m0, m);
    t.lemma_frames_more_allocated(fa0, fa);
    let segs = s.segs();
    let root = s.root();
    assert forall|v: u64| #[trigger] walk(m, root, v) == walk(m0, root, v) by {}
    assert forall|v: u64| #[trigger] is_mapped(m, root, v) == is_mapped(m0, root, v) by {
        assert(walk(m, root, v) == walk(m0, root, v));
    }
    assert forall|i: int, v: u64|
        #![trigger segs[i], is_mapped(m, root, v)]
        0 <= i < segs.len() && in_seg(segs[i], v) && is_mapped(m, root, v) implies segs[i].holds_page(m, root, v) by {
        assert(is_mapped(m0, root, v));
        assert(walk(m, root, v) == walk(m0, root, v));
    }
    assert forall|i: int, v: u64|
        0 <= i < segs.len() && segs[i].map_type == MapType::Framed && #[trigger] segs[i].frames().contains_key(v)
        implies in_seg(segs[i], v) && is_mapped(m, root, v) && data_frame_ok(t, m, fa, segs[i].frames()[v]) by {
        assert(is_mapped(m0, root, v));
        assert(data_frame_ok(t, m0, fa0, segs[i].frames()[v]));
    }
}

/// The flag bits of the identity entries of text, read-only data and data.
proof fn lemma_kernel_entry_bits(v: u64)
    by (bit_vector)
    ensures
        ((v << 10u64) | ((10u8 | 1u8) as u64)) & 1u64 != 0,
        ((v << 10u64) | ((10u8 | 1u8) as u64)) & 2u64 != 0,
        ((v << 10u64) | ((10u8 | 1u8) as u64)) & 4u64 == 0,
        ((v << 10u64) | ((10u8 | 1u8) as u64)) & 8u64 != 0,
        ((v << 10u64) | ((2u8 | 1u8) as u64)) & 1u64 != 0,
        ((v << 10u64) | ((2u8 | 1u8) as u64)) & 2u64 != 0,
        ((v << 10u64) | ((2u8 | 1u8) as u64)) & 4u64 == 0,
        ((v << 10u64) | ((2u8 | 1u8) as u64)) & 8u64 == 0,
        ((v << 10u64) | ((6u8 | 1u8) as u64)) & 1u64 != 0,
        ((v << 10u64) | ((6u8 | 1u8) as u64)) & 2u64 != 0,
        ((v << 10u64) | ((6u8 | 1u8) as u64)) & 4u64 != 0,
        ((v << 10u64) | ((6u8 | 1u8) as u64)) & 8u64 == 0,
{
}

/// The entry of the page in the middle of `[s, e)`, looked up in `space`.
fn middle_entry(space: &AddressSpace, mem: &PhysMem, s: u64, e: u64) -> (r: Option<PageTableEntry>)
    requires
        s <= e < 0x80_0000_0000,
    ensures
        match walk(mem.view(), space.root(), ((s + e) / 2 / 4096) as u64) {
            Some(w) => r matches Some(x) && x.bits == w,
            None => r is None,
        },
{
    let mid = VirtAddr((s + e) / 2);
    space.translate_vpn(mem, mid.floor())
}

/// The page in the middle of the section `[s, e)`.
pub open spec fn mid_vpn(s: u64, e: u64) -> u64 {
    ((s + e) / 2 / 4096) as u64
}

/// Page `v` is mapped by a valid, readable entry that is writable exactly
/// when `w` and executable exactly when `x`.
pub open spec fn entry_perms(mem: Map<u64, Seq<u64>>, root: u64, v: u64, w: bool, x: bool) -> bool {
    walk(mem, root, v) matches Some(b) && pte_valid(b) && b & 2u64 != 0 && (b & 4u64 != 0) == w && (b & 8u64 != 0) == x
}

/// The kernel sections have the permissions they should, at the page in
/// the middle of each: text readable and executable but not writable,
/// read-only data only readable, data readable and writable but not
/// executable.
pub open spec fn kernel_remap_ok(mem: Map<u64, Seq<u64>>, root: u64, view: KernelView) -> bool {
    &&& entry_perms(mem, root, mid_vpn(view.stext, view.etext), false, true)
    &&& entry_perms(mem, root, mid_vpn(view.srodata, view.erodata), false, false)
    &&& entry_perms(mem, root, mid_vpn(view.sdata, view.edata), true, false)
}

/// Checks the permissions of the kernel space at the page in the middle of
/// each section: text readable and executable but not writable, read-only
/// data only readable, data readable and writable but not executable.
pub fn remap_test(space: &AddressSpace, mem: &PhysMem, view: &KernelView) -> (r: bool)
    requires
        view.stext <= view.etext < 0x80_0000_0000,
        view.srodata <= view.erodata < 0x80_0000_0000,
        view.sdata <= view.edata < 0x80_0000_0000,
    ensures
        r == kernel_remap_ok(mem.view(), space.root(), *view),
{
    let text = middle_entry(space, mem, view.stext, view.etext);
    let rodata = middle_entry(space, mem, view.srodata, view.erodata);
    let data = middle_entry(space, mem, view.sdata, view.edata);
    let text = match text {
        Some(x) => x,
        None => return false,
    };
    let rodata = match rodata {
        Some(x) => x,
        None => return false,
    };
    let data = match data {
        Some(x) => x,
        None => return false,
    };
    let text_ok = text.valid() && !text.writable() && text.executable() && text.readable();
    let rodata_ok = rodata.valid() && !rodata.writable() && !rodata.executable() && rodata.readable();
    let data_ok = data.valid() && data.writable() && !data.executable() && data.readable();
    text_ok && rodata_ok && data_ok
}

/// A space mapped as `new_kernel` maps the kernel regions passes the
/// permission check of `remap_test`.
pub proof fn lemma_kernel_space_passes_remap(space: AddressSpace, mem: Map<u64, Seq<u64>>, view: KernelView)
    requires
        view.stext < view.etext,
        view.srodata < view.erodata,
        view.sdata < view.edata,
        regions_ok(kernel_regions(view)),
        space.segs().len() == kernel_regions(view).len(),
        forall|k: int| 0 <= k < space.segs().len() ==> (#[trigger] space.segs()[k]).start() == region_first(kernel_regions(view)[k])
            && space.segs()[k].end() == region_end(kernel_regions(view)[k]),
        forall|k: int, v: u64|
            #![trigger space.segs()[k], walk(mem, space.root(), v)]
            0 <= k < space.segs().len() && in_seg(space.segs()[k], v) ==> walk(mem, space.root(), v) == Some(pte_make(v, kernel_regions(view)[k].2 | 1u8)),
    ensures
        view.stext <= view.etext < 0x80_0000_0000,
        view.srodata <= view.erodata < 0x80_0000_0000,
        view.sdata <= view.edata < 0x80_0000_0000,
        kernel_remap_ok(mem, space.root(), view),
{
    let rs = kernel_regions(view);
    assert(rs[0] == (view.stext, view.etext, 10u8));
    assert(rs[1] == (view.srodata, view.erodata, 2u8));
    assert(rs[2] == (view.sdata, view.edata, 6u8));
    assert(region_end(rs[0]) <= trampoline_vpn());
    assert(region_end(rs[1]) <= trampoline_vpn());
    assert(region_end(rs[2]) <= trampoline_vpn());
    let segs = space.segs();
    let t = mid_vpn(view.stext, view.etext);
    let o = mid_vpn(view.srodata, view.erodata);
    let d = mid_vpn(view.sdata, view.edata);
    assert(in_seg(segs[0], t));
    assert(in_seg(segs[1], o));
    assert(in_seg(segs[2], d));
    assert(walk(mem, space.root(), t) == Some(pte_make(t, 10u8 | 1u8)));
    assert(walk(mem, space.root(), o) == Some(pte_make(o, 2u8 | 1u8)));
    assert(walk(mem, space.root(), d) == Some(pte_make(d, 6u8 | 1u8)));
    lemma_kernel_entry_bits(t);
    lemma_kernel_entry_bits(o);
    lemma_kernel_entry_bits(d);
    crate::bits::lemma_bit_constants();
}

/// Every page of `[s, e)` is mapped valid and readable, writable exactly
/// when `w`, executable exactly when `x`.
pub open spec fn pages_mapped(mem: Map<u64, Seq<u64>>, root: u64, s: u64, e: u64, w: bool, x: bool) -> bool {
    forall|v: u64| page_floor(s as int) <= v < page_ceil(e as int) ==> #[trigger] entry_perms(mem, root, v, w, x)
}

/// A space mapped as `new_kernel` maps the kernel regions gives each page
/// of the kernel what the kernel does with it: its text readable and
/// executable, its read-only data readable only, its data and its bss (with
/// the boot stack) readable and writable, the free physical memory after
/// the kernel image (`kernel_end` to `MEMORY_END`), in which frames are
/// cleared, page tables written and programs loaded, readable and
/// writable, and the device registers readable and writable; none of the
/// writable pages is executable.
pub proof fn lemma_kernel_space_permissions(space: AddressSpace, mem: Map<u64, Seq<u64>>, view: KernelView)
    requires
        regions_ok(kernel_regions(view)),
        space.segs().len() == kernel_regions(view).len(),
        forall|k: int| 0 <= k < space.segs().len() ==> (#[trigger] space.segs()[k]).start() == region_first(kernel_regions(view)[k])
            && space.segs()[k].end() == region_end(kernel_regions(view)[k]),
        forall|k: int, v: u64|
            #![trigger space.segs()[k], walk(mem, space.root(), v)]
            0 <= k < space.segs().len() && in_seg(space.segs()[k], v) ==> walk(mem, space.root(), v) == Some(pte_make(v, kernel_regions(view)[k].2 | 1u8)),
    ensures
        pages_mapped(mem, space.root(), view.stext, view.etext, false, true),
        pages_mapped(mem, space.root(), view.srodata, view.erodata, false, false),
        pages_mapped(mem, space.root(), view.sdata, view.edata, true, false),
        pages_mapped(mem, space.root(), view.sbss_with_stack, view.ebss, true, false),
        pages_mapped(mem, space.root(), view.kernel_end, MEMORY_END, true, false),
        pages_mapped(mem, space.root(), 0x1000_0000, 0x1000_1000, true, false),
        pages_mapped(mem, space.root(), 0x1000_1000, 0x1000_9000, true, false),
{
    let rs = kernel_regions(view);
    let segs = space.segs();
    let root = space.root();
    assert(rs[0] == (view.stext, view.etext, 10u8));
    assert(rs[1] == (view.srodata, view.erodata, 2u8));
    assert(rs[2] == (view.sdata, view.edata, 6u8));
    assert(rs[3] == (view.sbss_with_stack, view.ebss, 6u8));
    assert(rs[4] == (view.kernel_end, MEMORY_END, 6u8));
    assert(rs[5] == (0x1000_0000u64, 0x1000_1000u64, 6u8));
    assert(rs[6] == (0x1000_1000u64, 0x1000_9000u64, 6u8));
    assert forall|v: u64| page_floor(view.stext as int) <= v < page_ceil(view.etext as int) implies #[trigger] entry_perms(
        mem,
        root,
        v,
        false,
        true,
    ) by {
        assert(in_seg(segs[0], v));
        lemma_kernel_entry_bits(v);
    }
    assert forall|v: u64| page_floor(view.srodata as int) <= v < page_ceil(view.erodata as int) implies #[trigger] entry_perms(
        mem,
        root,
        v,
        false,
        false,
    ) by {
        assert(in_seg(segs[1], v));
        lemma_kernel_entry_bits(v);
    }
    assert forall|v: u64| page_floor(view.sdata as int) <= v < page_ceil(view.edata as int) implies #[trigger] entry_perms(
        mem,
        root,
        v,
        true,
        false,
    ) by {
        assert(in_seg(segs[2], v));
        lemma_kernel_entry_bits(v);
    }
    assert forall|v: u64| page_floor(view.sbss_with_stack as int) <= v < page_ceil(view.ebss as int) implies #[trigger] entry_perms(
        mem,
        root,
        v,
        true,
        false,
    ) by {
        assert(in_seg(segs[3], v));
        lemma_kernel_entry_bits(v);
    }
    assert forall|v: u64| page_floor(view.kernel_end as int) <= v < page_ceil(MEMORY_END as int) implies #[trigger] entry_perms(
        mem,
        root,
        v,
        true,
        false,
    ) by {
        assert(in_seg(segs[4], v));
        lemma_kernel_entry_bits(v);
    }
    assert forall|v: u64| page_floor(0x1000_0000int) <= v < page_ceil(0x1000_1000int) implies #[trigger] entry_perms(
        mem,
        root,
        v,
        true,
        false,
    ) by {
        assert(in_seg(segs[5], v));
        lemma_kernel_entry_bits(v);
    }
    assert forall|v: u64| page_floor(0x1000_1000int) <= v < page_ceil(0x1000_9000int) implies #[trigger] entry_perms(
        mem,
        root,
        v,
        true,
        false,
    ) by {
        assert(in_seg(segs[6], v));
        lemma_kernel_entry_bits(v);
    }
}

/// The first page of the user stack of thread `tid`.
pub open spec fn ustack_page(ustack_base: u64, tid: usize) -> u64 {
    (spec_ustack_bottom(ustack_base as int, tid as int) / 4096) as u64
}

/// The page of the trap context of thread `tid`: the low 39 bits of its
/// address, in pages.
pub open spec fn trap_ctx_page(tid: usize) -> u64 {
    (0x7ff_fffe - tid) as u64
}

/// The trap context address of thread `tid`, cut to 39 bits, lies at the
/// start of its page, and the page after it ends below the trampoline.
proof fn lemma_trap_page(tid: int)
    requires
        0 <= tid < 64,
    ensures
        (spec_trap_ctx_bottom(tid) as u64) % 0x80_0000_0000 == (0x7ff_fffe - tid) * 4096,
        ((spec_trap_ctx_bottom(tid) + 4096) as u64) % 0x80_0000_0000 == (0x7ff_ffff - tid) * 4096,
{
    let b = spec_trap_ctx_bottom(tid);
    assert(b == 0xffff_ffff_ffff_e000 - tid * 4096);
    assert(b == 0x1ff_ffff * 0x80_0000_0000 + (0x7ff_fffe - tid) * 4096);
    assert(b + 4096 == 0x1ff_ffff * 0x80_0000_0000 + (0x7ff_ffff - tid) * 4096);
    vstd::arithmetic::div_mod::lemma_mod_multiples_vanish(0x1ff_ffff, (0x7ff_fffe - tid) * 4096, 0x80_0000_0000);
    vstd::arithmetic::div_mod::lemma_mod_multiples_vanish(0x1ff_ffff, (0x7ff_ffff - tid) * 4096, 0x80_0000_0000);
    vstd::arithmetic::div_mod::lemma_small_mod(((0x7ff_fffe - tid) * 4096) as nat, 0x80_0000_0000);
    vstd::arithmetic::div_mod::lemma_small_mod(((0x7ff_ffff - tid) * 4096) as nat, 0x80_0000_0000);
}

/// No segment touches the two stack pages from `sp` or the trap context
/// page `tp`, and the two do not meet.
pub open spec fn uresource_room(segs: Seq<Segment>, sp: u64, tp: u64) -> bool {
    &&& forall|j: int| 0 <= j < segs.len() ==> #[trigger] segs[j].end() <= sp || sp + 2 <= segs[j].start()
    &&& forall|j: int| 0 <= j < segs.len() ==> #[trigger] segs[j].end() <= tp || tp + 1 <= segs[j].start()
    &&& sp + 2 <= tp
}

/// The pages that a heap grows by for an increment of `inc` bytes: the
/// increment rounded up to whole pages.
pub open spec fn heap_pages(inc: int) -> int {
    (inc + 4095) / 4096
}

/// No segment but the last lies in the pages between the last segment's
/// end and `new_end`: the last segment can grow to `new_end`.
pub open spec fn heap_room(segs: Seq<Segment>, new_end: int) -> bool {
    forall|j: int| 0 <= j < segs.len() - 1 ==> #[trigger] segs[j].end() <= segs.last().start() || new_end <= segs[j].start()
}

/// The identity-mapped regions of the kernel space, in the order they are
/// added, each as (start address, end address, permission): the code, the
/// read-only data, the data, the zero-initialised data with the boot stack,
/// the free physical memory, then the device registers.
pub open spec fn kernel_regions(view: KernelView) -> Seq<(u64, u64, u8)> {
    seq![
        (view.stext, view.etext, 10u8),
        (view.srodata, view.erodata, 2u8),
        (view.sdata, view.edata, 6u8),
        (view.sbss_with_stack, view.ebss, 6u8),
        (view.kernel_end, MEMORY_END, 6u8),
    ] + mmio_spec().map_values(|m: (u64, u64)| (m.0, (m.0 + m.1) as u64, 6u8))
}

/// The pages `[floor(start), ceil(end))` of a region.
pub open spec fn region_first(r: (u64, u64, u8)) -> int {
    page_floor(r.0 as int)
}

/// The page after the last page of a region.
pub open spec fn region_end(r: (u64, u64, u8)) -> int {
    page_ceil(r.1 as int)
}

/// The regions can be identity-mapped one after the other: each is a
/// non-empty-ended range of addresses whose pages lie below the
/// trampoline, and no two share a page.
pub open spec fn regions_ok(rs: Seq<(u64, u64, u8)>) -> bool {
    &&& forall|i: int| 0 <= i < rs.len() ==> 1 <= (#[trigger] rs[i]).1 && rs[i].0 <= rs[i].1
        && region_end(rs[i]) <= trampoline_vpn()
    &&& forall|i: int, j: int| 0 <= i < j < rs.len() ==> region_end(#[trigger] rs[i]) <= region_first(#[trigger] rs[j])
        || region_end(rs[j]) <= region_first(rs[i])
}

/// The table frames that identity-mapping the first `k` regions may take.
pub open spec fn regions_cost(rs: Seq<(u64, u64, u8)>, k: int) -> int
    decreases k,
{
    if k <= 0 {
        0
    } else {
        regions_cost(rs, k - 1) + 2 * page_blocks(region_first(rs[k - 1]), region_end(rs[k - 1]))
    }
}

/// The cost of mapping more regions is no smaller.
proof fn lemma_regions_cost_mono(rs: Seq<(u64, u64, u8)>, a: int, b: int)
    requires
        0 <= a <= b,
    ensures
        regions_cost(rs, a) <= regions_cost(rs, b),
    decreases b - a,
{
    if a < b {
        lemma_regions_cost_mono(rs, a, b - 1);
        assert(page_blocks(region_first(rs[b - 1]), region_end(rs[b - 1])) >= 0);
    }
}

/// The regions of `kernel_regions`, with their permissions as values.
fn kernel_region_list(view: &KernelView) -> (r: Vec<(u64, u64, MapPermission)>)
    requires
        forall|i: int| 0 <= i < mmio_spec().len() ==> mmio_spec()[i].0 + mmio_spec()[i].1 <= u64::MAX,
    ensures
        r@.len() == kernel_regions(*view).len(),
        forall|i: int| 0 <= i < r@.len() ==> (#[trigger] r@[i]).0 == kernel_regions(*view)[i].0 && r@[i].1
            == kernel_regions(*view)[i].1 && r@[i].2@ == kernel_regions(*view)[i].2 && r@[i].2.wf(),
{
    let rx = MapPermission::R().union(MapPermission::X());
    let rw = MapPermission::R().union(MapPermission::W());
    proof {
        crate::bits::lemma_bit_constants();
    }
    let mut r: Vec<(u64, u64, MapPermission)> = Vec::new();
    r.push((view.stext, view.etext, rx));
    r.push((view.srodata, view.erodata, MapPermission::R()));
    r.push((view.sdata, view.edata, rw));
    r.push((view.sbss_with_stack, view.ebss, rw));
    r.push((view.kernel_end, MEMORY_END, rw));
    let mmio = mmio_regions();
    let mut k: usize = 0;
    while k < mmio.len()
        invariant
            mmio@ == mmio_spec(),
            k <= mmio@.len(),
            forall|i: int| 0 <= i < mmio_spec().len() ==> mmio_spec()[i].0 + mmio_spec()[i].1 <= u64::MAX,
            r@.len() == 5 + k,
            rx@ == 10u8 && rw@ == 6u8 && rx.wf() && rw.wf(),
            forall|i: int| 0 <= i < r@.len() ==> (#[trigger] r@[i]).0 == kernel_regions(*view)[i].0 && r@[i].1
                == kernel_regions(*view)[i].1 && r@[i].2@ == kernel_regions(*view)[i].2 && r@[i].2.wf(),
        decreases mmio@.len() - k,
    {
        let (start, len) = mmio[k];
        r.push((start, start + len, rw));
        k = k + 1;
    }
    r
}

/// `f` and `e` hold the first page and the end page of each region of
/// `rs`.
spec fn region_pages(rs: Seq<(u64, u64, u8)>, f: Seq<u64>, e: Seq<u64>) -> bool {
    &&& f.len() == rs.len()
    &&& e.len() == rs.len()
    &&& forall|j: int| #![trigger f[j]] 0 <= j < rs.len() ==> f[j] == region_first(rs[j]) && e[j] == region_end(rs[j])
}

/// Whether the kernel layout `view` can be mapped with `free` free frames:
/// the regions of `kernel_regions` lie below the trampoline and share no
/// page, and the frames cover the trampoline's and the root's tables and
/// the table frames the regions may take (what `new_kernel` requires).
#[verifier::spinoff_prover]
pub fn kernel_layout_ok(view: &KernelView, free: u64) -> (r: bool)
    ensures
        r == (regions_ok(kernel_regions(*view)) && free >= 3 + regions_cost(
            kernel_regions(*view),
            kernel_regions(*view).len() as int,
        )),
{
    let ghost rs = kernel_regions(*view);
    let regions = kernel_region_list(view);
    let n = regions.len();
    let mut firsts: Vec<u64> = Vec::new();
    let mut ends: Vec<u64> = Vec::new();
    let mut i: usize = 0;
    while i < n
        invariant
            rs == kernel_regions(*view),
            n == regions@.len() == rs.len(),
            forall|j: int| 0 <= j < n ==> (#[trigger] regions@[j]).0 == rs[j].0 && regions@[j].1 == rs[j].1,
            i <= n,
            firsts@.len() == i && ends@.len() == i,
            forall|j: int| 0 <= j < i ==> 1 <= (#[trigger] rs[j]).1 && rs[j].0 <= rs[j].1 && region_end(rs[j]) <= trampoline_vpn(),
            forall|j: int| #![trigger firsts@[j]] 0 <= j < i ==> firsts@[j] == region_first(rs[j]) && ends@[j] == region_end(rs[j]),
        decreases n - i,
    {
        let (start, end, _) = regions[i];
        proof {
            assert(regions@[i as int].0 == rs[i as int].0);
        }
        if !(1 <= end && start <= end && end <= 0x7ff_ffff * 4096) {
            proof {
                if end > 0x7ff_ffff * 4096 {
                    assert((end as int + 4095) / 4096 > 0x7ff_ffff) by (nonlinear_arith)
                        requires
                            end > 0x7ff_ffff * 4096,
                    ;
                }
                assert(!(1 <= rs[i as int].1 && rs[i as int].0 <= rs[i as int].1 && region_end(rs[i as int]) <= trampoline_vpn()));
                assert(!regions_ok(rs));
            }
            return false;
        }
        proof {
            assert((end as int + 4095) / 4096 <= 0x7ff_ffff) by (nonlinear_arith)
                requires
                    end <= 0x7ff_ffff * 4096,
            ;
        }
        let ghost f0 = firsts@;
        let ghost e0 = ends@;
        firsts.push(start / 4096);
        ends.push((end + 4095) / 4096);
        proof {
            assert(start == rs[i as int].0 && end == rs[i as int].1);
            assert(firsts@[i as int] == region_first(rs[i as int]));
            assert(ends@[i as int] == region_end(rs[i as int]));
            assert forall|j: int| #![trigger firsts@[j]] 0 <= j < i implies firsts@[j] == f0[j] && ends@[j] == e0[j] by {}
        }
        i = i + 1;
    }
    proof {
        assert(region_pages(rs, firsts@, ends@));
    }
    let mut a: usize = 0;
    while a < n
        invariant
            rs == kernel_regions(*view),
            n == rs.len(),
                        region_pages(rs, firsts@, ends@),
            a <= n,
            forall|x: int, y: int| 0 <= x < a && x < y < n ==> region_end(#[trigger] rs[x]) <= region_first(#[trigger] rs[y])
                || region_end(rs[y]) <= region_first(rs[x]),
        decreases n - a,
    {
        let mut b: usize = a + 1;
        while b < n
            invariant
            rs == kernel_regions(*view),
                rs == kernel_regions(*view),
                n == rs.len(),
                                region_pages(rs, firsts@, ends@),
                a < n,
                a + 1 <= b <= n,
                forall|x: int, y: int| 0 <= x < a && x < y < n ==> region_end(#[trigger] rs[x]) <= region_first(#[trigger] rs[y])
                    || region_end(rs[y]) <= region_first(rs[x]),
                forall|y: int| a < y < b ==> region_end(rs[a as int]) <= region_first(#[trigger] rs[y])
                    || region_end(rs[y]) <= region_first(rs[a as int]),
            decreases n - b,
        {
            if !(ends[a] <= firsts[b] || ends[b] <= firsts[a]) {
                proof {
                    assert(firsts@[a as int] == region_first(rs[a as int]));
                    assert(firsts@[b as int] == region_first(rs[b as int]));
                    assert(!regions_ok(rs));
                }
                return false;
            }
            proof {
                assert(firsts@[a as int] == region_first(rs[a as int]));
                assert(firsts@[b as int] == region_first(rs[b as int]));
            }
            b = b + 1;
        }
        a = a + 1;
    }
    proof {
        assert(regions_ok(rs));
    }
    if free < 3 {
        proof {
            assert(regions_cost(rs, n as int) >= 0) by {
                lemma_regions_cost_mono(rs, 0, n as int);
            }
        }
        return false;
    }
    let mut cost: u64 = 0;
    let mut k: usize = 0;
    while k < n
        invariant
            rs == kernel_regions(*view),
            n == rs.len(),
                        region_pages(rs, firsts@, ends@),
            forall|j: int| 0 <= j < n ==> 1 <= (#[trigger] rs[j]).1 && rs[j].0 <= rs[j].1 && region_end(rs[j]) <= trampoline_vpn(),
            k <= n,
            free >= 3,
            cost == regions_cost(rs, k as int),
            cost <= free - 3,
        decreases n - k,
    {
        let f = firsts[k];
        let e = ends[k];
        let blocks: u64 = if f < e { (e - 1) / 512 - f / 512 + 1 } else { 0 };
        proof {
            assert(firsts@[k as int] == region_first(rs[k as int]));
            assert(page_blocks(region_first(rs[k as int]), region_end(rs[k as int])) == blocks);
        }
        if blocks > (free - 3 - cost) / 2 {
            proof {
                assert(2 * blocks > free - 3 - cost) by (nonlinear_arith)
                    requires
                        blocks > (free - 3 - cost) / 2,
                        free - 3 - cost >= 0,
                ;
                assert(regions_cost(rs, k as int + 1) == cost + 2 * blocks);
                lemma_regions_cost_mono(rs, k as int + 1, n as int);
            }
            return false;
        }
        proof {
            assert(2 * blocks <= free - 3 - cost) by (nonlinear_arith)
                requires
                    blocks <= (free - 3 - cost) / 2,
                    free - 3 - cost >= 0,
            ;
            assert(regions_cost(rs, k as int + 1) == cost + 2 * blocks);
        }
        cost = cost + 2 * blocks;
        k = k + 1;
    }
    true
}

impl AddressSpace {
    /// The kernel space: the trampoline, then each region of
    /// `kernel_regions` mapped onto the same physical pages with its
    /// permission, kernel-only. The regions must not share a page, and the
    /// allocator must hold the table frames this may take.
    #[verifier::spinoff_prover]
    #[verifier::rlimit(30)]
    pub fn new_kernel(view: &KernelView, mem: &mut PhysMem, allocator: &mut StackFrameAllocator) -> (r: Self)
        requires
            old(allocator)@.wf(),
            regions_ok(kernel_regions(*view)),
            view.strampoline < 0x100_0000_0000_0000,
            old(allocator)@.free_count() >= 3 + regions_cost(kernel_regions(*view), kernel_regions(*view).len() as int),
        ensures
            r.wf(final(mem).view(), final(allocator)@),
            final(allocator)@.wf(),
            walk(final(mem).view(), r.root(), trampoline_vpn()) == Some(pte_make(view.strampoline / 4096, 2u8 | 8u8 | 1u8)),
            r.segs().len() == kernel_regions(*view).len(),
            forall|k: int| 0 <= k < r.segs().len() ==> (#[trigger] r.segs()[k]).start() == region_first(kernel_regions(*view)[k])
                && r.segs()[k].end() == region_end(kernel_regions(*view)[k])
                && r.segs()[k].map_type == MapType::Identical
                && r.segs()[k].map_perm@ == kernel_regions(*view)[k].2,
            forall|k: int, v: u64|
                #![trigger r.segs()[k], walk(final(mem).view(), r.root(), v)]
                0 <= k < r.segs().len() && in_seg(r.segs()[k], v) ==> walk(final(mem).view(), r.root(), v) == Some(pte_make(v, kernel_regions(*view)[k].2 | 1u8)) && is_mapped(final(mem).view(), r.root(), v),
            forall|q: u64| old(allocator)@.is_allocated(q) ==> #[trigger] final(allocator)@.is_allocated(q),
            pages_mapped(final(mem).view(), r.root(), view.stext, view.etext, false, true),
            pages_mapped(final(mem).view(), r.root(), view.srodata, view.erodata, false, false),
            pages_mapped(final(mem).view(), r.root(), view.sdata, view.edata, true, false),
            pages_mapped(final(mem).view(), r.root(), view.sbss_with_stack, view.ebss, true, false),
            pages_mapped(final(mem).view(), r.root(), view.kernel_end, MEMORY_END, true, false),
            pages_mapped(final(mem).view(), r.root(), 0x1000_0000, 0x1000_1000, true, false),
            pages_mapped(final(mem).view(), r.root(), 0x1000_1000, 0x1000_9000, true, false),
    {
        let ghost rs = kernel_regions(*view);
        let ghost n = rs.len() as int;
        proof {
            lemma_regions_cost_mono(rs, 0, n);
        }
        let mut space = AddressSpace::new_bare(mem, allocator);
        space.map_trampoline(mem, allocator, view.strampoline);
        let ghost free0 = allocator@.free_count();
        let ghost root = space.root();
        let ghost tramp = walk(mem.view(), root, trampoline_vpn());
        proof {
            crate::bits::lemma_bit_constants();
            lemma_pte_make_valid(view.strampoline / 4096, 2u8 | 8u8 | 1u8);
        }
        let regions = kernel_region_list(view);
        let mut i: usize = 0;
        while i < regions.len()
            invariant
                rs == kernel_regions(*view),
                n == rs.len(),
                regions@.len() == n,
                forall|j: int| 0 <= j < regions@.len() ==> (#[trigger] regions@[j]).0 == rs[j].0 && regions@[j].1 == rs[j].1
                    && regions@[j].2@ == rs[j].2 && regions@[j].2.wf(),
                regions_ok(rs),
                0 <= i <= n,
                space.wf(mem.view(), allocator@),
                allocator@.wf(),
                space.root() == root,
                walk(mem.view(), root, trampoline_vpn()) == tramp,
                tramp == Some(pte_make(view.strampoline / 4096, 2u8 | 8u8 | 1u8)),
                is_mapped(mem.view(), root, trampoline_vpn()),
                free0 >= regions_cost(rs, n),
                allocator@.free_count() >= free0 - regions_cost(rs, i as int),
                space.segs().len() == i,
                forall|k: int| 0 <= k < i ==> (#[trigger] space.segs()[k]).start() == region_first(rs[k])
                    && space.segs()[k].end() == region_end(rs[k])
                    && space.segs()[k].map_type == MapType::Identical
                    && space.segs()[k].map_perm@ == rs[k].2,
                forall|k: int, v: u64|
                    #![trigger space.segs()[k], walk(mem.view(), root, v)]
                    0 <= k < i && in_seg(space.segs()[k], v) ==> walk(mem.view(), root, v) == Some(pte_make(v, rs[k].2 | 1u8)) && is_mapped(mem.view(), root, v),
                forall|k: int, v: u64|
                    #![trigger rs[k], is_mapped(mem.view(), root, v)]
                    i <= k < n && region_first(rs[k]) <= v < region_end(rs[k]) ==> !is_mapped(mem.view(), root, v),
                forall|q: u64| old(allocator)@.is_allocated(q) ==> #[trigger] allocator@.is_allocated(q),
            decreases n - i,
        {
            let (start, end, perm) = regions[i];
            let ghost reg = rs[i as int];
            proof {
                assert(regions@[i as int].0 == reg.0);
                assert(1 <= reg.1 && reg.0 <= reg.1 && region_end(reg) <= trampoline_vpn());
                assert(end as int <= region_end(reg) * 4096);
                assert(end < 0x80_0000_0000u64);
                crate::bits::lemma_u64_masks();
                assert(end & 0x0000_007f_ffff_ffffu64 == end % 0x80_0000_0000);
                assert(start & 0x0000_007f_ffff_ffffu64 == start % 0x80_0000_0000);
            }
            let seg = Segment::new(VirtAddr::from(start), VirtAddr::from(end), MapType::Identical, perm);
            let ghost m0 = mem.view();
            let ghost segs0 = space.segs();
            proof {
                lemma_regions_cost_mono(rs, i as int + 1, n);
                assert(seg.start() == region_first(rs[i as int]) && seg.end() == region_end(rs[i as int]));
                assert forall|j: int| 0 <= j < segs0.len() implies disjoint(seg, #[trigger] segs0[j]) by {
                    assert(segs0[j].start() == region_first(rs[j]) && segs0[j].end() == region_end(rs[j]));
                    assert(region_end(rs[j]) <= region_first(rs[i as int]) || region_end(rs[i as int]) <= region_first(rs[j]));
                }
                assert forall|v: u64| in_seg(seg, v) implies !#[trigger] is_mapped(m0, root, v) by {
                    assert(region_first(rs[i as int]) <= v < region_end(rs[i as int]));
                }
            }
            space.map_and_add(seg, mem, allocator);
            proof {
                let segs = space.segs();
                assert(segs[i as int] == segs.last());
                assert forall|k: int| 0 <= k < i + 1 implies (#[trigger] segs[k]).start() == region_first(rs[k])
                    && segs[k].end() == region_end(rs[k])
                    && segs[k].map_type == MapType::Identical
                    && segs[k].map_perm@ == rs[k].2 by {
                    if k < i {
                        assert(segs[k] == segs.drop_last()[k]);
                        assert(segs0[k] == segs.drop_last()[k]);
                    }
                }
                assert forall|k: int, v: u64|
                    #![trigger segs[k], walk(mem.view(), root, v)]
                    0 <= k < i + 1 && in_seg(segs[k], v) implies walk(mem.view(), root, v) == Some(pte_make(v, rs[k].2 | 1u8)) && is_mapped(mem.view(), root, v) by {
                    if k < i {
                        assert(segs[k] == segs0[k]);
                        assert(in_seg(segs0[k], v));
                        assert(seg_ok(segs0[k]));
                        lemma_sv39_range_member(segs0[k].start(), segs0[k].end(), v);
                        assert(disjoint(seg, segs0[k]));
                        assert(walk(m0, root, v) == Some(pte_make(v, rs[k].2 | 1u8)));
                        assert(is_mapped(m0, root, v));
                    } else {
                        assert(segs[k].maps_page(mem.view(), root, v));
                        let perm_bits = rs[k].2;
                        crate::bits::lemma_u8_bits();
                        assert(((perm_bits | 1u8) & 1u8) != 0);
                        lemma_pte_make_valid(v, perm_bits | 1u8);
                    }
                }
                assert forall|k: int, v: u64|
                    #![trigger rs[k], is_mapped(mem.view(), root, v)]
                    i + 1 <= k < n && region_first(rs[k]) <= v < region_end(rs[k]) implies !is_mapped(mem.view(), root, v) by {
                    assert(region_end(rs[i as int]) <= region_first(rs[k]) || region_end(rs[k]) <= region_first(rs[i as int]));
                    assert(!in_seg(seg, v));
                    assert(!is_mapped(m0, root, v));
                }
                assert(!in_seg(seg, trampoline_vpn()));
            }
            i = i + 1;
        }
        proof {
            lemma_kernel_space_permissions(space, mem.view(), *view);
        }
        space
    }
}


/// The low 39 bits of an address: what a `VirtAddr` keeps.
pub open spec fn va39(x: u64) -> u64 {
    x & 0x7f_ffff_ffffu64
}

/// The first page of a loaded program header.
pub open spec fn load_first(h: ElfSegment) -> int {
    page_floor(va39(h.vaddr) as int)
}

/// The page after the last page of a loaded program header.
pub open spec fn load_end(h: ElfSegment) -> int {
    page_ceil(va39((h.vaddr + h.mem_size) as u64) as int)
}

/// A `PT_LOAD` header that the loader can map from `data_len` bytes: it
/// starts on a page, covers some memory without wrapping, its file part
/// lies in the data and fits in its pages.
pub open spec fn load_ok(h: ElfSegment, data_len: int) -> bool {
    &&& va39(h.vaddr) % 4096 == 0
    &&& h.mem_size != 0
    &&& h.vaddr + h.mem_size <= u64::MAX
    &&& h.offset + h.file_size <= data_len
    &&& load_first(h) < load_end(h)
    &&& h.file_size <= (load_end(h) - load_first(h)) * 4096
}

/// The end page of the last `PT_LOAD` header among the first `n`, or 0.
pub open spec fn last_load_end(hs: Seq<ElfSegment>, n: int) -> int
    decreases n,
{
    if n <= 0 {
        0
    } else if hs[n - 1].kind == ElfKind::Load {
        load_end(hs[n - 1])
    } else {
        last_load_end(hs, n - 1)
    }
}

/// The number of `PT_LOAD` headers among the first `n`.
pub open spec fn load_count(hs: Seq<ElfSegment>, n: int) -> int
    decreases n,
{
    if n <= 0 {
        0
    } else {
        load_count(hs, n - 1) + if hs[n - 1].kind == ElfKind::Load { 1int } else { 0int }
    }
}

/// The frames that mapping the `PT_LOAD` headers among the first `n` may
/// take: their pages and two tables per run of 512 pages.
pub open spec fn load_cost(hs: Seq<ElfSegment>, n: int) -> int
    decreases n,
{
    if n <= 0 {
        0
    } else {
        load_cost(hs, n - 1) + if hs[n - 1].kind == ElfKind::Load {
            (load_end(hs[n - 1]) - load_first(hs[n - 1])) + 2 * page_blocks(load_first(hs[n - 1]), load_end(hs[n - 1]))
        } else {
            0int
        }
    }
}

/// The program headers describe a program that the loader maps without
/// failing: every type is valid, every `PT_LOAD` is loadable, lies in the
/// lower half of the 39-bit space and shares no page with the user stack
/// (the two pages above a guard page after the last `PT_LOAD`) nor with the
/// place of the heap above it, no two share a page, and the stack and heap
/// stay in the lower half too. The headers may come in any order.
pub open spec fn image_ok(hs: Seq<ElfSegment>, data_len: int) -> bool {
    &&& forall|i: int| 0 <= i < hs.len() ==> (#[trigger] hs[i]).kind != ElfKind::Invalid
    &&& forall|i: int| 0 <= i < hs.len() && (#[trigger] hs[i]).kind == ElfKind::Load ==> load_ok(hs[i], data_len)
        && (load_end(hs[i]) <= last_load_end(hs, hs.len() as int) + 1 || last_load_end(hs, hs.len() as int) + 4
        <= load_first(hs[i])) && load_end(hs[i]) <= 0x400_0000
    &&& forall|i: int, j: int|
        0 <= i < j < hs.len() && (#[trigger] hs[i]).kind == ElfKind::Load && (#[trigger] hs[j]).kind == ElfKind::Load
            ==> load_end(hs[i]) <= load_first(hs[j]) || load_end(hs[j]) <= load_first(hs[i])
    &&& (last_load_end(hs, hs.len() as int) + 4) * 4096 < 0x40_0000_0000
}

/// The frames that loading the image may take: the root table, the
/// trampoline's tables, the trap context page with its tables, the loaded
/// segments, and the top page of the stack with its tables.
pub open spec fn image_cost(hs: Seq<ElfSegment>) -> int {
    1 + 2 + 3 + load_cost(hs, hs.len() as int) + 3
}

/// The bytes of program header `h` in the file.
pub open spec fn load_bytes(data: Seq<u8>, h: ElfSegment) -> Seq<u8> {
    data.subrange(h.offset as int, h.offset + h.file_size)
}

proof fn lemma_load_count_step(hs: Seq<ElfSegment>, i: int)
    requires
        0 <= i,
    ensures
        load_count(hs, i + 1) == load_count(hs, i) + if hs[i].kind == ElfKind::Load { 1int } else { 0int },
        load_count(hs, i) >= 0,
        load_cost(hs, i + 1) == load_cost(hs, i) + if hs[i].kind == ElfKind::Load {
            (load_end(hs[i]) - load_first(hs[i])) + 2 * page_blocks(load_first(hs[i]), load_end(hs[i]))
        } else {
            0int
        },
        last_load_end(hs, i + 1) == if hs[i].kind == ElfKind::Load { load_end(hs[i]) } else { last_load_end(hs, i) },
    decreases i,
{
    if i > 0 {
        lemma_load_count_step(hs, i - 1);
    }
}

proof fn lemma_load_cost_mono(hs: Seq<ElfSegment>, a: int, b: int)
    requires
        0 <= a <= b,
        forall|i: int| 0 <= i < hs.len() && (#[trigger] hs[i]).kind == ElfKind::Load ==> load_first(hs[i]) < load_end(hs[i]),
        b <= hs.len(),
    ensures
        load_cost(hs, a) <= load_cost(hs, b),
    decreases b - a,
{
    if a < b {
        lemma_load_cost_mono(hs, a, b - 1);
        lemma_load_count_step(hs, b - 1);
        if hs[b - 1].kind == ElfKind::Load {
            assert(load_first(hs[b - 1]) < load_end(hs[b - 1]));
        }
    }
}

proof fn lemma_load_count_mono(hs: Seq<ElfSegment>, a: int, b: int)
    requires
        0 <= a <= b,
    ensures
        load_count(hs, a) <= load_count(hs, b),
        hs[a].kind == ElfKind::Load && a < b ==> load_count(hs, a) < load_count(hs, b),
    decreases b - a,
{
    if a < b {
        lemma_load_count_mono(hs, a, b - 1);
        lemma_load_count_step(hs, b - 1);
        if a == b - 1 {
            lemma_load_count_step(hs, a);
        }
    }
}

/// What the space `space` of a program, loaded from the headers `hs` of
/// the bytes `data` with the trampoline at `strampoline`, holds in the
/// memory `m`: the trampoline mapped R X, the trap context page
/// (R W) below it, each `PT_LOAD` header loaded in order, the user stack
/// (R W U) above a guard page after the last one with its top page
/// mapped and `stack_top` its top, and the empty heap (R W U) above
/// another guard page.
pub open spec fn elf_space(
    space: AddressSpace,
    stack_top: u64,
    m: Map<u64, Seq<u64>>,
    hs: Seq<ElfSegment>,
    data: Seq<u8>,
    strampoline: u64,
) -> bool {
    let le = last_load_end(hs, hs.len() as int);
    let segs = space.segs();
    let nl = load_count(hs, hs.len() as int);
    &&& stack_top == (le + 1) * 4096 + USER_STACK_SIZE
    &&& walk(m, space.root(), trampoline_vpn()) == Some(pte_make(strampoline / 4096, 2u8 | 8u8 | 1u8))
    &&& segs.len() == nl + 3
    &&& segs[0].start() == 0x7ff_fffe && segs[0].end() == trampoline_vpn()
    &&& segs[0].map_type == MapType::Framed && segs[0].map_perm@ == 6u8
    &&& forall|i: int| 0 <= i < hs.len() && (#[trigger] hs[i]).kind == ElfKind::Load ==> load_done(segs, m, hs, data, i)
    &&& segs[nl + 1].start() == le + 1 && segs[nl + 1].end() == le + 3
    &&& segs[nl + 1].map_type == MapType::Framed && segs[nl + 1].map_perm@ == 22u8
    &&& is_mapped(m, space.root(), (le + 2) as u64)
    &&& segs[nl + 2].start() == le + 4 && segs[nl + 2].end() == le + 4
    &&& segs[nl + 2].map_type == MapType::Framed && segs[nl + 2].map_perm@ == 22u8
}

impl AddressSpace {
    /// The base of every user space: the trampoline, and the trap context
    /// page below it, framed, readable and writable.
    fn user_base(strampoline: u64, mem: &mut PhysMem, allocator: &mut StackFrameAllocator) -> (r: Self)
        requires
            old(allocator)@.wf(),
            old(allocator)@.free_count() >= 6,
            strampoline < 0x100_0000_0000_0000,
        ensures
            r.wf(final(mem).view(), final(allocator)@),
            final(allocator)@.wf(),
            final(allocator)@.free_count() >= old(allocator)@.free_count() - 6,
            walk(final(mem).view(), r.root(), trampoline_vpn()) == Some(pte_make(strampoline / 4096, 2u8 | 8u8 | 1u8)),
            is_mapped(final(mem).view(), r.root(), trampoline_vpn()),
            r.segs().len() == 1,
            r.segs()[0].start() == 0x7ff_fffe && r.segs()[0].end() == trampoline_vpn(),
            r.segs()[0].map_type == MapType::Framed && r.segs()[0].map_perm@ == 6u8,
            forall|v: u64| v < 0x7ff_fffe ==> !#[trigger] is_mapped(final(mem).view(), r.root(), v),
    {
        let mut space = AddressSpace::new_bare(mem, allocator);
        space.map_trampoline(mem, allocator, strampoline);
        let rw = MapPermission::R().union(MapPermission::W());
        proof {
            crate::bits::lemma_bit_constants();
        }
        let trap_seg = Segment::new(VirtAddr::from(TRAP_CONTEXT), VirtAddr::from(TRAMPOLINE), MapType::Framed, rw);
        let ghost root = space.root();
        proof {
            crate::bits::lemma_bit_constants();
            lemma_pte_make_valid(strampoline / 4096, 2u8 | 8u8 | 1u8);
            assert(page_blocks(0x7ff_fffe, 0x7ff_ffff) == 1);
            assert forall|v: u64| in_seg(trap_seg, v) implies !#[trigger] is_mapped(mem.view(), root, v) by {
            }
        }
        space.push(trap_seg, None, mem, allocator);
        proof {
            assert(space.segs()[0] == space.segs().last());
        }
        space
    }

    /// Maps the `PT_LOAD` header `h` as a framed segment with the
    /// permission its flags give, and copies its file bytes in.
    fn load_segment(&mut self, h: ElfSegment, data: &[u8], mem: &mut PhysMem, allocator: &mut StackFrameAllocator) -> (r: u64)
        requires
            old(self).wf(old(mem).view(), old(allocator)@),
            old(allocator)@.wf(),
            h.kind == ElfKind::Load,
            load_ok(h, data@.len() as int),
            load_end(h) <= trampoline_vpn(),
            forall|j: int| 0 <= j < old(self).segs().len() ==> load_end(h) <= (#[trigger] old(self).segs()[j]).start()
                || old(self).segs()[j].end() <= load_first(h),
            forall|v: u64| load_first(h) <= v < load_end(h) ==> !#[trigger] is_mapped(old(mem).view(), old(self).root(), v),
            old(allocator)@.free_count() >= (load_end(h) - load_first(h)) + 2 * page_blocks(load_first(h), load_end(h)),
        ensures
            final(self).wf(final(mem).view(), final(allocator)@),
            final(allocator)@.wf(),
            final(self).root() == old(self).root(),
            final(self).segs().drop_last() == old(self).segs(),
            final(self).segs().len() == old(self).segs().len() + 1,
            final(self).segs().last().start() == load_first(h),
            final(self).segs().last().end() == load_end(h),
            final(self).segs().last().map_type == MapType::Framed,
            final(self).segs().last().map_perm@ == elf_perm(h.flags),
            r == load_end(h),
            forall|v: u64| load_first(h) <= v < load_end(h) ==> #[trigger] final(self).segs().last().frames().contains_key(v),
            forall|k: int| 0 <= k < data_pages(h.file_size as int) ==> #[trigger] final(mem).view()[final(self).segs().last().frames()[(
            load_first(h) + k) as u64]] == pack_page(data_chunk(load_bytes(data@, h), k)),
            forall|v: u64| !(load_first(h) <= v < load_end(h)) && sv39_vpn(v) ==> #[trigger] is_mapped(
                final(mem).view(),
                final(self).root(),
                v,
            ) == is_mapped(old(mem).view(), old(self).root(), v),
            forall|v: u64| !(load_first(h) <= v < load_end(h)) && sv39_vpn(v) && is_mapped(old(mem).view(), old(self).root(), v)
                ==> #[trigger] walk(final(mem).view(), final(self).root(), v) == walk(old(mem).view(), old(self).root(), v),
            final(allocator)@.free_count() >= old(allocator)@.free_count() - ((load_end(h) - load_first(h)) + 2 * page_blocks(
                load_first(h),
                load_end(h),
            )),
            forall|q: u64| old(allocator)@.is_allocated(q) && !#[trigger] old(self).table().levels().contains_key(q)
                ==> final(mem).view().contains_key(q) == old(mem).view().contains_key(q)
                && final(mem).view()[q] == old(mem).view()[q],
    {
        proof {
            let hv = h.vaddr;
            let he = (h.vaddr + h.mem_size) as u64;
            crate::bits::lemma_u64_masks();
            assert(hv & 0x7f_ffff_ffffu64 == hv % 0x80_0000_0000);
            assert(he & 0x7f_ffff_ffffu64 == he % 0x80_0000_0000);
        }
        let start_va = VirtAddr::from(h.vaddr);
        let end_va = VirtAddr::from(h.vaddr + h.mem_size);
        let perm = elf_permission(h.flags);
        let seg = Segment::new(start_va, end_va, MapType::Framed, perm);
        proof {
            assert(data@.len() == data.len());
        }
        let lo = h.offset as usize;
        let hi = (h.offset + h.file_size) as usize;
        let bytes = &data[lo..hi];
        proof {
            assert(bytes@ == load_bytes(data@, h));
            assert(bytes@.len() == h.file_size);
            assert(seg.start() == load_first(h) && seg.end() == load_end(h));
            assert forall|j: int| 0 <= j < old(self).segs().len() implies disjoint(seg, #[trigger] old(self).segs()[j]) by {
            }
            assert forall|v: u64| in_seg(seg, v) implies !#[trigger] is_mapped(old(mem).view(), old(self).root(), v) by {
            }
        }
        let end = seg.vpn_range.get_end().0;
        self.push(seg, Some(bytes), mem, allocator);
        proof {
            assert forall|v: u64| load_first(h) <= v < load_end(h) implies #[trigger] self.segs().last().frames().contains_key(v) by {
                assert(in_seg(seg, v));
                assert(self.segs().last().maps_page(mem.view(), self.root(), v));
            }
        }
        end
    }

    /// Adds the user stack, with its top page mapped, above a guard page
    /// after page `max_end`, then the empty heap above another guard page;
    /// returns the top of the stack.
    fn add_stack_and_heap(&mut self, max_end: u64, mem: &mut PhysMem, allocator: &mut StackFrameAllocator) -> (r: u64)
        requires
            old(self).wf(old(mem).view(), old(allocator)@),
            old(allocator)@.wf(),
            old(allocator)@.free_count() >= 3,
            (max_end + 4) * 4096 < 0x40_0000_0000,
            forall|j: int| 0 <= j < old(self).segs().len() ==> (#[trigger] old(self).segs()[j]).end() <= max_end + 1
                || max_end + 4 <= old(self).segs()[j].start(),
            forall|v: u64| max_end + 1 <= v < max_end + 4 ==> !#[trigger] is_mapped(old(mem).view(), old(self).root(), v),
        ensures
            final(self).wf(final(mem).view(), final(allocator)@),
            final(allocator)@.wf(),
            final(self).root() == old(self).root(),
            r == (max_end + 1) * 4096 + USER_STACK_SIZE,
            final(self).segs().len() == old(self).segs().len() + 2,
            final(self).segs().subrange(0, old(self).segs().len() as int) == old(self).segs(),
            final(self).segs()[old(self).segs().len() as int].start() == max_end + 1,
            final(self).segs()[old(self).segs().len() as int].end() == max_end + 3,
            final(self).segs()[old(self).segs().len() as int].map_type == MapType::Framed,
            final(self).segs()[old(self).segs().len() as int].map_perm@ == 22u8,
            is_mapped(final(mem).view(), final(self).root(), (max_end + 2) as u64),
            final(self).segs()[old(self).segs().len() as int + 1].start() == max_end + 4,
            final(self).segs()[old(self).segs().len() as int + 1].end() == max_end + 4,
            final(self).segs()[old(self).segs().len() as int + 1].map_type == MapType::Framed,
            final(self).segs()[old(self).segs().len() as int + 1].map_perm@ == 22u8,
            forall|v: u64| v != max_end + 2 && sv39_vpn(v) ==> #[trigger] is_mapped(final(mem).view(), final(self).root(), v)
                == is_mapped(old(mem).view(), old(self).root(), v),
            forall|v: u64| v != max_end + 2 && sv39_vpn(v) && is_mapped(old(mem).view(), old(self).root(), v)
                ==> #[trigger] walk(final(mem).view(), final(self).root(), v) == walk(old(mem).view(), old(self).root(), v),
            forall|q: u64| old(allocator)@.is_allocated(q) && !#[trigger] old(self).table().levels().contains_key(q)
                ==> final(mem).view().contains_key(q) == old(mem).view().contains_key(q)
                && final(mem).view()[q] == old(mem).view()[q],
    {
        let ghost n = self.segs().len();
        let ghost segs0 = self.segs();
        proof {
            super::address::lemma_shift_page(max_end);
        }
        let max_end_va = VirtAddr::from(VirtPageNum(max_end));
        let mut user_stack_bottom: u64 = u64::from(max_end_va);
        user_stack_bottom = user_stack_bottom + PAGE_SIZE;
        let user_stack_top = user_stack_bottom + USER_STACK_SIZE;
        let rwu = MapPermission::R().union(MapPermission::W()).union(MapPermission::U());
        proof {
            crate::bits::lemma_bit_constants();
        }
        proof {
            let b = user_stack_bottom;
            let t = user_stack_top;
            let t2 = (t + 4096) as u64;
            crate::bits::lemma_u64_masks();
            assert(b & 0x7f_ffff_ffffu64 == b % 0x80_0000_0000);
            assert(t & 0x7f_ffff_ffffu64 == t % 0x80_0000_0000);
            assert(t2 & 0x7f_ffff_ffffu64 == t2 % 0x80_0000_0000);
        }
        let stack_seg = Segment::new(
            VirtAddr::from(user_stack_bottom),
            VirtAddr::from(user_stack_top),
            MapType::Framed,
            rwu,
        );
        proof {
            assert(stack_seg.start() == max_end + 1 && stack_seg.end() == max_end + 3);
            assert forall|j: int| 0 <= j < segs0.len() implies disjoint(stack_seg, #[trigger] segs0[j]) by {
            }
            assert forall|v: u64| in_seg(stack_seg, v) implies !#[trigger] is_mapped(mem.view(), self.root(), v) by {
            }
        }
        self.push_lazy(stack_seg, mem, allocator);
        let top_page = (max_end + 2) * 4096;
        proof {
            assert(top_page / 4096 == max_end + 2);
            assert(in_seg(self.segs()[n as int], top_page / 4096));
        }
        self.map_phys_page(top_page, mem, allocator);
        let ghost segs1 = self.segs();
        let ghost m1 = mem.view();
        let heap_start = VirtAddr::from(user_stack_top + PAGE_SIZE);
        let heap_seg = Segment::new(heap_start, heap_start, MapType::Framed, rwu);
        proof {
            assert(heap_seg.start() == max_end + 4 && heap_seg.end() == max_end + 4);
            assert forall|j: int| 0 <= j < segs1.len() implies disjoint(heap_seg, #[trigger] segs1[j]) by {
                if j < n {
                    assert(segs1[j] == segs0[j]);
                }
            }
        }
        self.push_lazy(heap_seg, mem, allocator);
        proof {
            let segs = self.segs();
            assert(segs.subrange(0, n as int) =~= segs0) by {
                assert forall|j: int| 0 <= j < n implies segs[j] == segs0[j] by {
                    assert(segs[j] == segs1[j]);
                }
            }
        }
        user_stack_top
    }

    /// The space of a program from its parsed image: the trampoline, the
    /// trap context page, each `PT_LOAD` header mapped with its file bytes
    /// copied in, then the user stack (its top page mapped at once) above a
    /// guard page after the last one, and the empty heap above another guard
    /// page. Returns the space, the top of the user stack and the entry
    /// point.
    pub fn from_elf_image(
        image: &ElfImage,
        data: &[u8],
        strampoline: u64,
        mem: &mut PhysMem,
        allocator: &mut StackFrameAllocator,
    ) -> (r: (Self, u64, u64))
        requires
            old(allocator)@.wf(),
            image_ok(image.headers@, data@.len() as int),
            old(allocator)@.free_count() >= image_cost(image.headers@),
            strampoline < 0x100_0000_0000_0000,
        ensures
            r.0.wf(final(mem).view(), final(allocator)@),
            r.2 == image.entry,
            elf_space(r.0, r.1, final(mem).view(), image.headers@, data@, strampoline),
            final(allocator)@.wf(),
    {
        let ghost hs = image.headers@;
        let ghost n = hs.len() as int;
        let ghost le = last_load_end(hs, n);
        proof {
            lemma_load_cost_mono(hs, 0, n);
        }
        let mut space = AddressSpace::user_base(strampoline, mem, allocator);
        let ghost root = space.root();
        let ghost tramp = walk(mem.view(), root, trampoline_vpn());
        let ghost free0 = allocator@.free_count();
        proof {
            assert forall|v: u64| v < 0x7ff_fffe && !#[trigger] space.covers(v) implies !is_mapped(mem.view(), root, v) by {
            }
        }
        let mut max_end: u64 = 0;
        let mut i: usize = 0;
        while i < image.headers.len()
            invariant
                hs == image.headers@,
                n == hs.len(),
                le == last_load_end(hs, n),
                image_ok(hs, data@.len() as int),
                0 <= i <= n,
                max_end == last_load_end(hs, i as int),
                space.wf(mem.view(), allocator@),
                allocator@.wf(),
                space.root() == root,
                walk(mem.view(), root, trampoline_vpn()) == tramp,
                tramp == Some(pte_make(strampoline / 4096, 2u8 | 8u8 | 1u8)),
                is_mapped(mem.view(), root, trampoline_vpn()),
                free0 >= load_cost(hs, n) + 3,
                allocator@.free_count() >= free0 - load_cost(hs, i as int),
                loading(space.segs(), mem.view(), hs, data@, i as int),
                forall|v: u64| v < 0x7ff_fffe && !#[trigger] space.covers(v) ==> !is_mapped(mem.view(), root, v),
            decreases n - i,
        {
            let h = image.headers[i];
            proof {
                lemma_load_count_step(hs, i as int);
                lemma_load_cost_mono(hs, i as int + 1, n);
            }
            if h.kind == ElfKind::Load {
                let ghost space0 = space;
                let ghost m0 = mem.view();
                let ghost fa0 = allocator@;
                proof {
                    assert(hs[i as int] == h);
                    lemma_next_load_fits(space0, m0, hs, data@, i as int);
                }
                max_end = space.load_segment(h, data, mem, allocator);
                proof {
                    lemma_after_load(space0, m0, fa0, space, mem.view(), hs, data@, i as int);
                    lemma_after_load_unmapped(space0, m0, space, mem.view(), h);
                }
            } else {
                proof {
                    lemma_loading_skip(space.segs(), mem.view(), hs, data@, i as int);
                }
            }
            i = i + 1;
        }
        proof {
            lemma_loading_done(space, mem.view(), allocator@, hs, data@);
        }
        let ghost space1 = space;
        let ghost m1 = mem.view();
        let ghost fa1 = allocator@;
        let stack_top = space.add_stack_and_heap(max_end, mem, allocator);
        proof {
            lemma_loads_kept(space1, m1, fa1, space, mem.view(), hs, data@);
            assert(walk(mem.view(), root, trampoline_vpn()) == tramp);
        }
        (space, stack_top, image.entry)
    }
}


/// Each segment after the first comes from a `PT_LOAD` header read before.
proof fn lemma_segment_of_load(hs: Seq<ElfSegment>, i: int, j: int)
    requires
        0 <= i,
        1 <= j < 1 + load_count(hs, i),
    ensures
        exists|jj: int| 0 <= jj < i && #[trigger] hs[jj].kind == ElfKind::Load && 1 + load_count(hs, jj) == j,
    decreases i,
{
    lemma_load_count_step(hs, i - 1);
    if hs[i - 1].kind == ElfKind::Load && j == 1 + load_count(hs, i - 1) {
        assert(hs[i - 1].kind == ElfKind::Load);
    } else {
        lemma_segment_of_load(hs, i - 1, j);
        let jj = choose|jj: int| 0 <= jj < i - 1 && #[trigger] hs[jj].kind == ElfKind::Load && 1 + load_count(hs, jj) == j;
        assert(hs[jj].kind == ElfKind::Load);
    }
}


/// Header `j`, a `PT_LOAD`, is loaded: segment `1 + load_count(hs, j)`
/// covers its pages, framed, with the permission its flags give and a frame
/// for each page, and its first pages hold the header's file bytes, then
/// zeros.
#[verifier::opaque]
pub open spec fn load_done(segs: Seq<Segment>, mem: Map<u64, Seq<u64>>, hs: Seq<ElfSegment>, data: Seq<u8>, j: int) -> bool {
    let s = segs[1 + load_count(hs, j)];
    let h = hs[j];
    &&& 1 + load_count(hs, j) < segs.len()
    &&& s.start() == load_first(h) && s.end() == load_end(h)
    &&& s.map_type == MapType::Framed && s.map_perm@ == elf_perm(h.flags)
    &&& forall|v: u64| load_first(h) <= v < load_end(h) ==> #[trigger] s.frames().contains_key(v)
    &&& forall|k: int| 0 <= k < data_pages(h.file_size as int) ==> #[trigger] mem[s.frames()[(load_first(h) + k) as u64]]
        == pack_page(data_chunk(load_bytes(data, h), k))
}

/// The loader has read the first `i` headers: the trap context segment
/// comes first, then one segment for each `PT_LOAD` read, each loaded.
pub open spec fn loading(segs: Seq<Segment>, mem: Map<u64, Seq<u64>>, hs: Seq<ElfSegment>, data: Seq<u8>, i: int) -> bool {
    &&& segs.len() == 1 + load_count(hs, i)
    &&& segs[0].start() == 0x7ff_fffe && segs[0].end() == trampoline_vpn()
    &&& segs[0].map_type == MapType::Framed && segs[0].map_perm@ == 6u8
    &&& forall|j: int| 0 <= j < i && (#[trigger] hs[j]).kind == ElfKind::Load ==> load_done(segs, mem, hs, data, j)
}

/// While loading, every segment but the first is the segment of a header
/// read, and lies below the stack or above the place of the heap.
proof fn lemma_loaded_segment(segs: Seq<Segment>, mem: Map<u64, Seq<u64>>, hs: Seq<ElfSegment>, data: Seq<u8>, i: int, j: int)
    requires
        image_ok(hs, data.len() as int),
        0 <= i <= hs.len(),
        loading(segs, mem, hs, data, i),
        1 <= j < segs.len(),
    ensures
        exists|jj: int| 0 <= jj < i && #[trigger] hs[jj].kind == ElfKind::Load && 1 + load_count(hs, jj) == j
            && segs[j].start() == load_first(hs[jj]) && segs[j].end() == load_end(hs[jj]),
        segs[j].end() <= last_load_end(hs, hs.len() as int) + 1 || last_load_end(hs, hs.len() as int) + 4
            <= segs[j].start(),
        segs[j].end() <= 0x400_0000,
{
    lemma_segment_of_load(hs, i, j);
    let jj = choose|jj: int| 0 <= jj < i && #[trigger] hs[jj].kind == ElfKind::Load && 1 + load_count(hs, jj) == j;
    assert(load_done(segs, mem, hs, data, jj));
    reveal(load_done);
}

/// The next `PT_LOAD` header fits: its pages lie below the trap context,
/// share no page with a segment of the space, and are unmapped.
proof fn lemma_next_load_fits(space: AddressSpace, mem: Map<u64, Seq<u64>>, hs: Seq<ElfSegment>, data: Seq<u8>, i: int)
    requires
        image_ok(hs, data.len() as int),
        0 <= i < hs.len(),
        hs[i].kind == ElfKind::Load,
        loading(space.segs(), mem, hs, data, i),
        forall|v: u64| v < 0x7ff_fffe && !#[trigger] space.covers(v) ==> !is_mapped(mem, space.root(), v),
    ensures
        load_end(hs[i]) <= trampoline_vpn(),
        load_end(hs[i]) < 0x7ff_fffe,
        forall|j: int| 0 <= j < space.segs().len() ==> load_end(hs[i]) <= (#[trigger] space.segs()[j]).start()
            || space.segs()[j].end() <= load_first(hs[i]),
        forall|v: u64| load_first(hs[i]) <= v < load_end(hs[i]) ==> !#[trigger] is_mapped(mem, space.root(), v),
{
    let segs = space.segs();
    let h = hs[i];
    let le = last_load_end(hs, hs.len() as int);
    assert(load_ok(h, data.len() as int) && load_end(h) <= 0x400_0000);
    assert forall|j: int| 0 <= j < segs.len() implies load_end(h) <= (#[trigger] segs[j]).start() || segs[j].end() <= load_first(h) by {
        if j >= 1 {
            lemma_loaded_segment(segs, mem, hs, data, i, j);
            let jj = choose|jj: int| 0 <= jj < i && #[trigger] hs[jj].kind == ElfKind::Load && 1 + load_count(hs, jj) == j
                && segs[j].start() == load_first(hs[jj]) && segs[j].end() == load_end(hs[jj]);
            assert(load_end(hs[jj]) <= load_first(hs[i]) || load_end(hs[i]) <= load_first(hs[jj]));
        }
    }
    assert forall|v: u64| load_first(h) <= v < load_end(h) implies !#[trigger] is_mapped(mem, space.root(), v) by {
        if space.covers(v) {
            let j = choose|j: int| 0 <= j < segs.len() && #[trigger] in_seg(segs[j], v);
            assert(load_end(h) <= segs[j].start() || segs[j].end() <= load_first(h));
        }
    }
}

/// A header that is not `PT_LOAD` adds nothing.
proof fn lemma_loading_skip(segs: Seq<Segment>, mem: Map<u64, Seq<u64>>, hs: Seq<ElfSegment>, data: Seq<u8>, i: int)
    requires
        0 <= i < hs.len(),
        hs[i].kind != ElfKind::Load,
        loading(segs, mem, hs, data, i),
    ensures
        loading(segs, mem, hs, data, i + 1),
{
    lemma_load_count_step(hs, i);
    assert forall|j: int| 0 <= j < i + 1 && (#[trigger] hs[j]).kind == ElfKind::Load implies load_done(segs, mem, hs, data, j) by {
        if j < i {
        }
    }
}

/// Loading header `i` keeps what was loaded and adds its segment.
#[verifier::rlimit(40)]
proof fn lemma_after_load(
    space0: AddressSpace,
    m0: Map<u64, Seq<u64>>,
    fa0: super::frame::FrameAllocatorModel,
    space1: AddressSpace,
    m1: Map<u64, Seq<u64>>,
    hs: Seq<ElfSegment>,
    data: Seq<u8>,
    i: int,
)
    requires
        image_ok(hs, data.len() as int),
        0 <= i < hs.len(),
        hs[i].kind == ElfKind::Load,
        loading(space0.segs(), m0, hs, data, i),
        space0.data_frames_ok(m0, fa0),
        space1.segs().drop_last() == space0.segs(),
        space1.segs().len() == space0.segs().len() + 1,
        space1.segs().last().start() == load_first(hs[i]),
        space1.segs().last().end() == load_end(hs[i]),
        space1.segs().last().map_type == MapType::Framed,
        space1.segs().last().map_perm@ == elf_perm(hs[i].flags),
        forall|v: u64| load_first(hs[i]) <= v < load_end(hs[i]) ==> #[trigger] space1.segs().last().frames().contains_key(v),
        forall|k: int| 0 <= k < data_pages(hs[i].file_size as int) ==> #[trigger] m1[space1.segs().last().frames()[(
        load_first(hs[i]) + k) as u64]] == pack_page(data_chunk(load_bytes(data, hs[i]), k)),
        forall|q: u64| fa0.is_allocated(q) && !#[trigger] space0.table().levels().contains_key(q) ==> m1.contains_key(q)
            == m0.contains_key(q) && m1[q] == m0[q],
    ensures
        loading(space1.segs(), m1, hs, data, i + 1),
{
    let segs0 = space0.segs();
    let segs1 = space1.segs();
    let n0 = segs0.len() as int;
    lemma_load_count_step(hs, i);
    assert forall|j: int| 0 <= j < n0 implies #[trigger] segs1[j] == segs0[j] by {
        assert(segs1.drop_last()[j] == segs0[j]);
    }
    assert(segs1[0] == segs0[0]);
    assert forall|j: int| 0 <= j < i + 1 && (#[trigger] hs[j]).kind == ElfKind::Load implies load_done(segs1, m1, hs, data, j) by {
        if j < i {
            lemma_load_kept(segs0, m0, fa0, space0, segs1, m1, hs, data, j);
        } else {
            reveal(load_done);
            assert(1 + load_count(hs, i) == n0);
            assert(segs1[n0] == segs1.last());
        }
    }
}

/// Header `j` stays loaded when its segment stays and its frames keep
/// their content.
proof fn lemma_load_kept(
    segs0: Seq<Segment>,
    m0: Map<u64, Seq<u64>>,
    fa0: super::frame::FrameAllocatorModel,
    space0: AddressSpace,
    segs1: Seq<Segment>,
    m1: Map<u64, Seq<u64>>,
    hs: Seq<ElfSegment>,
    data: Seq<u8>,
    j: int,
)
    requires
        image_ok(hs, data.len() as int),
        0 <= j < hs.len(),
        hs[j].kind == ElfKind::Load,
        load_done(segs0, m0, hs, data, j),
        segs0 == space0.segs(),
        space0.data_frames_ok(m0, fa0),
        segs1.len() >= segs0.len(),
        forall|k: int| 0 <= k < segs0.len() ==> #[trigger] segs1[k] == segs0[k],
        forall|q: u64| fa0.is_allocated(q) && !#[trigger] space0.table().levels().contains_key(q) ==> m1.contains_key(q)
            == m0.contains_key(q) && m1[q] == m0[q],
    ensures
        load_done(segs1, m1, hs, data, j),
{
    reveal(load_done);
    lemma_load_count_step(hs, j);
    let idx = 1 + load_count(hs, j);
    assert(1 <= idx < segs0.len());
    let s = segs0[idx];
    assert(segs1[idx] == s);
    let h = hs[j];
    assert(load_ok(h, data.len() as int));
    assert forall|k: int| 0 <= k < data_pages(h.file_size as int) implies #[trigger] m1[s.frames()[(load_first(h) + k) as u64]]
        == pack_page(data_chunk(load_bytes(data, h), k)) by {
        lemma_data_pages_fit(h.file_size as int, load_end(h) - load_first(h));
        let v = (load_first(h) + k) as u64;
        assert(s.frames().contains_key(v));
        assert(space0.segs()[idx].frames().contains_key(v));
        assert(data_frame_ok(space0.table(), m0, fa0, s.frames()[v]));
    }
}

/// After loading header `i`, what no segment covers is still unmapped.
proof fn lemma_after_load_unmapped(
    space0: AddressSpace,
    m0: Map<u64, Seq<u64>>,
    space1: AddressSpace,
    m1: Map<u64, Seq<u64>>,
    h: ElfSegment,
)
    requires
        forall|v: u64| v < 0x7ff_fffe && !#[trigger] space0.covers(v) ==> !is_mapped(m0, space0.root(), v),
        space1.root() == space0.root(),
        space1.segs().drop_last() == space0.segs(),
        space1.segs().len() == space0.segs().len() + 1,
        space1.segs().last().start() == load_first(h),
        space1.segs().last().end() == load_end(h),
        forall|v: u64| !(load_first(h) <= v < load_end(h)) && sv39_vpn(v) ==> #[trigger] is_mapped(m1, space1.root(), v)
            == is_mapped(m0, space0.root(), v),
    ensures
        forall|v: u64| v < 0x7ff_fffe && !#[trigger] space1.covers(v) ==> !is_mapped(m1, space1.root(), v),
{
    let segs0 = space0.segs();
    let segs1 = space1.segs();
    let n0 = segs0.len() as int;
    assert forall|v: u64| v < 0x7ff_fffe && !#[trigger] space1.covers(v) implies !is_mapped(m1, space1.root(), v) by {
        assert(segs1[n0] == segs1.last());
        assert(!in_seg(segs1[n0], v));
        if space0.covers(v) {
            let j = choose|j: int| 0 <= j < segs0.len() && #[trigger] in_seg(segs0[j], v);
            assert(segs1.drop_last()[j] == segs0[j]);
            assert(in_seg(segs1[j], v));
        }
    }
}

/// Data of `n` bytes that fits in `pages` pages is spread over no more than
/// those pages.
proof fn lemma_data_pages_fit(n: int, pages: int)
    requires
        0 <= n <= pages * 4096,
        pages >= 1,
    ensures
        data_pages(n) <= pages,
{
    if n > 4096 {
        assert((n + 4095) / 4096 <= pages);
    }
}

/// Once every header is read, the segments end by the end of the last
/// `PT_LOAD` or start at the trap context, and the pages of the stack and
/// heap are unmapped.
proof fn lemma_loading_done(space: AddressSpace, mem: Map<u64, Seq<u64>>, fa: super::frame::FrameAllocatorModel, hs: Seq<ElfSegment>, data: Seq<u8>)
    requires
        image_ok(hs, data.len() as int),
        loading(space.segs(), mem, hs, data, hs.len() as int),
        forall|v: u64| v < 0x7ff_fffe && !#[trigger] space.covers(v) ==> !is_mapped(mem, space.root(), v),
    ensures
        forall|j: int| 0 <= j < space.segs().len() ==> (#[trigger] space.segs()[j]).end() <= last_load_end(hs, hs.len() as int) + 1
            || last_load_end(hs, hs.len() as int) + 4 <= space.segs()[j].start(),
        forall|v: u64| last_load_end(hs, hs.len() as int) + 1 <= v < last_load_end(hs, hs.len() as int) + 4
            ==> !#[trigger] is_mapped(mem, space.root(), v),
{
    let segs = space.segs();
    let le = last_load_end(hs, hs.len() as int);
    assert forall|j: int| 0 <= j < segs.len() implies (#[trigger] segs[j]).end() <= le + 1 || le + 4 <= segs[j].start() by {
        if j >= 1 {
            lemma_loaded_segment(segs, mem, hs, data, hs.len() as int, j);
        }
    }
    assert forall|v: u64| le + 1 <= v < le + 4 implies !#[trigger] is_mapped(mem, space.root(), v) by {
        if space.covers(v) {
            let j = choose|j: int| 0 <= j < segs.len() && #[trigger] in_seg(segs[j], v);
            assert(segs[j].end() <= le + 1 || le + 4 <= segs[j].start());
        }
    }
}

/// Adding the stack and heap keeps every loaded header loaded.
proof fn lemma_loads_kept(
    space1: AddressSpace,
    m1: Map<u64, Seq<u64>>,
    fa1: super::frame::FrameAllocatorModel,
    space2: AddressSpace,
    m2: Map<u64, Seq<u64>>,
    hs: Seq<ElfSegment>,
    data: Seq<u8>,
)
    requires
        image_ok(hs, data.len() as int),
        space1.data_frames_ok(m1, fa1),
        loading(space1.segs(), m1, hs, data, hs.len() as int),
        space2.segs().len() >= space1.segs().len(),
        space2.segs().subrange(0, space1.segs().len() as int) == space1.segs(),
        forall|q: u64| fa1.is_allocated(q) && !#[trigger] space1.table().levels().contains_key(q) ==> m2.contains_key(q)
            == m1.contains_key(q) && m2[q] == m1[q],
    ensures
        forall|j: int| 0 <= j < hs.len() && (#[trigger] hs[j]).kind == ElfKind::Load ==> load_done(space2.segs(), m2, hs, data, j),
        space2.segs()[0] == space1.segs()[0],
{
    let segs1 = space1.segs();
    let segs2 = space2.segs();
    lemma_load_count_mono(hs, 0, hs.len() as int);
    assert forall|k: int| 0 <= k < segs1.len() implies #[trigger] segs2[k] == segs1[k] by {
        assert(segs2.subrange(0, segs1.len() as int)[k] == segs1[k]);
    }
    assert forall|j: int| 0 <= j < hs.len() && (#[trigger] hs[j]).kind == ElfKind::Load implies load_done(segs2, m2, hs, data, j) by {
        assert(load_done(segs1, m1, hs, data, j));
        lemma_load_kept(segs1, m1, fa1, space1, segs2, m2, hs, data, j);
    }
}

/// The pages of `PT_LOAD` header `h`, as `(first, end)`, when the header is
/// loadable from `data_len` bytes.
fn load_pages(h: &ElfSegment, data_len: usize) -> (r: Option<(u64, u64)>)
    ensures
        match r {
            Some((a, b)) => load_ok(*h, data_len as int) && a == load_first(*h) && b == load_end(*h) && b <= 0x800_0000,
            None => !load_ok(*h, data_len as int),
        },
{
    if h.mem_size == 0 || h.vaddr > u64::MAX - h.mem_size {
        return None;
    }
    if h.offset > data_len as u64 || h.file_size > data_len as u64 - h.offset {
        return None;
    }
    let start_va = VirtAddr::from(h.vaddr);
    let end_va = VirtAddr::from(h.vaddr + h.mem_size);
    if !start_va.aligned() {
        return None;
    }
    proof {
        let e = end_va.0;
        let x = (h.vaddr + h.mem_size) as u64;
        crate::bits::lemma_u64_masks();
        assert(x & 0x7f_ffff_ffffu64 == x % 0x80_0000_0000);
    }
    if end_va.0 == 0 {
        return None;
    }
    let first = start_va.floor().0;
    let end = end_va.ceil().0;
    assert(end <= 0x800_0000);
    if first >= end {
        return None;
    }
    if h.file_size / 4096 > end - first || (h.file_size / 4096 == end - first && h.file_size % 4096 != 0) {
        return None;
    }
    proof {
        assert(h.file_size <= (end - first) * 4096);
    }
    Some((first, end))
}

/// Whether the program headers `hs` of an image of `data_len` bytes can be
/// loaded with `free` frames: `image_ok`, and enough frames.
pub fn check_image(hs: &Vec<ElfSegment>, data_len: usize, free: u64) -> (r: bool)
    ensures
        r == (image_ok(hs@, data_len as int) && free >= image_cost(hs@)),
{
    let n = hs.len();
    let mut le: u64 = 0;
    let mut i: usize = 0;
    while i < n
        invariant
            n == hs@.len(),
            i <= n,
            le == last_load_end(hs@, i as int),
            le <= 0x800_0000,
            forall|j: int| 0 <= j < i ==> (#[trigger] hs@[j]).kind != ElfKind::Invalid,
            forall|j: int| 0 <= j < i && (#[trigger] hs@[j]).kind == ElfKind::Load ==> load_ok(hs@[j], data_len as int),
        decreases n - i,
    {
        let h = hs[i];
        proof {
            lemma_load_count_step(hs@, i as int);
        }
        match h.kind {
            ElfKind::Invalid => {
                return false;
            },
            ElfKind::Load => {
                match load_pages(&h, data_len) {
                    Some((_, end)) => {
                        le = end;
                    },
                    None => {
                        return false;
                    },
                }
            },
            ElfKind::Other => {},
        }
        i = i + 1;
    }
    proof {
        lemma_load_cost_mono(hs@, 0, n as int);
    }
    if free < 9 {
        return false;
    }
    let mut cost: u64 = 9;
    let mut i: usize = 0;
    while i < n
        invariant
            n == hs@.len(),
            i <= n,
            le == last_load_end(hs@, n as int),
            le <= 0x800_0000,
            forall|j: int| 0 <= j < n ==> (#[trigger] hs@[j]).kind != ElfKind::Invalid,
            forall|j: int| 0 <= j < n && (#[trigger] hs@[j]).kind == ElfKind::Load ==> load_ok(hs@[j], data_len as int),
            forall|j: int| 0 <= j < i && (#[trigger] hs@[j]).kind == ElfKind::Load ==> (load_end(hs@[j]) <= le + 1 || le
                + 4 <= load_first(hs@[j])) && load_end(hs@[j]) <= 0x400_0000,
            forall|a: int, b: int|
                0 <= a < b < n && a < i && (#[trigger] hs@[a]).kind == ElfKind::Load && (#[trigger] hs@[b]).kind == ElfKind::Load
                    ==> load_end(hs@[a]) <= load_first(hs@[b]) || load_end(hs@[b]) <= load_first(hs@[a]),
            cost == 9 + load_cost(hs@, i as int),
            cost <= free,
        decreases n - i,
    {
        let h = hs[i];
        proof {
            lemma_load_count_step(hs@, i as int);
        }
        if h.kind == ElfKind::Load {
            assert(hs@[i as int].kind == ElfKind::Load);
            let (first, end) = load_pages(&h, data_len).unwrap();
            if !(end <= le + 1 || le + 4 <= first) || end > 0x400_0000 {
                return false;
            }
            let mut j: usize = i + 1;
            while j < n
                invariant
                    n == hs@.len(),
                    i < j <= n,
                    h == hs@[i as int],
                    h.kind == ElfKind::Load,
                    first == load_first(h) && end == load_end(h),
                    forall|b: int| i < b < j && (#[trigger] hs@[b]).kind == ElfKind::Load ==> load_end(h) <= load_first(hs@[b])
                        || load_end(hs@[b]) <= load_first(h),
                    forall|j: int| 0 <= j < n && (#[trigger] hs@[j]).kind == ElfKind::Load ==> load_ok(hs@[j], data_len as int),
                decreases n - j,
            {
                let g = hs[j];
                if g.kind == ElfKind::Load {
                    let (gf, ge) = load_pages(&g, data_len).unwrap();
                    if !(end <= gf || ge <= first) {
                        assert(hs@[i as int].kind == ElfKind::Load && hs@[j as int].kind == ElfKind::Load);
                        return false;
                    }
                }
                j = j + 1;
            }
            let pages = end - first;
            let blocks = (end - 1) / 512 - first / 512 + 1;
            proof {
                assert(page_blocks(first as int, end as int) == blocks);
            }
            if pages > free - cost || 2 * blocks > free - cost - pages {
                proof {
                    lemma_load_cost_mono(hs@, i as int + 1, n as int);
                }
                return false;
            }
            cost = cost + pages + 2 * blocks;
        }
        i = i + 1;
    }
    if (le + 4) * 4096 >= 0x40_0000_0000 {
        return false;
    }
    true
}

impl AddressSpace {
    /// The space of the program in the ELF image `data`: `None` when
    /// `xmas_elf` rejects the image, when its headers do not describe a
    /// loadable program (see `image_ok`), or when the allocator cannot hold
    /// the frames it may take (counted up to `u64::MAX`); else what
    /// `from_elf_image` builds from the parsed image.
    pub fn from_elf(data: &[u8], strampoline: u64, mem: &mut PhysMem, allocator: &mut StackFrameAllocator) -> (r: Option<
        (Self, u64, u64),
    >)
        requires
            elf_headers_fit_spec(data@),
            old(allocator)@.wf(),
            strampoline < 0x100_0000_0000_0000,
        ensures
            final(allocator)@.wf(),
            match elf_parse(data@) {
                None => r is None && final(allocator)@ == old(allocator)@ && final(mem).view() == old(mem).view(),
                Some((entry, hs)) => if image_ok(hs, data@.len() as int) && old(allocator)@.free_capped() >= image_cost(hs) {
                    r matches Some((space, stack_top, e)) && space.wf(final(mem).view(), final(allocator)@)
                        && e == entry && elf_space(space, stack_top, final(mem).view(), hs, data@, strampoline)
                } else {
                    r is None && final(allocator)@ == old(allocator)@ && final(mem).view() == old(mem).view()
                },
            },
    {
        let image = match parse_elf(data) {
            Some(img) => img,
            None => return None,
        };
        let free = allocator.free_frames();
        if !check_image(&image.headers, data.len(), free) {
            return None;
        }
        Some(AddressSpace::from_elf_image(&image, data, strampoline, mem, allocator))
    }
}
} // verus!
