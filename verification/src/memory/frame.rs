//! Physical frames: the memory that holds them, and the stack allocator that
//! hands them out and takes them back.
use super::address::{PhysAddr, PhysPageNum, PPN_MASK};
use vstd::hash_map::HashMapWithView;
use vstd::prelude::*;

verus! {

/// Number of 64-bit words in one frame.
pub const FRAME_WORDS: usize = 512;

/// The content of a cleared frame.
pub open spec fn zero_page() -> Seq<u64> {
    Seq::new(FRAME_WORDS as nat, |i: int| 0u64)
}

/// The number of page numbers of SV39: every frame number lies below.
pub const PPN_LIMIT: u64 = 0x1000_0000_0000;

/// Physical memory as the kernel sees it: the frames that were handed out,
/// each a sequence of 512 words.
pub struct PhysMem {
    frames: HashMapWithView<u64, Vec<u64>>,
}

impl PhysMem {
    /// The content of every frame present, by frame number.
    pub closed spec fn view(&self) -> Map<u64, Seq<u64>> {
        self.frames@.map_values(|v: Vec<u64>| v@)
    }

    /// Memory with no frame present.
    pub fn new() -> (r: Self)
        ensures
            r.view() == Map::<u64, Seq<u64>>::empty(),
    {
        broadcast use vstd::std_specs::hash::group_hash_axioms;
        let r = PhysMem { frames: HashMapWithView::new() };
        assert(r.view() =~= Map::<u64, Seq<u64>>::empty());
        r
    }

    /// Whether frame `ppn` is present.
    pub fn has_frame(&self, ppn: u64) -> (r: bool)
        ensures
            r == self.view().contains_key(ppn),
    {
        self.frames.contains_key(&ppn)
    }

    /// Word `idx` of frame `ppn`, or `None` when the frame is not present or
    /// has no such word.
    pub fn read_word(&self, ppn: u64, idx: usize) -> (r: Option<u64>)
        ensures
            r == (if self.view().contains_key(ppn) && idx < self.view()[ppn].len() {
                Some(self.view()[ppn][idx as int])
            } else {
                None::<u64>
            }),
    {
        match self.frames.get(&ppn) {
            Some(v) => {
                if idx < v.len() {
                    Some(v[idx])
                } else {
                    None
                }
            },
            None => None,
        }
    }

    /// Stores `w` as word `idx` of frame `ppn`.
    pub fn write_word(&mut self, ppn: u64, idx: usize, w: u64)
        requires
            old(self).view().contains_key(ppn),
            idx < old(self).view()[ppn].len(),
        ensures
            final(self).view() == old(self).view().insert(
                ppn,
                old(self).view()[ppn].update(idx as int, w),
            ),
    {
        let mut page = match self.frames.get(&ppn) {
            Some(v) => v.clone(),
            None => Vec::new(),
        };
        assert(page@ == old(self).view()[ppn]);
        page.set(idx, w);
        self.frames.insert(ppn, page);
        assert(self.view() =~= old(self).view().insert(ppn, old(self).view()[ppn].update(idx as int, w)));
    }

    /// Copies the content of frame `src` into frame `dst`.
    pub fn copy_frame(&mut self, dst: u64, src: u64)
        requires
            old(self).view().contains_key(src),
        ensures
            final(self).view() == old(self).view().insert(dst, old(self).view()[src]),
    {
        let page = match self.frames.get(&src) {
            Some(v) => v.clone(),
            None => Vec::new(),
        };
        assert(page@ == old(self).view()[src]);
        self.frames.insert(dst, page);
        assert(self.view() =~= old(self).view().insert(dst, old(self).view()[src]));
    }

    /// Fills frame `ppn` with the bytes of `bytes`, then zeros.
    pub fn write_page(&mut self, ppn: u64, bytes: &[u8])
        requires
            bytes@.len() <= 4096,
        ensures
            final(self).view() == old(self).view().insert(ppn, pack_page(bytes@)),
    {
        let mut page: Vec<u64> = Vec::new();
        let mut w: usize = 0;
        while w < FRAME_WORDS
            invariant
                w <= FRAME_WORDS,
                bytes@.len() <= 4096,
                page@.len() == w,
                forall|k: int| 0 <= k < w ==> #[trigger] page@[k] == pack_word(bytes@, k),
            decreases FRAME_WORDS - w,
        {
            let b0 = byte_or_zero(bytes, 8 * w) as u64;
            let b1 = byte_or_zero(bytes, 8 * w + 1) as u64;
            let b2 = byte_or_zero(bytes, 8 * w + 2) as u64;
            let b3 = byte_or_zero(bytes, 8 * w + 3) as u64;
            let b4 = byte_or_zero(bytes, 8 * w + 4) as u64;
            let b5 = byte_or_zero(bytes, 8 * w + 5) as u64;
            let b6 = byte_or_zero(bytes, 8 * w + 6) as u64;
            let b7 = byte_or_zero(bytes, 8 * w + 7) as u64;
            page.push(b0 | (b1 << 8u64) | (b2 << 16u64) | (b3 << 24u64) | (b4 << 32u64) | (b5 << 40u64) | (b6 << 48u64) | (b7
                << 56u64));
            w = w + 1;
        }
        assert(page@ =~= pack_page(bytes@));
        self.frames.insert(ppn, page);
        assert(self.view() =~= old(self).view().insert(ppn, pack_page(bytes@)));
    }

    /// Makes frame `ppn` present and fills it with zeros.
    pub fn zero_frame(&mut self, ppn: u64)
        ensures
            final(self).view() == old(self).view().insert(ppn, zero_page()),
    {
        let mut page: Vec<u64> = Vec::new();
        let mut i: usize = 0;
        while i < FRAME_WORDS
            invariant
                i <= FRAME_WORDS,
                page@ =~= Seq::new(i as nat, |j: int| 0u64),
            decreases FRAME_WORDS - i,
        {
            page.push(0);
            i = i + 1;
        }
        self.frames.insert(ppn, page);
        assert(self.view() =~= old(self).view().insert(ppn, zero_page()));
    }
}

/// Byte `i` of `b`, or 0 past its end.
pub open spec fn byte_at(b: Seq<u8>, i: int) -> u8 {
    if 0 <= i < b.len() {
        b[i]
    } else {
        0u8
    }
}

/// The little-endian word made of bytes `8w .. 8w + 8` of `b` (0 past its
/// end).
pub open spec fn pack_word(b: Seq<u8>, w: int) -> u64 {
    (byte_at(b, 8 * w) as u64) | ((byte_at(b, 8 * w + 1) as u64) << 8u64) | ((byte_at(b, 8 * w + 2) as u64) << 16u64)
        | ((byte_at(b, 8 * w + 3) as u64) << 24u64) | ((byte_at(b, 8 * w + 4) as u64) << 32u64) | ((byte_at(
        b,
        8 * w + 5,
    ) as u64) << 40u64) | ((byte_at(b, 8 * w + 6) as u64) << 48u64) | ((byte_at(b, 8 * w + 7) as u64) << 56u64)
}

/// The frame whose bytes are those of `b`, then zeros.
pub open spec fn pack_page(b: Seq<u8>) -> Seq<u64> {
    Seq::new(FRAME_WORDS as nat, |w: int| pack_word(b, w))
}

/// Byte `j` of a frame's words, little-endian.
pub open spec fn page_byte(words: Seq<u64>, j: int) -> u8 {
    ((words[j / 8] >> (((j % 8) * 8) as u64)) & 0xffu64) as u8
}

/// The bytes of a packed frame are the bytes it was packed from.
pub proof fn lemma_pack_page_bytes(b: Seq<u8>, j: int)
    requires
        0 <= j < 4096,
    ensures
        page_byte(pack_page(b), j) == byte_at(b, j),
{
    let w = j / 8;
    let t = j % 8;
    assert(0 <= w < 512);
    assert(j == 8 * w + t);
    let b0 = byte_at(b, 8 * w) as u64;
    let b1 = byte_at(b, 8 * w + 1) as u64;
    let b2 = byte_at(b, 8 * w + 2) as u64;
    let b3 = byte_at(b, 8 * w + 3) as u64;
    let b4 = byte_at(b, 8 * w + 4) as u64;
    let b5 = byte_at(b, 8 * w + 5) as u64;
    let b6 = byte_at(b, 8 * w + 6) as u64;
    let b7 = byte_at(b, 8 * w + 7) as u64;
    let x = pack_word(b, w);
    assert(x == b0 | (b1 << 8u64) | (b2 << 16u64) | (b3 << 24u64) | (b4 << 32u64) | (b5 << 40u64) | (b6 << 48u64) | (b7
        << 56u64));
    assert(pack_page(b)[w] == x);
    assert(b0 < 256 && b1 < 256 && b2 < 256 && b3 < 256 && b4 < 256 && b5 < 256 && b6 < 256 && b7 < 256);
    assert(((x >> 0u64) & 0xffu64) as u8 == b0 as u8 && ((x >> 8u64) & 0xffu64) as u8 == b1 as u8 && ((x >> 16u64)
        & 0xffu64) as u8 == b2 as u8 && ((x >> 24u64) & 0xffu64) as u8 == b3 as u8 && ((x >> 32u64) & 0xffu64) as u8
        == b4 as u8 && ((x >> 40u64) & 0xffu64) as u8 == b5 as u8 && ((x >> 48u64) & 0xffu64) as u8 == b6 as u8 && ((x
        >> 56u64) & 0xffu64) as u8 == b7 as u8) by (bit_vector)
        requires
            x == b0 | (b1 << 8u64) | (b2 << 16u64) | (b3 << 24u64) | (b4 << 32u64) | (b5 << 40u64) | (b6 << 48u64) | (b7
                << 56u64),
            b0 < 256 && b1 < 256 && b2 < 256 && b3 < 256 && b4 < 256 && b5 < 256 && b6 < 256 && b7 < 256,
    ;
}

/// Byte `i` of `b`, or 0 past its end.
fn byte_or_zero(b: &[u8], i: usize) -> (r: u8)
    ensures
        r == byte_at(b@, i as int),
{
    if i < b.len() {
        b[i]
    } else {
        0
    }
}

/// The state of the frame allocator as values: the next frame that was never
/// handed out, the end of the managed range, and the frames given back, the
/// last given back on top.
pub struct FrameAllocatorModel {
    pub current: u64,
    pub end: u64,
    pub recycled: Seq<u64>,
}

impl FrameAllocatorModel {
    /// The allocator's invariant: the fresh range is ordered and within the
    /// page numbers of SV39, and every frame given back was handed out once
    /// and is given back at most once.
    pub open spec fn wf(self) -> bool {
        &&& self.current <= self.end
        &&& self.end <= PPN_LIMIT
        &&& self.recycled.no_duplicates()
        &&& forall|i: int| 0 <= i < self.recycled.len() ==> #[trigger] self.recycled[i] < self.current
    }

    /// Frame `p` may be handed out next.
    pub open spec fn is_free(self, p: u64) -> bool {
        self.recycled.contains(p) || (self.current <= p && p < self.end)
    }

    /// Frame `p` was handed out and not given back.
    pub open spec fn is_allocated(self, p: u64) -> bool {
        p < self.current && !self.recycled.contains(p)
    }

    /// How many frames are left.
    /// The number of frames left, counted in a `u64`: `u64::MAX` when more
    /// are left.
    pub open spec fn free_capped(self) -> int {
        if self.free_count() <= u64::MAX {
            self.free_count()
        } else {
            u64::MAX as int
        }
    }

    pub open spec fn free_count(self) -> int {
        self.recycled.len() + (self.end - self.current)
    }

    /// One allocation: the frame on top of the given-back stack, else the
    /// next fresh frame, else nothing.
    pub open spec fn allocate(self) -> (Self, Option<u64>) {
        if self.recycled.len() > 0 {
            (
                FrameAllocatorModel {
                    current: self.current,
                    end: self.end,
                    recycled: self.recycled.drop_last(),
                },
                Some(self.recycled.last()),
            )
        } else if self.current != self.end {
            (
                FrameAllocatorModel {
                    current: (self.current + 1) as u64,
                    end: self.end,
                    recycled: self.recycled,
                },
                Some(self.current),
            )
        } else {
            (self, None)
        }
    }

    /// Giving frame `p` back pushes it on the stack.
    pub open spec fn dealloc(self, p: u64) -> Self {
        FrameAllocatorModel { current: self.current, end: self.end, recycled: self.recycled.push(p) }
    }

    /// `n` contiguous fresh frames, or nothing when fewer than `n + 1` fresh
    /// frames are left.
    pub open spec fn allocate_n(self, n: u64) -> (Self, Option<Seq<u64>>) {
        if n >= self.end - self.current {
            (self, None)
        } else {
            let c = (self.current + n) as u64;
            (
                FrameAllocatorModel { current: c, end: self.end, recycled: self.recycled },
                Some(Seq::new(n as nat, |i: int| (c - i - 1) as u64)),
            )
        }
    }
}

/// Hands out physical frames: first those given back, most recent first,
/// then the fresh range `[current, end)` in increasing order.
pub struct StackFrameAllocator {
    current: u64,
    end: u64,
    recycled: Vec<u64>,
}

impl View for StackFrameAllocator {
    type V = FrameAllocatorModel;

    closed spec fn view(&self) -> FrameAllocatorModel {
        FrameAllocatorModel { current: self.current, end: self.end, recycled: self.recycled@ }
    }
}

impl StackFrameAllocator {
    /// An allocator with nothing to hand out.
    pub fn new() -> (r: Self)
        ensures
            r@ == (FrameAllocatorModel { current: 0, end: 0, recycled: Seq::empty() }),
            r@.wf(),
    {
        StackFrameAllocator { current: 0, end: 0, recycled: Vec::new() }
    }

    /// Sets the fresh range to the frames `[l, r)`.
    pub fn init(&mut self, l: PhysPageNum, r: PhysPageNum)
        requires
            old(self)@.recycled.len() == 0,
            l.0 <= r.0,
            r.0 <= PPN_LIMIT,
        ensures
            final(self)@ == (FrameAllocatorModel { current: l.0, end: r.0, recycled: Seq::empty() }),
            final(self)@.wf(),
    {
        self.current = l.0;
        self.end = r.0;
        assert(self.recycled@ =~= Seq::<u64>::empty());
    }

    /// Takes one frame.
    pub fn allocate(&mut self) -> (r: Option<PhysPageNum>)
        requires
            old(self)@.wf(),
        ensures
            final(self)@ == old(self)@.allocate().0,
            match old(self)@.allocate().1 {
                Some(p) => r == Some(PhysPageNum(p)),
                None => r is None,
            },
            final(self)@.wf(),
    {
        if let Some(ppn) = self.recycled.pop() {
            proof {
                let s = old(self)@.recycled;
                assert(s.drop_last().no_duplicates()) by {
                    assert forall|i: int, j: int| 0 <= i < j < s.drop_last().len() implies
                        s.drop_last()[i] != s.drop_last()[j] by {
                        assert(s.drop_last()[i] == s[i]);
                        assert(s.drop_last()[j] == s[j]);
                    }
                }
                assert(forall|i: int| 0 <= i < s.drop_last().len() ==> s.drop_last()[i] == s[i]);
                assert(ppn < self.current);
                crate::bits::lemma_u64_masks();
                assert(ppn & PPN_MASK == ppn % 0x1000_0000_0000);
            }
            Some(PhysPageNum::from(ppn))
        } else if self.current != self.end {
            self.current = self.current + 1;
            let p = self.current - 1;
            proof {
                crate::bits::lemma_u64_masks();
                assert(p & PPN_MASK == p % 0x1000_0000_0000);
            }
            Some(PhysPageNum::from(p))
        } else {
            None
        }
    }

    /// Takes `n` contiguous fresh frames; the last in the vector is the
    /// lowest. Fails when fewer than `n + 1` fresh frames are left.
    pub fn allocate_n(&mut self, n: usize) -> (r: Option<Vec<PhysPageNum>>)
        requires
            old(self)@.wf(),
        ensures
            final(self)@ == old(self)@.allocate_n(n as u64).0,
            final(self)@.wf(),
            match (r, old(self)@.allocate_n(n as u64).1) {
                (None, None) => true,
                (Some(v), Some(s)) => v@.len() == s.len() && forall|i: int|
                    0 <= i < s.len() ==> #[trigger] v@[i].0 == s[i],
                _ => false,
            },
    {
        let n64 = n as u64;
        if n64 >= self.end - self.current {
            None
        } else {
            self.current = self.current + n64;
            let c = self.current;
            let mut v: Vec<PhysPageNum> = Vec::new();
            let mut x: u64 = 1;
            while x <= n64
                invariant
                    1 <= x <= n64 + 1,
                    n64 == n as u64,
                    n64 <= c,
                    c < PPN_LIMIT,
                    v@.len() == x - 1,
                    forall|i: int| 0 <= i < v@.len() ==> #[trigger] v@[i].0 == (c - i - 1) as u64,
                decreases n64 + 1 - x,
            {
                let p = c - x;
                proof {
                    crate::bits::lemma_u64_masks();
                    assert(p & PPN_MASK == p % 0x1000_0000_0000);
                }
                v.push(PhysPageNum::from(p));
                x = x + 1;
            }
            Some(v)
        }
    }

    /// Gives back frame `ppn`, which must have been handed out and not yet
    /// given back.
    pub fn dealloc(&mut self, ppn: PhysPageNum)
        requires
            old(self)@.wf(),
            old(self)@.is_allocated(ppn.0),
        ensures
            final(self)@ == old(self)@.dealloc(ppn.0),
            final(self)@.wf(),
    {
        self.recycled.push(ppn.0);
        proof {
            let s = old(self)@.recycled;
            let t = s.push(ppn.0);
            assert forall|i: int, j: int| 0 <= i < j < t.len() implies t[i] != t[j] by {
                if j == s.len() {
                    assert(t[i] == s[i]);
                    assert(!s.contains(ppn.0));
                }
            }
            assert forall|i: int| 0 <= i < t.len() implies #[trigger] t[i] < self.current by {
                if i < s.len() {
                    assert(t[i] == s[i]);
                }
            }
        }
    }

    /// How many frames are left to hand out (at most `u64::MAX`).
    pub fn free_frames(&self) -> (r: u64)
        requires
            self@.wf(),
        ensures
            r == self@.free_capped(),
    {
        let fresh = self.end - self.current;
        let given_back = self.recycled.len() as u64;
        match fresh.checked_add(given_back) {
            Some(x) => x,
            None => u64::MAX,
        }
    }

    /// Whether a frame is left to hand out.
    pub fn has_free(&self) -> (r: bool)
        requires
            self@.wf(),
        ensures
            r == (self@.free_count() > 0),
    {
        self.recycled.len() > 0 || self.current < self.end
    }
}

/// Giving a frame back and taking one again returns that frame and the
/// allocator as it was.
pub proof fn lemma_dealloc_then_alloc(s: FrameAllocatorModel, p: u64)
    requires
        s.wf(),
        s.is_allocated(p),
    ensures
        s.dealloc(p).allocate() == (s, Some(p)),
{
    assert(s.recycled.push(p).drop_last() =~= s.recycled);
}

/// Giving frame `p` back changes the state of no other frame.
pub proof fn lemma_dealloc_other(s: FrameAllocatorModel, p: u64, q: u64)
    requires
        q != p,
    ensures
        s.dealloc(p).is_allocated(q) == s.is_allocated(q),
        s.dealloc(p).free_count() == s.free_count() + 1,
{
    let t = s.recycled.push(p);
    if t.contains(q) {
        let i = choose|i: int| 0 <= i < t.len() && t[i] == q;
        assert(i < s.recycled.len());
        assert(s.recycled[i] == q);
    }
    if s.recycled.contains(q) {
        let i = choose|i: int| 0 <= i < s.recycled.len() && s.recycled[i] == q;
        assert(t[i] == q);
    }
}

/// An allocation hands out a free frame, which is allocated afterwards; no
/// other frame changes state, and one frame fewer is left.
pub proof fn lemma_alloc_takes_a_free_frame(s: FrameAllocatorModel)
    requires
        s.wf(),
    ensures
        s.allocate().1 is None <==> s.free_count() == 0,
        s.allocate().1 matches Some(p) ==> {
            &&& s.is_free(p)
            &&& !s.is_allocated(p)
            &&& s.allocate().0.is_allocated(p)
            &&& !s.allocate().0.is_free(p)
            &&& s.allocate().0.free_count() == s.free_count() - 1
            &&& forall|q: u64| q != p ==> (s.allocate().0.is_allocated(q) == s.is_allocated(q)
                && s.allocate().0.is_free(q) == s.is_free(q))
        },
{
    let t = s.allocate().0;
    if s.recycled.len() > 0 {
        let p = s.recycled.last();
        assert(s.recycled.contains(p));
        assert(s.recycled =~= t.recycled.push(p));
        assert(!t.recycled.contains(p)) by {
            if t.recycled.contains(p) {
                let i = choose|i: int| 0 <= i < t.recycled.len() && t.recycled[i] == p;
                assert(s.recycled[i] == s.recycled[s.recycled.len() - 1]);
            }
        }
        assert forall|q: u64| q != p implies (t.recycled.contains(q) == s.recycled.contains(q)) by {
            if s.recycled.contains(q) {
                let i = choose|i: int| 0 <= i < s.recycled.len() && s.recycled[i] == q;
                assert(t.recycled[i] == q);
            }
            if t.recycled.contains(q) {
                let i = choose|i: int| 0 <= i < t.recycled.len() && t.recycled[i] == q;
                assert(s.recycled[i] == q);
            }
        }
    } else {
        assert(forall|q: u64| !s.recycled.contains(q));
    }
}

/// The frames of one multi-frame allocation are fresh, distinct and
/// contiguous, and allocated afterwards.
pub proof fn lemma_alloc_n_fresh(s: FrameAllocatorModel, n: u64)
    requires
        s.wf(),
    ensures
        s.allocate_n(n).1 matches Some(v) ==> {
            &&& v.len() == n
            &&& v.no_duplicates()
            &&& forall|i: int| 0 <= i < n ==> #[trigger] v[i] == s.current + n - 1 - i
            &&& forall|i: int| 0 <= i < n ==> s.is_free(#[trigger] v[i]) && s.allocate_n(n).0.is_allocated(v[i])
        },
{
    if let Some(v) = s.allocate_n(n).1 {
        assert forall|i: int| 0 <= i < n implies s.is_free(#[trigger] v[i]) && s.allocate_n(n).0.is_allocated(v[i]) by {
            if s.recycled.contains(v[i]) {
                let j = choose|j: int| 0 <= j < s.recycled.len() && s.recycled[j] == v[i];
                assert(s.recycled[j] < s.current);
            }
        }
    }
}

/// A frame handed out to a user of the allocator; its content is cleared
/// when it is taken.
pub struct PhysFrame {
    pub ppn: PhysPageNum,
}

impl PhysFrame {
    /// Takes frame `ppn` into use: its content becomes all zeros.
    pub fn new(ppn: PhysPageNum, mem: &mut PhysMem) -> (r: Self)
        ensures
            r.ppn == ppn,
            final(mem).view() == old(mem).view().insert(ppn.0, zero_page()),
    {
        mem.zero_frame(ppn.0);
        PhysFrame { ppn }
    }
}

/// Takes one frame from the allocator and clears it.
pub fn frame_alloc(allocator: &mut StackFrameAllocator, mem: &mut PhysMem) -> (r: Option<PhysFrame>)
    requires
        old(allocator)@.wf(),
    ensures
        final(allocator)@ == old(allocator)@.allocate().0,
        final(allocator)@.wf(),
        match old(allocator)@.allocate().1 {
            Some(p) => (r matches Some(f) && f.ppn.0 == p) && final(mem).view() == old(mem).view().insert(
                p,
                zero_page(),
            ),
            None => r is None && final(mem).view() == old(mem).view(),
        },
{
    match allocator.allocate() {
        Some(ppn) => Some(PhysFrame::new(ppn, mem)),
        None => None,
    }
}

/// Takes `n` contiguous fresh frames and clears them.
pub fn frame_alloc_n(allocator: &mut StackFrameAllocator, mem: &mut PhysMem, n: usize) -> (r: Option<Vec<PhysFrame>>)
    requires
        old(allocator)@.wf(),
    ensures
        final(allocator)@ == old(allocator)@.allocate_n(n as u64).0,
        final(allocator)@.wf(),
        match (r, old(allocator)@.allocate_n(n as u64).1) {
            (None, None) => final(mem).view() == old(mem).view(),
            (Some(v), Some(s)) => v@.len() == s.len() && (forall|i: int|
                0 <= i < s.len() ==> #[trigger] v@[i].ppn.0 == s[i]) && (forall|i: int|
                #![trigger s[i]] 0 <= i < s.len() ==> final(mem).view().contains_key(s[i]) && final(mem).view()[s[i]] == zero_page())
                && (forall|q: u64| !s.contains(q) ==> final(mem).view().contains_key(q) == old(mem).view().contains_key(q)
                    && (old(mem).view().contains_key(q) ==> final(mem).view()[q] == old(mem).view()[q])),
            _ => false,
        },
{
    match allocator.allocate_n(n) {
        Some(ppns) => {
            let ghost s = old(allocator)@.allocate_n(n as u64).1.unwrap();
            proof {
                lemma_alloc_n_fresh(old(allocator)@, n as u64);
            }
            let mut frames: Vec<PhysFrame> = Vec::new();
            let mut i: usize = 0;
            while i < ppns.len()
                invariant
                    i <= ppns@.len(),
                    ppns@.len() == s.len(),
                    s.no_duplicates(),
                    forall|k: int| 0 <= k < s.len() ==> #[trigger] ppns@[k].0 == s[k],
                    frames@.len() == i,
                    forall|k: int| 0 <= k < i ==> #[trigger] frames@[k].ppn.0 == s[k],
                    forall|k: int| #![trigger s[k]] 0 <= k < i ==> mem.view().contains_key(s[k]) && mem.view()[s[k]] == zero_page(),
                    forall|q: u64| !s.contains(q) ==> mem.view().contains_key(q) == old(mem).view().contains_key(q)
                        && (old(mem).view().contains_key(q) ==> mem.view()[q] == old(mem).view()[q]),
                decreases ppns@.len() - i,
            {
                let ghost before = mem.view();
                let f = PhysFrame::new(ppns[i], mem);
                proof {
                    assert(s[i as int] == ppns@[i as int].0);
                    assert(s.contains(ppns@[i as int].0));
                    assert(mem.view() == before.insert(s[i as int], zero_page()));
                    assert forall|k: int| #![trigger s[k]] 0 <= k < i + 1 implies mem.view().contains_key(s[k])
                        && mem.view()[s[k]] == zero_page() by {
                        if k < i {
                            assert(s[k] != s[i as int]);
                            assert(before.contains_key(s[k]));
                        }
                    }
                }
                frames.push(f);
                i = i + 1;
            }
            Some(frames)
        },
        None => None,
    }
}

/// Gives frame `ppn` back to the allocator.
pub fn frame_dealloc(allocator: &mut StackFrameAllocator, ppn: PhysPageNum)
    requires
        old(allocator)@.wf(),
        old(allocator)@.is_allocated(ppn.0),
    ensures
        final(allocator)@ == old(allocator)@.dealloc(ppn.0),
        final(allocator)@.wf(),
{
    allocator.dealloc(ppn);
}

/// The frames that the allocator manages: from the end of the kernel image up
/// to the end of physical memory, both page aligned.
pub fn init_frame_allocator(allocator: &mut StackFrameAllocator, free_start: u64, free_end: u64)
    requires
        old(allocator)@.recycled.len() == 0,
        free_start % 4096 == 0,
        free_end % 4096 == 0,
        free_start <= free_end,
        free_end < 0x100_0000_0000_0000,
    ensures
        final(allocator)@ == (FrameAllocatorModel {
            current: (free_start / 4096) as u64,
            end: (free_end / 4096) as u64,
            recycled: Seq::empty(),
        }),
        final(allocator)@.wf(),
{
    proof {
        super::address::lemma_masks_are_remainders(free_start);
        super::address::lemma_masks_are_remainders(free_end);
    }
    let l = PhysAddr::from(free_start).to_page_num();
    let r = PhysAddr::from(free_end).to_page_num();
    allocator.init(l, r);
}

/// How many address spaces hold each shared data frame: a frame that
/// several spaces map after a fork is copied before one of them writes it.
pub struct FrameRefs {
    counts: HashMapWithView<u64, u64>,
}

impl View for FrameRefs {
    type V = Map<u64, u64>;

    closed spec fn view(&self) -> Map<u64, u64> {
        self.counts@
    }
}

/// The number of spaces that hold frame `q`: what `refs` records, else
/// one, the space that took the frame.
pub open spec fn holders(refs: Map<u64, u64>, q: u64) -> u64 {
    if refs.contains_key(q) {
        refs[q]
    } else {
        1
    }
}

impl FrameRefs {
    /// No frame is shared.
    pub fn new() -> (r: Self)
        ensures
            r@ == Map::<u64, u64>::empty(),
    {
        broadcast use vstd::std_specs::hash::group_hash_axioms;
        FrameRefs { counts: HashMapWithView::new() }
    }

    /// The number of holders of frame `ppn`.
    pub fn count(&self, ppn: u64) -> (r: u64)
        ensures
            r == holders(self@, ppn),
    {
        match self.counts.get(&ppn) {
            Some(c) => *c,
            None => 1,
        }
    }

    /// Records `n` holders for frame `ppn`.
    pub fn set(&mut self, ppn: u64, n: u64)
        ensures
            final(self)@ == old(self)@.insert(ppn, n),
    {
        self.counts.insert(ppn, n);
    }

    /// One more space holds frame `ppn`.
    pub fn share(&mut self, ppn: u64)
        requires
            holders(old(self)@, ppn) < u64::MAX,
        ensures
            final(self)@ == old(self)@.insert(ppn, (holders(old(self)@, ppn) + 1) as u64),
    {
        let c = self.count(ppn);
        self.counts.insert(ppn, c + 1);
    }

    /// One space less holds frame `ppn`.
    pub fn release(&mut self, ppn: u64)
        requires
            holders(old(self)@, ppn) > 0,
        ensures
            final(self)@ == old(self)@.insert(ppn, (holders(old(self)@, ppn) - 1) as u64),
    {
        let c = self.count(ppn);
        self.counts.insert(ppn, c - 1);
    }
}

} // verus!
