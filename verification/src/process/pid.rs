//! Identifier allocation with recycling, and process identifiers.
use vstd::hash_map::HashMapWithView;
use vstd::prelude::*;

verus! {

/// The state of a recycling allocator as values: the next identifier never
/// handed out, and the identifiers given back, the last on top.
pub struct RecycleModel {
    pub current: usize,
    pub recycled: Seq<usize>,
}

impl RecycleModel {
    /// Every identifier given back was handed out, and is given back once.
    pub open spec fn wf(self) -> bool {
        &&& self.recycled.no_duplicates()
        &&& forall|i: int| 0 <= i < self.recycled.len() ==> #[trigger] self.recycled[i] < self.current
    }

    /// Identifier `id` is in use: handed out and not given back.
    pub open spec fn is_live(self, id: usize) -> bool {
        id < self.current && !self.recycled.contains(id)
    }

    /// An allocation can be made without running out of identifiers.
    pub open spec fn can_allocate(self) -> bool {
        self.recycled.len() > 0 || self.current < usize::MAX
    }

    /// One allocation: the identifier on top of the given-back stack, else
    /// the next fresh one.
    pub open spec fn allocate(self) -> (Self, usize) {
        if self.recycled.len() > 0 {
            (RecycleModel { current: self.current, recycled: self.recycled.drop_last() }, self.recycled.last())
        } else {
            (RecycleModel { current: (self.current + 1) as usize, recycled: self.recycled }, self.current)
        }
    }

    /// Giving `id` back pushes it on the stack.
    pub open spec fn dealloc(self, id: usize) -> Self {
        RecycleModel { current: self.current, recycled: self.recycled.push(id) }
    }
}

/// Hands out small integer identifiers (process or thread ids), reusing the
/// ones given back, most recent first.
pub struct RecycleAllocator {
    current: usize,
    recycled: Vec<usize>,
}

impl View for RecycleAllocator {
    type V = RecycleModel;

    closed spec fn view(&self) -> RecycleModel {
        RecycleModel { current: self.current, recycled: self.recycled@ }
    }
}

impl RecycleAllocator {
    /// An allocator whose first identifier is 0.
    pub fn new() -> (r: Self)
        ensures
            r@ == (RecycleModel { current: 0, recycled: Seq::empty() }),
            r@.wf(),
    {
        RecycleAllocator { current: 0, recycled: Vec::new() }
    }

    /// Takes an identifier.
    pub fn allocate(&mut self) -> (id: usize)
        requires
            old(self)@.wf(),
            old(self)@.can_allocate(),
        ensures
            (final(self)@, id) == old(self)@.allocate(),
            final(self)@.wf(),
    {
        if let Some(id) = self.recycled.pop() {
            proof {
                let s = old(self)@.recycled;
                assert forall|i: int, j: int| 0 <= i < j < s.drop_last().len() implies
                    s.drop_last()[i] != s.drop_last()[j] by {
                    assert(s.drop_last()[i] == s[i]);
                    assert(s.drop_last()[j] == s[j]);
                }
                assert(forall|i: int| 0 <= i < s.drop_last().len() ==> s.drop_last()[i] == s[i]);
            }
            id
        } else {
            self.current = self.current + 1;
            self.current - 1
        }
    }

    /// Gives back identifier `id`, which must be in use.
    pub fn dealloc(&mut self, id: usize)
        requires
            old(self)@.wf(),
            old(self)@.is_live(id),
        ensures
            final(self)@ == old(self)@.dealloc(id),
            final(self)@.wf(),
    {
        self.recycled.push(id);
        proof {
            let s = old(self)@.recycled;
            let t = s.push(id);
            assert forall|i: int, j: int| 0 <= i < j < t.len() implies t[i] != t[j] by {
                if j == s.len() {
                    assert(t[i] == s[i]);
                }
            }
            assert forall|i: int| 0 <= i < t.len() implies #[trigger] t[i] < self.current by {
                if i < s.len() {
                    assert(t[i] == s[i]);
                }
            }
        }
    }
}

/// An allocation never hands out an identifier in use; the identifier is in
/// use afterwards, and no other identifier changes state.
pub proof fn lemma_allocate_fresh(s: RecycleModel)
    requires
        s.wf(),
        s.can_allocate(),
    ensures
        !s.is_live(s.allocate().1),
        s.allocate().0.is_live(s.allocate().1),
        forall|q: usize| q != s.allocate().1 ==> s.allocate().0.is_live(q) == s.is_live(q),
{
    let (t, id) = s.allocate();
    if s.recycled.len() > 0 {
        assert(s.recycled =~= t.recycled.push(id));
        assert(s.recycled.contains(id));
        assert(!t.recycled.contains(id)) by {
            if t.recycled.contains(id) {
                let i = choose|i: int| 0 <= i < t.recycled.len() && t.recycled[i] == id;
                assert(s.recycled[i] == s.recycled[s.recycled.len() - 1]);
            }
        }
        assert forall|q: usize| q != id implies t.is_live(q) == s.is_live(q) by {
            if s.recycled.contains(q) {
                let i = choose|i: int| 0 <= i < s.recycled.len() && s.recycled[i] == q;
                assert(t.recycled[i] == q);
            }
            if t.recycled.contains(q) {
                let i = choose|i: int| 0 <= i < t.recycled.len() && t.recycled[i] == q;
                assert(s.recycled[i] == q);
            }
        }
    } else {
        assert(forall|q: usize| !s.recycled.contains(q));
    }
}

/// Giving an identifier back retires it and no other.
pub proof fn lemma_dealloc_retires(s: RecycleModel, id: usize)
    requires
        s.wf(),
        s.is_live(id),
    ensures
        !s.dealloc(id).is_live(id),
        forall|q: usize| q != id ==> s.dealloc(id).is_live(q) == s.is_live(q),
{
    let t = s.recycled.push(id);
    assert(t[t.len() - 1] == id);
    assert forall|q: usize| q != id implies s.dealloc(id).is_live(q) == s.is_live(q) by {
        if t.contains(q) {
            let i = choose|i: int| 0 <= i < t.len() && t[i] == q;
            assert(i < s.recycled.len());
            assert(s.recycled[i] == q);
        }
        if s.recycled.contains(q) {
            let i = choose|i: int| 0 <= i < s.recycled.len() && s.recycled[i] == q;
            assert(t[i] == q);
        }
    }
}

/// Giving an identifier back and allocating again returns that identifier and
/// the allocator as it was.
pub proof fn lemma_dealloc_then_allocate(s: RecycleModel, id: usize)
    requires
        s.wf(),
        s.is_live(id),
    ensures
        s.dealloc(id).allocate() == (s, id),
{
    assert(s.recycled.push(id).drop_last() =~= s.recycled);
}

/// One call on a recycling allocator: taking an identifier, or giving
/// one back.
pub enum IdOp {
    Allocate,
    Dealloc(usize),
}

/// The allocator state after `ops`, starting from `s`.
pub open spec fn ids_after(s: RecycleModel, ops: Seq<IdOp>) -> RecycleModel
    decreases ops.len(),
{
    if ops.len() == 0 {
        s
    } else {
        let t = ids_after(s, ops.drop_last());
        match ops.last() {
            IdOp::Allocate => t.allocate().0,
            IdOp::Dealloc(id) => t.dealloc(id),
        }
    }
}

/// Each call of `ops` is one the allocator accepts at that point: an
/// allocation while identifiers are left, a release of an identifier in use.
pub open spec fn id_ops_allowed(s: RecycleModel, ops: Seq<IdOp>) -> bool {
    forall|k: int|
        0 <= k < ops.len() ==> match #[trigger] ops[k] {
            IdOp::Allocate => ids_after(s, ops.take(k)).can_allocate(),
            IdOp::Dealloc(id) => ids_after(s, ops.take(k)).is_live(id),
        }
}

/// Every state reached by accepted calls is consistent: the identifiers
/// given back are distinct and were handed out. So, by
/// `lemma_allocate_fresh`, an allocation from any reachable state never
/// returns an identifier still in use.
pub proof fn lemma_reachable_wf(s: RecycleModel, ops: Seq<IdOp>)
    requires
        s.wf(),
        id_ops_allowed(s, ops),
    ensures
        ids_after(s, ops).wf(),
    decreases ops.len(),
{
    if ops.len() > 0 {
        let prev = ops.drop_last();
        assert forall|k: int| 0 <= k < prev.len() implies match #[trigger] prev[k] {
            IdOp::Allocate => ids_after(s, prev.take(k)).can_allocate(),
            IdOp::Dealloc(id) => ids_after(s, prev.take(k)).is_live(id),
        } by {
            assert(prev.take(k) =~= ops.take(k));
            assert(prev[k] == ops[k]);
        }
        lemma_reachable_wf(s, prev);
        let t = ids_after(s, prev);
        let n = ops.len() - 1;
        assert(ops.take(n) =~= prev);
        assert(ops[n] == ops.last());
        match ops.last() {
            IdOp::Allocate => {
                lemma_allocate_wf(t);
            },
            IdOp::Dealloc(id) => {
                lemma_dealloc_wf(t, id);
            },
        }
    }
}

/// Along any accepted sequence of calls from a consistent state, each
/// allocation hands out an identifier that is not in use at that point (the
/// last one given back and not yet reused, else the next fresh one), and
/// that identifier is in use afterwards: identifiers in use are never handed
/// out twice.
pub proof fn lemma_allocations_fresh(s: RecycleModel, ops: Seq<IdOp>, k: int)
    requires
        s.wf(),
        id_ops_allowed(s, ops),
        0 <= k < ops.len(),
        ops[k] == IdOp::Allocate,
    ensures
        ({
            let t = ids_after(s, ops.take(k));
            &&& !t.is_live(t.allocate().1)
            &&& t.allocate().0.is_live(t.allocate().1)
            &&& t.allocate().1 == (if t.recycled.len() > 0 { t.recycled.last() } else { t.current })
        }),
{
    let pre = ops.take(k);
    assert forall|j: int| 0 <= j < pre.len() implies match #[trigger] pre[j] {
        IdOp::Allocate => ids_after(s, pre.take(j)).can_allocate(),
        IdOp::Dealloc(id) => ids_after(s, pre.take(j)).is_live(id),
    } by {
        assert(pre.take(j) =~= ops.take(j));
        assert(pre[j] == ops[j]);
    }
    lemma_reachable_wf(s, pre);
    assert(ids_after(s, pre).can_allocate());
    lemma_allocate_fresh(ids_after(s, pre));
}

/// An allocation keeps the allocator consistent.
pub proof fn lemma_allocate_wf(s: RecycleModel)
    requires
        s.wf(),
        s.can_allocate(),
    ensures
        s.allocate().0.wf(),
{
    let r = s.recycled;
    if r.len() > 0 {
        assert forall|i: int, j: int| 0 <= i < j < r.drop_last().len() implies r.drop_last()[i] != r.drop_last()[j] by {
            assert(r.drop_last()[i] == r[i]);
            assert(r.drop_last()[j] == r[j]);
        }
        assert forall|i: int| 0 <= i < r.drop_last().len() implies #[trigger] r.drop_last()[i] < s.current by {
            assert(r.drop_last()[i] == r[i]);
        }
    }
}

/// Giving back an identifier in use keeps the allocator consistent.
pub proof fn lemma_dealloc_wf(s: RecycleModel, id: usize)
    requires
        s.wf(),
        s.is_live(id),
    ensures
        s.dealloc(id).wf(),
{
    let r = s.recycled;
    let t = r.push(id);
    assert forall|i: int, j: int| 0 <= i < j < t.len() implies t[i] != t[j] by {
        if j == r.len() {
            assert(t[i] == r[i]);
        }
    }
    assert forall|i: int| 0 <= i < t.len() implies #[trigger] t[i] < s.current by {
        if i < r.len() {
            assert(t[i] == r[i]);
        }
    }
}

/// A process identifier.
pub struct Pid(pub usize);

impl Pid {
    /// Takes a fresh process identifier from `allocator`.
    pub fn allocate(allocator: &mut RecycleAllocator) -> (r: Pid)
        requires
            old(allocator)@.wf(),
            old(allocator)@.can_allocate(),
        ensures
            (final(allocator)@, r.0) == old(allocator)@.allocate(),
            final(allocator)@.wf(),
    {
        Pid(allocator.allocate())
    }

    /// Gives the identifier back to `allocator` (what dropping a `Pid` does).
    pub fn release(self, allocator: &mut RecycleAllocator)
        requires
            old(allocator)@.wf(),
            old(allocator)@.is_live(self.0),
        ensures
            final(allocator)@ == old(allocator)@.dealloc(self.0),
            final(allocator)@.wf(),
    {
        allocator.dealloc(self.0);
    }

    /// Removes this process from the table from identifiers to processes;
    /// the process must be in it.
    pub fn unmap_pcb<T>(&self, pid_map: &mut HashMapWithView<usize, T>)
        requires
            old(pid_map)@.contains_key(self.0),
        ensures
            final(pid_map)@ == old(pid_map)@.remove(self.0),
    {
        let _ = pid_map.remove(&self.0);
    }
}

/// Every `usize` names a process.
impl From<usize> for Pid {
    fn from(value: usize) -> (r: Self) {
        Pid(value)
    }
}

impl vstd::std_specs::convert::FromSpecImpl<usize> for Pid {
    open spec fn obeys_from_spec() -> bool {
        true
    }

    open spec fn from_spec(v: usize) -> Pid {
        Pid(v)
    }
}

} // verus!
