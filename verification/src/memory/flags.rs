//! Bit sets of the SV39 page table entry flags and of segment permissions.
use vstd::prelude::*;

verus! {

/// The flag bits of a page table entry.
#[derive(Copy, Clone, Debug, PartialEq, Eq, Structural)]
pub struct PTEFlags {
    bits: u8,
}

impl View for PTEFlags {
    type V = u8;

    closed spec fn view(&self) -> u8 {
        self.bits
    }
}

impl PTEFlags {
    /// The entry is valid.
    pub fn V() -> (r: Self)
        ensures
            r@ == 1,
    {
        PTEFlags { bits: 1 }
    }

    /// The page may be read.
    pub fn R() -> (r: Self)
        ensures
            r@ == 2,
    {
        PTEFlags { bits: 2 }
    }

    /// The page may be written.
    pub fn W() -> (r: Self)
        ensures
            r@ == 4,
    {
        PTEFlags { bits: 4 }
    }

    /// The page may be executed.
    pub fn X() -> (r: Self)
        ensures
            r@ == 8,
    {
        PTEFlags { bits: 8 }
    }

    /// The page is reachable from user mode.
    pub fn U() -> (r: Self)
        ensures
            r@ == 16,
    {
        PTEFlags { bits: 16 }
    }

    /// The mapping is global.
    pub fn G() -> (r: Self)
        ensures
            r@ == 32,
    {
        PTEFlags { bits: 32 }
    }

    /// The page was accessed since the bit was last cleared.
    pub fn A() -> (r: Self)
        ensures
            r@ == 64,
    {
        PTEFlags { bits: 64 }
    }

    /// The page was written since the bit was last cleared.
    pub fn D() -> (r: Self)
        ensures
            r@ == 128,
    {
        PTEFlags { bits: 128 }
    }

    /// No flag set.
    pub fn empty() -> (r: Self)
        ensures
            r@ == 0,
    {
        PTEFlags { bits: 0 }
    }

    /// The raw bits.
    pub fn bits(&self) -> (r: u8)
        ensures
            r == self@,
    {
        self.bits
    }

    /// Every byte is a set of the eight defined flags, so this never fails.
    pub fn from_bits(bits: u8) -> (r: Option<Self>)
        ensures
            r matches Some(f) && f@ == bits,
    {
        Some(PTEFlags { bits })
    }

    /// The union of two sets.
    pub fn union(&self, other: Self) -> (r: Self)
        ensures
            r@ == self@ | other@,
    {
        PTEFlags { bits: self.bits | other.bits }
    }

    /// The intersection of two sets.
    pub fn intersection(&self, other: Self) -> (r: Self)
        ensures
            r@ == self@ & other@,
    {
        PTEFlags { bits: self.bits & other.bits }
    }

    /// Whether every flag of `other` is set here.
    pub fn contains(&self, other: Self) -> (r: bool)
        ensures
            r == (self@ & other@ == other@),
    {
        self.bits & other.bits == other.bits
    }

    /// Whether no flag is set.
    pub fn is_empty(&self) -> (r: bool)
        ensures
            r == (self@ == 0),
    {
        self.bits == 0
    }
}

/// Permissions of a segment: the R, W, X and U bits at the positions that
/// they have in a page table entry.
#[derive(Copy, Clone, Debug, PartialEq, Eq, Structural)]
pub struct MapPermission {
    bits: u8,
}

/// The bits that a permission may hold.
pub open spec fn map_permission_mask() -> u8 {
    0x1e
}

impl View for MapPermission {
    type V = u8;

    closed spec fn view(&self) -> u8 {
        self.bits
    }
}

impl MapPermission {
    /// A well-formed permission holds no bit outside R, W, X and U.
    pub open spec fn wf(&self) -> bool {
        self@ & !map_permission_mask() == 0
    }

    /// Readable.
    pub fn R() -> (r: Self)
        ensures
            r@ == 2,
            r.wf(),
    {
        proof {
            crate::bits::lemma_bit_constants();
        }
        MapPermission { bits: 2 }
    }

    /// Writable.
    pub fn W() -> (r: Self)
        ensures
            r@ == 4,
            r.wf(),
    {
        proof {
            crate::bits::lemma_bit_constants();
        }
        MapPermission { bits: 4 }
    }

    /// Executable.
    pub fn X() -> (r: Self)
        ensures
            r@ == 8,
            r.wf(),
    {
        proof {
            crate::bits::lemma_bit_constants();
        }
        MapPermission { bits: 8 }
    }

    /// Reachable from user mode.
    pub fn U() -> (r: Self)
        ensures
            r@ == 16,
            r.wf(),
    {
        proof {
            crate::bits::lemma_bit_constants();
        }
        MapPermission { bits: 16 }
    }

    /// No permission.
    pub fn empty() -> (r: Self)
        ensures
            r@ == 0,
            r.wf(),
    {
        proof {
            crate::bits::lemma_bit_constants();
        }
        MapPermission { bits: 0 }
    }

    /// The raw bits.
    pub fn bits(&self) -> (r: u8)
        ensures
            r == self@,
    {
        self.bits
    }

    /// The permission with these bits, or `None` when a bit outside R, W, X
    /// and U is set.
    pub fn from_bits(bits: u8) -> (r: Option<Self>)
        ensures
            bits & !map_permission_mask() == 0 ==> (r matches Some(p) && p@ == bits),
            bits & !map_permission_mask() != 0 ==> r is None,
    {
        if bits & !0x1eu8 == 0 {
            Some(MapPermission { bits })
        } else {
            None
        }
    }

    /// The union of two permissions.
    pub fn union(&self, other: Self) -> (r: Self)
        requires
            self.wf(),
            other.wf(),
        ensures
            r@ == self@ | other@,
            r.wf(),
    {
        let a = self.bits;
        let b = other.bits;
        proof {
            crate::bits::lemma_u8_bits();
        }
        assert(a & !0x1eu8 == 0 && b & !0x1eu8 == 0 ==> (a | b) & !0x1eu8 == 0);
        MapPermission { bits: a | b }
    }

    /// Whether every permission of `other` is granted here.
    pub fn contains(&self, other: Self) -> (r: bool)
        ensures
            r == (self@ & other@ == other@),
    {
        self.bits & other.bits == other.bits
    }

    /// Grants the permissions of `other` too.
    pub fn insert(&mut self, other: Self)
        requires
            old(self).wf(),
            other.wf(),
        ensures
            final(self)@ == old(self)@ | other@,
            final(self).wf(),
    {
        *self = self.union(other);
    }

    /// Withdraws the permissions of `other`.
    pub fn remove(&mut self, other: Self)
        requires
            old(self).wf(),
        ensures
            final(self)@ == old(self)@ & !other@,
            final(self).wf(),
    {
        let a = self.bits;
        let b = other.bits;
        proof {
            crate::bits::lemma_u8_bits();
        }
        assert(a & !0x1eu8 == 0 ==> (a & !b) & !0x1eu8 == 0);
        self.bits = a & !b;
    }

    /// The page table flags with the same bits.
    pub fn to_pte_flags(&self) -> (r: PTEFlags)
        ensures
            r@ == self@,
    {
        match PTEFlags::from_bits(self.bits) {
            Some(f) => f,
            None => PTEFlags::empty(),
        }
    }
}

} // verus!
