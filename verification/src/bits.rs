//! Facts about bit operations that the rest of the crate leans on, proved
//! once by bit-blasting.
use vstd::prelude::*;

verus! {

/// Bit facts about the constants of the crate: flag unions, the masks of
/// the fixed addresses, the page size.
pub proof fn lemma_bit_constants()
    by (bit_vector)
    ensures
        2u8 | 8u8 == 10u8,
        2u8 | 4u8 == 6u8,
        2u8 | 4u8 | 16u8 == 22u8,
        (2u8 | 8u8 | 1u8) & 1u8 != 0,
        1u8 & 1u8 != 0,
        0u64 & 1u64 == 0,
        (0u64 >> 10u64) & 0x0000_0fff_ffff_ffffu64 == 0,
        0xffff_ffff_ffff_f000u64 & 0x0000_007f_ffff_ffffu64 == 0x7f_ffff_f000u64,
        0xffff_ffff_ffff_e000u64 & 0x0000_007f_ffff_ffffu64 == 0x7f_ffff_e000u64,
        2u8 & !0x1eu8 == 0,
        4u8 & !0x1eu8 == 0,
        8u8 & !0x1eu8 == 0,
        16u8 & !0x1eu8 == 0,
        0u8 & !0x1eu8 == 0,
        4096u64 == 1u64 << 12u64,
{
}

/// Bit facts about bytes: setting V, or-ing nothing, and staying within the
/// permission bits.
pub proof fn lemma_u8_bits()
    by (bit_vector)
    ensures
        forall|p: u8| #[trigger] ((p | 1u8) & 1u8) != 0,
        forall|x: u8| #[trigger] (x | 0u8) == x,
        forall|a: u8, b: u8| a & !0x1eu8 == 0 && b & !0x1eu8 == 0 ==> #[trigger] ((a | b) & !0x1eu8) == 0,
        forall|a: u8, b: u8| a & !0x1eu8 == 0 ==> #[trigger] ((a & !b) & !0x1eu8) == 0,
{
}

/// Masking a `u64` with a low mask of `k` bits is taking it modulo `2^k`;
/// the three 9-bit indexes of a page number are below 512.
pub proof fn lemma_u64_masks()
    by (bit_vector)
    ensures
        forall|v: u64| #[trigger] (v & 0x1ffu64) == v % 512,
        forall|v: u64| #[trigger] (v & 0xfffu64) == v % 4096,
        forall|v: u64| #[trigger] (v & 0x0000_007f_ffff_ffffu64) == v % 0x80_0000_0000,
        forall|v: u64| #[trigger] (v & 0x0000_0fff_ffff_ffffu64) == v % 0x1000_0000_0000,
        forall|v: u64| #[trigger] (v & 0x00ff_ffff_ffff_ffffu64) == v % 0x100_0000_0000_0000,
        forall|v: u64| #[trigger] ((v >> 9u64) & 0x1ffu64) < 512,
        forall|v: u64| #[trigger] ((v >> 18u64) & 0x1ffu64) < 512,
        forall|v: u64| #[trigger] ((v >> 9u64) >> 9u64) == v >> 18u64,
{
}

/// An entry made of a page number shifted above ten flag bits: its flags
/// and V bit are those of the low byte, and the page number comes back when
/// it fits in 44 bits.
pub proof fn lemma_pte_bits()
    by (bit_vector)
    ensures
        forall|ppn: u64, fw: u64| fw < 256 ==> ((#[trigger] (((ppn << 10u64) | fw) & 1u64)) != 0) == ((fw & 1u64) != 0),
        forall|ppn: u64, fw: u64| ppn < 0x1000_0000_0000u64 && fw < 256 ==> #[trigger] ((((ppn << 10u64) | fw) >> 10u64)
            & 0x0000_0fff_ffff_ffffu64) == ppn,
        forall|ppn: u64, fw: u64| fw < 256 ==> #[trigger] (((ppn << 10u64) | fw) as u8) == fw as u8,
        forall|f: u8| ((#[trigger] ((f as u64) & 1u64)) != 0) == ((f & 1u8) != 0),
{
}

/// The low byte of an entry holds its flags: testing a flag bit on the
/// byte or on the whole word agrees.
pub proof fn lemma_low_byte_flags()
    by (bit_vector)
    ensures
        forall|b: u64| (((b as u8) & 1u8) != 0) == (#[trigger] (b & 1u64) != 0),
        forall|b: u64| (((b as u8) & 2u8) != 0) == (#[trigger] (b & 2u64) != 0),
        forall|b: u64| (((b as u8) & 4u8) != 0) == (#[trigger] (b & 4u64) != 0),
        forall|b: u64| (((b as u8) & 8u8) != 0) == (#[trigger] (b & 8u64) != 0),
{
}

} // verus!
