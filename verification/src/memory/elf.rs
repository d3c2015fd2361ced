//! What the loader reads of an ELF image: its entry point and its program
//! headers, parsed by `xmas_elf`.
use super::flags::MapPermission;
use vstd::prelude::*;
use xmas_elf::program::Type;
use xmas_elf::ElfFile;

verus! {

/// The type of a program header, as far as the loader cares.
#[derive(Copy, Clone, Debug, PartialEq, Eq, Structural)]
pub enum ElfKind {
    /// `PT_LOAD`: a segment to map.
    Load,
    /// Any other valid type.
    Other,
    /// A type value that ELF does not define.
    Invalid,
}

/// One program header of an ELF image.
#[derive(Copy, Clone, Debug, PartialEq, Eq, Structural)]
pub struct ElfSegment {
    pub kind: ElfKind,
    pub vaddr: u64,
    pub mem_size: u64,
    pub offset: u64,
    pub file_size: u64,
    /// The `p_flags` word: X is bit 0, W bit 1, R bit 2.
    pub flags: u32,
}

/// An ELF image: the entry point and the program headers in file order.
pub struct ElfImage {
    pub entry: u64,
    pub headers: Vec<ElfSegment>,
}

/// The little-endian 16-bit word at byte `o`.
pub open spec fn le16(d: Seq<u8>, o: int) -> int {
    d[o] + 256 * d[o + 1]
}

/// The little-endian 32-bit word at byte `o`.
pub open spec fn le32(d: Seq<u8>, o: int) -> int {
    le16(d, o) + 65536 * le16(d, o + 2)
}

/// The little-endian 64-bit word at byte `o`.
pub open spec fn le64(d: Seq<u8>, o: int) -> int {
    le32(d, o) + 0x1_0000_0000 * le32(d, o + 4)
}

/// The bytes start with the ELF magic number.
pub open spec fn elf_magic(d: Seq<u8>) -> bool {
    d.len() >= 16 && d[0] == 0x7f && d[1] == 0x45 && d[2] == 0x4c && d[3] == 0x46
}

/// A program header table of `count` entries of `size` bytes at `offset`
/// can be read from `len` bytes: either the reader stops before it (no
/// entry, a zero offset or a zero entry size), or every entry lies within
/// the bytes, is at least `min` bytes long and starts `align`-aligned.
pub open spec fn table_fits(len: int, offset: int, size: int, count: int, min: int, align: int) -> bool {
    count == 0 || offset == 0 || size == 0 || (size >= min && offset % align == 0 && size % align == 0 && offset
        + count * size <= len)
}

/// `xmas_elf` reads the header and the program headers of `d` without
/// panicking, when the bytes are laid out in memory at an address aligned
/// to 8: bytes too short for a header, without the magic number or of an
/// unknown class are refused before any program header is read; else the
/// program header table, as the header gives it, fits the bytes.
pub open spec fn elf_headers_fit_spec(d: Seq<u8>) -> bool {
    if !elf_magic(d) {
        true
    } else if d[4] == 2 {
        d.len() < 64 || table_fits(d.len() as int, le64(d, 32), le16(d, 54), le16(d, 56), 56, 8)
    } else if d[4] == 1 {
        d.len() < 52 || table_fits(d.len() as int, le32(d, 28), le16(d, 42), le16(d, 44), 32, 4)
    } else {
        true
    }
}

fn read16(d: &[u8], o: usize) -> (r: u64)
    requires
        o + 2 <= d.len(),
    ensures
        r == le16(d@, o as int),
{
    d[o] as u64 + 256 * (d[o + 1] as u64)
}

fn read32(d: &[u8], o: usize) -> (r: u64)
    requires
        o + 4 <= d.len(),
    ensures
        r == le32(d@, o as int),
{
    read16(d, o) + 65536 * read16(d, o + 2)
}

fn read64(d: &[u8], o: usize) -> (r: u64)
    requires
        o + 8 <= d.len(),
    ensures
        r == le64(d@, o as int),
{
    let lo = read32(d, o);
    let hi = read32(d, o + 4);
    assert(hi * 0x1_0000_0000 + lo <= u64::MAX) by (nonlinear_arith)
        requires
            hi < 0x1_0000_0000,
            lo < 0x1_0000_0000,
    ;
    lo + 0x1_0000_0000 * hi
}

fn fits(len: u64, offset: u64, size: u64, count: u64, min: u64, align: u64) -> (r: bool)
    requires
        size < 0x1_0000,
        count < 0x1_0000,
        align > 0,
    ensures
        r == table_fits(len as int, offset as int, size as int, count as int, min as int, align as int),
{
    if count == 0 || offset == 0 || size == 0 {
        return true;
    }
    assert(count * size < 0x1_0000_0000) by (nonlinear_arith)
        requires
            size < 0x1_0000,
            count < 0x1_0000,
    ;
    size >= min && offset % align == 0 && size % align == 0 && offset <= len && count * size <= len - offset
}

/// Whether `xmas_elf` can read the headers of `data` without panicking
/// (see `elf_headers_fit_spec`).
pub fn elf_headers_fit(data: &[u8]) -> (r: bool)
    ensures
        r == elf_headers_fit_spec(data@),
{
    if data.len() < 16 || data[0] != 0x7f || data[1] != 0x45 || data[2] != 0x4c || data[3] != 0x46 {
        return true;
    }
    let n = data.len() as u64;
    if data[4] == 2 {
        if data.len() < 64 {
            return true;
        }
        fits(n, read64(data, 32), read16(data, 54), read16(data, 56), 56, 8)
    } else if data[4] == 1 {
        if data.len() < 52 {
            return true;
        }
        fits(n, read32(data, 28), read16(data, 42), read16(data, 44), 32, 4)
    } else {
        true
    }
}

/// The entry point and program headers that `xmas_elf` reads from the bytes
/// `data`, or `None` when it rejects them.
pub uninterp spec fn elf_parse(data: Seq<u8>) -> Option<(u64, Seq<ElfSegment>)>;

/// The padding that brings the address `addr` up to the next multiple of 8.
fn align_pad(addr: usize) -> (r: usize)
    ensures
        r < 8,
        (addr + r) % 8 == 0,
{
    (8 - addr % 8) % 8
}

/// Copies `data` into a buffer of its own, at an offset that makes its
/// first byte 8-aligned, parses it there with `xmas_elf::ElfFile::new` and
/// reads the header's `entry_point` and, through `program_iter`, each
/// program header's type, virtual address, sizes, offset and flags.
/// Trusted: the result is the named `elf_parse` of the bytes. `xmas_elf`
/// slices the second part of the file header and each program header out
/// of the bytes and reads them through `zero::read`, which asserts their
/// size and their alignment (at most 8 bytes): the copy starts on an 8-byte
/// boundary, and `requires` keeps out the bytes whose header table is too
/// short, misaligned or runs past the end.
#[verifier::external_body]
pub(crate) fn parse_elf(data: &[u8]) -> (r: Option<ElfImage>)
    requires
        elf_headers_fit_spec(data@),
    ensures
        match r {
            Some(img) => elf_parse(data@) == Some((img.entry, img.headers@)),
            None => elf_parse(data@) is None,
        },
{
    let mut buf = [data, &[0u8; 8]].concat();
    let pad = align_pad(buf.as_ptr() as usize);
    buf.rotate_right(pad);
    let elf = ElfFile::new(&buf[pad..][..data.len()]).ok()?;
    let mut headers = Vec::new();
    for ph in elf.program_iter() {
        let kind = match ph.get_type() {
            Ok(Type::Load) => ElfKind::Load,
            Ok(_) => ElfKind::Other,
            Err(_) => ElfKind::Invalid,
        };
        headers.push(ElfSegment { kind, vaddr: ph.virtual_addr(), mem_size: ph.mem_size(), offset: ph.offset(), file_size: ph.file_size(), flags: ph.flags().0 });
    }
    Some(ElfImage { entry: elf.header.pt2.entry_point(), headers })
}

/// The permission of a loaded segment: U, and R, W, X as its flags say.
pub open spec fn elf_perm(flags: u32) -> u8 {
    16u8 | (if flags & 4 == 4 { 2u8 } else { 0u8 }) | (if flags & 2 == 2 { 4u8 } else { 0u8 }) | (if flags & 1 == 1 {
        8u8
    } else {
        0u8
    })
}

/// The permission of a loaded segment: always U, and R, W, X when its
/// flags hold them.
pub fn elf_permission(flags: u32) -> (r: MapPermission)
    ensures
        r@ == elf_perm(flags),
        r.wf(),
        (r@ & 2 == 2) == (flags & 4 == 4),
        (r@ & 4 == 4) == (flags & 2 == 2),
        (r@ & 8 == 8) == (flags & 1 == 1),
        r@ & 16 == 16,
{
    proof {
        lemma_elf_perm_follows_flags(flags);
    }
    proof {
        crate::bits::lemma_u8_bits();
    }
    let mut perm = MapPermission::U();
    if flags & 4 == 4 {
        perm = perm.union(MapPermission::R());
    }
    if flags & 2 == 2 {
        perm = perm.union(MapPermission::W());
    }
    if flags & 1 == 1 {
        perm = perm.union(MapPermission::X());
    }
    let ghost a: u8 = if flags & 4 == 4 { 2u8 } else { 0u8 };
    let ghost b: u8 = if flags & 2 == 2 { 4u8 } else { 0u8 };
    let ghost c: u8 = if flags & 1 == 1 { 8u8 } else { 0u8 };
    assert((16u8 | a) | 0u8 == 16u8 | a);
    assert(((16u8 | a) | b) | 0u8 == (16u8 | a) | b);
    assert(perm@ == ((16u8 | a) | b) | c);
    perm
}

/// What a loaded segment may do follows its program header's flags bit by
/// bit: it is readable exactly when the flags hold `PF_R` (4), writable
/// exactly when they hold `PF_W` (2), executable exactly when they hold
/// `PF_X` (1); it is always user-accessible, and the permission holds no
/// other bit (in particular not the valid bit).
pub proof fn lemma_elf_perm_follows_flags(flags: u32)
    ensures
        (elf_perm(flags) & 2 == 2) == (flags & 4 == 4),
        (elf_perm(flags) & 4 == 4) == (flags & 2 == 2),
        (elf_perm(flags) & 8 == 8) == (flags & 1 == 1),
        elf_perm(flags) & 16 == 16,
        elf_perm(flags) & 0xe1 == 0,
{
    let r = flags & 4 == 4;
    let w = flags & 2 == 2;
    let x = flags & 1 == 1;
    let p = elf_perm(flags);
    assert(p == 16u8 | (if r { 2u8 } else { 0u8 }) | (if w { 4u8 } else { 0u8 }) | (if x { 8u8 } else { 0u8 }));
    assert((p & 2 == 2) == r && (p & 4 == 4) == w && (p & 8 == 8) == x && p & 16 == 16 && p & 0xe1 == 0) by (bit_vector)
        requires
            p == 16u8 | (if r { 2u8 } else { 0u8 }) | (if w { 4u8 } else { 0u8 }) | (if x { 8u8 } else { 0u8 }),
    ;
}

} // verus!
