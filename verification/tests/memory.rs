use kos::config::{PAGE_SIZE, USER_STACK_SIZE};
use kos::memory::address::{PhysAddr, PhysPageNum, SimpleRange, VirtAddr, VirtPageNum};
use kos::memory::flags::{MapPermission, PTEFlags};
use kos::memory::frame::{frame_alloc, frame_alloc_n, init_frame_allocator, PhysMem, StackFrameAllocator};
use kos::memory::page_table::{translated_byte_buffer, BufferPiece, PageTable, PageTableEntry};

fn allocator_with(l: u64, r: u64) -> StackFrameAllocator {
    let mut a = StackFrameAllocator::new();
    a.init(PhysPageNum(l), PhysPageNum(r));
    a
}

#[test]
fn virt_addr_pages() {
    let va = VirtAddr(0x1234);
    assert_eq!(va.floor().0, 1);
    assert_eq!(va.ceil().0, 2);
    assert_eq!(va.page_offset(), 0x234);
    assert!(!va.aligned());
    let aligned = VirtAddr(0x2000);
    assert!(aligned.aligned());
    assert_eq!(aligned.to_page_num().0, 2);
    assert_eq!(aligned.ceil().0, 2);
}

#[test]
fn virt_addr_from_keeps_39_bits() {
    let va = VirtAddr::from(0xffff_ffff_ffff_f000u64);
    assert_eq!(va.0, 0x7f_ffff_f000);
    assert_eq!(va.floor().0, 0x7ff_ffff);
}

#[test]
fn phys_addr_pages() {
    let pa = PhysAddr(0x8000_0fff);
    assert_eq!(pa.floor().0, 0x80000);
    assert_eq!(pa.ceil().0, 0x80001);
    assert_eq!(pa.page_offset(), 0xfff);
    assert!(!pa.aligned());
    assert_eq!(PhysAddr(0x8000_1000).to_page_num().0, 0x80001);
}

#[test]
fn vpn_indexes_top_level_first() {
    assert_eq!(VirtPageNum(0x12345).indexes(), [0, 145, 325]);
    assert_eq!(VirtPageNum(0x7ff_ffff).indexes(), [511, 511, 511]);
    assert_eq!(VirtPageNum::empty().0, 0);
}

#[test]
fn vpn_arithmetic() {
    let a = VirtPageNum(10);
    assert_eq!(a.add_pages(VirtPageNum(5)).0, 15);
    assert_eq!(VirtPageNum(15).pages_since(a), 5);
    assert_eq!(PhysPageNum(7).add_pages(3).0, 10);
}

#[test]
fn simple_range_iterates_in_order() {
    let mut r = SimpleRange::new(VirtPageNum(3), VirtPageNum(6));
    assert_eq!(r.get_start().0, 3);
    assert_eq!(r.get_end().0, 6);
    assert!(r.contains_value(5));
    assert!(!r.contains_value(6));
    let mut it = r.iter();
    assert_eq!(it.next().map(|v| v.0), Some(3));
    assert_eq!(it.next().map(|v| v.0), Some(4));
    assert_eq!(it.next().map(|v| v.0), Some(5));
    assert!(it.next().is_none());
    r.set_end(VirtPageNum(8));
    assert_eq!(r.get_end().0, 8);
}

#[test]
fn frame_allocator_hands_back_recycled_first() {
    let mut a = allocator_with(10, 13);
    assert_eq!(a.free_frames(), 3);
    assert_eq!(a.allocate().map(|p| p.0), Some(10));
    assert_eq!(a.allocate().map(|p| p.0), Some(11));
    a.dealloc(PhysPageNum(10));
    assert_eq!(a.free_frames(), 2);
    assert_eq!(a.allocate().map(|p| p.0), Some(10));
    assert_eq!(a.allocate().map(|p| p.0), Some(12));
    assert!(a.allocate().is_none());
    assert!(!a.has_free());
}

#[test]
fn frame_allocator_contiguous_run() {
    let mut a = allocator_with(0x100, 0x110);
    let v = a.allocate_n(3).unwrap();
    let got: Vec<u64> = v.iter().map(|p| p.0).collect();
    assert_eq!(got, vec![0x102, 0x101, 0x100]);
    assert!(a.allocate_n(13).is_none());
    assert_eq!(a.allocate_n(12).unwrap().len(), 12);
}

#[test]
fn init_frame_allocator_uses_page_numbers() {
    let mut a = StackFrameAllocator::new();
    init_frame_allocator(&mut a, 0x8000_0000, 0x8000_3000);
    assert_eq!(a.free_frames(), 3);
    assert_eq!(a.allocate().map(|p| p.0), Some(0x80000));
}

#[test]
fn frames_are_cleared_when_taken() {
    let mut a = allocator_with(5, 8);
    let mut mem = PhysMem::new();
    mem.write_page(5, &[1, 2, 3]);
    let f = frame_alloc(&mut a, &mut mem).unwrap();
    assert_eq!(f.ppn.0, 5);
    assert_eq!(mem.read_word(5, 0), Some(0));
    let fs = frame_alloc_n(&mut a, &mut mem, 1).unwrap();
    assert_eq!(fs[0].ppn.0, 6);
    assert!(mem.has_frame(6));
}

#[test]
fn write_page_packs_little_endian_words() {
    let mut mem = PhysMem::new();
    mem.write_page(5, &[1, 2, 3, 4, 5, 6, 7, 8, 9]);
    assert_eq!(mem.read_word(5, 0), Some(0x0807_0605_0403_0201));
    assert_eq!(mem.read_word(5, 1), Some(9));
    assert_eq!(mem.read_word(5, 511), Some(0));
    assert_eq!(mem.read_word(5, 512), None);
    assert_eq!(mem.read_word(6, 0), None);
    mem.write_word(5, 2, 77);
    assert_eq!(mem.read_word(5, 2), Some(77));
}

#[test]
fn pte_fields() {
    let flags = PTEFlags::R().union(PTEFlags::W()).union(PTEFlags::V());
    let e = PageTableEntry::new(PhysPageNum(0x80123), flags);
    assert_eq!(e.bits, (0x80123 << 10) | 0x7);
    assert_eq!(e.ppn().0, 0x80123);
    assert!(e.valid() && e.readable() && e.writable() && !e.executable());
    assert_eq!(e.flags().bits(), 0x7);
    assert!(!PageTableEntry::empty().valid());
}

#[test]
fn page_table_map_translate_unmap() {
    let mut a = allocator_with(0x100, 0x110);
    let mut mem = PhysMem::new();
    let mut pt = PageTable::new(&mut mem, &mut a);
    assert_eq!(pt.token() & 0xfff_ffff_ffff, 0x100);
    assert_eq!(pt.token() >> 60, 8);
    assert!(pt.translate(&mem, VirtPageNum(0x12345)).is_none());
    let flags = PTEFlags::R().union(PTEFlags::X());
    pt.map(&mut mem, &mut a, VirtPageNum(0x12345), PhysPageNum(0x80000), flags);
    // the root took one frame, the two lower tables two more
    assert_eq!(a.free_frames(), 13);
    let e = pt.translate(&mem, VirtPageNum(0x12345)).unwrap();
    assert_eq!(e.ppn().0, 0x80000);
    assert!(e.valid() && e.readable() && e.executable() && !e.writable());
    // a neighbour in the same last-level table takes no new table
    pt.map(&mut mem, &mut a, VirtPageNum(0x12346), PhysPageNum(0x80001), flags);
    assert_eq!(a.free_frames(), 13);
    pt.unmap(&mut mem, VirtPageNum(0x12345));
    assert!(!pt.translate(&mem, VirtPageNum(0x12345)).unwrap().valid());
    assert_eq!(pt.translate(&mem, VirtPageNum(0x12346)).unwrap().ppn().0, 0x80001);
    let reader = PageTable::from_token(pt.token());
    assert_eq!(reader.translate(&mem, VirtPageNum(0x12346)).unwrap().ppn().0, 0x80001);
}

#[test]
fn user_buffer_split_at_page_boundaries() {
    let mut a = allocator_with(0x100, 0x110);
    let mut mem = PhysMem::new();
    let mut pt = PageTable::new(&mut mem, &mut a);
    let rw = PTEFlags::R().union(PTEFlags::W()).union(PTEFlags::U());
    pt.map(&mut mem, &mut a, VirtPageNum(0x10), PhysPageNum(0x200), rw);
    pt.map(&mut mem, &mut a, VirtPageNum(0x11), PhysPageNum(0x300), rw);
    let token = pt.token();
    // 0x10ff0 .. 0x11010 crosses one page boundary
    let pieces = translated_byte_buffer(&mem, token, 0x10ff0, 0x20);
    assert_eq!(
        pieces,
        vec![
            BufferPiece { ppn: PhysPageNum(0x200), start: 0xff0, end: 0x1000 },
            BufferPiece { ppn: PhysPageNum(0x300), start: 0, end: 0x10 },
        ]
    );
    // inside one page
    let one = translated_byte_buffer(&mem, token, 0x11004, 8);
    assert_eq!(one, vec![BufferPiece { ppn: PhysPageNum(0x300), start: 4, end: 12 }]);
    // ending exactly at a page end
    let to_end = translated_byte_buffer(&mem, token, 0x10f00, 0x100);
    assert_eq!(to_end, vec![BufferPiece { ppn: PhysPageNum(0x200), start: 0xf00, end: 0x1000 }]);
    assert!(translated_byte_buffer(&mem, token, 0x10000, 0).is_empty());
}

#[test]
fn map_permission_bits() {
    let rwu = MapPermission::R().union(MapPermission::W()).union(MapPermission::U());
    assert_eq!(rwu.bits(), 22);
    assert!(rwu.contains(MapPermission::W()));
    assert!(!rwu.contains(MapPermission::X()));
    assert!(MapPermission::from_bits(1).is_none());
    assert_eq!(rwu.to_pte_flags().bits(), 22);
    let mut p = rwu;
    p.remove(MapPermission::W());
    assert_eq!(p.bits(), 18);
    assert_eq!(PAGE_SIZE, 4096);
    assert_eq!(USER_STACK_SIZE, 8192);
}

#[test]
fn a_range_hands_out_its_pages_in_order() {
    let r = SimpleRange::new(VirtPageNum(3), VirtPageNum(6));
    let pages: Vec<u64> = r.pages().iter().map(|p| p.0).collect();
    assert_eq!(pages, vec![3, 4, 5]);
    assert!(SimpleRange::new(VirtPageNum(7), VirtPageNum(7)).pages().is_empty());
}
