use kos::memory::frame::FrameRefs;
use kos::trap::handler::{trap_action, TrapAction, TrapCause};
use kos::memory::address::{PhysPageNum, VirtPageNum};
use kos::memory::address_space::{kernel_layout_ok, remap_test, AddressSpace};
use kos::process::exec::exec_process;
use kos::process::table::ProcessTable;
use kos::process::fdtable::FdTable;
use kos::fs::file::FileHandle;
use kos::memory::frame::{PhysMem, StackFrameAllocator};
use kos::memory::kernel_view::KernelView;
use kos::process::exec::exec_image;
use kos::syscall::syserr::{ENOENT, ENOEXEC};
use kos::process::pid::Pid;
use kos::process::stack::KernelStack;
use kos::memory::elf::elf_headers_fit;
use kos::syscall::process::sys_sbrk;

fn allocator_with(l: u64, r: u64) -> StackFrameAllocator {
    let mut a = StackFrameAllocator::new();
    a.init(PhysPageNum(l), PhysPageNum(r));
    a
}

fn put_u16(v: &mut Vec<u8>, x: u16) {
    v.extend_from_slice(&x.to_le_bytes());
}
fn put_u32(v: &mut Vec<u8>, x: u32) {
    v.extend_from_slice(&x.to_le_bytes());
}
fn put_u64(v: &mut Vec<u8>, x: u64) {
    v.extend_from_slice(&x.to_le_bytes());
}

/// A 64-bit RISC-V executable of 120 bytes: the header and one `PT_LOAD`
/// header (readable, executable) that loads the whole file at 0x10000.
fn tiny_elf() -> Vec<u8> {
    let mut v = vec![0x7f, b'E', b'L', b'F', 2, 1, 1, 0, 0, 0, 0, 0, 0, 0, 0, 0];
    put_u16(&mut v, 2); // executable
    put_u16(&mut v, 0xf3); // RISC-V
    put_u32(&mut v, 1);
    put_u64(&mut v, 0x10000); // entry
    put_u64(&mut v, 64); // program headers right after the header
    put_u64(&mut v, 0);
    put_u32(&mut v, 0);
    put_u16(&mut v, 64);
    put_u16(&mut v, 56);
    put_u16(&mut v, 1);
    put_u16(&mut v, 64);
    put_u16(&mut v, 0);
    put_u16(&mut v, 0);
    put_u32(&mut v, 1); // PT_LOAD
    put_u32(&mut v, 5); // R | X
    put_u64(&mut v, 0); // offset
    put_u64(&mut v, 0x10000); // vaddr
    put_u64(&mut v, 0x10000); // paddr
    put_u64(&mut v, 120); // file size
    put_u64(&mut v, 120); // memory size
    put_u64(&mut v, 0x1000);
    assert_eq!(v.len(), 120);
    v
}

#[test]
fn from_elf_maps_the_image_and_the_stack() {
    let data = tiny_elf();
    let mut a = allocator_with(0x100, 0x140);
    let mut mem = PhysMem::new();
    let (space, stack_top, entry) = AddressSpace::from_elf(&data, 0x8020_1000, &mut mem, &mut a).unwrap();
    assert_eq!(entry, 0x10000);
    // the stack lies above a guard page after the loaded page 0x10
    assert_eq!(stack_top, 0x14000);
    let e = space.translate_vpn(&mem, VirtPageNum(0x10)).unwrap();
    assert!(e.valid() && e.readable() && e.executable() && !e.writable());
    // the first word of the loaded page holds the first eight file bytes
    assert_eq!(mem.read_word(e.ppn().0, 0), Some(u64::from_le_bytes([0x7f, b'E', b'L', b'F', 2, 1, 1, 0])));
    // the top page of the stack is mapped at once, the one below it is not yet
    let top = space.translate_vpn(&mem, VirtPageNum(0x13)).unwrap();
    assert!(top.valid() && top.writable());
    assert!(space.translate_vpn(&mem, VirtPageNum(0x12)).map_or(true, |e| !e.valid()));
    // the trampoline
    let t = space.translate_vpn(&mem, VirtPageNum(0x7ff_ffff)).unwrap();
    assert_eq!(t.ppn().0, 0x80201);
    assert_eq!(space.token() >> 60, 8);
}

#[test]
fn from_elf_refuses_garbage() {
    let mut a = allocator_with(0x100, 0x140);
    let mut mem = PhysMem::new();
    let before = a.free_frames();
    assert!(AddressSpace::from_elf(&[0u8; 64], 0x8020_1000, &mut mem, &mut a).is_none());
    assert_eq!(a.free_frames(), before);
}

#[test]
fn sbrk_grows_the_heap_by_whole_pages() {
    let data = tiny_elf();
    let mut a = allocator_with(0x100, 0x140);
    let mut mem = PhysMem::new();
    let (mut space, _, _) = AddressSpace::from_elf(&data, 0x8020_1000, &mut mem, &mut a).unwrap();
    assert_eq!(space.sbrk(&mem, &a, 0), 0x15000);
    assert_eq!(space.sbrk(&mem, &a, 1), 0x16000);
    assert_eq!(space.sbrk(&mem, &a, 8192), 0x18000);
    assert_eq!(space.sbrk(&mem, &a, 0), 0x18000);
    // the heap pages are mapped when first touched
    assert!(space.is_page_fault(0x16000, kos::memory::flags::MapPermission::W()));
    space.fix_page_missing(0x16000, &mut mem, &mut a);
    assert!(space.translate_vpn(&mem, VirtPageNum(0x16)).unwrap().valid());
}

#[test]
fn thread_resources_take_a_stack_and_a_trap_page() {
    let data = tiny_elf();
    let mut a = allocator_with(0x100, 0x140);
    let mut mem = PhysMem::new();
    let (mut space, _, _) = AddressSpace::from_elf(&data, 0x8020_1000, &mut mem, &mut a).unwrap();
    space.alloc_uresource(0x10_0000, 1, &mut mem, &mut a);
    // the trap context page of thread 1 is the page below thread 0's
    let tp = space.translate_vpn(&mem, VirtPageNum(0x7ff_fffd)).unwrap();
    assert!(tp.valid() && tp.writable() && !tp.executable());
    // its stack, two pages at 0x10_0000 + 4096 + 8192, is mapped lazily
    assert!(space.translate_vpn(&mem, VirtPageNum(0x103)).map_or(true, |e| !e.valid()));
    space.fix_page_missing(0x10_3000, &mut mem, &mut a);
    assert!(space.translate_vpn(&mem, VirtPageNum(0x103)).unwrap().valid());
}

fn kernel_view() -> KernelView {
    KernelView {
        kernel_start: 0x8020_0000,
        stext: 0x8020_0000,
        strampoline: 0x8020_1000,
        etext: 0x8020_3000,
        srodata: 0x8020_3000,
        erodata: 0x8020_5000,
        sdata: 0x8020_5000,
        edata: 0x8020_6000,
        sbss_with_stack: 0x8020_6000,
        sbss: 0x8020_8000,
        ebss: 0x8021_0000,
        kernel_end: 0x8021_0000,
    }
}

#[test]
fn kernel_space_permissions() {
    let view = kernel_view();
    let mut a = allocator_with(0x9_0000, 0x9_1000);
    let mut mem = PhysMem::new();
    let space = AddressSpace::new_kernel(&view, &mut mem, &mut a);
    assert!(remap_test(&space, &mem, &view));
    // a user space maps none of the kernel sections: the check fails
    let data = tiny_elf();
    let mut b = allocator_with(0x100, 0x140);
    let (user, _, _) = AddressSpace::from_elf(&data, 0x8020_1000, &mut mem, &mut b).unwrap();
    assert!(!remap_test(&user, &mem, &view));
    // identity: a data page maps to itself
    let d = space.translate_vpn(&mem, VirtPageNum(0x80205)).unwrap();
    assert_eq!(d.ppn().0, 0x80205);
    // the UART registers are mapped readable and writable
    let u = space.translate_vpn(&mem, VirtPageNum(0x10000)).unwrap();
    assert!(u.valid() && u.readable() && u.writable());
}

#[test]
fn exec_image_errors() {
    let mut a = allocator_with(0x100, 0x140);
    let mut mem = PhysMem::new();
    assert_eq!(exec_image(None, 0x8020_1000, &mut mem, &mut a, 0, 0, 0, 0).err(), Some(ENOENT));
    let garbage = [1u8; 80];
    assert_eq!(exec_image(Some(&garbage), 0x8020_1000, &mut mem, &mut a, 0, 0, 0, 0).err(), Some(ENOEXEC));
}

#[test]
fn exec_image_enters_at_the_entry_point() {
    let data = tiny_elf();
    let mut a = allocator_with(0x100, 0x140);
    let mut mem = PhysMem::new();
    let (space, ctx) = match exec_image(Some(&data), 0x8020_1000, &mut mem, &mut a, 0x8000_0000_0008_0000, 0x5000, 0x6000, 0x20)
    {
        Ok(x) => x,
        Err(_) => panic!("the image should load"),
    };
    assert_eq!(ctx.sepc, 0x10000);
    assert_eq!(ctx.x[2], 0x14000);
    assert_eq!(ctx.x[10], 0);
    assert_eq!(ctx.kernel_satp, 0x8000_0000_0008_0000);
    assert_eq!(ctx.kernel_sp, 0x5000);
    assert_eq!(ctx.trap_handler, 0x6000);
    assert_eq!(ctx.sstatus, 0x20);
    assert!(space.translate_vpn(&mem, VirtPageNum(0x10)).unwrap().valid());
}

#[test]
fn trap_decisions() {
    let data = tiny_elf();
    let mut a = allocator_with(0x100, 0x140);
    let mut mem = PhysMem::new();
    let (space, _, _) = AddressSpace::from_elf(&data, 0x8020_1000, &mut mem, &mut a).unwrap();
    assert_eq!(trap_action(TrapCause::UserEnvCall, &space, &mem, 0), TrapAction::Syscall);
    assert_eq!(trap_action(TrapCause::SupervisorTimer, &space, &mem, 0), TrapAction::Yield);
    let segv = match trap_action(TrapCause::LoadFault, &space, &mem, 0) {
        TrapAction::Signal(f) => f.bits(),
        _ => 0,
    };
    assert_eq!(segv, 1 << 11);
    let ill = match trap_action(TrapCause::IllegalInstruction, &space, &mem, 0) {
        TrapAction::Signal(f) => f.bits(),
        _ => 0,
    };
    assert_eq!(ill, 1 << 4);
    // the lower stack page is writable and not mapped yet
    assert_eq!(trap_action(TrapCause::StorePageFault, &space, &mem, 0x12008), TrapAction::FixPageMissing);
    assert_eq!(trap_action(TrapCause::LoadPageFault, &space, &mem, 0x12008), TrapAction::FixPageMissing);
    // the code page is mapped read-only in a segment that is not writable
    assert!(matches!(trap_action(TrapCause::StorePageFault, &space, &mem, 0x10000), TrapAction::Signal(_)));
    // nothing lies at 0x40000
    assert!(matches!(trap_action(TrapCause::LoadPageFault, &space, &mem, 0x40000), TrapAction::Signal(_)));
}

#[test]
fn fork_shares_frames_and_copies_on_write() {
    let data = tiny_elf();
    let mut a = allocator_with(0x100, 0x180);
    let mut mem = PhysMem::new();
    let (mut parent, _, _) = AddressSpace::from_elf(&data, 0x8020_1000, &mut mem, &mut a).unwrap();
    let mut refs = FrameRefs::new();
    // the parent writes into its stack top page before the fork
    let top = parent.translate_vpn(&mem, VirtPageNum(0x13)).unwrap().ppn().0;
    mem.write_word(top, 0, 42);
    let mut child = AddressSpace::from_fork(&mut parent, 0x8020_1000, &mut mem, &mut a, &mut refs);
    // both map the stack top page to the same frame, without W
    let pe = parent.translate_vpn(&mem, VirtPageNum(0x13)).unwrap();
    let ce = child.translate_vpn(&mem, VirtPageNum(0x13)).unwrap();
    assert_eq!(pe.ppn().0, top);
    assert_eq!(ce.ppn().0, top);
    assert!(pe.valid() && !pe.writable() && ce.valid() && !ce.writable());
    assert_eq!(refs.count(top), 2);
    // the code page is shared as it was: readable and executable
    let code = child.translate_vpn(&mem, VirtPageNum(0x10)).unwrap();
    assert_eq!(code.ppn().0, parent.translate_vpn(&mem, VirtPageNum(0x10)).unwrap().ppn().0);
    assert!(code.executable() && !code.writable());
    // the trap context page is the child's own copy
    let pt = parent.translate_vpn(&mem, VirtPageNum(0x7ff_fffe)).unwrap().ppn().0;
    let ct = child.translate_vpn(&mem, VirtPageNum(0x7ff_fffe)).unwrap().ppn().0;
    assert_ne!(pt, ct);
    // a store into the shared page is copy-on-write
    assert_eq!(trap_action(TrapCause::StorePageFault, &child, &mem, 0x13008), TrapAction::FixCow);
    child.fix_cow(0x13008, &mut mem, &mut a, &mut refs);
    let ce2 = child.translate_vpn(&mem, VirtPageNum(0x13)).unwrap();
    assert!(ce2.writable());
    assert_ne!(ce2.ppn().0, top);
    assert_eq!(mem.read_word(ce2.ppn().0, 0), Some(42));
    assert_eq!(refs.count(top), 1);
    // the parent is now the only holder: its page becomes writable in place
    parent.fix_cow(0x13000, &mut mem, &mut a, &mut refs);
    let pe2 = parent.translate_vpn(&mem, VirtPageNum(0x13)).unwrap();
    assert!(pe2.writable());
    assert_eq!(pe2.ppn().0, top);
    assert_eq!(refs.count(top), 1);
}

#[test]
fn releasing_a_segment_unmaps_it_and_frees_its_frames() {
    let data = tiny_elf();
    let mut a = allocator_with(0x100, 0x140);
    let mut mem = PhysMem::new();
    let mut refs = FrameRefs::new();
    let (mut space, _, _) = AddressSpace::from_elf(&data, 0x8020_1000, &mut mem, &mut a).unwrap();
    space.alloc_uresource(0x10_0000, 1, &mut mem, &mut a);
    let frame = space.translate_vpn(&mem, VirtPageNum(0x7ff_fffd)).unwrap().ppn().0;
    let free = a.free_frames();
    assert_eq!(space.find_segment_starting(0x7ff_fffd), Some(5));
    space.release_kernel_stack_segment(VirtPageNum(0x7ff_fffd), &mut mem, &mut a, &mut refs);
    assert!(!space.translate_vpn(&mem, VirtPageNum(0x7ff_fffd)).unwrap().valid());
    assert_eq!(a.free_frames(), free + 1);
    assert_eq!(space.find_segment_starting(0x7ff_fffd), None);
    // the frame given back is the next one handed out
    assert_eq!(a.allocate().map(|p| p.0), Some(frame));
    // nothing starts at page 0x5000: nothing changes
    space.release_kernel_stack_segment(VirtPageNum(0x5000), &mut mem, &mut a, &mut refs);
}

#[test]
fn kernel_stacks_map_below_the_trampoline() {
    let view = kernel_view();
    let mut a = allocator_with(0x9_0000, 0x9_1000);
    let mut mem = PhysMem::new();
    let mut refs = FrameRefs::new();
    let mut space = AddressSpace::new_kernel(&view, &mut mem, &mut a);
    let free = a.free_frames();
    let stack = KernelStack::new(&Pid(1), &mut space, &mut mem, &mut a);
    assert_eq!(stack.get_top(), 0xffff_ffff_ffff_c000);
    // two pages below a guard page under the stack of process 0
    for vpn in [0x7ff_fffa, 0x7ff_fffb] {
        let e = space.translate_vpn(&mem, VirtPageNum(vpn)).unwrap();
        assert!(e.valid() && e.readable() && e.writable() && !e.executable());
    }
    assert!(space.translate_vpn(&mem, VirtPageNum(0x7ff_fffc)).map_or(true, |e| !e.valid()));
    assert!(a.free_frames() < free);
    let used = free - a.free_frames();
    stack.release(&mut space, &mut mem, &mut a, &mut refs);
    assert!(!space.translate_vpn(&mem, VirtPageNum(0x7ff_fffa)).unwrap().valid());
    // the two stack frames go back; tables made for them stay
    assert_eq!(a.free_frames(), free - used + 2);
}

#[test]
fn sys_sbrk_reports_the_new_heap_end() {
    let data = tiny_elf();
    let mut a = allocator_with(0x100, 0x140);
    let mut mem = PhysMem::new();
    let (mut space, _, _) = AddressSpace::from_elf(&data, 0x8020_1000, &mut mem, &mut a).unwrap();
    assert_eq!(sys_sbrk(&mut space, &mem, &a, 0), 0x15000);
    assert_eq!(sys_sbrk(&mut space, &mem, &a, 4097), 0x17000);
    // a heap that would reach the trampoline cannot grow: nothing changes
    assert_eq!(sys_sbrk(&mut space, &mem, &a, 1 << 40), -1);
    assert_eq!(sys_sbrk(&mut space, &mem, &a, 0), 0x17000);
}

#[test]
fn releasing_a_space_gives_its_frames_back() {
    let data = tiny_elf();
    let mut a = allocator_with(0x100, 0x180);
    let mut mem = PhysMem::new();
    let mut refs = FrameRefs::new();
    let free0 = a.free_frames();
    let (lone, _, _) = AddressSpace::from_elf(&data, 0x8020_1000, &mut mem, &mut a).unwrap();
    assert!(a.free_frames() < free0);
    lone.release_space(&mem, &mut a, &mut refs);
    assert_eq!(a.free_frames(), free0);

    // after a fork, the frames both spaces share stay with the other one
    let (mut parent, _, _) = AddressSpace::from_elf(&data, 0x8020_1000, &mut mem, &mut a).unwrap();
    let top = parent.translate_vpn(&mem, VirtPageNum(0x13)).unwrap().ppn().0;
    let child = AddressSpace::from_fork(&mut parent, 0x8020_1000, &mut mem, &mut a, &mut refs);
    assert_eq!(refs.count(top), 2);
    let before = a.free_frames();
    child.release_space(&mem, &mut a, &mut refs);
    assert_eq!(refs.count(top), 1);
    assert!(a.free_frames() > before);
    assert_eq!(parent.translate_vpn(&mem, VirtPageNum(0x13)).unwrap().ppn().0, top);
}

#[test]
fn elf_header_tables_must_fit_the_bytes() {
    let data = tiny_elf();
    assert!(elf_headers_fit(&data));
    // the program header table runs past the end of the bytes
    assert!(!elf_headers_fit(&data[..100]));
    // entries shorter than a 64-bit program header
    let mut short = data.clone();
    short[54] = 40;
    assert!(!elf_headers_fit(&short));
    // a table that does not start 8-aligned
    let mut odd = data.clone();
    odd[32] = 60;
    assert!(!elf_headers_fit(&odd));
    // no magic number: refused before any program header is read
    assert!(elf_headers_fit(&[1u8; 80]));
    // no program header at all
    let mut none = data.clone();
    none[56] = 0;
    assert!(elf_headers_fit(&none));
}

#[test]
fn kernel_layout_checks() {
    let view = kernel_view();
    assert!(kernel_layout_ok(&view, 0x1000));
    assert!(!kernel_layout_ok(&view, 2));
    let mut overlapping = kernel_view();
    overlapping.erodata = 0x8020_6000;
    assert!(!kernel_layout_ok(&overlapping, 0x1000));
    let mut backwards = kernel_view();
    backwards.etext = 0x8010_0000;
    assert!(!kernel_layout_ok(&backwards, 0x1000));
}

#[test]
fn exec_process_names_the_program() {
    let mut table = ProcessTable::new();
    let fds = FdTable::with_stdio(FileHandle::stdin(), FileHandle::stdout(), FileHandle::stderr());
    let pid = table.add_first(fds, b"init".to_vec());
    let mut a = allocator_with(0x100, 0x140);
    let mut mem = PhysMem::new();
    let r = exec_process(&mut table, pid, b"nothing".to_vec(), None, 0x8020_1000, &mut mem, &mut a, 0, 0, 0, 0);
    assert_eq!(r.err(), Some(ENOENT));
    assert_eq!(table.get(pid).unwrap().cmd, b"init".to_vec());
    let garbage = [1u8; 80];
    let r = exec_process(&mut table, pid, b"garbage".to_vec(), Some(&garbage), 0x8020_1000, &mut mem, &mut a, 0, 0, 0, 0);
    assert_eq!(r.err(), Some(ENOEXEC));
    assert_eq!(table.get(pid).unwrap().cmd, b"init".to_vec());
    let data = tiny_elf();
    let r = exec_process(&mut table, pid, b"tiny".to_vec(), Some(&data), 0x8020_1000, &mut mem, &mut a, 0, 0x5000, 0, 0);
    let (space, ctx) = match r {
        Ok(x) => x,
        Err(_) => panic!("the image should load"),
    };
    assert_eq!(table.get(pid).unwrap().cmd, b"tiny".to_vec());
    assert_eq!(table.get(pid).unwrap().fds.len(), 3);
    assert_eq!(ctx.sepc, 0x10000);
    // the user stack's top page is mapped at once; the heap above it is empty
    assert!(space.translate_vpn(&mem, VirtPageNum(0x13)).unwrap().valid());
    assert!(space.translate_vpn(&mem, VirtPageNum(0x12)).map_or(true, |p| !p.valid()));
}

/// A 64-bit RISC-V executable with two `PT_LOAD` headers over the same
/// 176 file bytes: the first at `high`, the second (the last) at 0x10000.
fn two_load_elf(high: u64) -> Vec<u8> {
    let mut v = vec![0x7f, b'E', b'L', b'F', 2, 1, 1, 0, 0, 0, 0, 0, 0, 0, 0, 0];
    put_u16(&mut v, 2);
    put_u16(&mut v, 0xf3);
    put_u32(&mut v, 1);
    put_u64(&mut v, 0x10000);
    put_u64(&mut v, 64);
    put_u64(&mut v, 0);
    put_u32(&mut v, 0);
    put_u16(&mut v, 64);
    put_u16(&mut v, 56);
    put_u16(&mut v, 2);
    put_u16(&mut v, 64);
    put_u16(&mut v, 0);
    put_u16(&mut v, 0);
    for (vaddr, flags) in [(high, 4u32), (0x10000, 5u32)] {
        put_u32(&mut v, 1);
        put_u32(&mut v, flags);
        put_u64(&mut v, 0);
        put_u64(&mut v, vaddr);
        put_u64(&mut v, vaddr);
        put_u64(&mut v, 176);
        put_u64(&mut v, 176);
        put_u64(&mut v, 0x1000);
    }
    assert_eq!(v.len(), 176);
    v
}

#[test]
fn from_elf_takes_headers_in_any_order() {
    let data = two_load_elf(0x100000);
    assert!(elf_headers_fit(&data));
    let mut a = allocator_with(0x100, 0x140);
    let mut mem = PhysMem::new();
    let (space, stack_top, entry) = AddressSpace::from_elf(&data, 0x8020_1000, &mut mem, &mut a).unwrap();
    assert_eq!(entry, 0x10000);
    // the stack follows the last header, not the highest one
    assert_eq!(stack_top, 0x14000);
    let hi = space.translate_vpn(&mem, VirtPageNum(0x100)).unwrap();
    assert!(hi.valid() && hi.readable() && !hi.executable());
    // a header on the stack's pages is refused
    let clash = two_load_elf(0x12000);
    let mut b = allocator_with(0x200, 0x240);
    assert!(AddressSpace::from_elf(&clash, 0x8020_1000, &mut mem, &mut b).is_none());
}
