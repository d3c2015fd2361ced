use kos::gpu::cursor_rgba;
use kos::gpu::cursor_image;
use kos::process::scheduler::{Scheduler, TaskId};
use kos::sync::KCondvar;
use kos::chardev::{NS16550a, NS16550aRaw};
use kos::clock::{get_time_ms, get_time_s, get_time_us, set_next_trigger, sys_get_time_of_day};
use kos::loader::{bytes_equal, gen_app_names_vec, AppTable, AppTableError};
use kos::logger::{enabled, log_level, Color, LogLevel};
use kos::sbi::{console_getchar, console_putchar, getchar_result, reboot, set_timer, shutdown, succeeded, SBIErrType, SBIRet, SbiCall};
use kos::trap::plic::{IntrTargetPriority, PLIC, VIRT_PLIC};
use kos::loader::AppSource;
use kos::sync::IntrMaskingInfo;
use kos::syscall::dispatch::{syscall, Syscall, SYSCALL_EXIT, SYSCALL_GETPID, SYSCALL_OPENAT, SYSCALL_WRITE};
use kos::util::human_size;

#[test]
fn app_names_from_nul_terminated_blob() {
    let blob = b"init\0shell\0hello\0";
    let names = gen_app_names_vec(3, blob).unwrap();
    assert_eq!(names, vec![b"init".to_vec(), b"shell".to_vec(), b"hello".to_vec()]);
    assert_eq!(gen_app_names_vec(0, blob).unwrap(), Vec::<Vec<u8>>::new());
    assert!(gen_app_names_vec(4, blob).is_none());
    assert!(gen_app_names_vec(1, b"abc").is_none());
    assert_eq!(gen_app_names_vec(1, b"\0").unwrap(), vec![Vec::<u8>::new()]);
}

#[test]
fn app_lookup_by_path() {
    let table = AppTable {
        names: vec![b"/bin/init".to_vec(), b"/bin/shell".to_vec(), b"/bin/init".to_vec()],
        bounds: vec![0x8040_0000, 0x8040_2000, 0x8040_2800, 0x8040_3000],
    };
    assert_eq!(table.get_num_app(), 3);
    assert_eq!(table.get_app_data_by_id(1), (0x8040_2000, 0x800));
    // the first of two equal names wins
    assert_eq!(table.get_app_data_by_path(b"/bin/init"), Some((0x8040_0000, 0x2000)));
    assert_eq!(table.get_app_data_by_path(b"/bin/sh"), None);
    assert_eq!(table.load_inner_app(b"/bin", b"shell"), Some((0x8040_2000, 0x800)));
    assert_eq!(table.load_inner_app(b"/usr", b"shell"), None);
    assert!(bytes_equal(b"ab", b"ab"));
    assert!(!bytes_equal(b"ab", b"abc"));
}

#[test]
fn interrupt_masking_nests() {
    let mut m = IntrMaskingInfo::new();
    m.enter(true);
    m.enter(false);
    assert!(!m.exit());
    assert!(m.exit());
    assert_eq!(m.nested_level, 0);
    m.enter(false);
    assert!(!m.exit());
}

#[test]
fn serial_port() {
    let raw = NS16550aRaw::new(0x1000_0000);
    assert_eq!(raw.base_addr, 0x1000_0000);
    let mut port: NS16550a<0x1000_0000> = NS16550a::new();
    assert_eq!(port.ns16550a.base_addr, 0x1000_0000);
    assert!(port.read_buffer_is_empty());
    port.read_buffer.push_back(b'a');
    assert!(!port.read_buffer_is_empty());
}

#[test]
fn clock_units() {
    assert_eq!(get_time_us(12_345), 1_234);
    assert_eq!(get_time_ms(12_345_678), 1_234);
    assert_eq!(get_time_s(25_000_000), 2);
    assert_eq!(set_next_trigger(5), 100_005);
    assert_eq!(sys_get_time_of_day(30_000), 3);
}

#[test]
fn sbi_codes() {
    assert_eq!(SBIErrType::SBI_ERR_DENIED.code(), -4);
    assert_eq!(SBIErrType::from_code(-9), Some(SBIErrType::SBI_ERR_NO_SHMEM));
    assert_eq!(SBIErrType::from_code(0), Some(SBIErrType::SBI_SUCCESS));
    assert_eq!(SBIErrType::from_code(1), None);
    assert_eq!(SBIErrType::from_code(-10), None);
    assert_eq!(getchar_result(65), 65);
}

#[test]
fn log_levels() {
    assert_eq!(LogLevel::ERROR.value(), 50);
    assert_eq!(LogLevel::TRACE.value(), 10);
    assert_eq!(LogLevel::WARN.color(), Color::Yellow);
    assert_eq!(LogLevel::INFO.color().code(), 35);
    assert_eq!(Color::Blue.code(), 94);
    assert!(enabled(LogLevel::ERROR, LogLevel::INFO));
    assert!(!enabled(LogLevel::DEBUG, LogLevel::INFO));
    assert_eq!(log_level(), LogLevel::DEBUG);
}

#[test]
fn human_sizes() {
    assert_eq!(human_size(0), "0 B");
    assert_eq!(human_size(1023), "1023 B");
    assert_eq!(human_size(1024), "1 KB");
    assert_eq!(human_size(1536), "1 KB");
    assert_eq!(human_size(5 * 1024 * 1024 + 7), "5 MB");
    assert_eq!(human_size(3 * 1024 * 1024 * 1024), "3 GB");
}

#[test]
fn syscall_decoding() {
    assert_eq!(syscall(SYSCALL_WRITE, [1, 0x1000, 5]), Some(Syscall::Write { fd: 1, buf: 0x1000, len: 5 }));
    assert_eq!(syscall(SYSCALL_EXIT, [usize::MAX, 0, 0]), Some(Syscall::Exit { code: -1 }));
    assert_eq!(syscall(SYSCALL_GETPID, [0, 0, 0]), Some(Syscall::GetPid));
    assert_eq!(syscall(9999, [0, 0, 0]), None);
    assert_eq!(syscall(SYSCALL_OPENAT, [0x2000, 0x241, 0o644]), Some(Syscall::OpenAt { path: 0x2000, flags: 0x241, mode: 0o644 }));
}

#[test]
fn cursor_pixels_get_alpha() {
    assert_eq!(cursor_rgba(&[255, 255, 255, 1, 2, 3]), vec![255, 255, 255, 0, 1, 2, 3, 0xff]);
    assert_eq!(cursor_rgba(&[9, 9]), vec![9, 9, 0xff]);
    assert_eq!(cursor_rgba(&[]), Vec::<u8>::new());
}

/// A 24-bit BMP of 2 x 1 pixels: white, then (1, 2, 3); rows padded to 4 bytes.
fn tiny_bmp() -> Vec<u8> {
    let mut v = Vec::new();
    v.extend_from_slice(b"BM");
    v.extend_from_slice(&62u32.to_le_bytes());
    v.extend_from_slice(&0u32.to_le_bytes());
    v.extend_from_slice(&54u32.to_le_bytes());
    v.extend_from_slice(&40u32.to_le_bytes());
    v.extend_from_slice(&2i32.to_le_bytes());
    v.extend_from_slice(&1i32.to_le_bytes());
    v.extend_from_slice(&1u16.to_le_bytes());
    v.extend_from_slice(&24u16.to_le_bytes());
    v.extend_from_slice(&0u32.to_le_bytes());
    v.extend_from_slice(&8u32.to_le_bytes());
    v.extend_from_slice(&2835u32.to_le_bytes());
    v.extend_from_slice(&2835u32.to_le_bytes());
    v.extend_from_slice(&0u32.to_le_bytes());
    v.extend_from_slice(&0u32.to_le_bytes());
    v.extend_from_slice(&[255, 255, 255, 1, 2, 3, 0, 0]);
    v
}

#[test]
fn cursor_from_bmp_file() {
    let img = cursor_image(&tiny_bmp()).unwrap();
    assert_eq!(img, vec![255, 255, 255, 0, 1, 2, 3, 0xff, 0, 0, 0xff]);
    assert!(cursor_image(b"not a bitmap").is_none());
}

#[test]
fn condvar_wakes_in_order() {
    let mut cv = KCondvar::new();
    let mut s = Scheduler::new();
    cv.signal(&mut s);
    assert_eq!(s.count(), 0);
    cv.wait_no_sched(TaskId { pid: 1, tid: 0 });
    cv.wait_no_sched(TaskId { pid: 2, tid: 3 });
    cv.signal(&mut s);
    assert_eq!(s.fetch(), Some(TaskId { pid: 1, tid: 0 }));
    cv.signal(&mut s);
    assert_eq!(s.fetch(), Some(TaskId { pid: 2, tid: 3 }));
}

#[test]
fn sbi_requests_name_their_extension() {
    assert_eq!(set_timer(12345), SbiCall { eid: 0, fid: 0, arg0: 12345, arg1: 0, arg2: 0 });
    assert_eq!(console_putchar(65), SbiCall { eid: 1, fid: 0, arg0: 65, arg1: 0, arg2: 0 });
    assert_eq!(console_getchar(), SbiCall { eid: 2, fid: 0, arg0: 0, arg1: 0, arg2: 0 });
    assert_eq!(shutdown(), SbiCall { eid: 0x53525354, fid: 0, arg0: 0, arg1: 0, arg2: 0 });
    assert_eq!(reboot(), SbiCall { eid: 0x53525354, fid: 1, arg0: 0, arg1: 0, arg2: 0 });
    assert!(succeeded(SBIRet { error: 0, value: 7 }));
    assert!(!succeeded(SBIRet { error: -2, value: 0 }));
    assert!(!succeeded(SBIRet { error: 3, value: 0 }));
}

#[test]
fn plic_levels() {
    let _plic = PLIC::new(VIRT_PLIC);
    assert_eq!(VIRT_PLIC, 0xC00_0000);
    assert_eq!(IntrTargetPriority::Machine.id(), 0);
    assert_eq!(IntrTargetPriority::Supervisor.id(), 1);
}

#[test]
fn apps_load_from_the_image_then_from_files() {
    let table = AppTable {
        names: vec![b"/bin/init".to_vec(), b"/bin/shell".to_vec()],
        bounds: vec![0x8040_0000, 0x8040_2000, 0x8040_2800],
    };
    match table.load_app(b"/bin", b"shell", b"/home") {
        AppSource::Inner(start, len) => assert_eq!((start, len), (0x8040_2000, 0x800)),
        AppSource::File(_) => panic!("expected a built-in application"),
    }
    match table.load_app(b"/bin", b"/usr/hello", b"/home") {
        AppSource::File(p) => assert_eq!(p, b"/usr/hello".to_vec()),
        AppSource::Inner(..) => panic!("expected a file"),
    }
    match table.load_app(b"/bin", b"hello", b"/home") {
        AppSource::File(p) => assert_eq!(p, b"/home/hello".to_vec()),
        AppSource::Inner(..) => panic!("expected a file"),
    }
}

#[test]
fn app_table_from_linked_data() {
    let blob = b"init\0shell\0";
    let t = match AppTable::from_linked(vec![0x8040_0000, 0x8040_2000, 0x8040_3000], blob) {
        Ok(t) => t,
        Err(_) => panic!("two applications are linked"),
    };
    assert_eq!(t.get_num_app(), 2);
    assert_eq!(t.names, vec![b"init".to_vec(), b"shell".to_vec()]);
    assert_eq!(t.get_app_data_by_id(1), (0x8040_2000, 0x1000));
    assert!(matches!(AppTable::from_linked(vec![0x8040_0000], blob), Err(AppTableError::NoApp)));
    assert!(matches!(AppTable::from_linked(vec![], blob), Err(AppTableError::NoApp)));
    assert!(matches!(
        AppTable::from_linked(vec![0x8040_0000, 0x8040_2000, 0x8040_3000], b"init\0shell"),
        Err(AppTableError::NamesCutShort)
    ));
    assert!(matches!(
        AppTable::from_linked(vec![0x8040_3000, 0x8040_2000, 0x8040_4000], blob),
        Err(AppTableError::Unordered)
    ));
}
