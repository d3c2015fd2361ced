//! Calls into the supervisor binary interface: which extension and
//! function a request names, its arguments, and the codes that come back.
use vstd::prelude::*;

verus! {

/// The error codes an SBI call returns.
#[allow(non_camel_case_types)]
#[derive(Copy, Clone, Debug, PartialEq, Eq, Structural)]
pub enum SBIErrType {
    SBI_SUCCESS,
    SBI_ERR_FAILED,
    SBI_ERR_NOT_SUPPORTED,
    SBI_ERR_INVALID_PARAM,
    SBI_ERR_DENIED,
    SBI_ERR_INVALID_ADDRESS,
    SBI_ERR_ALREADY_AVAILABLE,
    SBI_ERR_ALREADY_STARTED,
    SBI_ERR_ALREADY_STOPPED,
    SBI_ERR_NO_SHMEM,
}

/// The numeric code of each error: 0 for success, then -1 down to -9.
pub open spec fn sbi_err_code(e: SBIErrType) -> isize {
    match e {
        SBIErrType::SBI_SUCCESS => 0isize,
        SBIErrType::SBI_ERR_FAILED => -1isize,
        SBIErrType::SBI_ERR_NOT_SUPPORTED => -2isize,
        SBIErrType::SBI_ERR_INVALID_PARAM => -3isize,
        SBIErrType::SBI_ERR_DENIED => -4isize,
        SBIErrType::SBI_ERR_INVALID_ADDRESS => -5isize,
        SBIErrType::SBI_ERR_ALREADY_AVAILABLE => -6isize,
        SBIErrType::SBI_ERR_ALREADY_STARTED => -7isize,
        SBIErrType::SBI_ERR_ALREADY_STOPPED => -8isize,
        SBIErrType::SBI_ERR_NO_SHMEM => -9isize,
    }
}

impl SBIErrType {
    /// The numeric code.
    pub fn code(&self) -> (r: isize)
        ensures
            r == sbi_err_code(*self),
    {
        match self {
            SBIErrType::SBI_SUCCESS => 0,
            SBIErrType::SBI_ERR_FAILED => -1,
            SBIErrType::SBI_ERR_NOT_SUPPORTED => -2,
            SBIErrType::SBI_ERR_INVALID_PARAM => -3,
            SBIErrType::SBI_ERR_DENIED => -4,
            SBIErrType::SBI_ERR_INVALID_ADDRESS => -5,
            SBIErrType::SBI_ERR_ALREADY_AVAILABLE => -6,
            SBIErrType::SBI_ERR_ALREADY_STARTED => -7,
            SBIErrType::SBI_ERR_ALREADY_STOPPED => -8,
            SBIErrType::SBI_ERR_NO_SHMEM => -9,
        }
    }

    /// The error with code `value`; codes outside 0 to -9 name none.
    pub fn from_code(value: isize) -> (r: Option<SBIErrType>)
        ensures
            -9 <= value <= 0 ==> (r matches Some(e) && sbi_err_code(e) == value),
            !(-9 <= value <= 0) ==> r is None,
    {
        match value {
            0 => Some(SBIErrType::SBI_SUCCESS),
            -1 => Some(SBIErrType::SBI_ERR_FAILED),
            -2 => Some(SBIErrType::SBI_ERR_NOT_SUPPORTED),
            -3 => Some(SBIErrType::SBI_ERR_INVALID_PARAM),
            -4 => Some(SBIErrType::SBI_ERR_DENIED),
            -5 => Some(SBIErrType::SBI_ERR_INVALID_ADDRESS),
            -6 => Some(SBIErrType::SBI_ERR_ALREADY_AVAILABLE),
            -7 => Some(SBIErrType::SBI_ERR_ALREADY_STARTED),
            -8 => Some(SBIErrType::SBI_ERR_ALREADY_STOPPED),
            -9 => Some(SBIErrType::SBI_ERR_NO_SHMEM),
            _ => None,
        }
    }
}

/// Reading a code back gives the error.
pub proof fn lemma_code_roundtrip(e: SBIErrType)
    ensures
        -9 <= sbi_err_code(e) <= 0,
        forall|f: SBIErrType| sbi_err_code(f) == sbi_err_code(e) ==> f == e,
{
}

/// The value that a legacy `console_getchar` call leaves in its error
/// register is the character read.
pub fn getchar_result(error: isize) -> (r: usize)
    ensures
        r == error as usize,
{
    error as usize
}

/// Legacy extension: program the next timer interrupt.
pub const SBI_SET_TIMER: usize = 0;
/// Legacy extension: write a character to the console.
pub const SBI_CONSOLE_PUTCHAR: usize = 1;
/// Legacy extension: read a character from the console.
pub const SBI_CONSOLE_GETCHAR: usize = 2;
/// The system reset extension ("SRST").
pub const SYSTEM_RESET_EXTENSION: usize = 0x53525354;
/// Reset type of the system reset extension: shut down.
pub const SBI_SHUTDOWN: usize = 0;
/// Reset type of the system reset extension: cold reboot.
pub const SBI_COLD_REBOOT: usize = 1;

/// What an SBI call leaves in `a0` and `a1`.
#[derive(Clone, Copy, Debug)]
pub struct SBIRet {
    pub error: isize,
    pub value: usize,
}

/// An SBI request: the extension (`a7`), the function (`a6`) and three
/// arguments (`a0` to `a2`).
#[derive(Clone, Copy, Debug, PartialEq, Eq, Structural)]
pub struct SbiCall {
    pub eid: usize,
    pub fid: usize,
    pub arg0: usize,
    pub arg1: usize,
    pub arg2: usize,
}

/// The request that sets the next timer interrupt at time `timer`.
pub fn set_timer(timer: usize) -> (r: SbiCall)
    ensures
        r == (SbiCall { eid: SBI_SET_TIMER, fid: 0, arg0: timer, arg1: 0, arg2: 0 }),
{
    SbiCall { eid: SBI_SET_TIMER, fid: 0, arg0: timer, arg1: 0, arg2: 0 }
}

/// The request that writes character `c` to the console.
pub fn console_putchar(c: usize) -> (r: SbiCall)
    ensures
        r == (SbiCall { eid: SBI_CONSOLE_PUTCHAR, fid: 0, arg0: c, arg1: 0, arg2: 0 }),
{
    SbiCall { eid: SBI_CONSOLE_PUTCHAR, fid: 0, arg0: c, arg1: 0, arg2: 0 }
}

/// The request that reads a character from the console; the character
/// comes back in the error register (see `getchar_result`).
pub fn console_getchar() -> (r: SbiCall)
    ensures
        r == (SbiCall { eid: SBI_CONSOLE_GETCHAR, fid: 0, arg0: 0, arg1: 0, arg2: 0 }),
{
    SbiCall { eid: SBI_CONSOLE_GETCHAR, fid: 0, arg0: 0, arg1: 0, arg2: 0 }
}

/// The request that shuts the machine down.
pub fn shutdown() -> (r: SbiCall)
    ensures
        r == (SbiCall { eid: SYSTEM_RESET_EXTENSION, fid: SBI_SHUTDOWN, arg0: 0, arg1: 0, arg2: 0 }),
{
    SbiCall { eid: SYSTEM_RESET_EXTENSION, fid: SBI_SHUTDOWN, arg0: 0, arg1: 0, arg2: 0 }
}

/// The request that reboots the machine.
pub fn reboot() -> (r: SbiCall)
    ensures
        r == (SbiCall { eid: SYSTEM_RESET_EXTENSION, fid: SBI_COLD_REBOOT, arg0: 0, arg1: 0, arg2: 0 }),
{
    SbiCall { eid: SYSTEM_RESET_EXTENSION, fid: SBI_COLD_REBOOT, arg0: 0, arg1: 0, arg2: 0 }
}

/// Whether a call came back with success: its error register holds the
/// code of `SBI_SUCCESS`.
pub fn succeeded(ret: SBIRet) -> (r: bool)
    ensures
        r == (ret.error == sbi_err_code(SBIErrType::SBI_SUCCESS)),
{
    match SBIErrType::from_code(ret.error) {
        Some(SBIErrType::SBI_SUCCESS) => true,
        _ => false,
    }
}

} // verus!
