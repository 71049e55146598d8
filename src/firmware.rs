use vstd::prelude::*;

verus! {

/// Legacy console output extension.
pub const EID_CONSOLE_PUTCHAR: usize = 0x01;

/// Legacy console input extension.
pub const EID_CONSOLE_GETCHAR: usize = 0x02;

/// Legacy shutdown extension.
pub const EID_SHUTDOWN: usize = 0x08;

/// Base extension: probes and version queries.
pub const EID_BASE: usize = 0x10;

/// System reset extension ("SRST").
pub const EID_SRST: usize = 0x53525354;

/// Timer extension ("TIME").
pub const EID_TIMER: usize = 0x54494D45;

/// `mcause` of an environment call from supervisor mode.
pub const MCAUSE_SUPERVISOR_ECALL: usize = 9;

/// Error code of a call that succeeded.
pub const SBI_SUCCESS: isize = 0;

/// Error code of a call that this firmware does not implement.
pub const SBI_ERR_NOT_SUPPORTED: isize = -2;

/// Value written to the test finisher to end the run successfully.
pub const FINISHER_PASS: u32 = 0x5555;

/// Value written to the test finisher to end the run with a failure.
pub const FINISHER_FAIL: u32 = 0x3333;

/// Result of a supervisor call: an error code and a value, returned in
/// `a0` and `a1`.
#[derive(Clone, Copy, PartialEq, Eq, Structural, Debug)]
pub struct SbiRet {
    pub error: isize,
    pub value: usize,
}

impl SbiRet {
    /// Success carrying `value`.
    pub fn success(value: usize) -> (r: Self)
        ensures
            r == (SbiRet { error: SBI_SUCCESS, value }),
    {
        SbiRet { error: SBI_SUCCESS, value }
    }

    /// The call is not supported; the value is 0.
    pub fn not_supported() -> (r: Self)
        ensures
            r == (SbiRet { error: SBI_ERR_NOT_SUPPORTED, value: 0 }),
    {
        SbiRet { error: SBI_ERR_NOT_SUPPORTED, value: 0 }
    }
}

/// What the machine-mode trap handler does for one trap. Device access is
/// left to the caller, which then returns `SbiRet::success` with 0 (or with
/// the character read, for `GetChar`); `Reset` writes its value to the test
/// finisher and does not return.
#[derive(Clone, Copy, PartialEq, Eq, Structural, Debug)]
pub enum FirmwareAction {
    Return(SbiRet),
    PutChar(u8),
    GetChar,
    SetTimer(u64),
    Reset(u32),
}

/// Answers of the base extension, by function id.
pub open spec fn base_answer(fid: usize) -> SbiRet {
    if fid == 0 {
        SbiRet { error: SBI_SUCCESS, value: 0x01000000 }
    } else if fid == 1 {
        SbiRet { error: SBI_SUCCESS, value: 0xFFFF }
    } else if fid == 2 || fid == 3 {
        SbiRet { error: SBI_SUCCESS, value: 1 }
    } else if fid <= 6 {
        SbiRet { error: SBI_SUCCESS, value: 0 }
    } else {
        SbiRet { error: SBI_ERR_NOT_SUPPORTED, value: 0 }
    }
}

/// The base extension: specification version 1.0, a custom implementation
/// id, every extension reported present, zero machine ids.
pub fn handle_base(fid: usize) -> (r: SbiRet)
    ensures
        r == base_answer(fid),
{
    match fid {
        0 => SbiRet::success(0x01000000),
        1 => SbiRet::success(0xFFFF),
        2 => SbiRet::success(1),
        3 => SbiRet::success(1),
        4 => SbiRet::success(0),
        5 => SbiRet::success(0),
        6 => SbiRet::success(0),
        _ => SbiRet::not_supported(),
    }
}

/// The finisher value for a reset of type `reset_type` (0: shutdown,
/// otherwise a reboot) with reason `reason` (0: none, otherwise a failure):
/// pass only for a shutdown with no failure.
pub fn handle_system_reset(reset_type: usize, reason: usize) -> (r: u32)
    ensures
        r == (if reset_type == 0 && reason == 0 { FINISHER_PASS } else { FINISHER_FAIL }),
{
    if reset_type == 0 && reason == 0 {
        FINISHER_PASS
    } else {
        FINISHER_FAIL
    }
}

/// The 64-bit time a timer call asks for: the low 32 bits from `a0`, the
/// high 32 bits from `a1` (a 64-bit caller also has them in `a0`; only the
/// low half of `a0` is read).
pub open spec fn timer_value(a0: usize, a1: usize) -> u64 {
    (((a1 as u64) % 0x1_0000_0000) * 0x1_0000_0000 + (a0 as u64) % 0x1_0000_0000) as u64
}

/// Joins the two halves of a timer value.
pub fn join_timer(a0: usize, a1: usize) -> (r: u64)
    ensures
        r == timer_value(a0, a1),
{
    let hi = (a1 as u64) % 0x1_0000_0000;
    let lo = (a0 as u64) % 0x1_0000_0000;
    assert(hi * 0x1_0000_0000 + lo <= u64::MAX) by (nonlinear_arith)
        requires hi < 0x1_0000_0000, lo < 0x1_0000_0000;
    hi * 0x1_0000_0000 + lo
}

/// What the firmware answers once it has performed `action`: the answer it
/// carries, or success with value 0 after a console write or arming the
/// timer. `None` for a console read, whose answer is the character
/// (`handle_console_getchar`), and for a reset, which does not return.
pub fn answer_after(action: FirmwareAction) -> (r: Option<SbiRet>)
    ensures
        r == match action {
            FirmwareAction::Return(ret) => Some(ret),
            FirmwareAction::PutChar(_) => Some(SbiRet { error: SBI_SUCCESS, value: 0 }),
            FirmwareAction::SetTimer(_) => Some(SbiRet { error: SBI_SUCCESS, value: 0 }),
            FirmwareAction::GetChar => None,
            FirmwareAction::Reset(_) => None,
        },
{
    match action {
        FirmwareAction::Return(ret) => Some(ret),
        FirmwareAction::PutChar(_) => Some(SbiRet::success(0)),
        FirmwareAction::SetTimer(_) => Some(SbiRet::success(0)),
        FirmwareAction::GetChar => None,
        FirmwareAction::Reset(_) => None,
    }
}

/// One poll of the console for `handle_console_getchar`: the answer once a
/// character has arrived, `None` to poll again.
pub fn handle_console_getchar(polled: Option<u8>) -> (r: Option<SbiRet>)
    ensures
        r == match polled {
            Some(c) => Some(SbiRet { error: SBI_SUCCESS, value: c as usize }),
            None => None,
        },
{
    match polled {
        Some(c) => Some(SbiRet::success(c as usize)),
        None => None,
    }
}

/// The action for a trap with cause `mcause`, arguments `a0` and `a1`,
/// function `fid` and extension `eid`.
pub open spec fn trap_action(mcause: usize, a0: usize, a1: usize, fid: usize, eid: usize) -> FirmwareAction {
    if mcause != MCAUSE_SUPERVISOR_ECALL {
        FirmwareAction::Return(SbiRet { error: SBI_ERR_NOT_SUPPORTED, value: 0 })
    } else if eid == EID_CONSOLE_PUTCHAR {
        FirmwareAction::PutChar(a0 as u8)
    } else if eid == EID_CONSOLE_GETCHAR {
        FirmwareAction::GetChar
    } else if eid == EID_TIMER {
        FirmwareAction::SetTimer(timer_value(a0, a1))
    } else if eid == EID_SHUTDOWN {
        FirmwareAction::Reset(FINISHER_PASS)
    } else if eid == EID_BASE {
        FirmwareAction::Return(base_answer(fid))
    } else if eid == EID_SRST && fid == 0 {
        FirmwareAction::Reset(if a0 == 0 && a1 == 0 { FINISHER_PASS } else { FINISHER_FAIL })
    } else {
        FirmwareAction::Return(SbiRet { error: SBI_ERR_NOT_SUPPORTED, value: 0 })
    }
}

/// Dispatch of the machine-mode trap handler: only environment calls from
/// supervisor mode are served, by extension id. A system reset (function 0)
/// takes its type in `a0` and its reason in `a1`.
pub fn m_trap_handler(mcause: usize, a0: usize, a1: usize, fid: usize, eid: usize) -> (r: FirmwareAction)
    ensures
        r == trap_action(mcause, a0, a1, fid, eid),
{
    if mcause != MCAUSE_SUPERVISOR_ECALL {
        return FirmwareAction::Return(SbiRet::not_supported());
    }
    match eid {
        EID_CONSOLE_PUTCHAR => FirmwareAction::PutChar(a0 as u8),
        EID_CONSOLE_GETCHAR => FirmwareAction::GetChar,
        EID_TIMER => FirmwareAction::SetTimer(join_timer(a0, a1)),
        EID_SHUTDOWN => FirmwareAction::Reset(handle_system_reset(0, 0)),
        EID_BASE => FirmwareAction::Return(handle_base(fid)),
        EID_SRST => {
            if fid == 0 {
                FirmwareAction::Reset(handle_system_reset(a0, a1))
            } else {
                FirmwareAction::Return(SbiRet::not_supported())
            }
        },
        _ => FirmwareAction::Return(SbiRet::not_supported()),
    }
}

} // verus!
