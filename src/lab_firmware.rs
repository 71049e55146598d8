use vstd::prelude::*;

use crate::firmware::{
    FirmwareAction, SbiRet, EID_BASE, EID_CONSOLE_PUTCHAR, EID_SHUTDOWN, EID_SRST, FINISHER_FAIL,
    FINISHER_PASS, MCAUSE_SUPERVISOR_ECALL, SBI_ERR_NOT_SUPPORTED, SBI_SUCCESS,
};

verus! {

/// Answers of this firmware's base extension, by function id.
pub open spec fn base_answer(fid: usize) -> SbiRet {
    if fid == 0 {
        SbiRet { error: SBI_SUCCESS, value: 2 }
    } else if fid == 2 || fid == 3 {
        SbiRet { error: SBI_SUCCESS, value: 1 }
    } else if fid <= 6 {
        SbiRet { error: SBI_SUCCESS, value: 0 }
    } else {
        SbiRet { error: SBI_ERR_NOT_SUPPORTED, value: 0 }
    }
}

/// The base extension of the console-only firmware: specification version
/// 0.2, implementation id 0.
pub fn handle_base(fid: usize) -> (r: SbiRet)
    ensures
        r == base_answer(fid),
{
    match fid {
        0 => SbiRet::success(2),
        1 => SbiRet::success(0),
        2 => SbiRet::success(1),
        3 => SbiRet::success(1),
        4 => SbiRet::success(0),
        5 => SbiRet::success(0),
        6 => SbiRet::success(0),
        _ => SbiRet::not_supported(),
    }
}

/// The finisher value for a reset with reason `reset_reason`: pass for
/// reason 0, fail otherwise.
pub fn handle_system_reset(reset_reason: usize) -> (r: u32)
    ensures
        r == (if reset_reason == 0 { FINISHER_PASS } else { FINISHER_FAIL }),
{
    if reset_reason == 0 {
        FINISHER_PASS
    } else {
        FINISHER_FAIL
    }
}

/// The legacy shutdown always passes.
pub fn handle_legacy_shutdown() -> (r: u32)
    ensures
        r == FINISHER_PASS,
{
    handle_system_reset(0)
}

/// The action for a trap with cause `mcause`, arguments `a0`, `a1`,
/// function `fid` and extension `eid`.
pub open spec fn trap_action(mcause: usize, a0: usize, a1: usize, fid: usize, eid: usize) -> FirmwareAction {
    if mcause != MCAUSE_SUPERVISOR_ECALL {
        FirmwareAction::Return(SbiRet { error: SBI_ERR_NOT_SUPPORTED, value: 0 })
    } else if eid == EID_CONSOLE_PUTCHAR {
        FirmwareAction::PutChar(a0 as u8)
    } else if eid == EID_SHUTDOWN {
        FirmwareAction::Reset(FINISHER_PASS)
    } else if eid == EID_BASE {
        FirmwareAction::Return(base_answer(fid))
    } else if eid == EID_SRST && fid == 0 {
        FirmwareAction::Reset(if a1 == 0 { FINISHER_PASS } else { FINISHER_FAIL })
    } else {
        FirmwareAction::Return(SbiRet { error: SBI_ERR_NOT_SUPPORTED, value: 0 })
    }
}

/// Dispatch of the console-only firmware: console output, shutdown, the
/// base extension, and system reset with the reason in `a1`.
pub fn m_trap_handler(mcause: usize, a0: usize, a1: usize, fid: usize, eid: usize) -> (r: FirmwareAction)
    ensures
        r == trap_action(mcause, a0, a1, fid, eid),
{
    if mcause != MCAUSE_SUPERVISOR_ECALL {
        return FirmwareAction::Return(SbiRet::not_supported());
    }
    match eid {
        EID_CONSOLE_PUTCHAR => FirmwareAction::PutChar(a0 as u8),
        EID_SHUTDOWN => FirmwareAction::Reset(handle_legacy_shutdown()),
        EID_BASE => FirmwareAction::Return(handle_base(fid)),
        EID_SRST => {
            if fid == 0 {
                FirmwareAction::Reset(handle_system_reset(a1))
            } else {
                FirmwareAction::Return(SbiRet::not_supported())
            }
        },
        _ => FirmwareAction::Return(SbiRet::not_supported()),
    }
}

} // verus!
