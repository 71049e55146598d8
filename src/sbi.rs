use vstd::prelude::*;

use crate::firmware::{
    timer_value, trap_action, FirmwareAction, EID_CONSOLE_GETCHAR, EID_CONSOLE_PUTCHAR, EID_SHUTDOWN, EID_SRST,
    EID_TIMER, FINISHER_FAIL, FINISHER_PASS, MCAUSE_SUPERVISOR_ECALL,
};

verus! {

/// One environment call to the firmware: extension id in `a7`, function id
/// in `a6`, arguments in `a0`..`a2`.
#[derive(Clone, Copy, PartialEq, Eq, Structural, Debug)]
pub struct SbiCall {
    pub eid: usize,
    pub fid: usize,
    pub arg0: usize,
    pub arg1: usize,
    pub arg2: usize,
}

/// What of `timer` fits in a register: all of it when it can, else (on a
/// 32-bit hart) its low half.
pub open spec fn low_word(timer: u64) -> usize {
    if timer <= usize::MAX {
        timer as usize
    } else {
        (timer % 0x1_0000_0000) as usize
    }
}

/// Arms the timer for absolute time `timer`: the value in `a0` (all of it
/// on a 64-bit hart, its low half on a 32-bit one) and its high half in
/// `a1`.
pub fn set_timer(timer: u64) -> (r: SbiCall)
    ensures
        r == (SbiCall { eid: EID_TIMER, fid: 0, arg0: low_word(timer), arg1: (timer / 0x1_0000_0000) as usize, arg2: 0 }),
{
    let hi = timer / 0x1_0000_0000;
    let lo: usize = if timer <= usize::MAX as u64 {
        timer as usize
    } else {
        (timer % 0x1_0000_0000) as usize
    };
    SbiCall { eid: EID_TIMER, fid: 0, arg0: lo, arg1: hi as usize, arg2: 0 }
}

/// Writes `c` to the console.
pub fn console_putchar(c: u8) -> (r: SbiCall)
    ensures
        r == (SbiCall { eid: EID_CONSOLE_PUTCHAR, fid: 0, arg0: c as usize, arg1: 0, arg2: 0 }),
{
    SbiCall { eid: EID_CONSOLE_PUTCHAR, fid: 0, arg0: c as usize, arg1: 0, arg2: 0 }
}

/// Reads a character from the console.
pub fn console_getchar() -> (r: SbiCall)
    ensures
        r == (SbiCall { eid: EID_CONSOLE_GETCHAR, fid: 0, arg0: 0, arg1: 0, arg2: 0 }),
{
    SbiCall { eid: EID_CONSOLE_GETCHAR, fid: 0, arg0: 0, arg1: 0, arg2: 0 }
}

/// Shuts the machine down through the reset extension: reset type 0
/// (shutdown) in `a0`, reason in `a1` (1, a system failure, or 0).
pub fn shutdown(failure: bool) -> (r: SbiCall)
    ensures
        r == (SbiCall { eid: EID_SRST, fid: 0, arg0: 0, arg1: if failure { 1 } else { 0 }, arg2: 0 }),
{
    let reason: usize = if failure { 1 } else { 0 };
    SbiCall { eid: EID_SRST, fid: 0, arg0: 0, arg1: reason, arg2: 0 }
}

/// What this crate's firmware does with a call, as it arrives in `a0`,
/// `a1`, `a6` and `a7`.
pub open spec fn firmware_action(c: SbiCall) -> FirmwareAction {
    trap_action(MCAUSE_SUPERVISOR_ECALL, c.arg0, c.arg1, c.fid, c.eid)
}

/// The firmware arms the timer for exactly the time the kernel asked for,
/// on a 32-bit hart as on a 64-bit one.
pub proof fn lemma_set_timer_reaches_firmware(timer: u64, c: SbiCall)
    requires
        c == (SbiCall { eid: EID_TIMER, fid: 0, arg0: low_word(timer), arg1: (timer / 0x1_0000_0000) as usize, arg2: 0 }),
    ensures
        firmware_action(c) == FirmwareAction::SetTimer(timer),
{
    assert(usize::MAX == 0xffff_ffff || usize::MAX == 0xffff_ffff_ffff_ffff);
    assert((low_word(timer) as u64) % 0x1_0000_0000 == timer % 0x1_0000_0000);
    assert(timer == (timer / 0x1_0000_0000) * 0x1_0000_0000 + timer % 0x1_0000_0000);
}

/// A shutdown reaches the test finisher with the pass code, and a failure
/// shutdown with the fail code.
pub proof fn lemma_shutdown_reaches_finisher(failure: bool, c: SbiCall)
    requires
        c == (SbiCall { eid: EID_SRST, fid: 0, arg0: 0, arg1: if failure { 1 } else { 0 }, arg2: 0 }),
    ensures
        firmware_action(c) == FirmwareAction::Reset(if failure { FINISHER_FAIL } else { FINISHER_PASS }),
{
}

/// The value a call hands back from its `(error, value)` pair: the value,
/// or `None` when the firmware reported an error.
pub fn sbi_result(error: isize, value: usize) -> (r: Option<usize>)
    ensures
        r == (if error < 0 { None } else { Some(value) }),
{
    if error < 0 {
        None
    } else {
        Some(value)
    }
}

/// Shutdown for firmware of any age: the reset extension first, with the
/// reason in `a1`, then the legacy shutdown should the first call return.
pub fn shutdown_sequence(failure: bool) -> (r: (SbiCall, SbiCall))
    ensures
        r.0 == (SbiCall { eid: EID_SRST, fid: 0, arg0: 0, arg1: if failure { 1 } else { 0 }, arg2: 0 }),
        r.1 == (SbiCall { eid: EID_SHUTDOWN, fid: 0, arg0: 0, arg1: 0, arg2: 0 }),
{
    let reason: usize = if failure { 1 } else { 0 };
    (
        SbiCall { eid: EID_SRST, fid: 0, arg0: 0, arg1: reason, arg2: 0 },
        SbiCall { eid: EID_SHUTDOWN, fid: 0, arg0: 0, arg1: 0, arg2: 0 },
    )
}

} // verus!
