use tg_kernel::firmware::{self, FirmwareAction, SbiRet};
use tg_kernel::lab_firmware;
use tg_kernel::sbi::{self, SbiCall};

fn dispatch(call: SbiCall) -> FirmwareAction {
    firmware::m_trap_handler(9, call.arg0, call.arg1, call.fid, call.eid)
}

#[test]
fn sbi_ret_constructors() {
    assert_eq!(SbiRet::success(7), SbiRet { error: 0, value: 7 });
    assert_eq!(SbiRet::not_supported(), SbiRet { error: -2, value: 0 });
}

#[test]
fn trap_handler_dispatch() {
    assert_eq!(firmware::m_trap_handler(9, 0x41, 0, 0, 0x01), FirmwareAction::PutChar(0x41));
    assert_eq!(firmware::m_trap_handler(9, 0x141, 0, 0, 0x01), FirmwareAction::PutChar(0x41));
    assert_eq!(firmware::m_trap_handler(9, 0, 0, 0, 0x02), FirmwareAction::GetChar);
    assert_eq!(firmware::m_trap_handler(9, 123456, 0, 0, 0x54494D45), FirmwareAction::SetTimer(123456));
    assert_eq!(firmware::m_trap_handler(9, 5, 2, 0, 0x54494D45), FirmwareAction::SetTimer((2u64 << 32) + 5));
    assert_eq!(firmware::m_trap_handler(9, 0, 0, 0, 0x08), FirmwareAction::Reset(0x5555));
    assert_eq!(firmware::m_trap_handler(9, 0, 0, 0, 0x53525354), FirmwareAction::Reset(0x5555));
    assert_eq!(firmware::m_trap_handler(9, 0, 1, 0, 0x53525354), FirmwareAction::Reset(0x3333));
    assert_eq!(firmware::m_trap_handler(9, 1, 0, 0, 0x53525354), FirmwareAction::Reset(0x3333));
    assert_eq!(firmware::m_trap_handler(9, 0, 0, 1, 0x53525354), FirmwareAction::Return(SbiRet::not_supported()));
    assert_eq!(firmware::m_trap_handler(9, 0, 0, 0, 0x10), FirmwareAction::Return(SbiRet::success(0x01000000)));
    assert_eq!(firmware::m_trap_handler(9, 0, 0, 0, 0x99), FirmwareAction::Return(SbiRet { error: -2, value: 0 }));
    assert_eq!(firmware::m_trap_handler(2, 0x41, 0, 0, 0x01), FirmwareAction::Return(SbiRet { error: -2, value: 0 }));
}

#[test]
fn answers_after_device_actions() {
    assert_eq!(firmware::answer_after(FirmwareAction::PutChar(b'a')), Some(SbiRet::success(0)));
    assert_eq!(firmware::answer_after(FirmwareAction::SetTimer(9)), Some(SbiRet::success(0)));
    assert_eq!(firmware::answer_after(FirmwareAction::Return(SbiRet::success(3))), Some(SbiRet::success(3)));
    assert_eq!(firmware::answer_after(FirmwareAction::GetChar), None);
    assert_eq!(firmware::answer_after(FirmwareAction::Reset(0x5555)), None);
}

#[test]
fn base_extension_answers() {
    assert_eq!(firmware::handle_base(0), SbiRet::success(0x01000000));
    assert_eq!(firmware::handle_base(1), SbiRet::success(0xFFFF));
    assert_eq!(firmware::handle_base(2), SbiRet::success(1));
    assert_eq!(firmware::handle_base(3), SbiRet::success(1));
    assert_eq!(firmware::handle_base(4), SbiRet::success(0));
    assert_eq!(firmware::handle_base(6), SbiRet::success(0));
    assert_eq!(firmware::handle_base(7), SbiRet::not_supported());
}

#[test]
fn console_getchar_polls_until_data() {
    assert_eq!(firmware::handle_console_getchar(None), None);
    assert_eq!(firmware::handle_console_getchar(Some(b'x')), Some(SbiRet::success(b'x' as usize)));
}

#[test]
fn reset_codes() {
    assert_eq!(firmware::handle_system_reset(0, 0), 0x5555);
    assert_eq!(firmware::handle_system_reset(0, 1), 0x3333);
    assert_eq!(firmware::handle_system_reset(2, 0), 0x3333);
    assert_eq!(lab_firmware::handle_system_reset(0), 0x5555);
    assert_eq!(lab_firmware::handle_system_reset(1), 0x3333);
    assert_eq!(lab_firmware::handle_legacy_shutdown(), 0x5555);
}

#[test]
fn lab_firmware_dispatch() {
    assert_eq!(lab_firmware::m_trap_handler(9, b'h' as usize, 0, 0, 0x01), FirmwareAction::PutChar(b'h'));
    assert_eq!(lab_firmware::m_trap_handler(9, 0, 1, 0, 0x53525354), FirmwareAction::Reset(0x3333));
    assert_eq!(lab_firmware::m_trap_handler(9, 0, 0, 0, 0x53525354), FirmwareAction::Reset(0x5555));
    assert_eq!(lab_firmware::m_trap_handler(9, 0, 0, 1, 0x53525354), FirmwareAction::Return(SbiRet::not_supported()));
    assert_eq!(lab_firmware::m_trap_handler(9, 0, 0, 0, 0x08), FirmwareAction::Reset(0x5555));
    assert_eq!(lab_firmware::m_trap_handler(9, 0, 0, 0, 0x02), FirmwareAction::Return(SbiRet::not_supported()));
    assert_eq!(lab_firmware::m_trap_handler(11, 0, 0, 0, 0x01), FirmwareAction::Return(SbiRet::not_supported()));
    assert_eq!(lab_firmware::handle_base(0), SbiRet::success(2));
    assert_eq!(lab_firmware::handle_base(1), SbiRet::success(0));
    assert_eq!(lab_firmware::handle_base(8), SbiRet::not_supported());
}

#[test]
fn kernel_side_calls() {
    assert_eq!(sbi::set_timer(1000), SbiCall { eid: 0x54494D45, fid: 0, arg0: 1000, arg1: 0, arg2: 0 });
    assert_eq!(sbi::console_putchar(b'A'), SbiCall { eid: 1, fid: 0, arg0: 65, arg1: 0, arg2: 0 });
    assert_eq!(sbi::console_getchar(), SbiCall { eid: 2, fid: 0, arg0: 0, arg1: 0, arg2: 0 });
    assert_eq!(sbi::shutdown(false), SbiCall { eid: 0x53525354, fid: 0, arg0: 0, arg1: 0, arg2: 0 });
    assert_eq!(sbi::shutdown(true), SbiCall { eid: 0x53525354, fid: 0, arg0: 0, arg1: 1, arg2: 0 });
    let (first, second) = sbi::shutdown_sequence(true);
    assert_eq!(first, SbiCall { eid: 0x53525354, fid: 0, arg0: 0, arg1: 1, arg2: 0 });
    assert_eq!(second, SbiCall { eid: 0x08, fid: 0, arg0: 0, arg1: 0, arg2: 0 });
    assert_eq!(sbi::sbi_result(0, 42), Some(42));
    assert_eq!(sbi::sbi_result(-2, 42), None);
}

#[test]
fn calls_reach_the_firmware_intact() {
    let t = (7u64 << 32) + 99;
    assert_eq!(sbi::set_timer(t).arg1, 7);
    assert_eq!(dispatch(sbi::set_timer(t)), FirmwareAction::SetTimer(t));
    assert_eq!(dispatch(sbi::shutdown(false)), FirmwareAction::Reset(0x5555));
    assert_eq!(dispatch(sbi::shutdown(true)), FirmwareAction::Reset(0x3333));
    assert_eq!(dispatch(sbi::shutdown_sequence(true).0), FirmwareAction::Reset(0x3333));
}

#[test]
fn hello_world_reaches_console_then_shuts_down() {
    let mut uart: Vec<u8> = Vec::new();
    let mut finisher = None;
    for &c in b"Hello, world!\n" {
        match dispatch(sbi::console_putchar(c)) {
            FirmwareAction::PutChar(b) => uart.push(b),
            other => panic!("unexpected {:?}", other),
        }
    }
    if let FirmwareAction::Reset(code) = dispatch(sbi::shutdown(false)) {
        finisher = Some(code);
    }
    assert_eq!(uart, b"Hello, world!\n".to_vec());
    assert_eq!(finisher, Some(0x5555));
}
