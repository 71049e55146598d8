use tg_kernel::frame::FrameAllocator;
use tg_kernel::memory::AddressSpace;
use tg_kernel::trap::{TrapAction, TrapContext, EXIT_ILLEGAL_INSTRUCTION, EXIT_MEMORY_FAULT, INTERRUPT_BIT};

#[test]
fn initial_context() {
    let ctx = TrapContext::app_init_context(0x1000, 0x8000, 0x20);
    assert_eq!(ctx.sepc, 0x1000);
    assert_eq!(ctx.sstatus, 0x20);
    assert_eq!(ctx.reg(2), 0x8000);
    assert_eq!(ctx.reg(10), 0);
}

#[test]
fn ecall_advances_sepc_and_reads_arguments() {
    let mut ctx = TrapContext::app_init_context(0x1000, 0x8000, 0);
    ctx.set_reg(17, 64);
    for (i, v) in [1usize, 2, 3, 4, 5, 6].iter().enumerate() {
        ctx.set_reg(10 + i, *v);
    }
    assert_eq!(ctx.handle_trap(8), TrapAction::Syscall { id: 64, args: (1, 2, 3, 4, 5, 6) });
    assert_eq!(ctx.sepc, 0x1004);
    ctx.set_return(-1);
    assert_eq!(ctx.reg(10), usize::MAX);
}

#[test]
fn timer_and_faults() {
    let mut ctx = TrapContext::app_init_context(0x1000, 0x8000, 0);
    assert_eq!(ctx.handle_trap(INTERRUPT_BIT | 5), TrapAction::Preempt);
    assert_eq!(ctx.handle_trap(2), TrapAction::Kill(EXIT_ILLEGAL_INSTRUCTION));
    assert_eq!(ctx.handle_trap(15), TrapAction::Kill(EXIT_MEMORY_FAULT));
    assert_eq!(ctx.handle_trap(13), TrapAction::Kill(EXIT_MEMORY_FAULT));
    assert_eq!(ctx.sepc, 0x1000);
}

#[test]
fn access_after_munmap_faults() {
    let mut fa = FrameAllocator::new(0, 4);
    let mut space = AddressSpace::new();
    assert_eq!(space.mmap(&mut fa, 0x1000_0000, 4096, 3), 0);
    let pattern: Vec<u8> = (0..4096).map(|i| (i % 256) as u8).collect();
    assert_eq!(space.copy_out(0x1000_0000, &pattern), 0);
    assert_eq!(space.copy_in(0x1000_0000, 4096), Some(pattern));
    assert_eq!(space.munmap(&mut fa, 0x1000_0000, 4096), 0);
    let mut ctx = TrapContext::app_init_context(0x1000, 0x8000, 0);
    let action = match space.read_byte(0x1000_0000) {
        Some(_) => None,
        None => Some(ctx.handle_trap(13)),
    };
    assert_eq!(action, Some(TrapAction::Kill(EXIT_MEMORY_FAULT)));
}
