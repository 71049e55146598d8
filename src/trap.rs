use vstd::prelude::*;

verus! {

/// Bit of `scause` that marks an interrupt (its top bit).
pub const INTERRUPT_BIT: usize = !(usize::MAX >> 1);

/// Exception code of an illegal instruction.
pub const CAUSE_ILLEGAL_INSTRUCTION: usize = 2;

/// Exception code of an environment call from user mode.
pub const CAUSE_USER_ECALL: usize = 8;

/// Exception code of a store page fault (other faults and misaligned
/// accesses are handled alike).
pub const CAUSE_STORE_PAGE_FAULT: usize = 15;

/// Interrupt code of the supervisor timer.
pub const INTERRUPT_SUPERVISOR_TIMER: usize = 5;

/// Exit code of a task killed by a page fault or misaligned access.
pub const EXIT_MEMORY_FAULT: i32 = -2;

/// Exit code of a task killed by an illegal instruction.
pub const EXIT_ILLEGAL_INSTRUCTION: i32 = -3;

/// Registers saved on entry from user mode: `x[0..32]`, `sstatus`, `sepc`.
pub struct TrapContext {
    pub x: Vec<usize>,
    pub sstatus: usize,
    pub sepc: usize,
}

/// What the kernel does after a trap from user mode.
#[derive(Clone, Copy, PartialEq, Eq, Debug)]
pub enum TrapAction {
    /// Serve system call `id` with arguments `a0..a5`, then put the result
    /// in `a0`.
    Syscall { id: usize, args: (usize, usize, usize, usize, usize, usize) },
    /// Arm the next tick, requeue the task and switch to the next one.
    Preempt,
    /// End the task with this exit code.
    Kill(i32),
}

/// The action for `scause`, given the task's registers `x` (with `a7` at
/// index 17 and `a0..a5` at 10..15).
pub open spec fn trap_action(scause: usize, x: Seq<usize>) -> TrapAction {
    if scause == CAUSE_USER_ECALL {
        TrapAction::Syscall { id: x[17], args: (x[10], x[11], x[12], x[13], x[14], x[15]) }
    } else if scause >= INTERRUPT_BIT {
        if scause - INTERRUPT_BIT == INTERRUPT_SUPERVISOR_TIMER {
            TrapAction::Preempt
        } else {
            TrapAction::Kill(EXIT_MEMORY_FAULT)
        }
    } else if scause == CAUSE_ILLEGAL_INSTRUCTION {
        TrapAction::Kill(EXIT_ILLEGAL_INSTRUCTION)
    } else {
        TrapAction::Kill(EXIT_MEMORY_FAULT)
    }
}

impl TrapContext {
    pub open spec fn regs(&self) -> Seq<usize> {
        self.x@
    }

    pub open spec fn wf(&self) -> bool {
        self.x@.len() == 32
    }

    /// The context a task starts user mode with: all registers zero but
    /// the stack pointer (`x2`), resuming at `entry` with `sstatus`.
    pub fn app_init_context(entry: usize, sp: usize, sstatus: usize) -> (r: Self)
        ensures
            r.wf(),
            r.sepc == entry,
            r.sstatus == sstatus,
            forall|i: int| 0 <= i < 32 ==> #[trigger] r.regs()[i] == if i == 2 { sp } else { 0 },
    {
        let mut x: Vec<usize> = Vec::new();
        let mut i: usize = 0;
        while i < 32
            invariant
                i <= 32,
                x@.len() == i,
                forall|j: int| 0 <= j < i ==> #[trigger] x@[j] == if j == 2 { sp } else { 0 },
            decreases 32 - i,
        {
            x.push(if i == 2 { sp } else { 0 });
            i = i + 1;
        }
        TrapContext { x, sstatus, sepc: entry }
    }

    /// Register `x[i]`.
    pub fn reg(&self, i: usize) -> (r: usize)
        requires
            self.wf(),
            i < 32,
        ensures
            r == self.regs()[i as int],
    {
        self.x[i]
    }

    /// Sets register `x[i]`.
    pub fn set_reg(&mut self, i: usize, v: usize)
        requires
            old(self).wf(),
            i < 32,
        ensures
            final(self).wf(),
            final(self).regs() == old(self).regs().update(i as int, v),
            final(self).sepc == old(self).sepc,
            final(self).sstatus == old(self).sstatus,
    {
        self.x.set(i, v);
    }

    /// Decides what to do with a trap of cause `scause`. For a system call
    /// `sepc` moves past the `ecall`, so the task resumes after it.
    pub fn handle_trap(&mut self, scause: usize) -> (r: TrapAction)
        requires
            old(self).wf(),
        ensures
            final(self).wf(),
            r == trap_action(scause, old(self).regs()),
            final(self).regs() == old(self).regs(),
            final(self).sstatus == old(self).sstatus,
            final(self).sepc == if scause == CAUSE_USER_ECALL {
                old(self).sepc.wrapping_add(4)
            } else {
                old(self).sepc
            },
    {
        if scause == CAUSE_USER_ECALL {
            self.sepc = self.sepc.wrapping_add(4);
            let args = (self.x[10], self.x[11], self.x[12], self.x[13], self.x[14], self.x[15]);
            TrapAction::Syscall { id: self.x[17], args }
        } else if scause >= INTERRUPT_BIT {
            if scause - INTERRUPT_BIT == INTERRUPT_SUPERVISOR_TIMER {
                TrapAction::Preempt
            } else {
                TrapAction::Kill(EXIT_MEMORY_FAULT)
            }
        } else if scause == CAUSE_ILLEGAL_INSTRUCTION {
            TrapAction::Kill(EXIT_ILLEGAL_INSTRUCTION)
        } else {
            TrapAction::Kill(EXIT_MEMORY_FAULT)
        }
    }

    /// Puts a system call's result in `a0`, as the signed word it is.
    pub fn set_return(&mut self, ret: isize)
        requires
            old(self).wf(),
        ensures
            final(self).wf(),
            final(self).regs() == old(self).regs().update(10, ret as usize),
            final(self).sepc == old(self).sepc,
            final(self).sstatus == old(self).sstatus,
    {
        self.x.set(10, ret as usize);
    }
}

} // verus!
