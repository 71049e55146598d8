use tg_kernel::frame::FrameAllocator;
use tg_kernel::memory::PAGE_SIZE;
use tg_kernel::stride::{ReadyQueue, StrideInfo, BIG_STRIDE};
use tg_kernel::task::{TaskTable, INITPROC_PID};

#[test]
fn fork_exit_wait() {
    let mut fa = FrameAllocator::new(0, 32);
    let mut table = TaskTable::new();
    let child = table.fork(&mut fa, INITPROC_PID);
    assert_eq!(child, 1);
    assert_eq!(table.waitpid(INITPROC_PID, child), (-2, 0));
    assert!(table.exit(&mut fa, child as usize, 42));
    assert_eq!(table.waitpid(INITPROC_PID, child), (child, 42));
    assert_eq!(table.waitpid(INITPROC_PID, child), (-1, 0));
    assert_eq!(table.waitpid(INITPROC_PID, -1), (-1, 0));
}

#[test]
fn wait_any_child() {
    let mut fa = FrameAllocator::new(0, 32);
    let mut table = TaskTable::new();
    let a = table.fork(&mut fa, INITPROC_PID);
    let b = table.fork(&mut fa, INITPROC_PID);
    assert_eq!((a, b), (1, 2));
    assert!(table.exit(&mut fa, b as usize, 7));
    assert_eq!(table.waitpid(INITPROC_PID, -1), (b, 7));
    assert_eq!(table.waitpid(INITPROC_PID, -1), (-2, 0));
    assert_eq!(table.waitpid(a as usize, -1), (-1, 0));
}

#[test]
fn exit_rules_and_reparenting() {
    let mut fa = FrameAllocator::new(0, 32);
    let mut table = TaskTable::new();
    let a = table.fork(&mut fa, INITPROC_PID);
    let grandchild = table.fork(&mut fa, a as usize);
    assert!(!table.exit(&mut fa, INITPROC_PID, 1));
    assert!(!table.exit(&mut fa, 99, 1));
    assert_eq!(table.fork(&mut fa, 99), -1);
    assert!(table.exit(&mut fa, a as usize, 3));
    assert!(!table.exit(&mut fa, a as usize, 3));
    assert!(table.exit(&mut fa, grandchild as usize, 5));
    assert_eq!(table.waitpid(a as usize, grandchild), (-1, 0));
    assert_eq!(table.waitpid(INITPROC_PID, grandchild), (grandchild, 5));
    assert_eq!(table.waitpid(INITPROC_PID, a), (a, 3));
}

#[test]
fn stride_priority_rules() {
    let mut s = StrideInfo::new();
    assert_eq!(s.set_priority(1), -1);
    assert_eq!(s.priority, 16);
    assert_eq!(s.set_priority(4), 4);
    assert_eq!(s.pass, BIG_STRIDE / 4);
    s.advance();
    s.advance();
    assert_eq!(s.stride, 2 * (BIG_STRIDE / 4));
}

#[test]
fn ready_queue_picks_smallest_then_earliest() {
    let mut q = ReadyQueue::new();
    q.push(1, 30);
    q.push(2, 10);
    q.push(3, 10);
    q.push(4, 20);
    assert_eq!(q.min_stride(), 10);
    assert_eq!(q.pop_min(), Some((2, 10)));
    assert_eq!(q.pop_min(), Some((3, 10)));
    assert_eq!(q.pop_min(), Some((4, 20)));
    assert_eq!(q.len(), 1);
    q.rebase(25);
    assert_eq!(q.pop_min(), Some((1, 5)));
    assert_eq!(q.pop_min(), None);
}

#[test]
fn stride_share_follows_priority() {
    let prios = [2u64, 4, 8, 16, 32];
    let mut info: Vec<StrideInfo> = Vec::new();
    let mut q = ReadyQueue::new();
    for (pid, &p) in prios.iter().enumerate() {
        let mut s = StrideInfo::new();
        s.set_priority(p as isize);
        q.push(pid, s.stride);
        info.push(s);
    }
    let mut ticks = [0u64; 5];
    for _ in 0..6200 {
        let (pid, _) = q.pop_min().unwrap();
        ticks[pid] += 1;
        info[pid].advance();
        q.push(pid, info[pid].stride);
    }
    for i in 0..5 {
        let expected = 6200.0 * prios[i] as f64 / 62.0;
        let got = ticks[i] as f64;
        assert!((got - expected).abs() <= 0.2 * expected, "task {} ran {} ticks, expected {}", i, got, expected);
    }
}

#[test]
fn forked_task_memory_is_freed_on_exit() {
    let mut fa = FrameAllocator::new(0, 8);
    let mut table = TaskTable::new();
    let child = table.fork(&mut fa, INITPROC_PID);
    assert!(child > 0);
    assert_eq!(fa.available(), 8);
    assert!(table.exit(&mut fa, child as usize, 0));
    assert_eq!(fa.available(), 8);
    let _ = PAGE_SIZE;
}
