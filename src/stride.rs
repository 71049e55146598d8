use vstd::prelude::*;

verus! {

/// Stride of a task of priority 1; a task of priority `p` advances by
/// `BIG_STRIDE / p` per quantum.
pub const BIG_STRIDE: u64 = 65536;

/// Priority a task starts with.
pub const DEFAULT_PRIORITY: u64 = 16;

/// Past this stride the ready queue is rebased (its minimum subtracted).
pub const STRIDE_THRESHOLD: u64 = 0x4000_0000_0000_0000;

/// Scheduling state of one task.
#[derive(Clone, Copy, PartialEq, Eq, Structural, Debug)]
pub struct StrideInfo {
    pub priority: u64,
    pub pass: u64,
    pub stride: u64,
}

impl StrideInfo {
    /// Default priority, stride 0.
    pub fn new() -> (r: Self)
        ensures
            r == (StrideInfo { priority: DEFAULT_PRIORITY, pass: BIG_STRIDE / DEFAULT_PRIORITY, stride: 0 }),
    {
        StrideInfo { priority: DEFAULT_PRIORITY, pass: BIG_STRIDE / DEFAULT_PRIORITY, stride: 0 }
    }

    /// Sets the priority to `n` and returns it; -1, and nothing changes,
    /// when `n < 2`.
    pub fn set_priority(&mut self, n: isize) -> (r: isize)
        ensures
            n >= 2 ==> r == n && *final(self) == (StrideInfo {
                priority: n as u64,
                pass: (BIG_STRIDE / (n as u64)) as u64,
                ..*old(self)
            }),
            n < 2 ==> r == -1 && *final(self) == *old(self),
    {
        if n < 2 {
            return -1;
        }
        let p = n as u64;
        self.priority = p;
        self.pass = BIG_STRIDE / p;
        n
    }

    /// Charges one quantum: the stride grows by the pass.
    pub fn advance(&mut self)
        requires
            old(self).stride + old(self).pass <= u64::MAX,
        ensures
            *final(self) == (StrideInfo { stride: (old(self).stride + old(self).pass) as u64, ..*old(self) }),
    {
        self.stride = self.stride + self.pass;
    }
}

/// Whether `i` is the task to run next in `s`: the smallest stride, and the
/// earliest arrival among equal strides.
pub open spec fn is_pick(s: Seq<(usize, u64)>, i: int) -> bool {
    &&& 0 <= i < s.len()
    &&& forall|k: int| 0 <= k < s.len() ==> s[i].1 <= #[trigger] s[k].1
    &&& forall|k: int| 0 <= k < i ==> s[i].1 < #[trigger] s[k].1
}

/// Ready tasks as (pid, stride), in order of arrival.
pub struct ReadyQueue {
    entries: Vec<(usize, u64)>,
}

impl View for ReadyQueue {
    type V = Seq<(usize, u64)>;

    closed spec fn view(&self) -> Seq<(usize, u64)> {
        self.entries@
    }
}

impl ReadyQueue {
    /// An empty queue.
    pub fn new() -> (r: Self)
        ensures
            r@ == Seq::<(usize, u64)>::empty(),
    {
        ReadyQueue { entries: Vec::new() }
    }

    /// Number of ready tasks.
    pub fn len(&self) -> (r: usize)
        ensures
            r == self@.len(),
    {
        self.entries.len()
    }

    /// Queues task `pid` with stride `stride` behind every other; a task
    /// that yields goes back this way, at the stride it had.
    pub fn push(&mut self, pid: usize, stride: u64)
        ensures
            final(self)@ == old(self)@.push((pid, stride)),
    {
        self.entries.push((pid, stride));
    }

    /// Takes out the task to run next (see `is_pick`); `None` when no task
    /// is ready.
    pub fn pop_min(&mut self) -> (r: Option<(usize, u64)>)
        ensures
            r is None <==> old(self)@.len() == 0,
            r is None ==> final(self)@ == old(self)@,
            r is Some ==> exists|i: int| {
                &&& is_pick(old(self)@, i)
                &&& r == Some(#[trigger] old(self)@[i])
                &&& final(self)@ == old(self)@.remove(i)
            },
    {
        if self.entries.len() == 0 {
            return None;
        }
        let mut best: usize = 0;
        let mut i: usize = 1;
        while i < self.entries.len()
            invariant
                1 <= i <= self.entries@.len(),
                best < i,
                self.entries@ == old(self).entries@,
                forall|k: int| 0 <= k < i ==> self.entries@[best as int].1 <= #[trigger] self.entries@[k].1,
                forall|k: int| 0 <= k < best ==> self.entries@[best as int].1 < #[trigger] self.entries@[k].1,
            decreases self.entries@.len() - i,
        {
            if self.entries[i].1 < self.entries[best].1 {
                best = i;
            }
            i = i + 1;
        }
        let e = self.entries.remove(best);
        assert(is_pick(old(self)@, best as int));
        Some(e)
    }

    /// The smallest stride of the queue (0 when empty).
    pub fn min_stride(&self) -> (r: u64)
        ensures
            self@.len() == 0 ==> r == 0,
            self@.len() > 0 ==> (exists|i: int| 0 <= i < self@.len() && r == #[trigger] self@[i].1)
                && forall|k: int| 0 <= k < self@.len() ==> r <= #[trigger] self@[k].1,
    {
        if self.entries.len() == 0 {
            return 0;
        }
        let mut m = self.entries[0].1;
        let mut i: usize = 1;
        while i < self.entries.len()
            invariant
                1 <= i <= self.entries@.len(),
                exists|j: int| 0 <= j < i && m == #[trigger] self.entries@[j].1,
                forall|k: int| 0 <= k < i ==> m <= #[trigger] self.entries@[k].1,
            decreases self.entries@.len() - i,
        {
            if self.entries[i].1 < m {
                m = self.entries[i].1;
            }
            i = i + 1;
        }
        m
    }

    /// Subtracts `base`, at most the smallest stride, from every stride, so
    /// strides stay far from overflow; the order of tasks, by stride and by
    /// arrival, is unchanged.
    pub fn rebase(&mut self, base: u64)
        requires
            forall|k: int| 0 <= k < old(self)@.len() ==> base <= #[trigger] old(self)@[k].1,
        ensures
            final(self)@.len() == old(self)@.len(),
            forall|k: int| 0 <= k < old(self)@.len() ==> #[trigger] final(self)@[k] == (old(self)@[k].0, (old(self)@[k].1 - base) as u64),
            forall|i: int, j: int| 0 <= i < old(self)@.len() && 0 <= j < old(self)@.len() ==>
                (#[trigger] final(self)@[i].1 < #[trigger] final(self)@[j].1 <==> old(self)@[i].1 < old(self)@[j].1),
    {
        let mut out: Vec<(usize, u64)> = Vec::new();
        let mut i: usize = 0;
        assert forall|k: int| 0 <= k < self.entries@.len() implies base <= #[trigger] self.entries@[k].1 by {
            assert(old(self)@[k] == self.entries@[k]);
        }
        while i < self.entries.len()
            invariant
                i <= self.entries@.len(),
                self.entries@ == old(self).entries@,
                forall|k: int| 0 <= k < self.entries@.len() ==> base <= #[trigger] self.entries@[k].1,
                out@.len() == i,
                forall|k: int| 0 <= k < i ==> #[trigger] out@[k] == (self.entries@[k].0, (self.entries@[k].1 - base) as u64),
            decreases self.entries@.len() - i,
        {
            let (pid, s) = self.entries[i];
            out.push((pid, s - base));
            i = i + 1;
        }
        self.entries = out;
    }
}

} // verus!
