use vstd::prelude::*;
use vstd::set_lib::*;

use crate::frame::{lemma_frame_conservation, FrameAllocator};
use crate::loader::{elf_loadable, from_elf, image_mapped, USER_STACK_SIZE};
use crate::memory::{user_byte, PAGE_SIZE};
use crate::memory::{AddressSpace, PageView};

verus! {

/// Pid of the initial task, which adopts orphans and is never reaped.
pub const INITPROC_PID: usize = 0;

/// Lifecycle state of a task.
#[derive(Clone, Copy, PartialEq, Eq, Structural, Debug)]
pub enum TaskStatus {
    Ready,
    Running,
    Blocked,
    Zombie,
}

/// One task: its pid, its parent's pid, its state, its exit code once it has
/// exited, and its user address space.
pub struct Task {
    pid: usize,
    parent: usize,
    status: TaskStatus,
    exit_code: i32,
    space: AddressSpace,
}

/// What the table holds for one pid.
pub struct TaskView {
    pub parent: usize,
    pub status: TaskStatus,
    pub exit_code: i32,
    pub mem: Map<int, PageView>,
    pub frames: Set<int>,
    pub pages: nat,
}

/// All live and zombie tasks, by pid.
pub struct TaskTable {
    tasks: Vec<Task>,
    next_pid: usize,
}

pub closed spec fn task_view(t: Task) -> TaskView {
    TaskView {
        parent: t.parent,
        status: t.status,
        exit_code: t.exit_code,
        mem: t.space@,
        frames: t.space.frames(),
        pages: t.space.page_count(),
    }
}

/// Whether task `child` (with entry `v`) is a child of `parent` that
/// `waitpid(parent, pid)` waits for: any child for pid -1, else the child
/// with that pid. The initial task, its own parent, is no child of itself.
pub open spec fn matches(parent: usize, pid: isize, child: int, v: TaskView) -> bool {
    child != parent && v.parent == parent && (pid == -1 || pid as int == child)
}

impl View for TaskTable {
    type V = Map<int, TaskView>;

    closed spec fn view(&self) -> Map<int, TaskView> {
        Map::new(
            |p: int| exists|i: int| 0 <= i < self.tasks@.len() && #[trigger] self.tasks@[i].pid as int == p,
            |p: int| {
                let i = choose|i: int| 0 <= i < self.tasks@.len() && #[trigger] self.tasks@[i].pid as int == p;
                task_view(self.tasks@[i])
            },
        )
    }
}

impl TaskTable {
    /// Pids are unique and below `next_pid`; each address space is sound;
    /// no frame is owned by two tasks; a zombie owns no memory.
    pub closed spec fn wf(&self) -> bool {
        &&& forall|i: int, j: int|
            0 <= i < j < self.tasks@.len() ==> {
                &&& #[trigger] self.tasks@[i].pid != #[trigger] self.tasks@[j].pid
                &&& self.tasks@[i].space.frames().disjoint(self.tasks@[j].space.frames())
            }
        &&& self.next_pid <= isize::MAX
        &&& forall|i: int|
            0 <= i < self.tasks@.len() ==> {
                &&& (#[trigger] self.tasks@[i]).space.wf()
                &&& self.tasks@[i].pid < self.next_pid
                &&& self.tasks@[i].status == TaskStatus::Zombie ==> self.tasks@[i].space.frames() == Set::<int>::empty()
            }
    }

    /// Whether another pid can still be handed out.
    pub closed spec fn pids_left(&self) -> bool {
        self.next_pid < isize::MAX
    }

    /// Every frame owned by some task.
    pub closed spec fn owned(&self) -> Set<int> {
        Set::new(|f: int| exists|i: int| 0 <= i < self.tasks@.len() && (#[trigger] self.tasks@[i]).space.frames().contains(f))
    }

    proof fn lemma_task_in_view(&self, i: int)
        requires
            self.wf(),
            0 <= i < self.tasks@.len(),
        ensures
            self@.contains_key(self.tasks@[i].pid as int),
            self@[self.tasks@[i].pid as int] == task_view(self.tasks@[i]),
    {
        let p = self.tasks@[i].pid as int;
        assert(self@.contains_key(p));
        let c = choose|c: int| 0 <= c < self.tasks@.len() && #[trigger] self.tasks@[c].pid as int == p;
        if c < i {
            assert(self.tasks@[c].pid != self.tasks@[i].pid);
        } else if c > i {
            assert(self.tasks@[i].pid != self.tasks@[c].pid);
        }
    }

    /// Frames of different tasks never overlap, and each task's frames are
    /// among those owned.
    pub proof fn lemma_frames_disjoint(&self)
        requires
            self.wf(),
        ensures
            forall|p: int, q: int|
                #[trigger] self@.contains_key(p) && #[trigger] self@.contains_key(q) && p != q ==> self@[p].frames.disjoint(self@[q].frames),
            forall|p: int| #[trigger] self@.contains_key(p) ==> self@[p].frames.subset_of(self.owned()),
    {
        assert forall|p: int, q: int|
            #[trigger] self@.contains_key(p) && #[trigger] self@.contains_key(q) && p != q implies self@[p].frames.disjoint(self@[q].frames) by {
            let i = choose|i: int| 0 <= i < self.tasks@.len() && #[trigger] self.tasks@[i].pid as int == p;
            let j = choose|j: int| 0 <= j < self.tasks@.len() && #[trigger] self.tasks@[j].pid as int == q;
            self.lemma_task_in_view(i);
            self.lemma_task_in_view(j);
            if i < j {
                assert(self.tasks@[i].pid != self.tasks@[j].pid);
            } else {
                assert(self.tasks@[j].pid != self.tasks@[i].pid);
            }
        }
        assert forall|p: int| #[trigger] self@.contains_key(p) implies self@[p].frames.subset_of(self.owned()) by {
            let i = choose|i: int| 0 <= i < self.tasks@.len() && #[trigger] self.tasks@[i].pid as int == p;
            self.lemma_task_in_view(i);
            assert forall|f: int| self@[p].frames.contains(f) implies self.owned().contains(f) by {
                assert(self.tasks@[i].space.frames().contains(f));
            }
        }
    }

    /// A table holding only the initial task, with no memory yet.
    pub fn new() -> (r: Self)
        ensures
            r.wf(),
            r.owned() == Set::<int>::empty(),
            r@.dom() == set![INITPROC_PID as int],
            r@[INITPROC_PID as int].status == TaskStatus::Ready,
            r@[INITPROC_PID as int].parent == INITPROC_PID,
    {
        let init = Task {
            pid: INITPROC_PID,
            parent: INITPROC_PID,
            status: TaskStatus::Ready,
            exit_code: 0,
            space: AddressSpace::new(),
        };
        let mut tasks: Vec<Task> = Vec::new();
        tasks.push(init);
        let r = TaskTable { tasks, next_pid: 1 };
        proof {
            r.lemma_task_in_view(0);
            assert(r@.dom() =~= set![INITPROC_PID as int]);
            assert(r.owned() =~= Set::<int>::empty());
        }
        r
    }

    fn find(&self, pid: usize) -> (r: Option<usize>)
        requires
            self.wf(),
        ensures
            r is None <==> !self@.contains_key(pid as int),
            r is Some ==> r->Some_0 < self.tasks@.len() && self.tasks@[r->Some_0 as int].pid == pid,
    {
        let mut i: usize = 0;
        while i < self.tasks.len()
            invariant
                i <= self.tasks@.len(),
                forall|j: int| 0 <= j < i ==> self.tasks@[j].pid != pid,
            decreases self.tasks@.len() - i,
        {
            if self.tasks[i].pid == pid {
                return Some(i);
            }
            i = i + 1;
        }
        None
    }

    fn take(&mut self, i: usize) -> (r: Task)
        requires
            old(self).wf(),
            i < old(self).tasks@.len(),
        ensures
            final(self).wf(),
            final(self).next_pid == old(self).next_pid,
            r == old(self).tasks@[i as int],
            old(self)@.contains_key(r.pid as int),
            old(self)@[r.pid as int] == task_view(r),
            r.space.wf(),
            r.pid < final(self).next_pid,
            r.space.frames().disjoint(final(self).owned()),
            old(self).owned() == final(self).owned().union(r.space.frames()),
            final(self)@ == old(self)@.remove(r.pid as int),
    {
        proof { self.lemma_task_in_view(i as int); }
        let ghost old_tasks = self.tasks@;
        let ghost before = self@;
        let t = self.tasks.remove(i);
        proof {
            let len = self.tasks@.len();
            let pid = t.pid as int;
            assert forall|j: int| 0 <= j < len implies #[trigger] self.tasks@[j] == old_tasks[if j < i { j } else { j + 1 }] by {}
            assert forall|a: int, b: int| 0 <= a < b < len implies {
                &&& #[trigger] self.tasks@[a].pid != #[trigger] self.tasks@[b].pid
                &&& self.tasks@[a].space.frames().disjoint(self.tasks@[b].space.frames())
            } by {
                let a0 = if a < i { a } else { a + 1 };
                let b0 = if b < i { b } else { b + 1 };
                assert(old_tasks[a0].pid != old_tasks[b0].pid);
            }
            assert forall|j: int| 0 <= j < len implies {
                &&& (#[trigger] self.tasks@[j]).space.wf()
                &&& self.tasks@[j].pid < self.next_pid
                &&& self.tasks@[j].status == TaskStatus::Zombie ==> self.tasks@[j].space.frames() == Set::<int>::empty()
            } by {
                let j0 = if j < i { j } else { j + 1 };
                assert(old_tasks[j0] == self.tasks@[j]);
            }
            assert(self.wf());
            assert forall|p: int| #[trigger] self@.contains_key(p) == before.remove(pid).contains_key(p) by {
                if before.remove(pid).contains_key(p) {
                    let c = choose|c: int| 0 <= c < old_tasks.len() && #[trigger] old_tasks[c].pid as int == p;
                    assert(c != i);
                    let c1 = if c < i { c } else { c - 1 };
                    assert(self.tasks@[c1].pid as int == p);
                }
                if self@.contains_key(p) {
                    let c = choose|c: int| 0 <= c < len && #[trigger] self.tasks@[c].pid as int == p;
                    let c0 = if c < i { c } else { c + 1 };
                    assert(old_tasks[c0].pid as int == p);
                    if c0 < i {
                        assert(old_tasks[c0].pid != old_tasks[i as int].pid);
                    } else {
                        assert(old_tasks[i as int].pid != old_tasks[c0].pid);
                    }
                }
            }
            assert forall|p: int| #[trigger] self@.contains_key(p) implies self@[p] == before.remove(pid)[p] by {
                let c = choose|c: int| 0 <= c < len && #[trigger] self.tasks@[c].pid as int == p;
                self.lemma_task_in_view(c);
                let c0 = if c < i { c } else { c + 1 };
                old(self).lemma_task_in_view(c0);
            }
            assert(self@ =~= before.remove(pid));
            assert forall|f: int| #[trigger] old(self).owned().contains(f) == self.owned().union(t.space.frames()).contains(f) by {
                if old(self).owned().contains(f) {
                    let c = choose|c: int| 0 <= c < old_tasks.len() && (#[trigger] old_tasks[c]).space.frames().contains(f);
                    if c != i {
                        let c1 = if c < i { c } else { c - 1 };
                        assert(self.tasks@[c1].space.frames().contains(f));
                    }
                }
                if self.owned().contains(f) {
                    let c = choose|c: int| 0 <= c < len && (#[trigger] self.tasks@[c]).space.frames().contains(f);
                    let c0 = if c < i { c } else { c + 1 };
                    assert(old_tasks[c0].space.frames().contains(f));
                }
            }
            assert(old(self).owned() =~= self.owned().union(t.space.frames()));
            assert forall|f: int| t.space.frames().contains(f) implies !self.owned().contains(f) by {
                if self.owned().contains(f) {
                    let c = choose|c: int| 0 <= c < len && (#[trigger] self.tasks@[c]).space.frames().contains(f);
                    let c0 = if c < i { c } else { c + 1 };
                    if c0 < i {
                        assert(old_tasks[c0].pid != old_tasks[i as int].pid);
                    } else {
                        assert(old_tasks[i as int].pid != old_tasks[c0].pid);
                    }
                    assert(old_tasks[c0].space.frames().contains(f));
                }
            }
        }
        t
    }

    fn put(&mut self, t: Task)
        requires
            old(self).wf(),
            !old(self)@.contains_key(t.pid as int),
            t.pid < old(self).next_pid,
            t.space.wf(),
            t.status == TaskStatus::Zombie ==> t.space.frames() == Set::<int>::empty(),
            t.space.frames().disjoint(old(self).owned()),
        ensures
            final(self).wf(),
            final(self).next_pid == old(self).next_pid,
            final(self)@ == old(self)@.insert(t.pid as int, task_view(t)),
            final(self).owned() == old(self).owned().union(t.space.frames()),
    {
        let ghost old_tasks = self.tasks@;
        let ghost before = self@;
        let ghost tv = task_view(t);
        let ghost pid = t.pid as int;
        let ghost tf = t.space.frames();
        self.tasks.push(t);
        proof {
            let len = self.tasks@.len();
            assert forall|a: int, b: int| 0 <= a < b < len implies {
                &&& #[trigger] self.tasks@[a].pid != #[trigger] self.tasks@[b].pid
                &&& self.tasks@[a].space.frames().disjoint(self.tasks@[b].space.frames())
            } by {
                if b == len - 1 {
                    old(self).lemma_task_in_view(a);
                    assert forall|f: int| self.tasks@[a].space.frames().contains(f) implies !tf.contains(f) by {
                        assert(old(self).owned().contains(f)) by {
                            assert(old_tasks[a].space.frames().contains(f));
                        }
                    }
                } else {
                    assert(old_tasks[a].pid != old_tasks[b].pid);
                }
            }
            assert forall|j: int| 0 <= j < len implies {
                &&& (#[trigger] self.tasks@[j]).space.wf()
                &&& self.tasks@[j].pid < self.next_pid
                &&& self.tasks@[j].status == TaskStatus::Zombie ==> self.tasks@[j].space.frames() == Set::<int>::empty()
            } by {
                if j < len - 1 {
                    assert(old_tasks[j] == self.tasks@[j]);
                }
            }
            assert(self.wf());
            assert forall|p: int| #[trigger] self@.contains_key(p) == before.insert(pid, tv).contains_key(p) by {
                if before.contains_key(p) {
                    let c = choose|c: int| 0 <= c < old_tasks.len() && #[trigger] old_tasks[c].pid as int == p;
                    assert(self.tasks@[c].pid as int == p);
                }
                if p == pid {
                    assert(self.tasks@[len - 1].pid as int == p);
                }
            }
            assert forall|p: int| #[trigger] self@.contains_key(p) implies self@[p] == before.insert(pid, tv)[p] by {
                let c = choose|c: int| 0 <= c < len && #[trigger] self.tasks@[c].pid as int == p;
                self.lemma_task_in_view(c);
                if c < len - 1 {
                    old(self).lemma_task_in_view(c);
                }
            }
            assert(self@ =~= before.insert(pid, tv));
            assert forall|f: int| #[trigger] self.owned().contains(f) == old(self).owned().union(tf).contains(f) by {
                if old(self).owned().contains(f) {
                    let c = choose|c: int| 0 <= c < old_tasks.len() && (#[trigger] old_tasks[c]).space.frames().contains(f);
                    assert(self.tasks@[c].space.frames().contains(f));
                }
                if tf.contains(f) {
                    assert(self.tasks@[len - 1].space.frames().contains(f));
                }
                if self.owned().contains(f) {
                    let c = choose|c: int| 0 <= c < len && (#[trigger] self.tasks@[c]).space.frames().contains(f);
                    if c < len - 1 {
                        assert(old_tasks[c].space.frames().contains(f));
                    }
                }
            }
            assert(self.owned() =~= old(self).owned().union(tf));
        }
    }

    /// Frames owned by tasks other than the one at index `i`.
    closed spec fn owned_except(&self, i: int) -> Set<int> {
        Set::new(|f: int| exists|j: int| 0 <= j < self.tasks@.len() && j != i && (#[trigger] self.tasks@[j]).space.frames().contains(f))
    }

    fn replace_at(&mut self, i: usize, t: Task) -> (r: Task)
        requires
            old(self).wf(),
            i < old(self).tasks@.len(),
            t.pid == old(self).tasks@[i as int].pid,
            t.space.wf(),
            t.status == TaskStatus::Zombie ==> t.space.frames() == Set::<int>::empty(),
            t.space.frames().disjoint(old(self).owned_except(i as int)),
        ensures
            final(self).wf(),
            final(self).next_pid == old(self).next_pid,
            r == old(self).tasks@[i as int],
            final(self).tasks@ == old(self).tasks@.update(i as int, t),
            final(self)@ == old(self)@.insert(t.pid as int, task_view(t)),
            old(self).owned() == old(self).owned_except(i as int).union(r.space.frames()),
            final(self).owned() == old(self).owned_except(i as int).union(t.space.frames()),
            final(self).owned_except(i as int) == old(self).owned_except(i as int),
            r.space.frames().disjoint(old(self).owned_except(i as int)),
    {
        proof { self.lemma_task_in_view(i as int); }
        let ghost old_tasks = self.tasks@;
        let ghost before = self@;
        let ghost others = self.owned_except(i as int);
        let ghost tv = task_view(t);
        let ghost tf = t.space.frames();
        let r = self.tasks.remove(i);
        self.tasks.insert(i, t);
        proof {
            let len = self.tasks@.len();
            assert(self.tasks@ =~= old_tasks.update(i as int, t));
            assert forall|a: int, b: int| 0 <= a < b < len implies {
                &&& #[trigger] self.tasks@[a].pid != #[trigger] self.tasks@[b].pid
                &&& self.tasks@[a].space.frames().disjoint(self.tasks@[b].space.frames())
            } by {
                assert(old_tasks[a].pid != old_tasks[b].pid);
                if a == i {
                    assert forall|f: int| self.tasks@[b].space.frames().contains(f) implies !tf.contains(f) by {
                        assert(others.contains(f));
                    }
                } else if b == i {
                    assert forall|f: int| self.tasks@[a].space.frames().contains(f) implies !tf.contains(f) by {
                        assert(others.contains(f));
                    }
                }
            }
            assert forall|j: int| 0 <= j < len implies {
                &&& (#[trigger] self.tasks@[j]).space.wf()
                &&& self.tasks@[j].pid < self.next_pid
                &&& self.tasks@[j].status == TaskStatus::Zombie ==> self.tasks@[j].space.frames() == Set::<int>::empty()
            } by {
                if j != i {
                    assert(old_tasks[j] == self.tasks@[j]);
                } else {
                    assert(old_tasks[j].pid == t.pid);
                }
            }
            assert(self.wf());
            let pid = t.pid as int;
            assert forall|p: int| #[trigger] self@.contains_key(p) == before.insert(pid, tv).contains_key(p) by {
                if before.contains_key(p) {
                    let c = choose|c: int| 0 <= c < len && #[trigger] old_tasks[c].pid as int == p;
                    assert(self.tasks@[c].pid as int == p);
                }
                if p == pid {
                    assert(self.tasks@[i as int].pid as int == p);
                }
                if self@.contains_key(p) {
                    let c = choose|c: int| 0 <= c < len && #[trigger] self.tasks@[c].pid as int == p;
                    assert(old_tasks[c].pid as int == p);
                }
            }
            assert forall|p: int| #[trigger] self@.contains_key(p) implies self@[p] == before.insert(pid, tv)[p] by {
                let c = choose|c: int| 0 <= c < len && #[trigger] self.tasks@[c].pid as int == p;
                self.lemma_task_in_view(c);
                old(self).lemma_task_in_view(c);
            }
            assert(self@ =~= before.insert(pid, tv));
            assert forall|f: int| #[trigger] old(self).owned().contains(f) == others.union(r.space.frames()).contains(f) by {
                if old(self).owned().contains(f) {
                    let c = choose|c: int| 0 <= c < len && (#[trigger] old_tasks[c]).space.frames().contains(f);
                    if c != i {
                        assert(others.contains(f));
                    }
                }
                if others.contains(f) {
                    let c = choose|c: int| 0 <= c < len && c != i && (#[trigger] old_tasks[c]).space.frames().contains(f);
                    assert(old(self).owned().contains(f));
                }
                if r.space.frames().contains(f) {
                    assert(old_tasks[i as int].space.frames().contains(f));
                }
            }
            assert(old(self).owned() =~= others.union(r.space.frames()));
            assert forall|f: int| #[trigger] self.owned().contains(f) == others.union(tf).contains(f) by {
                if self.owned().contains(f) {
                    let c = choose|c: int| 0 <= c < len && (#[trigger] self.tasks@[c]).space.frames().contains(f);
                    if c != i {
                        assert(old_tasks[c].space.frames().contains(f));
                        assert(others.contains(f));
                    }
                }
                if others.contains(f) {
                    let c = choose|c: int| 0 <= c < len && c != i && (#[trigger] old_tasks[c]).space.frames().contains(f);
                    assert(self.tasks@[c].space.frames().contains(f));
                }
                if tf.contains(f) {
                    assert(self.tasks@[i as int].space.frames().contains(f));
                }
            }
            assert(self.owned() =~= others.union(tf));
            assert forall|f: int| #[trigger] self.owned_except(i as int).contains(f) == others.contains(f) by {
                if others.contains(f) {
                    let c = choose|c: int| 0 <= c < len && c != i && (#[trigger] old_tasks[c]).space.frames().contains(f);
                    assert(self.tasks@[c].space.frames().contains(f));
                }
                if self.owned_except(i as int).contains(f) {
                    let c = choose|c: int| 0 <= c < len && c != i && (#[trigger] self.tasks@[c]).space.frames().contains(f);
                    assert(old_tasks[c].space.frames().contains(f));
                }
            }
            assert(self.owned_except(i as int) =~= others);
            assert forall|f: int| r.space.frames().contains(f) implies !others.contains(f) by {
                if others.contains(f) {
                    let c = choose|c: int| 0 <= c < len && c != i && (#[trigger] old_tasks[c]).space.frames().contains(f);
                    if c < i {
                        assert(old_tasks[c].pid != old_tasks[i as int].pid);
                    } else {
                        assert(old_tasks[i as int].pid != old_tasks[c].pid);
                    }
                }
            }
        }
        r
    }

    /// Forks task `parent`: the child gets the next pid, a copy of the
    /// parent's memory in fresh frames, and starts ready. Returns the
    /// child's pid; -1, and nothing changes, when `parent` is unknown, pids
    /// are exhausted, or frames are short.
    pub fn fork(&mut self, fa: &mut FrameAllocator, parent: usize) -> (r: isize)
        requires
            old(self).wf(),
            old(fa).wf(),
            old(self).owned().subset_of(old(fa).allocated()),
        ensures
            final(self).wf(),
            final(fa).wf(),
            final(self).owned().subset_of(final(fa).allocated()),
            final(fa).start_spec() == old(fa).start_spec(),
            final(fa).end_spec() == old(fa).end_spec(),
            r == -1 || r >= 0,
            !old(self)@.contains_key(parent as int) ==> r == -1,
            old(self)@.contains_key(parent as int) && old(self).pids_left()
                && old(fa).free_count() >= old(self)@[parent as int].pages ==> r >= 0,
            r == -1 ==> final(self)@ == old(self)@ && final(fa).allocated() == old(fa).allocated(),
            r >= 0 ==> {
                let pv = old(self)@[parent as int];
                let cv = final(self)@[r as int];
                &&& old(self)@.contains_key(parent as int)
                &&& !old(self)@.contains_key(r as int)
                &&& final(self)@ == old(self)@.insert(r as int, cv)
                &&& cv.parent == parent
                &&& cv.status == TaskStatus::Ready
                &&& cv.exit_code == 0
                &&& cv.mem.dom() == pv.mem.dom()
                &&& forall|v: int| #[trigger] cv.mem.contains_key(v) ==> cv.mem[v].bytes == pv.mem[v].bytes && cv.mem[v].perm == pv.mem[v].perm
                &&& cv.frames.disjoint(old(fa).allocated())
                &&& final(fa).allocated() == old(fa).allocated().union(cv.frames)
            },
    {
        let i = match self.find(parent) {
            None => { return -1; },
            Some(i) => i,
        };
        if self.next_pid >= isize::MAX as usize {
            return -1;
        }
        proof { self.lemma_task_in_view(i as int); }
        let child = match self.tasks[i].space.fork(fa) {
            None => { return -1; },
            Some(c) => c,
        };
        let pid = self.next_pid;
        self.next_pid = self.next_pid + 1;
        proof {
            assert(forall|j: int| 0 <= j < self.tasks@.len() ==> (#[trigger] self.tasks@[j]).pid < self.next_pid);
            assert(self.wf());
            assert(!self@.contains_key(pid as int)) by {
                if self@.contains_key(pid as int) {
                    let c = choose|c: int| 0 <= c < self.tasks@.len() && #[trigger] self.tasks@[c].pid as int == pid as int;
                    assert(self.tasks@[c].pid < old(self).next_pid);
                }
            }
            assert forall|f: int| child.frames().contains(f) implies !self.owned().contains(f) by {
                assert(!old(fa).allocated().contains(f));
            }
        }
        let t = Task { pid, parent, status: TaskStatus::Ready, exit_code: 0, space: child };
        self.put(t);
        proof {
            assert(self@[pid as int] == task_view(t));
            assert(self.owned() =~= old(self).owned().union(t.space.frames()));
        }
        pid as isize
    }

    /// Task `pid` exits with `code`: it becomes a zombie holding the code,
    /// its memory is freed, and its children pass to the initial task.
    /// Returns false, and nothing changes, for an unknown pid, the initial
    /// task, or a zombie.
    pub fn exit(&mut self, fa: &mut FrameAllocator, pid: usize, code: i32) -> (r: bool)
        requires
            old(self).wf(),
            old(fa).wf(),
            old(self).owned().subset_of(old(fa).allocated()),
        ensures
            final(self).wf(),
            final(fa).wf(),
            final(self).owned().subset_of(final(fa).allocated()),
            final(fa).start_spec() == old(fa).start_spec(),
            final(fa).end_spec() == old(fa).end_spec(),
            r == (old(self)@.contains_key(pid as int) && pid != INITPROC_PID
                && old(self)@[pid as int].status != TaskStatus::Zombie),
            !r ==> final(self)@ == old(self)@ && final(fa).allocated() == old(fa).allocated(),
            r ==> {
                &&& final(self)@.dom() == old(self)@.dom()
                &&& final(self)@[pid as int].status == TaskStatus::Zombie
                &&& final(self)@[pid as int].exit_code == code
                &&& final(self)@[pid as int].mem == Map::<int, PageView>::empty()
                &&& final(self)@[pid as int].frames == Set::<int>::empty()
                &&& final(fa).allocated() == old(fa).allocated().difference(old(self)@[pid as int].frames)
                &&& forall|q: int| #[trigger] final(self)@.contains_key(q) ==> {
                    &&& final(self)@[q].parent == (if old(self)@[q].parent == pid { INITPROC_PID } else { old(self)@[q].parent })
                    &&& q != pid ==> final(self)@[q].status == old(self)@[q].status
                        && final(self)@[q].exit_code == old(self)@[q].exit_code
                        && final(self)@[q].mem == old(self)@[q].mem
                        && final(self)@[q].frames == old(self)@[q].frames
                }
            },
    {
        let i = match self.find(pid) {
            None => { return false; },
            Some(i) => i,
        };
        proof { self.lemma_task_in_view(i as int); }
        if pid == INITPROC_PID || self.tasks[i].status == TaskStatus::Zombie {
            return false;
        }
        let ghost v0 = self@;
        let ghost alloc0 = fa.allocated();
        let placeholder = Task {
            pid,
            parent: INITPROC_PID,
            status: TaskStatus::Ready,
            exit_code: 0,
            space: AddressSpace::new(),
        };
        proof {
            assert(placeholder.space.frames().disjoint(self.owned_except(i as int)));
        }
        let mut t = self.replace_at(i, placeholder);
        proof {
            assert(t.space.frames().subset_of(fa.allocated()));
        }
        t.space.clear(fa);
        let new_parent = if t.parent == pid { INITPROC_PID } else { t.parent };
        let z = Task { pid, parent: new_parent, status: TaskStatus::Zombie, exit_code: code, space: t.space };
        proof {
            assert(z.space.frames().disjoint(self.owned_except(i as int)));
        }
        let ghost tz = task_view(z);
        self.replace_at(i, z);
        let ghost v1 = self@;
        proof {
            assert(v1 == v0.insert(pid as int, tz));
            assert(tz.parent == (if v0[pid as int].parent == pid { INITPROC_PID } else { v0[pid as int].parent }));
            assert(tz.parent != pid);
            assert(tz.mem == Map::<int, PageView>::empty());
            assert(tz.frames == Set::<int>::empty());
            assert(self.owned() =~= old(self).owned().difference(v0[pid as int].frames));
        }
        let ghost t1 = self.tasks@;
        let ghost owned1 = self.owned();
        let mut j: usize = 0;
        while j < self.tasks.len()
            invariant
                j <= self.tasks@.len(),
                self.wf(),
                self.tasks@.len() == t1.len(),
                self.owned() == owned1,
                forall|k: int| 0 <= k < t1.len() ==> {
                    &&& (#[trigger] self.tasks@[k]).pid == t1[k].pid
                    &&& self.tasks@[k].status == t1[k].status
                    &&& self.tasks@[k].exit_code == t1[k].exit_code
                    &&& self.tasks@[k].space == t1[k].space
                    &&& self.tasks@[k].parent == if k < j && t1[k].parent == pid { INITPROC_PID } else { t1[k].parent }
                },
            decreases self.tasks@.len() - j,
        {
            if self.tasks[j].parent == pid {
                let q = self.tasks[j].pid;
                let ph = Task { pid: q, parent: INITPROC_PID, status: TaskStatus::Ready, exit_code: 0, space: AddressSpace::new() };
                proof { assert(ph.space.frames().disjoint(self.owned_except(j as int))); }
                let c = self.replace_at(j, ph);
                let back = Task { pid: q, parent: INITPROC_PID, status: c.status, exit_code: c.exit_code, space: c.space };
                self.replace_at(j, back);
            }
            j = j + 1;
        }
        proof {
            assert forall|q: int| #[trigger] self@.contains_key(q) == v1.contains_key(q) by {
                if v1.contains_key(q) {
                    let c = choose|c: int| 0 <= c < t1.len() && #[trigger] t1[c].pid as int == q;
                    assert(self.tasks@[c].pid as int == q);
                }
                if self@.contains_key(q) {
                    let c = choose|c: int| 0 <= c < t1.len() && #[trigger] self.tasks@[c].pid as int == q;
                    assert(t1[c].pid as int == q);
                }
            }
            assert(self@.dom() =~= v1.dom());
            assert forall|q: int| #[trigger] self@.contains_key(q) implies {
                &&& self@[q].parent == (if v1[q].parent == pid { INITPROC_PID } else { v1[q].parent })
                &&& self@[q].status == v1[q].status
                &&& self@[q].exit_code == v1[q].exit_code
                &&& self@[q].mem == v1[q].mem
                &&& self@[q].frames == v1[q].frames
            } by {
                let c = choose|c: int| 0 <= c < t1.len() && #[trigger] self.tasks@[c].pid as int == q;
                self.lemma_task_in_view(c);
                assert(t1[c].pid as int == q);
                assert(v1.contains_key(q));
                let c1 = choose|c1: int| 0 <= c1 < t1.len() && #[trigger] t1[c1].pid as int == q;
                if c1 != c {
                    if c1 < c {
                        assert(self.tasks@[c1].pid != self.tasks@[c].pid);
                    } else {
                        assert(self.tasks@[c].pid != self.tasks@[c1].pid);
                    }
                }
            }
            assert(v1.dom() =~= v0.dom());
            assert(self@.dom() =~= old(self)@.dom());
            assert(self@[pid as int].status == TaskStatus::Zombie);
            assert(self@[pid as int].exit_code == code);
            assert(self@[pid as int].mem == Map::<int, PageView>::empty());
            assert(self@[pid as int].frames == Set::<int>::empty());
            assert forall|q: int| #[trigger] self@.contains_key(q) implies {
                &&& self@[q].parent == (if old(self)@[q].parent == pid { INITPROC_PID } else { old(self)@[q].parent })
                &&& q != pid ==> self@[q].status == old(self)@[q].status
                    && self@[q].exit_code == old(self)@[q].exit_code
                    && self@[q].mem == old(self)@[q].mem
                    && self@[q].frames == old(self)@[q].frames
            } by {
                if q != pid as int {
                    assert(v1[q] == v0[q]);
                }
            }
        }
        true
    }

    /// Starts a new child of `parent` running executable `image` (fork and
    /// exec in one step: nothing is copied from the parent). Returns the
    /// child's pid; -1, and nothing changes, when `parent` is unknown, pids
    /// are exhausted, or the image cannot be loaded.
    pub fn spawn(&mut self, fa: &mut FrameAllocator, parent: usize, image: &Vec<u8>) -> (r: isize)
        requires
            old(self).wf(),
            old(fa).wf(),
            old(self).owned().subset_of(old(fa).allocated()),
        ensures
            final(self).wf(),
            final(fa).wf(),
            final(self).owned().subset_of(final(fa).allocated()),
            final(fa).start_spec() == old(fa).start_spec(),
            final(fa).end_spec() == old(fa).end_spec(),
            r == -1 || r >= 0,
            !old(self)@.contains_key(parent as int) ==> r == -1,
            old(self)@.contains_key(parent as int) && old(self).pids_left()
                && elf_loadable(image@, old(fa).free_count()) ==> r >= 0,
            r == -1 ==> final(self)@ == old(self)@ && final(fa).allocated() == old(fa).allocated(),
            r >= 0 ==> {
                let cv = final(self)@[r as int];
                &&& old(self)@.contains_key(parent as int)
                &&& !old(self)@.contains_key(r as int)
                &&& final(self)@ == old(self)@.insert(r as int, cv)
                &&& cv.parent == parent
                &&& cv.status == TaskStatus::Ready
                &&& cv.exit_code == 0
                &&& image_mapped(image@, cv.mem)
                &&& cv.frames.disjoint(old(fa).allocated())
                &&& final(fa).allocated() == old(fa).allocated().union(cv.frames)
            },
    {
        if self.find(parent).is_none() || self.next_pid >= isize::MAX as usize {
            return -1;
        }
        let (space, _entry, _sp) = match from_elf(fa, image) {
            None => { return -1; },
            Some(x) => x,
        };
        let pid = self.next_pid;
        self.next_pid = self.next_pid + 1;
        proof {
            assert(forall|j: int| 0 <= j < self.tasks@.len() ==> (#[trigger] self.tasks@[j]).pid < self.next_pid);
            assert(self.wf());
            assert(!self@.contains_key(pid as int)) by {
                if self@.contains_key(pid as int) {
                    let c = choose|c: int| 0 <= c < self.tasks@.len() && #[trigger] self.tasks@[c].pid as int == pid as int;
                    assert(self.tasks@[c].pid < old(self).next_pid);
                }
            }
            assert forall|f: int| space.frames().contains(f) implies !self.owned().contains(f) by {
                assert(!old(fa).allocated().contains(f));
            }
        }
        let t = Task { pid, parent, status: TaskStatus::Ready, exit_code: 0, space };
        self.put(t);
        proof {
            assert(self@[pid as int] == task_view(t));
            assert(self.owned() =~= old(self).owned().union(t.space.frames()));
        }
        pid as isize
    }

    /// Replaces the memory of task `pid` with executable `image`; the old
    /// memory is freed. Returns the entry point and the initial stack
    /// pointer; `None`, and nothing changes, when `pid` is unknown or a
    /// zombie, or the image cannot be loaded.
    pub fn exec(&mut self, fa: &mut FrameAllocator, pid: usize, image: &Vec<u8>) -> (r: Option<(u64, usize)>)
        requires
            old(self).wf(),
            old(fa).wf(),
            old(self).owned().subset_of(old(fa).allocated()),
        ensures
            final(self).wf(),
            final(fa).wf(),
            final(self).owned().subset_of(final(fa).allocated()),
            final(fa).start_spec() == old(fa).start_spec(),
            final(fa).end_spec() == old(fa).end_spec(),
            !(old(self)@.contains_key(pid as int) && old(self)@[pid as int].status != TaskStatus::Zombie) ==> r is None,
            old(self)@.contains_key(pid as int) && old(self)@[pid as int].status != TaskStatus::Zombie
                && elf_loadable(image@, old(fa).free_count()) ==> r is Some,
            r is None ==> final(self)@ == old(self)@ && final(fa).allocated() == old(fa).allocated(),
            r is Some ==> {
                let nv = final(self)@[pid as int];
                let ov = old(self)@[pid as int];
                let sp = r->Some_0.1;
                &&& image_mapped(image@, nv.mem)
                &&& sp % PAGE_SIZE == 0
                &&& forall|a: int| sp - USER_STACK_SIZE <= a < sp ==> #[trigger] user_byte(nv.mem, a) == Some(0u8)
                &&& old(self)@.contains_key(pid as int)
                &&& final(self)@ == old(self)@.insert(pid as int, nv)
                &&& nv.parent == ov.parent && nv.status == ov.status && nv.exit_code == ov.exit_code
                &&& nv.frames.disjoint(old(fa).allocated())
                &&& final(fa).allocated() == old(fa).allocated().difference(ov.frames).union(nv.frames)
                &&& r->Some_0.0 == crate::elf::field(image@, 24, 8)
            },
    {
        let i = match self.find(pid) {
            None => { return None; },
            Some(i) => i,
        };
        proof { self.lemma_task_in_view(i as int); }
        if self.tasks[i].status == TaskStatus::Zombie {
            return None;
        }
        let ghost alloc0 = fa.allocated();
        let ghost v0 = self@;
        let (space, entry, sp) = match from_elf(fa, image) {
            None => { return None; },
            Some(x) => x,
        };
        let placeholder = Task {
            pid,
            parent: INITPROC_PID,
            status: TaskStatus::Ready,
            exit_code: 0,
            space: AddressSpace::new(),
        };
        proof {
            assert(placeholder.space.frames().disjoint(self.owned_except(i as int)));
            assert forall|f: int| space.frames().contains(f) implies !self.owned_except(i as int).contains(f) by {
                if self.owned_except(i as int).contains(f) {
                    assert(self.owned().contains(f)) by {
                        let c = choose|c: int| 0 <= c < self.tasks@.len() && c != i && (#[trigger] self.tasks@[c]).space.frames().contains(f);
                    }
                }
            }
        }
        let mut t = self.replace_at(i, placeholder);
        proof {
            assert(t.space.frames().subset_of(fa.allocated()));
        }
        t.space.clear(fa);
        let n = Task { pid, parent: t.parent, status: t.status, exit_code: t.exit_code, space };
        self.replace_at(i, n);
        proof {
            assert(self@ =~= v0.insert(pid as int, task_view(n)));
            assert(fa.allocated() =~= alloc0.difference(v0[pid as int].frames).union(n.space.frames())) by {
                assert forall|f: int| n.space.frames().contains(f) implies !v0[pid as int].frames.contains(f) by {
                    assert(!alloc0.contains(f));
                }
            }
            assert(self.owned().subset_of(fa.allocated())) by {
                assert forall|f: int| self.owned().contains(f) implies fa.allocated().contains(f) by {
                    if !n.space.frames().contains(f) {
                        assert(old(self).owned_except(i as int).contains(f));
                        assert(old(self).owned().contains(f));
                        assert(!t.space.frames().contains(f));
                    }
                }
            }
        }
        Some((entry, sp))
    }

    /// Reaps a child of `parent`: any child for `pid == -1`, else the child
    /// `pid`. Returns the reaped pid and its exit code, and the task leaves
    /// the table; -1 when no child matches, -2 when children match but none
    /// has exited yet (the caller yields and retries).
    pub fn waitpid(&mut self, parent: usize, pid: isize) -> (r: (isize, i32))
        requires
            old(self).wf(),
        ensures
            final(self).wf(),
            final(self).owned() == old(self).owned(),
            r.0 == -1 <==> !exists|q: int| #[trigger] old(self)@.contains_key(q) && matches(parent, pid, q, old(self)@[q]),
            r.0 == -2 <==> (exists|q: int| #[trigger] old(self)@.contains_key(q) && matches(parent, pid, q, old(self)@[q]))
                && !exists|q: int| #[trigger] old(self)@.contains_key(q) && matches(parent, pid, q, old(self)@[q])
                    && old(self)@[q].status == TaskStatus::Zombie,
            r.0 < 0 ==> r.0 == -1 || r.0 == -2,
            r.0 < 0 ==> final(self)@ == old(self)@ && r.1 == 0,
            r.0 >= 0 ==> {
                let p = r.0 as int;
                &&& old(self)@.contains_key(p)
                &&& matches(parent, pid, p, old(self)@[p])
                &&& old(self)@[p].status == TaskStatus::Zombie
                &&& r.1 == old(self)@[p].exit_code
                &&& final(self)@ == old(self)@.remove(p)
            },
    {
        let mut found = false;
        let mut i: usize = 0;
        while i < self.tasks.len()
            invariant
                i <= self.tasks@.len(),
                self.wf(),
                *self == *old(self),
                found == exists|k: int| 0 <= k < i && #[trigger] self.tasks@[k].parent == parent
                    && self.tasks@[k].pid != parent
                    && (pid == -1 || pid as int == self.tasks@[k].pid as int),
                forall|k: int| 0 <= k < i ==> !(#[trigger] self.tasks@[k].parent == parent
                    && self.tasks@[k].pid != parent
                    && (pid == -1 || pid as int == self.tasks@[k].pid as int)
                    && self.tasks@[k].status == TaskStatus::Zombie),
            decreases self.tasks@.len() - i,
        {
            let t = &self.tasks[i];
            if t.parent == parent && t.pid != parent && (pid == -1 || pid == t.pid as isize) {
                found = true;
                if t.status == TaskStatus::Zombie {
                    let code = t.exit_code;
                    let q = t.pid;
                    proof { self.lemma_task_in_view(i as int); }
                    let z = self.take(i);
                    proof {
                        assert(z.space.frames() =~= Set::<int>::empty());
                        assert(self.owned() =~= old(self).owned());
                    }
                    return (q as isize, code);
                }
            }
            i = i + 1;
        }
        proof {
            assert forall|q: int| #[trigger] self@.contains_key(q) && matches(parent, pid, q, self@[q]) implies self@[q].status != TaskStatus::Zombie by {
                let c = choose|c: int| 0 <= c < self.tasks@.len() && #[trigger] self.tasks@[c].pid as int == q;
                self.lemma_task_in_view(c);
            }
            if found {
                let k = choose|k: int| 0 <= k < i && #[trigger] self.tasks@[k].parent == parent
                    && self.tasks@[k].pid != parent
                    && (pid == -1 || pid as int == self.tasks@[k].pid as int);
                self.lemma_task_in_view(k);
                assert(self@.contains_key(self.tasks@[k].pid as int));
            } else {
                assert forall|q: int| #[trigger] self@.contains_key(q) implies !matches(parent, pid, q, self@[q]) by {
                    let c = choose|c: int| 0 <= c < self.tasks@.len() && #[trigger] self.tasks@[c].pid as int == q;
                    self.lemma_task_in_view(c);
                }
            }
        }
        if found {
            (-2, 0)
        } else {
            (-1, 0)
        }
    }
}

/// Frames owned by the tasks of `ts`, counted task by task.
pub closed spec fn frames_sum(ts: Seq<Task>) -> nat
    decreases ts.len(),
{
    if ts.len() == 0 {
        0
    } else {
        frames_sum(ts.drop_last()) + ts.last().space.frames().len()
    }
}

/// Frames owned by the tasks of `ts`.
closed spec fn owned_by(ts: Seq<Task>) -> Set<int> {
    Set::new(|f: int| exists|i: int| 0 <= i < ts.len() && (#[trigger] ts[i]).space.frames().contains(f))
}

proof fn lemma_frames_sum(ts: Seq<Task>)
    requires
        forall|i: int, j: int| 0 <= i < j < ts.len() ==> (#[trigger] ts[i]).space.frames().disjoint((#[trigger] ts[j]).space.frames()),
        forall|i: int| 0 <= i < ts.len() ==> (#[trigger] ts[i]).space.wf(),
    ensures
        owned_by(ts).finite(),
        owned_by(ts).len() == frames_sum(ts),
    decreases ts.len(),
{
    if ts.len() == 0 {
        assert(owned_by(ts) =~= Set::<int>::empty());
    } else {
        let init = ts.drop_last();
        let last = ts.last();
        assert forall|i: int, j: int| 0 <= i < j < init.len() implies (#[trigger] init[i]).space.frames().disjoint((#[trigger] init[j]).space.frames()) by {
            assert(ts[i] == init[i] && ts[j] == init[j]);
        }
        lemma_frames_sum(init);
        last.space.lemma_frame_count();
        assert(owned_by(ts) =~= owned_by(init).union(last.space.frames())) by {
            assert forall|f: int| #[trigger] owned_by(ts).contains(f) == owned_by(init).union(last.space.frames()).contains(f) by {
                if owned_by(ts).contains(f) {
                    let i = choose|i: int| 0 <= i < ts.len() && (#[trigger] ts[i]).space.frames().contains(f);
                    if i < ts.len() - 1 {
                        assert(init[i] == ts[i]);
                    }
                }
                if owned_by(init).contains(f) {
                    let i = choose|i: int| 0 <= i < init.len() && (#[trigger] init[i]).space.frames().contains(f);
                    assert(ts[i] == init[i]);
                }
            }
        }
        assert(owned_by(init).disjoint(last.space.frames())) by {
            assert forall|f: int| owned_by(init).contains(f) implies !last.space.frames().contains(f) by {
                let i = choose|i: int| 0 <= i < init.len() && (#[trigger] init[i]).space.frames().contains(f);
                assert(ts[i] == init[i]);
                assert(ts[i].space.frames().disjoint(ts[ts.len() - 1].space.frames()));
            }
        }
        vstd::set_lib::lemma_set_disjoint_lens(owned_by(init), last.space.frames());
    }
}

impl TaskTable {
    /// Sum over tasks of the frames each owns.
    pub closed spec fn frames_owned_sum(&self) -> nat {
        frames_sum(self.tasks@)
    }

    /// With no frame shared, the frames owned, counted task by task, are
    /// as many as the frames owned altogether.
    pub proof fn lemma_owned_sum(&self)
        requires
            self.wf(),
        ensures
            self.owned().finite(),
            self.owned().len() == self.frames_owned_sum(),
    {
        lemma_frames_sum(self.tasks@);
        assert(self.owned() =~= owned_by(self.tasks@));
    }
}

/// After `waitpid` reaps `p`, `p` is gone from the table and no remaining
/// task's memory holds a frame that was `p`'s.
pub proof fn lemma_reaped_gone(before: &TaskTable, after: &TaskTable, p: int)
    requires
        before.wf(),
        after.wf(),
        before@.contains_key(p),
        before@[p].status == TaskStatus::Zombie,
        after@ == before@.remove(p),
    ensures
        !after@.contains_key(p),
        forall|q: int| #[trigger] after@.contains_key(q) ==> after@[q].frames.disjoint(before@[p].frames),
        before@[p].frames == Set::<int>::empty(),
{
    let c = choose|c: int| 0 <= c < before.tasks@.len() && #[trigger] before.tasks@[c].pid as int == p;
    before.lemma_task_in_view(c);
}

/// Conservation of frames across the system: the frames owned by tasks
/// (summed task by task), those handed out for other uses (kernel-reserved),
/// and the free ones together make up every managed frame.
pub proof fn lemma_system_conservation(tasks: &TaskTable, fa: &FrameAllocator)
    requires
        tasks.wf(),
        fa.wf(),
        tasks.owned().subset_of(fa.allocated()),
    ensures
        tasks.owned().finite(),
        tasks.frames_owned_sum() + fa.allocated().difference(tasks.owned()).len() + fa.free_count()
            == fa.end_spec() - fa.start_spec(),
{
    tasks.lemma_owned_sum();
    lemma_frame_conservation(fa);
    let a = fa.allocated();
    let o = tasks.owned();
    lemma_set_subset_finite(a, o);
    lemma_set_difference_len(a, o);
    assert(a.intersect(o) =~= o);
}

} // verus!
