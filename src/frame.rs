use vstd::prelude::*;
use vstd::set_lib::*;

verus! {

/// Why a frame could not be freed.
#[derive(Clone, Copy, PartialEq, Eq, Structural, Debug)]
pub enum FrameError {
    /// The frame is outside the managed range, was never handed out, or is
    /// already free (a double free).
    NotAllocated,
}

/// Allocator of physical page frames over `[start, end)`: frames below the
/// high-water mark `current` have been handed out at least once; freed ones
/// wait on `recycled` and are handed out again first.
pub struct FrameAllocator {
    start: usize,
    current: usize,
    end: usize,
    recycled: Vec<usize>,
}

impl FrameAllocator {
    pub closed spec fn wf(&self) -> bool {
        &&& self.start <= self.current <= self.end
        &&& forall|i: int| 0 <= i < self.recycled@.len() ==> self.start <= #[trigger] self.recycled@[i] < self.current
        &&& self.recycled@.no_duplicates()
    }

    /// First frame of the managed range.
    pub closed spec fn start_spec(&self) -> int {
        self.start as int
    }

    /// One past the last frame of the managed range.
    pub closed spec fn end_spec(&self) -> int {
        self.end as int
    }

    /// Frames handed out and not yet freed.
    pub closed spec fn allocated(&self) -> Set<int> {
        Set::new(|p: int| self.start <= p < self.current && !self.recycled@.contains(p as usize))
    }

    /// Frames that can still be handed out.
    pub closed spec fn free_count(&self) -> nat {
        (self.recycled@.len() + (self.end - self.current)) as nat
    }

    /// Manages the frames `[start, end)`, all free.
    pub fn new(start: usize, end: usize) -> (r: Self)
        requires
            start <= end,
        ensures
            r.wf(),
            r.start_spec() == start,
            r.end_spec() == end,
            r.allocated() == Set::<int>::empty(),
            r.free_count() == end - start,
    {
        let r = FrameAllocator { start, current: start, end, recycled: Vec::new() };
        assert(r.allocated() =~= Set::<int>::empty());
        r
    }

    /// Hands out a frame: a freed one if any, else the next never used;
    /// `None` when every frame is taken.
    pub fn alloc_frame(&mut self) -> (r: Option<usize>)
        requires
            old(self).wf(),
        ensures
            final(self).wf(),
            final(self).start_spec() == old(self).start_spec(),
            final(self).end_spec() == old(self).end_spec(),
            r is None <==> old(self).free_count() == 0,
            r is None ==> final(self).allocated() == old(self).allocated(),
            r is Some ==> {
                let p = r->Some_0 as int;
                &&& old(self).start_spec() <= p < old(self).end_spec()
                &&& !old(self).allocated().contains(p)
                &&& final(self).allocated() == old(self).allocated().insert(p)
                &&& final(self).free_count() + 1 == old(self).free_count()
            },
    {
        let ghost before = self.allocated();
        match self.recycled.pop() {
            Some(p) => {
                proof {
                    let s = old(self).recycled@;
                    assert(s =~= self.recycled@.push(p));
                    assert(!self.recycled@.contains(p)) by {
                        if self.recycled@.contains(p) {
                            let i = choose|i: int| 0 <= i < self.recycled@.len() && self.recycled@[i] == p;
                            assert(s[i] == s[s.len() - 1]);
                        }
                    }
                    assert forall|q: usize| #[trigger] self.recycled@.contains(q) implies s.contains(q) by {
                        let i = choose|i: int| 0 <= i < self.recycled@.len() && self.recycled@[i] == q;
                        assert(s[i] == q);
                    }
                    assert(s[s.len() - 1] == p);
                    assert forall|q: usize| s.contains(q) && q != p implies #[trigger] self.recycled@.contains(q) by {
                        let i = choose|i: int| 0 <= i < s.len() && s[i] == q;
                        assert(i != s.len() - 1);
                        assert(self.recycled@[i] == q);
                    }
                    assert(self.allocated() =~= before.insert(p as int));
                }
                Some(p)
            },
            None => {
                if self.current < self.end {
                    let p = self.current;
                    self.current = self.current + 1;
                    proof {
                        assert(self.allocated() =~= before.insert(p as int));
                    }
                    Some(p)
                } else {
                    None
                }
            },
        }
    }

    fn is_recycled(&self, ppn: usize) -> (r: bool)
        ensures
            r == self.recycled@.contains(ppn),
    {
        let mut i: usize = 0;
        while i < self.recycled.len()
            invariant
                i <= self.recycled@.len(),
                forall|j: int| 0 <= j < i ==> self.recycled@[j] != ppn,
            decreases self.recycled@.len() - i,
        {
            if self.recycled[i] == ppn {
                return true;
            }
            i = i + 1;
        }
        false
    }

    /// Frees frame `ppn`. A frame that is not currently handed out (a double
    /// free among them) is refused with `NotAllocated`, and nothing changes.
    pub fn dealloc_frame(&mut self, ppn: usize) -> (r: Result<(), FrameError>)
        requires
            old(self).wf(),
        ensures
            final(self).wf(),
            final(self).start_spec() == old(self).start_spec(),
            final(self).end_spec() == old(self).end_spec(),
            r is Ok <==> old(self).allocated().contains(ppn as int),
            r is Ok ==> final(self).allocated() == old(self).allocated().remove(ppn as int)
                && final(self).free_count() == old(self).free_count() + 1,
            r is Err ==> r == Err::<(), FrameError>(FrameError::NotAllocated)
                && final(self).allocated() == old(self).allocated()
                && final(self).free_count() == old(self).free_count(),
    {
        if ppn < self.start || ppn >= self.current || self.is_recycled(ppn) {
            return Err(FrameError::NotAllocated);
        }
        let ghost before = self.allocated();
        self.recycled.push(ppn);
        proof {
            let s = old(self).recycled@;
            assert(self.recycled@ =~= s.push(ppn));
            assert forall|i: int, j: int| 0 <= i < j < self.recycled@.len() implies self.recycled@[i] != self.recycled@[j] by {
                if j == s.len() {
                    assert(s[i] == self.recycled@[i]);
                }
            }
            assert forall|q: usize| #[trigger] self.recycled@.contains(q) <==> (s.contains(q) || q == ppn) by {
                if s.contains(q) {
                    let i = choose|i: int| 0 <= i < s.len() && s[i] == q;
                    assert(self.recycled@[i] == q);
                }
                if self.recycled@.contains(q) && q != ppn {
                    let i = choose|i: int| 0 <= i < self.recycled@.len() && self.recycled@[i] == q;
                    assert(s[i] == q);
                }
                if q == ppn {
                    assert(self.recycled@[s.len() as int] == q);
                }
            }
            assert(self.allocated() =~= before.remove(ppn as int));
        }
        Ok(())
    }

    /// Number of frames that can still be handed out.
    pub fn available(&self) -> (r: usize)
        requires
            self.wf(),
        ensures
            r == self.free_count(),
    {
        proof { lemma_frame_conservation(self); }
        self.recycled.len() + (self.end - self.current)
    }
}

/// Conservation of frames: those handed out plus those still free make up
/// the whole managed range.
pub proof fn lemma_frame_conservation(a: &FrameAllocator)
    requires
        a.wf(),
    ensures
        a.allocated().finite(),
        a.allocated().len() + a.free_count() == a.end_spec() - a.start_spec(),
{
    let range = set_int_range(a.start as int, a.current as int);
    lemma_int_range(a.start as int, a.current as int);
    let rs = a.recycled@;
    let ri = rs.map_values(|p: usize| p as int);
    assert(ri.no_duplicates()) by {
        assert forall|i: int, j: int| 0 <= i < ri.len() && 0 <= j < ri.len() && i != j implies ri[i] != ri[j] by {
            assert(rs[i] != rs[j]);
        }
    }
    ri.unique_seq_to_set();
    let rset = ri.to_set();
    assert(rset.subset_of(range)) by {
        assert forall|p: int| rset.contains(p) implies range.contains(p) by {
            let i = choose|i: int| 0 <= i < ri.len() && ri[i] == p;
            assert(a.start <= rs[i] < a.current);
        }
    }
    assert(a.allocated() =~= range.difference(rset)) by {
        assert forall|p: int| range.difference(rset).contains(p) implies #[trigger] a.allocated().contains(p) by {
            if rs.contains(p as usize) {
                let i = choose|i: int| 0 <= i < rs.len() && rs[i] == p as usize;
                assert(ri[i] == p);
            }
        }
        assert forall|p: int| #[trigger] a.allocated().contains(p) implies range.difference(rset).contains(p) by {
            if rset.contains(p) {
                let i = choose|i: int| 0 <= i < ri.len() && ri[i] == p;
                assert(rs[i] == p as usize);
            }
        }
    }
    lemma_set_subset_finite(range, rset);
    lemma_set_difference_len(range, rset);
    assert(range.intersect(rset) =~= rset);
}

} // verus!
