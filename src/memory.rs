use vstd::prelude::*;

use crate::frame::FrameAllocator;

verus! {

/// Size of a page and of a frame, in bytes.
pub const PAGE_SIZE: usize = 4096;

/// Page-table entry flag: readable.
pub const PTE_R: u8 = 2;

/// Page-table entry flag: writable.
pub const PTE_W: u8 = 4;

/// Page-table entry flag: executable.
pub const PTE_X: u8 = 8;

/// Page-table entry flag: reachable from user mode.
pub const PTE_U: u8 = 16;

/// One mapped user page: its virtual page number, the frame that backs it,
/// its page-table flags, and the bytes of that frame.
pub struct Page {
    vpn: usize,
    ppn: usize,
    perm: u8,
    data: Vec<u8>,
}

/// What a virtual page maps to.
pub struct PageView {
    pub ppn: usize,
    pub perm: u8,
    pub bytes: Seq<u8>,
}

/// The user part of an address space, page by page. Each mapped page owns
/// its own frame.
pub struct AddressSpace {
    pages: Vec<Page>,
}

/// A page of zeros.
pub open spec fn zero_page() -> Seq<u8> {
    Seq::new(PAGE_SIZE as nat, |i: int| 0u8)
}

/// Page-table flags for an `mmap` protection of R (1), W (2), X (4) bits.
pub open spec fn perm_of(prot: usize) -> u8 {
    (prot * 2 + PTE_U) as u8
}

/// First virtual page of `[start, start + len)`.
pub open spec fn first_vpn(start: usize) -> int {
    start as int / PAGE_SIZE as int
}

/// One past the last virtual page that `[start, start + len)` touches.
pub open spec fn end_vpn(start: usize, len: usize) -> int {
    (start + len + PAGE_SIZE - 1) / PAGE_SIZE as int
}

/// Whether `[start, start + len)` is a range that `mmap` and `munmap`
/// accept: page aligned, and within the address range.
pub open spec fn range_ok(start: usize, len: usize) -> bool {
    &&& start % PAGE_SIZE == 0
    &&& start + len + PAGE_SIZE - 1 <= usize::MAX
}

/// Whether `mmap(start, len, prot)` succeeds on mappings `v` with `free`
/// frames left: an accepted range, at least one of R, W, X and no other bit,
/// no page of the range mapped yet, and a frame for each page.
pub open spec fn mmap_ok(v: Map<int, PageView>, free: nat, start: usize, len: usize, prot: usize) -> bool {
    &&& range_ok(start, len)
    &&& 1 <= prot <= 7
    &&& forall|p: int| first_vpn(start) <= p < end_vpn(start, len) ==> !#[trigger] v.contains_key(p)
    &&& free >= end_vpn(start, len) - first_vpn(start)
}

/// Mappings `w` after a successful `mmap(start, len, prot)` on `v`: each
/// page of the range mapped anew to zeros with the asked access, on a frame
/// that was free; every other page as before.
pub open spec fn mmap_post(v: Map<int, PageView>, w: Map<int, PageView>, allocated: Set<int>, start: usize, len: usize, prot: usize) -> bool {
    &&& forall|p: int| first_vpn(start) <= p < end_vpn(start, len) ==> {
        &&& #[trigger] w.contains_key(p)
        &&& w[p].bytes == zero_page()
        &&& w[p].perm == perm_of(prot)
        &&& !allocated.contains(w[p].ppn as int)
    }
    &&& forall|p: int| !(first_vpn(start) <= p < end_vpn(start, len)) ==> {
        &&& #[trigger] w.contains_key(p) == v.contains_key(p)
        &&& v.contains_key(p) ==> w[p] == v[p]
    }
}

/// Whether `munmap(start, len)` succeeds on mappings `v`: an accepted range
/// whose every page is mapped.
pub open spec fn munmap_ok(v: Map<int, PageView>, start: usize, len: usize) -> bool {
    &&& range_ok(start, len)
    &&& forall|p: int| first_vpn(start) <= p < end_vpn(start, len) ==> #[trigger] v.contains_key(p)
}

/// Mappings `w` after a successful `munmap(start, len)` on `v`: the pages
/// of the range are gone, the others stay.
pub open spec fn munmap_post(v: Map<int, PageView>, w: Map<int, PageView>, start: usize, len: usize) -> bool {
    forall|p: int| {
        &&& #[trigger] w.contains_key(p) == (v.contains_key(p) && !(first_vpn(start) <= p < end_vpn(start, len)))
        &&& w.contains_key(p) ==> w[p] == v[p]
    }
}

/// The byte at user address `va` in mappings `v`, if its page is mapped.
pub open spec fn user_byte(v: Map<int, PageView>, va: int) -> Option<u8> {
    if v.contains_key(va / PAGE_SIZE as int) {
        Some(v[va / PAGE_SIZE as int].bytes[va % PAGE_SIZE as int])
    } else {
        None
    }
}

/// Whether flags `perm` allow user reads.
pub open spec fn can_read(perm: u8) -> bool {
    perm & PTE_R == PTE_R && perm & PTE_U == PTE_U
}

/// Whether flags `perm` allow user writes.
pub open spec fn can_write(perm: u8) -> bool {
    perm & PTE_W == PTE_W && perm & PTE_U == PTE_U
}

/// Whether every byte of `[va, va + len)` lies in a page of `v` that user
/// mode may read.
pub open spec fn readable_range(v: Map<int, PageView>, va: int, len: int) -> bool {
    forall|a: int| va <= a < va + len ==> #[trigger] readable_at(v, a)
}

/// Whether the byte at `a` lies in a mapped page.
pub open spec fn mapped_at(v: Map<int, PageView>, a: int) -> bool {
    v.contains_key(a / PAGE_SIZE as int)
}

/// Whether user mode may read the byte at `a`.
pub open spec fn readable_at(v: Map<int, PageView>, a: int) -> bool {
    v.contains_key(a / PAGE_SIZE as int) && can_read(v[a / PAGE_SIZE as int].perm)
}

/// Whether user mode may write the byte at `a`.
pub open spec fn writable_at(v: Map<int, PageView>, a: int) -> bool {
    v.contains_key(a / PAGE_SIZE as int) && can_write(v[a / PAGE_SIZE as int].perm)
}

/// Whether every byte of `[va, va + len)` lies in a page of `v` that user
/// mode may write.
pub open spec fn writable_range(v: Map<int, PageView>, va: int, len: int) -> bool {
    forall|a: int| va <= a < va + len ==> #[trigger] writable_at(v, a)
}

impl View for AddressSpace {
    type V = Map<int, PageView>;

    closed spec fn view(&self) -> Map<int, PageView> {
        Map::new(
            |v: int| exists|i: int| 0 <= i < self.pages@.len() && #[trigger] self.pages@[i].vpn as int == v,
            |v: int| {
                let i = choose|i: int| 0 <= i < self.pages@.len() && #[trigger] self.pages@[i].vpn as int == v;
                PageView { ppn: self.pages@[i].ppn, perm: self.pages@[i].perm, bytes: self.pages@[i].data@ }
            },
        )
    }
}

fn zeros() -> (r: Vec<u8>)
    ensures
        r@ == zero_page(),
{
    let mut r: Vec<u8> = Vec::new();
    let mut i: usize = 0;
    while i < PAGE_SIZE
        invariant
            i <= PAGE_SIZE,
            r@ == Seq::new(i as nat, |j: int| 0u8),
        decreases PAGE_SIZE - i,
    {
        r.push(0);
        i = i + 1;
        assert(r@ =~= Seq::new(i as nat, |j: int| 0u8));
    }
    r
}

fn copy_page(b: &Vec<u8>) -> (r: Vec<u8>)
    ensures
        r@ == b@,
{
    let mut r: Vec<u8> = Vec::new();
    let mut i: usize = 0;
    while i < b.len()
        invariant
            i <= b@.len(),
            r@ == b@.take(i as int),
        decreases b@.len() - i,
    {
        r.push(b[i]);
        i = i + 1;
        assert(r@ =~= b@.take(i as int));
    }
    assert(r@ =~= b@);
    r
}

impl AddressSpace {
    /// Pages and frames are each used once; every page holds a frame's worth
    /// of bytes.
    pub closed spec fn wf(&self) -> bool {
        &&& forall|i: int, j: int|
            0 <= i < j < self.pages@.len() ==> {
                &&& #[trigger] self.pages@[i].vpn != #[trigger] self.pages@[j].vpn
                &&& self.pages@[i].ppn != self.pages@[j].ppn
            }
        &&& forall|i: int| 0 <= i < self.pages@.len() ==> (#[trigger] self.pages@[i]).data@.len() == PAGE_SIZE
    }

    /// The frames this address space owns.
    pub closed spec fn frames(&self) -> Set<int> {
        Set::new(|p: int| exists|i: int| 0 <= i < self.pages@.len() && #[trigger] self.pages@[i].ppn as int == p)
    }

    proof fn lemma_page_in_view(&self, i: int)
        requires
            self.wf(),
            0 <= i < self.pages@.len(),
        ensures
            self@.contains_key(self.pages@[i].vpn as int),
            self@[self.pages@[i].vpn as int] == (PageView {
                ppn: self.pages@[i].ppn,
                perm: self.pages@[i].perm,
                bytes: self.pages@[i].data@,
            }),
            self.frames().contains(self.pages@[i].ppn as int),
    {
        let v = self.pages@[i].vpn as int;
        assert(self@.contains_key(v));
        let c = choose|c: int| 0 <= c < self.pages@.len() && #[trigger] self.pages@[c].vpn as int == v;
        if c < i {
            assert(self.pages@[c].vpn != self.pages@[i].vpn);
        } else if c > i {
            assert(self.pages@[i].vpn != self.pages@[c].vpn);
        }
        assert(self.frames().contains(self.pages@[i].ppn as int));
    }

    /// Every mapped page owns one frame, no frame backs two pages, and the
    /// frames owned are exactly those of the mapped pages.
    pub proof fn lemma_frames_unique(&self)
        requires
            self.wf(),
        ensures
            forall|v: int| #[trigger] self@.contains_key(v) ==> self.frames().contains(self@[v].ppn as int),
            forall|v1: int, v2: int|
                #[trigger] self@.contains_key(v1) && #[trigger] self@.contains_key(v2) && v1 != v2 ==> self@[v1].ppn != self@[v2].ppn,
            forall|p: int| #[trigger] self.frames().contains(p) ==> exists|v: int| #[trigger] self@.contains_key(v) && self@[v].ppn as int == p,
            forall|v: int| #[trigger] self@.contains_key(v) ==> self@[v].bytes.len() == PAGE_SIZE,
    {
        assert forall|v: int| #[trigger] self@.contains_key(v) implies self.frames().contains(self@[v].ppn as int)
            && self@[v].bytes.len() == PAGE_SIZE by {
            let i = choose|i: int| 0 <= i < self.pages@.len() && #[trigger] self.pages@[i].vpn as int == v;
            self.lemma_page_in_view(i);
        }
        assert forall|v1: int, v2: int|
            #[trigger] self@.contains_key(v1) && #[trigger] self@.contains_key(v2) && v1 != v2 implies self@[v1].ppn != self@[v2].ppn by {
            let i = choose|i: int| 0 <= i < self.pages@.len() && #[trigger] self.pages@[i].vpn as int == v1;
            let j = choose|j: int| 0 <= j < self.pages@.len() && #[trigger] self.pages@[j].vpn as int == v2;
            self.lemma_page_in_view(i);
            self.lemma_page_in_view(j);
            if i < j {
                assert(self.pages@[i].ppn != self.pages@[j].ppn);
            } else {
                assert(self.pages@[j].ppn != self.pages@[i].ppn);
            }
        }
        assert forall|p: int| #[trigger] self.frames().contains(p) implies exists|v: int| #[trigger] self@.contains_key(v) && self@[v].ppn as int == p by {
            let i = choose|i: int| 0 <= i < self.pages@.len() && #[trigger] self.pages@[i].ppn as int == p;
            self.lemma_page_in_view(i);
        }
    }

    /// An address space owns exactly one frame per mapped page.
    pub proof fn lemma_frame_count(&self)
        requires
            self.wf(),
        ensures
            self.frames().finite(),
            self.frames().len() == self.page_count(),
    {
        let ps = self.pages@.map_values(|p: Page| p.ppn as int);
        assert(ps.no_duplicates()) by {
            assert forall|i: int, j: int| 0 <= i < ps.len() && 0 <= j < ps.len() && i != j implies ps[i] != ps[j] by {
                if i < j {
                    assert(self.pages@[i].vpn != self.pages@[j].vpn);
                } else {
                    assert(self.pages@[j].vpn != self.pages@[i].vpn);
                }
            }
        }
        ps.unique_seq_to_set();
        assert(self.frames() =~= ps.to_set()) by {
            assert forall|f: int| #[trigger] self.frames().contains(f) == ps.to_set().contains(f) by {
                if self.frames().contains(f) {
                    let i = choose|i: int| 0 <= i < self.pages@.len() && #[trigger] self.pages@[i].ppn as int == f;
                    assert(ps[i] == f);
                }
                if ps.to_set().contains(f) {
                    let i = choose|i: int| 0 <= i < ps.len() && ps[i] == f;
                    assert(self.pages@[i].ppn as int == f);
                }
            }
        }
    }

    /// An address space with no user page.
    pub fn new() -> (r: Self)
        ensures
            r.wf(),
            r@ == Map::<int, PageView>::empty(),
            r.frames() == Set::<int>::empty(),
    {
        let r = AddressSpace { pages: Vec::new() };
        assert(r@ =~= Map::<int, PageView>::empty());
        assert(r.frames() =~= Set::<int>::empty());
        r
    }

    fn find(&self, vpn: usize) -> (r: Option<usize>)
        requires
            self.wf(),
        ensures
            r is None <==> !self@.contains_key(vpn as int),
            r is Some ==> r->Some_0 < self.pages@.len() && self.pages@[r->Some_0 as int].vpn == vpn,
    {
        let mut i: usize = 0;
        while i < self.pages.len()
            invariant
                i <= self.pages@.len(),
                forall|j: int| 0 <= j < i ==> self.pages@[j].vpn != vpn,
            decreases self.pages@.len() - i,
        {
            if self.pages[i].vpn == vpn {
                return Some(i);
            }
            i = i + 1;
        }
        None
    }

    fn push_page(&mut self, vpn: usize, ppn: usize, perm: u8, data: Vec<u8>)
        requires
            old(self).wf(),
            !old(self)@.contains_key(vpn as int),
            !old(self).frames().contains(ppn as int),
            data@.len() == PAGE_SIZE,
        ensures
            final(self).wf(),
            final(self)@ == old(self)@.insert(vpn as int, PageView { ppn, perm, bytes: data@ }),
            final(self).frames() == old(self).frames().insert(ppn as int),
    {
        let ghost before = self@;
        let ghost pv = PageView { ppn, perm, bytes: data@ };
        self.pages.push(Page { vpn, ppn, perm, data });
        proof {
            let len = self.pages@.len();
            assert forall|i: int, j: int| 0 <= i < j < len implies {
                &&& #[trigger] self.pages@[i].vpn != #[trigger] self.pages@[j].vpn
                &&& self.pages@[i].ppn != self.pages@[j].ppn
            } by {
                if j == len - 1 {
                    old(self).lemma_page_in_view(i);
                } else {
                    assert(old(self).pages@[i].vpn != old(self).pages@[j].vpn);
                }
            }
            assert(self.wf());
            assert forall|v: int| #[trigger] self@.contains_key(v) == before.insert(vpn as int, pv).contains_key(v) by {
                if before.contains_key(v) {
                    let c = choose|c: int| 0 <= c < old(self).pages@.len() && #[trigger] old(self).pages@[c].vpn as int == v;
                    assert(self.pages@[c].vpn as int == v);
                }
                if v == vpn as int {
                    assert(self.pages@[len - 1].vpn as int == v);
                }
            }
            assert forall|v: int| #[trigger] self@.contains_key(v) implies self@[v] == before.insert(vpn as int, pv)[v] by {
                let c = choose|c: int| 0 <= c < self.pages@.len() && #[trigger] self.pages@[c].vpn as int == v;
                self.lemma_page_in_view(c);
                if c < len - 1 {
                    old(self).lemma_page_in_view(c);
                }
            }
            assert(self@ =~= before.insert(vpn as int, pv));
            assert forall|p: int| #[trigger] self.frames().contains(p) == old(self).frames().insert(ppn as int).contains(p) by {
                if old(self).frames().contains(p) {
                    let c = choose|c: int| 0 <= c < old(self).pages@.len() && #[trigger] old(self).pages@[c].ppn as int == p;
                    assert(self.pages@[c].ppn as int == p);
                }
                if p == ppn as int {
                    assert(self.pages@[len - 1].ppn as int == p);
                }
                if self.frames().contains(p) {
                    let c = choose|c: int| 0 <= c < self.pages@.len() && #[trigger] self.pages@[c].ppn as int == p;
                    if c < len - 1 {
                        assert(old(self).pages@[c].ppn as int == p);
                    }
                }
            }
            assert(self.frames() =~= old(self).frames().insert(ppn as int));
        }
    }

    fn remove_page(&mut self, i: usize) -> (r: usize)
        requires
            old(self).wf(),
            i < old(self).pages@.len(),
        ensures
            final(self).wf(),
            old(self)@.contains_key(old(self).pages@[i as int].vpn as int),
            r == old(self)@[old(self).pages@[i as int].vpn as int].ppn,
            final(self)@ == old(self)@.remove(old(self).pages@[i as int].vpn as int),
            final(self).frames() == old(self).frames().remove(r as int),
            final(self).pages@.len() == old(self).pages@.len() - 1,
    {
        proof { self.lemma_page_in_view(i as int); }
        let ghost before = self@;
        let ghost old_pages = self.pages@;
        let ghost vpn = old_pages[i as int].vpn as int;
        let page = self.pages.remove(i);
        let ppn = page.ppn;
        proof {
            let len = self.pages@.len();
            assert forall|j: int| 0 <= j < len implies #[trigger] self.pages@[j] == old_pages[if j < i { j } else { j + 1 }] by {}
            assert forall|a: int, b: int| 0 <= a < b < len implies {
                &&& #[trigger] self.pages@[a].vpn != #[trigger] self.pages@[b].vpn
                &&& self.pages@[a].ppn != self.pages@[b].ppn
            } by {
                let a0 = if a < i { a } else { a + 1 };
                let b0 = if b < i { b } else { b + 1 };
                assert(old_pages[a0].vpn != old_pages[b0].vpn);
            }
            assert forall|j: int| 0 <= j < len implies (#[trigger] self.pages@[j]).data@.len() == PAGE_SIZE by {
                let j0 = if j < i { j } else { j + 1 };
                assert(old_pages[j0].data@.len() == PAGE_SIZE);
            }
            assert(self.wf());
            assert forall|v: int| #[trigger] self@.contains_key(v) == before.remove(vpn).contains_key(v) by {
                if before.remove(vpn).contains_key(v) {
                    let c = choose|c: int| 0 <= c < old_pages.len() && #[trigger] old_pages[c].vpn as int == v;
                    assert(c != i);
                    let c1 = if c < i { c } else { c - 1 };
                    assert(self.pages@[c1].vpn as int == v);
                }
                if self@.contains_key(v) {
                    let c = choose|c: int| 0 <= c < len && #[trigger] self.pages@[c].vpn as int == v;
                    let c0 = if c < i { c } else { c + 1 };
                    assert(old_pages[c0].vpn as int == v);
                    if c0 < i {
                        assert(old_pages[c0].vpn != old_pages[i as int].vpn);
                    } else {
                        assert(old_pages[i as int].vpn != old_pages[c0].vpn);
                    }
                }
            }
            assert forall|v: int| #[trigger] self@.contains_key(v) implies self@[v] == before.remove(vpn)[v] by {
                let c = choose|c: int| 0 <= c < len && #[trigger] self.pages@[c].vpn as int == v;
                self.lemma_page_in_view(c);
                let c0 = if c < i { c } else { c + 1 };
                old(self).lemma_page_in_view(c0);
            }
            assert(self@ =~= before.remove(vpn));
            assert forall|p: int| #[trigger] self.frames().contains(p) == old(self).frames().remove(ppn as int).contains(p) by {
                if old(self).frames().remove(ppn as int).contains(p) {
                    let c = choose|c: int| 0 <= c < old_pages.len() && #[trigger] old_pages[c].ppn as int == p;
                    assert(c != i);
                    let c1 = if c < i { c } else { c - 1 };
                    assert(self.pages@[c1].ppn as int == p);
                }
                if self.frames().contains(p) {
                    let c = choose|c: int| 0 <= c < len && #[trigger] self.pages@[c].ppn as int == p;
                    let c0 = if c < i { c } else { c + 1 };
                    assert(old_pages[c0].ppn as int == p);
                    if c0 < i {
                        assert(old_pages[c0].vpn != old_pages[i as int].vpn);
                        assert(old_pages[c0].ppn != old_pages[i as int].ppn);
                    } else {
                        assert(old_pages[i as int].vpn != old_pages[c0].vpn);
                        assert(old_pages[i as int].ppn != old_pages[c0].ppn);
                    }
                }
            }
            assert(self.frames() =~= old(self).frames().remove(ppn as int));
        }
        ppn
    }

    fn set_data(&mut self, i: usize, data: Vec<u8>)
        requires
            old(self).wf(),
            i < old(self).pages@.len(),
            data@.len() == PAGE_SIZE,
        ensures
            final(self).wf(),
            final(self)@ == old(self)@.insert(
                old(self).pages@[i as int].vpn as int,
                PageView { bytes: data@, ..old(self)@[old(self).pages@[i as int].vpn as int] },
            ),
            final(self).frames() == old(self).frames(),
    {
        proof { self.lemma_page_in_view(i as int); }
        let ghost before = self@;
        let ghost old_pages = self.pages@;
        let vpn = self.pages[i].vpn;
        let ppn = self.pages[i].ppn;
        let perm = self.pages[i].perm;
        let ghost pv = PageView { ppn, perm, bytes: data@ };
        self.pages.set(i, Page { vpn, ppn, perm, data });
        proof {
            let len = self.pages@.len();
            assert forall|a: int, b: int| 0 <= a < b < len implies {
                &&& #[trigger] self.pages@[a].vpn != #[trigger] self.pages@[b].vpn
                &&& self.pages@[a].ppn != self.pages@[b].ppn
            } by {
                assert(old_pages[a].vpn != old_pages[b].vpn);
            }
            assert(self.wf());
            assert forall|v: int| #[trigger] self@.contains_key(v) == before.contains_key(v) by {
                if before.contains_key(v) {
                    let c = choose|c: int| 0 <= c < len && #[trigger] old_pages[c].vpn as int == v;
                    assert(self.pages@[c].vpn as int == v);
                }
                if self@.contains_key(v) {
                    let c = choose|c: int| 0 <= c < len && #[trigger] self.pages@[c].vpn as int == v;
                    assert(old_pages[c].vpn as int == v);
                }
            }
            assert forall|v: int| #[trigger] self@.contains_key(v) implies self@[v] == before.insert(vpn as int, pv)[v] by {
                let c = choose|c: int| 0 <= c < len && #[trigger] self.pages@[c].vpn as int == v;
                self.lemma_page_in_view(c);
                old(self).lemma_page_in_view(c);
            }
            assert(self@ =~= before.insert(vpn as int, pv));
            assert forall|p: int| #[trigger] self.frames().contains(p) == old(self).frames().contains(p) by {
                if old(self).frames().contains(p) {
                    let c = choose|c: int| 0 <= c < len && #[trigger] old_pages[c].ppn as int == p;
                    assert(self.pages@[c].ppn as int == p);
                }
                if self.frames().contains(p) {
                    let c = choose|c: int| 0 <= c < len && #[trigger] self.pages@[c].ppn as int == p;
                    assert(old_pages[c].ppn as int == p);
                }
            }
            assert(self.frames() =~= old(self).frames());
        }
    }

    /// The byte at user address `va`; `None` when its page is not mapped or
    /// not readable from user mode.
    pub fn read_byte(&self, va: usize) -> (r: Option<u8>)
        requires
            self.wf(),
        ensures
            r == (if self@.contains_key(va as int / PAGE_SIZE as int) && can_read(self@[va as int / PAGE_SIZE as int].perm) {
                user_byte(self@, va as int)
            } else {
                None
            }),
    {
        match self.find(va / PAGE_SIZE) {
            None => None,
            Some(i) => {
                proof { self.lemma_page_in_view(i as int); }
                let page = &self.pages[i];
                if page.perm & PTE_R == PTE_R && page.perm & PTE_U == PTE_U {
                    Some(page.data[va % PAGE_SIZE])
                } else {
                    None
                }
            },
        }
    }

    /// Stores `b` at user address `va`; `false`, and nothing changes, when
    /// its page is not mapped or not writable from user mode.
    pub fn write_byte(&mut self, va: usize, b: u8) -> (r: bool)
        requires
            old(self).wf(),
        ensures
            final(self).wf(),
            final(self).frames() == old(self).frames(),
            r == (old(self)@.contains_key(va as int / PAGE_SIZE as int) && can_write(old(self)@[va as int / PAGE_SIZE as int].perm)),
            !r ==> final(self)@ == old(self)@,
            r ==> {
                let p = va as int / PAGE_SIZE as int;
                final(self)@ == old(self)@.insert(
                    p,
                    PageView { bytes: old(self)@[p].bytes.update(va as int % PAGE_SIZE as int, b), ..old(self)@[p] },
                )
            },
    {
        match self.find(va / PAGE_SIZE) {
            None => false,
            Some(i) => {
                proof { self.lemma_page_in_view(i as int); }
                let perm = self.pages[i].perm;
                if perm & PTE_W == PTE_W && perm & PTE_U == PTE_U {
                    let mut d = copy_page(&self.pages[i].data);
                    d.set(va % PAGE_SIZE, b);
                    self.set_data(i, d);
                    true
                } else {
                    false
                }
            },
        }
    }

    /// Maps `[start, start + len)` to fresh zeroed frames with access `prot`
    /// (R = 1, W = 2, X = 4). Returns 0, or -1 with nothing changed when
    /// `mmap_ok` does not hold.
    pub fn mmap(&mut self, fa: &mut FrameAllocator, start: usize, len: usize, prot: usize) -> (r: isize)
        requires
            old(self).wf(),
            old(fa).wf(),
            old(self).frames().subset_of(old(fa).allocated()),
        ensures
            final(self).wf(),
            final(fa).wf(),
            final(self).frames().subset_of(final(fa).allocated()),
            final(fa).start_spec() == old(fa).start_spec(),
            final(fa).end_spec() == old(fa).end_spec(),
            r == 0 || r == -1,
            r == 0 <==> mmap_ok(old(self)@, old(fa).free_count(), start, len, prot),
            r == -1 ==> final(self)@ == old(self)@ && final(fa).allocated() == old(fa).allocated()
                && final(self).frames() == old(self).frames() && final(fa).free_count() == old(fa).free_count(),
            r == 0 ==> mmap_post(old(self)@, final(self)@, old(fa).allocated(), start, len, prot)
                && final(fa).free_count() + (end_vpn(start, len) - first_vpn(start)) == old(fa).free_count()
                && final(fa).allocated() == old(fa).allocated().union(final(self).frames())
                && old(self).frames().subset_of(final(self).frames())
                && final(self).frames().difference(old(self).frames()).disjoint(old(fa).allocated()),
    {
        if start % PAGE_SIZE != 0 || len > usize::MAX - (PAGE_SIZE - 1) - start {
            return -1;
        }
        if prot == 0 || prot > 7 {
            return -1;
        }
        let first = start / PAGE_SIZE;
        let end = (start + len + (PAGE_SIZE - 1)) / PAGE_SIZE;
        let mut v = first;
        while v < end
            invariant
                first <= v <= end,
                first == first_vpn(start),
                end == end_vpn(start, len),
                self.wf(),
                fa.wf(),
                *self == *old(self),
                *fa == *old(fa),
                self.frames().subset_of(fa.allocated()),
                forall|p: int| first <= p < v ==> !#[trigger] self@.contains_key(p),
            decreases end - v,
        {
            if self.find(v).is_some() {
                return -1;
            }
            v = v + 1;
        }
        if fa.available() < end - first {
            return -1;
        }
        let perm: u8 = (prot * 2 + 16) as u8;
        let ghost v0 = self@;
        let ghost alloc0 = fa.allocated();
        let mut v = first;
        while v < end
            invariant
                first <= v <= end,
                first == first_vpn(start),
                end == end_vpn(start, len),
                perm == perm_of(prot),
                self.wf(),
                fa.wf(),
                fa.start_spec() == old(fa).start_spec(),
                fa.end_spec() == old(fa).end_spec(),
                fa.free_count() >= end - v,
                fa.free_count() + (v - first) == old(fa).free_count(),
                self.frames().subset_of(fa.allocated()),
                fa.allocated() == alloc0.union(self.frames()),
                alloc0 == old(fa).allocated(),
                old(self).frames().subset_of(self.frames()),
                self.frames().difference(old(self).frames()).disjoint(alloc0),
                v0 == old(self)@,
                old(self).frames().subset_of(alloc0),
                forall|p: int| first <= p < end ==> !#[trigger] v0.contains_key(p),
                forall|p: int| first <= p < v ==> {
                    &&& #[trigger] self@.contains_key(p)
                    &&& self@[p].bytes == zero_page()
                    &&& self@[p].perm == perm_of(prot)
                    &&& !alloc0.contains(self@[p].ppn as int)
                },
                forall|p: int| !(first <= p < v) ==> {
                    &&& #[trigger] self@.contains_key(p) == v0.contains_key(p)
                    &&& v0.contains_key(p) ==> self@[p] == v0[p]
                },
            decreases end - v,
        {
            let ghost alloc_before = fa.allocated();
            let ghost view_before = self@;
            let ppn = match fa.alloc_frame() {
                Some(p) => p,
                None => { return -1; },
            };
            proof {
                assert(alloc0.subset_of(alloc_before));
                assert(!alloc0.contains(ppn as int));
            }
            let data = zeros();
            self.push_page(v, ppn, perm, data);
            proof {
                assert(fa.allocated() =~= alloc0.union(self.frames()));
                assert(self.frames().difference(old(self).frames()).disjoint(alloc0));
                assert forall|p: int| first <= p < v + 1 implies {
                    &&& #[trigger] self@.contains_key(p)
                    &&& self@[p].bytes == zero_page()
                    &&& self@[p].perm == perm_of(prot)
                    &&& !alloc0.contains(self@[p].ppn as int)
                } by {
                    if p < v {
                        assert(view_before.contains_key(p));
                    }
                }
            }
            v = v + 1;
        }
        proof {
            assert forall|p: int| first_vpn(start) <= p < end_vpn(start, len) implies {
                &&& #[trigger] self@.contains_key(p)
                &&& self@[p].bytes == zero_page()
                &&& self@[p].perm == perm_of(prot)
                &&& !alloc0.contains(self@[p].ppn as int)
            } by {}
            assert forall|p: int| !(first_vpn(start) <= p < end_vpn(start, len)) implies {
                &&& #[trigger] self@.contains_key(p) == v0.contains_key(p)
                &&& v0.contains_key(p) ==> self@[p] == v0[p]
            } by {}
            assert(mmap_post(v0, self@, alloc0, start, len, prot));
        }
        0
    }

    /// Unmaps `[start, start + len)` and frees its frames. Returns 0, or -1
    /// with nothing changed when `munmap_ok` does not hold.
    pub fn munmap(&mut self, fa: &mut FrameAllocator, start: usize, len: usize) -> (r: isize)
        requires
            old(self).wf(),
            old(fa).wf(),
            old(self).frames().subset_of(old(fa).allocated()),
        ensures
            final(self).wf(),
            final(fa).wf(),
            final(self).frames().subset_of(final(fa).allocated()),
            final(fa).start_spec() == old(fa).start_spec(),
            final(fa).end_spec() == old(fa).end_spec(),
            r == 0 || r == -1,
            r == 0 <==> munmap_ok(old(self)@, start, len),
            r == -1 ==> final(self)@ == old(self)@ && final(fa).allocated() == old(fa).allocated()
                && final(self).frames() == old(self).frames(),
            r == 0 ==> munmap_post(old(self)@, final(self)@, start, len)
                && final(self).frames().subset_of(old(self).frames())
                && final(fa).allocated() == old(fa).allocated().difference(old(self).frames().difference(final(self).frames())),
    {
        if start % PAGE_SIZE != 0 || len > usize::MAX - (PAGE_SIZE - 1) - start {
            return -1;
        }
        let first = start / PAGE_SIZE;
        let end = (start + len + (PAGE_SIZE - 1)) / PAGE_SIZE;
        let mut v = first;
        while v < end
            invariant
                first <= v <= end,
                first == first_vpn(start),
                end == end_vpn(start, len),
                self.wf(),
                fa.wf(),
                *self == *old(self),
                *fa == *old(fa),
                self.frames().subset_of(fa.allocated()),
                forall|p: int| first <= p < v ==> #[trigger] self@.contains_key(p),
            decreases end - v,
        {
            if self.find(v).is_none() {
                return -1;
            }
            v = v + 1;
        }
        let ghost v0 = self@;
        let ghost alloc0 = fa.allocated();
        let ghost frames0 = self.frames();
        let mut v = first;
        while v < end
            invariant
                first <= v <= end,
                first == first_vpn(start),
                end == end_vpn(start, len),
                self.wf(),
                fa.wf(),
                fa.start_spec() == old(fa).start_spec(),
                fa.end_spec() == old(fa).end_spec(),
                self.frames().subset_of(fa.allocated()),
                self.frames().subset_of(frames0),
                frames0 == old(self).frames(),
                frames0.subset_of(alloc0),
                alloc0 == old(fa).allocated(),
                v0 == old(self)@,
                fa.allocated() == alloc0.difference(frames0.difference(self.frames())),
                forall|p: int| first <= p < end ==> #[trigger] v0.contains_key(p),
                forall|p: int| {
                    &&& #[trigger] self@.contains_key(p) == (v0.contains_key(p) && !(first <= p < v))
                    &&& self@.contains_key(p) ==> self@[p] == v0[p]
                },
            decreases end - v,
        {
            let i = match self.find(v) {
                Some(i) => i,
                None => { return -1; },
            };
            let ghost before = self.frames();
            let ppn = self.remove_page(i);
            let res = fa.dealloc_frame(ppn);
            v = v + 1;
            proof {
                assert(before.contains(ppn as int));
                assert(fa.allocated() =~= alloc0.difference(frames0.difference(self.frames())));
            }
        }
        0
    }

    /// Number of mapped pages.
    pub closed spec fn page_count(&self) -> nat {
        self.pages@.len()
    }

    /// A copy for a forked child: every page copied into a fresh frame, with
    /// the same access. `None`, and nothing allocated, when fewer frames are
    /// free than pages are mapped.
    pub fn fork(&self, fa: &mut FrameAllocator) -> (r: Option<AddressSpace>)
        requires
            self.wf(),
            old(fa).wf(),
        ensures
            final(fa).wf(),
            final(fa).start_spec() == old(fa).start_spec(),
            final(fa).end_spec() == old(fa).end_spec(),
            r is None <==> old(fa).free_count() < self.page_count(),
            r is None ==> final(fa).allocated() == old(fa).allocated(),
            r is Some ==> {
                let c = r->Some_0;
                &&& c.wf()
                &&& c@.dom() == self@.dom()
                &&& forall|p: int| #[trigger] c@.contains_key(p) ==> c@[p].bytes == self@[p].bytes && c@[p].perm == self@[p].perm
                &&& c.frames().disjoint(old(fa).allocated())
                &&& final(fa).allocated() == old(fa).allocated().union(c.frames())
            },
    {
        if fa.available() < self.pages.len() {
            return None;
        }
        let ghost alloc0 = fa.allocated();
        let mut child = AddressSpace::new();
        let mut i: usize = 0;
        while i < self.pages.len()
            invariant
                i <= self.pages@.len(),
                self.wf(),
                child.wf(),
                fa.wf(),
                fa.start_spec() == old(fa).start_spec(),
                fa.end_spec() == old(fa).end_spec(),
                alloc0 == old(fa).allocated(),
                fa.free_count() >= self.pages@.len() - i,
                fa.allocated() == alloc0.union(child.frames()),
                child.frames().disjoint(alloc0),
                forall|p: int| #[trigger] child@.contains_key(p) <==> exists|j: int| 0 <= j < i && #[trigger] self.pages@[j].vpn as int == p,
                forall|j: int| 0 <= j < i ==> {
                    let p = #[trigger] self.pages@[j].vpn as int;
                    &&& child@.contains_key(p)
                    &&& child@[p].bytes == self.pages@[j].data@
                    &&& child@[p].perm == self.pages@[j].perm
                },
            decreases self.pages@.len() - i,
        {
            let ppn = match fa.alloc_frame() {
                Some(p) => p,
                None => { return None; },
            };
            let page = &self.pages[i];
            let data = copy_page(&page.data);
            proof {
                assert(!child@.contains_key(page.vpn as int)) by {
                    if child@.contains_key(page.vpn as int) {
                        let j = choose|j: int| 0 <= j < i && #[trigger] self.pages@[j].vpn as int == page.vpn as int;
                        assert(self.pages@[j].vpn != self.pages@[i as int].vpn);
                    }
                }
                assert(self.pages@[i as int].data@.len() == PAGE_SIZE);
            }
            let ghost child_before = child@;
            child.push_page(page.vpn, ppn, page.perm, data);
            i = i + 1;
            proof {
                assert(fa.allocated() =~= alloc0.union(child.frames()));
                assert forall|p: int| #[trigger] child@.contains_key(p) <==> exists|j: int| 0 <= j < i && #[trigger] self.pages@[j].vpn as int == p by {
                    if child_before.contains_key(p) {
                        let j = choose|j: int| 0 <= j < i - 1 && #[trigger] self.pages@[j].vpn as int == p;
                        assert(0 <= j < i);
                    }
                    if exists|j: int| 0 <= j < i && #[trigger] self.pages@[j].vpn as int == p {
                        let j = choose|j: int| 0 <= j < i && #[trigger] self.pages@[j].vpn as int == p;
                        if j < i - 1 {
                            assert(child_before.contains_key(p));
                        }
                    }
                }
                assert forall|j: int| 0 <= j < i implies {
                    let p = #[trigger] self.pages@[j].vpn as int;
                    &&& child@.contains_key(p)
                    &&& child@[p].bytes == self.pages@[j].data@
                    &&& child@[p].perm == self.pages@[j].perm
                } by {
                    if j < i - 1 {
                        assert(self.pages@[j].vpn != self.pages@[i - 1].vpn);
                    }
                }
            }
        }
        proof {
            assert forall|p: int| #[trigger] child@.contains_key(p) implies child@[p].bytes == self@[p].bytes && child@[p].perm == self@[p].perm by {
                let j = choose|j: int| 0 <= j < i && #[trigger] self.pages@[j].vpn as int == p;
                self.lemma_page_in_view(j);
            }
            assert forall|p: int| #[trigger] child@.dom().contains(p) == self@.dom().contains(p) by {
                if self@.contains_key(p) {
                    let j = choose|j: int| 0 <= j < self.pages@.len() && #[trigger] self.pages@[j].vpn as int == p;
                }
            }
            assert(child@.dom() =~= self@.dom());
        }
        Some(child)
    }
}

impl AddressSpace {
    /// Unmaps every page and frees every frame (what `exit` does to a
    /// task's memory).
    pub fn clear(&mut self, fa: &mut FrameAllocator)
        requires
            old(self).wf(),
            old(fa).wf(),
            old(self).frames().subset_of(old(fa).allocated()),
        ensures
            final(self).wf(),
            final(fa).wf(),
            final(fa).start_spec() == old(fa).start_spec(),
            final(fa).end_spec() == old(fa).end_spec(),
            final(self)@ == Map::<int, PageView>::empty(),
            final(self).frames() == Set::<int>::empty(),
            final(fa).allocated() == old(fa).allocated().difference(old(self).frames()),
    {
        let ghost alloc0 = fa.allocated();
        let ghost frames0 = self.frames();
        while self.pages.len() > 0
            invariant
                self.wf(),
                fa.wf(),
                fa.start_spec() == old(fa).start_spec(),
                fa.end_spec() == old(fa).end_spec(),
                self.frames().subset_of(fa.allocated()),
                self.frames().subset_of(frames0),
                frames0 == old(self).frames(),
                alloc0 == old(fa).allocated(),
                frames0.subset_of(alloc0),
                fa.allocated() == alloc0.difference(frames0.difference(self.frames())),
            decreases self.pages@.len(),
        {
            let i = self.pages.len() - 1;
            let ghost before = self.frames();
            let ppn = self.remove_page(i);
            let _ = fa.dealloc_frame(ppn);
            proof {
                assert(before.contains(ppn as int));
                assert(fa.allocated() =~= alloc0.difference(frames0.difference(self.frames())));
            }
        }
        proof {
            assert(self@ =~= Map::<int, PageView>::empty());
            assert(self.frames() =~= Set::<int>::empty());
            assert(fa.allocated() =~= alloc0.difference(frames0));
        }
    }
}

impl AddressSpace {
    /// Copies `len` bytes of user memory from `va`, page by page; `None`
    /// when a byte lies in a page that is unmapped or not user readable.
    pub fn copy_in(&self, va: usize, len: usize) -> (r: Option<Vec<u8>>)
        requires
            self.wf(),
            va + len <= usize::MAX,
        ensures
            r is Some <==> readable_range(self@, va as int, len as int),
            r is Some ==> r->Some_0@.len() == len
                && forall|k: int| 0 <= k < len ==> Some(#[trigger] r->Some_0@[k]) == user_byte(self@, va + k),
    {
        let mut out: Vec<u8> = Vec::new();
        let mut k: usize = 0;
        while k < len
            invariant
                k <= len,
                va + len <= usize::MAX,
                self.wf(),
                out@.len() == k,
                readable_range(self@, va as int, k as int),
                forall|j: int| 0 <= j < k ==> Some(#[trigger] out@[j]) == user_byte(self@, va + j),
            decreases len - k,
        {
            match self.read_byte(va + k) {
                None => {
                    proof {
                        assert(!readable_at(self@, va + k));
                    }
                    return None;
                },
                Some(b) => {
                    out.push(b);
                },
            }
            k = k + 1;
            proof {
                assert forall|a: int| va <= a < va + k implies #[trigger] readable_at(self@, a) by {
                    if a < va + k - 1 {
                        assert(readable_range(self@, va as int, k - 1));
                    }
                }
                assert forall|j: int| 0 <= j < k implies Some(#[trigger] out@[j]) == user_byte(self@, va + j) by {}
            }
        }
        Some(out)
    }

    fn can_write_at(&self, va: usize) -> (r: bool)
        requires
            self.wf(),
        ensures
            r == writable_at(self@, va as int),
    {
        match self.find(va / PAGE_SIZE) {
            None => false,
            Some(i) => {
                proof { self.lemma_page_in_view(i as int); }
                let perm = self.pages[i].perm;
                perm & PTE_W == PTE_W && perm & PTE_U == PTE_U
            },
        }
    }

    /// Copies `data` into user memory at `va`, page by page. Returns 0; -1,
    /// with nothing written, when a byte would land in a page that is
    /// unmapped or not user writable.
    pub fn copy_out(&mut self, va: usize, data: &Vec<u8>) -> (r: isize)
        requires
            old(self).wf(),
            va + data@.len() <= usize::MAX,
        ensures
            final(self).wf(),
            final(self).frames() == old(self).frames(),
            r == 0 || r == -1,
            r == 0 <==> writable_range(old(self)@, va as int, data@.len() as int),
            r == -1 ==> final(self)@ == old(self)@,
            r == 0 ==> {
                &&& final(self)@.dom() == old(self)@.dom()
                &&& forall|p: int| #[trigger] final(self)@.contains_key(p) ==> final(self)@[p].perm == old(self)@[p].perm
                &&& forall|a: int| #[trigger] user_byte(final(self)@, a) == if va <= a < va + data@.len() {
                    Some(data@[a - va])
                } else {
                    user_byte(old(self)@, a)
                }
            },
    {
        let len = data.len();
        let mut k: usize = 0;
        while k < len
            invariant
                k <= len,
                len == data@.len(),
                va + len <= usize::MAX,
                self.wf(),
                *self == *old(self),
                writable_range(self@, va as int, k as int),
            decreases len - k,
        {
            let w = va + k;
            if !self.can_write_at(w) {
                return -1;
            }
            proof {
                assert forall|a: int| va <= a < va + k + 1 implies #[trigger] writable_at(self@, a) by {
                    if a < va + k {
                        assert(writable_range(self@, va as int, k as int));
                    } else {
                        assert(a == w as int);
                    }
                }
                assert(writable_range(self@, va as int, k + 1));
            }
            k = k + 1;
        }
        let ghost v0 = self@;
        let mut k: usize = 0;
        while k < len
            invariant
                k <= len,
                len == data@.len(),
                va + len <= usize::MAX,
                self.wf(),
                self.frames() == old(self).frames(),
                writable_range(v0, va as int, len as int),
                v0 == old(self)@,
                self@.dom() == v0.dom(),
                forall|p: int| #[trigger] self@.contains_key(p) ==> self@[p].perm == v0[p].perm
                    && self@[p].bytes.len() == v0[p].bytes.len(),
                forall|a: int| #[trigger] user_byte(self@, a) == if va <= a < va + k {
                    Some(data@[a - va])
                } else {
                    user_byte(v0, a)
                },
            decreases len - k,
        {
            let w = va + k;
            let ghost before = self@;
            proof {
                assert(writable_at(v0, w as int));
            }
            let ok = self.write_byte(w, data[k]);
            proof {
                assert(ok);
                let p = w as int / PAGE_SIZE as int;
                let o = w as int % PAGE_SIZE as int;
                assert(self@.dom() =~= v0.dom());
                assert forall|a: int| #[trigger] user_byte(self@, a) == if va <= a < va + k + 1 {
                    Some(data@[a - va])
                } else {
                    user_byte(v0, a)
                } by {
                    let q = a / PAGE_SIZE as int;
                    if q == p && a % (PAGE_SIZE as int) == o {
                        assert(a == w as int);
                    }
                    assert(user_byte(before, a) == if va <= a < va + k { Some(data@[a - va]) } else { user_byte(v0, a) });
                }
            }
            k = k + 1;
        }
        0
    }
}

impl AddressSpace {
    fn store_byte(&mut self, va: usize, b: u8)
        requires
            old(self).wf(),
            mapped_at(old(self)@, va as int),
        ensures
            final(self).wf(),
            final(self).frames() == old(self).frames(),
            ({
                let p = va as int / PAGE_SIZE as int;
                final(self)@ == old(self)@.insert(
                    p,
                    PageView { bytes: old(self)@[p].bytes.update(va as int % PAGE_SIZE as int, b), ..old(self)@[p] },
                )
            }),
    {
        match self.find(va / PAGE_SIZE) {
            None => {},
            Some(i) => {
                proof { self.lemma_page_in_view(i as int); }
                let mut d = copy_page(&self.pages[i].data);
                d.set(va % PAGE_SIZE, b);
                self.set_data(i, d);
            },
        }
    }

    /// Stores `data` at `va` from the kernel's side, whatever access the
    /// pages grant user mode; every byte's page must be mapped.
    pub fn fill(&mut self, va: usize, data: &Vec<u8>)
        requires
            old(self).wf(),
            va + data@.len() <= usize::MAX,
            forall|a: int| va <= a < va + data@.len() ==> #[trigger] mapped_at(old(self)@, a),
        ensures
            final(self).wf(),
            final(self).frames() == old(self).frames(),
            final(self)@.dom() == old(self)@.dom(),
            forall|p: int| #[trigger] final(self)@.contains_key(p) ==> final(self)@[p].perm == old(self)@[p].perm,
            forall|a: int| #[trigger] user_byte(final(self)@, a) == if va <= a < va + data@.len() {
                Some(data@[a - va])
            } else {
                user_byte(old(self)@, a)
            },
    {
        let len = data.len();
        let ghost v0 = self@;
        let mut k: usize = 0;
        while k < len
            invariant
                k <= len,
                len == data@.len(),
                va + len <= usize::MAX,
                self.wf(),
                self.frames() == old(self).frames(),
                v0 == old(self)@,
                forall|a: int| va <= a < va + len ==> #[trigger] mapped_at(v0, a),
                self@.dom() == v0.dom(),
                forall|p: int| #[trigger] self@.contains_key(p) ==> self@[p].perm == v0[p].perm
                    && self@[p].bytes.len() == v0[p].bytes.len(),
                forall|a: int| #[trigger] user_byte(self@, a) == if va <= a < va + k {
                    Some(data@[a - va])
                } else {
                    user_byte(v0, a)
                },
            decreases len - k,
        {
            let w = va + k;
            let ghost before = self@;
            proof {
                assert(mapped_at(v0, w as int));
            }
            self.store_byte(w, data[k]);
            proof {
                let p = w as int / PAGE_SIZE as int;
                let o = w as int % PAGE_SIZE as int;
                assert(self@.dom() =~= v0.dom());
                assert forall|a: int| #[trigger] user_byte(self@, a) == if va <= a < va + k + 1 {
                    Some(data@[a - va])
                } else {
                    user_byte(v0, a)
                } by {
                    let q = a / PAGE_SIZE as int;
                    if q == p && a % (PAGE_SIZE as int) == o {
                        assert(a == w as int);
                    }
                    assert(user_byte(before, a) == if va <= a < va + k { Some(data@[a - va]) } else { user_byte(v0, a) });
                }
            }
            k = k + 1;
        }
    }
}

/// After `munmap` and then `mmap` of the same range, every byte of the range
/// reads as zero, whatever was written there before.
pub proof fn lemma_remap_zeroed(
    v0: Map<int, PageView>,
    v1: Map<int, PageView>,
    v2: Map<int, PageView>,
    allocated: Set<int>,
    start: usize,
    len: usize,
    prot: usize,
)
    requires
        range_ok(start, len),
        munmap_post(v0, v1, start, len),
        mmap_post(v1, v2, allocated, start, len, prot),
    ensures
        forall|va: int| start <= va < start + len ==> #[trigger] user_byte(v2, va) == Some(0u8),
{
    assert forall|va: int| start <= va < start + len implies #[trigger] user_byte(v2, va) == Some(0u8) by {
        let p = va / PAGE_SIZE as int;
        assert(first_vpn(start) <= p < end_vpn(start, len));
        assert(v2.contains_key(p));
        assert(0 <= va % (PAGE_SIZE as int) < PAGE_SIZE as int);
    }
}

/// A forked child sees the same bytes as its parent at every user address,
/// and the two share no frame, so a later write in one cannot show in the
/// other.
pub proof fn lemma_fork_snapshot(parent: &AddressSpace, child: &AddressSpace, allocated: Set<int>)
    requires
        parent.wf(),
        child.wf(),
        parent.frames().subset_of(allocated),
        child@.dom() == parent@.dom(),
        forall|p: int| #[trigger] child@.contains_key(p) ==> child@[p].bytes == parent@[p].bytes && child@[p].perm == parent@[p].perm,
        child.frames().disjoint(allocated),
    ensures
        forall|va: int| #[trigger] user_byte(child@, va) == user_byte(parent@, va),
        child.frames().disjoint(parent.frames()),
{
    assert forall|va: int| #[trigger] user_byte(child@, va) == user_byte(parent@, va) by {
        let p = va / PAGE_SIZE as int;
        assert(child@.dom().contains(p) == parent@.dom().contains(p));
    }
}

} // verus!
