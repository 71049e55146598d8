use vstd::prelude::*;

use crate::elf::{parse_elf, segment_ok, Segment, PF_R, PF_W, PF_X};
use crate::frame::FrameAllocator;
use crate::memory::{end_vpn, first_vpn, mmap_ok, user_byte, zero_page, AddressSpace, PAGE_SIZE};

verus! {

/// Size of a task's user stack.
pub const USER_STACK_SIZE: usize = 8192;

/// `mmap` protection (R = 1, W = 2, X = 4) for ELF segment flags.
pub open spec fn prot_of_flags(flags: u32) -> usize {
    ((if flags & PF_R == PF_R { 1int } else { 0int }) + (if flags & PF_W == PF_W { 2int } else { 0int }) + (if flags
        & PF_X == PF_X { 4int } else { 0int })) as usize
}

/// The protection a segment with `flags` is mapped with.
pub fn prot_of(flags: u32) -> (r: usize)
    ensures
        r == prot_of_flags(flags),
        r <= 7,
{
    let r: usize = if flags & PF_R == PF_R { 1 } else { 0 };
    let w: usize = if flags & PF_W == PF_W { 2 } else { 0 };
    let x: usize = if flags & PF_X == PF_X { 4 } else { 0 };
    r + w + x
}

/// Start of the page holding `a`.
pub open spec fn page_floor(a: int) -> int {
    a - a % PAGE_SIZE as int
}

/// The page that address `a` lies in.
pub open spec fn page_of(a: int) -> int {
    a / PAGE_SIZE as int
}

/// First page of segment `seg`'s memory.
pub open spec fn seg_first(seg: Segment) -> int {
    seg.vaddr as int / PAGE_SIZE as int
}

/// One past the last page of segment `seg`'s memory.
pub open spec fn seg_end(seg: Segment) -> int {
    (seg.vaddr + seg.memsz + PAGE_SIZE - 1) / PAGE_SIZE as int
}

/// Whether segment `seg` lies within the address range, with room for a
/// page past it, and grants some access.
pub open spec fn seg_fits(seg: Segment) -> bool {
    seg.vaddr + seg.memsz + PAGE_SIZE <= usize::MAX && prot_of_flags(seg.flags) >= 1
}

/// The byte that loading segment `seg` of `image` puts at `a`: file bytes,
/// then zeros.
pub open spec fn seg_byte(image: Seq<u8>, seg: Segment, a: int) -> u8 {
    if a < seg.vaddr + seg.filesz {
        image[seg.offset + (a - seg.vaddr)]
    } else {
        0u8
    }
}

fn copy_range(b: &Vec<u8>, from: usize, n: usize) -> (r: Vec<u8>)
    requires
        from + n <= b@.len(),
    ensures
        r@ == b@.subrange(from as int, from + n),
{
    let _len = b.len();
    let mut r: Vec<u8> = Vec::new();
    let mut i: usize = 0;
    while i < n
        invariant
            b@.len() <= usize::MAX,
            i <= n,
            from + n <= b@.len(),
            r@ == b@.subrange(from as int, from + i),
        decreases n - i,
    {
        r.push(b[from + i]);
        i = i + 1;
        assert(r@ =~= b@.subrange(from as int, from + i));
    }
    r
}

/// Maps segment `seg` of `image`: fresh zeroed pages over the segment's
/// memory range, with the segment's access, then its file bytes at its
/// address. Returns 0; -1, and nothing changes, when the range leaves the
/// address range or `mmap` refuses it.
pub fn load_segment(space: &mut AddressSpace, fa: &mut FrameAllocator, image: &Vec<u8>, seg: Segment) -> (r: isize)
    requires
        old(space).wf(),
        old(fa).wf(),
        old(space).frames().subset_of(old(fa).allocated()),
        segment_ok(image@, seg),
    ensures
        final(space).wf(),
        final(fa).wf(),
        final(space).frames().subset_of(final(fa).allocated()),
        final(fa).start_spec() == old(fa).start_spec(),
        final(fa).end_spec() == old(fa).end_spec(),
        r == 0 || r == -1,
        r == -1 ==> final(space)@ == old(space)@ && final(fa).allocated() == old(fa).allocated()
            && final(space).frames() == old(space).frames() && final(fa).free_count() == old(fa).free_count(),
        r == 0 <==> seg_fits(seg) && old(fa).free_count() >= seg_end(seg) - seg_first(seg)
            && forall|p: int| seg_first(seg) <= p < seg_end(seg) ==> !#[trigger] old(space)@.contains_key(p),
        r == 0 ==> {
            &&& final(fa).allocated() == old(fa).allocated().union(final(space).frames())
            &&& final(fa).free_count() + (seg_end(seg) - seg_first(seg)) == old(fa).free_count()
            &&& old(space).frames().subset_of(final(space).frames())
            &&& final(space).frames().difference(old(space).frames()).disjoint(old(fa).allocated())
            &&& forall|p: int| #[trigger] final(space)@.contains_key(p) == (old(space)@.contains_key(p)
                || seg_first(seg) <= p < seg_end(seg))
            &&& forall|a: int| !(seg_first(seg) <= page_of(a) < seg_end(seg))
                ==> #[trigger] user_byte(final(space)@, a) == user_byte(old(space)@, a)
            &&& forall|a: int| seg.vaddr <= a < seg.vaddr + seg.memsz ==> #[trigger] user_byte(final(space)@, a) == Some(
                seg_byte(image@, seg, a),
            )
        },
{
    let ghost v0 = space@;
    if seg.vaddr > (usize::MAX - PAGE_SIZE) as u64 || seg.memsz > (usize::MAX - PAGE_SIZE) as u64 - seg.vaddr {
        return -1;
    }
    let vaddr = seg.vaddr as usize;
    let start = vaddr - vaddr % PAGE_SIZE;
    let len = vaddr + seg.memsz as usize - start;
    let prot = prot_of(seg.flags);
    let ghost alloc0 = fa.allocated();
    proof {
        assert(first_vpn(start) == seg_first(seg));
        assert(end_vpn(start, len) == seg_end(seg));
        assert(crate::memory::range_ok(start, len));
    }
    if space.mmap(fa, start, len, prot) != 0 {
        return -1;
    }
    let ghost v1 = space@;
    let _image_len = image.len();
    let bytes = copy_range(image, seg.offset as usize, seg.filesz as usize);
    proof {
        assert forall|a: int| vaddr <= a < vaddr + bytes@.len() implies #[trigger] crate::memory::mapped_at(v1, a) by {
            let p = a / PAGE_SIZE as int;
            assert(first_vpn(start) <= p < end_vpn(start, len));
        }
    }
    space.fill(vaddr, &bytes);
    proof {
        assert forall|a: int| seg.vaddr <= a < seg.vaddr + seg.memsz implies #[trigger] user_byte(space@, a) == Some(
            if a < seg.vaddr + seg.filesz { image@[seg.offset + (a - seg.vaddr)] } else { 0u8 },
        ) by {
            if a >= seg.vaddr + seg.filesz {
                let p = a / PAGE_SIZE as int;
                assert(first_vpn(start) <= p < end_vpn(start, len));
                assert(v1.contains_key(p));
                assert(0 <= a % (PAGE_SIZE as int) < PAGE_SIZE as int);
                assert(v1[p].bytes == zero_page());
            } else {
                assert(bytes@[a - seg.vaddr] == image@[seg.offset + (a - seg.vaddr)]);
            }
        }
        assert forall|p: int| #[trigger] space@.contains_key(p) == (v0.contains_key(p) || seg_first(seg) <= p < seg_end(seg)) by {
            assert(space@.dom().contains(p) == v1.dom().contains(p));
        }
        assert forall|a: int| !(seg_first(seg) <= page_of(a) < seg_end(seg))
            implies #[trigger] user_byte(space@, a) == user_byte(v0, a) by {
            if vaddr <= a < vaddr + bytes@.len() {
                assert(seg_first(seg) <= page_of(a));
            }
            assert(user_byte(space@, a) == user_byte(v1, a));
        }
    }
    0
}

proof fn lemma_loads_ok(b: Seq<u8>, phoff: int, k: nat)
    requires
        crate::elf::loads_ok(b, phoff, k),
    ensures
        forall|i: int| 0 <= i < crate::elf::loads(b, phoff, k).len() ==> segment_ok(b, #[trigger] crate::elf::loads(b, phoff, k)[i]),
    decreases k,
{
    if k > 0 {
        let k1 = (k - 1) as nat;
        assert(crate::elf::loads_ok(b, phoff, k1)) by {
            assert forall|j: int| 0 <= j < k1 && #[trigger] crate::elf::is_load(b, phoff + j * crate::elf::PHDR_SIZE) implies segment_ok(
                b,
                crate::elf::segment_at(b, phoff + j * crate::elf::PHDR_SIZE),
            ) by {}
        }
        lemma_loads_ok(b, phoff, k1);
        let off = phoff + k1 * crate::elf::PHDR_SIZE;
        let prev = crate::elf::loads(b, phoff, k1);
        let cur = crate::elf::loads(b, phoff, k);
        assert forall|i: int| 0 <= i < cur.len() implies segment_ok(b, #[trigger] cur[i]) by {
            if i < prev.len() {
                assert(cur[i] == prev[i]);
            } else {
                assert(crate::elf::is_load(b, phoff + k1 * crate::elf::PHDR_SIZE));
            }
        }
    }
}

/// The loadable segments of `image`, in file order.
pub open spec fn elf_segments(image: Seq<u8>) -> Seq<Segment> {
    crate::elf::loads(image, crate::elf::field(image, 32, 8) as int, crate::elf::field(image, 56, 2))
}

/// Pages the segments of `segs` take, segment by segment.
pub open spec fn pages_needed(segs: Seq<Segment>) -> int
    decreases segs.len(),
{
    if segs.len() == 0 {
        0
    } else {
        pages_needed(segs.drop_last()) + (seg_end(segs.last()) - seg_first(segs.last()))
    }
}

/// The highest end address of the segments of `segs` (0 for none).
pub open spec fn segs_top(segs: Seq<Segment>) -> int
    decreases segs.len(),
{
    if segs.len() == 0 {
        0
    } else {
        let t = segs_top(segs.drop_last());
        let e = segs.last().vaddr + segs.last().memsz;
        if e > t {
            e
        } else {
            t
        }
    }
}

/// Whether no two segments of `segs` share a page.
pub open spec fn segs_apart(segs: Seq<Segment>) -> bool {
    forall|i: int, j: int|
        0 <= i < j < segs.len() ==> seg_end(#[trigger] segs[i]) <= seg_first(#[trigger] segs[j]) || seg_end(segs[j])
            <= seg_first(segs[i])
}

/// Whether `from_elf` loads `image` with `free` frames to hand: a valid
/// ELF64 file whose segments each fit and share no page, with room for the
/// guard page and stack above them, and a frame for every page.
pub open spec fn elf_loadable(image: Seq<u8>, free: nat) -> bool {
    let segs = elf_segments(image);
    &&& crate::elf::header_ok(image)
    &&& crate::elf::loads_ok(image, crate::elf::field(image, 32, 8) as int, crate::elf::field(image, 56, 2))
    &&& forall|j: int| 0 <= j < segs.len() ==> seg_fits(#[trigger] segs[j])
    &&& segs_apart(segs)
    &&& page_floor(segs_top(segs)) <= usize::MAX - 3 * PAGE_SIZE - USER_STACK_SIZE
    &&& free >= pages_needed(segs) + (USER_STACK_SIZE / PAGE_SIZE) as int
}

/// Whether memory `mem` holds every loadable segment of `image`: its file
/// bytes at its address, then zeros up to its size in memory.
pub open spec fn image_mapped(image: Seq<u8>, mem: Map<int, crate::memory::PageView>) -> bool {
    let segs = elf_segments(image);
    forall|j: int, a: int|
        0 <= j < segs.len() && segs[j].vaddr <= a < segs[j].vaddr + segs[j].memsz ==> #[trigger] user_byte(mem, a) == Some(
            seg_byte(image, #[trigger] segs[j], a),
        )
}

proof fn lemma_pages_mono(segs: Seq<Segment>, i: int, k: int)
    requires
        0 <= i <= k <= segs.len(),
    ensures
        pages_needed(segs.take(i)) <= pages_needed(segs.take(k)),
    decreases k - i,
{
    if i < k {
        lemma_pages_mono(segs, i, k - 1);
        assert(segs.take(k).drop_last() =~= segs.take(k - 1));
        let s = segs[k - 1];
        assert(seg_end(s) >= seg_first(s));
    }
}

proof fn lemma_top_bound(segs: Seq<Segment>, j: int)
    requires
        0 <= j < segs.len(),
    ensures
        segs[j].vaddr + segs[j].memsz <= segs_top(segs),
    decreases segs.len(),
{
    if j < segs.len() - 1 {
        lemma_top_bound(segs.drop_last(), j);
    }
}

proof fn lemma_page_in_seg(seg: Segment, a: int)
    requires
        seg.vaddr <= a < seg.vaddr + seg.memsz,
    ensures
        seg_first(seg) <= page_of(a) < seg_end(seg),
{
}

/// Builds a task's address space from executable `image`: each loadable
/// segment as `load_segment` maps it, then, past a guard page above the
/// highest segment, a zeroed read-write user stack. Returns the space, the
/// entry point and the initial stack pointer (the top of the stack).
/// `None`, with every frame taken given back, when `image` is no valid
/// ELF64 executable, a segment cannot be mapped, or frames run short; it
/// succeeds whenever `elf_loadable` holds.
pub fn from_elf(fa: &mut FrameAllocator, image: &Vec<u8>) -> (r: Option<(AddressSpace, u64, usize)>)
    requires
        old(fa).wf(),
    ensures
        final(fa).wf(),
        final(fa).start_spec() == old(fa).start_spec(),
        final(fa).end_spec() == old(fa).end_spec(),
        elf_loadable(image@, old(fa).free_count()) ==> r is Some,
        r is None ==> final(fa).allocated() == old(fa).allocated(),
        r is Some ==> {
            let (space, entry, sp) = r->Some_0;
            &&& space.wf()
            &&& space.frames().disjoint(old(fa).allocated())
            &&& final(fa).allocated() == old(fa).allocated().union(space.frames())
            &&& crate::elf::header_ok(image@)
            &&& entry == crate::elf::field(image@, 24, 8)
            &&& image_mapped(image@, space@)
            &&& sp % PAGE_SIZE == 0
            &&& forall|a: int| sp - USER_STACK_SIZE <= a < sp ==> #[trigger] user_byte(space@, a) == Some(0u8)
        },
{
    let ghost ok = elf_loadable(image@, old(fa).free_count());
    let ghost free0 = old(fa).free_count();
    let img = match parse_elf(image) {
        None => { return None; },
        Some(i) => i,
    };
    let ghost segs = elf_segments(image@);
    proof {
        lemma_loads_ok(image@, crate::elf::field(image@, 32, 8) as int, crate::elf::field(image@, 56, 2));
    }
    let ghost alloc0 = fa.allocated();
    let mut space = AddressSpace::new();
    let mut top: usize = 0;
    let mut i: usize = 0;
    proof {
        assert(segs.take(0) =~= Seq::<Segment>::empty());
    }
    while i < img.segments.len()
        invariant
            i <= img.segments@.len(),
            img.segments@ == segs,
            segs == elf_segments(image@),
            ok == elf_loadable(image@, free0),
            free0 == old(fa).free_count(),
            forall|j: int| 0 <= j < img.segments@.len() ==> segment_ok(image@, #[trigger] img.segments@[j]),
            space.wf(),
            fa.wf(),
            fa.start_spec() == old(fa).start_spec(),
            fa.end_spec() == old(fa).end_spec(),
            alloc0 == old(fa).allocated(),
            space.frames().subset_of(fa.allocated()),
            space.frames().disjoint(alloc0),
            fa.allocated() == alloc0.union(space.frames()),
            top <= usize::MAX - PAGE_SIZE,
            top == segs_top(segs.take(i as int)),
            forall|j: int, p: int| 0 <= j < i && seg_first(#[trigger] segs[j]) <= p < seg_end(segs[j]) ==> #[trigger] space@.contains_key(p),
            forall|j: int, a: int|
                0 <= j < i && segs[j].vaddr <= a < segs[j].vaddr + segs[j].memsz ==> #[trigger] user_byte(space@, a) == Some(
                    seg_byte(image@, #[trigger] segs[j], a),
                ),
            ok ==> forall|p: int| #[trigger] space@.contains_key(p) ==> exists|j: int| 0 <= j < i && seg_first(#[trigger] segs[j]) <= p < seg_end(segs[j]),
            ok ==> fa.free_count() + pages_needed(segs.take(i as int)) == free0,
        decreases img.segments@.len() - i,
    {
        let seg = img.segments[i];
        let ghost frames_before = space.frames();
        let ghost v_before = space@;
        let ghost free_before = fa.free_count();
        proof {
            assert(segs.take(i + 1).drop_last() =~= segs.take(i as int));
            assert(segs.take(i + 1).last() == seg);
            if ok {
                lemma_pages_mono(segs, i + 1, segs.len() as int);
                assert(segs.take(segs.len() as int) =~= segs);
                assert(seg_fits(seg));
                assert forall|p: int| seg_first(seg) <= p < seg_end(seg) implies !#[trigger] v_before.contains_key(p) by {
                    if v_before.contains_key(p) {
                        let j = choose|j: int| 0 <= j < i && seg_first(#[trigger] segs[j]) <= p < seg_end(segs[j]);
                        assert(segs_apart(segs));
                        assert(seg_end(segs[j]) <= seg_first(segs[i as int]) || seg_end(segs[i as int]) <= seg_first(segs[j]));
                    }
                }
            }
        }
        if load_segment(&mut space, fa, image, seg) != 0 {
            space.clear(fa);
            proof {
                assert(fa.allocated() =~= alloc0);
            }
            return None;
        }
        proof {
            assert(space.frames().disjoint(alloc0)) by {
                assert forall|f: int| space.frames().contains(f) implies !alloc0.contains(f) by {
                    if !frames_before.contains(f) {
                        assert(space.frames().difference(frames_before).contains(f));
                    }
                }
            }
            assert(fa.allocated() =~= alloc0.union(space.frames()));
            assert forall|j: int, a: int|
                0 <= j < i + 1 && segs[j].vaddr <= a < segs[j].vaddr + segs[j].memsz implies #[trigger] user_byte(space@, a) == Some(
                    seg_byte(image@, #[trigger] segs[j], a),
                ) by {
                if j < i {
                    lemma_page_in_seg(segs[j], a);
                    assert(v_before.contains_key(page_of(a)));
                    assert(!(seg_first(seg) <= page_of(a) < seg_end(seg)));
                }
            }
            assert forall|j: int, p: int| 0 <= j < i + 1 && seg_first(#[trigger] segs[j]) <= p < seg_end(segs[j]) implies #[trigger] space@.contains_key(p) by {
                if j < i {
                    assert(v_before.contains_key(p));
                }
            }
            if ok {
                assert forall|p: int| #[trigger] space@.contains_key(p) implies exists|j: int| 0 <= j < i + 1 && seg_first(#[trigger] segs[j]) <= p < seg_end(segs[j]) by {
                    if !v_before.contains_key(p) {
                        assert(segs[i as int] == seg);
                    }
                }
            }
        }
        let end = (seg.vaddr + seg.memsz) as usize;
        if end > top {
            top = end;
        }
        i = i + 1;
    }
    proof {
        assert(segs.take(i as int) =~= segs);
    }
    let top_page = top - top % PAGE_SIZE;
    if top_page > usize::MAX - 3 * PAGE_SIZE - USER_STACK_SIZE {
        space.clear(fa);
        proof {
            assert(fa.allocated() =~= alloc0);
        }
        return None;
    }
    let stack_bottom = top_page + 2 * PAGE_SIZE;
    assert(stack_bottom % PAGE_SIZE == 0);
    let ghost frames_before = space.frames();
    let ghost v_before = space@;
    proof {
        if ok {
            assert forall|p: int| first_vpn(stack_bottom) <= p < end_vpn(stack_bottom, USER_STACK_SIZE) implies !#[trigger] v_before.contains_key(p) by {
                if v_before.contains_key(p) {
                    let j = choose|j: int| 0 <= j < i && seg_first(#[trigger] segs[j]) <= p < seg_end(segs[j]);
                    lemma_top_bound(segs, j);
                }
            }
            assert(end_vpn(stack_bottom, USER_STACK_SIZE) - first_vpn(stack_bottom) == 2);
        }
    }
    if space.mmap(fa, stack_bottom, USER_STACK_SIZE, 3) != 0 {
        space.clear(fa);
        proof {
            assert(fa.allocated() =~= alloc0);
        }
        return None;
    }
    let sp = stack_bottom + USER_STACK_SIZE;
    proof {
        assert(sp % PAGE_SIZE == 0);
        assert(space.frames().disjoint(alloc0)) by {
            assert forall|f: int| space.frames().contains(f) implies !alloc0.contains(f) by {
                if !frames_before.contains(f) {
                    assert(space.frames().difference(frames_before).contains(f));
                }
            }
        }
        assert(fa.allocated() =~= alloc0.union(space.frames()));
        assert forall|a: int| sp - USER_STACK_SIZE <= a < sp implies #[trigger] user_byte(space@, a) == Some(0u8) by {
            let p = a / PAGE_SIZE as int;
            assert(first_vpn(stack_bottom) <= p < end_vpn(stack_bottom, USER_STACK_SIZE));
            assert(0 <= a % (PAGE_SIZE as int) < PAGE_SIZE as int);
        }
        assert forall|j: int, a: int|
            0 <= j < segs.len() && segs[j].vaddr <= a < segs[j].vaddr + segs[j].memsz implies #[trigger] user_byte(space@, a) == Some(
                seg_byte(image@, #[trigger] segs[j], a),
            ) by {
            lemma_page_in_seg(segs[j], a);
            assert(v_before.contains_key(page_of(a)));
            assert(!(first_vpn(stack_bottom) <= page_of(a) < end_vpn(stack_bottom, USER_STACK_SIZE)));
            assert(user_byte(space@, a) == user_byte(v_before, a));
        }
    }
    Some((space, img.entry, sp))
}

} // verus!
