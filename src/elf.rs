use vstd::prelude::*;

verus! {

/// Size of an ELF64 file header.
pub const EHDR_SIZE: usize = 64;

/// Size of an ELF64 program header.
pub const PHDR_SIZE: usize = 56;

/// Program header type of a loadable segment.
pub const PT_LOAD: u32 = 1;

/// Segment flag: executable.
pub const PF_X: u32 = 1;

/// Segment flag: writable.
pub const PF_W: u32 = 2;

/// Segment flag: readable.
pub const PF_R: u32 = 4;

/// One loadable segment: `filesz` bytes from file offset `offset` go to
/// `vaddr`, followed by zeros up to `memsz` bytes.
#[derive(Clone, Copy, PartialEq, Eq, Structural, Debug)]
pub struct Segment {
    pub vaddr: u64,
    pub memsz: u64,
    pub offset: u64,
    pub filesz: u64,
    pub flags: u32,
}

/// What loading needs of an executable: its entry point and its loadable
/// segments, in file order.
pub struct ElfImage {
    pub entry: u64,
    pub segments: Vec<Segment>,
}

/// The little-endian number held by `s`.
pub open spec fn le_value(s: Seq<u8>) -> nat
    decreases s.len(),
{
    if s.len() == 0 {
        0
    } else {
        s[0] as nat + 256 * le_value(s.drop_first())
    }
}

/// 256 to the power `n`.
pub open spec fn pow256(n: nat) -> nat
    decreases n,
{
    if n == 0 {
        1
    } else {
        256 * pow256((n - 1) as nat)
    }
}

/// The little-endian field of `n` bytes at `off` in `b`.
pub open spec fn field(b: Seq<u8>, off: int, n: int) -> nat {
    le_value(b.subrange(off, off + n))
}

proof fn lemma_le_bound(s: Seq<u8>)
    ensures
        le_value(s) < pow256(s.len()),
    decreases s.len(),
{
    if s.len() > 0 {
        lemma_le_bound(s.drop_first());
        let rest = le_value(s.drop_first());
        let p = pow256((s.len() - 1) as nat);
        assert(s[0] as nat + 256 * rest < 256 * p) by (nonlinear_arith)
            requires rest < p, s[0] < 256;
    }
}

fn read_le(b: &Vec<u8>, off: usize, n: usize) -> (r: u64)
    requires
        n <= 8,
        off + n <= b@.len(),
    ensures
        r as nat == field(b@, off as int, n as int),
{
    assert(pow256(8) == 0x1_0000_0000_0000_0000) by {
        reveal_with_fuel(pow256, 9);
    }
    let _len = b.len();
    let mut v: u64 = 0;
    let mut i: usize = n;
    while i > 0
        invariant
            b@.len() <= usize::MAX,
            i <= n <= 8,
            off + n <= b@.len(),
            v as nat == le_value(b@.subrange(off + i, off + n)),
            pow256((n - i) as nat) <= pow256(8),
            pow256(8) == 0x1_0000_0000_0000_0000,
        decreases i,
    {
        let ghost tail = b@.subrange(off + i, off + n);
        let ghost next = b@.subrange(off + i - 1, off + n);
        proof {
            assert(next.drop_first() =~= tail);
            lemma_le_bound(tail);
            lemma_pow_mono((n - i + 1) as nat, 8);
            let byte = b@[off + i - 1];
            assert(v * 256 + byte < 256 * pow256((n - i) as nat)) by (nonlinear_arith)
                requires v < pow256((n - i) as nat), byte < 256;
            assert(pow256((n - i + 1) as nat) == 256 * pow256((n - i) as nat));
            assert(v * 256 + byte < 0x1_0000_0000_0000_0000);
        }
        v = v * 256 + b[off + i - 1] as u64;
        i = i - 1;
    }
    v
}

fn read_u32(b: &Vec<u8>, off: usize) -> (r: u32)
    requires
        off + 4 <= b@.len(),
    ensures
        r as nat == field(b@, off as int, 4),
{
    let v = read_le(b, off, 4);
    proof {
        lemma_le_bound(b@.subrange(off as int, off + 4));
        assert(pow256(4) == 0x1_0000_0000) by {
            reveal_with_fuel(pow256, 5);
        }
    }
    v as u32
}

proof fn lemma_pow_mono(a: nat, b: nat)
    requires
        a <= b,
    ensures
        pow256(a) <= pow256(b),
    decreases b,
{
    if a < b {
        lemma_pow_mono(a, (b - 1) as nat);
    }
}

/// Whether `b` starts with an ELF64 little-endian header whose program
/// headers (of the standard size) lie inside `b`.
pub open spec fn header_ok(b: Seq<u8>) -> bool {
    &&& b.len() >= EHDR_SIZE
    &&& b[0] == 0x7f && b[1] == 0x45 && b[2] == 0x4c && b[3] == 0x46
    &&& b[4] == 2
    &&& b[5] == 1
    &&& field(b, 54, 2) == PHDR_SIZE
    &&& field(b, 32, 8) + field(b, 56, 2) * PHDR_SIZE <= b.len()
}

/// The segment described by the program header at `off`.
pub open spec fn segment_at(b: Seq<u8>, off: int) -> Segment {
    Segment {
        vaddr: field(b, off + 16, 8) as u64,
        memsz: field(b, off + 40, 8) as u64,
        offset: field(b, off + 8, 8) as u64,
        filesz: field(b, off + 32, 8) as u64,
        flags: field(b, off + 4, 4) as u32,
    }
}

/// Whether the program header at `off` describes a loadable segment.
pub open spec fn is_load(b: Seq<u8>, off: int) -> bool {
    field(b, off, 4) == PT_LOAD
}

/// Whether a loadable segment's file bytes lie inside `b` and fit its size
/// in memory.
pub open spec fn segment_ok(b: Seq<u8>, s: Segment) -> bool {
    s.offset + s.filesz <= b.len() && s.filesz <= s.memsz
}

/// The loadable segments among the first `k` program headers at `phoff`.
pub open spec fn loads(b: Seq<u8>, phoff: int, k: nat) -> Seq<Segment>
    decreases k,
{
    if k == 0 {
        Seq::empty()
    } else {
        let prev = loads(b, phoff, (k - 1) as nat);
        let off = phoff + (k - 1) * PHDR_SIZE;
        if is_load(b, off) {
            prev.push(segment_at(b, off))
        } else {
            prev
        }
    }
}

/// Whether every loadable segment among the first `k` headers is sound.
pub open spec fn loads_ok(b: Seq<u8>, phoff: int, k: nat) -> bool {
    forall|j: int| 0 <= j < k && #[trigger] is_load(b, phoff + j * PHDR_SIZE) ==> segment_ok(b, segment_at(b, phoff + j * PHDR_SIZE))
}

/// Reads the entry point and loadable segments of an ELF64 executable.
/// `None` when the header is not that of a little-endian ELF64 file, the
/// program headers do not lie in `b`, or a loadable segment's bytes do not.
pub fn parse_elf(b: &Vec<u8>) -> (r: Option<ElfImage>)
    ensures
        r is Some <==> header_ok(b@) && loads_ok(b@, field(b@, 32, 8) as int, field(b@, 56, 2)),
        r is Some ==> {
            &&& r->Some_0.entry == field(b@, 24, 8)
            &&& r->Some_0.segments@ == loads(b@, field(b@, 32, 8) as int, field(b@, 56, 2))
        },
{
    if b.len() < EHDR_SIZE {
        return None;
    }
    if b[0] != 0x7f || b[1] != 0x45 || b[2] != 0x4c || b[3] != 0x46 || b[4] != 2 || b[5] != 1 {
        return None;
    }
    let entry = read_le(b, 24, 8);
    let phoff = read_le(b, 32, 8);
    let phentsize = read_le(b, 54, 2);
    let phnum = read_le(b, 56, 2);
    if phentsize != PHDR_SIZE as u64 {
        return None;
    }
    assert(phnum < 0x10000) by {
        lemma_le_bound(b@.subrange(56, 58));
        assert(pow256(2) == 0x10000) by {
            reveal_with_fuel(pow256, 3);
        }
    }
    let len = b.len() as u64;
    if phoff > len || phnum * (PHDR_SIZE as u64) > len - phoff {
        return None;
    }
    let ghost bs = b@;
    let mut segments: Vec<Segment> = Vec::new();
    let mut k: u64 = 0;
    while k < phnum
        invariant
            k <= phnum,
            bs == b@,
            header_ok(bs),
            phoff == field(bs, 32, 8),
            phnum == field(bs, 56, 2),
            phoff + phnum * PHDR_SIZE <= bs.len(),
            phnum < 0x10000,
            len == bs.len(),
            bs.len() <= usize::MAX,
            segments@ == loads(bs, phoff as int, k as nat),
            loads_ok(bs, phoff as int, k as nat),
        decreases phnum - k,
    {
        proof {
            assert(k * PHDR_SIZE + PHDR_SIZE <= phnum * PHDR_SIZE) by (nonlinear_arith)
                requires k < phnum;
        }
        assert(phoff + k * PHDR_SIZE + PHDR_SIZE <= bs.len());
        let off = (phoff + k * (PHDR_SIZE as u64)) as usize;
        assert(off + PHDR_SIZE <= bs.len());
        let p_type = read_le(b, off, 4);
        if p_type == PT_LOAD as u64 {
            let seg = Segment {
                vaddr: read_le(b, off + 16, 8),
                memsz: read_le(b, off + 40, 8),
                offset: read_le(b, off + 8, 8),
                filesz: read_le(b, off + 32, 8),
                flags: read_u32(b, off + 4),
            };
            if seg.offset > len || seg.filesz > len - seg.offset || seg.filesz > seg.memsz {
                proof {
                    assert(is_load(bs, phoff + k * PHDR_SIZE));
                }
                return None;
            }
            segments.push(seg);
        }
        proof {
            assert forall|j: int| 0 <= j < k + 1 && #[trigger] is_load(bs, phoff + j * PHDR_SIZE) implies
                segment_ok(bs, segment_at(bs, phoff + j * PHDR_SIZE)) by {
                if j < k {
                    assert(loads_ok(bs, phoff as int, k as nat));
                }
            }
        }
        k = k + 1;
    }
    Some(ElfImage { entry, segments })
}

} // verus!
