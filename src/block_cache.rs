use vstd::prelude::*;

use crate::fs::BLOCK_SIZE;

verus! {

/// Most blocks the cache holds at once.
pub const BLOCK_CACHE_SIZE: usize = 16;

/// A cached block: its number, its bytes, and whether they differ from the
/// device's.
pub struct CachedBlock {
    pub block_id: usize,
    pub data: Vec<u8>,
    pub dirty: bool,
}

/// What the cache holds for one block.
pub struct CachedView {
    pub block_id: usize,
    pub data: Seq<u8>,
    pub dirty: bool,
}

pub open spec fn cached_view(b: CachedBlock) -> CachedView {
    CachedView { block_id: b.block_id, data: b.data@, dirty: b.dirty }
}

/// Blocks between the file system and the device, least recently used
/// first. The caller reads a missing block from the device and inserts it,
/// after evicting when the cache is full; an evicted or synced dirty block
/// is handed back to be written to the device.
pub struct BlockCache {
    blocks: Vec<CachedBlock>,
}

impl View for BlockCache {
    type V = Seq<CachedView>;

    closed spec fn view(&self) -> Seq<CachedView> {
        self.blocks@.map_values(|b: CachedBlock| cached_view(b))
    }
}

/// Whether block `id` is cached in `v`.
pub open spec fn holds(v: Seq<CachedView>, id: usize) -> bool {
    exists|i: int| 0 <= i < v.len() && #[trigger] v[i].block_id == id
}

impl BlockCache {
    /// Each block is cached once, holds a block's worth of bytes, and the
    /// cache is within its bound.
    pub open spec fn wf_view(v: Seq<CachedView>) -> bool {
        &&& v.len() <= BLOCK_CACHE_SIZE
        &&& forall|i: int, j: int| 0 <= i < j < v.len() ==> #[trigger] v[i].block_id != #[trigger] v[j].block_id
        &&& forall|i: int| 0 <= i < v.len() ==> (#[trigger] v[i]).data.len() == BLOCK_SIZE
    }

    pub open spec fn wf(&self) -> bool {
        Self::wf_view(self@)
    }

    /// An empty cache.
    pub fn new() -> (r: Self)
        ensures
            r.wf(),
            r@ == Seq::<CachedView>::empty(),
    {
        let r = BlockCache { blocks: Vec::new() };
        assert(r@ =~= Seq::<CachedView>::empty());
        r
    }

    /// Number of cached blocks.
    pub fn len(&self) -> (r: usize)
        ensures
            r == self@.len(),
    {
        self.blocks.len()
    }

    fn find(&self, id: usize) -> (r: Option<usize>)
        ensures
            r is None <==> !holds(self@, id),
            r is Some ==> r->Some_0 < self@.len() && self@[r->Some_0 as int].block_id == id,
    {
        let mut i: usize = 0;
        while i < self.blocks.len()
            invariant
                i <= self.blocks@.len(),
                forall|j: int| 0 <= j < i ==> self@[j].block_id != id,
            decreases self.blocks@.len() - i,
        {
            if self.blocks[i].block_id == id {
                assert(self@[i as int].block_id == id);
                return Some(i);
            }
            i = i + 1;
        }
        None
    }

    /// Looks up block `id`; on a hit it becomes the most recently used.
    pub fn touch(&mut self, id: usize) -> (r: bool)
        requires
            old(self).wf(),
        ensures
            final(self).wf(),
            r == holds(old(self)@, id),
            !r ==> final(self)@ == old(self)@,
            r ==> exists|i: int| 0 <= i < old(self)@.len() && #[trigger] old(self)@[i].block_id == id
                && final(self)@ == old(self)@.remove(i).push(old(self)@[i]),
    {
        match self.find(id) {
            None => false,
            Some(i) => {
                let ghost v0 = self@;
                let b = self.blocks.remove(i);
                self.blocks.push(b);
                proof {
                    assert(self@ =~= v0.remove(i as int).push(v0[i as int]));
                    let v = self@;
                    assert forall|a: int, c: int| 0 <= a < c < v.len() implies #[trigger] v[a].block_id != #[trigger] v[c].block_id by {
                        let a0 = if a < i { a } else if a < v.len() - 1 { a + 1 } else { i as int };
                        let c0 = if c < i { c } else if c < v.len() - 1 { c + 1 } else { i as int };
                        assert(v[a] == v0[a0] && v[c] == v0[c0]);
                        if a0 < c0 {
                            assert(v0[a0].block_id != v0[c0].block_id);
                        } else {
                            assert(v0[c0].block_id != v0[a0].block_id);
                        }
                    }
                    assert forall|a: int| 0 <= a < v.len() implies (#[trigger] v[a]).data.len() == BLOCK_SIZE by {
                        let a0 = if a < i { a } else if a < v.len() - 1 { a + 1 } else { i as int };
                        assert(v[a] == v0[a0]);
                    }
                }
                true
            },
        }
    }

    /// Drops the least recently used block. Returns its number and bytes
    /// when they must be written back (it was dirty), else `None`.
    pub fn evict(&mut self) -> (r: Option<(usize, Vec<u8>)>)
        requires
            old(self).wf(),
            old(self)@.len() > 0,
        ensures
            final(self).wf(),
            final(self)@ == old(self)@.drop_first(),
            r is Some <==> old(self)@[0].dirty,
            r is Some ==> r->Some_0.0 == old(self)@[0].block_id && r->Some_0.1@ == old(self)@[0].data,
    {
        let ghost v0 = self@;
        let b = self.blocks.remove(0);
        proof {
            assert(self@ =~= v0.drop_first());
            let v = self@;
            assert forall|a: int, c: int| 0 <= a < c < v.len() implies #[trigger] v[a].block_id != #[trigger] v[c].block_id by {
                assert(v0[a + 1].block_id != v0[c + 1].block_id);
            }
            assert forall|a: int| 0 <= a < v.len() implies (#[trigger] v[a]).data.len() == BLOCK_SIZE by {
                assert(v[a] == v0[a + 1]);
            }
        }
        if b.dirty {
            Some((b.block_id, b.data))
        } else {
            None
        }
    }

    /// Caches block `id`, just read from the device, as the most recently
    /// used; the cache must have room and not hold it yet.
    pub fn insert(&mut self, id: usize, data: Vec<u8>)
        requires
            old(self).wf(),
            old(self)@.len() < BLOCK_CACHE_SIZE,
            !holds(old(self)@, id),
            data@.len() == BLOCK_SIZE,
        ensures
            final(self).wf(),
            final(self)@ == old(self)@.push(CachedView { block_id: id, data: data@, dirty: false }),
    {
        let ghost v0 = self@;
        let ghost d = data@;
        self.blocks.push(CachedBlock { block_id: id, data, dirty: false });
        proof {
            assert(self@ =~= v0.push(CachedView { block_id: id, data: d, dirty: false }));
            let v = self@;
            assert forall|a: int, c: int| 0 <= a < c < v.len() implies #[trigger] v[a].block_id != #[trigger] v[c].block_id by {
                if c == v.len() - 1 {
                    assert(v0[a].block_id != id);
                } else {
                    assert(v0[a].block_id != v0[c].block_id);
                }
            }
        }
    }

    /// The bytes of cached block `id`, if cached.
    pub fn read(&self, id: usize) -> (r: Option<Vec<u8>>)
        ensures
            r is None <==> !holds(self@, id),
            r is Some ==> exists|i: int| 0 <= i < self@.len() && #[trigger] self@[i].block_id == id && r->Some_0@ == self@[i].data,
    {
        match self.find(id) {
            None => None,
            Some(i) => {
                let mut out: Vec<u8> = Vec::new();
                let src = &self.blocks[i].data;
                let mut k: usize = 0;
                while k < src.len()
                    invariant
                        k <= src@.len(),
                        out@ == src@.take(k as int),
                    decreases src@.len() - k,
                {
                    out.push(src[k]);
                    k = k + 1;
                    assert(out@ =~= src@.take(k as int));
                }
                assert(out@ =~= src@);
                Some(out)
            },
        }
    }

    /// Stores `bytes` at `offset` in cached block `id` and marks it dirty;
    /// false, and nothing changes, when the block is not cached.
    pub fn write(&mut self, id: usize, offset: usize, bytes: &Vec<u8>) -> (r: bool)
        requires
            old(self).wf(),
            offset + bytes@.len() <= BLOCK_SIZE,
        ensures
            final(self).wf(),
            r == holds(old(self)@, id),
            !r ==> final(self)@ == old(self)@,
            r ==> exists|i: int| 0 <= i < old(self)@.len() && #[trigger] old(self)@[i].block_id == id
                && final(self)@ == old(self)@.update(i, CachedView {
                    block_id: id,
                    data: old(self)@[i].data.take(offset as int) + bytes@ + old(self)@[i].data.skip(offset + bytes@.len()),
                    dirty: true,
                }),
    {
        match self.find(id) {
            None => false,
            Some(i) => {
                let ghost v0 = self@;
                let old_block = self.blocks.remove(i);
                let ghost od = old_block.data@;
                assert(od == v0[i as int].data);
                let mut nd: Vec<u8> = Vec::new();
                let mut k: usize = 0;
                let n = old_block.data.len();
                while k < n
                    invariant
                        k <= n,
                        n == od.len(),
                        od.len() == BLOCK_SIZE,
                        offset + bytes@.len() <= BLOCK_SIZE,
                        old_block.data@ == od,
                        nd@ == (od.take(offset as int) + bytes@ + od.skip(offset + bytes@.len())).take(k as int),
                    decreases n - k,
                {
                    let v = if k >= offset && k - offset < bytes.len() {
                        bytes[k - offset]
                    } else {
                        old_block.data[k]
                    };
                    nd.push(v);
                    k = k + 1;
                    assert(nd@ =~= (od.take(offset as int) + bytes@ + od.skip(offset + bytes@.len())).take(k as int));
                }
                let ghost target = od.take(offset as int) + bytes@ + od.skip(offset + bytes@.len());
                assert(nd@ =~= target);
                self.blocks.insert(i, CachedBlock { block_id: id, data: nd, dirty: true });
                proof {
                    assert(self@ =~= v0.update(i as int, CachedView { block_id: id, data: target, dirty: true }));
                    let v = self@;
                    assert forall|a: int, c: int| 0 <= a < c < v.len() implies #[trigger] v[a].block_id != #[trigger] v[c].block_id by {
                        assert(v0[a].block_id != v0[c].block_id);
                    }
                }
                true
            },
        }
    }

    /// Hands back every dirty block, in cache order, to be written to the
    /// device; all blocks are clean afterwards.
    pub fn sync(&mut self) -> (r: Vec<(usize, Vec<u8>)>)
        requires
            old(self).wf(),
        ensures
            final(self).wf(),
            final(self)@.len() == old(self)@.len(),
            forall|i: int| 0 <= i < old(self)@.len() ==> #[trigger] final(self)@[i] == (CachedView { dirty: false, ..old(self)@[i] }),
            r@.len() == old(self)@.filter(|c: CachedView| c.dirty).len(),
            forall|i: int| 0 <= i < r@.len() ==> {
                let c = old(self)@.filter(|c: CachedView| c.dirty)[i];
                &&& (#[trigger] r@[i]).0 == c.block_id
                &&& r@[i].1@ == c.data
            },
    {
        let ghost v0 = self@;
        let mut out: Vec<(usize, Vec<u8>)> = Vec::new();
        let mut rest: Vec<CachedBlock> = Vec::new();
        let mut i: usize = 0;
        let n = self.blocks.len();
        while self.blocks.len() > 0
            invariant
                i + self.blocks@.len() == n,
                n == v0.len(),
                self.blocks@.map_values(|b: CachedBlock| cached_view(b)) == v0.skip(i as int),
                rest@.len() == i,
                forall|k: int| 0 <= k < i ==> #[trigger] cached_view(rest@[k]) == (CachedView { dirty: false, ..v0[k] }),
                out@.len() == v0.take(i as int).filter(|c: CachedView| c.dirty).len(),
                forall|k: int| 0 <= k < out@.len() ==> {
                    let c = v0.take(i as int).filter(|c: CachedView| c.dirty)[k];
                    &&& (#[trigger] out@[k]).0 == c.block_id
                    &&& out@[k].1@ == c.data
                },
            decreases self.blocks@.len(),
        {
            let ghost before = self.blocks@;
            let b = self.blocks.remove(0);
            proof {
                let after = self.blocks@.map_values(|b: CachedBlock| cached_view(b));
                let prev = before.map_values(|b: CachedBlock| cached_view(b));
                assert forall|k: int| 0 <= k < after.len() implies #[trigger] after[k] == v0.skip(i + 1 as int)[k] by {
                    assert(self.blocks@[k] == before[k + 1]);
                    assert(prev[k + 1] == v0.skip(i as int)[k + 1]);
                }
                assert(after =~= v0.skip(i + 1 as int));
                assert(cached_view(b) == v0[i as int]) by {
                    assert(before.map_values(|b: CachedBlock| cached_view(b))[0] == v0.skip(i as int)[0]);
                }
                reveal(Seq::filter);
                assert(v0.take(i + 1 as int).drop_last() =~= v0.take(i as int));
            }
            if b.dirty {
                let d = b.data;
                let mut copy: Vec<u8> = Vec::new();
                let mut k: usize = 0;
                while k < d.len()
                    invariant
                        k <= d@.len(),
                        copy@ == d@.take(k as int),
                    decreases d@.len() - k,
                {
                    copy.push(d[k]);
                    k = k + 1;
                    assert(copy@ =~= d@.take(k as int));
                }
                assert(copy@ =~= d@);
                out.push((b.block_id, copy));
                rest.push(CachedBlock { block_id: b.block_id, data: d, dirty: false });
            } else {
                rest.push(b);
            }
            i = i + 1;
        }
        self.blocks = rest;
        proof {
            assert(v0.take(i as int) =~= v0);
            assert forall|k: int| 0 <= k < v0.len() implies #[trigger] self@[k] == (CachedView { dirty: false, ..v0[k] }) by {
                assert(self@[k] == cached_view(rest@[k]));
            }
            let v = self@;
            assert forall|a: int, c: int| 0 <= a < c < v.len() implies #[trigger] v[a].block_id != #[trigger] v[c].block_id by {
                assert(v0[a].block_id != v0[c].block_id);
            }
            assert forall|a: int| 0 <= a < v.len() implies (#[trigger] v[a]).data.len() == BLOCK_SIZE by {
                assert(v0[a].data.len() == BLOCK_SIZE);
            }
        }
        out
    }
}

} // verus!
