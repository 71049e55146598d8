use vstd::prelude::*;

verus! {

/// Size of one block of the underlying device, in bytes.
pub const BLOCK_SIZE: usize = 512;

/// Number of direct block pointers in an inode.
pub const INODE_DIRECT_COUNT: usize = 28;

/// Number of block pointers held by the one indirect block.
pub const INODE_INDIRECT_COUNT: usize = 128;

/// Largest size a file can reach: direct plus indirect blocks.
pub const MAX_FILE_SIZE: usize = (INODE_DIRECT_COUNT + INODE_INDIRECT_COUNT) * BLOCK_SIZE;

/// One entry of the root directory: a name bound to an inode number.
pub struct DirEntry {
    pub name: Vec<u8>,
    pub inode: usize,
}

/// A single-directory inode file system. Inode `i` holds `inodes[i]`, the
/// bytes of the file, or `None` once it has been freed. A file lives as long
/// as one directory entry (hard link) names it.
pub struct FileSystem {
    inodes: Vec<Option<Vec<u8>>>,
    entries: Vec<DirEntry>,
}

/// The abstract state: which name leads to which inode, and what each live
/// inode holds.
pub struct FsView {
    pub dir: Map<Seq<u8>, nat>,
    pub data: Map<nat, Seq<u8>>,
}

/// The bytes `read_at` returns: those of `[offset, offset + len)` that lie
/// inside the file.
pub open spec fn read_spec(d: Seq<u8>, offset: int, len: int) -> Seq<u8> {
    if offset >= d.len() {
        Seq::empty()
    } else if offset + len <= d.len() {
        d.subrange(offset, offset + len)
    } else {
        d.subrange(offset, d.len() as int)
    }
}

/// The file after `write_at`: `b` stored at `offset`, the file grown to cover
/// it, a gap before `offset` filled with zeros.
pub open spec fn write_spec(d: Seq<u8>, offset: int, b: Seq<u8>) -> Seq<u8> {
    let n = if offset + b.len() > d.len() { offset + b.len() } else { d.len() as int };
    Seq::new(
        n as nat,
        |i: int|
            if offset <= i < offset + b.len() {
                b[i - offset]
            } else if i < d.len() {
                d[i]
            } else {
                0u8
            },
    )
}

/// The view after `link(src, dst)` succeeds.
pub open spec fn link_result(v: FsView, src: Seq<u8>, dst: Seq<u8>) -> FsView {
    FsView { dir: v.dir.insert(dst, v.dir[src]), data: v.data }
}

/// The view after `unlink(name)` succeeds: the name goes, and the inode with
/// it once no other name leads there.
pub open spec fn unlink_result(v: FsView, name: Seq<u8>) -> FsView {
    let ino = v.dir[name];
    let dir = v.dir.remove(name);
    FsView {
        dir,
        data: if exists|n: Seq<u8>| #[trigger] dir.contains_key(n) && dir[n] == ino {
            v.data
        } else {
            v.data.remove(ino)
        },
    }
}

impl View for FileSystem {
    type V = FsView;

    closed spec fn view(&self) -> FsView {
        FsView {
            dir: Map::new(
                |n: Seq<u8>| exists|i: int| 0 <= i < self.entries@.len() && #[trigger] self.entries@[i].name@ == n,
                |n: Seq<u8>|
                    self.entries@[choose|i: int| 0 <= i < self.entries@.len() && #[trigger] self.entries@[i].name@ == n].inode as nat,
            ),
            data: Map::new(
                |k: nat| k < self.inodes@.len() && self.inodes@[k as int] is Some,
                |k: nat| self.inodes@[k as int]->Some_0@,
            ),
        }
    }
}

fn bytes_eq(a: &Vec<u8>, b: &Vec<u8>) -> (r: bool)
    ensures
        r == (a@ == b@),
{
    if a.len() != b.len() {
        return false;
    }
    let mut i: usize = 0;
    while i < a.len()
        invariant
            a@.len() == b@.len(),
            i <= a@.len(),
            forall|j: int| 0 <= j < i ==> a@[j] == b@[j],
        decreases a@.len() - i,
    {
        if a[i] != b[i] {
            return false;
        }
        i = i + 1;
    }
    assert(a@ =~= b@);
    true
}

fn copy_bytes(b: &Vec<u8>) -> (r: Vec<u8>)
    ensures
        r@ == b@,
{
    let mut r: Vec<u8> = Vec::new();
    let mut i: usize = 0;
    while i < b.len()
        invariant
            i <= b@.len(),
            r@ == b@.take(i as int),
        decreases b@.len() - i,
    {
        r.push(b[i]);
        i = i + 1;
        assert(r@ =~= b@.take(i as int));
    }
    assert(r@ =~= b@);
    r
}

impl FileSystem {
    /// Names are unique and each names a live inode.
    pub closed spec fn wf(&self) -> bool {
        &&& forall|i: int, j: int|
            0 <= i < j < self.entries@.len() ==> #[trigger] self.entries@[i].name@ != #[trigger] self.entries@[j].name@
        &&& forall|i: int|
            0 <= i < self.entries@.len() ==> {
                let k = #[trigger] self.entries@[i].inode;
                &&& k < self.inodes@.len()
                &&& self.inodes@[k as int] is Some
            }
        &&& forall|k: int|
            0 <= k < self.inodes@.len() && #[trigger] self.inodes@[k] is Some ==> self.inodes@[k]->Some_0@.len() <= MAX_FILE_SIZE
    }

    proof fn lemma_entry_in_view(&self, i: int)
        requires
            self.wf(),
            0 <= i < self.entries@.len(),
        ensures
            self@.dir.contains_key(self.entries@[i].name@),
            self@.dir[self.entries@[i].name@] == self.entries@[i].inode as nat,
            self@.data.contains_key(self.entries@[i].inode as nat),
    {
        let n = self.entries@[i].name@;
        assert(self@.dir.contains_key(n));
        let c = choose|c: int| 0 <= c < self.entries@.len() && #[trigger] self.entries@[c].name@ == n;
        if c != i {
            if c < i {
                assert(self.entries@[c].name@ != self.entries@[i].name@);
            } else {
                assert(self.entries@[i].name@ != self.entries@[c].name@);
            }
        }
    }

    /// No file grows past `MAX_FILE_SIZE`.
    pub proof fn lemma_size_bound(&self, ino: nat)
        requires
            self.wf(),
            self@.data.contains_key(ino),
        ensures
            self@.data[ino].len() <= MAX_FILE_SIZE,
    {
        assert(self.inodes@[ino as int] is Some);
    }

    /// An empty file system.
    pub fn new() -> (r: Self)
        ensures
            r.wf(),
            r@.dir == Map::<Seq<u8>, nat>::empty(),
            r@.data == Map::<nat, Seq<u8>>::empty(),
    {
        let r = FileSystem { inodes: Vec::new(), entries: Vec::new() };
        assert(r@.dir =~= Map::<Seq<u8>, nat>::empty());
        assert(r@.data =~= Map::<nat, Seq<u8>>::empty());
        r
    }

    fn find_index(&self, name: &Vec<u8>) -> (r: Option<usize>)
        requires
            self.wf(),
        ensures
            r is None ==> !self@.dir.contains_key(name@),
            r is Some ==> r->Some_0 < self.entries@.len() && self.entries@[r->Some_0 as int].name@ == name@,
    {
        let mut i: usize = 0;
        while i < self.entries.len()
            invariant
                i <= self.entries@.len(),
                forall|j: int| 0 <= j < i ==> self.entries@[j].name@ != name@,
            decreases self.entries@.len() - i,
        {
            if bytes_eq(&self.entries[i].name, name) {
                return Some(i);
            }
            i = i + 1;
        }
        None
    }

    /// The inode that `name` leads to, if any.
    pub fn find(&self, name: &Vec<u8>) -> (r: Option<usize>)
        requires
            self.wf(),
        ensures
            r is None <==> !self@.dir.contains_key(name@),
            r is Some ==> self@.dir[name@] == r->Some_0 as nat && self@.data.contains_key(r->Some_0 as nat),
    {
        match self.find_index(name) {
            Some(i) => {
                proof { self.lemma_entry_in_view(i as int); }
                Some(self.entries[i].inode)
            },
            None => None,
        }
    }

    /// Length of the file held by the live inode `ino`.
    pub fn size(&self, ino: usize) -> (r: usize)
        requires
            self.wf(),
            self@.data.contains_key(ino as nat),
        ensures
            r == self@.data[ino as nat].len(),
    {
        match &self.inodes[ino] {
            Some(d) => d.len(),
            None => 0,
        }
    }

    /// Reads up to `len` bytes of inode `ino` from `offset` on.
    pub fn read_at(&self, ino: usize, offset: usize, len: usize) -> (r: Vec<u8>)
        requires
            self.wf(),
            self@.data.contains_key(ino as nat),
        ensures
            r@ == read_spec(self@.data[ino as nat], offset as int, len as int),
    {
        let mut r: Vec<u8> = Vec::new();
        match &self.inodes[ino] {
            Some(d) => {
                if offset >= d.len() {
                    assert(r@ =~= read_spec(d@, offset as int, len as int));
                    return r;
                }
                let end = if len <= d.len() - offset { offset + len } else { d.len() };
                let mut i: usize = offset;
                while i < end
                    invariant
                        offset <= i <= end <= d@.len(),
                        r@ == d@.subrange(offset as int, i as int),
                    decreases end - i,
                {
                    r.push(d[i]);
                    i = i + 1;
                    assert(r@ =~= d@.subrange(offset as int, i as int));
                }
                r
            },
            None => r,
        }
    }

    /// Writes `b` into inode `ino` at `offset`, growing the file as needed;
    /// returns the number of bytes written, all of `b`.
    pub fn write_at(&mut self, ino: usize, offset: usize, b: &Vec<u8>) -> (r: usize)
        requires
            old(self).wf(),
            old(self)@.data.contains_key(ino as nat),
            offset + b@.len() <= MAX_FILE_SIZE,
        ensures
            final(self).wf(),
            r == b@.len(),
            final(self)@.dir == old(self)@.dir,
            final(self)@.data == old(self)@.data.insert(
                ino as nat,
                write_spec(old(self)@.data[ino as nat], offset as int, b@),
            ),
    {
        let ghost before = self@;
        let d = match &self.inodes[ino] {
            Some(d) => copy_bytes(d),
            None => Vec::new(),
        };
        let ghost target = write_spec(d@, offset as int, b@);
        let n = if offset + b.len() > d.len() { offset + b.len() } else { d.len() };
        let mut nd: Vec<u8> = Vec::new();
        let mut i: usize = 0;
        while i < n
            invariant
                i <= n,
                n == target.len(),
                n <= MAX_FILE_SIZE,
                target == write_spec(d@, offset as int, b@),
                nd@ == target.take(i as int),
            decreases n - i,
        {
            let v = if offset <= i && i < offset + b.len() {
                b[i - offset]
            } else if i < d.len() {
                d[i]
            } else {
                0u8
            };
            nd.push(v);
            i = i + 1;
            assert(nd@ =~= target.take(i as int));
        }
        assert(nd@ =~= target);
        self.inodes.set(ino, Some(nd));
        proof {
            assert forall|k: int| 0 <= k < self.entries@.len() implies self.entries@[k].name@ == old(self).entries@[k].name@ by {}
            assert(self@.dir =~= before.dir);
            assert(self@.data =~= before.data.insert(ino as nat, target));
        }
        b.len()
    }

    fn push_entry(&mut self, name: &Vec<u8>, ino: usize)
        requires
            old(self).wf(),
            !old(self)@.dir.contains_key(name@),
            old(self)@.data.contains_key(ino as nat),
        ensures
            final(self).wf(),
            final(self)@.dir == old(self)@.dir.insert(name@, ino as nat),
            final(self)@.data == old(self)@.data,
    {
        let ghost before = self@;
        self.entries.push(DirEntry { name: copy_bytes(name), inode: ino });
        proof {
            let len = self.entries@.len();
            assert forall|i: int, j: int| 0 <= i < j < len implies #[trigger] self.entries@[i].name@ != #[trigger] self.entries@[j].name@ by {
                if j == len - 1 {
                    old(self).lemma_entry_in_view(i);
                }
            }
            assert forall|n: Seq<u8>| #[trigger] self@.dir.contains_key(n) == before.dir.insert(name@, ino as nat).contains_key(n) by {
                if before.dir.contains_key(n) {
                    let c = choose|c: int| 0 <= c < old(self).entries@.len() && #[trigger] old(self).entries@[c].name@ == n;
                    assert(self.entries@[c].name@ == n);
                }
                if n == name@ {
                    assert(self.entries@[len - 1].name@ == n);
                }
            }
            assert(self.wf());
            assert forall|n: Seq<u8>| #[trigger] self@.dir.contains_key(n) implies self@.dir[n] == before.dir.insert(name@, ino as nat)[n] by {
                let c = choose|c: int| 0 <= c < self.entries@.len() && #[trigger] self.entries@[c].name@ == n;
                self.lemma_entry_in_view(c);
                if c < len - 1 {
                    old(self).lemma_entry_in_view(c);
                }
            }
            assert(self@.dir =~= before.dir.insert(name@, ino as nat));
            assert(self@.data =~= before.data);
        }
    }

    /// Creates an empty file under a name that is not yet taken; returns its
    /// inode number.
    pub fn create(&mut self, name: &Vec<u8>) -> (r: usize)
        requires
            old(self).wf(),
            !old(self)@.dir.contains_key(name@),
        ensures
            final(self).wf(),
            !old(self)@.data.contains_key(r as nat),
            final(self)@.dir == old(self)@.dir.insert(name@, r as nat),
            final(self)@.data == old(self)@.data.insert(r as nat, Seq::<u8>::empty()),
    {
        let ghost before = self@;
        let ino = self.inodes.len();
        self.inodes.push(Some(Vec::new()));
        proof {
            assert forall|n: Seq<u8>| #[trigger] self@.dir.contains_key(n) == before.dir.contains_key(n) by {
                if before.dir.contains_key(n) {
                    let c = choose|c: int| 0 <= c < old(self).entries@.len() && #[trigger] old(self).entries@[c].name@ == n;
                    assert(self.entries@[c].name@ == n);
                }
            }
            assert(self@.dir =~= before.dir);
            assert(self@.data =~= before.data.insert(ino as nat, Seq::<u8>::empty()));
        }
        self.push_entry(name, ino);
        ino
    }

    /// Empties the live inode `ino`.
    pub fn clear(&mut self, ino: usize)
        requires
            old(self).wf(),
            old(self)@.data.contains_key(ino as nat),
        ensures
            final(self).wf(),
            final(self)@.dir == old(self)@.dir,
            final(self)@.data == old(self)@.data.insert(ino as nat, Seq::<u8>::empty()),
    {
        let ghost before = self@;
        self.inodes.set(ino, Some(Vec::new()));
        proof {
            assert forall|n: Seq<u8>| #[trigger] self@.dir.contains_key(n) == before.dir.contains_key(n) by {
                if before.dir.contains_key(n) {
                    let c = choose|c: int| 0 <= c < old(self).entries@.len() && #[trigger] old(self).entries@[c].name@ == n;
                    assert(self.entries@[c].name@ == n);
                }
            }
            assert(self@.dir =~= before.dir);
            assert(self@.data =~= before.data.insert(ino as nat, Seq::<u8>::empty()));
        }
    }

    /// Adds the name `dst` for the file named `src`. Returns 0, or -1 when
    /// `src` names no file or `dst` is taken.
    pub fn link(&mut self, src: &Vec<u8>, dst: &Vec<u8>) -> (r: isize)
        requires
            old(self).wf(),
        ensures
            final(self).wf(),
            r == 0 || r == -1,
            r == 0 <==> (old(self)@.dir.contains_key(src@) && !old(self)@.dir.contains_key(dst@)),
            r == 0 ==> final(self)@ == link_result(old(self)@, src@, dst@),
            r == -1 ==> final(self)@ == old(self)@,
    {
        match self.find(src) {
            None => -1,
            Some(ino) => {
                match self.find_index(dst) {
                    Some(_) => -1,
                    None => {
                        self.push_entry(dst, ino);
                        0
                    },
                }
            },
        }
    }

    /// Number of directory entries that lead to inode `ino`.
    pub closed spec fn links(&self, ino: nat) -> nat {
        self.entries@.filter(|e: DirEntry| e.inode as nat == ino).len()
    }

    /// Number of names that lead to inode `ino`.
    pub fn link_count(&self, ino: usize) -> (r: usize)
        requires
            self.wf(),
        ensures
            r == self.links(ino as nat),
    {
        let mut n: usize = 0;
        let mut i: usize = 0;
        while i < self.entries.len()
            invariant
                i <= self.entries@.len(),
                n == self.entries@.take(i as int).filter(|e: DirEntry| e.inode as nat == ino as nat).len(),
                n <= i,
            decreases self.entries@.len() - i,
        {
            proof {
                reveal(Seq::filter);
                assert(self.entries@.take(i + 1 as int).drop_last() =~= self.entries@.take(i as int));
            }
            if self.entries[i].inode == ino {
                n = n + 1;
            }
            i = i + 1;
        }
        assert(self.entries@.take(i as int) =~= self.entries@);
        n
    }

    /// The names in the directory, each once.
    pub fn readdir(&self) -> (r: Vec<Vec<u8>>)
        requires
            self.wf(),
        ensures
            forall|n: Seq<u8>| self@.dir.contains_key(n) <==> exists|i: int| 0 <= i < r@.len() && #[trigger] r@[i]@ == n,
            forall|i: int, j: int| 0 <= i < j < r@.len() ==> #[trigger] r@[i]@ != #[trigger] r@[j]@,
    {
        let mut r: Vec<Vec<u8>> = Vec::new();
        let mut i: usize = 0;
        while i < self.entries.len()
            invariant
                i <= self.entries@.len(),
                self.wf(),
                r@.len() == i,
                forall|k: int| 0 <= k < i ==> #[trigger] r@[k]@ == self.entries@[k].name@,
            decreases self.entries@.len() - i,
        {
            r.push(copy_bytes(&self.entries[i].name));
            i = i + 1;
        }
        proof {
            assert forall|n: Seq<u8>| self@.dir.contains_key(n) <==> exists|k: int| 0 <= k < r@.len() && #[trigger] r@[k]@ == n by {
                if self@.dir.contains_key(n) {
                    let c = choose|c: int| 0 <= c < self.entries@.len() && #[trigger] self.entries@[c].name@ == n;
                    assert(r@[c]@ == n);
                }
                if exists|k: int| 0 <= k < r@.len() && #[trigger] r@[k]@ == n {
                    let k = choose|k: int| 0 <= k < r@.len() && #[trigger] r@[k]@ == n;
                    assert(self.entries@[k].name@ == n);
                }
            }
            assert forall|a: int, b: int| 0 <= a < b < r@.len() implies #[trigger] r@[a]@ != #[trigger] r@[b]@ by {
                assert(self.entries@[a].name@ != self.entries@[b].name@);
            }
        }
        r
    }

    /// Removes the name `name`; the file goes with it once no other name
    /// leads to it. Returns 0, or -1 when `name` names no file.
    pub fn unlink(&mut self, name: &Vec<u8>) -> (r: isize)
        requires
            old(self).wf(),
        ensures
            final(self).wf(),
            r == 0 || r == -1,
            r == 0 <==> old(self)@.dir.contains_key(name@),
            r == 0 ==> final(self)@ == unlink_result(old(self)@, name@),
            r == -1 ==> final(self)@ == old(self)@,
    {
        let ghost before = self@;
        let i = match self.find_index(name) {
            None => { return -1; },
            Some(i) => i,
        };
        proof { self.lemma_entry_in_view(i as int); }
        let ino = self.entries[i].inode;
        let ghost old_entries = self.entries@;
        let _ = self.entries.remove(i);
        let ghost dir_now = before.dir.remove(name@);
        proof {
            assert forall|j: int| 0 <= j < self.entries@.len() implies #[trigger] self.entries@[j]
                == old_entries[if j < i { j } else { j + 1 }] by {}
            assert forall|a: int, b: int| 0 <= a < b < self.entries@.len() implies #[trigger] self.entries@[a].name@ != #[trigger] self.entries@[b].name@ by {
                let a0 = if a < i { a } else { a + 1 };
                let b0 = if b < i { b } else { b + 1 };
                assert(old_entries[a0].name@ != old_entries[b0].name@);
            }
            assert forall|n: Seq<u8>| #[trigger] self@.dir.contains_key(n) == dir_now.contains_key(n) by {
                if dir_now.contains_key(n) {
                    let c = choose|c: int| 0 <= c < old_entries.len() && #[trigger] old_entries[c].name@ == n;
                    assert(c != i);
                    let c1 = if c < i { c } else { c - 1 };
                    assert(self.entries@[c1].name@ == n);
                }
                if self@.dir.contains_key(n) {
                    let c = choose|c: int| 0 <= c < self.entries@.len() && #[trigger] self.entries@[c].name@ == n;
                    let c0 = if c < i { c } else { c + 1 };
                    assert(old_entries[c0].name@ == n);
                    if c0 < i {
                        assert(old_entries[c0].name@ != old_entries[i as int].name@);
                    } else {
                        assert(old_entries[i as int].name@ != old_entries[c0].name@);
                    }
                }
            }
        }
        let mut shared = false;
        let mut j: usize = 0;
        while j < self.entries.len()
            invariant
                j <= self.entries@.len(),
                shared == exists|k: int| 0 <= k < j && #[trigger] self.entries@[k].inode == ino,
            decreases self.entries@.len() - j,
        {
            if self.entries[j].inode == ino {
                shared = true;
            }
            j = j + 1;
        }
        let ghost mid = *self;
        if !shared {
            self.inodes.set(ino, None);
        }
        proof {
            assert forall|k: int| 0 <= k < self.entries@.len() implies self.entries@[k] == mid.entries@[k] by {}
            assert(self.wf());
            assert(mid.wf());
            assert forall|n: Seq<u8>| #[trigger] self@.dir.contains_key(n) == dir_now.contains_key(n) by {
                if mid@.dir.contains_key(n) {
                    let c = choose|c: int| 0 <= c < mid.entries@.len() && #[trigger] mid.entries@[c].name@ == n;
                    assert(self.entries@[c].name@ == n);
                }
            }
            assert forall|n: Seq<u8>| #[trigger] self@.dir.contains_key(n) implies self@.dir[n] == dir_now[n] by {
                let c = choose|c: int| 0 <= c < self.entries@.len() && #[trigger] self.entries@[c].name@ == n;
                self.lemma_entry_in_view(c);
                let c0 = if c < i { c } else { c + 1 };
                old(self).lemma_entry_in_view(c0);
            }
            assert(self@.dir =~= dir_now);
            let pred = exists|n: Seq<u8>| #[trigger] dir_now.contains_key(n) && dir_now[n] == ino as nat;
            if shared {
                let k = choose|k: int| 0 <= k < self.entries@.len() && #[trigger] self.entries@[k].inode == ino;
                self.lemma_entry_in_view(k);
                assert(dir_now.contains_key(self.entries@[k].name@));
                assert(pred);
                assert(self@.data =~= before.data);
            } else {
                if pred {
                    let n = choose|n: Seq<u8>| #[trigger] dir_now.contains_key(n) && dir_now[n] == ino as nat;
                    let c = choose|c: int| 0 <= c < self.entries@.len() && #[trigger] self.entries@[c].name@ == n;
                    self.lemma_entry_in_view(c);
                    assert(self.entries@[c].inode == ino);
                }
                assert(self@.data =~= before.data.remove(ino as nat));
            }
        }
        0
    }
}

/// Bytes written at an offset are read back unchanged from that offset.
pub proof fn lemma_write_then_read(d: Seq<u8>, offset: int, b: Seq<u8>)
    requires
        0 <= offset,
    ensures
        read_spec(write_spec(d, offset, b), offset, b.len() as int) == b,
{
    let w = write_spec(d, offset, b);
    if b.len() == 0 {
        assert(read_spec(w, offset, 0) =~= b);
    } else {
        assert(read_spec(w, offset, b.len() as int) =~= b);
    }
}

/// A file created (or truncated) and then written from its start holds
/// exactly the bytes written, and reading it whole gives them back.
pub proof fn lemma_new_file_round_trip(b: Seq<u8>)
    ensures
        write_spec(Seq::<u8>::empty(), 0, b) == b,
        read_spec(write_spec(Seq::<u8>::empty(), 0, b), 0, b.len() as int) == b,
{
    assert(write_spec(Seq::<u8>::empty(), 0, b) =~= b);
    lemma_write_then_read(Seq::<u8>::empty(), 0, b);
}

/// After `link(a, b)` and then `unlink(a)`, `b` leads to the file that `a`
/// led to, and the file's bytes are unchanged.
pub proof fn lemma_link_then_unlink(v: FsView, a: Seq<u8>, b: Seq<u8>)
    requires
        v.dir.contains_key(a),
        !v.dir.contains_key(b),
        v.data.contains_key(v.dir[a]),
    ensures
        ({
            let v2 = unlink_result(link_result(v, a, b), a);
            &&& v2.dir.contains_key(b)
            &&& v2.dir[b] == v.dir[a]
            &&& v2.data.contains_key(v2.dir[b])
            &&& v2.data[v2.dir[b]] == v.data[v.dir[a]]
        }),
{
    let v1 = link_result(v, a, b);
    let dir2 = v1.dir.remove(a);
    assert(dir2.contains_key(b) && dir2[b] == v1.dir[a]);
}

} // verus!
