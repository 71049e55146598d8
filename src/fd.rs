use vstd::prelude::*;

use crate::file::FileHandle;

verus! {

/// Whether `fd` is the lowest free slot of `s`: every slot below it is in
/// use, and it is free or one past the end.
pub open spec fn lowest_free(s: Seq<Option<FileHandle>>, fd: int) -> bool {
    &&& 0 <= fd <= s.len()
    &&& fd < s.len() ==> s[fd] is None
    &&& forall|j: int| 0 <= j < fd ==> #[trigger] s[j] is Some
}

/// A task's open files, indexed by descriptor.
pub struct FdTable {
    fds: Vec<Option<FileHandle>>,
}

impl View for FdTable {
    type V = Seq<Option<FileHandle>>;

    closed spec fn view(&self) -> Seq<Option<FileHandle>> {
        self.fds@
    }
}

impl FdTable {
    /// A table with no open file.
    pub fn new() -> (r: Self)
        ensures
            r@ == Seq::<Option<FileHandle>>::empty(),
    {
        FdTable { fds: Vec::new() }
    }

    /// The file open at `fd`, if any.
    pub fn get(&self, fd: usize) -> (r: Option<FileHandle>)
        ensures
            r == (if fd < self@.len() { self@[fd as int] } else { None }),
    {
        if fd < self.fds.len() {
            self.fds[fd]
        } else {
            None
        }
    }

    /// Installs `h` at the lowest free descriptor and returns it.
    pub fn alloc_fd(&mut self, h: FileHandle) -> (r: usize)
        requires
            old(self)@.len() < usize::MAX,
        ensures
            lowest_free(old(self)@, r as int),
            r < old(self)@.len() ==> final(self)@ == old(self)@.update(r as int, Some(h)),
            r == old(self)@.len() ==> final(self)@ == old(self)@.push(Some(h)),
    {
        let mut i: usize = 0;
        while i < self.fds.len()
            invariant
                i <= self.fds@.len(),
                self.fds@ == old(self).fds@,
                forall|j: int| 0 <= j < i ==> #[trigger] self.fds@[j] is Some,
            decreases self.fds@.len() - i,
        {
            if self.fds[i].is_none() {
                self.fds.set(i, Some(h));
                return i;
            }
            i = i + 1;
        }
        self.fds.push(Some(h));
        i
    }

    /// Duplicates `fd` onto the lowest free descriptor, which is returned;
    /// -1 when `fd` is not open.
    pub fn dup(&mut self, fd: usize) -> (r: isize)
        requires
            old(self)@.len() < isize::MAX,
        ensures
            (fd < old(self)@.len() && old(self)@[fd as int] is Some) ==> {
                &&& r >= 0
                &&& lowest_free(old(self)@, r as int)
                &&& r < old(self)@.len() ==> final(self)@ == old(self)@.update(r as int, old(self)@[fd as int])
                &&& r == old(self)@.len() ==> final(self)@ == old(self)@.push(old(self)@[fd as int])
            },
            !(fd < old(self)@.len() && old(self)@[fd as int] is Some) ==> r == -1 && final(self)@ == old(self)@,
    {
        match self.get(fd) {
            None => -1,
            Some(h) => {
                let r = self.alloc_fd(h);
                r as isize
            },
        }
    }

    /// Closes `fd`; returns the file that was open there, or `None` (the
    /// call fails with -1) when nothing was.
    pub fn close(&mut self, fd: usize) -> (r: Option<FileHandle>)
        ensures
            r == (if fd < old(self)@.len() { old(self)@[fd as int] } else { None }),
            r is Some ==> final(self)@ == old(self)@.update(fd as int, None),
            r is None ==> final(self)@ == old(self)@,
    {
        if fd >= self.fds.len() {
            return None;
        }
        let h = self.fds[fd];
        if h.is_some() {
            self.fds.set(fd, None);
        }
        h
    }
}

} // verus!
