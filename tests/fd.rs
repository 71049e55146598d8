use tg_kernel::fd::FdTable;
use tg_kernel::file::FileHandle;

#[test]
fn descriptors_take_lowest_free_slot() {
    let mut t = FdTable::new();
    assert_eq!(t.alloc_fd(FileHandle::empty(true, false)), 0);
    assert_eq!(t.alloc_fd(FileHandle::empty(false, true)), 1);
    assert_eq!(t.alloc_fd(FileHandle::new(true, true, 7)), 2);
    assert_eq!(t.close(1), Some(FileHandle::empty(false, true)));
    assert_eq!(t.dup(2), 1);
    assert_eq!(t.get(1), Some(FileHandle::new(true, true, 7)));
    assert_eq!(t.dup(2), 3);
}

#[test]
fn bad_descriptors() {
    let mut t = FdTable::new();
    assert_eq!(t.dup(0), -1);
    assert_eq!(t.close(0), None);
    t.alloc_fd(FileHandle::empty(true, false));
    assert_eq!(t.close(0).is_some(), true);
    assert_eq!(t.close(0), None);
    assert_eq!(t.dup(0), -1);
    assert_eq!(t.get(5), None);
}
