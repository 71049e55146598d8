use vstd::prelude::*;
use vstd::layout::size_of;

verus! {

/// Per-slot state saved by the portal's code while it switches address
/// spaces.
pub struct PortalCache {
    pub a0: usize,
    pub a1: usize,
    pub satp: usize,
    pub sstatus: usize,
    pub sepc: usize,
}

/// A portal with several slots, laid out in the shared transit page as:
/// this header, then the portal's code (`text_size` bytes, aligned), then
/// one `PortalCache` per slot.
pub struct MultislotPortal {
    slot_count: usize,
    text_size: usize,
}

impl MultislotPortal {
    pub closed spec fn slot_count_spec(&self) -> usize {
        self.slot_count
    }

    pub closed spec fn text_size_spec(&self) -> usize {
        self.text_size
    }

    /// Offset of slot `key`'s cache.
    pub open spec fn cache_offset_spec(&self, key: int) -> int {
        size_of::<MultislotPortal>() + self.text_size_spec() + key * size_of::<PortalCache>()
    }

    /// Total length of a portal with `slots` slots and `text_size` bytes of
    /// code.
    pub fn calculate_size(slots: usize, text_size: usize) -> (r: usize)
        requires
            size_of::<MultislotPortal>() + text_size + slots * size_of::<PortalCache>() <= usize::MAX,
        ensures
            r == size_of::<MultislotPortal>() + text_size + slots * size_of::<PortalCache>(),
    {
        let h = core::mem::size_of::<MultislotPortal>();
        let c = core::mem::size_of::<PortalCache>();
        assert(slots * c <= usize::MAX) by (nonlinear_arith)
            requires h + text_size + slots * c <= usize::MAX;
        h + text_size + slots * c
    }

    /// The header written at the start of the transit page.
    pub fn init_transit(slots: usize, text_size: usize) -> (r: Self)
        requires
            size_of::<MultislotPortal>() + text_size + slots * size_of::<PortalCache>() <= usize::MAX,
        ensures
            r.slot_count_spec() == slots,
            r.text_size_spec() == text_size,
            r.cache_offset_spec(slots as int) <= usize::MAX,
    {
        MultislotPortal { slot_count: slots, text_size }
    }

    /// Length of the whole portal: up to the end of the last slot's cache.
    pub fn total_size(&self) -> (r: usize)
        requires
            self.cache_offset_spec(self.slot_count_spec() as int) <= usize::MAX,
        ensures
            r == self.cache_offset_spec(self.slot_count_spec() as int),
    {
        self.cache_offset(self.slot_count)
    }

    /// Offset of the portal's code: just past the header.
    pub fn text_offset(&self) -> (r: usize)
        ensures
            r == size_of::<MultislotPortal>(),
    {
        core::mem::size_of::<MultislotPortal>()
    }

    /// Offset of slot `key`'s cache.
    pub fn cache_offset(&self, key: usize) -> (r: usize)
        requires
            self.cache_offset_spec(key as int) <= usize::MAX,
        ensures
            r == self.cache_offset_spec(key as int),
    {
        let h = core::mem::size_of::<MultislotPortal>();
        let c = core::mem::size_of::<PortalCache>();
        let t = self.text_size;
        assert(key * c <= usize::MAX) by (nonlinear_arith)
            requires h + t + key * c <= usize::MAX;
        h + t + key * c
    }
}

} // verus!
