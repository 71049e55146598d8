use vstd::prelude::*;

verus! {

/// Frequency of the `time` counter on the virt platform, in Hz.
pub const CLOCK_FREQ: u64 = 10_000_000;

/// Counter ticks per millisecond.
pub const TICKS_PER_MS: u64 = 10_000;

/// Nanoseconds per second.
pub const NSEC_PER_SEC: usize = 1_000_000_000;

/// Milliseconds elapsed at counter value `time`.
pub fn get_time_ms(time: u64) -> (r: usize)
    ensures
        r == (time / TICKS_PER_MS) as usize,
{
    #[verifier::truncate]
    let r = (time / (CLOCK_FREQ / 1000)) as usize;
    r
}

/// The 64-bit counter from its two halves, read high, low, high again on a
/// 32-bit hart; `None` when the high half changed between the reads (the
/// low half wrapped) and the reads must be done again.
pub fn time_from_halves(hi: u32, lo: u32, hi2: u32) -> (r: Option<u64>)
    ensures
        r == (if hi == hi2 { Some(((hi as u64) * 0x1_0000_0000 + lo as u64) as u64) } else { None }),
{
    if hi == hi2 {
        let h = hi as u64;
        let l = lo as u64;
        assert(h * 0x1_0000_0000 + l <= u64::MAX) by (nonlinear_arith)
            requires h <= u32::MAX as u64, l <= u32::MAX as u64;
        Some(h * 0x1_0000_0000 + l)
    } else {
        None
    }
}

/// Seconds and nanoseconds elapsed at counter value `time`, as
/// `clock_gettime` reports them.
pub fn timespec_of_ticks(time: u64) -> (r: (u64, u64))
    ensures
        r.0 == time / CLOCK_FREQ,
        r.1 == (time % CLOCK_FREQ) * 100,
        r.1 < NSEC_PER_SEC,
{
    (time / CLOCK_FREQ, (time % CLOCK_FREQ) * 100)
}

} // verus!
