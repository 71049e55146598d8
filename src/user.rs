use vstd::prelude::*;

verus! {

/// A point in time, in seconds and nanoseconds.
#[derive(Clone, Copy, PartialEq, Eq, Structural, Debug)]
pub struct TimeSpec {
    pub tv_sec: usize,
    pub tv_nsec: usize,
}

/// Relies on `tg_syscall::TimeSpec::from_millsecond`: whole seconds, and the
/// remaining milliseconds as nanoseconds.
#[verifier::external_body]
fn timespec_from_millsecond(ms: usize) -> (r: (usize, usize))
    ensures
        r == (ms / 1000, ((ms % 1000) * 1_000_000) as usize),
{
    let t = tg_syscall::TimeSpec::from_millsecond(ms);
    (t.tv_sec, t.tv_nsec)
}

/// Relies on `tg_syscall::TimeSpec`'s `Add`: fields added, with one carry
/// into the seconds when the nanoseconds exceed one second.
#[verifier::external_body]
fn timespec_add(a: (usize, usize), b: (usize, usize)) -> (r: (usize, usize))
    requires
        a.0 + b.0 + 1 <= usize::MAX,
        a.1 + b.1 <= usize::MAX,
    ensures
        r == (if a.1 + b.1 > 1_000_000_000 {
            ((a.0 + b.0 + 1) as usize, (a.1 + b.1 - 1_000_000_000) as usize)
        } else {
            ((a.0 + b.0) as usize, (a.1 + b.1) as usize)
        }),
{
    let x = tg_syscall::TimeSpec { tv_sec: a.0, tv_nsec: a.1 };
    let y = tg_syscall::TimeSpec { tv_sec: b.0, tv_nsec: b.1 };
    let t = x + y;
    (t.tv_sec, t.tv_nsec)
}

/// Order of time points: by seconds, then nanoseconds.
pub open spec fn later(a: TimeSpec, b: TimeSpec) -> bool {
    a.tv_sec > b.tv_sec || (a.tv_sec == b.tv_sec && a.tv_nsec > b.tv_nsec)
}

impl TimeSpec {
    /// `ms` milliseconds as a time span.
    pub fn from_millsecond(ms: usize) -> (r: Self)
        ensures
            r.tv_sec == ms / 1000,
            r.tv_nsec == (ms % 1000) * 1_000_000,
    {
        let (s, n) = timespec_from_millsecond(ms);
        TimeSpec { tv_sec: s, tv_nsec: n }
    }

    /// The sum of two time points; nanoseconds beyond one second carry over.
    pub fn add(self, rhs: Self) -> (r: Self)
        requires
            self.tv_sec + rhs.tv_sec + 1 <= usize::MAX,
            self.tv_nsec + rhs.tv_nsec <= usize::MAX,
        ensures
            self.tv_nsec + rhs.tv_nsec > 1_000_000_000 ==> r == (TimeSpec {
                tv_sec: (self.tv_sec + rhs.tv_sec + 1) as usize,
                tv_nsec: (self.tv_nsec + rhs.tv_nsec - 1_000_000_000) as usize,
            }),
            self.tv_nsec + rhs.tv_nsec <= 1_000_000_000 ==> r == (TimeSpec {
                tv_sec: (self.tv_sec + rhs.tv_sec) as usize,
                tv_nsec: (self.tv_nsec + rhs.tv_nsec) as usize,
            }),
    {
        let (s, n) = timespec_add((self.tv_sec, self.tv_nsec), (rhs.tv_sec, rhs.tv_nsec));
        TimeSpec { tv_sec: s, tv_nsec: n }
    }

    /// Whether `self` comes strictly after `other`.
    pub fn is_after(&self, other: &Self) -> (r: bool)
        ensures
            r == later(*self, *other),
    {
        self.tv_sec > other.tv_sec || (self.tv_sec == other.tv_sec && self.tv_nsec > other.tv_nsec)
    }
}

/// Milliseconds in `t`, as `get_time` reports them.
pub fn time_ms(t: TimeSpec) -> (r: isize)
    requires
        t.tv_sec * 1000 + t.tv_nsec / 1_000_000 <= isize::MAX,
    ensures
        r == t.tv_sec * 1000 + t.tv_nsec / 1_000_000,
{
    (t.tv_sec * 1000 + t.tv_nsec / 1_000_000) as isize
}

/// The moment a sleep of `period_ms` begun at `now` ends; `None` when it
/// lies beyond what a `TimeSpec` holds.
pub fn sleep_deadline(now: TimeSpec, period_ms: usize) -> (r: Option<TimeSpec>)
    ensures
        now.tv_sec + period_ms / 1000 + 1 <= usize::MAX && now.tv_nsec + (period_ms % 1000) * 1_000_000 <= usize::MAX
            ==> r == Some(now.add_spec(TimeSpec { tv_sec: period_ms / 1000, tv_nsec: ((period_ms % 1000) * 1_000_000) as usize })),
        !(now.tv_sec + period_ms / 1000 + 1 <= usize::MAX && now.tv_nsec + (period_ms % 1000) * 1_000_000 <= usize::MAX)
            ==> r is None,
{
    let span = TimeSpec::from_millsecond(period_ms);
    if now.tv_sec > usize::MAX - 1 - span.tv_sec || now.tv_nsec > usize::MAX - span.tv_nsec {
        return None;
    }
    Some(now.add(span))
}

impl TimeSpec {
    pub open spec fn add_spec(self, rhs: Self) -> Self {
        if self.tv_nsec + rhs.tv_nsec > 1_000_000_000 {
            TimeSpec {
                tv_sec: (self.tv_sec + rhs.tv_sec + 1) as usize,
                tv_nsec: (self.tv_nsec + rhs.tv_nsec - 1_000_000_000) as usize,
            }
        } else {
            TimeSpec { tv_sec: (self.tv_sec + rhs.tv_sec) as usize, tv_nsec: (self.tv_nsec + rhs.tv_nsec) as usize }
        }
    }
}

/// Whether a sleep that ends at `deadline` is over at `now`: once `now` is
/// strictly later. Until then the sleeper yields and looks again.
pub fn sleep_over(now: TimeSpec, deadline: TimeSpec) -> (r: bool)
    ensures
        r == later(now, deadline),
{
    now.is_after(&deadline)
}

/// The byte that a `trace` read request returned, or `None` when the call
/// failed (any value outside 0..=255).
pub fn trace_read(ret: isize) -> (r: Option<u8>)
    ensures
        r == (if 0 <= ret <= 255 { Some(ret as u8) } else { None }),
{
    if ret >= 0 && ret <= 255 {
        Some(ret as u8)
    } else {
        None
    }
}

} // verus!
