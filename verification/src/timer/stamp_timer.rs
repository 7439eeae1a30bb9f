use vstd::prelude::*;

use crate::timer::Timer;

verus! {

/// The clock now plus `secs` seconds and `nanos` nanoseconds, in whole
/// seconds since the Unix epoch (`Duration::new`, `SystemTime::now`,
/// `checked_add`, `duration_since`, `as_secs`), or `None` where the sum
/// cannot be represented or lies before the epoch. It reads the clock, so
/// nothing is stated of the result.
#[verifier::external_body]
fn unix_secs_after(secs: u64, nanos: u32) -> Option<u64>
    requires
        nanos < 1_000_000_000,
{
    let d = std::time::Duration::new(secs, nanos);
    match std::time::SystemTime::now().checked_add(d) {
        Some(t) => match t.duration_since(std::time::UNIX_EPOCH) {
            Ok(since) => Some(since.as_secs()),
            Err(_) => None,
        },
        None => None,
    }
}

/// The clock now plus `secs` seconds and `nanos` nanoseconds, in whole
/// milliseconds since the Unix epoch (`Duration::new`, `SystemTime::now`,
/// `checked_add`, `duration_since`, `as_millis`), or `None` where the sum
/// cannot be represented or lies before the epoch. It reads the clock, so
/// nothing is stated of the result.
#[verifier::external_body]
fn unix_millis_after(secs: u64, nanos: u32) -> Option<u128>
    requires
        nanos < 1_000_000_000,
{
    let d = std::time::Duration::new(secs, nanos);
    match std::time::SystemTime::now().checked_add(d) {
        Some(t) => match t.duration_since(std::time::UNIX_EPOCH) {
            Ok(since) => Some(since.as_millis()),
            Err(_) => None,
        },
        None => None,
    }
}

/// The due time of a timer from a clock reading: the reading, with the
/// milliseconds cut to 64 bits; `u64::MAX`, never reached, where the clock
/// could not give one.
pub fn due_from(reading: Option<u128>) -> (r: u64)
    ensures
        r == match reading {
            Some(t) => t as u64,
            None => u64::MAX,
        },
{
    match reading {
        Some(t) => t as u64,
        None => u64::MAX,
    }
}

/// A span of time: whole seconds and the nanoseconds beyond them (fewer
/// than a second), as a `Duration` holds it.
#[derive(Clone, Copy)]
pub struct Span {
    secs: u64,
    nanos: u32,
}

impl Span {
    #[verifier::type_invariant]
    spec fn nanos_below_second(&self) -> bool {
        self.nanos < 1_000_000_000
    }

    /// The whole seconds.
    pub closed spec fn spec_secs(&self) -> u64 {
        self.secs
    }

    /// The nanoseconds beyond the whole seconds.
    pub closed spec fn spec_nanos(&self) -> u32 {
        self.nanos
    }

    /// Whether the span is a whole number of seconds to the millisecond: no
    /// whole millisecond beyond the seconds.
    pub open spec fn whole_seconds(&self) -> bool {
        self.spec_nanos() < 1_000_000
    }

    /// `secs` seconds and `nanos` nanoseconds, whole seconds carried out of
    /// the nanoseconds.
    pub fn new(secs: u64, nanos: u32) -> (r: Span)
        requires
            secs + nanos / 1_000_000_000 <= u64::MAX,
        ensures
            r.spec_secs() == secs + nanos / 1_000_000_000,
            r.spec_nanos() == nanos % 1_000_000_000,
    {
        Span { secs: secs + (nanos / 1_000_000_000) as u64, nanos: nanos % 1_000_000_000 }
    }

    /// `secs` whole seconds.
    pub fn from_secs(secs: u64) -> (r: Span)
        ensures
            r.spec_secs() == secs,
            r.spec_nanos() == 0,
    {
        Span { secs, nanos: 0 }
    }

    /// `millis` milliseconds.
    pub fn from_millis(millis: u64) -> (r: Span)
        ensures
            r.spec_secs() == millis / 1000,
            r.spec_nanos() == (millis % 1000) * 1_000_000,
    {
        Span { secs: millis / 1000, nanos: ((millis % 1000) as u32) * 1_000_000 }
    }

    /// The whole seconds.
    pub fn as_secs(&self) -> (r: u64)
        ensures
            r == self.spec_secs(),
    {
        self.secs
    }

    /// The nanoseconds beyond the whole seconds.
    pub fn subsec_nanos(&self) -> (r: u32)
        ensures
            r == self.spec_nanos(),
            r < 1_000_000_000,
    {
        proof {
            use_type_invariant(self);
        }
        self.nanos
    }
}

/// A value due a fixed span after the moment it is asked, counted in
/// seconds or in milliseconds since the Unix epoch.
pub struct StampTimer<T> {
    span: Span,
    is_sec: bool,
    pub val: T,
}

impl<T> StampTimer<T> {
    pub closed spec fn value(&self) -> T {
        self.val
    }

    pub closed spec fn span(&self) -> Span {
        self.span
    }

    /// Whether the timer counts in seconds (else in milliseconds).
    pub closed spec fn in_seconds(&self) -> bool {
        self.is_sec
    }

    /// A timer for `val`, counted in seconds when `span` is a whole number
    /// of seconds to the millisecond, else in milliseconds.
    pub fn new(val: T, span: Span) -> (r: Self)
        ensures
            r.value() == val,
            r.span() == span,
            r.in_seconds() == span.whole_seconds(),
    {
        let is_sec = span.subsec_nanos() < 1_000_000;
        StampTimer { val, span, is_sec }
    }

    /// A timer for `val`, counted in seconds.
    pub fn new_second(val: T, span: Span) -> (r: Self)
        ensures
            r.value() == val,
            r.span() == span,
            r.in_seconds(),
    {
        StampTimer { val, span, is_sec: true }
    }

    /// A timer for `val`, counted in milliseconds.
    pub fn new_millis(val: T, span: Span) -> (r: Self)
        ensures
            r.value() == val,
            r.span() == span,
            !r.in_seconds(),
    {
        StampTimer { val, span, is_sec: false }
    }
}

impl<T> Timer for StampTimer<T> {
    open spec fn when_mut_keeps(&self) -> bool {
        true
    }

    fn when(&self) -> u64 {
        let secs = self.span.as_secs();
        let nanos = self.span.subsec_nanos();
        if self.is_sec {
            match unix_secs_after(secs, nanos) {
                Some(t) => t,
                None => u64::MAX,
            }
        } else {
            due_from(unix_millis_after(secs, nanos))
        }
    }
}

} // verus!
