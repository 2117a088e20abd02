//! Points in time, spans between them, and the clock that the pool reads.

use std::time::Instant;
use vstd::prelude::*;

verus! {

/// Nanoseconds in one second.
pub const NANOS_PER_SEC: u32 = 1_000_000_000;

/// The earliest moment, in nanoseconds: the least 64-bit count of seconds.
pub const MIN_MOMENT_NANOS: i128 = -9_223_372_036_854_775_808_000_000_000;

/// The latest moment, in nanoseconds: the last nanosecond of the greatest
/// 64-bit count of seconds.
pub const MAX_MOMENT_NANOS: i128 = 9_223_372_036_854_775_807_999_999_999;

/// The greatest span, in nanoseconds: as much time as lies between the earliest
/// moment and the latest.
pub const MAX_SPAN_NANOS: i128 = 18_446_744_073_709_551_615_999_999_999;

/// A moment lies this many nanoseconds from the clock's origin.
pub open spec fn is_moment(nanos: int) -> bool {
    MIN_MOMENT_NANOS <= nanos <= MAX_MOMENT_NANOS
}

/// A length of time: whole seconds, and a fraction of a second in nanoseconds.
#[derive(Clone, Copy, Debug)]
pub struct Span {
    secs: u64,
    subsec_nanos: u32,
}

impl Span {
    #[verifier::type_invariant]
    spec fn fraction_below_one_second(self) -> bool {
        self.subsec_nanos < NANOS_PER_SEC
    }

    /// The span in nanoseconds.
    pub closed spec fn view(&self) -> int {
        self.secs * NANOS_PER_SEC + self.subsec_nanos
    }

    /// The span of `secs` seconds and `subsec_nanos` nanoseconds.
    pub fn new(secs: u64, subsec_nanos: u32) -> (span: Span)
        requires
            subsec_nanos < NANOS_PER_SEC,
        ensures
            span@ == secs * NANOS_PER_SEC + subsec_nanos,
    {
        Span { secs, subsec_nanos }
    }

    /// The span of `secs` seconds.
    pub fn from_secs(secs: u64) -> (span: Span)
        ensures
            span@ == secs * NANOS_PER_SEC,
    {
        Span { secs, subsec_nanos: 0 }
    }

    /// The span of `millis` milliseconds.
    pub fn from_millis(millis: u64) -> (span: Span)
        ensures
            span@ == millis * 1_000_000,
    {
        let subsec_nanos: u32 = (millis % 1000) as u32 * 1_000_000;
        Span { secs: millis / 1000, subsec_nanos }
    }

    /// The whole seconds of the span, without its fraction.
    pub fn as_secs(&self) -> (secs: u64)
        ensures
            secs == self@ / (NANOS_PER_SEC as int),
    {
        proof {
            use_type_invariant(self);
        }
        self.secs
    }

    /// The nanoseconds of the span's fraction of a second.
    pub fn subsec_nanos(&self) -> (nanos: u32)
        ensures
            nanos == self@ % (NANOS_PER_SEC as int),
    {
        proof {
            use_type_invariant(self);
        }
        self.subsec_nanos
    }

    /// The third part of the span, without the fraction of a nanosecond.
    pub fn third(&self) -> (third: Span)
        ensures
            third@ == self@ / 3,
    {
        let nanos: i128 = self.as_nanos() / 3;
        Span { secs: (nanos / 1_000_000_000) as u64, subsec_nanos: (nanos % 1_000_000_000) as u32 }
    }

    /// Whether the span is as long as `other` or longer.
    pub fn is_at_least(&self, other: &Span) -> (longer: bool)
        ensures
            longer == (self@ >= other@),
    {
        self.as_nanos() >= other.as_nanos()
    }

    fn as_nanos(&self) -> (nanos: i128)
        ensures
            nanos == self@,
            0 <= nanos <= MAX_SPAN_NANOS,
    {
        proof {
            use_type_invariant(self);
        }
        self.secs as i128 * 1_000_000_000 + self.subsec_nanos as i128
    }
}

/// A moment on a monotonic clock, as a signed distance from the clock's origin.
///
/// Moments reach from [`MIN_MOMENT_NANOS`] to [`MAX_MOMENT_NANOS`].
#[derive(Clone, Copy, Debug)]
pub struct Moment {
    nanos: i128,
}

impl Moment {
    /// Nanoseconds from the clock's origin to the moment.
    pub closed spec fn view(&self) -> int {
        self.nanos as int
    }

    /// The moment is neither before the earliest nor after the latest.
    #[verifier::type_invariant]
    pub open spec fn representable(self) -> bool {
        is_moment(self@)
    }

    /// The moment `span` earlier, unless it lies before the earliest moment.
    pub fn checked_sub(self, span: Span) -> (earlier: Option<Moment>)
        ensures
            earlier is Some <==> self@ - span@ >= MIN_MOMENT_NANOS,
            earlier matches Some(moment) ==> moment@ == self@ - span@,
    {
        proof {
            use_type_invariant(&self);
        }
        let back: i128 = span.as_nanos();
        let room: i128 = self.nanos - MIN_MOMENT_NANOS;
        if back <= room {
            Some(Moment { nanos: self.nanos - back })
        } else {
            None
        }
    }

    /// Whether more time than `span` lies between `earlier` and the moment.
    pub fn is_later_by_more_than(&self, earlier: &Moment, span: &Span) -> (later: bool)
        ensures
            later == (self@ - earlier@ > span@),
    {
        proof {
            use_type_invariant(self);
            use_type_invariant(earlier);
        }
        self.nanos - earlier.nanos > span.as_nanos()
    }

    /// The later one of the two moments.
    pub fn later_of(self, other: Moment) -> (later: Moment)
        ensures
            later@ == if self@ >= other@ {
                self@
            } else {
                other@
            },
            is_moment(later@),
    {
        proof {
            use_type_invariant(&self);
            use_type_invariant(&other);
        }
        if self.is_at_or_after(&other) {
            self
        } else {
            other
        }
    }

    /// Whether the moment is `other` or comes after it.
    pub fn is_at_or_after(&self, other: &Moment) -> (later: bool)
        ensures
            later == (self@ >= other@),
    {
        self.nanos >= other.nanos
    }
}

/// The point in time that [`Instant::now`] gives.
#[verifier::external_type_specification]
#[verifier::external_body]
pub struct ExInstant(std::time::Instant);

/// `Instant::now`: the current time. Nothing is claimed of it.
pub assume_specification[ std::time::Instant::now ]() -> (now: std::time::Instant);

/// The moment that a clock shows when `reading` is the time since its origin, as
/// whole seconds and nanoseconds: that many nanoseconds after the origin, or the
/// latest moment where that one lies beyond it.
pub open spec fn shown(reading: (u64, u32)) -> int {
    let nanos = reading.0 * NANOS_PER_SEC + reading.1;
    if nanos <= MAX_MOMENT_NANOS {
        nanos
    } else {
        MAX_MOMENT_NANOS as int
    }
}

/// `Instant::elapsed`: the time that has passed since the clock's origin, as whole
/// seconds and the nanoseconds of the last, unfinished second.
///
/// The nanoseconds are fewer than a second's; how much time has passed is the
/// clock's affair. The ghost record of the clock's readings is what this call has
/// returned, so it grows by this reading and by nothing else.
#[verifier::external_body]
fn elapsed_since(clock: &mut Clock) -> (elapsed: (u64, u32))
    ensures
        elapsed.1 < NANOS_PER_SEC,
        final(clock).readings() == old(clock).readings().push(elapsed),
        final(clock).origin() == old(clock).origin(),
{
    let elapsed = clock.origin.elapsed();
    (elapsed.as_secs(), elapsed.subsec_nanos())
}

/// A monotonic clock whose moments count from the time it was started.
#[derive(Clone, Copy)]
pub(crate) struct Clock {
    origin: Instant,
    readings: Ghost<Seq<(u64, u32)>>,
}

impl Clock {
    /// The time at which the clock was started.
    pub(crate) closed spec fn origin(self) -> Instant {
        self.origin
    }

    /// The times since the origin at which the clock was read, in whole seconds and
    /// nanoseconds, the last reading at the end.
    pub(crate) closed spec fn readings(self) -> Seq<(u64, u32)> {
        self.readings@
    }

    /// Starts a clock: the current time becomes its origin.
    pub(crate) fn start() -> (clock: Clock)
        ensures
            clock.readings() == Seq::<(u64, u32)>::empty(),
    {
        Clock { origin: Instant::now(), readings: Ghost(Seq::empty()) }
    }

    /// The current moment, which is not before the clock's origin: as many
    /// nanoseconds after it as the clock reads, seconds and fraction together.
    pub(crate) fn now(&mut self) -> (now: Moment)
        ensures
            0 <= now@ <= MAX_MOMENT_NANOS,
            final(self).origin() == old(self).origin(),
            final(self).readings().len() == old(self).readings().len() + 1,
            final(self).readings().drop_last() == old(self).readings(),
            ({
                let (secs, nanos) = final(self).readings().last();
                &&& nanos < NANOS_PER_SEC
                &&& secs * NANOS_PER_SEC + nanos <= MAX_MOMENT_NANOS ==> now@ == secs
                    * NANOS_PER_SEC + nanos
                &&& secs * NANOS_PER_SEC + nanos > MAX_MOMENT_NANOS ==> now@ == MAX_MOMENT_NANOS
            }),
    {
        let (secs, nanos): (u64, u32) = elapsed_since(self);
        proof {
            assert(self.readings().drop_last() =~= old(self).readings());
        }
        moment_after_origin(secs, nanos)
    }
}

/// The moment `secs` seconds and `nanos` nanoseconds after the origin of a clock,
/// or the latest moment where that one lies beyond it.
pub fn moment_after_origin(secs: u64, nanos: u32) -> (moment: Moment)
    requires
        nanos < NANOS_PER_SEC,
    ensures
        secs * NANOS_PER_SEC + nanos <= MAX_MOMENT_NANOS ==> moment@ == secs * NANOS_PER_SEC
            + nanos,
        secs * NANOS_PER_SEC + nanos > MAX_MOMENT_NANOS ==> moment@ == MAX_MOMENT_NANOS,
{
    let total: i128 = secs as i128 * 1_000_000_000 + nanos as i128;
    if total <= MAX_MOMENT_NANOS {
        Moment { nanos: total }
    } else {
        Moment { nanos: MAX_MOMENT_NANOS }
    }
}

} // verus!
