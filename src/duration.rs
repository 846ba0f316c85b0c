//! Splitting a span of milliseconds into the units of a report.
use vstd::prelude::*;

verus! {

/// A span of time in milliseconds, shown in reports as
/// `[days d ]hh:mm:ss.mmm`.
#[derive(Clone, Copy, Debug, PartialEq, Eq, Structural)]
pub struct PrettyDuration(pub u64);

/// A span split into whole days and the hours, minutes, seconds and
/// milliseconds that remain.
#[derive(Clone, Copy, Debug, PartialEq, Eq, Structural)]
pub struct DurationParts {
    pub days: u64,
    pub hours: u64,
    pub minutes: u64,
    pub seconds: u64,
    pub millis: u64,
}

/// Milliseconds in a second, a minute, an hour and a day.
pub const MS_PER_SECOND: u64 = 1000;
pub const MS_PER_MINUTE: u64 = 60_000;
pub const MS_PER_HOUR: u64 = 3_600_000;
pub const MS_PER_DAY: u64 = 86_400_000;

/// The span that parts stand for, in milliseconds.
pub open spec fn total_ms(p: DurationParts) -> int {
    p.days * 86_400_000 + p.hours * 3_600_000 + p.minutes * 60_000 + p.seconds * 1000 + p.millis
}

impl PrettyDuration {
    /// The span split into days, hours below 24, minutes and seconds below
    /// 60, and milliseconds below 1000, which add up to the span.
    pub fn parts(&self) -> (r: DurationParts)
        ensures
            r.days == self.0 / 86_400_000,
            r.hours == (self.0 / 3_600_000) % 24,
            r.minutes == (self.0 / 60_000) % 60,
            r.seconds == (self.0 / 1000) % 60,
            r.millis == self.0 % 1000,
            r.hours < 24 && r.minutes < 60 && r.seconds < 60 && r.millis < 1000,
            total_ms(r) == self.0,
    {
        let ms = self.0;
        let r = DurationParts {
            days: ms / MS_PER_DAY,
            hours: (ms / MS_PER_HOUR) % 24,
            minutes: (ms / MS_PER_MINUTE) % 60,
            seconds: (ms / MS_PER_SECOND) % 60,
            millis: ms % MS_PER_SECOND,
        };
        proof {
            let m = ms as int;
            assert(m / 3_600_000 == (m / 86_400_000) * 24 + (m / 3_600_000) % 24) by {
                vstd::arithmetic::div_mod::lemma_div_denominator(m, 3_600_000, 24);
                vstd::arithmetic::div_mod::lemma_fundamental_div_mod(m / 3_600_000, 24);
            }
            assert(m / 60_000 == (m / 3_600_000) * 60 + (m / 60_000) % 60) by {
                vstd::arithmetic::div_mod::lemma_div_denominator(m, 60_000, 60);
                vstd::arithmetic::div_mod::lemma_fundamental_div_mod(m / 60_000, 60);
            }
            assert(m / 1000 == (m / 60_000) * 60 + (m / 1000) % 60) by {
                vstd::arithmetic::div_mod::lemma_div_denominator(m, 1000, 60);
                vstd::arithmetic::div_mod::lemma_fundamental_div_mod(m / 1000, 60);
            }
            assert(m == (m / 1000) * 1000 + m % 1000) by {
                vstd::arithmetic::div_mod::lemma_fundamental_div_mod(m, 1000);
            }
        }
        r
    }
}

} // verus!
