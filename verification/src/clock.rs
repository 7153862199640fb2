//! Points in time, in nanoseconds since the Unix epoch.

use vstd::prelude::*;

verus! {

/// Nanoseconds in a millisecond.
pub const NANOS_PER_MILLI: i128 = 1_000_000;

/// Nanoseconds in a second.
pub const NANOS_PER_SECOND: i128 = 1_000_000_000;

/// A point in time.
#[derive(Clone, Copy, Debug, PartialEq, Eq, Structural, Hash, PartialOrd, Ord)]
pub struct Timestamp {
    /// Nanoseconds since the Unix epoch; negative before it.
    pub nanos: i128,
}

/// A number brought into the range of the clock.
pub open spec fn clock_range(nanos: int) -> int {
    if nanos > i128::MAX {
        i128::MAX as int
    } else if nanos < i128::MIN {
        i128::MIN as int
    } else {
        nanos
    }
}

/// How chrono writes a point in time given as whole seconds and nanoseconds, where it can
/// represent it.
pub uninterp spec fn utc_text(seconds: i64, nanos: u32) -> Option<Seq<char>>;

/// `chrono::Utc::now`, as the whole seconds since the epoch and the nanoseconds within the
/// second. The clock decides both; during a leap second the second part may reach past one
/// whole second, but never two.
#[verifier::external_body]
fn utc_now() -> (r: (i64, u32))
    ensures
        r.1 < 2_000_000_000,
{
    let now = chrono::Utc::now();
    (now.timestamp(), now.timestamp_subsec_nanos())
}

/// `chrono::DateTime::from_timestamp` followed by its `Display` form: a function of the
/// two numbers alone, absent where chrono cannot represent the point in time.
#[verifier::external_body]
fn utc_display(seconds: i64, nanos: u32) -> (r: Option<String>)
    ensures
        crate::text::option_view(r) == utc_text(seconds, nanos),
{
    chrono::DateTime::from_timestamp(seconds, nanos).map(|at| at.to_string())
}

/// Milliseconds as a signed count: counts past the signed range wrap around, as they do
/// when a duration is built from them.
pub open spec fn signed_millis(ms: u64) -> int {
    if ms <= i64::MAX {
        ms as int
    } else {
        ms - 0x1_0000_0000_0000_0000
    }
}

/// Milliseconds as a signed count.
pub fn to_signed_millis(ms: u64) -> (r: i64)
    ensures
        r == signed_millis(ms),
{
    if ms <= 0x7fff_ffff_ffff_ffff {
        ms as i64
    } else {
        (ms as i128 - 0x1_0000_0000_0000_0000i128) as i64
    }
}

impl Timestamp {
    /// The point in time `ms` milliseconds later (earlier, when negative).
    pub open spec fn shifted(self, ms: int) -> Timestamp {
        Timestamp { nanos: clock_range(self.nanos + ms * 1_000_000) as i128 }
    }

    /// The point in time `nanos` nanoseconds later.
    pub open spec fn later(self, nanos: nat) -> Timestamp {
        Timestamp { nanos: clock_range(self.nanos + nanos) as i128 }
    }

    /// Whole milliseconds from `earlier` to this point; zero when it lies before.
    pub open spec fn millis_after(self, earlier: Timestamp) -> nat {
        if self.nanos <= earlier.nanos {
            0
        } else {
            let ms = (self.nanos - earlier.nanos) / 1_000_000;
            if ms > u64::MAX {
                u64::MAX as nat
            } else {
                ms as nat
            }
        }
    }

    /// Whether at least `seconds` whole seconds lie between `earlier` and this point.
    pub open spec fn seconds_passed(self, earlier: Timestamp, seconds: int) -> bool {
        self.nanos >= earlier.nanos && (self.nanos - earlier.nanos) / 1_000_000_000 >= seconds
    }

    /// The nanoseconds within the current second.
    pub open spec fn subsecond(self) -> nat {
        (self.nanos as int % 1_000_000_000) as nat
    }

    /// How the point in time is written.
    pub open spec fn text(self) -> Seq<char> {
        let seconds = self.nanos as int / 1_000_000_000;
        if i64::MIN <= seconds <= i64::MAX {
            match utc_text(seconds as i64, self.subsecond() as u32) {
                Some(text) => text,
                None => seq![],
            }
        } else {
            seq![]
        }
    }

    /// The current time. The clock decides it.
    pub fn now() -> (r: Timestamp) {
        let (seconds, nanos) = utc_now();
        Timestamp { nanos: seconds as i128 * NANOS_PER_SECOND + nanos as i128 }
    }

    /// The point in time `ms` milliseconds later (earlier, when negative), held within the
    /// range of the clock.
    pub fn plus_millis(self, ms: i64) -> (r: Timestamp)
        ensures
            r == self.shifted(ms as int),
    {
        let delta: i128 = ms as i128 * NANOS_PER_MILLI;
        if delta > 0 && self.nanos > i128::MAX - delta {
            Timestamp { nanos: i128::MAX }
        } else if delta < 0 && self.nanos < i128::MIN - delta {
            Timestamp { nanos: i128::MIN }
        } else {
            Timestamp { nanos: self.nanos + delta }
        }
    }

    /// The point in time `nanos` nanoseconds later, held within the range of the clock.
    pub fn plus_nanos(self, nanos: i128) -> (r: Timestamp)
        requires
            nanos >= 0,
        ensures
            r == self.later(nanos as nat),
    {
        if self.nanos > i128::MAX - nanos {
            Timestamp { nanos: i128::MAX }
        } else {
            Timestamp { nanos: self.nanos + nanos }
        }
    }

    /// Whether this point lies before `other`.
    pub fn before(self, other: Timestamp) -> (r: bool)
        ensures
            r == (self.nanos < other.nanos),
    {
        self.nanos < other.nanos
    }

    /// Nanoseconds from `earlier` to this point, which does not lie before it.
    fn distance(self, earlier: Timestamp) -> (r: u128)
        requires
            self.nanos >= earlier.nanos,
        ensures
            r == self.nanos - earlier.nanos,
    {
        if earlier.nanos >= 0 {
            (self.nanos - earlier.nanos) as u128
        } else {
            // The negation of the smallest number does not fit, so step over it.
            let below: u128 = (-(earlier.nanos + 1)) as u128 + 1;
            if self.nanos >= 0 {
                self.nanos as u128 + below
            } else {
                (self.nanos - earlier.nanos) as u128
            }
        }
    }

    /// Whole milliseconds from `earlier` to this point; zero when it lies before.
    pub fn millis_since(self, earlier: Timestamp) -> (r: u64)
        ensures
            r == self.millis_after(earlier),
    {
        if self.nanos <= earlier.nanos {
            0
        } else {
            let ms: u128 = self.distance(earlier) / 1_000_000;
            if ms > 0xffff_ffff_ffff_ffff {
                0xffff_ffff_ffff_ffff
            } else {
                ms as u64
            }
        }
    }

    /// Whether at least `seconds` whole seconds lie between `earlier` and this point.
    pub fn has_passed(self, earlier: Timestamp, seconds: u64) -> (r: bool)
        ensures
            r == self.seconds_passed(earlier, seconds as int),
    {
        self.nanos >= earlier.nanos && self.distance(earlier) / 1_000_000_000 >= seconds as u128
    }

    /// The nanoseconds within the current second.
    pub fn subsec_nanos(self) -> (r: u32)
        ensures
            r == self.subsecond(),
    {
        self.split().1
    }

    /// Whole seconds, rounded down, and the nanoseconds left over.
    fn split(self) -> (r: (i128, u32))
        ensures
            r.0 == self.nanos as int / 1_000_000_000,
            r.1 == self.nanos as int % 1_000_000_000,
    {
        if self.nanos >= 0 {
            (self.nanos / NANOS_PER_SECOND, (self.nanos % NANOS_PER_SECOND) as u32)
        } else {
            let below: u128 = (-(self.nanos + 1)) as u128;
            let seconds: u128 = below / 1_000_000_000;
            let rest: u128 = below % 1_000_000_000;
            assert(self.nanos == -(seconds as int) * 1_000_000_000 - rest - 1);
            assert(self.nanos == (-(seconds as int) - 1) * 1_000_000_000 + (999_999_999 - rest));
            (-(seconds as i128) - 1, (999_999_999 - rest) as u32)
        }
    }

    /// How the point in time is written.
    pub fn to_string(&self) -> (r: String)
        ensures
            r@ == self.text(),
    {
        let (seconds, nanos) = self.split();
        if seconds < -0x8000_0000_0000_0000 || seconds > 0x7fff_ffff_ffff_ffff {
            let r = String::new();
            assert(r@ =~= seq![]);
            return r;
        }
        match utc_display(seconds as i64, nanos) {
            Some(text) => text,
            None => {
                let r = String::new();
                assert(r@ =~= seq![]);
                r
            },
        }
    }
}

/// A point in time that was moved by some milliseconds lies that many milliseconds off, and
/// moving it back gives the point itself.
pub proof fn law_moving_a_time_is_exact(t: Timestamp, ms: int)
    requires
        i128::MIN <= t.nanos + ms * 1_000_000 <= i128::MAX,
    ensures
        t.shifted(ms).nanos - t.nanos == ms * 1_000_000,
        t.shifted(ms).shifted(-ms) == t,
        0 <= ms <= u64::MAX ==> t.shifted(ms).millis_after(t) == ms,
        ms <= 0 ==> t.shifted(ms).millis_after(t) == 0,
{
}

/// Whole seconds have passed exactly from the point that lies that many seconds later.
pub proof fn law_seconds_pass_in_time(t: Timestamp, earlier: Timestamp, seconds: int)
    requires
        seconds >= 0,
    ensures
        t.seconds_passed(earlier, seconds) <==> t.nanos >= earlier.nanos + seconds * 1_000_000_000,
{
}

} // verus!
