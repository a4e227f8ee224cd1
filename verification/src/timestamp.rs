//! Instants.

use vstd::prelude::*;

verus! {

/// An instant on the UTC time line: whole seconds since the epoch, and the
/// nanoseconds that have passed within that second. Instants are ordered by
/// the seconds first.
#[derive(Copy, Clone, PartialEq, Eq, Structural, PartialOrd, Ord, Hash, Debug)]
pub struct DateTime {
    pub secs: i64,
    pub nanos: u32,
}

/// The largest number of seconds, either side of the epoch, for which
/// `millis` fits its result.
pub const MAX_SECONDS: i64 = 9_000_000_000_000_000;

impl DateTime {
    /// The instant `secs` seconds and `nanos` nanoseconds after the epoch.
    pub fn from_timestamp(secs: i64, nanos: u32) -> (t: DateTime)
        ensures
            t == (DateTime { secs, nanos }),
    {
        DateTime { secs, nanos }
    }

    /// The epoch itself, before which nothing is counted.
    pub fn minimum() -> (t: DateTime)
        ensures
            t == (DateTime { secs: 0, nanos: 0 }),
    {
        DateTime { secs: 0, nanos: 0 }
    }

    pub fn seconds(&self) -> (s: i64)
        ensures
            s == self.secs,
    {
        self.secs
    }

    pub fn subsec_nanos(&self) -> (n: u32)
        ensures
            n == self.nanos,
    {
        self.nanos
    }

    /// Milliseconds since the epoch, whole ones only.
    pub fn millis(&self) -> (m: i64)
        requires
            -MAX_SECONDS <= self.secs <= MAX_SECONDS,
        ensures
            m == self.secs * 1000 + self.nanos / 1_000_000,
    {
        let whole: i64 = self.secs * 1000;
        let part: u32 = self.nanos / 1_000_000;
        whole + part as i64
    }

    /// `self` comes strictly before `other`.
    pub open spec fn spec_lt(self, other: DateTime) -> bool {
        self.secs < other.secs || (self.secs == other.secs && self.nanos < other.nanos)
    }

    /// `self` comes before `other` or is the same instant.
    pub open spec fn spec_le(self, other: DateTime) -> bool {
        self.secs < other.secs || (self.secs == other.secs && self.nanos <= other.nanos)
    }

    #[verifier::when_used_as_spec(spec_lt)]
    pub fn lt(self, other: DateTime) -> (b: bool)
        ensures
            b == self.spec_lt(other),
    {
        self.secs < other.secs || (self.secs == other.secs && self.nanos < other.nanos)
    }

    #[verifier::when_used_as_spec(spec_le)]
    pub fn le(self, other: DateTime) -> (b: bool)
        ensures
            b == self.spec_le(other),
    {
        self.secs < other.secs || (self.secs == other.secs && self.nanos <= other.nanos)
    }

    /// The later of the two.
    pub fn join(self, other: DateTime) -> (t: DateTime)
        ensures
            t == if self.spec_lt(other) { other } else { self },
    {
        if self.lt(other) { other } else { self }
    }

    /// The earlier of the two.
    pub fn meet(self, other: DateTime) -> (t: DateTime)
        ensures
            t == if other.spec_lt(self) { other } else { self },
    {
        if other.lt(self) { other } else { self }
    }
}

impl Default for DateTime {
    fn default() -> (t: DateTime)
        ensures
            t == (DateTime { secs: 0, nanos: 0 }),
    {
        DateTime { secs: 0, nanos: 0 }
    }
}

/// The order of instants is total.
pub proof fn lemma_time_order_total(a: DateTime, b: DateTime)
    ensures
        a.spec_le(b) || b.spec_le(a),
        a.spec_le(b) && b.spec_le(a) ==> a == b,
        a.spec_lt(b) <==> !b.spec_le(a),
{
}

} // verus!
