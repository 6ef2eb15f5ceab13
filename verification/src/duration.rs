//! Lengths of time.

use vstd::prelude::*;

verus! {

/// The number of nanoseconds in a second.
pub const NANOS_PER_SEC: u32 = 1_000_000_000;

/// A length of time: whole seconds and the nanoseconds over. Its view is the length in
/// nanoseconds.
#[derive(Debug, Clone, Copy)]
pub struct Duration {
    secs: u64,
    nanos: u32,
}

impl View for Duration {
    type V = nat;

    closed spec fn view(&self) -> nat {
        (self.secs * NANOS_PER_SEC + self.nanos) as nat
    }
}

impl Duration {
    #[verifier::type_invariant]
    spec fn inv(self) -> bool {
        self.nanos < NANOS_PER_SEC
    }

    /// A length of `secs` seconds and `nanos` nanoseconds.
    pub fn new(secs: u64, nanos: u32) -> (d: Duration)
        requires
            nanos < NANOS_PER_SEC,
        ensures
            d@ == secs * 1_000_000_000 + nanos,
    {
        Duration { secs, nanos }
    }

    /// The number of whole seconds.
    pub fn as_secs(&self) -> (secs: u64)
        ensures
            secs == self@ / NANOS_PER_SEC as nat,
    {
        proof {
            use_type_invariant(self);
        }
        self.secs
    }

    /// The number of nanoseconds over the whole seconds.
    pub fn subsec_nanos(&self) -> (nanos: u32)
        ensures
            nanos == self@ % NANOS_PER_SEC as nat,
    {
        proof {
            use_type_invariant(self);
        }
        self.nanos
    }

    /// Whether this length is greater than `other`.
    pub fn exceeds(&self, other: &Duration) -> (longer: bool)
        ensures
            longer == (self@ > other@),
    {
        proof {
            use_type_invariant(self);
            use_type_invariant(other);
        }
        self.secs > other.secs || (self.secs == other.secs && self.nanos > other.nanos)
    }
}

/// A length of time gives back the seconds and the nanoseconds that it was made of.
pub proof fn law_duration_keeps_its_parts(secs: u64, nanos: u32, d: Duration, s: u64, n: u32)
    requires
        nanos < 1_000_000_000,
        call_ensures(Duration::new, (secs, nanos), d),
        call_ensures(Duration::as_secs, (&d,), s),
        call_ensures(Duration::subsec_nanos, (&d,), n),
    ensures
        s == secs,
        n == nanos,
{
}

/// Of two lengths of time the one with more seconds is longer, and with as many seconds the one
/// with more nanoseconds.
pub proof fn law_longer_has_more_seconds(
    secs: u64,
    nanos: u32,
    d: Duration,
    other_secs: u64,
    other_nanos: u32,
    other: Duration,
    longer: bool,
)
    requires
        nanos < 1_000_000_000,
        other_nanos < 1_000_000_000,
        call_ensures(Duration::new, (secs, nanos), d),
        call_ensures(Duration::new, (other_secs, other_nanos), other),
        call_ensures(Duration::exceeds, (&d, &other), longer),
    ensures
        longer <==> (secs > other_secs || (secs == other_secs && nanos > other_nanos)),
{
}

} // verus!
