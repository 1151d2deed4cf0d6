//! Spans of time, to the nanosecond.
use vstd::prelude::*;

verus! {

/// Nanoseconds in a second.
pub const NANOS_PER_SEC: u32 = 1_000_000_000;

/// A span of time: whole seconds and the nanoseconds beyond them, fewer than a second's worth.
#[derive(Clone, Copy, Debug, PartialEq, Eq)]
pub struct ClockTime {
    secs: u64,
    nanos: u32,
}

impl ClockTime {
    #[verifier::type_invariant]
    spec fn nanos_below_a_second(self) -> bool {
        self.nanos < NANOS_PER_SEC
    }

    /// The length of the span in nanoseconds.
    pub closed spec fn total_nanos(self) -> nat {
        self.secs as nat * NANOS_PER_SEC as nat + self.nanos as nat
    }

    /// Whether a span of so many nanoseconds can be held.
    pub open spec fn fits(nanos: nat) -> bool {
        nanos < (u64::MAX + 1) * NANOS_PER_SEC
    }

    /// The empty span.
    pub fn zero() -> (res: Self)
        ensures
            res.total_nanos() == 0,
    {
        ClockTime { secs: 0, nanos: 0 }
    }

    /// A span of whole seconds and some nanoseconds.
    pub fn new(secs: u64, nanos: u32) -> (res: Self)
        requires
            nanos < NANOS_PER_SEC,
        ensures
            res.total_nanos() == secs * NANOS_PER_SEC + nanos,
    {
        ClockTime { secs, nanos }
    }

    /// The whole seconds of the span.
    pub fn secs(&self) -> (res: u64)
        ensures
            res == self.total_nanos() / (NANOS_PER_SEC as nat),
    {
        proof {
            use_type_invariant(self);
            vstd::arithmetic::div_mod::lemma_fundamental_div_mod_converse(
                self.total_nanos() as int,
                NANOS_PER_SEC as int,
                self.secs as int,
                self.nanos as int,
            );
        }
        self.secs
    }

    /// The nanoseconds of the span beyond its whole seconds.
    pub fn subsec_nanos(&self) -> (res: u32)
        ensures
            res == self.total_nanos() % (NANOS_PER_SEC as nat),
    {
        proof {
            use_type_invariant(self);
            vstd::arithmetic::div_mod::lemma_fundamental_div_mod_converse(
                self.total_nanos() as int,
                NANOS_PER_SEC as int,
                self.secs as int,
                self.nanos as int,
            );
        }
        self.nanos
    }

    /// The length of the span in nanoseconds.
    pub fn as_nanos(&self) -> (res: u128)
        ensures
            res == self.total_nanos(),
            Self::fits(res as nat),
    {
        proof {
            use_type_invariant(self);
            assert(self.secs * 1_000_000_000 <= u64::MAX * 1_000_000_000);
        }
        self.secs as u128 * NANOS_PER_SEC as u128 + self.nanos as u128
    }

    /// This span and another one after it.
    pub fn plus(self, other: ClockTime) -> (res: Self)
        requires
            Self::fits(self.total_nanos() + other.total_nanos()),
        ensures
            res.total_nanos() == self.total_nanos() + other.total_nanos(),
    {
        proof {
            use_type_invariant(&self);
            use_type_invariant(&other);
        }
        let nanos: u32 = self.nanos + other.nanos;
        if nanos >= NANOS_PER_SEC {
            ClockTime { secs: self.secs + other.secs + 1, nanos: nanos - NANOS_PER_SEC }
        } else {
            ClockTime { secs: self.secs + other.secs, nanos }
        }
    }

    /// Whether this span is as long as another one, or longer.
    pub fn at_least(&self, other: &ClockTime) -> (res: bool)
        ensures
            res == (self.total_nanos() >= other.total_nanos()),
    {
        proof {
            use_type_invariant(self);
            use_type_invariant(other);
        }
        self.secs > other.secs || (self.secs == other.secs && self.nanos >= other.nanos)
    }
}

} // verus!
