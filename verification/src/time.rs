//! Spans of time and moments.
use vstd::prelude::*;

use crate::order::Dup;

verus! {

/// A span of time.
#[derive(Debug, Clone, Copy, PartialEq, Eq, PartialOrd, Ord, Hash, Structural)]
pub struct Duration {
    nanos: u128,
}

/// A moment, counted from an origin that every moment shares.
#[derive(Debug, Clone, Copy, PartialEq, Eq, PartialOrd, Ord, Hash, Structural)]
pub struct Instant {
    nanos: u128,
}

impl View for Duration {
    type V = nat;

    /// The span in nanoseconds.
    closed spec fn view(&self) -> nat {
        self.nanos as nat
    }
}

impl View for Instant {
    type V = nat;

    /// The moment in nanoseconds since the origin.
    closed spec fn view(&self) -> nat {
        self.nanos as nat
    }
}

impl Dup for Instant {
    fn dup(&self) -> (copy: Self) {
        *self
    }
}

impl Duration {
    pub fn from_nanos(nanos: u128) -> (d: Self)
        ensures
            d@ == nanos,
    {
        Duration { nanos }
    }

    pub fn from_micros(micros: u64) -> (d: Self)
        ensures
            d@ == micros * 1_000,
    {
        Duration { nanos: micros as u128 * 1_000 }
    }

    pub fn from_millis(millis: u64) -> (d: Self)
        ensures
            d@ == millis * 1_000_000,
    {
        Duration { nanos: millis as u128 * 1_000_000 }
    }

    pub fn from_secs(secs: u64) -> (d: Self)
        ensures
            d@ == secs * 1_000_000_000,
    {
        Duration { nanos: secs as u128 * 1_000_000_000 }
    }

    pub fn as_nanos(&self) -> (nanos: u128)
        ensures
            nanos == self@,
    {
        self.nanos
    }

    /// Whether this span is at least as long as `other`.
    pub fn at_least(&self, other: &Duration) -> (b: bool)
        ensures
            b == (self@ >= other@),
    {
        self.nanos >= other.nanos
    }
}

impl Instant {
    /// The moment `since` after the origin.
    pub fn after_origin(since: Duration) -> (at: Self)
        ensures
            at@ == since@,
    {
        Instant { nanos: since.nanos }
    }

    /// The moment `d` after this one.
    pub fn plus(&self, d: Duration) -> (at: Self)
        requires
            self@ + d@ <= u128::MAX,
        ensures
            at@ == self@ + d@,
    {
        Instant { nanos: self.nanos + d.nanos }
    }

    /// How long after `earlier` this moment is: nothing, when it is not later.
    pub fn duration_since(&self, earlier: Instant) -> (d: Duration)
        ensures
            d@ == elapsed(earlier@, self@),
    {
        Duration { nanos: self.nanos.saturating_sub(earlier.nanos) }
    }
}

/// How much time lies between two moments, nothing when the second is not later.
pub open spec fn elapsed(from: nat, to: nat) -> nat {
    if to > from {
        (to - from) as nat
    } else {
        0
    }
}

/// What the `Debug` form of a span of so many nanoseconds is.
pub uninterp spec fn span_text(nanos: nat) -> Seq<char>;

/// The `Debug` form of a `core::time::Duration` of so many nanoseconds, which
/// are no more than it can hold: it is named.
#[verifier::external_body]
pub(crate) fn span(secs: u64, nanos: u32) -> (form: String)
    requires
        nanos < 1_000_000_000,
    ensures
        form@ == span_text((secs * 1_000_000_000 + nanos) as nat),
{
    format!("{:?}", core::time::Duration::new(secs, nanos))
}

/// The longest span that can be shown, in nanoseconds.
pub open spec fn longest() -> nat {
    (0x1_0000_0000_0000_0000 * 1_000_000_000 - 1) as nat
}

impl Duration {
    /// How the span is shown.
    pub open spec fn shown_text(self) -> Seq<char> {
        span_text(if self@ <= longest() { self@ } else { longest() })
    }

    /// Shows the span, in the largest unit that it fills. One that is too long
    /// to show is shown as the longest that can be.
    pub fn shown(&self) -> (text: String)
        ensures
            text@ == self.shown_text(),
    {
        let secs: u128 = self.nanos / 1_000_000_000;
        if secs > u64::MAX as u128 {
            span(u64::MAX, 999_999_999)
        } else {
            span(secs as u64, (self.nanos % 1_000_000_000) as u32)
        }
    }
}

/// Between two moments lies the time from the first to the second, and none where
/// the second is not later; a moment that lies a span after another lies that span
/// after it.
pub proof fn law_time_lies_between_two_moments(from: nat, to: nat, span: nat)
    ensures
        elapsed(from, from + span) == span,
        to <= from ==> elapsed(from, to) == 0,
        from <= to ==> from + elapsed(from, to) == to,
{
}

} // verus!
