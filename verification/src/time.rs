//! Spans of time.

use vstd::arithmetic::power2::{lemma2_to64, lemma2_to64_rest};
use vstd::prelude::*;

use crate::double::{
    close, in_range, law_quotients_are_close, law_rounding_is_close, law_sums_are_close, lemma_close_adds,
    lemma_close_follows, lemma_close_quotient, lemma_close_widens, lemma_integer_bound, lemma_integer_size,
    lemma_rounded, lemma_value_sign, quotient, rounded, sum, value_of, Double, Dyadic,
};
use crate::ratio::{lemma_is_ratio, lemma_nothing, lemma_ratio_sign, lemma_spread};

verus! {

/// Nanoseconds in a second.
pub const SECOND: u64 = 1_000_000_000;

/// A span of time, or a moment as the time since a fixed one.
#[derive(Debug, Clone, Copy, PartialEq, Eq, Structural)]
pub struct Duration {
    pub nanos: u64,
}

/// A number of nanoseconds in seconds, in double precision: the whole seconds
/// plus the rest divided by a billion.
pub open spec fn seconds(nanos: nat) -> Dyadic {
    sum(
        rounded(nanos / SECOND as nat, 1),
        quotient(rounded(nanos % SECOND as nat, 1), rounded(SECOND as nat, 1)),
    )
}

impl Duration {
    /// No time at all.
    pub fn zero() -> (r: Duration)
        ensures
            r.nanos == 0,
    {
        Duration { nanos: 0 }
    }

    /// Whole seconds.
    pub fn from_secs(secs: u64) -> (r: Duration)
        requires
            secs * SECOND <= u64::MAX,
        ensures
            r.nanos == secs * SECOND,
    {
        Duration { nanos: secs * SECOND }
    }

    /// Whole milliseconds.
    pub fn from_millis(millis: u64) -> (r: Duration)
        requires
            millis * 1_000_000 <= u64::MAX,
        ensures
            r.nanos == millis * 1_000_000,
    {
        Duration { nanos: millis * 1_000_000 }
    }

    /// This span less another, or none at all where that is longer.
    pub fn saturating_sub(self, other: Duration) -> (r: Duration)
        ensures
            r.nanos == if self.nanos >= other.nanos {
                self.nanos - other.nanos
            } else {
                0
            },
    {
        if self.nanos >= other.nanos {
            Duration { nanos: self.nanos - other.nanos }
        } else {
            Duration { nanos: 0 }
        }
    }

    /// The span divided evenly, rounded down to a nanosecond.
    pub fn split(self, parts: u32) -> (r: Duration)
        requires
            parts > 0,
        ensures
            r.nanos == self.nanos / parts as u64,
    {
        Duration { nanos: self.nanos / parts as u64 }
    }

    /// The span in seconds.
    pub fn as_secs(self) -> (r: Double)
        ensures
            r@ == seconds(self.nanos as nat),
            in_range(r@),
            -83 <= r@.exp <= 2,
            self.nanos > 0 ==> r@.mant > 0 && r@.exp <= -14,
            self.nanos == 0 ==> r@.mant == 0,
    {
        let secs: u64 = self.nanos / SECOND;
        let rest: u64 = self.nanos % SECOND;
        let a = Double::from_u64(secs);
        let b = Double::from_u64(rest);
        let c = Double::from_u64(SECOND);
        proof {
            lemma2_to64();
            lemma2_to64_rest();
            lemma_integer_size(c@.exp, SECOND as nat, 29);
            if rest > 0 {
                lemma_integer_bound(b@.exp, rest as nat, 29);
            }
            if secs > 0 {
                lemma_integer_bound(a@.exp, secs as nat, 34);
            }
        }
        let q = b.over(c);
        let r = a.plus(q);
        r
    }
}

pub(crate) proof fn lemma_count_is_close(n: nat)
    ensures
        close(value_of(rounded(n, 1)), n as real, 1),
        n > 0 ==> rounded(n, 1).mant > 0,
{
    law_rounding_is_close(n, 1);
    let x = n as real;
    lemma_nothing(x);
    lemma_is_ratio(x, x, 1real);
    if n > 0 {
        lemma_rounded(n, 1);
    }
}

/// A span of time in seconds is its nanoseconds divided by a billion, to within
/// the precision of a double.
pub proof fn law_seconds_are_nanoseconds_by_a_billion(nanos: nat)
    ensures
        close(value_of(seconds(nanos)), (nanos as real) / 1_000_000_000real, 8),
        nanos > 0 ==> value_of(seconds(nanos)) > 0real,
        nanos > 0 ==> seconds(nanos).mant > 0,
{
    let secs = nanos / SECOND as nat;
    let rest = nanos % SECOND as nat;
    let a = rounded(secs, 1);
    let b = rounded(rest, 1);
    let c = rounded(SECOND as nat, 1);
    let q = quotient(b, c);
    lemma_count_is_close(secs);
    lemma_count_is_close(rest);
    lemma_count_is_close(SECOND as nat);
    lemma_value_sign(a);
    lemma_value_sign(b);
    lemma_value_sign(c);
    law_quotients_are_close(b, c);
    let x = rest as real;
    let billion = 1_000_000_000real;
    assert(SECOND as nat as real == billion);
    lemma_close_quotient(value_of(b), x, 1, value_of(c), billion, 1);
    let f = x / billion;
    lemma_ratio_sign(x, billion);
    lemma_close_follows(f, value_of(b) / value_of(c), value_of(q), 4, 1);
    lemma_close_widens(value_of(a), secs as real, 1, 6);
    lemma_close_adds(value_of(a), secs as real, value_of(q), f, 6);
    let whole = (nanos as real) / billion;
    assert(secs as real + f == whole) by {
        assert(nanos == secs * 1_000_000_000 + rest);
        assert(nanos as real == (secs as real) * billion + x);
        let s = secs as real;
        lemma_spread(s, f, billion);
        lemma_is_ratio(s + f, nanos as real, billion);
    }
    law_sums_are_close(a, q);
    lemma_close_follows(whole, value_of(a) + value_of(q), value_of(sum(a, q)), 6, 1);
    lemma_value_sign(seconds(nanos));
    let t = 8nat as real;
    let v = value_of(seconds(nanos));
    assert(close(v, whole, 8));
    assert((whole - v) * 9007199254740992real <= t * whole);
    assert(t == 8real);
    if nanos > 0 && seconds(nanos).mant == 0 {
        lemma_ratio_sign(nanos as real, billion);
    }
}

/// A span less another is what is left of it, and none where nothing is. Split
/// evenly, its parts stay inside it, and parts a nanosecond longer would not.
/// Seconds are thousands of milliseconds.
pub proof fn law_spans_are_subtracted_and_split(
    a: Duration,
    b: Duration,
    parts: u32,
    n: u64,
    less: Duration,
    part: Duration,
    secs: Duration,
    millis: Duration,
)
    requires
        parts > 0,
        n * 1_000_000_000 <= u64::MAX,
        call_ensures(Duration::saturating_sub, (a, b), less),
        call_ensures(Duration::split, (a, parts), part),
        call_ensures(Duration::from_secs, (n,), secs),
        call_ensures(Duration::from_millis, ((1000 * n) as u64,), millis),
    ensures
        a.nanos >= b.nanos ==> less.nanos + b.nanos == a.nanos,
        a.nanos < b.nanos ==> less.nanos == 0,
        parts * part.nanos <= a.nanos < parts * (part.nanos + 1),
        secs == millis,
        secs.nanos == n * 1_000_000_000,
{
    let d = parts as int;
    let x = a.nanos as int;
    vstd::arithmetic::div_mod::lemma_fundamental_div_mod(x, d);
    vstd::arithmetic::div_mod::lemma_mod_bound(x, d);
    vstd::arithmetic::mul::lemma_mul_is_distributive_add(d, x / d, 1);
}

} // verus!
