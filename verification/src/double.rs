//! Non-negative double precision numbers, computed on integers.
//!
//! A number is a mantissa of 53 bits times a power of two. Every operation
//! gives the exact result rounded to 53 significant bits, halves to the even
//! mantissa, which is what IEEE 754 doubles do in the range kept here.

use vstd::arithmetic::power2::{
    lemma2_to64, lemma2_to64_rest, lemma_pow2_adds, lemma_pow2_pos, lemma_pow2_strictly_increases, lemma_pow2_unfold,
    pow2,
};
use vstd::prelude::*;

use crate::format::{nearest, round};
use crate::number::{fixed, push_fixed, tens};
use crate::ratio::{
    lemma_cancel, lemma_cross, lemma_is_ratio, lemma_last_two, lemma_nothing, lemma_positive, lemma_product_is_real,
    lemma_ratio, lemma_ratio_sign, lemma_regroup, lemma_spread, lemma_swap, lemma_times,
};

verus! {

/// Least mantissa of a number other than zero.
pub const LOW: u64 = 0x10_0000_0000_0000;

/// One more than the largest mantissa.
pub const HIGH: u64 = 0x20_0000_0000_0000;

/// The number `mant * 2^exp`.
pub ghost struct Dyadic {
    pub mant: nat,
    pub exp: int,
}

/// Zero.
pub open spec fn zero() -> Dyadic {
    Dyadic { mant: 0, exp: 0 }
}

/// One.
pub open spec fn one() -> Dyadic {
    Dyadic { mant: LOW as nat, exp: -52 }
}

/// The number times `2^k`.
pub open spec fn shifted(x: Dyadic, k: int) -> Dyadic {
    Dyadic { mant: x.mant, exp: x.exp + k }
}

/// The quotient `n / d` of at least 52 and at most 53 bits, as a number.
pub open spec fn settled(n: nat, d: nat) -> Dyadic {
    let m = nearest(n, d);
    if m == HIGH {
        Dyadic { mant: LOW as nat, exp: 1 }
    } else {
        Dyadic { mant: m, exp: 0 }
    }
}

/// A quotient of more than 53 bits, rounded to a number.
pub open spec fn coarse(n: nat, d: nat) -> Dyadic
    decreases n - d,
{
    if d > 0 && n >= d * HIGH {
        shifted(coarse(n, 2 * d), 1)
    } else {
        settled(n, d)
    }
}

/// A quotient of fewer than 53 bits, rounded to a number.
pub open spec fn fine(n: nat, d: nat) -> Dyadic
    decreases d * HIGH - n,
{
    if 0 < n < d * LOW {
        shifted(fine(2 * n, d), -1)
    } else {
        settled(n, d)
    }
}

/// The number nearest to `n / d`.
pub open spec fn rounded(n: nat, d: nat) -> Dyadic {
    if n == 0 {
        zero()
    } else if n >= d * HIGH {
        coarse(n, d)
    } else {
        fine(n, d)
    }
}

/// The quotient of two numbers, rounded.
pub open spec fn quotient(x: Dyadic, y: Dyadic) -> Dyadic {
    if x.mant == 0 {
        zero()
    } else {
        shifted(rounded(x.mant, y.mant), x.exp - y.exp)
    }
}

/// The product of two numbers, rounded.
pub open spec fn product(x: Dyadic, y: Dyadic) -> Dyadic {
    if x.mant == 0 || y.mant == 0 {
        zero()
    } else {
        shifted(rounded(x.mant * y.mant, 1), x.exp + y.exp)
    }
}

/// The sum of two numbers, rounded.
pub open spec fn sum(x: Dyadic, y: Dyadic) -> Dyadic {
    if x.mant == 0 {
        y
    } else if y.mant == 0 {
        x
    } else if x.exp >= y.exp {
        shifted(rounded(x.mant * pow2((x.exp - y.exp) as nat) + y.mant, 1), y.exp)
    } else {
        shifted(rounded(y.mant * pow2((y.exp - x.exp) as nat) + x.mant, 1), x.exp)
    }
}

/// The number as a fraction of integers: its numerator.
pub open spec fn over(x: Dyadic) -> nat {
    if x.exp >= 0 {
        x.mant * pow2(x.exp as nat)
    } else {
        x.mant
    }
}

/// The number as a fraction of integers: its denominator.
pub open spec fn under(x: Dyadic) -> nat {
    if x.exp >= 0 {
        1
    } else {
        pow2((-x.exp) as nat)
    }
}

/// Whether the number is at least the integer `n`.
pub open spec fn at_least(x: Dyadic, n: nat) -> bool {
    over(x) >= n * under(x)
}

/// Whether the number is one at most.
pub open spec fn at_most_one(x: Dyadic) -> bool {
    over(x) <= under(x)
}

/// Whether the number is zero or has a mantissa of 53 bits.
pub open spec fn canonical(x: Dyadic) -> bool {
    (x.mant == 0 && x.exp == 0) || (LOW <= x.mant < HIGH)
}

/// Whether the number is in the range that is kept here.
pub open spec fn in_range(x: Dyadic) -> bool {
    canonical(x) && -300 <= x.exp <= 60
}

proof fn lemma_nearest_range(n: nat, d: nat)
    requires
        d > 0,
        d * LOW <= n < d * HIGH,
    ensures
        LOW <= nearest(n, d) <= HIGH,
        canonical(settled(n, d)),
        0 <= settled(n, d).exp <= 1,
{
    let q = n / d;
    assert(LOW <= q < HIGH) by (nonlinear_arith)
        requires
            d > 0,
            d * LOW <= n < d * HIGH,
            q == n / d,
    ;
}

/// What the exponent of a rounded quotient says of its size.
pub open spec fn sized(e: int, n: nat, d: nat) -> bool {
    &&& e >= 1 ==> n >= d * pow2((e - 1) as nat) * LOW
    &&& e >= 0 ==> n < d * pow2(e as nat) * HIGH
    &&& e <= -1 ==> n * pow2((-e) as nat) < d * HIGH
    &&& e <= 0 ==> n * pow2((1 - e) as nat) >= d * LOW
}

proof fn lemma_coarse(n: nat, d: nat)
    requires
        d > 0,
        n >= d * LOW,
    ensures
        canonical(coarse(n, d)),
        coarse(n, d).mant >= LOW,
        coarse(n, d).exp >= 0,
        sized(coarse(n, d).exp, n, d),
    decreases n - d,
{
    lemma_pow2_unfold(1);
    lemma2_to64();
    assert(d * pow2(0) * LOW == d * LOW && d * pow2(0) * HIGH == d * HIGH && d * pow2(1) * HIGH
        == 2 * (d * HIGH)) by (nonlinear_arith)
        requires
            pow2(0) == 1,
            pow2(1) == 2,
    ;
    assert(n * pow2(1) == 2 * n);
    if n >= d * HIGH {
        lemma_coarse(n, 2 * d);
        let e = coarse(n, 2 * d).exp;
        lemma_pow2_unfold((e + 1) as nat);
        assert((2 * d) * pow2(e as nat) * HIGH == d * pow2((e + 1) as nat) * HIGH)
            by (nonlinear_arith)
            requires
                pow2((e + 1) as nat) == 2 * pow2(e as nat),
        ;
        if e >= 1 {
            lemma_pow2_unfold(e as nat);
            assert((2 * d) * pow2((e - 1) as nat) * LOW == d * pow2(e as nat) * LOW)
                by (nonlinear_arith)
                requires
                    pow2(e as nat) == 2 * pow2((e - 1) as nat),
            ;
        }
    } else {
        lemma_nearest_range(n, d);
    }
}

proof fn lemma_fine(n: nat, d: nat)
    requires
        d > 0,
        0 < n < d * HIGH,
    ensures
        canonical(fine(n, d)),
        fine(n, d).mant >= LOW,
        fine(n, d).exp <= 1,
        sized(fine(n, d).exp, n, d),
    decreases d * HIGH - n,
{
    lemma2_to64();
    lemma_pow2_unfold(1);
    lemma_pow2_unfold(2);
    assert(d * pow2(0) * LOW == d * LOW && d * pow2(0) * HIGH == d * HIGH && d * pow2(1) * HIGH
        == 2 * (d * HIGH)) by (nonlinear_arith)
        requires
            pow2(0) == 1,
            pow2(1) == 2,
    ;
    if n < d * LOW {
        lemma_fine(2 * n, d);
        let e = fine(2 * n, d).exp;
        assert(fine(n, d).exp == e - 1);
        if e <= 0 {
            lemma_pow2_unfold((1 - e) as nat);
            lemma_pow2_unfold((2 - e) as nat);
            assert((2 * n) * pow2((1 - e) as nat) == n * pow2((2 - e) as nat)) by (nonlinear_arith)
                requires
                    pow2((2 - e) as nat) == 2 * pow2((1 - e) as nat),
            ;
            if e <= -1 {
                assert((2 * n) * pow2((-e) as nat) == n * pow2((1 - e) as nat)) by (nonlinear_arith)
                    requires
                        pow2((1 - e) as nat) == 2 * pow2((-e) as nat),
                ;
            } else {
                assert(n * pow2(1) == 2 * n);
            }
        } else {
            assert(n * pow2(1) == 2 * n);
        }
    } else {
        lemma_nearest_range(n, d);
        assert(n * pow2(1) == 2 * n);
    }
}

/// A rounded quotient has 53 bits, and its exponent fits its size.
pub proof fn lemma_rounded(n: nat, d: nat)
    requires
        d > 0,
        n > 0,
    ensures
        canonical(rounded(n, d)),
        rounded(n, d).mant >= LOW,
        sized(rounded(n, d).exp, n, d),
{
    if n >= d * HIGH {
        lemma_coarse(n, d);
    } else {
        lemma_fine(n, d);
    }
}

/// A non-negative number in double precision.
#[derive(Debug, Clone, Copy)]
pub struct Double {
    mant: u64,
    exp: i32,
}

impl View for Double {
    type V = Dyadic;

    closed spec fn view(&self) -> Dyadic {
        Dyadic { mant: self.mant as nat, exp: self.exp as int }
    }
}

/// `2^k`.
fn power(k: u32) -> (r: u128)
    requires
        k <= 126,
    ensures
        r == pow2(k as nat),
        0 < r <= 0x4000_0000_0000_0000_0000_0000_0000_0000,
{
    let mut r: u128 = 1;
    let mut i: u32 = 0;
    proof {
        lemma2_to64();
    }
    while i < k
        invariant
            i <= k <= 126,
            r == pow2(i as nat),
        decreases k - i,
    {
        proof {
            lemma_pow2_unfold((i + 1) as nat);
            lemma_large_powers((i + 1) as nat);
        }
        r = r * 2;
        i = i + 1;
    }
    proof {
        lemma_large_powers(k as nat);
    }
    r
}

proof fn lemma_large_powers(k: nat)
    ensures
        pow2(64) == 0x1_0000_0000_0000_0000,
        pow2(120) == 0x100_0000_0000_0000_0000_0000_0000_0000,
        pow2(126) == 0x4000_0000_0000_0000_0000_0000_0000_0000,
        k <= 126 ==> 0 < pow2(k) <= pow2(126),
        k > 120 ==> pow2(k) > pow2(120),
{
    lemma2_to64();
    lemma2_to64_rest();
    lemma_pow2_adds(64, 56);
    lemma_pow2_adds(64, 62);
    lemma_pow2_pos(k);
    if k < 126 {
        lemma_pow2_strictly_increases(k, 126);
    }
    if k > 120 {
        lemma_pow2_strictly_increases(120, k);
    }
}

/// Round a quotient to a number: its mantissa and its exponent.
fn round_ratio(n: u128, d: u128) -> (r: (u64, i32))
    requires
        0 < n < 0x100_0000_0000_0000_0000_0000_0000_0000,
        0 < d < 0x1_0000_0000_0000_0000,
    ensures
        rounded(n as nat, d as nat) == (Dyadic { mant: r.0 as nat, exp: r.1 as int }),
        LOW <= r.0 < HIGH,
        -120 <= r.1 <= 121,
        sized(r.1 as int, n as nat, d as nat),
{
    let mut m: u128 = n;
    let mut c: u128 = d;
    let mut e: i32 = 0;
    proof {
        lemma_large_powers(0);
        lemma2_to64();
        lemma_rounded(n as nat, d as nat);
    }
    if n / (HIGH as u128) >= d {
        while n / (HIGH as u128) >= c
            invariant
                m == n,
                0 < d <= c <= n,
                n >= c * LOW,
                n < 0x100_0000_0000_0000_0000_0000_0000_0000,
                0 <= e <= 120,
                pow2(e as nat) <= c,
                coarse(n as nat, d as nat) == shifted(coarse(n as nat, c as nat), e as int),
            decreases n - c,
        {
            proof {
                lemma_pow2_unfold((e + 1) as nat);
                lemma_large_powers((e + 1) as nat);
                assert(n >= c * 0x20_0000_0000_0000) by (nonlinear_arith)
                    requires
                        n / 0x20_0000_0000_0000 >= c,
                ;
            }
            c = c * 2;
            e = e + 1;
        }
    } else {
        while m < d * (LOW as u128)
            invariant
                c == d,
                0 < d < 0x1_0000_0000_0000_0000,
                0 < m < d * HIGH,
                -120 <= e <= 0,
                pow2((-e) as nat) <= m,
                fine(n as nat, d as nat) == shifted(fine(m as nat, d as nat), e as int),
            decreases d * HIGH - m,
        {
            proof {
                lemma_pow2_unfold((1 - e) as nat);
                lemma_large_powers((1 - e) as nat);
                assert(d * HIGH == 2 * (d * LOW));
            }
            m = m * 2;
            e = e - 1;
        }
    }
    proof {
        lemma_nearest_range(m as nat, c as nat);
    }
    let q: u128 = round(m, c);
    if q == HIGH as u128 {
        (LOW, e + 1)
    } else {
        (q as u64, e)
    }
}

impl Double {
    #[verifier::type_invariant]
    pub open spec fn valid(self) -> bool {
        in_range(self@)
    }

    /// Zero.
    pub fn zero() -> (r: Double)
        ensures
            r@ == zero(),
    {
        Double { mant: 0, exp: 0 }
    }

    /// One.
    pub fn one() -> (r: Double)
        ensures
            r@ == one(),
            at_most_one(r@),
            at_least(r@, 1),
    {
        proof {
            lemma2_to64();
            lemma2_to64_rest();
        }
        Double { mant: LOW, exp: -52 }
    }

    /// The number nearest to an integer.
    pub fn from_u64(n: u64) -> (r: Double)
        ensures
            r@ == rounded(n as nat, 1),
            in_range(r@),
            -52 <= r@.exp <= 12,
            n > 0 ==> r@.mant > 0 && sized(r@.exp, n as nat, 1),
    {
        if n == 0 {
            return Double { mant: 0, exp: 0 };
        }
        let (mant, exp) = round_ratio(n as u128, 1);
        proof {
            lemma2_to64();
            lemma2_to64_rest();
            if exp > 12 {
                if exp > 13 {
                    lemma_pow2_strictly_increases(12, (exp - 1) as nat);
                }
                assert(1 * pow2((exp - 1) as nat) * LOW >= 1 * pow2(12) * LOW) by (nonlinear_arith)
                    requires
                        pow2((exp - 1) as nat) >= pow2(12),
                ;
            }
            if exp < -52 {
                lemma_pow2_strictly_increases(52, (-exp) as nat);
                assert(n * pow2((-exp) as nat) >= pow2((-exp) as nat)) by (nonlinear_arith)
                    requires
                        n >= 1,
                ;
                lemma_pow2_unfold(53);
                if -exp > 53 {
                    lemma_pow2_strictly_increases(53, (-exp) as nat);
                }
            }
        }
        Double { mant, exp }
    }

    /// Mantissa and exponent.
    pub fn parts(self) -> (r: (u64, i32))
        ensures
            r.0 == self@.mant,
            r.1 == self@.exp,
    {
        (self.mant, self.exp)
    }

    /// Whether the number is zero.
    pub fn is_zero(self) -> (r: bool)
        ensures
            r == (self@.mant == 0),
    {
        self.mant == 0
    }

    /// The quotient of two numbers.
    pub(crate) fn over(self, by: Double) -> (r: Double)
        requires
            by@.mant > 0,
            -240 <= self@.exp - by@.exp <= 110,
        ensures
            r@ == quotient(self@, by@),
            in_range(r@),
            r@.mant > 0 ==> self@.exp - by@.exp - 53 <= r@.exp <= self@.exp - by@.exp - 50,
            self@.mant > 0 ==> r@.mant > 0,
    {
        proof {
            use_type_invariant(&self);
            use_type_invariant(&by);
        }
        if self.mant == 0 {
            return Double { mant: 0, exp: 0 };
        }
        let (mant, e) = round_ratio(self.mant as u128, by.mant as u128);
        proof {
            lemma_quotient_size(e as int, self.mant as nat, by.mant as nat);
        }
        Double { mant, exp: e + (self.exp - by.exp) }
    }

    /// The product of two numbers.
    pub(crate) fn times(self, by: Double) -> (r: Double)
        requires
            -300 <= self@.exp + by@.exp + 51,
            self@.exp + by@.exp + 54 <= 60,
        ensures
            r@ == product(self@, by@),
            in_range(r@),
            r@.mant > 0 ==> self@.exp + by@.exp + 51 <= r@.exp <= self@.exp + by@.exp + 54,
    {
        proof {
            use_type_invariant(&self);
            use_type_invariant(&by);
        }
        if self.mant == 0 || by.mant == 0 {
            return Double { mant: 0, exp: 0 };
        }
        proof {
            assert(self.mant * by.mant < HIGH * HIGH && self.mant * by.mant >= LOW * LOW)
                by (nonlinear_arith)
                requires
                    LOW <= self.mant < HIGH,
                    LOW <= by.mant < HIGH,
            ;
        }
        let p: u128 = self.mant as u128 * by.mant as u128;
        let (mant, e) = round_ratio(p, 1);
        proof {
            lemma_product_size(e as int, p as nat);
        }
        Double { mant, exp: e + (self.exp + by.exp) }
    }

    /// The sum of two numbers.
    pub(crate) fn plus(self, other: Double) -> (r: Double)
        requires
            self@.exp <= 55,
            other@.exp <= 55,
        ensures
            r@ == sum(self@, other@),
            in_range(r@),
            r@.exp <= self@.exp + 2 || r@.exp <= other@.exp + 2,
            r@.exp >= self@.exp || r@.exp >= other@.exp,
            self@.mant > 0 || other@.mant > 0 ==> r@.mant > 0,
    {
        proof {
            use_type_invariant(&self);
            use_type_invariant(&other);
        }
        if self.mant == 0 {
            other
        } else if other.mant == 0 {
            self
        } else if self.exp >= other.exp {
            Self::added(self, other)
        } else {
            Self::added(other, self)
        }
    }

    /// The sum of two numbers other than zero, the larger exponent first.
    fn added(x: Double, y: Double) -> (r: Double)
        requires
            y@.exp <= x@.exp <= 55,
            x@.mant > 0,
            y@.mant > 0,
        ensures
            r@ == shifted(
                rounded(x@.mant * pow2((x@.exp - y@.exp) as nat) + y@.mant, 1),
                y@.exp,
            ),
            in_range(r@),
            y@.exp <= r@.exp <= x@.exp + 2,
            r@.mant > 0,
    {
        proof {
            use_type_invariant(&x);
            use_type_invariant(&y);
        }
        let diff: i32 = x.exp - y.exp;
        if diff >= 60 {
            proof {
                lemma_absorbed(x.mant as nat, y.mant as nat, diff as nat);
            }
            return x;
        }
        let scale: u128 = power(diff as u32);
        proof {
            lemma_small_sum(x.mant as nat, y.mant as nat, diff as nat);
        }
        let n: u128 = x.mant as u128 * scale + y.mant as u128;
        let (mant, e) = round_ratio(n, 1);
        proof {
            lemma_sum_size(e as int, n as nat, x.mant as nat, y.mant as nat, diff as nat);
        }
        Double { mant, exp: e + y.exp }
    }

    /// Whether the number is at least an integer.
    pub(crate) fn is_at_least(self, n: u64) -> (r: bool)
        requires
            0 < n <= 0x1000_0000,
        ensures
            r == at_least(self@, n as nat),
    {
        proof {
            use_type_invariant(&self);
            lemma2_to64();
            lemma2_to64_rest();
            lemma_large_powers(0);
        }
        if self.exp >= 0 {
            let scale: u128 = power(self.exp as u32);
            proof {
                lemma_pow2_bound(self.exp as nat, 60);
                assert(self.mant * scale <= HIGH * pow2(60)) by (nonlinear_arith)
                    requires
                        self.mant < HIGH,
                        scale <= pow2(60),
                        scale >= 0,
                ;
            }
            self.mant as u128 * scale >= n as u128
        } else if self.exp <= -64 {
            proof {
                lemma_pow2_bound(64, (-self.exp) as nat);
                assert(n * pow2((-self.exp) as nat) >= pow2(64)) by (nonlinear_arith)
                    requires
                        n >= 1,
                        pow2((-self.exp) as nat) >= pow2(64),
                ;
            }
            false
        } else {
            let scale: u128 = power((-self.exp) as u32);
            proof {
                lemma_pow2_bound((-self.exp) as nat, 64);
                assert(n * scale <= 0x1000_0000 * pow2(64)) by (nonlinear_arith)
                    requires
                        n <= 0x1000_0000,
                        scale <= pow2(64),
                        scale >= 0,
                ;
            }
            self.mant as u128 >= n as u128 * scale
        }
    }

    /// The integer nearest to the number times `factor`.
    pub(crate) fn nearest_times(self, factor: u64) -> (r: u128)
        requires
            0 < factor <= 1000 || (0 < factor <= 0x4000_0000 && self@.exp <= 20),
        ensures
            r == nearest(over(self@) * factor as nat, under(self@)),
    {
        proof {
            use_type_invariant(&self);
            lemma2_to64();
            lemma2_to64_rest();
            lemma_large_powers(0);
            assert(self.mant * factor < HIGH * 0x4000_0000) by (nonlinear_arith)
                requires
                    self.mant < HIGH,
                    factor <= 0x4000_0000,
                    factor > 0,
            ;
        }
        let n: u128 = self.mant as u128 * factor as u128;
        if self.exp >= 0 {
            let scale: u128 = power(self.exp as u32);
            proof {
                lemma_pow2_bound(self.exp as nat, 60);
                if self.exp <= 20 {
                    lemma_pow2_bound(self.exp as nat, 20);
                }
                assert(n * scale < HIGH * 1000 * pow2(60)) by (nonlinear_arith)
                    requires
                        n == self.mant * factor,
                        self.mant < HIGH,
                        (0 < factor <= 1000 && scale <= pow2(60)) || (factor <= 0x4000_0000
                            && scale <= 0x10_0000),
                        pow2(60) == 0x1000_0000_0000_0000,
                        scale > 0,
                        HIGH == 0x20_0000_0000_0000,
                ;
                assert(n * scale == (self.mant * pow2(self.exp as nat)) * factor)
                    by (nonlinear_arith)
                    requires
                        n == self.mant * factor,
                        scale == pow2(self.exp as nat),
                ;
                let whole = over(self@) * factor as nat;
                assert(whole / 1 == whole && whole % 1 == 0);
            }
            n * scale
        } else if self.exp <= -100 {
            proof {
                lemma_pow2_bound(100, (-self.exp) as nat);
                lemma_pow2_adds(64, 36);
                lemma_small_nearest(n as nat, pow2((-self.exp) as nat));
            }
            0
        } else {
            round(n, power((-self.exp) as u32))
        }
    }

    /// The number in decimal, rounded to a number of places.
    pub(crate) fn push_fixed(self, out: &mut String, places: u64)
        requires
            places <= 3,
        ensures
            final(out)@ == old(out)@ + decimal_text(self@, places as nat),
    {
        proof {
            reveal_with_fuel(tens, 4);
        }
        let scale: u64 = if places == 0 {
            1
        } else if places == 1 {
            10
        } else if places == 2 {
            100
        } else {
            1000
        };
        push_fixed(out, self.nearest_times(scale), places);
    }

    /// The integer part of the number, or the largest `u64` where it is more.
    pub(crate) fn floor(self) -> (r: u64)
        ensures
            r == whole_part(self@),
    {
        proof {
            use_type_invariant(&self);
            lemma2_to64();
            lemma2_to64_rest();
            lemma_large_powers(0);
        }
        if self.exp >= 0 {
            let scale: u128 = power(self.exp as u32);
            proof {
                lemma_pow2_bound(self.exp as nat, 60);
                assert(self.mant * scale <= HIGH * pow2(60)) by (nonlinear_arith)
                    requires
                        self.mant < HIGH,
                        scale <= pow2(60),
                        scale >= 0,
                ;
            }
            let n: u128 = self.mant as u128 * scale;
            assert(n as nat / 1 == n as nat);
            if n > u64::MAX as u128 {
                u64::MAX
            } else {
                n as u64
            }
        } else if self.exp <= -64 {
            proof {
                lemma_pow2_bound(64, (-self.exp) as nat);
                vstd::arithmetic::div_mod::lemma_fundamental_div_mod_converse(
                    self.mant as int,
                    pow2((-self.exp) as nat) as int,
                    0,
                    self.mant as int,
                );
            }
            0
        } else {
            let scale: u128 = power((-self.exp) as u32);
            let q: u128 = self.mant as u128 / scale;
            proof {
                vstd::arithmetic::div_mod::lemma_div_nonincreasing(self.mant as int, scale as int);
            }
            assert(q == over(self@) / under(self@));
            q as u64
        }
    }
}

impl Double {
    /// The integer part of the product of two numbers, held to the largest
    /// `u64`.
    pub(crate) fn floor_times(self, by: Double) -> (r: u64)
        ensures
            r == whole_part(product(self@, by@)),
    {
        proof {
            use_type_invariant(&self);
            use_type_invariant(&by);
        }
        if self.mant == 0 || by.mant == 0 {
            assert(over(zero()) == 0) by (nonlinear_arith)
                requires
                    over(zero()) == 0 * pow2(0),
            ;
            return 0;
        }
        let e: i32 = self.exp + by.exp;
        let ghost p = self.mant as nat * by.mant as nat;
        let ghost x = product(self@, by@);
        proof {
            assert(p < HIGH * HIGH && p >= LOW * LOW) by (nonlinear_arith)
                requires
                    LOW <= self.mant < HIGH,
                    LOW <= by.mant < HIGH,
                    p == self.mant as nat * by.mant as nat,
            ;
            lemma_rounded(p, 1);
            lemma_product_size(rounded(p, 1).exp, p);
            lemma2_to64();
            lemma2_to64_rest();
        }
        if e > 6 {
            proof {
                lemma_pow2_bound(50, x.exp as nat);
                assert(x.mant * pow2(x.exp as nat) > u64::MAX) by (nonlinear_arith)
                    requires
                        x.mant >= LOW,
                        pow2(x.exp as nat) >= 0x4_0000_0000_0000,
                ;
                assert(over(x) / 1 == over(x));
            }
            return u64::MAX;
        }
        if e < -200 {
            proof {
                lemma_pow2_bound(64, (-x.exp) as nat);
                vstd::arithmetic::div_mod::lemma_fundamental_div_mod_converse(
                    x.mant as int,
                    pow2((-x.exp) as nat) as int,
                    0,
                    x.mant as int,
                );
            }
            return 0;
        }
        self.times(by).floor()
    }

    /// The integer part of the quotient of two numbers, held to the largest
    /// `u64`.
    pub(crate) fn floor_over(self, by: Double) -> (r: u64)
        requires
            by@.mant > 0,
            -50 <= by@.exp,
        ensures
            r == whole_part(quotient(self@, by@)),
    {
        proof {
            use_type_invariant(&self);
            use_type_invariant(&by);
        }
        if self.mant == 0 {
            assert(over(zero()) == 0) by (nonlinear_arith)
                requires
                    over(zero()) == 0 * pow2(0),
            ;
            return 0;
        }
        let e: i32 = self.exp - by.exp;
        if e < -240 {
            let ghost x = quotient(self@, by@);
            proof {
                lemma_rounded(self.mant as nat, by.mant as nat);
                lemma_quotient_size(
                    rounded(self.mant as nat, by.mant as nat).exp,
                    self.mant as nat,
                    by.mant as nat,
                );
                lemma2_to64();
                lemma2_to64_rest();
                lemma_pow2_bound(64, (-x.exp) as nat);
                vstd::arithmetic::div_mod::lemma_fundamental_div_mod_converse(
                    x.mant as int,
                    pow2((-x.exp) as nat) as int,
                    0,
                    x.mant as int,
                );
            }
            return 0;
        }
        self.over(by).floor()
    }

    /// Whether the number is less than another.
    pub(crate) fn is_below(self, other: Double) -> (r: bool)
        ensures
            r == below(self@, other@),
    {
        if self.mant == 0 || other.mant == 0 {
            self.mant < other.mant
        } else if self.exp != other.exp {
            self.exp < other.exp
        } else {
            self.mant < other.mant
        }
    }

    /// The number of a mantissa and an exponent, where it is kept here.
    pub fn from_parts(mant: u64, exp: i32) -> (r: Option<Double>)
        ensures
            match r {
                Some(x) => x@ == (Dyadic { mant: mant as nat, exp: exp as int }) && in_range(x@),
                None => !in_range(Dyadic { mant: mant as nat, exp: exp as int }),
            },
    {
        if ((mant == 0 && exp == 0) || (LOW <= mant && mant < HIGH)) && -300 <= exp && exp <= 60 {
            Some(Double { mant, exp })
        } else {
            None
        }
    }
}

/// Whether one number is less than another: of two numbers of 53 bits the one
/// with the lower exponent is.
pub open spec fn below(x: Dyadic, y: Dyadic) -> bool {
    if x.mant == 0 || y.mant == 0 {
        x.mant < y.mant
    } else if x.exp != y.exp {
        x.exp < y.exp
    } else {
        x.mant < y.mant
    }
}

/// The order of numbers is that of their values, whatever power of two they are
/// scaled by to become integers.
pub proof fn law_order_is_that_of_values(x: Dyadic, y: Dyadic, k: int)
    requires
        canonical(x),
        canonical(y),
        x.exp + k >= 0,
        y.exp + k >= 0,
    ensures
        below(x, y) == (x.mant * pow2((x.exp + k) as nat) < y.mant * pow2((y.exp + k) as nat)),
{
    let a = pow2((x.exp + k) as nat);
    let b = pow2((y.exp + k) as nat);
    lemma_pow2_pos((x.exp + k) as nat);
    lemma_pow2_pos((y.exp + k) as nat);
    if x.mant == 0 {
        assert(0 * a == 0) by (nonlinear_arith);
        assert(y.mant * b > 0 <==> y.mant > 0) by (nonlinear_arith)
            requires
                b > 0,
        ;
    } else if y.mant == 0 {
        assert(0 * b == 0) by (nonlinear_arith);
        assert(x.mant * a > 0) by (nonlinear_arith)
            requires
                a > 0,
                x.mant > 0,
        ;
    } else if x.exp == y.exp {
        assert((x.mant * a < y.mant * a) == (x.mant < y.mant)) by (nonlinear_arith)
            requires
                a > 0,
        ;
    } else if x.exp < y.exp {
        lemma_doubled_powers((x.exp + k) as nat, (y.exp + k) as nat);
        assert(x.mant * a < y.mant * b) by (nonlinear_arith)
            requires
                x.mant < HIGH,
                y.mant >= LOW,
                a > 0,
                b >= 2 * a,
        ;
    } else {
        lemma_doubled_powers((y.exp + k) as nat, (x.exp + k) as nat);
        assert(y.mant * b < x.mant * a) by (nonlinear_arith)
            requires
                y.mant < HIGH,
                x.mant >= LOW,
                b > 0,
                a >= 2 * b,
        ;
    }
}

proof fn lemma_doubled_powers(a: nat, b: nat)
    requires
        a < b,
    ensures
        pow2(b) >= 2 * pow2(a),
{
    lemma_pow2_unfold(a + 1);
    lemma_pow2_bound(a + 1, b);
}

/// Whether the number is a part of one whole, and not vanishingly small.
pub open spec fn is_part(x: Dyadic) -> bool {
    in_range(x) && at_most_one(x) && x.exp >= -200
}

/// A part of one whole: a number from zero to one.
#[derive(Debug, Clone, Copy)]
pub struct Share(Double);

impl View for Share {
    type V = Dyadic;

    closed spec fn view(&self) -> Dyadic {
        self.0@
    }
}

impl Share {
    #[verifier::type_invariant]
    pub open spec fn valid(self) -> bool {
        is_part(self@)
    }

    /// Nothing.
    pub fn zero() -> (r: Share)
        ensures
            r@ == zero(),
    {
        proof {
            lemma2_to64();
        }
        Share(Double::zero())
    }

    /// The whole.
    pub fn one() -> (r: Share)
        ensures
            r@ == one(),
    {
        Share(Double::one())
    }

    /// A number held to one.
    pub(crate) fn held(x: Double) -> (r: Share)
        requires
            x@.exp >= -200,
        ensures
            r@ == if at_least(x@, 1) {
                one()
            } else {
                x@
            },
    {
        if x.is_at_least(1) {
            Share::one()
        } else {
            proof {
                use_type_invariant(&x);
            }
            Share(x)
        }
    }

    /// The part as a number.
    pub fn value(self) -> (r: Double)
        ensures
            r@ == self@,
            is_part(r@),
            r@.exp <= 0,
    {
        proof {
            use_type_invariant(&self);
            lemma_part_size(self@);
        }
        self.0
    }
}

proof fn lemma_part_size(x: Dyadic)
    requires
        is_part(x),
    ensures
        x.exp <= 0,
        x.mant > 0 ==> x.exp <= -52,
{
    lemma2_to64();
    lemma2_to64_rest();
    if x.mant > 0 && x.exp >= 0 {
        lemma_pow2_pos(x.exp as nat);
        assert(x.mant * pow2(x.exp as nat) >= x.mant) by (nonlinear_arith)
            requires
                pow2(x.exp as nat) >= 1,
        ;
    } else if x.mant > 0 && x.exp > -52 {
        lemma_pow2_strictly_increases((-x.exp) as nat, 52);
    }
}

/// Whether the number is no more than `2^53`, up to which every integer is a
/// number.
pub open spec fn small(x: Dyadic) -> bool {
    canonical(x) && (x.exp <= 0 || (x.exp == 1 && x.mant == LOW))
}

proof fn lemma_coarse_exact(n: nat, d: nat) -> (e: nat)
    requires
        d > 0,
        n >= d * LOW,
    ensures
        d * pow2(e) * LOW <= n < d * pow2(e) * HIGH,
        coarse(n, d) == shifted(settled(n, d * pow2(e)), e as int),
    decreases n - d,
{
    lemma2_to64();
    if n >= d * HIGH {
        let e = lemma_coarse_exact(n, 2 * d);
        lemma_pow2_unfold(e + 1);
        assert((2 * d) * pow2(e) == d * pow2(e + 1)) by (nonlinear_arith)
            requires
                pow2(e + 1) == 2 * pow2(e),
        ;
        e + 1
    } else {
        assert(d * pow2(0) == d) by (nonlinear_arith)
            requires
                pow2(0) == 1,
        ;
        0
    }
}

proof fn lemma_rounded_small(n: nat, k: nat)
    requires
        LOW <= n <= (HIGH + 1) * pow2(k),
    ensures
        small(shifted(rounded(n, 1), -(k as int))),
{
    lemma2_to64();
    lemma2_to64_rest();
    lemma_pow2_pos(k);
    if n < HIGH {
        assert(nearest(n, 1) == n);
        assert(rounded(n, 1) == (Dyadic { mant: n, exp: 0 }));
    } else {
        let e = lemma_coarse_exact(n, 1);
        let d = pow2(e);
        lemma_pow2_pos(e);
        lemma_nearest_range(n, d);
        if e > k {
            lemma_doubled_powers(k, e);
            if e > k + 1 {
                lemma_doubled_powers(k, k + 1);
                lemma_doubled_powers(k + 1, e);
                assert(false) by (nonlinear_arith)
                    requires
                        d >= 4 * pow2(k),
                        d * LOW <= n,
                        n <= (HIGH + 1) * pow2(k),
                        HIGH == 2 * LOW,
                        LOW > 1,
                        pow2(k) > 0,
                ;
            }
            lemma_pow2_unfold(k + 1);
            assert(d == 2 * pow2(k));
            let r = (n - LOW * d) as nat;
            assert(0 <= n - LOW * d && 2 * (n - LOW * d) <= d) by (nonlinear_arith)
                requires
                    d * LOW <= n,
                    n <= (HIGH + 1) * pow2(k),
                    d == 2 * pow2(k),
                    HIGH == 2 * LOW,
            ;
            vstd::arithmetic::div_mod::lemma_fundamental_div_mod_converse(
                n as int,
                d as int,
                LOW as int,
                r as int,
            );
            assert(nearest(n, d) == LOW);
        }
    }
}

/// Adding a part of one whole to a number of no more than `2^53` never exceeds
/// that, however often it is done.
pub proof fn law_sums_of_parts_stay_small(x: Dyadic, y: Dyadic)
    requires
        small(x),
        is_part(y),
    ensures
        small(sum(x, y)),
{
    lemma2_to64();
    lemma2_to64_rest();
    lemma_part_size(y);
    if x.mant > 0 && y.mant > 0 {
        let lo = if x.exp >= y.exp {
            y.exp
        } else {
            x.exp
        };
        let k = (-lo) as nat;
        let a = (x.exp + k) as nat;
        let b = (y.exp + k) as nat;
        let p = pow2(k);
        lemma_pow2_pos(k);
        lemma_pow2_pos(a);
        lemma_pow2_pos(b);
        assert(x.mant * pow2(a) <= HIGH * p) by {
            if x.exp <= 0 {
                lemma_pow2_bound(a, k);
                assert(x.mant * pow2(a) <= HIGH * p) by (nonlinear_arith)
                    requires
                        x.mant < HIGH,
                        pow2(a) <= p,
                        p > 0,
                ;
            } else {
                lemma_pow2_unfold(a);
                assert(x.mant * pow2(a) <= HIGH * p) by (nonlinear_arith)
                    requires
                        x.mant == LOW,
                        pow2(a) == 2 * p,
                        HIGH == 2 * LOW,
                ;
            }
        }
        assert(y.mant * pow2(b) <= p) by {
            let under = pow2((-y.exp) as nat);
            lemma_pow2_adds((-y.exp) as nat, b);
            assert(y.mant * pow2(b) <= under * pow2(b)) by (nonlinear_arith)
                requires
                    y.mant <= under,
            ;
        }
        let n = x.mant * pow2(a) + y.mant * pow2(b);
        assert(n <= (HIGH + 1) * p) by (nonlinear_arith)
            requires
                n == x.mant * pow2(a) + y.mant * pow2(b),
                x.mant * pow2(a) <= HIGH * p,
                y.mant * pow2(b) <= p,
        ;
        assert(x.mant * pow2(a) >= x.mant) by (nonlinear_arith)
            requires
                pow2(a) >= 1,
        ;
        if x.exp >= y.exp {
            assert(b == 0);
            assert(y.mant * pow2(b) == y.mant) by (nonlinear_arith)
                requires
                    pow2(b) == 1,
            ;
        } else {
            assert(a == 0);
            assert(x.mant * pow2(a) == x.mant) by (nonlinear_arith)
                requires
                    pow2(a) == 1,
            ;
        }
        lemma_rounded_small(n, k);
    }
}

/// The number in decimal, rounded to a number of places, halves to even.
pub open spec fn decimal_text(x: Dyadic, places: nat) -> Seq<char> {
    fixed(nearest(over(x) * tens(places), under(x)), places)
}

/// The integer part, held to the largest `u64`.
pub open spec fn whole_part(x: Dyadic) -> nat {
    let n = over(x) / under(x);
    if n > u64::MAX {
        u64::MAX as nat
    } else {
        n
    }
}

proof fn lemma_pow2_bound(a: nat, b: nat)
    requires
        a <= b,
    ensures
        0 < pow2(a) <= pow2(b),
{
    lemma_pow2_pos(a);
    if a < b {
        lemma_pow2_strictly_increases(a, b);
    }
}

proof fn lemma_small_nearest(n: nat, d: nat)
    requires
        2 * n < d,
    ensures
        nearest(n, d) == 0,
{
    vstd::arithmetic::div_mod::lemma_fundamental_div_mod_converse(n as int, d as int, 0, n as int);
}

proof fn lemma_small_sum(x: nat, y: nat, k: nat)
    requires
        x < HIGH,
        y < HIGH,
        k < 60,
    ensures
        x * pow2(k) + y < 0x100_0000_0000_0000_0000_0000_0000_0000,
        x * pow2(k) >= 0,
{
    lemma2_to64();
    lemma2_to64_rest();
    lemma_pow2_bound(k, 60);
    assert(x * pow2(k) <= HIGH * pow2(60)) by (nonlinear_arith)
        requires
            x < HIGH,
            0 < pow2(k) <= pow2(60),
    ;
}

proof fn lemma_sum_size(e: int, n: nat, x: nat, y: nat, k: nat)
    requires
        LOW <= x < HIGH,
        LOW <= y < HIGH,
        n == x * pow2(k) + y,
        sized(e, n, 1),
    ensures
        0 <= e <= k + 2,
{
    lemma2_to64();
    lemma2_to64_rest();
    lemma_pow2_pos(k);
    assert(n >= HIGH) by (nonlinear_arith)
        requires
            n == x * pow2(k) + y,
            x >= LOW,
            y >= LOW,
            pow2(k) >= 1,
            HIGH == 2 * LOW,
    ;
    if e < 0 {
        lemma_pow2_pos((-e) as nat);
        assert(n * pow2((-e) as nat) >= n) by (nonlinear_arith)
            requires
                pow2((-e) as nat) >= 1,
        ;
    }
    if e > k + 2 {
        lemma_pow2_bound(k + 2, (e - 1) as nat);
        lemma_pow2_adds(k, 2);
        assert(1 * pow2((e - 1) as nat) * LOW >= 4 * pow2(k) * LOW) by (nonlinear_arith)
            requires
                pow2((e - 1) as nat) >= 4 * pow2(k),
        ;
        assert(n < 4 * pow2(k) * LOW) by (nonlinear_arith)
            requires
                n == x * pow2(k) + y,
                x < HIGH,
                y < HIGH,
                pow2(k) >= 1,
                HIGH == 2 * LOW,
        ;
    }
}

proof fn lemma_absorbed(x: nat, y: nat, k: nat)
    requires
        LOW <= x < HIGH,
        0 < y < HIGH,
        k >= 60,
    ensures
        rounded(x * pow2(k) + y, 1) == (Dyadic { mant: x, exp: k as int }),
{
    lemma2_to64();
    lemma2_to64_rest();
    lemma_pow2_bound(60, k);
    let n = x * pow2(k) + y;
    assert(n >= 1 * HIGH) by (nonlinear_arith)
        requires
            n == x * pow2(k) + y,
            x >= LOW,
            pow2(k) >= 2,
            HIGH == 2 * LOW,
    ;
    lemma_absorbed_from(x, y, k, 0);
}

proof fn lemma_absorbed_from(x: nat, y: nat, k: nat, j: nat)
    requires
        LOW <= x < HIGH,
        0 < y < HIGH,
        k >= 60,
        j <= k,
    ensures
        coarse(x * pow2(k) + y, pow2(j)) == (Dyadic { mant: x, exp: k - j }),
    decreases k - j,
{
    lemma2_to64();
    lemma2_to64_rest();
    lemma_pow2_bound(60, k);
    lemma_pow2_bound(j, k);
    let n = x * pow2(k) + y;
    let p = pow2(k);
    if j < k {
        lemma_pow2_unfold(j + 1);
        lemma_pow2_bound(j + 1, k);
        assert(n >= pow2(j) * HIGH) by (nonlinear_arith)
            requires
                n == x * p + y,
                x >= LOW,
                p >= 2 * pow2(j),
                HIGH == 2 * LOW,
        ;
        lemma_absorbed_from(x, y, k, j + 1);
    } else {
        assert(n < p * HIGH) by (nonlinear_arith)
            requires
                n == x * p + y,
                x + 1 <= HIGH,
                y < p,
        ;
        vstd::arithmetic::div_mod::lemma_fundamental_div_mod_converse(
            n as int,
            p as int,
            x as int,
            y as int,
        );
        assert(nearest(n, p) == x);
    }
}

/// A number of at least one has an exponent of at least -52.
pub(crate) proof fn lemma_exponent_of_large(x: Dyadic, n: nat)
    requires
        canonical(x),
        n >= 1,
        at_least(x, n),
    ensures
        x.exp >= -52,
        x.mant > 0,
{
    lemma2_to64();
    lemma2_to64_rest();
    if x.exp < 0 {
        lemma_pow2_pos((-x.exp) as nat);
        assert(n * pow2((-x.exp) as nat) >= pow2((-x.exp) as nat)) by (nonlinear_arith)
            requires
                n >= 1,
        ;
        if x.exp < -52 {
            lemma_pow2_bound(53, (-x.exp) as nat);
        }
    } else {
        lemma_pow2_pos(x.exp as nat);
        assert(x.mant == 0 ==> x.mant * pow2(x.exp as nat) == 0) by (nonlinear_arith);
    }
}

/// The exponent of an integer of `k + 1` bits.
pub(crate) proof fn lemma_integer_size(e: int, n: nat, k: nat)
    requires
        pow2(k) <= n < pow2(k + 1),
        k <= 63,
        sized(e, n, 1),
    ensures
        k - 53 <= e <= k - 51,
{
    lemma_pow2_pos(k);
    lemma_integer_bound(e, n, k);
    lemma2_to64();
    lemma2_to64_rest();
    if e < k - 53 {
        if e >= 0 {
            lemma_pow2_bound(e as nat, (k - 53) as nat);
            lemma_pow2_adds((k - 53) as nat, 53);
            assert(1 * pow2(e as nat) * HIGH <= pow2(k)) by (nonlinear_arith)
                requires
                    pow2(e as nat) <= pow2((k - 53) as nat),
                    pow2(k) == pow2((k - 53) as nat) * HIGH,
            ;
        } else {
            lemma_pow2_adds(k, (-e) as nat);
            lemma_pow2_bound(53, (k - e) as nat);
            assert(n * pow2((-e) as nat) >= pow2((k - e) as nat)) by (nonlinear_arith)
                requires
                    n >= pow2(k),
                    pow2((k - e) as nat) == pow2(k) * pow2((-e) as nat),
            ;
        }
    }
}

/// The exponent of an integer of at most `k + 1` bits.
pub(crate) proof fn lemma_integer_bound(e: int, n: nat, k: nat)
    requires
        0 < n < pow2(k + 1),
        k <= 63,
        sized(e, n, 1),
    ensures
        e <= k - 51,
{
    lemma2_to64();
    lemma2_to64_rest();
    if e > k - 51 {
        if e >= 1 {
            lemma_pow2_adds((e - 1) as nat, 52);
            lemma_pow2_bound(k + 1, (e + 51) as nat);
            assert(1 * pow2((e - 1) as nat) * LOW == pow2((e + 51) as nat)) by (nonlinear_arith)
                requires
                    pow2((e + 51) as nat) == pow2((e - 1) as nat) * LOW,
            ;
        } else {
            lemma_pow2_adds(k + 1, (1 - e) as nat);
            lemma_pow2_pos((1 - e) as nat);
            lemma_pow2_bound((k + 2 - e) as nat, 52);
            assert(n * pow2((1 - e) as nat) < pow2((k + 2 - e) as nat)) by (nonlinear_arith)
                requires
                    n < pow2(k + 1),
                    pow2((k + 2 - e) as nat) == pow2(k + 1) * pow2((1 - e) as nat),
                    pow2((1 - e) as nat) > 0,
            ;
        }
    }
}

proof fn lemma_quotient_size(e: int, n: nat, d: nat)
    requires
        LOW <= n < HIGH,
        LOW <= d < HIGH,
        sized(e, n, d),
    ensures
        -53 <= e <= -50,
{
    lemma2_to64();
    lemma2_to64_rest();
    if e >= 1 {
        lemma_pow2_pos((e - 1) as nat);
        assert(d * pow2((e - 1) as nat) * LOW >= LOW * LOW) by (nonlinear_arith)
            requires
                d >= LOW,
                pow2((e - 1) as nat) >= 1,
        ;
    } else if e > -50 {
        let k = (1 - e) as nat;
        if k < 50 {
            lemma_pow2_strictly_increases(k, 50);
        }
        assert(n * pow2(k) < HIGH * pow2(50)) by (nonlinear_arith)
            requires
                n < HIGH,
                pow2(k) <= pow2(50),
                pow2(50) > 0,
        ;
        assert(d * LOW >= LOW * LOW) by (nonlinear_arith)
            requires
                d >= LOW,
        ;
    } else if e < -53 {
        let k = (-e) as nat;
        if k > 54 {
            lemma_pow2_strictly_increases(54, k);
        }
        assert(n * pow2(k) >= LOW * pow2(54)) by (nonlinear_arith)
            requires
                n >= LOW,
                pow2(k) >= pow2(54),
        ;
        assert(d * HIGH < HIGH * HIGH) by (nonlinear_arith)
            requires
                d < HIGH,
        ;
    }
}

proof fn lemma_product_size(e: int, n: nat)
    requires
        LOW * LOW <= n < HIGH * HIGH,
        sized(e, n, 1),
    ensures
        51 <= e <= 54,
{
    lemma2_to64();
    lemma2_to64_rest();
    if e > 54 {
        let k = (e - 1) as nat;
        if k > 54 {
            lemma_pow2_strictly_increases(54, k);
        }
        assert(1 * pow2(k) * LOW >= pow2(54) * LOW) by (nonlinear_arith)
            requires
                pow2(k) >= pow2(54),
        ;
    } else if 0 <= e < 51 {
        if e < 50 {
            lemma_pow2_strictly_increases(e as nat, 50);
        }
        assert(1 * pow2(e as nat) * HIGH <= pow2(50) * HIGH) by (nonlinear_arith)
            requires
                pow2(e as nat) <= pow2(50),
        ;
    } else if e < 0 {
        lemma_pow2_pos((-e) as nat);
        assert(n * pow2((-e) as nat) >= n) by (nonlinear_arith)
            requires
                pow2((-e) as nat) >= 1,
        ;
    }
}

/// `2^e`, also of a negative exponent.
pub open spec fn scale(e: int) -> real {
    if e >= 0 {
        pow2(e as nat) as real
    } else {
        1real / (pow2((-e) as nat) as real)
    }
}

/// The value of a number.
pub open spec fn value_of(x: Dyadic) -> real {
    (x.mant as real) * scale(x.exp)
}

/// How many times the precision of a double one value may be off another:
/// whether `v` differs from `x` by no more than `k / 2^53` of it.
pub open spec fn close(v: real, x: real, k: nat) -> bool {
    &&& (v - x) * 9007199254740992real <= (k as real) * x
    &&& (x - v) * 9007199254740992real <= (k as real) * x
}

proof fn lemma_scale_step(e: int)
    ensures
        scale(e + 1) == 2real * scale(e),
        scale(e) > 0real,
{
    lemma2_to64();
    if e >= 0 {
        lemma_pow2_unfold((e + 1) as nat);
        lemma_pow2_pos(e as nat);
    } else {
        lemma_pow2_unfold((-e) as nat);
        lemma_pow2_pos((-e) as nat);
        lemma_pow2_pos((-e - 1) as nat);
        let a = pow2((-e) as nat) as real;
        let b = pow2((-e - 1) as nat) as real;
        assert(a == 2real * b);
        let r = 1real / a;
        lemma_ratio_sign(1real, a);
        lemma_last_two(2real, r, b);
        lemma_swap(2real * b, r);
        lemma_is_ratio(2real * r, 1real, b);
        if e == -1 {
            lemma_nothing(b);
            lemma_is_ratio(1real, 1real, b);
        }
    }
}

pub(crate) proof fn lemma_scale_adds(a: int, b: int)
    ensures
        scale(a + b) == scale(a) * scale(b),
        scale(a) > 0real,
    decreases (if b >= 0 { b } else { -b }),
{
    lemma2_to64();
    lemma_scale_step(a);
    let s = scale(a);
    if b == 0 {
        assert(scale(0) == 1real);
        lemma_nothing(s);
    } else if b > 0 {
        lemma_scale_adds(a, b - 1);
        lemma_scale_step(a + b - 1);
        lemma_scale_step(b - 1);
        let t = scale(b - 1);
        lemma_regroup(2real, s, t);
        lemma_swap(2real, s);
        lemma_regroup(s, 2real, t);
    } else {
        lemma_scale_adds(a, b + 1);
        lemma_scale_step(a + b);
        lemma_scale_step(b);
        let t = scale(b);
        lemma_regroup(s, 2real, t);
        lemma_swap(2real, s);
        lemma_regroup(2real, s, t);
    }
}

pub(crate) proof fn lemma_shifted_value(x: Dyadic, k: int)
    ensures
        value_of(shifted(x, k)) == value_of(x) * scale(k),
{
    lemma_scale_adds(x.exp, k);
    lemma_regroup(x.mant as real, scale(x.exp), scale(k));
}

proof fn lemma_nearest_is_near(n: nat, d: nat)
    requires
        d > 0,
    ensures
        2 * (nearest(n, d) * d - n) <= d,
        2 * (n - nearest(n, d) * d) <= d,
{
    let m = nearest(n, d);
    let q = n / d;
    let r = n % d;
    vstd::arithmetic::div_mod::lemma_fundamental_div_mod(n as int, d as int);
    vstd::arithmetic::mul::lemma_mul_is_commutative(d as int, q as int);
    vstd::arithmetic::mul::lemma_mul_is_distributive_add_other_way(d as int, q as int, 1);
    assert(n == q * d + r && 0 <= r < d);
    assert((q + 1) * d == q * d + d);
}

proof fn lemma_settled_is_close(n: nat, d: nat)
    requires
        d > 0,
        d * LOW <= n < d * HIGH,
    ensures
        close(value_of(settled(n, d)), (n as real) / (d as real), 1),
{
    lemma2_to64();
    let m = nearest(n, d);
    lemma_nearest_is_near(n, d);
    assert(scale(0) == 1real && scale(1) == 2real);
    let x = (n as real) / (d as real);
    let a = n as real;
    let b = d as real;
    let v = m as real;
    lemma_nothing(v);
    assert(value_of(settled(n, d)) == v);
    lemma_product_is_real(m, d);
    assert((d * LOW) as real == b * 4503599627370496real);
    lemma_ratio(a, b);
    lemma_spread(v, x, b);
    lemma_spread(x, v, b);
    lemma_regroup(2real, v - x, b);
    lemma_regroup(2real, x - v, b);
    lemma_nothing(b);
    lemma_nothing(x);
    lemma_cancel(2real * (v - x), 1real, b);
    lemma_cancel(2real * (x - v), 1real, b);
    lemma_swap(4503599627370496real, b);
    lemma_cancel(4503599627370496real, x, b);
    assert(1nat as real == 1real);
}

proof fn lemma_half_ratio(n: nat, d: nat)
    requires
        d > 0,
    ensures
        (n as real) / (d as real) == 2real * ((n as real) / ((2 * d) as real)),
        ((2 * n) as real) / (d as real) == 2real * ((n as real) / (d as real)),
{
    let a = n as real;
    let b = d as real;
    assert((2 * d) as real == 2real * b && (2 * n) as real == 2real * a);
    let q = a / (2real * b);
    lemma_ratio(a, 2real * b);
    lemma_last_two(2real, q, b);
    lemma_swap(2real * b, q);
    lemma_is_ratio(2real * q, a, b);
    lemma_ratio(a, b);
    let f = a / b;
    lemma_regroup(2real, f, b);
    lemma_is_ratio(2real * f, 2real * a, b);
}

pub(crate) proof fn lemma_close_scales(v: real, x: real, k: nat, by: real)
    requires
        close(v, x, k),
        by >= 0real,
    ensures
        close(v * by, x * by, k),
{
    let t = k as real;
    lemma_times((v - x) * 9007199254740992real, t * x, by);
    lemma_times((x - v) * 9007199254740992real, t * x, by);
    lemma_regroup(t, x, by);
    lemma_spread(v, x, by);
    lemma_spread(x, v, by);
    lemma_last_two(v - x, 9007199254740992real, by);
    lemma_last_two(x - v, 9007199254740992real, by);
}

proof fn lemma_coarse_is_close(n: nat, d: nat)
    requires
        d > 0,
        n >= d * LOW,
    ensures
        close(value_of(coarse(n, d)), (n as real) / (d as real), 1),
    decreases n - d,
{
    if n >= d * HIGH {
        lemma_coarse_is_close(n, 2 * d);
        lemma_shifted_value(coarse(n, 2 * d), 1);
        lemma2_to64();
        assert(scale(1) == 2real);
        lemma_half_ratio(n, d);
        let x = (n as real) / ((2 * d) as real);
        lemma_close_scales(value_of(coarse(n, 2 * d)), x, 1, 2real);
        lemma_swap(x, 2real);
    } else {
        lemma_settled_is_close(n, d);
    }
}

proof fn lemma_fine_is_close(n: nat, d: nat)
    requires
        d > 0,
        0 < n < d * HIGH,
    ensures
        close(value_of(fine(n, d)), (n as real) / (d as real), 1),
    decreases d * HIGH - n,
{
    if n < d * LOW {
        lemma_fine_is_close(2 * n, d);
        lemma_shifted_value(fine(2 * n, d), -1);
        lemma2_to64();
        let half = scale(-1);
        lemma_ratio_sign(1real, 2real);
        assert(half * 2real == 1real);
        lemma_half_ratio(n, d);
        let x = (n as real) / (d as real);
        lemma_close_scales(value_of(fine(2 * n, d)), 2real * x, 1, half);
        lemma_last_two(2real, x, half);
        lemma_swap(2real, half);
        lemma_nothing(x);
    } else {
        lemma_settled_is_close(n, d);
    }
}

/// Rounding a fraction to a double moves it by no more than half of the last
/// bit.
pub proof fn law_rounding_is_close(n: nat, d: nat)
    requires
        d > 0,
    ensures
        close(value_of(rounded(n, d)), (n as real) / (d as real), 1),
{
    if n == 0 {
        lemma_nothing(scale(0));
        lemma_nothing(d as real);
        lemma_is_ratio(0real, 0real, d as real);
        lemma_nothing(1nat as real);
    } else if n >= d * HIGH {
        lemma_coarse_is_close(n, d);
    } else {
        lemma_fine_is_close(n, d);
    }
}

pub(crate) proof fn lemma_value_sign(x: Dyadic)
    ensures
        value_of(x) >= 0real,
        x.mant > 0 ==> value_of(x) > 0real,
        x.mant == 0 ==> value_of(x) == 0real,
{
    lemma_scale_step(x.exp);
    if x.mant > 0 {
        lemma_positive(x.mant as real, scale(x.exp));
    } else {
        lemma_nothing(scale(x.exp));
    }
}

/// The value of a number is its numerator divided by its denominator.
pub(crate) proof fn lemma_value_is_ratio(x: Dyadic)
    ensures
        value_of(x) * (under(x) as real) == over(x) as real,
        under(x) > 0,
{
    let m = x.mant as real;
    if x.exp >= 0 {
        lemma_pow2_pos(x.exp as nat);
        lemma_product_is_real(x.mant, pow2(x.exp as nat));
        lemma_nothing(value_of(x));
    } else {
        lemma_pow2_pos((-x.exp) as nat);
        let b = pow2((-x.exp) as nat) as real;
        lemma_ratio(1real, b);
        lemma_regroup(m, 1real / b, b);
        lemma_nothing(m);
    }
}

/// A quotient of two numbers is that of their values, rounded once.
pub proof fn law_quotients_are_close(x: Dyadic, y: Dyadic)
    requires
        y.mant > 0,
    ensures
        close(value_of(quotient(x, y)), value_of(x) / value_of(y), 1),
{
    lemma_value_sign(x);
    lemma_value_sign(y);
    let w = value_of(y);
    if x.mant == 0 {
        lemma_value_sign(zero());
        lemma_nothing(w);
        lemma_is_ratio(0real, 0real, w);
        lemma_nothing(1nat as real);
    } else {
        law_rounding_is_close(x.mant, y.mant);
        let k = x.exp - y.exp;
        let r = rounded(x.mant, y.mant);
        let mx = x.mant as real;
        let my = y.mant as real;
        let s = scale(k);
        let sy = scale(y.exp);
        lemma_shifted_value(r, k);
        lemma_scale_adds(k, y.exp);
        lemma_scale_step(y.exp);
        lemma_close_scales(value_of(r), mx / my, 1, s);
        lemma_ratio(mx, my);
        let f = mx / my;
        lemma_cross(f, s, my, sy);
        lemma_is_ratio(f * s, value_of(x), w);
    }
}

/// A product of two numbers is that of their values, rounded once.
pub proof fn law_products_are_close(x: Dyadic, y: Dyadic)
    ensures
        close(value_of(product(x, y)), value_of(x) * value_of(y), 1),
{
    lemma_value_sign(x);
    lemma_value_sign(y);
    let v = value_of(x);
    let w = value_of(y);
    if x.mant == 0 || y.mant == 0 {
        lemma_value_sign(zero());
        lemma_nothing(v);
        lemma_nothing(w);
        lemma_nothing(1nat as real);
    } else {
        let n = x.mant * y.mant;
        law_rounding_is_close(n, 1);
        let k = x.exp + y.exp;
        let r = rounded(n, 1);
        lemma_shifted_value(r, k);
        lemma_scale_adds(x.exp, y.exp);
        lemma_scale_step(k);
        let mx = x.mant as real;
        let my = y.mant as real;
        lemma_product_is_real(x.mant, y.mant);
        lemma_nothing(mx * my);
        lemma_is_ratio(mx * my, mx * my, 1real);
        lemma_close_scales(value_of(r), mx * my, 1, scale(k));
        lemma_cross(mx, my, scale(x.exp), scale(y.exp));
    }
}

proof fn lemma_itself_is_close(x: real, k: nat)
    requires
        x >= 0real,
    ensures
        close(x, x, k),
{
    lemma_nothing(x);
    lemma_times(0real, k as real, x);
}

proof fn lemma_aligned_sum(x: Dyadic, y: Dyadic)
    requires
        x.exp >= y.exp,
    ensures
        close(
            value_of(shifted(rounded(x.mant * pow2((x.exp - y.exp) as nat) + y.mant, 1), y.exp)),
            value_of(x) + value_of(y),
            1,
        ),
{
    let p = pow2((x.exp - y.exp) as nat);
    let n = x.mant * p + y.mant;
    law_rounding_is_close(n, 1);
    let r = rounded(n, 1);
    lemma_shifted_value(r, y.exp);
    lemma_scale_step(y.exp);
    lemma_scale_adds(x.exp - y.exp, y.exp);
    let mx = x.mant as real;
    let my = y.mant as real;
    let q = p as real;
    let s = scale(y.exp);
    lemma_product_is_real(x.mant, p);
    let v = mx * q + my;
    assert(n as real == v);
    lemma_nothing(v);
    lemma_is_ratio(v, v, 1real);
    lemma_close_scales(value_of(r), v, 1, s);
    lemma_spread(mx * q, my, s);
    lemma_regroup(mx, q, s);
}

/// A sum of two numbers is that of their values, rounded once.
pub proof fn law_sums_are_close(x: Dyadic, y: Dyadic)
    ensures
        close(value_of(sum(x, y)), value_of(x) + value_of(y), 1),
{
    lemma_value_sign(x);
    lemma_value_sign(y);
    if x.mant == 0 {
        lemma_itself_is_close(value_of(y), 1);
    } else if y.mant == 0 {
        lemma_itself_is_close(value_of(x), 1);
    } else if x.exp >= y.exp {
        lemma_aligned_sum(x, y);
    } else {
        lemma_aligned_sum(y, x);
    }
}

pub(crate) proof fn lemma_close_widens(v: real, x: real, i: nat, j: nat)
    requires
        close(v, x, i),
        i <= j,
        x >= 0real,
    ensures
        close(v, x, j),
{
    lemma_times(i as real, j as real, x);
}

pub(crate) proof fn lemma_close_adds(a: real, x: real, b: real, y: real, k: nat)
    requires
        close(a, x, k),
        close(b, y, k),
    ensures
        close(a + b, x + y, k),
{
    let t = k as real;
    lemma_spread(x, y, t);
    lemma_swap(t, x);
    lemma_swap(t, y);
    lemma_swap(t, x + y);
}

#[verifier::rlimit(60)]
pub(crate) proof fn lemma_close_follows(a: real, b: real, c: real, i: nat, j: nat)
    requires
        a >= 0real,
        close(b, a, i),
        close(c, b, j),
        i <= 100,
        j <= 100,
    ensures
        close(c, a, i + j + 1),
{
    let p = i as real;
    let q = j as real;
    assert((i + j + 1) as real == p + q + 1real);
    lemma_spread(p + q, 1real, a);
    lemma_spread(p, q, a);
    lemma_nothing(a);
    let pa = p * a;
    let bound = a * 9007199254740992real + pa;
    assert(b * 9007199254740992real <= bound);
    lemma_times(b * 9007199254740992real, bound, q);
    lemma_last_two(b, 9007199254740992real, q);
    lemma_spread(a * 9007199254740992real, pa, q);
    lemma_last_two(a, 9007199254740992real, q);
    lemma_last_two(p, a, q);
    lemma_times(p, 100real, q);
    lemma_times(p * q, 9007199254740992real, a);
    lemma_swap(9007199254740992real, a);
    let qa = a * q;
    let qb = b * q;
    assert(qb * 9007199254740992real <= qa * 9007199254740992real + a * 9007199254740992real);
    assert(qb <= qa + a);
    lemma_swap(b, q);
    lemma_swap(a, q);
}

#[verifier::rlimit(60)]
pub(crate) proof fn lemma_close_quotient(x1: real, x: real, i: nat, y1: real, y: real, j: nat)
    requires
        x >= 0real,
        y > 0real,
        y1 > 0real,
        close(x1, x, i),
        close(y1, y, j),
        i <= 100,
        j <= 100,
    ensures
        close(x1 / y1, x / y, i + j + 2),
{
    let p = i as real;
    let q = j as real;
    let k = p + q + 2real;
    assert((i + j + 2) as real == k);
    let f = x / y;
    let f1 = x1 / y1;
    lemma_ratio(x, y);
    lemma_ratio(x1, y1);
    let t = x * y;
    lemma_nothing(y);
    lemma_times(0real, x, y);
    let z = y * y1;
    lemma_positive(y, y1);
    let u = x1 * y;
    let w = x * y1;
    // What the two are off, multiplied by the other factor.
    lemma_times((x1 - x) * 9007199254740992real, p * x, y);
    lemma_times((x - x1) * 9007199254740992real, p * x, y);
    lemma_times((y1 - y) * 9007199254740992real, q * y, x);
    lemma_times((y - y1) * 9007199254740992real, q * y, x);
    lemma_last_two(x1 - x, 9007199254740992real, y);
    lemma_last_two(x - x1, 9007199254740992real, y);
    lemma_last_two(y1 - y, 9007199254740992real, x);
    lemma_last_two(y - y1, 9007199254740992real, x);
    lemma_spread(x1, x, y);
    lemma_spread(x, x1, y);
    lemma_spread(y1, y, x);
    lemma_spread(y, y1, x);
    lemma_regroup(p, x, y);
    lemma_regroup(q, y, x);
    lemma_swap(y, x);
    lemma_swap(y1, x);
    let pt = p * t;
    let qt = q * t;
    assert((u - t) * 9007199254740992real <= pt);
    assert((t - u) * 9007199254740992real <= pt);
    assert((w - t) * 9007199254740992real <= qt);
    assert((t - w) * 9007199254740992real <= qt);
    lemma_enough_room(t, w, p, q);
    lemma_regroup(f1, y1, y);
    lemma_swap(y1, y);
    lemma_regroup(f, y, y1);
    lemma_spread(f1, f, z);
    lemma_spread(f, f1, z);
    lemma_last_two(f1 - f, 9007199254740992real, z);
    lemma_last_two(f - f1, 9007199254740992real, z);
    lemma_regroup(k, f, z);
    assert(((f1 - f) * 9007199254740992real) * z == (u - w) * 9007199254740992real);
    assert(((f - f1) * 9007199254740992real) * z == (w - u) * 9007199254740992real);
    lemma_cancel((f1 - f) * 9007199254740992real, k * f, z);
    lemma_cancel((f - f1) * 9007199254740992real, k * f, z);
}

proof fn lemma_enough_room(t: real, w: real, p: real, q: real)
    requires
        t >= 0real,
        0real <= p <= 100real,
        0real <= q <= 100real,
        (t - w) * 9007199254740992real <= q * t,
    ensures
        p * t + q * t <= (p + q + 2real) * w,
{
    let k = p + q + 2real;
    lemma_spread(p + q, 2real, t);
    lemma_spread(p, q, t);
    let d = t - w;
    // k * w is k * t less k * d, and k * d is no more than t.
    lemma_swap(k, t);
    lemma_swap(k, w);
    lemma_spread(t, w, k);
    lemma_times(q, 100real, t);
    lemma_times(d * 9007199254740992real, 100real * t, k);
    lemma_last_two(d, 9007199254740992real, k);
    lemma_regroup(100real, t, k);
    lemma_times(k, 202real, t);
    let dk = d * k;
    let tk = t * k;
    assert(dk * 9007199254740992real <= 100real * tk);
    assert(tk <= 202real * t);
    assert(dk <= t);
}

/// Whether a number is at least an integer goes by its value, and so does its
/// integer part.
pub proof fn law_comparisons_go_by_value(x: Dyadic, n: nat)
    ensures
        at_least(x, n) <==> value_of(x) >= n as real,
        at_most_one(x) <==> value_of(x) <= 1real,
        whole_part(x) < u64::MAX ==> whole_part(x) as real <= value_of(x) < whole_part(x) as real + 1real,
{
    let v = value_of(x);
    let u = under(x) as real;
    let r = n as real;
    lemma_value_is_ratio(x);
    lemma_product_is_real(n, under(x));
    lemma_nothing(u);
    if at_least(x, n) {
        lemma_cancel(r, v, u);
    }
    if v >= r {
        lemma_times(r, v, u);
    }
    if at_most_one(x) {
        lemma_cancel(v, 1real, u);
    }
    if v <= 1real {
        lemma_times(v, 1real, u);
    }
    if whole_part(x) < u64::MAX {
        let a = over(x);
        let b = under(x);
        let q = a / b;
        vstd::arithmetic::div_mod::lemma_fundamental_div_mod(a as int, b as int);
        vstd::arithmetic::div_mod::lemma_mod_bound(a as int, b as int);
        vstd::arithmetic::mul::lemma_mul_is_commutative(b as int, q as int);
        vstd::arithmetic::mul::lemma_mul_is_distributive_add_other_way(b as int, q as int, 1);
        assert(q * b <= a < (q + 1) * b);
        lemma_product_is_real(q, b);
        lemma_product_is_real(q + 1, b);
        lemma_cancel(q as real, v, u);
        if v >= q as real + 1real {
            lemma_times(q as real + 1real, v, u);
            assert((q + 1) as real == q as real + 1real);
        }
    }
}

} // verus!
