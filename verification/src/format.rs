//! Human readable numbers.
//!
//! Transfer rates use SI units (kB/s, MB/s, GB/s) because that is what drive
//! vendors and every other benchmarking tool print. Block and capacity sizes
//! use IEC units (KiB, MiB, GiB) because that is how they are actually
//! allocated.

use vstd::arithmetic::div_mod::lemma_div_denominator;
use vstd::arithmetic::power2::lemma2_to64;
use vstd::prelude::*;

use crate::double::{
    at_least, close, decimal_text, law_products_are_close, law_quotients_are_close, lemma_close_follows,
    lemma_close_quotient, lemma_close_scales, lemma_exponent_of_large, lemma_integer_size, lemma_value_is_ratio,
    lemma_value_sign, over, product, quotient, rounded, under, value_of, Double, Dyadic,
};
use crate::number::{decimal, fixed, number, push_fixed, tens};
use crate::ratio::{
    lemma_cancel, lemma_is_ratio, lemma_last_two, lemma_nothing, lemma_product_is_real, lemma_ratio, lemma_ratio_sign,
    lemma_regroup, lemma_spread, lemma_swap,
};
use crate::time::{law_seconds_are_nanoseconds_by_a_billion, lemma_count_is_close, seconds, Duration};

verus! {

/// `n / d` rounded to the nearest integer, halves to the even one.
pub open spec fn nearest(n: nat, d: nat) -> nat {
    let q = n / d;
    let r = n % d;
    if 2 * r < d || (2 * r == d && q % 2 == 0) {
        q
    } else {
        q + 1
    }
}

/// The spacing of 53-bit numbers of the magnitude of `n`.
pub open spec fn spacing(n: nat) -> nat
    decreases n,
{
    if n < 0x20_0000_0000_0000 {
        1
    } else {
        2 * spacing(n / 2)
    }
}

/// A count rounded to 53 significant bits, as a double holds it.
pub open spec fn as_double(n: nat) -> nat {
    nearest(n, spacing(n)) * spacing(n)
}

/// How often `v` can be divided by 1024 before it falls below it, `most` times
/// at most.
pub open spec fn steps(v: nat, most: nat) -> nat
    decreases most,
{
    if most > 0 && v >= 1024 {
        1 + steps(v / 1024, (most - 1) as nat)
    } else {
        0
    }
}

/// `1024` to the power of `k`.
pub open spec fn kibi(k: nat) -> nat
    decreases k,
{
    if k == 0 {
        1
    } else {
        1024 * kibi((k - 1) as nat)
    }
}

/// Name of the IEC unit of `1024^k` bytes, up to the exbibyte.
pub open spec fn unit(k: nat) -> Seq<char> {
    if k == 0 {
        "B"@
    } else if k == 1 {
        "KiB"@
    } else if k == 2 {
        "MiB"@
    } else if k == 3 {
        "GiB"@
    } else if k == 4 {
        "TiB"@
    } else if k == 5 {
        "PiB"@
    } else {
        "EiB"@
    }
}

/// Three significant digits: decimals shown of the quotient `v / scale`.
pub open spec fn decimals(v: nat, scale: nat) -> nat {
    if v >= 100 * scale {
        0
    } else if v >= 10 * scale {
        1
    } else {
        2
    }
}

/// The text of a size: its value in the largest IEC unit not above it, to
/// three significant digits, and the unit.
pub open spec fn size_text(n: nat) -> Seq<char> {
    let v = as_double(n);
    let k = steps(v, 6);
    let places = decimals(v, kibi(k));
    fixed(nearest(v * tens(places), kibi(k)), places) + " "@ + unit(k)
}

/// Round a quotient to the nearest integer, halves to the even one.
pub(crate) fn round(n: u128, d: u128) -> (r: u128)
    requires
        0 < d <= u128::MAX / 2,
        n < u128::MAX,
    ensures
        r == nearest(n as nat, d as nat),
{
    let q: u128 = n / d;
    let m: u128 = n % d;
    if 2 * m < d || (2 * m == d && q % 2 == 0) {
        q
    } else {
        assert(n as int / d as int <= n) by (nonlinear_arith)
            requires
                d >= 1,
                n >= 0,
        ;
        q + 1
    }
}

/// The spacing of 53-bit numbers of the magnitude of `n`.
fn spacing_of(n: u64) -> (r: u128)
    ensures
        r == spacing(n as nat),
        0 < r <= 2048,
{
    let mut d: u128 = 1;
    let mut k: u64 = 0;
    proof {
        vstd::arithmetic::power2::lemma2_to64();
        assert(n as nat / 1 == n as nat);
    }
    while n as u128 / d >= 0x20_0000_0000_0000
        invariant
            0 < d <= 2048,
            k <= 11,
            d == vstd::arithmetic::power2::pow2(k as nat),
            spacing(n as nat) == d * spacing((n as nat / d as nat) as nat),
        decreases 12 - k,
    {
        proof {
            lemma_spacing_step(n as nat, d as nat, k as nat);
        }
        d = d * 2;
        k = k + 1;
    }
    proof {
        assert(spacing((n as nat / d as nat) as nat) == 1);
        assert(d * 1 == d);
    }
    d
}

proof fn lemma_spacing_step(n: nat, d: nat, k: nat)
    requires
        d > 0,
        n <= u64::MAX,
        k <= 11,
        d == vstd::arithmetic::power2::pow2(k),
        n / d >= 0x20_0000_0000_0000,
        spacing(n) == d * spacing(n / d),
    ensures
        k < 11,
        2 * d == vstd::arithmetic::power2::pow2(k + 1),
        2 * d <= 2048,
        spacing(n) == (2 * d) * spacing(n / (2 * d)),
{
    vstd::arithmetic::power2::lemma_pow2_unfold(k + 1);
    vstd::arithmetic::power2::lemma2_to64();
    assert(n >= d * 0x20_0000_0000_0000) by (nonlinear_arith)
        requires
            n / d >= 0x20_0000_0000_0000,
            d > 0,
    ;
    assert(k < 11) by {
        if k == 11 {
            assert(d == 2048);
        }
    }
    if k < 10 {
        vstd::arithmetic::power2::lemma_pow2_strictly_increases(k + 1, 11);
    }
    lemma_div_denominator(n as int, d as int, 2);
    assert(n / (d * 2) == (n / d) / 2);
    assert(d * 2 == 2 * d);
    assert(d * (2 * spacing((n / d) / 2)) == (2 * d) * spacing((n / d) / 2)) by (nonlinear_arith);
}

/// The name of the IEC unit of `1024^k` bytes.
fn unit_name(k: u64) -> (r: &'static str)
    ensures
        r@ == unit(k as nat),
{
    if k == 0 {
        "B"
    } else if k == 1 {
        "KiB"
    } else if k == 2 {
        "MiB"
    } else if k == 3 {
        "GiB"
    } else if k == 4 {
        "TiB"
    } else if k == 5 {
        "PiB"
    } else {
        "EiB"
    }
}

/// `1048576` -> `"1.00 MiB"`
pub fn bytes(n: u64) -> (r: String)
    ensures
        r@ == size_text(n as nat),
{
    let s: u128 = spacing_of(n);
    let rounded: u128 = round(n as u128, s);
    assert(rounded * s <= u64::MAX + 2048) by (nonlinear_arith)
        requires
            rounded <= n as int / s as int + 1,
            0 < s <= 2048,
            n <= u64::MAX,
    ;
    let v: u128 = rounded * s;
    let mut scale: u128 = 1;
    let mut k: u64 = 0;
    proof {
        reveal_with_fuel(kibi, 7);
        assert(v as nat / 1 == v as nat);
    }
    while k < 6 && v / scale >= 1024
        invariant
            k <= 6,
            scale == kibi(k as nat),
            0 < scale <= kibi(6) == 0x1000_0000_0000_0000,
            steps(v as nat, 6) == k + steps(v as nat / scale as nat, (6 - k) as nat),
        decreases 6 - k,
    {
        proof {
            reveal_with_fuel(kibi, 7);
            lemma_div_denominator(v as int, scale as int, 1024);
            assert(v as nat / (scale * 1024) as nat == v as nat / scale as nat / 1024);
        }
        scale = scale * 1024;
        k = k + 1;
    }
    assert(steps(v as nat / scale as nat, (6 - k) as nat) == 0);
    assert(steps(v as nat, 6) == k);
    let mut out = String::new();
    let places: u64 = if v >= 100 * scale {
        0
    } else if v >= 10 * scale {
        1
    } else {
        2
    };
    let ten: u128 = if places == 0 {
        1
    } else if places == 1 {
        10
    } else {
        100
    };
    proof {
        reveal_with_fuel(tens, 3);
    }
    push_fixed(&mut out, round(v * ten, scale), places);
    assert(out@ =~= fixed(nearest((v * ten) as nat, scale as nat), places as nat));
    out.append(" ");
    out.append(unit_name(k));
    out
}

/// The text of a block size: whole binary units, named by one letter.
pub open spec fn block_text(n: nat) -> Seq<char> {
    if n >= 0x4000_0000 {
        decimal(n / 0x4000_0000) + "G"@
    } else if n >= 0x10_0000 {
        decimal(n / 0x10_0000) + "M"@
    } else if n >= 0x400 {
        decimal(n / 0x400) + "K"@
    } else {
        decimal(n) + "B"@
    }
}

/// Compact form for tight columns: `4096` -> `"4K"`, `4194304` -> `"4M"`.
pub fn block_size(n: usize) -> (r: String)
    ensures
        r@ == block_text(n as nat),
{
    let n: u64 = n as u64;
    if n >= 0x4000_0000 {
        number(n / 0x4000_0000).concat("G")
    } else if n >= 0x10_0000 {
        number(n / 0x10_0000).concat("M")
    } else if n >= 0x400 {
        number(n / 0x400).concat("K")
    } else {
        number(n).concat("B")
    }
}

/// A rate divided by a thousand until it falls below it, `most` times at most.
pub open spec fn scaled(x: Dyadic, most: nat) -> Dyadic
    decreases most,
{
    if most > 0 && at_least(x, 1000) {
        scaled(quotient(x, rounded(1000, 1)), (most - 1) as nat)
    } else {
        x
    }
}

/// How often a rate is divided by a thousand, `most` times at most.
pub open spec fn thousands(x: Dyadic, most: nat) -> nat
    decreases most,
{
    if most > 0 && at_least(x, 1000) {
        1 + thousands(quotient(x, rounded(1000, 1)), (most - 1) as nat)
    } else {
        0
    }
}

/// Name of the SI unit of `1000^k` bytes, up to the exabyte.
pub open spec fn si_unit(k: nat) -> Seq<char> {
    if k == 0 {
        "B"@
    } else if k == 1 {
        "kB"@
    } else if k == 2 {
        "MB"@
    } else if k == 3 {
        "GB"@
    } else if k == 4 {
        "TB"@
    } else if k == 5 {
        "PB"@
    } else {
        "EB"@
    }
}

/// Three significant digits: decimals shown of a number.
pub open spec fn digits(x: Dyadic) -> nat {
    if at_least(x, 100) {
        0
    } else if at_least(x, 10) {
        1
    } else {
        2
    }
}

/// The text of a rate in bytes per second: its value in the largest SI unit
/// not above it, to three significant digits, and the unit. A dash stands for
/// no rate.
pub open spec fn rate_text(x: Dyadic) -> Seq<char> {
    if x.mant == 0 {
        "—"@
    } else {
        let v = scaled(x, 6);
        decimal_text(v, digits(v)) + " "@ + si_unit(thousands(x, 6)) + "/s"@
    }
}

/// The name of the SI unit of `1000^k` bytes.
fn si_unit_name(k: u64) -> (r: &'static str)
    ensures
        r@ == si_unit(k as nat),
{
    if k == 0 {
        "B"
    } else if k == 1 {
        "kB"
    } else if k == 2 {
        "MB"
    } else if k == 3 {
        "GB"
    } else if k == 4 {
        "TB"
    } else if k == 5 {
        "PB"
    } else {
        "EB"
    }
}

/// `1234567` -> `"1.23 MB/s"`
pub fn rate(bytes_per_sec: Double) -> (r: String)
    ensures
        r@ == rate_text(bytes_per_sec@),
{
    if bytes_per_sec.is_zero() {
        return "—".to_string();
    }
    let thousand = Double::from_u64(1000);
    let mut v = bytes_per_sec;
    let mut k: u64 = 0;
    proof {
        lemma2_to64();
        lemma_integer_size(thousand@.exp, 1000, 9);
    }
    while k < 6 && v.is_at_least(1000)
        invariant
            k <= 6,
            thousand@ == rounded(1000, 1),
            thousand@.mant > 0,
            -44 <= thousand@.exp <= -42,
            scaled(bytes_per_sec@, 6) == scaled(v@, (6 - k) as nat),
            thousands(bytes_per_sec@, 6) == k + thousands(v@, (6 - k) as nat),
        decreases 6 - k,
    {
        proof {
            use_type_invariant(&v);
            lemma_exponent_of_large(v@, 1000);
        }
        v = v.over(thousand);
        k = k + 1;
    }
    let places: u64 = if v.is_at_least(100) {
        0
    } else if v.is_at_least(10) {
        1
    } else {
        2
    };
    let mut out = String::new();
    v.push_fixed(&mut out, places);
    assert(out@ =~= decimal_text(v@, places as nat));
    out.append(" ");
    out.append(si_unit_name(k));
    out.append("/s");
    out
}

/// The text of a number of operations per second: scaled to thousands and
/// millions. A dash stands for none.
pub open spec fn iops_text(x: Dyadic) -> Seq<char> {
    if x.mant == 0 {
        "—"@
    } else if at_least(x, 1_000_000) {
        decimal_text(quotient(x, rounded(1_000_000, 1)), 2) + "M"@
    } else if at_least(x, 1000) {
        decimal_text(quotient(x, rounded(1000, 1)), 1) + "k"@
    } else {
        decimal_text(x, 0)
    }
}

/// IOPS with thousands separators dropped in favour of scaling.
pub fn iops(v: Double) -> (r: String)
    ensures
        r@ == iops_text(v@),
{
    if v.is_zero() {
        return "—".to_string();
    }
    let mut out = String::new();
    proof {
        lemma2_to64();
        use_type_invariant(&v);
    }
    if v.is_at_least(1_000_000) {
        let million = Double::from_u64(1_000_000);
        proof {
            lemma_exponent_of_large(v@, 1_000_000);
            lemma_integer_size(million@.exp, 1_000_000, 19);
        }
        let q = v.over(million);
        q.push_fixed(&mut out, 2);
        assert(out@ =~= decimal_text(q@, 2));
        out.append("M");
    } else if v.is_at_least(1000) {
        let thousand = Double::from_u64(1000);
        proof {
            lemma_exponent_of_large(v@, 1000);
            lemma_integer_size(thousand@.exp, 1000, 9);
        }
        let q = v.over(thousand);
        q.push_fixed(&mut out, 1);
        assert(out@ =~= decimal_text(q@, 1));
        out.append("k");
    } else {
        v.push_fixed(&mut out, 0);
        assert(out@ =~= decimal_text(v@, 0));
    }
    out
}

/// A span of time in microseconds, in double precision.
pub open spec fn micros(nanos: nat) -> Dyadic {
    product(seconds(nanos), rounded(1_000_000, 1))
}

/// The text of a latency in microseconds, milliseconds or seconds. A dash
/// stands for none.
pub open spec fn latency_text(nanos: nat) -> Seq<char> {
    let us = micros(nanos);
    if us.mant == 0 {
        "—"@
    } else if !at_least(us, 1000) {
        decimal_text(us, 0) + " µs"@
    } else if !at_least(us, 1_000_000) {
        decimal_text(quotient(us, rounded(1000, 1)), 2) + " ms"@
    } else {
        decimal_text(quotient(us, rounded(1_000_000, 1)), 2) + " s"@
    }
}

/// A span of time in microseconds.
pub(crate) fn in_micros(d: Duration) -> (r: Double)
    ensures
        r@ == micros(d.nanos as nat),
{
    let s = d.as_secs();
    let million = Double::from_u64(1_000_000);
    proof {
        lemma2_to64();
        lemma_integer_size(million@.exp, 1_000_000, 19);
    }
    s.times(million)
}

/// Sub-millisecond latencies matter for NVMe, so scale down to µs.
pub fn latency(d: Duration) -> (r: String)
    ensures
        r@ == latency_text(d.nanos as nat),
{
    let us = in_micros(d);
    if us.is_zero() {
        return "—".to_string();
    }
    let mut out = String::new();
    proof {
        lemma2_to64();
        use_type_invariant(&us);
    }
    if !us.is_at_least(1000) {
        us.push_fixed(&mut out, 0);
        assert(out@ =~= decimal_text(us@, 0));
        out.append(" µs");
    } else if !us.is_at_least(1_000_000) {
        let thousand = Double::from_u64(1000);
        proof {
            lemma_exponent_of_large(us@, 1000);
            lemma_integer_size(thousand@.exp, 1000, 9);
        }
        let q = us.over(thousand);
        q.push_fixed(&mut out, 2);
        assert(out@ =~= decimal_text(q@, 2));
        out.append(" ms");
    } else {
        let million = Double::from_u64(1_000_000);
        proof {
            lemma_exponent_of_large(us@, 1_000_000);
            lemma_integer_size(million@.exp, 1_000_000, 19);
        }
        let q = us.over(million);
        q.push_fixed(&mut out, 2);
        assert(out@ =~= decimal_text(q@, 2));
        out.append(" s");
    }
    out
}

/// The text of a span of time: seconds to one decimal.
pub open spec fn secs_text(nanos: nat) -> Seq<char> {
    decimal_text(seconds(nanos), 1) + "s"@
}

/// Seconds, to a tenth.
pub fn secs(d: Duration) -> (r: String)
    ensures
        r@ == secs_text(d.nanos as nat),
{
    let mut out = String::new();
    let s = d.as_secs();
    s.push_fixed(&mut out, 1);
    assert(out@ =~= decimal_text(s@, 1));
    out.append("s");
    out
}

/// A quotient is rounded to an integer that is off by a half at most.
pub proof fn law_nearest_is_half_off_at_most(n: nat, d: nat)
    requires
        d > 0,
    ensures
        2 * (nearest(n, d) * d - n) <= d,
        2 * (n - nearest(n, d) * d) <= d,
        n % d == 0 ==> nearest(n, d) == n / d,
{
    let m = nearest(n, d);
    let q = n / d;
    let r = n % d;
    vstd::arithmetic::div_mod::lemma_fundamental_div_mod(n as int, d as int);
    assert(n == d * q + r && 0 <= r < d);
    assert(2 * (m * d - n) <= d && 2 * (n - m * d) <= d) by (nonlinear_arith)
        requires
            n == d * q + r,
            0 <= r < d,
            m == q && 2 * r <= d || m == q + 1 && 2 * r >= d,
    ;
}

proof fn lemma_steps(v: nat, most: nat)
    ensures
        steps(v, most) <= most,
        steps(v, most) > 0 ==> kibi(steps(v, most)) <= v,
        steps(v, most) < most ==> v < 1024 * kibi(steps(v, most)),
        kibi(steps(v, most)) > 0,
    decreases most,
{
    if most > 0 && v >= 1024 {
        lemma_steps(v / 1024, (most - 1) as nat);
        let s = steps(v / 1024, (most - 1) as nat);
        assert(kibi(s + 1) == 1024 * kibi(s));
        if s == 0 {
            assert(kibi(0) == 1);
        }
    } else {
        assert(kibi(0) == 1);
    }
}

/// A size is shown in the largest unit that is not above it, up to the exbibyte:
/// the number before the unit is the size divided by that, off by half of its
/// last digit at most, with two digits behind the point below ten, one below a
/// hundred, and none from there on. Up to `2^53` the size itself is meant.
pub proof fn law_sizes_are_shown_in_the_largest_unit(n: nat)
    ensures
        ({
            let v = as_double(n);
            let k = steps(v, 6);
            let places = decimals(v, kibi(k));
            &&& v >= 100 * kibi(k) ==> places == 0
            &&& 10 * kibi(k) <= v < 100 * kibi(k) ==> places == 1
            &&& v < 10 * kibi(k) ==> places == 2
            &&& n < 0x20_0000_0000_0000 ==> v == n
            &&& k <= 6
            &&& k > 0 ==> kibi(k) <= v
            &&& k < 6 ==> v < 1024 * kibi(k)
            &&& exists|m: nat|
                {
                    &&& size_text(n) == #[trigger] fixed(m, places) + " "@ + unit(k)
                    &&& 2 * (m * kibi(k) - v * tens(places)) <= kibi(k)
                    &&& 2 * (v * tens(places) - m * kibi(k)) <= kibi(k)
                }
        }),
{
    let v = as_double(n);
    let k = steps(v, 6);
    let places = decimals(v, kibi(k));
    lemma_steps(v, 6);
    law_nearest_is_half_off_at_most(v * tens(places), kibi(k));
    let m = nearest(v * tens(places), kibi(k));
    assert(size_text(n) == fixed(m, places) + " "@ + unit(k));
    if n < 0x20_0000_0000_0000 {
        assert(spacing(n) == 1);
        assert(n / 1 == n && n % 1 == 0);
    }
}

/// A block is named by its whole number of the largest unit that it holds.
pub proof fn law_blocks_are_named_in_whole_units(q: nat)
    ensures
        0 < q ==> block_text(q * 0x4000_0000) == decimal(q) + "G"@,
        0 < q < 1024 ==> block_text(q * 0x10_0000) == decimal(q) + "M"@,
        0 < q < 1024 ==> block_text(q * 0x400) == decimal(q) + "K"@,
        q < 1024 ==> block_text(q) == decimal(q) + "B"@,
{
}

/// A number in decimal is the one of that many places that is nearest to it: it
/// is off by half of its last digit at most.
pub proof fn law_decimals_are_nearest(x: Dyadic, places: nat)
    ensures
        exists|m: nat|
            {
                &&& decimal_text(x, places) == #[trigger] fixed(m, places)
                &&& 2real * ((m as real) - value_of(x) * (tens(places) as real)) <= 1real
                &&& 2real * (value_of(x) * (tens(places) as real) - (m as real)) <= 1real
            },
{
    let t = tens(places);
    let a = over(x) * t;
    let b = under(x);
    let m = nearest(a, b);
    lemma_value_is_ratio(x);
    law_nearest_is_half_off_at_most(a, b);
    lemma_product_is_real(over(x), t);
    lemma_product_is_real(m, b);
    let v = value_of(x);
    let u = b as real;
    let w = m as real;
    let g = v * (t as real);
    lemma_last_two(v, t as real, u);
    lemma_spread(w, g, u);
    lemma_spread(g, w, u);
    lemma_regroup(2real, w - g, u);
    lemma_regroup(2real, g - w, u);
    lemma_nothing(u);
    assert((m * b) as real == w * u);
    assert(a as real == g * u);
    assert(2real * (w * u - g * u) <= u);
    assert(2real * (g * u - w * u) <= u);
    lemma_cancel(2real * (w - g), 1real, u);
    lemma_cancel(2real * (g - w), 1real, u);
    assert(decimal_text(x, places) == fixed(m, places));
}

/// A thousand to the power of `k`.
pub open spec fn kilo(k: nat) -> real
    decreases k,
{
    if k == 0 {
        1real
    } else {
        1000real * kilo((k - 1) as nat)
    }
}

proof fn lemma_kilo(k: nat)
    ensures
        kilo(k) > 0real,
    decreases k,
{
    if k > 0 {
        lemma_kilo((k - 1) as nat);
    }
}

/// Dividing by a count is that of the values, to within the precision of a
/// double.
pub(crate) proof fn lemma_divided(x: Dyadic, n: nat)
    requires
        n > 0,
    ensures
        close(value_of(quotient(x, rounded(n, 1))) * (n as real), value_of(x), 5),
{
    let y = rounded(n, 1);
    let v = value_of(x);
    let r = n as real;
    lemma_count_is_close(n);
    lemma_value_sign(x);
    lemma_value_sign(y);
    law_quotients_are_close(x, y);
    lemma_nothing(v);
    assert(close(v, v, 0)) by {
        assert(0nat as real == 0real);
    }
    lemma_close_quotient(v, v, 0, value_of(y), r, 1);
    let f = v / r;
    lemma_ratio_sign(v, r);
    lemma_close_follows(f, v / value_of(y), value_of(quotient(x, y)), 3, 1);
    lemma_close_scales(value_of(quotient(x, y)), f, 5, r);
}

proof fn lemma_scaled(x: Dyadic, most: nat)
    requires
        most <= 6,
    ensures
        thousands(x, most) <= most,
        close(value_of(scaled(x, most)) * kilo(thousands(x, most)), value_of(x), 6 * thousands(x, most)),
        thousands(x, most) < most ==> !at_least(scaled(x, most), 1000),
        thousands(x, most) > 0 ==> at_least(x, 1000),
    decreases most,
{
    let v = value_of(x);
    lemma_value_sign(x);
    if most > 0 && at_least(x, 1000) {
        let y = quotient(x, rounded(1000, 1));
        let less = (most - 1) as nat;
        lemma_scaled(y, less);
        lemma_divided(x, 1000);
        let k = thousands(y, less);
        let s = value_of(scaled(y, less));
        let w = value_of(y);
        lemma_close_scales(s * kilo(k), w, 6 * k, 1000real);
        lemma_regroup(s, kilo(k), 1000real);
        lemma_swap(kilo(k), 1000real);
        lemma_close_follows(v, w * 1000real, s * kilo(k + 1), 5, 6 * k);
    } else {
        lemma_nothing(v);
        assert(kilo(0) == 1real);
        assert(0nat as real == 0real);
    }
}

/// A rate is shown in the largest unit that is not above it, up to the exabyte:
/// the number that is shown, times a thousand for each step of the unit, is the
/// rate, to within the precision of a double, and below a thousand where there
/// is a larger unit.
pub proof fn law_rates_are_shown_in_the_largest_unit(x: Dyadic)
    requires
        x.mant > 0,
    ensures
        exists|v: Dyadic, k: nat|
            {
                &&& rate_text(x) == #[trigger] decimal_text(v, digits(v)) + " "@ + #[trigger] si_unit(k)
                    + "/s"@
                &&& k <= 6
                &&& close(value_of(v) * kilo(k), value_of(x), 36)
                &&& k < 6 ==> !at_least(v, 1000)
                &&& k > 0 ==> at_least(x, 1000)
            },
        ({
            let v = scaled(x, 6);
            &&& at_least(v, 100) ==> digits(v) == 0
            &&& at_least(v, 10) && !at_least(v, 100) ==> digits(v) == 1
            &&& !at_least(v, 10) && !at_least(v, 100) ==> digits(v) == 2
        }),
{
    let v = scaled(x, 6);
    let k = thousands(x, 6);
    lemma_scaled(x, 6);
    lemma_value_sign(x);
    lemma_close_grows(value_of(v) * kilo(k), value_of(x), 6 * k, 36);
    assert(rate_text(x) == decimal_text(v, digits(v)) + " "@ + si_unit(k) + "/s"@);
}

proof fn lemma_close_grows(v: real, x: real, i: nat, j: nat)
    requires
        close(v, x, i),
        i <= j,
        x >= 0real,
    ensures
        close(v, x, j),
{
    crate::ratio::lemma_times(i as real, j as real, x);
}

/// A number of operations per second is shown as it is below a thousand, and in
/// thousands or millions from there on.
pub proof fn law_operations_are_shown_in_thousands(x: Dyadic)
    requires
        x.mant > 0,
    ensures
        !at_least(x, 1000) && !at_least(x, 1_000_000) ==> iops_text(x) == decimal_text(x, 0),
        at_least(x, 1000) && !at_least(x, 1_000_000) ==> exists|v: Dyadic|
            iops_text(x) == #[trigger] decimal_text(v, 1) + "k"@ && close(
                value_of(v) * 1000real,
                value_of(x),
                5,
            ),
        at_least(x, 1_000_000) ==> exists|v: Dyadic|
            iops_text(x) == #[trigger] decimal_text(v, 2) + "M"@ && close(
                value_of(v) * 1_000_000real,
                value_of(x),
                5,
            ),
{
    lemma_divided(x, 1000);
    lemma_divided(x, 1_000_000);
    assert(1000nat as real == 1000real && 1_000_000nat as real == 1_000_000real);
    let a = quotient(x, rounded(1000, 1));
    let b = quotient(x, rounded(1_000_000, 1));
    if at_least(x, 1_000_000) {
        assert(iops_text(x) == decimal_text(b, 2) + "M"@);
    } else if at_least(x, 1000) {
        assert(iops_text(x) == decimal_text(a, 1) + "k"@);
    }
}

/// A span of time in microseconds is its nanoseconds divided by a thousand, to
/// within the precision of a double.
pub proof fn law_microseconds_are_nanoseconds_by_a_thousand(nanos: nat)
    ensures
        close(value_of(micros(nanos)), (nanos as real) / 1000real, 12),
{
    let s = seconds(nanos);
    let m = rounded(1_000_000, 1);
    let n = nanos as real;
    let million = 1_000_000real;
    let t = n / 1_000_000_000real;
    law_seconds_are_nanoseconds_by_a_billion(nanos);
    lemma_count_is_close(1_000_000);
    assert(1_000_000nat as real == million);
    lemma_ratio_sign(n, 1_000_000_000real);
    lemma_value_sign(s);
    lemma_value_sign(m);
    law_products_are_close(s, m);
    lemma_close_scales(value_of(s), t, 8, value_of(m));
    lemma_close_scales(value_of(m), million, 1, t);
    lemma_swap(million, t);
    lemma_swap(value_of(m), t);
    let exact = t * million;
    lemma_regroup(t, million, 1000real);
    lemma_is_ratio(exact, n, 1000real);
    lemma_close_follows(exact, t * value_of(m), value_of(s) * value_of(m), 1, 8);
    lemma_close_follows(exact, value_of(s) * value_of(m), value_of(micros(nanos)), 10, 1);
}

/// A latency is shown in microseconds, milliseconds or seconds, in the largest of
/// these that is not above it.
pub proof fn law_latencies_are_shown_in_a_fitting_unit(nanos: nat)
    requires
        micros(nanos).mant > 0,
    ensures
        ({
            let us = micros(nanos);
            &&& !at_least(us, 1000) ==> latency_text(nanos) == decimal_text(us, 0) + " µs"@
            &&& at_least(us, 1000) && !at_least(us, 1_000_000) ==> exists|v: Dyadic|
                latency_text(nanos) == #[trigger] decimal_text(v, 2) + " ms"@ && close(
                    value_of(v) * 1000real,
                    value_of(us),
                    5,
                )
            &&& at_least(us, 1000) && at_least(us, 1_000_000) ==> exists|v: Dyadic|
                latency_text(nanos) == #[trigger] decimal_text(v, 2) + " s"@ && close(
                    value_of(v) * 1_000_000real,
                    value_of(us),
                    5,
                )
        }),
{
    let us = micros(nanos);
    lemma_divided(us, 1000);
    lemma_divided(us, 1_000_000);
    assert(1000nat as real == 1000real && 1_000_000nat as real == 1_000_000real);
    let a = quotient(us, rounded(1000, 1));
    let b = quotient(us, rounded(1_000_000, 1));
    if at_least(us, 1000) && !at_least(us, 1_000_000) {
        assert(latency_text(nanos) == decimal_text(a, 2) + " ms"@);
    } else if at_least(us, 1000) {
        assert(latency_text(nanos) == decimal_text(b, 2) + " s"@);
    }
}

/// A span of time is shown in seconds, to a tenth.
pub proof fn law_spans_are_shown_to_a_tenth(nanos: nat)
    ensures
        exists|v: Dyadic|
            secs_text(nanos) == #[trigger] decimal_text(v, 1) + "s"@ && close(
                value_of(v),
                (nanos as real) / 1_000_000_000real,
                8,
            ),
{
    law_seconds_are_nanoseconds_by_a_billion(nanos);
    assert(secs_text(nanos) == decimal_text(seconds(nanos), 1) + "s"@);
}

/// What was not measured is shown as a dash.
pub proof fn law_nothing_is_shown_as_a_dash(x: Dyadic)
    requires
        x.mant == 0,
    ensures
        rate_text(x) == "—"@,
        iops_text(x) == "—"@,
        latency_text(0) == "—"@,
{
    assert(seconds(0).mant == 0) by {
        assert(rounded(0, 1).mant == 0);
    }
}

} // verus!
