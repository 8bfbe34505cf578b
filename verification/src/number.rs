//! Decimal and octal forms of unsigned numbers.

use vstd::prelude::*;

use crate::text::chars;

verus! {

/// The character of a decimal digit.
pub open spec fn digit(d: nat) -> char {
    ((48 + d) as u32) as char
}

/// The decimal digits of a number, most significant first.
pub open spec fn decimal(n: nat) -> Seq<char>
    decreases n,
{
    if n < 10 {
        seq![digit(n)]
    } else {
        decimal(n / 10).push(digit(n % 10))
    }
}

/// The character of one decimal digit.
fn digit_char(d: u8) -> (r: char)
    requires
        d < 10,
    ensures
        r == digit(d as nat),
{
    (48 + d) as char
}

/// Append a number in decimal.
pub fn push_decimal(out: &mut String, n: u128)
    ensures
        final(out)@ == old(out)@ + decimal(n as nat),
    decreases n,
{
    if n >= 10 {
        push_decimal(out, n / 10);
    }
    out.push(digit_char((n % 10) as u8));
    assert(out@ =~= old(out)@ + decimal(n as nat));
}

/// Ten to the power of `k`.
pub open spec fn tens(k: nat) -> nat
    decreases k,
{
    if k == 0 {
        1
    } else {
        10 * tens((k - 1) as nat)
    }
}

/// The last `places` decimal digits of a number.
pub open spec fn last_digits(n: nat, places: nat) -> Seq<char>
    decreases places,
{
    if places == 0 {
        Seq::empty()
    } else {
        last_digits(n / 10, (places - 1) as nat).push(digit(n % 10))
    }
}

/// `n / 10^places` in decimal, with exactly that many digits after the point.
pub open spec fn fixed(n: nat, places: nat) -> Seq<char> {
    if places == 0 {
        decimal(n)
    } else {
        decimal(n / tens(places)) + seq!['.'] + last_digits(n, places)
    }
}

/// Append the last decimal digits of a number.
fn push_last_digits(out: &mut String, n: u128, places: u64)
    ensures
        final(out)@ == old(out)@ + last_digits(n as nat, places as nat),
    decreases places,
{
    if places > 0 {
        push_last_digits(out, n / 10, places - 1);
        out.push(digit_char((n % 10) as u8));
    }
    assert(out@ =~= old(out)@ + last_digits(n as nat, places as nat));
}

/// Append `n / 10^places` with that many digits after the point.
pub fn push_fixed(out: &mut String, n: u128, places: u64)
    requires
        places <= 3,
    ensures
        final(out)@ == old(out)@ + fixed(n as nat, places as nat),
{
    proof {
        reveal_with_fuel(tens, 4);
    }
    if places == 0 {
        push_decimal(out, n);
    } else {
        let scale: u128 = if places == 1 {
            10
        } else if places == 2 {
            100
        } else {
            1000
        };
        push_decimal(out, n / scale);
        out.push('.');
        push_last_digits(out, n, places);
    }
    assert(out@ =~= old(out)@ + fixed(n as nat, places as nat));
}

/// A number in decimal.
pub fn number(n: u64) -> (r: String)
    ensures
        r@ == decimal(n as nat),
{
    let mut out = String::new();
    push_decimal(&mut out, n as u128);
    assert(out@ =~= decimal(n as nat));
    out
}

/// Whether a character is a digit in a base of at most ten.
pub open spec fn is_digit(c: char, base: nat) -> bool {
    48 <= c as u32 && (c as u32) < 48 + base
}

/// Whether every character is a digit.
pub open spec fn all_digits(s: Seq<char>, base: nat) -> bool {
    forall|i: int| 0 <= i < s.len() ==> is_digit(#[trigger] s[i], base)
}

/// The value of a run of digits.
pub open spec fn value(s: Seq<char>, base: nat) -> nat
    decreases s.len(),
{
    if s.len() == 0 {
        0
    } else {
        value(s.drop_last(), base) * base + (s.last() as u32 - 48) as nat
    }
}

/// The number that a text writes: digits, at least one, after an optional
/// plus sign.
pub open spec fn unsigned(s: Seq<char>, base: nat) -> Option<nat> {
    let body = if s.len() > 0 && s[0] == '+' {
        s.drop_first()
    } else {
        s
    };
    if body.len() > 0 && all_digits(body, base) {
        Some(value(body, base))
    } else {
        None
    }
}

/// The number that a text writes, where it does not exceed a limit.
pub open spec fn unsigned_within(s: Seq<char>, base: nat, max: nat) -> Option<nat> {
    match unsigned(s, base) {
        Some(v) => if v <= max {
            Some(v)
        } else {
            None
        },
        None => None,
    }
}

proof fn lemma_value_grows(s: Seq<char>, base: nat, i: int)
    requires
        0 <= i <= s.len(),
        base >= 1,
    ensures
        value(s.take(i), base) <= value(s, base),
    decreases s.len() - i,
{
    if i < s.len() {
        lemma_value_grows(s, base, i + 1);
        assert(s.take(i + 1).drop_last() =~= s.take(i));
        assert(value(s.take(i), base) * base >= value(s.take(i), base)) by (nonlinear_arith)
            requires
                base >= 1,
        ;
    } else {
        assert(s.take(i) =~= s);
    }
}

/// Read an unsigned number in a base of at most ten. `None` where the text is
/// no number or the number exceeds `max`.
pub fn parse_unsigned(s: &str, base: u64, max: u64) -> (r: Option<u64>)
    requires
        2 <= base <= 10,
    ensures
        match r {
            Some(v) => unsigned_within(s@, base as nat, max as nat) == Some(v as nat),
            None => unsigned_within(s@, base as nat, max as nat) is None,
        },
{
    let v = chars(s);
    let from: usize = if v.len() > 0 && v[0] == '+' { 1 } else { 0 };
    let ghost body = s@.skip(from as int);
    assert(from == 1 ==> body =~= s@.drop_first());
    assert(from == 0 ==> body =~= s@);
    if from == v.len() {
        return None;
    }
    let mut total: u64 = 0;
    let mut i: usize = from;
    assert(body.take(0) =~= Seq::<char>::empty());
    while i < v.len()
        invariant
            from <= i <= v@.len(),
            v@ == s@,
            body == s@.skip(from as int),
            body.len() > 0,
            2 <= base <= 10,
            all_digits(body.take(i - from), base as nat),
            total == value(body.take(i - from), base as nat),
            total <= max,
            from == 1 ==> body == s@.drop_first() && s@.len() > 0 && s@[0] == '+',
            from == 0 ==> body == s@ && !(s@.len() > 0 && s@[0] == '+'),
            from <= 1,
        decreases v@.len() - i,
    {
        let c: u32 = v[i] as u32;
        let ghost k = i - from;
        assert(body[k] == v@[i as int]);
        if c < 48 || c as u64 >= 48 + base {
            assert(!is_digit(body[k], base as nat));
            return None;
        }
        assert(total * base <= u64::MAX * 10) by (nonlinear_arith)
            requires
                total <= u64::MAX,
                base <= 10,
        ;
        let next: u128 = total as u128 * base as u128 + (c - 48) as u128;
        proof {
            assert(body.take(k + 1).drop_last() =~= body.take(k));
            assert(next == value(body.take(k + 1), base as nat));
            lemma_value_grows(body, base as nat, k + 1);
            assert forall|j: int| 0 <= j < k + 1 implies is_digit(
                #[trigger] body.take(k + 1)[j],
                base as nat,
            ) by {
                if j < k {
                    assert(body.take(k + 1)[j] == body.take(k)[j]);
                }
            }
        }
        if next > max as u128 {
            return None;
        }
        total = next as u64;
        i += 1;
    }
    assert(body.take(body.len() as int) =~= body);
    Some(total)
}

proof fn lemma_digit(d: nat)
    requires
        d < 10,
    ensures
        digit(d) as u32 == 48 + d,
        is_digit(digit(d), 10),
        digit(d) != '+',
{
}

proof fn lemma_decimal_digits(n: nat)
    ensures
        decimal(n).len() > 0,
        all_digits(decimal(n), 10),
        value(decimal(n), 10) == n,
        decimal(n)[0] != '+',
    decreases n,
{
    lemma_digit(n % 10);
    if n < 10 {
        assert(decimal(n).drop_last() =~= Seq::<char>::empty());
        assert(value(Seq::<char>::empty(), 10) == 0);
    } else {
        lemma_decimal_digits(n / 10);
        let s = decimal(n);
        assert(s.drop_last() =~= decimal(n / 10));
        assert(s[0] == decimal(n / 10)[0]);
        assert forall|i: int| 0 <= i < s.len() implies is_digit(#[trigger] s[i], 10) by {
            if i < s.len() - 1 {
                assert(s[i] == decimal(n / 10)[i]);
            }
        }
    }
}

/// A number that is written in decimal is read back as it was.
pub proof fn law_decimals_read_back(n: nat)
    ensures
        unsigned(decimal(n), 10) == Some(n),
        decimal(n).len() > 0,
        all_digits(decimal(n), 10),
        n > 0 ==> decimal(n)[0] != '0',
    decreases n,
{
    lemma_decimal_digits(n);
    if n >= 10 {
        law_decimals_read_back(n / 10);
        lemma_decimal_digits(n / 10);
        assert(decimal(n)[0] == decimal(n / 10)[0]);
    } else {
        lemma_digit(n);
        assert('0' as u32 == 48);
    }
}

proof fn lemma_last_digits(n: nat, places: nat)
    ensures
        last_digits(n, places).len() == places,
        all_digits(last_digits(n, places), 10),
        value(last_digits(n, places), 10) == n % tens(places),
        tens(places) > 0,
    decreases places,
{
    if places == 0 {
        assert(value(Seq::<char>::empty(), 10) == 0);
    } else {
        let k = (places - 1) as nat;
        lemma_last_digits(n / 10, k);
        lemma_digit(n % 10);
        let s = last_digits(n, places);
        assert(s.drop_last() =~= last_digits(n / 10, k));
        assert forall|i: int| 0 <= i < s.len() implies is_digit(#[trigger] s[i], 10) by {
            if i < s.len() - 1 {
                assert(s[i] == last_digits(n / 10, k)[i]);
            }
        }
        vstd::arithmetic::div_mod::lemma_breakdown(n as int, 10, tens(k) as int);
    }
}

/// A number with digits behind the point is written as its whole part, a point,
/// and just as many digits as were asked for; read as one number without the
/// point, they are the number that was to be written.
pub proof fn law_fixed_numbers_read_back(n: nat, places: nat)
    requires
        places > 0,
    ensures
        ({
            let whole = decimal(n / tens(places));
            let s = fixed(n, places);
            &&& s.len() == whole.len() + 1 + places
            &&& s.take(whole.len() as int) == whole
            &&& s[whole.len() as int] == '.'
            &&& all_digits(s.skip(whole.len() + 1int), 10)
            &&& value(whole, 10) * tens(places) + value(s.skip(whole.len() + 1int), 10) == n
        }),
{
    let whole = decimal(n / tens(places));
    let s = fixed(n, places);
    lemma_last_digits(n, places);
    lemma_decimal_digits(n / tens(places));
    assert(s.take(whole.len() as int) =~= whole);
    assert(s.skip(whole.len() + 1int) =~= last_digits(n, places));
    vstd::arithmetic::div_mod::lemma_fundamental_div_mod(n as int, tens(places) as int);
    let t = tens(places) as int;
    assert((n as int / t) * t == t * (n as int / t)) by (nonlinear_arith);
}

/// Only digits are read as a number, behind one plus sign at most: anything else
/// is refused, and so is a number past the limit.
pub proof fn law_only_digits_are_numbers(s: Seq<char>, base: nat, max: nat, i: int)
    requires
        1 <= base <= 10,
        0 <= i < s.len(),
        !is_digit(s[i], base),
    ensures
        i > 0 || s[0] != '+' ==> unsigned_within(s, base, max) is None,
        unsigned_within(Seq::empty(), base, max) is None,
        unsigned_within(seq!['+'], base, max) is None,
        unsigned_within(s, base, max) matches Some(v) ==> v <= max,
{
    assert('+' as u32 == 43);
    if i > 0 && s[0] == '+' {
        assert(s.drop_first()[i - 1] == s[i]);
    }
    assert(seq!['+'].drop_first() =~= Seq::<char>::empty());
}

} // verus!
