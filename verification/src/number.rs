//! Decimal numbers in text, read as the nearest binary number.
use crate::bignat::BigNat;
use crate::binary64::{
    half_even, lemma_round_overflows, one, overflow_units, round_units, rounded, Binary64, Num,
};
use crate::text::{
    alike, digit, digits, digits_value, is_alike, is_digit, leading, lemma_leading,
    lemma_leading_is, value_of_digit,
};
use vstd::arithmetic::power2::{
    lemma2_to64, lemma_pow2_adds, lemma_pow2_pos, lemma_pow2_strictly_increases, pow2,
};
use vstd::prelude::*;
use vstd::slice::slice_subrange;

verus! {

/// Ten to the power `n`.
pub open spec fn tens(n: nat) -> nat
    decreases n,
{
    if n == 0 {
        1
    } else {
        10 * tens((n - 1) as nat)
    }
}

/// The number nearest to `digits` times ten to the power `exponent`.
pub open spec fn scaled(negative: bool, digits: nat, exponent: int) -> Num {
    if exponent >= 0 {
        rounded(negative, digits * tens(exponent as nat) * one(), 1)
    } else {
        rounded(negative, digits * one(), tens((-exponent) as nat))
    }
}

/// Digits and nothing else.
pub open spec fn all_digits(s: Seq<char>) -> bool {
    leading(s, digits()) == s.len()
}

/// The test for what stands before an exponent.
pub open spec fn before_exponent() -> spec_fn(char) -> bool {
    |c: char| c != 'e' && c != 'E'
}

/// A sign at the start of a text.
pub open spec fn has_sign(s: Seq<char>) -> bool {
    s.len() > 0 && (s[0] == '+' || s[0] == '-')
}

/// The text after its sign, where it has one.
pub open spec fn unsigned_part(s: Seq<char>) -> Seq<char> {
    if has_sign(s) {
        s.skip(1)
    } else {
        s
    }
}

/// A minus sign at the start of a text.
pub open spec fn has_minus(s: Seq<char>) -> bool {
    s.len() > 0 && s[0] == '-'
}

/// An exponent as written: a sign or none, then digits.
pub open spec fn written_exponent(s: Seq<char>) -> Option<int> {
    let t = unsigned_part(s);
    if t.len() == 0 || !all_digits(t) {
        None
    } else if has_minus(s) {
        Some(-(digits_value(t) as int))
    } else {
        Some(digits_value(t) as int)
    }
}

/// A decimal number without a sign: digits with at most one point among them, at least one
/// digit, and an exponent or none.
pub open spec fn plain_number(s: Seq<char>, negative: bool) -> Option<Num> {
    let n = leading(s, before_exponent());
    let m = s.take(n as int);
    let p = leading(m, digits());
    let whole = m.take(p as int);
    let fraction = if p < m.len() {
        m.skip((p + 1) as int)
    } else {
        seq![]
    };
    let exponent = if n < s.len() {
        written_exponent(s.skip((n + 1) as int))
    } else {
        Some(0)
    };
    if p < m.len() && m[p as int] != '.' {
        None
    } else if !all_digits(fraction) || whole.len() + fraction.len() == 0 {
        None
    } else {
        match exponent {
            None => None,
            Some(e) => Some(scaled(negative, digits_value(whole + fraction), e - fraction.len())),
        }
    }
}

/// The number that a text stands for, if it is one.
pub open spec fn written_number(s: Seq<char>) -> Option<Num> {
    let body = unsigned_part(s);
    if alike(body, "inf"@) || alike(body, "infinity"@) {
        Some(Num::Infinite { negative: has_minus(s) })
    } else if alike(body, "nan"@) {
        Some(Num::NotANumber)
    } else {
        plain_number(body, has_minus(s))
    }
}

/// A power of ten is positive.
pub proof fn lemma_tens_positive(n: nat)
    ensures
        tens(n) > 0,
    decreases n,
{
    if n > 0 {
        lemma_tens_positive((n - 1) as nat);
    }
}

/// Exponents add up.
proof fn lemma_tens_add(a: nat, b: nat)
    ensures
        tens(a + b) == tens(a) * tens(b),
    decreases a,
{
    if a > 0 {
        lemma_tens_add((a - 1) as nat, b);
        assert(tens(a + b) == 10 * tens((a - 1 + b) as nat));
        assert(10 * (tens((a - 1) as nat) * tens(b)) == (10 * tens((a - 1) as nat)) * tens(b))
            by (nonlinear_arith);
    } else {
        assert(1 * tens(b) == tens(b));
    }
}

/// A power of ten exceeds the power of two with three times its exponent.
proof fn lemma_tens_exceed(n: nat)
    ensures
        tens(n) >= pow2(3 * n),
    decreases n,
{
    lemma2_to64();
    if n > 0 {
        lemma_tens_exceed((n - 1) as nat);
        lemma_pow2_adds(3, (3 * (n - 1)) as nat);
        assert(3 + 3 * (n - 1) == 3 * n);
    }
}

/// So many digits stay below that power of ten.
pub proof fn lemma_digits_below(s: Seq<char>)
    requires
        forall|i: int| 0 <= i < s.len() ==> is_digit(#[trigger] s[i]),
    ensures
        digits_value(s) < tens(s.len()),
    decreases s.len(),
{
    if s.len() > 0 {
        let t = s.drop_last();
        assert forall|i: int| 0 <= i < t.len() implies is_digit(#[trigger] t[i]) by {
            assert(t[i] == s[i]);
        }
        lemma_digits_below(t);
        assert(is_digit(s[s.len() - 1]));
    }
}

/// Less than half a unit rounds to nothing.
proof fn lemma_round_vanishes(num: nat, den: nat)
    requires
        2 * num < den,
    ensures
        round_units(num, den) == 0,
{
    lemma2_to64();
    lemma_pow2_pos(53);
    assert(num < den * pow2(53)) by (nonlinear_arith)
        requires
            num < den,
            pow2(53) >= 1,
    ;
    assert(den * pow2(0) == den) by (nonlinear_arith)
        requires
            pow2(0) == 1,
    ;
    vstd::arithmetic::div_mod::lemma_basic_div(num as int, den as int);
    vstd::arithmetic::div_mod::lemma_small_mod(num, den);
    assert(half_even(num, den) == 0);
    assert(0 * pow2(0) == 0) by (nonlinear_arith);
}

/// With so large an exponent the number is past the format's end.
proof fn lemma_scaled_overflows(negative: bool, d: nat, e: int)
    requires
        d > 0,
        e >= 400,
    ensures
        scaled(negative, d, e) == (Num::Infinite { negative }),
{
    let n = e as nat;
    lemma_tens_exceed(n);
    if 3 * n > 1200 {
        lemma_pow2_strictly_increases(1200, 3 * n);
    }
    lemma_pow2_adds(1200, 1074);
    lemma_pow2_strictly_increases(2098, 2274);
    let t = tens(n);
    assert(d * t * one() >= pow2(1200) * one()) by (nonlinear_arith)
        requires
            d >= 1,
            t >= pow2(1200),
            one() >= 0,
    ;
    let num = d * t * one();
    assert(1 * overflow_units() == overflow_units());
    lemma_round_overflows(num, 1);
}

/// With so small an exponent the number is less than half a unit.
proof fn lemma_scaled_vanishes(negative: bool, d: nat, n: nat, e: int)
    requires
        d < tens(n),
        n + e <= -400,
    ensures
        scaled(negative, d, e) == (Num::Finite { negative, units: 0 }),
{
    let m = (-e) as nat;
    let extra = (m - n) as nat;
    lemma_tens_add(n, extra);
    lemma_tens_exceed(extra);
    if 3 * extra > 1200 {
        lemma_pow2_strictly_increases(1200, 3 * extra);
    }
    lemma2_to64();
    lemma_pow2_adds(1, 1074);
    lemma_pow2_strictly_increases(1075, 1200);
    lemma_pow2_pos(2098);
    lemma_tens_positive(n);
    assert(2 * (d * one()) < tens(n) * tens(extra)) by (nonlinear_arith)
        requires
            d < tens(n),
            2 * one() < tens(extra),
    ;
    lemma_round_vanishes(d * one(), tens(m));
}

/// What a run of digits stands for, as a natural number of any size.
fn digits_number(chars: &[char]) -> (r: BigNat)
    requires
        forall|i: int| 0 <= i < chars@.len() ==> is_digit(#[trigger] chars@[i]),
    ensures
        r@ == digits_value(chars@),
{
    let mut r: BigNat = BigNat::from_u64(0);
    let mut i: usize = 0;
    while i < chars.len()
        invariant
            i <= chars@.len(),
            forall|j: int| 0 <= j < chars@.len() ==> is_digit(#[trigger] chars@[j]),
            r@ == digits_value(chars@.take(i as int)),
        decreases chars@.len() - i,
    {
        let d: u64 = value_of_digit(chars[i]);
        r = r.times_plus(10, d as u32);
        proof {
            assert(chars@.take(i + 1).drop_last() =~= chars@.take(i as int));
            assert(chars@.take(i + 1).last() == chars@[i as int]);
        }
        i = i + 1;
    }
    proof {
        assert(chars@.take(chars@.len() as int) =~= chars@);
    }
    r
}

/// Ten to the power `n`, as a natural number of any size.
fn power_of_ten(n: u128) -> (r: BigNat)
    ensures
        r@ == tens(n as nat),
{
    let mut r: BigNat = BigNat::from_u64(1);
    let mut i: u128 = 0;
    while i < n
        invariant
            i <= n,
            r@ == tens(i as nat),
        decreases n - i,
    {
        r = r.times_plus(10, 0);
        i = i + 1;
    }
    r
}

/// The number nearest to the digits times ten to the power `exponent`.
fn nearest_decimal(negative: bool, chars: &[char], exponent: i128) -> (r: Binary64)
    requires
        forall|i: int| 0 <= i < chars@.len() ==> is_digit(#[trigger] chars@[i]),
        -0x1000_0000_0000_0000_0000_0000 <= exponent <= 0x1000_0000_0000_0000_0000_0000,
    ensures
        r@ == scaled(negative, digits_value(chars@), exponent as int),
{
    let d: BigNat = digits_number(chars);
    let n: i128 = chars.len() as i128;
    proof {
        lemma_digits_below(chars@);
        lemma_pow2_pos(1074);
        lemma_pow2_pos(2098);
    }
    if !BigNat::from_u64(0).less_than(&d) {
        proof {
            if exponent >= 0 {
                assert(0 * tens(exponent as nat) * one() == 0) by (nonlinear_arith);
                lemma_round_vanishes(0, 1);
            } else {
                assert(0 * one() == 0) by (nonlinear_arith);
                lemma_tens_positive((-exponent) as nat);
                lemma_round_vanishes(0, tens((-exponent) as nat));
            }
        }
        return Binary64::zero(negative);
    }
    if exponent >= 400 {
        proof {
            lemma_scaled_overflows(negative, d@, exponent as int);
        }
        return Binary64::infinite(negative);
    }
    if n + exponent <= -400 {
        proof {
            lemma_scaled_vanishes(negative, d@, chars@.len(), exponent as int);
        }
        return Binary64::zero(negative);
    }
    if exponent >= 0 {
        // At most 400 factors of ten.
        let t: BigNat = times_power_of_ten(&d, exponent as u128);
        Binary64::nearest(negative, &t.times_pow2(1074), &BigNat::from_u64(1))
    } else {
        proof {
            lemma_tens_positive((-exponent) as nat);
        }
        Binary64::nearest(negative, &d.times_pow2(1074), &power_of_ten((-exponent) as u128))
    }
}

/// A natural number times ten to the power `n`.
fn times_power_of_ten(d: &BigNat, n: u128) -> (r: BigNat)
    ensures
        r@ == d@ * tens(n as nat),
{
    let mut r: BigNat = d.duplicate();
    let mut i: u128 = 0;
    proof {
        assert(d@ * tens(0) == d@) by (nonlinear_arith)
            requires
                tens(0) == 1,
        ;
    }
    while i < n
        invariant
            i <= n,
            r@ == d@ * tens(i as nat),
        decreases n - i,
    {
        r = r.times_plus(10, 0);
        proof {
            assert(d@ * tens(i as nat) * 10 == d@ * (10 * tens(i as nat))) by (nonlinear_arith);
        }
        i = i + 1;
    }
    r
}

/// An exponent no number of digits can make up for.
pub const EXPONENT_CAP: i128 = 100_000_000_000_000_000_000;

/// An exponent, held to the cap.
pub open spec fn capped(e: int) -> int {
    if e > EXPONENT_CAP {
        EXPONENT_CAP as int
    } else if e < -EXPONENT_CAP {
        -(EXPONENT_CAP as int)
    } else {
        e
    }
}

/// How many digits stand at the start.
fn digits_length(chars: &[char]) -> (n: usize)
    ensures
        n == leading(chars@, digits()),
        n <= chars@.len(),
{
    let mut i: usize = 0;
    while i < chars.len() && digit(chars[i])
        invariant
            i <= chars@.len(),
            forall|j: int| 0 <= j < i ==> digits()(#[trigger] chars@[j]),
        decreases chars@.len() - i,
    {
        i = i + 1;
    }
    proof {
        lemma_leading_is(chars@, digits(), i as nat);
    }
    i
}

/// Reading more digits never makes a number smaller.
proof fn lemma_digits_grow(s: Seq<char>, i: int)
    requires
        0 <= i <= s.len(),
    ensures
        digits_value(s.take(i)) <= digits_value(s),
    decreases s.len() - i,
{
    if i < s.len() {
        lemma_digits_grow(s, i + 1);
        assert(s.take(i + 1).drop_last() =~= s.take(i));
    } else {
        assert(s.take(i) =~= s);
    }
}

/// The value of digits, held to the cap.
fn capped_digits(chars: &[char]) -> (r: i128)
    requires
        forall|i: int| 0 <= i < chars@.len() ==> is_digit(#[trigger] chars@[i]),
    ensures
        r == capped(digits_value(chars@) as int),
        r >= 0,
{
    let mut r: i128 = 0;
    let mut i: usize = 0;
    while i < chars.len()
        invariant
            i <= chars@.len(),
            forall|j: int| 0 <= j < chars@.len() ==> is_digit(#[trigger] chars@[j]),
            0 <= r <= EXPONENT_CAP,
            r == digits_value(chars@.take(i as int)),
        decreases chars@.len() - i,
    {
        let d: u64 = value_of_digit(chars[i]);
        proof {
            assert(chars@.take(i + 1).drop_last() =~= chars@.take(i as int));
            assert(chars@.take(i + 1).last() == chars@[i as int]);
        }
        r = 10 * r + d as i128;
        i = i + 1;
        if r > EXPONENT_CAP {
            proof {
                lemma_digits_grow(chars@, i as int);
            }
            return EXPONENT_CAP;
        }
    }
    proof {
        assert(chars@.take(chars@.len() as int) =~= chars@);
    }
    r
}

/// An exponent as written, held to the cap.
fn parse_exponent(chars: &[char]) -> (r: Option<i128>)
    ensures
        match r {
            Some(e) => written_exponent(chars@) is Some && e == capped(
                written_exponent(chars@)->0,
            ),
            None => written_exponent(chars@) is None,
        },
{
    let start: usize = if chars.len() > 0 && (chars[0] == '+' || chars[0] == '-') {
        1
    } else {
        0
    };
    let rest: &[char] = slice_subrange(chars, start, chars.len());
    proof {
        assert(rest@ =~= unsigned_part(chars@));
        lemma_leading(rest@, digits());
    }
    if rest.len() == 0 || digits_length(rest) != rest.len() {
        return None;
    }
    proof {
        assert forall|i: int| 0 <= i < rest@.len() implies is_digit(#[trigger] rest@[i]) by {
            assert(digits()(rest@[i]));
        }
    }
    let e: i128 = capped_digits(rest);
    if chars[0] == '-' {
        Some(-e)
    } else {
        Some(e)
    }
}

/// Past the caps, capping the exponent does not change the number.
proof fn lemma_capped_scaled(negative: bool, d: nat, n: nat, e: int, f: nat)
    requires
        d < tens(n),
        n <= usize::MAX,
        f <= usize::MAX,
    ensures
        scaled(negative, d, capped(e) - f) == scaled(negative, d, e - f),
{
    if d == 0 {
        lemma_scaled_zero(negative, capped(e) - f);
        lemma_scaled_zero(negative, e - f);
    } else if e > EXPONENT_CAP {
        lemma_scaled_overflows(negative, d, capped(e) - f);
        lemma_scaled_overflows(negative, d, e - f);
    } else if e < -EXPONENT_CAP {
        lemma_scaled_vanishes(negative, d, n, capped(e) - f);
        lemma_scaled_vanishes(negative, d, n, e - f);
    }
}

/// Nothing scaled is nothing.
proof fn lemma_scaled_zero(negative: bool, e: int)
    ensures
        scaled(negative, 0, e) == (Num::Finite { negative, units: 0 }),
{
    lemma_pow2_pos(2098);
    if e >= 0 {
        assert(0 * tens(e as nat) * one() == 0) by (nonlinear_arith);
        lemma_round_vanishes(0, 1);
    } else {
        assert(0 * one() == 0) by (nonlinear_arith);
        lemma_tens_positive((-e) as nat);
        lemma_round_vanishes(0, tens((-e) as nat));
    }
}

/// The characters of the two texts, one after the other.
fn concatenated(a: &[char], b: &[char]) -> (r: Vec<char>)
    ensures
        r@ == a@ + b@,
{
    let mut r: Vec<char> = Vec::new();
    let mut i: usize = 0;
    while i < a.len()
        invariant
            i <= a@.len(),
            r@ =~= a@.take(i as int),
        decreases a@.len() - i,
    {
        r.push(a[i]);
        i = i + 1;
    }
    let mut j: usize = 0;
    while j < b.len()
        invariant
            j <= b@.len(),
            r@ =~= a@ + b@.take(j as int),
        decreases b@.len() - j,
    {
        r.push(b[j]);
        j = j + 1;
    }
    proof {
        assert(r@ =~= a@ + b@);
    }
    r
}

/// A decimal number without a sign.
#[verifier::rlimit(40)]
fn parse_plain(chars: &[char], negative: bool) -> (r: Option<Binary64>)
    ensures
        match r {
            Some(x) => plain_number(chars@, negative) == Some(x@),
            None => plain_number(chars@, negative) is None,
        },
{
    let mut n: usize = 0;
    while n < chars.len() && chars[n] != 'e' && chars[n] != 'E'
        invariant
            n <= chars@.len(),
            forall|j: int| 0 <= j < n ==> before_exponent()(#[trigger] chars@[j]),
        decreases chars@.len() - n,
    {
        n = n + 1;
    }
    let m: &[char] = slice_subrange(chars, 0, n);
    let p: usize = digits_length(m);
    proof {
        lemma_leading_is(chars@, before_exponent(), n as nat);
        assert(m@ =~= chars@.take(n as int));
        lemma_leading(m@, digits());
    }
    if p < m.len() && m[p] != '.' {
        return None;
    }
    let whole: &[char] = slice_subrange(m, 0, p);
    let fraction: &[char] = slice_subrange(
        m,
        if p < m.len() {
            p + 1
        } else {
            p
        },
        m.len(),
    );
    let ghost spec_fraction = if p < m@.len() {
        m@.skip((p + 1) as int)
    } else {
        seq![]
    };
    proof {
        assert(whole@ =~= m@.take(p as int));
        assert(fraction@ =~= spec_fraction);
        lemma_leading(fraction@, digits());
    }
    if digits_length(fraction) != fraction.len() || (whole.len() == 0 && fraction.len() == 0) {
        return None;
    }
    let exponent: i128 = if n < chars.len() {
        let tail: &[char] = slice_subrange(chars, n + 1, chars.len());
        proof {
            assert(tail@ =~= chars@.skip((n + 1) as int));
        }
        match parse_exponent(tail) {
            Some(e) => e,
            None => {
                return None;
            },
        }
    } else {
        0
    };
    let all: Vec<char> = concatenated(whole, fraction);
    proof {
        assert forall|k: int| 0 <= k < all@.len() implies is_digit(#[trigger] all@[k]) by {
            if k < p {
                assert(digits()(m@[k]));
            } else {
                assert(digits()(fraction@[k - p]));
            }
        }
        lemma_digits_below(all@);
        let e = if n < chars@.len() {
            written_exponent(chars@.skip((n + 1) as int))->0
        } else {
            0
        };
        lemma_capped_scaled(negative, digits_value(all@), all@.len(), e, fraction@.len());
    }
    Some(nearest_decimal(negative, all.as_slice(), exponent - fraction.len() as i128))
}

/// The number that a text stands for, if it is one.
pub fn parse_number(chars: &[char]) -> (r: Option<Binary64>)
    ensures
        match r {
            Some(x) => written_number(chars@) == Some(x@),
            None => written_number(chars@) is None,
        },
{
    let signed: bool = chars.len() > 0 && (chars[0] == '+' || chars[0] == '-');
    let negative: bool = chars.len() > 0 && chars[0] == '-';
    let body: &[char] = slice_subrange(
        chars,
        if signed {
            1
        } else {
            0
        },
        chars.len(),
    );
    proof {
        assert(body@ =~= unsigned_part(chars@));
    }
    if is_alike(body, "inf") || is_alike(body, "infinity") {
        Some(Binary64::infinite(negative))
    } else if is_alike(body, "nan") {
        Some(Binary64::not_a_number())
    } else {
        parse_plain(body, negative)
    }
}

} // verus!
