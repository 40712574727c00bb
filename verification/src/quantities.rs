//! What holds of quantities as they are written: whole ones are exact, and neither white space
//! around them nor the case of their units matters.
use crate::binary64::{
    below, half_even, lemma_half_even_whole, lemma_round_exact, lemma_round_monotone,
    lemma_spacing_bounds, lemma_whole_exact, one, overflow_units, product, quotient, ratio,
    round_units, spacing, whole_u64, Num,
};
use crate::duration::{seconds, span_of, NANOS_PER_SEC};
use crate::limits::{
    bytes_in, cpu_cores, human_span, memory_amount, quantity_number, quantity_unit, seconds_in,
    MemoryAmount,
};
use crate::number::{
    all_digits, before_exponent, has_minus, lemma_tens_positive, plain_number, scaled, tens,
    unsigned_part, written_number,
};
use crate::text::{
    alike, decimal, digit_value, digits, digits_and_points, digits_value, is_digit, is_space,
    leading, lemma_leading, lemma_leading_is, lemma_trailing_is, lower, lowered, spaces, trailing,
    trimmed, trimmed_start,
};
use vstd::arithmetic::power2::{
    lemma2_to64, lemma2_to64_rest, lemma_pow2_adds, lemma_pow2_pos, lemma_pow2_strictly_increases,
    pow2,
};
use vstd::prelude::*;

verus! {

/// A whole number written in decimal is made of digits, and reads as itself.
pub proof fn law_decimals_read_as_themselves(n: nat)
    ensures
        decimal(n).len() > 0,
        forall|i: int| 0 <= i < decimal(n).len() ==> is_digit(#[trigger] decimal(n)[i]),
        digits_value(decimal(n)) == n,
    decreases n,
{
    if n < 10 {
        assert(decimal(n).drop_last() =~= seq![]);
        assert(digits_value(decimal(n).drop_last()) == 0);
        assert(digits_value(decimal(n)) == 10 * digits_value(decimal(n).drop_last()) + digit_value(
            decimal(n).last(),
        ));
    } else {
        law_decimals_read_as_themselves(n / 10);
        assert(decimal(n).drop_last() =~= decimal(n / 10));
        assert(digits_value(decimal(n)) == 10 * digits_value(decimal(n / 10)) + digit_value(
            decimal(n).last(),
        ));
    }
}

/// A text of digits is no spelt-out number.
proof fn lemma_digits_are_not_spelt_out(s: Seq<char>)
    requires
        s.len() > 0,
        is_digit(s[0]),
    ensures
        !alike(s, "inf"@),
        !alike(s, "infinity"@),
        !alike(s, "nan"@),
        !alike(s, "auto"@),
{
    reveal_strlit("inf");
    reveal_strlit("infinity");
    reveal_strlit("nan");
    reveal_strlit("auto");
    assert(lowered(s)[0] == s[0]);
    assert(lowered("inf"@)[0] == 'i');
    assert(lowered("infinity"@)[0] == 'i');
    assert(lowered("nan"@)[0] == 'n');
    assert(lowered("auto"@)[0] == 'a');
}

/// A whole number in decimal is read as the number of the format nearest to it.
pub proof fn law_whole_numbers_are_read(n: nat)
    ensures
        written_number(decimal(n)) == Some(ratio(n, 1)),
{
    let s = decimal(n);
    law_decimals_read_as_themselves(n);
    assert(is_digit(s[0]));
    assert(unsigned_part(s) == s);
    lemma_digits_are_not_spelt_out(s);
    assert forall|i: int| 0 <= i < s.len() implies before_exponent()(#[trigger] s[i]) by {
        assert(is_digit(s[i]));
    }
    lemma_leading_is(s, before_exponent(), s.len());
    assert(s.take(s.len() as int) =~= s);
    assert forall|i: int| 0 <= i < s.len() implies digits()(#[trigger] s[i]) by {
        assert(is_digit(s[i]));
    }
    lemma_leading_is(s, digits(), s.len());
    let none: Seq<char> = seq![];
    assert(all_digits(none));
    assert(s + none =~= s);
    assert(n * tens(0) * one() == n * one()) by (nonlinear_arith)
        requires
            tens(0) == 1,
    ;
    assert(scaled(false, n, 0) == ratio(n, 1));
}

/// The product of whole numbers is exact where 53 bits hold it.
pub proof fn lemma_whole_product(a: nat, b: nat)
    requires
        a * b < pow2(53),
        0 < a,
        0 < b,
    ensures
        product(ratio(a, 1), ratio(b, 1)) == ratio(a * b, 1),
        ratio(a * b, 1) == (Num::Finite { negative: false, units: (a * b) * one() }),
{
    lemma_pow2_pos(1074);
    assert(a <= a * b && b <= a * b) by (nonlinear_arith)
        requires
            0 < a,
            0 < b,
    ;
    lemma_whole_exact(a);
    lemma_whole_exact(b);
    lemma_whole_exact(a * b);
    assert((a * one()) * (b * one()) == (a * b) * pow2(1074) * one()) by (nonlinear_arith)
        requires
            one() == pow2(1074),
    ;
    lemma_round_exact(a * b, 1074, one());
}

/// A whole number that 53 bits hold is its own whole part, and no more than a `u64` reaches.
proof fn lemma_whole_fits(n: nat)
    requires
        n < pow2(53),
    ensures
        whole_u64(ratio(n, 1)) == n,
        !below(ratio(u64::MAX as nat, 1), ratio(n, 1)),
        ratio(n, 1) is Finite,
{
    lemma2_to64();
    lemma2_to64_rest();
    lemma_pow2_pos(1074);
    lemma_whole_exact(n);
    vstd::arithmetic::div_mod::lemma_div_by_multiple(n as int, one() as int);
    assert((n * one()) * 1 <= (u64::MAX as nat * one()) * 1) by (nonlinear_arith)
        requires
            n <= u64::MAX,
    ;
    lemma_round_monotone(n * one(), 1, u64::MAX as nat * one(), 1);
}

/// A text that neither begins nor ends with white space is trimmed already.
pub proof fn lemma_trimmed_already(s: Seq<char>)
    requires
        s.len() > 0,
        !is_space(s[0]),
        !is_space(s.last()),
    ensures
        trimmed(s) == s,
{
    lemma_leading_is(s, spaces(), 0);
    assert(s.skip(0) =~= s);
    lemma_trailing_is(s, spaces(), 0);
    assert(s.take(s.len() as int) =~= s);
}

/// A whole number with a unit behind it comes apart where the unit begins.
proof fn lemma_comes_apart(n: nat, unit: Seq<char>)
    requires
        unit.len() > 0 ==> !is_digit(unit[0]) && unit[0] != '.' && !is_space(unit.last()),
    ensures
        ({
            let s = decimal(n) + unit;
            &&& trimmed(s) == s
            &&& quantity_number(s) == decimal(n)
            &&& quantity_unit(s) == lowered(trimmed(unit))
            &&& !alike(s, "auto"@)
            &&& s.len() > 0
            &&& s.last() == if unit.len() > 0 {
                unit.last()
            } else {
                decimal(n).last()
            }
        }),
{
    let d = decimal(n);
    let s = d + unit;
    law_decimals_read_as_themselves(n);
    assert(is_digit(d[0]));
    assert(is_digit(d[d.len() - 1]));
    assert(s[0] == d[0]);
    assert(s.last() == if unit.len() > 0 {
        unit.last()
    } else {
        d.last()
    });
    lemma_trimmed_already(s);
    assert forall|i: int| 0 <= i < d.len() implies digits_and_points()(#[trigger] s[i]) by {
        assert(s[i] == d[i]);
        assert(is_digit(d[i]));
    }
    if unit.len() > 0 {
        assert(s[d.len() as int] == unit[0]);
    }
    lemma_leading_is(s, digits_and_points(), d.len());
    assert(s.take(d.len() as int) =~= d);
    assert(s.skip(d.len() as int) =~= unit);
    lemma_digits_are_not_spelt_out(s);
}

/// No unit of memory ends with a percent sign.
pub proof fn lemma_units_are_no_percentage(unit: Seq<char>)
    requires
        unit.len() > 0,
        bytes_in(unit) is Some,
    ensures
        unit.last() != '%',
{
    reveal_strlit("");
    reveal_strlit("b");
    reveal_strlit("k");
    reveal_strlit("kb");
    reveal_strlit("m");
    reveal_strlit("mb");
    reveal_strlit("g");
    reveal_strlit("gb");
    reveal_strlit("t");
    reveal_strlit("tb");
    reveal_strlit("ki");
    reveal_strlit("kib");
    reveal_strlit("mi");
    reveal_strlit("mib");
    reveal_strlit("gi");
    reveal_strlit("gib");
    reveal_strlit("ti");
    reveal_strlit("tib");
}

/// The last character of a text that does not end with white space stays when it is trimmed.
pub proof fn lemma_trimmed_last(s: Seq<char>)
    requires
        s.len() > 0,
        !is_space(s.last()),
    ensures
        trimmed(s).len() > 0,
        trimmed(s).last() == s.last(),
{
    lemma_leading(s, spaces());
    let n = leading(s, spaces());
    if n == s.len() {
        assert(spaces()(s[s.len() - 1]));
    }
    let t = trimmed_start(s);
    assert(t.last() == s.last());
    lemma_trailing_is(t, spaces(), 0);
    assert(t.take(t.len() as int) =~= t);
}

/// So many of a unit of memory are just that many times its bytes, as long as 53 bits hold the
/// product.
pub proof fn law_whole_sizes_are_exact(n: nat, unit: Seq<char>, bytes: nat)
    requires
        n > 0,
        unit.len() > 0 ==> !is_digit(unit[0]) && unit[0] != '.' && !is_space(unit.last()),
        bytes_in(lowered(trimmed(unit))) == Some(bytes),
        n * bytes < pow2(53),
    ensures
        memory_amount(decimal(n) + unit) == Ok::<MemoryAmount, Seq<char>>(
            MemoryAmount::Bytes((n * bytes) as u64),
        ),
{
    let s = decimal(n) + unit;
    lemma2_to64();
    lemma2_to64_rest();
    lemma_pow2_pos(1074);
    lemma_comes_apart(n, unit);
    law_decimals_read_as_themselves(n);
    if unit.len() > 0 {
        lemma_trimmed_last(unit);
        let plain = lowered(trimmed(unit));
        lemma_units_are_no_percentage(plain);
        assert(plain.last() == lower(unit.last()));
    } else {
        assert(is_digit(decimal(n)[decimal(n).len() - 1]));
    }
    assert(s.last() != '%');
    law_whole_numbers_are_read(n);
    assert(n <= n * bytes) by (nonlinear_arith)
        requires
            0 < bytes,
    ;
    lemma_whole_exact(n);
    assert(n * one() > 0) by (nonlinear_arith)
        requires
            n > 0,
            one() > 0,
    ;
    lemma_whole_product(n, bytes);
    lemma_whole_fits(n * bytes);
}

/// So many seconds, where 53 bits hold them, are just that many nanoseconds.
pub proof fn lemma_whole_span(n: nat)
    requires
        n < pow2(53),
    ensures
        span_of(ratio(n, 1)) == Some(n * NANOS_PER_SEC as nat),
{
    lemma2_to64();
    lemma2_to64_rest();
    lemma_pow2_pos(1074);
    lemma_whole_exact(n);
    assert(n * one() < pow2(64) * one()) by (nonlinear_arith)
        requires
            n < pow2(64),
            one() > 0,
    ;
    assert((n * one()) * NANOS_PER_SEC as nat == (n * NANOS_PER_SEC as nat) * one())
        by (nonlinear_arith);
    lemma_half_even_whole(n * NANOS_PER_SEC as nat, one());
}

/// The seconds in a unit of time above the millisecond.
pub open spec fn whole_seconds_in(unit: Seq<char>) -> Option<nat> {
    if unit == ""@ || unit == "s"@ {
        Some(1)
    } else if unit == "m"@ {
        Some(60)
    } else if unit == "h"@ {
        Some(3_600)
    } else if unit == "d"@ {
        Some(86_400)
    } else {
        None
    }
}

/// So many seconds, minutes, hours or days are just that many times the unit, as long as 53
/// bits hold the seconds.
pub proof fn law_whole_times_are_exact(n: nat, unit: Seq<char>, secs: nat)
    requires
        n > 0,
        unit.len() > 0 ==> !is_digit(unit[0]) && unit[0] != '.' && !is_space(unit.last()),
        whole_seconds_in(lowered(trimmed(unit))) == Some(secs),
        n * secs < pow2(53),
    ensures
        human_span(decimal(n) + unit) == Ok::<nat, Seq<char>>(n * secs * NANOS_PER_SEC as nat),
{
    lemma2_to64();
    lemma2_to64_rest();
    lemma_pow2_pos(1074);
    lemma_comes_apart(n, unit);
    law_whole_numbers_are_read(n);
    assert(n <= n * secs) by (nonlinear_arith)
        requires
            0 < secs,
    ;
    lemma_whole_exact(n);
    assert(n * one() > 0) by (nonlinear_arith)
        requires
            n > 0,
            one() > 0,
    ;
    let plain = lowered(trimmed(unit));
    reveal_strlit("");
    reveal_strlit("s");
    reveal_strlit("m");
    reveal_strlit("h");
    reveal_strlit("d");
    reveal_strlit("ms");
    assert(plain != "ms"@) by {
        assert("ms"@.len() == 2);
    }
    if secs == 1 {
        assert(n * 1 == n);
        assert(plain == ""@ || plain == "s"@) by {
            if plain == "m"@ || plain == "h"@ || plain == "d"@ {
            }
        }
        assert(seconds_in(ratio(n, 1), plain) == Some(ratio(n, 1)));
    } else {
        lemma_whole_product(n, secs);
        assert(plain.len() == 1);
        assert(seconds_in(ratio(n, 1), plain) == Some(ratio(n * secs, 1)));
    }
    lemma_whole_span(n * secs);
}

/// So many percent, up to a hundred, are the share nearest to that many hundredths; more are
/// refused.
pub proof fn law_whole_percentages(n: nat)
    requires
        0 < n < pow2(53),
    ensures
        n <= 100 ==> memory_amount(decimal(n) + "%"@) == Ok::<MemoryAmount, Seq<char>>(
            MemoryAmount::AvailableFraction(ratio(n, 100)),
        ),
        n > 100 ==> memory_amount(decimal(n) + "%"@) == Err::<MemoryAmount, Seq<char>>(
            "memory percentage must not exceed 100%"@,
        ),
{
    lemma2_to64();
    lemma2_to64_rest();
    lemma_pow2_pos(1074);
    reveal_strlit("%");
    lemma_comes_apart(n, "%"@);
    let s = decimal(n) + "%"@;
    assert(s.drop_last() =~= decimal(n));
    law_whole_numbers_are_read(n);
    lemma_whole_exact(n);
    lemma_whole_exact(100);
    let u = one();
    assert(n * u > 0 && (n <= 100 <==> n * u <= 100 * u)) by (nonlinear_arith)
        requires
            n > 0,
            u > 0,
    ;
    if n <= 100 {
        assert(((n * u) * u) * 100 == (n * u) * (100 * u)) by (nonlinear_arith);
        lemma_round_monotone((n * u) * u, 100 * u, n * u, 100);
        lemma_round_monotone(n * u, 100, (n * u) * u, 100 * u);
    }
}

/// The nearest whole number is at most half away.
pub proof fn lemma_half_even_error(num: nat, den: nat)
    requires
        den > 0,
    ensures
        2 * (half_even(num, den) * den - num) <= den,
        2 * (num - half_even(num, den) * den) <= den,
{
    let q = num / den;
    let r = num % den;
    vstd::arithmetic::div_mod::lemma_fundamental_div_mod(num as int, den as int);
    assert(q * den == den * q) by (nonlinear_arith);
    assert((q + 1) * den == q * den + den) by (nonlinear_arith);
}

/// Rounding errs by at most one part in two to the power 53, where the magnitude is whole, or
/// large enough to take up all the bits.
pub proof fn lemma_round_error(num: nat, den: nat)
    requires
        den > 0,
        num == 0 || den == 1 || num >= den * pow2(53),
    ensures
        (round_units(num, den) * den - num) * pow2(53) <= num,
        (num - round_units(num, den) * den) * pow2(53) <= num,
{
    let k = spacing(num, den);
    let p = pow2(k);
    let d = den * p;
    lemma2_to64();
    lemma2_to64_rest();
    lemma_pow2_pos(k);
    lemma_spacing_bounds(num, den);
    assert(d > 0) by (nonlinear_arith)
        requires
            d == den * p,
            den > 0,
            p > 0,
    ;
    lemma_half_even_error(num, d);
    let h = half_even(num, d);
    assert((h * p) * den == h * d) by (nonlinear_arith)
        requires
            d == den * p,
    ;
    if k > 0 {
        lemma_pow2_adds(52, k);
        let top = pow2(52);
        let e = pow2(53);
        assert(den * pow2((52 + k) as nat) == top * d) by (nonlinear_arith)
            requires
                pow2((52 + k) as nat) == top * p,
                d == den * p,
        ;
        assert((h * d - num) * e <= num && (num - h * d) * e <= num) by (nonlinear_arith)
            requires
                2 * (h * d - num) <= d,
                2 * (num - h * d) <= d,
                top * d <= num,
                e == 2 * top,
                top > 0,
        ;
    } else {
        assert(d == den) by (nonlinear_arith)
            requires
                d == den * p,
                p == 1,
        ;
        if num == 0 {
            assert(0 * den == 0);
            lemma_half_even_near(0, den, 0);
        } else {
            assert(den == 1);
            assert(num * 1 == num);
            lemma_half_even_near(num, 1, num);
        }
        assert(h * d == num) by (nonlinear_arith)
            requires
                num == 0 && h == 0 || d == 1 && h == num,
        ;
    }
}

/// A whole number less than half away is the nearest.
proof fn lemma_half_even_near(num: nat, den: nat, m: nat)
    requires
        2 * (num - m * den) < den,
        2 * (m * den - num) < den,
    ensures
        half_even(num, den) == m,
{
    lemma_half_even_error(num, den);
    let h = half_even(num, den);
    assert(h == m) by (nonlinear_arith)
        requires
            2 * (num - m * den) < den,
            2 * (m * den - num) < den,
            2 * (num - h * den) <= den,
            2 * (h * den - num) <= den,
    ;
}

/// Below two to the power `53 + top` rounding errs by at most half of two to the power `top`.
pub proof fn lemma_round_below_range(num: nat, den: nat, top: nat)
    requires
        den > 0,
        num < den * pow2(53 + top),
    ensures
        2 * (round_units(num, den) * den - num) <= den * pow2(top),
        2 * (num - round_units(num, den) * den) <= den * pow2(top),
{
    let k = spacing(num, den);
    lemma_spacing_bounds(num, den);
    assert(k <= top) by {
        if k > top {
            if 52 + k > 53 + top {
                lemma_pow2_strictly_increases(53 + top, (52 + k) as nat);
            }
            assert(den * pow2(53 + top) <= den * pow2((52 + k) as nat)) by (nonlinear_arith)
                requires
                    pow2(53 + top) <= pow2((52 + k) as nat),
            ;
        }
    }
    let p = pow2(k);
    let most = pow2(top);
    lemma_pow2_pos(k);
    if k < top {
        lemma_pow2_strictly_increases(k, top);
    }
    let d = den * p;
    let h = half_even(num, d);
    assert(d > 0 && d <= den * most) by (nonlinear_arith)
        requires
            d == den * p,
            den > 0,
            0 < p <= most,
    ;
    lemma_half_even_error(num, d);
    assert(h * d == (h * p) * den) by (nonlinear_arith)
        requires
            d == den * p,
    ;
}

/// So many thousandths, as the nearest number of seconds, are just that many milliseconds, as
/// long as they come to less than two to the power 23 seconds.
proof fn lemma_thousandths(n: nat)
    requires
        0 < n < 1_000 * pow2(23),
    ensures
        ratio(n, 1_000) matches Num::Finite { negative, units } && !negative && units > 0,
        span_of(ratio(n, 1_000)) == Some(n * 1_000_000),
{
    lemma2_to64();
    lemma2_to64_rest();
    lemma_pow2_pos(1074);
    let u = one();
    let num = n * u;
    lemma_pow2_adds(23, 1074);
    assert(num < 1_000 * pow2(1097)) by (nonlinear_arith)
        requires
            num == n * u,
            n < 1_000 * pow2(23),
            pow2(1097) == pow2(23) * u,
            u > 0,
    ;
    let x = round_units(num, 1_000);
    lemma_round_below_range(num, 1_000, 1044);
    lemma_pow2_adds(30, 1044);
    let m = n * 1_000_000;
    assert(m * u == 1_000_000 * num) by (nonlinear_arith)
        requires
            m == n * 1_000_000,
            num == n * u,
    ;
    lemma_pow2_pos(1044);
    lemma_half_even_near(x * NANOS_PER_SEC as nat, u, m);
    lemma_pow2_adds(1, 1097);
    lemma_pow2_strictly_increases(1044, 1097);
    lemma_below_longest(x);
    if x == 0 {
        assert(0 * NANOS_PER_SEC as nat == 0);
        lemma_half_even_near(0, u, 0);
    }
}

/// A number of units within reach of two to the power 23 seconds is a number of the format, and
/// of seconds that a span can have.
proof fn lemma_below_longest(x: nat)
    requires
        x <= pow2(1098),
    ensures
        x < overflow_units(),
        x < pow2(64) * one(),
{
    lemma_pow2_strictly_increases(1098, 1138);
    lemma_pow2_strictly_increases(1138, 2098);
    lemma_pow2_adds(64, 1074);
}

/// So many milliseconds are just that many, as long as they come to less than two to the power
/// 23 seconds.
pub proof fn law_whole_milliseconds_are_exact(n: nat, unit: Seq<char>)
    requires
        n > 0,
        unit.len() > 0,
        !is_digit(unit[0]) && unit[0] != '.' && !is_space(unit.last()),
        lowered(trimmed(unit)) == "ms"@,
        n < 1_000 * pow2(23),
    ensures
        human_span(decimal(n) + unit) == Ok::<nat, Seq<char>>(n * 1_000_000),
{
    lemma2_to64();
    lemma2_to64_rest();
    lemma_pow2_pos(1074);
    lemma_comes_apart(n, unit);
    law_whole_numbers_are_read(n);
    lemma_whole_exact(n);
    lemma_whole_exact(1_000);
    let u = one();
    assert(n * u > 0) by (nonlinear_arith)
        requires
            n > 0,
            u > 0,
    ;
    assert(((n * u) * u) * 1_000 == (n * u) * (1_000 * u)) by (nonlinear_arith);
    lemma_round_monotone((n * u) * u, 1_000 * u, n * u, 1_000);
    lemma_round_monotone(n * u, 1_000, (n * u) * u, 1_000 * u);
    lemma_thousandths(n);
}

/// A span in seconds comes back as the same span, to the nanosecond, as long as it is less than
/// two to the power 23 seconds.
pub proof fn law_seconds_come_back(s: nat)
    requires
        s < pow2(23) * NANOS_PER_SEC,
    ensures
        span_of(seconds(s)) == Some(s),
{
    lemma2_to64();
    lemma2_to64_rest();
    lemma_pow2_pos(1074);
    lemma_pow2_strictly_increases(83, 1074);
    lemma_pow2_adds(30, 53);
    lemma_pow2_adds(30, 1044);
    lemma_pow2_adds(23, 1074);
    lemma_pow2_pos(1044);
    let u = one();
    let e = pow2(53);
    let n = NANOS_PER_SEC as nat;
    let whole = s / n;
    let rest = s % n;
    vstd::arithmetic::div_mod::lemma_fundamental_div_mod(s as int, n as int);
    assert(whole < pow2(23)) by (nonlinear_arith)
        requires
            s == n * whole + rest,
            s < pow2(23) * n,
            rest >= 0,
            n > 0,
    ;
    lemma_whole_exact(whole);
    lemma_whole_exact(rest);
    lemma_whole_exact(n);
    let num = (rest * u) * u;
    let den = n * u;
    assert(den > 0 && (num == 0 || num >= den * e)) by (nonlinear_arith)
        requires
            num == (rest * u) * u,
            den == n * u,
            rest == 0 || rest >= 1,
            0 < n <= 0x4000_0000,
            u >= 0x4000_0000 * e,
            u > 0,
    ;
    lemma_round_error(num, den);
    let b = round_units(num, den);
    let r = rest * u;
    assert((b * n - r) * e <= r && (r - b * n) * e <= r) by (nonlinear_arith)
        requires
            (b * den - num) * e <= num,
            (num - b * den) * e <= num,
            num == r * u,
            den == n * u,
            u > 0,
    ;
    let nu = n * u;
    assert(r + u <= nu) by (nonlinear_arith)
        requires
            r == rest * u,
            nu == n * u,
            rest + 1 <= n,
    ;
    // The fraction errs by less than a millionth of a unit of a nanosecond.
    let f = b * n;
    assert(1_000_000 * (f - r) <= u && 1_000_000 * (r - f) <= u) by (nonlinear_arith)
        requires
            (f - r) * e <= r,
            (r - f) * e <= r,
            r <= n * u,
            n == 1_000_000_000,
            e >= 1_000_000_000_000_000,
            u > 0,
    ;
    assert(b < u) by (nonlinear_arith)
        requires
            f == b * n,
            1_000_000 * (f - r) <= u,
            r + u <= n * u,
            n > 0,
            u > 0,
    ;
    let p = whole * u + b;
    assert(p < pow2(1097)) by (nonlinear_arith)
        requires
            p == whole * u + b,
            b < u,
            whole + 1 <= pow2(23),
            pow2(1097) == pow2(23) * u,
    ;
    lemma_pow2_strictly_increases(1097, 1098);
    lemma_pow2_strictly_increases(1098, 2098);
    lemma_below_longest(b);
    lemma_below_longest(whole * u);
    let x = round_units(p, 1);
    lemma_round_below_range(p, 1, 1044);
    lemma_pow2_adds(1, 1097);
    lemma_pow2_strictly_increases(1044, 1097);
    lemma_below_longest(x);
    assert(quotient(ratio(rest, 1), ratio(n, 1)) == (Num::Finite { negative: false, units: b }));
    if p == 0 {
        lemma_round_error(0, 1);
        assert(x == 0);
    }
    assert(seconds(s) == (Num::Finite { negative: false, units: x }));
    let v = s * u;
    let w = (whole * u) * n;
    assert(v == w + r && p * n == w + f) by (nonlinear_arith)
        requires
            v == s * u,
            s == n * whole + rest,
            w == (whole * u) * n,
            r == rest * u,
            p == whole * u + b,
            f == b * n,
    ;
    lemma_half_even_near(x * n, u, s);
}

/// A number of digits and points with the unit of seconds behind it comes apart there.
proof fn lemma_seconds_come_apart(number: Seq<char>)
    requires
        number.len() > 0,
        forall|i: int|
            0 <= i < number.len() ==> is_digit(#[trigger] number[i]) || number[i] == '.',
    ensures
        ({
            let s = number + "s"@;
            &&& trimmed(s) == s
            &&& quantity_number(s) == number
            &&& quantity_unit(s) == "s"@
        }),
{
    reveal_strlit("s");
    let s = number + "s"@;
    assert(s[0] == number[0]);
    assert(s.last() == 's');
    lemma_trimmed_already(s);
    assert forall|i: int| 0 <= i < number.len() implies digits_and_points()(#[trigger] s[i]) by {
        assert(s[i] == number[i]);
    }
    assert(s[number.len() as int] == 's');
    lemma_leading_is(s, digits_and_points(), number.len());
    assert(s.take(number.len() as int) =~= number);
    assert(s.skip(number.len() as int) =~= "s"@);
    lemma_trimmed_already("s"@);
    assert(lowered("s"@) =~= "s"@);
}

/// A length of time that is printed in seconds, with digits and a point that read as the number
/// of seconds it comes to, and with the unit behind it, reads back as itself, to the nanosecond,
/// as long as it is less than two to the power 23 seconds.
pub proof fn law_printed_durations_read_back(printed: Seq<char>, s: nat)
    requires
        0 < s < pow2(23) * NANOS_PER_SEC,
        forall|i: int|
            0 <= i < printed.len() ==> is_digit(#[trigger] printed[i]) || printed[i] == '.',
        written_number(printed) == Some(seconds(s)),
    ensures
        human_span(printed + "s"@) == Ok::<nat, Seq<char>>(s),
{
    law_seconds_come_back(s);
    lemma_pow2_pos(1074);
    reveal_strlit("s");
    reveal_strlit("ms");
    reveal_strlit("inf");
    reveal_strlit("infinity");
    reveal_strlit("nan");
    if printed.len() == 0 {
        assert(lowered(printed).len() == 0);
        assert(lowered("inf"@).len() == 3 && lowered("infinity"@).len() == 8 && lowered(
            "nan"@,
        ).len() == 3);
        assert(unsigned_part(printed) == printed);
        assert(written_number(printed) is None);
    }
    lemma_seconds_come_apart(printed);
    let x = seconds(s)->Finite_units;
    if x == 0 {
        assert(0 * NANOS_PER_SEC as nat == 0);
        lemma_half_even_near(0, one(), 0);
    }
    assert("s"@ != "ms"@) by {
        assert("s"@.len() == 1 && "ms"@.len() == 2);
    }
}

/// A whole number with a fraction behind it, where there is one.
pub open spec fn with_fraction(whole: nat, fraction: Seq<char>) -> Seq<char> {
    if fraction.len() == 0 {
        decimal(whole)
    } else {
        decimal(whole) + "."@ + fraction
    }
}

/// Digits behind digits.
pub proof fn lemma_digits_joined(a: Seq<char>, b: Seq<char>)
    ensures
        digits_value(a + b) == digits_value(a) * tens(b.len()) + digits_value(b),
    decreases b.len(),
{
    if b.len() == 0 {
        assert(a + b =~= a);
        assert(digits_value(a) * 1 == digits_value(a));
    } else {
        let c = b.drop_last();
        assert((a + b).drop_last() =~= a + c);
        assert((a + b).last() == b.last());
        lemma_digits_joined(a, c);
        let (v, t) = (digits_value(a), tens(c.len()));
        assert(10 * (v * t) == v * (10 * t)) by (nonlinear_arith);
    }
}

/// A number with a fraction is read as the number of the format nearest to it.
pub proof fn law_fractions_are_read(whole: nat, fraction: Seq<char>)
    requires
        forall|i: int| 0 <= i < fraction.len() ==> is_digit(#[trigger] fraction[i]),
    ensures
        written_number(with_fraction(whole, fraction)) == Some(
            ratio(
                whole * tens(fraction.len()) + digits_value(fraction),
                tens(fraction.len()),
            ),
        ),
{
    if fraction.len() == 0 {
        law_whole_numbers_are_read(whole);
        assert(whole * 1 == whole);
    } else {
        reveal_strlit(".");
        law_decimals_read_as_themselves(whole);
        let d = decimal(whole);
        let s = with_fraction(whole, fraction);
        let p = d.len() as int;
        assert(s[0] == d[0]);
        assert(is_digit(d[0]));
        assert(s[p] == '.');
        assert(unsigned_part(s) == s);
        lemma_digits_are_not_spelt_out(s);
        assert forall|i: int| 0 <= i < s.len() implies before_exponent()(#[trigger] s[i]) by {
            if i < p {
                assert(s[i] == d[i]);
                assert(is_digit(d[i]));
            } else if i > p {
                assert(s[i] == fraction[i - p - 1]);
                assert(is_digit(fraction[i - p - 1]));
            }
        }
        lemma_leading_is(s, before_exponent(), s.len());
        assert(s.take(s.len() as int) =~= s);
        assert forall|i: int| 0 <= i < p implies digits()(#[trigger] s[i]) by {
            assert(s[i] == d[i]);
            assert(is_digit(d[i]));
        }
        lemma_leading_is(s, digits(), p as nat);
        assert(s.take(p) =~= d);
        assert(s.skip(p + 1) =~= fraction);
        assert forall|i: int| 0 <= i < fraction.len() implies digits()(#[trigger] fraction[i]) by {
            assert(is_digit(fraction[i]));
        }
        lemma_leading_is(fraction, digits(), fraction.len());
        lemma_digits_joined(d, fraction);
    }
}

/// A whole number of milliseconds that is written as seconds, with as many digits behind the
/// point as it takes or with more, reads back as itself, as long as it comes to less than two to
/// the power 23 seconds.
pub proof fn law_milliseconds_written_as_seconds_read_back(
    n: nat,
    whole: nat,
    fraction: Seq<char>,
)
    requires
        0 < n < 1_000 * pow2(23),
        forall|i: int| 0 <= i < fraction.len() ==> is_digit(#[trigger] fraction[i]),
        (whole * tens(fraction.len()) + digits_value(fraction)) * 1_000 == n * tens(
            fraction.len(),
        ),
    ensures
        human_span(with_fraction(whole, fraction) + "s"@) == Ok::<nat, Seq<char>>(n * 1_000_000),
{
    let text = with_fraction(whole, fraction);
    let t = tens(fraction.len());
    let v = whole * t + digits_value(fraction);
    let u = one();
    reveal_strlit(".");
    reveal_strlit("s");
    reveal_strlit("ms");
    lemma_tens_positive(fraction.len());
    law_decimals_read_as_themselves(whole);
    let d = decimal(whole);
    assert forall|i: int| 0 <= i < text.len() implies is_digit(#[trigger] text[i]) || text[i]
        == '.' by {
        if i < d.len() {
            assert(text[i] == d[i]);
            assert(is_digit(d[i]));
        } else if i > d.len() {
            assert(text[i] == fraction[i - d.len() - 1]);
        }
    }
    lemma_seconds_come_apart(text);
    law_fractions_are_read(whole, fraction);
    assert((v * u) * 1_000 == (n * u) * t) by (nonlinear_arith)
        requires
            v * 1_000 == n * t,
    ;
    lemma_round_monotone(v * u, t, n * u, 1_000);
    lemma_round_monotone(n * u, 1_000, v * u, t);
    lemma_thousandths(n);
    assert("s"@ != "ms"@) by {
        assert("s"@.len() == 1 && "ms"@.len() == 2);
    }
}

/// Lower case changes neither white space nor digits, and is there to stay.
proof fn lemma_lower(c: char)
    ensures
        lower(lower(c)) == lower(c),
        is_space(lower(c)) == is_space(c),
        (is_digit(lower(c)) || lower(c) == '.') == (is_digit(c) || c == '.'),
        is_digit(c) || c == '.' ==> lower(c) == c,
        is_digit(lower(c)) == is_digit(c),
        (lower(c) == '.') == (c == '.'),
        (lower(c) == '+') == (c == '+'),
        (lower(c) == '-') == (c == '-'),
        (lower(c) == '%') == (c == '%'),
        (lower(c) == 'e' || lower(c) == 'E') == (c == 'e' || c == 'E'),
{
}

/// Lower case does not mind where a text is cut, and is there to stay.
proof fn lemma_lowered_parts(s: Seq<char>, i: int)
    requires
        0 <= i <= s.len(),
    ensures
        lowered(s).skip(i) == lowered(s.skip(i)),
        lowered(s).take(i) == lowered(s.take(i)),
        lowered(lowered(s)) == lowered(s),
{
    assert(lowered(s).skip(i) =~= lowered(s.skip(i)));
    assert(lowered(s).take(i) =~= lowered(s.take(i)));
    assert forall|j: int| 0 <= j < s.len() implies lowered(lowered(s))[j] == lowered(s)[j] by {
        lemma_lower(s[j]);
    }
    assert(lowered(lowered(s)) =~= lowered(s));
}

/// A test that does not mind the case counts the same at the start.
proof fn lemma_lowered_leading(s: Seq<char>, p: spec_fn(char) -> bool)
    requires
        forall|c: char| #[trigger] p(lower(c)) == p(c),
    ensures
        leading(lowered(s), p) == leading(s, p),
    decreases s.len(),
{
    if s.len() > 0 {
        assert(lowered(s)[0] == lower(s[0]));
        assert(p(lower(s[0])) == p(s[0]));
        lemma_lowered_parts(s, 1);
        lemma_lowered_leading(s.skip(1), p);
    }
}

/// A test that does not mind the case counts the same at the end.
proof fn lemma_lowered_trailing(s: Seq<char>, p: spec_fn(char) -> bool)
    requires
        forall|c: char| #[trigger] p(lower(c)) == p(c),
    ensures
        trailing(lowered(s), p) == trailing(s, p),
    decreases s.len(),
{
    if s.len() > 0 {
        assert(lowered(s).last() == lower(s.last()));
        assert(p(lower(s.last())) == p(s.last()));
        assert(lowered(s).drop_last() =~= lowered(s.drop_last()));
        lemma_lowered_trailing(s.drop_last(), p);
    }
}

/// No more characters are counted than there are.
proof fn lemma_trailing_length(s: Seq<char>, p: spec_fn(char) -> bool)
    ensures
        trailing(s, p) <= s.len(),
    decreases s.len(),
{
    if s.len() > 0 {
        lemma_trailing_length(s.drop_last(), p);
    }
}

/// Trimming does not mind the case.
proof fn lemma_lowered_trimmed(s: Seq<char>)
    ensures
        trimmed(lowered(s)) == lowered(trimmed(s)),
{
    assert forall|c: char| #[trigger] spaces()(lower(c)) == spaces()(c) by {
        lemma_lower(c);
    }
    lemma_leading(s, spaces());
    lemma_lowered_leading(s, spaces());
    lemma_lowered_parts(s, leading(s, spaces()) as int);
    let t = trimmed_start(s);
    lemma_lowered_trailing(t, spaces());
    lemma_trailing_length(t, spaces());
    lemma_lowered_parts(t, t.len() - trailing(t, spaces()));
}

/// A quantity in lower case has the same number and the same unit.
proof fn lemma_lowered_quantity(s: Seq<char>)
    ensures
        quantity_number(lowered(s)) == quantity_number(s),
        quantity_unit(lowered(s)) == quantity_unit(s),
{
    assert forall|c: char| #[trigger] digits_and_points()(lower(c)) == digits_and_points()(c) by {
        lemma_lower(c);
    }
    let n = leading(s, digits_and_points()) as int;
    lemma_leading(s, digits_and_points());
    lemma_lowered_leading(s, digits_and_points());
    lemma_lowered_parts(s, n);
    assert forall|i: int| 0 <= i < n implies lowered(s.take(n))[i] == s.take(n)[i] by {
        assert(digits_and_points()(s[i]));
        lemma_lower(s[i]);
    }
    assert(lowered(s.take(n)) =~= s.take(n));
    let rest = s.skip(n);
    lemma_lowered_trimmed(rest);
    lemma_lowered_parts(trimmed(rest), 0);
}

/// A length of time reads the same in upper and in lower case.
pub proof fn law_times_read_alike_in_any_case(a: Seq<char>, b: Seq<char>)
    requires
        alike(a, b),
    ensures
        human_span(a) == human_span(b),
{
    lemma_lowered_trimmed(a);
    lemma_lowered_trimmed(b);
    lemma_lowered_quantity(trimmed(a));
    lemma_lowered_quantity(trimmed(b));
}

/// Digits read the same in lower case.
proof fn lemma_lowered_digits(s: Seq<char>)
    ensures
        all_digits(lowered(s)) == all_digits(s),
        all_digits(s) ==> lowered(s) == s,
{
    assert forall|c: char| #[trigger] digits()(lower(c)) == digits()(c) by {
        lemma_lower(c);
    }
    lemma_lowered_leading(s, digits());
    if all_digits(s) {
        lemma_leading(s, digits());
        assert forall|i: int| 0 <= i < s.len() implies lowered(s)[i] == s[i] by {
            assert(digits()(s[i]));
            lemma_lower(s[i]);
        }
        assert(lowered(s) =~= s);
    }
}

/// A sign is the same in lower case.
proof fn lemma_lowered_unsigned_part(s: Seq<char>)
    ensures
        unsigned_part(lowered(s)) == lowered(unsigned_part(s)),
        has_minus(lowered(s)) == has_minus(s),
{
    if s.len() > 0 {
        lemma_lower(s[0]);
        lemma_lowered_parts(s, 1);
        assert(lowered(s)[0] == lower(s[0]));
    }
}

/// A number without a sign reads the same in lower case.
proof fn lemma_lowered_plain_number(s: Seq<char>, negative: bool)
    ensures
        plain_number(lowered(s), negative) == plain_number(s, negative),
{
    assert forall|c: char| #[trigger] before_exponent()(lower(c)) == before_exponent()(c) by {
        lemma_lower(c);
    }
    assert forall|c: char| #[trigger] digits()(lower(c)) == digits()(c) by {
        lemma_lower(c);
    }
    lemma_lowered_leading(s, before_exponent());
    lemma_leading(s, before_exponent());
    let n = leading(s, before_exponent()) as int;
    lemma_lowered_parts(s, n);
    let m = s.take(n);
    lemma_lowered_leading(m, digits());
    lemma_leading(m, digits());
    let p = leading(m, digits()) as int;
    lemma_lowered_parts(m, p);
    let whole = m.take(p);
    assert forall|i: int| 0 <= i < p implies lowered(whole)[i] == whole[i] by {
        assert(digits()(m[i]));
        lemma_lower(m[i]);
    }
    assert(lowered(whole) =~= whole);
    if p < m.len() {
        lemma_lower(m[p]);
        assert(lowered(m)[p] == lower(m[p]));
        lemma_lowered_parts(m, p + 1);
        lemma_lowered_digits(m.skip(p + 1));
    }
    if n < s.len() {
        lemma_lowered_parts(s, n + 1);
        let e = s.skip(n + 1);
        lemma_lowered_unsigned_part(e);
        lemma_lowered_digits(unsigned_part(e));
    }
}

/// A number reads the same in upper and in lower case.
pub proof fn law_numbers_read_alike_in_any_case(a: Seq<char>, b: Seq<char>)
    requires
        alike(a, b),
    ensures
        written_number(a) == written_number(b),
{
    lemma_lowered_number(a);
    lemma_lowered_number(b);
}

/// A number reads the same in lower case.
proof fn lemma_lowered_number(s: Seq<char>)
    ensures
        written_number(lowered(s)) == written_number(s),
{
    lemma_lowered_unsigned_part(s);
    let body = unsigned_part(s);
    lemma_lowered_parts(body, 0);
    lemma_lowered_plain_number(body, has_minus(s));
}

/// A memory limit reads the same in upper and in lower case, up to the words for what is wrong
/// with it.
pub proof fn law_sizes_read_alike_in_any_case(a: Seq<char>, b: Seq<char>)
    requires
        alike(a, b),
    ensures
        memory_amount(a) is Err && memory_amount(b) is Err || memory_amount(a) == memory_amount(b),
{
    lemma_lowered_trimmed(a);
    lemma_lowered_trimmed(b);
    let x = trimmed(a);
    let y = trimmed(b);
    lemma_lowered_quantity(x);
    lemma_lowered_quantity(y);
    lemma_lowered_parts(x, 0);
    lemma_lowered_parts(y, 0);
    assert(lowered(x) == lowered(y));
    assert(lowered(x).len() == x.len() && lowered(y).len() == y.len());
    if x.len() > 0 {
        assert(lowered(x).last() == lower(x.last()));
        assert(lowered(y).last() == lower(y.last()));
        lemma_lower(x.last());
        lemma_lower(y.last());
        assert(lowered(x).drop_last() =~= lowered(x.drop_last()));
        assert(lowered(y).drop_last() =~= lowered(y.drop_last()));
        law_numbers_read_alike_in_any_case(x.drop_last(), y.drop_last());
    }
}

/// A CPU allowance reads the same in upper and in lower case, up to the words for what is wrong
/// with it.
pub proof fn law_cores_read_alike_in_any_case(a: Seq<char>, b: Seq<char>)
    requires
        alike(a, b),
    ensures
        cpu_cores(a) is Err && cpu_cores(b) is Err || cpu_cores(a) == cpu_cores(b),
{
    law_numbers_read_alike_in_any_case(a, b);
}

/// What was trimmed has no white space left at its ends.
proof fn lemma_trimmed_twice(s: Seq<char>)
    ensures
        trimmed(trimmed(s)) == trimmed(s),
{
    lemma_leading(s, spaces());
    let t = trimmed_start(s);
    lemma_trailing_length(t, spaces());
    let v = trimmed(s);
    if v.len() > 0 {
        assert(t[0] == s[leading(s, spaces()) as int]);
        assert(v[0] == t[0]);
        lemma_trailing_stops(t, spaces());
        assert(v.last() == t[t.len() - trailing(t, spaces()) - 1]);
        lemma_trimmed_already(v);
    } else {
        lemma_leading_is(v, spaces(), 0);
        assert(v.skip(0) =~= v);
        assert(v.take(0) =~= v);
    }
}

/// Counting from the end stops at a character that does not pass the test.
proof fn lemma_trailing_stops(s: Seq<char>, p: spec_fn(char) -> bool)
    ensures
        trailing(s, p) < s.len() ==> !p(s[s.len() - trailing(s, p) - 1]),
    decreases s.len(),
{
    if s.len() > 0 && p(s.last()) {
        lemma_trailing_stops(s.drop_last(), p);
        lemma_trailing_length(s.drop_last(), p);
    }
}

/// White space around a limit does not matter.
pub proof fn law_space_around_limits_is_ignored(s: Seq<char>)
    ensures
        memory_amount(trimmed(s)) == memory_amount(s),
        human_span(trimmed(s)) == human_span(s),
{
    lemma_trimmed_twice(s);
}

} // verus!
