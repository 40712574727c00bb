//! How near what is computed from a limit comes to what was written.
use crate::binary64::{
    below, from_units, half_even, lemma_round_exact, lemma_round_monotone, lemma_spacing_is,
    lemma_whole_exact, lemma_whole_exact_one, one, overflow_units, product, ratio, round_units,
    whole_u64, Num,
};
use crate::duration::{span_of, NANOS_PER_SEC};
use crate::limits::{
    bytes_in, cpu_cores, human_span, memory_amount, memory_share, positive, quantity_number,
    quantity_unit, quoted, MemoryAmount,
};
use crate::number::{lemma_digits_below, lemma_tens_positive, tens, written_number};
use crate::quantities::{
    law_fractions_are_read, law_whole_numbers_are_read, law_whole_percentages,
    lemma_half_even_error, lemma_round_below_range, lemma_round_error, lemma_trimmed_already,
    lemma_trimmed_last, lemma_units_are_no_percentage, with_fraction,
};
use crate::reading::law_numbers_have_digits;
use crate::text::{
    alike, decimal, digits_and_points, digits_value, is_digit, is_space, law_alike,
    law_white_space_around_is_trimmed, lemma_leading_is, lower, lowered, trimmed,
};
use crate::throttle::lemma_round_error_or_half;
use vstd::arithmetic::power2::{
    lemma2_to64, lemma2_to64_rest, lemma_pow2_adds, lemma_pow2_pos, lemma_pow2_strictly_increases,
    pow2,
};
use vstd::prelude::*;

verus! {

/// A CPU allowance is the very number that was written, and none that was written is refused
/// where it is at least a hundredth.
pub proof fn law_cores_are_what_was_written(text: Seq<char>, units: nat)
    ensures
        cpu_cores(text) matches Ok(cores) ==> written_number(text) == Some(cores),
        written_number(text) == Some(Num::Finite { negative: false, units }) && units * 100
            >= one() + one() / 1_000_000 ==> cpu_cores(text) == Ok::<Num, Seq<char>>(
            Num::Finite { negative: false, units },
        ),
        written_number(text) == Some(Num::Finite { negative: false, units }) && units * 100
            <= one() - one() / 1_000_000 ==> cpu_cores(text) is Err,
        written_number(text) == Some(Num::Finite { negative: true, units }) ==> cpu_cores(
            text,
        ) is Err,
        written_number(text) is None || !(written_number(text)->0 is Finite) ==> cpu_cores(
            text,
        ) is Err,
{
    let u = one();
    let e = pow2(53);
    lemma2_to64();
    lemma2_to64_rest();
    lemma_pow2_pos(1074);
    lemma_pow2_strictly_increases(60, 1074);
    lemma_pow2_strictly_increases(1074, 2098);
    let r = round_units(1 * u, 100);
    lemma_round_error(1 * u, 100);
    lemma_round_below_range(1 * u, 100, 1021);
    assert(100 * pow2(1074) >= pow2(1074));
    lemma_pow2_strictly_increases(1021, 1074);
    lemma_pow2_adds(20, 1054);
    lemma_pow2_strictly_increases(1021, 1054);
    let part = u / 1_000_000;
    vstd::arithmetic::div_mod::lemma_fundamental_div_mod(u as int, 1_000_000);
    assert((r * 100 - u) * e <= u && (u - r * 100) * e <= u);
    assert(r * 100 - u <= part && u - r * 100 <= part) by (nonlinear_arith)
        requires
            (r * 100 - u) * e <= u,
            (u - r * 100) * e <= u,
            u < 1_000_000 * part + 1_000_000,
            part >= 1_000_000,
            e >= 4_000_000,
    ;
    assert(ratio(1, 100) == (Num::Finite { negative: false, units: r }));
    if units * 100 >= u + part {
        assert(r <= units);
    }
    if units * 100 <= u - part {
        assert(units <= r);
    }
}

/// A product with a share of one errs by at most half of what neighbours differ by.
proof fn lemma_share_of(available: nat, share: nat, bits: nat)
    requires
        available < pow2(bits),
        bits <= 53,
        share <= one(),
    ensures
        2 * (round_units((available * one()) * share, one()) - available * share) <= pow2(
            1021 + bits,
        ),
        2 * (available * share - round_units((available * one()) * share, one())) <= pow2(
            1021 + bits,
        ),
        round_units((available * one()) * share, one()) <= available * one(),
{
    let u = one();
    let num = (available * u) * share;
    let b = pow2(bits);
    let top = pow2(1021 + bits);
    lemma_pow2_pos(1074);
    lemma_pow2_adds(bits, 1074);
    assert(53 + (1021 + bits) == bits + 1074);
    assert(num < u * (b * u)) by (nonlinear_arith)
        requires
            num == (available * u) * share,
            available < b,
            share <= u,
            u > 0,
    ;
    lemma_round_below_range(num, u, 1021 + bits);
    let y = round_units(num, u);
    assert(2 * (y - available * share) <= top && 2 * (available * share - y) <= top)
        by (nonlinear_arith)
        requires
            num == (available * u) * share,
            2 * (y * u - num) <= u * top,
            2 * (num - y * u) <= u * top,
            u > 0,
    ;
    if bits < 53 {
        lemma_pow2_strictly_increases(bits, 53);
    }
    lemma_round_exact(available, 1074, u);
    assert(num * u <= (available * u * u) * u) by (nonlinear_arith)
        requires
            num == (available * u) * share,
            share <= u,
    ;
    lemma_round_monotone(num, u, available * u * u, u);
}

/// A share of the available memory is that share to within a byte and a half, and rounded
/// down: at most half a byte above it.
pub proof fn law_a_share_is_taken(available: u64, share: nat)
    requires
        available < pow2(53),
        share <= one(),
    ensures
        ({
            let limit = MemoryAmount::AvailableFraction(
                Num::Finite { negative: false, units: share },
            ).resolved(available);
            &&& 2 * (limit * one()) <= 2 * (available * share) + one()
            &&& 2 * (available * share) < 2 * (limit * one()) + 3 * one()
            &&& limit <= available
            &&& share == one() ==> limit == available
        }),
{
    let u = one();
    let a = available as nat;
    lemma2_to64();
    lemma2_to64_rest();
    lemma_pow2_pos(1074);
    lemma_whole_exact(a);
    lemma_share_of(a, share, 53);
    let y = round_units((a * u) * share, u);
    lemma_pow2_adds(53, 1074);
    lemma_pow2_strictly_increases(1127, 2098);
    assert(a * u <= pow2(53) * u) by (nonlinear_arith)
        requires
            a < pow2(53),
    ;
    vstd::arithmetic::div_mod::lemma_fundamental_div_mod(y as int, u as int);
    let limit = y / u;
    assert(limit * u <= y < limit * u + u) by (nonlinear_arith)
        requires
            y == u * limit + y % u,
            0 <= y % u < u,
    ;
    assert(limit <= a) by (nonlinear_arith)
        requires
            limit * u <= a * u,
            u > 0,
    ;
    if share == u {
        lemma_round_exact(a, 1074, u);
        assert(limit >= a) by (nonlinear_arith)
            requires
                a * u < limit * u + u,
                u > 0,
        ;
    }
}

/// A share of the available memory, however much that is, errs by at most three parts in two
/// to the power 53, half a byte, and the byte that rounding down takes.
pub proof fn law_a_share_of_any_amount_is_taken(available: u64, share: nat)
    requires
        share <= one(),
    ensures
        ({
            let limit = MemoryAmount::AvailableFraction(
                Num::Finite { negative: false, units: share },
            ).resolved(available);
            let exact = available * share;
            &&& 2 * ((limit * one() - exact) * pow2(53)) <= 6 * exact + pow2(53)
            &&& 2 * ((exact - (limit + 1) * one()) * pow2(53)) <= 6 * exact + pow2(53)
        }),
{
    let u = one();
    let e = pow2(53);
    let a = available as nat;
    lemma2_to64();
    lemma2_to64_rest();
    lemma_pow2_pos(1074);
    let held = round_units(a * u, 1);
    lemma_round_error(a * u, 1);
    lemma_round_exact(1, 64 + 1074, 1);
    lemma_pow2_adds(64, 1074);
    assert((a * u) * 1 <= (1 * pow2(64 + 1074) * 1) * 1) by (nonlinear_arith)
        requires
            a <= pow2(64),
            pow2(64 + 1074) == pow2(64) * u,
    ;
    lemma_round_monotone(a * u, 1, 1 * pow2(64 + 1074) * 1, 1);
    lemma_pow2_strictly_increases(64 + 1074, 2098);
    assert(ratio(a, 1) == (Num::Finite { negative: false, units: held }));
    let num = held * share;
    let y = round_units(num, u);
    lemma_round_error_or_half(num, u);
    assert(num * u <= (1 * pow2(64 + 1074) * u) * u) by (nonlinear_arith)
        requires
            num == held * share,
            held <= 1 * pow2(64 + 1074),
            share <= u,
    ;
    lemma_round_exact(1, 64 + 1074, u);
    lemma_round_monotone(num, u, 1 * pow2(64 + 1074) * u, u);
    assert(y <= pow2(64) * u);
    let exact = a * share;
    // The product against the exact share, counted in units.
    assert(held * e <= a * u * e + a * u && a * u * e <= held * e + a * u) by (nonlinear_arith)
        requires
            (held * 1 - a * u) * e <= a * u,
            (a * u - held * 1) * e <= a * u,
    ;
    assert(held <= 2 * (a * u)) by (nonlinear_arith)
        requires
            held * e <= a * u * e + a * u,
            e >= 2,
            a * u >= 0,
    ;
    assert((num - exact * u) * e <= exact * u && (exact * u - num) * e <= exact * u && num <= 2 * (
    exact * u)) by (nonlinear_arith)
        requires
            num == held * share,
            exact == a * share,
            held * e <= a * u * e + a * u,
            a * u * e <= held * e + a * u,
            held <= 2 * (a * u),
    ;
    assert(2 * ((y - exact) * e) <= 6 * exact + e && 2 * ((exact - y) * e) <= 6 * exact + e)
        by (nonlinear_arith)
        requires
            2 * ((y * u - num) * e) <= 2 * num + u * e,
            2 * ((num - y * u) * e) <= 2 * num + u * e,
            (num - exact * u) * e <= exact * u,
            (exact * u - num) * e <= exact * u,
            num <= 2 * (exact * u),
            u > 0,
    ;
    vstd::arithmetic::div_mod::lemma_fundamental_div_mod(y as int, u as int);
    let whole = y / u;
    assert(whole * u <= y < whole * u + u) by (nonlinear_arith)
        requires
            y == u * whole + y % u,
            0 <= y % u < u,
    ;
    let limit = if whole > u64::MAX {
        u64::MAX as nat
    } else {
        whole
    };
    assert(limit * u <= y <= (limit + 1) * u) by (nonlinear_arith)
        requires
            whole * u <= y < whole * u + u,
            limit <= whole,
            limit == whole || (limit + 1 == pow2(64) && y <= pow2(64) * u),
            u > 0,
    ;
    assert(2 * ((limit * u - exact) * e) <= 6 * exact + e && 2 * ((exact - (limit + 1) * u) * e)
        <= 6 * exact + e) by (nonlinear_arith)
        requires
            limit * u <= y <= (limit + 1) * u,
            2 * ((y - exact) * e) <= 6 * exact + e,
            2 * ((exact - y) * e) <= 6 * exact + e,
            e > 0,
    ;
}

/// The hundredths that a whole percentage stands for.
proof fn lemma_hundredths(n: nat)
    requires
        0 < n <= 100,
    ensures
        ratio(n, 100) == (Num::Finite { negative: false, units: round_units(n * one(), 100) }),
        round_units(n * one(), 100) <= one(),
        2 * (100 * round_units(n * one(), 100) - n * one()) <= 100 * pow2(1021),
        2 * (n * one() - 100 * round_units(n * one(), 100)) <= 100 * pow2(1021),
{
    let u = one();
    lemma_pow2_pos(1074);
    lemma_pow2_pos(1021);
    lemma2_to64();
    lemma2_to64_rest();
    lemma_pow2_strictly_increases(1074, 2098);
    lemma_round_exact(1, 1074, 100);
    assert((n * u) * 100 <= (1 * u * 100) * 100) by (nonlinear_arith)
        requires
            n <= 100,
    ;
    lemma_round_monotone(n * u, 100, 1 * u * 100, 100);
    if n < 100 {
        assert(n * u < 100 * u) by (nonlinear_arith)
            requires
                n < 100,
                u > 0,
        ;
        lemma_round_below_range(n * u, 100, 1021);
    }
}

/// So many percent of the available memory are that many hundredths of it: never a byte more,
/// and less than two bytes less.
pub proof fn law_percentages_are_taken(n: nat, available: u64)
    requires
        0 < n <= 100,
        available < pow2(53),
    ensures
        memory_amount(decimal(n) + "%"@) matches Ok(amount) && {
            let limit = amount.resolved(available);
            &&& limit * 100 <= available * n + 100
            &&& available * n < limit * 100 + 200
        },
{
    let u = one();
    let a = available as nat;
    lemma2_to64();
    lemma2_to64_rest();
    lemma_pow2_pos(1074);
    law_whole_percentages(n);
    lemma_hundredths(n);
    let f = round_units(n * u, 100);
    lemma_whole_exact(a);
    lemma_share_of(a, f, 53);
    law_a_share_is_taken(available, f);
    lemma_pow2_adds(53, 1021);
    let w = pow2(1021);
    let limit = MemoryAmount::AvailableFraction(
        Num::Finite { negative: false, units: f },
    ).resolved(available) as nat;
    assert(2 * (100 * (a * f)) <= 2 * (a * n * u) + 100 * u && 2 * (a * n * u) <= 2 * (100 * (a
        * f)) + 100 * u) by (nonlinear_arith)
        requires
            2 * (100 * f - n * u) <= 100 * w,
            2 * (n * u - 100 * f) <= 100 * w,
            a < pow2(53),
            u == pow2(53) * w,
    ;
    assert(limit * 100 <= a * n + 100) by (nonlinear_arith)
        requires
            2 * (limit * u) <= 2 * (a * f) + u,
            2 * (100 * (a * f)) <= 2 * (a * n * u) + 100 * u,
            u > 0,
    ;
    assert(a * n < limit * 100 + 200) by (nonlinear_arith)
        requires
            2 * (a * f) < 2 * (limit * u) + 3 * u,
            2 * (a * n * u) <= 2 * (100 * (a * f)) + 100 * u,
            u > 0,
    ;
}

/// Below 64 tebibytes the limit is less than a byte away from the exact share, on either side.
pub proof fn law_percentages_are_taken_to_the_byte(n: nat, available: u64)
    requires
        0 < n <= 100,
        available < pow2(46),
    ensures
        memory_amount(decimal(n) + "%"@) matches Ok(amount) && {
            let limit = amount.resolved(available);
            &&& limit * 100 <= available * n
                + 100
            &&& available * n <= limit * 100 + 100
        },
{
    let u = one();
    let a = available as nat;
    lemma2_to64();
    lemma2_to64_rest();
    lemma_pow2_pos(1074);
    lemma_pow2_strictly_increases(46, 53);
    law_percentages_are_taken(n, available);
    law_whole_percentages(n);
    lemma_hundredths(n);
    let f = round_units(n * u, 100);
    lemma_whole_exact(a);
    lemma_share_of(a, f, 46);
    let y = round_units((a * u) * f, u);
    lemma_pow2_adds(53, 1021);
    lemma_pow2_adds(46, 1021);
    let w = pow2(1021);
    let v = pow2(1067);
    lemma_pow2_pos(1067);
    lemma_pow2_adds(7, 1067);
    assert(u == 128 * v);
    assert(a * u <= pow2(53) * u) by (nonlinear_arith)
        requires
            a < pow2(53),
    ;
    lemma_pow2_adds(53, 1074);
    lemma_pow2_strictly_increases(1127, 2098);
    vstd::arithmetic::div_mod::lemma_fundamental_div_mod(y as int, u as int);
    let limit = y / u;
    assert(limit * u <= y < limit * u + u) by (nonlinear_arith)
        requires
            y == u * limit + y % u,
            0 <= y % u < u,
    ;
    assert(limit <= a) by (nonlinear_arith)
        requires
            limit * u <= a * u,
            u > 0,
    ;
    assert(2 * (a * n * u) <= 2 * (100 * (a * f)) + 100 * v) by (nonlinear_arith)
        requires
            2 * (n * u - 100 * f) <= 100 * w,
            a < pow2(46),
            v == pow2(46) * w,
    ;
    assert(a * n <= limit * 100 + 100) by (nonlinear_arith)
        requires
            2 * (a * f - y) <= v,
            y < limit * u + u,
            2 * (a * n * u) <= 2 * (100 * (a * f)) + 100 * v,
            u == 128 * v,
            v > 0,
    ;
}

/// A whole number of cores is the allowance that it says.
pub proof fn law_whole_cores(n: nat)
    requires
        0 < n < pow2(53),
    ensures
        cpu_cores(decimal(n)) == Ok::<Num, Seq<char>>(ratio(n, 1)),
        ratio(n, 1) == (Num::Finite { negative: false, units: n * one() }),
{
    let u = one();
    lemma2_to64();
    lemma2_to64_rest();
    lemma_pow2_pos(1074);
    law_whole_numbers_are_read(n);
    lemma_whole_exact(n);
    law_cores_are_what_was_written(decimal(n), n * u);
    assert((n * u) * 100 >= u + u / 1_000_000) by (nonlinear_arith)
        requires
            n >= 1,
            u >= 0,
            u / 1_000_000 <= u,
    ;
}

/// A number of cores with a fraction is the allowance that it says wherever that is at least a
/// hundredth of one; nothing, and a two-hundredth or less, is refused.
pub proof fn law_fractions_of_cores(whole: nat, fraction: Seq<char>)
    requires
        whole < pow2(53),
        forall|i: int| 0 <= i < fraction.len() ==> is_digit(#[trigger] fraction[i]),
    ensures
        ({
            let t = tens(fraction.len());
            let v = whole * t + digits_value(fraction);
            let written = with_fraction(whole, fraction);
            &&& 100 * v >= t ==> cpu_cores(written) == Ok::<Num, Seq<char>>(ratio(v, t))
            &&& 200 * v <= t ==> cpu_cores(written) is Err
            &&& v == 0 ==> cpu_cores(written) == Err::<Num, Seq<char>>(
                "CPU limit must be positive"@,
            )
        }),
{
    let u = one();
    let t = tens(fraction.len());
    let d = digits_value(fraction);
    let v = whole * t + d;
    lemma2_to64();
    lemma2_to64_rest();
    lemma_pow2_pos(1074);
    law_fractions_are_read(whole, fraction);
    lemma_tens_positive(fraction.len());
    lemma_digits_below(fraction);
    let x = round_units(v * u, t);
    // The written number is finite.
    lemma_pow2_adds(54, 1074);
    lemma_pow2_strictly_increases(54 + 1074, 2098);
    assert(pow2(54) == 2 * pow2(53));
    assert((v * u) * t <= (1 * pow2(54 + 1074) * t) * t) by (nonlinear_arith)
        requires
            v == whole * t + d,
            whole < pow2(53),
            d < t,
            pow2(54 + 1074) == pow2(54) * u,
            pow2(54) == 2 * pow2(53),
            pow2(53) >= 1,
    ;
    lemma_round_exact(1, 54 + 1074, t);
    lemma_round_monotone(v * u, t, 1 * pow2(54 + 1074) * t, t);
    assert(ratio(v, t) == (Num::Finite { negative: false, units: x }));
    let least = round_units(1 * u, 100);
    lemma_pow2_strictly_increases(1074, 2098);
    lemma_pow2_strictly_increases(60, 1074);
    lemma_round_error(1 * u, 100);
    lemma_round_monotone(1 * u, 100, 1 * u, 1);
    lemma_whole_exact_one();
    assert(ratio(1, 100) == (Num::Finite { negative: false, units: least }));
    assert(least > 0) by (nonlinear_arith)
        requires
            (1 * u - least * 100) * pow2(53) <= 1 * u,
            pow2(53) > 1,
            u > 0,
    ;
    if 100 * v >= t {
        assert((1 * u) * t <= (v * u) * 100) by (nonlinear_arith)
            requires
                100 * v >= t,
        ;
        lemma_round_monotone(1 * u, 100, v * u, t);
    } else if 200 * v <= t {
        if v == 0 {
            lemma_round_exact(0, 0, t);
            assert(v * u == 0 && 0 * pow2(0) * t == 0) by (nonlinear_arith)
                requires
                    v == 0,
            ;
            assert("CPU limit"@ + " must be positive"@ =~= "CPU limit must be positive"@) by {
                reveal_strlit("CPU limit");
                reveal_strlit(" must be positive");
                reveal_strlit("CPU limit must be positive");
            }
        } else {
            let half = round_units(1 * u, 200);
            assert((v * u) * 200 <= (1 * u) * t) by (nonlinear_arith)
                requires
                    200 * v <= t,
            ;
            lemma_round_monotone(v * u, t, 1 * u, 200);
            lemma_pow2_strictly_increases(61, 1074);
            lemma_round_error(1 * u, 200);
            assert(half < least) by (nonlinear_arith)
                requires
                    (1 * u - least * 100) * pow2(53) <= 1 * u,
                    (half * 200 - 1 * u) * pow2(53) <= 1 * u,
                    pow2(53) > 100,
                    u > 0,
            ;
        }
    }
}

/// A number of digits and points with a unit behind it comes apart where the unit begins.
proof fn lemma_number_and_unit(number: Seq<char>, unit: Seq<char>)
    requires
        number.len() > 0,
        forall|i: int|
            0 <= i < number.len() ==> is_digit(#[trigger] number[i]) || number[i] == '.',
        unit.len() > 0 ==> !is_digit(unit[0]) && unit[0] != '.' && !is_space(unit.last()),
    ensures
        ({
            let s = number + unit;
            &&& trimmed(s) == s
            &&& quantity_number(s) == number
            &&& quantity_unit(s) == lowered(trimmed(unit))
            &&& !alike(s, "auto"@)
            &&& s.len() > 0
            &&& s.last() == if unit.len() > 0 {
                unit.last()
            } else {
                number.last()
            }
        }),
{
    let s = number + unit;
    reveal_strlit("auto");
    assert(s[0] == number[0]);
    assert(is_digit(number[number.len() - 1]) || number[number.len() - 1] == '.');
    assert(s.last() == if unit.len() > 0 {
        unit.last()
    } else {
        number.last()
    });
    lemma_trimmed_already(s);
    assert forall|i: int| 0 <= i < number.len() implies digits_and_points()(#[trigger] s[i]) by {
        assert(s[i] == number[i]);
    }
    if unit.len() > 0 {
        assert(s[number.len() as int] == unit[0]);
    }
    lemma_leading_is(s, digits_and_points(), number.len());
    assert(s.take(number.len() as int) =~= number);
    assert(s.skip(number.len() as int) =~= unit);
    assert(lowered(s)[0] == lower(number[0]));
    assert(lowered("auto"@)[0] == 'a');
}

/// The last number of the format below two to the power 64.
pub open spec fn last_below_64() -> nat {
    (pow2(64) - 2_048) as nat * one()
}

/// The first number of the format above two to the power 64.
pub open spec fn first_above_64() -> nat {
    (pow2(64) + 4_096) * one()
}

/// Rounding does not lead across two to the power 64, nor across its two neighbours.
proof fn lemma_near_64(num: nat, den: nat, exact: nat)
    requires
        den > 0,
        num == exact * den,
    ensures
        exact <= pow2(64) * one() ==> round_units(num, den) <= pow2(64) * one(),
        exact >= pow2(64) * one() ==> round_units(num, den) >= pow2(64) * one(),
        exact <= last_below_64() ==> round_units(num, den) <= last_below_64(),
        exact >= first_above_64() ==> round_units(num, den) >= first_above_64(),
{
    let u = one();
    lemma2_to64();
    lemma2_to64_rest();
    lemma_pow2_adds(64, 1074);
    lemma_pow2_adds(11, 1074);
    lemma_pow2_adds(12, 1074);
    let m = 0x1f_ffff_ffff_ffffnat;
    let n = 0x10_0000_0000_0001nat;
    lemma_round_exact(1, 64 + 1074, den);
    lemma_round_exact(m, 11 + 1074, den);
    lemma_round_exact(n, 12 + 1074, den);
    assert(m * pow2(11 + 1074) == last_below_64()) by (nonlinear_arith)
        requires
            pow2(11 + 1074) == 2_048 * u,
            last_below_64() == (pow2(64) - 2_048) * u,
            pow2(64) == 0x1_0000_0000_0000_0000,
            m == 0x1f_ffff_ffff_ffff,
    ;
    assert(n * pow2(12 + 1074) == first_above_64()) by (nonlinear_arith)
        requires
            pow2(12 + 1074) == 4_096 * u,
            first_above_64() == (pow2(64) + 4_096) * u,
            pow2(64) == 0x1_0000_0000_0000_0000,
            n == 0x10_0000_0000_0001,
    ;
    lemma_keeps_side(num, den, exact, 1 * pow2(64 + 1074));
    lemma_keeps_side(num, den, exact, m * pow2(11 + 1074));
    lemma_keeps_side(num, den, exact, n * pow2(12 + 1074));
}

/// Rounding does not lead across a number of the format.
proof fn lemma_keeps_side(num: nat, den: nat, exact: nat, bound: nat)
    requires
        den > 0,
        num == exact * den,
        round_units(bound * den, den) == bound,
    ensures
        exact <= bound ==> round_units(num, den) <= bound,
        exact >= bound ==> round_units(num, den) >= bound,
{
    if exact <= bound {
        assert(num * den <= (bound * den) * den) by (nonlinear_arith)
            requires
                num == exact * den,
                exact <= bound,
        ;
        lemma_round_monotone(num, den, bound * den, den);
    }
    if exact >= bound {
        assert(num * den >= (bound * den) * den) by (nonlinear_arith)
            requires
                num == exact * den,
                exact >= bound,
        ;
        lemma_round_monotone(bound * den, den, num, den);
    }
}

/// The product of a number and a whole one, against the exact product in units.
pub proof fn lemma_times_whole(units: nat, factor: nat)
    requires
        0 < factor < pow2(53),
    ensures
        ratio(factor, 1) == (Num::Finite { negative: false, units: factor * one() }),
        product(Num::Finite { negative: false, units }, ratio(factor, 1)) == from_units(
            false,
            round_units(units * (factor * one()), one()),
        ),
        ({
            let y = round_units(units * (factor * one()), one());
            let exact = units * factor;
            &&& 2 * ((y - exact) * pow2(53)) <= 2 * exact + pow2(53)
            &&& 2 * ((exact - y) * pow2(53)) <= 2 * exact + pow2(53)
            &&& exact <= pow2(63) * one() ==> y <= pow2(63) * one()
            &&& exact <= pow2(64) * one() ==> y <= pow2(64) * one()
            &&& exact >= pow2(64) * one() ==> y >= pow2(64) * one()
            &&& exact <= last_below_64() ==> y <= last_below_64()
            &&& exact >= first_above_64() ==> y >= first_above_64()
        }),
{
    let u = one();
    let e = pow2(53);
    lemma_pow2_pos(1074);
    lemma_whole_exact(factor);
    let num = units * (factor * u);
    let exact = units * factor;
    lemma_round_error_or_half(num, u);
    let y = round_units(num, u);
    assert(num == exact * u) by (nonlinear_arith)
        requires
            num == units * (factor * u),
            exact == units * factor,
    ;
    assert(2 * ((y - exact) * e) <= 2 * exact + e && 2 * ((exact - y) * e) <= 2 * exact + e)
        by (nonlinear_arith)
        requires
            2 * ((y * u - num) * e) <= 2 * num + u * e,
            2 * ((num - y * u) * e) <= 2 * num + u * e,
            num == exact * u,
            u > 0,
    ;
    lemma2_to64();
    lemma2_to64_rest();
    lemma_pow2_adds(63, 1074);
    lemma_round_exact(1, 63 + 1074, u);
    if exact <= pow2(63) * u {
        assert(num * u <= (1 * pow2(63 + 1074) * u) * u) by (nonlinear_arith)
            requires
                num == exact * u,
                exact <= pow2(63) * u,
                pow2(63 + 1074) == pow2(63) * u,
        ;
        lemma_round_monotone(num, u, 1 * pow2(63 + 1074) * u, u);
    }
    lemma_near_64(num, u, exact);
}

/// The whole part of a magnitude that a `u64` holds.
proof fn lemma_whole_part(y: nat)
    requires
        y <= pow2(64) * one(),
    ensures
        ({
            let x = Num::Finite { negative: false, units: y };
            &&& whole_u64(x) * one() <= y <= (whole_u64(x) + 1) * one()
            &&& !below(ratio(u64::MAX as nat, 1), x)
            &&& from_units(false, y) == x
        }),
{
    let u = one();
    lemma2_to64();
    lemma2_to64_rest();
    lemma_pow2_pos(1074);
    lemma_pow2_adds(64, 1074);
    lemma_pow2_strictly_increases(64 + 1074, 2098);
    vstd::arithmetic::div_mod::lemma_fundamental_div_mod(y as int, u as int);
    let whole = y / u;
    assert(whole * u <= y < (whole + 1) * u) by (nonlinear_arith)
        requires
            y == u * whole + y % u,
            0 <= y % u < u,
    ;
    assert(whole <= pow2(64)) by (nonlinear_arith)
        requires
            whole * u <= y <= pow2(64) * u,
            u > 0,
    ;
    if whole > u64::MAX {
        assert(u64::MAX as nat * u <= whole * u && (u64::MAX as nat + 1) * u >= y)
            by (nonlinear_arith)
            requires
                u64::MAX <= whole,
                y <= pow2(64) * u,
                pow2(64) == u64::MAX + 1,
        ;
    }
    lemma_largest_u64();
}

/// The number nearest to the largest `u64` is two to the power 64.
proof fn lemma_largest_u64()
    ensures
        ratio(u64::MAX as nat, 1) == (Num::Finite { negative: false, units: pow2(64) * one() }),
{
    let u = one();
    lemma2_to64();
    lemma2_to64_rest();
    lemma_pow2_pos(1074);
    lemma_pow2_adds(64, 1074);
    lemma_pow2_adds(11, 1074);
    lemma_pow2_strictly_increases(64 + 1074, 2098);
    let n = u64::MAX as nat * u;
    assert(n * 1 == n);
    lemma_near_64(n, 1, n);
    assert(n <= pow2(64) * u) by (nonlinear_arith)
        requires
            n == u64::MAX * u,
            pow2(64) == u64::MAX + 1,
    ;
    lemma_pow2_strictly_increases(1074, 1127);
    assert(n < 1 * pow2(53 + (11 + 1074))) by (nonlinear_arith)
        requires
            n == u64::MAX * u,
            u > 0,
            pow2(64) == u64::MAX + 1,
            pow2(53 + (11 + 1074)) == pow2(64) * u,
    ;
    lemma_pow2_adds(52, 11 + 1074);
    lemma_pow2_adds(63, 1074);
    assert(n >= 1 * pow2((52 + (11 + 1074)) as nat)) by (nonlinear_arith)
        requires
            n == u64::MAX * u,
            pow2(63) <= u64::MAX,
            pow2((52 + (11 + 1074)) as nat) == pow2(63) * u,
    ;
    lemma_spacing_is(n, 1, 11 + 1074);
    let p = pow2(11 + 1074);
    let h = half_even(n, 1 * p);
    assert(p == 2_048 * u);
    lemma_half_even_error(n, p);
    assert(1 * p == p);
    assert(h == 0x20_0000_0000_0000) by (nonlinear_arith)
        requires
            2 * (h * p - n) <= p,
            2 * (n - h * p) <= p,
            n == u64::MAX * u,
            p == 2_048 * u,
            u > 0,
    ;
    assert(h * p == pow2(64) * u) by (nonlinear_arith)
        requires
            h == 0x20_0000_0000_0000,
            p == 2_048 * u,
            pow2(64) == 0x1_0000_0000_0000_0000,
    ;
}

/// A magnitude past the first number above two to the power 64 is more than a `u64` reaches.
proof fn lemma_past_u64(y: nat)
    requires
        y >= first_above_64(),
    ensures
        !(from_units(false, y) is Finite) || below(
            ratio(u64::MAX as nat, 1),
            from_units(false, y),
        ),
{
    let u = one();
    lemma2_to64();
    lemma2_to64_rest();
    lemma_pow2_pos(1074);
    lemma_largest_u64();
    assert(first_above_64() > pow2(64) * u) by (nonlinear_arith)
        requires
            first_above_64() == (pow2(64) + 4_096) * u,
            u > 0,
    ;
}

/// A size is the number that was written times the bytes in its unit, rounded down to whole
/// bytes, and errs by no more than one part in two to the power 53 and half a unit besides; one
/// past what a `u64` reaches is refused.
pub proof fn law_sizes_are_what_was_written(
    number: Seq<char>,
    unit: Seq<char>,
    units: nat,
    bytes: nat,
)
    requires
        number.len() > 0,
        forall|i: int|
            0 <= i < number.len() ==> is_digit(#[trigger] number[i]) || number[i] == '.',
        unit.len() > 0 ==> !is_digit(unit[0]) && unit[0] != '.' && !is_space(unit.last()),
        written_number(number) == Some(Num::Finite { negative: false, units }),
        units > 0,
        bytes_in(lowered(trimmed(unit))) == Some(bytes),
    ensures
        units * bytes <= pow2(64) * one() ==> {
            &&& memory_amount(number + unit) matches Ok(MemoryAmount::Bytes(size))
            &&& 2 * ((size * one() - units * bytes) * pow2(53)) <= 2 * (units * bytes) + pow2(53)
            &&& 2 * ((units * bytes - (size + 1) * one()) * pow2(53)) <= 2 * (units * bytes)
                + pow2(53)
        },
        units * bytes >= first_above_64() ==> memory_amount(number + unit) == Err::<
            MemoryAmount,
            Seq<char>,
        >("memory size is too large"@),
{
    let u = one();
    let e = pow2(53);
    lemma2_to64();
    lemma2_to64_rest();
    lemma_number_and_unit(number, unit);
    let s = number + unit;
    if unit.len() > 0 {
        lemma_trimmed_last(unit);
        let plain = lowered(trimmed(unit));
        lemma_units_are_no_percentage(plain);
        assert(plain.last() == lower(unit.last()));
    } else {
        assert(is_digit(number[number.len() - 1]) || number[number.len() - 1] == '.');
    }
    assert(s.last() != '%');
    assert(0 < bytes < e);
    lemma_times_whole(units, bytes);
    let y = round_units(units * (bytes * u), u);
    let exact = units * bytes;
    if exact <= pow2(64) * u {
        lemma_whole_part(y);
        let size = whole_u64(Num::Finite { negative: false, units: y }) as nat;
        assert(2 * ((size * u - exact) * e) <= 2 * exact + e && 2 * ((exact - (size + 1) * u) * e)
            <= 2 * exact + e) by (nonlinear_arith)
            requires
                size * u <= y <= (size + 1) * u,
                2 * ((y - exact) * e) <= 2 * exact + e,
                2 * ((exact - y) * e) <= 2 * exact + e,
                e > 0,
        ;
    }
    if exact >= first_above_64() {
        lemma_past_u64(y);
    }
}

/// How many seconds a unit of time makes, as a fraction.
pub open spec fn is_time_unit(unit: Seq<char>, num: nat, den: nat) -> bool {
    ||| unit == "ms"@ && num == 1 && den == 1_000
    ||| (unit == ""@ || unit == "s"@) && num == 1 && den == 1
    ||| unit == "m"@ && num == 60 && den == 1
    ||| unit == "h"@ && num == 60 * 60 && den == 1
    ||| unit == "d"@ && num == 24 * 60 * 60 && den == 1
}

/// A time in seconds to the nearest nanosecond.
proof fn lemma_span_error(x: nat, den: nat, exact: nat)
    requires
        x < pow2(64) * one(),
        den > 0,
        2 * ((x * den - exact) * pow2(53)) <= 2 * exact + den * pow2(53),
        2 * ((exact - x * den) * pow2(53)) <= 2 * exact + den * pow2(53),
    ensures
        span_of(Num::Finite { negative: false, units: x }) matches Some(nanos) && {
            &&& 2 * ((nanos * den * one() - exact * NANOS_PER_SEC) * pow2(53)) <= den * one()
                * pow2(53) + NANOS_PER_SEC * (2 * exact + den * pow2(53))
            &&& 2 * ((exact * NANOS_PER_SEC - nanos * den * one()) * pow2(53)) <= den * one()
                * pow2(53) + NANOS_PER_SEC * (2 * exact + den * pow2(53))
        },
{
    let u = one();
    let e = pow2(53);
    let n = NANOS_PER_SEC as nat;
    lemma_pow2_pos(1074);
    lemma_pow2_pos(53);
    let nanos = half_even(x * n, u);
    lemma_half_even_error(x * n, u);
    let a = nanos * u - x * n;
    let b = x * den - exact;
    assert(2 * a <= u && -2 * a <= u);
    assert(nanos * den * u - exact * n == a * den + b * n) by (nonlinear_arith)
        requires
            a == nanos * u - x * n,
            b == x * den - exact,
    ;
    assert((exact - x * den) * e == -(b * e)) by (nonlinear_arith)
        requires
            b == x * den - exact,
    ;
    assert(2 * ((a * den) * e) <= den * u * e && -2 * ((a * den) * e) <= den * u * e)
        by (nonlinear_arith)
        requires
            2 * a <= u,
            -2 * a <= u,
            den > 0,
            e > 0,
    ;
    assert(2 * ((b * n) * e) <= n * (2 * exact + den * e) && -2 * ((b * n) * e) <= n * (2 * exact
        + den * e)) by (nonlinear_arith)
        requires
            2 * (b * e) <= 2 * exact + den * e,
            -2 * (b * e) <= 2 * exact + den * e,
            n > 0,
    ;
    assert((a * den + b * n) * e == (a * den) * e + (b * n) * e) by (nonlinear_arith);
    let c = nanos * den * u - exact * n;
    assert((exact * n - nanos * den * u) * e == -(c * e)) by (nonlinear_arith)
        requires
            c == nanos * den * u - exact * n,
    ;
}

/// A quotient by a whole number stays on its side of two to the power 64 as well.
proof fn lemma_ends_at_64(num: nat, den: nat, by: nat, units: nat)
    requires
        by > 0,
        den == by * one(),
        num == units * one(),
    ensures
        units <= by * last_below_64() ==> round_units(num, den) <= last_below_64(),
        units >= by * (pow2(64) * one()) ==> round_units(num, den) >= pow2(64) * one(),
{
    let u = one();
    lemma_pow2_pos(1074);
    assert(den > 0) by (nonlinear_arith)
        requires
            den == by * u,
            by > 0,
            u > 0,
    ;
    let last = last_below_64();
    let past = pow2(64) * u;
    lemma_near_64(last * den, den, last);
    lemma_near_64(past * den, den, past);
    if units <= by * last {
        assert(num * den <= (last * den) * den) by (nonlinear_arith)
            requires
                num == units * u,
                den == by * u,
                units <= by * last,
        ;
        lemma_round_monotone(num, den, last * den, den);
    }
    if units >= by * past {
        assert((past * den) * den <= num * den) by (nonlinear_arith)
            requires
                num == units * u,
                den == by * u,
                units >= by * past,
        ;
        lemma_round_monotone(past * den, den, num, den);
    }
}

/// A length of time is the number that was written times the seconds in its unit, to the nearest
/// nanosecond, and errs by no more than one part in two to the power 53 besides; one past what
/// a length of time reaches is refused.
pub proof fn law_times_are_what_was_written(
    number: Seq<char>,
    unit: Seq<char>,
    units: nat,
    num: nat,
    den: nat,
)
    requires
        number.len() > 0,
        forall|i: int|
            0 <= i < number.len() ==> is_digit(#[trigger] number[i]) || number[i] == '.',
        unit.len() > 0 ==> !is_digit(unit[0]) && unit[0] != '.' && !is_space(unit.last()),
        written_number(number) == Some(Num::Finite { negative: false, units }),
        units > 0,
        is_time_unit(lowered(trimmed(unit)), num, den),
    ensures
        units * num <= den * last_below_64() ==> {
            &&& human_span(number + unit) matches Ok(nanos)
            &&& 2 * ((nanos * den * one() - units * num * NANOS_PER_SEC) * pow2(53)) <= den * one()
                * pow2(53) + NANOS_PER_SEC * (2 * (units * num) + den * pow2(53))
            &&& 2 * ((units * num * NANOS_PER_SEC - nanos * den * one()) * pow2(53)) <= den * one()
                * pow2(53) + NANOS_PER_SEC * (2 * (units * num) + den * pow2(53))
        },
        units * num >= den * (pow2(64) * one()) ==> human_span(number + unit) == Err::<
            nat,
            Seq<char>,
        >("duration is too large"@),
{
    let u = one();
    let e = pow2(53);
    lemma2_to64();
    lemma2_to64_rest();
    lemma_pow2_pos(1074);
    lemma_number_and_unit(number, unit);
    reveal_strlit("");
    reveal_strlit("ms");
    reveal_strlit("s");
    reveal_strlit("m");
    reveal_strlit("h");
    reveal_strlit("d");
    let plain = lowered(trimmed(unit));
    assert(""@.len() == 0 && "ms"@.len() == 2 && "s"@.len() == 1);
    assert("s"@[0] == 's' && "m"@[0] == 'm' && "h"@[0] == 'h' && "d"@[0] == 'd');
    lemma_pow2_adds(64, 1074);
    lemma_pow2_strictly_increases(64 + 1074, 2098);
    assert(0 < last_below_64() < pow2(64) * u) by (nonlinear_arith)
        requires
            last_below_64() == (pow2(64) - 2_048) * u,
            pow2(64) > 2_048,
            u > 0,
    ;
    if plain == "ms"@ {
        assert(num == 1 && den == 1_000);
        assert(units * num == units);
        lemma_whole_exact(1_000);
        let d = 1_000 * u;
        let x = round_units(units * u, d);
        lemma_round_error_or_half(units * u, d);
        assert(2 * ((x * 1_000 - units) * e) <= 2 * units + 1_000 * e && 2 * ((units - x * 1_000)
            * e) <= 2 * units + 1_000 * e) by (nonlinear_arith)
            requires
                d == 1_000 * u,
                2 * ((x * d - units * u) * e) <= 2 * (units * u) + d * e,
                2 * ((units * u - x * d) * e) <= 2 * (units * u) + d * e,
                u > 0,
        ;
        lemma_ends_at_64(units * u, d, 1_000, units);
        if units <= 1_000 * last_below_64() {
            lemma_span_error(x, den, units * num);
        }
    } else if plain == ""@ || plain == "s"@ {
        assert(num == 1 && den == 1);
        assert(units * num == units);
        if units <= last_below_64() {
            lemma_span_error(units, den, units * num);
        }
    } else {
        assert(den == 1 && 0 < num < e);
        assert(plain == "m"@ || plain == "h"@ || plain == "d"@);
        lemma_times_whole(units, num);
        let y = round_units(units * (num * u), u);
        if units * num <= last_below_64() {
            lemma_span_error(y, den, units * num);
        }
    }
}

/// A text with a percent sign behind it is read as a percentage.
proof fn lemma_percentage(number: Seq<char>)
    requires
        number.len() > 0,
        !is_space(number[0]),
    ensures
        memory_amount(number + "%"@) == memory_share(number),
{
    reveal_strlit("%");
    reveal_strlit("auto");
    let s = number + "%"@;
    assert(s[0] == number[0]);
    assert(s.last() == '%');
    lemma_trimmed_already(s);
    assert(s.drop_last() =~= number);
    law_alike(s, "auto"@);
    if alike(s, "auto"@) {
        assert(lower(s[3]) == lower("auto"@[3]));
    }
}

/// A percentage that is no number is refused, and so is one that is not a number above zero.
pub proof fn law_percentages_are_above_zero(number: Seq<char>)
    requires
        number.len() > 0,
        !is_space(number[0]),
    ensures
        match written_number(number) {
            None => memory_amount(number + "%"@) == Err::<MemoryAmount, Seq<char>>(
                "invalid memory percentage "@ + quoted(number),
            ),
            Some(Num::Finite { negative, units }) => negative || units == 0 ==> memory_amount(
                number + "%"@,
            ) == Err::<MemoryAmount, Seq<char>>("memory percentage must be positive"@),
            Some(_) => memory_amount(number + "%"@) == Err::<MemoryAmount, Seq<char>>(
                "memory percentage must be positive"@,
            ),
        },
{
    lemma_percentage(number);
    assert("invalid "@ + "memory percentage"@ + " "@ =~= "invalid memory percentage "@) by {
        reveal_strlit("invalid ");
        reveal_strlit("memory percentage");
        reveal_strlit(" ");
        reveal_strlit("invalid memory percentage ");
    }
    assert("memory percentage"@ + " must be positive"@ =~= "memory percentage must be positive"@)
        by {
        reveal_strlit("memory percentage");
        reveal_strlit(" must be positive");
        reveal_strlit("memory percentage must be positive");
    }
}

/// White space around a size or a length of time makes no difference.
pub proof fn law_white_space_around_limits(before: Seq<char>, text: Seq<char>, behind: Seq<char>)
    requires
        forall|i: int| 0 <= i < before.len() ==> is_space(#[trigger] before[i]),
        forall|i: int| 0 <= i < behind.len() ==> is_space(#[trigger] behind[i]),
    ensures
        memory_amount(before + text + behind) == memory_amount(text),
        human_span(before + text + behind) == human_span(text),
{
    law_white_space_around_is_trimmed(before, text, behind);
}

/// A size begins with its number, and so does a length of time: a text that begins with anything
/// else is neither.
pub proof fn law_limits_begin_with_their_number(text: Seq<char>)
    requires
        text.len() > 0,
        !is_space(text[0]),
        !is_space(text.last()),
        !is_digit(text[0]),
        text[0] != '.',
    ensures
        human_span(text) is Err,
        !alike(text, "auto"@) && text.last() != '%' ==> memory_amount(text) is Err,
{
    lemma_trimmed_already(text);
    lemma_leading_is(text, digits_and_points(), 0);
    assert(text.take(0) =~= Seq::<char>::empty());
    law_numbers_have_digits(Seq::empty());
}

/// A percentage is the hundredth part of the number that was written, to within one part in two
/// to the power 53 and half a unit; more than a hundred percent are refused.
pub proof fn law_shares_are_what_was_written(number: Seq<char>, units: nat)
    requires
        number.len() > 0,
        !is_space(number[0]),
        written_number(number) == Some(Num::Finite { negative: false, units }),
        units > 0,
    ensures
        units <= 100 * one() ==> {
            &&& memory_amount(number + "%"@) matches Ok(MemoryAmount::AvailableFraction(share))
            &&& share matches Num::Finite { negative, units: part }
            &&& !negative
            &&& part <= one()
            &&& 2 * ((100 * part - units) * pow2(53)) <= 2 * units + 100 * pow2(53)
            &&& 2 * ((units - 100 * part) * pow2(53)) <= 2 * units + 100 * pow2(53)
        },
        units > 100 * one() ==> memory_amount(number + "%"@) == Err::<MemoryAmount, Seq<char>>(
            "memory percentage must not exceed 100%"@,
        ),
{
    let u = one();
    let e = pow2(53);
    lemma2_to64();
    lemma2_to64_rest();
    lemma_pow2_pos(1074);
    lemma_percentage(number);
    lemma_whole_exact(100);
    if units <= 100 * u {
        let d = 100 * u;
        let part = round_units(units * u, d);
        lemma_round_error_or_half(units * u, d);
        assert(2 * ((100 * part - units) * e) <= 2 * units + 100 * e && 2 * ((units - 100 * part)
            * e) <= 2 * units + 100 * e) by (nonlinear_arith)
            requires
                d == 100 * u,
                2 * ((part * d - units * u) * e) <= 2 * (units * u) + d * e,
                2 * ((units * u - part * d) * e) <= 2 * (units * u) + d * e,
                u > 0,
        ;
        assert((units * u) * d <= (1 * u * d) * d) by (nonlinear_arith)
            requires
                units <= d,
        ;
        lemma_round_exact(1, 1074, d);
        lemma_round_monotone(units * u, d, 1 * u * d, d);
        lemma_pow2_strictly_increases(1074, 2098);
    }
}

/// `auto`, in any case and with white space around it, is the same as seventy percent.
pub proof fn law_auto_is_seventy_percent(text: Seq<char>)
    requires
        alike(trimmed(text), "auto"@),
    ensures
        memory_amount(text) == memory_amount(decimal(70) + "%"@),
{
    let u = one();
    lemma2_to64();
    lemma2_to64_rest();
    lemma_pow2_pos(1074);
    law_whole_percentages(70);
    assert((7 * u) * 100 == (70 * u) * 10);
    lemma_round_monotone(7 * u, 10, 70 * u, 100);
    lemma_round_monotone(70 * u, 100, 7 * u, 10);
}

/// Where the number of a limit is read.
proof fn lemma_limit_texts(number: Seq<char>, unit: Seq<char>)
    requires
        number.len() > 0,
        forall|i: int|
            0 <= i < number.len() ==> is_digit(#[trigger] number[i]) || number[i] == '.',
        unit.len() > 0 ==> !is_digit(unit[0]) && unit[0] != '.' && !is_space(unit.last()),
    ensures
        positive(number, "duration"@) is Err ==> human_span(number + unit) == Err::<nat, Seq<char>>(
            positive(number, "duration"@)->Err_0,
        ),
        positive(number, "CPU limit"@) is Err ==> cpu_cores(number) == positive(
            number,
            "CPU limit"@,
        ),
        positive(number, "memory percentage"@) is Err ==> memory_amount(number + "%"@) == Err::<
            MemoryAmount,
            Seq<char>,
        >(positive(number, "memory percentage"@)->Err_0),
        positive(number, "memory size"@) is Err && (unit.len() == 0 || unit.last() != '%')
            ==> memory_amount(number + unit) == Err::<MemoryAmount, Seq<char>>(
            positive(number, "memory size"@)->Err_0,
        ),
{
    lemma_number_and_unit(number, unit);
    lemma_percentage(number);
    assert(is_digit(number[number.len() - 1]) || number[number.len() - 1] == '.');
}

/// What is no number is refused: as a size, as a percentage, as a length of time and as a number
/// of cores.
pub proof fn law_limits_are_numbers(number: Seq<char>, unit: Seq<char>)
    requires
        number.len() > 0,
        forall|i: int|
            0 <= i < number.len() ==> is_digit(#[trigger] number[i]) || number[i] == '.',
        unit.len() > 0 ==> !is_digit(unit[0]) && unit[0] != '.' && !is_space(unit.last()),
        written_number(number) is None,
    ensures
        human_span(number + unit) == Err::<nat, Seq<char>>("invalid duration "@ + quoted(number)),
        cpu_cores(number) == Err::<Num, Seq<char>>("invalid CPU limit "@ + quoted(number)),
        memory_amount(number + "%"@) == Err::<MemoryAmount, Seq<char>>(
            "invalid memory percentage "@ + quoted(number),
        ),
        unit.len() == 0 || unit.last() != '%' ==> memory_amount(number + unit) == Err::<
            MemoryAmount,
            Seq<char>,
        >("invalid memory size "@ + quoted(number)),
{
    lemma_limit_texts(number, unit);
    lemma_label("duration"@, number);
    lemma_label("CPU limit"@, number);
    lemma_label("memory percentage"@, number);
    lemma_label("memory size"@, number);
    assert("invalid "@ + "duration"@ + " "@ =~= "invalid duration "@) by {
        reveal_strlit("invalid ");
        reveal_strlit("duration");
        reveal_strlit(" ");
        reveal_strlit("invalid duration ");
    }
    assert("invalid "@ + "CPU limit"@ + " "@ =~= "invalid CPU limit "@) by {
        reveal_strlit("invalid ");
        reveal_strlit("CPU limit");
        reveal_strlit(" ");
        reveal_strlit("invalid CPU limit ");
    }
    assert("invalid "@ + "memory percentage"@ + " "@ =~= "invalid memory percentage "@) by {
        reveal_strlit("invalid ");
        reveal_strlit("memory percentage");
        reveal_strlit(" ");
        reveal_strlit("invalid memory percentage ");
    }
    assert("invalid "@ + "memory size"@ + " "@ =~= "invalid memory size "@) by {
        reveal_strlit("invalid ");
        reveal_strlit("memory size");
        reveal_strlit(" ");
        reveal_strlit("invalid memory size ");
    }
}

/// Nothing is refused: as a size, as a percentage, as a length of time and as a number of cores.
pub proof fn law_limits_are_above_zero(number: Seq<char>, unit: Seq<char>, negative: bool)
    requires
        number.len() > 0,
        forall|i: int|
            0 <= i < number.len() ==> is_digit(#[trigger] number[i]) || number[i] == '.',
        unit.len() > 0 ==> !is_digit(unit[0]) && unit[0] != '.' && !is_space(unit.last()),
        written_number(number) == Some(Num::Finite { negative, units: 0 }),
    ensures
        human_span(number + unit) == Err::<nat, Seq<char>>("duration must be positive"@),
        cpu_cores(number) == Err::<Num, Seq<char>>("CPU limit must be positive"@),
        memory_amount(number + "%"@) == Err::<MemoryAmount, Seq<char>>(
            "memory percentage must be positive"@,
        ),
        unit.len() == 0 || unit.last() != '%' ==> memory_amount(number + unit) == Err::<
            MemoryAmount,
            Seq<char>,
        >("memory size must be positive"@),
{
    lemma_limit_texts(number, unit);
    lemma_label("duration"@, number);
    lemma_label("CPU limit"@, number);
    lemma_label("memory percentage"@, number);
    lemma_label("memory size"@, number);
    assert("duration"@ + " must be positive"@ =~= "duration must be positive"@) by {
        reveal_strlit("duration");
        reveal_strlit(" must be positive");
        reveal_strlit("duration must be positive");
    }
    assert("CPU limit"@ + " must be positive"@ =~= "CPU limit must be positive"@) by {
        reveal_strlit("CPU limit");
        reveal_strlit(" must be positive");
        reveal_strlit("CPU limit must be positive");
    }
    assert("memory percentage"@ + " must be positive"@ =~= "memory percentage must be positive"@) by {
        reveal_strlit("memory percentage");
        reveal_strlit(" must be positive");
        reveal_strlit("memory percentage must be positive");
    }
    assert("memory size"@ + " must be positive"@ =~= "memory size must be positive"@) by {
        reveal_strlit("memory size");
        reveal_strlit(" must be positive");
        reveal_strlit("memory size must be positive");
    }
}

/// What a number that is not above zero is called.
proof fn lemma_label(label: Seq<char>, number: Seq<char>)
    ensures
        written_number(number) is None ==> positive(number, label) == Err::<Num, Seq<char>>(
            "invalid "@ + label + " "@ + quoted(number),
        ),
        (written_number(number) matches Some(Num::Finite { negative, units }) && units == 0)
            ==> positive(number, label) == Err::<Num, Seq<char>>(label + " must be positive"@),
{
}

/// The bytes in a unit of memory, by its letters.
proof fn lemma_unit_letters(unit: Seq<char>)
    ensures
        bytes_in(unit) == if unit.len() == 0 {
            Some(1nat)
        } else if unit.len() == 1 && unit[0] == 'b' {
            Some(1nat)
        } else if unit.len() == 1 || (unit.len() == 2 && unit[1] == 'b') {
            match unit[0] {
                'k' => Some(1_000nat),
                'm' => Some(1_000_000nat),
                'g' => Some(1_000_000_000nat),
                't' => Some(1_000_000_000_000nat),
                _ => None,
            }
        } else if unit[1] == 'i' && (unit.len() == 2 || (unit.len() == 3 && unit[2] == 'b')) {
            match unit[0] {
                'k' => Some(0x400nat),
                'm' => Some(0x10_0000nat),
                'g' => Some(0x4000_0000nat),
                't' => Some(0x100_0000_0000nat),
                _ => None,
            }
        } else {
            None
        },
{
    reveal_strlit("");
    assert(unit == ""@ <==> unit =~= ""@);
    assert(unit == "b"@ <==> unit.len() == 1 && unit[0] == 'b') by {
        reveal_strlit("b");
        if unit.len() == 1 && unit[0] == 'b' {
            assert(unit =~= "b"@);
        }
    }
    assert(unit == "k"@ <==> unit.len() == 1 && unit[0] == 'k') by {
        reveal_strlit("k");
        if unit.len() == 1 && unit[0] == 'k' {
            assert(unit =~= "k"@);
        }
    }
    assert(unit == "kb"@ <==> unit.len() == 2 && unit[0] == 'k' && unit[1] == 'b') by {
        reveal_strlit("kb");
        if unit.len() == 2 && unit[0] == 'k' && unit[1] == 'b' {
            assert(unit =~= "kb"@);
        }
    }
    assert(unit == "m"@ <==> unit.len() == 1 && unit[0] == 'm') by {
        reveal_strlit("m");
        if unit.len() == 1 && unit[0] == 'm' {
            assert(unit =~= "m"@);
        }
    }
    assert(unit == "mb"@ <==> unit.len() == 2 && unit[0] == 'm' && unit[1] == 'b') by {
        reveal_strlit("mb");
        if unit.len() == 2 && unit[0] == 'm' && unit[1] == 'b' {
            assert(unit =~= "mb"@);
        }
    }
    assert(unit == "g"@ <==> unit.len() == 1 && unit[0] == 'g') by {
        reveal_strlit("g");
        if unit.len() == 1 && unit[0] == 'g' {
            assert(unit =~= "g"@);
        }
    }
    assert(unit == "gb"@ <==> unit.len() == 2 && unit[0] == 'g' && unit[1] == 'b') by {
        reveal_strlit("gb");
        if unit.len() == 2 && unit[0] == 'g' && unit[1] == 'b' {
            assert(unit =~= "gb"@);
        }
    }
    assert(unit == "t"@ <==> unit.len() == 1 && unit[0] == 't') by {
        reveal_strlit("t");
        if unit.len() == 1 && unit[0] == 't' {
            assert(unit =~= "t"@);
        }
    }
    assert(unit == "tb"@ <==> unit.len() == 2 && unit[0] == 't' && unit[1] == 'b') by {
        reveal_strlit("tb");
        if unit.len() == 2 && unit[0] == 't' && unit[1] == 'b' {
            assert(unit =~= "tb"@);
        }
    }
    assert(unit == "ki"@ <==> unit.len() == 2 && unit[0] == 'k' && unit[1] == 'i') by {
        reveal_strlit("ki");
        if unit.len() == 2 && unit[0] == 'k' && unit[1] == 'i' {
            assert(unit =~= "ki"@);
        }
    }
    assert(unit == "kib"@ <==> unit.len() == 3 && unit[0] == 'k' && unit[1] == 'i' && unit[2] == 'b') by {
        reveal_strlit("kib");
        if unit.len() == 3 && unit[0] == 'k' && unit[1] == 'i' && unit[2] == 'b' {
            assert(unit =~= "kib"@);
        }
    }
    assert(unit == "mi"@ <==> unit.len() == 2 && unit[0] == 'm' && unit[1] == 'i') by {
        reveal_strlit("mi");
        if unit.len() == 2 && unit[0] == 'm' && unit[1] == 'i' {
            assert(unit =~= "mi"@);
        }
    }
    assert(unit == "mib"@ <==> unit.len() == 3 && unit[0] == 'm' && unit[1] == 'i' && unit[2] == 'b') by {
        reveal_strlit("mib");
        if unit.len() == 3 && unit[0] == 'm' && unit[1] == 'i' && unit[2] == 'b' {
            assert(unit =~= "mib"@);
        }
    }
    assert(unit == "gi"@ <==> unit.len() == 2 && unit[0] == 'g' && unit[1] == 'i') by {
        reveal_strlit("gi");
        if unit.len() == 2 && unit[0] == 'g' && unit[1] == 'i' {
            assert(unit =~= "gi"@);
        }
    }
    assert(unit == "gib"@ <==> unit.len() == 3 && unit[0] == 'g' && unit[1] == 'i' && unit[2] == 'b') by {
        reveal_strlit("gib");
        if unit.len() == 3 && unit[0] == 'g' && unit[1] == 'i' && unit[2] == 'b' {
            assert(unit =~= "gib"@);
        }
    }
    assert(unit == "ti"@ <==> unit.len() == 2 && unit[0] == 't' && unit[1] == 'i') by {
        reveal_strlit("ti");
        if unit.len() == 2 && unit[0] == 't' && unit[1] == 'i' {
            assert(unit =~= "ti"@);
        }
    }
    assert(unit == "tib"@ <==> unit.len() == 3 && unit[0] == 't' && unit[1] == 'i' && unit[2] == 'b') by {
        reveal_strlit("tib");
        if unit.len() == 3 && unit[0] == 't' && unit[1] == 'i' && unit[2] == 'b' {
            assert(unit =~= "tib"@);
        }
    }
}

/// The units of memory: nothing and `b` stand for bytes, each of `k`, `m`, `g` and `t` for a
/// thousand times the one before it, with an `i` behind it for 1024 times, and a `b` at the
/// end changes nothing. Anything else is no unit.
pub proof fn law_units_of_memory(unit: Seq<char>)
    ensures
        bytes_in(Seq::empty()) == Some(1nat),
        bytes_in(seq!['b']) == Some(1nat),
        bytes_in(seq!['k']) == Some(1_000nat),
        bytes_in(seq!['m']) == Some((1_000 * bytes_in(seq!['k'])->0) as nat),
        bytes_in(seq!['g']) == Some((1_000 * bytes_in(seq!['m'])->0) as nat),
        bytes_in(seq!['t']) == Some((1_000 * bytes_in(seq!['g'])->0) as nat),
        bytes_in(seq!['k', 'i']) == Some(1_024nat),
        bytes_in(seq!['m', 'i']) == Some((1_024 * bytes_in(seq!['k', 'i'])->0) as nat),
        bytes_in(seq!['g', 'i']) == Some((1_024 * bytes_in(seq!['m', 'i'])->0) as nat),
        bytes_in(seq!['t', 'i']) == Some((1_024 * bytes_in(seq!['g', 'i'])->0) as nat),
        unit.len() > 0 && bytes_in(unit) is Some && unit.last() != 'b' ==> bytes_in(unit.push('b'))
            == bytes_in(unit),
        unit.len() > 1 && unit.last() == 'b' ==> bytes_in(unit) == if unit[unit.len() - 2] == 'b' {
            None
        } else {
            bytes_in(unit.drop_last())
        },
        unit.len() > 0 && unit.last() != 'b' && bytes_in(unit) is Some ==> {
            &&& unit[0] == 'k' || unit[0] == 'm' || unit[0] == 'g' || unit[0] == 't'
            &&& unit.len() == 1 || (unit.len() == 2 && unit[1] == 'i')
        },
{
    lemma_unit_letters(seq!['b']);
    lemma_unit_letters(seq!['k']);
    lemma_unit_letters(seq!['m']);
    lemma_unit_letters(seq!['g']);
    lemma_unit_letters(seq!['t']);
    lemma_unit_letters(seq!['k', 'i']);
    lemma_unit_letters(seq!['m', 'i']);
    lemma_unit_letters(seq!['g', 'i']);
    lemma_unit_letters(seq!['t', 'i']);
    lemma_unit_letters(Seq::empty());
    lemma_unit_letters(unit);
    lemma_unit_letters(unit.push('b'));
    if unit.len() > 0 {
        lemma_unit_letters(unit.drop_last());
    }
}

/// A size in no known unit is refused, and so is a length of time.
pub proof fn law_units_must_be_known(number: Seq<char>, unit: Seq<char>, units: nat)
    requires
        number.len() > 0,
        forall|i: int|
            0 <= i < number.len() ==> is_digit(#[trigger] number[i]) || number[i] == '.',
        unit.len() > 0 ==> !is_digit(unit[0]) && unit[0] != '.' && !is_space(unit.last()),
        written_number(number) == Some(Num::Finite { negative: false, units }),
        units > 0,
    ensures
        ({
            let plain = lowered(trimmed(unit));
            &&& bytes_in(plain) is None && unit.last() != '%' ==> memory_amount(number + unit)
                == Err::<MemoryAmount, Seq<char>>("unknown memory-size suffix "@ + quoted(plain))
            &&& !(exists|num: nat, den: nat| is_time_unit(plain, num, den)) ==> human_span(
                number + unit,
            ) == Err::<nat, Seq<char>>("unknown duration suffix "@ + quoted(plain))
        }),
{
    let plain = lowered(trimmed(unit));
    lemma_number_and_unit(number, unit);
    if unit.len() == 0 {
        assert(trimmed(unit).len() == 0);
        reveal_strlit("");
        assert(plain =~= ""@);
    }
    if !(exists|num: nat, den: nat| is_time_unit(plain, num, den)) {
        assert(!is_time_unit(plain, 1, 1_000));
        assert(!is_time_unit(plain, 1, 1));
        assert(!is_time_unit(plain, 60, 1));
        assert(!is_time_unit(plain, 60 * 60, 1));
        assert(!is_time_unit(plain, 24 * 60 * 60, 1));
    }
}

/// A larger share of more memory is no smaller, and never less than nothing: a negative share,
/// or one that is no number, comes to nothing.
pub proof fn law_larger_shares_are_no_smaller(a: u64, b: u64, f: nat, g: nat)
    requires
        a <= b,
        f <= g,
    ensures
        MemoryAmount::AvailableFraction(Num::Finite { negative: false, units: f }).resolved(a)
            <= MemoryAmount::AvailableFraction(Num::Finite { negative: false, units: g }).resolved(
            b,
        ),
        MemoryAmount::AvailableFraction(Num::Finite { negative: true, units: f }).resolved(a) == 0,
        MemoryAmount::AvailableFraction(Num::NotANumber).resolved(a) == 0,
{
    let u = one();
    lemma2_to64();
    lemma2_to64_rest();
    lemma_pow2_pos(1074);
    lemma_pow2_adds(64, 1074);
    lemma_pow2_strictly_increases(64 + 1074, 2098);
    let h = round_units(a as nat * u, 1);
    let k = round_units(b as nat * u, 1);
    assert((a as nat * u) * 1 <= (b as nat * u) * 1) by (nonlinear_arith)
        requires
            a <= b,
    ;
    lemma_round_monotone(a as nat * u, 1, b as nat * u, 1);
    assert(b as nat * u <= pow2(64) * u) by (nonlinear_arith)
        requires
            b <= pow2(64),
    ;
    assert((b as nat * u) * 1 == b as nat * u);
    lemma_near_64(b as nat * u, 1, b as nat * u);
    assert((h * f) * u <= (k * g) * u) by (nonlinear_arith)
        requires
            h <= k,
            f <= g,
    ;
    lemma_round_monotone(h * f, u, k * g, u);
    let x = round_units(h * f, u);
    let y = round_units(k * g, u);
    vstd::arithmetic::div_mod::lemma_div_is_ordered(x as int, y as int, u as int);
    if y >= overflow_units() && x < overflow_units() {
        assert(whole_u64(Num::Infinite { negative: false }) == u64::MAX);
    }
}

} // verus!
