//! What holds of the arithmetic on numbers of the format and on lengths of time.
use crate::binary64::{
    below, decode, half_even, lemma2_to64_rest_53, lemma_round_exact, one, opposite,
    overflow_units, position, product, quotient, ratio, round_units, same, sum, whole_u64, Num,
};
use crate::duration::{longest, span_of, NANOS_PER_SEC};
use crate::quantities::{lemma_half_even_error, lemma_round_error};
use crate::throttle::lemma_round_error_or_half;
use vstd::arithmetic::power2::{
    lemma2_to64, lemma2_to64_rest, lemma_pow2_adds, lemma_pow2_pos, lemma_pow2_strictly_increases,
    lemma_pow2_unfold, pow2,
};
use vstd::prelude::*;

verus! {

/// The nearest whole number is at most half away, and halfway it is the even one.
pub proof fn law_halves_go_to_the_even_number(num: nat, den: nat)
    requires
        den > 0,
    ensures
        2 * (half_even(num, den) * den - num) <= den,
        2 * (num - half_even(num, den) * den) <= den,
        2 * (half_even(num, den) * den - num) == den || 2 * (num - half_even(num, den) * den) == den
            ==> half_even(num, den) % 2 == 0,
{
    lemma_half_even_error(num, den);
    let q = num / den;
    let r = num % den;
    vstd::arithmetic::div_mod::lemma_fundamental_div_mod(num as int, den as int);
    assert(q * den == den * q) by (nonlinear_arith);
    assert((q + 1) * den == q * den + den) by (nonlinear_arith);
}

/// Any two finite numbers are in just one order: one lies below the other, or they are the same.
/// Neither is so where one is no number.
pub proof fn law_numbers_are_in_one_order(a: Num, b: Num)
    ensures
        a is NotANumber || b is NotANumber ==> !below(a, b) && !same(a, b),
        !(a is NotANumber) && !(b is NotANumber) ==> {
            &&& below(a, b) || below(b, a) || same(a, b)
            &&& !(below(a, b) && below(b, a))
            &&& !(below(a, b) && same(a, b))
        },
        same(a, b) == same(b, a),
{
}

/// The order is that of the magnitudes for numbers at or above zero, the opposite for those at
/// or below, and a negative number lies below a positive one.
pub proof fn law_the_order_of_numbers(u: nat, v: nat)
    ensures
        ({
            let a = Num::Finite { negative: false, units: u };
            let b = Num::Finite { negative: false, units: v };
            let c = Num::Finite { negative: true, units: u };
            let d = Num::Finite { negative: true, units: v };
            &&& below(a, b) <==> u < v
            &&& same(a, b) <==> u == v
            &&& below(c, d) <==> v < u
            &&& same(c, d) <==> u == v
            &&& below(c, b) <==> u > 0 || v > 0
            &&& same(c, b) <==> u == 0 && v == 0
            &&& !below(a, d)
            &&& below(a, Num::Infinite { negative: false })
            &&& below(Num::Infinite { negative: true }, a)
            &&& below(c, Num::Infinite { negative: false })
            &&& below(Num::Infinite { negative: true }, c)
            &&& below(Num::Infinite { negative: true }, Num::Infinite { negative: false })
            &&& !below(Num::Infinite { negative: false }, Num::Infinite { negative: false })
        }),
{
}

/// The whole part of a number at or above zero is the largest whole number that does not lie
/// above it, as far as a `u64` reaches; that of any other number is zero, and that of what lies
/// beyond every number the largest `u64`.
pub proof fn law_whole_parts(units: nat)
    ensures
        ({
            let w = whole_u64(Num::Finite { negative: false, units });
            &&& w * one() <= units
            &&& units < (w + 1) * one() || w == u64::MAX
        }),
        whole_u64(Num::Finite { negative: true, units }) == 0,
        whole_u64(Num::NotANumber) == 0,
        whole_u64(Num::Infinite { negative: false }) == u64::MAX,
        whole_u64(Num::Infinite { negative: true }) == 0,
{
    let u = one();
    lemma_pow2_pos(1074);
    vstd::arithmetic::div_mod::lemma_fundamental_div_mod(units as int, u as int);
    let whole = units / u;
    assert(whole * u <= units < (whole + 1) * u) by (nonlinear_arith)
        requires
            units == u * whole + units % u,
            0 <= units % u < u,
    ;
    if whole > u64::MAX {
        assert(u64::MAX as nat * u <= whole * u) by (nonlinear_arith)
            requires
                u64::MAX <= whole,
        ;
    }
}

/// A product is the nearest number to the exact one, to within one part in two to the power 53
/// and half a unit, has the sign that the two signs make, and does not depend on their order.
pub proof fn law_products(s: bool, u: nat, t: bool, v: nat)
    ensures
        ({
            let a = Num::Finite { negative: s, units: u };
            let b = Num::Finite { negative: t, units: v };
            &&& product(a, b) == product(b, a)
            &&& match product(a, b) {
                Num::Finite { negative, units } => {
                    &&& negative == (s != t)
                    &&& 2 * ((units * one() - u * v) * pow2(53)) <= 2 * (u * v) + one() * pow2(53)
                    &&& 2 * ((u * v - units * one()) * pow2(53)) <= 2 * (u * v) + one() * pow2(53)
                },
                Num::Infinite { negative } => {
                    &&& negative == (s != t)
                    &&& 2 * ((overflow_units() * one() - u * v) * pow2(53)) <= 2 * (u * v) + one()
                        * pow2(53)
                },
                Num::NotANumber => false,
            }
        }),
{
    lemma_pow2_pos(1074);
    lemma_pow2_pos(53);
    assert(u * v == v * u) by (nonlinear_arith);
    lemma_round_error_or_half(u * v, one());
    let y = round_units(u * v, one());
    if y >= overflow_units() {
        lemma_at_least(overflow_units(), y, one(), u * v, pow2(53));
    }
}

/// What is past a bound is past it by at least as much.
proof fn lemma_at_least(bound: nat, y: nat, den: nat, num: nat, e: nat)
    requires
        bound <= y,
        2 * ((y * den - num) * e) <= 2 * num + den * e,
    ensures
        2 * ((bound * den - num) * e) <= 2 * num + den * e,
{
    assert((bound * den - num) * e <= (y * den - num) * e) by (nonlinear_arith)
        requires
            bound <= y,
    ;
}

/// A quotient is the nearest number to the exact one, to within one part in two to the power 53
/// and half a unit, and has the sign that the two signs make; by zero it lies beyond every
/// number, and zero by zero is no number.
pub proof fn law_quotients(s: bool, u: nat, t: bool, v: nat)
    ensures
        ({
            let a = Num::Finite { negative: s, units: u };
            let b = Num::Finite { negative: t, units: v };
            &&& v == 0 && u == 0 ==> quotient(a, b) == Num::NotANumber
            &&& v == 0 && u > 0 ==> quotient(a, b) == (Num::Infinite { negative: s != t })
            &&& v > 0 ==> match quotient(a, b) {
                Num::Finite { negative, units } => {
                    &&& negative == (s != t)
                    &&& 2 * ((units * v - u * one()) * pow2(53)) <= 2 * (u * one()) + v * pow2(53)
                    &&& 2 * ((u * one() - units * v) * pow2(53)) <= 2 * (u * one()) + v * pow2(53)
                },
                Num::Infinite { negative } => {
                    &&& negative == (s != t)
                    &&& 2 * ((overflow_units() * v - u * one()) * pow2(53)) <= 2 * (u * one()) + v
                        * pow2(53)
                },
                Num::NotANumber => false,
            }
        }),
{
    lemma_pow2_pos(1074);
    lemma_pow2_pos(53);
    if v > 0 {
        lemma_round_error_or_half(u * one(), v);
        let y = round_units(u * one(), v);
        if y >= overflow_units() {
            lemma_at_least(overflow_units(), y, v, u * one(), pow2(53));
        }
    }
}

/// A sum is the nearest number to the exact one, to within one part in two to the power 53, and
/// does not depend on the order of the two.
pub proof fn law_sums(s: bool, u: nat, t: bool, v: nat)
    ensures
        ({
            let a = Num::Finite { negative: s, units: u };
            let b = Num::Finite { negative: t, units: v };
            let p = position(s, u) + position(t, v);
            let size = if p < 0 {
                -p
            } else {
                p
            };
            &&& sum(a, b) == sum(b, a)
            &&& match sum(a, b) {
                Num::Finite { negative, units } => {
                    &&& p < 0 ==> negative
                    &&& p > 0 ==> !negative
                    &&& (units - size) * pow2(53) <= size
                    &&& (size - units) * pow2(53) <= size
                },
                Num::Infinite { negative } => negative == (p < 0) && (overflow_units() - size)
                    * pow2(53) <= size,
                Num::NotANumber => false,
            }
        }),
{
    lemma_pow2_pos(53);
    let p = position(s, u) + position(t, v);
    let size = if p < 0 {
        (-p) as nat
    } else {
        p as nat
    };
    lemma_round_error(size, 1);
    let y = round_units(size, 1);
    assert(y * 1 == y);
    if y >= overflow_units() {
        assert((overflow_units() - size) * pow2(53) <= (y - size) * pow2(53)) by (nonlinear_arith)
            requires
                overflow_units() <= y,
        ;
    }
    if p == 0 {
        assert(y == 0) by (nonlinear_arith)
            requires
                (y * 1 - size) * pow2(53) <= size,
                size == 0,
                pow2(53) > 0,
        ;
        assert((y - size) * pow2(53) <= size) by (nonlinear_arith)
            requires
                y == 0,
                size == 0,
        ;
    }
}

/// Numbers on the same side of zero are on their own side by as much: the position of a number.
pub proof fn law_positions(units: nat)
    ensures
        position(false, units) == units,
        position(true, units) == -(units as int),
        opposite(Num::Finite { negative: false, units }) == (Num::Finite { negative: true, units }),
        opposite(Num::Finite { negative: true, units }) == (Num::Finite { negative: false, units }),
{
}

/// A number of the format times one, or divided by one, or with nothing added, is itself, and
/// divided by itself it is one.
pub proof fn law_one_and_zero_change_nothing(m: nat, k: nat)
    requires
        0 < m < pow2(53),
        m * pow2(k) < overflow_units(),
    ensures
        ({
            let x = Num::Finite { negative: false, units: m * pow2(k) };
            &&& ratio(1, 1) == (Num::Finite { negative: false, units: one() })
            &&& product(x, ratio(1, 1)) == x
            &&& quotient(x, ratio(1, 1)) == x
            &&& sum(x, ratio(0, 1)) == x
            &&& quotient(x, x) == ratio(1, 1)
            &&& sum(x, opposite(x)) == ratio(0, 1)
        }),
{
    let u = one();
    let units = m * pow2(k);
    lemma2_to64();
    lemma2_to64_rest();
    lemma_pow2_pos(1074);
    lemma_pow2_pos(k);
    lemma_pow2_strictly_increases(1074, 2098);
    assert(units > 0) by (nonlinear_arith)
        requires
            units == m * pow2(k),
            m > 0,
            pow2(k) > 0,
    ;
    assert(1 * pow2(1074) * 1 == 1 * u && 0 * pow2(1074) * 1 == 0 * u && 0 * u == 0);
    lemma_round_exact(1, 1074, 1);
    lemma_round_exact(0, 1074, 1);
    lemma_round_exact(m, k, u);
    lemma_round_exact(m, k, 1);
    assert(units * 1 == units);
    lemma_round_exact(1, 1074, units);
    assert(1 * pow2(1074) * units == units * u) by (nonlinear_arith)
        requires
            u == pow2(1074),
    ;
}

/// What the encodings stand for: zero, then one unit more with each, then twice as much further
/// on from one binade to the next, up to what lies beyond every number; the top bit is the sign.
pub proof fn law_encodings(bits: u64)
    requires
        bits < 0x7ff0_0000_0000_0000,
    ensures
        decode(0) == (Num::Finite { negative: false, units: 0 }),
        decode(0x3ff0_0000_0000_0000) == (Num::Finite { negative: false, units: one() }),
        decode(0x7ff0_0000_0000_0000) == (Num::Infinite { negative: false }),
        decode(0xfff0_0000_0000_0000) == (Num::Infinite { negative: true }),
        decode(bits) matches Num::Finite { negative, units } && !negative && decode(
            (bits + 0x8000_0000_0000_0000) as u64,
        ) == (Num::Finite { negative: true, units }),
        bits < 0x7fef_ffff_ffff_ffff ==> {
            let field = bits / 0x10_0000_0000_0000;
            decode((bits + 1) as u64)->Finite_units == decode(bits)->Finite_units + pow2(
                if field == 0 {
                    0
                } else {
                    (field - 1) as nat
                },
            )
        },
{
    lemma2_to64();
    lemma2_to64_rest();
    lemma2_to64_rest_53();
    lemma_pow2_adds(52, 1022);
    let high = (bits + 0x8000_0000_0000_0000) as u64;
    assert(high % 0x8000_0000_0000_0000 == bits);
    assert(bits % 0x8000_0000_0000_0000 == bits);
    let field = bits / 0x10_0000_0000_0000;
    let fraction = bits % 0x10_0000_0000_0000;
    assert(field <= 2046);
    if bits < 0x7fef_ffff_ffff_ffff {
        let next = (bits + 1) as u64;
        assert(next % 0x8000_0000_0000_0000 == next);
        if fraction == 0xf_ffff_ffff_ffff {
            assert(next / 0x10_0000_0000_0000 == field + 1 && next % 0x10_0000_0000_0000 == 0);
            if field > 0 {
                lemma_pow2_unfold(field as nat);
                let p = pow2((field - 1) as nat);
                assert(0x10_0000_0000_0000nat * (2 * p) == 0x1f_ffff_ffff_ffffnat * p + p);
            } else {
                assert(0x10_0000_0000_0000nat * pow2(0) == 0x10_0000_0000_0000);
            }
        } else {
            assert(next / 0x10_0000_0000_0000 == field && next % 0x10_0000_0000_0000 == fraction
                + 1);
            if field > 0 {
                let p = pow2((field - 1) as nat);
                assert((0x10_0000_0000_0000 + fraction + 1) * p == (0x10_0000_0000_0000 + fraction)
                    * p + p) by (nonlinear_arith);
            }
        }
    }
}

/// An encoding past that of what lies beyond every number is none of a number.
pub proof fn law_other_encodings(bits: u64)
    requires
        0x7ff0_0000_0000_0000 < bits < 0x8000_0000_0000_0000 || bits > 0xfff0_0000_0000_0000,
    ensures
        decode(bits) == Num::NotANumber,
{
}

/// A number of seconds is a span just where it is not negative and below two to the power 64;
/// the span is the nearest to it in nanoseconds, the even one halfway.
pub proof fn law_spans_are_to_the_nanosecond(units: nat)
    ensures
        units < pow2(64) * one() ==> {
            &&& span_of(Num::Finite { negative: false, units }) matches Some(nanos)
            &&& 2 * (nanos * one() - units * 1_000_000_000) <= one()
            &&& 2 * (units * 1_000_000_000 - nanos * one()) <= one()
        },
        units >= pow2(64) * one() ==> span_of(Num::Finite { negative: false, units }) is None,
        units > 0 ==> span_of(Num::Finite { negative: true, units }) is None,
        span_of(Num::Finite { negative: true, units: 0 }) == Some(0nat),
        span_of(Num::NotANumber) is None,
        span_of(Num::Infinite { negative: false }) is None,
        span_of(Num::Infinite { negative: true }) is None,
{
    lemma_pow2_pos(1074);
    lemma_pow2_pos(64);
    lemma_half_even_error(units * NANOS_PER_SEC as nat, one());
    lemma_half_even_error(0 * NANOS_PER_SEC as nat, one());
    let z = half_even(0 * NANOS_PER_SEC as nat, one());
    assert(z == 0) by (nonlinear_arith)
        requires
            2 * (z * one() - 0 * NANOS_PER_SEC as nat) <= one(),
            one() > 0,
    ;
    assert(pow2(64) * one() > 0) by (nonlinear_arith)
        requires
            pow2(64) > 0,
            one() > 0,
    ;
}

/// The longest span falls one nanosecond short of two to the power 64 seconds.
pub proof fn law_the_longest_span()
    ensures
        longest() + 1 == pow2(64) * 1_000_000_000,
{
    lemma2_to64();
    lemma2_to64_rest();
}

} // verus!
