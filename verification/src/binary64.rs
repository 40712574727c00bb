//! Binary numbers of 64 bits (IEEE 754 binary64), computed exactly and then rounded.
//!
//! Every finite number of the format is a whole multiple of the smallest positive one, two
//! to the power minus 1074. The contracts count in that unit, so each operation is stated
//! over integers: the exact result as a fraction, then the nearest number of the format.
use crate::bignat::BigNat;
use vstd::arithmetic::power2::{
    lemma2_to64, lemma_pow2_adds, lemma_pow2_pos, lemma_pow2_strictly_increases, lemma_pow2_unfold,
    pow2,
};
use vstd::prelude::*;

verus! {

/// What a number of the format stands for.
pub enum Num {
    /// No number at all.
    NotANumber,
    /// Beyond every finite number, on one side.
    Infinite { negative: bool },
    /// A sign and a magnitude, counted in units of the smallest positive number.
    Finite { negative: bool, units: nat },
}

/// How many units make one.
pub open spec fn one() -> nat {
    pow2(1074)
}

/// The first magnitude, in units, that the format does not reach.
pub open spec fn overflow_units() -> nat {
    pow2(2098)
}

/// The whole number nearest to `num / den`; halfway, the even one.
pub open spec fn half_even(num: nat, den: nat) -> nat {
    let q = num / den;
    let r = num % den;
    if 2 * r > den || (2 * r == den && q % 2 == 1) {
        q + 1
    } else {
        q
    }
}

/// The distance between neighbours at the magnitude `num / den`, as a power of two: the
/// least `k` for which 53 bits above it hold the whole part.
pub open spec fn spacing(num: nat, den: nat) -> nat
    decreases num - den,
{
    if den == 0 || num < den * pow2(53) {
        0
    } else {
        proof {
            lemma_double_below(num, den);
        }
        1 + spacing(num, 2 * den)
    }
}

/// The magnitude `num / den`, rounded to 53 significant bits or to whole units, whichever is
/// coarser.
pub open spec fn round_units(num: nat, den: nat) -> nat {
    let k = spacing(num, den);
    half_even(num, den * pow2(k)) * pow2(k)
}

/// The number with this sign and magnitude, infinite where the format ends.
pub open spec fn from_units(negative: bool, units: nat) -> Num {
    if units >= overflow_units() {
        Num::Infinite { negative }
    } else {
        Num::Finite { negative, units }
    }
}

/// The number of the format nearest to `num / den` units.
pub open spec fn rounded(negative: bool, num: nat, den: nat) -> Num {
    from_units(negative, round_units(num, den))
}

/// The number nearest to `num / den`.
pub open spec fn ratio(num: nat, den: nat) -> Num {
    rounded(false, num * one(), den)
}

/// A finite number's position on the line, in units.
pub open spec fn position(negative: bool, units: nat) -> int {
    if negative {
        -(units as int)
    } else {
        units as int
    }
}

/// The product.
pub open spec fn product(a: Num, b: Num) -> Num {
    match (a, b) {
        (Num::NotANumber, _) => Num::NotANumber,
        (_, Num::NotANumber) => Num::NotANumber,
        (Num::Infinite { negative: s }, Num::Infinite { negative: t }) => Num::Infinite {
            negative: s != t,
        },
        (Num::Infinite { negative: s }, Num::Finite { negative: t, units: v }) => if v == 0 {
            Num::NotANumber
        } else {
            Num::Infinite { negative: s != t }
        },
        (Num::Finite { negative: s, units: u }, Num::Infinite { negative: t }) => if u == 0 {
            Num::NotANumber
        } else {
            Num::Infinite { negative: s != t }
        },
        (Num::Finite { negative: s, units: u }, Num::Finite { negative: t, units: v }) => rounded(
            s != t,
            u * v,
            one(),
        ),
    }
}

/// The quotient.
pub open spec fn quotient(a: Num, b: Num) -> Num {
    match (a, b) {
        (Num::NotANumber, _) => Num::NotANumber,
        (_, Num::NotANumber) => Num::NotANumber,
        (Num::Infinite { .. }, Num::Infinite { .. }) => Num::NotANumber,
        (Num::Infinite { negative: s }, Num::Finite { negative: t, .. }) => Num::Infinite {
            negative: s != t,
        },
        (Num::Finite { negative: s, .. }, Num::Infinite { negative: t }) => Num::Finite {
            negative: s != t,
            units: 0,
        },
        (Num::Finite { negative: s, units: u }, Num::Finite { negative: t, units: v }) => if v
            != 0 {
            rounded(s != t, u * one(), v)
        } else if u == 0 {
            Num::NotANumber
        } else {
            Num::Infinite { negative: s != t }
        },
    }
}

/// The sum.
pub open spec fn sum(a: Num, b: Num) -> Num {
    match (a, b) {
        (Num::NotANumber, _) => Num::NotANumber,
        (_, Num::NotANumber) => Num::NotANumber,
        (Num::Infinite { negative: s }, Num::Infinite { negative: t }) => if s == t {
            Num::Infinite { negative: s }
        } else {
            Num::NotANumber
        },
        (Num::Infinite { negative: s }, _) => Num::Infinite { negative: s },
        (_, Num::Infinite { negative: t }) => Num::Infinite { negative: t },
        (Num::Finite { negative: s, units: u }, Num::Finite { negative: t, units: v }) => {
            let p = position(s, u) + position(t, v);
            if p == 0 {
                Num::Finite { negative: s && t, units: 0 }
            } else if p < 0 {
                rounded(true, (-p) as nat, 1)
            } else {
                rounded(false, p as nat, 1)
            }
        },
    }
}

/// The number on the other side of zero.
pub open spec fn opposite(a: Num) -> Num {
    match a {
        Num::NotANumber => Num::NotANumber,
        Num::Infinite { negative } => Num::Infinite { negative: !negative },
        Num::Finite { negative, units } => Num::Finite { negative: !negative, units },
    }
}

/// Whether `a` lies below `b`; never where either is no number.
pub open spec fn below(a: Num, b: Num) -> bool {
    match (a, b) {
        (Num::NotANumber, _) => false,
        (_, Num::NotANumber) => false,
        (Num::Infinite { negative: s }, Num::Infinite { negative: t }) => s && !t,
        (Num::Infinite { negative: s }, _) => s,
        (_, Num::Infinite { negative: t }) => !t,
        (Num::Finite { negative: s, units: u }, Num::Finite { negative: t, units: v }) => position(
            s,
            u,
        ) < position(t, v),
    }
}

/// Whether the two are the same number; the two zeros are.
pub open spec fn same(a: Num, b: Num) -> bool {
    match (a, b) {
        (Num::Infinite { negative: s }, Num::Infinite { negative: t }) => s == t,
        (Num::Finite { negative: s, units: u }, Num::Finite { negative: t, units: v }) => position(
            s,
            u,
        ) == position(t, v),
        _ => false,
    }
}

/// The whole part, held to what a `u64` reaches; zero where it is no number.
pub open spec fn whole_u64(a: Num) -> u64 {
    match a {
        Num::NotANumber => 0,
        Num::Infinite { negative } => if negative {
            0
        } else {
            u64::MAX
        },
        Num::Finite { negative, units } => if negative {
            0
        } else if units / one() > u64::MAX {
            u64::MAX
        } else {
            (units / one()) as u64
        },
    }
}

/// Where 53 bits do not hold the whole part, the denominator can double.
pub proof fn lemma_double_below(num: nat, den: nat)
    requires
        den > 0,
        num >= den * pow2(53),
    ensures
        num >= 2 * den,
        num - 2 * den < num - den,
{
    lemma2_to64();
    lemma_pow2_strictly_increases(1, 53);
    assert(den * pow2(53) >= den * 2) by (nonlinear_arith)
        requires
            pow2(53) >= 2,
    ;
}

/// Doubling the denominator takes one from the exponent.
proof fn lemma_double_pow2(den: nat, e: nat)
    ensures
        (2 * den) * pow2(e) == den * pow2(e + 1),
{
    lemma_pow2_unfold(e + 1);
    assert((2 * den) * pow2(e) == den * (2 * pow2(e))) by (nonlinear_arith);
}

/// The spacing's two bounds.
pub proof fn lemma_spacing_bounds(num: nat, den: nat)
    requires
        den > 0,
    ensures
        num < den * pow2(53 + spacing(num, den)),
        spacing(num, den) > 0 ==> num >= den * pow2((52 + spacing(num, den)) as nat),
    decreases num - den,
{
    if num >= den * pow2(53) {
        lemma_double_below(num, den);
        lemma_spacing_bounds(num, 2 * den);
        let k = spacing(num, 2 * den);
        lemma_double_pow2(den, 53 + k);
        lemma_double_pow2(den, 52 + k);
    }
}

/// The spacing is the only exponent within its bounds.
pub proof fn lemma_spacing_is(num: nat, den: nat, k: nat)
    requires
        den > 0,
        num < den * pow2(53 + k),
        k > 0 ==> num >= den * pow2((52 + k) as nat),
    ensures
        spacing(num, den) == k,
    decreases k,
{
    if k > 0 {
        if k > 1 {
            lemma_pow2_strictly_increases(53, 52 + k);
        }
        assert(den * pow2(53) <= den * pow2((52 + k) as nat)) by (nonlinear_arith)
            requires
                pow2(53) <= pow2((52 + k) as nat),
        ;
        let j = (k - 1) as nat;
        lemma_double_pow2(den, 53 + j);
        if j > 0 {
            lemma_double_pow2(den, 52 + j);
        }
        lemma_spacing_is(num, 2 * den, j);
    }
}

/// A magnitude past the format's end stays past it when rounded.
pub proof fn lemma_round_overflows(num: nat, den: nat)
    requires
        den > 0,
        num >= den * overflow_units(),
    ensures
        round_units(num, den) >= overflow_units(),
{
    let k = spacing(num, den);
    lemma_spacing_bounds(num, den);
    assert(k >= 2046) by {
        if k < 2046 {
            if 53 + k < 2098 {
                lemma_pow2_strictly_increases(53 + k, 2098);
            }
            assert(den * pow2(53 + k) <= den * pow2(2098)) by (nonlinear_arith)
                requires
                    pow2(53 + k) <= pow2(2098),
            ;
        }
    }
    let d = den * pow2(k);
    lemma_pow2_pos(k);
    assert(d > 0) by (nonlinear_arith)
        requires
            d == den * pow2(k),
            den > 0,
            pow2(k) > 0,
    ;
    lemma_pow2_adds(52, k);
    assert(den * pow2((52 + k) as nat) == pow2(52) * d) by (nonlinear_arith)
        requires
            d == den * pow2(k),
            pow2((52 + k) as nat) == pow2(52) * pow2(k),
    ;
    let q = num / d;
    vstd::arithmetic::div_mod::lemma_fundamental_div_mod(num as int, d as int);
    assert(q >= pow2(52)) by (nonlinear_arith)
        requires
            num >= pow2(52) * d,
            num == d * q + num % d,
            num % d < d,
            d > 0,
    ;
    if 52 + k > 2098 {
        lemma_pow2_strictly_increases(2098, 52 + k);
    }
    assert(half_even(num, d) * pow2(k) >= pow2(52) * pow2(k)) by (nonlinear_arith)
        requires
            half_even(num, d) >= pow2(52),
    ;
}

/// Rounding to a whole number keeps order.
pub proof fn lemma_half_even_monotone(a: nat, b: nat, c: nat, d: nat)
    requires
        b > 0,
        d > 0,
        a * d <= c * b,
    ensures
        half_even(a, b) <= half_even(c, d),
{
    let (q, r) = (a / b, a % b);
    let (p, t) = (c / d, c % d);
    vstd::arithmetic::div_mod::lemma_fundamental_div_mod(a as int, b as int);
    vstd::arithmetic::div_mod::lemma_fundamental_div_mod(c as int, d as int);
    assert(q <= p) by (nonlinear_arith)
        requires
            a * d <= c * b,
            a == b * q + r,
            c == d * p + t,
            0 <= r,
            t < d,
            b > 0,
            d > 0,
    ;
    if q == p {
        assert(r * d <= t * b) by (nonlinear_arith)
            requires
                a * d <= c * b,
                a == b * q + r,
                c == d * p + t,
                q == p,
        ;
        assert(2 * r > b ==> 2 * t > d) by (nonlinear_arith)
            requires
                r * d <= t * b,
                b > 0,
                d > 0,
        ;
        assert(2 * r == b ==> 2 * t >= d) by (nonlinear_arith)
            requires
                r * d <= t * b,
                b > 0,
                d > 0,
        ;
    }
}

/// What the rounded magnitude keeps of the spacing.
proof fn lemma_round_bounds(num: nat, den: nat)
    requires
        den > 0,
    ensures
        round_units(num, den) <= pow2(53 + spacing(num, den)),
        spacing(num, den) > 0 ==> round_units(num, den) >= pow2((52 + spacing(num, den)) as nat),
{
    let k = spacing(num, den);
    let d = den * pow2(k);
    lemma_spacing_bounds(num, den);
    lemma_pow2_pos(k);
    lemma_pow2_adds(53, k);
    lemma_pow2_adds(52, k);
    assert(d > 0) by (nonlinear_arith)
        requires
            d == den * pow2(k),
            den > 0,
            pow2(k) > 0,
    ;
    assert(den * pow2(53 + k) == pow2(53) * d) by (nonlinear_arith)
        requires
            d == den * pow2(k),
            pow2(53 + k) == pow2(53) * pow2(k),
    ;
    lemma_half_even_whole(pow2(53), d);
    assert(num * d <= (pow2(53) * d) * d) by (nonlinear_arith)
        requires
            num <= pow2(53) * d,
    ;
    lemma_half_even_monotone(num, d, pow2(53) * d, d);
    assert(half_even(num, d) * pow2(k) <= pow2(53) * pow2(k)) by (nonlinear_arith)
        requires
            half_even(num, d) <= pow2(53),
    ;
    if k > 0 {
        assert(den * pow2((52 + k) as nat) == pow2(52) * d) by (nonlinear_arith)
            requires
                d == den * pow2(k),
                pow2((52 + k) as nat) == pow2(52) * pow2(k),
        ;
        lemma_half_even_whole(pow2(52), d);
        assert((pow2(52) * d) * d <= num * d) by (nonlinear_arith)
            requires
                pow2(52) * d <= num,
        ;
        lemma_half_even_monotone(pow2(52) * d, d, num, d);
        assert(half_even(num, d) * pow2(k) >= pow2(52) * pow2(k)) by (nonlinear_arith)
            requires
                half_even(num, d) >= pow2(52),
        ;
    }
}

/// A whole number needs no rounding.
pub proof fn lemma_half_even_whole(n: nat, d: nat)
    requires
        d > 0,
    ensures
        half_even(n * d, d) == n,
{
    vstd::arithmetic::div_mod::lemma_div_by_multiple(n as int, d as int);
    vstd::arithmetic::div_mod::lemma_mod_multiples_basic(n as int, d as int);
}

/// Rounding keeps order: of two fractions, the smaller never becomes the larger.
pub proof fn lemma_round_monotone(a: nat, b: nat, c: nat, d: nat)
    requires
        b > 0,
        d > 0,
        a * d <= c * b,
    ensures
        round_units(a, b) <= round_units(c, d),
{
    let k = spacing(a, b);
    let l = spacing(c, d);
    lemma_spacing_bounds(a, b);
    lemma_spacing_bounds(c, d);
    assert(k <= l) by {
        if k > l {
            if 53 + l < 52 + k {
                lemma_pow2_strictly_increases(53 + l, (52 + k) as nat);
            }
            let (x, y) = (pow2((52 + k) as nat), pow2(53 + l));
            assert(a * d > c * b) by (nonlinear_arith)
                requires
                    a >= b * x,
                    c < d * y,
                    y <= x,
                    b > 0,
                    d > 0,
            ;
        }
    }
    if k == l {
        let p = pow2(k);
        lemma_pow2_pos(k);
        assert(a * (d * p) <= c * (b * p)) by (nonlinear_arith)
            requires
                a * d <= c * b,
        ;
        assert(b * p > 0 && d * p > 0) by (nonlinear_arith)
            requires
                b > 0,
                d > 0,
                p > 0,
        ;
        lemma_half_even_monotone(a, b * p, c, d * p);
        let (m, n) = (half_even(a, b * p), half_even(c, d * p));
        assert(m * p <= n * p) by (nonlinear_arith)
            requires
                m <= n,
        ;
    } else {
        lemma_round_bounds(a, b);
        lemma_round_bounds(c, d);
        if 53 + k < 52 + l {
            lemma_pow2_strictly_increases(53 + k, (52 + l) as nat);
        }
    }
}

/// Rounding leaves a number of the format as it is: 53 bits at any magnitude.
pub proof fn lemma_round_exact(m: nat, s: nat, d: nat)
    requires
        m < pow2(53),
        d > 0,
    ensures
        round_units(m * pow2(s) * d, d) == m * pow2(s),
{
    let n = m * pow2(s);
    let num = n * d;
    let k = spacing(num, d);
    lemma_spacing_bounds(num, d);
    lemma_pow2_pos(s);
    lemma_pow2_pos(k);
    assert(k <= s) by {
        if k > s {
            if 53 + s < 52 + k {
                lemma_pow2_strictly_increases(53 + s, (52 + k) as nat);
            }
            lemma_pow2_adds(53, s);
            let x = pow2((52 + k) as nat);
            assert(num < d * x) by (nonlinear_arith)
                requires
                    num == m * pow2(s) * d,
                    m < pow2(53),
                    pow2(53) * pow2(s) <= x,
                    pow2(s) > 0,
                    d > 0,
            ;
        }
    }
    let e = (s - k) as nat;
    lemma_pow2_adds(e, k);
    let q = m * pow2(e);
    assert(n == q * pow2(k)) by (nonlinear_arith)
        requires
            n == m * pow2(s),
            pow2(s) == pow2(e) * pow2(k),
            q == m * pow2(e),
    ;
    assert(num == q * (d * pow2(k))) by (nonlinear_arith)
        requires
            num == n * d,
            n == q * pow2(k),
    ;
    assert(d * pow2(k) > 0) by (nonlinear_arith)
        requires
            d > 0,
            pow2(k) > 0,
    ;
    lemma_half_even_whole(q, d * pow2(k));
}

/// A whole number below two to the power 53 is exact.
pub proof fn lemma_whole_exact(n: nat)
    requires
        n < pow2(53),
    ensures
        ratio(n, 1) == (Num::Finite { negative: false, units: n * one() }),
{
    assert(n * pow2(1074) * 1 == n * one());
    lemma_round_exact(n, 1074, 1);
    lemma_pow2_adds(53, 1074);
    lemma_pow2_pos(1074);
    lemma_pow2_strictly_increases(1127, 2098);
    assert(n * one() < pow2(53) * one()) by (nonlinear_arith)
        requires
            n < pow2(53),
            one() > 0,
    ;
}

/// One is exact.
pub proof fn lemma_whole_exact_one()
    ensures
        ratio(1, 1) == (Num::Finite { negative: false, units: one() }),
{
    lemma2_to64();
    vstd::arithmetic::power2::lemma2_to64_rest();
    lemma_whole_exact(1);
}

/// What the encoding `bits` stands for.
pub open spec fn decode(bits: u64) -> Num {
    let negative = bits >= 0x8000_0000_0000_0000;
    let rest = bits % 0x8000_0000_0000_0000;
    let field = rest / 0x10_0000_0000_0000;
    let fraction = rest % 0x10_0000_0000_0000;
    if field == 2047 {
        if fraction == 0 {
            Num::Infinite { negative }
        } else {
            Num::NotANumber
        }
    } else if field == 0 {
        Num::Finite { negative, units: fraction as nat }
    } else {
        Num::Finite {
            negative,
            units: (0x10_0000_0000_0000 + fraction) as nat * pow2((field - 1) as nat),
        }
    }
}

/// A mantissa and its exponent lie side by side in the encoding, carry and all.
proof fn lemma_encode(negative: bool, k: nat, m: nat, bits: u64)
    requires
        k <= 2045,
        m <= 0x20_0000_0000_0000,
        k == 0 || m >= 0x10_0000_0000_0000,
        bits == (if negative {
            0x8000_0000_0000_0000int
        } else {
            0
        }) + k * 0x10_0000_0000_0000 + m,
    ensures
        decode(bits) == from_units(negative, m * pow2(k)),
{
    lemma2_to64();
    lemma2_to64_rest_53();
    let rest = bits % 0x8000_0000_0000_0000;
    assert(rest == k * 0x10_0000_0000_0000 + m);
    lemma_pow2_adds(53, k);
    if m < 0x10_0000_0000_0000 {
        assert(m * pow2(0) == m) by (nonlinear_arith)
            requires
                pow2(0) == 1,
        ;
        lemma_pow2_strictly_increases(53, 2098);
    } else if m < 0x20_0000_0000_0000 {
        assert(rest / 0x10_0000_0000_0000 == k + 1);
        assert(rest % 0x10_0000_0000_0000 == m - 0x10_0000_0000_0000);
        assert(m * pow2(k) < pow2(53) * pow2(k)) by (nonlinear_arith)
            requires
                m < pow2(53),
                pow2(k) > 0,
        {
        }
        if 53 + k < 2098 {
            lemma_pow2_strictly_increases(53 + k, 2098);
        }
    } else {
        assert(rest / 0x10_0000_0000_0000 == k + 2);
        assert(rest % 0x10_0000_0000_0000 == 0);
        lemma_pow2_unfold(k + 1);
        assert(0x20_0000_0000_0000 * pow2(k) == 0x10_0000_0000_0000 * (2 * pow2(k)))
            by (nonlinear_arith);
        if 53 + k < 2098 {
            lemma_pow2_strictly_increases(53 + k, 2098);
        }
    }
}

/// Powers of two that the format is made of; every power of two is positive.
pub(crate) proof fn lemma2_to64_rest_53()
    ensures
        pow2(52) == 0x10_0000_0000_0000,
        pow2(53) == 0x20_0000_0000_0000,
        forall|k: nat| #[trigger] pow2(k) > 0,
{
    vstd::arithmetic::power2::lemma2_to64_rest();
    assert forall|k: nat| #[trigger] pow2(k) > 0 by {
        lemma_pow2_pos(k);
    }
}

/// A magnitude is zero just where its mantissa is.
proof fn lemma_zero_units(m: nat, k: nat)
    ensures
        m * pow2(k) == 0 <==> m == 0,
{
    lemma_pow2_pos(k);
    assert(m * pow2(k) == 0 <==> m == 0) by (nonlinear_arith)
        requires
            pow2(k) > 0,
    ;
}

/// Halving a quotient doubles its divisor.
proof fn lemma_halve(m: nat, e: nat)
    ensures
        m / pow2(e + 1) == (m / pow2(e)) / 2,
{
    lemma_pow2_pos(e);
    lemma_pow2_unfold(e + 1);
    vstd::arithmetic::div_mod::lemma_div_denominator(m as int, pow2(e) as int, 2);
    assert(pow2(e) * 2 == pow2(e + 1)) by (nonlinear_arith)
        requires
            pow2(e + 1) == 2 * pow2(e),
    ;
}

/// A common factor cancels from a quotient.
proof fn lemma_cancel(m: nat, a: nat, b: nat)
    requires
        a > 0,
        b > 0,
    ensures
        (m * a) / (a * b) == m / b,
{
    vstd::arithmetic::div_mod::lemma_div_denominator((m * a) as int, a as int, b as int);
    vstd::arithmetic::div_mod::lemma_div_by_multiple(m as int, a as int);
}

/// Two to the power 100.
pub(crate) proof fn lemma_pow2_100()
    ensures
        pow2(100) == 0x10_0000_0000_0000_0000_0000_0000,
{
    lemma2_to64();
    vstd::arithmetic::power2::lemma2_to64_rest();
    lemma_pow2_adds(64, 36);
    assert(0x1_0000_0000_0000_0000 * 0x10_0000_0000 == 0x10_0000_0000_0000_0000_0000_0000nat)
        by (nonlinear_arith);
}

/// A common factor does not change the nearest whole number.
pub proof fn lemma_half_even_scales(num: nat, den: nat, factor: nat)
    requires
        den > 0,
        factor > 0,
    ensures
        half_even(num * factor, factor * den) == half_even(num, den),
{
    let q = num / den;
    let r = num % den;
    vstd::arithmetic::div_mod::lemma_fundamental_div_mod(num as int, den as int);
    assert(num * factor == q * (factor * den) + r * factor) by (nonlinear_arith)
        requires
            num == den * q + r,
    ;
    assert(0 <= r * factor < factor * den) by (nonlinear_arith)
        requires
            0 <= r < den,
            factor > 0,
    ;
    vstd::arithmetic::div_mod::lemma_fundamental_div_mod_converse(
        (num * factor) as int,
        (factor * den) as int,
        q as int,
        (r * factor) as int,
    );
    assert(2 * (r * factor) > factor * den <==> 2 * r > den) by (nonlinear_arith)
        requires
            factor > 0,
    ;
    assert(2 * (r * factor) == factor * den <==> 2 * r == den) by (nonlinear_arith)
        requires
            factor > 0,
    ;
}

/// A number of the format, held as its encoding.
#[derive(Clone, Copy, Debug)]
pub struct Binary64 {
    bits: u64,
}

impl PartialEq for Binary64 {
    fn eq(&self, other: &Self) -> (r: bool) {
        self.equals(*other)
    }
}

impl vstd::std_specs::cmp::PartialEqSpecImpl for Binary64 {
    open spec fn obeys_eq_spec() -> bool {
        true
    }

    open spec fn eq_spec(&self, other: &Self) -> bool {
        same(self@, other@)
    }
}

impl View for Binary64 {
    type V = Num;

    closed spec fn view(&self) -> Num {
        decode(self.bits)
    }
}

/// A number taken apart.
pub(crate) enum Parts {
    NotANumber,
    Infinite { negative: bool },
    Finite { negative: bool, mantissa: u64, scale: u64 },
}

impl Parts {
    /// Whether these are the parts of a number.
    pub(crate) open spec fn stands_for(self, num: Num) -> bool {
        match self {
            Parts::NotANumber => num == Num::NotANumber,
            Parts::Infinite { negative } => num == (Num::Infinite { negative }),
            Parts::Finite { negative, mantissa, scale } => {
                &&& mantissa < 0x20_0000_0000_0000
                &&& scale <= 2045
                &&& scale == 0 || mantissa >= 0x10_0000_0000_0000
                &&& num == (Num::Finite { negative, units: mantissa as nat * pow2(scale as nat) })
            },
        }
    }
}

impl Binary64 {
    /// The number whose encoding is `bits`.
    pub fn from_bits(bits: u64) -> (r: Self)
        ensures
            r@ == decode(bits),
    {
        Binary64 { bits }
    }

    /// This number's encoding.
    pub fn to_bits(self) -> (bits: u64)
        ensures
            decode(bits) == self@,
    {
        self.bits
    }

    /// The sign, the mantissa and the scale.
    pub(crate) fn parts(self) -> (r: Parts)
        ensures
            r.stands_for(self@),
    {
        let negative: bool = self.bits >= 0x8000_0000_0000_0000;
        let rest: u64 = self.bits % 0x8000_0000_0000_0000;
        let field: u64 = rest / 0x10_0000_0000_0000;
        let fraction: u64 = rest % 0x10_0000_0000_0000;
        if field == 2047 {
            if fraction == 0 {
                Parts::Infinite { negative }
            } else {
                Parts::NotANumber
            }
        } else if field == 0 {
            proof {
                lemma2_to64();
                assert(fraction as nat * pow2(0) == fraction) by (nonlinear_arith)
                    requires
                        pow2(0) == 1,
                ;
            }
            Parts::Finite { negative, mantissa: fraction, scale: 0 }
        } else {
            Parts::Finite { negative, mantissa: 0x10_0000_0000_0000 + fraction, scale: field - 1 }
        }
    }

    /// The number with this sign, mantissa and scale.
    fn encode(negative: bool, k: u64, m: u64) -> (r: Self)
        requires
            k <= 2045,
            m <= 0x20_0000_0000_0000,
            k == 0 || m >= 0x10_0000_0000_0000,
        ensures
            r@ == from_units(negative, m as nat * pow2(k as nat)),
    {
        let sign: u64 = if negative {
            0x8000_0000_0000_0000
        } else {
            0
        };
        let bits: u64 = sign + k * 0x10_0000_0000_0000 + m;
        proof {
            lemma_encode(negative, k as nat, m as nat, bits);
        }
        Binary64 { bits }
    }

    /// Beyond every finite number, on one side.
    pub(crate) fn infinite(negative: bool) -> (r: Self)
        ensures
            r@ == (Num::Infinite { negative }),
    {
        if negative {
            Binary64 { bits: 0xfff0_0000_0000_0000 }
        } else {
            Binary64 { bits: 0x7ff0_0000_0000_0000 }
        }
    }

    /// No number.
    pub(crate) fn not_a_number() -> (r: Self)
        ensures
            r@ == Num::NotANumber,
    {
        Binary64 { bits: 0x7ff8_0000_0000_0000 }
    }

    /// Zero, with a sign.
    pub(crate) fn zero(negative: bool) -> (r: Self)
        ensures
            r@ == (Num::Finite { negative, units: 0 }),
    {
        if negative {
            Binary64 { bits: 0x8000_0000_0000_0000 }
        } else {
            Binary64 { bits: 0 }
        }
    }

    /// The number nearest to `num / den` units.
    pub(crate) fn nearest(negative: bool, num: &BigNat, den: &BigNat) -> (r: Self)
        requires
            den@ > 0,
        ensures
            r@ == rounded(negative, num@, den@),
    {
        let mut top: BigNat = den.times_pow2(53);
        let mut k: u64 = 0;
        while k < 2046 && !num.less_than(&top)
            invariant
                k <= 2046,
                top@ == den@ * pow2((53 + k) as nat),
                k > 0 ==> num@ >= den@ * pow2((52 + k) as nat),
            decreases 2046 - k,
        {
            top = top.times_plus(2, 0);
            proof {
                lemma_pow2_unfold((54 + k) as nat);
                assert(den@ * pow2((53 + k) as nat) * 2 == den@ * (2 * pow2((53 + k) as nat)))
                    by (nonlinear_arith);
            }
            k = k + 1;
        }
        if k == 2046 {
            proof {
                lemma_round_overflows(num@, den@);
            }
            return Self::infinite(negative);
        }
        let ghost d = den@ * pow2(k as nat);
        proof {
            lemma_spacing_is(num@, den@, k as nat);
            lemma2_to64();
            lemma2_to64_rest_53();
            lemma_pow2_adds(53, k as nat);
            assert(top@ == d * pow2(53)) by (nonlinear_arith)
                requires
                    top@ == den@ * pow2((53 + k) as nat),
                    pow2((53 + k) as nat) == pow2(53) * pow2(k as nat),
                    d == den@ * pow2(k as nat),
            ;
            assert(d > 0) by (nonlinear_arith)
                requires
                    d == den@ * pow2(k as nat),
                    den@ > 0,
                    pow2(k as nat) > 0,
            ;
        }
        let mut rest: BigNat = num.duplicate();
        let mut q: u64 = 0;
        let mut i: u64 = 0;
        proof {
            assert(num@ * pow2(0) == num@) by (nonlinear_arith)
                requires
                    pow2(0) == 1,
            ;
            assert(0 * top@ == 0) by (nonlinear_arith);
        }
        while i < 53
            invariant
                i <= 53,
                q < pow2(i as nat),
                rest@ < top@,
                num@ * pow2(i as nat) == q * top@ + rest@,
            decreases 53 - i,
        {
            proof {
                lemma2_to64();
                lemma2_to64_rest_53();
                lemma_pow2_unfold((i + 1) as nat);
                if i < 52 {
                    lemma_pow2_strictly_increases(i as nat, 52);
                }
                assert(num@ * (2 * pow2(i as nat)) == 2 * (num@ * pow2(i as nat)))
                    by (nonlinear_arith);
                assert((2 * q) * top@ == 2 * (q * top@)) by (nonlinear_arith);
                assert((2 * q + 1) * top@ == 2 * (q * top@) + top@) by (nonlinear_arith);
            }
            rest = rest.times_plus(2, 0);
            if rest.less_than(&top) {
                q = 2 * q;
            } else {
                rest = rest.minus(&top);
                q = 2 * q + 1;
            }
            i = i + 1;
        }
        let doubled: BigNat = rest.times_plus(2, 0);
        let above: bool = top.less_than(&doubled);
        let halfway: bool = !above && !doubled.less_than(&top);
        proof {
            Self::lemma_division(num@, d, q as nat, rest@, top@);
            lemma_pow2_pos(k as nat);
            assert(q as nat == num@ / d);
            if k > 0 {
                lemma_pow2_adds(52, k as nat);
                assert(den@ * pow2((52 + k) as nat) == pow2(52) * d) by (nonlinear_arith)
                    requires
                        d == den@ * pow2(k as nat),
                        pow2((52 + k) as nat) == pow2(52) * pow2(k as nat),
                ;
                assert(q >= pow2(52)) by (nonlinear_arith)
                    requires
                        num@ >= pow2(52) * d,
                        num@ == d * q + num@ % d,
                        num@ % d < d,
                        d > 0,
                ;
            }
        }
        let m: u64 = if above || (halfway && q % 2 == 1) {
            q + 1
        } else {
            q
        };
        Self::encode(negative, k, m)
    }

    /// A magnitude in units, as a natural number.
    fn units(mantissa: u64, scale: u64) -> (r: BigNat)
        ensures
            r@ == mantissa as nat * pow2(scale as nat),
    {
        BigNat::from_u64(mantissa).times_pow2(scale)
    }

    /// The number nearest to `num / den`.
    pub fn from_ratio(num: u64, den: u64) -> (r: Self)
        requires
            den > 0,
        ensures
            r@ == ratio(num as nat, den as nat),
    {
        Self::nearest(false, &BigNat::from_u64(num).times_pow2(1074), &BigNat::from_u64(den))
    }

    /// The number nearest to `n`.
    pub fn from_u64(n: u64) -> (r: Self)
        ensures
            r@ == ratio(n as nat, 1),
    {
        Self::from_ratio(n, 1)
    }

    /// The product of the two numbers.
    pub fn times(self, other: Self) -> (r: Self)
        ensures
            r@ == product(self@, other@),
    {
        match (self.parts(), other.parts()) {
            (Parts::NotANumber, _) => Self::not_a_number(),
            (_, Parts::NotANumber) => Self::not_a_number(),
            (
                Parts::Infinite { negative: s },
                Parts::Infinite { negative: t },
            ) => Self::infinite(s != t),
            (
                Parts::Infinite { negative: s },
                Parts::Finite { negative: t, mantissa: n, scale: l },
            ) => {
                proof {
                    lemma_zero_units(n as nat, l as nat);
                }
                if n == 0 {
                    Self::not_a_number()
                } else {
                    Self::infinite(s != t)
                }
            },
            (
                Parts::Finite { negative: s, mantissa: m, scale: k },
                Parts::Infinite { negative: t },
            ) => {
                proof {
                    lemma_zero_units(m as nat, k as nat);
                }
                if m == 0 {
                    Self::not_a_number()
                } else {
                    Self::infinite(s != t)
                }
            },
            (
                Parts::Finite { negative: s, mantissa: m, scale: k },
                Parts::Finite { negative: t, mantissa: n, scale: l },
            ) => {
                let num: BigNat = BigNat::from_u64(m).times_u64(n).times_pow2(k + l);
                let den: BigNat = BigNat::from_u64(1).times_pow2(1074);
                proof {
                    lemma_pow2_pos(1074);
                    lemma_pow2_adds(k as nat, l as nat);
                    let (a, b) = (pow2(k as nat), pow2(l as nat));
                    assert((m as nat * n as nat) * (a * b) == (m as nat * a) * (n as nat * b))
                        by (nonlinear_arith);
                }
                Self::nearest(s != t, &num, &den)
            },
        }
    }

    /// The quotient of the two numbers.
    pub fn over(self, other: Self) -> (r: Self)
        ensures
            r@ == quotient(self@, other@),
    {
        match (self.parts(), other.parts()) {
            (Parts::NotANumber, _) => Self::not_a_number(),
            (_, Parts::NotANumber) => Self::not_a_number(),
            (Parts::Infinite { .. }, Parts::Infinite { .. }) => Self::not_a_number(),
            (
                Parts::Infinite { negative: s },
                Parts::Finite { negative: t, .. },
            ) => Self::infinite(s != t),
            (Parts::Finite { negative: s, .. }, Parts::Infinite { negative: t }) => Self::zero(
                s != t,
            ),
            (
                Parts::Finite { negative: s, mantissa: m, scale: k },
                Parts::Finite { negative: t, mantissa: n, scale: l },
            ) => {
                proof {
                    lemma_zero_units(m as nat, k as nat);
                    lemma_zero_units(n as nat, l as nat);
                }
                if n != 0 {
                    let num: BigNat = Self::units(m, k).times_pow2(1074);
                    Self::nearest(s != t, &num, &Self::units(n, l))
                } else if m == 0 {
                    Self::not_a_number()
                } else {
                    Self::infinite(s != t)
                }
            },
        }
    }

    /// The number on the other side of zero.
    pub fn negated(self) -> (r: Self)
        ensures
            r@ == opposite(self@),
    {
        let bits: u64 = if self.bits >= 0x8000_0000_0000_0000 {
            self.bits - 0x8000_0000_0000_0000
        } else {
            self.bits + 0x8000_0000_0000_0000
        };
        Binary64 { bits }
    }

    /// The sum of the two numbers.
    pub fn plus(self, other: Self) -> (r: Self)
        ensures
            r@ == sum(self@, other@),
    {
        match (self.parts(), other.parts()) {
            (Parts::NotANumber, _) => Self::not_a_number(),
            (_, Parts::NotANumber) => Self::not_a_number(),
            (Parts::Infinite { negative: s }, Parts::Infinite { negative: t }) => if s == t {
                Self::infinite(s)
            } else {
                Self::not_a_number()
            },
            (Parts::Infinite { negative: s }, _) => Self::infinite(s),
            (_, Parts::Infinite { negative: t }) => Self::infinite(t),
            (
                Parts::Finite { negative: s, mantissa: m, scale: k },
                Parts::Finite { negative: t, mantissa: n, scale: l },
            ) => {
                let u: BigNat = Self::units(m, k);
                let v: BigNat = Self::units(n, l);
                let den: BigNat = BigNat::from_u64(1);
                if s == t {
                    let total: BigNat = u.plus(&v);
                    if !BigNat::from_u64(0).less_than(&total) {
                        Self::zero(s)
                    } else {
                        Self::nearest(s, &total, &den)
                    }
                } else if v.less_than(&u) {
                    Self::nearest(s, &u.minus(&v), &den)
                } else if u.less_than(&v) {
                    Self::nearest(t, &v.minus(&u), &den)
                } else {
                    Self::zero(false)
                }
            },
        }
    }

    /// The difference of the two numbers.
    pub fn minus(self, other: Self) -> (r: Self)
        ensures
            r@ == sum(self@, opposite(other@)),
    {
        self.plus(other.negated())
    }

    /// Whether this number lies below the other.
    pub fn less_than(self, other: Self) -> (r: bool)
        ensures
            r == below(self@, other@),
    {
        match (self.parts(), other.parts()) {
            (Parts::NotANumber, _) => false,
            (_, Parts::NotANumber) => false,
            (Parts::Infinite { negative: s }, Parts::Infinite { negative: t }) => s && !t,
            (Parts::Infinite { negative: s }, _) => s,
            (_, Parts::Infinite { negative: t }) => !t,
            (
                Parts::Finite { negative: s, mantissa: m, scale: k },
                Parts::Finite { negative: t, mantissa: n, scale: l },
            ) => {
                let u: BigNat = Self::units(m, k);
                let v: BigNat = Self::units(n, l);
                if s && t {
                    v.less_than(&u)
                } else if s {
                    BigNat::from_u64(0).less_than(&u.plus(&v))
                } else if t {
                    false
                } else {
                    u.less_than(&v)
                }
            },
        }
    }

    /// Whether the two are the same number.
    pub fn equals(self, other: Self) -> (r: bool)
        ensures
            r == same(self@, other@),
    {
        match (self.parts(), other.parts()) {
            (Parts::NotANumber, _) => false,
            (_, Parts::NotANumber) => false,
            (Parts::Infinite { negative: s }, Parts::Infinite { negative: t }) => s == t,
            (Parts::Infinite { .. }, _) => false,
            (_, Parts::Infinite { .. }) => false,
            _ => !self.less_than(other) && !other.less_than(self),
        }
    }

    /// Whether this number lies at or below the other.
    pub fn at_most(self, other: Self) -> (r: bool)
        ensures
            r == (below(self@, other@) || same(self@, other@)),
    {
        self.less_than(other) || self.equals(other)
    }

    /// Whether this is a number, and not an infinite one.
    pub fn is_finite(self) -> (r: bool)
        ensures
            r == (self@ is Finite),
    {
        match self.parts() {
            Parts::Finite { .. } => true,
            _ => false,
        }
    }

    /// The whole part, held to what a `u64` reaches.
    pub fn to_u64(self) -> (r: u64)
        ensures
            r == whole_u64(self@),
    {
        match self.parts() {
            Parts::NotANumber => 0,
            Parts::Infinite { negative } => if negative {
                0
            } else {
                u64::MAX
            },
            Parts::Finite { negative, mantissa, scale } => {
                if negative {
                    return 0;
                }
                Self::whole(mantissa, scale)
            },
        }
    }

    /// The whole part of a magnitude.
    fn whole(mantissa: u64, scale: u64) -> (r: u64)
        requires
            mantissa < 0x20_0000_0000_0000,
            scale <= 2045,
            scale == 0 || mantissa >= 0x10_0000_0000_0000,
        ensures
            ({
                let w = (mantissa as nat * pow2(scale as nat)) / one();
                r == (if w > u64::MAX {
                    u64::MAX as nat
                } else {
                    w
                })
            }),
    {
        let ghost units = mantissa as nat * pow2(scale as nat);
        proof {
            lemma_pow2_pos(1074);
            lemma_pow2_pos(scale as nat);
            lemma2_to64();
            lemma2_to64_rest_53();
        }
        if scale >= 1086 {
            proof {
                lemma_pow2_adds((scale - 1074) as nat, 1074);
                lemma_pow2_adds(12, (scale - 1086) as nat);
                let a = pow2((scale - 1074) as nat);
                assert(units == (mantissa as nat * a) * one()) by (nonlinear_arith)
                    requires
                        units == mantissa as nat * pow2(scale as nat),
                        pow2(scale as nat) == a * one(),
                ;
                vstd::arithmetic::div_mod::lemma_div_by_multiple(
                    (mantissa as nat * a) as int,
                    one() as int,
                );
                assert(mantissa as nat * a > u64::MAX) by (nonlinear_arith)
                    requires
                        mantissa >= 0x10_0000_0000_0000,
                        a == 0x1000 * pow2((scale - 1086) as nat),
                        pow2((scale - 1086) as nat) >= 1,
                ;
            }
            return u64::MAX;
        }
        if scale >= 1074 {
            let mut r: u64 = mantissa;
            let mut left: u64 = scale - 1074;
            proof {
                assert(mantissa as nat * pow2(0) == mantissa) by (nonlinear_arith)
                    requires
                        pow2(0) == 1,
                ;
            }
            while left > 0
                invariant
                    1074 <= scale < 1086,
                    left <= scale - 1074,
                    mantissa < 0x20_0000_0000_0000,
                    r == mantissa as nat * pow2((scale - 1074 - left) as nat),
                decreases left,
            {
                let ghost e = (scale - 1074 - left) as nat;
                proof {
                    lemma2_to64();
                    lemma_pow2_unfold(e + 1);
                    if e < 10 {
                        lemma_pow2_strictly_increases(e, 10);
                    }
                    assert(r < 0x20_0000_0000_0000 * 0x400) by (nonlinear_arith)
                        requires
                            r == mantissa as nat * pow2(e),
                            mantissa < 0x20_0000_0000_0000,
                            0 < pow2(e) <= 0x400,
                    ;
                    assert(mantissa as nat * (2 * pow2(e)) == 2 * (mantissa as nat * pow2(e)))
                        by (nonlinear_arith);
                }
                r = 2 * r;
                left = left - 1;
            }
            proof {
                let e = (scale - 1074) as nat;
                lemma_pow2_adds(e, 1074);
                assert(units == (mantissa as nat * pow2(e)) * one()) by (nonlinear_arith)
                    requires
                        units == mantissa as nat * pow2(scale as nat),
                        pow2(scale as nat) == pow2(e) * one(),
                ;
                vstd::arithmetic::div_mod::lemma_div_by_multiple(
                    (mantissa as nat * pow2(e)) as int,
                    one() as int,
                );
            }
            return r;
        }
        let mut r: u64 = mantissa;
        let mut left: u64 = 1074 - scale;
        proof {
            lemma2_to64();
            assert(mantissa as nat == mantissa as nat / pow2(0)) by {
                vstd::arithmetic::div_mod::lemma_div_basics_3(mantissa as int);
            }
        }
        while left > 0 && r > 0
            invariant
                scale < 1074,
                left <= 1074 - scale,
                r == mantissa as nat / pow2((1074 - scale - left) as nat),
            decreases left,
        {
            proof {
                lemma_halve(mantissa as nat, (1074 - scale - left) as nat);
            }
            r = r / 2;
            left = left - 1;
        }
        proof {
            let e = (1074 - scale) as nat;
            let f = (1074 - scale - left) as nat;
            lemma_pow2_pos(e);
            lemma_pow2_pos(f);
            if r == 0 {
                vstd::arithmetic::div_mod::lemma_small_div_converse(
                    mantissa as int,
                    pow2(f) as int,
                );
                if f < e {
                    lemma_pow2_strictly_increases(f, e);
                }
                vstd::arithmetic::div_mod::lemma_basic_div(mantissa as int, pow2(e) as int);
            }
            assert(r == mantissa as nat / pow2(e));
            lemma_pow2_adds(scale as nat, e);
            lemma_cancel(mantissa as nat, pow2(scale as nat), pow2(e));
        }
        r
    }

    /// A magnitude below two to the power 53, times `factor`, to the nearest whole number.
    pub(crate) fn rounded_multiple(mantissa: u64, scale: u64, factor: u64) -> (r: u128)
        requires
            scale < 1074,
            mantissa < 0x20_0000_0000_0000,
            factor <= 0x4000_0000,
        ensures
            r == half_even((mantissa as nat * pow2(scale as nat)) * factor as nat, one()),
            r <= 0x20_0000_0000_0000 * factor + 1,
    {
        let ghost units = mantissa as nat * pow2(scale as nat);
        let ghost e = (1074 - scale) as nat;
        assert(mantissa as nat * factor as nat <= 0x20_0000_0000_0000 * factor as nat
            && 0x20_0000_0000_0000 * factor as nat <= 0x20_0000_0000_0000 * 0x4000_0000)
            by (nonlinear_arith)
            requires
                mantissa < 0x20_0000_0000_0000,
                factor <= 0x4000_0000,
        ;
        let scaled: u128 = (mantissa as u128) * (factor as u128);
        proof {
            lemma_pow2_pos(1074);
            lemma_pow2_pos(scale as nat);
            lemma_pow2_pos(e);
            lemma_pow2_adds(scale as nat, e);
            let s = pow2(scale as nat);
            assert(one() == s * pow2(e));
            assert(units * factor as nat == scaled as nat * s) by (nonlinear_arith)
                requires
                    units == mantissa as nat * s,
                    scaled as nat == mantissa as nat * factor as nat,
            ;
            lemma_half_even_scales(scaled as nat, pow2(e), s);
        }
        if 1074 - scale > 100 {
            proof {
                lemma_pow2_100();
                lemma_pow2_strictly_increases(100, e);
                vstd::arithmetic::div_mod::lemma_basic_div(scaled as int, pow2(e) as int);
                vstd::arithmetic::div_mod::lemma_small_mod(scaled as nat, pow2(e));
            }
            return 0;
        }
        let mut divisor: u128 = 1;
        let mut i: u64 = 0;
        proof {
            lemma2_to64();
        }
        while i < 1074 - scale
            invariant
                scale < 1074,
                1074 - scale <= 100,
                i <= 1074 - scale,
                divisor == pow2(i as nat),
            decreases 1074 - scale - i,
        {
            proof {
                lemma_pow2_100();
                lemma_pow2_unfold((i + 1) as nat);
                lemma_pow2_strictly_increases(i as nat, 100);
            }
            divisor = 2 * divisor;
            i = i + 1;
        }
        proof {
            lemma_pow2_100();
            if e < 100 {
                lemma_pow2_strictly_increases(e, 100);
            }
            lemma_pow2_unfold(e);
            vstd::arithmetic::div_mod::lemma_div_is_ordered_by_denominator(
                scaled as int,
                2,
                divisor as int,
            );
        }
        let q: u128 = scaled / divisor;
        let rem: u128 = scaled % divisor;
        if 2 * rem > divisor || (2 * rem == divisor && q % 2 == 1) {
            q + 1
        } else {
            q
        }
    }

    /// What a binary long division leaves is the whole quotient and the scaled remainder.
    proof fn lemma_division(num: nat, d: nat, q: nat, rest: nat, top: nat)
        requires
            d > 0,
            top == d * pow2(53),
            num * pow2(53) == q * top + rest,
            rest < top,
        ensures
            q == num / d,
            num == d * q + num % d,
            num % d < d,
            2 * rest > top <==> 2 * (num % d) > d,
            2 * rest == top <==> 2 * (num % d) == d,
    {
        lemma2_to64_rest_53();
        let p = pow2(53);
        let r = num - q * d;
        assert(r * p == rest) by (nonlinear_arith)
            requires
                r == num - q * d,
                top == d * p,
                num * p == q * top + rest,
        ;
        assert(0 <= r < d) by (nonlinear_arith)
            requires
                r * p == rest,
                0 <= rest < d * p,
                p > 0,
        ;
        assert(num == q * d + r);
        vstd::arithmetic::div_mod::lemma_fundamental_div_mod_converse(
            num as int,
            d as int,
            q as int,
            r,
        );
        vstd::arithmetic::div_mod::lemma_fundamental_div_mod(num as int, d as int);
        assert(2 * (r * p) > d * p <==> 2 * r > d) by (nonlinear_arith)
            requires
                p > 0,
        ;
        assert(2 * (r * p) == d * p <==> 2 * r == d) by (nonlinear_arith)
            requires
                p > 0,
        ;
    }
}

} // verus!
