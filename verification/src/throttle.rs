//! Pauses that hold a command to its CPU allowance.
use crate::accuracy::lemma_times_whole;
use crate::binary64::{
    below, from_units, half_even, lemma_round_exact, lemma_round_monotone, lemma_whole_exact,
    lemma_whole_exact_one, one, opposite, product, quotient, ratio, round_units, same, spacing, sum,
    Binary64, Num,
};
use crate::duration::{longest, seconds, span_of, Duration, NANOS_PER_SEC};
use crate::quantities::{
    lemma_half_even_error, lemma_round_error, lemma_whole_product, lemma_whole_span,
};
use vstd::arithmetic::power2::{
    lemma2_to64, lemma2_to64_rest, lemma_pow2_adds, lemma_pow2_pos, lemma_pow2_strictly_increases,
    pow2,
};
use vstd::prelude::*;
use vstd::string::StringExecFns;

verus! {

/// Why a CPU sample cannot be turned into a pause.
#[derive(Clone, Copy, Debug, PartialEq, Eq, Structural)]
pub enum ThrottleError {
    /// The pause that the sample asks for is too long, or no number.
    Interval,
    /// The pause that the sample asks for is negative.
    Negative,
    /// The pauses owed are too long together.
    Debt,
}

impl ThrottleError {
    /// The error in words.
    pub open spec fn words(self) -> Seq<char> {
        match self {
            ThrottleError::Interval => "CPU throttle interval is too large: "@
                + "cannot convert float seconds to Duration: "@
                + "value is either too big or NaN"@,
            ThrottleError::Negative => "CPU throttle interval is too large: "@
                + "cannot convert float seconds to Duration: "@ + "value is negative"@,
            ThrottleError::Debt => "CPU throttle debt overflowed"@,
        }
    }

    /// The error in words.
    pub fn message(self) -> (text: String)
        ensures
            text@ == self.words(),
    {
        let mut text: String = String::new();
        match self {
            ThrottleError::Interval => {
                text.append("CPU throttle interval is too large: ");
                text.append("cannot convert float seconds to Duration: ");
                text.append("value is either too big or NaN");
            },
            ThrottleError::Negative => {
                text.append("CPU throttle interval is too large: ");
                text.append("cannot convert float seconds to Duration: ");
                text.append("value is negative");
            },
            ThrottleError::Debt => {
                text.append("CPU throttle debt overflowed");
            },
        }
        proof {
            assert(text@ =~= self.words());
        }
        text
    }
}

/// The percentage of one core that so many cores make.
pub open spec fn allowed_percent(cores: Num) -> Num {
    product(cores, ratio(100, 1))
}

/// Whether a sample lies within the allowance.
pub open spec fn within_allowance(observed: Num, cores: Num) -> bool {
    below(observed, allowed_percent(cores)) || same(observed, allowed_percent(cores))
}

/// The pause, in seconds, that brings a sample's average down to the allowance.
pub open spec fn owed_seconds(observed: Num, cores: Num, sample: nat) -> Num {
    product(
        seconds(sample),
        sum(quotient(observed, allowed_percent(cores)), opposite(ratio(1, 1))),
    )
}

/// The pauses owed after one more sample, in nanoseconds.
pub open spec fn owed_after(
    debt: nat,
    observed: Num,
    cores: Num,
    sample: nat,
) -> Result<nat, ThrottleError> {
    if within_allowance(observed, cores) {
        Ok(debt)
    } else {
        let owed = owed_seconds(observed, cores, sample);
        match span_of(owed) {
            None => if below(owed, ratio(0, 1)) {
                Err(ThrottleError::Negative)
            } else {
                Err(ThrottleError::Interval)
            },
            Some(added) => if debt + added > longest() {
                Err(ThrottleError::Debt)
            } else {
                Ok(debt + added)
            },
        }
    }
}

/// The shorter of two spans.
pub open spec fn shorter(a: nat, b: nat) -> nat {
    if b < a {
        b
    } else {
        a
    }
}

/// What is left of one span after another.
pub open spec fn left_of(a: nat, b: nat) -> nat {
    if b < a {
        (a - b) as nat
    } else {
        0
    }
}

/// The longest single pause, in nanoseconds.
pub open spec fn longest_pause() -> nat {
    1_000_000_000
}

/// The pauses that a command still owes.
#[derive(Clone, Copy, Debug)]
pub struct CpuThrottle {
    /// How long it still has to pause.
    pub pause_debt: Duration,
}

impl CpuThrottle {
    /// A command that owes nothing.
    pub fn new() -> (r: Self)
        ensures
            r.pause_debt@ == 0,
    {
        CpuThrottle { pause_debt: Duration::zero() }
    }

    /// Takes in a sample: what it shows above the allowance is owed as a pause.
    pub fn record(&mut self, observed_percent: Binary64, cores: Binary64, sample: Duration) -> (r:
        Result<(), ThrottleError>)
        ensures
            match owed_after(old(self).pause_debt@, observed_percent@, cores@, sample@) {
                Ok(debt) => r == Ok::<(), ThrottleError>(()) && final(self).pause_debt@ == debt,
                Err(e) => r == Err::<(), ThrottleError>(e) && *final(self) == *old(self),
            },
    {
        let allowed: Binary64 = cores.times(Binary64::from_u64(100));
        if observed_percent.at_most(allowed) {
            return Ok(());
        }
        let excess: Binary64 = observed_percent.over(allowed).minus(Binary64::from_u64(1));
        let owed: Binary64 = sample.as_seconds().times(excess);
        match Duration::from_seconds(owed) {
            None => if owed.less_than(Binary64::from_u64(0)) {
                Err(ThrottleError::Negative)
            } else {
                Err(ThrottleError::Interval)
            },
            Some(added) => match self.pause_debt.checked_add(added) {
                None => Err(ThrottleError::Debt),
                Some(total) => {
                    total.check_longest();
                    self.pause_debt = total;
                    Ok(())
                },
            },
        }
    }

    /// The pause that is due, no longer than `maximum`.
    pub fn pending_pause(&self, maximum: Duration) -> (r: Duration)
        ensures
            r@ == shorter(self.pause_debt@, maximum@),
    {
        self.pause_debt.min(maximum)
    }

    /// The pause to make now, if one is due: a second at most.
    pub fn pause(&self) -> (r: Option<Duration>)
        ensures
            match r {
                Some(p) => self.pause_debt@ > 0 && p@ == shorter(
                    self.pause_debt@,
                    longest_pause(),
                ),
                None => self.pause_debt@ == 0,
            },
            r matches Some(p) ==> 0 < p@ <= 1_000_000_000 && p@ <= self.pause_debt@ && (p@
                == 1_000_000_000 || p@ == self.pause_debt@),
    {
        let pause: Duration = self.pending_pause(Duration::from_secs(1));
        if pause.is_zero() {
            None
        } else {
            Some(pause)
        }
    }

    /// Takes a pause that was made off what is owed.
    pub fn consume_pause(&mut self, duration: Duration)
        ensures
            final(self).pause_debt@ == left_of(old(self).pause_debt@, duration@),
    {
        self.pause_debt = self.pause_debt.saturating_sub(duration);
    }
}

/// What is owed after `n` pauses of the length that is due each time.
pub open spec fn after_pauses(debt: nat, maximum: nat, n: nat) -> nat
    decreases n,
{
    if n == 0 {
        debt
    } else {
        after_pauses(left_of(debt, shorter(debt, maximum)), maximum, (n - 1) as nat)
    }
}

/// Pauses pay a debt off at the longest length at a time, and never more than is owed.
pub proof fn law_pauses_pay_the_debt_off(debt: nat, maximum: nat, n: nat)
    ensures
        after_pauses(debt, maximum, n) == left_of(debt, n * maximum),
    decreases n,
{
    if n > 0 {
        let next = left_of(debt, shorter(debt, maximum));
        law_pauses_pay_the_debt_off(next, maximum, (n - 1) as nat);
        assert(n * maximum == (n - 1) * maximum + maximum) by (nonlinear_arith)
            requires
                n > 0,
        ;
        assert((n - 1) * maximum >= 0) by (nonlinear_arith)
            requires
                n > 0,
        ;
    } else {
        assert(0 * maximum == 0);
    }
}

/// A sample never lowers what is owed, and one within the allowance leaves it as it is.
pub proof fn law_samples_only_add(debt: nat, observed: Num, cores: Num, sample: nat)
    ensures
        owed_after(debt, observed, cores, sample) matches Ok(after) ==> after >= debt,
        within_allowance(observed, cores) ==> owed_after(debt, observed, cores, sample) == Ok::<
            nat,
            ThrottleError,
        >(debt),
{
}

/// A sample that is no finite number is refused, whatever finite allowance there is.
pub proof fn law_samples_must_be_finite(debt: nat, observed: Num, cores: Num, sample: nat)
    requires
        observed == Num::NotANumber || observed == (Num::Infinite { negative: false }),
        allowed_percent(cores) matches Num::Finite { negative, units } && !negative && units > 0,
    ensures
        owed_after(debt, observed, cores, sample) is Err,
{
    let allowed = allowed_percent(cores);
    let q = quotient(observed, allowed);
    assert(q == observed);
    let excess = sum(q, opposite(ratio(1, 1)));
    lemma_whole_exact_one();
    assert(excess == observed);
}

/// The seconds in a whole number of them are exact where 53 bits hold them.
proof fn lemma_whole_seconds(secs: nat)
    requires
        secs < pow2(53),
    ensures
        seconds(secs * NANOS_PER_SEC as nat) == ratio(secs, 1),
{
    lemma2_to64();
    lemma2_to64_rest();
    lemma_pow2_pos(1074);
    let nanos = NANOS_PER_SEC as nat;
    vstd::arithmetic::div_mod::lemma_div_by_multiple(secs as int, nanos as int);
    vstd::arithmetic::div_mod::lemma_mod_multiples_basic(secs as int, nanos as int);
    lemma_whole_exact(secs);
    lemma_whole_exact(0);
    lemma_whole_exact(nanos);
    let u = one();
    assert(nanos * u > 0 && 0 * u == 0) by (nonlinear_arith)
        requires
            nanos > 0,
            u > 0,
    ;
    assert(0 * pow2(1074) * (nanos * u) == 0 && (0 * u) * u == 0) by (nonlinear_arith);
    lemma_round_exact(0, 1074, nanos * u);
    assert(quotient(ratio(0, 1), ratio(nanos, 1)) == (Num::Finite { negative: false, units: 0 }));
    if secs == 0 {
        assert(0 * u == 0);
    } else {
        assert(secs * u > 0) by (nonlinear_arith)
            requires
                secs > 0,
                u > 0,
        ;
        assert(secs * pow2(1074) * 1 == secs * u);
        lemma_round_exact(secs, 1074, 1);
    }
}

/// A span in seconds errs by at most three parts in two to the power 53.
proof fn lemma_seconds_error(s: nat)
    requires
        seconds(s) is Finite,
    ensures
        seconds(s) == (Num::Finite { negative: false, units: seconds(s)->Finite_units }),
        (seconds(s)->Finite_units * NANOS_PER_SEC - s * one()) * pow2(53) <= 3 * (s * one()),
        (s * one() - seconds(s)->Finite_units * NANOS_PER_SEC) * pow2(53) <= 3 * (s * one()),
{
    lemma2_to64();
    lemma2_to64_rest();
    lemma_pow2_pos(1074);
    lemma_pow2_strictly_increases(83, 1074);
    lemma_pow2_adds(30, 53);
    let u = one();
    let e = pow2(53);
    let n = NANOS_PER_SEC as nat;
    let whole = s / n;
    let rest = s % n;
    vstd::arithmetic::div_mod::lemma_fundamental_div_mod(s as int, n as int);
    lemma_whole_exact(rest);
    lemma_whole_exact(n);
    assert(n * u > 0) by (nonlinear_arith)
        requires
            n > 0,
            u > 0,
    ;
    let a = round_units(whole * u, 1);
    let num = (rest * u) * u;
    let den = n * u;
    let b = round_units(num, den);
    lemma_round_error(whole * u, 1);
    assert(num == 0 || num >= den * e) by (nonlinear_arith)
        requires
            num == (rest * u) * u,
            den == n * u,
            rest == 0 || rest >= 1,
            n <= 0x4000_0000,
            u >= 0x4000_0000 * e,
            u > 0,
    ;
    lemma_round_error(num, den);
    assert(quotient(ratio(rest, 1), ratio(n, 1)) == from_units(false, b));
    assert(ratio(whole, 1) == from_units(false, a));
    assert((b * n - rest * u) * e <= rest * u && (rest * u - b * n) * e <= rest * u)
        by (nonlinear_arith)
        requires
            (b * den - num) * e <= num,
            (num - b * den) * e <= num,
            num == (rest * u) * u,
            den == n * u,
            u > 0,
    ;
    let v = s * u;
    let p = a + b;
    assert(v == n * (whole * u) + rest * u) by (nonlinear_arith)
        requires
            v == s * u,
            s == n * whole + rest,
    ;
    let w = whole * u;
    let r = rest * u;
    assert((p * n - v) * e <= v && (v - p * n) * e <= v) by (nonlinear_arith)
        requires
            v == n * w + r,
            p == a + b,
            (a - w) * e <= w,
            (w - a) * e <= w,
            (b * n - r) * e <= r,
            (r - b * n) * e <= r,
            n > 0,
    ;
    let x = seconds(s)->Finite_units;
    if p == 0 {
        assert(x == 0);
        assert(0 * n == 0);
    } else {
        assert(seconds(s) == from_units(false, round_units(p, 1)));
        lemma_round_error(p, 1);
        assert(x == round_units(p, 1));
    }
    assert((x - p) * e <= p && (p - x) * e <= p);
    assert((x * n - v) * e <= 3 * v && (v - x * n) * e <= 3 * v) by (nonlinear_arith)
        requires
            (x - p) * e <= p,
            (p - x) * e <= p,
            (p * n - v) * e <= v,
            (v - p * n) * e <= v,
            n > 0,
            e >= 1,
            v >= 0,
            p >= 0,
    {
        assert((x * n - p * n) * e <= p * n && (p * n - x * n) * e <= p * n);
        assert(p * n <= 2 * v) by {
            assert((p * n - v) * 1 <= v || p * n <= v);
        }
    }
}

/// Two factors that err by at most three parts in two to the power 53 of their bounds.
proof fn lemma_product_error(a: int, v: int, b: int, d: int, w: int, e: int)
    requires
        0 <= a,
        0 <= b,
        0 <= v,
        0 <= d <= w,
        e >= 1_000,
        (a - v) * e <= 3 * v,
        (v - a) * e <= 3 * v,
        (b - d) * e <= 3 * w,
        (d - b) * e <= 3 * w,
    ensures
        2 * ((a * b - v * d) * e) <= 13 * (v * w),
        2 * ((v * d - a * b) * e) <= 13 * (v * w),
        4 * (a * b) <= 5 * (v * w),
{
    assert(6 * b <= 7 * w) by (nonlinear_arith)
        requires
            (b - d) * e <= 3 * w,
            d <= w,
            e >= 1_000,
            0 <= w,
            0 <= b,
    ;
    assert(100 * a <= 101 * v) by (nonlinear_arith)
        requires
            (a - v) * e <= 3 * v,
            e >= 1_000,
            0 <= v,
    ;
    assert((a * b - v * d) * e == ((a - v) * e) * b + v * ((b - d) * e)) by (nonlinear_arith);
    assert((v * d - a * b) * e == ((v - a) * e) * b + v * ((d - b) * e)) by (nonlinear_arith);
    let (p, q) = ((a - v) * e, (b - d) * e);
    let (r, t) = ((v - a) * e, (d - b) * e);
    assert(p * b <= (3 * v) * b && r * b <= (3 * v) * b) by (nonlinear_arith)
        requires
            p <= 3 * v,
            r <= 3 * v,
            0 <= b,
    ;
    assert(v * q <= v * (3 * w) && v * t <= v * (3 * w)) by (nonlinear_arith)
        requires
            q <= 3 * w,
            t <= 3 * w,
            0 <= v,
    ;
    assert(6 * (v * b) <= 7 * (v * w)) by (nonlinear_arith)
        requires
            6 * b <= 7 * w,
            0 <= v,
    ;
    assert((3 * v) * b == 3 * (v * b) && v * (3 * w) == 3 * (v * w)) by (nonlinear_arith);
    assert(100 * (a * b) <= 101 * (v * b)) by (nonlinear_arith)
        requires
            100 * a <= 101 * v,
            0 <= b,
    ;
}

/// A sample above the allowance owes a pause over which, together with the sample, the average
/// is the allowance: `added` and `s` being the pause and the sample in nanoseconds, and `o` and
/// `a` what was observed and what is allowed, `added * a` is `s * (o - a)`, up to one part in
/// two to the power 50 of `s * o` and to one nanosecond.
pub proof fn law_pauses_hold_the_average(
    debt: nat,
    observed: Num,
    cores: Num,
    s: nat,
    o: nat,
    a: nat,
    after: nat,
)
    requires
        observed == (Num::Finite { negative: false, units: o }),
        allowed_percent(cores) == (Num::Finite { negative: false, units: a }),
        0 < a < o,
        owed_after(debt, observed, cores, s) == Ok::<nat, ThrottleError>(after),
    ensures
        debt <= after,
        ((after - debt) * a - s * (o - a)) * pow2(50) <= s * o + a * pow2(50),
        (s * (o - a) - (after - debt) * a) * pow2(50) <= s * o + a * pow2(50),
{
    lemma2_to64();
    lemma2_to64_rest();
    lemma_pow2_pos(1074);
    lemma_pow2_strictly_increases(83, 1074);
    lemma_pow2_adds(30, 53);
    lemma_pow2_adds(3, 50);
    lemma_whole_exact_one();
    let u = one();
    let e = pow2(53);
    let n = NANOS_PER_SEC as nat;
    let added = (after - debt) as nat;
    // How many times the allowance was observed.
    let q = round_units(o * u, a);
    assert(o * u >= a * e) by (nonlinear_arith)
        requires
            a <= o,
            u >= e,
    ;
    lemma_round_error(o * u, a);
    assert(1 * pow2(1074) * a == u * a);
    lemma_round_exact(1, 1074, a);
    assert((u * a) * a <= (o * u) * a) by (nonlinear_arith)
        requires
            a <= o,
    ;
    lemma_round_monotone(u * a, a, o * u, a);
    assert(q >= u);
    assert(quotient(observed, allowed_percent(cores)) == from_units(false, q));
    // How many times it was observed above that.
    let excess = sum(from_units(false, q), opposite(ratio(1, 1)));
    let owed = product(seconds(s), excess);
    assert(owed == owed_seconds(observed, cores, s));
    assert(owed is Finite);
    assert(excess is Finite && seconds(s) is Finite);
    let p = (q - u) as nat;
    let x = excess->Finite_units;
    assert(from_units(false, q) == (Num::Finite { negative: false, units: q }));
    if p > 0 {
        assert(excess == from_units(false, round_units(p, 1)));
        lemma_round_error(p, 1);
    }
    assert(excess == (Num::Finite { negative: false, units: x }));
    assert((x - p) * e <= p && (p - x) * e <= p);
    let w = o * u;
    let d = (o - a) * u;
    assert(d == w - a * u && 0 <= d <= w) by (nonlinear_arith)
        requires
            d == (o - a) * u,
            w == o * u,
            a <= o,
            u > 0,
    ;
    let b = x * a;
    assert((b - d) * e <= 3 * w && (d - b) * e <= 3 * w) by {
        lemma_excess_error(q as int, p as int, x as int, a as int, u as int, w as int, e as int);
    }
    // Over the sample.
    lemma_seconds_error(s);
    let t = seconds(s)->Finite_units;
    let v = s * u;
    let f = t * n;
    lemma_product_error(f as int, v as int, b as int, d, w as int, e as int);
    let y = round_units(t * x, u);
    assert(owed == from_units(false, y));
    assert(owed == (Num::Finite { negative: false, units: y }));
    assert(2 * ((y * u - t * x) * e) <= 2 * (t * x) + u * e && 2 * ((t * x - y * u) * e) <= 2 * (t
        * x) + u * e) by {
        lemma_round_error_or_half(t * x, u);
    }
    // To the nanosecond.
    assert(added == half_even(y * n, u));
    lemma_half_even_error(y * n, u);
    lemma_average(
        added as int,
        y as int,
        t as int,
        x as int,
        s as int,
        o as int,
        a as int,
        u as int,
        e as int,
        n as int,
    );
    let f50 = pow2(50);
    let left = added * a;
    let right = s * (o - a);
    assert((left - right) * f50 <= s * o + a * f50 && (right - left) * f50 <= s * o + a * f50)
        by (nonlinear_arith)
        requires
            (left - right) * e <= 8 * (s * o) + a * e,
            (right - left) * e <= 8 * (s * o) + a * e,
            e == 8 * f50,
    ;
}

/// What lies above one, from what lies above none.
proof fn lemma_excess_error(q: int, p: int, x: int, a: int, u: int, w: int, e: int)
    requires
        0 <= p,
        0 <= x,
        0 < a,
        0 <= w,
        p == q - u,
        0 < u,
        e >= 1_000,
        (q * a - w) * e <= w,
        (w - q * a) * e <= w,
        (x - p) * e <= p,
        (p - x) * e <= p,
    ensures
        (x * a - (w - a * u)) * e <= 3 * w,
        ((w - a * u) - x * a) * e <= 3 * w,
{
    let g = q * a;
    assert(g <= 2 * w) by (nonlinear_arith)
        requires
            (g - w) * e <= w,
            e >= 1_000,
            0 <= w,
    ;
    assert(p * a == g - a * u && p * a <= g) by (nonlinear_arith)
        requires
            p == q - u,
            g == q * a,
            0 < a,
            0 < u,
    ;
    let c = x * a;
    let m = p * a;
    assert((c - m) * e <= m && (m - c) * e <= m) by (nonlinear_arith)
        requires
            (x - p) * e <= p,
            (p - x) * e <= p,
            c == x * a,
            m == p * a,
            0 < a,
    ;
    let z = w - a * u;
    assert((c - z) * e == (c - m) * e + (g - w) * e) by (nonlinear_arith)
        requires
            m == g - a * u,
            z == w - a * u,
    ;
    assert((z - c) * e == (m - c) * e + (w - g) * e) by (nonlinear_arith)
        requires
            m == g - a * u,
            z == w - a * u,
    ;
}

/// Rounding errs by one part in two to the power 53, or by half a unit.
pub proof fn lemma_round_error_or_half(num: nat, den: nat)
    requires
        den > 0,
    ensures
        2 * ((round_units(num, den) * den - num) * pow2(53)) <= 2 * num + den * pow2(53),
        2 * ((num - round_units(num, den) * den) * pow2(53)) <= 2 * num + den * pow2(53),
{
    lemma2_to64();
    lemma2_to64_rest();
    let e = pow2(53);
    let x = round_units(num, den);
    assert(den * e >= 0) by (nonlinear_arith)
        requires
            den > 0,
            e > 0,
    ;
    if num >= den * e {
        lemma_round_error(num, den);
    } else {
        assert(spacing(num, den) == 0);
        assert(den * pow2(0) == den && half_even(num, den) * pow2(0) == half_even(num, den))
            by (nonlinear_arith)
            requires
                pow2(0) == 1,
        ;
        lemma_half_even_error(num, den);
        let h = x * den;
        assert(2 * ((h - num) * e) <= den * e && 2 * ((num - h) * e) <= den * e)
            by (nonlinear_arith)
            requires
                2 * (h - num) <= den,
                2 * (num - h) <= den,
                e > 0,
        ;
    }
}

/// The errors of a pause, put together.
proof fn lemma_average(
    added: int,
    y: int,
    t: int,
    x: int,
    s: int,
    o: int,
    a: int,
    u: int,
    e: int,
    n: int,
)
    requires
        0 <= added,
        0 <= y,
        0 <= t,
        0 <= x,
        0 <= s,
        0 < a < o,
        e >= 1_000,
        0 < n <= u,
        2 * ((y * u - t * x) * e) <= 2 * (t * x) + u * e,
        2 * ((t * x - y * u) * e) <= 2 * (t * x) + u * e,
        2 * (((t * n) * (x * a) - (s * u) * ((o - a) * u)) * e) <= 13 * ((s * u) * (o * u)),
        2 * (((s * u) * ((o - a) * u) - (t * n) * (x * a)) * e) <= 13 * ((s * u) * (o * u)),
        4 * ((t * n) * (x * a)) <= 5 * ((s * u) * (o * u)),
        2 * (added * u - y * n) <= u,
        2 * (y * n - added * u) <= u,
    ensures
        (added * a - s * (o - a)) * e <= 8 * (s * o) + a * e,
        (s * (o - a) - added * a) * e <= 8 * (s * o) + a * e,
{
    let c = n * a;
    let z = t * x;
    let vd = (s * u) * ((o - a) * u);
    let vw = (s * u) * (o * u);
    assert((t * n) * (x * a) == z * c) by (nonlinear_arith)
        requires
            c == n * a,
            z == t * x,
    ;
    let m = y * u;
    assert(c > 0) by (nonlinear_arith)
        requires
            c == n * a,
            n > 0,
            a > 0,
    ;
    assert(2 * ((m * c - z * c) * e) <= 2 * (z * c) + u * e * c && 2 * ((z * c - m * c) * e) <= 2
        * (z * c) + u * e * c) by (nonlinear_arith)
        requires
            2 * ((m - z) * e) <= 2 * z + u * e,
            2 * ((z - m) * e) <= 2 * z + u * e,
            c > 0,
    ;
    let mc = m * c;
    let zc = z * c;
    assert(2 * ((mc - vd) * e) == 2 * ((mc - zc) * e) + 2 * ((zc - vd) * e)) by (nonlinear_arith);
    assert(2 * ((vd - mc) * e) == 2 * ((zc - mc) * e) + 2 * ((vd - zc) * e)) by (nonlinear_arith);
    let uec = u * e * c;
    assert(2 * ((mc - vd) * e) <= 16 * vw + uec && 2 * ((vd - mc) * e) <= 16 * vw + uec) by {
        assert(0 <= vw) by (nonlinear_arith)
            requires
                vw == (s * u) * (o * u),
                0 <= s,
                0 < o,
                0 < u,
        ;
    }
    // Without the factor that all have.
    let g = y * n * a;
    let r = s * (o - a);
    let so = s * o;
    assert(mc == g * u && vd == (r * u) * u && vw == (so * u) * u && uec == (e * c) * u)
        by (nonlinear_arith)
        requires
            mc == (y * u) * (n * a),
            g == y * n * a,
            vd == (s * u) * ((o - a) * u),
            r == s * (o - a),
            vw == (s * u) * (o * u),
            so == s * o,
            uec == u * e * c,
    ;
    let ru = r * u;
    let sou = so * u;
    let ec = e * c;
    assert(2 * ((g - ru) * e) <= 16 * sou + ec && 2 * ((ru - g) * e) <= 16 * sou + ec)
        by (nonlinear_arith)
        requires
            2 * ((g * u - ru * u) * e) <= 16 * (sou * u) + ec * u,
            2 * ((ru * u - g * u) * e) <= 16 * (sou * u) + ec * u,
            u > 0,
    ;
    // The last rounding.
    let k = added * a;
    assert(2 * ((k * u - g) * e) <= u * a * e && 2 * ((g - k * u) * e) <= u * a * e)
        by (nonlinear_arith)
        requires
            2 * (added * u - y * n) <= u,
            2 * (y * n - added * u) <= u,
            k == added * a,
            g == y * n * a,
            a > 0,
            e > 0,
    {
        let i = added * u - y * n;
        assert(k * u - g == i * a);
        assert(2 * (i * a) <= u * a && -(2 * (i * a)) <= u * a);
    }
    let ae = a * e;
    assert(ec <= u * ae && u * a * e == u * ae) by (nonlinear_arith)
        requires
            ec == e * (n * a),
            ae == a * e,
            n <= u,
            a > 0,
            e > 0,
    ;
    assert((k * u - ru) * e == (k * u - g) * e + (g - ru) * e) by (nonlinear_arith);
    assert((ru - k * u) * e == (g - k * u) * e + (ru - g) * e) by (nonlinear_arith);
    assert((k - r) * e <= 8 * so + ae && (r - k) * e <= 8 * so + ae) by (nonlinear_arith)
        requires
            2 * ((k * u - ru) * e) <= 16 * sou + 2 * (u * ae),
            2 * ((ru - k * u) * e) <= 16 * sou + 2 * (u * ae),
            ru == r * u,
            sou == so * u,
            u > 0,
    {
        assert((k * u - r * u) * e == ((k - r) * e) * u);
        assert((r * u - k * u) * e == ((r - k) * e) * u);
        assert(((k - r) * e) * u <= (8 * so + ae) * u);
        assert(((r - k) * e) * u <= (8 * so + ae) * u);
    }
}

/// A sample of whole seconds at `times` times a whole allowance owes just `times` less one as
/// many seconds.
pub proof fn law_whole_multiples_are_paused_exactly(debt: nat, cores: nat, times: nat, secs: nat)
    requires
        0 < cores,
        0 < times,
        0 < secs,
        times * (100 * cores) < pow2(53),
        times * secs < pow2(53),
        debt + (times - 1) * secs * NANOS_PER_SEC <= longest(),
    ensures
        owed_after(
            debt,
            ratio(times * (100 * cores), 1),
            ratio(cores, 1),
            secs * NANOS_PER_SEC as nat,
        ) == Ok::<nat, ThrottleError>((debt + (times - 1) * secs * NANOS_PER_SEC) as nat),
        (times * (100 * cores)) * secs == (100 * cores) * (secs + (times - 1) * secs),
{
    lemma2_to64();
    lemma2_to64_rest();
    lemma_pow2_pos(1074);
    let u = one();
    let allowed = 100 * cores;
    let observed = times * allowed;
    assert(allowed <= observed && times <= observed && secs <= times * secs) by (nonlinear_arith)
        requires
            observed == times * allowed,
            0 < times,
            0 < allowed,
            0 < secs,
    ;
    assert(cores * 100 == allowed);
    lemma_whole_product(cores, 100);
    lemma_whole_exact(allowed);
    lemma_whole_exact(observed);
    lemma_whole_exact(times);
    lemma_whole_exact_one();
    lemma_whole_seconds(secs);
    lemma_whole_exact(secs);
    assert((times * allowed) * secs == allowed * (secs + (times - 1) * secs)) by (nonlinear_arith);
    assert(observed * u == times * (allowed * u)) by (nonlinear_arith)
        requires
            observed == times * allowed,
    ;
    if times == 1 {
        assert(1 * allowed == allowed && 0 * secs == 0 && 0 * NANOS_PER_SEC == 0);
        assert((times - 1) * secs * NANOS_PER_SEC == 0) by (nonlinear_arith)
            requires
                times == 1,
        ;
    } else {
        let over = (times - 1) as nat;
        assert(allowed * u < observed * u && 0 < allowed * u) by (nonlinear_arith)
            requires
                observed == times * allowed,
                times > 1,
                allowed > 0,
                u > 0,
        ;
        assert((observed * u) * u == times * pow2(1074) * (allowed * u)) by (nonlinear_arith)
            requires
                observed == times * allowed,
                u == pow2(1074),
        ;
        lemma_round_exact(times, 1074, allowed * u);
        assert(quotient(ratio(observed, 1), ratio(allowed, 1)) == ratio(times, 1));
        lemma_whole_exact(over);
        assert(times * u - u == over * u && over * u > 0) by (nonlinear_arith)
            requires
                over == times - 1,
                over > 0,
                u > 0,
        ;
        assert(over * pow2(1074) * 1 == over * u);
        lemma_round_exact(over, 1074, 1);
        assert(sum(ratio(times, 1), opposite(ratio(1, 1))) == ratio(over, 1));
        assert(secs * over < pow2(53) && secs * over == over * secs) by (nonlinear_arith)
            requires
                times * secs < pow2(53),
                over == times - 1,
                secs > 0,
        ;
        lemma_whole_product(secs, over);
        lemma_whole_span(secs * over);
        assert((times - 1) * secs * NANOS_PER_SEC == (secs * over) * NANOS_PER_SEC as nat)
            by (nonlinear_arith)
            requires
                over == times - 1,
        ;
    }
}

/// How long to sleep next: what is left, in slices of at most 25 milliseconds, until the time
/// is up or the deadline has passed.
pub fn sleep_slice(duration: Duration, elapsed: Duration, past_deadline: bool) -> (r: Option<
    Duration,
>)
    ensures
        match r {
            Some(slice) => elapsed@ < duration@ && !past_deadline && slice@ == shorter(
                (duration@ - elapsed@) as nat,
                25_000_000,
            ),
            None => elapsed@ >= duration@ || past_deadline,
        },
{
    if !elapsed.shorter_than(duration) || past_deadline {
        return None;
    }
    Some(duration.saturating_sub(elapsed).min(Duration::from_millis(25)))
}

/// How much of a sleep counts: no more than was asked for.
pub fn slept(elapsed: Duration, duration: Duration) -> (r: Duration)
    ensures
        r@ == shorter(elapsed@, duration@),
{
    elapsed.min(duration)
}

/// The shorter of two spans is one of them, and no longer than either.
pub proof fn law_the_shorter_of_two(a: nat, b: nat)
    ensures
        shorter(a, b) <= a,
        shorter(a, b) <= b,
        shorter(a, b) == a || shorter(a, b) == b,
        shorter(a, b) == shorter(b, a),
{
}

/// What is left of a span and what was taken off make up the span; nothing is left where more
/// was taken off.
pub proof fn law_what_is_left(a: nat, b: nat)
    ensures
        b <= a ==> left_of(a, b) + b == a,
        a <= b ==> left_of(a, b) == 0,
{
}

/// So many cores allow a hundred percent each, to within one part in two to the power 53 and
/// half a unit.
pub proof fn law_each_core_is_a_hundred_percent(cores: nat)
    requires
        100 * cores <= pow2(63) * one(),
    ensures
        allowed_percent(Num::Finite { negative: false, units: cores }) matches Num::Finite {
            negative,
            units: allowed,
        } && {
            &&& !negative
            &&& 2 * ((allowed - 100 * cores) * pow2(53)) <= 200 * cores + pow2(53)
            &&& 2 * ((100 * cores - allowed) * pow2(53)) <= 200 * cores + pow2(53)
        },
{
    lemma2_to64();
    lemma2_to64_rest();
    lemma_times_whole(cores, 100);
    lemma_pow2_adds(63, 1074);
    lemma_pow2_strictly_increases(63 + 1074, 2098);
}

/// A sample at or below a hundred percent a core, short of what rounding may take, owes nothing;
/// one above it, past what rounding may add, is not within the allowance.
pub proof fn law_the_allowance_is_the_dividing_line(
    debt: nat,
    observed: nat,
    cores: nat,
    sample: nat,
)
    requires
        100 * cores <= pow2(63) * one(),
    ensures
        ({
            let o = Num::Finite { negative: false, units: observed };
            let c = Num::Finite { negative: false, units: cores };
            &&& 2 * ((100 * cores - observed) * pow2(53)) >= 200 * cores + pow2(53) ==> owed_after(
                debt,
                o,
                c,
                sample,
            ) == Ok::<nat, ThrottleError>(debt)
            &&& 2 * ((observed - 100 * cores) * pow2(53)) > 200 * cores + pow2(53)
                ==> !within_allowance(o, c)
        }),
{
    lemma2_to64();
    lemma2_to64_rest();
    law_each_core_is_a_hundred_percent(cores);
    let allowed = allowed_percent(Num::Finite { negative: false, units: cores })->Finite_units;
    let e = pow2(53);
    if 2 * ((100 * cores - observed) * e) >= 200 * cores + e {
        assert(observed <= allowed) by (nonlinear_arith)
            requires
                2 * ((100 * cores - observed) * e) >= 200 * cores + e,
                2 * ((100 * cores - allowed) * e) <= 200 * cores + e,
                e > 0,
        ;
    }
    if 2 * ((observed - 100 * cores) * e) > 200 * cores + e {
        assert(observed > allowed) by (nonlinear_arith)
            requires
                2 * ((observed - 100 * cores) * e) > 200 * cores + e,
                2 * ((allowed - 100 * cores) * e) <= 200 * cores + e,
                e > 0,
        ;
    }
}

/// A magnitude that is counted in whole units no more than doubles where it is rounded.
proof fn lemma_round_at_most_doubles(num: nat, den: nat)
    requires
        den > 0,
        num == 0 || den == 1 || num >= den * pow2(53),
    ensures
        round_units(num, den) * den <= 2 * num,
{
    lemma2_to64();
    lemma2_to64_rest();
    lemma_round_error(num, den);
    let x = round_units(num, den);
    assert(x * den <= 2 * num) by (nonlinear_arith)
        requires
            (x * den - num) * pow2(53) <= num,
            pow2(53) >= 1,
            num >= 0,
    ;
}

/// A sample above the allowance is taken in as long as the pause that it asks for stays below
/// two to the power 59 seconds, and what is owed so far below two to the power 62.
pub proof fn law_samples_are_taken_in(
    debt: nat,
    observed: Num,
    cores: Num,
    s: nat,
    o: nat,
    a: nat,
)
    requires
        observed == (Num::Finite { negative: false, units: o }),
        allowed_percent(cores) == (Num::Finite { negative: false, units: a }),
        0 < a < o,
        seconds(s) is Finite,
        s * o <= pow2(59) * NANOS_PER_SEC * a,
        o <= pow2(500) * a,
        debt <= pow2(62) * NANOS_PER_SEC,
    ensures
        owed_after(debt, observed, cores, s) is Ok,
{
    lemma2_to64();
    lemma2_to64_rest();
    lemma_pow2_pos(1074);
    lemma_pow2_strictly_increases(53, 1074);
    lemma_whole_exact_one();
    let u = one();
    let e = pow2(53);
    let n = NANOS_PER_SEC as nat;
    let q = round_units(o * u, a);
    assert(o * u >= a * e) by (nonlinear_arith)
        requires
            a <= o,
            u >= e,
    ;
    lemma_round_at_most_doubles(o * u, a);
    lemma_round_exact(1, 1074, a);
    assert((u * a) * a <= (o * u) * a) by (nonlinear_arith)
        requires
            a <= o,
    ;
    lemma_round_monotone(u * a, a, o * u, a);
    assert(q >= u);
    // The ratio stays within the format.
    lemma_pow2_adds(500, 1074);
    lemma_pow2_strictly_increases(500 + 1074, 2098);
    assert((o * u) * a <= (1 * pow2(500 + 1074) * a) * a) by (nonlinear_arith)
        requires
            o <= pow2(500) * a,
            pow2(500 + 1074) == pow2(500) * u,
    ;
    lemma_round_exact(1, 500 + 1074, a);
    lemma_round_monotone(o * u, a, 1 * pow2(500 + 1074) * a, a);
    let excess = (q - u) as nat;
    let x = round_units(excess, 1);
    lemma_round_at_most_doubles(excess, 1);
    lemma_round_exact(1, 500 + 1074, 1);
    lemma_round_monotone(excess, 1, 1 * pow2(500 + 1074) * 1, 1);
    lemma_seconds_error(s);
    let t = seconds(s)->Finite_units;
    assert(s * u >= 0) by (nonlinear_arith);
    assert(t * n <= 2 * (s * u)) by (nonlinear_arith)
        requires
            (t * n - s * u) * e <= 3 * (s * u),
            e >= 3,
            s * u >= 0,
    ;
    // The pause, against the bound.
    assert(x * a <= 4 * (o * u)) by (nonlinear_arith)
        requires
            x * 1 <= 2 * excess,
            excess <= q,
            q * a <= 2 * (o * u),
    ;
    assert((t * x) * (n * a) <= 8 * (s * o) * (u * u)) by (nonlinear_arith)
        requires
            t * n <= 2 * (s * u),
            x * a <= 4 * (o * u),
    ;
    lemma_pow2_adds(4, 59);
    assert(pow2(4) == 16);
    assert(t * x <= (pow2(63) * u) * u) by (nonlinear_arith)
        requires
            (t * x) * (n * a) <= 8 * (s * o) * (u * u),
            s * o <= pow2(59) * n * a,
            pow2(63) == 16 * pow2(59),
            n > 0,
            a > 0,
            u > 0,
    ;
    lemma_pow2_adds(63, 1074);
    lemma_pow2_strictly_increases(63 + 1074, 2098);
    lemma_round_exact(1, 63 + 1074, u);
    assert((t * x) * u <= (1 * pow2(63 + 1074) * u) * u) by (nonlinear_arith)
        requires
            t * x <= (pow2(63) * u) * u,
            pow2(63 + 1074) == pow2(63) * u,
    ;
    lemma_round_monotone(t * x, u, 1 * pow2(63 + 1074) * u, u);
    let y = round_units(t * x, u);
    assert(y <= pow2(63) * u);
    assert(pow2(63) * u < pow2(64) * u) by (nonlinear_arith)
        requires
            pow2(63) < pow2(64),
            u > 0,
    ;
    lemma_half_even_error(y * n, u);
    let added = half_even(y * n, u);
    assert(added <= pow2(63) * n + 1) by (nonlinear_arith)
        requires
            2 * (added * u - y * n) <= u,
            y <= pow2(63) * u,
            u > 0,
    ;
    if excess == 0 {
        assert(x == 0);
    }
}

/// An allowance beyond every number is never exceeded.
pub proof fn law_an_allowance_without_bounds(debt: nat, observed: Num, cores: Num, sample: nat)
    requires
        observed is Finite,
        allowed_percent(cores) == (Num::Infinite { negative: false }),
    ensures
        owed_after(debt, observed, cores, sample) == Ok::<nat, ThrottleError>(debt),
{
}

/// However many cores there are, they allow a hundred percent each as far as numbers reach.
pub proof fn law_any_number_of_cores_is_a_hundred_percent_each(cores: nat)
    ensures
        match allowed_percent(Num::Finite { negative: false, units: cores }) {
            Num::Finite { negative, units: allowed } => {
                &&& !negative
                &&& 2 * ((allowed - 100 * cores) * pow2(53)) <= 200 * cores + pow2(53)
                &&& 2 * ((100 * cores - allowed) * pow2(53)) <= 200 * cores + pow2(53)
            },
            Num::Infinite { negative } => !negative && 100 * cores > pow2(63) * one(),
            Num::NotANumber => false,
        },
{
    lemma2_to64();
    lemma2_to64_rest();
    lemma_times_whole(cores, 100);
    lemma_pow2_adds(63, 1074);
    lemma_pow2_strictly_increases(63 + 1074, 2098);
}

} // verus!
