//! Lengths of time to the nanosecond.
use crate::binary64::{
    half_even, lemma2_to64_rest_53, one, quotient, ratio, sum, Binary64, Num, Parts,
};
use vstd::arithmetic::power2::{
    lemma2_to64, lemma_pow2_adds, lemma_pow2_pos, lemma_pow2_strictly_increases, lemma_pow2_unfold,
    pow2,
};
use vstd::prelude::*;

verus! {

/// Nanoseconds in a second.
pub const NANOS_PER_SEC: u64 = 1_000_000_000;

/// The longest span, in nanoseconds.
pub open spec fn longest() -> nat {
    (u64::MAX * NANOS_PER_SEC + 999_999_999) as nat
}

/// A span of so many nanoseconds, in seconds.
pub open spec fn seconds(nanos: nat) -> Num {
    sum(
        ratio(nanos / NANOS_PER_SEC as nat, 1),
        quotient(ratio(nanos % NANOS_PER_SEC as nat, 1), ratio(NANOS_PER_SEC as nat, 1)),
    )
}

/// So many seconds in nanoseconds, to the nearest one; none for what is negative, no number,
/// or two to the power 64 and beyond.
pub open spec fn span_of(secs: Num) -> Option<nat> {
    match secs {
        Num::Finite { negative, units } => if (negative && units > 0) || units >= pow2(64)
            * one() {
            None
        } else {
            Some(half_even(units * NANOS_PER_SEC as nat, one()))
        },
        _ => None,
    }
}

/// A length of time: whole seconds and nanoseconds.
#[derive(Clone, Copy, Debug, PartialEq, Eq, Structural)]
pub struct Duration {
    secs: u64,
    nanos: u32,
}

impl View for Duration {
    type V = nat;

    closed spec fn view(&self) -> nat {
        (self.secs * NANOS_PER_SEC + self.nanos) as nat
    }
}

impl Duration {
    /// The nanoseconds are less than a second.
    #[verifier::type_invariant]
    closed spec fn within_a_second(self) -> bool {
        self.nanos < 1_000_000_000
    }

    /// A span is no longer than the longest.
    pub fn check_longest(self)
        ensures
            self@ <= longest(),
    {
        proof {
            use_type_invariant(&self);
        }
    }

    /// So many seconds and nanoseconds.
    pub fn new(secs: u64, nanos: u32) -> (r: Self)
        requires
            nanos < 1_000_000_000,
        ensures
            r@ == secs * NANOS_PER_SEC + nanos,
    {
        Duration { secs, nanos }
    }

    /// No time at all.
    pub fn zero() -> (r: Self)
        ensures
            r@ == 0,
    {
        Duration { secs: 0, nanos: 0 }
    }

    /// So many seconds.
    pub fn from_secs(secs: u64) -> (r: Self)
        ensures
            r@ == secs * NANOS_PER_SEC,
    {
        Duration { secs, nanos: 0 }
    }

    /// So many milliseconds.
    pub fn from_millis(millis: u64) -> (r: Self)
        ensures
            r@ == millis * 1_000_000,
    {
        Duration { secs: millis / 1000, nanos: ((millis % 1000) * 1_000_000) as u32 }
    }

    /// The whole seconds.
    pub fn as_secs(self) -> (secs: u64)
        ensures
            secs == self@ / NANOS_PER_SEC as nat,
    {
        proof {
            use_type_invariant(&self);
        }
        self.secs
    }

    /// The nanoseconds past the whole seconds.
    pub fn subsec_nanos(self) -> (nanos: u32)
        ensures
            nanos == self@ % NANOS_PER_SEC as nat,
            nanos < 1_000_000_000,
    {
        proof {
            use_type_invariant(&self);
        }
        self.nanos
    }

    /// Whether there is no time in it.
    pub fn is_zero(self) -> (r: bool)
        ensures
            r == (self@ == 0),
    {
        self.secs == 0 && self.nanos == 0
    }

    /// Whether this span is shorter than the other.
    pub fn shorter_than(self, other: Self) -> (r: bool)
        ensures
            r == (self@ < other@),
    {
        proof {
            use_type_invariant(&self);
            use_type_invariant(&other);
        }
        self.secs < other.secs || (self.secs == other.secs && self.nanos < other.nanos)
    }

    /// The shorter of the two spans.
    pub fn min(self, other: Self) -> (r: Self)
        ensures
            r == (if other@ < self@ {
                other
            } else {
                self
            }),
    {
        if other.shorter_than(self) {
            other
        } else {
            self
        }
    }

    /// The two spans together, if that is not too long.
    pub fn checked_add(self, other: Self) -> (r: Option<Self>)
        ensures
            match r {
                Some(total) => total@ == self@ + other@,
                None => self@ + other@ > longest(),
            },
    {
        proof {
            use_type_invariant(&self);
            use_type_invariant(&other);
        }
        let nanos: u32 = self.nanos + other.nanos;
        let carry: u64 = if nanos >= 1_000_000_000 {
            1
        } else {
            0
        };
        let rest: u32 = if nanos >= 1_000_000_000 {
            nanos - 1_000_000_000
        } else {
            nanos
        };
        match self.secs.checked_add(other.secs) {
            None => None,
            Some(secs) => match secs.checked_add(carry) {
                None => None,
                Some(total) => Some(Duration { secs: total, nanos: rest }),
            },
        }
    }

    /// This span less the other, and no time where that is longer.
    pub fn saturating_sub(self, other: Self) -> (r: Self)
        ensures
            r@ == (if other@ < self@ {
                self@ - other@
            } else {
                0
            }),
    {
        proof {
            use_type_invariant(&self);
            use_type_invariant(&other);
        }
        if !other.shorter_than(self) {
            return Self::zero();
        }
        if self.nanos >= other.nanos {
            Duration { secs: self.secs - other.secs, nanos: self.nanos - other.nanos }
        } else {
            Duration {
                secs: self.secs - other.secs - 1,
                nanos: (1_000_000_000 - other.nanos) + self.nanos,
            }
        }
    }

    /// The span in seconds.
    pub fn as_seconds(self) -> (r: Binary64)
        ensures
            r@ == seconds(self@),
    {
        let whole: Binary64 = Binary64::from_u64(self.as_secs());
        let part: Binary64 = Binary64::from_u64(self.subsec_nanos() as u64);
        whole.plus(part.over(Binary64::from_u64(NANOS_PER_SEC)))
    }

    /// So many nanoseconds.
    fn from_nanos(nanos: u128) -> (r: Self)
        requires
            nanos <= longest(),
        ensures
            r@ == nanos,
    {
        Duration { secs: (nanos / 1_000_000_000) as u64, nanos: (nanos % 1_000_000_000) as u32 }
    }

    /// The span of so many seconds, to the nearest nanosecond.
    pub fn from_seconds(secs: Binary64) -> (r: Option<Self>)
        ensures
            match r {
                Some(d) => span_of(secs@) == Some(d@),
                None => span_of(secs@) is None,
            },
    {
        match secs.parts() {
            Parts::Finite { negative, mantissa, scale } => {
                proof {
                    lemma_pow2_pos(scale as nat);
                    lemma_pow2_pos(1074);
                    assert(mantissa as nat * pow2(scale as nat) > 0 <==> mantissa > 0)
                        by (nonlinear_arith)
                        requires
                            pow2(scale as nat) > 0,
                    ;
                }
                if negative && mantissa > 0 {
                    return None;
                }
                if scale >= 1074 {
                    Self::from_large(mantissa, scale)
                } else {
                    Some(Self::from_small(mantissa, scale))
                }
            },
            _ => None,
        }
    }

    /// A span of whole seconds.
    fn from_large(mantissa: u64, scale: u64) -> (r: Option<Self>)
        requires
            1074 <= scale <= 2045,
            0x10_0000_0000_0000 <= mantissa < 0x20_0000_0000_0000,
        ensures
            ({
                let units = mantissa as nat * pow2(scale as nat);
                match r {
                    Some(d) => units < pow2(64) * one() && d@ == half_even(
                        units * NANOS_PER_SEC as nat,
                        one(),
                    ),
                    None => units >= pow2(64) * one(),
                }
            }),
    {
        let ghost units = mantissa as nat * pow2(scale as nat);
        let ghost e = (scale - 1074) as nat;
        let ghost whole = mantissa as nat * pow2(e);
        proof {
            lemma_pow2_pos(1074);
            lemma_pow2_pos(e);
            lemma_pow2_adds(e, 1074);
            lemma2_to64();
            lemma2_to64_rest_53();
            vstd::arithmetic::power2::lemma2_to64_rest();
            assert(units == whole * one()) by (nonlinear_arith)
                requires
                    units == mantissa as nat * pow2(scale as nat),
                    pow2(scale as nat) == pow2(e) * one(),
                    whole == mantissa as nat * pow2(e),
            ;
            assert(whole >= pow2(64) <==> units >= pow2(64) * one()) by (nonlinear_arith)
                requires
                    units == whole * one(),
                    one() > 0,
            ;
        }
        if scale >= 1086 {
            proof {
                lemma_pow2_adds(12, (e - 12) as nat);
                lemma_pow2_pos((e - 12) as nat);
                assert(whole >= pow2(64)) by (nonlinear_arith)
                    requires
                        whole == mantissa as nat * pow2(e),
                        mantissa >= 0x10_0000_0000_0000,
                        pow2(e) == 0x1000 * pow2((e - 12) as nat),
                        pow2((e - 12) as nat) >= 1,
                        pow2(64) == 0x1_0000_0000_0000_0000,
                ;
            }
            return None;
        }
        let mut secs: u64 = mantissa;
        let mut left: u64 = scale - 1074;
        proof {
            assert(mantissa as nat * pow2(0) == mantissa) by (nonlinear_arith)
                requires
                    pow2(0) == 1,
            ;
        }
        while left > 0
            invariant
                1074 <= scale < 1086,
                left <= scale - 1074,
                mantissa < 0x20_0000_0000_0000,
                secs == mantissa as nat * pow2((scale - 1074 - left) as nat),
            decreases left,
        {
            let ghost f = (scale - 1074 - left) as nat;
            proof {
                lemma2_to64();
                lemma_pow2_unfold(f + 1);
                if f < 10 {
                    lemma_pow2_strictly_increases(f, 10);
                }
                assert(secs < 0x20_0000_0000_0000 * 0x400) by (nonlinear_arith)
                    requires
                        secs == mantissa as nat * pow2(f),
                        mantissa < 0x20_0000_0000_0000,
                        0 < pow2(f) <= 0x400,
                ;
                assert(mantissa as nat * (2 * pow2(f)) == 2 * (mantissa as nat * pow2(f)))
                    by (nonlinear_arith);
            }
            secs = 2 * secs;
            left = left - 1;
        }
        proof {
            let n = NANOS_PER_SEC as nat;
            assert(units * n == (whole * n) * one()) by (nonlinear_arith)
                requires
                    units == whole * one(),
            ;
            vstd::arithmetic::div_mod::lemma_div_by_multiple((whole * n) as int, one() as int);
            vstd::arithmetic::div_mod::lemma_mod_multiples_basic((whole * n) as int, one() as int);
        }
        Some(Duration { secs, nanos: 0 })
    }

    /// A span short of what needs rounding to whole seconds.
    fn from_small(mantissa: u64, scale: u64) -> (r: Self)
        requires
            scale < 1074,
            mantissa < 0x20_0000_0000_0000,
        ensures
            ({
                let units = mantissa as nat * pow2(scale as nat);
                &&& units < pow2(64) * one()
                &&& r@ == half_even(units * NANOS_PER_SEC as nat, one())
            }),
    {
        let ghost s = pow2(scale as nat);
        let ghost e = (1074 - scale) as nat;
        let nanos: u128 = Binary64::rounded_multiple(mantissa, scale, NANOS_PER_SEC);
        proof {
            lemma_pow2_pos(scale as nat);
            lemma_pow2_pos(e);
            lemma_pow2_adds(scale as nat, e);
            lemma2_to64();
            assert(mantissa as nat * s < pow2(64) * one()) by (nonlinear_arith)
                requires
                    mantissa < pow2(64),
                    one() == s * pow2(e),
                    s > 0,
                    pow2(e) >= 1,
            ;
        }
        Self::from_nanos(nanos)
    }
}

} // verus!
