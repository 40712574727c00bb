//! Natural numbers of any size, as far as exact rounding needs them.
use vstd::arithmetic::power2::{lemma_pow2_adds, lemma_pow2_unfold, pow2};
use vstd::prelude::*;

verus! {

/// One more than the largest limb.
pub const LIMB_BASE: u64 = 0x1_0000_0000;

/// What a one in limb `i` is worth.
pub open spec fn weight(i: nat) -> nat
    decreases i,
{
    if i == 0 {
        1
    } else {
        LIMB_BASE as nat * weight((i - 1) as nat)
    }
}

/// Limb `i`, and zero past the end.
pub open spec fn limb(limbs: Seq<u32>, i: int) -> nat {
    if 0 <= i < limbs.len() {
        limbs[i] as nat
    } else {
        0
    }
}

/// What the lowest `n` limbs are worth.
pub open spec fn low_value(limbs: Seq<u32>, n: nat) -> nat
    decreases n,
{
    if n == 0 {
        0
    } else {
        low_value(limbs, (n - 1) as nat) + limb(limbs, n - 1) * weight((n - 1) as nat)
    }
}

/// A natural number of any size: limbs of 32 bits, the lowest first.
pub struct BigNat {
    limbs: Vec<u32>,
}

impl View for BigNat {
    type V = nat;

    closed spec fn view(&self) -> nat {
        low_value(self.limbs@, self.limbs@.len())
    }
}

/// Digits that agree have the same value.
proof fn lemma_low_value_agrees(a: Seq<u32>, b: Seq<u32>, n: nat)
    requires
        forall|i: int| 0 <= i < n ==> limb(a, i) == limb(b, i),
    ensures
        low_value(a, n) == low_value(b, n),
    decreases n,
{
    if n > 0 {
        lemma_low_value_agrees(a, b, (n - 1) as nat);
        assert(limb(a, n - 1) == limb(b, n - 1));
    }
}

/// A further digit counts above the rest.
proof fn lemma_low_value_push(s: Seq<u32>, x: u32)
    ensures
        low_value(s.push(x), s.len() + 1) == low_value(s, s.len()) + x * weight(s.len()),
{
    lemma_low_value_agrees(s.push(x), s, s.len());
    assert(limb(s.push(x), s.len() as int) == x);
}

/// Past the end there is nothing to count.
proof fn lemma_low_value_past_end(s: Seq<u32>, n: nat)
    requires
        n >= s.len(),
    ensures
        low_value(s, n) == low_value(s, s.len()),
    decreases n,
{
    if n > s.len() {
        lemma_low_value_past_end(s, (n - 1) as nat);
        assert(limb(s, n - 1) * weight((n - 1) as nat) == 0) by (nonlinear_arith)
            requires
                limb(s, n - 1) == 0,
        ;
    }
}

/// So many digits stay below that power of the base.
proof fn lemma_low_value_bound(s: Seq<u32>, n: nat)
    ensures
        low_value(s, n) < weight(n),
    decreases n,
{
    if n > 0 {
        let m = (n - 1) as nat;
        lemma_low_value_bound(s, m);
        let l = limb(s, n - 1);
        let w = weight(m);
        assert(l * w + w <= LIMB_BASE as nat * w) by (nonlinear_arith)
            requires
                l + 1 <= LIMB_BASE as nat,
        ;
    }
}

/// One step of a multiplication by a small factor.
proof fn lemma_mul_step(p: nat, f: nat, a: nat, v: nat, c: nat, w: nat, d: nat, lo: nat, hi: nat)
    requires
        p * f + a == v + c * w,
        d * f + c == lo + LIMB_BASE as nat * hi,
    ensures
        (p + d * w) * f + a == (v + lo * w) + hi * (LIMB_BASE as nat * w),
{
    let b = LIMB_BASE as nat;
    assert((p + d * w) * f + a == p * f + a + (d * f) * w) by (nonlinear_arith);
    assert((lo + b * hi) * w == lo * w + hi * (b * w)) by (nonlinear_arith);
    assert((d * f + c) * w == (d * f) * w + c * w) by (nonlinear_arith);
}

/// One step of an addition.
proof fn lemma_add_step(p: nat, q: nat, v: nat, c: nat, w: nat, x: nat, y: nat, lo: nat, hi: nat)
    requires
        p + q == v + c * w,
        x + y + c == lo + LIMB_BASE as nat * hi,
    ensures
        (p + x * w) + (q + y * w) == (v + lo * w) + hi * (LIMB_BASE as nat * w),
{
    let b = LIMB_BASE as nat;
    assert((lo + b * hi) * w == lo * w + hi * (b * w)) by (nonlinear_arith);
    assert((x + y + c) * w == x * w + y * w + c * w) by (nonlinear_arith);
}

/// One step of a subtraction.
proof fn lemma_sub_step(p: nat, q: nat, v: nat, c: nat, w: nat, x: nat, y: nat, lo: nat, hi: nat)
    requires
        p + c * w == q + v,
        x + LIMB_BASE as nat * hi == y + c + lo,
    ensures
        (p + x * w) + hi * (LIMB_BASE as nat * w) == (q + y * w) + (v + lo * w),
{
    let b = LIMB_BASE as nat;
    assert((x + b * hi) * w == x * w + hi * (b * w)) by (nonlinear_arith);
    assert((y + c + lo) * w == y * w + c * w + lo * w) by (nonlinear_arith);
}

impl BigNat {
    /// The number `x`.
    pub fn from_u64(x: u64) -> (r: Self)
        ensures
            r@ == x,
    {
        let mut limbs: Vec<u32> = Vec::new();
        let lo: u32 = (x % LIMB_BASE) as u32;
        let hi: u32 = (x / LIMB_BASE) as u32;
        limbs.push(lo);
        limbs.push(hi);
        proof {
            reveal_with_fuel(low_value, 3);
            reveal_with_fuel(weight, 3);
            assert(limb(limbs@, 0) == lo);
            assert(limb(limbs@, 1) == hi);
            assert(hi * weight(1) == hi * LIMB_BASE) by {
                assert(weight(1) == LIMB_BASE);
            }
            assert(lo * weight(0) == lo) by (nonlinear_arith)
                requires
                    weight(0) == 1,
            ;
        }
        BigNat { limbs }
    }

    /// Limb `i`, and zero past the end.
    fn limb_at(&self, i: usize) -> (r: u32)
        ensures
            r == limb(self.limbs@, i as int),
    {
        if i < self.limbs.len() {
            self.limbs[i]
        } else {
            0
        }
    }

    /// The same number again.
    pub fn duplicate(&self) -> (r: Self)
        ensures
            r@ == self@,
    {
        let mut limbs: Vec<u32> = Vec::new();
        let mut i: usize = 0;
        while i < self.limbs.len()
            invariant
                i <= self.limbs@.len(),
                limbs@ =~= self.limbs@.take(i as int),
            decreases self.limbs@.len() - i,
        {
            limbs.push(self.limbs[i]);
            i = i + 1;
        }
        assert(limbs@ =~= self.limbs@);
        BigNat { limbs }
    }

    /// This number times `factor`, plus `addend`.
    pub fn times_plus(&self, factor: u32, addend: u32) -> (r: Self)
        ensures
            r@ == self@ * factor + addend,
    {
        let mut limbs: Vec<u32> = Vec::new();
        let mut carry: u32 = addend;
        let mut i: usize = 0;
        proof {
            assert(carry * weight(0) == carry) by (nonlinear_arith)
                requires
                    weight(0) == 1,
            ;
            assert(low_value(self.limbs@, 0) * factor == 0) by (nonlinear_arith)
                requires
                    low_value(self.limbs@, 0) == 0,
            ;
        }
        while i < self.limbs.len()
            invariant
                i <= self.limbs@.len(),
                limbs@.len() == i,
                low_value(self.limbs@, i as nat) * factor + addend == low_value(limbs@, i as nat)
                    + carry * weight(i as nat),
            decreases self.limbs@.len() - i,
        {
            let d: u32 = self.limbs[i];
            assert(d as nat * factor as nat <= 0xffff_ffff * 0xffff_ffff) by (nonlinear_arith)
                requires
                    d <= 0xffff_ffff,
                    factor <= 0xffff_ffff,
            ;
            let t: u64 = (d as u64) * (factor as u64) + carry as u64;
            let lo: u32 = (t % LIMB_BASE) as u32;
            let hi: u32 = (t / LIMB_BASE) as u32;
            proof {
                assert(t / LIMB_BASE <= 0xffff_ffff);
                lemma_mul_step(
                    low_value(self.limbs@, i as nat),
                    factor as nat,
                    addend as nat,
                    low_value(limbs@, i as nat),
                    carry as nat,
                    weight(i as nat),
                    d as nat,
                    lo as nat,
                    hi as nat,
                );
                lemma_low_value_push(limbs@, lo);
                assert(limb(self.limbs@, i as int) == d);
            }
            limbs.push(lo);
            carry = hi;
            i = i + 1;
        }
        proof {
            lemma_low_value_push(limbs@, carry);
        }
        limbs.push(carry);
        BigNat { limbs }
    }

    /// This number times two to the power `n`.
    pub fn times_pow2(&self, n: u64) -> (r: Self)
        ensures
            r@ == self@ * pow2(n as nat),
    {
        let mut r: BigNat = self.duplicate();
        let mut left: u64 = n;
        proof {
            vstd::arithmetic::power2::lemma2_to64();
            assert(self@ * pow2(0) == self@) by (nonlinear_arith)
                requires
                    pow2(0) == 1,
            ;
        }
        while left > 0
            invariant
                left <= n,
                r@ == self@ * pow2((n - left) as nat),
            decreases left,
        {
            let ghost done = (n - left) as nat;
            let ghost before = r@;
            if left >= 16 {
                r = r.times_plus(0x1_0000, 0);
                left = left - 16;
                proof {
                    vstd::arithmetic::power2::lemma2_to64();
                    lemma_pow2_adds(done, 16);
                    assert(self@ * pow2(done) * 0x1_0000 == self@ * (pow2(done) * 0x1_0000))
                        by (nonlinear_arith);
                }
            } else {
                r = r.times_plus(2, 0);
                left = left - 1;
                proof {
                    lemma_pow2_unfold(done + 1);
                    assert(self@ * pow2(done) * 2 == self@ * (2 * pow2(done)))
                        by (nonlinear_arith);
                }
            }
        }
        r
    }

    /// This number times `x`.
    pub fn times_u64(&self, x: u64) -> (r: Self)
        ensures
            r@ == self@ * x,
    {
        let lo: u32 = (x % LIMB_BASE) as u32;
        let hi: u32 = (x / LIMB_BASE) as u32;
        let low: BigNat = self.times_plus(lo, 0);
        let high: BigNat = self.times_plus(hi, 0).times_pow2(32);
        proof {
            vstd::arithmetic::power2::lemma2_to64();
            assert(self@ * hi * 0x1_0000_0000 + self@ * lo == self@ * (hi * 0x1_0000_0000 + lo))
                by (nonlinear_arith);
        }
        high.plus(&low)
    }

    /// The sum of the two numbers.
    pub fn plus(&self, other: &BigNat) -> (r: Self)
        ensures
            r@ == self@ + other@,
    {
        let n: usize = if self.limbs.len() < other.limbs.len() {
            other.limbs.len()
        } else {
            self.limbs.len()
        };
        let mut limbs: Vec<u32> = Vec::new();
        let mut carry: u32 = 0;
        let mut i: usize = 0;
        while i < n
            invariant
                i <= n,
                limbs@.len() == i,
                carry <= 1,
                low_value(self.limbs@, i as nat) + low_value(other.limbs@, i as nat) == low_value(
                    limbs@,
                    i as nat,
                ) + carry * weight(i as nat),
            decreases n - i,
        {
            let x: u32 = self.limb_at(i);
            let y: u32 = other.limb_at(i);
            let t: u64 = (x as u64) + (y as u64) + (carry as u64);
            let lo: u32 = (t % LIMB_BASE) as u32;
            let hi: u32 = (t / LIMB_BASE) as u32;
            proof {
                lemma_add_step(
                    low_value(self.limbs@, i as nat),
                    low_value(other.limbs@, i as nat),
                    low_value(limbs@, i as nat),
                    carry as nat,
                    weight(i as nat),
                    x as nat,
                    y as nat,
                    lo as nat,
                    hi as nat,
                );
                lemma_low_value_push(limbs@, lo);
            }
            limbs.push(lo);
            carry = hi;
            i = i + 1;
        }
        proof {
            lemma_low_value_push(limbs@, carry);
            lemma_low_value_past_end(self.limbs@, n as nat);
            lemma_low_value_past_end(other.limbs@, n as nat);
        }
        limbs.push(carry);
        BigNat { limbs }
    }

    /// The difference of the two numbers.
    pub fn minus(&self, other: &BigNat) -> (r: Self)
        requires
            other@ <= self@,
        ensures
            r@ == self@ - other@,
    {
        let n: usize = if self.limbs.len() < other.limbs.len() {
            other.limbs.len()
        } else {
            self.limbs.len()
        };
        let mut limbs: Vec<u32> = Vec::new();
        let mut borrow: u32 = 0;
        let mut i: usize = 0;
        while i < n
            invariant
                i <= n,
                limbs@.len() == i,
                borrow <= 1,
                low_value(self.limbs@, i as nat) + borrow * weight(i as nat) == low_value(
                    other.limbs@,
                    i as nat,
                ) + low_value(limbs@, i as nat),
            decreases n - i,
        {
            let x: u32 = self.limb_at(i);
            let y: u32 = other.limb_at(i);
            let need: u64 = (y as u64) + (borrow as u64);
            let hi: u32 = if (x as u64) < need { 1 } else { 0 };
            let lo: u32 = ((x as u64) + LIMB_BASE * (hi as u64) - need) as u32;
            proof {
                lemma_sub_step(
                    low_value(self.limbs@, i as nat),
                    low_value(other.limbs@, i as nat),
                    low_value(limbs@, i as nat),
                    borrow as nat,
                    weight(i as nat),
                    x as nat,
                    y as nat,
                    lo as nat,
                    hi as nat,
                );
                lemma_low_value_push(limbs@, lo);
            }
            limbs.push(lo);
            borrow = hi;
            i = i + 1;
        }
        proof {
            lemma_low_value_past_end(self.limbs@, n as nat);
            lemma_low_value_past_end(other.limbs@, n as nat);
            lemma_low_value_bound(limbs@, n as nat);
            assert(borrow == 0) by {
                if borrow == 1 {
                    assert(1 * weight(n as nat) == weight(n as nat));
                }
            }
        }
        BigNat { limbs }
    }

    /// Whether this number is smaller than the other.
    pub fn less_than(&self, other: &BigNat) -> (r: bool)
        ensures
            r == (self@ < other@),
    {
        let n: usize = if self.limbs.len() < other.limbs.len() {
            other.limbs.len()
        } else {
            self.limbs.len()
        };
        let mut less: bool = false;
        let mut i: usize = 0;
        while i < n
            invariant
                i <= n,
                less == (low_value(self.limbs@, i as nat) < low_value(other.limbs@, i as nat)),
            decreases n - i,
        {
            let x: u32 = self.limb_at(i);
            let y: u32 = other.limb_at(i);
            proof {
                let w = weight(i as nat);
                let p = low_value(self.limbs@, i as nat);
                let q = low_value(other.limbs@, i as nat);
                lemma_low_value_bound(self.limbs@, i as nat);
                lemma_low_value_bound(other.limbs@, i as nat);
                if x < y {
                    assert(p + x * w < q + y * w) by (nonlinear_arith)
                        requires
                            p < w,
                            x + 1 <= y,
                            q >= 0,
                    ;
                } else if y < x {
                    assert(q + y * w < p + x * w) by (nonlinear_arith)
                        requires
                            q < w,
                            y + 1 <= x,
                            p >= 0,
                    ;
                }
            }
            if x < y {
                less = true;
            } else if y < x {
                less = false;
            }
            i = i + 1;
        }
        proof {
            lemma_low_value_past_end(self.limbs@, n as nat);
            lemma_low_value_past_end(other.limbs@, n as nat);
        }
        less
    }
}

} // verus!
