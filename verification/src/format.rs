//! Sizes in words.
use crate::binary64::{
    half_even, lemma2_to64_rest_53, lemma_round_exact, lemma_round_monotone, lemma_whole_exact, one,
    quotient, ratio, round_units, Binary64, Num, Parts,
};
use crate::quantities::{lemma_half_even_error, lemma_round_error};
use crate::text::{decimal, digit_char, push_decimal};
use crate::throttle::lemma_round_error_or_half;
use vstd::arithmetic::power2::{
    lemma2_to64, lemma2_to64_rest, lemma_pow2_adds, lemma_pow2_pos, lemma_pow2_strictly_increases,
    pow2,
};
use vstd::prelude::*;
use vstd::string::StringExecFns;

verus! {

/// A finite number with one digit after the point, to the nearest tenth.
pub open spec fn one_decimal(x: Num) -> Seq<char> {
    let tenths = half_even(x->units * 10, one());
    decimal(tenths / 10).push('.').push(digit_char(tenths % 10))
}

/// A number of bytes counted in units of `divisor` bytes.
pub open spec fn in_units(bytes: nat, divisor: nat) -> Seq<char> {
    one_decimal(quotient(ratio(bytes, 1), ratio(divisor, 1)))
}

/// A number of bytes in the largest binary unit that it reaches.
pub open spec fn size_text(bytes: nat) -> Seq<char> {
    if bytes >= 0x100_0000_0000 {
        in_units(bytes, 0x100_0000_0000) + " TiB"@
    } else if bytes >= 0x4000_0000 {
        in_units(bytes, 0x4000_0000) + " GiB"@
    } else if bytes >= 0x10_0000 {
        in_units(bytes, 0x10_0000) + " MiB"@
    } else if bytes >= 0x400 {
        in_units(bytes, 0x400) + " KiB"@
    } else {
        decimal(bytes) + " B"@
    }
}

/// A power of two is a number of the format.
proof fn lemma_pow2_exact(k: nat)
    requires
        k <= 64,
    ensures
        ratio(pow2(k), 1) == (Num::Finite { negative: false, units: pow2(k) * one() }),
{
    lemma2_to64();
    lemma2_to64_rest_53();
    lemma_pow2_adds(k, 1074);
    lemma_pow2_strictly_increases(k + 1074, 2098);
    lemma_round_exact(1, k + 1074, 1);
    assert(1 * pow2(k + 1074) * 1 == pow2(k) * one());
    assert(pow2(k) * one() * 1 == pow2(k) * one());
}

/// A count of units stays small where there are few units.
proof fn lemma_count_is_small(bytes: nat, k: nat)
    requires
        k <= 40,
        bytes <= pow2(k + 24),
    ensures
        ({
            let x = quotient(ratio(bytes, 1), ratio(pow2(k), 1));
            x matches Num::Finite { negative, units } && !negative && units <= pow2(24) * one()
        }),
{
    lemma_pow2_exact(k);
    lemma_pow2_exact(k + 24);
    lemma_pow2_pos(k);
    lemma_pow2_pos(1074);
    lemma_pow2_adds(k, 24);
    lemma_pow2_adds(k + 24, 1074);
    lemma_pow2_strictly_increases(k + 24 + 1074, 2098);
    let d = pow2(k) * one();
    assert(d > 0) by (nonlinear_arith)
        requires
            d == pow2(k) * one(),
            pow2(k) > 0,
            one() > 0,
    ;
    assert((bytes * one()) * 1 <= (pow2(k + 24) * one()) * 1) by (nonlinear_arith)
        requires
            bytes <= pow2(k + 24),
    ;
    lemma_round_monotone(bytes * one(), 1, pow2(k + 24) * one(), 1);
    let u = ratio(bytes, 1)->units;
    assert(u <= pow2(k + 24) * one());
    lemma2_to64();
    lemma2_to64_rest_53();
    lemma_pow2_adds(24, 1074);
    lemma_round_exact(1, 24 + 1074, d);
    assert(1 * pow2(24 + 1074) * d == (pow2(24) * one()) * d);
    assert((u * one()) * d <= ((pow2(24) * one()) * d) * d) by (nonlinear_arith)
        requires
            u <= pow2(k + 24) * one(),
            pow2(k + 24) == pow2(k) * pow2(24),
            d == pow2(k) * one(),
    ;
    lemma_round_monotone(u * one(), d, (pow2(24) * one()) * d, d);
    lemma_pow2_strictly_increases(24 + 1074, 2098);
}

/// Writes a number of bytes in units of two to the power `k` bytes.
fn push_in_units(text: &mut String, bytes: u64, divisor: u64, Ghost(k): Ghost<nat>)
    requires
        k <= 40,
        divisor == pow2(k),
        bytes <= pow2(k + 24),
    ensures
        final(text)@ == old(text)@ + in_units(bytes as nat, divisor as nat),
{
    let x: Binary64 = Binary64::from_u64(bytes).over(Binary64::from_u64(divisor));
    proof {
        lemma_count_is_small(bytes as nat, k);
    }
    match x.parts() {
        Parts::Finite { negative, mantissa, scale } => {
            proof {
                if scale >= 1074 {
                    lemma2_to64();
                    lemma2_to64_rest_53();
                    if scale > 1074 {
                        lemma_pow2_strictly_increases(1074, scale as nat);
                    }
                    lemma_pow2_strictly_increases(24, 52);
                    assert(mantissa as nat * pow2(scale as nat) > pow2(24) * one())
                        by (nonlinear_arith)
                        requires
                            mantissa >= pow2(52),
                            pow2(52) > pow2(24),
                            pow2(scale as nat) >= one(),
                            one() > 0,
                    ;
                }
            }
            let tenths: u64 = Binary64::rounded_multiple(mantissa, scale, 10) as u64;
            push_decimal(text, tenths / 10);
            text.push('.');
            text.push(((tenths % 10) as u8 + 48) as char);
            proof {
                assert(old(text)@ + in_units(bytes as nat, divisor as nat) =~= text@);
            }
        },
        _ => {},
    }
}

/// A number of bytes in the largest binary unit that it reaches, to the nearest tenth.
pub fn format_bytes(bytes: u64) -> (text: String)
    ensures
        text@ == size_text(bytes as nat),
{
    let mut text: String = String::new();
    proof {
        lemma2_to64();
        vstd::arithmetic::power2::lemma2_to64_rest();
    }
    if bytes >= 0x100_0000_0000 {
        push_in_units(&mut text, bytes, 0x100_0000_0000, Ghost(40));
        text.append(" TiB");
    } else if bytes >= 0x4000_0000 {
        push_in_units(&mut text, bytes, 0x4000_0000, Ghost(30));
        text.append(" GiB");
    } else if bytes >= 0x10_0000 {
        push_in_units(&mut text, bytes, 0x10_0000, Ghost(20));
        text.append(" MiB");
    } else if bytes >= 0x400 {
        push_in_units(&mut text, bytes, 0x400, Ghost(10));
        text.append(" KiB");
    } else {
        push_decimal(&mut text, bytes);
        text.append(" B");
    }
    proof {
        assert(text@ =~= size_text(bytes as nat));
    }
    text
}

/// Fewer than 1024 bytes are told as they are.
pub proof fn law_single_bytes_are_told_as_they_are(bytes: nat)
    requires
        bytes < 1024,
    ensures
        size_text(bytes) == decimal(bytes) + " B"@,
{
}

/// More bytes are told in the largest unit that they reach, each 1024 times the one before: a
/// whole number of tenths, with a point before the last digit, that lies as near to the size as
/// tenths do. Past two to the power 53 bytes what is told may err by sixty parts in that power
/// besides.
pub proof fn law_sizes_are_told_to_the_tenth(bytes: nat, k: nat, unit: Seq<char>) -> (tenths: nat)
    requires
        bytes <= u64::MAX,
        ({
            ||| k == 10 && unit == " KiB"@
            ||| k == 20 && unit == " MiB"@
            ||| k == 30 && unit == " GiB"@
            ||| k == 40 && unit == " TiB"@
        }),
        bytes >= pow2(k),
        k < 40 ==> bytes < pow2(k + 10),
    ensures
        size_text(bytes) == decimal(tenths / 10) + seq!['.'] + decimal(tenths % 10) + unit,
        bytes < pow2(53) ==> {
            &&& 2 * (tenths * pow2(k) - 10 * bytes) <= pow2(k)
            &&& 2 * (10 * bytes - tenths * pow2(k)) <= pow2(k)
        },
        2 * ((tenths * pow2(k) - 10 * bytes) * pow2(53)) <= pow2(k) * pow2(53) + 60 * bytes + 1,
        2 * ((10 * bytes - tenths * pow2(k)) * pow2(53)) <= pow2(k) * pow2(53) + 60 * bytes + 1,
{
    let u = one();
    let e = pow2(53);
    let div = pow2(k);
    lemma2_to64();
    lemma2_to64_rest();
    lemma_pow2_pos(1074);
    lemma_pow2_exact(k);
    let held = round_units(bytes * u, 1);
    let x = round_units(held * u, div * u);
    let tenths = half_even(x * 10, u);
    assert(bytes <= pow2(k + 24) || k < 40);
    if k < 40 {
        lemma_pow2_strictly_increases(k + 10, k + 24);
    }
    lemma_count_is_small(bytes, k);
    lemma_pow2_adds(64, 1074);
    lemma_pow2_strictly_increases(64 + 1074, 2098);
    lemma_round_exact(1, 64 + 1074, 1);
    assert((bytes * u) * 1 <= (1 * pow2(64 + 1074) * 1) * 1) by (nonlinear_arith)
        requires
            bytes <= pow2(64),
            pow2(64 + 1074) == pow2(64) * u,
    ;
    lemma_round_monotone(bytes * u, 1, 1 * pow2(64 + 1074) * 1, 1);
    assert(ratio(bytes, 1) == (Num::Finite { negative: false, units: held }));
    assert(div * u > 0) by (nonlinear_arith)
        requires
            div > 0,
            u > 0,
    ;
    assert(quotient(ratio(bytes, 1), ratio(div, 1)) == (Num::Finite { negative: false, units: x }));
    assert(in_units(bytes, div) =~= decimal(tenths / 10) + seq!['.'] + decimal(tenths % 10));
    assert(size_text(bytes) == in_units(bytes, div) + unit);
    lemma_half_even_error(x * 10, u);
    // Where 53 bits hold the bytes, nothing but the tenths is rounded.
    if bytes < e {
        lemma_whole_exact(bytes);
        let w = pow2((1074 - k) as nat);
        lemma_pow2_pos((1074 - k) as nat);
        lemma_pow2_adds((1074 - k) as nat, k);
        assert(held * u == bytes * w * (div * u)) by (nonlinear_arith)
            requires
                held == bytes * u,
                u == w * div,
        ;
        lemma_round_exact(bytes, (1074 - k) as nat, div * u);
        assert(x == bytes * w);
        assert(2 * (tenths * div - 10 * bytes) <= div && 2 * (10 * bytes - tenths * div) <= div)
            by (nonlinear_arith)
            requires
                x == bytes * w,
                u == w * div,
                2 * (tenths * u - x * 10) <= u,
                2 * (x * 10 - tenths * u) <= u,
                w > 0,
        ;
    }
    // In general.
    lemma_round_error(bytes * u, 1);
    lemma_round_error_or_half(held * u, div * u);
    assert(2 * ((x * div - held) * e) <= 2 * held + div * e && 2 * ((held - x * div) * e) <= 2
        * held + div * e) by (nonlinear_arith)
        requires
            2 * ((x * (div * u) - held * u) * e) <= 2 * (held * u) + div * u * e,
            2 * ((held * u - x * (div * u)) * e) <= 2 * (held * u) + div * u * e,
            u > 0,
    ;
    assert(held <= 2 * (bytes * u)) by (nonlinear_arith)
        requires
            (held * 1 - bytes * u) * e <= bytes * u,
            e >= 1,
            bytes * u >= 0,
    ;
    lemma_pow2_strictly_increases(k, 41);
    lemma_pow2_adds(4, 41);
    lemma_pow2_adds(45, 53);
    lemma_pow2_strictly_increases(98, 1074);
    assert(10 * div * e <= u) by (nonlinear_arith)
        requires
            div <= pow2(41),
            pow2(45) == 16 * pow2(41),
            pow2(98) == pow2(45) * e,
            pow2(98) <= u,
            e > 0,
    ;
    let a = tenths * u - x * 10;
    let b = x * div - held;
    let c = held - bytes * u;
    assert(2 * a <= u && -2 * a <= u);
    assert((tenths * div - 10 * bytes) * u == div * a + 10 * b + 10 * c) by (nonlinear_arith)
        requires
            a == tenths * u - x * 10,
            b == x * div - held,
            c == held - bytes * u,
    ;
    assert((held - x * div) * e == -(b * e)) by (nonlinear_arith)
        requires
            b == x * div - held,
    ;
    assert((bytes * u - held) * e == -(c * e)) by (nonlinear_arith)
        requires
            c == held - bytes * u,
    ;
    let gap = tenths * div - 10 * bytes;
    assert(2 * (div * a * e) <= div * u * e && -2 * (div * a * e) <= div * u * e)
        by (nonlinear_arith)
        requires
            2 * a <= u,
            -2 * a <= u,
            div > 0,
            e > 0,
    ;
    assert((gap * u) * e == div * a * e + 10 * (b * e) + 10 * (c * e)) by (nonlinear_arith)
        requires
            gap * u == div * a + 10 * b + 10 * c,
    ;
    assert(2 * ((gap * u) * e) <= div * u * e + 60 * (bytes * u) + u && -2 * ((gap * u) * e) <= div
        * u * e + 60 * (bytes * u) + u);
    assert(2 * (gap * e) <= div * e + 60 * bytes + 1 && -2 * (gap * e) <= div * e + 60 * bytes + 1)
        by (nonlinear_arith)
        requires
            2 * ((gap * u) * e) <= div * u * e + 60 * (bytes * u) + u,
            -2 * ((gap * u) * e) <= div * u * e + 60 * (bytes * u) + u,
            u > 0,
    ;
    assert((10 * bytes - tenths * div) * e == -(gap * e)) by (nonlinear_arith)
        requires
            gap == tenths * div - 10 * bytes,
    ;
    tenths
}

} // verus!
