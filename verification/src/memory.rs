//! Memory budgets, and how much memory the host has to give.
use crate::binary64::{
    half_even, lemma_round_exact, lemma_round_monotone, lemma_spacing_bounds, lemma_whole_exact, one,
    position, product, quotient, ratio, round_units, spacing, whole_u64, Binary64, Num,
};
use crate::limits::{auto_share, memory_amount, quote, quoted, MemoryAmount, MemorySpec};
use crate::number::{parse_number, written_number};
use crate::platform::Platform;
use crate::quantities::{law_decimals_read_as_themselves, lemma_half_even_error};
use crate::reading::{law_numbers_have_digits, law_whole_numbers_from_zero};
use crate::text::{
    chars_of, decimal, find_labelled, is_digit, is_space, is_text, labelled,
    law_labels_are_looked_for_line_by_line, law_nothing_else_is_trimmed,
    law_white_space_around_is_trimmed, law_white_space_holds_no_words,
    law_words_come_one_by_one, parse_u64, split_words, text_of, trim, trimmed, unsigned, words,
    IntegerFault,
};
use crate::throttle::lemma_round_error_or_half;
use vstd::arithmetic::power2::{
    lemma2_to64, lemma2_to64_rest, lemma_pow2_adds, lemma_pow2_pos, lemma_pow2_strictly_increases,
    pow2,
};
use vstd::prelude::*;
use vstd::slice::slice_subrange;
use vstd::string::StringExecFns;

verus! {

/// What a command's memory is held to.
#[derive(Clone, Copy, Debug, PartialEq, Eq, Structural)]
pub struct MemoryBudget {
    /// The most memory that the command and its descendants may have.
    pub process_limit: Option<u64>,
    /// The memory that has to stay available on the host.
    pub host_reserve: Option<u64>,
}

/// The budget that a memory limit gives where so much memory is available: a share of it
/// leaves the rest to the host as a reserve.
pub open spec fn budget(amount: Option<MemoryAmount>, available: u64) -> MemoryBudget {
    match amount {
        None => MemoryBudget { process_limit: None, host_reserve: None },
        Some(MemoryAmount::Bytes(bytes)) => MemoryBudget {
            process_limit: Some(bytes),
            host_reserve: None,
        },
        Some(MemoryAmount::AvailableFraction(fraction)) => {
            let limit = MemoryAmount::AvailableFraction(fraction).resolved(available);
            MemoryBudget {
                process_limit: Some(limit),
                host_reserve: Some(
                    if limit < available {
                        (available - limit) as u64
                    } else {
                        0
                    },
                ),
            }
        },
    }
}

/// What an optional limit stands for.
pub open spec fn amount_of(spec: Option<MemorySpec>) -> Option<MemoryAmount> {
    match spec {
        Some(s) => Some(s@),
        None => None,
    }
}

/// The budget that a memory limit gives where so much memory is available.
pub fn resolve_memory_budget(spec: Option<MemorySpec>, available: u64) -> (r: Result<
    MemoryBudget,
    String,
>)
    ensures
        r == Ok::<MemoryBudget, String>(budget(amount_of(spec), available)),
{
    let process_limit: Option<u64> = match spec {
        Some(limit) => Some(limit.resolve(available)),
        None => None,
    };
    let host_reserve: Option<u64> = match (spec, process_limit) {
        (Some(MemorySpec::AvailableFraction(_)), Some(limit)) => Some(
            available.saturating_sub(limit),
        ),
        _ => None,
    };
    Ok(MemoryBudget { process_limit, host_reserve })
}

/// Whether the memory left on the host has fallen below the reserve.
pub fn host_reserve_crossed(reserve: u64, available: u64) -> (crossed: bool)
    ensures
        crossed == (reserve > 0 && available < reserve),
{
    reserve > 0 && available < reserve
}

/// A number of the format that is not negative and at most one.
spec fn within_one(x: Num) -> bool {
    x matches Num::Finite { negative, units } && !negative && units <= one()
}

/// A quotient is at most one where the numerator is at most the denominator.
proof fn lemma_quotient_within_one(num: nat, den: nat)
    requires
        den > 0,
        num <= one() * den,
    ensures
        within_one(crate::binary64::rounded(false, num, den)),
{
    lemma2_to64();
    lemma2_to64_rest();
    lemma_pow2_strictly_increases(1074, 2098);
    lemma_round_exact(1, 1074, den);
    assert(1 * pow2(1074) * den == one() * den);
    assert(num * den <= (one() * den) * den) by (nonlinear_arith)
        requires
            num <= one() * den,
    ;
    lemma_round_monotone(num, den, one() * den, den);
}

/// Every share that can be written is at most the whole.
proof fn lemma_written_share(text: Seq<char>)
    requires
        memory_amount(text) matches Ok(MemoryAmount::AvailableFraction(_)),
    ensures
        memory_amount(text) matches Ok(MemoryAmount::AvailableFraction(f)) && within_one(f),
{
    lemma2_to64();
    lemma2_to64_rest();
    lemma_pow2_pos(1074);
    let value = trimmed(text);
    if crate::text::alike(value, "auto"@) {
        assert(7 * one() <= one() * 10);
        lemma_quotient_within_one(7 * one(), 10);
    } else {
        lemma_whole_exact(100);
        let p = crate::limits::positive(value.drop_last(), "memory percentage"@)->Ok_0;
        let u = p->units;
        assert(u <= 100 * one());
        assert(u * one() <= one() * (100 * one())) by (nonlinear_arith)
            requires
                u <= 100 * one(),
        ;
        assert(100 * one() > 0);
        lemma_quotient_within_one(u * one(), 100 * one());
    }
}

/// A share of the available memory and the reserve that it leaves make up the whole: what the
/// command may have and what the host keeps together are what was available, for every share
/// that can be written and every amount of memory below two to the power 53 bytes.
pub proof fn law_share_and_reserve_make_up_the_whole(text: Seq<char>, available: u64)
    requires
        memory_amount(text) matches Ok(MemoryAmount::AvailableFraction(_)),
        available < 0x20_0000_0000_0000,
    ensures
        ({
            let b = budget(Some(memory_amount(text)->Ok_0), available);
            &&& b.process_limit is Some
            &&& b.host_reserve is Some
            &&& b.process_limit->0 <= available
            &&& b.process_limit->0 + b.host_reserve->0 == available
        }),
{
    lemma_written_share(text);
    let f = memory_amount(text)->Ok_0->AvailableFraction_0;
    let u = f->units;
    let a = available as nat;
    lemma2_to64();
    lemma2_to64_rest();
    lemma_pow2_pos(1074);
    lemma_whole_exact(a);
    lemma_round_exact(a, 1074, one());
    assert(a * pow2(1074) * one() == (a * one()) * one());
    let n = a * one();
    assert((n * u) * one() <= (n * one()) * one()) by (nonlinear_arith)
        requires
            u <= one(),
    ;
    lemma_round_monotone(n * u, one(), n * one(), one());
    let r = round_units(n * u, one());
    assert(r <= a * one());
    lemma_pow2_adds(53, 1074);
    lemma_pow2_strictly_increases(1127, 2098);
    assert(a * one() < pow2(53) * one()) by (nonlinear_arith)
        requires
            a < pow2(53),
            one() > 0,
    ;
    vstd::arithmetic::div_mod::lemma_div_is_ordered(r as int, (a * one()) as int, one() as int);
    vstd::arithmetic::div_mod::lemma_div_by_multiple(a as int, one() as int);
}

/// A reserve is what a share leaves, and never more than what was available.
pub proof fn law_reserve_is_what_is_left(fraction: Num, available: u64)
    ensures
        ({
            let b = budget(Some(MemoryAmount::AvailableFraction(fraction)), available);
            let limit = b.process_limit->0;
            let reserve = b.host_reserve->0;
            &&& reserve <= available
            &&& limit + reserve == (if limit < available {
                available
            } else {
                limit
            })
        }),
{
}

/// Rounding adds less than an eighth to a magnitude of four units or more.
proof fn lemma_round_adds_little(num: nat, den: nat)
    requires
        den > 0,
        num >= 4 * den,
    ensures
        8 * (round_units(num, den) * den) <= 9 * num,
{
    let k = spacing(num, den);
    let p = pow2(k);
    lemma_pow2_pos(k);
    lemma_spacing_bounds(num, den);
    let d = den * p;
    assert(d > 0) by (nonlinear_arith)
        requires
            den > 0,
            p > 0,
            d == den * p,
    ;
    lemma_half_even_error(num, d);
    let h = half_even(num, d);
    assert((h * p) * den == h * d) by (nonlinear_arith)
        requires
            d == den * p,
    ;
    assert(4 * d <= num) by {
        lemma2_to64();
        lemma2_to64_rest();
        if k > 0 {
            lemma_pow2_adds(52, k);
            let top = pow2(52);
            assert(den * pow2((52 + k) as nat) == top * d && 4 * d <= top * d) by (nonlinear_arith)
                requires
                    pow2((52 + k) as nat) == top * p,
                    d == den * p,
                    top >= 4,
            ;
        } else {
            assert(den * p == den) by (nonlinear_arith)
                requires
                    p == 1,
            ;
        }
    }
}

/// Where a command gets what `auto` stands for, its limit and the reserve make up the whole of
/// the memory that is available, however much there is.
pub proof fn law_auto_and_reserve_make_up_the_whole(available: u64)
    ensures
        ({
            let b = budget(Some(MemoryAmount::AvailableFraction(auto_share())), available);
            &&& b.process_limit is Some
            &&& b.host_reserve is Some
            &&& b.process_limit->0 + b.host_reserve->0 == available
        }),
{
    lemma2_to64();
    lemma2_to64_rest();
    lemma_pow2_pos(1074);
    let u = one();
    let a = available as nat;
    let share = auto_share();
    let limit = MemoryAmount::AvailableFraction(share).resolved(available);
    // The share is at most three quarters.
    lemma_pow2_adds(2, 1072);
    let quarter = pow2(1072);
    lemma_pow2_strictly_increases(1074, 2098);
    lemma_round_exact(3, 1072, 1);
    assert(3 * quarter * 1 == 3 * quarter);
    assert((7 * u) * 1 <= (3 * quarter) * 10);
    lemma_round_monotone(7 * u, 10, 3 * quarter, 1);
    let f = round_units(7 * u, 10);
    assert(f <= 3 * quarter);
    assert(share == (Num::Finite { negative: false, units: f }));
    if a == 0 {
        lemma_whole_exact(0);
        assert(0 * u == 0 && 0 * f == 0);
        assert(0 * pow2(1074) * u == 0) by (nonlinear_arith);
        lemma_round_exact(0, 1074, u);
        assert(whole_u64(product(ratio(0, 1), share)) == 0) by {
            vstd::arithmetic::div_mod::lemma_div_of0(u as int);
        }
    } else {
        // What is available, as the nearest number.
        let n = a * u;
        assert(n >= 4 * 1) by (nonlinear_arith)
            requires
                n == a * u,
                a >= 1,
                u >= 4,
        ;
        let x = round_units(n, 1);
        lemma_round_adds_little(n, 1);
        lemma_pow2_adds(65, 1074);
        lemma_pow2_adds(64, 1);
        lemma_pow2_strictly_increases(1139, 2098);
        assert(x < pow2(1139)) by (nonlinear_arith)
            requires
                8 * (x * 1) <= 9 * n,
                n == a * u,
                a < pow2(64),
                pow2(1139) == pow2(65) * u,
                pow2(65) == pow2(64) * pow2(1),
                pow2(1) == 2,
                u > 0,
        ;
        assert(ratio(a, 1) == (Num::Finite { negative: false, units: x }));
        // The share of it.
        let y = round_units(x * f, u);
        assert(4 * (x * f) <= 3 * (x * u)) by (nonlinear_arith)
            requires
                f <= 3 * quarter,
                u == 4 * quarter,
        ;
        assert(y * u <= n * u) by {
            if x * f >= 4 * u {
                lemma_round_adds_little(x * f, u);
                assert(y * u <= n * u) by (nonlinear_arith)
                    requires
                        8 * (y * u) <= 9 * (x * f),
                        4 * (x * f) <= 3 * (x * u),
                        8 * (x * 1) <= 9 * n,
                        u > 0,
                ;
            } else {
                lemma_round_exact(4, 0, u);
                assert(4 * pow2(0) * u == 4 * u && 4 * pow2(0) == 4) by (nonlinear_arith)
                    requires
                        pow2(0) == 1,
                ;
                assert((x * f) * u <= (4 * u) * u) by (nonlinear_arith)
                    requires
                        x * f <= 4 * u,
                ;
                lemma_round_monotone(x * f, u, 4 * u, u);
                assert(y * u <= n * u) by (nonlinear_arith)
                    requires
                        y <= 4,
                        n >= 4,
                ;
            }
        }
        assert(y <= n) by (nonlinear_arith)
            requires
                y * u <= n * u,
                u > 0,
        ;
        assert(n < pow2(1139)) by (nonlinear_arith)
            requires
                n == a * u,
                a < pow2(64),
                pow2(1139) == pow2(65) * u,
                pow2(65) == pow2(64) * pow2(1),
                pow2(1) == 2,
                u > 0,
        ;
        assert(product(ratio(a, 1), share) == (Num::Finite { negative: false, units: y }));
        vstd::arithmetic::div_mod::lemma_div_is_ordered(y as int, n as int, u as int);
        vstd::arithmetic::div_mod::lemma_div_by_multiple(a as int, u as int);
        assert(limit <= available);
    }
}

/// The available memory that `/proc/meminfo` reports, in bytes, or what is wrong with it.
pub open spec fn linux_available(meminfo: Seq<char>) -> Result<u64, Seq<char>> {
    match labelled(meminfo, "MemAvailable:"@) {
        None => Err("/proc/meminfo does not contain MemAvailable"@),
        Some(rest) => {
            let fields = words(rest);
            if fields.len() != 2 {
                Err("MemAvailable has an unexpected field layout"@)
            } else if fields[1] != "kB"@ {
                Err("MemAvailable uses unexpected unit "@ + quoted(fields[1]))
            } else {
                match unsigned(fields[0], u64::MAX as nat) {
                    Err(fault) => Err(
                        "MemAvailable is not an unsigned integer: "@ + fault.words(),
                    ),
                    Ok(kibibytes) => if kibibytes == 0 {
                        Err("MemAvailable reports zero available memory"@)
                    } else if kibibytes * 1024 > u64::MAX {
                        Err("MemAvailable overflows a byte count"@)
                    } else {
                        Ok((kibibytes * 1024) as u64)
                    },
                }
            }
        },
    }
}

/// Two texts, one after the other.
fn joined(a: &str, b: &str) -> (r: String)
    ensures
        r@ == a@ + b@,
{
    let mut text: String = a.to_owned();
    text.append(b);
    text
}

/// The available memory that `/proc/meminfo` reports, in bytes.
pub fn parse_linux_mem_available(meminfo: &str) -> (r: Result<u64, String>)
    ensures
        match r {
            Ok(bytes) => linux_available(meminfo@) == Ok::<u64, Seq<char>>(bytes),
            Err(e) => linux_available(meminfo@) == Err::<u64, Seq<char>>(e@),
        },
{
    let chars: Vec<char> = chars_of(meminfo);
    let rest: &[char] = match find_labelled(chars.as_slice(), "MemAvailable:") {
        None => {
            return Err("/proc/meminfo does not contain MemAvailable".to_owned());
        },
        Some(rest) => rest,
    };
    let fields: Vec<Vec<char>> = split_words(rest);
    let ghost view = |w: Vec<char>| w@;
    proof {
        assert(fields@.map_values(view).len() == fields@.len());
        assert forall|i: int| 0 <= i < fields@.len() implies words(rest@)[i]
            == #[trigger] fields@[i]@ by {
            assert(fields@.map_values(view)[i] == fields@[i]@);
        }
    }
    if fields.len() != 2 {
        return Err("MemAvailable has an unexpected field layout".to_owned());
    }
    if !is_text(fields[1].as_slice(), "kB") {
        return Err(
            joined(
                "MemAvailable uses unexpected unit ",
                quote(text_of(fields[1].as_slice()).as_str()).as_str(),
            ),
        );
    }
    match parse_u64(fields[0].as_slice()) {
        Err(fault) => Err(joined("MemAvailable is not an unsigned integer: ", fault.message())),
        Ok(kibibytes) => {
            if kibibytes == 0 {
                return Err("MemAvailable reports zero available memory".to_owned());
            }
            match kibibytes.checked_mul(1024) {
                None => Err("MemAvailable overflows a byte count".to_owned()),
                Some(bytes) => Ok(bytes),
            }
        },
    }
}

/// The total memory that `memory_pressure` reports, or what is wrong with it.
pub open spec fn pressure_total(output: Seq<char>) -> Result<nat, Seq<char>> {
    match labelled(output, "The system has "@) {
        None => Err("memory_pressure output does not report total memory"@),
        Some(rest) => if words(rest).len() == 0 {
            Err("memory_pressure output does not report total memory"@)
        } else {
            match unsigned(words(rest)[0], u64::MAX as nat) {
                Err(fault) => Err(
                    "memory_pressure total memory is not an unsigned integer: "@ + fault.words(),
                ),
                Ok(total) => Ok(total),
            }
        },
    }
}

/// The percentage of free memory that `memory_pressure` reports, or what is wrong with it.
pub open spec fn pressure_percent(output: Seq<char>) -> Result<Num, Seq<char>> {
    match labelled(output, "System-wide memory free percentage:"@) {
        None => Err("memory_pressure output does not report a percentage"@),
        Some(rest) => {
            let value = trimmed(rest);
            if value.len() == 0 || value.last() != '%' {
                Err("memory_pressure output does not report a percentage"@)
            } else {
                match written_number(value.drop_last()) {
                    None => if value.len() == 1 {
                        Err(
                            "memory_pressure percentage is not numeric: cannot parse float from empty string"@,
                        )
                    } else {
                        Err("memory_pressure percentage is not numeric: invalid float literal"@)
                    },
                    Some(p) => Ok(p),
                }
            }
        },
    }
}

/// A percentage from zero to a hundred.
pub open spec fn is_percentage(p: Num) -> bool {
    match p {
        Num::Finite { negative, units } => 0 <= position(negative, units) <= 100 * one(),
        _ => false,
    }
}

/// The available memory that `memory_pressure` reports, in bytes, or what is wrong with it.
pub open spec fn pressure_available(output: Seq<char>) -> Result<u64, Seq<char>> {
    match (pressure_total(output), pressure_percent(output)) {
        (Err(e), _) => Err(e),
        (_, Err(e)) => Err(e),
        (Ok(total), Ok(percent)) => if !is_percentage(percent) {
            Err("memory_pressure returned an invalid free-memory percentage"@)
        } else {
            let available = whole_u64(
                quotient(product(ratio(total, 1), percent), ratio(100, 1)),
            );
            if available == 0 {
                Err("memory_pressure reports zero available memory"@)
            } else {
                Ok(available)
            }
        },
    }
}

/// The total memory that `memory_pressure` reports.
fn parse_pressure_total(chars: &[char]) -> (r: Result<u64, String>)
    ensures
        match r {
            Ok(total) => pressure_total(chars@) == Ok::<nat, Seq<char>>(total as nat),
            Err(e) => pressure_total(chars@) == Err::<nat, Seq<char>>(e@),
        },
{
    let rest: &[char] = match find_labelled(chars, "The system has ") {
        None => {
            return Err("memory_pressure output does not report total memory".to_owned());
        },
        Some(rest) => rest,
    };
    let fields: Vec<Vec<char>> = split_words(rest);
    let ghost view = |w: Vec<char>| w@;
    proof {
        assert(fields@.map_values(view).len() == fields@.len());
        if fields@.len() > 0 {
            assert(fields@.map_values(view)[0] == fields@[0]@);
        }
    }
    if fields.len() == 0 {
        return Err("memory_pressure output does not report total memory".to_owned());
    }
    match parse_u64(fields[0].as_slice()) {
        Err(fault) => Err(
            joined("memory_pressure total memory is not an unsigned integer: ", fault.message()),
        ),
        Ok(total) => Ok(total),
    }
}

/// The percentage of free memory that `memory_pressure` reports.
fn parse_pressure_percent(chars: &[char]) -> (r: Result<Binary64, String>)
    ensures
        match r {
            Ok(p) => pressure_percent(chars@) == Ok::<Num, Seq<char>>(p@),
            Err(e) => pressure_percent(chars@) == Err::<Num, Seq<char>>(e@),
        },
{
    let value: &[char] = match find_labelled(chars, "System-wide memory free percentage:") {
        None => {
            return Err("memory_pressure output does not report a percentage".to_owned());
        },
        Some(rest) => trim(rest),
    };
    if value.len() == 0 || value[value.len() - 1] != '%' {
        return Err("memory_pressure output does not report a percentage".to_owned());
    }
    let digits: &[char] = slice_subrange(value, 0, value.len() - 1);
    proof {
        assert(digits@ =~= value@.drop_last());
    }
    match parse_number(digits) {
        None => if value.len() == 1 {
            Err(
                "memory_pressure percentage is not numeric: cannot parse float from empty string".to_owned(),
            )
        } else {
            Err("memory_pressure percentage is not numeric: invalid float literal".to_owned())
        },
        Some(p) => Ok(p),
    }
}

/// The available memory that `memory_pressure` reports, in bytes.
pub fn parse_memory_pressure_available(output: &str) -> (r: Result<u64, String>)
    ensures
        match r {
            Ok(bytes) => pressure_available(output@) == Ok::<u64, Seq<char>>(bytes),
            Err(e) => pressure_available(output@) == Err::<u64, Seq<char>>(e@),
        },
{
    let chars: Vec<char> = chars_of(output);
    let total: u64 = match parse_pressure_total(chars.as_slice()) {
        Err(e) => {
            return Err(e);
        },
        Ok(total) => total,
    };
    let percent: Binary64 = match parse_pressure_percent(chars.as_slice()) {
        Err(e) => {
            return Err(e);
        },
        Ok(p) => p,
    };
    let zero: Binary64 = Binary64::zero(false);
    let hundred: Binary64 = Binary64::from_u64(100);
    proof {
        lemma2_to64();
        lemma2_to64_rest();
        lemma_whole_exact(100);
    }
    if !percent.is_finite() || percent.less_than(zero) || hundred.less_than(percent) {
        return Err("memory_pressure returned an invalid free-memory percentage".to_owned());
    }
    let available: u64 = Binary64::from_u64(total).times(percent).over(hundred).to_u64();
    if available == 0 {
        return Err("memory_pressure reports zero available memory".to_owned());
    }
    Ok(available)
}

/// Where the amount of available memory comes from.
#[derive(Clone, Copy, Debug, PartialEq, Eq, Structural)]
pub enum AvailableSource {
    /// The sample itself tells.
    Sampled(u64),
    /// The output of `memory_pressure` tells.
    MemoryPressure,
    /// The text of `/proc/meminfo` tells.
    MemInfo,
    /// Nothing tells.
    Unreported,
}

/// Where the amount of available memory comes from: a sample above zero is taken as it is,
/// and otherwise the operating system's own report, where it has one.
pub open spec fn source_of(platform: Platform, sampled: u64) -> AvailableSource {
    if sampled > 0 {
        AvailableSource::Sampled(sampled)
    } else {
        match platform {
            Platform::MacOs => AvailableSource::MemoryPressure,
            Platform::Linux => AvailableSource::MemInfo,
            _ => AvailableSource::Unreported,
        }
    }
}

/// Where the amount of available memory comes from.
pub fn available_source(platform: Platform, sampled: u64) -> (r: AvailableSource)
    ensures
        r == source_of(platform, sampled),
{
    if sampled > 0 {
        return AvailableSource::Sampled(sampled);
    }
    match platform {
        Platform::MacOs => AvailableSource::MemoryPressure,
        Platform::Linux => AvailableSource::MemInfo,
        _ => AvailableSource::Unreported,
    }
}

/// A share of the available memory and what is left to the host make up what is available; a
/// number of bytes leaves nothing aside, and no limit limits nothing.
pub proof fn law_budgets(bytes: u64, share: Num, available: u64)
    ensures
        budget(None, available) == (MemoryBudget { process_limit: None, host_reserve: None }),
        budget(Some(MemoryAmount::Bytes(bytes)), available) == (MemoryBudget {
            process_limit: Some(bytes),
            host_reserve: None,
        }),
        ({
            let b = budget(Some(MemoryAmount::AvailableFraction(share)), available);
            let limit = MemoryAmount::AvailableFraction(share).resolved(available);
            &&& b.process_limit == Some(limit)
            &&& limit <= available ==> b.host_reserve == Some((available - limit) as u64)
            &&& limit > available ==> b.host_reserve == Some(0u64)
        }),
        MemoryAmount::Bytes(bytes).resolved(available) == bytes,
{
}

/// A line with a label, a number and a unit breaks nowhere, and has the label at its start.
proof fn lemma_available_line(n: nat, before: Seq<char>, between: Seq<char>, behind: Seq<char>)
    requires
        forall|i: int| 0 <= i < before.len() ==> #[trigger] before[i] != '\n',
        forall|i: int| 0 <= i < between.len() ==> #[trigger] between[i] != '\n',
        forall|i: int| 0 <= i < behind.len() ==> #[trigger] behind[i] != '\n' && behind[i] != '\r',
    ensures
        ({
            let line = "MemAvailable:"@ + before + decimal(n) + between + "kB"@ + behind;
            &&& forall|i: int| 0 <= i < line.len() ==> #[trigger] line[i] != '\n'
            &&& line.len() > 0
            &&& line.last() != '\r'
            &&& "MemAvailable:"@.is_prefix_of(line)
            &&& line.skip("MemAvailable:"@.len() as int) == before + decimal(n) + (between + "kB"@
                + behind)
        }),
{
    reveal_strlit("MemAvailable:");
    reveal_strlit("kB");
    let label = "MemAvailable:"@;
    let d = decimal(n);
    law_decimals_read_as_themselves(n);
    let rest = before + d + (between + "kB"@ + behind);
    let line = label + before + d + between + "kB"@ + behind;
    assert(line =~= label + rest);
    let a = label.len() as int;
    let b = a + before.len();
    let c = b + d.len();
    let e = c + between.len();
    assert forall|i: int| 0 <= i < line.len() implies #[trigger] line[i] != '\n' by {
        if i < a {
            assert(line[i] == label[i]);
        } else if i < b {
            assert(line[i] == before[i - a]);
        } else if i < c {
            assert(line[i] == d[i - b]);
            assert(is_digit(d[i - b]));
        } else if i < e {
            assert(line[i] == between[i - c]);
        } else if i < e + 2 {
            assert(line[i] == "kB"@[i - e]);
        } else {
            assert(line[i] == behind[i - e - 2]);
        }
    }
    if behind.len() > 0 {
        assert(line.last() == behind[behind.len() - 1]);
    } else {
        assert(line.last() == "kB"@[1]);
    }
    assert(line.skip(a) =~= rest);
}

/// A number and a unit with white space between them and around them are two words.
proof fn lemma_two_fields(n: nat, before: Seq<char>, between: Seq<char>, behind: Seq<char>)
    requires
        forall|i: int| 0 <= i < before.len() ==> is_space(#[trigger] before[i]),
        forall|i: int| 0 <= i < between.len() ==> is_space(#[trigger] between[i]),
        between.len() > 0,
        forall|i: int| 0 <= i < behind.len() ==> is_space(#[trigger] behind[i]),
    ensures
        words(before + decimal(n) + (between + "kB"@ + behind)) == seq![decimal(n), "kB"@],
        unsigned(decimal(n), u64::MAX as nat) == if n <= u64::MAX {
            Ok::<nat, IntegerFault>(n)
        } else {
            Err::<nat, IntegerFault>(IntegerFault::TooLarge)
        },
{
    reveal_strlit("kB");
    let d = decimal(n);
    law_decimals_read_as_themselves(n);
    let second = between + "kB"@ + behind;
    assert forall|i: int| 0 <= i < d.len() implies !is_space(#[trigger] d[i]) by {
        assert(is_digit(d[i]));
    }
    assert(second[0] == between[0]);
    law_words_come_one_by_one(before, d, second);
    assert forall|i: int| 0 <= i < "kB"@.len() implies !is_space(#[trigger] "kB"@[i]) by {
        assert("kB"@[i] == 'k' || "kB"@[i] == 'B');
    }
    law_words_come_one_by_one(between, "kB"@, behind);
    law_white_space_holds_no_words(behind);
    assert(words(second) =~= seq!["kB"@]);
    assert(words(before + d + second) =~= seq![d, "kB"@]);
    law_whole_numbers_from_zero(d, u64::MAX as nat);
}

/// A `MemAvailable` line with so many kibibytes, whatever white space stands between them and
/// around them, reports that many times 1024 bytes; none, or more than a `u64` holds, is refused.
pub proof fn law_kibibytes_are_reported(
    n: nat,
    before: Seq<char>,
    between: Seq<char>,
    behind: Seq<char>,
    earlier: Seq<char>,
    later: Seq<char>,
)
    requires
        forall|i: int| 0 <= i < before.len() ==> is_space(#[trigger] before[i]) && before[i] != '\n',
        forall|i: int|
            0 <= i < between.len() ==> is_space(#[trigger] between[i]) && between[i] != '\n',
        between.len() > 0,
        forall|i: int| 0 <= i < behind.len() ==> is_space(#[trigger] behind[i]) && behind[i] != '\n'
            && behind[i] != '\r',
        forall|i: int| 0 <= i < earlier.len() ==> #[trigger] earlier[i] != '\n',
        earlier.len() > 0 ==> earlier.last() != '\r',
        !"MemAvailable:"@.is_prefix_of(earlier),
    ensures
        ({
            let line = "MemAvailable:"@ + before + decimal(n) + between + "kB"@ + behind;
            let expected = if n == 0 {
                Err::<u64, Seq<char>>("MemAvailable reports zero available memory"@)
            } else if n > u64::MAX {
                Err::<u64, Seq<char>>(
                    "MemAvailable is not an unsigned integer: "@
                        + "number too large to fit in target type"@,
                )
            } else if n * 1024 > u64::MAX {
                Err::<u64, Seq<char>>("MemAvailable overflows a byte count"@)
            } else {
                Ok::<u64, Seq<char>>((n * 1024) as u64)
            };
            &&& linux_available(line) == expected
            &&& linux_available(line + seq!['\n'] + later) == expected
            &&& linux_available(earlier + seq!['\n'] + (line + seq!['\n'] + later)) == expected
        }),
{
    let label = "MemAvailable:"@;
    let line = label + before + decimal(n) + between + "kB"@ + behind;
    lemma_available_line(n, before, between, behind);
    lemma_two_fields(n, before, between, behind);
    law_labels_are_looked_for_line_by_line(line, later, label);
    law_labels_are_looked_for_line_by_line(earlier, line + seq!['\n'] + later, label);
}

/// A report without a `MemAvailable` line is refused.
pub proof fn law_a_report_needs_its_line(line: Seq<char>)
    requires
        forall|i: int| 0 <= i < line.len() ==> #[trigger] line[i] != '\n',
        !"MemAvailable:"@.is_prefix_of(line),
    ensures
        linux_available(line) == Err::<u64, Seq<char>>(
            "/proc/meminfo does not contain MemAvailable"@,
        ),
{
    law_labels_are_looked_for_line_by_line(line, Seq::empty(), "MemAvailable:"@);
    if line.len() == 0 {
        assert(line =~= Seq::<char>::empty());
    }
}

/// The memory that is free by a total and a percentage is that share of the total, up to four
/// parts in two to the power 53, a unit, and the byte that rounding down takes.
pub proof fn law_free_memory_is_the_percentage_of_the_total(
    output: Seq<char>,
    total: nat,
    percent: nat,
)
    requires
        pressure_total(output) == Ok::<nat, Seq<char>>(total),
        pressure_percent(output) == Ok::<Num, Seq<char>>(
            Num::Finite { negative: false, units: percent },
        ),
        total < pow2(53),
    ensures
        percent > 100 * one() ==> pressure_available(output) == Err::<u64, Seq<char>>(
            "memory_pressure returned an invalid free-memory percentage"@,
        ),
        percent <= 100 * one() ==> match pressure_available(output) {
            Ok(bytes) => {
                &&& bytes > 0
                &&& (100 * (bytes * one()) - total * percent) * pow2(51) <= total * percent + pow2(51)
                    * 100
                &&& (total * percent - 100 * ((bytes + 1) * one())) * pow2(51) <= total * percent
                    + pow2(51) * 100
            },
            Err(e) => {
                &&& e == "memory_pressure reports zero available memory"@
                &&& (total * percent - 100 * one()) * pow2(51) <= total * percent + pow2(51) * 100
            },
        },
{
    let u = one();
    let e = pow2(53);
    lemma2_to64();
    lemma2_to64_rest();
    lemma_pow2_pos(1074);
    lemma_whole_exact(total);
    lemma_whole_exact(100);
    if percent <= 100 * u {
        let exact = total * percent;
        let num = (total * u) * percent;
        let y = round_units(num, u);
        lemma_round_error_or_half(num, u);
        assert(2 * ((y - exact) * e) <= 2 * exact + e && 2 * ((exact - y) * e) <= 2 * exact + e)
            by (nonlinear_arith)
            requires
                2 * ((y * u - num) * e) <= 2 * num + u * e,
                2 * ((num - y * u) * e) <= 2 * num + u * e,
                num == (total * u) * percent,
                exact == total * percent,
                u > 0,
        ;
        lemma_pow2_adds(7, 53);
        lemma_pow2_adds(60, 1074);
        lemma_pow2_strictly_increases(60 + 1074, 2098);
        assert(num * u <= (1 * pow2(60 + 1074) * u) * u) by (nonlinear_arith)
            requires
                num == (total * u) * percent,
                total < e,
                percent <= 100 * u,
                pow2(60) == 128 * e,
                pow2(60 + 1074) == pow2(60) * u,
        ;
        lemma_round_exact(1, 60 + 1074, u);
        lemma_round_monotone(num, u, 1 * pow2(60 + 1074) * u, u);
        let d = 100 * u;
        let z = round_units(y * u, d);
        lemma_round_error_or_half(y * u, d);
        assert(2 * ((100 * z - y) * e) <= 2 * y + 100 * e && 2 * ((y - 100 * z) * e) <= 2 * y + 100
            * e) by (nonlinear_arith)
            requires
                d == 100 * u,
                2 * ((z * d - y * u) * e) <= 2 * (y * u) + d * e,
                2 * ((y * u - z * d) * e) <= 2 * (y * u) + d * e,
                u > 0,
        ;
        assert((y * u) * d <= (1 * pow2(60 + 1074) * d) * d) by (nonlinear_arith)
            requires
                y <= 1 * pow2(60 + 1074),
                d == 100 * u,
        ;
        lemma_round_exact(1, 60 + 1074, d);
        lemma_round_monotone(y * u, d, 1 * pow2(60 + 1074) * d, d);
        vstd::arithmetic::div_mod::lemma_fundamental_div_mod(z as int, u as int);
        let whole = z / u;
        assert(whole * u <= z < (whole + 1) * u) by (nonlinear_arith)
            requires
                z == u * whole + z % u,
                0 <= z % u < u,
        ;
        assert(whole <= pow2(60)) by (nonlinear_arith)
            requires
                whole * u <= z,
                z <= pow2(60) * u,
                u > 0,
        ;
        lemma_pow2_adds(2, 51);
        let q = pow2(51);
        assert(y <= 2 * exact + 1) by (nonlinear_arith)
            requires
                2 * ((y - exact) * e) <= 2 * exact + e,
                e >= 2,
                exact >= 0,
        ;
        assert((100 * z - exact) * q <= exact + 100 * q && (exact - 100 * z) * q <= exact + 100
            * q) by (nonlinear_arith)
            requires
                2 * ((y - exact) * e) <= 2 * exact + e,
                2 * ((exact - y) * e) <= 2 * exact + e,
                2 * ((100 * z - y) * e) <= 2 * y + 100 * e,
                2 * ((y - 100 * z) * e) <= 2 * y + 100 * e,
                y <= 2 * exact + 1,
                e == 4 * q,
                q >= 1,
                exact >= 0,
        ;
        assert((100 * (whole * u) - exact) * q <= exact + q * 100 && (exact - 100 * ((whole + 1)
            * u)) * q <= exact + q * 100) by (nonlinear_arith)
            requires
                whole * u <= z < (whole + 1) * u,
                (100 * z - exact) * q <= exact + 100 * q,
                (exact - 100 * z) * q <= exact + 100 * q,
                q >= 1,
        ;
        if whole == 0 {
            assert((whole + 1) * u == u) by (nonlinear_arith)
                requires
                    whole == 0,
            ;
        }
    }
}

/// A sample above zero is taken as it is, on every platform; without one, macOS and Linux have
/// a report of their own, and no other platform has.
pub proof fn law_where_available_memory_comes_from(platform: Platform, sampled: u64)
    ensures
        sampled > 0 ==> source_of(platform, sampled) == AvailableSource::Sampled(sampled),
        source_of(Platform::MacOs, 0) == AvailableSource::MemoryPressure,
        source_of(Platform::Linux, 0) == AvailableSource::MemInfo,
        platform != Platform::MacOs && platform != Platform::Linux ==> source_of(platform, 0)
            == AvailableSource::Unreported,
{
}

/// The total is the whole number behind `The system has`, whatever follows it on the line.
pub proof fn law_the_total_is_reported(output: Seq<char>, n: nat, gap: Seq<char>, more: Seq<char>)
    requires
        labelled(output, "The system has "@) == Some(gap + decimal(n) + more),
        forall|i: int| 0 <= i < gap.len() ==> is_space(#[trigger] gap[i]),
        more.len() > 0 ==> is_space(more[0]),
    ensures
        n <= u64::MAX ==> pressure_total(output) == Ok::<nat, Seq<char>>(n),
        n > u64::MAX ==> pressure_total(output) is Err,
{
    let d = decimal(n);
    law_decimals_read_as_themselves(n);
    assert forall|i: int| 0 <= i < d.len() implies !is_space(#[trigger] d[i]) by {
        assert(is_digit(d[i]));
    }
    law_words_come_one_by_one(gap, d, more);
    assert(words(gap + d + more)[0] == d);
    law_whole_numbers_from_zero(d, u64::MAX as nat);
}

/// The percentage is the number between the label and the percent sign.
pub proof fn law_the_percentage_is_reported(
    output: Seq<char>,
    before: Seq<char>,
    number: Seq<char>,
    behind: Seq<char>,
    percent: Num,
)
    requires
        labelled(output, "System-wide memory free percentage:"@) == Some(
            before + (number + seq!['%']) + behind,
        ),
        forall|i: int| 0 <= i < before.len() ==> is_space(#[trigger] before[i]),
        forall|i: int| 0 <= i < behind.len() ==> is_space(#[trigger] behind[i]),
        number.len() > 0,
        !is_space(number[0]),
    ensures
        written_number(number) == Some(percent) ==> pressure_percent(output) == Ok::<
            Num,
            Seq<char>,
        >(percent),
        written_number(number) is None ==> pressure_percent(output) == Err::<Num, Seq<char>>(
            "memory_pressure percentage is not numeric: invalid float literal"@,
        ),
{
    let value = number + seq!['%'];
    assert(value[0] == number[0]);
    assert(value.last() == '%');
    law_nothing_else_is_trimmed(value);
    law_white_space_around_is_trimmed(before, value, behind);
    assert(value.drop_last() =~= number);
}

/// A report needs both its lines.
pub proof fn law_a_pressure_report_needs_both_lines(output: Seq<char>)
    ensures
        labelled(output, "The system has "@) is None ==> pressure_available(output) == Err::<
            u64,
            Seq<char>,
        >("memory_pressure output does not report total memory"@),
        labelled(output, "System-wide memory free percentage:"@) is None ==> pressure_available(
            output,
        ) is Err,
{
}

/// A `MemAvailable` line has just a number and the unit `kB` behind its label: any other layout
/// is refused, and so are another unit and what is no whole number.
pub proof fn law_other_available_lines_are_refused(meminfo: Seq<char>, rest: Seq<char>)
    requires
        labelled(meminfo, "MemAvailable:"@) == Some(rest),
    ensures
        words(rest).len() != 2 ==> linux_available(meminfo) == Err::<u64, Seq<char>>(
            "MemAvailable has an unexpected field layout"@,
        ),
        words(rest).len() == 2 && words(rest)[1] != "kB"@ ==> linux_available(meminfo) == Err::<
            u64,
            Seq<char>,
        >("MemAvailable uses unexpected unit "@ + quoted(words(rest)[1])),
        words(rest).len() == 2 && words(rest)[1] == "kB"@ ==> (unsigned(
            words(rest)[0],
            u64::MAX as nat,
        ) matches Err(fault) ==> linux_available(meminfo) == Err::<u64, Seq<char>>(
            "MemAvailable is not an unsigned integer: "@ + fault.words(),
        )),
{
}

/// A total that is missing or no whole number is refused, and so is a percentage without its
/// sign or without its number.
pub proof fn law_other_pressure_lines_are_refused(output: Seq<char>, rest: Seq<char>)
    ensures
        labelled(output, "The system has "@) == Some(rest) && words(rest).len() == 0
            ==> pressure_total(output) is Err,
        labelled(output, "The system has "@) == Some(rest) && words(rest).len() > 0 && unsigned(
            words(rest)[0],
            u64::MAX as nat,
        ) is Err ==> pressure_total(output) is Err,
        labelled(output, "System-wide memory free percentage:"@) == Some(rest) && (trimmed(
            rest,
        ).len() == 0 || trimmed(rest).last() != '%') ==> pressure_percent(output) is Err,
        labelled(output, "System-wide memory free percentage:"@) == Some(rest) && trimmed(rest)
            == seq!['%'] ==> pressure_percent(output) == Err::<Num, Seq<char>>(
            "memory_pressure percentage is not numeric: cannot parse float from empty string"@,
        ),
        pressure_total(output) is Err || pressure_percent(output) is Err ==> pressure_available(
            output,
        ) is Err,
{
    law_numbers_have_digits(Seq::empty());
    assert(seq!['%'].drop_last() =~= Seq::<char>::empty());
}

/// A percentage below zero, or no number, tells nothing of the available memory.
pub proof fn law_percentages_lie_between_zero_and_a_hundred(p: Num, units: nat)
    ensures
        is_percentage(Num::Finite { negative: false, units }) <==> units <= 100 * one(),
        is_percentage(Num::Finite { negative: true, units }) <==> units == 0,
        !(p is Finite) ==> !is_percentage(p),
{
}

} // verus!
