//! The limits as they are written on the command line.
use crate::binary64::{below, product, quotient, ratio, whole_u64, Binary64, Num};
use crate::duration::{span_of, Duration};
use crate::number::{parse_number, written_number};
use crate::text::{
    alike, chars_of, digits_and_points, is_alike, is_text, leading, lowered, number_length, text_of,
    to_lowered, trim, trimmed,
};
use core::str::FromStr;
use vstd::prelude::*;
use vstd::slice::slice_subrange;
use vstd::string::StringExecFns;

verus! {

/// A text between quotation marks, with what cannot be shown escaped.
pub uninterp spec fn quoted(text: Seq<char>) -> Seq<char>;

/// Debug formatting of a `str` by `format!`: quotation marks around the text, and escapes for
/// the characters that `char::escape_debug` escapes. The result depends on the text alone.
#[verifier::external_body]
pub(crate) fn quote(text: &str) -> (r: String)
    ensures
        r@ == quoted(text@),
{
    format!("{text:?}")
}

/// A number above zero as `label` names it, or what is wrong with it.
pub open spec fn positive(value: Seq<char>, label: Seq<char>) -> Result<Num, Seq<char>> {
    match written_number(value) {
        None => Err("invalid "@ + label + " "@ + quoted(value)),
        Some(x) => match x {
            Num::Finite { negative, units } => if negative || units == 0 {
                Err(label + " must be positive"@)
            } else {
                Ok(x)
            },
            _ => Err(label + " must be positive"@),
        },
    }
}

/// A number above zero.
fn positive_number(value: &[char], label: &str) -> (r: Result<Binary64, String>)
    ensures
        match r {
            Ok(x) => positive(value@, label@) == Ok::<Num, Seq<char>>(x@),
            Err(e) => positive(value@, label@) == Err::<Num, Seq<char>>(e@),
        },
{
    match parse_number(value) {
        None => {
            let mut text: String = String::new();
            text.append("invalid ");
            text.append(label);
            text.append(" ");
            text.append(quote(text_of(value).as_str()).as_str());
            proof {
                assert(text@ =~= "invalid "@ + label@ + " "@ + quoted(value@));
            }
            Err(text)
        },
        Some(x) => {
            let zero: Binary64 = Binary64::zero(false);
            if !x.is_finite() || x.at_most(zero) {
                let mut text: String = String::new();
                text.append(label);
                text.append(" must be positive");
                proof {
                    assert(text@ =~= label@ + " must be positive"@);
                }
                Err(text)
            } else {
                Ok(x)
            }
        },
    }
}

/// The number at the start of a quantity.
pub open spec fn quantity_number(value: Seq<char>) -> Seq<char> {
    value.take(leading(value, digits_and_points()) as int)
}

/// The unit at the end of a quantity, in lower case.
pub open spec fn quantity_unit(value: Seq<char>) -> Seq<char> {
    lowered(trimmed(value.skip(leading(value, digits_and_points()) as int)))
}

/// A quantity taken apart: its number, and its unit in lower case.
fn split_quantity<'a>(value: &'a [char]) -> (r: (&'a [char], Vec<char>))
    ensures
        r.0@ == quantity_number(value@),
        r.1@ == quantity_unit(value@),
{
    let split: usize = number_length(value);
    let number: &'a [char] = slice_subrange(value, 0, split);
    let rest: &'a [char] = slice_subrange(value, split, value.len());
    proof {
        assert(number@ =~= value@.take(split as int));
        assert(rest@ =~= value@.skip(split as int));
    }
    (number, to_lowered(trim(rest)))
}

/// How much memory a command may have.
#[derive(Clone, Copy, Debug, PartialEq)]
pub enum MemorySpec {
    /// So many bytes.
    Bytes(u64),
    /// A share of the memory that is available.
    AvailableFraction(Binary64),
}

/// What a memory limit stands for.
pub enum MemoryAmount {
    Bytes(u64),
    AvailableFraction(Num),
}

impl View for MemorySpec {
    type V = MemoryAmount;

    open spec fn view(&self) -> MemoryAmount {
        match self {
            MemorySpec::Bytes(bytes) => MemoryAmount::Bytes(*bytes),
            MemorySpec::AvailableFraction(fraction) => MemoryAmount::AvailableFraction(fraction@),
        }
    }
}

impl MemoryAmount {
    /// The limit in bytes.
    pub open spec fn resolved(self, available: u64) -> u64 {
        match self {
            MemoryAmount::Bytes(bytes) => bytes,
            MemoryAmount::AvailableFraction(fraction) => whole_u64(
                product(ratio(available as nat, 1), fraction),
            ),
        }
    }
}

/// The bytes in a unit of memory: powers of 1000, or of 1024 where there is an `i`.
pub open spec fn bytes_in(unit: Seq<char>) -> Option<nat> {
    if unit == ""@ || unit == "b"@ {
        Some(1)
    } else if unit == "k"@ || unit == "kb"@ {
        Some(1_000)
    } else if unit == "m"@ || unit == "mb"@ {
        Some(1_000_000)
    } else if unit == "g"@ || unit == "gb"@ {
        Some(1_000_000_000)
    } else if unit == "t"@ || unit == "tb"@ {
        Some(1_000_000_000_000)
    } else if unit == "ki"@ || unit == "kib"@ {
        Some(0x400)
    } else if unit == "mi"@ || unit == "mib"@ {
        Some(0x10_0000)
    } else if unit == "gi"@ || unit == "gib"@ {
        Some(0x4000_0000)
    } else if unit == "ti"@ || unit == "tib"@ {
        Some(0x100_0000_0000)
    } else {
        None
    }
}

/// The share that `auto` stands for.
pub open spec fn auto_share() -> Num {
    ratio(7, 10)
}

/// A percentage of the available memory.
pub open spec fn memory_share(percent: Seq<char>) -> Result<MemoryAmount, Seq<char>> {
    match positive(percent, "memory percentage"@) {
        Err(e) => Err(e),
        Ok(p) => if below(ratio(100, 1), p) {
            Err("memory percentage must not exceed 100%"@)
        } else {
            Ok(MemoryAmount::AvailableFraction(quotient(p, ratio(100, 1))))
        },
    }
}

/// A number of bytes, written with a unit or without.
pub open spec fn memory_size(value: Seq<char>) -> Result<MemoryAmount, Seq<char>> {
    match positive(quantity_number(value), "memory size"@) {
        Err(e) => Err(e),
        Ok(number) => match bytes_in(quantity_unit(value)) {
            None => Err("unknown memory-size suffix "@ + quoted(quantity_unit(value))),
            Some(unit) => {
                let bytes = product(number, ratio(unit, 1));
                if !(bytes is Finite) || below(ratio(u64::MAX as nat, 1), bytes) {
                    Err("memory size is too large"@)
                } else {
                    Ok(MemoryAmount::Bytes(whole_u64(bytes)))
                }
            },
        },
    }
}

/// A memory limit as it is written: `auto`, a percentage, or a size.
pub open spec fn memory_amount(text: Seq<char>) -> Result<MemoryAmount, Seq<char>> {
    let value = trimmed(text);
    if alike(value, "auto"@) {
        Ok(MemoryAmount::AvailableFraction(auto_share()))
    } else if value.len() > 0 && value.last() == '%' {
        memory_share(value.drop_last())
    } else {
        memory_size(value)
    }
}

/// The bytes in a unit of memory.
fn unit_bytes(unit: &[char]) -> (r: Option<u64>)
    ensures
        match r {
            Some(n) => bytes_in(unit@) == Some(n as nat),
            None => bytes_in(unit@) is None,
        },
{
    if is_text(unit, "") || is_text(unit, "b") {
        Some(1)
    } else if is_text(unit, "k") || is_text(unit, "kb") {
        Some(1_000)
    } else if is_text(unit, "m") || is_text(unit, "mb") {
        Some(1_000_000)
    } else if is_text(unit, "g") || is_text(unit, "gb") {
        Some(1_000_000_000)
    } else if is_text(unit, "t") || is_text(unit, "tb") {
        Some(1_000_000_000_000)
    } else if is_text(unit, "ki") || is_text(unit, "kib") {
        Some(0x400)
    } else if is_text(unit, "mi") || is_text(unit, "mib") {
        Some(0x10_0000)
    } else if is_text(unit, "gi") || is_text(unit, "gib") {
        Some(0x4000_0000)
    } else if is_text(unit, "ti") || is_text(unit, "tib") {
        Some(0x100_0000_0000)
    } else {
        None
    }
}

impl MemorySpec {
    /// The share that `auto` stands for: seven tenths of what is available.
    pub fn auto() -> (r: Self)
        ensures
            r@ == MemoryAmount::AvailableFraction(auto_share()),
    {
        MemorySpec::AvailableFraction(Binary64::from_ratio(7, 10))
    }

    /// The limit in bytes, where so much memory is available.
    pub fn resolve(self, available: u64) -> (bytes: u64)
        ensures
            bytes == self@.resolved(available),
    {
        match self {
            MemorySpec::Bytes(bytes) => bytes,
            MemorySpec::AvailableFraction(fraction) => Binary64::from_u64(available).times(
                fraction,
            ).to_u64(),
        }
    }

    /// A percentage of the available memory.
    fn parse_share(percent: &[char]) -> (r: Result<Self, String>)
        ensures
            match r {
                Ok(m) => memory_share(percent@) == Ok::<MemoryAmount, Seq<char>>(m@),
                Err(e) => memory_share(percent@) == Err::<MemoryAmount, Seq<char>>(e@),
            },
    {
        match positive_number(percent, "memory percentage") {
            Err(e) => Err(e),
            Ok(p) => {
                let hundred: Binary64 = Binary64::from_u64(100);
                if hundred.less_than(p) {
                    Err("memory percentage must not exceed 100%".to_owned())
                } else {
                    Ok(MemorySpec::AvailableFraction(p.over(hundred)))
                }
            },
        }
    }

    /// A number of bytes, written with a unit or without.
    fn parse_size(value: &[char]) -> (r: Result<Self, String>)
        ensures
            match r {
                Ok(m) => memory_size(value@) == Ok::<MemoryAmount, Seq<char>>(m@),
                Err(e) => memory_size(value@) == Err::<MemoryAmount, Seq<char>>(e@),
            },
    {
        let (digits, unit): (&[char], Vec<char>) = split_quantity(value);
        let number: Binary64 = match positive_number(digits, "memory size") {
            Err(e) => {
                return Err(e);
            },
            Ok(x) => x,
        };
        match unit_bytes(unit.as_slice()) {
            None => {
                let mut text: String = String::new();
                text.append("unknown memory-size suffix ");
                text.append(quote(text_of(unit.as_slice()).as_str()).as_str());
                proof {
                    assert(text@ =~= "unknown memory-size suffix "@ + quoted(unit@));
                }
                Err(text)
            },
            Some(n) => {
                let bytes: Binary64 = number.times(Binary64::from_u64(n));
                if !bytes.is_finite() || Binary64::from_u64(u64::MAX).less_than(bytes) {
                    Err("memory size is too large".to_owned())
                } else {
                    Ok(MemorySpec::Bytes(bytes.to_u64()))
                }
            },
        }
    }
}

impl FromStr for MemorySpec {
    type Err = String;

    /// A memory limit as it is written: `auto`, a percentage, or a size with a unit.
    fn from_str(text: &str) -> (r: Result<Self, String>)
        ensures
            match r {
                Ok(m) => memory_amount(text@) == Ok::<MemoryAmount, Seq<char>>(m@),
                Err(e) => memory_amount(text@) == Err::<MemoryAmount, Seq<char>>(e@),
            },
    {
        let chars: Vec<char> = chars_of(text);
        let value: &[char] = trim(chars.as_slice());
        if is_alike(value, "auto") {
            return Ok(Self::auto());
        }
        if value.len() > 0 && value[value.len() - 1] == '%' {
            let percent: &[char] = slice_subrange(value, 0, value.len() - 1);
            proof {
                assert(percent@ =~= value@.drop_last());
            }
            return Self::parse_share(percent);
        }
        Self::parse_size(value)
    }
}

/// A sustained CPU allowance, in logical cores.
#[derive(Clone, Copy, Debug, PartialEq)]
pub struct CpuLimit(pub Binary64);

/// The least CPU allowance.
pub open spec fn least_cores() -> Num {
    ratio(1, 100)
}

/// A CPU allowance as it is written.
pub open spec fn cpu_cores(text: Seq<char>) -> Result<Num, Seq<char>> {
    match positive(text, "CPU limit"@) {
        Err(e) => Err(e),
        Ok(cores) => if below(cores, least_cores()) {
            Err("CPU limit must be at least 0.01"@)
        } else {
            Ok(cores)
        },
    }
}

impl FromStr for CpuLimit {
    type Err = String;

    /// A CPU allowance as it is written: a number of cores, at least a hundredth of one.
    fn from_str(text: &str) -> (r: Result<Self, String>)
        ensures
            match r {
                Ok(c) => cpu_cores(text@) == Ok::<Num, Seq<char>>(c.0@),
                Err(e) => cpu_cores(text@) == Err::<Num, Seq<char>>(e@),
            },
    {
        match positive_number(chars_of(text).as_slice(), "CPU limit") {
            Err(e) => Err(e),
            Ok(cores) => if cores.less_than(Binary64::from_ratio(1, 100)) {
                Err("CPU limit must be at least 0.01".to_owned())
            } else {
                Ok(CpuLimit(cores))
            },
        }
    }
}

/// A length of time as people write it.
#[derive(Clone, Copy, Debug, PartialEq)]
pub struct HumanDuration(pub Duration);

/// So many of a unit of time, in seconds.
pub open spec fn seconds_in(number: Num, unit: Seq<char>) -> Option<Num> {
    if unit == "ms"@ {
        Some(quotient(number, ratio(1_000, 1)))
    } else if unit == ""@ || unit == "s"@ {
        Some(number)
    } else if unit == "m"@ {
        Some(product(number, ratio(60, 1)))
    } else if unit == "h"@ {
        Some(product(number, ratio(3_600, 1)))
    } else if unit == "d"@ {
        Some(product(number, ratio(86_400, 1)))
    } else {
        None
    }
}

/// A length of time as it is written, in nanoseconds: a number with a unit or without.
pub open spec fn human_span(text: Seq<char>) -> Result<nat, Seq<char>> {
    let value = trimmed(text);
    match positive(quantity_number(value), "duration"@) {
        Err(e) => Err(e),
        Ok(number) => match seconds_in(number, quantity_unit(value)) {
            None => Err("unknown duration suffix "@ + quoted(quantity_unit(value))),
            Some(secs) => match span_of(secs) {
                Some(nanos) => Ok(nanos),
                None => Err("duration is too large"@),
            },
        },
    }
}

/// So many of a unit of time, in seconds.
fn unit_seconds(number: Binary64, unit: &[char]) -> (r: Option<Binary64>)
    ensures
        match r {
            Some(x) => seconds_in(number@, unit@) == Some(x@),
            None => seconds_in(number@, unit@) is None,
        },
{
    if is_text(unit, "ms") {
        Some(number.over(Binary64::from_u64(1_000)))
    } else if is_text(unit, "") || is_text(unit, "s") {
        Some(number)
    } else if is_text(unit, "m") {
        Some(number.times(Binary64::from_u64(60)))
    } else if is_text(unit, "h") {
        Some(number.times(Binary64::from_u64(3_600)))
    } else if is_text(unit, "d") {
        Some(number.times(Binary64::from_u64(86_400)))
    } else {
        None
    }
}

impl FromStr for HumanDuration {
    type Err = String;

    /// A length of time as it is written: milliseconds, seconds, minutes, hours or days.
    fn from_str(text: &str) -> (r: Result<Self, String>)
        ensures
            match r {
                Ok(d) => human_span(text@) == Ok::<nat, Seq<char>>(d.0@),
                Err(e) => human_span(text@) == Err::<nat, Seq<char>>(e@),
            },
    {
        let chars: Vec<char> = chars_of(text);
        let (digits, unit): (&[char], Vec<char>) = split_quantity(trim(chars.as_slice()));
        let number: Binary64 = match positive_number(digits, "duration") {
            Err(e) => {
                return Err(e);
            },
            Ok(x) => x,
        };
        match unit_seconds(number, unit.as_slice()) {
            None => {
                let mut message: String = String::new();
                message.append("unknown duration suffix ");
                message.append(quote(text_of(unit.as_slice()).as_str()).as_str());
                proof {
                    assert(message@ =~= "unknown duration suffix "@ + quoted(unit@));
                }
                Err(message)
            },
            Some(secs) => match Duration::from_seconds(secs) {
                Some(span) => Ok(HumanDuration(span)),
                None => Err("duration is too large".to_owned()),
            },
        }
    }
}

} // verus!
