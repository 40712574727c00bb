//! How far a command's scheduling priority is lowered.
use crate::quantities::law_decimals_read_as_themselves;
use crate::reading::law_whole_numbers_with_a_sign;
use crate::text::{
    alike, chars_of, decimal, digits_value, is_alike, is_digit, is_space, law_alike,
    law_nothing_else_is_trimmed, law_white_space_around_is_trimmed, lower, parse_i32, signed, trim,
    trimmed,
};
use vstd::prelude::*;
use vstd::string::StringExecFns;

verus! {

/// How far the niceness is raised where nothing else is set.
pub const DEFAULT_NICE_ADJUSTMENT: i32 = 10;

/// The highest niceness there is.
pub const HIGHEST_NICENESS: i32 = 19;

/// The setting, as the environment gives it.
#[derive(Clone, Copy, Debug)]
pub enum NiceSetting<'a> {
    /// The variable is not set.
    Unset,
    /// The variable is set to something that is not UTF-8.
    NotText,
    /// The variable is set to this text.
    Text(&'a str),
}

/// Whether a text turns the lowering off.
pub open spec fn turns_off(value: Seq<char>) -> bool {
    alike(value, "0"@) || alike(value, "off"@) || alike(value, "false"@) || alike(value, "no"@)
}

/// The adjustment that a text stands for, or what is wrong with it.
pub open spec fn adjustment(value: Seq<char>) -> Result<Option<i32>, Seq<char>> {
    let value = trimmed(value);
    if turns_off(value) {
        Ok(None)
    } else {
        match signed(value) {
            Err(fault) => Err(
                "WITH_LIMITS_NICE must be an integer from 1 through 19, or off: "@ + fault.words(),
            ),
            Ok(n) => if 1 <= n <= HIGHEST_NICENESS {
                Ok(Some(n as i32))
            } else {
                Err("WITH_LIMITS_NICE must be from 1 through 19, or off"@)
            },
        }
    }
}

/// The adjustment that a setting stands for, or what is wrong with it.
pub open spec fn setting_adjustment(value: NiceSetting) -> Result<Option<i32>, Seq<char>> {
    match value {
        NiceSetting::Unset => Ok(Some(DEFAULT_NICE_ADJUSTMENT)),
        NiceSetting::NotText => Err("WITH_LIMITS_NICE contains non-UTF-8 text"@),
        NiceSetting::Text(text) => adjustment(text@),
    }
}

/// Reads how far to raise the niceness; nothing where that is turned off.
pub fn parse_nice_adjustment(value: NiceSetting) -> (r: Result<Option<i32>, String>)
    ensures
        match r {
            Ok(n) => setting_adjustment(value) == Ok::<Option<i32>, Seq<char>>(n),
            Err(e) => setting_adjustment(value) == Err::<Option<i32>, Seq<char>>(e@),
        },
        r matches Ok(Some(n)) ==> 1 <= n <= HIGHEST_NICENESS,
{
    let text: &str = match value {
        NiceSetting::Unset => {
            return Ok(Some(DEFAULT_NICE_ADJUSTMENT));
        },
        NiceSetting::NotText => {
            return Err("WITH_LIMITS_NICE contains non-UTF-8 text".to_owned());
        },
        NiceSetting::Text(text) => text,
    };
    let chars: Vec<char> = chars_of(text);
    let trimmed_chars: &[char] = trim(chars.as_slice());
    if is_alike(trimmed_chars, "0") || is_alike(trimmed_chars, "off") || is_alike(
        trimmed_chars,
        "false",
    ) || is_alike(trimmed_chars, "no") {
        return Ok(None);
    }
    match parse_i32(trimmed_chars) {
        Err(fault) => {
            let mut error: String = String::new();
            error.append("WITH_LIMITS_NICE must be an integer from 1 through 19, or off: ");
            error.append(fault.message());
            proof {
                assert(error@
                    =~= "WITH_LIMITS_NICE must be an integer from 1 through 19, or off: "@
                    + fault.words());
            }
            Err(error)
        },
        Ok(n) => {
            if 1 <= n && n <= HIGHEST_NICENESS {
                return Ok(Some(n));
            }
            Err("WITH_LIMITS_NICE must be from 1 through 19, or off".to_owned())
        },
    }
}

/// The niceness to set: the current one raised, but to no more than the highest, and nothing
/// where that is no change.
pub open spec fn raised(current: int, adjustment: int) -> Option<int> {
    let sum = current + adjustment;
    let target = if sum > HIGHEST_NICENESS {
        HIGHEST_NICENESS as int
    } else {
        sum
    };
    if target <= current {
        None
    } else {
        Some(target)
    }
}

/// The niceness to set for a command, where the current one is to be raised.
pub fn lower_priority(current: i32, adjustment: i32) -> (r: Option<i32>)
    ensures
        match r {
            Some(target) => raised(current as int, adjustment as int) == Some(target as int),
            None => raised(current as int, adjustment as int) is None,
        },
{
    let sum: i64 = current as i64 + adjustment as i64;
    let target: i64 = if sum > HIGHEST_NICENESS as i64 {
        HIGHEST_NICENESS as i64
    } else {
        sum
    };
    if target <= current as i64 {
        None
    } else {
        Some(target as i32)
    }
}

/// The niceness that a command ends up with.
pub open spec fn niceness_after(current: int, adjustment: int) -> int {
    match raised(current, adjustment) {
        Some(target) => target,
        None => current,
    }
}

/// A command's priority is never raised; from a niceness up to the highest it goes by the
/// adjustment, and stops at the highest.
pub proof fn law_priority_only_goes_down(current: int, adjustment: int)
    requires
        1 <= adjustment <= HIGHEST_NICENESS,
    ensures
        niceness_after(current, adjustment) >= current,
        current <= HIGHEST_NICENESS ==> niceness_after(current, adjustment) == if current
            + adjustment > HIGHEST_NICENESS {
            HIGHEST_NICENESS as int
        } else {
            current + adjustment
        },
{
}

/// A command within a command is lowered by both adjustments together, and no further than to
/// the highest niceness.
pub proof fn law_nested_commands_add_up(current: int, outer: int, inner: int)
    requires
        current <= HIGHEST_NICENESS,
        1 <= outer <= HIGHEST_NICENESS,
        1 <= inner <= HIGHEST_NICENESS,
    ensures
        niceness_after(niceness_after(current, outer), inner) == if current + outer + inner
            > HIGHEST_NICENESS {
            HIGHEST_NICENESS as int
        } else {
            current + outer + inner
        },
{
}

/// A whole number from 1 through 19 is the adjustment, with white space around it or a plus sign
/// before it as well; a higher one is refused, and so is a negative one.
pub proof fn law_adjustments_are_read(n: nat, before: Seq<char>, behind: Seq<char>)
    requires
        n > 0,
        forall|i: int| 0 <= i < before.len() ==> is_space(#[trigger] before[i]),
        forall|i: int| 0 <= i < behind.len() ==> is_space(#[trigger] behind[i]),
    ensures
        n <= 19 ==> adjustment(before + decimal(n) + behind) == Ok::<Option<i32>, Seq<char>>(
            Some(n as i32),
        ),
        n <= 19 ==> adjustment(before + (seq!['+'] + decimal(n)) + behind) == Ok::<
            Option<i32>,
            Seq<char>,
        >(Some(n as i32)),
        n > 19 ==> adjustment(before + decimal(n) + behind) is Err,
        adjustment(before + (seq!['-'] + decimal(n)) + behind) is Err,
{
    let d = decimal(n);
    law_decimals_read_as_themselves(n);
    law_whole_numbers_with_a_sign(d);
    assert(is_digit(d[0]) && is_digit(d[d.len() - 1]));
    law_nothing_else_is_trimmed(d);
    law_white_space_around_is_trimmed(before, d, behind);
    lemma_number_is_no_word(d, n);
    let p = seq!['+'] + d;
    assert(p[0] == '+' && p.last() == d[d.len() - 1]);
    law_nothing_else_is_trimmed(p);
    law_white_space_around_is_trimmed(before, p, behind);
    lemma_signed_is_no_word(p);
    let m = seq!['-'] + d;
    assert(m[0] == '-' && m.last() == d[d.len() - 1]);
    law_nothing_else_is_trimmed(m);
    law_white_space_around_is_trimmed(before, m, behind);
    lemma_signed_is_no_word(m);
}

/// A number above zero does not turn the lowering off.
proof fn lemma_number_is_no_word(s: Seq<char>, n: nat)
    requires
        s == decimal(n),
        n > 0,
        s.len() > 0,
        is_digit(s[0]),
        digits_value(s) == n,
    ensures
        !turns_off(s),
{
    reveal_strlit("0");
    reveal_strlit("off");
    reveal_strlit("false");
    reveal_strlit("no");
    law_alike(s, "0"@);
    law_alike(s, "off"@);
    law_alike(s, "false"@);
    law_alike(s, "no"@);
    assert(lower(s[0]) == s[0]);
    assert(lower("0"@[0]) == '0');
    assert(lower("off"@[0]) == 'o');
    assert(lower("false"@[0]) == 'f');
    assert(lower("no"@[0]) == 'n');
    if alike(s, "0"@) {
        assert(lower(s[0]) == lower("0"@[0]));
        assert(s.drop_last() =~= Seq::<char>::empty());
        assert(digits_value(s.drop_last()) == 0);
    }
}

/// A text that begins with a sign does not turn the lowering off.
proof fn lemma_signed_is_no_word(s: Seq<char>)
    requires
        s.len() > 1,
        s[0] == '+' || s[0] == '-',
    ensures
        !turns_off(s),
{
    reveal_strlit("0");
    reveal_strlit("off");
    reveal_strlit("false");
    reveal_strlit("no");
    law_alike(s, "0"@);
    law_alike(s, "off"@);
    law_alike(s, "false"@);
    law_alike(s, "no"@);
    assert(lower(s[0]) == s[0]);
    assert(lower("off"@[0]) == 'o');
    assert(lower("false"@[0]) == 'f');
    assert(lower("no"@[0]) == 'n');
}

/// `0`, `off`, `false` and `no` turn the lowering off, in any case and with white space around
/// them.
pub proof fn law_the_lowering_can_be_turned_off(word: Seq<char>, before: Seq<char>, behind: Seq<char>)
    requires
        alike(word, "0"@) || alike(word, "off"@) || alike(word, "false"@) || alike(word, "no"@),
        forall|i: int| 0 <= i < before.len() ==> is_space(#[trigger] before[i]),
        forall|i: int| 0 <= i < behind.len() ==> is_space(#[trigger] behind[i]),
    ensures
        adjustment(before + word + behind) == Ok::<Option<i32>, Seq<char>>(None),
{
    reveal_strlit("0");
    reveal_strlit("off");
    reveal_strlit("false");
    reveal_strlit("no");
    law_alike(word, "0"@);
    law_alike(word, "off"@);
    law_alike(word, "false"@);
    law_alike(word, "no"@);
    let n = word.len() as int;
    assert(lower(word[0]) == word[0] || 'A' <= word[0] <= 'Z');
    if alike(word, "0"@) {
        assert(lower(word[0]) == lower("0"@[0]));
    } else if alike(word, "off"@) {
        assert(lower(word[0]) == lower("off"@[0]));
        assert(lower(word[2]) == lower("off"@[2]));
    } else if alike(word, "false"@) {
        assert(lower(word[0]) == lower("false"@[0]));
        assert(lower(word[4]) == lower("false"@[4]));
    } else {
        assert(lower(word[0]) == lower("no"@[0]));
        assert(lower(word[1]) == lower("no"@[1]));
    }
    law_nothing_else_is_trimmed(word);
    law_white_space_around_is_trimmed(before, word, behind);
}

/// Only text can be a setting; without one the niceness goes up by ten.
pub proof fn law_settings(text: &str)
    ensures
        setting_adjustment(NiceSetting::Unset) == Ok::<Option<i32>, Seq<char>>(Some(10i32)),
        setting_adjustment(NiceSetting::NotText) is Err,
        setting_adjustment(NiceSetting::Text(text)) == adjustment(text@),
{
}

/// The niceness to set lies above the current one, by the adjustment or at 19, whichever is
/// less; there is none to set just where that is no change.
pub proof fn law_the_niceness_to_set(current: int, adjustment: int)
    ensures
        raised(current, adjustment) matches Some(target) ==> {
            &&& target > current
            &&& target <= current + adjustment
            &&& target <= 19
            &&& target == current + adjustment || target == 19
        },
        raised(current, adjustment) is None <==> adjustment <= 0 || current >= 19,
{
}

} // verus!
