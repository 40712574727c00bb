//! What holds of numbers as they are written.
use crate::binary64::{opposite, ratio, Num};
use crate::number::{
    all_digits, before_exponent, has_minus, has_sign, lemma_tens_positive, plain_number, tens,
    unsigned_part, written_exponent, written_number,
};
use crate::quantities::lemma_digits_joined;
use crate::text::{
    alike, digit_value, digits, digits_value, is_digit, leading, lemma_leading,
    lemma_leading_is, lower, lowered, read_digits, signed, unsigned, IntegerFault,
};
use vstd::prelude::*;

verus! {

/// Digits read onto what was read before.
proof fn lemma_digits_read(s: Seq<char>, max: nat, before: nat)
    requires
        forall|i: int| 0 <= i < s.len() ==> is_digit(#[trigger] s[i]),
        before <= max,
    ensures
        read_digits(s, max, before) == if before * tens(s.len()) + digits_value(s) <= max {
            Ok::<nat, IntegerFault>(before * tens(s.len()) + digits_value(s))
        } else {
            Err::<nat, IntegerFault>(IntegerFault::TooLarge)
        },
    decreases s.len(),
{
    if s.len() == 0 {
        assert(before * 1 == before);
    } else {
        let rest = s.skip(1);
        let head = seq![s[0]];
        let d = digit_value(s[0]);
        assert(is_digit(s[0]));
        assert forall|i: int| 0 <= i < rest.len() implies is_digit(#[trigger] rest[i]) by {
            assert(rest[i] == s[i + 1]);
        }
        assert(head + rest =~= s);
        lemma_digits_joined(head, rest);
        assert(head.drop_last() =~= Seq::<char>::empty());
        assert(digits_value(head.drop_last()) == 0);
        assert(digits_value(head) == d);
        let t = tens(rest.len());
        lemma_tens_positive(rest.len());
        assert(tens(s.len()) == 10 * t);
        let next = 10 * before + d;
        assert(next * t + digits_value(rest) == before * (10 * t) + (d * t + digits_value(rest)))
            by (nonlinear_arith)
            requires
                next == 10 * before + d,
        ;
        if next <= max {
            lemma_digits_read(rest, max, next);
        } else {
            assert(next * t >= next) by (nonlinear_arith)
                requires
                    t >= 1,
            ;
        }
    }
}

/// What is read as digits is made of nothing else.
proof fn lemma_only_digits_read(s: Seq<char>, max: nat, before: nat, i: int)
    requires
        0 <= i < s.len(),
        !is_digit(s[i]),
    ensures
        read_digits(s, max, before) is Err,
    decreases s.len(),
{
    if i > 0 && is_digit(s[0]) && 10 * before + digit_value(s[0]) <= max {
        assert(s.skip(1)[i - 1] == s[i]);
        lemma_only_digits_read(s.skip(1), max, 10 * before + digit_value(s[0]), i - 1);
    }
}

/// Digits are read as the whole number that they stand for, with a plus sign or without; one
/// above the range is too large.
pub proof fn law_whole_numbers_from_zero(s: Seq<char>, max: nat)
    requires
        s.len() > 0,
        forall|i: int| 0 <= i < s.len() ==> is_digit(#[trigger] s[i]),
    ensures
        ({
            let expected = if digits_value(s) <= max {
                Ok::<nat, IntegerFault>(digits_value(s))
            } else {
                Err::<nat, IntegerFault>(IntegerFault::TooLarge)
            };
            &&& unsigned(s, max) == expected
            &&& unsigned(seq!['+'] + s, max) == expected
        }),
{
    lemma_digits_read(s, max, 0);
    assert(0 * tens(s.len()) == 0);
    assert(is_digit(s[0]));
    let p = seq!['+'] + s;
    assert(p.skip(1) =~= s);
}

/// Digits are read as the whole number that they stand for, negative behind a minus sign, as
/// far as an `i32` holds it.
pub proof fn law_whole_numbers_with_a_sign(s: Seq<char>)
    requires
        s.len() > 0,
        forall|i: int| 0 <= i < s.len() ==> is_digit(#[trigger] s[i]),
    ensures
        ({
            let n = digits_value(s) as int;
            let positive = if n <= i32::MAX {
                Ok::<int, IntegerFault>(n)
            } else {
                Err::<int, IntegerFault>(IntegerFault::TooLarge)
            };
            &&& signed(s) == positive
            &&& signed(seq!['+'] + s) == positive
            &&& signed(seq!['-'] + s) == if -n >= i32::MIN {
                Ok::<int, IntegerFault>(-n)
            } else {
                Err::<int, IntegerFault>(IntegerFault::TooSmall)
            }
        }),
{
    law_whole_numbers_from_zero(s, 0x7fff_ffff);
    assert(is_digit(s[0]));
    lemma_digits_read(s, 0x8000_0000, 0);
    assert(0 * tens(s.len()) == 0);
    let m = seq!['-'] + s;
    assert(m.skip(1) =~= s);
}

/// No text is no whole number, nor is a lone sign, nor one with anything but digits behind the
/// sign.
pub proof fn law_whole_numbers_are_digits(s: Seq<char>, max: nat, i: int)
    ensures
        unsigned(Seq::empty(), max) == Err::<nat, IntegerFault>(IntegerFault::Empty),
        signed(Seq::empty()) == Err::<int, IntegerFault>(IntegerFault::Empty),
        unsigned(seq!['+'], max) is Err,
        unsigned(seq!['-'], max) is Err,
        signed(seq!['+']) is Err,
        signed(seq!['-']) is Err,
        0 <= i < s.len() && !is_digit(s[i]) && !(i == 0 && s[0] == '+') ==> unsigned(
            s,
            max,
        ) is Err,
        0 <= i < s.len() && !is_digit(s[i]) && !(i == 0 && (s[0] == '+' || s[0] == '-')) ==> signed(
            s,
        ) is Err,
{
    if 0 <= i < s.len() && !is_digit(s[i]) && !(i == 0 && s[0] == '+') {
        lemma_only_digits_read(s, max, 0, i);
        if i > 0 {
            assert(s.skip(1)[i - 1] == s[i]);
            lemma_only_digits_read(s.skip(1), max, 0, i - 1);
        }
    }
    if 0 <= i < s.len() && !is_digit(s[i]) && !(i == 0 && (s[0] == '+' || s[0] == '-')) {
        lemma_only_digits_read(s, 0x7fff_ffff, 0, i);
        if i > 0 {
            assert(s.skip(1)[i - 1] == s[i]);
            lemma_only_digits_read(s.skip(1), 0x7fff_ffff, 0, i - 1);
            lemma_only_digits_read(s.skip(1), 0x8000_0000, 0, i - 1);
        }
    }
}

/// Digits are all digits.
proof fn lemma_all_digits(s: Seq<char>)
    requires
        forall|i: int| 0 <= i < s.len() ==> is_digit(#[trigger] s[i]),
    ensures
        all_digits(s),
{
    assert forall|i: int| 0 <= i < s.len() implies digits()(#[trigger] s[i]) by {
        assert(is_digit(s[i]));
    }
    lemma_leading_is(s, digits(), s.len());
}

/// An exponent is the whole number that its digits stand for, negative behind a minus sign.
pub proof fn law_exponents_are_read(s: Seq<char>)
    requires
        s.len() > 0,
        forall|i: int| 0 <= i < s.len() ==> is_digit(#[trigger] s[i]),
    ensures
        written_exponent(s) == Some(digits_value(s) as int),
        written_exponent(seq!['+'] + s) == Some(digits_value(s) as int),
        written_exponent(seq!['-'] + s) == Some(-(digits_value(s) as int)),
{
    lemma_all_digits(s);
    assert(is_digit(s[0]));
    assert((seq!['+'] + s).skip(1) =~= s);
    assert((seq!['-'] + s).skip(1) =~= s);
}

/// The number that digits with a point and an exponent stand for.
pub open spec fn nearest(value: nat, exponent: int) -> Num {
    if exponent >= 0 {
        ratio(value * tens(exponent as nat), 1)
    } else {
        ratio(value, tens((-exponent) as nat))
    }
}

/// A text that begins with a digit or a point is no number in words.
proof fn lemma_not_in_words(s: Seq<char>)
    requires
        s.len() > 0,
        is_digit(s[0]) || s[0] == '.',
    ensures
        !alike(s, "inf"@),
        !alike(s, "infinity"@),
        !alike(s, "nan"@),
{
    reveal_strlit("inf");
    reveal_strlit("infinity");
    reveal_strlit("nan");
    assert(lowered(s)[0] == s[0]);
    assert(lowered("inf"@)[0] == 'i');
    assert(lowered("infinity"@)[0] == 'i');
    assert(lowered("nan"@)[0] == 'n');
}

/// Digits, with a point among them or without, and with an exponent behind them or without, are
/// read as the number nearest to what they stand for: all the digits together, times ten to the
/// power of the exponent less one for each digit behind the point.
pub proof fn law_numbers_are_read(
    whole: Seq<char>,
    pointed: bool,
    fraction: Seq<char>,
    tail: Seq<char>,
    exponent: int,
)
    requires
        forall|i: int| 0 <= i < whole.len() ==> is_digit(#[trigger] whole[i]),
        forall|i: int| 0 <= i < fraction.len() ==> is_digit(#[trigger] fraction[i]),
        whole.len() + fraction.len() > 0,
        !pointed ==> fraction.len() == 0,
        tail.len() == 0 ==> exponent == 0,
        tail.len() > 0 ==> (tail[0] == 'e' || tail[0] == 'E') && written_exponent(tail.skip(1))
            == Some(exponent),
    ensures
        ({
            let point = if pointed {
                seq!['.']
            } else {
                Seq::empty()
            };
            written_number(whole + point + fraction + tail) == Some(
                nearest(
                    digits_value(whole) * tens(fraction.len()) + digits_value(fraction),
                    exponent - fraction.len(),
                ),
            )
        }),
{
    let point = if pointed {
        seq!['.']
    } else {
        Seq::empty()
    };
    let m = whole + point + fraction;
    let s = m + tail;
    let p = whole.len() as int;
    if p > 0 {
        assert(s[0] == whole[0]);
    } else {
        assert(s[0] == '.');
    }
    assert(unsigned_part(s) == s);
    lemma_not_in_words(s);
    assert forall|i: int| 0 <= i < m.len() implies before_exponent()(#[trigger] s[i]) && (is_digit(
        s[i],
    ) || (pointed && i == p && s[i] == '.')) by {
        if i < p {
            assert(s[i] == whole[i]);
        } else if pointed && i == p {
            assert(s[i] == '.');
        } else {
            assert(s[i] == fraction[i - p - point.len()]);
        }
    }
    if tail.len() > 0 {
        assert(s[m.len() as int] == tail[0]);
    }
    lemma_leading_is(s, before_exponent(), m.len());
    assert(s.take(m.len() as int) =~= m);
    assert forall|i: int| 0 <= i < p implies digits()(#[trigger] m[i]) by {
        assert(m[i] == whole[i]);
    }
    if pointed {
        assert(m[p] == '.');
        assert(m.skip(p + 1) =~= fraction);
    } else {
        assert(m =~= whole);
        assert(fraction =~= Seq::<char>::empty());
    }
    lemma_leading_is(m, digits(), p as nat);
    assert(m.take(p) =~= whole);
    lemma_all_digits(fraction);
    lemma_digits_joined(whole, fraction);
    if tail.len() > 0 {
        assert(s.skip((m.len() + 1) as int) =~= tail.skip(1));
    }
    let v = digits_value(whole + fraction);
    assert(v * tens(0) == v) by (nonlinear_arith)
        requires
            tens(0) == 1,
    ;
}

/// A plus sign before a number changes nothing, and a minus sign puts it on the other side of
/// zero.
pub proof fn law_signs_are_read(s: Seq<char>)
    requires
        !has_sign(s),
    ensures
        written_number(seq!['+'] + s) == written_number(s),
        written_number(seq!['-'] + s) == match written_number(s) {
            Some(x) => Some(opposite(x)),
            None => None,
        },
{
    assert((seq!['+'] + s).skip(1) =~= s);
    assert((seq!['-'] + s).skip(1) =~= s);
}

/// `inf`, `infinity` and `nan`, in any case, are the numbers that they name.
pub proof fn law_numbers_in_words(s: Seq<char>)
    ensures
        alike(s, "inf"@) || alike(s, "infinity"@) ==> written_number(s) == Some(
            Num::Infinite { negative: false },
        ),
        alike(s, "nan"@) ==> written_number(s) == Some(Num::NotANumber),
{
    reveal_strlit("inf");
    reveal_strlit("infinity");
    reveal_strlit("nan");
    assert(lowered("inf"@)[0] == 'i' && lowered("inf"@).len() == 3);
    assert(lowered("infinity"@)[0] == 'i' && lowered("infinity"@).len() == 8);
    assert(lowered("nan"@)[0] == 'n' && lowered("nan"@).len() == 3);
    if s.len() > 0 {
        assert(lowered(s)[0] == lower(s[0]));
    }
    assert(lowered(s).len() == s.len());
}

/// A text with a character that no number is written with is none, unless it names one.
pub proof fn law_other_text_is_no_number(s: Seq<char>, i: int)
    requires
        0 <= i < s.len(),
        !is_digit(s[i]),
        s[i] != '.' && s[i] != 'e' && s[i] != 'E' && s[i] != '+' && s[i] != '-',
        !alike(unsigned_part(s), "inf"@),
        !alike(unsigned_part(s), "infinity"@),
        !alike(unsigned_part(s), "nan"@),
    ensures
        written_number(s) is None,
{
    let body = unsigned_part(s);
    let k = if has_sign(s) {
        i - 1
    } else {
        i
    };
    assert(body[k] == s[i]);
    lemma_foreign_character(body, has_minus(s), k);
}

/// A number without a sign has no foreign character in it.
proof fn lemma_foreign_character(s: Seq<char>, negative: bool, i: int)
    requires
        0 <= i < s.len(),
        !is_digit(s[i]),
        s[i] != '.' && s[i] != 'e' && s[i] != 'E' && s[i] != '+' && s[i] != '-',
    ensures
        plain_number(s, negative) is None,
{
    lemma_leading(s, before_exponent());
    let n = leading(s, before_exponent());
    let m = s.take(n as int);
    lemma_leading(m, digits());
    let p = leading(m, digits());
    if i < n {
        assert(m[i] == s[i]);
        if i < p {
            assert(digits()(m[i]));
        } else if i > p {
            let fraction = m.skip((p + 1) as int);
            assert(fraction[i - p - 1] == s[i]);
            lemma_leading(fraction, digits());
            if all_digits(fraction) {
                assert(digits()(fraction[i - p - 1]));
            }
        }
    } else {
        assert(i != n);
        let tail = s.skip((n + 1) as int);
        assert(tail[i - n - 1] == s[i]);
        let t = unsigned_part(tail);
        let k = if has_sign(tail) {
            i - n - 2
        } else {
            i - n - 1
        };
        assert(t[k] == s[i]);
        lemma_leading(t, digits());
        if all_digits(t) {
            assert(digits()(t[k]));
        }
    }
}

/// No digit is no number: neither nothing at all nor a lone point.
pub proof fn law_numbers_have_digits(s: Seq<char>)
    requires
        s.len() == 0 || s == seq!['.'],
    ensures
        written_number(s) is None,
{
    reveal_strlit("inf");
    reveal_strlit("infinity");
    reveal_strlit("nan");
    assert(lowered(s).len() == s.len());
    assert(lowered("inf"@).len() == 3 && lowered("infinity"@).len() == 8 && lowered("nan"@).len()
        == 3);
    assert(unsigned_part(s) == s);
    lemma_leading(s, before_exponent());
    let n = leading(s, before_exponent());
    let m = s.take(n as int);
    if s.len() > 0 {
        lemma_leading_is(s, before_exponent(), 1);
        assert(m =~= s);
        lemma_leading_is(m, digits(), 0);
        assert(m.skip(1) =~= Seq::<char>::empty());
        assert(m.take(0) =~= Seq::<char>::empty());
    } else {
        assert(m =~= s);
        assert(leading(m, digits()) == 0);
    }
}

} // verus!
