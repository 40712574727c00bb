//! Text as sequences of characters: trimming, words, lines, whole numbers.
use vstd::prelude::*;
use vstd::slice::slice_subrange;

verus! {

/// `String::push` puts one character at the end of the text.
pub assume_specification[ String::push ](text: &mut String, c: char)
    ensures
        final(text)@ == old(text)@.push(c),
;

/// White space as Unicode defines it.
pub open spec fn is_space(c: char) -> bool {
    ||| '\u{9}' <= c <= '\u{d}'
    ||| c == '\u{20}'
    ||| c == '\u{85}'
    ||| c == '\u{a0}'
    ||| c == '\u{1680}'
    ||| '\u{2000}' <= c <= '\u{200a}'
    ||| c == '\u{2028}'
    ||| c == '\u{2029}'
    ||| c == '\u{202f}'
    ||| c == '\u{205f}'
    ||| c == '\u{3000}'
}

/// A decimal digit.
pub open spec fn is_digit(c: char) -> bool {
    '0' <= c <= '9'
}

/// A letter of the English alphabet in lower case, anything else as it is.
pub open spec fn lower(c: char) -> char {
    if 'A' <= c <= 'Z' {
        (c as u32 + 32) as char
    } else {
        c
    }
}

/// Each letter of the English alphabet in lower case.
pub open spec fn lowered(s: Seq<char>) -> Seq<char> {
    s.map_values(|c: char| lower(c))
}

/// Whether two texts differ at most in the case of English letters.
pub open spec fn alike(a: Seq<char>, b: Seq<char>) -> bool {
    lowered(a) == lowered(b)
}

/// How many characters at the start satisfy `p`.
pub open spec fn leading(s: Seq<char>, p: spec_fn(char) -> bool) -> nat
    decreases s.len(),
{
    if s.len() == 0 || !p(s[0]) {
        0
    } else {
        1 + leading(s.skip(1), p)
    }
}

/// How many characters at the end satisfy `p`.
pub open spec fn trailing(s: Seq<char>, p: spec_fn(char) -> bool) -> nat
    decreases s.len(),
{
    if s.len() == 0 || !p(s.last()) {
        0
    } else {
        1 + trailing(s.drop_last(), p)
    }
}

/// The test for white space.
pub open spec fn spaces() -> spec_fn(char) -> bool {
    |c: char| is_space(c)
}

/// The test for anything but white space.
pub open spec fn solids() -> spec_fn(char) -> bool {
    |c: char| !is_space(c)
}

/// The test for decimal digits.
pub open spec fn digits() -> spec_fn(char) -> bool {
    |c: char| is_digit(c)
}

/// The test for what a plain decimal number is written with.
pub open spec fn digits_and_points() -> spec_fn(char) -> bool {
    |c: char| is_digit(c) || c == '.'
}

/// The test for anything but the end of a line.
pub open spec fn unbroken() -> spec_fn(char) -> bool {
    |c: char| c != '\n'
}

/// The text without the white space at its start.
pub open spec fn trimmed_start(s: Seq<char>) -> Seq<char> {
    s.skip(leading(s, spaces()) as int)
}

/// The text without the white space at its two ends.
pub open spec fn trimmed(s: Seq<char>) -> Seq<char> {
    let t = trimmed_start(s);
    t.take(t.len() - trailing(t, spaces()))
}

/// The words of a text: what stands between white space.
pub open spec fn words(s: Seq<char>) -> Seq<Seq<char>>
    decreases s.len(),
{
    let t = trimmed_start(s);
    if t.len() == 0 {
        seq![]
    } else {
        let n = leading(t, solids());
        proof {
            lemma_leading(s, spaces());
            lemma_leading(t, solids());
        }
        seq![t.take(n as int)] + words(t.skip(n as int))
    }
}

/// The first line of a text, without its line ending.
pub open spec fn first_line(s: Seq<char>) -> Seq<char> {
    let n = leading(s, unbroken());
    if 0 < n < s.len() && s[n - 1] == '\r' {
        s.take(n - 1)
    } else {
        s.take(n as int)
    }
}

/// What follows the first line.
pub open spec fn after_first_line(s: Seq<char>) -> Seq<char> {
    let n = leading(s, unbroken());
    if n < s.len() {
        s.skip((n + 1) as int)
    } else {
        seq![]
    }
}

/// What follows `prefix` on the first line that starts with it.
pub open spec fn labelled(s: Seq<char>, prefix: Seq<char>) -> Option<Seq<char>>
    decreases s.len(),
{
    if s.len() == 0 {
        None
    } else if prefix.is_prefix_of(first_line(s)) {
        Some(first_line(s).skip(prefix.len() as int))
    } else {
        labelled(after_first_line(s), prefix)
    }
}

/// The digit for a value below ten.
pub open spec fn digit_char(d: nat) -> char {
    ('0' as u32 + d) as char
}

/// The value of a digit.
pub open spec fn digit_value(c: char) -> nat {
    (c as u32 - '0' as u32) as nat
}

/// A whole number written in decimal.
pub open spec fn decimal(n: nat) -> Seq<char>
    decreases n,
{
    if n < 10 {
        seq![digit_char(n)]
    } else {
        decimal(n / 10).push(digit_char(n % 10))
    }
}

/// What a run of digits stands for.
pub open spec fn digits_value(s: Seq<char>) -> nat
    decreases s.len(),
{
    if s.len() == 0 {
        0
    } else {
        10 * digits_value(s.drop_last()) + digit_value(s.last())
    }
}

/// Why a text is not a whole number of the wanted range.
#[derive(Clone, Copy, Debug, PartialEq, Eq, Structural)]
pub enum IntegerFault {
    /// There is no text.
    Empty,
    /// A character is not a digit.
    InvalidDigit,
    /// The number lies above the range.
    TooLarge,
    /// The number lies below the range.
    TooSmall,
}

/// Digits read onto what was read before, as long as the number stays at or below `max`.
pub open spec fn read_digits(s: Seq<char>, max: nat, before: nat) -> Result<nat, IntegerFault>
    decreases s.len(),
{
    if s.len() == 0 {
        Ok(before)
    } else if !is_digit(s[0]) {
        Err(IntegerFault::InvalidDigit)
    } else if 10 * before + digit_value(s[0]) > max {
        Err(IntegerFault::TooLarge)
    } else {
        read_digits(s.skip(1), max, 10 * before + digit_value(s[0]))
    }
}

/// A lone sign.
pub open spec fn lone_sign(s: Seq<char>) -> bool {
    s.len() == 1 && (s[0] == '+' || s[0] == '-')
}

/// A whole number from zero to `max`, with or without a plus sign.
pub open spec fn unsigned(s: Seq<char>, max: nat) -> Result<nat, IntegerFault> {
    if s.len() == 0 {
        Err(IntegerFault::Empty)
    } else if lone_sign(s) {
        Err(IntegerFault::InvalidDigit)
    } else if s[0] == '+' {
        read_digits(s.skip(1), max, 0)
    } else {
        read_digits(s, max, 0)
    }
}

/// A whole number that an `i32` holds, with or without a sign.
pub open spec fn signed(s: Seq<char>) -> Result<int, IntegerFault> {
    if s.len() > 1 && s[0] == '-' {
        match read_digits(s.skip(1), 0x8000_0000, 0) {
            Ok(n) => Ok(-(n as int)),
            Err(IntegerFault::TooLarge) => Err(IntegerFault::TooSmall),
            Err(fault) => Err(fault),
        }
    } else {
        match unsigned(s, 0x7fff_ffff) {
            Ok(n) => Ok(n as int),
            Err(fault) => Err(fault),
        }
    }
}

impl IntegerFault {
    /// The fault in words.
    pub open spec fn words(self) -> Seq<char> {
        match self {
            IntegerFault::Empty => "cannot parse integer from empty string"@,
            IntegerFault::InvalidDigit => "invalid digit found in string"@,
            IntegerFault::TooLarge => "number too large to fit in target type"@,
            IntegerFault::TooSmall => "number too small to fit in target type"@,
        }
    }

    /// The fault in words.
    pub fn message(self) -> (text: &'static str)
        ensures
            text@ == self.words(),
    {
        match self {
            IntegerFault::Empty => "cannot parse integer from empty string",
            IntegerFault::InvalidDigit => "invalid digit found in string",
            IntegerFault::TooLarge => "number too large to fit in target type",
            IntegerFault::TooSmall => "number too small to fit in target type",
        }
    }
}

/// What `leading` counts.
pub proof fn lemma_leading(s: Seq<char>, p: spec_fn(char) -> bool)
    ensures
        leading(s, p) <= s.len(),
        forall|i: int| 0 <= i < leading(s, p) ==> p(#[trigger] s[i]),
        leading(s, p) < s.len() ==> !p(s[leading(s, p) as int]),
    decreases s.len(),
{
    if s.len() > 0 && p(s[0]) {
        let t = s.skip(1);
        lemma_leading(t, p);
        assert forall|i: int| 0 <= i < leading(s, p) implies p(#[trigger] s[i]) by {
            if i > 0 {
                assert(s[i] == t[i - 1]);
            }
        }
    }
}

/// The count is the only one of its kind.
pub proof fn lemma_leading_is(s: Seq<char>, p: spec_fn(char) -> bool, n: nat)
    requires
        n <= s.len(),
        forall|i: int| 0 <= i < n ==> p(#[trigger] s[i]),
        n < s.len() ==> !p(s[n as int]),
    ensures
        leading(s, p) == n,
{
    lemma_leading(s, p);
    let m = leading(s, p);
    if m < n {
        assert(p(s[m as int]));
    } else if n < m {
        assert(p(s[n as int]));
    }
}

/// The count at the end is the only one of its kind.
pub proof fn lemma_trailing_is(s: Seq<char>, p: spec_fn(char) -> bool, n: nat)
    requires
        n <= s.len(),
        forall|i: int| s.len() - n <= i < s.len() ==> p(#[trigger] s[i]),
        n < s.len() ==> !p(s[s.len() - n - 1]),
    ensures
        trailing(s, p) == n,
    decreases s.len(),
{
    if n > 0 {
        let t = s.drop_last();
        assert(p(s[s.len() - 1]));
        assert forall|i: int| t.len() - (n - 1) <= i < t.len() implies p(#[trigger] t[i]) by {
            assert(t[i] == s[i]);
        }
        lemma_trailing_is(t, p, (n - 1) as nat);
    }
}

/// White space as Unicode defines it.
pub fn space(c: char) -> (r: bool)
    ensures
        r == is_space(c),
{
    ('\u{9}' <= c && c <= '\u{d}') || c == '\u{20}' || c == '\u{85}' || c == '\u{a0}' || c
        == '\u{1680}' || ('\u{2000}' <= c && c <= '\u{200a}') || c == '\u{2028}' || c == '\u{2029}'
        || c == '\u{202f}' || c == '\u{205f}' || c == '\u{3000}'
}

/// A decimal digit.
pub fn digit(c: char) -> (r: bool)
    ensures
        r == is_digit(c),
{
    '0' <= c && c <= '9'
}

/// A letter of the English alphabet in lower case, anything else as it is.
pub fn to_lower(c: char) -> (r: char)
    ensures
        r == lower(c),
{
    if 'A' <= c && c <= 'Z' {
        ((c as u8) + 32) as char
    } else {
        c
    }
}

/// The characters of a text.
pub fn chars_of(text: &str) -> (r: Vec<char>)
    ensures
        r@ == text@,
{
    let mut r: Vec<char> = Vec::new();
    for c in it: text.chars()
        invariant
            it.seq() == text@,
            r@ == it.seq().take(it.index() as int),
    {
        r.push(c);
    }
    assert(r@ =~= text@);
    r
}

/// The text with these characters.
pub fn text_of(chars: &[char]) -> (r: String)
    ensures
        r@ == chars@,
{
    let mut r: String = String::new();
    let mut i: usize = 0;
    while i < chars.len()
        invariant
            i <= chars@.len(),
            r@ =~= chars@.take(i as int),
        decreases chars@.len() - i,
    {
        r.push(chars[i]);
        i = i + 1;
    }
    assert(r@ =~= chars@);
    r
}

/// Whether the characters are those of `text`.
pub fn is_text(chars: &[char], text: &str) -> (r: bool)
    ensures
        r == (chars@ == text@),
{
    let other: Vec<char> = chars_of(text);
    if chars.len() != other.len() {
        return false;
    }
    let mut i: usize = 0;
    while i < chars.len()
        invariant
            i <= chars@.len(),
            other@ == text@,
            chars@.len() == other@.len(),
            forall|j: int| 0 <= j < i ==> chars@[j] == other@[j],
        decreases chars@.len() - i,
    {
        if chars[i] != other[i] {
            return false;
        }
        i = i + 1;
    }
    assert(chars@ =~= text@);
    true
}

/// Each letter of the English alphabet in lower case.
pub fn to_lowered(chars: &[char]) -> (r: Vec<char>)
    ensures
        r@ == lowered(chars@),
{
    let mut r: Vec<char> = Vec::new();
    let mut i: usize = 0;
    while i < chars.len()
        invariant
            i <= chars@.len(),
            r@ =~= lowered(chars@).take(i as int),
        decreases chars@.len() - i,
    {
        r.push(to_lower(chars[i]));
        i = i + 1;
    }
    assert(r@ =~= lowered(chars@));
    r
}

/// Whether the characters are those of `text`, up to the case of English letters.
pub fn is_alike(chars: &[char], text: &str) -> (r: bool)
    ensures
        r == alike(chars@, text@),
{
    let a: Vec<char> = to_lowered(chars);
    let b: Vec<char> = to_lowered(chars_of(text).as_slice());
    if a.len() != b.len() {
        return false;
    }
    let mut i: usize = 0;
    while i < a.len()
        invariant
            i <= a@.len(),
            a@.len() == b@.len(),
            a@ == lowered(chars@),
            b@ == lowered(text@),
            forall|j: int| 0 <= j < i ==> a@[j] == b@[j],
        decreases a@.len() - i,
    {
        if a[i] != b[i] {
            return false;
        }
        i = i + 1;
    }
    assert(a@ =~= b@);
    true
}

/// The characters without the white space at their start.
pub fn trim_start(chars: &[char]) -> (r: &[char])
    ensures
        r@ == trimmed_start(chars@),
{
    let mut i: usize = 0;
    while i < chars.len() && space(chars[i])
        invariant
            i <= chars@.len(),
            forall|j: int| 0 <= j < i ==> is_space(#[trigger] chars@[j]),
        decreases chars@.len() - i,
    {
        i = i + 1;
    }
    proof {
        lemma_leading_is(chars@, spaces(), i as nat);
        assert(chars@.subrange(i as int, chars@.len() as int) =~= chars@.skip(i as int));
    }
    slice_subrange(chars, i, chars.len())
}

/// The characters without the white space at their two ends.
pub fn trim(chars: &[char]) -> (r: &[char])
    ensures
        r@ == trimmed(chars@),
{
    let t: &[char] = trim_start(chars);
    let mut n: usize = t.len();
    while n > 0 && space(t[n - 1])
        invariant
            n <= t@.len(),
            forall|j: int| n <= j < t@.len() ==> is_space(#[trigger] t@[j]),
        decreases n,
    {
        n = n - 1;
    }
    proof {
        lemma_trailing_is(t@, spaces(), (t@.len() - n) as nat);
        assert(t@.subrange(0, n as int) =~= t@.take(n as int));
    }
    slice_subrange(t, 0, n)
}

/// How many characters at the start a plain decimal number is written with.
pub fn number_length(chars: &[char]) -> (n: usize)
    ensures
        n == leading(chars@, digits_and_points()),
        n <= chars@.len(),
{
    let mut i: usize = 0;
    while i < chars.len() && (digit(chars[i]) || chars[i] == '.')
        invariant
            i <= chars@.len(),
            forall|j: int| 0 <= j < i ==> digits_and_points()(#[trigger] chars@[j]),
        decreases chars@.len() - i,
    {
        i = i + 1;
    }
    proof {
        lemma_leading_is(chars@, digits_and_points(), i as nat);
    }
    i
}

/// The words of a text.
pub fn split_words(chars: &[char]) -> (r: Vec<Vec<char>>)
    ensures
        r@.map_values(|w: Vec<char>| w@) == words(chars@),
{
    let ghost view = |w: Vec<char>| w@;
    let mut r: Vec<Vec<char>> = Vec::new();
    let mut rest: &[char] = trim_start(chars);
    proof {
        lemma_trim_again(chars@);
        assert(r@.map_values(view) =~= seq![]);
        assert(seq![] + words(rest@) =~= words(chars@));
    }
    while rest.len() > 0
        invariant
            view == (|w: Vec<char>| w@),
            rest@ == trimmed_start(rest@),
            r@.map_values(view) + words(rest@) == words(chars@),
        decreases rest@.len(),
    {
        let mut n: usize = 0;
        while n < rest.len() && !space(rest[n])
            invariant
                n <= rest@.len(),
                forall|j: int| 0 <= j < n ==> !is_space(#[trigger] rest@[j]),
            decreases rest@.len() - n,
        {
            n = n + 1;
        }
        let ghost before = rest@;
        let word: &[char] = slice_subrange(rest, 0, n);
        let mut owned: Vec<char> = Vec::new();
        let mut i: usize = 0;
        while i < word.len()
            invariant
                i <= word@.len(),
                owned@ =~= word@.take(i as int),
            decreases word@.len() - i,
        {
            owned.push(word[i]);
            i = i + 1;
        }
        let after: &[char] = slice_subrange(rest, n, rest.len());
        let next: &[char] = trim_start(after);
        proof {
            lemma_leading_is(before, solids(), n as nat);
            lemma_leading(before, spaces());
            assert(before.subrange(0, n as int) =~= before.take(n as int));
            assert(before.subrange(n as int, before.len() as int) =~= before.skip(n as int));
            assert(owned@ =~= before.take(n as int));
            assert(n > 0) by {
                if n == 0 {
                    assert(before.skip(leading(before, spaces()) as int).len() == before.len());
                }
            }
            lemma_trim_again(after@);
            lemma_leading(after@, spaces());
            assert(r@.push(owned).map_values(view) =~= r@.map_values(view).push(owned@));
            assert(words(before) == seq![owned@] + words(after@));
            assert(r@.map_values(view) + (seq![owned@] + words(after@)) =~= r@.map_values(
                view,
            ).push(owned@) + words(after@));
        }
        r.push(owned);
        rest = next;
    }
    proof {
        assert(words(rest@) =~= seq![]);
        assert(r@.map_values(view) + words(rest@) =~= r@.map_values(view));
    }
    r
}

/// Trimming twice changes nothing more, and keeps the words.
proof fn lemma_trim_again(s: Seq<char>)
    ensures
        trimmed_start(trimmed_start(s)) == trimmed_start(s),
        words(trimmed_start(s)) == words(s),
{
    let t = trimmed_start(s);
    lemma_leading(s, spaces());
    assert(leading(t, spaces()) == 0) by {
        if t.len() > 0 {
            assert(t[0] == s[leading(s, spaces()) as int]);
        }
    }
    assert(t.skip(0) =~= t);
}

/// What follows `prefix` on the first line that starts with it.
pub fn find_labelled<'a>(chars: &'a [char], prefix: &str) -> (r: Option<&'a [char]>)
    ensures
        match r {
            Some(rest) => labelled(chars@, prefix@) == Some(rest@),
            None => labelled(chars@, prefix@) is None,
        },
{
    let wanted: Vec<char> = chars_of(prefix);
    let mut rest: &'a [char] = chars;
    while rest.len() > 0
        invariant
            wanted@ == prefix@,
            labelled(rest@, prefix@) == labelled(chars@, prefix@),
        decreases rest@.len(),
    {
        let mut n: usize = 0;
        while n < rest.len() && rest[n] != '\n'
            invariant
                n <= rest@.len(),
                forall|j: int| 0 <= j < n ==> unbroken()(#[trigger] rest@[j]),
            decreases rest@.len() - n,
        {
            n = n + 1;
        }
        proof {
            lemma_leading_is(rest@, unbroken(), n as nat);
        }
        let end: usize = if 0 < n && n < rest.len() && rest[n - 1] == '\r' {
            n - 1
        } else {
            n
        };
        let line: &'a [char] = slice_subrange(rest, 0, end);
        proof {
            assert(line@ =~= first_line(rest@));
        }
        if starts_with(line, wanted.as_slice()) {
            let found: &'a [char] = slice_subrange(line, wanted.len(), line.len());
            proof {
                assert(found@ =~= first_line(rest@).skip(prefix@.len() as int));
            }
            return Some(found);
        }
        let next: usize = if n < rest.len() {
            n + 1
        } else {
            n
        };
        let ghost before = rest@;
        rest = slice_subrange(rest, next, rest.len());
        proof {
            assert(rest@ =~= after_first_line(before));
        }
    }
    None
}

/// Whether the characters start with `prefix`.
pub fn starts_with(chars: &[char], prefix: &[char]) -> (r: bool)
    ensures
        r == prefix@.is_prefix_of(chars@),
{
    if chars.len() < prefix.len() {
        return false;
    }
    let mut i: usize = 0;
    while i < prefix.len()
        invariant
            i <= prefix@.len() <= chars@.len(),
            forall|j: int| 0 <= j < i ==> chars@[j] == prefix@[j],
        decreases prefix@.len() - i,
    {
        if chars[i] != prefix[i] {
            assert(chars@.subrange(0, prefix@.len() as int)[i as int] == chars@[i as int]);
            return false;
        }
        i = i + 1;
    }
    assert(prefix@ =~= chars@.subrange(0, prefix@.len() as int));
    true
}

/// The value of a digit.
pub fn value_of_digit(c: char) -> (d: u64)
    requires
        is_digit(c),
    ensures
        d == digit_value(c),
        d < 10,
{
    (c as u64) - 48
}

/// Digits read as a number, as long as it stays at or below `max`.
fn parse_digits(chars: &[char], max: u64) -> (r: Result<u64, IntegerFault>)
    ensures
        match r {
            Ok(n) => read_digits(chars@, max as nat, 0) == Ok::<nat, IntegerFault>(n as nat),
            Err(fault) => read_digits(chars@, max as nat, 0) == Err::<nat, IntegerFault>(fault),
        },
        r matches Ok(n) ==> n <= max,
{
    let mut n: u64 = 0;
    let mut i: usize = 0;
    proof {
        assert(chars@.skip(0) =~= chars@);
    }
    while i < chars.len()
        invariant
            i <= chars@.len(),
            n <= max,
            read_digits(chars@.skip(i as int), max as nat, n as nat) == read_digits(
                chars@,
                max as nat,
                0,
            ),
        decreases chars@.len() - i,
    {
        let ghost rest = chars@.skip(i as int);
        proof {
            assert(rest[0] == chars@[i as int]);
            assert(rest.skip(1) =~= chars@.skip(i + 1));
        }
        if !digit(chars[i]) {
            return Err(IntegerFault::InvalidDigit);
        }
        let d: u64 = value_of_digit(chars[i]);
        if d > max || n > max / 10 || 10 * n > max - d {
            return Err(IntegerFault::TooLarge);
        }
        n = 10 * n + d;
        i = i + 1;
    }
    Ok(n)
}

/// A whole number that a `u64` holds.
pub fn parse_u64(chars: &[char]) -> (r: Result<u64, IntegerFault>)
    ensures
        match r {
            Ok(n) => unsigned(chars@, u64::MAX as nat) == Ok::<nat, IntegerFault>(n as nat),
            Err(fault) => unsigned(chars@, u64::MAX as nat) == Err::<nat, IntegerFault>(fault),
        },
{
    parse_unsigned(chars, u64::MAX)
}

/// A whole number from zero to `max`.
fn parse_unsigned(chars: &[char], max: u64) -> (r: Result<u64, IntegerFault>)
    ensures
        match r {
            Ok(n) => unsigned(chars@, max as nat) == Ok::<nat, IntegerFault>(n as nat),
            Err(fault) => unsigned(chars@, max as nat) == Err::<nat, IntegerFault>(fault),
        },
        r matches Ok(n) ==> n <= max,
{
    if chars.len() == 0 {
        return Err(IntegerFault::Empty);
    }
    if chars.len() == 1 && (chars[0] == '+' || chars[0] == '-') {
        return Err(IntegerFault::InvalidDigit);
    }
    if chars[0] == '+' {
        let rest: &[char] = slice_subrange(chars, 1, chars.len());
        proof {
            assert(rest@ =~= chars@.skip(1));
        }
        parse_digits(rest, max)
    } else {
        parse_digits(chars, max)
    }
}

/// A whole number that an `i32` holds.
pub fn parse_i32(chars: &[char]) -> (r: Result<i32, IntegerFault>)
    ensures
        match r {
            Ok(n) => signed(chars@) == Ok::<int, IntegerFault>(n as int),
            Err(fault) => signed(chars@) == Err::<int, IntegerFault>(fault),
        },
{
    if chars.len() > 1 && chars[0] == '-' {
        let rest: &[char] = slice_subrange(chars, 1, chars.len());
        proof {
            assert(rest@ =~= chars@.skip(1));
        }
        match parse_digits(rest, 0x8000_0000) {
            Ok(n) => Ok((-(n as i64)) as i32),
            Err(IntegerFault::TooLarge) => Err(IntegerFault::TooSmall),
            Err(fault) => Err(fault),
        }
    } else {
        match parse_unsigned(chars, 0x7fff_ffff) {
            Ok(n) => Ok(n as i32),
            Err(fault) => Err(fault),
        }
    }
}

/// Writes a whole number in decimal at the end of a text.
pub fn push_decimal(text: &mut String, n: u64)
    ensures
        final(text)@ == old(text)@ + decimal(n as nat),
    decreases n,
{
    if n >= 10 {
        push_decimal(text, n / 10);
    }
    text.push(((n % 10) as u8 + 48) as char);
    proof {
        assert(old(text)@ + decimal(n as nat) =~= text@);
    }
}

/// White space by its numbers.
pub proof fn law_white_space(c: char)
    ensures
        is_space(c) <==> {
            let n = c as u32;
            ||| 9 <= n <= 13
            ||| n == 32
            ||| n == 0x85
            ||| n == 0xa0
            ||| n == 0x1680
            ||| 0x2000 <= n <= 0x200a
            ||| n == 0x2028
            ||| n == 0x2029
            ||| n == 0x202f
            ||| n == 0x205f
            ||| n == 0x3000
        },
{
}

/// Only the letters from `A` to `Z` change in lower case, each to the letter 32 further on.
pub proof fn law_lower_case(c: char)
    ensures
        65 <= c as u32 <= 90 ==> lower(c) as u32 == c as u32 + 32,
        !(65 <= c as u32 <= 90) ==> lower(c) == c,
        lower(lower(c)) == lower(c),
{
}

/// Two texts are alike just where they have the same length and the same letters, whatever
/// their case.
pub proof fn law_alike(a: Seq<char>, b: Seq<char>)
    ensures
        alike(a, b) <==> a.len() == b.len() && forall|i: int|
            0 <= i < a.len() ==> #[trigger] lower(a[i]) == lower(b[i]),
        alike(a, a),
        alike(a, b) == alike(b, a),
{
    if alike(a, b) {
        assert(lowered(a).len() == a.len() && lowered(b).len() == b.len());
        assert forall|i: int| 0 <= i < a.len() implies #[trigger] lower(a[i]) == lower(b[i]) by {
            assert(lowered(a)[i] == lower(a[i]));
            assert(lowered(b)[i] == lower(b[i]));
        }
    }
    if a.len() == b.len() && forall|i: int|
        0 <= i < a.len() ==> #[trigger] lower(a[i]) == lower(b[i]) {
        assert forall|i: int| 0 <= i < a.len() implies lowered(a)[i] == lowered(b)[i] by {
            assert(lower(a[i]) == lower(b[i]));
        }
        assert(lowered(a) =~= lowered(b));
    }
}

/// The digits and their values.
pub proof fn law_digits(c: char, d: nat)
    ensures
        is_digit(c) <==> 48 <= c as u32 <= 57,
        is_digit(c) ==> digit_value(c) == c as u32 - 48,
        d < 10 ==> digit_char(d) as u32 == 48 + d,
        is_digit(c) ==> digit_char(digit_value(c)) == c,
{
}

/// A whole number is written with the digits of its tens, then that of its ones.
pub proof fn law_decimals_are_written_out(n: nat, d: nat)
    requires
        d < 10,
    ensures
        decimal(d) == seq![(48 + d) as char],
        n > 0 ==> decimal(10 * n + d) == decimal(n) + decimal(d),
{
    if n > 0 {
        assert((10 * n + d) / 10 == n && (10 * n + d) % 10 == d);
        assert(decimal(n).push(digit_char(d)) =~= decimal(n) + decimal(d));
    }
}

/// A digit more makes a number ten times as large, and adds its value.
pub proof fn law_digits_count_by_ten(s: Seq<char>, d: nat)
    requires
        d < 10,
    ensures
        digits_value(Seq::empty()) == 0,
        digits_value(s.push((48 + d) as char)) == 10 * digits_value(s) + d,
{
    assert(s.push((48 + d) as char).drop_last() =~= s);
}

/// What `trailing` counts.
proof fn lemma_trailing(s: Seq<char>, p: spec_fn(char) -> bool)
    ensures
        trailing(s, p) <= s.len(),
        forall|i: int| s.len() - trailing(s, p) <= i < s.len() ==> p(#[trigger] s[i]),
        trailing(s, p) < s.len() ==> !p(s[s.len() - trailing(s, p) - 1]),
    decreases s.len(),
{
    if s.len() > 0 && p(s.last()) {
        let t = s.drop_last();
        lemma_trailing(t, p);
        assert forall|i: int| s.len() - trailing(s, p) <= i < s.len() implies p(
            #[trigger] s[i],
        ) by {
            if i < s.len() - 1 {
                assert(s[i] == t[i]);
            }
        }
    }
}

/// White space alone leaves nothing when it is trimmed.
pub proof fn law_white_space_is_trimmed_away(s: Seq<char>)
    requires
        forall|i: int| 0 <= i < s.len() ==> is_space(#[trigger] s[i]),
    ensures
        trimmed(s) == Seq::<char>::empty(),
{
    lemma_leading_is(s, spaces(), s.len());
    assert(s.skip(s.len() as int) =~= Seq::<char>::empty());
    assert(Seq::<char>::empty().take(0) =~= Seq::<char>::empty());
}

/// A text that neither begins nor ends with white space stays as it is.
pub proof fn law_nothing_else_is_trimmed(s: Seq<char>)
    requires
        s.len() > 0,
        !is_space(s[0]),
        !is_space(s.last()),
    ensures
        trimmed(s) == s,
{
    lemma_leading_is(s, spaces(), 0);
    assert(s.skip(0) =~= s);
    lemma_trailing_is(s, spaces(), 0);
    assert(s.take(s.len() as int) =~= s);
}

/// White space before and behind a text makes no difference once it is trimmed.
pub proof fn law_white_space_around_is_trimmed(before: Seq<char>, s: Seq<char>, behind: Seq<char>)
    requires
        forall|i: int| 0 <= i < before.len() ==> is_space(#[trigger] before[i]),
        forall|i: int| 0 <= i < behind.len() ==> is_space(#[trigger] behind[i]),
    ensures
        trimmed(before + s + behind) == trimmed(s),
{
    let whole = before + s + behind;
    let n = leading(s, spaces());
    lemma_leading(s, spaces());
    let a = before.len();
    let b = behind.len();
    assert forall|i: int| 0 <= i < a implies is_space(#[trigger] whole[i]) by {
        assert(whole[i] == before[i]);
    }
    assert forall|i: int| a + s.len() <= i < whole.len() implies is_space(#[trigger] whole[i]) by {
        assert(whole[i] == behind[i - a - s.len()]);
    }
    assert forall|i: int| a <= i < a + s.len() implies whole[i] == #[trigger] s[i - a] by {}
    if n == s.len() {
        assert forall|i: int| 0 <= i < s.len() implies is_space(#[trigger] s[i]) by {
            assert(spaces()(s[i]));
        }
        assert forall|i: int| 0 <= i < whole.len() implies is_space(#[trigger] whole[i]) by {
            if a <= i < a + s.len() {
                assert(whole[i] == s[i - a]);
            }
        }
        law_white_space_is_trimmed_away(s);
        law_white_space_is_trimmed_away(whole);
    } else {
        assert forall|i: int| 0 <= i < a + n implies spaces()(#[trigger] whole[i]) by {
            if i >= a {
                assert(whole[i] == s[i - a]);
            }
        }
        assert(whole[(a + n) as int] == s[n as int]);
        lemma_leading_is(whole, spaces(), a + n);
        let t = s.skip(n as int);
        let u = whole.skip((a + n) as int);
        assert(u =~= t + behind);
        lemma_trailing(t, spaces());
        let m = trailing(t, spaces());
        if m == t.len() {
            assert(spaces()(t[0]));
        }
        assert forall|i: int| u.len() - (m + b) <= i < u.len() implies spaces()(
            #[trigger] u[i],
        ) by {
            if i < t.len() {
                assert(u[i] == t[i]);
            } else {
                assert(u[i] == behind[i - t.len()]);
            }
        }
        assert(u[u.len() - (m + b) - 1] == t[t.len() - m - 1]);
        lemma_trailing_is(u, spaces(), m + b);
        assert(u.take(u.len() - (m + b)) =~= t.take(t.len() - m));
    }
}

/// White space holds no words.
pub proof fn law_white_space_holds_no_words(s: Seq<char>)
    requires
        forall|i: int| 0 <= i < s.len() ==> is_space(#[trigger] s[i]),
    ensures
        words(s) == Seq::<Seq<char>>::empty(),
{
    lemma_leading_is(s, spaces(), s.len());
    assert(s.skip(s.len() as int) =~= Seq::<char>::empty());
}

/// The words of a text come one by one: the first is what stands between the white space at the
/// start and the next, and the others are those of the rest.
pub proof fn law_words_come_one_by_one(gap: Seq<char>, word: Seq<char>, rest: Seq<char>)
    requires
        forall|i: int| 0 <= i < gap.len() ==> is_space(#[trigger] gap[i]),
        word.len() > 0,
        forall|i: int| 0 <= i < word.len() ==> !is_space(#[trigger] word[i]),
        rest.len() > 0 ==> is_space(rest[0]),
    ensures
        words(gap + word + rest) == seq![word] + words(rest),
{
    let s = gap + word + rest;
    assert forall|i: int| 0 <= i < gap.len() implies spaces()(#[trigger] s[i]) by {
        assert(s[i] == gap[i]);
    }
    assert(s[gap.len() as int] == word[0]);
    lemma_leading_is(s, spaces(), gap.len());
    let t = s.skip(gap.len() as int);
    assert(t =~= word + rest);
    assert forall|i: int| 0 <= i < word.len() implies solids()(#[trigger] t[i]) by {
        assert(t[i] == word[i]);
    }
    if rest.len() > 0 {
        assert(t[word.len() as int] == rest[0]);
    }
    lemma_leading_is(t, solids(), word.len());
    assert(t.take(word.len() as int) =~= word);
    assert(t.skip(word.len() as int) =~= rest);
}

/// A label is looked for line by line: what follows it on the first line that begins with it is
/// found, a line that does not is passed over, and a line may end with a carriage return too.
pub proof fn law_labels_are_looked_for_line_by_line(
    line: Seq<char>,
    rest: Seq<char>,
    prefix: Seq<char>,
)
    requires
        forall|i: int| 0 <= i < line.len() ==> #[trigger] line[i] != '\n',
    ensures
        labelled(Seq::empty(), prefix) is None,
        line.len() > 0 ==> labelled(line, prefix) == if prefix.is_prefix_of(line) {
            Some(line.skip(prefix.len() as int))
        } else {
            None
        },
        line.len() == 0 || line.last() != '\r' ==> {
            let found = if prefix.is_prefix_of(line) {
                Some(line.skip(prefix.len() as int))
            } else {
                labelled(rest, prefix)
            };
            &&& labelled(line + seq!['\n'] + rest, prefix) == found
            &&& labelled(line + seq!['\r', '\n'] + rest, prefix) == found
        },
{
    let n = line.len();
    assert forall|i: int| 0 <= i < n implies unbroken()(#[trigger] line[i]) by {}
    lemma_leading_is(line, unbroken(), n);
    assert(line.take(n as int) =~= line);
    assert(labelled(Seq::empty(), prefix) is None);
    if n > 0 {
        assert(first_line(line) == line);
        assert(after_first_line(line) =~= Seq::<char>::empty());
    }
    if n == 0 || line.last() != '\r' {
        let a = line + seq!['\n'] + rest;
        assert forall|i: int| 0 <= i < n implies unbroken()(#[trigger] a[i]) by {
            assert(a[i] == line[i]);
        }
        assert(a[n as int] == '\n');
        lemma_leading_is(a, unbroken(), n);
        if n > 0 {
            assert(a[n - 1] == line[n - 1]);
        }
        assert(a.take(n as int) =~= line);
        assert(a.skip((n + 1) as int) =~= rest);
        assert(first_line(a) == line);
        assert(after_first_line(a) == rest);
        let b = line + seq!['\r', '\n'] + rest;
        assert forall|i: int| 0 <= i < n + 1 implies unbroken()(#[trigger] b[i]) by {
            if i < n {
                assert(b[i] == line[i]);
            } else {
                assert(b[i] == '\r');
            }
        }
        assert(b[n as int] == '\r');
        assert(b[(n + 1) as int] == '\n');
        lemma_leading_is(b, unbroken(), n + 1);
        assert(b.take(n as int) =~= line);
        assert(b.skip((n + 2) as int) =~= rest);
        assert(first_line(b) == line);
        assert(after_first_line(b) == rest);
    }
}

/// Why a text is no whole number, in words.
pub proof fn law_faults_in_words()
    ensures
        IntegerFault::Empty.words() == "cannot parse integer from empty string"@,
        IntegerFault::InvalidDigit.words() == "invalid digit found in string"@,
        IntegerFault::TooLarge.words() == "number too large to fit in target type"@,
        IntegerFault::TooSmall.words() == "number too small to fit in target type"@,
{
}

} // verus!
