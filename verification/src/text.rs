//! Character-level text helpers shared by the chat template, the spotting
//! decoder and the page renderer.

use vstd::prelude::*;
use vstd::string::*;
use vstd::utf8::*;

verus! {

/// `String::push` appends one character to the end of the string.
pub assume_specification[ String::push ](s: &mut String, c: char)
    ensures
        final(s)@ == old(s)@.push(c),
;

/// Unicode characters with the `White_Space` property.
pub open spec fn is_white_space(c: char) -> bool {
    ||| 0x9 <= c as u32 <= 0xd
    ||| c as u32 == 0x20
    ||| c as u32 == 0x85
    ||| c as u32 == 0xa0
    ||| c as u32 == 0x1680
    ||| 0x2000 <= c as u32 <= 0x200a
    ||| c as u32 == 0x2028
    ||| c as u32 == 0x2029
    ||| c as u32 == 0x202f
    ||| c as u32 == 0x205f
    ||| c as u32 == 0x3000
}

/// Number of leading white-space characters.
pub open spec fn leading_space(s: Seq<char>) -> nat
    decreases s.len(),
{
    if s.len() > 0 && is_white_space(s[0]) {
        1 + leading_space(s.drop_first())
    } else {
        0
    }
}

/// `s` without the white space at its end.
pub open spec fn trimmed_end(s: Seq<char>) -> Seq<char>
    decreases s.len(),
{
    if s.len() > 0 && is_white_space(s.last()) {
        trimmed_end(s.drop_last())
    } else {
        s
    }
}

/// `s` without the white space at both ends.
pub open spec fn trimmed(s: Seq<char>) -> Seq<char> {
    trimmed_end(s.skip(leading_space(s) as int))
}

/// Neither end of `s` is white space.
pub open spec fn is_trimmed(s: Seq<char>) -> bool {
    s.len() > 0 ==> !is_white_space(s[0]) && !is_white_space(s.last())
}

proof fn lemma_trimmed_end(s: Seq<char>)
    ensures
        trimmed_end(s).len() <= s.len(),
        trimmed_end(s) == s.take(trimmed_end(s).len() as int),
        trimmed_end(s).len() > 0 ==> !is_white_space(trimmed_end(s).last()),
    decreases s.len(),
{
    if s.len() > 0 && is_white_space(s.last()) {
        lemma_trimmed_end(s.drop_last());
        let n = trimmed_end(s).len() as int;
        assert(s.drop_last().take(n) == s.take(n));
    } else {
        assert(s.take(s.len() as int) == s);
    }
}

proof fn lemma_leading_space(s: Seq<char>)
    ensures
        leading_space(s) <= s.len(),
        leading_space(s) < s.len() ==> !is_white_space(s[leading_space(s) as int]),
    decreases s.len(),
{
    if s.len() > 0 && is_white_space(s[0]) {
        lemma_leading_space(s.skip(1));
    }
}

/// Trimming leaves no white space at either end.
pub proof fn law_trimmed_texts_are_trimmed(s: Seq<char>)
    ensures
        is_trimmed(trimmed(s)),
{
    lemma_leading_space(s);
    lemma_trimmed_end(s.skip(leading_space(s) as int));
}

pub open spec fn ascii_lower(c: char) -> char {
    if 'A' <= c && c <= 'Z' {
        (c as u32 + 32) as char
    } else {
        c
    }
}

/// `s` with every ASCII capital letter replaced by its small letter.
pub open spec fn ascii_lowered(s: Seq<char>) -> Seq<char> {
    s.map_values(|c: char| ascii_lower(c))
}

/// The characters of `s`, in order.
pub fn chars_of(s: &str) -> (v: Vec<char>)
    ensures
        v@ == s@,
{
    let mut v: Vec<char> = Vec::new();
    for c in iter: s.chars()
        invariant
            v@ == iter.seq().take(iter.index() as int),
            iter.seq() == s@,
    {
        v.push(c);
        assert(v@ == iter.seq().take(iter.index() as int + 1));
    }
    v
}

/// The string made of `chars[from..to]`.
pub fn string_of(chars: &Vec<char>, from: usize, to: usize) -> (s: String)
    requires
        from <= to <= chars.len(),
    ensures
        s@ == chars@.subrange(from as int, to as int),
{
    let mut s = String::new();
    let mut i: usize = from;
    while i < to
        invariant
            from <= i <= to <= chars.len(),
            s@ == chars@.subrange(from as int, i as int),
        decreases to - i,
    {
        s.push(chars[i]);
        i = i + 1;
        assert(s@ == chars@.subrange(from as int, i as int));
    }
    s
}

/// Equality of two strings, character by character.
pub fn same_text(a: &str, b: &str) -> (same: bool)
    ensures
        same == (a@ == b@),
{
    a.to_owned() == b.to_owned()
}

pub fn is_space(c: char) -> (space: bool)
    ensures
        space == is_white_space(c),
{
    let u: u32 = c as u32;
    (0x9 <= u && u <= 0xd) || u == 0x20 || u == 0x85 || u == 0xa0 || u == 0x1680 || (0x2000 <= u
        && u <= 0x200a) || u == 0x2028 || u == 0x2029 || u == 0x202f || u == 0x205f || u == 0x3000
}

/// Copies `s` without the white space at both ends.
pub fn trim(s: &str) -> (t: String)
    ensures
        t@ == trimmed(s@),
{
    let chars = chars_of(s);
    let mut from: usize = 0;
    assert(s@.skip(0) == s@);
    while from < chars.len() && is_space(chars[from])
        invariant
            from <= chars.len(),
            chars@ == s@,
            leading_space(s@) == from + leading_space(s@.skip(from as int)),
        decreases chars.len() - from,
    {
        proof {
            assert(s@.skip(from as int).drop_first() == s@.skip(from as int + 1));
        }
        from = from + 1;
    }
    proof {
        assert(from < chars.len() ==> s@.skip(from as int)[0] == s@[from as int]);
        assert(leading_space(s@) == from);
    }
    let mut to: usize = chars.len();
    while from < to && is_space(chars[to - 1])
        invariant
            from <= to <= chars.len(),
            chars@ == s@,
            trimmed_end(s@.subrange(from as int, s@.len() as int)) == trimmed_end(
                s@.subrange(from as int, to as int),
            ),
        decreases to - from,
    {
        proof {
            assert(s@.subrange(from as int, to as int).drop_last() == s@.subrange(
                from as int,
                to as int - 1,
            ));
        }
        to = to - 1;
    }
    proof {
        assert(s@.skip(from as int) == s@.subrange(from as int, s@.len() as int));
    }
    string_of(&chars, from, to)
}

/// Copies `s` with ASCII capital letters made small.
pub fn to_ascii_lowercase(s: &str) -> (t: String)
    ensures
        t@ == ascii_lowered(s@),
{
    let chars = chars_of(s);
    let mut t = String::new();
    let mut i: usize = 0;
    while i < chars.len()
        invariant
            i <= chars.len(),
            chars@ == s@,
            t@ == ascii_lowered(s@.take(i as int)),
        decreases chars.len() - i,
    {
        let c: char = chars[i];
        if 'A' <= c && c <= 'Z' {
            let low: u8 = (c as u8) + 32;
            assert(low as char == ascii_lower(c));
            t.push(low as char);
        } else {
            t.push(c);
        }
        proof {
            assert(t@ == ascii_lowered(s@.take(i as int + 1)));
        }
        i = i + 1;
    }
    proof {
        assert(s@.take(s@.len() as int) == s@);
    }
    t
}

pub open spec fn digit_char(d: int) -> char {
    (d + 0x30) as u8 as char
}

/// Decimal notation of `n`, without leading zeros.
pub open spec fn decimal(n: nat) -> Seq<char>
    decreases n,
{
    if n < 10 {
        seq![digit_char(n as int)]
    } else {
        decimal(n / 10).push(digit_char(n as int % 10))
    }
}

/// Writes `n` in decimal notation.
pub fn decimal_u32(n: u32) -> (s: String)
    ensures
        s@ == decimal(n as nat),
    decreases n,
{
    if n < 10 {
        let mut s = String::new();
        s.push((n as u8 + 0x30) as char);
        assert(s@ == seq![digit_char(n as int)]);
        s
    } else {
        let mut s = decimal_u32(n / 10);
        s.push(((n % 10) as u8 + 0x30) as char);
        s
    }
}

pub open spec fn is_digit(c: char) -> bool {
    '0' <= c && c <= '9'
}

/// Number written by the ASCII digits `s`.
pub open spec fn digits_value(s: Seq<char>) -> nat
    decreases s.len(),
{
    if s.len() == 0 {
        0
    } else {
        10 * digits_value(s.drop_last()) + (s.last() as nat - '0' as nat) as nat
    }
}

/// `s` without one leading plus sign.
pub open spec fn without_plus(s: Seq<char>) -> Seq<char> {
    if s.len() > 0 && s[0] == '+' {
        s.drop_first()
    } else {
        s
    }
}

/// The number up to `max` that `s` writes: an optional plus sign and at least one
/// ASCII digit.
pub open spec fn parsed_number(s: Seq<char>, max: nat) -> Option<nat> {
    let digits = without_plus(s);
    if digits.len() > 0 && (forall|i: int| 0 <= i < digits.len() ==> is_digit(digits[i]))
        && digits_value(digits) <= max {
        Some(digits_value(digits))
    } else {
        None
    }
}

/// The 32-bit number that `s` writes.
pub open spec fn parsed_u32(s: Seq<char>) -> Option<u32> {
    match parsed_number(s, u32::MAX as nat) {
        Some(n) => Some(n as u32),
        None => None,
    }
}

/// The number of the width of the machine that `s` writes.
pub open spec fn parsed_usize(s: Seq<char>) -> Option<usize> {
    match parsed_number(s, usize::MAX as nat) {
        Some(n) => Some(n as usize),
        None => None,
    }
}

proof fn lemma_digits_value_grows(s: Seq<char>, n: int)
    requires
        0 <= n <= s.len(),
    ensures
        digits_value(s.take(n)) <= digits_value(s),
    decreases s.len(),
{
    if n < s.len() {
        lemma_digits_value_grows(s.drop_last(), n);
        assert(s.drop_last().take(n) == s.take(n));
    } else {
        assert(s.take(n) == s);
    }
}

/// Reads a number up to `max` in decimal notation.
fn parse_number(s: &str, max: u64) -> (n: Option<u64>)
    ensures
        match (n, parsed_number(s@, max as nat)) {
            (Some(value), Some(expected)) => value == expected,
            (None, None) => true,
            _ => false,
        },
{
    let chars = chars_of(s);
    let from: usize = if chars.len() > 0 && chars[0] == '+' {
        1
    } else {
        0
    };
    let ghost digits = without_plus(s@);
    assert(digits == s@.skip(from as int));
    if from >= chars.len() {
        return None;
    }
    let mut value: u64 = 0;
    let mut i: usize = from;
    while i < chars.len()
        invariant
            from <= i <= chars.len(),
            chars@ == s@,
            digits == s@.skip(from as int),
            digits == without_plus(s@),
            digits.len() > 0,
            value <= max,
            forall|k: int| 0 <= k < i - from ==> is_digit(digits[k]),
            value == digits_value(digits.take(i - from)),
        decreases chars.len() - i,
    {
        let c: char = chars[i];
        assert(c == digits[i - from]);
        if !('0' <= c && c <= '9') {
            return None;
        }
        let d: u64 = c as u64 - 0x30;
        proof {
            let next = digits.take(i - from + 1);
            assert(next.drop_last() == digits.take(i - from));
            assert(digits_value(next) == 10 * value + d);
            lemma_digits_value_grows(digits, i - from + 1);
        }
        let wide: u128 = value as u128 * 10 + d as u128;
        if wide > max as u128 {
            return None;
        }
        value = wide as u64;
        i = i + 1;
    }
    assert(digits.take(digits.len() as int) == digits);
    Some(value)
}

/// Reads a 32-bit number in decimal notation.
pub fn parse_u32(s: &str) -> (n: Option<u32>)
    ensures
        n == parsed_u32(s@),
{
    match parse_number(s, u32::MAX as u64) {
        Some(value) => Some(value as u32),
        None => None,
    }
}

/// Reads a number of the width of the machine in decimal notation.
pub fn parse_usize(s: &str) -> (n: Option<usize>)
    ensures
        n == parsed_usize(s@),
{
    match parse_number(s, usize::MAX as u64) {
        Some(value) => Some(value as usize),
        None => None,
    }
}

/// First place of a character in `s` from `from` on, or the end.
pub open spec fn first_char(s: Seq<char>, c: char, from: int) -> int
    decreases s.len() - from,
{
    if from >= s.len() || s[from] == c {
        from
    } else {
        first_char(s, c, from + 1)
    }
}

/// The parts of `s` before and behind the first `c`, if it occurs.
pub fn split_once(s: &str, c: char) -> (parts: Option<(String, String)>)
    ensures
        match parts {
            Some((head, tail)) => {
                let at = first_char(s@, c, 0);
                at < s@.len() && head@ == s@.take(at) && tail@ == s@.skip(at + 1)
            },
            None => first_char(s@, c, 0) >= s@.len(),
        },
        match parts {
            Some((head, tail)) => s@ == head@.push(c) + tail@ && !head@.contains(c),
            None => !s@.contains(c),
        },
{
    let chars = chars_of(s);
    let total: usize = chars.len();
    let mut at: usize = 0;
    while at < total && chars[at] != c
        invariant
            at <= total == chars@.len(),
            chars@ == s@,
            first_char(s@, c, 0) == first_char(s@, c, at as int),
            forall|k: int| 0 <= k < at ==> #[trigger] s@[k] != c,
        decreases total - at,
    {
        at = at + 1;
    }
    if at >= total {
        None
    } else {
        let head = string_of(&chars, 0, at);
        let tail = string_of(&chars, at + 1, total);
        assert(head@ == s@.take(at as int));
        assert(tail@ == s@.skip(at + 1));
        assert(s@ == head@.push(c) + tail@);
        Some((head, tail))
    }
}

/// `s` behind `prefix`, where it starts with it.
pub open spec fn behind(s: Seq<char>, prefix: Seq<char>) -> Option<Seq<char>> {
    if prefix.is_prefix_of(s) {
        Some(s.skip(prefix.len() as int))
    } else {
        None
    }
}

pub fn strip_prefix(s: &str, prefix: &str) -> (rest: Option<String>)
    ensures
        match (rest, behind(s@, prefix@)) {
            (Some(tail), Some(expected)) => tail@ == expected,
            (None, None) => true,
            _ => false,
        },
{
    let chars = chars_of(s);
    let head = chars_of(prefix);
    let total: usize = chars.len();
    if head.len() > total {
        return None;
    }
    let mut i: usize = 0;
    while i < head.len()
        invariant
            i <= head@.len() <= total == chars@.len(),
            chars@ == s@,
            head@ == prefix@,
            forall|k: int| 0 <= k < i ==> chars@[k] == head@[k],
        decreases head.len() - i,
    {
        if chars[i] != head[i] {
            return None;
        }
        i = i + 1;
    }
    let rest = string_of(&chars, i, total);
    assert(rest@ == s@.skip(prefix@.len() as int));
    Some(rest)
}

/// The characters whose UTF-8 encoding is `bytes[from..to]` of the encoding of
/// `s`.
pub open spec fn byte_slice(s: Seq<char>, from: int, to: int) -> Seq<char> {
    decode_utf8(encode_utf8(s).subrange(from, to))
}

/// The part of `s` between two byte offsets.
pub fn slice_bytes(s: &str, from: usize, to: usize) -> (t: &str)
    requires
        from <= to,
        is_char_boundary(encode_utf8(s@), from as int),
        is_char_boundary(encode_utf8(s@), to as int),
        to <= encode_utf8(s@).len(),
    ensures
        t@ == byte_slice(s@, from as int, to as int),
{
    let ghost bytes = encode_utf8(s@);
    proof {
        encode_utf8_valid_utf8(s@);
        valid_utf8_split(bytes, to as int);
    }
    let head = s.split_at(to).0;
    proof {
        let cut = bytes.subrange(0, to as int);
        encode_utf8_valid_utf8(head@);
        if from < to {
            is_char_boundary_iff_not_is_continuation_byte(bytes, from as int);
            is_char_boundary_iff_not_is_continuation_byte(cut, from as int);
        } else {
            is_char_boundary_start_end_of_seq(cut);
        }
    }
    let t = head.split_at(from).1;
    proof {
        encode_utf8_decode_utf8(t@);
        assert(bytes.subrange(0, to as int).subrange(from as int, to as int) == bytes.subrange(
            from as int,
            to as int,
        ));
    }
    t
}

/// `parts` joined with `separator` between neighbours.
pub open spec fn joined(parts: Seq<Seq<char>>, separator: Seq<char>) -> Seq<char>
    decreases parts.len(),
{
    if parts.len() == 0 {
        Seq::empty()
    } else if parts.len() == 1 {
        parts[0]
    } else {
        joined(parts.drop_last(), separator) + separator + parts.last()
    }
}

/// The texts of a list of strings.
pub open spec fn texts_of(parts: Seq<String>) -> Seq<Seq<char>> {
    parts.map_values(|s: String| s@)
}

/// Joins `parts` with `separator` between neighbours.
pub fn join(parts: &Vec<String>, separator: &str) -> (s: String)
    ensures
        s@ == joined(texts_of(parts@), separator@),
{
    let mut s = String::new();
    let mut i: usize = 0;
    while i < parts.len()
        invariant
            i <= parts.len(),
            s@ == joined(texts_of(parts@.take(i as int)), separator@),
        decreases parts.len() - i,
    {
        let ghost before = texts_of(parts@.take(i as int));
        if i > 0 {
            s.append(separator);
        }
        s.append(parts[i].as_str());
        proof {
            let after = texts_of(parts@.take(i as int + 1));
            assert(after.drop_last() == before);
            if i == 0 {
                assert(s@ == after[0]);
            }
        }
        i = i + 1;
    }
    assert(parts@.take(parts@.len() as int) == parts@);
    s
}

proof fn lemma_leading_is_white(s: Seq<char>)
    ensures
        forall|i: int| 0 <= i < leading_space(s) ==> is_white_space(#[trigger] s[i]),
    decreases s.len(),
{
    if s.len() > 0 && is_white_space(s[0]) {
        let rest = s.drop_first();
        lemma_leading_space(s);
        lemma_leading_is_white(rest);
        assert forall|i: int| 0 <= i < leading_space(s) implies is_white_space(#[trigger] s[i]) by {
            if i > 0 {
                assert(rest[i - 1] == s[i]);
            }
        }
    }
}

proof fn lemma_trailing_is_white(s: Seq<char>)
    ensures
        forall|i: int| trimmed_end(s).len() <= i < s.len() ==> is_white_space(#[trigger] s[i]),
    decreases s.len(),
{
    if s.len() > 0 && is_white_space(s.last()) {
        let rest = s.drop_last();
        lemma_trailing_is_white(rest);
        assert forall|i: int| trimmed_end(s).len() <= i < s.len() implies is_white_space(
            #[trigger] s[i],
        ) by {
            if i < s.len() - 1 {
                assert(rest[i] == s[i]);
            }
        }
    }
}

/// Trimming takes away white space alone, and only from the ends: what is left is one
/// stretch of the text, with nothing but white space before and behind it.
pub proof fn law_trimming_takes_white_space_alone(s: Seq<char>)
    ensures
        exists|from: int, to: int|
            #![trigger s.subrange(from, to)]
            0 <= from <= to <= s.len() && trimmed(s) == s.subrange(from, to) && (forall|i: int|
                0 <= i < from || to <= i < s.len() ==> is_white_space(#[trigger] s[i])),
        (forall|i: int| 0 <= i < s.len() ==> is_white_space(#[trigger] s[i])) <==> trimmed(s).len()
            == 0,
{
    let from = leading_space(s) as int;
    lemma_leading_space(s);
    lemma_leading_is_white(s);
    let rest = s.skip(from);
    lemma_trimmed_end(rest);
    lemma_trailing_is_white(rest);
    let to = from + trimmed(s).len();
    assert(trimmed(s) == s.subrange(from, to));
    assert forall|i: int| 0 <= i < from || to <= i < s.len() implies is_white_space(
        #[trigger] s[i],
    ) by {
        if i >= to {
            assert(rest[i - from] == s[i]);
        }
    }
    if trimmed(s).len() > 0 {
        law_trimmed_texts_are_trimmed(s);
        assert(trimmed(s)[0] == s[from]);
        assert(!is_white_space(s[from]));
    }
}

/// Spaces, tabs and the ends of lines are white; letters, digits and marks are not.
pub proof fn law_marks_are_not_white_space(c: char)
    ensures
        c == ' ' || c == '\n' || c == '\t' || c == '\r' || c == '\u{a0}' || c == '\u{3000}'
            ==> is_white_space(c),
        '!' <= c && c <= '~' ==> !is_white_space(c),
        '\u{4e00}' <= c && c <= '\u{9fff}' ==> !is_white_space(c),
{
}

/// Decimal notation is made of digits, and they stand for the number.
pub proof fn lemma_decimal(n: nat)
    ensures
        decimal(n).len() > 0,
        digits_value(decimal(n)) == n,
        forall|i: int| 0 <= i < decimal(n).len() ==> is_digit(#[trigger] decimal(n)[i]),
    decreases n,
{
    reveal_with_fuel(digits_value, 2);
    if n >= 10 {
        lemma_decimal(n / 10);
        assert(decimal(n).drop_last() == decimal(n / 10));
    } else {
        assert(decimal(n).drop_last() == Seq::<char>::empty());
    }
}

/// Decimal notation is read back: the number that is written is the number that comes,
/// with a plus sign before it or without, as far as it is not above the limit.
pub proof fn law_numbers_are_read_back(n: nat, max: nat)
    ensures
        n <= max ==> parsed_number(decimal(n), max) == Some(n),
        n > max ==> parsed_number(decimal(n), max) is None,
        parsed_number(seq!['+'] + decimal(n), max) == parsed_number(decimal(n), max),
        n <= u32::MAX ==> parsed_u32(decimal(n)) == Some(n as u32),
        n <= usize::MAX ==> parsed_usize(decimal(n)) == Some(n as usize),
{
    lemma_decimal(n);
    assert(is_digit(decimal(n)[0]));
    assert(without_plus(decimal(n)) == decimal(n));
    assert((seq!['+'] + decimal(n)).drop_first() == decimal(n));
    assert(without_plus(seq!['+'] + decimal(n)) == decimal(n));
}

/// A text with anything but digits behind its sign is no number, and neither is an
/// empty one.
pub proof fn law_other_texts_are_no_numbers(s: Seq<char>, i: int, max: nat)
    requires
        0 <= i < s.len(),
        i > 0 || s[0] != '+',
        s[i] < '0' || s[i] > '9',
    ensures
        parsed_number(s, max) is None,
        parsed_number(Seq::empty(), max) is None,
        parsed_number(seq!['+'], max) is None,
{
    let digits = without_plus(s);
    if s[0] == '+' {
        assert(digits[i - 1] == s[i]);
    } else {
        assert(digits[i] == s[i]);
    }
    assert(seq!['+'].drop_first() == Seq::<char>::empty());
}

/// Texts joined are the one before the separator and the one behind it, in turn.
pub proof fn law_joined_texts_follow_each_other(
    parts: Seq<Seq<char>>,
    last: Seq<char>,
    separator: Seq<char>,
)
    ensures
        joined(Seq::empty(), separator) == Seq::<char>::empty(),
        joined(seq![last], separator) == last,
        parts.len() > 0 ==> joined(parts.push(last), separator) == joined(parts, separator)
            + separator + last,
{
    if parts.len() > 0 {
        assert(parts.push(last).drop_last() == parts);
    }
}

/// Lower-casing changes ASCII capital letters alone: their place in the alphabet stays,
/// and none is left.
pub proof fn law_lowered_texts_have_no_capitals(s: Seq<char>, i: int)
    requires
        0 <= i < s.len(),
    ensures
        ascii_lowered(s).len() == s.len(),
        'A' <= s[i] && s[i] <= 'Z' ==> ascii_lowered(s)[i] as int - 'a' as int == s[i] as int
            - 'A' as int,
        !('A' <= s[i] && s[i] <= 'Z') ==> ascii_lowered(s)[i] == s[i],
        ascii_lowered(ascii_lowered(s)) == ascii_lowered(s),
{
    assert forall|k: int| 0 <= k < s.len() implies ascii_lower(#[trigger] ascii_lowered(s)[k])
        == ascii_lowered(s)[k] by {
        assert(ascii_lowered(s)[k] == ascii_lower(s[k]));
    }
    assert(ascii_lowered(ascii_lowered(s)) == ascii_lowered(s));
}

/// Trimming takes all the white space around a text, and the text stays whole.
pub proof fn law_surrounding_space_is_taken(before: Seq<char>, s: Seq<char>, after: Seq<char>)
    requires
        s.len() > 0,
        is_trimmed(s),
        forall|i: int| 0 <= i < before.len() ==> is_white_space(#[trigger] before[i]),
        forall|i: int| 0 <= i < after.len() ==> is_white_space(#[trigger] after[i]),
    ensures
        trimmed(before + s + after) == s,
{
    let whole = before + s + after;
    law_trimming_takes_white_space_alone(whole);
    law_trimmed_texts_are_trimmed(whole);
    let (from, to) = choose|from: int, to: int|
        #![trigger whole.subrange(from, to)]
        0 <= from <= to <= whole.len() && trimmed(whole) == whole.subrange(from, to) && (forall|
            i: int,
        |
            0 <= i < from || to <= i < whole.len() ==> is_white_space(#[trigger] whole[i]));
    assert(whole[before.len() as int] == s[0]);
    assert(trimmed(whole).len() > 0);
    assert(trimmed(whole)[0] == whole[from]);
    assert(trimmed(whole).last() == whole[to - 1]);
    let end = (before.len() + s.len()) as int;
    assert(whole[end - 1] == s.last());
    if from < before.len() {
        assert(whole[from] == before[from]);
    }
    if to > end {
        assert(whole[to - 1] == after[to - 1 - end]);
    }
    assert(from == before.len() && to == end);
    assert(whole.subrange(from, to) == s);
}

} // verus!
