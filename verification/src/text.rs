//! Text as sequences of characters: numbers, words and separators.

use vstd::prelude::*;

verus! {

/// `String::push` appends the character to the end of the string.
pub assume_specification[ String::push ](text: &mut String, c: char)
    ensures
        final(text)@ == old(text)@.push(c),
;

/// The characters of a string.
pub fn chars_of(text: &str) -> (chars: Vec<char>)
    ensures
        chars@ == text@,
{
    let mut chars: Vec<char> = Vec::new();
    for c in it: text.chars()
        invariant
            it.seq() == text@,
            chars@ == it.seq().take(it.index() as int),
    {
        chars.push(c);
    }
    chars
}

/// Append characters to a string.
pub fn push_chars(out: &mut String, chars: &[char])
    ensures
        final(out)@ == old(out)@ + chars@,
{
    let mut i: usize = 0;
    while i < chars.len()
        invariant
            0 <= i <= chars@.len(),
            out@ == old(out)@ + chars@.take(i as int),
        decreases chars@.len() - i,
    {
        out.push(chars[i]);
        i = i + 1;
        assert(old(out)@ + chars@.take(i as int) =~= (old(out)@ + chars@.take(i - 1)).push(
            chars@[i - 1],
        ));
    }
    assert(chars@.take(i as int) =~= chars@);
}

/// Append a string to a string.
pub fn push_text(out: &mut String, text: &str)
    ensures
        final(out)@ == old(out)@ + text@,
{
    out.append(text);
}

/// A decimal digit.
pub open spec fn digit(d: nat) -> char {
    (48 + d) as char
}

/// The decimal digits of a number, without leading zeros.
pub open spec fn decimal(n: nat) -> Seq<char>
    decreases n,
{
    if n < 10 {
        seq![digit(n)]
    } else {
        decimal(n / 10).push(digit(n % 10))
    }
}

/// Append the decimal digits of a number.
pub fn push_decimal(out: &mut String, n: u128)
    ensures
        final(out)@ == old(out)@ + decimal(n as nat),
    decreases n,
{
    if n >= 10 {
        push_decimal(out, n / 10);
    }
    let d: u8 = (n % 10) as u8;
    let c: char = (48 + d) as char;
    out.push(c);
    assert(out@ =~= old(out)@ + decimal(n as nat));
}

/// A hexadecimal digit, in lower case.
pub open spec fn hex_digit(d: nat) -> char {
    if d < 10 {
        digit(d)
    } else {
        (87 + d) as char
    }
}

/// The hexadecimal digits of a number, without leading zeros.
pub open spec fn hex(n: nat) -> Seq<char>
    decreases n,
{
    if n < 16 {
        seq![hex_digit(n)]
    } else {
        hex(n / 16).push(hex_digit(n % 16))
    }
}

/// Append a hexadecimal digit.
pub fn push_hex_digit(out: &mut String, d: u8)
    requires
        d < 16,
    ensures
        final(out)@ == old(out)@.push(hex_digit(d as nat)),
{
    let c: char = if d < 10 {
        (48 + d) as char
    } else {
        (87 + d) as char
    };
    out.push(c);
}

/// Append the hexadecimal digits of a number.
pub fn push_hex(out: &mut String, n: u64)
    ensures
        final(out)@ == old(out)@ + hex(n as nat),
    decreases n,
{
    if n >= 16 {
        push_hex(out, n / 16);
    }
    push_hex_digit(out, (n % 16) as u8);
    assert(out@ =~= old(out)@ + hex(n as nat));
}

/// The two hexadecimal digits of a byte.
pub open spec fn hex_byte(b: u8) -> Seq<char> {
    seq![hex_digit((b / 16) as nat), hex_digit((b % 16) as nat)]
}

/// Append the two hexadecimal digits of a byte.
pub fn push_hex_byte(out: &mut String, b: u8)
    ensures
        final(out)@ == old(out)@ + hex_byte(b),
{
    push_hex_digit(out, b / 16);
    push_hex_digit(out, b % 16);
    assert(out@ =~= old(out)@ + hex_byte(b));
}

/// `n` times the same character.
pub open spec fn repeat(c: char, n: int) -> Seq<char> {
    Seq::new(
        if n < 0 {
            0
        } else {
            n as nat
        },
        |i: int| c,
    )
}

/// Append the same character several times.
pub fn push_repeat(out: &mut String, c: char, n: usize)
    ensures
        final(out)@ == old(out)@ + repeat(c, n as int),
{
    let mut i: usize = 0;
    while i < n
        invariant
            0 <= i <= n,
            out@ == old(out)@ + repeat(c, i as int),
        decreases n - i,
    {
        out.push(c);
        i = i + 1;
        assert(old(out)@ + repeat(c, i as int) =~= (old(out)@ + repeat(c, i - 1)).push(c));
    }
}

/// The text with `fill` before it up to the width.
pub open spec fn pad_left(text: Seq<char>, width: int, fill: char) -> Seq<char> {
    repeat(fill, width - text.len()) + text
}

/// Append a text with `fill` before it up to the width.
pub fn push_padded(out: &mut String, text: &str, width: usize, fill: char)
    ensures
        final(out)@ == old(out)@ + pad_left(text@, width as int, fill),
{
    let len: usize = text.unicode_len();
    if len < width {
        push_repeat(out, fill, width - len);
    }
    push_text(out, text);
    assert(out@ =~= old(out)@ + pad_left(text@, width as int, fill));
}

/// The decimal digits of a number, with zeros before them up to the width.
pub open spec fn zero_padded(n: nat, width: int) -> Seq<char> {
    pad_left(decimal(n), width, '0')
}

/// Append the decimal digits of a number, with zeros before them up to the width.
pub fn push_zero_padded(out: &mut String, n: u128, width: usize)
    ensures
        final(out)@ == old(out)@ + zero_padded(n as nat, width as int),
{
    let mut digits: String = String::new();
    push_decimal(&mut digits, n);
    assert(digits@ =~= decimal(n as nat));
    push_padded(out, digits.as_str(), width, '0');
}

/// The character in lower case, where it is an ASCII letter.
pub open spec fn lower(c: char) -> char {
    if 'A' <= c <= 'Z' {
        ((c as u32) + 32) as char
    } else {
        c
    }
}

pub open spec fn lower_all(text: Seq<char>) -> Seq<char> {
    Seq::new(text.len(), |i: int| lower(text[i]))
}

fn to_lower(c: char) -> (result: char)
    ensures
        result == lower(c),
{
    if 'A' <= c && c <= 'Z' {
        let code: u8 = c as u8;
        (code + 32) as char
    } else {
        c
    }
}

/// Whether the text is the lower-case word, where letters may be in either case.
pub fn is_word(text: &[char], word: &str) -> (yes: bool)
    ensures
        yes == (lower_all(text@) == word@),
{
    let letters: Vec<char> = chars_of(word);
    if text.len() != letters.len() {
        return false;
    }
    let mut i: usize = 0;
    while i < text.len()
        invariant
            0 <= i <= text@.len(),
            text@.len() == letters@.len(),
            letters@ == word@,
            forall|j: int| 0 <= j < i ==> lower(#[trigger] text@[j]) == letters@[j],
        decreases text@.len() - i,
    {
        if to_lower(text[i]) != letters[i] {
            assert(lower_all(text@)[i as int] != word@[i as int]);
            return false;
        }
        i = i + 1;
    }
    assert(lower_all(text@) =~= word@);
    true
}

pub open spec fn is_digit(c: char) -> bool {
    '0' <= c <= '9'
}

pub open spec fn all_digits(text: Seq<char>) -> bool {
    text.len() > 0 && forall|i: int| 0 <= i < text.len() ==> is_digit(#[trigger] text[i])
}

/// The number that decimal digits stand for.
pub open spec fn decimal_value(text: Seq<char>) -> nat
    decreases text.len(),
{
    if text.len() == 0 {
        0
    } else {
        decimal_value(text.drop_last()) * 10 + (text.last() as u32 - 48) as nat
    }
}

/// Whether the text is a row of decimal digits.
pub fn is_number(text: &[char]) -> (yes: bool)
    ensures
        yes == all_digits(text@),
{
    if text.len() == 0 {
        return false;
    }
    let mut i: usize = 0;
    while i < text.len()
        invariant
            0 <= i <= text@.len(),
            forall|j: int| 0 <= j < i ==> is_digit(#[trigger] text@[j]),
        decreases text@.len() - i,
    {
        if !('0' <= text[i] && text[i] <= '9') {
            return false;
        }
        i = i + 1;
    }
    true
}

proof fn lemma_decimal_grows(text: Seq<char>, i: int)
    requires
        all_digits(text),
        0 <= i <= text.len(),
    ensures
        decimal_value(text.take(i)) <= decimal_value(text),
    decreases text.len() - i,
{
    if i < text.len() {
        lemma_decimal_grows(text, i + 1);
        let next = text.take(i + 1);
        assert(next.drop_last() =~= text.take(i));
        assert(is_digit(next.last()));
    } else {
        assert(text.take(i) =~= text);
    }
}

/// The number that decimal digits stand for, if it is at most `max`.
pub fn parse_decimal(text: &[char], max: u32) -> (value: Option<u32>)
    requires
        all_digits(text@),
    ensures
        match value {
            Some(value) => value == decimal_value(text@) && value <= max,
            None => decimal_value(text@) > max,
        },
{
    let mut value: u32 = 0;
    let mut i: usize = 0;
    assert(text@.take(0) =~= Seq::<char>::empty());
    while i < text.len()
        invariant
            all_digits(text@),
            0 <= i <= text@.len(),
            value == decimal_value(text@.take(i as int)),
            value <= max,
        decreases text@.len() - i,
    {
        assert(text@.take(i + 1).drop_last() =~= text@.take(i as int));
        assert(is_digit(text@[i as int]));
        proof {
            lemma_decimal_grows(text@, i + 1);
        }
        let next: u64 = value as u64 * 10 + (text[i] as u64 - 48);
        if next > max as u64 {
            return None;
        }
        value = next as u32;
        i = i + 1;
    }
    assert(text@.take(i as int) =~= text@);
    Some(value)
}

pub open spec fn is_hex_digit(c: char) -> bool {
    '0' <= c <= '9' || 'a' <= c <= 'f' || 'A' <= c <= 'F'
}

/// The value of a hexadecimal digit.
pub open spec fn hex_digit_value(c: char) -> nat {
    if '0' <= c <= '9' {
        (c as u32 - 48) as nat
    } else if 'a' <= c <= 'f' {
        (c as u32 - 87) as nat
    } else {
        (c as u32 - 55) as nat
    }
}

/// The value of a hexadecimal digit.
pub fn hex_value_of(c: char) -> (value: Option<u8>)
    ensures
        value is Some == is_hex_digit(c),
        value matches Some(value) ==> value == hex_digit_value(c) && value < 16,
{
    if '0' <= c && c <= '9' {
        Some(c as u8 - 48)
    } else if 'a' <= c && c <= 'f' {
        Some(c as u8 - 87)
    } else if 'A' <= c && c <= 'F' {
        Some(c as u8 - 55)
    } else {
        None
    }
}

/// The number that hexadecimal digits stand for.
pub open spec fn hex_value(text: Seq<char>) -> nat
    decreases text.len(),
{
    if text.len() == 0 {
        0
    } else {
        hex_value(text.drop_last()) * 16 + hex_digit_value(text.last())
    }
}

/// The parts of a text between separators.
pub open spec fn split(text: Seq<char>, sep: char) -> Seq<Seq<char>>
    decreases text.len(),
{
    if text.len() == 0 {
        seq![Seq::<char>::empty()]
    } else {
        let before = split(text.drop_last(), sep);
        if text.last() == sep {
            before.push(Seq::<char>::empty())
        } else {
            before.drop_last().push(before.last().push(text.last()))
        }
    }
}

/// The parts of a text between separators, as ranges of indices.
pub fn split_ranges(text: &[char], sep: char) -> (ranges: Vec<(usize, usize)>)
    ensures
        ranges@.len() == split(text@, sep).len(),
        ranges@.len() > 0,
        forall|i: int|
            0 <= i < ranges@.len() ==> (#[trigger] ranges@[i]).0 <= ranges@[i].1
                <= text@.len() && text@.subrange(ranges@[i].0 as int, ranges@[i].1 as int)
                == split(text@, sep)[i],
{
    let mut ranges: Vec<(usize, usize)> = Vec::new();
    let mut start: usize = 0;
    let mut i: usize = 0;
    assert(text@.take(0) =~= Seq::<char>::empty());
    while i < text.len()
        invariant
            0 <= start <= i <= text@.len(),
            ranges@.len() + 1 == split(text@.take(i as int), sep).len(),
            forall|j: int|
                0 <= j < ranges@.len() ==> (#[trigger] ranges@[j]).0 <= ranges@[j].1
                    <= text@.len() && text@.subrange(ranges@[j].0 as int, ranges@[j].1 as int)
                    == split(text@.take(i as int), sep)[j],
            text@.subrange(start as int, i as int) == split(text@.take(i as int), sep).last(),
        decreases text@.len() - i,
    {
        let ghost before = split(text@.take(i as int), sep);
        let ghost old_ranges = ranges@;
        assert(text@.take(i + 1).drop_last() =~= text@.take(i as int));
        assert(text@.take(i + 1).last() == text@[i as int]);
        let ghost after = split(text@.take(i + 1), sep);
        if text[i] == sep {
            ranges.push((start, i));
            start = i + 1;
            assert(after == before.push(Seq::<char>::empty()));
            assert forall|j: int| 0 <= j < ranges@.len() implies (#[trigger] ranges@[j]).0
                <= ranges@[j].1 <= text@.len() && text@.subrange(
                ranges@[j].0 as int,
                ranges@[j].1 as int,
            ) == after[j] by {
                if j < old_ranges.len() {
                    assert(ranges@[j] == old_ranges[j]);
                    assert(after[j] == before[j]);
                }
            }
        } else {
            assert(text@.subrange(start as int, i + 1) =~= text@.subrange(
                start as int,
                i as int,
            ).push(text@[i as int]));
            assert(after == before.drop_last().push(before.last().push(text@[i as int])));
            assert forall|j: int| 0 <= j < ranges@.len() implies (#[trigger] ranges@[j]).0
                <= ranges@[j].1 <= text@.len() && text@.subrange(
                ranges@[j].0 as int,
                ranges@[j].1 as int,
            ) == after[j] by {
                assert(after[j] == before[j]);
            }
        }
        i = i + 1;
    }
    assert(text@.take(i as int) =~= text@);
    ranges.push((start, i));
    ranges
}

} // verus!
