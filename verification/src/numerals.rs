//! Printed numbers read back as the numbers they were printed from.

use vstd::prelude::*;

use crate::text::{
    all_digits, decimal, decimal_value, hex, hex_byte, hex_digit_value, hex_value, is_digit,
    is_hex_digit, pad_left, repeat, zero_padded,
};

verus! {

/// The value of a character as a digit; 99 for a character that is none.
pub open spec fn digit_worth(c: char) -> nat {
    if c == '0' {
        0
    } else if c == '1' {
        1
    } else if c == '2' {
        2
    } else if c == '3' {
        3
    } else if c == '4' {
        4
    } else if c == '5' {
        5
    } else if c == '6' {
        6
    } else if c == '7' {
        7
    } else if c == '8' {
        8
    } else if c == '9' {
        9
    } else if c == 'a' || c == 'A' {
        10
    } else if c == 'b' || c == 'B' {
        11
    } else if c == 'c' || c == 'C' {
        12
    } else if c == 'd' || c == 'D' {
        13
    } else if c == 'e' || c == 'E' {
        14
    } else if c == 'f' || c == 'F' {
        15
    } else {
        99
    }
}

/// Whether the text is a number in the base: at least one character, each of them a digit.
pub open spec fn is_numeral(text: Seq<char>, base: nat) -> bool {
    text.len() > 0 && forall|i: int| 0 <= i < text.len() ==> digit_worth(#[trigger] text[i]) < base
}

/// The number that the digits of the text make up in the base.
pub open spec fn worth(text: Seq<char>, base: nat) -> nat
    decreases text.len(),
{
    if text.len() == 0 {
        0
    } else {
        worth(text.drop_last(), base) * base + digit_worth(text.last())
    }
}

/// A number in decimal reads back as that number, and has no superfluous zero at its front.
pub proof fn law_decimal_reads_back(n: nat)
    ensures
        is_numeral(decimal(n), 10),
        worth(decimal(n), 10) == n,
        decimal(n)[0] == '0' ==> n == 0,
        n < 10 ==> decimal(n).len() == 1,
    decreases n,
{
    let text = decimal(n);
    if n < 10 {
        assert(text.drop_last() =~= Seq::<char>::empty());
        assert(worth(text.drop_last(), 10) == 0);
    } else {
        law_decimal_reads_back(n / 10);
        let front = decimal(n / 10);
        assert(text.drop_last() =~= front);
        assert forall|i: int| 0 <= i < text.len() implies digit_worth(#[trigger] text[i]) < 10 by {
            if i < front.len() {
                assert(text[i] == front[i]);
            }
        }
        assert(text[0] == front[0]);
    }
}

/// A number in hexadecimal reads back as that number, and has no superfluous zero at its front.
pub proof fn law_hex_reads_back(n: nat)
    ensures
        is_numeral(hex(n), 16),
        worth(hex(n), 16) == n,
        hex(n)[0] == '0' ==> n == 0,
        n < 0x10 ==> hex(n).len() == 1,
        0x10 <= n < 0x100 ==> hex(n).len() == 2,
        0x100 <= n < 0x1000 ==> hex(n).len() == 3,
        0x1000 <= n < 0x1_0000 ==> hex(n).len() == 4,
        0x1_0000 <= n ==> hex(n).len() > 4,
    decreases n,
{
    let text = hex(n);
    if n < 16 {
        assert(text.drop_last() =~= Seq::<char>::empty());
        assert(worth(text.drop_last(), 16) == 0);
    } else {
        law_hex_reads_back(n / 16);
        let front = hex(n / 16);
        assert(text.drop_last() =~= front);
        assert forall|i: int| 0 <= i < text.len() implies digit_worth(#[trigger] text[i]) < 16 by {
            if i < front.len() {
                assert(text[i] == front[i]);
            }
        }
        assert(text[0] == front[0]);
    }
}

/// The digits of hexadecimal numbers are printed in lower case.
pub proof fn law_hex_is_in_lower_case(n: nat, i: int)
    requires
        0 <= i < hex(n).len(),
    ensures
        !('A' <= hex(n)[i] <= 'F'),
    decreases n,
{
    if n >= 16 && i < hex(n).len() - 1 {
        law_hex_is_in_lower_case(n / 16, i);
        assert(hex(n)[i] == hex(n / 16)[i]);
    }
}

/// A byte is printed as two hexadecimal digits, in lower case, that read back as the byte.
pub proof fn law_byte_reads_back(b: u8)
    ensures
        hex_byte(b).len() == 2,
        is_numeral(hex_byte(b), 16),
        worth(hex_byte(b), 16) == b,
        !('A' <= hex_byte(b)[0] <= 'F') && !('A' <= hex_byte(b)[1] <= 'F'),
{
    let text = hex_byte(b);
    assert(text.drop_last().drop_last() =~= Seq::<char>::empty());
    assert(worth(text.drop_last().drop_last(), 16) == 0);
    assert(text.drop_last().last() == text[0]);
    assert(worth(text.drop_last(), 16) == digit_worth(text[0]));
}

/// Zeros at the front of a number do not change it.
pub proof fn lemma_zeros(n: int, text: Seq<char>, base: nat)
    requires
        base > 0,
    ensures
        worth(repeat('0', n) + text, base) == worth(text, base),
    decreases text.len(), (if n < 0 { 0 } else { n }),
{
    let all = repeat('0', n) + text;
    if text.len() > 0 {
        assert(all.drop_last() =~= repeat('0', n) + text.drop_last());
        lemma_zeros(n, text.drop_last(), base);
    } else if n > 0 {
        assert(all.drop_last() =~= repeat('0', n - 1) + text);
        lemma_zeros(n - 1, text, base);
        assert(all.last() == '0');
        assert(worth(all, base) == worth(all.drop_last(), base) * base);
        assert(0 * base == 0) by (nonlinear_arith);
    } else {
        assert(all =~= text);
    }
}

/// A text that is filled up to a width has that width at least, ends with the text, and has
/// nothing but the filling before it.
pub proof fn law_padding_is_only_filling(text: Seq<char>, width: nat, fill: char)
    ensures
        ({
            let padded = pad_left(text, width as int, fill);
            let front = padded.len() - text.len();
            &&& front >= 0
            &&& padded.skip(front) == text
            &&& forall|i: int| 0 <= i < front ==> #[trigger] padded[i] == fill
            &&& text.len() <= width ==> padded.len() == width
            &&& text.len() >= width ==> padded == text
        }),
{
    let padded = pad_left(text, width as int, fill);
    let front = padded.len() - text.len();
    assert(padded.skip(front) =~= text);
    if text.len() >= width {
        assert(padded =~= text);
    }
}

/// A number that is filled up with zeros still reads back as that number.
pub proof fn law_padded_number_reads_back(n: nat, width: nat)
    ensures
        is_numeral(zero_padded(n, width as int), 10),
        worth(zero_padded(n, width as int), 10) == n,
        zero_padded(n, width as int).len() >= width,
        decimal(n).len() <= width ==> zero_padded(n, width as int).len() == width,
        is_numeral(pad_left(hex(n), width as int, '0'), 16),
        worth(pad_left(hex(n), width as int, '0'), 16) == n,
{
    law_decimal_reads_back(n);
    law_hex_reads_back(n);
    lemma_zeros(width - decimal(n).len(), decimal(n), 10);
    lemma_zeros(width - hex(n).len(), hex(n), 16);
    let dec = zero_padded(n, width as int);
    let front = dec.len() - decimal(n).len();
    assert forall|i: int| 0 <= i < dec.len() implies digit_worth(#[trigger] dec[i]) < 10 by {
        if i >= front {
            assert(dec[i] == decimal(n)[i - front]);
        }
    }
    let text = pad_left(hex(n), width as int, '0');
    let lead = text.len() - hex(n).len();
    assert forall|i: int| 0 <= i < text.len() implies digit_worth(#[trigger] text[i]) < 16 by {
        if i >= lead {
            assert(text[i] == hex(n)[i - lead]);
        }
    }
}

/// A number below 100 takes two digits when it is filled up to two.
pub proof fn lemma_two_digits(n: nat)
    requires
        n < 100,
    ensures
        zero_padded(n, 2).len() == 2,
{
    reveal_with_fuel(decimal, 2);
}

/// A row of digits is read as the number that it makes up, and what is read in this way is a row of
/// digits.
pub proof fn law_digits_are_read(text: Seq<char>)
    ensures
        all_digits(text) == is_numeral(text, 10),
        is_numeral(text, 10) ==> decimal_value(text) == worth(text, 10),
    decreases text.len(),
{
    assert forall|c: char| (#[trigger] digit_worth(c) < 10) == ('0' <= c <= '9') by {
    }
    assert(all_digits(text) == is_numeral(text, 10)) by {
        if all_digits(text) {
            assert forall|i: int| 0 <= i < text.len() implies digit_worth(#[trigger] text[i]) < 10 by {
                assert(is_digit(text[i]));
            }
        }
        if is_numeral(text, 10) {
            assert forall|i: int| 0 <= i < text.len() implies is_digit(
                #[trigger] text[i],
            ) by {
                assert(digit_worth(text[i]) < 10);
            }
        }
    }
    if is_numeral(text, 10) {
        let front = text.drop_last();
        assert(digit_worth(text[text.len() - 1]) < 10);
        if front.len() > 0 {
            assert(is_numeral(front, 10)) by {
                assert forall|i: int| 0 <= i < front.len() implies digit_worth(#[trigger] front[i])
                    < 10 by {
                    assert(front[i] == text[i]);
                }
            }
            law_digits_are_read(front);
        } else {
            assert(decimal_value(front) == 0 && worth(front, 10) == 0);
        }
    }
}

/// A row of hexadecimal digits, in either case, is read as the number that it makes up.
pub proof fn law_hex_digits_are_read(text: Seq<char>)
    ensures
        forall|c: char| #[trigger] is_hex_digit(c) == (digit_worth(c) < 16),
        is_numeral(text, 16) ==> hex_value(text) == worth(text, 16),
    decreases text.len(),
{
    assert forall|c: char| #[trigger] is_hex_digit(c) == (digit_worth(c) < 16) by {
    }
    if is_numeral(text, 16) {
        let front = text.drop_last();
        let last = text.last();
        assert(digit_worth(text[text.len() - 1]) < 16);
        assert(hex_digit_value(last) == digit_worth(last));
        if front.len() > 0 {
            assert(is_numeral(front, 16)) by {
                assert forall|i: int| 0 <= i < front.len() implies digit_worth(#[trigger] front[i])
                    < 16 by {
                    assert(front[i] == text[i]);
                }
            }
            law_hex_digits_are_read(front);
        } else {
            assert(hex_value(front) == 0 && worth(front, 16) == 0);
        }
    }
}

/// Two rows of digits without superfluous zeros that make up the same number are the same.
pub proof fn law_numerals_are_unique(one: Seq<char>, two: Seq<char>)
    requires
        is_numeral(one, 10),
        is_numeral(two, 10),
        one.len() == 1 || one[0] != '0',
        two.len() == 1 || two[0] != '0',
        worth(one, 10) == worth(two, 10),
    ensures
        one == two,
    decreases one.len() + two.len(),
{
    let a = one.drop_last();
    let b = two.drop_last();
    assert(digit_worth(one[one.len() - 1]) < 10);
    assert(digit_worth(two[two.len() - 1]) < 10);
    let x = worth(a, 10);
    let y = worth(b, 10);
    assert(x == y && digit_worth(one.last()) == digit_worth(two.last()));
    lemma_digit_is_unique(one.last(), two.last());
    if a.len() == 0 && b.len() == 0 {
    } else if a.len() == 0 || b.len() == 0 {
        if a.len() == 0 {
            lemma_positive(b, two);
        } else {
            lemma_positive(a, one);
        }
    } else {
        assert forall|i: int| 0 <= i < a.len() implies digit_worth(#[trigger] a[i]) < 10 by {
            assert(a[i] == one[i]);
        }
        assert forall|i: int| 0 <= i < b.len() implies digit_worth(#[trigger] b[i]) < 10 by {
            assert(b[i] == two[i]);
        }
        assert(a[0] == one[0] && b[0] == two[0]);
        law_numerals_are_unique(a, b);
    }
    assert(one =~= a.push(one.last()));
    assert(two =~= b.push(two.last()));
}

proof fn lemma_digit_is_unique(c: char, d: char)
    requires
        digit_worth(c) == digit_worth(d),
        digit_worth(c) < 10,
    ensures
        c == d,
{
}

/// A number that does not start with zero is not zero.
proof fn lemma_positive(front: Seq<char>, text: Seq<char>)
    requires
        is_numeral(text, 10),
        front == text.drop_last(),
        front.len() > 0,
        text[0] != '0',
    ensures
        worth(front, 10) > 0,
    decreases front.len(),
{
    assert(front[0] == text[0]);
    assert(digit_worth(text[0]) < 10);
    if front.len() == 1 {
        assert(front.last() == front[0]);
        if digit_worth(front[0]) == 0 {
            lemma_digit_is_unique(front[0], '0');
        }
    } else {
        assert(is_numeral(front, 10)) by {
            assert forall|i: int| 0 <= i < front.len() implies digit_worth(#[trigger] front[i]) < 10 by {
                assert(front[i] == text[i]);
            }
        }
        lemma_positive(front.drop_last(), front);
    }
}

} // verus!
