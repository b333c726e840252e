//! What the lines of a dump show.

use vstd::prelude::*;

use crate::format::{
    ascii_bytes, ascii_dump, ascii_dump_from, column_filler, gap_behind, hex_ascii_dump,
    hex_ascii_dump_from, hex_ascii_line, hex_bytes, hex_cells, hex_dump, hex_dump_from, hex_filler,
    hex_line, hex_part, line_len, shown, shown_all,
};
use crate::numerals::{
    digit_worth, is_numeral, law_byte_reads_back, law_hex_reads_back, law_padded_number_reads_back,
    law_padding_is_only_filling, worth,
};
use crate::text::{hex, hex_byte, pad_left};

verus! {

/// The text before the first `stop`.
pub open spec fn before(text: Seq<char>, stop: char) -> Seq<char>
    decreases text.len(),
{
    if text.len() == 0 || text[0] == stop {
        Seq::<char>::empty()
    } else {
        seq![text[0]] + before(text.skip(1), stop)
    }
}

proof fn lemma_before(text: Seq<char>, stop: char, n: int)
    requires
        0 <= n < text.len(),
        text[n] == stop,
        forall|i: int| 0 <= i < n ==> text[i] != stop,
    ensures
        before(text, stop) == text.take(n),
    decreases n,
{
    if n > 0 {
        assert forall|i: int| 0 <= i < n - 1 implies text.skip(1)[i] != stop by {
            assert(text.skip(1)[i] == text[i + 1]);
        }
        lemma_before(text.skip(1), stop, n - 1);
        assert(seq![text[0]] + text.skip(1).take(n - 1) =~= text.take(n));
    } else {
        assert(text.take(0) =~= Seq::<char>::empty());
    }
}

/// The digits before the colon of a line.
pub open spec fn offset_digits(line: Seq<char>) -> Seq<char> {
    before(line.skip(4), ':')
}

/// The column in which the byte at index `j` of a line starts, counted from the first byte: three
/// for each byte before it, and one more behind the middle.
pub open spec fn byte_column(j: int, bpl: int) -> int {
    3 * j + (if j >= bpl / 2 {
        1int
    } else {
        0
    })
}

/// Whether the line shows the offset `at` in at least four digits behind four blanks, and behind a
/// colon and a blank the `n` bytes of the data from there on, each in two digits in its column.
pub open spec fn shows_bytes(line: Seq<char>, data: Seq<u8>, at: int, n: int, bpl: int) -> bool {
    let digits = offset_digits(line);
    let start = 4 + digits.len() + 2;
    &&& line.take(4) == seq![' ', ' ', ' ', ' ']
    &&& is_numeral(digits, 16)
    &&& worth(digits, 16) == at
    &&& digits.len() >= 4
    &&& digits.len() > 4 ==> digits[0] != '0'
    &&& line[start - 2] == ':' && line[start - 1] == ' '
    &&& forall|j: int|
        0 <= j < n ==> is_numeral(
            line.subrange(
                start + #[trigger] byte_column(j, bpl),
                start + byte_column(j, bpl) + 2,
            ),
            16,
        ) && worth(
            line.subrange(start + byte_column(j, bpl), start + byte_column(j, bpl) + 2),
            16,
        ) == data[at + j]
}

/// A row of cells is as long as the columns of its bytes, with the gap behind the last one.
#[verifier::rlimit(40)]
proof fn lemma_cells(data: Seq<u8>, from: int, n: int, bpl: int)
    requires
        2 <= bpl,
        0 <= n <= bpl,
    ensures
        hex_cells(data, from, n, bpl).len() == (if n == bpl {
            3 * bpl
        } else {
            byte_column(n, bpl)
        }),
        forall|j: int|
            0 <= j < n ==> hex_cells(data, from, n, bpl).subrange(
                #[trigger] byte_column(j, bpl),
                byte_column(j, bpl) + 2,
            ) == hex_byte(data[from + j]),
        forall|k: int|
            0 <= k < hex_cells(data, from, n, bpl).len() ==> digit_worth(
                #[trigger] hex_cells(data, from, n, bpl)[k],
            ) < 16 || hex_cells(data, from, n, bpl)[k] == ' ',
    decreases n,
{
    reveal_strlit("  ");
    reveal_strlit(" ");
    let cells = hex_cells(data, from, n, bpl);
    if n > 0 {
        lemma_cells(data, from, n - 1, bpl);
        let front = hex_cells(data, from, n - 1, bpl);
        let last = hex_byte(data[from + n - 1]);
        law_byte_reads_back(data[from + n - 1]);
        let gap = gap_behind(n - 1, bpl);
        assert(cells == front + last + gap);
        assert forall|j: int| 0 <= j < n implies cells.subrange(
            #[trigger] byte_column(j, bpl),
            byte_column(j, bpl) + 2,
        ) == hex_byte(data[from + j]) by {
            if j < n - 1 {
                assert(cells.subrange(byte_column(j, bpl), byte_column(j, bpl) + 2)
                    =~= front.subrange(byte_column(j, bpl), byte_column(j, bpl) + 2));
            } else {
                assert(cells.subrange(byte_column(j, bpl), byte_column(j, bpl) + 2) =~= last);
            }
        }
        assert forall|k: int| 0 <= k < cells.len() implies digit_worth(#[trigger] cells[k]) < 16
            || cells[k] == ' ' by {
            if k < front.len() {
                assert(cells[k] == front[k]);
            } else if k < front.len() + 2 {
                assert(cells[k] == last[k - front.len()]);
            } else {
                assert(cells[k] == gap[k - front.len() - 2]);
            }
        }
    }
}

/// The offset of a line stands before its colon, whatever follows it.
proof fn lemma_offset(data: Seq<u8>, at: int, bpl: int, rest: Seq<char>)
    requires
        0 <= at,
    ensures
        offset_digits(hex_part(data, at, bpl) + rest) == pad_left(hex(at as nat), 4, '0'),
{
    let line = hex_part(data, at, bpl) + rest;
    let digits = pad_left(hex(at as nat), 4, '0');
    reveal_strlit("    ");
    reveal_strlit(": ");
    law_padded_number_reads_back(at as nat, 4);
    let tail = line.skip(4);
    let cells = hex_cells(data, at, line_len(data, at, bpl), bpl);
    assert(tail =~= digits + ": "@ + cells + rest);
    assert(tail[digits.len() as int] == ':');
    assert forall|i: int| 0 <= i < digits.len() implies tail[i] != ':' by {
        assert(digit_worth(digits[i]) < 16);
        assert(tail[i] == digits[i]);
    }
    lemma_before(tail, ':', digits.len() as int);
    assert(tail.take(digits.len() as int) =~= digits);
}

/// The offset and the bytes of a line stand at its front, whatever follows them.
#[verifier::rlimit(40)]
proof fn lemma_line(data: Seq<u8>, at: int, bpl: int, rest: Seq<char>)
    requires
        2 <= bpl,
        0 <= at < data.len(),
    ensures
        ({
            let line = hex_part(data, at, bpl) + rest;
            let n = line_len(data, at, bpl);
            let start = 6 + offset_digits(line).len();
            &&& shows_bytes(line, data, at, n, bpl)
            &&& hex_part(data, at, bpl).len() == start + (if n == bpl {
                3 * bpl
            } else {
                byte_column(n, bpl)
            })
            &&& forall|k: int|
                0 <= k < hex_part(data, at, bpl).len() ==> #[trigger] line[k] != '\n'
            &&& at <= 0xffff ==> start == 10
        }),
{
    let line = hex_part(data, at, bpl) + rest;
    let n = line_len(data, at, bpl);
    let digits = pad_left(hex(at as nat), 4, '0');
    let cells = hex_cells(data, at, n, bpl);
    reveal_strlit("    ");
    reveal_strlit(": ");
    law_padded_number_reads_back(at as nat, 4);
    law_padding_is_only_filling(hex(at as nat), 4, '0');
    law_hex_reads_back(at as nat);
    lemma_cells(data, at, n, bpl);
    lemma_offset(data, at, bpl, rest);
    assert(offset_digits(line) == digits);
    let start = (6 + digits.len()) as int;
    assert(line.take(4) =~= seq![' ', ' ', ' ', ' ']);
    assert forall|j: int| 0 <= j < n implies line.subrange(
        start + #[trigger] byte_column(j, bpl),
        start + byte_column(j, bpl) + 2,
    ) == hex_byte(data[at + j]) by {
        assert(line.subrange(start + byte_column(j, bpl), start + byte_column(j, bpl) + 2)
            =~= cells.subrange(byte_column(j, bpl), byte_column(j, bpl) + 2));
    }
    assert forall|j: int| 0 <= j < n implies is_numeral(
        line.subrange(start + #[trigger] byte_column(j, bpl), start + byte_column(j, bpl) + 2),
        16,
    ) && worth(
        line.subrange(start + byte_column(j, bpl), start + byte_column(j, bpl) + 2),
        16,
    ) == data[at + j] by {
        law_byte_reads_back(data[at + j]);
    }
    assert forall|k: int| 0 <= k < hex_part(data, at, bpl).len() implies #[trigger] line[k]
        != '\n' by {
        if 4 <= k < 4 + digits.len() {
            assert(line[k] == digits[k - 4]);
            assert(digit_worth(digits[k - 4]) < 16);
        } else if k >= start {
            assert(line[k] == cells[k - start]);
        }
    }
}

/// Rows of text, a line break behind each.
pub open spec fn stacked(rows: Seq<Seq<char>>) -> Seq<char>
    decreases rows.len(),
{
    if rows.len() == 0 {
        Seq::<char>::empty()
    } else {
        rows[0] + seq!['\n'] + stacked(rows.skip(1))
    }
}

/// The lines of a hex dump: one for each `bpl` bytes, and one for those that are left.
pub open spec fn hex_rows(data: Seq<u8>, from: int, bpl: int) -> Seq<Seq<char>> {
    Seq::new(
        ((data.len() - from + bpl - 1) / bpl) as nat,
        |i: int| hex_line(data, from + i * bpl, bpl),
    )
}

/// The lines of a hex dump with characters.
pub open spec fn hex_ascii_rows(data: Seq<u8>, from: int, bpl: int) -> Seq<Seq<char>> {
    Seq::new(
        ((data.len() - from + bpl - 1) / bpl) as nat,
        |i: int| hex_ascii_line(data, from + i * bpl, bpl),
    )
}

proof fn lemma_row_count(left: int, bpl: int)
    requires
        0 < bpl,
        0 <= left,
    ensures
        left == 0 ==> (left + bpl - 1) / bpl == 0,
        0 < left <= bpl ==> (left + bpl - 1) / bpl == 1,
        left > bpl ==> (left + bpl - 1) / bpl == (left - bpl + bpl - 1) / bpl + 1,
{
    if left == 0 {
        assert((bpl - 1) / bpl == 0) by (nonlinear_arith)
            requires
                0 < bpl,
        ;
    } else if left <= bpl {
        assert((left + bpl - 1) / bpl == 1) by (nonlinear_arith)
            requires
                0 < left <= bpl,
        ;
    } else {
        vstd::arithmetic::div_mod::lemma_div_plus_one(left - 1, bpl);
        assert((left + bpl - 1) / bpl == (left - 1) / bpl + 1);
    }
}

proof fn lemma_rows(data: Seq<u8>, from: int, bpl: int)
    requires
        0 < bpl,
        0 <= from <= data.len(),
    ensures
        hex_dump_from(data, from, bpl) == stacked(hex_rows(data, from, bpl)),
        hex_ascii_dump_from(data, from, bpl) == stacked(hex_ascii_rows(data, from, bpl)),
    decreases data.len() - from,
{
    let n = line_len(data, from, bpl);
    lemma_row_count(data.len() - from, bpl);
    reveal_strlit("\n");
    assert("\n"@ =~= seq!['\n']);
    if from < data.len() {
        lemma_rows(data, from + n, bpl);
        let rows = hex_rows(data, from, bpl);
        let both = hex_ascii_rows(data, from, bpl);
        let next = hex_rows(data, from + n, bpl);
        let next_both = hex_ascii_rows(data, from + n, bpl);
        assert(0 * bpl == 0);
        if n < bpl || from + n == data.len() {
            lemma_row_count(0, bpl);
            assert(rows.skip(1) =~= next);
            assert(both.skip(1) =~= next_both);
        } else {
            assert forall|i: int| 0 <= i < next.len() implies rows.skip(1)[i] == #[trigger] next[i] by {
                assert((i + 1) * bpl == i * bpl + bpl) by (nonlinear_arith);
            }
            assert forall|i: int| 0 <= i < next_both.len() implies both.skip(1)[i]
                == #[trigger] next_both[i] by {
                assert((i + 1) * bpl == i * bpl + bpl) by (nonlinear_arith);
            }
            assert(rows.skip(1) =~= next);
            assert(both.skip(1) =~= next_both);
        }
    } else {
        assert(hex_rows(data, from, bpl) =~= Seq::empty());
        assert(hex_ascii_rows(data, from, bpl) =~= Seq::empty());
    }
}

/// A hex dump has a row for each `bpl` bytes. Row `i` shows the offset `i * bpl` in hexadecimal and
/// the bytes from there on, up to the end of the row or of the data.
#[verifier::rlimit(40)]
pub proof fn law_hex_dump_shows_the_data(data: Seq<u8>, bpl: int)
    requires
        2 <= bpl,
    ensures
        exists|rows: Seq<Seq<char>>|
            {
                &&& hex_dump(data, bpl) == #[trigger] stacked(rows)
                &&& rows.len() == (data.len() + bpl - 1) / bpl
                &&& forall|i: int|
                    0 <= i < rows.len() ==> shows_bytes(
                        #[trigger] rows[i],
                        data,
                        i * bpl,
                        if data.len() - i * bpl < bpl {
                            data.len() - i * bpl
                        } else {
                            bpl
                        },
                        bpl,
                    )
                &&& forall|i: int, k: int|
                    0 <= i < rows.len() && 0 <= k < rows[i].len() ==> #[trigger] rows[i][k] != '\n'
            },
{
    let rows = hex_rows(data, 0, bpl);
    lemma_rows(data, 0, bpl);
    lemma_row_count(data.len() as int, bpl);
    assert(rows.len() >= 0);
    assert((data.len() + bpl - 1) / bpl >= 0) by (nonlinear_arith)
        requires
            2 <= bpl,
            0 <= data.len(),
    ;
    assert forall|i: int| 0 <= i < rows.len() implies shows_bytes(
        #[trigger] rows[i],
        data,
        i * bpl,
        if data.len() - i * bpl < bpl {
            data.len() - i * bpl
        } else {
            bpl
        },
        bpl,
    ) && (forall|k: int| 0 <= k < rows[i].len() ==> #[trigger] rows[i][k] != '\n') by {
        lemma_row_start(data.len() as int, i, bpl);
        let n = line_len(data, i * bpl, bpl);
        lemma_line(data, i * bpl, bpl, hex_filler(n, bpl));
        assert(rows[i] == hex_part(data, i * bpl, bpl) + hex_filler(n, bpl));
    }
}

/// A row that is there starts in the data.
proof fn lemma_row_start(len: int, i: int, bpl: int)
    requires
        0 < bpl,
        0 <= i < (len + bpl - 1) / bpl,
    ensures
        0 <= i * bpl < len,
{
    assert(0 <= i * bpl < len) by (nonlinear_arith)
        requires
            0 < bpl,
            0 <= i < (len + bpl - 1) / bpl,
    ;
}

/// The row of a hex dump has one column more than three for each byte that a full row has, and two
/// more where it ends behind the middle.
pub proof fn law_hex_row_length(data: Seq<u8>, at: int, bpl: int)
    requires
        2 <= bpl,
        0 <= at < data.len(),
    ensures
        ({
            let line = hex_line(data, at, bpl);
            let n = data.len() - at;
            let full = 6 + offset_digits(line).len() + 3 * bpl;
            &&& n >= bpl ==> line.len() == full
            &&& n < bpl && n < bpl / 2 ==> line.len() == full
            &&& n < bpl && n == bpl / 2 ==> line.len() == full + 1
            &&& n < bpl && n > bpl / 2 ==> line.len() == full + 3
            &&& forall|k: int|
                6 + offset_digits(line).len() + byte_column(n, bpl) <= k < line.len() && n < bpl
                    ==> #[trigger] line[k] == ' '
        }),
{
    let n = line_len(data, at, bpl);
    lemma_line(data, at, bpl, hex_filler(n, bpl));
    let line = hex_line(data, at, bpl);
    let part = hex_part(data, at, bpl);
    assert forall|k: int|
        6 + offset_digits(line).len() + byte_column(n, bpl) <= k < line.len() && n
            < bpl implies #[trigger] line[k] == ' ' by {
        assert(line[k] == hex_filler(n, bpl)[k - part.len()]);
    }
}

/// Between the bytes of a row are blanks.
#[verifier::rlimit(40)]
pub proof fn law_blanks_between_bytes(data: Seq<u8>, at: int, bpl: int, j: int)
    requires
        2 <= bpl,
        0 <= at < data.len(),
        0 <= j < bpl - 1,
        at + j < data.len(),
    ensures
        ({
            let line = hex_line(data, at, bpl);
            let start = 6 + offset_digits(line).len();
            &&& line[start + byte_column(j, bpl) + 2] == ' '
            &&& line[start + byte_column(j + 1, bpl) - 1] == ' '
        }),
{
    let n = line_len(data, at, bpl);
    let line = hex_line(data, at, bpl);
    let part = hex_part(data, at, bpl);
    let cells = hex_cells(data, at, n, bpl);
    lemma_offset(data, at, bpl, hex_filler(n, bpl));
    lemma_gap(data, at, n, bpl, j);
    reveal_strlit("    ");
    reveal_strlit(": ");
    let start = part.len() - cells.len();
    assert(part.skip(start) =~= cells);
    assert(line[start + byte_column(j, bpl) + 2] == cells[byte_column(j, bpl) + 2]);
    assert(line[start + byte_column(j + 1, bpl) - 1] == cells[byte_column(j + 1, bpl) - 1]);
}

#[verifier::rlimit(40)]
proof fn lemma_gap(data: Seq<u8>, from: int, n: int, bpl: int, j: int)
    requires
        2 <= bpl,
        0 <= j < n <= bpl,
        j < bpl - 1,
    ensures
        hex_cells(data, from, n, bpl).len() >= byte_column(j + 1, bpl),
        hex_cells(data, from, n, bpl)[byte_column(j, bpl) + 2] == ' ',
        hex_cells(data, from, n, bpl)[byte_column(j + 1, bpl) - 1] == ' ',
    decreases n,
{
    reveal_strlit("  ");
    reveal_strlit(" ");
    lemma_cells(data, from, n - 1, bpl);
    lemma_cells(data, from, n, bpl);
    let front = hex_cells(data, from, n - 1, bpl);
    let cells = hex_cells(data, from, n, bpl);
    assert(cells == front + hex_byte(data[from + n - 1]) + gap_behind(n - 1, bpl));
    if j < n - 1 {
        lemma_gap(data, from, n - 1, bpl, j);
        assert(cells[byte_column(j, bpl) + 2] == front[byte_column(j, bpl) + 2]);
        assert(cells[byte_column(j + 1, bpl) - 1] == front[byte_column(j + 1, bpl) - 1]);
    }
}

/// A dump with characters has the same rows, and behind the column in which a full row ends and two
/// blanks a character for each byte of the row: the byte itself where it is a printable ASCII
/// character, else a dot.
#[verifier::rlimit(40)]
pub proof fn law_characters_are_the_bytes(data: Seq<u8>, bpl: int)
    requires
        2 <= bpl,
    ensures
        exists|rows: Seq<Seq<char>>|
            {
                &&& hex_ascii_dump(data, bpl) == #[trigger] stacked(rows)
                &&& rows.len() == (data.len() + bpl - 1) / bpl
                &&& forall|i: int|
                    0 <= i < rows.len() ==> shows_both(
                        #[trigger] rows[i],
                        data,
                        i * bpl,
                        if data.len() - i * bpl < bpl {
                            data.len() - i * bpl
                        } else {
                            bpl
                        },
                        bpl,
                    )
            },
{
    let rows = hex_ascii_rows(data, 0, bpl);
    lemma_rows(data, 0, bpl);
    assert((data.len() + bpl - 1) / bpl >= 0) by (nonlinear_arith)
        requires
            2 <= bpl,
            0 <= data.len(),
    ;
    assert forall|i: int| 0 <= i < rows.len() implies shows_both(
        #[trigger] rows[i],
        data,
        i * bpl,
        if data.len() - i * bpl < bpl {
            data.len() - i * bpl
        } else {
            bpl
        },
        bpl,
    ) by {
        lemma_row_start(data.len() as int, i, bpl);
        lemma_both(data, i * bpl, bpl);
    }
}

/// Whether the line shows the bytes in hexadecimal and, behind blanks, as characters.
pub open spec fn shows_both(line: Seq<char>, data: Seq<u8>, at: int, n: int, bpl: int) -> bool {
    let start = 6 + offset_digits(line).len();
    let text = start + 3 * bpl + 2;
    &&& shows_bytes(line, data, at, n, bpl)
    &&& line.len() == text + n
    &&& forall|j: int|
        0 <= j < n ==> #[trigger] line[text + j] == (if ' ' <= data[at + j] as char && data[at + j]
            as char <= '~' {
            data[at + j] as char
        } else {
            '.'
        })
    &&& line[text - 1] == ' ' && line[text - 2] == ' '
    &&& forall|k: int| n < bpl && start + byte_column(n, bpl) <= k < text ==> #[trigger] line[k] == ' '
}

#[verifier::rlimit(40)]
proof fn lemma_both(data: Seq<u8>, at: int, bpl: int)
    requires
        2 <= bpl,
        0 <= at < data.len(),
    ensures
        shows_both(hex_ascii_line(data, at, bpl), data, at, line_len(data, at, bpl), bpl),
{
    let n = line_len(data, at, bpl);
    let line = hex_ascii_line(data, at, bpl);
    let part = hex_part(data, at, bpl);
    let fill = column_filler(n, bpl);
    let chars = shown_all(data, at, n);
    let rest = fill + "  "@ + chars;
    reveal_strlit("  ");
    assert(line =~= part + rest);
    lemma_line(data, at, bpl, rest);
    let start = 6 + offset_digits(line).len();
    let text = start + 3 * bpl + 2;
    assert(part.len() + fill.len() + 2 == text);
    assert forall|j: int| 0 <= j < n implies #[trigger] line[text + j] == (if ' ' <= data[at + j]
        as char && data[at + j] as char <= '~' {
        data[at + j] as char
    } else {
        '.'
    }) by {
        assert(line[text + j] == chars[j]);
        assert(chars[j] == shown(data[at + j]));
    }
    assert forall|k: int|
        n < bpl && start + byte_column(n, bpl) <= k < text implies #[trigger] line[k] == ' ' by {
        if k < part.len() + fill.len() {
            assert(line[k] == fill[k - part.len()]);
        } else {
            assert(line[k] == "  "@[k - part.len() - fill.len()]);
        }
    }
    assert(line[text - 1] == "  "@[1]);
    assert(line[text - 2] == "  "@[0]);
}

/// Two lines of dumps that start at different bytes show different offsets, the later one the
/// larger.
pub proof fn law_offsets_grow(data: Seq<u8>, at: int, later: int, bpl: int)
    requires
        2 <= bpl,
        0 <= at < later < data.len(),
    ensures
        worth(offset_digits(hex_line(data, at, bpl)), 16) < worth(
            offset_digits(hex_line(data, later, bpl)),
            16,
        ),
        worth(offset_digits(hex_ascii_line(data, at, bpl)), 16) < worth(
            offset_digits(hex_ascii_line(data, later, bpl)),
            16,
        ),
{
    lemma_line(data, at, bpl, hex_filler(line_len(data, at, bpl), bpl));
    lemma_line(data, later, bpl, hex_filler(line_len(data, later, bpl), bpl));
    lemma_both(data, at, bpl);
    lemma_both(data, later, bpl);
}

/// A text dump shows each byte as a character, with a line break behind every `bpl` of them but
/// not behind the last.
pub proof fn law_text_dump_shows_the_data(data: Seq<u8>, bpl: int)
    requires
        0 < bpl,
        0 < data.len(),
    ensures
        ascii_dump(data, bpl).len() == data.len() + (data.len() - 1) / bpl,
        forall|i: int|
            0 <= i < data.len() ==> ascii_dump(data, bpl)[i + i / bpl] == (if ' '
                <= #[trigger] data[i] as char && data[i] as char <= '~' {
                data[i] as char
            } else {
                '.'
            }),
        forall|i: int|
            0 < i <= (data.len() - 1) / bpl ==> ascii_dump(data, bpl)[#[trigger] (i * (bpl + 1))
                - 1] == '\n',
{
    lemma_text_dump(data, 0, bpl);
    assert forall|i: int| 0 <= i < data.len() implies ascii_dump(data, bpl)[i + i / bpl] == shown(
        #[trigger] data[i],
    ) by {
        assert(data[0 + i] == data[i]);
    }
}

/// The same from a byte on that starts a line.
#[verifier::rlimit(40)]
proof fn lemma_text_dump(data: Seq<u8>, at: int, bpl: int)
    requires
        0 < bpl,
        0 <= at < data.len(),
    ensures
        ascii_dump_from(data, at, bpl).len() == data.len() - at + (data.len() - at - 1) / bpl,
        forall|i: int|
            0 <= i < data.len() - at ==> ascii_dump_from(data, at, bpl)[i + i / bpl] == shown(
                #[trigger] data[at + i],
            ),
        forall|i: int|
            0 < i <= (data.len() - at - 1) / bpl ==> ascii_dump_from(data, at, bpl)[#[trigger] (i
                * (bpl + 1)) - 1] == '\n',
    decreases data.len() - at,
{
    let n = line_len(data, at, bpl);
    let text = ascii_dump_from(data, at, bpl);
    let line = shown_all(data, at, n);
    let left = data.len() - at;
    reveal_strlit("\n");
    if at + n < data.len() {
        let next = ascii_dump_from(data, at + n, bpl);
        lemma_text_dump(data, at + n, bpl);
        assert(text == line + "\n"@ + next);
        vstd::arithmetic::div_mod::lemma_div_plus_one(left - bpl - 1, bpl);
        assert forall|i: int| 0 <= i < left implies text[i + i / bpl] == shown(
            #[trigger] data[at + i],
        ) by {
            if i < bpl {
                vstd::arithmetic::div_mod::lemma_basic_div(i, bpl);
                assert(text[i] == line[i]);
            } else {
                let k = i - bpl;
                vstd::arithmetic::div_mod::lemma_div_plus_one(k, bpl);
                assert(i / bpl == k / bpl + 1);
                assert(data[at + n + k] == data[at + i]);
                vstd::arithmetic::div_mod::lemma_div_pos_is_pos(k, bpl);
                vstd::arithmetic::div_mod::lemma_div_is_ordered(k, left - bpl - 1, bpl);
                assert(text[i + i / bpl] == next[k + k / bpl]);
            }
        }
        assert forall|i: int| 0 < i <= (left - 1) / bpl implies text[#[trigger] (i * (bpl + 1)) - 1]
            == '\n' by {
            if i == 1 {
                assert(1 * (bpl + 1) == bpl + 1);
                assert(text[bpl] == '\n');
            } else {
                assert(i * (bpl + 1) == (i - 1) * (bpl + 1) + bpl + 1) by (nonlinear_arith);
                assert((i - 1) * (bpl + 1) >= 1) by (nonlinear_arith)
                    requires
                        i > 1,
                        bpl > 0,
                ;
                let q = (left - bpl - 1) / bpl;
                assert((i - 1) * (bpl + 1) <= left - bpl - 1 + q) by (nonlinear_arith)
                    requires
                        i - 1 <= q,
                        q == (left - bpl - 1) / bpl,
                        left - bpl - 1 >= 0,
                        bpl > 0,
                ;
                assert(text[i * (bpl + 1) - 1] == next[(i - 1) * (bpl + 1) - 1]);
            }
        }
    } else {
        vstd::arithmetic::div_mod::lemma_basic_div(left - 1, bpl);
        assert forall|i: int| 0 <= i < left implies text[i + i / bpl] == shown(
            #[trigger] data[at + i],
        ) by {
            vstd::arithmetic::div_mod::lemma_basic_div(i, bpl);
            assert(text[i] == line[i]);
        }
    }
}

/// A line of a hex dump has 16, 32, 48 or 64 bytes: the most whose three columns each, with twelve
/// more, fit into 85 percent of the terminal, and 16 where not even those fit.
pub proof fn law_line_fills_the_terminal(width: int)
    requires
        0 <= width,
    ensures
        ({
            let n = hex_bytes(width);
            &&& n % 16 == 0
            &&& 16 <= n <= 64
            &&& n > 16 ==> (12 + 3 * n) * 100 <= width * 85
            &&& n < 64 ==> (12 + 3 * (n + 16)) * 100 > width * 85
        }),
{
}

/// A line of a text dump takes the whole characters in 85 percent of the terminal, but not fewer
/// than 64 or more than 512.
pub proof fn law_text_line_fills_the_terminal(width: int)
    requires
        0 <= width,
    ensures
        ({
            let n = ascii_bytes(width);
            &&& 64 <= n <= 512
            &&& n > 64 ==> n * 100 <= width * 85
            &&& n < 512 ==> (n + 1) * 100 > width * 85
        }),
{
}

/// Of no bytes nothing is shown.
pub proof fn law_empty_dumps(bpl: int)
    ensures
        hex_dump(Seq::empty(), bpl).len() == 0,
        hex_ascii_dump(Seq::empty(), bpl).len() == 0,
        ascii_dump(Seq::empty(), bpl).len() == 0,
{
}

} // verus!
