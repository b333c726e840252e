//! What the parts of a run come to: its ring buffer, its filter, its interfaces and its listings.

use vstd::arithmetic::power2::pow2;
use vstd::prelude::*;

use crate::addr::IpAddr;
use crate::ast::holds;
use crate::capture::{
    block_bytes, block_unit, buffer_of, frame_bytes, geometry_of, has_geometry, is_next_power,
    is_power_of_two, lemma_next_power_exists, lemma_round_up, plan_of, wanted_block, wanted_frame,
    OpenOptions, RingCursor, RingStep, DEFAULT_BLOCK_NR, DEFAULT_BLOCK_SIZE, DEFAULT_FRAME_SIZE,
    DEFAULT_RETIRE_TOV_MS, DEFAULT_SNAPLEN, IFNAMSIZ,
};
use crate::clock::delta_text;
use crate::compiler::{code_of, compilable, program_of};
use crate::dumps::stacked;
use crate::fields::{big_endian, field, law_reads_are_big_endian, lemma_low_bits};
use crate::interfaces::{
    by_index, distinct, interface_text, is_listed, law_interface_table, table, with_inserted,
    Interface, InterfaceEntry,
};
use crate::meaning::law_compiled_filter_decides;
use crate::notation::glued;
use crate::packet::{info_of, Headers, NetHeader, NetdumpError, PacketMeta};
use crate::parser::expr_of;
use crate::print::stamp_text;
use crate::printed::{is_number, law_addresses_are_big_endian, lemma_number};
use crate::session::{
    block_size_of, comes_from, filter_text, has_direction, instruction_text, is_prepared, is_white,
    joined, listing, program_text, record_of, saved_meta, summary_text, trim_end, trim_start,
    trimmed, OutputArgs, Prepared, Record, Selection, Session,
};
use crate::text::decimal;
use crate::types::Instruction;
use crate::vm::accepts;

verus! {

/// The size that a frame of a ring buffer needs: the one that is asked for, 2048 bytes where none
/// is, but at least 256 bytes more than the capture length, which is 65535 where none is given.
pub open spec fn needed(options: OpenOptions) -> int {
    let asked: int = match options.frame_size {
        Some(size) => size as int,
        None => 2048,
    };
    let least: int = if options.snaplen == 0 {
        65791
    } else {
        options.snaplen + 256
    };
    if asked < least {
        least
    } else {
        asked
    }
}

/// The frames of a ring buffer are the smallest powers of two that are large enough, and its blocks
/// the smallest ones that hold a frame, have the size that is asked for at least, and are full of
/// whole frames and whole pages.
pub proof fn law_ring_is_no_larger_than_needed(options: OpenOptions, page_size: int)
    requires
        has_geometry(options, page_size),
        page_size > 0,
    ensures
        ({
            let g = geometry_of(options, page_size);
            let unit: int = if page_size > g.frame_size {
                page_size
            } else {
                g.frame_size as int
            };
            let least: int = if options.block_size > g.frame_size {
                options.block_size as int
            } else {
                g.frame_size as int
            };
            &&& exists|e: nat| g.frame_size == #[trigger] pow2(e)
            &&& g.frame_size / 2 < needed(options) <= g.frame_size
            &&& g.block_size as int % unit == 0
            &&& least <= g.block_size < least + unit
            &&& g.block_nr == options.block_nr
            &&& g.ring_size == g.block_size * options.block_nr
            &&& g.frame_nr == g.ring_size as int / g.frame_size as int
            &&& options.retire_tov_ms is None ==> g.retire_tov_ms == 100
            &&& options.retire_tov_ms matches Some(ms) ==> g.retire_tov_ms == ms
        }),
{
    crate::capture::law_ring_holds_its_frames(options, page_size);
    lemma_next_power_exists(wanted_frame(options), 0);
    let g = geometry_of(options, page_size);
    let unit = block_unit(options, page_size);
    if wanted_block(options) % unit != 0 {
        lemma_round_up(wanted_block(options), unit);
    }
    assert(g.frame_size == frame_bytes(options));
    assert(g.block_size == block_bytes(options, page_size));
    vstd::arithmetic::div_mod::lemma_div_is_ordered(
        g.ring_size as int / g.frame_size as int,
        g.ring_size as int,
        1,
    );
    assert(g.ring_size as int / g.frame_size as int <= g.ring_size) by (nonlinear_arith)
        requires
            0 <= g.ring_size,
            1 <= g.frame_size,
    ;
    vstd::arithmetic::div_mod::lemma_div_pos_is_pos(g.ring_size as int, g.frame_size as int);
}

/// A ring buffer is laid out wherever its sizes are not too large.
pub proof fn law_small_rings_are_laid_out(options: OpenOptions, page_size: int)
    requires
        is_power_of_two(page_size),
        0 < page_size <= 0x1000_0000,
        needed(options) <= 0x1000_0000,
        options.block_size <= 0x1000_0000,
        options.block_nr * 0x4000_0000 <= usize::MAX,
    ensures
        has_geometry(options, page_size),
{
    let frame = frame_bytes(options);
    assert(wanted_frame(options) == needed(options));
    lemma_next_power_exists(wanted_frame(options), 0);
    assert(is_next_power(frame, needed(options)));
    assert(frame < 2 * needed(options) + 2);
    let unit = block_unit(options, page_size);
    let block = block_bytes(options, page_size);
    if wanted_block(options) % unit != 0 {
        lemma_round_up(wanted_block(options), unit);
    }
    assert(0 <= block <= 0x4000_0000);
    assert(block * options.block_nr <= 0x4000_0000 * options.block_nr) by (nonlinear_arith)
        requires
            0 <= block <= 0x4000_0000,
            0 <= options.block_nr,
    ;
}

/// A receive buffer has 1024 bytes for each KiB, and the greatest size where that is too much. The
/// uppermost numbers stand for negative ones.
pub proof fn law_buffer_is_in_kib(kib: u32)
    ensures
        kib < 0x20_0000 ==> buffer_of(kib) == 1024 * kib,
        0x20_0000 <= kib < 0xffe0_0000 ==> buffer_of(kib) == 0x7fff_ffff,
        0xffe0_0000 <= kib ==> buffer_of(kib) == 1024 * (kib - 0x1_0000_0000),
{
    if kib >= 0x8000_0000 {
        assert(kib as i32 == kib - 0x1_0000_0000) by (bit_vector)
            requires
                kib >= 0x8000_0000,
        ;
    }
}

/// The interface `any` stands for all interfaces, and only a single one is put into promiscuous
/// mode.
pub proof fn law_any_is_not_promiscuous(name: Seq<char>, options: OpenOptions, page_size: int)
    ensures
        ({
            let plan = plan_of(name, options, page_size);
            &&& plan.any == (name == seq!['a', 'n', 'y'])
            &&& plan.promiscuous == (options.promiscuous && name != seq!['a', 'n', 'y'])
            &&& plan.buffer is Some == options.buffer_size is Some
            &&& options.buffer_size matches Some(kib) ==> kib < 0x20_0000 ==> plan.buffer == Some(
                (1024 * kib) as i32,
            )
            &&& has_geometry(options, page_size) ==> plan.ring == Some(
                geometry_of(options, page_size),
            )
            &&& !has_geometry(options, page_size) ==> plan.ring is None
        }),
{
    reveal_strlit("any");
    assert("any"@ =~= seq!['a', 'n', 'y']);
    if options.buffer_size is Some {
        law_buffer_is_in_kib(options.buffer_size->0);
    }
}

/// The size of a block is given in units of 1024 bytes.
pub proof fn law_blocks_are_in_kib(kib: u32)
    requires
        kib * 1024 <= usize::MAX,
    ensures
        block_size_of(kib) == 1024 * kib,
{
}

/// Whether all characters are white space.
pub open spec fn all_white(text: Seq<char>) -> bool {
    forall|i: int| 0 <= i < text.len() ==> is_white(#[trigger] text[i])
}

/// White space: the blank, the characters from the tab to the carriage return, and the spaces and
/// separators of Unicode.
pub proof fn law_white_space(c: char)
    ensures
        is_white(c) == (c == ' ' || c == '\t' || c == '\n' || c == '\x0b' || c == '\x0c' || c
            == '\r' || c == '\u{85}' || c == '\u{a0}' || c == '\u{1680}' || c == '\u{2000}' || c
            == '\u{2001}' || c == '\u{2002}' || c == '\u{2003}' || c == '\u{2004}' || c
            == '\u{2005}' || c == '\u{2006}' || c == '\u{2007}' || c == '\u{2008}' || c
            == '\u{2009}' || c == '\u{200a}' || c == '\u{2028}' || c == '\u{2029}' || c
            == '\u{202f}' || c == '\u{205f}' || c == '\u{3000}'),
{
}

/// A trimmed text is the text without white space at its two ends, and has none there itself.
pub proof fn law_trimming(text: Seq<char>)
    ensures
        exists|front: Seq<char>, back: Seq<char>|
            text == #[trigger] (front + trimmed(text) + back) && all_white(front) && all_white(
                back,
            ),
        trimmed(text).len() > 0 ==> !is_white(trimmed(text)[0]) && !is_white(trimmed(text).last()),
        trimmed(text).len() == 0 <==> all_white(text),
{
    let front = lemma_trim_start(text);
    let rest = trim_start(text);
    let back = lemma_trim_end(rest);
    let core = trimmed(text);
    assert(front + core + back =~= text);
    if core.len() > 0 {
        assert(core[0] == rest[0]);
        assert(!is_white(core[0]));
        let k = front.len() as int;
        assert(text[k] == core[0]);
        assert(!all_white(text));
    } else {
        assert(core =~= Seq::<char>::empty());
        assert(rest =~= back);
        if rest.len() > 0 {
            assert(is_white(back[0]));
        }
        assert(text =~= front);
    }
}

proof fn lemma_trim_start(text: Seq<char>) -> (front: Seq<char>)
    ensures
        text == front + trim_start(text),
        all_white(front),
        trim_start(text).len() > 0 ==> !is_white(trim_start(text)[0]),
    decreases text.len(),
{
    if text.len() > 0 && is_white(text[0]) {
        let rest = lemma_trim_start(text.skip(1));
        let front = seq![text[0]] + rest;
        let tail = trim_start(text.skip(1));
        assert(text =~= seq![text[0]] + text.skip(1));
        assert(seq![text[0]] + (rest + tail) =~= front + tail);
        assert(trim_start(text) == tail);
        assert forall|i: int| 0 <= i < front.len() implies is_white(#[trigger] front[i]) by {
            if i > 0 {
                assert(front[i] == rest[i - 1]);
            }
        }
        front
    } else {
        assert(text =~= Seq::<char>::empty() + text);
        Seq::<char>::empty()
    }
}

proof fn lemma_trim_end(text: Seq<char>) -> (back: Seq<char>)
    ensures
        text == trim_end(text) + back,
        all_white(back),
        trim_end(text).len() > 0 ==> !is_white(trim_end(text).last()),
    decreases text.len(),
{
    if text.len() > 0 && is_white(text.last()) {
        let rest = lemma_trim_end(text.drop_last());
        let back = rest.push(text.last());
        let head = trim_end(text.drop_last());
        assert(text =~= text.drop_last().push(text.last()));
        assert((head + rest).push(text.last()) =~= head + back);
        assert(trim_end(text) == head);
        assert forall|i: int| 0 <= i < back.len() implies is_white(#[trigger] back[i]) by {
            if i < rest.len() {
                assert(back[i] == rest[i]);
            }
        }
        back
    } else {
        assert(text =~= text + Seq::<char>::empty());
        Seq::<char>::empty()
    }
}

/// The characters of words.
pub open spec fn texts(words: Seq<String>) -> Seq<Seq<char>> {
    Seq::new(words.len(), |i: int| words[i]@)
}

/// The words of the command line are put together with blanks between them.
pub proof fn law_words_are_joined(words: Seq<String>)
    ensures
        joined(words) == glued(texts(words), ' '),
    decreases words.len(),
{
    reveal_strlit(" ");
    assert(" "@ =~= seq![' ']);
    if words.len() > 1 {
        law_words_are_joined(words.drop_last());
        assert(texts(words).drop_last() =~= texts(words.drop_last()));
    }
}

/// The filter is the text of the file where there is one, whatever the words are, and that must not
/// be blank. Else it is that of the words, and there is none where they are blank.
pub proof fn law_file_comes_before_words(text: Seq<char>, words: Seq<String>)
    ensures
        filter_text(Some(text), words) == (if all_white(text) {
            None
        } else {
            Some(Some(trimmed(text)))
        }),
        filter_text(None, words) == (if all_white(glued(texts(words), ' ')) {
            Some(None)
        } else {
            Some(Some(trimmed(glued(texts(words), ' '))))
        }),
{
    law_trimming(text);
    law_words_are_joined(words);
    law_trimming(joined(words));
}

/// Whether the line lists an instruction under its number.
pub open spec fn lists(line: Seq<char>, number: int, inst: Instruction) -> bool {
    exists|n: Seq<char>, code: Seq<char>, jt: Seq<char>, jf: Seq<char>, k: Seq<char>|
        {
            &&& #[trigger] is_number(n, number)
            &&& #[trigger] is_number(code, inst.code as int)
            &&& #[trigger] is_number(jt, inst.jt as int)
            &&& #[trigger] is_number(jf, inst.jf as int)
            &&& #[trigger] is_number(k, inst.k as int)
            &&& line == "  "@ + n + ": "@ + ("Instruction { code: "@ + code + ", jt: "@ + jt
                + ", jf: "@ + jf + ", k: "@ + k + " }"@)
        }
}

/// A listing has a line with the number of instructions, and one for each of them in their order,
/// counted from zero.
pub proof fn law_listing_shows_the_program(program: Seq<Instruction>)
    ensures
        exists|rows: Seq<Seq<char>>, n: Seq<char>|
            {
                &&& program_text(program) == #[trigger] stacked(rows)
                &&& rows.len() == program.len() + 1
                &&& #[trigger] is_number(n, program.len() as int)
                &&& rows[0] == "CBPF program ("@ + n + " instructions):"@
                &&& forall|i: int|
                    0 <= i < program.len() ==> lists(#[trigger] rows[i + 1], i, program[i])
            },
{
    let n = decimal(program.len());
    lemma_number(program.len());
    let head = "CBPF program ("@ + n + " instructions):"@;
    let lines = Seq::new(
        program.len(),
        |i: int| "  "@ + decimal(i as nat) + ": "@ + instruction_text(program[i]),
    );
    let rows = seq![head] + lines;
    assert forall|i: int| 0 <= i < program.len() implies lists(
        #[trigger] rows[i + 1],
        i,
        program[i],
    ) by {
        let inst = program[i];
        lemma_number(i as nat);
        lemma_number(inst.code as nat);
        lemma_number(inst.jt as nat);
        lemma_number(inst.jf as nat);
        lemma_number(inst.k as nat);
        assert(rows[i + 1] == lines[i]);
        assert(is_number(decimal(i as nat), i) && is_number(
            decimal(inst.code as nat),
            inst.code as int,
        ) && is_number(decimal(inst.jt as nat), inst.jt as int) && is_number(
            decimal(inst.jf as nat),
            inst.jf as int,
        ) && is_number(decimal(inst.k as nat), inst.k as int));
    }
    lemma_listing(program, program.len() as int, lines);
    assert(lines.take(program.len() as int) =~= lines);
    assert(rows.skip(1) =~= lines);
    reveal_strlit(" instructions):");
    reveal_strlit(" instructions):\n");
    assert(" instructions):\n"@ =~= " instructions):"@ + seq!['\n']);
    assert("CBPF program ("@ + n + (" instructions):"@ + seq!['\n']) =~= head + seq!['\n']);
    assert(program_text(program) == stacked(rows));
    assert(is_number(n, program.len() as int));
    assert(rows[0] == head);
}

proof fn lemma_listing(program: Seq<Instruction>, n: int, lines: Seq<Seq<char>>)
    requires
        0 <= n <= program.len(),
        lines == Seq::new(
            program.len(),
            |i: int| "  "@ + decimal(i as nat) + ": "@ + instruction_text(program[i]),
        ),
    ensures
        listing(program, n) == stacked(lines.take(n)),
    decreases n,
{
    if n > 0 {
        lemma_listing(program, n - 1, lines);
        lemma_stacked(lines.take(n - 1), lines[n - 1]);
        assert(lines.take(n) =~= lines.take(n - 1).push(lines[n - 1]));
        reveal_strlit("\n");
        assert("\n"@ =~= seq!['\n']);
        let front = listing(program, n - 1);
        let number = decimal((n - 1) as nat);
        let inst = instruction_text(program[n - 1]);
        assert(front + "  "@ + number + ": "@ + inst + "\n"@ =~= front + ("  "@ + number + ": "@
            + inst) + "\n"@);
    } else {
        assert(lines.take(0) =~= Seq::empty());
    }
}

/// A row more at the end.
proof fn lemma_stacked(rows: Seq<Seq<char>>, last: Seq<char>)
    ensures
        stacked(rows.push(last)) == stacked(rows) + last + seq!['\n'],
    decreases rows.len(),
{
    if rows.len() > 0 {
        lemma_stacked(rows.skip(1), last);
        assert(rows.push(last).skip(1) =~= rows.skip(1).push(last));
        let head = rows[0] + seq!['\n'];
        let rest = stacked(rows.skip(1));
        assert(stacked(rows.push(last)) == head + (rest + last + seq!['\n']));
        assert(head + (rest + last + seq!['\n']) =~= head + rest + last + seq!['\n']);
    } else {
        let none = rows.push(last).skip(1);
        assert(stacked(none) == Seq::<char>::empty());
        assert(stacked(rows) == Seq::<char>::empty());
        assert(rows.push(last)[0] == last);
        assert(stacked(rows.push(last)) =~= stacked(rows) + last + seq!['\n']);
    }
}

/// An interface is up where bit 0 of its flags is set, and bit 3, that of a loopback interface, is
/// not.
pub proof fn law_flags_of_interfaces(entry: InterfaceEntry)
    ensures
        entry.interface().is_up == (entry.flags % 2 == 1 && entry.flags / 8 % 2 == 0),
        entry.interface().name == entry.name@,
        entry.interface().ifindex == entry.ifindex,
{
    let flags = entry.flags;
    assert((flags & 0x1 != 0) == (flags % 2 == 1) && (flags & 0x8 == 0) == (flags / 8 % 2 == 0))
        by (bit_vector);
}

/// Whether the entry is the first one of its name.
pub open spec fn is_first(entries: Seq<InterfaceEntry>, i: int) -> bool {
    &&& 0 <= i < entries.len()
    &&& forall|j: int| 0 <= j < i ==> (#[trigger] entries[j]).name@ != entries[i].name@
}

/// Whether the interface is that of the first entry of its name.
pub open spec fn is_entered(entries: Seq<InterfaceEntry>, interface: Interface) -> bool {
    exists|i: int| #[trigger] is_first(entries, i) && interface == entries[i].interface()
}

/// The table holds the interface of the first entry of each name, and nothing else.
pub proof fn law_table_takes_first_entries(entries: Seq<InterfaceEntry>, interface: Interface)
    ensures
        table(entries).contains(interface) == is_entered(entries, interface),
{
    law_interface_table(entries);
    vstd::seq_lib::to_multiset_contains(table(entries), interface);
    vstd::seq_lib::to_multiset_contains(distinct(entries), interface);
    if is_entered(entries, interface) {
        let i = choose|i: int| #[trigger]
            is_first(entries, i) && interface == entries[i].interface();
        lemma_first_is_there(entries, i);
    }
    if distinct(entries).contains(interface) {
        let k = choose|k: int| 0 <= k < distinct(entries).len() && distinct(entries)[k] == interface;
        lemma_there_is_first(entries, k);
    }
}

proof fn lemma_there_is_first(entries: Seq<InterfaceEntry>, k: int)
    requires
        0 <= k < distinct(entries).len(),
    ensures
        is_entered(entries, distinct(entries)[k]),
    decreases entries.len(),
{
    let front = entries.drop_last();
    let last = entries.last().interface();
    let old = distinct(front);
    if k < old.len() {
        lemma_there_is_first(front, k);
        let i = choose|i: int| #[trigger] is_first(front, i) && old[k] == front[i].interface();
        assert(is_first(entries, i)) by {
            assert forall|j: int| 0 <= j < i implies (#[trigger] entries[j]).name@
                != entries[i].name@ by {
                assert(front[j].name@ != front[i].name@);
            }
        }
    } else {
        let end = entries.len() - 1;
        law_interface_table(front);
        assert(is_first(entries, end)) by {
            assert forall|j: int| 0 <= j < end implies (#[trigger] entries[j]).name@
                != entries[end].name@ by {
                assert(is_listed(old, front[j].name@));
            }
        }
    }
}

proof fn lemma_first_is_there(entries: Seq<InterfaceEntry>, i: int)
    requires
        is_first(entries, i),
    ensures
        distinct(entries).contains(entries[i].interface()),
    decreases entries.len(),
{
    let front = entries.drop_last();
    let last = entries.last().interface();
    let old = distinct(front);
    let new = distinct(entries);
    if i < front.len() {
        assert(is_first(front, i)) by {
            assert forall|j: int| 0 <= j < i implies (#[trigger] front[j]).name@
                != front[i].name@ by {
                assert(entries[j].name@ != entries[i].name@);
            }
        }
        lemma_first_is_there(front, i);
        let k = choose|k: int| 0 <= k < old.len() && old[k] == front[i].interface();
        assert(new[k] == old[k]);
    } else if is_listed(old, last.name) {
        let k = choose|k: int| 0 <= k < old.len() && (#[trigger] old[k]).name == last.name;
        lemma_there_is_first(front, k);
        let j = choose|j: int| #[trigger] is_first(front, j) && old[k] == front[j].interface();
        assert(entries[j].name@ == entries[i].name@);
    } else {
        assert(new[new.len() - 1] == last);
    }
}

/// Interfaces of the same index stay in the order of their entries.
pub proof fn law_equal_indices_keep_their_order(list: Seq<Interface>, i: int, j: int)
    requires
        0 <= i < j < list.len(),
        list[i].ifindex == list[j].ifindex,
    ensures
        stand_in_order(by_index(list), list[i], list[j]),
    decreases list.len(),
{
    let front = list.drop_last();
    let last = list.last();
    let old = by_index(front);
    let at = lemma_inserted_at(old, last);
    let new = by_index(list);
    if j < list.len() - 1 {
        law_equal_indices_keep_their_order(front, i, j);
        let (p, q) = choose|p: int, q: int|
            0 <= p < q < old.len() && #[trigger] old[p] == list[i] && #[trigger] old[q] == list[j];
        let p2 = if p < at {
            p
        } else {
            p + 1
        };
        let q2 = if q < at {
            q
        } else {
            q + 1
        };
        assert(new[p2] == list[i] && new[q2] == list[j]);
    } else {
        let p = lemma_is_there(front, i);
        assert(old[p].ifindex <= last.ifindex);
        assert(p < at);
        assert(new[p] == list[i] && new[at] == last);
    }
}

/// Whether one stands before the other.
pub open spec fn stand_in_order(list: Seq<Interface>, one: Interface, other: Interface) -> bool {
    exists|p: int, q: int|
        0 <= p < q < list.len() && #[trigger] list[p] == one && #[trigger] list[q] == other
}

/// An interface is put in behind all that have no greater index, where the others are in order.
proof fn lemma_inserted_at(list: Seq<Interface>, new: Interface) -> (at: int)
    ensures
        0 <= at <= list.len(),
        with_inserted(list, new) == list.insert(at, new),
        forall|k: int| at <= k < list.len() ==> (#[trigger] list[k]).ifindex > new.ifindex,
        at > 0 ==> list[at - 1].ifindex <= new.ifindex,
    decreases list.len(),
{
    if list.len() == 0 || list.last().ifindex <= new.ifindex {
        assert(list.push(new) =~= list.insert(list.len() as int, new));
        list.len() as int
    } else {
        let at = lemma_inserted_at(list.drop_last(), new);
        assert(list.drop_last().insert(at, new).push(list.last()) =~= list.insert(at, new));
        assert forall|k: int| at <= k < list.len() implies (#[trigger] list[k]).ifindex
            > new.ifindex by {
            if k < list.len() - 1 {
                assert(list[k] == list.drop_last()[k]);
            }
        }
        at
    }
}

/// An interface of a list is among those in the order of their indices.
proof fn lemma_is_there(list: Seq<Interface>, i: int) -> (p: int)
    requires
        0 <= i < list.len(),
    ensures
        0 <= p < by_index(list).len(),
        by_index(list)[p] == list[i],
    decreases list.len(),
{
    let front = list.drop_last();
    let old = by_index(front);
    let at = lemma_inserted_at(old, list.last());
    if i < front.len() {
        let p = lemma_is_there(front, i);
        if p < at {
            p
        } else {
            p + 1
        }
    } else {
        at
    }
}

/// A star for an interface that is up.
pub open spec fn star(is_up: bool) -> Seq<char> {
    if is_up {
        seq!['*']
    } else {
        seq![]
    }
}

/// The line of an interface shows its index, its name, and a star where it is up.
pub proof fn law_interface_line(interface: Interface)
    ensures
        interface.ifindex >= 0 ==> exists|n: Seq<char>|
            #[trigger] is_number(n, interface.ifindex as int) && interface_text(interface) == n
                + seq!['.', ' '] + interface.name + star(interface.is_up),
        interface.ifindex < 0 ==> exists|n: Seq<char>|
            #[trigger] is_number(n, -interface.ifindex) && interface_text(interface) == seq!['-']
                + n + seq!['.', ' '] + interface.name + star(interface.is_up),
{
    let size: int = if interface.ifindex < 0 {
        -interface.ifindex
    } else {
        interface.ifindex as int
    };
    lemma_number(size as nat);
    let n = decimal(size as nat);
    reveal_strlit("-");
    reveal_strlit(". ");
    reveal_strlit("*");
    reveal_strlit("");
    assert("-"@ =~= seq!['-']);
    assert(". "@ =~= seq!['.', ' ']);
    assert("*"@ =~= seq!['*']);
    assert(""@ =~= Seq::<char>::empty());
    assert(Seq::<char>::empty() + n =~= n);
    assert(is_number(n, size));
}

/// A frame goes out where its source is the MAC address of the interface, and comes in where it is
/// not.
pub proof fn law_direction_by_source(
    incoming: String,
    outgoing: String,
    mac: [u8; 6],
    data: Seq<u8>,
)
    requires
        incoming@ == seq!['i', 'n'],
        outgoing@ == seq!['o', 'u', 't'],
        data.len() >= 14,
    ensures
        has_direction(Some(incoming), Some(mac), data) == exists|i: int|
            0 <= i < 6 && data[6 + i] != #[trigger] mac@[i],
        has_direction(Some(outgoing), Some(mac), data) == forall|i: int|
            0 <= i < 6 ==> data[6 + i] == #[trigger] mac@[i],
{
    reveal_strlit("in");
    reveal_strlit("out");
    assert("in"@ =~= seq!['i', 'n']);
    assert("out"@ =~= seq!['o', 'u', 't']);
    assert(seq!['i', 'n'].len() != seq!['o', 'u', 't'].len());
    let src = data.subrange(6, 12);
    assert(mac@.len() == 6);
    if comes_from(data, mac@) {
        assert forall|i: int| 0 <= i < 6 implies data[6 + i] == #[trigger] mac@[i] by {
            assert(src[i] == mac@[i]);
        }
    } else {
        assert(exists|i: int| 0 <= i < 6 && data[6 + i] != #[trigger] mac@[i]) by {
            if forall|i: int| 0 <= i < 6 ==> data[6 + i] == #[trigger] mac@[i] {
                assert(src =~= mac@);
            }
        }
    }
}

/// A run says at its end how many packets it has taken.
pub proof fn law_summary_counts(captured: usize)
    ensures
        exists|n: Seq<char>|
            #[trigger] is_number(n, captured as int) && summary_text(captured) == "captured "@ + n
                + " packets"@,
{
    lemma_number(captured as nat);
    assert(is_number(decimal(captured as nat), captured as int));
}

/// A packet is saved with its time in nanoseconds and its length on the wire, of which a record has
/// the low 32 bits, and a saved one has its time in whole microseconds.
pub proof fn law_records_hold_nanoseconds(meta: PacketMeta, record: Record, ifindex: i32, len: nat)
    requires
        meta.ts_usec * 1000 <= u64::MAX,
        meta.orig_len <= u64::MAX,
        len <= usize::MAX,
    ensures
        record_of(meta).sec == meta.ts_sec,
        record_of(meta).nanos == (meta.ts_usec * 1000) % 0x1_0000_0000,
        record_of(meta).orig_len == meta.orig_len as int % 0x1_0000_0000,
        saved_meta(record, ifindex, len).ts_sec == record.sec,
        saved_meta(record, ifindex, len).ts_usec * 1000 <= record.nanos,
        record.nanos < saved_meta(record, ifindex, len).ts_usec * 1000 + 1000,
        saved_meta(record, ifindex, len).ifindex == ifindex,
        saved_meta(record, ifindex, len).cap_len == len,
        saved_meta(record, ifindex, len).orig_len == record.orig_len,
{
    lemma_low_bits((meta.ts_usec * 1000) as nat);
    lemma_low_bits(meta.orig_len as nat);
}

/// The fields of a packet are those of its headers: the addresses are the numbers in their octets.
pub proof fn law_fields_are_those_of_the_headers(
    packet: Seq<u8>,
    protocol: u8,
    s4: [u8; 4],
    d4: [u8; 4],
    s6: [u8; 16],
    d6: [u8; 16],
    ports: Option<(u16, u16)>,
)
    ensures
        info_of(packet, Some((NetHeader::Ipv4(protocol, s4, d4), ports))) matches Some(info) && {
            &&& info.ethertype == Some(field(packet, 12, 2) as u16)
            &&& info.protocol == Some(protocol)
            &&& info.src_ip matches Some(IpAddr::V4(a)) && a.bits == big_endian(s4@)
            &&& info.dst_ip matches Some(IpAddr::V4(a)) && a.bits == big_endian(d4@)
            &&& ports matches Some((src, dst)) ==> info.src_port == Some(src) && info.dst_port
                == Some(dst)
            &&& ports is None ==> info.src_port is None && info.dst_port is None
        },
        info_of(packet, Some((NetHeader::Ipv6(protocol, s6, d6), ports))) matches Some(info) && {
            &&& info.ethertype == Some(field(packet, 12, 2) as u16)
            &&& info.protocol == Some(protocol)
            &&& info.src_ip matches Some(IpAddr::V6(a)) && a.bits == big_endian(s6@)
            &&& info.dst_ip matches Some(IpAddr::V6(a)) && a.bits == big_endian(d6@)
            &&& ports matches Some((src, dst)) ==> info.src_port == Some(src) && info.dst_port
                == Some(dst)
            &&& ports is None ==> info.src_port is None && info.dst_port is None
        },
        info_of(packet, Some((NetHeader::Other, ports))) is None,
        info_of(packet, None::<Headers>) is None,
{
    law_reads_are_big_endian(packet, 12);
    law_addresses_are_big_endian(s4@);
    law_addresses_are_big_endian(d4@);
    law_addresses_are_big_endian(s6@);
    law_addresses_are_big_endian(d6@);
}

/// A ring is read block by block: a block is awaited, its frames are read at their offsets while
/// there are some, and it is given back.
pub proof fn law_ring_steps(ring: RingCursor)
    ensures
        ring.cursor() is None ==> ring.step() == (RingStep::AwaitBlock { block: ring.block() }),
        ring.cursor() matches Some(cursor) ==> cursor.seen < cursor.num_pkts ==> ring.step() == (
        RingStep::ReadFrame { block: ring.block(), offset: cursor.next_offset }),
        ring.cursor() matches Some(cursor) ==> cursor.seen >= cursor.num_pkts ==> ring.step() == (
        RingStep::ReleaseBlock { block: ring.block() }),
{
}

/// A filter that is prepared decides of every packet as its expression does. Without a filter there
/// is no program, and nothing to be listed. A text that is no filter is refused.
pub proof fn law_prepared_filter_decides(
    text: Seq<char>,
    dump: bool,
    result: Result<Prepared, NetdumpError>,
    packet: Seq<u8>,
)
    requires
        is_prepared(Some(text), dump, result),
    ensures
        expr_of(text) is Err ==> result is Err,
        expr_of(text) matches Ok(expr) ==> {
            &&& !compilable(expr) ==> result is Err
            &&& compilable(expr) && !dump ==> (result matches Ok(Prepared::Program(Some(program)))
                && accepts(program@, packet) == holds(expr, packet))
            &&& compilable(expr) && dump ==> (result matches Ok(Prepared::Listing(listing))
                && listing@ == program_text(program_of(code_of(expr))))
        },
{
    if let Ok(expr) = expr_of(text) {
        if compilable(expr) {
            law_compiled_filter_decides(expr, packet);
        }
    }
}

/// Without a filter there is no program, and it is an error to ask for its listing.
pub proof fn law_nothing_to_prepare(dump: bool, result: Result<Prepared, NetdumpError>)
    requires
        is_prepared(None, dump, result),
    ensures
        dump ==> result is Err,
        !dump ==> result matches Ok(Prepared::Program(None)),
{
}

/// Packets are taken by their direction alone where there is no filter, or where the kernel has
/// applied it already.
pub proof fn law_selection_without_filter(selection: Selection, data: Seq<u8>)
    requires
        selection.program is None || selection.kernel_filtered,
    ensures
        selection.selects(data) == has_direction(selection.direction, selection.mac, data),
{
}

/// Any direction passes where none is asked for, where the address of the interface is not known,
/// and where the frame is too short to tell.
pub proof fn law_direction_is_unknown(
    direction: Option<String>,
    mac: Option<[u8; 6]>,
    data: Seq<u8>,
)
    requires
        direction is None || mac is None || data.len() < 14,
    ensures
        has_direction(direction, mac, data),
{
}

/// Packets are numbered from one on, and the first one is printed as being no time behind itself.
pub proof fn law_first_packet_starts_the_clock(session: Session, meta: PacketMeta)
    requires
        session.wf(),
        session.captured < usize::MAX,
        meta.ts_sec <= i64::MAX,
        meta.ts_usec <= i64::MAX,
    ensures
        session.next_ctx(meta).num == session.captured + 1,
        session.captured == 0 ==> stamp_text(5, meta, session.next_ctx(meta)) == delta_text(0),
        session.captured > 0 ==> session.next_ctx(meta).first_ts == session.ctx.first_ts,
        session.next_ctx(meta).prev_ts == session.ctx.prev_ts,
{
}

/// A packet that is not printed is counted, and changes nothing that times are measured from.
pub proof fn law_silent_packets_are_counted(
    session: Session,
    meta: PacketMeta,
    output: OutputArgs,
)
    requires
        session.wf(),
        session.captured < usize::MAX,
        output.write,
        !output.print,
    ensures
        !output.prints(),
        session.behind(meta, output).captured == session.captured + 1,
        session.behind(meta, output).ctx.num == session.captured + 1,
        session.behind(meta, output).ctx.prev_ts == session.ctx.prev_ts,
        session.behind(meta, output).ctx.first_ts == session.ctx.first_ts,
{
}

/// Packets are printed unless they are written to a file, and even so where that is asked for.
pub proof fn law_when_packets_are_printed(output: OutputArgs)
    ensures
        !output.write ==> output.prints(),
        output.print ==> output.prints(),
        output.prints() ==> !output.write || output.print,
{
}

/// Where nothing else is asked for, 65535 bytes of a packet are captured, in a ring of 64 blocks of
/// a mebibyte each. A name of an interface has fewer than 16 bytes.
pub proof fn law_defaults()
    ensures
        DEFAULT_SNAPLEN == 65535,
        DEFAULT_BLOCK_SIZE == 1024 * 1024,
        DEFAULT_BLOCK_NR == 64,
        DEFAULT_FRAME_SIZE == 2048,
        DEFAULT_RETIRE_TOV_MS == 100,
        IFNAMSIZ == 16,
{
}

} // verus!
