//! Every text of the grammar is read, as the expression whose form it has.

use vstd::prelude::*;

use crate::ast::{Direction, Expr, HostAddr, NetAddr, RelOp};
use crate::grammar::{
    ands, filter, is_key, leads, lemma_ands, lemma_enclosed, lemma_filter, lemma_keys,
    lemma_keyword, lemma_leads, lemma_letters, lemma_negation, lemma_no_more_ands,
    lemma_no_more_ors, lemma_one_more_and, lemma_one_more_or, lemma_toward, lemma_unnested,
    more_ands, more_ors, operand, primary, proto_word, qualified, reads, same_word, spelled,
    toward_words,
};
use crate::lexemes::{is_lexeme, lexed};
use crate::lexer::{is_keyword, is_kind, kind_of, token_text, tokens, Kind, Token};
use crate::notation::{glued, law_glued_parts_come_apart};
use crate::numerals::{digit_worth, is_numeral, law_digits_are_read, law_hex_digits_are_read};
use crate::parser::{
    and_goes_on, expr_of, is_ip, is_mac_at, is_number_at, looks_like_mac, looks_like_octet,
    read_ether, read_len, read_predicate, read_shortcut, Outcome,
};
use crate::precedence::{lemma_address_at, lemma_masks_follow, lemma_slash_follows, masks, slashes};
use crate::readings::{law_numbers_are_read, law_operators_are_read, law_prefixes_are_read};
use crate::syntax::{
    and_form, behind, counts, law_only_the_grammar_is_read, law_text_is_its_words, mac_form, names,
    not_form, or_form, predicate_form, primary_form, says, words_in,
};
use crate::text::{is_hex_digit, lower, lower_all};
use crate::values::{address_mask, default_mask, host_of, net_of, NetMask};

verus! {

/// A keyword that a word says is found there, and no other one is.
proof fn lemma_said(
    chars: Seq<char>,
    found: Seq<Token>,
    words: Seq<Seq<char>>,
    i: int,
    key: Seq<char>,
)
    requires
        lexed(chars, found, words),
        says(words, i, key),
        is_key(key),
    ensures
        is_kind(found, i, Kind::Word),
        forall|other: Seq<char>| #[trigger]
            is_keyword(chars, found, i, other) == (other == key),
{
    if key.contains(':') {
        let k = choose|k: int| 0 <= k < key.len() && key[k] == ':';
        assert(crate::grammar::is_key_char(key[k]));
    }
    assert(same_word(words[i], key));
    lemma_keyword(chars, found, words, i, key);
}

/// What follows a direction that is named is read in that direction.
proof fn lemma_led(
    chars: Seq<char>,
    found: Seq<Token>,
    words: Seq<Seq<char>>,
    i: int,
    j: int,
    dir: Direction,
    key: Seq<char>,
) -> (at: int)
    requires
        lexed(chars, found, words),
        0 <= i < j <= words.len(),
        names(words.subrange(i, j), dir),
        says(behind(words.subrange(i, j), dir), 0, key),
        key == "host"@ || key == "port"@ || key == "portrange"@ || key == "net"@,
    ensures
        i <= at < j,
        leads(chars, found, i, at, dir),
        forall|other: Seq<char>| #[trigger]
            is_keyword(chars, found, at, other) == (other == key),
        behind(words.subrange(i, j), dir) == words.subrange(at, j),
{
    let part = words.subrange(i, j);
    let at = if dir is Any {
        i
    } else {
        i + 1
    };
    lemma_keys();
    assert(behind(part, dir) =~= words.subrange(at, j));
    let rest = words.subrange(at + 1, j);
    let all = seq![key] + rest;
    let asked = toward_words(dir, all);
    assert(words.subrange(at, j)[0] == words[at]);
    lemma_key_has_no_colon(key);
    lemma_key_has_no_colon("src"@);
    lemma_key_has_no_colon("dst"@);
    assert(same_word(words[at], key));
    assert(spelled(words, i, asked)) by {
        assert forall|k: int| 0 <= k < asked.len() implies same_word(
            words[i + k],
            #[trigger] asked[k],
        ) by {
            let m = k - (at - i);
            if m > 0 {
                assert(asked[k] == rest[m - 1]);
                assert(rest[m - 1] == words[i + k]);
            } else if m == 0 {
                assert(asked[k] == key);
            } else {
                assert(part[0] == words[i]);
            }
        }
    }
    lemma_toward(chars, found, words, i, dir, key, rest)
}

proof fn lemma_key_has_no_colon(key: Seq<char>)
    requires
        is_key(key),
    ensures
        !key.contains(':'),
{
    if key.contains(':') {
        let k = choose|k: int| 0 <= k < key.len() && key[k] == ':';
        assert(crate::grammar::is_key_char(key[k]));
    }
}

proof fn lemma_counted(
    chars: Seq<char>,
    found: Seq<Token>,
    words: Seq<Seq<char>>,
    i: int,
    n: int,
)
    requires
        lexed(chars, found, words),
        0 <= i < words.len(),
        counts(words[i], n),
    ensures
        is_number_at(chars, found, i),
        token_text(chars, found, i) == words[i],
{
    law_digits_are_read(words[i]);
    assert(digit_worth(words[i][0]) < 10);
    assert(found[i].kind == kind_of(words[i][0]));
}

/// Whether what stands behind a predicate does not belong to it.
pub open spec fn is_apart(words: Seq<Seq<char>>, j: int) -> bool {
    0 <= j < words.len() ==> words[j] != seq!['/'] && lower_all(words[j]) != "mask"@
}

proof fn lemma_host_read(
    chars: Seq<char>,
    found: Seq<Token>,
    words: Seq<Seq<char>>,
    i: int,
    j: int,
    addr: HostAddr,
    dir: Direction,
)
    requires
        lexed(chars, found, words),
        0 <= i < j <= words.len(),
        predicate_form(words.subrange(i, j), Expr::Host { addr, dir }),
    ensures
        reads(chars, found, i, Expr::Host { addr, dir }, j),
{
    let at = lemma_led(chars, found, words, i, j, dir, "host"@);
    let rest = words.subrange(at, j);
    assert(rest[1] == words[at + 1]);
    lemma_address_at(chars, found, words, at + 1);
    assert(qualified(chars, found, at, dir, Expr::Host { addr, dir }, at + 2)) by {
        reveal(qualified);
    }
    lemma_leads(chars, found, i, at, dir, Expr::Host { addr, dir }, j);
}

proof fn lemma_port_read(
    chars: Seq<char>,
    found: Seq<Token>,
    words: Seq<Seq<char>>,
    i: int,
    j: int,
    port: u16,
    dir: Direction,
)
    requires
        lexed(chars, found, words),
        0 <= i < j <= words.len(),
        predicate_form(words.subrange(i, j), Expr::Port { port, dir }),
    ensures
        reads(chars, found, i, Expr::Port { port, dir }, j),
{
    let at = lemma_led(chars, found, words, i, j, dir, "port"@);
    let rest = words.subrange(at, j);
    assert(rest[1] == words[at + 1]);
    lemma_counted(chars, found, words, at + 1, port as int);
    law_numbers_are_read(words[at + 1], 65535, "invalid port: "@);
    assert(qualified(chars, found, at, dir, Expr::Port { port, dir }, at + 2)) by {
        reveal(qualified);
        lemma_letters();
    }
    lemma_leads(chars, found, i, at, dir, Expr::Port { port, dir }, j);
}

proof fn lemma_portrange_read(
    chars: Seq<char>,
    found: Seq<Token>,
    words: Seq<Seq<char>>,
    i: int,
    j: int,
    start: u16,
    end: u16,
    dir: Direction,
)
    requires
        lexed(chars, found, words),
        0 <= i < j <= words.len(),
        predicate_form(words.subrange(i, j), Expr::PortRange { start, end, dir }),
    ensures
        reads(chars, found, i, Expr::PortRange { start, end, dir }, j),
{
    let at = lemma_led(chars, found, words, i, j, dir, "portrange"@);
    let rest = words.subrange(at, j);
    assert(rest[1] == words[at + 1] && rest[2] == words[at + 2] && rest[3] == words[at + 3]);
    lemma_counted(chars, found, words, at + 1, start as int);
    lemma_counted(chars, found, words, at + 3, end as int);
    assert(found[at + 2].kind == kind_of(words[at + 2][0]));
    law_numbers_are_read(words[at + 1], 65535, "invalid number: "@);
    law_numbers_are_read(words[at + 3], 65535, "invalid number: "@);
    assert(qualified(chars, found, at, dir, Expr::PortRange { start, end, dir }, at + 4)) by {
        reveal(qualified);
        lemma_letters();
    }
    lemma_leads(chars, found, i, at, dir, Expr::PortRange { start, end, dir }, j);
}

proof fn lemma_prefix_expr(
    word: Seq<char>,
    number: Seq<char>,
    host: HostAddr,
    p: u8,
    addr: NetAddr,
    dir: Direction,
)
    requires
        host_of(word) == Ok::<HostAddr, Seq<char>>(host),
        counts(number, p as int),
        p <= (if host is V4 {
            32int
        } else {
            128
        }),
        net_of(host, NetMask::Prefix(p)) == Ok::<NetAddr, Seq<char>>(addr),
    ensures
        slashes(word, number, dir, Expr::Net { addr, dir }),
{
    reveal(slashes);
    match host {
        HostAddr::V4(a) => {
            law_prefixes_are_read(number, a, crate::addr::Ipv6Addr { bits: 0 });
        },
        HostAddr::V6(a) => {
            law_prefixes_are_read(number, crate::addr::Ipv4Addr { bits: 0 }, a);
        },
    }
}

proof fn lemma_mask_expr(
    word: Seq<char>,
    mask: Seq<char>,
    host: HostAddr,
    addr: NetAddr,
    dir: Direction,
)
    requires
        host_of(word) == Ok::<HostAddr, Seq<char>>(host),
        address_mask(mask, host) matches Ok(m) && net_of(host, m) == Ok::<NetAddr, Seq<char>>(addr),
    ensures
        masks(word, mask, dir, Expr::Net { addr, dir }),
        host_of(mask) is Ok,
{
    reveal(masks);
}

proof fn lemma_class_read(
    chars: Seq<char>,
    found: Seq<Token>,
    at: int,
    dir: Direction,
    host: HostAddr,
    addr: NetAddr,
)
    requires
        forall|other: Seq<char>| #[trigger]
            is_keyword(chars, found, at, other) == (other == "net"@),
        is_ip(chars, found, at + 1),
        !is_kind(found, at + 2, Kind::Slash),
        !is_keyword(chars, found, at + 2, "mask"@),
        host_of(token_text(chars, found, at + 1)) == Ok::<HostAddr, Seq<char>>(host),
        net_of(host, default_mask(host)) == Ok::<NetAddr, Seq<char>>(addr),
    ensures
        qualified(chars, found, at, dir, Expr::Net { addr, dir }, at + 2),
{
    reveal(qualified);
    lemma_letters();
}

#[verifier::rlimit(40)]
proof fn lemma_net_read(
    chars: Seq<char>,
    found: Seq<Token>,
    words: Seq<Seq<char>>,
    i: int,
    j: int,
    addr: NetAddr,
    dir: Direction,
)
    requires
        lexed(chars, found, words),
        0 <= i < j <= words.len(),
        is_apart(words, j),
        forall|k: int| 0 <= k < words.len() ==> is_lexeme(#[trigger] words[k]),
        predicate_form(words.subrange(i, j), Expr::Net { addr, dir }),
    ensures
        reads(chars, found, i, Expr::Net { addr, dir }, j),
{
    let at = lemma_led(chars, found, words, i, j, dir, "net"@);
    let rest = words.subrange(at, j);
    let expr = Expr::Net { addr, dir };
    assert(rest[1] == words[at + 1]);
    lemma_address_at(chars, found, words, at + 1);
    let host = host_of(words[at + 1])->Ok_0;
    if rest.len() == 2 {
        if at + 2 < words.len() {
            assert(found[at + 2].kind == kind_of(words[at + 2][0]));
            assert(is_lexeme(words[at + 2]));
            if is_kind(found, at + 2, Kind::Slash) {
                assert(words[at + 2] =~= seq!['/']);
            }
        }
        lemma_class_read(chars, found, at, dir, host, addr);
    } else {
        assert(rest[2] == words[at + 2] && rest[3] == words[at + 3]);
        assert(found[at + 2].kind == kind_of(words[at + 2][0]));
        if words[at + 2] == seq!['/'] && exists|p: u8|
            #[trigger] counts(words[at + 3], p as int) && p <= (if host is V4 {
                32int
            } else {
                128
            }) && net_of(host, NetMask::Prefix(p)) == Ok::<NetAddr, Seq<char>>(addr) {
            let p = choose|p: u8|
                #[trigger] counts(words[at + 3], p as int) && p <= (if host is V4 {
                    32int
                } else {
                    128
                }) && net_of(host, NetMask::Prefix(p)) == Ok::<NetAddr, Seq<char>>(addr);
            lemma_prefix_expr(words[at + 1], words[at + 3], host, p, addr, dir);
            lemma_counted(chars, found, words, at + 3, p as int);
            lemma_slash_follows(chars, found, at, dir, expr);
        } else {
            lemma_mask_expr(words[at + 1], words[at + 3], host, addr, dir);
            lemma_keys();
            assert(says(words, at + 2, "mask"@));
            lemma_said(chars, found, words, at + 2, "mask"@);
            lemma_address_at(chars, found, words, at + 3);
            lemma_masks_follow(chars, found, at, dir, expr);
        }
    }
    lemma_leads(chars, found, i, at, dir, expr, j);
}

/// A MAC address is found where it is written, and is no keyword.
proof fn lemma_mac_read(chars: Seq<char>, found: Seq<Token>, words: Seq<Seq<char>>, i: int)
    requires
        lexed(chars, found, words),
        0 <= i < words.len(),
        mac_form(words[i]),
    ensures
        is_mac_at(chars, found, i),
        token_text(chars, found, i) == words[i],
        forall|key: Seq<char>|
            is_key(key) ==> !#[trigger] is_keyword(chars, found, i, key),
{
    let text = words[i];
    let parts = choose|parts: Seq<Seq<char>>|
        text == #[trigger] glued(parts, ':') && parts.len() == 6 && forall|k: int|
            0 <= k < 6 ==> is_numeral(#[trigger] parts[k], 16) && parts[k].len() <= 2;
    assert forall|k: int| 0 <= k < 6 implies looks_like_octet(#[trigger] parts[k])
        && !parts[k].contains(':') by {
        let part = parts[k];
        law_hex_digits_are_read(part);
        assert forall|j: int| 0 <= j < part.len() implies is_hex_digit(#[trigger] part[j]) by {
            assert(digit_worth(part[j]) < 16);
        }
        if part.contains(':') {
            let j = choose|j: int| 0 <= j < part.len() && part[j] == ':';
            assert(is_hex_digit(part[j]));
        }
    }
    law_glued_parts_come_apart(parts, ':');
    assert(looks_like_mac(text));
    assert(found[i].kind == kind_of(text[0]));
    let front = glued(parts.drop_last(), ':');
    assert(text == front + seq![':'] + parts.last());
    let colon = front.len() as int;
    assert(text[colon] == ':');
    crate::precedence::lemma_numerals_glued(parts);
    assert(crate::precedence::is_address_char(text[0]));
    assert forall|key: Seq<char>| is_key(key) implies !#[trigger] is_keyword(
        chars,
        found,
        i,
        key,
    ) by {
        if is_keyword(chars, found, i, key) {
            assert(lower_all(text)[colon] == lower(text[colon]));
            assert(key[colon] == ':');
            assert(crate::grammar::is_key_char(key[colon]));
        }
    }
}

#[verifier::rlimit(40)]
proof fn lemma_ether_read(
    chars: Seq<char>,
    found: Seq<Token>,
    words: Seq<Seq<char>>,
    i: int,
    j: int,
    addr: Seq<u8>,
    dir: Direction,
)
    requires
        lexed(chars, found, words),
        0 <= i < j <= words.len(),
        predicate_form(words.subrange(i, j), Expr::EtherHost { addr, dir }),
    ensures
        reads(chars, found, i, Expr::EtherHost { addr, dir }, j),
{
    let part = words.subrange(i, j);
    let rest = behind(part.skip(1), dir);
    let expr = Expr::EtherHost { addr, dir };
    lemma_keys();
    lemma_letters();
    assert(part[0] == words[i]);
    lemma_said(chars, found, words, i, "ether"@);
    let at = if dir is Any {
        i + 1
    } else {
        i + 2
    };
    assert(rest =~= words.subrange(at, j));
    assert(rest[0] == words[at]);
    assert(rest.last() == words[j - 1]);
    lemma_mac_read(chars, found, words, j - 1);
    if !(dir is Any) {
        assert(part.skip(1)[0] == words[i + 1]);
        lemma_said(
            chars,
            found,
            words,
            i + 1,
            if dir is Src {
                "src"@
            } else {
                "dst"@
            },
        );
    }
    if rest.len() == 2 {
        lemma_said(chars, found, words, at, "host"@);
    }
    assert(read_ether(chars, found, i + 1) == Outcome::Done(Ok(expr), j));
    assert(reads(chars, found, i, expr, j)) by {
        reveal(reads);
    }
}

#[verifier::rlimit(40)]
proof fn lemma_len_read(
    chars: Seq<char>,
    found: Seq<Token>,
    words: Seq<Seq<char>>,
    i: int,
    j: int,
    op: RelOp,
    len: u32,
)
    requires
        lexed(chars, found, words),
        0 <= i < j <= words.len(),
        predicate_form(words.subrange(i, j), Expr::Len { op, len }),
    ensures
        reads(chars, found, i, Expr::Len { op, len }, j),
{
    let part = words.subrange(i, j);
    let expr = Expr::Len { op, len };
    lemma_keys();
    lemma_letters();
    assert(part[0] == words[i] && part[1] == words[i + 1]);
    if part.len() == 3 {
        assert(part[2] == words[i + 2]);
        lemma_said(chars, found, words, i, "len"@);
        law_operators_are_read(words[i + 1]);
        assert(found[i + 1].kind == kind_of(words[i + 1][0]));
        lemma_counted(chars, found, words, i + 2, len as int);
        law_numbers_are_read(words[i + 2], u32::MAX as nat, "invalid number: "@);
        assert(read_len(chars, found, i + 1) == Outcome::Done(Ok(expr), j));
    } else {
        lemma_said(
            chars,
            found,
            words,
            i,
            if op == RelOp::Gt {
                "greater"@
            } else {
                "less"@
            },
        );
        lemma_counted(chars, found, words, i + 1, len as int);
        law_numbers_are_read(words[i + 1], u32::MAX as nat, "invalid number: "@);
        assert(read_shortcut(chars, found, i + 1, op) == Outcome::Done(Ok(expr), j));
    }
    assert(reads(chars, found, i, expr, j)) by {
        reveal(reads);
    }
}

proof fn lemma_proto_read(
    chars: Seq<char>,
    found: Seq<Token>,
    words: Seq<Seq<char>>,
    i: int,
    j: int,
    expr: Expr,
)
    requires
        lexed(chars, found, words),
        0 <= i < j <= words.len(),
        expr is Proto,
        predicate_form(words.subrange(i, j), expr),
    ensures
        reads(chars, found, i, expr, j),
{
    let proto = expr->Proto_0;
    let key = proto_word(proto);
    lemma_keys();
    lemma_letters();
    assert(words.subrange(i, j)[0] == words[i]);
    lemma_said(chars, found, words, i, key);
    reveal(reads);
    assert(read_predicate(chars, found, i) == Outcome::Done(Ok(expr), i + 1));
}

/// Whether the words are words and signs.
pub open spec fn are_words(words: Seq<Seq<char>>) -> bool {
    forall|k: int| 0 <= k < words.len() ==> is_lexeme(#[trigger] words[k])
}

/// A predicate is read where its form stands.
proof fn lemma_predicate_read(
    chars: Seq<char>,
    found: Seq<Token>,
    words: Seq<Seq<char>>,
    i: int,
    j: int,
    expr: Expr,
)
    requires
        lexed(chars, found, words),
        are_words(words),
        0 <= i < j <= words.len(),
        is_apart(words, j),
        predicate_form(words.subrange(i, j), expr),
    ensures
        reads(chars, found, i, expr, j),
{
    match expr {
        Expr::Proto(_) => lemma_proto_read(chars, found, words, i, j, expr),
        Expr::Host { addr, dir } => lemma_host_read(chars, found, words, i, j, addr, dir),
        Expr::Port { port, dir } => lemma_port_read(chars, found, words, i, j, port, dir),
        Expr::PortRange { start, end, dir } => lemma_portrange_read(
            chars,
            found,
            words,
            i,
            j,
            start,
            end,
            dir,
        ),
        Expr::EtherHost { addr, dir } => lemma_ether_read(chars, found, words, i, j, addr, dir),
        Expr::Net { addr, dir } => lemma_net_read(chars, found, words, i, j, addr, dir),
        Expr::Len { op, len } => lemma_len_read(chars, found, words, i, j, op, len),
        _ => {},
    }
}

/// Whether a word can stand at the beginning of an operand.
pub open spec fn starts(word: Seq<char>) -> bool {
    &&& word != seq!['/']
    &&& word != seq![')']
    &&& lower_all(word) != "or"@
    &&& lower_all(word) != "and"@
    &&& lower_all(word) != "mask"@
}

proof fn lemma_key_starts(word: Seq<char>, key: Seq<char>)
    requires
        lower_all(word) == key,
        is_key(key),
        key != "or"@,
        key != "and"@,
        key != "mask"@,
    ensures
        starts(word),
{
    assert(crate::grammar::is_key_char(key[0]));
    assert(lower_all(word)[0] == lower(word[0]));
}

proof fn lemma_paren_starts(word: Seq<char>)
    requires
        word == seq!['('],
    ensures
        starts(word),
{
    lemma_keys();
    assert(lower_all(word)[0] == '(');
    assert(crate::grammar::is_key_char("or"@[0]) && crate::grammar::is_key_char("and"@[0])
        && crate::grammar::is_key_char("mask"@[0]));
    assert(word[0] == '(' && seq!['/'][0] == '/' && seq![')'][0] == ')');
}

proof fn lemma_predicate_starts(words: Seq<Seq<char>>, expr: Expr)
    requires
        predicate_form(words, expr),
    ensures
        words.len() > 0,
        starts(words[0]),
{
    lemma_keys();
    lemma_letters();
    let key = lower_all(words[0]);
    assert(words.len() > 0 && is_key(key) && key != "or"@ && key != "and"@ && key != "mask"@) by {
        match expr {
            Expr::Proto(proto) => {},
            Expr::Host { addr, dir } => {},
            Expr::Port { port, dir } => {},
            Expr::PortRange { start, end, dir } => {},
            Expr::EtherHost { addr, dir } => {},
            Expr::Net { addr, dir } => {},
            Expr::Len { op, len } => {},
            _ => {},
        }
    }
    lemma_key_starts(words[0], key);
}

proof fn lemma_operand_starts(words: Seq<Seq<char>>, expr: Expr)
    requires
        not_form(words, expr),
    ensures
        words.len() > 0,
        starts(words[0]),
{
    lemma_keys();
    lemma_letters();
    if words.len() > 1 && says(words, 0, "not"@) {
        lemma_key_starts(words[0], "not"@);
    } else {
        assert(primary_form(words, expr));
        if predicate_form(words, expr) {
            lemma_predicate_starts(words, expr);
        } else {
            lemma_paren_starts(words[0]);
        }
    }
}

/// Where an operand starts, the operands of `and` go on, and it is apart from what stands before.
proof fn lemma_start_goes_on(
    chars: Seq<char>,
    found: Seq<Token>,
    words: Seq<Seq<char>>,
    i: int,
)
    requires
        lexed(chars, found, words),
        are_words(words),
        0 <= i < words.len(),
        starts(words[i]),
    ensures
        and_goes_on(chars, found, i),
        !is_keyword(chars, found, i, "and"@),
        is_apart(words, i),
{
    assert(found[i].kind == kind_of(words[i][0]));
    assert(is_lexeme(words[i]));
    if found[i].kind == Kind::Close {
        assert(words[i] =~= seq![')']);
    }
}

/// A word that joins operands is apart from what stands before it.
proof fn lemma_joint(
    chars: Seq<char>,
    found: Seq<Token>,
    words: Seq<Seq<char>>,
    i: int,
    key: Seq<char>,
)
    requires
        lexed(chars, found, words),
        says(words, i, key),
        key == "and"@ || key == "or"@,
    ensures
        is_keyword(chars, found, i, key),
        is_kind(found, i, Kind::Word),
        key == "and"@ ==> and_goes_on(chars, found, i),
        key == "or"@ ==> !and_goes_on(chars, found, i),
        is_apart(words, i),
{
    lemma_keys();
    lemma_letters();
    lemma_said(chars, found, words, i, key);
    assert(crate::grammar::is_key_char(key[0]));
    assert(lower_all(words[i])[0] == lower(words[i][0]));
}

proof fn lemma_primary_read(
    chars: Seq<char>,
    found: Seq<Token>,
    words: Seq<Seq<char>>,
    i: int,
    j: int,
    expr: Expr,
)
    requires
        lexed(chars, found, words),
        are_words(words),
        0 <= i <= j <= words.len(),
        is_apart(words, j),
        primary_form(words.subrange(i, j), expr),
    ensures
        i < j,
        primary(chars, found, i, expr, j),
        operand(chars, found, i, expr, j),
    decreases j - i, 0int,
{
    let part = words.subrange(i, j);
    if predicate_form(part, expr) {
        lemma_predicate_starts(part, expr);
        lemma_predicate_read(chars, found, words, i, j, expr);
        lemma_unnested(chars, found, i, expr, j);
    } else {
        let end = j - 1;
        assert(part[0] == words[i] && part.last() == words[end]);
        assert(part.subrange(1, part.len() - 1) =~= words.subrange(i + 1, end));
        assert(found[i].kind == kind_of(words[i][0]));
        assert(found[end].kind == kind_of(words[end][0]));
        lemma_keys();
        assert(lower_all(words[end])[0] == ')');
        assert(crate::grammar::is_key_char("mask"@[0]));
        assert(words[end][0] == ')' && seq!['/'][0] == '/');
        lemma_no_more_ors(chars, found, expr, end);
        lemma_filter_read(chars, found, words, i + 1, end, expr, expr, end);
        lemma_enclosed(chars, found, i, end, expr);
    }
}

proof fn lemma_operand_read(
    chars: Seq<char>,
    found: Seq<Token>,
    words: Seq<Seq<char>>,
    i: int,
    j: int,
    expr: Expr,
)
    requires
        lexed(chars, found, words),
        are_words(words),
        0 <= i <= j <= words.len(),
        is_apart(words, j),
        not_form(words.subrange(i, j), expr),
    ensures
        i < j,
        operand(chars, found, i, expr, j),
    decreases j - i, 1int,
{
    let part = words.subrange(i, j);
    if primary_form(part, expr) {
        lemma_primary_read(chars, found, words, i, j, expr);
    } else {
        let inner = *expr->Not_0;
        assert(part[0] == words[i]);
        assert(part.skip(1) =~= words.subrange(i + 1, j));
        lemma_primary_read(chars, found, words, i + 1, j, inner);
        lemma_keys();
        lemma_said(chars, found, words, i, "not"@);
        lemma_negation(chars, found, i, inner, j);
    }
}

/// The operands of `and` are read one behind the other.
proof fn lemma_ands_read(
    chars: Seq<char>,
    found: Seq<Token>,
    words: Seq<Seq<char>>,
    i: int,
    j: int,
    expr: Expr,
    all: Expr,
    end: int,
)
    requires
        lexed(chars, found, words),
        are_words(words),
        0 <= i <= j <= words.len(),
        is_apart(words, j),
        and_form(words.subrange(i, j), expr),
        more_ands(chars, found, expr, j, all, end),
    ensures
        i < j,
        ands(chars, found, i, all, end),
    decreases j - i, 2int,
{
    let part = words.subrange(i, j);
    if not_form(part, expr) {
        lemma_operand_read(chars, found, words, i, j, expr);
        lemma_ands(chars, found, i, expr, j, all, end);
    } else {
        let left = *expr->And_0;
        let right = *expr->And_1;
        let k = choose|k: int|
            0 < k < part.len() && and_form(#[trigger] part.take(k), left) && (not_form(
                part.skip(k),
                right,
            ) || (says(part, k, "and"@) && not_form(part.skip(k + 1), right)));
        let at = i + k;
        assert(part.take(k) =~= words.subrange(i, at));
        assert(part[k] == words[at]);
        let from = if not_form(part.skip(k), right) {
            at
        } else {
            at + 1
        };
        if from == at {
            assert(part.skip(k) =~= words.subrange(at, j));
            lemma_operand_starts(words.subrange(at, j), right);
            assert(words.subrange(at, j)[0] == words[at]);
            lemma_start_goes_on(chars, found, words, at);
        } else {
            assert(part.skip(k + 1) =~= words.subrange(at + 1, j));
            lemma_joint(chars, found, words, at, "and"@);
        }
        lemma_operand_read(chars, found, words, from, j, right);
        assert(expr == Expr::And(Box::new(left), Box::new(right)));
        lemma_one_more_and(chars, found, left, at, from, right, j, all, end);
        lemma_ands_read(chars, found, words, i, at, left, all, end);
    }
}

/// The operands of `or` are read one behind the other.
proof fn lemma_filter_read(
    chars: Seq<char>,
    found: Seq<Token>,
    words: Seq<Seq<char>>,
    i: int,
    j: int,
    expr: Expr,
    all: Expr,
    end: int,
)
    requires
        lexed(chars, found, words),
        are_words(words),
        0 <= i <= j <= words.len(),
        is_apart(words, j),
        !and_goes_on(chars, found, j),
        or_form(words.subrange(i, j), expr),
        more_ors(chars, found, expr, j, all, end),
    ensures
        i < j,
        filter(chars, found, i, all, end),
    decreases j - i, 3int,
{
    let part = words.subrange(i, j);
    if and_form(part, expr) {
        lemma_no_more_ands(chars, found, expr, j);
        lemma_ands_read(chars, found, words, i, j, expr, expr, j);
        lemma_filter(chars, found, i, expr, j, all, end);
    } else {
        let left = *expr->Or_0;
        let right = *expr->Or_1;
        let k = choose|k: int|
            0 < k < part.len() && says(part, k, "or"@) && or_form(#[trigger] part.take(k), left)
                && and_form(part.skip(k + 1), right);
        let at = i + k;
        assert(part.take(k) =~= words.subrange(i, at));
        assert(part[k] == words[at]);
        assert(part.skip(k + 1) =~= words.subrange(at + 1, j));
        lemma_joint(chars, found, words, at, "or"@);
        lemma_no_more_ands(chars, found, right, j);
        lemma_ands_read(chars, found, words, at + 1, j, right, right, j);
        assert(expr == Expr::Or(Box::new(left), Box::new(right)));
        lemma_one_more_or(chars, found, left, at, right, j, all, end);
        lemma_filter_read(chars, found, words, i, at, left, all, end);
    }
}

/// A text is read as an expression just where its words have the form of that expression in the
/// grammar.
pub proof fn law_the_grammar_is_read(chars: Seq<char>, expr: Expr)
    requires
        chars.len() <= usize::MAX,
    ensures
        expr_of(chars) == Ok::<Expr, Seq<char>>(expr) <==> or_form(words_in(chars), expr),
{
    if expr_of(chars) == Ok::<Expr, Seq<char>>(expr) {
        law_only_the_grammar_is_read(chars, expr);
    }
    if or_form(words_in(chars), expr) {
        let words = words_in(chars);
        let found = tokens(chars);
        let len = words.len() as int;
        law_text_is_its_words(chars);
        assert(are_words(words));
        assert(words.subrange(0, len) =~= words);
        lemma_no_more_ors(chars, found, expr, len);
        lemma_filter_read(chars, found, words, 0, len, expr, expr, len);
        reveal(filter);
    }
}

} // verus!
