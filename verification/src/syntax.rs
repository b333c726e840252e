//! Which texts are filters: only those of the grammar are read.

use vstd::prelude::*;

use crate::ast::{Direction, Expr, HostAddr, NetAddr, RelOp};
use crate::grammar::{op_word, proto_word};
use crate::lexemes::{are_spread, is_blank, is_lexeme, lexed, may_touch, spread};
use crate::lexer::{
    goes_on_with, is_keyword, is_kind, is_space, kind_of, lemma_token_end, token_end, token_from,
    token_text, tokens, tokens_from, Kind, Token,
};
use crate::notation::{glued, law_split_parts_make_up_the_text};
use crate::numerals::{
    digit_worth, is_numeral, law_digits_are_read, law_hex_digits_are_read, worth,
};
use crate::parser::{
    and_goes_on, direction_at, expr_of, is_number_at, joined, looks_like_mac, looks_like_octet, proto_at, read_and, read_and_rest,
    read_ether, read_len, read_not, read_or, read_or_rest, read_predicate, read_primary,
    read_qualified, read_shortcut, syntax_message, Outcome,
};
use crate::printed::{is_number, lemma_number};
use crate::readings::law_operators_are_read;
use crate::text::{decimal, is_hex_digit, lower_all, split};
use crate::values::{address_mask, default_mask, host_of, mac_of, net_of, NetMask};

verus! {

/// Whether the word at the index is the keyword, in whatever case.
pub open spec fn says(words: Seq<Seq<char>>, i: int, key: Seq<char>) -> bool {
    0 <= i < words.len() && lower_all(words[i]) == key
}

/// Whether the words name the direction, and what follows it.
pub open spec fn names(words: Seq<Seq<char>>, dir: Direction) -> bool {
    match dir {
        Direction::Any => true,
        Direction::Src => says(words, 0, "src"@),
        Direction::Dst => says(words, 0, "dst"@),
    }
}

pub open spec fn behind(words: Seq<Seq<char>>, dir: Direction) -> Seq<Seq<char>> {
    match dir {
        Direction::Any => words,
        _ => words.skip(1),
    }
}

/// Whether the text is a number, and which one.
pub open spec fn counts(text: Seq<char>, n: int) -> bool {
    is_numeral(text, 10) && worth(text, 10) == n
}

/// Whether the text is six bytes of one or two hexadecimal digits each, with colons between them.
pub open spec fn mac_form(text: Seq<char>) -> bool {
    exists|parts: Seq<Seq<char>>|
        text == #[trigger] glued(parts, ':') && parts.len() == 6 && forall|i: int|
            0 <= i < 6 ==> is_numeral(#[trigger] parts[i], 16) && parts[i].len() <= 2
}

/// Whether the words are those of a network.
pub open spec fn net_form(words: Seq<Seq<char>>, addr: NetAddr) -> bool {
    &&& says(words, 0, "net"@)
    &&& words.len() >= 2
    &&& host_of(words[1]) matches Ok(host) && {
        ||| words.len() == 2 && net_of(host, default_mask(host)) == Ok::<NetAddr, Seq<char>>(addr)
        ||| words.len() == 4 && words[2] == seq!['/'] && exists|p: u8|
            #[trigger] counts(words[3], p as int) && p <= (if host is V4 {
                32int
            } else {
                128
            }) && net_of(host, NetMask::Prefix(p)) == Ok::<NetAddr, Seq<char>>(addr)
        ||| words.len() == 4 && says(words, 2, "mask"@) && (address_mask(
            words[3],
            host,
        ) matches Ok(mask) && net_of(host, mask) == Ok::<NetAddr, Seq<char>>(addr))
    }
}

/// Whether the words are those of a predicate.
pub open spec fn predicate_form(words: Seq<Seq<char>>, expr: Expr) -> bool {
    match expr {
        Expr::Proto(proto) => words.len() == 1 && says(words, 0, proto_word(proto)),
        Expr::Host { addr, dir } => {
            let rest = behind(words, dir);
            names(words, dir) && rest.len() == 2 && says(rest, 0, "host"@) && host_of(rest[1])
                == Ok::<HostAddr, Seq<char>>(addr)
        },
        Expr::Port { port, dir } => {
            let rest = behind(words, dir);
            names(words, dir) && rest.len() == 2 && says(rest, 0, "port"@) && counts(
                rest[1],
                port as int,
            )
        },
        Expr::PortRange { start, end, dir } => {
            let rest = behind(words, dir);
            names(words, dir) && rest.len() == 4 && says(rest, 0, "portrange"@) && counts(
                rest[1],
                start as int,
            ) && rest[2] == seq!['-'] && counts(rest[3], end as int) && start <= end
        },
        Expr::EtherHost { addr, dir } => {
            let rest = behind(words.skip(1), dir);
            says(words, 0, "ether"@) && names(words.skip(1), dir) && (rest.len() == 1 || (rest.len()
                == 2 && says(rest, 0, "host"@))) && mac_form(rest.last()) && mac_of(rest.last())
                == Ok::<Seq<u8>, Seq<char>>(addr)
        },
        Expr::Net { addr, dir } => names(words, dir) && net_form(behind(words, dir), addr),
        Expr::Len { op, len } => {
            ||| words.len() == 3 && says(words, 0, "len"@) && (words[1] == op_word(op) || (op
                == RelOp::Eq && words[1] == seq!['=', '='])) && counts(words[2], len as int)
            ||| words.len() == 2 && op == RelOp::Gt && says(words, 0, "greater"@) && counts(
                words[1],
                len as int,
            )
            ||| words.len() == 2 && op == RelOp::Lt && says(words, 0, "less"@) && counts(
                words[1],
                len as int,
            )
        },
        _ => false,
    }
}

/// Whether the words are those of a predicate, or of an expression in parentheses.
pub open spec fn primary_form(words: Seq<Seq<char>>, expr: Expr) -> bool
    decreases words.len(), 0int,
{
    ||| predicate_form(words, expr)
    ||| words.len() > 2 && words[0] == seq!['('] && words.last() == seq![')'] && or_form(
        words.subrange(1, words.len() - 1),
        expr,
    )
}

/// Whether the words are those of an operand of `and`.
pub open spec fn not_form(words: Seq<Seq<char>>, expr: Expr) -> bool
    decreases words.len(), 1int,
{
    ||| primary_form(words, expr)
    ||| words.len() > 1 && says(words, 0, "not"@) && (expr matches Expr::Not(inner) && primary_form(
        words.skip(1),
        *inner,
    ))
}

/// Whether the words are those of one or more operands of `and`, between which the word itself may
/// be missing.
pub open spec fn and_form(words: Seq<Seq<char>>, expr: Expr) -> bool
    decreases words.len(), 2int,
{
    ||| not_form(words, expr)
    ||| (expr matches Expr::And(left, right) && exists|k: int|
        0 < k < words.len() && and_form(#[trigger] words.take(k), *left) && (not_form(
            words.skip(k),
            *right,
        ) || (says(words, k, "and"@) && not_form(words.skip(k + 1), *right))))
}

/// Whether the words are those of a filter: of one or more operands of `or`.
pub open spec fn or_form(words: Seq<Seq<char>>, expr: Expr) -> bool
    decreases words.len(), 3int,
{
    ||| and_form(words, expr)
    ||| (expr matches Expr::Or(left, right) && exists|k: int|
        0 < k < words.len() && says(words, k, "or"@) && or_form(#[trigger] words.take(k), *left)
            && and_form(words.skip(k + 1), *right))
}

/// Whether the words are those of a host, a port, a range of ports or a network, in a direction that
/// was named before them.
spec fn qualified_form(words: Seq<Seq<char>>, dir: Direction, expr: Expr) -> bool {
    match expr {
        Expr::Host { addr, dir: d } => d == dir && words.len() == 2 && says(words, 0, "host"@)
            && host_of(words[1]) == Ok::<HostAddr, Seq<char>>(addr),
        Expr::Port { port, dir: d } => d == dir && words.len() == 2 && says(words, 0, "port"@)
            && counts(words[1], port as int),
        Expr::PortRange { start, end, dir: d } => d == dir && words.len() == 4 && says(
            words,
            0,
            "portrange"@,
        ) && counts(words[1], start as int) && words[2] == seq!['-'] && counts(words[3], end as int)
            && start <= end,
        Expr::Net { addr, dir: d } => d == dir && net_form(words, addr),
        _ => false,
    }
}

proof fn lemma_number_counts(
    chars: Seq<char>,
    found: Seq<Token>,
    words: Seq<Seq<char>>,
    i: int,
)
    requires
        lexed(chars, found, words),
        is_number_at(chars, found, i),
    ensures
        is_numeral(words[i], 10),
        crate::text::decimal_value(words[i]) == worth(words[i], 10),
        token_text(chars, found, i) == words[i],
{
    assert(found[i].kind == kind_of(words[i][0]));
    law_digits_are_read(words[i]);
}

proof fn lemma_single(chars: Seq<char>, found: Seq<Token>, words: Seq<Seq<char>>, i: int, c: char)
    requires
        lexed(chars, found, words),
        0 <= i < words.len(),
        is_lexeme(words[i]),
        crate::lexemes::is_single(c),
        found[i].kind == kind_of(c),
    ensures
        words[i] == seq![c],
{
    assert(found[i].kind == kind_of(words[i][0]));
    assert(words[i][0] == c);
    assert(words[i].len() == 1);
    assert(words[i] =~= seq![c]);
}

proof fn lemma_host_form(
    chars: Seq<char>,
    found: Seq<Token>,
    words: Seq<Seq<char>>,
    i: int,
    dir: Direction,
    expr: Expr,
    at: int,
)
    requires
        lexed(chars, found, words),
        is_keyword(chars, found, i, "host"@),
        read_qualified(chars, found, i, dir) == Outcome::Done(Ok(expr), at),
    ensures
        at == i + 2,
        at <= words.len(),
        qualified_form(words.subrange(i, at), dir, expr),
{
    assert(found[i].kind == kind_of(words[i][0]));
    assert(found[i + 1].kind == kind_of(words[i + 1][0]));
    let part = words.subrange(i, at);
    assert(part[0] == words[i] && part[1] == words[i + 1]);
}

proof fn lemma_port_form(
    chars: Seq<char>,
    found: Seq<Token>,
    words: Seq<Seq<char>>,
    i: int,
    dir: Direction,
    expr: Expr,
    at: int,
)
    requires
        lexed(chars, found, words),
        !is_keyword(chars, found, i, "host"@),
        is_keyword(chars, found, i, "port"@),
        read_qualified(chars, found, i, dir) == Outcome::Done(Ok(expr), at),
    ensures
        at == i + 2,
        at <= words.len(),
        qualified_form(words.subrange(i, at), dir, expr),
{
    assert(found[i].kind == kind_of(words[i][0]));
    lemma_number_counts(chars, found, words, i + 1);
    let part = words.subrange(i, at);
    assert(part[0] == words[i] && part[1] == words[i + 1]);
}

#[verifier::rlimit(40)]
proof fn lemma_portrange_form(
    chars: Seq<char>,
    found: Seq<Token>,
    words: Seq<Seq<char>>,
    i: int,
    dir: Direction,
    expr: Expr,
    at: int,
)
    requires
        lexed(chars, found, words),
        all_lexemes(words),
        !is_keyword(chars, found, i, "host"@),
        !is_keyword(chars, found, i, "port"@),
        is_keyword(chars, found, i, "portrange"@),
        read_qualified(chars, found, i, dir) == Outcome::Done(Ok(expr), at),
    ensures
        at == i + 4,
        at <= words.len(),
        qualified_form(words.subrange(i, at), dir, expr),
{
    assert(found[i].kind == kind_of(words[i][0]));
    lemma_number_counts(chars, found, words, i + 1);
    lemma_number_counts(chars, found, words, i + 3);
    assert(is_lexeme(words[i + 2]));
    lemma_single(chars, found, words, i + 2, '-');
    let part = words.subrange(i, at);
    assert(part[0] == words[i] && part[1] == words[i + 1] && part[2] == words[i + 2] && part[3]
        == words[i + 3]);
}

#[verifier::rlimit(40)]
proof fn lemma_net_form(
    chars: Seq<char>,
    found: Seq<Token>,
    words: Seq<Seq<char>>,
    i: int,
    dir: Direction,
    expr: Expr,
    at: int,
)
    requires
        lexed(chars, found, words),
        all_lexemes(words),
        !is_keyword(chars, found, i, "host"@),
        !is_keyword(chars, found, i, "port"@),
        !is_keyword(chars, found, i, "portrange"@),
        is_keyword(chars, found, i, "net"@),
        read_qualified(chars, found, i, dir) == Outcome::Done(Ok(expr), at),
    ensures
        at == i + 2 || at == i + 4,
        at <= words.len(),
        qualified_form(words.subrange(i, at), dir, expr),
{
    let part = words.subrange(i, at);
    assert(found[i].kind == kind_of(words[i][0]));
    assert(found[i + 1].kind == kind_of(words[i + 1][0]));
    assert(token_text(chars, found, i + 1) == words[i + 1]);
    let host = host_of(words[i + 1])->Ok_0;
    if is_kind(found, i + 2, Kind::Slash) {
        lemma_number_counts(chars, found, words, i + 3);
        assert(is_lexeme(words[i + 2]));
        lemma_single(chars, found, words, i + 2, '/');
        assert(part[0] == words[i] && part[1] == words[i + 1] && part[2] == words[i + 2] && part[3]
            == words[i + 3]);
        let p = worth(words[i + 3], 10) as u8;
        assert(counts(part[3], p as int));
    } else if is_keyword(chars, found, i + 2, "mask"@) {
        assert(found[i + 2].kind == kind_of(words[i + 2][0]));
        assert(found[i + 3].kind == kind_of(words[i + 3][0]));
        assert(token_text(chars, found, i + 3) == words[i + 3]);
        assert(part[0] == words[i] && part[1] == words[i + 1] && part[2] == words[i + 2] && part[3]
            == words[i + 3]);
    } else {
        assert(part[0] == words[i] && part[1] == words[i + 1]);
    }
}

/// Whether every one of the words is a word or a sign.
pub open spec fn all_lexemes(words: Seq<Seq<char>>) -> bool {
    forall|i: int| 0 <= i < words.len() ==> is_lexeme(#[trigger] words[i])
}

proof fn lemma_qualified_form(
    chars: Seq<char>,
    found: Seq<Token>,
    words: Seq<Seq<char>>,
    i: int,
    dir: Direction,
    expr: Expr,
    at: int,
)
    requires
        lexed(chars, found, words),
        all_lexemes(words),
        read_qualified(chars, found, i, dir) == Outcome::Done(Ok(expr), at),
    ensures
        0 <= i < at <= words.len(),
        qualified_form(words.subrange(i, at), dir, expr),
{
    if is_keyword(chars, found, i, "host"@) {
        lemma_host_form(chars, found, words, i, dir, expr, at);
    } else if is_keyword(chars, found, i, "port"@) {
        lemma_port_form(chars, found, words, i, dir, expr, at);
    } else if is_keyword(chars, found, i, "portrange"@) {
        lemma_portrange_form(chars, found, words, i, dir, expr, at);
    } else if is_keyword(chars, found, i, "net"@) {
        lemma_net_form(chars, found, words, i, dir, expr, at);
    }
}

#[verifier::rlimit(40)]
proof fn lemma_ether_form(
    chars: Seq<char>,
    found: Seq<Token>,
    words: Seq<Seq<char>>,
    i: int,
    expr: Expr,
    at: int,
)
    requires
        lexed(chars, found, words),
        is_keyword(chars, found, i, "ether"@),
        read_ether(chars, found, i + 1) == Outcome::Done(Ok(expr), at),
    ensures
        i < at <= words.len(),
        predicate_form(words.subrange(i, at), expr),
{
    let part = words.subrange(i, at);
    let dir = direction_at(chars, found, i + 1);
    assert(found[i].kind == kind_of(words[i][0]));
    let at_host = if dir is Any {
        i + 1
    } else {
        i + 2
    };
    let at_mac = if is_keyword(chars, found, at_host, "host"@) {
        at_host + 1
    } else {
        at_host
    };
    assert(at == at_mac + 1);
    assert(found[at_mac].kind == kind_of(words[at_mac][0]));
    assert(token_text(chars, found, at_mac) == words[at_mac]);
    if at_host > i + 1 {
        assert(found[i + 1].kind == kind_of(words[i + 1][0]));
    }
    if at_mac > at_host {
        assert(found[at_host].kind == kind_of(words[at_host][0]));
    }
    let rest = behind(part.skip(1), dir);
    lemma_mac_form(words[at_mac]);
    assert(part[0] == words[i]);
    assert(rest.last() == words[at_mac]);
    assert(rest[0] == words[at_host]);
    assert(at_host > i + 1 ==> part.skip(1)[0] == words[i + 1]);
}

proof fn lemma_mac_form(text: Seq<char>)
    requires
        looks_like_mac(text),
    ensures
        mac_form(text),
{
    let parts = split(text, ':');
    law_split_parts_make_up_the_text(text, ':');
    assert forall|k: int| 0 <= k < 6 implies is_numeral(#[trigger] parts[k], 16) && parts[k].len()
        <= 2 by {
        let part = parts[k];
        assert(looks_like_octet(split(text, ':')[k]));
        law_hex_digits_are_read(part);
        assert forall|j: int| 0 <= j < part.len() implies digit_worth(#[trigger] part[j]) < 16 by {
            assert(is_hex_digit(part[j]));
        }
    }
    assert(text == glued(parts, ':'));
}

proof fn lemma_len_form(
    chars: Seq<char>,
    found: Seq<Token>,
    words: Seq<Seq<char>>,
    i: int,
    expr: Expr,
    at: int,
)
    requires
        lexed(chars, found, words),
        is_keyword(chars, found, i, "len"@),
        read_len(chars, found, i + 1) == Outcome::Done(Ok(expr), at),
    ensures
        i < at <= words.len(),
        predicate_form(words.subrange(i, at), expr),
{
    let part = words.subrange(i, at);
    assert(found[i].kind == kind_of(words[i][0]));
    assert(found[i + 1].kind == kind_of(words[i + 1][0]));
    assert(token_text(chars, found, i + 1) == words[i + 1]);
    lemma_number_counts(chars, found, words, i + 2);
    law_operators_are_read(words[i + 1]);
    assert(part[0] == words[i] && part[1] == words[i + 1] && part[2] == words[i + 2]);
}

proof fn lemma_shortcut_form(
    chars: Seq<char>,
    found: Seq<Token>,
    words: Seq<Seq<char>>,
    i: int,
    op: RelOp,
    expr: Expr,
    at: int,
)
    requires
        lexed(chars, found, words),
        (op == RelOp::Gt && is_keyword(chars, found, i, "greater"@)) || (op == RelOp::Lt
            && is_keyword(chars, found, i, "less"@)),
        read_shortcut(chars, found, i + 1, op) == Outcome::Done(Ok(expr), at),
    ensures
        i < at <= words.len(),
        predicate_form(words.subrange(i, at), expr),
{
    let part = words.subrange(i, at);
    assert(found[i].kind == kind_of(words[i][0]));
    lemma_number_counts(chars, found, words, i + 1);
    assert(part[0] == words[i] && part[1] == words[i + 1]);
}

proof fn lemma_proto_form(
    chars: Seq<char>,
    found: Seq<Token>,
    words: Seq<Seq<char>>,
    i: int,
)
    requires
        lexed(chars, found, words),
        proto_at(chars, found, i) is Some,
    ensures
        0 <= i < words.len(),
        predicate_form(words.subrange(i, i + 1), Expr::Proto(proto_at(chars, found, i)->0)),
{
    let part = words.subrange(i, i + 1);
    assert(found[i].kind == kind_of(words[i][0]));
    assert(part[0] == words[i]);
}

proof fn lemma_directed_form(
    words: Seq<Seq<char>>,
    i: int,
    at: int,
    dir: Direction,
    expr: Expr,
)
    requires
        0 <= i,
        i + 1 < at <= words.len(),
        dir == Direction::Src && says(words, i, "src"@) || dir == Direction::Dst && says(
            words,
            i,
            "dst"@,
        ),
        qualified_form(words.subrange(i + 1, at), dir, expr),
    ensures
        predicate_form(words.subrange(i, at), expr),
{
    let part = words.subrange(i, at);
    assert(part[0] == words[i]);
    assert(part.skip(1) =~= words.subrange(i + 1, at));
}

/// What is read as a predicate is one.
#[verifier::rlimit(40)]
proof fn lemma_predicate_form(
    chars: Seq<char>,
    found: Seq<Token>,
    words: Seq<Seq<char>>,
    i: int,
    expr: Expr,
    at: int,
)
    requires
        lexed(chars, found, words),
        all_lexemes(words),
        read_predicate(chars, found, i) == Outcome::Done(Ok(expr), at),
    ensures
        0 <= i < at <= words.len(),
        predicate_form(words.subrange(i, at), expr),
{
    let dir = direction_at(chars, found, i);
    if dir !is Any {
        assert(found[i].kind == kind_of(words[i][0]));
        lemma_qualified_form(chars, found, words, i + 1, dir, expr, at);
        lemma_directed_form(words, i, at, dir, expr);
    } else if proto_at(chars, found, i) is Some {
        lemma_proto_form(chars, found, words, i);
    } else if is_keyword(chars, found, i, "ether"@) {
        lemma_ether_form(chars, found, words, i, expr, at);
    } else if is_keyword(chars, found, i, "greater"@) {
        lemma_shortcut_form(chars, found, words, i, RelOp::Gt, expr, at);
    } else if is_keyword(chars, found, i, "less"@) {
        lemma_shortcut_form(chars, found, words, i, RelOp::Lt, expr, at);
    } else if is_keyword(chars, found, i, "len"@) {
        lemma_len_form(chars, found, words, i, expr, at);
    } else {
        lemma_qualified_form(chars, found, words, i, Direction::Any, expr, at);
    }
}

proof fn lemma_primary_form(
    chars: Seq<char>,
    found: Seq<Token>,
    words: Seq<Seq<char>>,
    i: int,
    expr: Expr,
    at: int,
)
    requires
        lexed(chars, found, words),
        all_lexemes(words),
        read_primary(chars, found, i) == Outcome::Done(Ok(expr), at),
    ensures
        0 <= i < at <= words.len(),
        primary_form(words.subrange(i, at), expr),
    decreases found.len() - i, 1int,
{
    if is_kind(found, i, Kind::Open) {
        let end = at - 1;
        assert(read_or(chars, found, i + 1) == Outcome::Done(Ok(expr), end));
        assert(is_kind(found, end, Kind::Close));
        lemma_or_form(chars, found, words, i + 1, expr, end);
        assert(is_lexeme(words[i]) && is_lexeme(words[end]));
        lemma_single(chars, found, words, i, '(');
        lemma_single(chars, found, words, end, ')');
        let part = words.subrange(i, at);
        assert(part[0] == words[i] && part.last() == words[end]);
        assert(part.subrange(1, part.len() - 1) =~= words.subrange(i + 1, end));
    } else {
        lemma_predicate_form(chars, found, words, i, expr, at);
    }
}

proof fn lemma_not_form(
    chars: Seq<char>,
    found: Seq<Token>,
    words: Seq<Seq<char>>,
    i: int,
    expr: Expr,
    at: int,
)
    requires
        lexed(chars, found, words),
        all_lexemes(words),
        read_not(chars, found, i) == Outcome::Done(Ok(expr), at),
    ensures
        0 <= i < at <= words.len(),
        not_form(words.subrange(i, at), expr),
    decreases found.len() - i, 2int,
{
    if is_keyword(chars, found, i, "not"@) {
        assert(expr is Not);
        let inner = expr->Not_0;
        assert(read_primary(chars, found, i + 1) == Outcome::Done(Ok(*inner), at));
        lemma_primary_form(chars, found, words, i + 1, *inner, at);
        assert(found[i].kind == kind_of(words[i][0]));
        let part = words.subrange(i, at);
        assert(part[0] == words[i]);
        assert(part.skip(1) =~= words.subrange(i + 1, at));
    } else {
        lemma_primary_form(chars, found, words, i, expr, at);
    }
}

/// An operand more.
proof fn lemma_and_grows(
    words: Seq<Seq<char>>,
    i: int,
    j: int,
    from: int,
    end: int,
    left: Expr,
    right: Expr,
)
    requires
        0 <= i < j <= from < end <= words.len(),
        and_form(words.subrange(i, j), left),
        not_form(words.subrange(from, end), right),
        from == j || (from == j + 1 && says(words, j, "and"@)),
    ensures
        and_form(words.subrange(i, end), Expr::And(Box::new(left), Box::new(right))),
{
    let all = words.subrange(i, end);
    let k = j - i;
    assert(all.take(k) =~= words.subrange(i, j));
    assert(all[k] == words[j]);
    assert(and_form(all.take(k), left));
    if from == j {
        assert(all.skip(k) =~= words.subrange(from, end));
    } else {
        assert(all.skip(k + 1) =~= words.subrange(from, end));
    }
}

proof fn lemma_or_grows(
    words: Seq<Seq<char>>,
    i: int,
    j: int,
    end: int,
    left: Expr,
    right: Expr,
)
    requires
        0 <= i < j,
        j + 1 < end <= words.len(),
        or_form(words.subrange(i, j), left),
        and_form(words.subrange(j + 1, end), right),
        says(words, j, "or"@),
    ensures
        or_form(words.subrange(i, end), Expr::Or(Box::new(left), Box::new(right))),
{
    let all = words.subrange(i, end);
    let k = j - i;
    assert(all.take(k) =~= words.subrange(i, j));
    assert(all[k] == words[j]);
    assert(or_form(all.take(k), left));
    assert(all.skip(k + 1) =~= words.subrange(j + 1, end));
}

proof fn lemma_and_rest_form(
    chars: Seq<char>,
    found: Seq<Token>,
    words: Seq<Seq<char>>,
    i: int,
    left: Result<Expr, Seq<char>>,
    j: int,
    expr: Expr,
    at: int,
)
    requires
        lexed(chars, found, words),
        all_lexemes(words),
        0 <= i < j <= words.len(),
        left matches Ok(l) ==> and_form(words.subrange(i, j), l),
        read_and_rest(chars, found, left, j) == Outcome::Done(Ok(expr), at),
    ensures
        i < at <= words.len(),
        and_form(words.subrange(i, at), expr),
    decreases found.len() - j, 3int,
{
    if and_goes_on(chars, found, j) {
        let from = if is_keyword(chars, found, j, "and"@) {
            j + 1
        } else {
            j
        };
        if let Outcome::Done(right, end) = read_not(chars, found, from) {
            if j < end <= found.len() {
                if left is Ok && right is Ok {
                    lemma_not_form(chars, found, words, from, right->Ok_0, end);
                    assert(found[j].kind == kind_of(words[j][0]));
                    lemma_and_grows(words, i, j, from, end, left->Ok_0, right->Ok_0);
                }
                lemma_and_rest_form(
                    chars,
                    found,
                    words,
                    i,
                    joined(left, right, true),
                    end,
                    expr,
                    at,
                );
            }
        }
    }
}

proof fn lemma_and_form(
    chars: Seq<char>,
    found: Seq<Token>,
    words: Seq<Seq<char>>,
    i: int,
    expr: Expr,
    at: int,
)
    requires
        lexed(chars, found, words),
        all_lexemes(words),
        0 <= i,
        read_and(chars, found, i) == Outcome::Done(Ok(expr), at),
    ensures
        0 <= i < at <= words.len(),
        and_form(words.subrange(i, at), expr),
    decreases found.len() - i, 4int,
{
    if let Outcome::Done(left, end) = read_not(chars, found, i) {
        if i < end <= found.len() {
            if left is Ok {
                lemma_not_form(chars, found, words, i, left->Ok_0, end);
            }
            lemma_and_rest_form(chars, found, words, i, left, end, expr, at);
        }
    }
}

proof fn lemma_or_rest_form(
    chars: Seq<char>,
    found: Seq<Token>,
    words: Seq<Seq<char>>,
    i: int,
    left: Result<Expr, Seq<char>>,
    j: int,
    expr: Expr,
    at: int,
)
    requires
        lexed(chars, found, words),
        all_lexemes(words),
        0 <= i < j <= words.len(),
        left matches Ok(l) ==> or_form(words.subrange(i, j), l),
        read_or_rest(chars, found, left, j) == Outcome::Done(Ok(expr), at),
    ensures
        i < at <= words.len(),
        or_form(words.subrange(i, at), expr),
    decreases found.len() - j, 5int,
{
    if is_keyword(chars, found, j, "or"@) {
        if let Outcome::Done(right, end) = read_and(chars, found, j + 1) {
            if j < end <= found.len() {
                if left is Ok && right is Ok {
                    lemma_and_form(chars, found, words, j + 1, right->Ok_0, end);
                    assert(found[j].kind == kind_of(words[j][0]));
                    lemma_or_grows(words, i, j, end, left->Ok_0, right->Ok_0);
                }
                lemma_or_rest_form(
                    chars,
                    found,
                    words,
                    i,
                    joined(left, right, false),
                    end,
                    expr,
                    at,
                );
            }
        }
    }
}

proof fn lemma_or_form(
    chars: Seq<char>,
    found: Seq<Token>,
    words: Seq<Seq<char>>,
    i: int,
    expr: Expr,
    at: int,
)
    requires
        lexed(chars, found, words),
        all_lexemes(words),
        0 <= i,
        read_or(chars, found, i) == Outcome::Done(Ok(expr), at),
    ensures
        0 <= i < at <= words.len(),
        or_form(words.subrange(i, at), expr),
    decreases found.len() - i, 6int,
{
    if let Outcome::Done(left, end) = read_and(chars, found, i) {
        if i < end <= found.len() {
            if left is Ok {
                lemma_and_form(chars, found, words, i, left->Ok_0, end);
            }
            lemma_or_rest_form(chars, found, words, i, left, end, expr, at);
        }
    }
}

/// The words and signs of a text.
pub open spec fn words_in(chars: Seq<char>) -> Seq<Seq<char>> {
    Seq::new(tokens(chars).len(), |i: int| token_text(chars, tokens(chars), i))
}

/// Where a token ends there is none of its characters any more, and all before are.
proof fn lemma_token_chars(chars: Seq<char>, kind: Kind, i: int)
    requires
        0 <= i <= chars.len(),
    ensures
        i <= token_end(chars, kind, i) <= chars.len(),
        forall|k: int| i <= k < token_end(chars, kind, i) ==> goes_on_with(kind, #[trigger] chars[k]),
        token_end(chars, kind, i) < chars.len() ==> !goes_on_with(
            kind,
            chars[token_end(chars, kind, i)],
        ),
    decreases chars.len() - i,
{
    if i < chars.len() && goes_on_with(kind, chars[i]) {
        lemma_token_chars(chars, kind, i + 1);
    }
}

/// The gaps before the tokens from an index on, and behind the last.
spec fn gaps_from(chars: Seq<char>, i: int) -> Seq<Seq<char>>
    decreases chars.len() - i,
{
    if !(0 <= i < chars.len()) {
        seq![Seq::<char>::empty()]
    } else if is_space(chars[i]) {
        let rest = gaps_from(chars, i + 1);
        seq![seq![chars[i]] + rest[0]] + rest.skip(1)
    } else {
        let end = token_end(chars, kind_of(chars[i]), i + 1);
        proof {
            lemma_token_end(chars, kind_of(chars[i]), i + 1);
        }
        seq![Seq::<char>::empty()] + gaps_from(chars, end)
    }
}

/// The words of tokens.
spec fn texts_of(chars: Seq<char>, found: Seq<Token>) -> Seq<Seq<char>> {
    Seq::new(found.len(), |i: int| token_text(chars, found, i))
}

/// What is put together of words and gaps with a front of its own.
proof fn lemma_spread_shift(
    words: Seq<Seq<char>>,
    gaps: Seq<Seq<char>>,
    first: Seq<char>,
    gap: Seq<char>,
    i: int,
)
    requires
        0 <= i <= words.len(),
        gaps.len() == words.len() + 1,
    ensures
        spread(seq![first] + words, seq![gap] + gaps, i + 1) == spread(words, gaps, i),
    decreases words.len() - i,
{
    let w = seq![first] + words;
    let g = seq![gap] + gaps;
    assert(g[i + 1] == gaps[i]);
    if i < words.len() {
        assert(w[i + 1] == words[i]);
        lemma_spread_shift(words, gaps, first, gap, i + 1);
    }
}

proof fn lemma_spread_first(words: Seq<Seq<char>>, gaps: Seq<Seq<char>>, c: char)
    requires
        gaps.len() == words.len() + 1,
    ensures
        spread(words, seq![seq![c] + gaps[0]] + gaps.skip(1), 0) == seq![c] + spread(words, gaps, 0),
{
    let new = seq![seq![c] + gaps[0]] + gaps.skip(1);
    if words.len() > 0 {
        lemma_spread_same(words, gaps, new, 1);
        assert((seq![c] + gaps[0]) + words[0] + spread(words, gaps, 1) =~= seq![c] + (gaps[0]
            + words[0] + spread(words, gaps, 1)));
    }
}

proof fn lemma_spread_same(
    words: Seq<Seq<char>>,
    gaps: Seq<Seq<char>>,
    other: Seq<Seq<char>>,
    i: int,
)
    requires
        0 <= i,
        gaps.len() == other.len() == words.len() + 1,
        forall|k: int| i <= k < gaps.len() ==> gaps[k] == other[k],
    ensures
        i <= words.len() ==> spread(words, gaps, i) == spread(words, other, i),
    decreases words.len() - i,
{
    if i < words.len() {
        lemma_spread_same(words, gaps, other, i + 1);
    }
}

/// The text from an index on is its words with the gaps between them.
#[verifier::rlimit(40)]
proof fn lemma_covers(chars: Seq<char>, i: int)
    requires
        0 <= i <= chars.len(),
        chars.len() <= usize::MAX,
    ensures
        ({
            let found = tokens_from(chars, i);
            let words = texts_of(chars, found);
            let gaps = gaps_from(chars, i);
            &&& gaps.len() == words.len() + 1
            &&& spread(words, gaps, 0) == chars.skip(i)
            &&& forall|k: int|
                0 <= k < words.len() ==> is_lexeme(#[trigger] words[k]) && found[k].kind == kind_of(
                    words[k][0],
                )
            &&& forall|k: int, j: int|
                0 <= k < gaps.len() && 0 <= j < gaps[k].len() ==> is_blank(#[trigger] gaps[k][j])
            &&& forall|k: int|
                0 < k < words.len() && (#[trigger] gaps[k]).len() == 0 ==> may_touch(
                    words[k - 1][0],
                    words[k][0],
                )
        }),
    decreases chars.len() - i,
{
    let found = tokens_from(chars, i);
    let words = texts_of(chars, found);
    let gaps = gaps_from(chars, i);
    if i == chars.len() {
        assert(words =~= Seq::empty());
        assert(chars.skip(i) =~= Seq::<char>::empty());
    } else if is_space(chars[i]) {
        lemma_covers(chars, i + 1);
        let rest = gaps_from(chars, i + 1);
        lemma_spread_first(words, rest, chars[i]);
        assert(chars.skip(i) =~= seq![chars[i]] + chars.skip(i + 1));
        assert forall|k: int, j: int|
            0 <= k < gaps.len() && 0 <= j < gaps[k].len() implies is_blank(#[trigger] gaps[k][j]) by {
            if k == 0 {
                if j > 0 {
                    assert(gaps[0][j] == rest[0][j - 1]);
                }
            } else {
                assert(gaps[k] == rest[k]);
                assert(is_blank(rest[k][j]));
            }
        }
        assert forall|k: int|
            0 < k < words.len() && (#[trigger] gaps[k]).len() == 0 implies may_touch(
            words[k - 1][0],
            words[k][0],
        ) by {
            assert(gaps[k] == rest[k]);
        }
    } else {
        let kind = kind_of(chars[i]);
        let end = token_end(chars, kind, i + 1);
        lemma_token_chars(chars, kind, i + 1);
        lemma_covers(chars, end);
        let later = tokens_from(chars, end);
        let rest_words = texts_of(chars, later);
        let rest = gaps_from(chars, end);
        let word = chars.subrange(i, end);
        let token = token_from(chars, i);
        assert(found == seq![token] + later);
        assert(words =~= seq![word] + rest_words);
        let none = Seq::<char>::empty();
        lemma_spread_shift(rest_words, rest, word, none, 0);
        assert(gaps == seq![none] + rest);
        assert(gaps[0] == none && words[0] == word);
        assert(spread(words, gaps, 0) == none + word + spread(words, gaps, 1));
        assert(none + word + chars.skip(end) =~= chars.skip(i));
        lemma_word_is_lexeme(chars, i, end);
        assert forall|k: int| 0 <= k < words.len() implies is_lexeme(#[trigger] words[k])
            && found[k].kind == kind_of(words[k][0]) by {
            if k > 0 {
                assert(words[k] == rest_words[k - 1]);
                assert(found[k] == later[k - 1]);
            }
        }
        assert forall|k: int, j: int|
            0 <= k < gaps.len() && 0 <= j < gaps[k].len() implies is_blank(#[trigger] gaps[k][j]) by {
            assert(k > 0);
            assert(gaps[k] == rest[k - 1]);
            assert(is_blank(rest[k - 1][j]));
        }
        assert forall|k: int|
            0 < k < words.len() && (#[trigger] gaps[k]).len() == 0 implies may_touch(
            words[k - 1][0],
            words[k][0],
        ) by {
            assert(gaps[k] == rest[k - 1]);
            assert(words[k] == rest_words[k - 1]);
            if k > 1 {
                assert(words[k - 1] == rest_words[k - 2]);
            } else {
                assert(rest[0].len() == 0);
                assert(spread(rest_words, rest, 0) == rest[0] + rest_words[0] + spread(
                    rest_words,
                    rest,
                    1,
                ));
                assert(is_lexeme(rest_words[0]));
                assert(chars.skip(end)[0] == rest_words[0][0]);
                assert(chars[end] == rest_words[0][0]);
                lemma_touching(chars[i], chars[end], rest_words[0]);
            }
        }
    }
}

/// What does not go on with a word may touch it.
proof fn lemma_touching(one: char, next: char, word: Seq<char>)
    requires
        !goes_on_with(kind_of(one), next),
        !is_space(one),
        is_lexeme(word),
        word[0] == next,
    ensures
        may_touch(one, next),
{
}

proof fn lemma_word_is_lexeme(chars: Seq<char>, i: int, end: int)
    requires
        0 <= i < end <= chars.len(),
        !is_space(chars[i]),
        forall|k: int|
            i + 1 <= k < end ==> goes_on_with(kind_of(chars[i]), #[trigger] chars[k]),
    ensures
        is_lexeme(chars.subrange(i, end)),
        kind_of(chars[i]) == kind_of(chars.subrange(i, end)[0]),
{
    let word = chars.subrange(i, end);
    let kind = kind_of(chars[i]);
    assert forall|k: int| 0 < k < word.len() implies goes_on_with(kind, #[trigger] word[k]) by {
        assert(word[k] == chars[i + k]);
    }
    if crate::lexemes::is_single(chars[i]) {
        if word.len() > 1 {
            assert(goes_on_with(kind, word[1]));
        }
    } else if crate::lexemes::is_sign(chars[i]) {
        assert forall|k: int| 0 <= k < word.len() implies crate::lexemes::is_sign(
            #[trigger] word[k],
        ) by {
            if k > 0 {
                assert(goes_on_with(kind, word[k]));
            }
        }
    } else {
        assert forall|k: int| 0 <= k < word.len() implies !is_blank(#[trigger] word[k])
            && !crate::lexemes::is_sign(word[k]) && !crate::lexemes::is_single(word[k]) by {
            if k > 0 {
                assert(goes_on_with(kind, word[k]));
            }
        }
    }
}

/// Every text is made up of its words and signs, with blanks between them where they would run
/// together.
pub proof fn law_text_is_its_words(chars: Seq<char>)
    requires
        chars.len() <= usize::MAX,
    ensures
        exists|gaps: Seq<Seq<char>>|
            are_spread(words_in(chars), gaps) && chars == #[trigger] spread(
                words_in(chars),
                gaps,
                0,
            ),
        lexed(chars, tokens(chars), words_in(chars)),
{
    lemma_covers(chars, 0);
    let words = words_in(chars);
    let found = tokens(chars);
    assert(words =~= texts_of(chars, found));
    let gaps = gaps_from(chars, 0);
    assert(chars.skip(0) =~= chars);
    assert(are_spread(words, gaps));
    assert forall|i: int| 0 <= i < words.len() implies words[i].len() > 0 && (
    #[trigger] found[i]).kind == kind_of(words[i][0]) && token_text(chars, found, i)
        == words[i] by {
        assert(is_lexeme(words[i]));
    }
}

/// A text that is read as an expression has the form of that expression in the grammar: all of its
/// words, and no other ones.
pub proof fn law_only_the_grammar_is_read(chars: Seq<char>, expr: Expr)
    requires
        chars.len() <= usize::MAX,
        expr_of(chars) == Ok::<Expr, Seq<char>>(expr),
    ensures
        or_form(words_in(chars), expr),
{
    law_text_is_its_words(chars);
    lemma_covers(chars, 0);
    let words = words_in(chars);
    let found = tokens(chars);
    assert(words =~= texts_of(chars, found));
    assert(all_lexemes(words));
    lemma_or_form(chars, found, words, 0, expr, found.len() as int);
    assert(words.subrange(0, found.len() as int) =~= words);
}

/// A syntax error names the word that cannot stand where it stands, and the column of its first
/// character, counted from one; at the end of the text it says so.
pub proof fn law_syntax_errors_name_the_place(chars: Seq<char>, i: int)
    requires
        chars.len() <= usize::MAX,
        0 <= i,
    ensures
        i < words_in(chars).len() ==> exists|column: int, n: Seq<char>|
            {
                let word = words_in(chars)[i];
                &&& #[trigger] is_number(n, column)
                &&& 1 <= column
                &&& column - 1 + word.len() <= chars.len()
                &&& chars.subrange(column - 1, column - 1 + word.len()) == word
                &&& syntax_message(chars, tokens(chars), i) == "unexpected '"@ + word
                    + "' at column "@ + n
            },
        i >= words_in(chars).len() ==> syntax_message(chars, tokens(chars), i)
            == "unexpected end of filter expression"@,
{
    let found = tokens(chars);
    if i < found.len() {
        lemma_tokens_in(chars, 0, i);
        let word = words_in(chars)[i];
        let column = found[i].start + 1;
        lemma_number(column as nat);
        assert(word.len() == found[i].end - found[i].start);
        assert(is_number(decimal(column as nat), column));
    }
}

proof fn lemma_tokens_in(chars: Seq<char>, from: int, i: int)
    requires
        0 <= from,
        chars.len() <= usize::MAX,
        0 <= i < tokens_from(chars, from).len(),
    ensures
        tokens_from(chars, from)[i].start < tokens_from(chars, from)[i].end <= chars.len(),
    decreases chars.len() - from,
{
    if from < chars.len() {
        if is_space(chars[from]) {
            lemma_tokens_in(chars, from + 1, i);
        } else {
            let kind = kind_of(chars[from]);
            let end = token_end(chars, kind, from + 1);
            lemma_token_end(chars, kind, from + 1);
            if i > 0 {
                lemma_tokens_in(chars, end, i - 1);
                assert(tokens_from(chars, from)[i] == tokens_from(chars, end)[i - 1]);
            }
        }
    }
}

} // verus!
