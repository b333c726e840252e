//! How the parts of a filter bind, and the short forms of predicates.

use vstd::prelude::*;

use crate::addr::{Ipv4Addr, Ipv6Addr};
use crate::addr_text::{ipv4_of, ipv4_text};
use crate::ast::{Direction, Expr, HostAddr, NetAddr, RelOp};
use crate::format::mac_text;
use crate::grammar::{
    filter, host_word, in_parens, is_key, is_predicate, lemma_ands, lemma_between, lemma_ends,
    lemma_filter, lemma_ip_at, lemma_ipv4_chars, lemma_keys, lemma_keyword, lemma_last_and,
    lemma_last_or, lemma_leads, lemma_letters, lemma_mac_at, lemma_mask_follows, lemma_negation,
    lemma_no_more_ands, lemma_no_more_ors, lemma_number_at, lemma_one_more_and, lemma_one_more_or,
    lemma_or_ends_ands, lemma_paren, lemma_parens, lemma_part, lemma_predicate, lemma_toward,
    lemma_two_ands, lemma_two_ors, lemma_unnested, lemma_value, operand, qualified, reads,
    same_word, spelled, toward_words, words_of,
};
use crate::lexemes::{are_spread, law_words_are_found, lexed, spread};
use crate::lexer::{is_keyword, is_kind, kind_of, token_text, tokens, Kind, Token};
use crate::notation::{
    glued, has_two_colons, is_tail, law_glued_parts_come_apart, law_only_dotted_is_ipv4,
    law_only_groups_are_ipv6, show_groups,
};
use crate::numerals::{digit_worth, is_numeral, law_digits_are_read, law_hex_digits_are_read, worth};
use crate::parser::{
    and_goes_on, expr_of, is_ip, is_mac_at, is_number_at, joined, looks_like_ip, looks_like_mac,
    looks_like_octet, net_expr, read_ether, MaskText, Outcome,
};
use crate::readings::{
    law_hosts_are_read, law_mac_reads_back, law_macs_are_read, law_numbers_are_read,
    law_prefixes_are_read,
};
use crate::text::{decimal, is_hex_digit};
use crate::values::{address_mask, default_mask, host_of, mac_of, net_of, NetMask};
use crate::wellformed::is_well_formed;

verus! {

/// Five pieces of a text that is spelled are spelled at their places.
proof fn lemma_pieces(
    words: Seq<Seq<char>>,
    one: Seq<Seq<char>>,
    a: Seq<char>,
    two: Seq<Seq<char>>,
    b: Seq<char>,
    three: Seq<Seq<char>>,
)
    requires
        spelled(words, 0, one + seq![a] + two + seq![b] + three),
    ensures
        spelled(words, 0, one),
        same_word(words[one.len() as int], a),
        spelled(words, (one.len() + 1) as int, two),
        same_word(words[(one.len() + 1 + two.len()) as int], b),
        spelled(words, (one.len() + 2 + two.len()) as int, three),
{
    let first = one + seq![a];
    let second = first + two;
    let third = second + seq![b];
    lemma_part(words, 0, third, three);
    lemma_part(words, 0, second, seq![b]);
    lemma_part(words, 0, first, two);
    lemma_part(words, 0, one, seq![a]);
    assert(seq![a][0] == a && seq![b][0] == b);
    assert(same_word(words[one.len() as int + 0], seq![a][0]));
    assert(same_word(words[second.len() as int + 0], seq![b][0]));
}

/// Whether the words are those of an operand: of an expression in parentheses or a predicate, with
/// `not` before it or without.
pub open spec fn writes(asked: Seq<Seq<char>>, expr: Expr) -> bool {
    ||| asked == in_parens(words_of(expr))
    ||| is_predicate(expr) && asked == words_of(expr)
    ||| expr matches Expr::Not(inner) && asked == seq!["not"@] + in_parens(words_of(*inner))
    ||| expr matches Expr::Not(inner) && is_predicate(*inner) && asked == seq!["not"@] + words_of(
        *inner,
    )
}

/// The first word of a predicate joins nothing.
proof fn lemma_first_word(
    chars: Seq<char>,
    found: Seq<Token>,
    words: Seq<Seq<char>>,
    i: int,
    expr: Expr,
)
    requires
        lexed(chars, found, words),
        is_predicate(expr),
        spelled(words, i, words_of(expr)),
    ensures
        words_of(expr).len() > 0,
        i < words.len(),
        is_kind(found, i, Kind::Word),
        !is_keyword(chars, found, i, "or"@),
        !is_keyword(chars, found, i, "and"@),
{
    lemma_keys();
    lemma_letters();
    let asked = words_of(expr);
    assert(asked.len() > 0 && is_key(asked[0]) && asked[0] != "or"@ && asked[0] != "and"@) by {
        match expr {
            Expr::Proto(proto) => {},
            Expr::Host { addr, dir } => {},
            Expr::Port { port, dir } => {},
            Expr::PortRange { start, end, dir } => {},
            Expr::EtherHost { addr, dir } => {},
            Expr::Net { addr, dir } => {},
            Expr::Len { op, len } => {},
            _ => {},
        }
    }
    assert(same_word(words[i + 0], asked[0]));
    lemma_keyword(chars, found, words, i, asked[0]);
}

/// An operand is read where it is written, and starts with no word that joins.
proof fn lemma_written(
    chars: Seq<char>,
    found: Seq<Token>,
    words: Seq<Seq<char>>,
    i: int,
    asked: Seq<Seq<char>>,
    expr: Expr,
)
    requires
        lexed(chars, found, words),
        is_well_formed(expr),
        writes(asked, expr),
        spelled(words, i, asked),
    ensures
        asked.len() > 0,
        operand(chars, found, i, expr, i + asked.len()),
        and_goes_on(chars, found, i),
        !is_keyword(chars, found, i, "and"@),
{
    lemma_keys();
    lemma_letters();
    if asked == in_parens(words_of(expr)) {
        lemma_parens(chars, found, words, i, expr);
        assert(asked[0] == seq!['(']);
        assert(same_word(words[i + 0], asked[0]));
        lemma_paren(chars, found, words, i, '(');
    } else if is_predicate(expr) && asked == words_of(expr) {
        lemma_first_word(chars, found, words, i, expr);
        lemma_predicate(chars, found, words, i, expr);
        lemma_unnested(chars, found, i, expr, i + asked.len());
    } else {
        let inner = *expr->Not_0;
        let word = seq!["not"@];
        let rest = asked.skip(1);
        assert(asked =~= word + rest);
        lemma_part(words, i, word, rest);
        assert(word[0] == "not"@);
        assert(same_word(words[i + 0], word[0]));
        lemma_keyword(chars, found, words, i, "not"@);
        let end = i + asked.len();
        if asked == word + in_parens(words_of(inner)) {
            assert(rest =~= in_parens(words_of(inner)));
            lemma_parens(chars, found, words, i + 1, inner);
        } else {
            assert(rest =~= words_of(inner));
            lemma_predicate(chars, found, words, i + 1, inner);
            lemma_unnested(chars, found, i + 1, inner, end);
        }
        lemma_negation(chars, found, i, inner, end);
    }
}

/// `and` binds tighter than `or`, on either side of it, and both of them to the left.
#[verifier::rlimit(40)]
pub proof fn law_and_binds_tighter_than_or(
    a: Expr,
    b: Expr,
    c: Expr,
    wa: Seq<Seq<char>>,
    wb: Seq<Seq<char>>,
    wc: Seq<Seq<char>>,
    words: Seq<Seq<char>>,
    gaps: Seq<Seq<char>>,
    first_is_and: bool,
    second_is_and: bool,
)
    requires
        is_well_formed(a),
        is_well_formed(b),
        is_well_formed(c),
        writes(wa, a),
        writes(wb, b),
        writes(wc, c),
        ({
            let one = if first_is_and {
                "and"@
            } else {
                "or"@
            };
            let two = if second_is_and {
                "and"@
            } else {
                "or"@
            };
            let asked = wa + seq![one] + wb + seq![two] + wc;
            spelled(words, 0, asked) && words.len() == asked.len()
        }),
        are_spread(words, gaps),
        spread(words, gaps, 0).len() <= usize::MAX,
    ensures
        expr_of(spread(words, gaps, 0)) == Ok::<Expr, Seq<char>>(
            if first_is_and && second_is_and {
                Expr::And(Box::new(Expr::And(Box::new(a), Box::new(b))), Box::new(c))
            } else if first_is_and {
                Expr::Or(Box::new(Expr::And(Box::new(a), Box::new(b))), Box::new(c))
            } else if second_is_and {
                Expr::Or(Box::new(a), Box::new(Expr::And(Box::new(b), Box::new(c))))
            } else {
                Expr::Or(Box::new(Expr::Or(Box::new(a), Box::new(b))), Box::new(c))
            },
        ),
{
    let chars = spread(words, gaps, 0);
    let found = tokens(chars);
    law_words_are_found(words, gaps);
    let one = if first_is_and {
        "and"@
    } else {
        "or"@
    };
    let two = if second_is_and {
        "and"@
    } else {
        "or"@
    };
    lemma_pieces(words, wa, one, wb, two, wc);
    let p = wa.len() as int;
    let q = (p + 1 + wb.len()) as int;
    let end = words.len() as int;
    lemma_keys();
    lemma_letters();
    lemma_written(chars, found, words, 0, wa, a);
    lemma_written(chars, found, words, p + 1, wb, b);
    lemma_written(chars, found, words, q + 1, wc, c);
    lemma_keyword(chars, found, words, p, one);
    lemma_keyword(chars, found, words, q, two);
    lemma_ends(chars, found, words, end);
    let ab = Expr::And(Box::new(a), Box::new(b));
    if first_is_and && second_is_and {
        let abc = Expr::And(Box::new(ab), Box::new(c));
        lemma_no_more_ands(chars, found, abc, end);
        lemma_one_more_and(chars, found, ab, q, q + 1, c, end, abc, end);
        lemma_one_more_and(chars, found, a, p, p + 1, b, q, abc, end);
        lemma_ands(chars, found, 0, a, p, abc, end);
        lemma_last_or(chars, found, 0, abc, end);
    } else if first_is_and {
        lemma_or_ends_ands(chars, found, q);
        lemma_two_ands(chars, found, 0, a, p, b, q);
        lemma_last_and(chars, found, q + 1, c, end);
        lemma_two_ors(chars, found, 0, ab, q, c, end);
    } else if second_is_and {
        let bc = Expr::And(Box::new(b), Box::new(c));
        lemma_or_ends_ands(chars, found, p);
        lemma_last_and(chars, found, 0, a, p);
        lemma_two_ands(chars, found, p + 1, b, q, c, end);
        lemma_two_ors(chars, found, 0, a, p, bc, end);
    } else {
        let either = Expr::Or(Box::new(a), Box::new(b));
        let any = Expr::Or(Box::new(either), Box::new(c));
        lemma_or_ends_ands(chars, found, p);
        lemma_or_ends_ands(chars, found, q);
        lemma_last_and(chars, found, 0, a, p);
        lemma_last_and(chars, found, p + 1, b, q);
        lemma_last_and(chars, found, q + 1, c, end);
        lemma_no_more_ors(chars, found, any, end);
        lemma_one_more_or(chars, found, either, q, c, end, any, end);
        lemma_one_more_or(chars, found, a, p, b, q, any, end);
        lemma_filter(chars, found, 0, a, p, any, end);
    }
    reveal(filter);
}

/// Two operands side by side are joined as with `and`.
#[verifier::rlimit(40)]
pub proof fn law_and_may_be_left_out(
    a: Expr,
    b: Expr,
    wa: Seq<Seq<char>>,
    wb: Seq<Seq<char>>,
    words: Seq<Seq<char>>,
    gaps: Seq<Seq<char>>,
)
    requires
        is_well_formed(a),
        is_well_formed(b),
        writes(wa, a),
        writes(wb, b),
        spelled(words, 0, wa + wb),
        words.len() == (wa + wb).len(),
        are_spread(words, gaps),
        spread(words, gaps, 0).len() <= usize::MAX,
    ensures
        expr_of(spread(words, gaps, 0)) == Ok::<Expr, Seq<char>>(
            Expr::And(Box::new(a), Box::new(b)),
        ),
{
    let chars = spread(words, gaps, 0);
    let found = tokens(chars);
    law_words_are_found(words, gaps);
    lemma_part(words, 0, wa, wb);
    let p = wa.len() as int;
    let end = words.len() as int;
    lemma_written(chars, found, words, 0, wa, a);
    lemma_written(chars, found, words, p, wb, b);
    lemma_ends(chars, found, words, end);
    let both = Expr::And(Box::new(a), Box::new(b));
    lemma_no_more_ands(chars, found, both, end);
    lemma_one_more_and(chars, found, a, p, p, b, end, both, end);
    lemma_ands(chars, found, 0, a, p, both, end);
    lemma_last_or(chars, found, 0, both, end);
    reveal(filter);
}

/// Two operands with a word between them are joined by it, and `not` belongs to the operand that it
/// stands before.
#[verifier::rlimit(40)]
pub proof fn law_not_binds_tightest(
    a: Expr,
    b: Expr,
    wa: Seq<Seq<char>>,
    wb: Seq<Seq<char>>,
    words: Seq<Seq<char>>,
    gaps: Seq<Seq<char>>,
    is_and: bool,
)
    requires
        is_well_formed(a),
        is_well_formed(b),
        writes(wa, a),
        writes(wb, b),
        ({
            let word = if is_and {
                "and"@
            } else {
                "or"@
            };
            let asked = wa + seq![word] + wb;
            spelled(words, 0, asked) && words.len() == asked.len()
        }),
        are_spread(words, gaps),
        spread(words, gaps, 0).len() <= usize::MAX,
    ensures
        expr_of(spread(words, gaps, 0)) == Ok::<Expr, Seq<char>>(
            if is_and {
                Expr::And(Box::new(a), Box::new(b))
            } else {
                Expr::Or(Box::new(a), Box::new(b))
            },
        ),
{
    let chars = spread(words, gaps, 0);
    let found = tokens(chars);
    law_words_are_found(words, gaps);
    let word = if is_and {
        "and"@
    } else {
        "or"@
    };
    lemma_between(chars, found, words, 0, wa, word, wb);
    let p = wa.len() as int;
    let end = words.len() as int;
    lemma_written(chars, found, words, 0, wa, a);
    lemma_written(chars, found, words, p + 1, wb, b);
    lemma_ends(chars, found, words, end);
    if is_and {
        lemma_two_ands(chars, found, 0, a, p, b, end);
        lemma_last_or(chars, found, 0, Expr::And(Box::new(a), Box::new(b)), end);
    } else {
        lemma_or_ends_ands(chars, found, p);
        lemma_last_and(chars, found, 0, a, p);
        lemma_last_and(chars, found, p + 1, b, end);
        lemma_two_ors(chars, found, 0, a, p, b, end);
    }
    reveal(filter);
}

/// A predicate that takes up all words is the filter.
#[verifier::rlimit(40)]
proof fn lemma_alone(words: Seq<Seq<char>>, gaps: Seq<Seq<char>>, expr: Expr)
    requires
        words.len() > 0,
        are_spread(words, gaps),
        spread(words, gaps, 0).len() <= usize::MAX,
        reads(
            spread(words, gaps, 0),
            tokens(spread(words, gaps, 0)),
            0,
            expr,
            words.len() as int,
        ),
    ensures
        expr_of(spread(words, gaps, 0)) == Ok::<Expr, Seq<char>>(expr),
{
    let chars = spread(words, gaps, 0);
    let found = tokens(chars);
    law_words_are_found(words, gaps);
    let end = words.len() as int;
    lemma_ends(chars, found, words, end);
    lemma_unnested(chars, found, 0, expr, end);
    lemma_last_and(chars, found, 0, expr, end);
    lemma_last_or(chars, found, 0, expr, end);
    reveal(filter);
}

/// `greater` and `less` compare the length with a number.
#[verifier::rlimit(40)]
pub proof fn law_greater_and_less(
    n: u32,
    greater: bool,
    words: Seq<Seq<char>>,
    gaps: Seq<Seq<char>>,
)
    requires
        words.len() == 2,
        same_word(
            words[0],
            if greater {
                "greater"@
            } else {
                "less"@
            },
        ),
        same_word(words[1], decimal(n as nat)),
        are_spread(words, gaps),
        spread(words, gaps, 0).len() <= usize::MAX,
    ensures
        expr_of(spread(words, gaps, 0)) == Ok::<Expr, Seq<char>>(
            Expr::Len {
                op: if greater {
                    RelOp::Gt
                } else {
                    RelOp::Lt
                },
                len: n,
            },
        ),
{
    let chars = spread(words, gaps, 0);
    let found = tokens(chars);
    law_words_are_found(words, gaps);
    lemma_keys();
    lemma_letters();
    let key = if greater {
        "greater"@
    } else {
        "less"@
    };
    lemma_keyword(chars, found, words, 0, key);
    lemma_number_at(chars, found, words, 1, n as nat);
    law_numbers_are_read(decimal(n as nat), u32::MAX as nat, "invalid number: "@);
    let op = if greater {
        RelOp::Gt
    } else {
        RelOp::Lt
    };
    assert(reads(chars, found, 0, Expr::Len { op, len: n }, 2)) by {
        reveal(reads);
    }
    lemma_alone(words, gaps, Expr::Len { op, len: n });
}

/// A network with the length of a prefix behind a slash has the mask of that prefix.
#[verifier::rlimit(40)]
pub proof fn law_net_with_prefix(
    host: HostAddr,
    p: nat,
    dir: Direction,
    words: Seq<Seq<char>>,
    gaps: Seq<Seq<char>>,
)
    requires
        ({
            let asked = toward_words(dir, seq!["net"@, host_word(host), seq!['/'], decimal(p)]);
            spelled(words, 0, asked) && words.len() == asked.len()
        }),
        p <= (if host is V4 {
            32nat
        } else {
            128nat
        }),
        are_spread(words, gaps),
        spread(words, gaps, 0).len() <= usize::MAX,
    ensures
        net_of(host, NetMask::Prefix(p as u8)) matches Ok(addr) && expr_of(spread(words, gaps, 0))
            == Ok::<Expr, Seq<char>>(Expr::Net { addr, dir }),
{
    lemma_prefix_value(host, p, dir);
    let addr = net_of(host, NetMask::Prefix(p as u8))->Ok_0;
    assert(slashes(host_word(host), decimal(p), dir, Expr::Net { addr, dir })) by {
        reveal(slashes);
    }
    lemma_slash_words(host, p, Expr::Net { addr, dir }, dir, words, gaps);
}

/// Whether a network with the length of a prefix is read as the expression.
#[verifier::opaque]
pub open spec fn slashes(word: Seq<char>, number: Seq<char>, dir: Direction, expr: Expr) -> bool {
    net_expr(word, MaskText::Prefix(number), dir) == Ok::<Expr, Seq<char>>(expr)
}

#[verifier::rlimit(40)]
proof fn lemma_slash_words(
    host: HostAddr,
    p: nat,
    expr: Expr,
    dir: Direction,
    words: Seq<Seq<char>>,
    gaps: Seq<Seq<char>>,
)
    requires
        slashes(host_word(host), decimal(p), dir, expr),
        words.len() == toward_words(
            dir,
            seq!["net"@, host_word(host), seq!['/'], decimal(p)],
        ).len(),
        spelled(
            words,
            0,
            toward_words(dir, seq!["net"@, host_word(host), seq!['/'], decimal(p)]),
        ),
        are_spread(words, gaps),
        spread(words, gaps, 0).len() <= usize::MAX,
    ensures
        expr_of(spread(words, gaps, 0)) == Ok::<Expr, Seq<char>>(expr),
{
    let chars = spread(words, gaps, 0);
    let found = tokens(chars);
    law_words_are_found(words, gaps);
    let rest = seq![host_word(host), seq!['/'], decimal(p)];
    let all = seq!["net"@] + rest;
    assert(all =~= seq!["net"@, host_word(host), seq!['/'], decimal(p)]);
    let at = lemma_toward(chars, found, words, 0, dir, "net"@, rest);
    assert(same_word(words[at + 1], all[1]));
    assert(same_word(words[at + 2], all[2]));
    assert(same_word(words[at + 3], all[3]));
    lemma_ip_at(chars, found, words, at + 1, host);
    lemma_value(words[at + 2], seq!['/']);
    assert(found[at + 2].kind == kind_of(words[at + 2][0]));
    lemma_number_at(chars, found, words, at + 3, p);
    lemma_slash_follows(chars, found, at, dir, expr);
    lemma_leads(chars, found, 0, at, dir, expr, at + 4);
    lemma_alone(words, gaps, expr);
}

#[verifier::rlimit(40)]
pub proof fn lemma_slash_follows(
    chars: Seq<char>,
    found: Seq<Token>,
    at: int,
    dir: Direction,
    expr: Expr,
)
    requires
        forall|other: Seq<char>| #[trigger]
            is_keyword(chars, found, at, other) == (other == "net"@),
        is_ip(chars, found, at + 1),
        is_kind(found, at + 2, Kind::Slash),
        is_number_at(chars, found, at + 3),
        slashes(token_text(chars, found, at + 1), token_text(chars, found, at + 3), dir, expr),
    ensures
        qualified(chars, found, at, dir, expr, at + 4),
{
    reveal(slashes);
    reveal(qualified);
    lemma_letters();
}

#[verifier::rlimit(40)]
proof fn lemma_prefix_value(host: HostAddr, p: nat, dir: Direction)
    requires
        p <= (if host is V4 {
            32nat
        } else {
            128nat
        }),
    ensures
        net_of(host, NetMask::Prefix(p as u8)) matches Ok(addr) && net_expr(
            host_word(host),
            MaskText::Prefix(decimal(p)),
            dir,
        ) == Ok::<Expr, Seq<char>>(Expr::Net { addr, dir }),
{
    crate::numerals::law_decimal_reads_back(p);
    match host {
        HostAddr::V4(a) => {
            law_hosts_are_read(a, Ipv6Addr { bits: 0 });
            law_prefixes_are_read(decimal(p), a, Ipv6Addr { bits: 0 });
        },
        HostAddr::V6(a) => {
            law_hosts_are_read(Ipv4Addr { bits: 0 }, a);
            law_prefixes_are_read(decimal(p), Ipv4Addr { bits: 0 }, a);
        },
    }
}

/// A network alone has the mask of its class.
#[verifier::rlimit(40)]
pub proof fn law_net_alone(
    host: HostAddr,
    dir: Direction,
    words: Seq<Seq<char>>,
    gaps: Seq<Seq<char>>,
)
    requires
        ({
            let asked = toward_words(dir, seq!["net"@, host_word(host)]);
            spelled(words, 0, asked) && words.len() == asked.len()
        }),
        are_spread(words, gaps),
        spread(words, gaps, 0).len() <= usize::MAX,
    ensures
        net_of(host, default_mask(host)) matches Ok(addr) && expr_of(spread(words, gaps, 0)) == Ok::<
            Expr,
            Seq<char>,
        >(Expr::Net { addr, dir }),
{
    let chars = spread(words, gaps, 0);
    let found = tokens(chars);
    law_words_are_found(words, gaps);
    let rest = seq![host_word(host)];
    let all = seq!["net"@] + rest;
    assert(all =~= seq!["net"@, host_word(host)]);
    let at = lemma_toward(chars, found, words, 0, dir, "net"@, rest);
    assert(same_word(words[at + 1], all[1]));
    lemma_ip_at(chars, found, words, at + 1, host);
    match host {
        HostAddr::V4(a) => {
            law_hosts_are_read(a, Ipv6Addr { bits: 0 });
        },
        HostAddr::V6(a) => {
            law_hosts_are_read(Ipv4Addr { bits: 0 }, a);
        },
    }
    let addr = net_of(host, default_mask(host))->Ok_0;
    assert(qualified(chars, found, at, dir, Expr::Net { addr, dir }, at + 2)) by {
        reveal(qualified);
        lemma_letters();
    }
    lemma_leads(chars, found, 0, at, dir, Expr::Net { addr, dir }, at + 2);
    lemma_alone(words, gaps, Expr::Net { addr, dir });
}

/// The word `host` may be left out behind `ether`.
#[verifier::rlimit(40)]
pub proof fn law_ether_without_host(
    mac: Seq<u8>,
    words: Seq<Seq<char>>,
    gaps: Seq<Seq<char>>,
)
    requires
        mac.len() == 6,
        words.len() == 2,
        same_word(words[0], "ether"@),
        words[1] == mac_text(mac),
        are_spread(words, gaps),
        spread(words, gaps, 0).len() <= usize::MAX,
    ensures
        expr_of(spread(words, gaps, 0)) == Ok::<Expr, Seq<char>>(
            Expr::EtherHost { addr: mac, dir: Direction::Any },
        ),
{
    let chars = spread(words, gaps, 0);
    let found = tokens(chars);
    law_words_are_found(words, gaps);
    lemma_keys();
    lemma_letters();
    lemma_keyword(chars, found, words, 0, "ether"@);
    lemma_mac_at(chars, found, words, 1, mac);
    law_mac_reads_back(mac);
    crate::printed::law_mac_shows_its_bytes(mac);
    assert(crate::text::lower_all(mac_text(mac)).len() == 17);
    let expr = Expr::EtherHost { addr: mac, dir: Direction::Any };
    assert(read_ether(chars, found, 1) == Outcome::Done(Ok(expr), 2));
    assert(reads(chars, found, 0, expr, 2)) by {
        reveal(reads);
    }
    lemma_alone(words, gaps, expr);
}

/// Whether the character may stand in an address, in either case.
pub open spec fn is_address_char(c: char) -> bool {
    digit_worth(c) < 16 || c == ':' || c == '.'
}

pub open spec fn are_address_chars(text: Seq<char>) -> bool {
    forall|i: int| 0 <= i < text.len() ==> is_address_char(#[trigger] text[i])
}

proof fn lemma_glued_chars(parts: Seq<Seq<char>>)
    requires
        forall|i: int| 0 <= i < parts.len() ==> are_address_chars(#[trigger] parts[i]),
    ensures
        are_address_chars(glued(parts, ':')),
        parts.len() > 1 ==> glued(parts, ':').contains(':'),
    decreases parts.len(),
{
    if parts.len() == 1 {
        assert(are_address_chars(parts[0]));
    } else if parts.len() > 1 {
        let front = parts.drop_last();
        assert forall|i: int| 0 <= i < front.len() implies are_address_chars(#[trigger] front[i]) by {
            assert(front[i] == parts[i]);
        }
        lemma_glued_chars(front);
        let start = glued(front, ':');
        let last = parts[parts.len() - 1];
        assert(are_address_chars(last));
        let text = glued(parts, ':');
        assert(text == start + seq![':'] + last);
        assert(text[start.len() as int] == ':');
        assert forall|i: int| 0 <= i < text.len() implies is_address_char(#[trigger] text[i]) by {
            if i < start.len() {
                assert(text[i] == start[i]);
            } else if i > start.len() {
                assert(text[i] == last[i - start.len() - 1]);
            }
        }
    }
}

proof fn lemma_shown_chars(parts: Seq<Seq<char>>, groups: Seq<u16>)
    requires
        show_groups(parts, groups),
    ensures
        forall|i: int| 0 <= i < parts.len() ==> are_address_chars(#[trigger] parts[i]),
{
    assert forall|i: int| 0 <= i < parts.len() implies are_address_chars(#[trigger] parts[i]) by {
        let part = parts[i];
        assert(is_numeral(part, 16));
        assert forall|j: int| 0 <= j < part.len() implies is_address_char(#[trigger] part[j]) by {
            assert(digit_worth(part[j]) < 16);
        }
    }
}

proof fn lemma_dotted_is_address(addr: Ipv4Addr)
    ensures
        are_address_chars(ipv4_text(addr)),
{
    let text = ipv4_text(addr);
    lemma_ipv4_chars(addr);
    assert forall|i: int| 0 <= i < text.len() implies is_address_char(#[trigger] text[i]) by {
        assert('0' <= text[i] <= '9' || text[i] == '.');
    }
}

proof fn lemma_tail_chars(text: Seq<char>, groups: Seq<u16>)
    requires
        is_tail(text, groups),
    ensures
        are_address_chars(text),
        groups.len() > 2 ==> text.contains(':'),
{
    if exists|parts: Seq<Seq<char>>| #[trigger]
        show_groups(parts, groups) && text == glued(parts, ':') {
        let parts = choose|parts: Seq<Seq<char>>| #[trigger]
            show_groups(parts, groups) && text == glued(parts, ':');
        lemma_shown_chars(parts, groups);
        lemma_glued_chars(parts);
    } else {
        let (parts, front, v4) = choose|parts: Seq<Seq<char>>, front: Seq<u16>, v4: Ipv4Addr|
            #[trigger] show_groups(parts, front) && text == glued(
                parts.push(#[trigger] ipv4_text(v4)),
                ':',
            ) && groups == front + seq![
                (v4.bits / 0x1_0000) as u16,
                (v4.bits % 0x1_0000) as u16,
            ];
        let all = parts.push(ipv4_text(v4));
        lemma_shown_chars(parts, front);
        lemma_dotted_is_address(v4);
        assert forall|i: int| 0 <= i < all.len() implies are_address_chars(#[trigger] all[i]) by {
            if i < parts.len() {
                assert(all[i] == parts[i]);
            }
        }
        lemma_glued_chars(all);
    }
}

/// What is read as an address looks like one.
proof fn lemma_address_word(word: Seq<char>)
    requires
        host_of(word) is Ok,
    ensures
        looks_like_ip(word),
        word.len() > 0,
        kind_of(word[0]) == Kind::Word,
{
    assert(are_address_chars(word) && (word.contains(':') || word.contains('.'))) by {
        if ipv4_of(word) is Some {
            law_only_dotted_is_ipv4(word);
            lemma_dotted_is_address(ipv4_of(word)->0);
            lemma_ipv4_chars(ipv4_of(word)->0);
        } else {
            law_only_groups_are_ipv6(word);
            if exists|groups: Seq<u16>| #[trigger] is_tail(word, groups) && groups.len() == 8 {
                let groups = choose|groups: Seq<u16>| #[trigger]
                    is_tail(word, groups) && groups.len() == 8;
                lemma_tail_chars(word, groups);
            } else {
                let (head, first, tail, last) = choose|
                    head: Seq<Seq<char>>,
                    first: Seq<u16>,
                    tail: Seq<char>,
                    last: Seq<u16>,
                | #[trigger]
                    has_two_colons(word, head, first, tail, last);
                lemma_shown_chars(head, first);
                lemma_glued_chars(head);
                lemma_tail_chars(tail, last);
                let start = glued(head, ':');
                assert(word[start.len() as int] == ':');
                assert forall|i: int| 0 <= i < word.len() implies is_address_char(
                    #[trigger] word[i],
                ) by {
                    if i < start.len() {
                        assert(word[i] == start[i]);
                    } else if i >= start.len() + 2 {
                        assert(word[i] == tail[i - start.len() - 2]);
                    }
                }
            }
        }
    }
    law_hex_digits_are_read(word);
    assert forall|j: int| 0 <= j < word.len() implies is_hex_digit(#[trigger] word[j]) || word[j]
        == '.' || word[j] == ':' by {
        assert(is_address_char(word[j]));
    }
    if word.contains(':') {
        let k = choose|k: int| 0 <= k < word.len() && word[k] == ':';
        assert(!is_hex_digit(word[k]));
    } else {
        let k = choose|k: int| 0 <= k < word.len() && word[k] == '.';
        assert(!is_hex_digit(word[k]));
    }
    assert(is_address_char(word[0]));
}

/// A host may be written in any way in which its address can be read.
#[verifier::rlimit(40)]
pub proof fn law_hosts_in_any_notation(
    word: Seq<char>,
    addr: HostAddr,
    dir: Direction,
    words: Seq<Seq<char>>,
    gaps: Seq<Seq<char>>,
)
    requires
        host_of(word) == Ok::<HostAddr, Seq<char>>(addr),
        words.len() == toward_words(dir, seq!["host"@, word]).len(),
        spelled(words, 0, toward_words(dir, seq!["host"@, word])),
        words.last() == word,
        are_spread(words, gaps),
        spread(words, gaps, 0).len() <= usize::MAX,
    ensures
        expr_of(spread(words, gaps, 0)) == Ok::<Expr, Seq<char>>(Expr::Host { addr, dir }),
{
    let chars = spread(words, gaps, 0);
    let found = tokens(chars);
    law_words_are_found(words, gaps);
    let rest = seq![word];
    let all = seq!["host"@] + rest;
    assert(all =~= seq!["host"@, word]);
    let at = lemma_toward(chars, found, words, 0, dir, "host"@, rest);
    assert(words[at + 1] == word);
    lemma_address_at(chars, found, words, at + 1);
    assert(qualified(chars, found, at, dir, Expr::Host { addr, dir }, at + 2)) by {
        reveal(qualified);
    }
    lemma_leads(chars, found, 0, at, dir, Expr::Host { addr, dir }, at + 2);
    lemma_alone(words, gaps, Expr::Host { addr, dir });
}

#[verifier::rlimit(40)]
proof fn lemma_net_expr(
    word: Seq<char>,
    mask: Seq<char>,
    host: HostAddr,
    found_mask: NetMask,
    addr: NetAddr,
    dir: Direction,
)
    requires
        host_of(word) == Ok::<HostAddr, Seq<char>>(host),
        address_mask(mask, host) == Ok::<NetMask, Seq<char>>(found_mask),
        net_of(host, found_mask) == Ok::<NetAddr, Seq<char>>(addr),
    ensures
        net_expr(word, MaskText::Address(mask), dir) == Ok::<Expr, Seq<char>>(
            Expr::Net { addr, dir },
        ),
{
}

/// An address is found where it is written.
pub proof fn lemma_address_at(
    chars: Seq<char>,
    found: Seq<Token>,
    words: Seq<Seq<char>>,
    i: int,
)
    requires
        lexed(chars, found, words),
        0 <= i < words.len(),
        host_of(words[i]) is Ok,
    ensures
        is_ip(chars, found, i),
        token_text(chars, found, i) == words[i],
{
    lemma_address_word(words[i]);
    assert(found[i].kind == kind_of(words[i][0]));
}

/// A network may be written in any way in which its address and its mask can be read.
#[verifier::rlimit(40)]
pub proof fn law_nets_in_any_notation(
    word: Seq<char>,
    mask: Seq<char>,
    host: HostAddr,
    found_mask: NetMask,
    addr: NetAddr,
    dir: Direction,
    words: Seq<Seq<char>>,
    gaps: Seq<Seq<char>>,
)
    requires
        host_of(word) == Ok::<HostAddr, Seq<char>>(host),
        host_of(mask) is Ok,
        address_mask(mask, host) == Ok::<NetMask, Seq<char>>(found_mask),
        net_of(host, found_mask) == Ok::<NetAddr, Seq<char>>(addr),
        words.len() == toward_words(dir, seq!["net"@, word, "mask"@, mask]).len(),
        spelled(words, 0, toward_words(dir, seq!["net"@, word, "mask"@, mask])),
        words[words.len() - 3] == word,
        words[words.len() - 1] == mask,
        are_spread(words, gaps),
        spread(words, gaps, 0).len() <= usize::MAX,
    ensures
        expr_of(spread(words, gaps, 0)) == Ok::<Expr, Seq<char>>(Expr::Net { addr, dir }),
{
    lemma_net_expr(word, mask, host, found_mask, addr, dir);
    assert(masks(word, mask, dir, Expr::Net { addr, dir })) by {
        reveal(masks);
    }
    lemma_address_word(word);
    lemma_address_word(mask);
    lemma_net_words(word, mask, Expr::Net { addr, dir }, dir, words, gaps);
}

/// Whether a network with a mask is read as the expression.
#[verifier::opaque]
pub open spec fn masks(word: Seq<char>, mask: Seq<char>, dir: Direction, expr: Expr) -> bool {
    net_expr(word, MaskText::Address(mask), dir) == Ok::<Expr, Seq<char>>(expr)
}

#[verifier::rlimit(40)]
pub proof fn lemma_masks_follow(
    chars: Seq<char>,
    found: Seq<Token>,
    at: int,
    dir: Direction,
    expr: Expr,
)
    requires
        forall|other: Seq<char>| #[trigger]
            is_keyword(chars, found, at, other) == (other == "net"@),
        is_ip(chars, found, at + 1),
        is_kind(found, at + 2, Kind::Word),
        is_keyword(chars, found, at + 2, "mask"@),
        is_ip(chars, found, at + 3),
        masks(token_text(chars, found, at + 1), token_text(chars, found, at + 3), dir, expr),
    ensures
        qualified(chars, found, at, dir, expr, at + 4),
{
    reveal(masks);
    lemma_mask_follows(chars, found, at, dir, expr);
}

#[verifier::rlimit(40)]
proof fn lemma_net_words(
    word: Seq<char>,
    mask: Seq<char>,
    expr: Expr,
    dir: Direction,
    words: Seq<Seq<char>>,
    gaps: Seq<Seq<char>>,
)
    requires
        masks(word, mask, dir, expr),
        looks_like_ip(word),
        kind_of(word[0]) == Kind::Word,
        looks_like_ip(mask),
        kind_of(mask[0]) == Kind::Word,
        words.len() == toward_words(dir, seq!["net"@, word, "mask"@, mask]).len(),
        spelled(words, 0, toward_words(dir, seq!["net"@, word, "mask"@, mask])),
        words[words.len() - 3] == word,
        words[words.len() - 1] == mask,
        are_spread(words, gaps),
        spread(words, gaps, 0).len() <= usize::MAX,
    ensures
        expr_of(spread(words, gaps, 0)) == Ok::<Expr, Seq<char>>(expr),
{
    let chars = spread(words, gaps, 0);
    let found = tokens(chars);
    law_words_are_found(words, gaps);
    let rest = seq![word, "mask"@, mask];
    let all = seq!["net"@] + rest;
    assert(all =~= seq!["net"@, word, "mask"@, mask]);
    let at = lemma_toward(chars, found, words, 0, dir, "net"@, rest);
    assert(same_word(words[at + 2], all[2]));
    assert(words[at + 1] == word && words[at + 3] == mask);
    assert(found[at + 1].kind == kind_of(words[at + 1][0]));
    assert(found[at + 3].kind == kind_of(words[at + 3][0]));
    lemma_keys();
    lemma_keyword(chars, found, words, at + 2, "mask"@);
    lemma_masks_follow(chars, found, at, dir, expr);
    lemma_leads(chars, found, 0, at, dir, expr, at + 4);
    lemma_alone(words, gaps, expr);
}

/// A port may be written with zeros before it.
#[verifier::rlimit(40)]
pub proof fn law_ports_in_any_notation(
    word: Seq<char>,
    dir: Direction,
    words: Seq<Seq<char>>,
    gaps: Seq<Seq<char>>,
)
    requires
        is_numeral(word, 10),
        worth(word, 10) <= 65535,
        words.len() == toward_words(dir, seq!["port"@, word]).len(),
        spelled(words, 0, toward_words(dir, seq!["port"@, word])),
        words.last() == word,
        are_spread(words, gaps),
        spread(words, gaps, 0).len() <= usize::MAX,
    ensures
        expr_of(spread(words, gaps, 0)) == Ok::<Expr, Seq<char>>(
            Expr::Port { port: worth(word, 10) as u16, dir },
        ),
{
    let chars = spread(words, gaps, 0);
    let found = tokens(chars);
    law_words_are_found(words, gaps);
    let rest = seq![word];
    let all = seq!["port"@] + rest;
    assert(all =~= seq!["port"@, word]);
    let at = lemma_toward(chars, found, words, 0, dir, "port"@, rest);
    assert(words[at + 1] == word);
    law_digits_are_read(word);
    assert(digit_worth(word[0]) < 10);
    assert(found[at + 1].kind == kind_of(words[at + 1][0]));
    assert(is_number_at(chars, found, at + 1));
    law_numbers_are_read(word, 65535, "invalid port: "@);
    let expr = Expr::Port { port: worth(word, 10) as u16, dir };
    assert(qualified(chars, found, at, dir, expr, at + 2)) by {
        reveal(qualified);
        lemma_letters();
    }
    lemma_leads(chars, found, 0, at, dir, expr, at + 2);
    lemma_alone(words, gaps, expr);
}

/// A MAC address may be written with one or two digits for each byte, in either case.
#[verifier::rlimit(40)]
pub proof fn law_macs_in_any_notation(
    parts: Seq<Seq<char>>,
    mac: Seq<u8>,
    words: Seq<Seq<char>>,
    gaps: Seq<Seq<char>>,
)
    requires
        parts.len() == 6,
        mac.len() == 6,
        forall|i: int|
            0 <= i < 6 ==> is_numeral(#[trigger] parts[i], 16) && parts[i].len() <= 2 && worth(
                parts[i],
                16,
            ) == mac[i],
        words.len() == 3,
        same_word(words[0], "ether"@),
        same_word(words[1], "host"@),
        words[2] == glued(parts, ':'),
        are_spread(words, gaps),
        spread(words, gaps, 0).len() <= usize::MAX,
    ensures
        expr_of(spread(words, gaps, 0)) == Ok::<Expr, Seq<char>>(
            Expr::EtherHost { addr: mac, dir: Direction::Any },
        ),
{
    let chars = spread(words, gaps, 0);
    let found = tokens(chars);
    law_words_are_found(words, gaps);
    lemma_keys();
    lemma_letters();
    lemma_keyword(chars, found, words, 0, "ether"@);
    lemma_keyword(chars, found, words, 1, "host"@);
    let text = glued(parts, ':');
    law_macs_are_read(parts);
    assert(mac_of(text)->Ok_0 =~= mac);
    assert forall|k: int| 0 <= k < 6 implies looks_like_octet(#[trigger] parts[k])
        && !parts[k].contains(':') && are_address_chars(parts[k]) by {
        let part = parts[k];
        law_hex_digits_are_read(part);
        assert forall|j: int| 0 <= j < part.len() implies is_hex_digit(#[trigger] part[j])
            && is_address_char(part[j]) by {
            assert(digit_worth(part[j]) < 16);
        }
        if part.contains(':') {
            let j = choose|j: int| 0 <= j < part.len() && part[j] == ':';
            assert(is_hex_digit(part[j]));
        }
    }
    law_glued_parts_come_apart(parts, ':');
    lemma_glued_chars(parts);
    assert(looks_like_mac(text));
    assert(found[2].kind == kind_of(words[2][0]));
    assert(is_address_char(text[0]));
    assert(is_mac_at(chars, found, 2));
    let expr = Expr::EtherHost { addr: mac, dir: Direction::Any };
    assert(read_ether(chars, found, 1) == Outcome::Done(Ok(expr), 3));
    assert(reads(chars, found, 0, expr, 3)) by {
        reveal(reads);
    }
    lemma_alone(words, gaps, expr);
}

/// Of two parts with wrong values, what is wrong with the left one is said.
pub proof fn law_left_errors_come_first(
    left: Seq<char>,
    right: Result<Expr, Seq<char>>,
    expr: Expr,
    and: bool,
)
    ensures
        joined(Err(left), right, and) == Err::<Expr, Seq<char>>(left),
        right matches Err(message) ==> joined(Ok(expr), right, and) == Err::<Expr, Seq<char>>(
            message,
        ),
{
}

/// Hexadecimal numbers with colons between them are made of the characters of addresses.
pub proof fn lemma_numerals_glued(parts: Seq<Seq<char>>)
    requires
        forall|i: int| 0 <= i < parts.len() ==> is_numeral(#[trigger] parts[i], 16),
    ensures
        are_address_chars(glued(parts, ':')),
{
    assert forall|i: int| 0 <= i < parts.len() implies are_address_chars(#[trigger] parts[i]) by {
        let part = parts[i];
        assert(is_numeral(part, 16));
        assert forall|j: int| 0 <= j < part.len() implies is_address_char(#[trigger] part[j]) by {
            assert(digit_worth(part[j]) < 16);
        }
    }
    lemma_glued_chars(parts);
}

} // verus!
