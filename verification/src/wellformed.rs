//! What holds of every parsed filter expression.

use vstd::prelude::*;

use crate::ast::Expr;
use crate::lexer::{is_keyword, is_kind, tokens, Kind, Token};
use crate::parser::{
    expr_of, joined, read_and, read_and_rest, read_ether, read_not, read_or, read_or_rest,
    read_predicate, read_primary, Outcome,
};
use crate::values::mac_from;

verus! {

/// Whether every port range runs upward and every MAC address has six octets.
pub open spec fn is_well_formed(expr: Expr) -> bool
    decreases expr,
{
    match expr {
        Expr::PortRange { start, end, .. } => start <= end,
        Expr::EtherHost { addr, .. } => addr.len() == 6,
        Expr::And(left, right) => is_well_formed(*left) && is_well_formed(*right),
        Expr::Or(left, right) => is_well_formed(*left) && is_well_formed(*right),
        Expr::Not(inner) => is_well_formed(*inner),
        _ => true,
    }
}

/// Whether an expression that was read is well formed.
spec fn is_good(result: Result<Expr, Seq<char>>) -> bool {
    result matches Ok(expr) ==> is_well_formed(expr)
}

spec fn reads_good(outcome: Outcome) -> bool {
    match outcome {
        Outcome::Done(result, _) => is_good(result),
        Outcome::Syntax(_) => true,
    }
}

proof fn lemma_mac_len(parts: Seq<Seq<char>>, i: int, before: Seq<u8>)
    requires
        0 <= i,
        before.len() == i,
        i <= 6,
    ensures
        mac_from(parts, i, before) matches Ok(mac) ==> mac.len() == 6,
    decreases parts.len() - i,
{
    if i < parts.len() && i < 6 {
        if let Ok(byte) = crate::values::hex_byte_of(parts[i]) {
            lemma_mac_len(parts, i + 1, before.push(byte));
        }
    }
}

proof fn lemma_predicate(chars: Seq<char>, found: Seq<Token>, i: int)
    ensures
        reads_good(read_predicate(chars, found, i)),
{
    assert forall|j: int| reads_good(#[trigger] read_ether(chars, found, j)) by {
        assert forall|text: Seq<char>| (#[trigger] crate::values::mac_of(text)) matches Ok(
            mac,
        ) ==> mac.len() == 6 by {
            lemma_mac_len(crate::text::split(text, ':'), 0, Seq::<u8>::empty());
        }
    }
}

proof fn lemma_primary(chars: Seq<char>, found: Seq<Token>, i: int)
    ensures
        reads_good(read_primary(chars, found, i)),
    decreases found.len() - i, 1int,
{
    if is_kind(found, i, Kind::Open) {
        lemma_or(chars, found, i + 1);
    } else {
        lemma_predicate(chars, found, i);
    }
}

proof fn lemma_not(chars: Seq<char>, found: Seq<Token>, i: int)
    ensures
        reads_good(read_not(chars, found, i)),
    decreases found.len() - i, 2int,
{
    if is_keyword(chars, found, i, "not"@) {
        lemma_primary(chars, found, i + 1);
    } else {
        lemma_primary(chars, found, i);
    }
}

proof fn lemma_and_rest(
    chars: Seq<char>,
    found: Seq<Token>,
    left: Result<Expr, Seq<char>>,
    i: int,
)
    requires
        is_good(left),
    ensures
        reads_good(read_and_rest(chars, found, left, i)),
    decreases found.len() - i, 3int,
{
    if crate::parser::and_goes_on(chars, found, i) {
        let from = if is_keyword(chars, found, i, "and"@) {
            i + 1
        } else {
            i
        };
        lemma_not(chars, found, from);
        if let Outcome::Done(right, at) = read_not(chars, found, from) {
            if i < at <= found.len() {
                lemma_and_rest(chars, found, joined(left, right, true), at);
            }
        }
    }
}

proof fn lemma_and(chars: Seq<char>, found: Seq<Token>, i: int)
    ensures
        reads_good(read_and(chars, found, i)),
    decreases found.len() - i, 4int,
{
    lemma_not(chars, found, i);
    if let Outcome::Done(left, at) = read_not(chars, found, i) {
        if i < at <= found.len() {
            lemma_and_rest(chars, found, left, at);
        }
    }
}

proof fn lemma_or_rest(
    chars: Seq<char>,
    found: Seq<Token>,
    left: Result<Expr, Seq<char>>,
    i: int,
)
    requires
        is_good(left),
    ensures
        reads_good(read_or_rest(chars, found, left, i)),
    decreases found.len() - i, 5int,
{
    if is_keyword(chars, found, i, "or"@) {
        lemma_and(chars, found, i + 1);
        if let Outcome::Done(right, at) = read_and(chars, found, i + 1) {
            if i < at <= found.len() {
                lemma_or_rest(chars, found, joined(left, right, false), at);
            }
        }
    }
}

proof fn lemma_or(chars: Seq<char>, found: Seq<Token>, i: int)
    ensures
        reads_good(read_or(chars, found, i)),
    decreases found.len() - i, 6int,
{
    lemma_and(chars, found, i);
    if let Outcome::Done(left, at) = read_and(chars, found, i) {
        if i < at <= found.len() {
            lemma_or_rest(chars, found, left, at);
        }
    }
}

/// In a parsed filter expression every port range runs upward and every MAC address has six
/// octets.
pub proof fn law_parsed_is_well_formed(chars: Seq<char>)
    ensures
        expr_of(chars) matches Ok(expr) ==> is_well_formed(expr),
{
    lemma_or(chars, tokens(chars), 0);
}

} // verus!
