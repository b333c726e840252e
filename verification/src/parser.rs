//! Parse filter expressions.
//!
//! ```text
//! filter    = or
//! or        = and { "or" and }
//! and       = not { [ "and" ] not }
//! not       = [ "not" ] primary
//! primary   = "(" or ")" | predicate
//! predicate = protocol
//!           | [ "src" | "dst" ] ( "host" ip | "port" number | "portrange" number "-" number
//!                               | "net" ip [ "/" number | "mask" ip ] )
//!           | "ether" [ "src" | "dst" ] [ "host" ] mac
//!           | ( "greater" | "less" ) number
//!           | "len" operator number
//! protocol  = "ip" | "ip6" | "tcp" | "udp" | "icmp" | "icmp6" | "arp" | "rarp"
//! ```

use vstd::prelude::*;
use vstd::slice::slice_subrange;

use crate::ast::{Direction, Expr, FilterAst, HostAddr, ParseError, Protocol, RelOp};
use crate::lexer::{
    has_keyword, has_kind, is_keyword, is_kind, text_of, token_text, tokenize, tokens, tokens_in,
    Kind, Token,
};
use crate::text::{
    all_digits, chars_of, decimal, hex_value_of, is_hex_digit, is_number, push_chars, push_decimal, push_text,
    split, split_ranges,
};
use crate::values::{
    address_mask, combine_net, default_mask, default_netmask, error, host_of, mac_of, net_of,
    number_of, parse_address_mask, parse_host_addr, parse_mac, parse_number, parse_prefix_mask,
    parse_relop, prefix_mask, relop_of, NetMask,
};

verus! {

/// What reading a part of a filter expression comes to.
pub enum Outcome {
    /// The token at this index cannot stand there.
    Syntax(int),
    /// The part ends before the token at this index. Its expression, or what is wrong with the
    /// values in it.
    Done(Result<Expr, Seq<char>>, int),
}

/// Whether the token at index `i` has the form of an IP address.
pub open spec fn is_ip(chars: Seq<char>, found: Seq<Token>, i: int) -> bool {
    is_kind(found, i, Kind::Word) && looks_like_ip(token_text(chars, found, i))
}

/// Hexadecimal digits, dots and colons, with a dot or a colon among them.
pub open spec fn looks_like_ip(text: Seq<char>) -> bool {
    &&& forall|j: int|
        0 <= j < text.len() ==> is_hex_digit(#[trigger] text[j]) || text[j] == '.' || text[j] == ':'
    &&& exists|j: int| 0 <= j < text.len() && !is_hex_digit(#[trigger] text[j])
}

/// Whether the token at index `i` is a number.
pub open spec fn is_number_at(chars: Seq<char>, found: Seq<Token>, i: int) -> bool {
    is_kind(found, i, Kind::Word) && all_digits(token_text(chars, found, i))
}

/// One or two hexadecimal digits.
pub open spec fn looks_like_octet(text: Seq<char>) -> bool {
    &&& 1 <= text.len() <= 2
    &&& forall|j: int| 0 <= j < text.len() ==> is_hex_digit(#[trigger] text[j])
}

/// Six groups of one or two hexadecimal digits with colons between them.
pub open spec fn looks_like_mac(text: Seq<char>) -> bool {
    &&& split(text, ':').len() == 6
    &&& forall|j: int| 0 <= j < 6 ==> looks_like_octet(#[trigger] split(text, ':')[j])
}

/// Whether the token at index `i` has the form of a MAC address.
pub open spec fn is_mac_at(chars: Seq<char>, found: Seq<Token>, i: int) -> bool {
    is_kind(found, i, Kind::Word) && looks_like_mac(token_text(chars, found, i))
}

/// The protocol that the token at index `i` names.
pub open spec fn proto_at(chars: Seq<char>, found: Seq<Token>, i: int) -> Option<Protocol> {
    if is_keyword(chars, found, i, "ip"@) {
        Some(Protocol::Ip)
    } else if is_keyword(chars, found, i, "ip6"@) {
        Some(Protocol::Ip6)
    } else if is_keyword(chars, found, i, "tcp"@) {
        Some(Protocol::Tcp)
    } else if is_keyword(chars, found, i, "udp"@) {
        Some(Protocol::Udp)
    } else if is_keyword(chars, found, i, "icmp"@) {
        Some(Protocol::Icmp)
    } else if is_keyword(chars, found, i, "icmp6"@) {
        Some(Protocol::Icmp6)
    } else if is_keyword(chars, found, i, "arp"@) {
        Some(Protocol::Arp)
    } else if is_keyword(chars, found, i, "rarp"@) {
        Some(Protocol::Rarp)
    } else {
        None
    }
}

/// The direction that the token at index `i` names.
pub open spec fn direction_at(chars: Seq<char>, found: Seq<Token>, i: int) -> Direction {
    if is_keyword(chars, found, i, "src"@) {
        Direction::Src
    } else if is_keyword(chars, found, i, "dst"@) {
        Direction::Dst
    } else {
        Direction::Any
    }
}

pub open spec fn host_expr(text: Seq<char>, dir: Direction) -> Result<Expr, Seq<char>> {
    match host_of(text) {
        Ok(addr) => Ok(Expr::Host { addr, dir }),
        Err(message) => Err(message),
    }
}

pub open spec fn port_expr(text: Seq<char>, dir: Direction) -> Result<Expr, Seq<char>> {
    match number_of(text, 65535, "invalid port: "@) {
        Ok(port) => Ok(Expr::Port { port: port as u16, dir }),
        Err(message) => Err(message),
    }
}

pub open spec fn portrange_expr(
    first: Seq<char>,
    last: Seq<char>,
    dir: Direction,
) -> Result<Expr, Seq<char>> {
    match (
        number_of(first, 65535, "invalid number: "@),
        number_of(last, 65535, "invalid number: "@),
    ) {
        (Err(message), _) => Err(message),
        (Ok(_), Err(message)) => Err(message),
        (Ok(start), Ok(end)) => if start > end {
            Err("portrange start port is greater than end port"@)
        } else {
            Ok(Expr::PortRange { start: start as u16, end: end as u16, dir })
        },
    }
}

/// What follows the address of a network.
pub enum MaskText {
    Nothing,
    Prefix(Seq<char>),
    Address(Seq<char>),
}

pub open spec fn net_expr(
    text: Seq<char>,
    mask: MaskText,
    dir: Direction,
) -> Result<Expr, Seq<char>> {
    match host_of(text) {
        Err(message) => Err(message),
        Ok(host) => {
            let mask = match mask {
                MaskText::Nothing => Ok(default_mask(host)),
                MaskText::Prefix(text) => prefix_mask(text, host),
                MaskText::Address(text) => address_mask(text, host),
            };
            match mask {
                Err(message) => Err(message),
                Ok(mask) => match net_of(host, mask) {
                    Err(message) => Err(message),
                    Ok(addr) => Ok(Expr::Net { addr, dir }),
                },
            }
        },
    }
}

/// Reads `host`, `port`, `portrange` or `net` with what follows.
pub open spec fn read_qualified(
    chars: Seq<char>,
    found: Seq<Token>,
    i: int,
    dir: Direction,
) -> Outcome {
    let text = |j: int| token_text(chars, found, j);
    if is_keyword(chars, found, i, "host"@) {
        if is_ip(chars, found, i + 1) {
            Outcome::Done(host_expr(text(i + 1), dir), i + 2)
        } else {
            Outcome::Syntax(i + 1)
        }
    } else if is_keyword(chars, found, i, "port"@) {
        if is_number_at(chars, found, i + 1) {
            Outcome::Done(port_expr(text(i + 1), dir), i + 2)
        } else {
            Outcome::Syntax(i + 1)
        }
    } else if is_keyword(chars, found, i, "portrange"@) {
        if !is_number_at(chars, found, i + 1) {
            Outcome::Syntax(i + 1)
        } else if !is_kind(found, i + 2, Kind::Dash) {
            Outcome::Syntax(i + 2)
        } else if !is_number_at(chars, found, i + 3) {
            Outcome::Syntax(i + 3)
        } else {
            Outcome::Done(portrange_expr(text(i + 1), text(i + 3), dir), i + 4)
        }
    } else if is_keyword(chars, found, i, "net"@) {
        if !is_ip(chars, found, i + 1) {
            Outcome::Syntax(i + 1)
        } else if is_kind(found, i + 2, Kind::Slash) {
            if is_number_at(chars, found, i + 3) {
                Outcome::Done(net_expr(text(i + 1), MaskText::Prefix(text(i + 3)), dir), i + 4)
            } else {
                Outcome::Syntax(i + 3)
            }
        } else if is_keyword(chars, found, i + 2, "mask"@) {
            if is_ip(chars, found, i + 3) {
                Outcome::Done(net_expr(text(i + 1), MaskText::Address(text(i + 3)), dir), i + 4)
            } else {
                Outcome::Syntax(i + 3)
            }
        } else {
            Outcome::Done(net_expr(text(i + 1), MaskText::Nothing, dir), i + 2)
        }
    } else {
        Outcome::Syntax(i)
    }
}

/// Reads what follows `ether`.
pub open spec fn read_ether(chars: Seq<char>, found: Seq<Token>, i: int) -> Outcome {
    let dir = direction_at(chars, found, i);
    let at_host = if dir is Any {
        i
    } else {
        i + 1
    };
    let at_mac = if is_keyword(chars, found, at_host, "host"@) {
        at_host + 1
    } else {
        at_host
    };
    if is_mac_at(chars, found, at_mac) {
        Outcome::Done(
            match mac_of(token_text(chars, found, at_mac)) {
                Ok(addr) => Ok(Expr::EtherHost { addr, dir }),
                Err(message) => Err(message),
            },
            at_mac + 1,
        )
    } else {
        Outcome::Syntax(at_mac)
    }
}

pub open spec fn len_expr(op: RelOp, text: Seq<char>) -> Result<Expr, Seq<char>> {
    match number_of(text, u32::MAX as nat, "invalid number: "@) {
        Ok(len) => Ok(Expr::Len { op, len: len as u32 }),
        Err(message) => Err(message),
    }
}

/// Reads what follows `greater` or `less`.
pub open spec fn read_shortcut(
    chars: Seq<char>,
    found: Seq<Token>,
    i: int,
    op: RelOp,
) -> Outcome {
    if is_number_at(chars, found, i) {
        Outcome::Done(len_expr(op, token_text(chars, found, i)), i + 1)
    } else {
        Outcome::Syntax(i)
    }
}

/// Reads what follows `len`.
pub open spec fn read_len(chars: Seq<char>, found: Seq<Token>, i: int) -> Outcome {
    if !is_kind(found, i, Kind::Operator) || relop_of(token_text(chars, found, i)) is None {
        Outcome::Syntax(i)
    } else if !is_number_at(chars, found, i + 1) {
        Outcome::Syntax(i + 1)
    } else {
        Outcome::Done(
            len_expr(
                relop_of(token_text(chars, found, i))->0,
                token_text(chars, found, i + 1),
            ),
            i + 2,
        )
    }
}

/// Reads a predicate.
pub open spec fn read_predicate(chars: Seq<char>, found: Seq<Token>, i: int) -> Outcome {
    let dir = direction_at(chars, found, i);
    if dir !is Any {
        read_qualified(chars, found, i + 1, dir)
    } else if proto_at(chars, found, i) is Some {
        Outcome::Done(Ok(Expr::Proto(proto_at(chars, found, i)->0)), i + 1)
    } else if is_keyword(chars, found, i, "ether"@) {
        read_ether(chars, found, i + 1)
    } else if is_keyword(chars, found, i, "greater"@) {
        read_shortcut(chars, found, i + 1, RelOp::Gt)
    } else if is_keyword(chars, found, i, "less"@) {
        read_shortcut(chars, found, i + 1, RelOp::Lt)
    } else if is_keyword(chars, found, i, "len"@) {
        read_len(chars, found, i + 1)
    } else {
        read_qualified(chars, found, i, Direction::Any)
    }
}

/// Two expressions as one; what is wrong with the left one comes first.
pub open spec fn joined(
    left: Result<Expr, Seq<char>>,
    right: Result<Expr, Seq<char>>,
    and: bool,
) -> Result<Expr, Seq<char>> {
    match (left, right) {
        (Err(message), _) => Err(message),
        (Ok(_), Err(message)) => Err(message),
        (Ok(left), Ok(right)) => if and {
            Ok(Expr::And(Box::new(left), Box::new(right)))
        } else {
            Ok(Expr::Or(Box::new(left), Box::new(right)))
        },
    }
}

pub open spec fn negated(inner: Result<Expr, Seq<char>>) -> Result<Expr, Seq<char>> {
    match inner {
        Err(message) => Err(message),
        Ok(inner) => Ok(Expr::Not(Box::new(inner))),
    }
}

/// Reads an expression in parentheses, or a predicate.
pub open spec fn read_primary(chars: Seq<char>, found: Seq<Token>, i: int) -> Outcome
    decreases found.len() - i, 1int,
{
    if is_kind(found, i, Kind::Open) {
        match read_or(chars, found, i + 1) {
            Outcome::Syntax(at) => Outcome::Syntax(at),
            Outcome::Done(inner, at) => if is_kind(found, at, Kind::Close) {
                Outcome::Done(inner, at + 1)
            } else {
                Outcome::Syntax(at)
            },
        }
    } else {
        read_predicate(chars, found, i)
    }
}

pub open spec fn read_not(chars: Seq<char>, found: Seq<Token>, i: int) -> Outcome
    decreases found.len() - i, 2int,
{
    if is_keyword(chars, found, i, "not"@) {
        match read_primary(chars, found, i + 1) {
            Outcome::Syntax(at) => Outcome::Syntax(at),
            Outcome::Done(inner, at) => Outcome::Done(negated(inner), at),
        }
    } else {
        read_primary(chars, found, i)
    }
}

/// Whether another operand of `and` follows; the word itself may be left out.
pub open spec fn and_goes_on(chars: Seq<char>, found: Seq<Token>, i: int) -> bool {
    0 <= i < found.len() && !is_keyword(chars, found, i, "or"@) && !is_kind(found, i, Kind::Close)
}

/// Reads the operands of `and` that follow `left`.
pub open spec fn read_and_rest(
    chars: Seq<char>,
    found: Seq<Token>,
    left: Result<Expr, Seq<char>>,
    i: int,
) -> Outcome
    decreases found.len() - i, 3int,
{
    if and_goes_on(chars, found, i) {
        let from = if is_keyword(chars, found, i, "and"@) {
            i + 1
        } else {
            i
        };
        match read_not(chars, found, from) {
            Outcome::Syntax(at) => Outcome::Syntax(at),
            Outcome::Done(right, at) => if i < at <= found.len() {
                read_and_rest(chars, found, joined(left, right, true), at)
            } else {
                Outcome::Syntax(at)
            },
        }
    } else {
        Outcome::Done(left, i)
    }
}

pub open spec fn read_and(chars: Seq<char>, found: Seq<Token>, i: int) -> Outcome
    decreases found.len() - i, 4int,
{
    match read_not(chars, found, i) {
        Outcome::Syntax(at) => Outcome::Syntax(at),
        Outcome::Done(left, at) => if i < at <= found.len() {
            read_and_rest(chars, found, left, at)
        } else {
            Outcome::Syntax(at)
        },
    }
}

/// Reads the operands of `or` that follow `left`.
pub open spec fn read_or_rest(
    chars: Seq<char>,
    found: Seq<Token>,
    left: Result<Expr, Seq<char>>,
    i: int,
) -> Outcome
    decreases found.len() - i, 5int,
{
    if is_keyword(chars, found, i, "or"@) {
        match read_and(chars, found, i + 1) {
            Outcome::Syntax(at) => Outcome::Syntax(at),
            Outcome::Done(right, at) => if i < at <= found.len() {
                read_or_rest(chars, found, joined(left, right, false), at)
            } else {
                Outcome::Syntax(at)
            },
        }
    } else {
        Outcome::Done(left, i)
    }
}

pub open spec fn read_or(chars: Seq<char>, found: Seq<Token>, i: int) -> Outcome
    decreases found.len() - i, 6int,
{
    match read_and(chars, found, i) {
        Outcome::Syntax(at) => Outcome::Syntax(at),
        Outcome::Done(left, at) => if i < at <= found.len() {
            read_or_rest(chars, found, left, at)
        } else {
            Outcome::Syntax(at)
        },
    }
}

/// The text of a syntax error at the token at index `i`.
pub open spec fn syntax_message(chars: Seq<char>, found: Seq<Token>, i: int) -> Seq<char> {
    if 0 <= i < found.len() {
        "unexpected '"@ + token_text(chars, found, i) + "' at column "@ + decimal(
            (found[i].start + 1) as nat,
        )
    } else {
        "unexpected end of filter expression"@
    }
}

/// The expression that the text stands for, or what is wrong with it.
pub open spec fn expr_of(chars: Seq<char>) -> Result<Expr, Seq<char>> {
    let found = tokens(chars);
    match read_or(chars, found, 0) {
        Outcome::Syntax(at) => Err(syntax_message(chars, found, at)),
        Outcome::Done(result, at) => if at == found.len() {
            result
        } else {
            Err(syntax_message(chars, found, at))
        },
    }
}

/// Whether the built expression is the one that was read, or the error is.
pub open spec fn same(
    built: Result<FilterAst, ParseError>,
    read: Result<Expr, Seq<char>>,
) -> bool {
    match (built, read) {
        (Ok(ast), Ok(expr)) => ast@ == expr,
        (Err(error), Err(message)) => error.0@ == message,
        _ => false,
    }
}

/// What reading gives: the expression that was built and the index of the next token, or the
/// index of a token that cannot stand there.
type Reading = Result<(Result<FilterAst, ParseError>, usize), usize>;

/// Whether the reading from token `i` on is the outcome, and takes up at least that token.
spec fn agrees(reading: Reading, outcome: Outcome, i: int, len: nat) -> bool {
    match (reading, outcome) {
        (Err(found), Outcome::Syntax(at)) => found == at,
        (Ok((built, found)), Outcome::Done(read, at)) => found == at && i < at <= len && same(
            built,
            read,
        ),
        _ => false,
    }
}

fn has_ip(chars: &[char], found: &[Token], i: usize) -> (yes: bool)
    requires
        tokens_in(chars@, found@),
    ensures
        yes == is_ip(chars@, found@, i as int),
{
    if !has_kind(found, i, Kind::Word) {
        return false;
    }
    let token: Token = found[i];
    assert(found@[i as int] == token);
    let text: &[char] = text_of(chars, token);
    let mut sign: bool = false;
    let mut j: usize = 0;
    while j < text.len()
        invariant
            is_kind(found@, i as int, Kind::Word),
            text@ == token_text(chars@, found@, i as int),
            0 <= j <= text@.len(),
            forall|k: int|
                0 <= k < j ==> is_hex_digit(#[trigger] text@[k]) || text@[k] == '.' || text@[k]
                    == ':',
            sign == exists|k: int| 0 <= k < j && !is_hex_digit(#[trigger] text@[k]),
        decreases text@.len() - j,
    {
        let c: char = text[j];
        if c == '.' || c == ':' {
            assert(!is_hex_digit(text@[j as int]));
            sign = true;
        } else if hex_value_of(c).is_none() {
            assert(!is_hex_digit(text@[j as int]));
            return false;
        }
        j = j + 1;
    }
    sign
}

fn has_number(chars: &[char], found: &[Token], i: usize) -> (yes: bool)
    requires
        tokens_in(chars@, found@),
    ensures
        yes == is_number_at(chars@, found@, i as int),
{
    if !has_kind(found, i, Kind::Word) {
        return false;
    }
    let token: Token = found[i];
    assert(found@[i as int] == token);
    is_number(text_of(chars, token))
}

fn has_mac(chars: &[char], found: &[Token], i: usize) -> (yes: bool)
    requires
        tokens_in(chars@, found@),
    ensures
        yes == is_mac_at(chars@, found@, i as int),
{
    if !has_kind(found, i, Kind::Word) {
        return false;
    }
    let token: Token = found[i];
    assert(found@[i as int] == token);
    let text: &[char] = text_of(chars, token);
    let parts: Vec<(usize, usize)> = split_ranges(text, ':');
    let ghost all = split(text@, ':');
    if parts.len() != 6 {
        return false;
    }
    let mut j: usize = 0;
    while j < 6
        invariant
            is_kind(found@, i as int, Kind::Word),
            text@ == token_text(chars@, found@, i as int),
            0 <= j <= 6,
            parts@.len() == 6,
            all.len() == 6,
            all == split(text@, ':'),
            forall|k: int|
                0 <= k < parts@.len() ==> (#[trigger] parts@[k]).0 <= parts@[k].1 <= text@.len()
                    && text@.subrange(parts@[k].0 as int, parts@[k].1 as int) == all[k],
            forall|k: int| 0 <= k < j ==> looks_like_octet(#[trigger] all[k]),
        decreases 6 - j,
    {
        let (start, end) = parts[j];
        assert(parts@[j as int] == (start, end));
        let part: &[char] = slice_subrange(text, start, end);
        assert(part@ == all[j as int]);
        let good: bool = (part.len() == 1 && hex_value_of(part[0]).is_some()) || (part.len() == 2
            && hex_value_of(part[0]).is_some() && hex_value_of(part[1]).is_some());
        if !good {
            assert(!looks_like_octet(all[j as int])) by {
                if looks_like_octet(all[j as int]) {
                    assert(is_hex_digit(part@[0]));
                    if part@.len() == 2 {
                        assert(is_hex_digit(part@[1]));
                    }
                }
            }
            return false;
        }
        assert(looks_like_octet(all[j as int]));
        j = j + 1;
    }
    true
}

spec fn proto_at_index(chars: Seq<char>, found: Seq<Token>, i: usize) -> Option<Protocol> {
    proto_at(chars, found, i as int)
}

fn read_proto(chars: &[char], found: &[Token], i: usize) -> (proto: Option<Protocol>)
    requires
        tokens_in(chars@, found@),
    ensures
        proto == proto_at_index(chars@, found@, i),
{
    if has_keyword(chars, found, i, "ip") {
        Some(Protocol::Ip)
    } else if has_keyword(chars, found, i, "ip6") {
        Some(Protocol::Ip6)
    } else if has_keyword(chars, found, i, "tcp") {
        Some(Protocol::Tcp)
    } else if has_keyword(chars, found, i, "udp") {
        Some(Protocol::Udp)
    } else if has_keyword(chars, found, i, "icmp") {
        Some(Protocol::Icmp)
    } else if has_keyword(chars, found, i, "icmp6") {
        Some(Protocol::Icmp6)
    } else if has_keyword(chars, found, i, "arp") {
        Some(Protocol::Arp)
    } else if has_keyword(chars, found, i, "rarp") {
        Some(Protocol::Rarp)
    } else {
        None
    }
}

fn read_direction(chars: &[char], found: &[Token], i: usize) -> (dir: Direction)
    requires
        tokens_in(chars@, found@),
    ensures
        dir == direction_at(chars@, found@, i as int),
{
    if has_keyword(chars, found, i, "src") {
        Direction::Src
    } else if has_keyword(chars, found, i, "dst") {
        Direction::Dst
    } else {
        Direction::Any
    }
}

/// The characters of the token at index `i`.
fn word_text<'a>(chars: &'a [char], found: &[Token], i: usize) -> (text: &'a [char])
    requires
        tokens_in(chars@, found@),
        i < found@.len(),
    ensures
        text@ == token_text(chars@, found@, i as int),
{
    let token: Token = found[i];
    assert(found@[i as int] == token);
    text_of(chars, token)
}

fn build_host(text: &[char], dir: Direction) -> (built: Result<FilterAst, ParseError>)
    ensures
        same(built, host_expr(text@, dir)),
{
    match parse_host_addr(text) {
        Ok(addr) => Ok(FilterAst::Host { addr, dir }),
        Err(e) => Err(e),
    }
}

fn build_port(text: &[char], dir: Direction) -> (built: Result<FilterAst, ParseError>)
    requires
        all_digits(text@),
    ensures
        same(built, port_expr(text@, dir)),
{
    match parse_number(text, 65535, "invalid port: ") {
        Ok(port) => Ok(FilterAst::Port { port: port as u16, dir }),
        Err(e) => Err(e),
    }
}

fn build_portrange(first: &[char], last: &[char], dir: Direction) -> (built: Result<
    FilterAst,
    ParseError,
>)
    requires
        all_digits(first@),
        all_digits(last@),
    ensures
        same(built, portrange_expr(first@, last@, dir)),
{
    let start: u32 = match parse_number(first, 65535, "invalid number: ") {
        Ok(start) => start,
        Err(e) => return Err(e),
    };
    let end: u32 = match parse_number(last, 65535, "invalid number: ") {
        Ok(end) => end,
        Err(e) => return Err(e),
    };
    if start > end {
        return Err(error("portrange start port is greater than end port"));
    }
    Ok(FilterAst::PortRange { start: start as u16, end: end as u16, dir })
}

fn build_net(host: HostAddr, mask: Result<NetMask, ParseError>, dir: Direction) -> (built: Result<
    FilterAst,
    ParseError,
>)
    requires
        mask matches Ok(NetMask::Prefix(p)) ==> p <= 128 && (host is V4 ==> p <= 32),
    ensures
        match (built, mask) {
            (Err(error), Err(message)) => error == message,
            (_, Err(_)) => false,
            (Ok(ast), Ok(mask)) => net_of(host, mask) matches Ok(addr) && ast@ == (Expr::Net {
                addr,
                dir,
            }),
            (Err(error), Ok(mask)) => net_of(host, mask) matches Err(message) && error.0@
                == message,
        },
{
    match mask {
        Err(e) => Err(e),
        Ok(mask) => match combine_net(host, mask) {
            Err(e) => Err(e),
            Ok(addr) => Ok(FilterAst::Net { addr, dir }),
        },
    }
}

fn read_net_tokens(chars: &[char], found: &[Token], i: usize, dir: Direction) -> (reading: Reading)
    requires
        tokens_in(chars@, found@),
        is_keyword(chars@, found@, i as int, "net"@),
        !is_keyword(chars@, found@, i as int, "host"@),
        !is_keyword(chars@, found@, i as int, "port"@),
        !is_keyword(chars@, found@, i as int, "portrange"@),
    ensures
        agrees(
            reading,
            read_qualified(chars@, found@, i as int, dir),
            i as int,
            found@.len(),
        ),
{
    let len: usize = found.len();
    if !has_ip(chars, found, i + 1) {
        return Err(i + 1);
    }
    let host: Result<HostAddr, ParseError> = parse_host_addr(word_text(chars, found, i + 1));
    if has_kind(found, i + 2, Kind::Slash) {
        if !has_number(chars, found, i + 3) {
            return Err(i + 3);
        }
        let built: Result<FilterAst, ParseError> = match host {
            Err(e) => Err(e),
            Ok(host) => build_net(
                host,
                parse_prefix_mask(word_text(chars, found, i + 3), &host),
                dir,
            ),
        };
        Ok((built, i + 4))
    } else if has_keyword(chars, found, i + 2, "mask") {
        if !has_ip(chars, found, i + 3) {
            return Err(i + 3);
        }
        let built: Result<FilterAst, ParseError> = match host {
            Err(e) => Err(e),
            Ok(host) => build_net(
                host,
                parse_address_mask(word_text(chars, found, i + 3), &host),
                dir,
            ),
        };
        Ok((built, i + 4))
    } else {
        let built: Result<FilterAst, ParseError> = match host {
            Err(e) => Err(e),
            Ok(host) => build_net(host, Ok(default_netmask(&host)), dir),
        };
        Ok((built, i + 2))
    }
}

fn read_qualified_tokens(chars: &[char], found: &[Token], i: usize, dir: Direction) -> (reading:
    Reading)
    requires
        tokens_in(chars@, found@),
        i <= found@.len(),
    ensures
        agrees(
            reading,
            read_qualified(chars@, found@, i as int, dir),
            i as int,
            found@.len(),
        ),
{
    let len: usize = found.len();
    if has_keyword(chars, found, i, "host") {
        if has_ip(chars, found, i + 1) {
            Ok((build_host(word_text(chars, found, i + 1), dir), i + 2))
        } else {
            Err(i + 1)
        }
    } else if has_keyword(chars, found, i, "port") {
        if has_number(chars, found, i + 1) {
            Ok((build_port(word_text(chars, found, i + 1), dir), i + 2))
        } else {
            Err(i + 1)
        }
    } else if has_keyword(chars, found, i, "portrange") {
        if !has_number(chars, found, i + 1) {
            Err(i + 1)
        } else if !has_kind(found, i + 2, Kind::Dash) {
            Err(i + 2)
        } else if !has_number(chars, found, i + 3) {
            Err(i + 3)
        } else {
            let first: &[char] = word_text(chars, found, i + 1);
            let last: &[char] = word_text(chars, found, i + 3);
            Ok((build_portrange(first, last, dir), i + 4))
        }
    } else if has_keyword(chars, found, i, "net") {
        read_net_tokens(chars, found, i, dir)
    } else {
        Err(i)
    }
}

fn read_ether_tokens(chars: &[char], found: &[Token], i: usize) -> (reading: Reading)
    requires
        tokens_in(chars@, found@),
        i <= found@.len(),
    ensures
        agrees(reading, read_ether(chars@, found@, i as int), i as int, found@.len()),
{
    let len: usize = found.len();
    let dir: Direction = read_direction(chars, found, i);
    let at_host: usize = if dir == Direction::Any {
        i
    } else {
        i + 1
    };
    let at_mac: usize = if has_keyword(chars, found, at_host, "host") {
        at_host + 1
    } else {
        at_host
    };
    if !has_mac(chars, found, at_mac) {
        return Err(at_mac);
    }
    let built: Result<FilterAst, ParseError> = match parse_mac(word_text(chars, found, at_mac)) {
        Ok(addr) => Ok(FilterAst::EtherHost { addr, dir }),
        Err(e) => Err(e),
    };
    Ok((built, at_mac + 1))
}

fn build_len(op: RelOp, text: &[char]) -> (built: Result<FilterAst, ParseError>)
    requires
        all_digits(text@),
    ensures
        same(built, len_expr(op, text@)),
{
    match parse_number(text, u32::MAX, "invalid number: ") {
        Ok(len) => Ok(FilterAst::Len { op, len }),
        Err(e) => Err(e),
    }
}

fn read_shortcut_tokens(chars: &[char], found: &[Token], i: usize, op: RelOp) -> (reading: Reading)
    requires
        tokens_in(chars@, found@),
        i <= found@.len(),
    ensures
        agrees(reading, read_shortcut(chars@, found@, i as int, op), i as int, found@.len()),
{
    let len: usize = found.len();
    if !has_number(chars, found, i) {
        return Err(i);
    }
    Ok((build_len(op, word_text(chars, found, i)), i + 1))
}

fn read_len_tokens(chars: &[char], found: &[Token], i: usize) -> (reading: Reading)
    requires
        tokens_in(chars@, found@),
        i <= found@.len(),
    ensures
        agrees(reading, read_len(chars@, found@, i as int), i as int, found@.len()),
{
    let len: usize = found.len();
    if !has_kind(found, i, Kind::Operator) {
        return Err(i);
    }
    let op: RelOp = match parse_relop(word_text(chars, found, i)) {
        Some(op) => op,
        None => return Err(i),
    };
    if !has_number(chars, found, i + 1) {
        return Err(i + 1);
    }
    Ok((build_len(op, word_text(chars, found, i + 1)), i + 2))
}

fn read_predicate_tokens(chars: &[char], found: &[Token], i: usize) -> (reading: Reading)
    requires
        tokens_in(chars@, found@),
        i <= found@.len(),
    ensures
        agrees(reading, read_predicate(chars@, found@, i as int), i as int, found@.len()),
{
    let len: usize = found.len();
    let dir: Direction = read_direction(chars, found, i);
    if dir != Direction::Any {
        return read_qualified_tokens(chars, found, i + 1, dir);
    }
    if let Some(proto) = read_proto(chars, found, i) {
        return Ok((Ok(FilterAst::Proto(proto)), i + 1));
    }
    if has_keyword(chars, found, i, "ether") {
        read_ether_tokens(chars, found, i + 1)
    } else if has_keyword(chars, found, i, "greater") {
        read_shortcut_tokens(chars, found, i + 1, RelOp::Gt)
    } else if has_keyword(chars, found, i, "less") {
        read_shortcut_tokens(chars, found, i + 1, RelOp::Lt)
    } else if has_keyword(chars, found, i, "len") {
        read_len_tokens(chars, found, i + 1)
    } else {
        read_qualified_tokens(chars, found, i, Direction::Any)
    }
}

fn join(
    left: Result<FilterAst, ParseError>,
    right: Result<FilterAst, ParseError>,
    and: bool,
) -> (built: Result<FilterAst, ParseError>)
    ensures
        forall|one: Result<Expr, Seq<char>>, two: Result<Expr, Seq<char>>|
            #![trigger same(left, one), same(right, two)]
            same(left, one) && same(right, two) ==> same(built, joined(one, two, and)),
{
    match (left, right) {
        (Err(e), _) => Err(e),
        (Ok(_), Err(e)) => Err(e),
        (Ok(left), Ok(right)) => {
            if and {
                Ok(FilterAst::And(Box::new(left), Box::new(right)))
            } else {
                Ok(FilterAst::Or(Box::new(left), Box::new(right)))
            }
        },
    }
}

fn read_primary_tokens(chars: &[char], found: &[Token], i: usize) -> (reading: Reading)
    requires
        tokens_in(chars@, found@),
        i <= found@.len(),
    ensures
        agrees(reading, read_primary(chars@, found@, i as int), i as int, found@.len()),
    decreases found@.len() - i, 1int,
{
    let len: usize = found.len();
    if has_kind(found, i, Kind::Open) {
        match read_or_tokens(chars, found, i + 1) {
            Err(at) => Err(at),
            Ok((inner, at)) => {
                if has_kind(found, at, Kind::Close) {
                    Ok((inner, at + 1))
                } else {
                    Err(at)
                }
            },
        }
    } else {
        read_predicate_tokens(chars, found, i)
    }
}

fn read_not_tokens(chars: &[char], found: &[Token], i: usize) -> (reading: Reading)
    requires
        tokens_in(chars@, found@),
        i <= found@.len(),
    ensures
        agrees(reading, read_not(chars@, found@, i as int), i as int, found@.len()),
    decreases found@.len() - i, 2int,
{
    let len: usize = found.len();
    if has_keyword(chars, found, i, "not") {
        match read_primary_tokens(chars, found, i + 1) {
            Err(at) => Err(at),
            Ok((Err(e), at)) => Ok((Err(e), at)),
            Ok((Ok(inner), at)) => Ok((Ok(FilterAst::Not(Box::new(inner))), at)),
        }
    } else {
        read_primary_tokens(chars, found, i)
    }
}

fn read_and_tokens(chars: &[char], found: &[Token], i: usize) -> (reading: Reading)
    requires
        tokens_in(chars@, found@),
        i <= found@.len(),
    ensures
        agrees(reading, read_and(chars@, found@, i as int), i as int, found@.len()),
    decreases found@.len() - i, 4int,
{
    let len: usize = found.len();
    let (mut left, mut at) = match read_not_tokens(chars, found, i) {
        Err(at) => return Err(at),
        Ok((built, at)) => (built, at),
    };
    let ghost mut read = match read_not(chars@, found@, i as int) {
        Outcome::Done(read, _) => read,
        Outcome::Syntax(_) => Err(Seq::empty()),
    };
    while at < found.len() && !has_keyword(chars, found, at, "or") && !has_kind(
        found,
        at,
        Kind::Close,
    )
        invariant
            tokens_in(chars@, found@),
            i < at <= found@.len(),
            same(left, read),
            read_and(chars@, found@, i as int) == read_and_rest(chars@, found@, read, at as int),
        decreases found@.len() - at,
    {
        let from: usize = if has_keyword(chars, found, at, "and") {
            at + 1
        } else {
            at
        };
        let (right, next) = match read_not_tokens(chars, found, from) {
            Err(at) => return Err(at),
            Ok((built, at)) => (built, at),
        };
        let ghost two = match read_not(chars@, found@, from as int) {
            Outcome::Done(read, _) => read,
            Outcome::Syntax(_) => Err(Seq::empty()),
        };
        assert(same(left, read) && same(right, two));
        left = join(left, right, true);
        proof {
            read = joined(read, two, true);
        }
        at = next;
    }
    Ok((left, at))
}

fn read_or_tokens(chars: &[char], found: &[Token], i: usize) -> (reading: Reading)
    requires
        tokens_in(chars@, found@),
        i <= found@.len(),
    ensures
        agrees(reading, read_or(chars@, found@, i as int), i as int, found@.len()),
    decreases found@.len() - i, 6int,
{
    let len: usize = found.len();
    let (mut left, mut at) = match read_and_tokens(chars, found, i) {
        Err(at) => return Err(at),
        Ok((built, at)) => (built, at),
    };
    let ghost mut read = match read_and(chars@, found@, i as int) {
        Outcome::Done(read, _) => read,
        Outcome::Syntax(_) => Err(Seq::empty()),
    };
    while has_keyword(chars, found, at, "or")
        invariant
            tokens_in(chars@, found@),
            i < at <= found@.len(),
            len == found@.len(),
            same(left, read),
            read_or(chars@, found@, i as int) == read_or_rest(chars@, found@, read, at as int),
        decreases found@.len() - at,
    {
        let (right, next) = match read_and_tokens(chars, found, at + 1) {
            Err(at) => return Err(at),
            Ok((built, at)) => (built, at),
        };
        let ghost two = match read_and(chars@, found@, at + 1) {
            Outcome::Done(read, _) => read,
            Outcome::Syntax(_) => Err(Seq::empty()),
        };
        assert(same(left, read) && same(right, two));
        left = join(left, right, false);
        proof {
            read = joined(read, two, false);
        }
        at = next;
    }
    Ok((left, at))
}

fn syntax_error(chars: &[char], found: &[Token], i: usize) -> (error: ParseError)
    requires
        tokens_in(chars@, found@),
    ensures
        error.0@ == syntax_message(chars@, found@, i as int),
{
    if i < found.len() {
        let start: usize = found[i].start;
        let mut message: String = "unexpected '".to_owned();
        push_chars(&mut message, word_text(chars, found, i));
        push_text(&mut message, "' at column ");
        assert(found@[i as int].start < chars@.len());
        let total: usize = chars.len();
        push_decimal(&mut message, (start + 1) as u128);
        ParseError(message)
    } else {
        error("unexpected end of filter expression")
    }
}

/// Parse a filter expression string into an AST.
pub fn parse(input: &str) -> (result: Result<FilterAst, ParseError>)
    ensures
        match (result, expr_of(input@)) {
            (Ok(ast), Ok(expr)) => ast@ == expr,
            (Err(error), Err(message)) => error.0@ == message,
            _ => false,
        },
{
    let chars: Vec<char> = chars_of(input);
    let found: Vec<Token> = tokenize(&chars);
    match read_or_tokens(&chars, &found, 0) {
        Err(at) => Err(syntax_error(&chars, &found, at)),
        Ok((built, at)) => {
            if at == found.len() {
                built
            } else {
                Err(syntax_error(&chars, &found, at))
            }
        },
    }
}

} // verus!
