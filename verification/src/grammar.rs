//! What filters are read as: an expression that is written down reads back.

use vstd::prelude::*;

use crate::addr::{Ipv4Addr, Ipv6Addr};
use crate::addr_text::{groups_text, ipv4_text, ipv6_text, is_mapped};
use crate::ast::{Direction, Expr, HostAddr, NetAddr, Protocol, RelOp};
use crate::format::mac_text;
use crate::lexemes::{
    are_spread, is_blank, is_lexeme, is_sign, is_single, law_words_are_found, lexed, spread,
};
use crate::lexer::{is_keyword, is_kind, kind_of, token_text, tokens, Kind, Token};
use crate::notation::{is_plain, law_glued_parts_come_apart, law_ipv4_is_dotted};
use crate::numerals::{
    digit_worth, is_numeral, law_byte_reads_back, law_decimal_reads_back, law_digits_are_read,
    law_hex_digits_are_read, law_hex_is_in_lower_case, law_hex_reads_back, worth,
};
use crate::parser::{
    and_goes_on, expr_of, is_ip, is_mac_at, is_number_at, looks_like_ip, looks_like_mac,
    looks_like_octet, net_expr, read_and, read_and_rest, read_len, read_not, read_or, read_or_rest,
    read_predicate, read_primary, read_qualified, MaskText, Outcome,
};
use crate::readings::{
    law_hosts_are_read, law_mac_reads_back, law_masks_are_read, law_numbers_are_read,
    law_operators_are_read, lemma_has_colon, lemma_mac_text,
};
use crate::text::{decimal, hex, hex_byte, is_hex_digit, lower, lower_all, split};
use crate::values::relop_of;
use crate::wellformed::is_well_formed;

verus! {

/// The word of a protocol.
pub open spec fn proto_word(proto: Protocol) -> Seq<char> {
    match proto {
        Protocol::Ip => "ip"@,
        Protocol::Ip6 => "ip6"@,
        Protocol::Tcp => "tcp"@,
        Protocol::Udp => "udp"@,
        Protocol::Icmp => "icmp"@,
        Protocol::Icmp6 => "icmp6"@,
        Protocol::Arp => "arp"@,
        Protocol::Rarp => "rarp"@,
    }
}

/// The signs of an operator.
pub open spec fn op_word(op: RelOp) -> Seq<char> {
    match op {
        RelOp::Eq => seq!['='],
        RelOp::Ne => seq!['!', '='],
        RelOp::Gt => seq!['>'],
        RelOp::Ge => seq!['>', '='],
        RelOp::Lt => seq!['<'],
        RelOp::Le => seq!['<', '='],
    }
}

/// The word of a direction, if it has one, before other words.
pub open spec fn toward_words(dir: Direction, words: Seq<Seq<char>>) -> Seq<Seq<char>> {
    match dir {
        Direction::Any => words,
        Direction::Src => seq!["src"@] + words,
        Direction::Dst => seq!["dst"@] + words,
    }
}

/// The text of a host.
pub open spec fn host_word(addr: HostAddr) -> Seq<char> {
    match addr {
        HostAddr::V4(addr) => ipv4_text(addr),
        HostAddr::V6(addr) => ipv6_text(addr),
    }
}

/// The words of a network.
pub open spec fn net_words(addr: NetAddr) -> Seq<Seq<char>> {
    match addr {
        NetAddr::V4 { addr, mask } => seq!["net"@, ipv4_text(addr), "mask"@, ipv4_text(mask)],
        NetAddr::V6 { addr, mask } => seq!["net"@, ipv6_text(addr), "mask"@, ipv6_text(mask)],
    }
}

/// An expression in parentheses.
pub open spec fn in_parens(words: Seq<Seq<char>>) -> Seq<Seq<char>> {
    seq![seq!['(']] + words + seq![seq![')']]
}

/// The words that an expression is written with, each part of it in parentheses.
pub open spec fn words_of(expr: Expr) -> Seq<Seq<char>>
    decreases expr,
{
    match expr {
        Expr::Proto(proto) => seq![proto_word(proto)],
        Expr::Host { addr, dir } => toward_words(dir, seq!["host"@, host_word(addr)]),
        Expr::Port { port, dir } => toward_words(dir, seq!["port"@, decimal(port as nat)]),
        Expr::PortRange { start, end, dir } => toward_words(
            dir,
            seq!["portrange"@, decimal(start as nat), seq!['-'], decimal(end as nat)],
        ),
        Expr::EtherHost { addr, dir } => seq!["ether"@] + toward_words(
            dir,
            seq!["host"@, mac_text(addr)],
        ),
        Expr::Net { addr, dir } => toward_words(dir, net_words(addr)),
        Expr::Len { op, len } => seq!["len"@, op_word(op), decimal(len as nat)],
        Expr::And(left, right) => in_parens(words_of(*left)) + seq!["and"@] + in_parens(
            words_of(*right),
        ),
        Expr::Or(left, right) => in_parens(words_of(*left)) + seq!["or"@] + in_parens(
            words_of(*right),
        ),
        Expr::Not(inner) => seq!["not"@] + in_parens(words_of(*inner)),
    }
}

/// Whether a word is the one that is asked for; a word without colons may be in capital letters.
pub open spec fn same_word(word: Seq<char>, asked: Seq<char>) -> bool {
    word == asked || (lower_all(word) == asked && !asked.contains(':'))
}

/// Whether the words from index `i` on are those that are asked for.
pub open spec fn spelled(words: Seq<Seq<char>>, i: int, asked: Seq<Seq<char>>) -> bool {
    &&& 0 <= i
    &&& i + asked.len() <= words.len()
    &&& forall|j: int| 0 <= j < asked.len() ==> same_word(words[i + j], #[trigger] asked[j])
}

pub proof fn lemma_part(words: Seq<Seq<char>>, i: int, front: Seq<Seq<char>>, rest: Seq<Seq<char>>)
    requires
        spelled(words, i, front + rest),
    ensures
        spelled(words, i, front),
        spelled(words, i + front.len(), rest),
{
    let all = front + rest;
    assert forall|j: int| 0 <= j < front.len() implies same_word(
        words[i + j],
        #[trigger] front[j],
    ) by {
        assert(all[j] == front[j]);
    }
    assert forall|j: int| 0 <= j < rest.len() implies same_word(
        words[i + front.len() + j],
        #[trigger] rest[j],
    ) by {
        assert(all[front.len() + j] == rest[j]);
    }
}

/// The characters of keywords.
pub open spec fn is_key_char(c: char) -> bool {
    'a' <= c <= 'z' || '0' <= c <= '9'
}

/// Whether the text is made of small letters and digits.
pub open spec fn is_key(text: Seq<char>) -> bool {
    text.len() > 0 && forall|j: int| 0 <= j < text.len() ==> is_key_char(#[trigger] text[j])
}

pub proof fn lemma_key(text: Seq<char>)
    requires
        0 < text.len() <= 9,
        is_key_char(text[0]),
        text.len() > 1 ==> is_key_char(text[1]),
        text.len() > 2 ==> is_key_char(text[2]),
        text.len() > 3 ==> is_key_char(text[3]),
        text.len() > 4 ==> is_key_char(text[4]),
        text.len() > 5 ==> is_key_char(text[5]),
        text.len() > 6 ==> is_key_char(text[6]),
        text.len() > 7 ==> is_key_char(text[7]),
        text.len() > 8 ==> is_key_char(text[8]),
    ensures
        is_key(text),
{
    assert forall|j: int| 0 <= j < text.len() implies is_key_char(#[trigger] text[j]) by {
        assert(j == 0 || j == 1 || j == 2 || j == 3 || j == 4 || j == 5 || j == 6 || j == 7 || j
            == 8);
    }
}

/// The keywords are made of small letters and digits.
#[verifier::rlimit(40)]
pub proof fn lemma_keys()
    ensures
        is_key("src"@) && is_key("dst"@) && is_key("host"@) && is_key("port"@),
        is_key("portrange"@) && is_key("net"@) && is_key("mask"@) && is_key("ether"@),
        is_key("len"@) && is_key("and"@) && is_key("or"@) && is_key("not"@),
        is_key("greater"@) && is_key("less"@),
        is_key("ip"@) && is_key("ip6"@) && is_key("tcp"@) && is_key("udp"@),
        is_key("icmp"@) && is_key("icmp6"@) && is_key("arp"@) && is_key("rarp"@),
{
    reveal_strlit("src");
    reveal_strlit("dst");
    reveal_strlit("host");
    reveal_strlit("port");
    reveal_strlit("portrange");
    reveal_strlit("net");
    reveal_strlit("mask");
    reveal_strlit("ether");
    reveal_strlit("len");
    reveal_strlit("and");
    reveal_strlit("or");
    reveal_strlit("not");
    reveal_strlit("greater");
    reveal_strlit("less");
    reveal_strlit("ip");
    reveal_strlit("ip6");
    reveal_strlit("tcp");
    reveal_strlit("udp");
    reveal_strlit("icmp");
    reveal_strlit("icmp6");
    reveal_strlit("arp");
    reveal_strlit("rarp");
    lemma_key("src"@);
    lemma_key("dst"@);
    lemma_key("host"@);
    lemma_key("port"@);
    lemma_key("portrange"@);
    lemma_key("net"@);
    lemma_key("mask"@);
    lemma_key("ether"@);
    lemma_key("len"@);
    lemma_key("and"@);
    lemma_key("or"@);
    lemma_key("not"@);
    lemma_key("greater"@);
    lemma_key("less"@);
    lemma_key("ip"@);
    lemma_key("ip6"@);
    lemma_key("tcp"@);
    lemma_key("udp"@);
    lemma_key("icmp"@);
    lemma_key("icmp6"@);
    lemma_key("arp"@);
    lemma_key("rarp"@);
}

/// The keywords differ in their lengths or in their first two letters.
pub proof fn lemma_letters()
    ensures
        "src"@.len() == 3 && "src"@[0] == 's' && "src"@[1] == 'r',
        "dst"@.len() == 3 && "dst"@[0] == 'd' && "dst"@[1] == 's',
        "host"@.len() == 4 && "host"@[0] == 'h' && "host"@[1] == 'o',
        "port"@.len() == 4 && "port"@[0] == 'p' && "port"@[1] == 'o',
        "portrange"@.len() == 9 && "portrange"@[0] == 'p' && "portrange"@[1] == 'o',
        "net"@.len() == 3 && "net"@[0] == 'n' && "net"@[1] == 'e',
        "mask"@.len() == 4 && "mask"@[0] == 'm' && "mask"@[1] == 'a',
        "ether"@.len() == 5 && "ether"@[0] == 'e' && "ether"@[1] == 't',
        "len"@.len() == 3 && "len"@[0] == 'l' && "len"@[1] == 'e',
        "and"@.len() == 3 && "and"@[0] == 'a' && "and"@[1] == 'n',
        "or"@.len() == 2 && "or"@[0] == 'o' && "or"@[1] == 'r',
        "not"@.len() == 3 && "not"@[0] == 'n' && "not"@[1] == 'o',
        "greater"@.len() == 7 && "greater"@[0] == 'g' && "greater"@[1] == 'r',
        "less"@.len() == 4 && "less"@[0] == 'l' && "less"@[1] == 'e',
        "ip"@.len() == 2 && "ip"@[0] == 'i' && "ip"@[1] == 'p',
        "ip6"@.len() == 3 && "ip6"@[0] == 'i' && "ip6"@[1] == 'p',
        "tcp"@.len() == 3 && "tcp"@[0] == 't' && "tcp"@[1] == 'c',
        "udp"@.len() == 3 && "udp"@[0] == 'u' && "udp"@[1] == 'd',
        "icmp"@.len() == 4 && "icmp"@[0] == 'i' && "icmp"@[1] == 'c',
        "icmp6"@.len() == 5 && "icmp6"@[0] == 'i' && "icmp6"@[1] == 'c',
        "arp"@.len() == 3 && "arp"@[0] == 'a' && "arp"@[1] == 'r',
        "rarp"@.len() == 4 && "rarp"@[0] == 'r' && "rarp"@[1] == 'a',
{
    reveal_strlit("src");
    reveal_strlit("dst");
    reveal_strlit("host");
    reveal_strlit("port");
    reveal_strlit("portrange");
    reveal_strlit("net");
    reveal_strlit("mask");
    reveal_strlit("ether");
    reveal_strlit("len");
    reveal_strlit("and");
    reveal_strlit("or");
    reveal_strlit("not");
    reveal_strlit("greater");
    reveal_strlit("less");
    reveal_strlit("ip");
    reveal_strlit("ip6");
    reveal_strlit("tcp");
    reveal_strlit("udp");
    reveal_strlit("icmp");
    reveal_strlit("icmp6");
    reveal_strlit("arp");
    reveal_strlit("rarp");
}

/// A keyword is found where it is spelled, and no other one is.
pub proof fn lemma_keyword(
    chars: Seq<char>,
    found: Seq<Token>,
    words: Seq<Seq<char>>,
    i: int,
    key: Seq<char>,
)
    requires
        lexed(chars, found, words),
        0 <= i < words.len(),
        same_word(words[i], key),
        is_key(key),
    ensures
        is_kind(found, i, Kind::Word),
        forall|other: Seq<char>| #[trigger]
            is_keyword(chars, found, i, other) == (other == key),
{
    let word = words[i];
    assert(found[i].kind == kind_of(word[0]));
    assert(is_key_char(key[0]));
    assert(lower_all(word)[0] == lower(word[0]));
    if word == key {
        assert forall|j: int| 0 <= j < key.len() implies lower(#[trigger] key[j]) == key[j] by {
            assert(is_key_char(key[j]));
        }
        assert(lower_all(word) =~= key);
    }
    assert(lower_all(word) == key);
}

/// A word without small letters is spelled in one way.
pub proof fn lemma_value(word: Seq<char>, asked: Seq<char>)
    requires
        same_word(word, asked),
        asked.contains(':') || forall|j: int|
            0 <= j < asked.len() ==> !('a' <= #[trigger] asked[j] <= 'z'),
    ensures
        word == asked,
{
    if word != asked {
        assert forall|j: int| 0 <= j < word.len() implies word[j] == asked[j] by {
            assert(lower_all(word)[j] == lower(word[j]));
            assert(!('a' <= asked[j] <= 'z'));
        }
        assert(word =~= asked);
    }
}

/// A number in digits is a word.
pub proof fn lemma_number_word(n: nat)
    ensures
        forall|j: int| 0 <= j < decimal(n).len() ==> '0' <= #[trigger] decimal(n)[j] <= '9',
        decimal(n).len() > 0,
        is_lexeme(decimal(n)),
{
    law_decimal_reads_back(n);
    let text = decimal(n);
    assert forall|j: int| 0 <= j < text.len() implies '0' <= #[trigger] text[j] <= '9' by {
        assert(digit_worth(text[j]) < 10);
    }
}

/// A number is read where it is spelled.
pub proof fn lemma_number_at(
    chars: Seq<char>,
    found: Seq<Token>,
    words: Seq<Seq<char>>,
    i: int,
    n: nat,
)
    requires
        lexed(chars, found, words),
        0 <= i < words.len(),
        same_word(words[i], decimal(n)),
    ensures
        is_number_at(chars, found, i),
        token_text(chars, found, i) == decimal(n),
        is_numeral(decimal(n), 10),
        worth(decimal(n), 10) == n,
{
    lemma_number_word(n);
    lemma_value(words[i], decimal(n));
    law_decimal_reads_back(n);
    law_digits_are_read(decimal(n));
    assert(found[i].kind == kind_of(words[i][0]));
    assert('0' <= decimal(n)[0] <= '9');
}

/// The characters of addresses.
pub open spec fn is_ip_char(c: char) -> bool {
    '0' <= c <= '9' || 'a' <= c <= 'f' || c == '.' || c == ':'
}

pub open spec fn are_ip_chars(text: Seq<char>) -> bool {
    forall|j: int| 0 <= j < text.len() ==> is_ip_char(#[trigger] text[j])
}

/// The text of an IPv4 address is made of digits and dots.
pub proof fn lemma_ipv4_chars(addr: Ipv4Addr)
    ensures
        forall|j: int|
            0 <= j < ipv4_text(addr).len() ==> '0' <= #[trigger] ipv4_text(addr)[j] <= '9'
                || ipv4_text(addr)[j] == '.',
        ipv4_text(addr).contains('.'),
        ipv4_text(addr).len() > 0,
        '0' <= ipv4_text(addr)[0] <= '9',
{
    law_ipv4_is_dotted(addr);
    let (a, b, c, d) = choose|a: Seq<char>, b: Seq<char>, c: Seq<char>, d: Seq<char>|
        {
            &&& #[trigger] is_plain(a, addr.bits as nat / 0x100_0000)
            &&& #[trigger] is_plain(b, addr.bits as nat / 0x1_0000 % 0x100)
            &&& #[trigger] is_plain(c, addr.bits as nat / 0x100 % 0x100)
            &&& #[trigger] is_plain(d, addr.bits as nat % 0x100)
            &&& ipv4_text(addr) == a + seq!['.'] + b + seq!['.'] + c + seq!['.'] + d
        };
    let text = ipv4_text(addr);
    lemma_dotted_chars(a, b, c, d, text);
}

pub proof fn lemma_dotted_chars(
    a: Seq<char>,
    b: Seq<char>,
    c: Seq<char>,
    d: Seq<char>,
    text: Seq<char>,
)
    requires
        is_numeral(a, 10),
        is_numeral(b, 10),
        is_numeral(c, 10),
        is_numeral(d, 10),
        text == a + seq!['.'] + b + seq!['.'] + c + seq!['.'] + d,
    ensures
        forall|j: int|
            0 <= j < text.len() ==> '0' <= #[trigger] text[j] <= '9' || text[j] == '.',
        text.contains('.'),
        text.len() > 0,
        '0' <= text[0] <= '9',
{
    let p = (a.len() + 1) as int;
    let q = (p + b.len() + 1) as int;
    let r = (q + c.len() + 1) as int;
    assert(text[a.len() as int] == '.');
    assert forall|j: int| 0 <= j < text.len() implies '0' <= #[trigger] text[j] <= '9' || text[j]
        == '.' by {
        if j < a.len() {
            assert(text[j] == a[j] && digit_worth(a[j]) < 10);
        } else if j == a.len() {
        } else if j < p + b.len() {
            assert(text[j] == b[j - p] && digit_worth(b[j - p]) < 10);
        } else if j == p + b.len() {
        } else if j < q + c.len() {
            assert(text[j] == c[j - q] && digit_worth(c[j - q]) < 10);
        } else if j == q + c.len() {
        } else {
            assert(text[j] == d[j - r] && digit_worth(d[j - r]) < 10);
        }
    }
    assert(text[0] == a[0] && digit_worth(a[0]) < 10);
}

pub proof fn lemma_group_chars(addr: Ipv6Addr, from: int, to: int)
    ensures
        are_ip_chars(groups_text(addr, from, to)),
    decreases to - from,
{
    reveal_strlit(":");
    if from + 1 <= to {
        let last = hex(addr.segment(to - 1) as nat);
        law_hex_reads_back(addr.segment(to - 1) as nat);
        assert forall|j: int| 0 <= j < last.len() implies is_ip_char(#[trigger] last[j]) by {
            law_hex_is_in_lower_case(addr.segment(to - 1) as nat, j);
            assert(digit_worth(last[j]) < 16);
        }
        if from + 1 < to {
            lemma_group_chars(addr, from, to - 1);
            let front = groups_text(addr, from, to - 1);
            let text = groups_text(addr, from, to);
            assert(text == front + ":"@ + last);
            assert forall|j: int| 0 <= j < text.len() implies is_ip_char(#[trigger] text[j]) by {
                if j < front.len() {
                    assert(text[j] == front[j]);
                } else if j > front.len() {
                    assert(text[j] == last[j - front.len() - 1]);
                }
            }
        }
    }
}

/// The text of an IPv6 address is made of hexadecimal digits, colons and dots.
pub proof fn lemma_ipv6_chars(addr: Ipv6Addr)
    ensures
        are_ip_chars(ipv6_text(addr)),
        ipv6_text(addr).contains(':'),
        ipv6_text(addr).len() > 0,
{
    lemma_has_colon(addr);
    let text = ipv6_text(addr);
    if is_mapped(addr) {
        let v4 = Ipv4Addr { bits: (addr.bits % 0x1_0000_0000) as u32 };
        lemma_ipv4_chars(v4);
        reveal_strlit("::ffff:");
        assert forall|j: int| 0 <= j < text.len() implies is_ip_char(#[trigger] text[j]) by {
            if j >= 7 {
                assert(text[j] == ipv4_text(v4)[j - 7]);
            } else {
                assert(text[j] == "::ffff:"@[j]);
                assert(j == 0 || j == 1 || j == 2 || j == 3 || j == 4 || j == 5 || j == 6);
            }
        }
    } else {
        let start = choose|i: int| #[trigger] crate::addr_text::is_longest_run(addr, i);
        let len = crate::addr_text::zero_run(addr, start);
        lemma_group_chars(addr, 0, 8);
        lemma_group_chars(addr, 0, start);
        lemma_group_chars(addr, start + len, 8);
        if len > 1 {
            let front = groups_text(addr, 0, start);
            let rest = groups_text(addr, start + len, 8);
            reveal_strlit("::");
            assert forall|j: int| 0 <= j < text.len() implies is_ip_char(#[trigger] text[j]) by {
                if j < front.len() {
                    assert(text[j] == front[j]);
                } else if j >= front.len() + 2 {
                    assert(text[j] == rest[j - front.len() - 2]);
                } else {
                    assert(text[j] == "::"@[j - front.len()]);
                }
            }
        }
    }
}

/// An address is read where it is spelled.
pub proof fn lemma_ip_at(
    chars: Seq<char>,
    found: Seq<Token>,
    words: Seq<Seq<char>>,
    i: int,
    addr: HostAddr,
)
    requires
        lexed(chars, found, words),
        0 <= i < words.len(),
        same_word(words[i], host_word(addr)),
    ensures
        is_ip(chars, found, i),
        token_text(chars, found, i) == host_word(addr),
{
    let text = host_word(addr);
    lemma_host_chars(addr);
    lemma_value(words[i], text);
    assert(found[i].kind == kind_of(words[i][0]));
    law_hex_digits_are_read(text);
    assert(is_ip_char(text[0]));
    assert forall|j: int| 0 <= j < text.len() implies is_hex_digit(#[trigger] text[j]) || text[j]
        == '.' || text[j] == ':' by {
        assert(is_ip_char(text[j]));
    }
    if text.contains(':') {
        let k = choose|k: int| 0 <= k < text.len() && text[k] == ':';
        assert(!is_hex_digit(text[k]));
    } else {
        let k = choose|k: int| 0 <= k < text.len() && text[k] == '.';
        assert(!is_hex_digit(text[k]));
    }
    assert(looks_like_ip(text));
}

pub proof fn lemma_host_chars(addr: HostAddr)
    ensures
        are_ip_chars(host_word(addr)),
        host_word(addr).len() > 0,
        host_word(addr).contains(':') || host_word(addr).contains('.'),
        host_word(addr).contains(':') || forall|j: int|
            0 <= j < host_word(addr).len() ==> !('a' <= #[trigger] host_word(addr)[j] <= 'z'),
        is_lexeme(host_word(addr)),
{
    let text = host_word(addr);
    match addr {
        HostAddr::V4(addr) => {
            lemma_ipv4_chars(addr);
            assert forall|j: int| 0 <= j < text.len() implies is_ip_char(#[trigger] text[j]) by {
                assert('0' <= ipv4_text(addr)[j] <= '9' || ipv4_text(addr)[j] == '.');
            }
        },
        HostAddr::V6(addr) => {
            lemma_ipv6_chars(addr);
        },
    }
    assert forall|j: int| 0 <= j < text.len() implies !is_blank(#[trigger] text[j]) && !is_sign(
        text[j],
    ) && !is_single(text[j]) by {
        assert(is_ip_char(text[j]));
    }
}

/// A MAC address is read where it is spelled.
#[verifier::rlimit(40)]
pub proof fn lemma_mac_at(
    chars: Seq<char>,
    found: Seq<Token>,
    words: Seq<Seq<char>>,
    i: int,
    mac: Seq<u8>,
)
    requires
        lexed(chars, found, words),
        0 <= i < words.len(),
        mac.len() == 6,
        same_word(words[i], mac_text(mac)),
    ensures
        is_mac_at(chars, found, i),
        token_text(chars, found, i) == mac_text(mac),
{
    lemma_mac_chars(mac);
    let text = mac_text(mac);
    lemma_value(words[i], text);
    assert(found[i].kind == kind_of(words[i][0]));
    let parts = Seq::new(6, |k: int| hex_byte(mac[k]));
    lemma_mac_text(mac, parts);
    assert forall|k: int| 0 <= k < 6 implies looks_like_octet(#[trigger] parts[k])
        && !parts[k].contains(':') by {
        let part = parts[k];
        law_byte_reads_back(mac[k]);
        law_hex_digits_are_read(part);
        assert forall|j: int| 0 <= j < part.len() implies is_hex_digit(#[trigger] part[j]) by {
            assert(digit_worth(part[j]) < 16);
        }
        if part.contains(':') {
            let j = choose|j: int| 0 <= j < part.len() && part[j] == ':';
            assert(is_hex_digit(part[j]));
        }
    }
    law_glued_parts_come_apart(parts, ':');
    assert(split(text, ':') == parts);
    assert(looks_like_mac(text));
}

pub proof fn lemma_mac_chars(mac: Seq<u8>)
    requires
        mac.len() == 6,
    ensures
        mac_text(mac).contains(':'),
        mac_text(mac).len() == 17,
        is_lexeme(mac_text(mac)),
        kind_of(mac_text(mac)[0]) == Kind::Word,
{
    let text = mac_text(mac);
    crate::printed::law_mac_shows_its_bytes(mac);
    assert(text[2] == ':');
    assert forall|j: int| 0 <= j < text.len() implies digit_worth(#[trigger] text[j]) < 16 || text[j]
        == ':' by {
        let i = j / 3;
        assert(0 <= i < 6);
        assert(mac[i] == mac[i]);
        let cell = text.subrange(3 * i, 3 * i + 2);
        assert(is_numeral(cell, 16));
        if j % 3 == 0 {
            assert(text[j] == cell[0]);
        } else if j % 3 == 1 {
            assert(text[j] == cell[1]);
        } else {
            assert(j == 2 || j == 5 || j == 8 || j == 11 || j == 14);
        }
    }
    assert forall|j: int| 0 <= j < text.len() implies !is_blank(#[trigger] text[j]) && !is_sign(
        text[j],
    ) && !is_single(text[j]) by {
        assert(digit_worth(text[j]) < 16 || text[j] == ':');
    }
    assert(digit_worth(text[0]) < 16 || text[0] == ':');
}

/// Whether a predicate is no combination of others.
pub open spec fn is_predicate(expr: Expr) -> bool {
    !(expr is And) && !(expr is Or) && !(expr is Not)
}

/// Whether no predicate has something to do with what stands at index `i`: the words end there, or
/// a parenthesis is closed.
pub open spec fn ends_at(words: Seq<Seq<char>>, i: int) -> bool {
    i == words.len() || (0 <= i < words.len() && words[i] == seq![')'])
}

/// Whether a predicate is read from index `i` up to another, and it starts with a word.
#[verifier::opaque]
pub open spec fn reads(
    chars: Seq<char>,
    found: Seq<Token>,
    i: int,
    expr: Expr,
    end: int,
) -> bool {
    &&& read_predicate(chars, found, i) == Outcome::Done(Ok(expr), end)
    &&& !is_keyword(chars, found, i, "not"@)
    &&& is_kind(found, i, Kind::Word)
}

#[verifier::rlimit(40)]
pub proof fn lemma_proto(
    chars: Seq<char>,
    found: Seq<Token>,
    words: Seq<Seq<char>>,
    i: int,
    proto: Protocol,
)
    requires
        lexed(chars, found, words),
        spelled(words, i, seq![proto_word(proto)]),
    ensures
        reads(chars, found, i, Expr::Proto(proto), i + 1),
{
    reveal(reads);
    let key = proto_word(proto);
    assert(seq![key][0] == key);
    assert(same_word(words[i + 0], seq![key][0]));
    lemma_keys();
    lemma_letters();
    lemma_keyword(chars, found, words, i, key);
}

/// Whether the predicate at index `i` is read as what stands at another, in a direction.
#[verifier::opaque]
pub open spec fn leads(
    chars: Seq<char>,
    found: Seq<Token>,
    i: int,
    at: int,
    dir: Direction,
) -> bool {
    &&& read_predicate(chars, found, i) == read_qualified(chars, found, at, dir)
    &&& !is_keyword(chars, found, i, "not"@)
    &&& is_kind(found, i, Kind::Word)
}

/// Whether an expression is read behind a direction.
#[verifier::opaque]
pub open spec fn qualified(
    chars: Seq<char>,
    found: Seq<Token>,
    at: int,
    dir: Direction,
    expr: Expr,
    end: int,
) -> bool {
    read_qualified(chars, found, at, dir) == Outcome::Done(Ok(expr), end)
}

pub proof fn lemma_leads(
    chars: Seq<char>,
    found: Seq<Token>,
    i: int,
    at: int,
    dir: Direction,
    expr: Expr,
    end: int,
)
    requires
        leads(chars, found, i, at, dir),
        qualified(chars, found, at, dir, expr, end),
    ensures
        reads(chars, found, i, expr, end),
{
    reveal(leads);
    reveal(qualified);
    reveal(reads);
}

/// What stands behind `src` or `dst`, or where they could stand, is read in that direction.
#[verifier::rlimit(40)]
pub proof fn lemma_toward(
    chars: Seq<char>,
    found: Seq<Token>,
    words: Seq<Seq<char>>,
    i: int,
    dir: Direction,
    key: Seq<char>,
    rest: Seq<Seq<char>>,
) -> (at: int)
    requires
        lexed(chars, found, words),
        spelled(words, i, toward_words(dir, seq![key] + rest)),
        key == "host"@ || key == "port"@ || key == "portrange"@ || key == "net"@,
    ensures
        at == i + toward_words(dir, seq![key] + rest).len() - 1 - rest.len(),
        spelled(words, at, seq![key] + rest),
        leads(chars, found, i, at, dir),
        forall|other: Seq<char>| #[trigger]
            is_keyword(chars, found, at, other) == (other == key),
{
    reveal(leads);
    lemma_keys();
    lemma_letters();
    let all = seq![key] + rest;
    assert(all[0] == key);
    match dir {
        Direction::Any => {
            assert(same_word(words[i + 0], all[0]));
            lemma_keyword(chars, found, words, i, key);
            i
        },
        Direction::Src => {
            lemma_part(words, i, seq!["src"@], all);
            assert(seq!["src"@][0] == "src"@);
            assert(same_word(words[i + 0], seq!["src"@][0]));
            lemma_keyword(chars, found, words, i, "src"@);
            assert(same_word(words[i + 1 + 0], all[0]));
            lemma_keyword(chars, found, words, i + 1, key);
            i + 1
        },
        Direction::Dst => {
            lemma_part(words, i, seq!["dst"@], all);
            assert(seq!["dst"@][0] == "dst"@);
            assert(same_word(words[i + 0], seq!["dst"@][0]));
            lemma_keyword(chars, found, words, i, "dst"@);
            assert(same_word(words[i + 1 + 0], all[0]));
            lemma_keyword(chars, found, words, i + 1, key);
            i + 1
        },
    }
}

#[verifier::rlimit(40)]
pub proof fn lemma_host(
    chars: Seq<char>,
    found: Seq<Token>,
    words: Seq<Seq<char>>,
    i: int,
    addr: HostAddr,
    dir: Direction,
)
    requires
        lexed(chars, found, words),
        spelled(words, i, toward_words(dir, seq!["host"@, host_word(addr)])),
    ensures
        reads(
            chars,
            found,
            i,
            Expr::Host { addr, dir },
            i + toward_words(dir, seq!["host"@, host_word(addr)]).len(),
        ),
{
    let rest = seq![host_word(addr)];
    let all = seq!["host"@] + rest;
    assert(all =~= seq!["host"@, host_word(addr)]);
    let at = lemma_toward(chars, found, words, i, dir, "host"@, rest);
    assert(same_word(words[at + 1], all[1]));
    lemma_ip_at(chars, found, words, at + 1, addr);
    match addr {
        HostAddr::V4(a) => {
            law_hosts_are_read(a, Ipv6Addr { bits: 0 });
        },
        HostAddr::V6(a) => {
            law_hosts_are_read(Ipv4Addr { bits: 0 }, a);
        },
    }
    assert(qualified(chars, found, at, dir, Expr::Host { addr, dir }, at + 2)) by {
        reveal(qualified);
    }
    lemma_leads(chars, found, i, at, dir, Expr::Host { addr, dir }, at + 2);
}

#[verifier::rlimit(40)]
pub proof fn lemma_port(
    chars: Seq<char>,
    found: Seq<Token>,
    words: Seq<Seq<char>>,
    i: int,
    port: u16,
    dir: Direction,
)
    requires
        lexed(chars, found, words),
        spelled(words, i, toward_words(dir, seq!["port"@, decimal(port as nat)])),
    ensures
        reads(
            chars,
            found,
            i,
            Expr::Port { port, dir },
            i + toward_words(dir, seq!["port"@, decimal(port as nat)]).len(),
        ),
{
    let rest = seq![decimal(port as nat)];
    let all = seq!["port"@] + rest;
    assert(all =~= seq!["port"@, decimal(port as nat)]);
    let at = lemma_toward(chars, found, words, i, dir, "port"@, rest);
    assert(same_word(words[at + 1], all[1]));
    lemma_number_at(chars, found, words, at + 1, port as nat);
    law_numbers_are_read(decimal(port as nat), 65535, "invalid port: "@);
    assert(qualified(chars, found, at, dir, Expr::Port { port, dir }, at + 2)) by {
        reveal(qualified);
        lemma_letters();
    }
    lemma_leads(chars, found, i, at, dir, Expr::Port { port, dir }, at + 2);
}

#[verifier::rlimit(40)]
pub proof fn lemma_portrange(
    chars: Seq<char>,
    found: Seq<Token>,
    words: Seq<Seq<char>>,
    i: int,
    start: u16,
    end: u16,
    dir: Direction,
)
    requires
        lexed(chars, found, words),
        start <= end,
        spelled(
            words,
            i,
            toward_words(
                dir,
                seq!["portrange"@, decimal(start as nat), seq!['-'], decimal(end as nat)],
            ),
        ),
    ensures
        reads(
            chars,
            found,
            i,
            Expr::PortRange { start, end, dir },
            i + toward_words(
                dir,
                seq!["portrange"@, decimal(start as nat), seq!['-'], decimal(end as nat)],
            ).len(),
        ),
{
    let rest = seq![decimal(start as nat), seq!['-'], decimal(end as nat)];
    let all = seq!["portrange"@] + rest;
    assert(all =~= seq!["portrange"@, decimal(start as nat), seq!['-'], decimal(end as nat)]);
    let at = lemma_toward(chars, found, words, i, dir, "portrange"@, rest);
    assert(same_word(words[at + 1], all[1]));
    assert(same_word(words[at + 2], all[2]));
    assert(same_word(words[at + 3], all[3]));
    lemma_number_at(chars, found, words, at + 1, start as nat);
    lemma_number_at(chars, found, words, at + 3, end as nat);
    lemma_value(words[at + 2], seq!['-']);
    assert(found[at + 2].kind == kind_of(words[at + 2][0]));
    law_numbers_are_read(decimal(start as nat), 65535, "invalid number: "@);
    law_numbers_are_read(decimal(end as nat), 65535, "invalid number: "@);
    assert(qualified(chars, found, at, dir, Expr::PortRange { start, end, dir }, at + 4)) by {
        reveal(qualified);
        lemma_letters();
    }
    lemma_leads(chars, found, i, at, dir, Expr::PortRange { start, end, dir }, at + 4);
}

#[verifier::rlimit(40)]
pub proof fn lemma_net(
    chars: Seq<char>,
    found: Seq<Token>,
    words: Seq<Seq<char>>,
    i: int,
    addr: NetAddr,
    dir: Direction,
)
    requires
        lexed(chars, found, words),
        spelled(words, i, toward_words(dir, net_words(addr))),
    ensures
        reads(
            chars,
            found,
            i,
            Expr::Net { addr, dir },
            i + toward_words(dir, net_words(addr)).len(),
        ),
{
    lemma_net_value(addr, dir);
    match addr {
        NetAddr::V4 { addr: a, mask: m } => {
            lemma_masked(chars, found, words, i, HostAddr::V4(a), HostAddr::V4(m), addr, dir);
        },
        NetAddr::V6 { addr: a, mask: m } => {
            lemma_masked(chars, found, words, i, HostAddr::V6(a), HostAddr::V6(m), addr, dir);
        },
    }
}

#[verifier::rlimit(40)]
pub proof fn lemma_masked(
    chars: Seq<char>,
    found: Seq<Token>,
    words: Seq<Seq<char>>,
    i: int,
    host: HostAddr,
    mask: HostAddr,
    addr: NetAddr,
    dir: Direction,
)
    requires
        lexed(chars, found, words),
        net_words(addr) == seq!["net"@, host_word(host), "mask"@, host_word(mask)],
        spelled(words, i, toward_words(dir, net_words(addr))),
        net_expr(host_word(host), MaskText::Address(host_word(mask)), dir) == Ok::<
            Expr,
            Seq<char>,
        >(Expr::Net { addr, dir }),
    ensures
        reads(
            chars,
            found,
            i,
            Expr::Net { addr, dir },
            i + toward_words(dir, net_words(addr)).len(),
        ),
{
    let rest = seq![host_word(host), "mask"@, host_word(mask)];
    let all = seq!["net"@] + rest;
    assert(all =~= net_words(addr));
    let at = lemma_toward(chars, found, words, i, dir, "net"@, rest);
    assert(same_word(words[at + 1], all[1]));
    assert(same_word(words[at + 2], all[2]));
    assert(same_word(words[at + 3], all[3]));
    lemma_ip_at(chars, found, words, at + 1, host);
    lemma_ip_at(chars, found, words, at + 3, mask);
    lemma_keys();
    lemma_keyword(chars, found, words, at + 2, "mask"@);
    lemma_mask_follows(chars, found, at, dir, Expr::Net { addr, dir });
    lemma_leads(chars, found, i, at, dir, Expr::Net { addr, dir }, at + 4);
}

/// A network with a mask behind it is read.
#[verifier::rlimit(40)]
pub proof fn lemma_mask_follows(
    chars: Seq<char>,
    found: Seq<Token>,
    at: int,
    dir: Direction,
    expr: Expr,
)
    requires
        forall|other: Seq<char>| #[trigger]
            is_keyword(chars, found, at, other) == (other == "net"@),
        is_ip(chars, found, at + 1),
        is_kind(found, at + 2, Kind::Word),
        is_keyword(chars, found, at + 2, "mask"@),
        is_ip(chars, found, at + 3),
        net_expr(
            token_text(chars, found, at + 1),
            MaskText::Address(token_text(chars, found, at + 3)),
            dir,
        ) == Ok::<Expr, Seq<char>>(expr),
    ensures
        qualified(chars, found, at, dir, expr, at + 4),
{
    reveal(qualified);
    lemma_letters();
}

#[verifier::rlimit(40)]
pub proof fn lemma_net_value(addr: NetAddr, dir: Direction)
    ensures
        match addr {
            NetAddr::V4 { addr: a, mask: m } => net_expr(
                ipv4_text(a),
                MaskText::Address(ipv4_text(m)),
                dir,
            ),
            NetAddr::V6 { addr: a, mask: m } => net_expr(
                ipv6_text(a),
                MaskText::Address(ipv6_text(m)),
                dir,
            ),
        } == Ok::<Expr, Seq<char>>(Expr::Net { addr, dir }),
{
    match addr {
        NetAddr::V4 { addr: a, mask: m } => {
            law_hosts_are_read(a, Ipv6Addr { bits: 0 });
            law_masks_are_read(a, m, Ipv6Addr { bits: 0 }, Ipv6Addr { bits: 0 });
        },
        NetAddr::V6 { addr: a, mask: m } => {
            law_hosts_are_read(Ipv4Addr { bits: 0 }, a);
            law_masks_are_read(Ipv4Addr { bits: 0 }, Ipv4Addr { bits: 0 }, a, m);
        },
    }
}

#[verifier::rlimit(40)]
pub proof fn lemma_ether(
    chars: Seq<char>,
    found: Seq<Token>,
    words: Seq<Seq<char>>,
    i: int,
    mac: Seq<u8>,
    dir: Direction,
)
    requires
        lexed(chars, found, words),
        mac.len() == 6,
        spelled(words, i, seq!["ether"@] + toward_words(dir, seq!["host"@, mac_text(mac)])),
    ensures
        reads(
            chars,
            found,
            i,
            Expr::EtherHost { addr: mac, dir },
            i + (seq!["ether"@] + toward_words(dir, seq!["host"@, mac_text(mac)])).len(),
        ),
{
    reveal(reads);
    lemma_keys();
    lemma_letters();
    let rest = seq!["host"@, mac_text(mac)];
    lemma_part(words, i, seq!["ether"@], toward_words(dir, rest));
    assert(seq!["ether"@][0] == "ether"@);
    assert(same_word(words[i + 0], seq!["ether"@][0]));
    lemma_keyword(chars, found, words, i, "ether"@);
    let at = match dir {
        Direction::Any => i + 1,
        Direction::Src => {
            lemma_part(words, i + 1, seq!["src"@], rest);
            assert(seq!["src"@][0] == "src"@);
            assert(same_word(words[i + 1 + 0], seq!["src"@][0]));
            lemma_keyword(chars, found, words, i + 1, "src"@);
            i + 2
        },
        Direction::Dst => {
            lemma_part(words, i + 1, seq!["dst"@], rest);
            assert(seq!["dst"@][0] == "dst"@);
            assert(same_word(words[i + 1 + 0], seq!["dst"@][0]));
            lemma_keyword(chars, found, words, i + 1, "dst"@);
            i + 2
        },
    };
    assert(rest[0] == "host"@ && rest[1] == mac_text(mac));
    assert(spelled(words, at, rest));
    assert(same_word(words[at + 0], rest[0]));
    assert(same_word(words[at + 1], rest[1]));
    lemma_keyword(chars, found, words, at, "host"@);
    lemma_mac_at(chars, found, words, at + 1, mac);
    law_mac_reads_back(mac);
}

#[verifier::rlimit(40)]
pub proof fn lemma_len(
    chars: Seq<char>,
    found: Seq<Token>,
    words: Seq<Seq<char>>,
    i: int,
    op: RelOp,
    len: u32,
)
    requires
        lexed(chars, found, words),
        spelled(words, i, seq!["len"@, op_word(op), decimal(len as nat)]),
    ensures
        reads(chars, found, i, Expr::Len { op, len }, i + 3),
{
    reveal(reads);
    lemma_keys();
    lemma_letters();
    let all = seq!["len"@, op_word(op), decimal(len as nat)];
    assert(all[0] == "len"@ && all[1] == op_word(op) && all[2] == decimal(len as nat));
    assert(same_word(words[i + 0], all[0]));
    assert(same_word(words[i + 1], all[1]));
    assert(same_word(words[i + 2], all[2]));
    lemma_keyword(chars, found, words, i, "len"@);
    assert(read_predicate(chars, found, i) == read_len(chars, found, i + 1));
    lemma_op(op);
    lemma_value(words[i + 1], op_word(op));
    assert(found[i + 1].kind == kind_of(words[i + 1][0]));
    lemma_number_at(chars, found, words, i + 2, len as nat);
    law_numbers_are_read(decimal(len as nat), u32::MAX as nat, "invalid number: "@);
}

pub proof fn lemma_op(op: RelOp)
    ensures
        op_word(op).len() > 0,
        forall|j: int| 0 <= j < op_word(op).len() ==> is_sign(#[trigger] op_word(op)[j]),
        kind_of(op_word(op)[0]) == Kind::Operator,
        relop_of(op_word(op)) == Some(op),
        is_lexeme(op_word(op)),
{
    law_operators_are_read(op_word(op));
}

/// A predicate is read where it is spelled, whatever follows it.
#[verifier::rlimit(40)]
pub proof fn lemma_predicate(
    chars: Seq<char>,
    found: Seq<Token>,
    words: Seq<Seq<char>>,
    i: int,
    expr: Expr,
)
    requires
        lexed(chars, found, words),
        is_predicate(expr),
        is_well_formed(expr),
        spelled(words, i, words_of(expr)),
    ensures
        reads(chars, found, i, expr, i + words_of(expr).len()),
        words_of(expr).len() > 0,
{
    match expr {
        Expr::Proto(proto) => lemma_proto(chars, found, words, i, proto),
        Expr::Host { addr, dir } => lemma_host(chars, found, words, i, addr, dir),
        Expr::Port { port, dir } => lemma_port(chars, found, words, i, port, dir),
        Expr::PortRange { start, end, dir } => lemma_portrange(
            chars,
            found,
            words,
            i,
            start,
            end,
            dir,
        ),
        Expr::EtherHost { addr, dir } => lemma_ether(chars, found, words, i, addr, dir),
        Expr::Net { addr, dir } => lemma_net(chars, found, words, i, addr, dir),
        Expr::Len { op, len } => lemma_len(chars, found, words, i, op, len),
        _ => {},
    }
}

pub proof fn lemma_paren(chars: Seq<char>, found: Seq<Token>, words: Seq<Seq<char>>, i: int, c: char)
    requires
        lexed(chars, found, words),
        0 <= i < words.len(),
        same_word(words[i], seq![c]),
        c == '(' || c == ')',
    ensures
        is_kind(found, i, kind_of(c)),
        words[i] == seq![c],
        forall|key: Seq<char>| !#[trigger] is_keyword(chars, found, i, key),
{
    lemma_value(words[i], seq![c]);
    assert(found[i].kind == kind_of(words[i][0]));
}

/// Where the words end, nothing goes on.
pub proof fn lemma_ends(chars: Seq<char>, found: Seq<Token>, words: Seq<Seq<char>>, i: int)
    requires
        lexed(chars, found, words),
        ends_at(words, i),
    ensures
        filter_ends(chars, found, i),
{
    if i < words.len() {
        assert(found[i].kind == kind_of(words[i][0]));
    }
}

/// Whether an expression in parentheses or a predicate is read from index `i` up to another.
#[verifier::opaque]
pub open spec fn primary(
    chars: Seq<char>,
    found: Seq<Token>,
    i: int,
    expr: Expr,
    end: int,
) -> bool {
    read_primary(chars, found, i) == Outcome::Done(Ok(expr), end)
}

/// Whether an operand of `and` is read from index `i` up to another.
#[verifier::opaque]
pub open spec fn operand(
    chars: Seq<char>,
    found: Seq<Token>,
    i: int,
    expr: Expr,
    end: int,
) -> bool {
    read_not(chars, found, i) == Outcome::Done(Ok(expr), end)
}

/// Whether the operands of `and` from index `at` on are taken in behind `left`.
#[verifier::opaque]
pub open spec fn more_ands(
    chars: Seq<char>,
    found: Seq<Token>,
    left: Expr,
    at: int,
    all: Expr,
    end: int,
) -> bool {
    read_and_rest(chars, found, Ok(left), at) == Outcome::Done(Ok(all), end)
}

/// Whether an operand of `or` is read from index `i` up to another.
#[verifier::opaque]
pub open spec fn ands(
    chars: Seq<char>,
    found: Seq<Token>,
    i: int,
    expr: Expr,
    end: int,
) -> bool {
    read_and(chars, found, i) == Outcome::Done(Ok(expr), end)
}

/// Whether the operands of `or` from index `at` on are taken in behind `left`.
#[verifier::opaque]
pub open spec fn more_ors(
    chars: Seq<char>,
    found: Seq<Token>,
    left: Expr,
    at: int,
    all: Expr,
    end: int,
) -> bool {
    read_or_rest(chars, found, Ok(left), at) == Outcome::Done(Ok(all), end)
}

/// Whether a filter is read from index `i` up to another.
#[verifier::opaque]
pub open spec fn filter(
    chars: Seq<char>,
    found: Seq<Token>,
    i: int,
    expr: Expr,
    end: int,
) -> bool {
    read_or(chars, found, i) == Outcome::Done(Ok(expr), end)
}

/// Whether a filter ends at the index.
pub open spec fn filter_ends(chars: Seq<char>, found: Seq<Token>, i: int) -> bool {
    !and_goes_on(chars, found, i) && !is_keyword(chars, found, i, "or"@)
}

/// A predicate is an operand.
pub proof fn lemma_unnested(chars: Seq<char>, found: Seq<Token>, i: int, expr: Expr, end: int)
    requires
        reads(chars, found, i, expr, end),
    ensures
        primary(chars, found, i, expr, end),
        operand(chars, found, i, expr, end),
{
    reveal(reads);
    reveal(primary);
    reveal(operand);
}

/// An expression in parentheses is an operand.
pub proof fn lemma_enclosed(chars: Seq<char>, found: Seq<Token>, i: int, at: int, expr: Expr)
    requires
        is_kind(found, i, Kind::Open),
        filter(chars, found, i + 1, expr, at),
        is_kind(found, at, Kind::Close),
    ensures
        primary(chars, found, i, expr, at + 1),
        operand(chars, found, i, expr, at + 1),
{
    reveal(primary);
    reveal(operand);
    reveal(filter);
}

/// What follows `not` is negated.
pub proof fn lemma_negation(chars: Seq<char>, found: Seq<Token>, i: int, inner: Expr, end: int)
    requires
        is_keyword(chars, found, i, "not"@),
        primary(chars, found, i + 1, inner, end),
    ensures
        operand(chars, found, i, Expr::Not(Box::new(inner)), end),
{
    reveal(primary);
    reveal(operand);
}

/// Where no operand of `and` follows, nothing is taken in.
pub proof fn lemma_no_more_ands(chars: Seq<char>, found: Seq<Token>, left: Expr, at: int)
    requires
        !and_goes_on(chars, found, at),
    ensures
        more_ands(chars, found, left, at, left, at),
{
    reveal(more_ands);
}

/// Another operand of `and` is taken in.
#[verifier::rlimit(40)]
pub proof fn lemma_one_more_and(
    chars: Seq<char>,
    found: Seq<Token>,
    left: Expr,
    at: int,
    from: int,
    right: Expr,
    mid: int,
    all: Expr,
    end: int,
)
    requires
        and_goes_on(chars, found, at),
        from == (if is_keyword(chars, found, at, "and"@) {
            at + 1
        } else {
            at
        }),
        operand(chars, found, from, right, mid),
        at < mid <= found.len(),
        more_ands(chars, found, Expr::And(Box::new(left), Box::new(right)), mid, all, end),
    ensures
        more_ands(chars, found, left, at, all, end),
{
    reveal(operand);
    reveal(more_ands);
}

/// The operands of `and` make up an operand of `or`.
pub proof fn lemma_ands(
    chars: Seq<char>,
    found: Seq<Token>,
    i: int,
    left: Expr,
    at: int,
    all: Expr,
    end: int,
)
    requires
        operand(chars, found, i, left, at),
        i < at <= found.len(),
        more_ands(chars, found, left, at, all, end),
    ensures
        ands(chars, found, i, all, end),
{
    reveal(operand);
    reveal(more_ands);
    reveal(ands);
}

/// Where no operand of `or` follows, nothing is taken in.
pub proof fn lemma_no_more_ors(chars: Seq<char>, found: Seq<Token>, left: Expr, at: int)
    requires
        !is_keyword(chars, found, at, "or"@),
    ensures
        more_ors(chars, found, left, at, left, at),
{
    reveal(more_ors);
}

/// Another operand of `or` is taken in.
#[verifier::rlimit(40)]
pub proof fn lemma_one_more_or(
    chars: Seq<char>,
    found: Seq<Token>,
    left: Expr,
    at: int,
    right: Expr,
    mid: int,
    all: Expr,
    end: int,
)
    requires
        is_keyword(chars, found, at, "or"@),
        ands(chars, found, at + 1, right, mid),
        at < mid <= found.len(),
        more_ors(chars, found, Expr::Or(Box::new(left), Box::new(right)), mid, all, end),
    ensures
        more_ors(chars, found, left, at, all, end),
{
    reveal(ands);
    reveal(more_ors);
}

/// The operands of `or` make up a filter.
pub proof fn lemma_filter(
    chars: Seq<char>,
    found: Seq<Token>,
    i: int,
    left: Expr,
    at: int,
    all: Expr,
    end: int,
)
    requires
        ands(chars, found, i, left, at),
        i < at <= found.len(),
        more_ors(chars, found, left, at, all, end),
    ensures
        filter(chars, found, i, all, end),
{
    reveal(ands);
    reveal(more_ors);
    reveal(filter);
}

/// An operand behind which the operands of `and` end.
pub proof fn lemma_last_and(chars: Seq<char>, found: Seq<Token>, i: int, expr: Expr, end: int)
    requires
        operand(chars, found, i, expr, end),
        i < end <= found.len(),
        !and_goes_on(chars, found, end),
    ensures
        ands(chars, found, i, expr, end),
{
    lemma_no_more_ands(chars, found, expr, end);
    lemma_ands(chars, found, i, expr, end, expr, end);
}

/// Two operands with `and` between them, behind which the operands of `and` end.
pub proof fn lemma_two_ands(
    chars: Seq<char>,
    found: Seq<Token>,
    i: int,
    left: Expr,
    at: int,
    right: Expr,
    end: int,
)
    requires
        operand(chars, found, i, left, at),
        is_keyword(chars, found, at, "and"@),
        operand(chars, found, at + 1, right, end),
        i < at < end <= found.len(),
        !and_goes_on(chars, found, end),
    ensures
        ands(chars, found, i, Expr::And(Box::new(left), Box::new(right)), end),
{
    let both = Expr::And(Box::new(left), Box::new(right));
    lemma_letters();
    lemma_no_more_ands(chars, found, both, end);
    lemma_one_more_and(chars, found, left, at, at + 1, right, end, both, end);
    lemma_ands(chars, found, i, left, at, both, end);
}

/// An operand of `or` behind which the filter ends.
pub proof fn lemma_last_or(chars: Seq<char>, found: Seq<Token>, i: int, expr: Expr, end: int)
    requires
        ands(chars, found, i, expr, end),
        i < end <= found.len(),
        !is_keyword(chars, found, end, "or"@),
    ensures
        filter(chars, found, i, expr, end),
{
    lemma_no_more_ors(chars, found, expr, end);
    lemma_filter(chars, found, i, expr, end, expr, end);
}

/// Two operands of `or` behind which the filter ends.
pub proof fn lemma_two_ors(
    chars: Seq<char>,
    found: Seq<Token>,
    i: int,
    left: Expr,
    at: int,
    right: Expr,
    end: int,
)
    requires
        ands(chars, found, i, left, at),
        is_keyword(chars, found, at, "or"@),
        ands(chars, found, at + 1, right, end),
        i < at < end <= found.len(),
        !is_keyword(chars, found, end, "or"@),
    ensures
        filter(chars, found, i, Expr::Or(Box::new(left), Box::new(right)), end),
{
    let either = Expr::Or(Box::new(left), Box::new(right));
    lemma_no_more_ors(chars, found, either, end);
    lemma_one_more_or(chars, found, left, at, right, end, either, end);
    lemma_filter(chars, found, i, left, at, either, end);
}

/// A word `or` is no operand of `and`.
pub proof fn lemma_or_ends_ands(chars: Seq<char>, found: Seq<Token>, at: int)
    requires
        is_keyword(chars, found, at, "or"@),
    ensures
        !and_goes_on(chars, found, at),
{
}

/// An expression in parentheses is read as the expression.
#[verifier::rlimit(40)]
pub proof fn lemma_parens(
    chars: Seq<char>,
    found: Seq<Token>,
    words: Seq<Seq<char>>,
    i: int,
    expr: Expr,
)
    requires
        lexed(chars, found, words),
        is_well_formed(expr),
        spelled(words, i, in_parens(words_of(expr))),
    ensures
        primary(chars, found, i, expr, i + words_of(expr).len() + 2),
        operand(chars, found, i, expr, i + words_of(expr).len() + 2),
    decreases expr, 1int,
{
    let inner = words_of(expr);
    let open = seq![seq!['(']];
    let close = seq![seq![')']];
    lemma_part(words, i, open + inner, close);
    lemma_part(words, i, open, inner);
    assert(open[0] == seq!['('] && close[0] == seq![')']);
    assert(same_word(words[i + 0], open[0]));
    let end = i + 1 + inner.len();
    assert(same_word(words[end + 0], close[0]));
    lemma_paren(chars, found, words, i, '(');
    lemma_paren(chars, found, words, end, ')');
    lemma_whole(chars, found, words, i + 1, expr);
    lemma_enclosed(chars, found, i, end, expr);
}

/// Two expressions in parentheses with a word between them are read as such.
pub proof fn lemma_between(
    chars: Seq<char>,
    found: Seq<Token>,
    words: Seq<Seq<char>>,
    i: int,
    one: Seq<Seq<char>>,
    word: Seq<char>,
    two: Seq<Seq<char>>,
)
    requires
        lexed(chars, found, words),
        spelled(words, i, one + seq![word] + two),
        word == "and"@ || word == "or"@,
    ensures
        spelled(words, i, one),
        is_keyword(chars, found, i + one.len(), word),
        spelled(words, i + one.len() + 1, two),
{
    lemma_part(words, i, one + seq![word], two);
    lemma_part(words, i, one, seq![word]);
    assert(seq![word][0] == word);
    assert(same_word(words[i + one.len() + 0], seq![word][0]));
    lemma_keys();
    lemma_keyword(chars, found, words, i + one.len(), word);
}

/// An expression is read where it is spelled and something ends behind it.
#[verifier::rlimit(40)]
pub proof fn lemma_whole(
    chars: Seq<char>,
    found: Seq<Token>,
    words: Seq<Seq<char>>,
    i: int,
    expr: Expr,
)
    requires
        lexed(chars, found, words),
        is_well_formed(expr),
        spelled(words, i, words_of(expr)),
        ends_at(words, i + words_of(expr).len()),
    ensures
        filter(chars, found, i, expr, i + words_of(expr).len()),
    decreases expr, 0int,
{
    let end = i + words_of(expr).len();
    lemma_ends(chars, found, words, end);
    match expr {
        Expr::And(left, right) => {
            let one = in_parens(words_of(*left));
            let two = in_parens(words_of(*right));
            lemma_between(chars, found, words, i, one, "and"@, two);
            let at = i + one.len();
            lemma_parens(chars, found, words, i, *left);
            lemma_parens(chars, found, words, at + 1, *right);
            lemma_two_ands(chars, found, i, *left, at, *right, end);
            lemma_last_or(chars, found, i, expr, end);
        },
        Expr::Or(left, right) => {
            let one = in_parens(words_of(*left));
            let two = in_parens(words_of(*right));
            lemma_between(chars, found, words, i, one, "or"@, two);
            let at = i + one.len();
            lemma_parens(chars, found, words, i, *left);
            lemma_parens(chars, found, words, at + 1, *right);
            lemma_or_ends_ands(chars, found, at);
            lemma_last_and(chars, found, i, *left, at);
            lemma_last_and(chars, found, at + 1, *right, end);
            lemma_two_ors(chars, found, i, *left, at, *right, end);
        },
        Expr::Not(inner) => {
            let word = seq!["not"@];
            lemma_part(words, i, word, in_parens(words_of(*inner)));
            lemma_parens(chars, found, words, i + 1, *inner);
            assert(word[0] == "not"@);
            assert(same_word(words[i + 0], word[0]));
            lemma_keys();
            lemma_keyword(chars, found, words, i, "not"@);
            lemma_negation(chars, found, i, *inner, end);
            lemma_last_and(chars, found, i, expr, end);
            lemma_last_or(chars, found, i, expr, end);
        },
        _ => {
            lemma_predicate(chars, found, words, i, expr);
            lemma_unnested(chars, found, i, expr, end);
            lemma_last_and(chars, found, i, expr, end);
            lemma_last_or(chars, found, i, expr, end);
        },
    }
}

/// An expression that is written with its words, in capital or in small letters and with blanks
/// where they are needed, is read as that expression.
#[verifier::rlimit(40)]
pub proof fn law_filters_read_back(expr: Expr, words: Seq<Seq<char>>, gaps: Seq<Seq<char>>)
    requires
        is_well_formed(expr),
        words.len() == words_of(expr).len(),
        spelled(words, 0, words_of(expr)),
        are_spread(words, gaps),
        spread(words, gaps, 0).len() <= usize::MAX,
    ensures
        expr_of(spread(words, gaps, 0)) == Ok::<Expr, Seq<char>>(expr),
{
    let chars = spread(words, gaps, 0);
    law_words_are_found(words, gaps);
    lemma_whole(chars, tokens(chars), words, 0, expr);
    reveal(filter);
}

/// Whether every one of the words is a word or a sign.
pub open spec fn are_lexemes(words: Seq<Seq<char>>) -> bool {
    forall|i: int| 0 <= i < words.len() ==> is_lexeme(#[trigger] words[i])
}

proof fn lemma_key_is_lexeme(key: Seq<char>)
    requires
        is_key(key),
    ensures
        is_lexeme(key),
{
    assert forall|j: int| 0 <= j < key.len() implies !is_blank(#[trigger] key[j]) && !is_sign(
        key[j],
    ) && !is_single(key[j]) by {
        assert(is_key_char(key[j]));
    }
}

proof fn lemma_appended(one: Seq<Seq<char>>, two: Seq<Seq<char>>)
    requires
        are_lexemes(one),
        are_lexemes(two),
    ensures
        are_lexemes(one + two),
{
    assert forall|i: int| 0 <= i < (one + two).len() implies is_lexeme(
        #[trigger] (one + two)[i],
    ) by {
        if i < one.len() {
            assert((one + two)[i] == one[i]);
        } else {
            assert((one + two)[i] == two[i - one.len()]);
        }
    }
}

proof fn lemma_in_parens(words: Seq<Seq<char>>)
    requires
        are_lexemes(words),
    ensures
        are_lexemes(in_parens(words)),
{
    assert(is_lexeme(seq!['(']) && is_lexeme(seq![')']));
    lemma_appended(seq![seq!['(']], words);
    lemma_appended(seq![seq!['(']] + words, seq![seq![')']]);
}

proof fn lemma_toward_lexemes(dir: Direction, words: Seq<Seq<char>>)
    requires
        are_lexemes(words),
    ensures
        are_lexemes(toward_words(dir, words)),
{
    lemma_keys();
    lemma_key_is_lexeme("src"@);
    lemma_key_is_lexeme("dst"@);
    lemma_appended(seq!["src"@], words);
    lemma_appended(seq!["dst"@], words);
}

/// The words that an expression is written with are words and signs.
#[verifier::rlimit(40)]
pub proof fn law_words_are_lexemes(expr: Expr)
    requires
        is_well_formed(expr),
    ensures
        are_lexemes(words_of(expr)),
    decreases expr,
{
    lemma_keys();
    match expr {
        Expr::Proto(proto) => {
            lemma_key_is_lexeme(proto_word(proto));
        },
        Expr::Host { addr, dir } => {
            lemma_key_is_lexeme("host"@);
            lemma_host_chars(addr);
            lemma_toward_lexemes(dir, seq!["host"@, host_word(addr)]);
        },
        Expr::Port { port, dir } => {
            lemma_key_is_lexeme("port"@);
            lemma_number_word(port as nat);
            lemma_toward_lexemes(dir, seq!["port"@, decimal(port as nat)]);
        },
        Expr::PortRange { start, end, dir } => {
            lemma_key_is_lexeme("portrange"@);
            lemma_number_word(start as nat);
            lemma_number_word(end as nat);
            assert(is_lexeme(seq!['-']));
            lemma_toward_lexemes(
                dir,
                seq!["portrange"@, decimal(start as nat), seq!['-'], decimal(end as nat)],
            );
        },
        Expr::EtherHost { addr, dir } => {
            lemma_key_is_lexeme("ether"@);
            lemma_key_is_lexeme("host"@);
            lemma_mac_chars(addr);
            lemma_toward_lexemes(dir, seq!["host"@, mac_text(addr)]);
            lemma_appended(seq!["ether"@], toward_words(dir, seq!["host"@, mac_text(addr)]));
        },
        Expr::Net { addr, dir } => {
            lemma_key_is_lexeme("net"@);
            lemma_key_is_lexeme("mask"@);
            match addr {
                NetAddr::V4 { addr: a, mask: m } => {
                    lemma_host_chars(HostAddr::V4(a));
                    lemma_host_chars(HostAddr::V4(m));
                },
                NetAddr::V6 { addr: a, mask: m } => {
                    lemma_host_chars(HostAddr::V6(a));
                    lemma_host_chars(HostAddr::V6(m));
                },
            }
            lemma_toward_lexemes(dir, net_words(addr));
        },
        Expr::Len { op, len } => {
            lemma_key_is_lexeme("len"@);
            lemma_op(op);
            lemma_number_word(len as nat);
        },
        Expr::And(left, right) => {
            law_words_are_lexemes(*left);
            law_words_are_lexemes(*right);
            lemma_key_is_lexeme("and"@);
            lemma_in_parens(words_of(*left));
            lemma_in_parens(words_of(*right));
            lemma_appended(in_parens(words_of(*left)), seq!["and"@]);
            lemma_appended(
                in_parens(words_of(*left)) + seq!["and"@],
                in_parens(words_of(*right)),
            );
        },
        Expr::Or(left, right) => {
            law_words_are_lexemes(*left);
            law_words_are_lexemes(*right);
            lemma_key_is_lexeme("or"@);
            lemma_in_parens(words_of(*left));
            lemma_in_parens(words_of(*right));
            lemma_appended(in_parens(words_of(*left)), seq!["or"@]);
            lemma_appended(
                in_parens(words_of(*left)) + seq!["or"@],
                in_parens(words_of(*right)),
            );
        },
        Expr::Not(inner) => {
            law_words_are_lexemes(*inner);
            lemma_key_is_lexeme("not"@);
            lemma_in_parens(words_of(*inner));
            lemma_appended(seq!["not"@], in_parens(words_of(*inner)));
        },
    }
}

/// An expression that is written with a blank before each word, and one at the end, is read as that
/// expression.
pub proof fn law_written_filter_reads_back(expr: Expr)
    requires
        is_well_formed(expr),
        spread(
            words_of(expr),
            Seq::new(words_of(expr).len() + 1, |i: int| seq![' ']),
            0,
        ).len() <= usize::MAX,
    ensures
        expr_of(
            spread(
                words_of(expr),
                Seq::new(words_of(expr).len() + 1, |i: int| seq![' ']),
                0,
            ),
        ) == Ok::<Expr, Seq<char>>(expr),
{
    let words = words_of(expr);
    let gaps = Seq::new(words.len() + 1, |i: int| seq![' ']);
    law_words_are_lexemes(expr);
    assert(are_spread(words, gaps));
    assert(spelled(words, 0, words));
    law_filters_read_back(expr, words, gaps);
}

} // verus!
