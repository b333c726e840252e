//! Compile FilterAst into CBPF bytecode.

use vstd::prelude::*;

use crate::addr::{Ipv4Addr, Ipv6Addr};
use crate::assembler::{reaches, resolved, Assembler, LabelId};
use crate::ast::{
    holds, mac_high, mac_low, Direction, Expr, FilterAst, HostAddr, NetAddr, Protocol, RelOp,
};
use crate::block::{
    emitted, encodable, item_is, label_count, lemma_emit_before, lemma_emit_both,
    lemma_emit_either, lemma_emit_flip, lemma_emit_split, lemma_emit_test, placed, placed_label,
    slots, Code,
};
use crate::meaning::law_compiled_filter_decides;
use crate::packet::{
    ETHERTYPE_ARP, ETHERTYPE_IP, ETHERTYPE_IPV6, ETHERTYPE_RARP, IPPROTO_ICMP, IPPROTO_ICMPV6,
    IPPROTO_TCP, IPPROTO_UDP,
};
use crate::types::{
    jeq, jge, jgt, ld_abs_b, ld_abs_h, ld_abs_w, ld_ind_h, ldx_msh_b, ret_k, Instruction, BPF_ALU,
    BPF_AND, BPF_K, BPF_LD, BPF_LEN, BPF_W, CBPF_ACCEPT, CBPF_REJECT,
};
use crate::vm::accepts;

verus! {

/// A 16-bit value as an operand.
#[verifier::allow_in_spec]
pub fn wide16(value: u16) -> u32
    returns
        value as u32,
{
    value as u32
}

/// An 8-bit value as an operand.
#[verifier::allow_in_spec]
pub fn wide8(value: u8) -> u32
    returns
        value as u32,
{
    value as u32
}

/// Build an `and #k` instruction: A = A & k.
#[verifier::allow_in_spec]
pub fn and_k(k: u32) -> Instruction
    returns
        Instruction::new(BPF_ALU | BPF_AND | BPF_K, 0, 0, k),
{
    Instruction::new(BPF_ALU | BPF_AND | BPF_K, 0, 0, k)
}

/// Build a `ld len` instruction: A = the length of the packet.
#[verifier::allow_in_spec]
pub fn ld_len() -> Instruction
    returns
        Instruction::new(BPF_LD | BPF_LEN | BPF_W, 0, 0, 0),
{
    Instruction::new(BPF_LD | BPF_LEN | BPF_W, 0, 0, 0)
}

pub open spec fn both(first: Code, second: Code) -> Code {
    Code::Both(Box::new(first), Box::new(second))
}

pub open spec fn either(first: Code, second: Code) -> Code {
    Code::Either(Box::new(first), Box::new(second))
}

pub open spec fn flip(test: Code) -> Code {
    Code::Flip(Box::new(test))
}

pub open spec fn split(test: Code, yes: Code, no: Code) -> Code {
    Code::Split(Box::new(test), Box::new(yes), Box::new(no))
}

pub open spec fn before(inst: Instruction, test: Code) -> Code {
    Code::Before(inst, Box::new(test))
}

/// Loads a value and tests it.
pub open spec fn check(load: Instruction, jump: Instruction) -> Code {
    before(load, Code::Test(jump))
}

/// Tests the source, the destination, or first the one and then the other.
pub open spec fn directed(dir: Direction, src: Code, dst: Code) -> Code {
    match dir {
        Direction::Any => either(src, dst),
        Direction::Src => src,
        Direction::Dst => dst,
    }
}

pub open spec fn ethertype_code(ethertype: u16) -> Code {
    check(ld_abs_h(12), jeq(wide16(ethertype)))
}

pub open spec fn transport_code(number: u8) -> Code {
    split(
        ethertype_code(ETHERTYPE_IP),
        check(ld_abs_b(23), jeq(wide8(number))),
        both(
            Code::Test(jeq(wide16(ETHERTYPE_IPV6))),
            check(ld_abs_b(20), jeq(wide8(number))),
        ),
    )
}

pub open spec fn proto_code(proto: Protocol) -> Code {
    match proto {
        Protocol::Ip => ethertype_code(ETHERTYPE_IP),
        Protocol::Ip6 => ethertype_code(ETHERTYPE_IPV6),
        Protocol::Arp => ethertype_code(ETHERTYPE_ARP),
        Protocol::Rarp => ethertype_code(ETHERTYPE_RARP),
        Protocol::Tcp => transport_code(IPPROTO_TCP),
        Protocol::Udp => transport_code(IPPROTO_UDP),
        Protocol::Icmp => both(
            ethertype_code(ETHERTYPE_IP),
            check(ld_abs_b(23), jeq(wide8(IPPROTO_ICMP))),
        ),
        Protocol::Icmp6 => both(
            ethertype_code(ETHERTYPE_IPV6),
            check(ld_abs_b(20), jeq(wide8(IPPROTO_ICMPV6))),
        ),
    }
}

pub open spec fn ipv4_host_code(addr: Ipv4Addr, dir: Direction) -> Code {
    both(
        ethertype_code(ETHERTYPE_IP),
        directed(
            dir,
            check(ld_abs_w(26), jeq(addr.bits)),
            check(ld_abs_w(30), jeq(addr.bits)),
        ),
    )
}

/// Compares the words from index `i` on with those of an address that starts at `off`.
pub open spec fn ipv6_addr_code(off: u32, addr: Ipv6Addr, i: int) -> Code
    decreases 4 - i,
{
    let word = check(ld_abs_w((off + 4 * i) as u32), jeq(addr.word(i)));
    if i < 3 {
        both(word, ipv6_addr_code(off, addr, i + 1))
    } else {
        word
    }
}

pub open spec fn ipv6_host_code(addr: Ipv6Addr, dir: Direction) -> Code {
    both(
        ethertype_code(ETHERTYPE_IPV6),
        directed(dir, ipv6_addr_code(22, addr, 0), ipv6_addr_code(38, addr, 0)),
    )
}

pub open spec fn host_code(addr: HostAddr, dir: Direction) -> Code {
    match addr {
        HostAddr::V4(a) => ipv4_host_code(a, dir),
        HostAddr::V6(a) => ipv6_host_code(a, dir),
    }
}

/// Tests whether the protocol number at `off` is that of TCP or UDP.
pub open spec fn has_ports_code(off: u32) -> Code {
    either(
        check(ld_abs_b(off), jeq(wide8(IPPROTO_TCP))),
        Code::Test(jeq(wide8(IPPROTO_UDP))),
    )
}

/// Chooses between tests of the ports behind an IPv4 and behind an IPv6 header.
pub open spec fn ports_code(v4: Code, v6: Code) -> Code {
    split(
        ethertype_code(ETHERTYPE_IP),
        both(has_ports_code(23), before(ldx_msh_b(14), v4)),
        both(Code::Test(jeq(wide16(ETHERTYPE_IPV6))), both(has_ports_code(20), v6)),
    )
}

pub open spec fn pair_code(
    src_load: Instruction,
    dst_load: Instruction,
    jump: Instruction,
    dir: Direction,
) -> Code {
    directed(dir, check(src_load, jump), check(dst_load, jump))
}

pub open spec fn port_code(port: u16, dir: Direction) -> Code {
    ports_code(
        pair_code(ld_ind_h(14), ld_ind_h(16), jeq(wide16(port)), dir),
        pair_code(ld_abs_h(54), ld_abs_h(56), jeq(wide16(port)), dir),
    )
}

pub open spec fn in_range_code(load: Instruction, start: u32, end: u32) -> Code {
    both(check(load, jge(start)), flip(Code::Test(jgt(end))))
}

pub open spec fn portrange_code(
    src_load: Instruction,
    dst_load: Instruction,
    start: u32,
    end: u32,
    dir: Direction,
) -> Code {
    directed(dir, in_range_code(src_load, start, end), in_range_code(dst_load, start, end))
}

pub open spec fn port_range_code(start: u16, end: u16, dir: Direction) -> Code {
    ports_code(
        portrange_code(ld_ind_h(14), ld_ind_h(16), wide16(start), wide16(end), dir),
        portrange_code(ld_abs_h(54), ld_abs_h(56), wide16(start), wide16(end), dir),
    )
}

pub open spec fn mac_code(off: u32, addr: Seq<u8>) -> Code {
    both(
        check(ld_abs_w(off), jeq(mac_high(addr))),
        check(ld_abs_h((off + 4) as u32), jeq(wide16(mac_low(addr)))),
    )
}

pub open spec fn ether_host_code(addr: Seq<u8>, dir: Direction) -> Code {
    match dir {
        Direction::Any => either(mac_code(0, addr), mac_code(6, addr)),
        Direction::Src => mac_code(6, addr),
        Direction::Dst => mac_code(0, addr),
    }
}

pub open spec fn masked_code(off: u32, mask: u32, net: u32) -> Code {
    before(ld_abs_w(off), check(and_k(mask), jeq(net)))
}

pub open spec fn ipv4_net_code(addr: Ipv4Addr, mask: Ipv4Addr, dir: Direction) -> Code {
    both(
        ethertype_code(ETHERTYPE_IP),
        directed(
            dir,
            masked_code(26, mask.bits, addr.bits & mask.bits),
            masked_code(30, mask.bits, addr.bits & mask.bits),
        ),
    )
}

/// Compares the masked words from index `i` on with those of an address.
pub open spec fn ipv6_net_addr_code(off: u32, addr: Ipv6Addr, mask: Ipv6Addr, i: int) -> Code
    decreases 4 - i,
{
    let word = masked_code((off + 4 * i) as u32, mask.word(i), addr.word(i));
    if i < 3 {
        both(word, ipv6_net_addr_code(off, addr, mask, i + 1))
    } else {
        word
    }
}

pub open spec fn ipv6_net_code(addr: Ipv6Addr, mask: Ipv6Addr, dir: Direction) -> Code {
    both(
        ethertype_code(ETHERTYPE_IPV6),
        directed(
            dir,
            ipv6_net_addr_code(22, addr, mask, 0),
            ipv6_net_addr_code(38, addr, mask, 0),
        ),
    )
}

pub open spec fn net_code(addr: NetAddr, dir: Direction) -> Code {
    match addr {
        NetAddr::V4 { addr, mask } => ipv4_net_code(addr, mask, dir),
        NetAddr::V6 { addr, mask } => ipv6_net_code(addr, mask, dir),
    }
}

pub open spec fn len_code(op: RelOp, len: u32) -> Code {
    match op {
        RelOp::Eq => check(ld_len(), jeq(len)),
        RelOp::Ne => flip(check(ld_len(), jeq(len))),
        RelOp::Gt => check(ld_len(), jgt(len)),
        RelOp::Ge => check(ld_len(), jge(len)),
        RelOp::Lt => flip(check(ld_len(), jge(len))),
        RelOp::Le => flip(check(ld_len(), jgt(len))),
    }
}

/// The code of a filter expression.
pub open spec fn code_of(expr: Expr) -> Code
    decreases expr,
{
    match expr {
        Expr::Proto(proto) => proto_code(proto),
        Expr::Host { addr, dir } => host_code(addr, dir),
        Expr::Port { port, dir } => port_code(port, dir),
        Expr::PortRange { start, end, dir } => port_range_code(start, end, dir),
        Expr::EtherHost { addr, dir } => ether_host_code(addr, dir),
        Expr::Net { addr, dir } => net_code(addr, dir),
        Expr::Len { op, len } => len_code(op, len),
        Expr::And(left, right) => both(code_of(*left), code_of(*right)),
        Expr::Or(left, right) => either(code_of(*left), code_of(*right)),
        Expr::Not(inner) => flip(code_of(*inner)),
    }
}

/// Bind a label to the next instruction.
fn place_here(out: &mut Assembler, label: LabelId)
    requires
        old(out).wf(),
    ensures
        final(out).wf(),
        placed_label(*old(out), *final(out), label),
{
    let index: usize = out.next_index();
    out.place_label(label, index);
}

fn emit_test(out: &mut Assembler, jump: Instruction, accept: LabelId, reject: LabelId)
    requires
        old(out).wf(),
    ensures
        emitted(*old(out), *final(out), Code::Test(jump), accept, reject),
{
    out.emit_jump(jump, accept, reject);
    proof {
        lemma_emit_test(*old(out), *out, jump, accept, reject);
    }
}

fn emit_check(
    out: &mut Assembler,
    load: Instruction,
    jump: Instruction,
    accept: LabelId,
    reject: LabelId,
)
    requires
        old(out).wf(),
    ensures
        emitted(*old(out), *final(out), check(load, jump), accept, reject),
{
    out.emit(load);
    let ghost loaded = *out;
    emit_test(out, jump, accept, reject);
    proof {
        lemma_emit_before(*old(out), loaded, *out, load, Code::Test(jump), accept, reject);
    }
}

fn check_ethertype(ethertype: u16, out: &mut Assembler, accept: LabelId, reject: LabelId)
    requires
        old(out).wf(),
    ensures
        emitted(*old(out), *final(out), ethertype_code(ethertype), accept, reject),
{
    emit_check(out, ld_abs_h(12), jeq(wide16(ethertype)), accept, reject);
}

fn compile_transport_proto(number: u8, out: &mut Assembler, accept: LabelId, reject: LabelId)
    requires
        old(out).wf(),
        old(out).next_label() + label_count(transport_code(number)) <= usize::MAX,
    ensures
        emitted(*old(out), *final(out), transport_code(number), accept, reject),
{
    reveal_with_fuel(label_count, 4);
    let ipv4_label: LabelId = out.new_label();
    let ghost s1 = *out;
    let check_v6: LabelId = out.new_label();
    let ghost s2 = *out;
    check_ethertype(ETHERTYPE_IP, out, ipv4_label, check_v6);
    let ghost s3 = *out;

    // IPv6 path: check the next header field.
    place_here(out, check_v6);
    let ghost s4 = *out;
    let ipv6_label: LabelId = out.new_label();
    let ghost t1 = *out;
    emit_test(out, jeq(wide16(ETHERTYPE_IPV6)), ipv6_label, reject);
    let ghost t2 = *out;
    place_here(out, ipv6_label);
    let ghost t3 = *out;
    emit_check(out, ld_abs_b(20), jeq(wide8(number)), accept, reject);
    let ghost s5 = *out;

    // IPv4 path: check the IP protocol field.
    place_here(out, ipv4_label);
    let ghost s6 = *out;
    emit_check(out, ld_abs_b(23), jeq(wide8(number)), accept, reject);
    proof {
        let v4 = check(ld_abs_b(23), jeq(wide8(number)));
        let is_v6 = Code::Test(jeq(wide16(ETHERTYPE_IPV6)));
        let v6 = check(ld_abs_b(20), jeq(wide8(number)));
        lemma_emit_both(s4, t1, t2, t3, s5, ipv6_label, is_v6, v6, accept, reject);
        lemma_emit_split(
            *old(out),
            s1,
            s2,
            s3,
            s4,
            s5,
            s6,
            *out,
            ipv4_label,
            check_v6,
            ethertype_code(ETHERTYPE_IP),
            v4,
            both(is_v6, v6),
            accept,
            reject,
        );
    }
}

/// Check the EtherType, and in packets that have it the byte at `off`.
fn check_network_proto(
    ethertype: u16,
    off: u32,
    number: u8,
    out: &mut Assembler,
    accept: LabelId,
    reject: LabelId,
)
    requires
        old(out).wf(),
        old(out).next_label() < usize::MAX,
    ensures
        emitted(
            *old(out),
            *final(out),
            both(ethertype_code(ethertype), check(ld_abs_b(off), jeq(wide8(number)))),
            accept,
            reject,
        ),
{
    let proto_check: LabelId = out.new_label();
    let ghost s1 = *out;
    check_ethertype(ethertype, out, proto_check, reject);
    let ghost s2 = *out;
    place_here(out, proto_check);
    let ghost s3 = *out;
    emit_check(out, ld_abs_b(off), jeq(wide8(number)), accept, reject);
    proof {
        let second = check(ld_abs_b(off), jeq(wide8(number)));
        lemma_emit_both(
            *old(out),
            s1,
            s2,
            s3,
            *out,
            proto_check,
            ethertype_code(ethertype),
            second,
            accept,
            reject,
        );
    }
}

fn compile_proto(proto: Protocol, out: &mut Assembler, accept: LabelId, reject: LabelId)
    requires
        old(out).wf(),
        old(out).next_label() + label_count(proto_code(proto)) <= usize::MAX,
    ensures
        emitted(*old(out), *final(out), proto_code(proto), accept, reject),
{
    reveal_with_fuel(label_count, 3);
    match proto {
        Protocol::Ip => check_ethertype(ETHERTYPE_IP, out, accept, reject),
        Protocol::Ip6 => check_ethertype(ETHERTYPE_IPV6, out, accept, reject),
        Protocol::Arp => check_ethertype(ETHERTYPE_ARP, out, accept, reject),
        Protocol::Rarp => check_ethertype(ETHERTYPE_RARP, out, accept, reject),
        Protocol::Tcp => compile_transport_proto(IPPROTO_TCP, out, accept, reject),
        Protocol::Udp => compile_transport_proto(IPPROTO_UDP, out, accept, reject),
        Protocol::Icmp => check_network_proto(
            ETHERTYPE_IP,
            23,
            IPPROTO_ICMP,
            out,
            accept,
            reject,
        ),
        Protocol::Icmp6 => check_network_proto(
            ETHERTYPE_IPV6,
            20,
            IPPROTO_ICMPV6,
            out,
            accept,
            reject,
        ),
    }
}

/// Compare the source and the destination value as the direction asks.
fn compare_pair(
    src_load: Instruction,
    dst_load: Instruction,
    jump: Instruction,
    dir: Direction,
    out: &mut Assembler,
    accept: LabelId,
    reject: LabelId,
)
    requires
        old(out).wf(),
        old(out).next_label() + label_count(pair_code(src_load, dst_load, jump, dir)) <= usize::MAX,
    ensures
        emitted(*old(out), *final(out), pair_code(src_load, dst_load, jump, dir), accept, reject),
{
    reveal_with_fuel(label_count, 3);
    match dir {
        Direction::Any => {
            let dst_check: LabelId = out.new_label();
            let ghost s1 = *out;
            emit_check(out, src_load, jump, accept, dst_check);
            let ghost s2 = *out;
            place_here(out, dst_check);
            let ghost s3 = *out;
            emit_check(out, dst_load, jump, accept, reject);
            proof {
                let src = check(src_load, jump);
                let dst = check(dst_load, jump);
                lemma_emit_either(*old(out), s1, s2, s3, *out, dst_check, src, dst, accept, reject);
            }
        },
        Direction::Src => emit_check(out, src_load, jump, accept, reject),
        Direction::Dst => emit_check(out, dst_load, jump, accept, reject),
    }
}

fn compile_ipv4_host(
    addr: Ipv4Addr,
    dir: Direction,
    out: &mut Assembler,
    accept: LabelId,
    reject: LabelId,
)
    requires
        old(out).wf(),
        old(out).next_label() + label_count(ipv4_host_code(addr, dir)) <= usize::MAX,
    ensures
        emitted(*old(out), *final(out), ipv4_host_code(addr, dir), accept, reject),
{
    reveal_with_fuel(label_count, 2);
    let ip_label: LabelId = out.new_label();
    let ghost s1 = *out;
    check_ethertype(ETHERTYPE_IP, out, ip_label, reject);
    let ghost s2 = *out;
    place_here(out, ip_label);
    let ghost s3 = *out;
    compare_pair(ld_abs_w(26), ld_abs_w(30), jeq(addr.bits), dir, out, accept, reject);
    proof {
        lemma_emit_both(
            *old(out),
            s1,
            s2,
            s3,
            *out,
            ip_label,
            ethertype_code(ETHERTYPE_IP),
            pair_code(ld_abs_w(26), ld_abs_w(30), jeq(addr.bits), dir),
            accept,
            reject,
        );
    }
}

/// Compare the words from index `i` on with those of the address at `off`.
fn check_ipv6_addr_at(
    off: u32,
    addr: Ipv6Addr,
    i: u32,
    out: &mut Assembler,
    accept: LabelId,
    reject: LabelId,
)
    requires
        old(out).wf(),
        off + 12 <= u32::MAX,
        i <= 3,
        old(out).next_label() + label_count(ipv6_addr_code(off, addr, i as int)) <= usize::MAX,
    ensures
        emitted(*old(out), *final(out), ipv6_addr_code(off, addr, i as int), accept, reject),
    decreases 3 - i,
{
    let words: [u32; 4] = addr.words();
    assert(words@[i as int] == addr.word(i as int));
    let word: u32 = words[i as usize];
    if i == 3 {
        emit_check(out, ld_abs_w(off + 4 * i), jeq(word), accept, reject);
    } else {
        let next: LabelId = out.new_label();
        let ghost s1 = *out;
        emit_check(out, ld_abs_w(off + 4 * i), jeq(word), next, reject);
        let ghost s2 = *out;
        place_here(out, next);
        let ghost s3 = *out;
        check_ipv6_addr_at(off, addr, i + 1, out, accept, reject);
        proof {
            let first = check(ld_abs_w((off + 4 * i) as u32), jeq(word));
            let rest = ipv6_addr_code(off, addr, i + 1);
            lemma_emit_both(*old(out), s1, s2, s3, *out, next, first, rest, accept, reject);
        }
    }
}

fn compile_ipv6_host(
    addr: Ipv6Addr,
    dir: Direction,
    out: &mut Assembler,
    accept: LabelId,
    reject: LabelId,
)
    requires
        old(out).wf(),
        old(out).next_label() + label_count(ipv6_host_code(addr, dir)) <= usize::MAX,
    ensures
        emitted(*old(out), *final(out), ipv6_host_code(addr, dir), accept, reject),
{
    reveal_with_fuel(label_count, 2);
    let ghost src = ipv6_addr_code(22, addr, 0);
    let ghost dst = ipv6_addr_code(38, addr, 0);
    let ip6_label: LabelId = out.new_label();
    let ghost s1 = *out;
    check_ethertype(ETHERTYPE_IPV6, out, ip6_label, reject);
    let ghost s2 = *out;
    place_here(out, ip6_label);
    let ghost s3 = *out;
    match dir {
        Direction::Any => {
            let dst_check: LabelId = out.new_label();
            let ghost t1 = *out;
            check_ipv6_addr_at(22, addr, 0, out, accept, dst_check);
            let ghost t2 = *out;
            place_here(out, dst_check);
            let ghost t3 = *out;
            check_ipv6_addr_at(38, addr, 0, out, accept, reject);
            proof {
                lemma_emit_either(s3, t1, t2, t3, *out, dst_check, src, dst, accept, reject);
            }
        },
        Direction::Src => check_ipv6_addr_at(22, addr, 0, out, accept, reject),
        Direction::Dst => check_ipv6_addr_at(38, addr, 0, out, accept, reject),
    }
    proof {
        lemma_emit_both(
            *old(out),
            s1,
            s2,
            s3,
            *out,
            ip6_label,
            ethertype_code(ETHERTYPE_IPV6),
            directed(dir, src, dst),
            accept,
            reject,
        );
    }
}

fn compile_host(
    addr: HostAddr,
    dir: Direction,
    out: &mut Assembler,
    accept: LabelId,
    reject: LabelId,
)
    requires
        old(out).wf(),
        old(out).next_label() + label_count(host_code(addr, dir)) <= usize::MAX,
    ensures
        emitted(*old(out), *final(out), host_code(addr, dir), accept, reject),
{
    match addr {
        HostAddr::V4(a) => compile_ipv4_host(a, dir, out, accept, reject),
        HostAddr::V6(a) => compile_ipv6_host(a, dir, out, accept, reject),
    }
}

/// Check that the protocol number at `off` is that of TCP or UDP.
fn check_transport(off: u32, out: &mut Assembler, accept: LabelId, reject: LabelId)
    requires
        old(out).wf(),
        old(out).next_label() < usize::MAX,
    ensures
        emitted(*old(out), *final(out), has_ports_code(off), accept, reject),
{
    let udp_check: LabelId = out.new_label();
    let ghost s1 = *out;
    emit_check(out, ld_abs_b(off), jeq(wide8(IPPROTO_TCP)), accept, udp_check);
    let ghost s2 = *out;
    place_here(out, udp_check);
    let ghost s3 = *out;
    emit_test(out, jeq(wide8(IPPROTO_UDP)), accept, reject);
    proof {
        let tcp = check(ld_abs_b(off), jeq(wide8(IPPROTO_TCP)));
        let udp = Code::Test(jeq(wide8(IPPROTO_UDP)));
        lemma_emit_either(*old(out), s1, s2, s3, *out, udp_check, tcp, udp, accept, reject);
    }
}

/// What a comparison of ports asks for.
#[derive(Clone, Copy)]
enum PortTest {
    Equal { port: u16, dir: Direction },
    Within { start: u16, end: u16, dir: Direction },
}

impl PortTest {
    /// The code of the comparison, on ports that the two instructions load.
    spec fn code(self, src_load: Instruction, dst_load: Instruction) -> Code {
        match self {
            PortTest::Equal { port, dir } => pair_code(src_load, dst_load, jeq(wide16(port)), dir),
            PortTest::Within { start, end, dir } => portrange_code(
                src_load,
                dst_load,
                wide16(start),
                wide16(end),
                dir,
            ),
        }
    }
}

/// Check that the value that `load` loads lies in the range.
fn check_in_range(
    load: Instruction,
    start: u32,
    end: u32,
    out: &mut Assembler,
    accept: LabelId,
    reject: LabelId,
)
    requires
        old(out).wf(),
        old(out).next_label() < usize::MAX,
    ensures
        emitted(*old(out), *final(out), in_range_code(load, start, end), accept, reject),
{
    let in_range: LabelId = out.new_label();
    let ghost s1 = *out;
    emit_check(out, load, jge(start), in_range, reject);
    let ghost s2 = *out;
    place_here(out, in_range);
    let ghost s3 = *out;
    emit_test(out, jgt(end), reject, accept);
    proof {
        let above = Code::Test(jgt(end));
        lemma_emit_flip(s3, *out, above, accept, reject);
        lemma_emit_both(
            *old(out),
            s1,
            s2,
            s3,
            *out,
            in_range,
            check(load, jge(start)),
            flip(above),
            accept,
            reject,
        );
    }
}

fn compare_portrange(
    src_load: Instruction,
    dst_load: Instruction,
    start: u32,
    end: u32,
    dir: Direction,
    out: &mut Assembler,
    accept: LabelId,
    reject: LabelId,
)
    requires
        old(out).wf(),
        old(out).next_label() + label_count(portrange_code(src_load, dst_load, start, end, dir))
            <= usize::MAX,
    ensures
        emitted(
            *old(out),
            *final(out),
            portrange_code(src_load, dst_load, start, end, dir),
            accept,
            reject,
        ),
{
    reveal_with_fuel(label_count, 5);
    match dir {
        Direction::Any => {
            let dst_check: LabelId = out.new_label();
            let ghost s1 = *out;
            check_in_range(src_load, start, end, out, accept, dst_check);
            let ghost s2 = *out;
            place_here(out, dst_check);
            let ghost s3 = *out;
            check_in_range(dst_load, start, end, out, accept, reject);
            proof {
                lemma_emit_either(
                    *old(out),
                    s1,
                    s2,
                    s3,
                    *out,
                    dst_check,
                    in_range_code(src_load, start, end),
                    in_range_code(dst_load, start, end),
                    accept,
                    reject,
                );
            }
        },
        Direction::Src => check_in_range(src_load, start, end, out, accept, reject),
        Direction::Dst => check_in_range(dst_load, start, end, out, accept, reject),
    }
}

fn compare_ports(
    test: PortTest,
    src_load: Instruction,
    dst_load: Instruction,
    out: &mut Assembler,
    accept: LabelId,
    reject: LabelId,
)
    requires
        old(out).wf(),
        old(out).next_label() + label_count(test.code(src_load, dst_load)) <= usize::MAX,
    ensures
        emitted(*old(out), *final(out), test.code(src_load, dst_load), accept, reject),
{
    match test {
        PortTest::Equal { port, dir } => compare_pair(
            src_load,
            dst_load,
            jeq(wide16(port)),
            dir,
            out,
            accept,
            reject,
        ),
        PortTest::Within { start, end, dir } => compare_portrange(
            src_load,
            dst_load,
            wide16(start),
            wide16(end),
            dir,
            out,
            accept,
            reject,
        ),
    }
}

fn compile_ports(test: PortTest, out: &mut Assembler, accept: LabelId, reject: LabelId)
    requires
        old(out).wf(),
        old(out).next_label() + label_count(
            ports_code(
                test.code(ld_ind_h(14), ld_ind_h(16)),
                test.code(ld_abs_h(54), ld_abs_h(56)),
            ),
        ) <= usize::MAX,
    ensures
        emitted(
            *old(out),
            *final(out),
            ports_code(
                test.code(ld_ind_h(14), ld_ind_h(16)),
                test.code(ld_abs_h(54), ld_abs_h(56)),
            ),
            accept,
            reject,
        ),
{
    reveal_with_fuel(label_count, 4);
    let ghost v4 = test.code(ld_ind_h(14), ld_ind_h(16));
    let ghost v6 = test.code(ld_abs_h(54), ld_abs_h(56));
    let ipv4_label: LabelId = out.new_label();
    let ghost s1 = *out;
    let check_v6: LabelId = out.new_label();
    let ghost s2 = *out;
    check_ethertype(ETHERTYPE_IP, out, ipv4_label, check_v6);
    let ghost s3 = *out;

    // IPv6 path.
    place_here(out, check_v6);
    let ghost s4 = *out;
    let ipv6_label: LabelId = out.new_label();
    let ghost t1 = *out;
    emit_test(out, jeq(wide16(ETHERTYPE_IPV6)), ipv6_label, reject);
    let ghost t2 = *out;
    place_here(out, ipv6_label);
    let ghost t3 = *out;
    let port_check: LabelId = out.new_label();
    let ghost u1 = *out;
    check_transport(20, out, port_check, reject);
    let ghost u2 = *out;
    place_here(out, port_check);
    let ghost u3 = *out;
    compare_ports(test, ld_abs_h(54), ld_abs_h(56), out, accept, reject);
    let ghost s5 = *out;
    proof {
        let is_v6 = Code::Test(jeq(wide16(ETHERTYPE_IPV6)));
        let inner = both(has_ports_code(20), v6);
        lemma_emit_both(t3, u1, u2, u3, s5, port_check, has_ports_code(20), v6, accept, reject);
        lemma_emit_both(s4, t1, t2, t3, s5, ipv6_label, is_v6, inner, accept, reject);
    }

    // IPv4 path.
    place_here(out, ipv4_label);
    let ghost s6 = *out;
    let port_check: LabelId = out.new_label();
    let ghost v1 = *out;
    check_transport(23, out, port_check, reject);
    let ghost v2 = *out;
    place_here(out, port_check);
    let ghost v3 = *out;
    out.emit(ldx_msh_b(14));
    let ghost v4_loaded = *out;
    compare_ports(test, ld_ind_h(14), ld_ind_h(16), out, accept, reject);
    proof {
        let inner = before(ldx_msh_b(14), v4);
        lemma_emit_before(v3, v4_loaded, *out, ldx_msh_b(14), v4, accept, reject);
        lemma_emit_both(s6, v1, v2, v3, *out, port_check, has_ports_code(23), inner, accept, reject);
        lemma_emit_split(
            *old(out),
            s1,
            s2,
            s3,
            s4,
            s5,
            s6,
            *out,
            ipv4_label,
            check_v6,
            ethertype_code(ETHERTYPE_IP),
            both(has_ports_code(23), inner),
            both(Code::Test(jeq(wide16(ETHERTYPE_IPV6))), both(has_ports_code(20), v6)),
            accept,
            reject,
        );
    }
}

fn compile_port(port: u16, dir: Direction, out: &mut Assembler, accept: LabelId, reject: LabelId)
    requires
        old(out).wf(),
        old(out).next_label() + label_count(port_code(port, dir)) <= usize::MAX,
    ensures
        emitted(*old(out), *final(out), port_code(port, dir), accept, reject),
{
    compile_ports(PortTest::Equal { port, dir }, out, accept, reject);
}

fn compile_port_range(
    start: u16,
    end: u16,
    dir: Direction,
    out: &mut Assembler,
    accept: LabelId,
    reject: LabelId,
)
    requires
        old(out).wf(),
        old(out).next_label() + label_count(port_range_code(start, end, dir)) <= usize::MAX,
    ensures
        emitted(*old(out), *final(out), port_range_code(start, end, dir), accept, reject),
{
    compile_ports(PortTest::Within { start, end, dir }, out, accept, reject);
}

/// Compare the six bytes at `off` with a MAC address.
fn check_mac_at(
    off: u32,
    addr: [u8; 6],
    out: &mut Assembler,
    accept: LabelId,
    reject: LabelId,
)
    requires
        old(out).wf(),
        off + 4 <= u32::MAX,
        old(out).next_label() < usize::MAX,
    ensures
        emitted(*old(out), *final(out), mac_code(off, addr@), accept, reject),
{
    let high: u32 = addr[0] as u32 * 0x100_0000 + addr[1] as u32 * 0x1_0000 + addr[2] as u32 * 0x100
        + addr[3] as u32;
    let low: u16 = addr[4] as u16 * 0x100 + addr[5] as u16;
    let high_ok: LabelId = out.new_label();
    let ghost s1 = *out;
    emit_check(out, ld_abs_w(off), jeq(high), high_ok, reject);
    let ghost s2 = *out;
    place_here(out, high_ok);
    let ghost s3 = *out;
    emit_check(out, ld_abs_h(off + 4), jeq(wide16(low)), accept, reject);
    proof {
        let first = check(ld_abs_w(off), jeq(high));
        let second = check(ld_abs_h((off + 4) as u32), jeq(wide16(low)));
        lemma_emit_both(*old(out), s1, s2, s3, *out, high_ok, first, second, accept, reject);
    }
}

fn compile_ether_host(
    addr: [u8; 6],
    dir: Direction,
    out: &mut Assembler,
    accept: LabelId,
    reject: LabelId,
)
    requires
        old(out).wf(),
        old(out).next_label() + label_count(ether_host_code(addr@, dir)) <= usize::MAX,
    ensures
        emitted(*old(out), *final(out), ether_host_code(addr@, dir), accept, reject),
{
    reveal_with_fuel(label_count, 4);
    match dir {
        Direction::Any => {
            let src_check: LabelId = out.new_label();
            let ghost s1 = *out;
            // The destination stands at offset 0.
            check_mac_at(0, addr, out, accept, src_check);
            let ghost s2 = *out;
            place_here(out, src_check);
            let ghost s3 = *out;
            // The source stands at offset 6.
            check_mac_at(6, addr, out, accept, reject);
            proof {
                lemma_emit_either(
                    *old(out),
                    s1,
                    s2,
                    s3,
                    *out,
                    src_check,
                    mac_code(0, addr@),
                    mac_code(6, addr@),
                    accept,
                    reject,
                );
            }
        },
        Direction::Src => check_mac_at(6, addr, out, accept, reject),
        Direction::Dst => check_mac_at(0, addr, out, accept, reject),
    }
}

/// Compare the masked word at `off` with a network address.
fn check_masked(
    off: u32,
    mask: u32,
    net: u32,
    out: &mut Assembler,
    accept: LabelId,
    reject: LabelId,
)
    requires
        old(out).wf(),
    ensures
        emitted(*old(out), *final(out), masked_code(off, mask, net), accept, reject),
{
    out.emit(ld_abs_w(off));
    let ghost s1 = *out;
    emit_check(out, and_k(mask), jeq(net), accept, reject);
    proof {
        let rest = check(and_k(mask), jeq(net));
        lemma_emit_before(*old(out), s1, *out, ld_abs_w(off), rest, accept, reject);
    }
}

fn compile_ipv4_net(
    addr: Ipv4Addr,
    mask: Ipv4Addr,
    dir: Direction,
    out: &mut Assembler,
    accept: LabelId,
    reject: LabelId,
)
    requires
        old(out).wf(),
        old(out).next_label() + label_count(ipv4_net_code(addr, mask, dir)) <= usize::MAX,
    ensures
        emitted(*old(out), *final(out), ipv4_net_code(addr, mask, dir), accept, reject),
{
    reveal_with_fuel(label_count, 5);
    let net: u32 = addr.bits & mask.bits;
    let ghost src = masked_code(26, mask.bits, net);
    let ghost dst = masked_code(30, mask.bits, net);
    let ip_label: LabelId = out.new_label();
    let ghost s1 = *out;
    check_ethertype(ETHERTYPE_IP, out, ip_label, reject);
    let ghost s2 = *out;
    place_here(out, ip_label);
    let ghost s3 = *out;
    match dir {
        Direction::Any => {
            let dst_check: LabelId = out.new_label();
            let ghost t1 = *out;
            check_masked(26, mask.bits, net, out, accept, dst_check);
            let ghost t2 = *out;
            place_here(out, dst_check);
            let ghost t3 = *out;
            check_masked(30, mask.bits, net, out, accept, reject);
            proof {
                lemma_emit_either(s3, t1, t2, t3, *out, dst_check, src, dst, accept, reject);
            }
        },
        Direction::Src => check_masked(26, mask.bits, net, out, accept, reject),
        Direction::Dst => check_masked(30, mask.bits, net, out, accept, reject),
    }
    proof {
        lemma_emit_both(
            *old(out),
            s1,
            s2,
            s3,
            *out,
            ip_label,
            ethertype_code(ETHERTYPE_IP),
            directed(dir, src, dst),
            accept,
            reject,
        );
    }
}

/// Compare the masked words from index `i` on with those of the network address at `off`.
fn check_ipv6_net_at(
    off: u32,
    addr: Ipv6Addr,
    mask: Ipv6Addr,
    i: u32,
    out: &mut Assembler,
    accept: LabelId,
    reject: LabelId,
)
    requires
        old(out).wf(),
        off + 12 <= u32::MAX,
        i <= 3,
        old(out).next_label() + label_count(ipv6_net_addr_code(off, addr, mask, i as int))
            <= usize::MAX,
    ensures
        emitted(
            *old(out),
            *final(out),
            ipv6_net_addr_code(off, addr, mask, i as int),
            accept,
            reject,
        ),
    decreases 3 - i,
{
    let addr_words: [u32; 4] = addr.words();
    let mask_words: [u32; 4] = mask.words();
    assert(addr_words@[i as int] == addr.word(i as int));
    assert(mask_words@[i as int] == mask.word(i as int));
    let addr_word: u32 = addr_words[i as usize];
    let mask_word: u32 = mask_words[i as usize];
    if i == 3 {
        check_masked(off + 4 * i, mask_word, addr_word, out, accept, reject);
    } else {
        let next: LabelId = out.new_label();
        let ghost s1 = *out;
        check_masked(off + 4 * i, mask_word, addr_word, out, next, reject);
        let ghost s2 = *out;
        place_here(out, next);
        let ghost s3 = *out;
        reveal_with_fuel(label_count, 4);
        check_ipv6_net_at(off, addr, mask, i + 1, out, accept, reject);
        proof {
            let first = masked_code((off + 4 * i) as u32, mask_word, addr_word);
            let rest = ipv6_net_addr_code(off, addr, mask, i + 1);
            lemma_emit_both(*old(out), s1, s2, s3, *out, next, first, rest, accept, reject);
        }
    }
}

fn compile_ipv6_net(
    addr: Ipv6Addr,
    mask: Ipv6Addr,
    dir: Direction,
    out: &mut Assembler,
    accept: LabelId,
    reject: LabelId,
)
    requires
        old(out).wf(),
        old(out).next_label() + label_count(ipv6_net_code(addr, mask, dir)) <= usize::MAX,
    ensures
        emitted(*old(out), *final(out), ipv6_net_code(addr, mask, dir), accept, reject),
{
    reveal_with_fuel(label_count, 2);
    let ghost src = ipv6_net_addr_code(22, addr, mask, 0);
    let ghost dst = ipv6_net_addr_code(38, addr, mask, 0);
    let ip6_label: LabelId = out.new_label();
    let ghost s1 = *out;
    check_ethertype(ETHERTYPE_IPV6, out, ip6_label, reject);
    let ghost s2 = *out;
    place_here(out, ip6_label);
    let ghost s3 = *out;
    match dir {
        Direction::Any => {
            let dst_check: LabelId = out.new_label();
            let ghost t1 = *out;
            check_ipv6_net_at(22, addr, mask, 0, out, accept, dst_check);
            let ghost t2 = *out;
            place_here(out, dst_check);
            let ghost t3 = *out;
            check_ipv6_net_at(38, addr, mask, 0, out, accept, reject);
            proof {
                lemma_emit_either(s3, t1, t2, t3, *out, dst_check, src, dst, accept, reject);
            }
        },
        Direction::Src => check_ipv6_net_at(22, addr, mask, 0, out, accept, reject),
        Direction::Dst => check_ipv6_net_at(38, addr, mask, 0, out, accept, reject),
    }
    proof {
        lemma_emit_both(
            *old(out),
            s1,
            s2,
            s3,
            *out,
            ip6_label,
            ethertype_code(ETHERTYPE_IPV6),
            directed(dir, src, dst),
            accept,
            reject,
        );
    }
}

fn compile_net(
    addr: NetAddr,
    dir: Direction,
    out: &mut Assembler,
    accept: LabelId,
    reject: LabelId,
)
    requires
        old(out).wf(),
        old(out).next_label() + label_count(net_code(addr, dir)) <= usize::MAX,
    ensures
        emitted(*old(out), *final(out), net_code(addr, dir), accept, reject),
{
    match addr {
        NetAddr::V4 { addr, mask } => compile_ipv4_net(addr, mask, dir, out, accept, reject),
        NetAddr::V6 { addr, mask } => compile_ipv6_net(addr, mask, dir, out, accept, reject),
    }
}

fn compile_len(op: RelOp, len: u32, out: &mut Assembler, accept: LabelId, reject: LabelId)
    requires
        old(out).wf(),
    ensures
        emitted(*old(out), *final(out), len_code(op, len), accept, reject),
{
    match op {
        RelOp::Eq => emit_check(out, ld_len(), jeq(len), accept, reject),
        RelOp::Ne => emit_check(out, ld_len(), jeq(len), reject, accept),
        RelOp::Gt => emit_check(out, ld_len(), jgt(len), accept, reject),
        RelOp::Ge => emit_check(out, ld_len(), jge(len), accept, reject),
        RelOp::Lt => emit_check(out, ld_len(), jge(len), reject, accept),
        RelOp::Le => emit_check(out, ld_len(), jgt(len), reject, accept),
    }
    proof {
        match op {
            RelOp::Ne => lemma_emit_flip(
                *old(out),
                *out,
                check(ld_len(), jeq(len)),
                accept,
                reject,
            ),
            RelOp::Lt => lemma_emit_flip(
                *old(out),
                *out,
                check(ld_len(), jge(len)),
                accept,
                reject,
            ),
            RelOp::Le => lemma_emit_flip(
                *old(out),
                *out,
                check(ld_len(), jgt(len)),
                accept,
                reject,
            ),
            _ => {},
        }
    }
}

fn compile_node(ast: &FilterAst, out: &mut Assembler, accept: LabelId, reject: LabelId)
    requires
        old(out).wf(),
        old(out).next_label() + label_count(code_of(ast@)) <= usize::MAX,
    ensures
        emitted(*old(out), *final(out), code_of(ast@), accept, reject),
    decreases ast,
{
    match ast {
        FilterAst::And(left, right) => {
            let mid: LabelId = out.new_label();
            let ghost s1 = *out;
            compile_node(left, out, mid, reject);
            let ghost s2 = *out;
            place_here(out, mid);
            let ghost s3 = *out;
            compile_node(right, out, accept, reject);
            proof {
                let first = code_of(left@);
                let second = code_of(right@);
                lemma_emit_both(*old(out), s1, s2, s3, *out, mid, first, second, accept, reject);
            }
        },
        FilterAst::Or(left, right) => {
            let mid: LabelId = out.new_label();
            let ghost s1 = *out;
            compile_node(left, out, accept, mid);
            let ghost s2 = *out;
            place_here(out, mid);
            let ghost s3 = *out;
            compile_node(right, out, accept, reject);
            proof {
                let first = code_of(left@);
                let second = code_of(right@);
                lemma_emit_either(*old(out), s1, s2, s3, *out, mid, first, second, accept, reject);
            }
        },
        FilterAst::Not(inner) => {
            compile_node(inner, out, reject, accept);
            proof {
                lemma_emit_flip(*old(out), *out, code_of(inner@), accept, reject);
            }
        },
        FilterAst::Proto(proto) => compile_proto(*proto, out, accept, reject),
        FilterAst::Host { addr, dir } => compile_host(*addr, *dir, out, accept, reject),
        FilterAst::Port { port, dir } => compile_port(*port, *dir, out, accept, reject),
        FilterAst::PortRange { start, end, dir } => {
            compile_port_range(*start, *end, *dir, out, accept, reject);
        },
        FilterAst::EtherHost { addr, dir } => compile_ether_host(*addr, *dir, out, accept, reject),
        FilterAst::Net { addr, dir } => compile_net(*addr, *dir, out, accept, reject),
        FilterAst::Len { op, len } => compile_len(*op, *len, out, accept, reject),
    }
}

/// The program of a test: its block, and behind it the two instructions that it leads to.
pub open spec fn program_of(code: Code) -> Seq<Instruction> {
    let len = slots(code).len() as int;
    Seq::new(slots(code).len(), |i: int| placed(slots(code)[i], i, 0, len, len + 1)) + seq![
        ret_k(CBPF_ACCEPT),
        ret_k(CBPF_REJECT),
    ]
}

/// Whether there is a label for each place that the jumps of the expression's code need one for,
/// besides the two that the code leads to.
pub open spec fn has_labels(expr: Expr) -> bool {
    label_count(code_of(expr)) + 2 <= usize::MAX
}

/// Whether every jump of the expression's program can be encoded.
pub open spec fn has_near_jumps(expr: Expr) -> bool {
    let all = slots(code_of(expr));
    let len = all.len() as int;
    forall|i: int| 0 <= i < len ==> encodable(#[trigger] all[i], i, 0, len, len + 1)
}

/// Whether the expression has a CBPF program: a jump skips at most 255 instructions.
pub open spec fn compilable(expr: Expr) -> bool {
    has_labels(expr) && has_near_jumps(expr)
}

fn assemble(ast: &FilterAst) -> (out: Assembler)
    requires
        has_labels(ast@),
    ensures
        out.wf(),
        out.resolvable() == has_near_jumps(ast@),
        has_near_jumps(ast@) ==> out.program() == program_of(code_of(ast@)),
{
    let mut out = Assembler::new();
    let accept: LabelId = out.new_label();
    let reject: LabelId = out.new_label();
    let ghost s2 = out;

    compile_node(ast, &mut out, accept, reject);
    let ghost s3 = out;

    place_here(&mut out, accept);
    out.emit(ret_k(CBPF_ACCEPT));
    place_here(&mut out, reject);
    out.emit(ret_k(CBPF_REJECT));
    proof {
        let code = code_of(ast@);
        let all = slots(code);
        let len = all.len() as int;
        assert forall|i: int| 0 <= i < len implies {
            let item = #[trigger] out.items()[i];
            &&& encodable(all[i], i, 0, len, len + 1) == (reaches(out.labels(), i, item.on_true)
                && reaches(out.labels(), i, item.on_false))
            &&& encodable(all[i], i, 0, len, len + 1) ==> resolved(out.labels(), i, item) == placed(
                all[i],
                i,
                0,
                len,
                len + 1,
            )
        } by {
            assert(out.items()[i] == s3.items()[i]);
            assert(item_is(s3, 2, 0, accept, reject, s3.items()[0 + i], all[i]));
        }
        assert(out.items().len() == len + 2);
        if has_near_jumps(ast@) {
            assert(out.resolvable());
            assert(out.program() =~= program_of(code));
        } else {
            let i = choose|i: int|
                0 <= i < all.len() && !encodable(#[trigger] all[i], i, 0, len, len + 1);
            let item = out.items()[i];
            assert(!(reaches(out.labels(), i, item.on_true) && reaches(
                out.labels(),
                i,
                item.on_false,
            )));
        }
    }
    out
}

/// Compile a filter AST into a CBPF program.
pub fn compile(ast: &FilterAst) -> (program: Vec<Instruction>)
    requires
        compilable(ast@),
    ensures
        program@ == program_of(code_of(ast@)),
        forall|packet: Seq<u8>| #[trigger] accepts(program@, packet) == holds(ast@, packet),
{
    let out = assemble(ast);
    proof {
        assert forall|packet: Seq<u8>| #[trigger] accepts(program_of(code_of(ast@)), packet)
            == holds(ast@, packet) by {
            law_compiled_filter_decides(ast@, packet);
        }
    }
    out.resolve()
}

/// The number of labels that the code of the expression needs, if it can be counted.
fn labels_needed(ast: &FilterAst) -> (count: Option<usize>)
    ensures
        match count {
            Some(count) => count == label_count(code_of(ast@)),
            None => label_count(code_of(ast@)) > usize::MAX,
        },
    decreases ast,
{
    reveal_with_fuel(label_count, 9);
    reveal_with_fuel(ipv6_addr_code, 4);
    reveal_with_fuel(ipv6_net_addr_code, 4);
    match ast {
        FilterAst::And(left, right) | FilterAst::Or(left, right) => {
            match (labels_needed(left), labels_needed(right)) {
                (Some(first), Some(second)) => match first.checked_add(second) {
                    Some(sum) => sum.checked_add(1),
                    None => None,
                },
                _ => None,
            }
        },
        FilterAst::Not(inner) => labels_needed(inner),
        FilterAst::Proto(proto) => match proto {
            Protocol::Ip | Protocol::Ip6 | Protocol::Arp | Protocol::Rarp => Some(0),
            Protocol::Tcp | Protocol::Udp => Some(3),
            Protocol::Icmp | Protocol::Icmp6 => Some(1),
        },
        FilterAst::Host { addr, dir } => match (addr, dir) {
            (HostAddr::V4(_), Direction::Any) => Some(2),
            (HostAddr::V4(_), _) => Some(1),
            (HostAddr::V6(_), Direction::Any) => Some(8),
            (HostAddr::V6(_), _) => Some(4),
        },
        FilterAst::Port { port: _, dir } => match dir {
            Direction::Any => Some(9),
            _ => Some(7),
        },
        FilterAst::PortRange { start: _, end: _, dir } => match dir {
            Direction::Any => Some(13),
            _ => Some(9),
        },
        FilterAst::EtherHost { addr: _, dir } => match dir {
            Direction::Any => Some(3),
            _ => Some(1),
        },
        FilterAst::Net { addr, dir } => match (addr, dir) {
            (NetAddr::V4 { .. }, Direction::Any) => Some(2),
            (NetAddr::V4 { .. }, _) => Some(1),
            (NetAddr::V6 { .. }, Direction::Any) => Some(8),
            (NetAddr::V6 { .. }, _) => Some(4),
        },
        FilterAst::Len { .. } => Some(0),
    }
}

/// Whether the expression has a CBPF program.
pub fn is_compilable(ast: &FilterAst) -> (yes: bool)
    ensures
        yes == compilable(ast@),
{
    match labels_needed(ast) {
        Some(count) if count <= usize::MAX - 2 => assemble(ast).is_resolvable(),
        _ => false,
    }
}

} // verus!
