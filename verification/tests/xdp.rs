//! Packet programs.

use ebpf_lab::isa::{decode_program, RawInsn};
use ebpf_lab::vm::memory::PACKET_BASE;
use ebpf_lab::vm::xdp::{
    action_of, annotate_packet_load, parse_eth, parse_ipv4, run_xdp, xdp_data_addrs, XdpAction,
    ETHERTYPE_IPV4,
};
use ebpf_lab::vm::VmError;

fn w(opcode: u8, dst: u8, src: u8, off: i16, imm: i32) -> [u8; 8] {
    RawInsn { opcode, regs: (src << 4) | dst, offset: off, imm }.to_bytes()
}

#[test]
fn action_codes_roundtrip() {
    for (code, action) in [
        (0, XdpAction::Aborted),
        (1, XdpAction::Drop),
        (2, XdpAction::Pass),
        (3, XdpAction::Tx),
        (4, XdpAction::Redirect),
    ] {
        assert_eq!(XdpAction::from_code(code), action);
        assert_eq!(action.code(), code);
    }
    assert_eq!(XdpAction::from_code(99), XdpAction::Unknown(99));
    assert_eq!(XdpAction::Unknown(-7).code(), -7);
}

#[test]
fn action_display() {
    assert_eq!(XdpAction::Pass.to_string(), "XDP_PASS");
    assert_eq!(XdpAction::Drop.to_string(), "XDP_DROP");
    assert_eq!(XdpAction::Unknown(9).to_string(), "XDP_UNKNOWN(9)");
}

#[test]
fn eth_parses_and_rejects_short() {
    let mut frame = vec![0u8; 14];
    frame[12] = 0x08;
    frame[13] = 0x00;
    let eth = parse_eth(&frame).unwrap();
    assert_eq!(eth.ethertype, ETHERTYPE_IPV4);
    assert!(parse_eth(&frame[..13]).is_none());
}

#[test]
fn ipv4_parses_and_rejects_bad_version() {
    let mut ip = vec![0u8; 20];
    ip[0] = 0x45;
    ip[9] = 6;
    let header = parse_ipv4(&ip).unwrap();
    assert_eq!(header.protocol, 6);
    ip[0] = 0x65;
    assert!(parse_ipv4(&ip).is_none());
    assert!(parse_ipv4(&ip[..19]).is_none());
}

#[test]
fn annotate_ethertype_and_proto() {
    let mut pkt = vec![0u8; 34];
    pkt[12] = 0x08;
    pkt[13] = 0x00;
    pkt[14] = 0x45;
    pkt[14 + 9] = 6;
    assert_eq!(annotate_packet_load(&pkt, 12, 2), Some("ethertype=IPv4"));
    assert_eq!(annotate_packet_load(&pkt, 23, 1), Some("ip.proto=TCP"));
    assert_eq!(annotate_packet_load(&pkt, 0, 4), None);
    assert_eq!(annotate_packet_load(&pkt[..10], 12, 2), None);
}

#[test]
fn run_xdp_pass_and_oob() {
    // mov64 r0, 2; exit
    let prog = [w(0xb7, 0, 0, 0, 2), w(0x95, 0, 0, 0, 0)];
    let bytes: Vec<u8> = prog.iter().flatten().copied().collect();
    let insns = decode_program(&bytes).unwrap();
    let pkt = vec![0u8; 64];
    assert_eq!(run_xdp(insns, &pkt, Vec::new(), 10_000).unwrap(), XdpAction::Pass);
    // ldxw r0, [r1+0] is a ctx load (data pointer), not OOB.
    let prog = [w(0x61, 0, 1, 0, 0), w(0x95, 0, 0, 0, 0)];
    let bytes: Vec<u8> = prog.iter().flatten().copied().collect();
    let insns = decode_program(&bytes).unwrap();
    assert!(run_xdp(insns, &pkt, Vec::new(), 10_000).is_ok());
}

#[test]
fn headers_carry_their_fields() {
    let mut frame = vec![0u8; 34];
    frame[0..6].copy_from_slice(&[1, 2, 3, 4, 5, 6]);
    frame[6..12].copy_from_slice(&[7, 8, 9, 10, 11, 12]);
    frame[12..14].copy_from_slice(&[0x08, 0x00]);
    frame[14] = 0x45;
    frame[16..18].copy_from_slice(&[0x01, 0x02]);
    frame[23] = 17;
    frame[26..30].copy_from_slice(&[10, 0, 0, 1]);
    frame[30..34].copy_from_slice(&[10, 0, 0, 2]);
    let eth = parse_eth(&frame).unwrap();
    assert_eq!(eth.dst, [1, 2, 3, 4, 5, 6]);
    assert_eq!(eth.src, [7, 8, 9, 10, 11, 12]);
    let ip = parse_ipv4(&frame[14..]).unwrap();
    assert_eq!(ip.src, [10, 0, 0, 1]);
    assert_eq!(ip.dst, [10, 0, 0, 2]);
    assert_eq!(ip.protocol, 17);
    assert_eq!(ip.total_len, 0x0102);
}

#[test]
fn packet_loads_read_the_packet() {
    // ldxw r2, [r1+0]; ldxb r0, [r2+3]; exit
    let prog = [w(0x61, 2, 1, 0, 0), w(0x71, 0, 2, 3, 0), w(0x95, 0, 0, 0, 0)].concat();
    let insns = decode_program(&prog).unwrap();
    let r = run_xdp(insns, &[9, 9, 9, 4], Vec::new(), 100);
    assert_eq!(r.unwrap(), XdpAction::Redirect);
    assert_eq!(xdp_data_addrs(64), (PACKET_BASE, PACKET_BASE + 64));
    assert_eq!(action_of(&Ok(1)), Some(XdpAction::Drop));
    assert_eq!(action_of(&Err(VmError::StepsExceeded { limit: 1 })), None);
}
