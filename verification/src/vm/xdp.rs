//! XDP: packet headers, action codes and the entry point.
//!
//! [`run_xdp`] installs a packet, points `r1` at its context, runs the
//! program and maps the exit code to an action. The header parsers know
//! Ethernet and IPv4.
use vstd::prelude::*;
use vstd::string::StringExecFns;

use crate::isa::insn::Insn;
use crate::text::{int_text, push_int};
use crate::vm::maps::MapStore;
use crate::vm::memory::{PacketBuffer, PACKET_BASE};
use crate::vm::{
    map_helper, runnable, stores_wf, tables_of, HelperFn, RunOutcome, Vm, VmError, VmModel,
};

verus! {

/// What happens to a packet.
#[derive(Debug, Clone, Copy, PartialEq, Eq, Structural)]
pub enum XdpAction {
    /// Code 0: an error; the packet is dropped.
    Aborted,
    /// Code 1.
    Drop,
    /// Code 2.
    Pass,
    /// Code 3.
    Tx,
    /// Code 4.
    Redirect,
    /// Any other code.
    Unknown(i64),
}

/// Short name of [`XdpAction`].
pub type Action = XdpAction;

impl XdpAction {
    /// The action of an exit code.
    pub open spec fn of_code(code: i64) -> XdpAction {
        if code == 0 {
            XdpAction::Aborted
        } else if code == 1 {
            XdpAction::Drop
        } else if code == 2 {
            XdpAction::Pass
        } else if code == 3 {
            XdpAction::Tx
        } else if code == 4 {
            XdpAction::Redirect
        } else {
            XdpAction::Unknown(code)
        }
    }

    /// The exit code of the action.
    pub open spec fn number(self) -> i64 {
        match self {
            XdpAction::Aborted => 0,
            XdpAction::Drop => 1,
            XdpAction::Pass => 2,
            XdpAction::Tx => 3,
            XdpAction::Redirect => 4,
            XdpAction::Unknown(code) => code,
        }
    }

    /// Text form.
    pub open spec fn display(self) -> Seq<char> {
        match self {
            XdpAction::Aborted => "XDP_ABORTED"@,
            XdpAction::Drop => "XDP_DROP"@,
            XdpAction::Pass => "XDP_PASS"@,
            XdpAction::Tx => "XDP_TX"@,
            XdpAction::Redirect => "XDP_REDIRECT"@,
            XdpAction::Unknown(code) => "XDP_UNKNOWN("@ + int_text(code as int) + ")"@,
        }
    }

    /// Maps an exit code to its action.
    pub fn from_code(code: i64) -> (r: Self)
        ensures
            r == XdpAction::of_code(code),
    {
        match code {
            0 => XdpAction::Aborted,
            1 => XdpAction::Drop,
            2 => XdpAction::Pass,
            3 => XdpAction::Tx,
            4 => XdpAction::Redirect,
            other => XdpAction::Unknown(other),
        }
    }

    /// The exit code of the action.
    pub fn code(self) -> (r: i64)
        ensures
            r == self.number(),
    {
        match self {
            XdpAction::Aborted => 0,
            XdpAction::Drop => 1,
            XdpAction::Pass => 2,
            XdpAction::Tx => 3,
            XdpAction::Redirect => 4,
            XdpAction::Unknown(code) => code,
        }
    }

    /// Renders the text form.
    pub fn to_string(&self) -> (s: String)
        ensures
            s@ == self.display(),
    {
        match *self {
            XdpAction::Aborted => String::from_str("XDP_ABORTED"),
            XdpAction::Drop => String::from_str("XDP_DROP"),
            XdpAction::Pass => String::from_str("XDP_PASS"),
            XdpAction::Tx => String::from_str("XDP_TX"),
            XdpAction::Redirect => String::from_str("XDP_REDIRECT"),
            XdpAction::Unknown(code) => {
                let mut s = String::from_str("XDP_UNKNOWN(");
                push_int(&mut s, code);
                s.append(")");
                s
            },
        }
    }
}

/// The code of the action of a code is that code.
pub proof fn action_code_roundtrip(code: i64)
    ensures
        XdpAction::of_code(code).number() == code,
{
}

/// An Ethernet header.
#[derive(Debug, Clone, Copy, PartialEq, Eq)]
pub struct EthHeader {
    /// Destination address.
    pub dst: [u8; 6],
    /// Source address.
    pub src: [u8; 6],
    /// Type of the payload.
    pub ethertype: u16,
}

/// The type of an IPv4 payload.
pub const ETHERTYPE_IPV4: u16 = 0x0800;

/// A big-endian 16-bit number.
pub open spec fn be16(hi: u8, lo: u8) -> u16 {
    (hi * 256 + lo) as u16
}

/// Reads a big-endian 16-bit number.
fn read_be16(hi: u8, lo: u8) -> (r: u16)
    ensures
        r == be16(hi, lo),
{
    hi as u16 * 256 + lo as u16
}

/// The type field of an Ethernet frame that is long enough.
pub open spec fn frame_type(bytes: Seq<u8>) -> Option<u16> {
    if bytes.len() < 14 {
        None
    } else {
        Some(be16(bytes[12], bytes[13]))
    }
}

/// Parses the 14-byte Ethernet header at the start of a frame.
pub fn parse_eth(bytes: &[u8]) -> (r: Option<EthHeader>)
    ensures
        r is Some <==> bytes@.len() >= 14,
        r matches Some(eth) ==> {
            &&& eth.dst@ == bytes@.subrange(0, 6)
            &&& eth.src@ == bytes@.subrange(6, 12)
            &&& frame_type(bytes@) == Some(eth.ethertype)
        },
{
    if bytes.len() < 14 {
        return None;
    }
    let eth = EthHeader {
        dst: [bytes[0], bytes[1], bytes[2], bytes[3], bytes[4], bytes[5]],
        src: [bytes[6], bytes[7], bytes[8], bytes[9], bytes[10], bytes[11]],
        ethertype: read_be16(bytes[12], bytes[13]),
    };
    assert(eth.dst@ =~= bytes@.subrange(0, 6));
    assert(eth.src@ =~= bytes@.subrange(6, 12));
    Some(eth)
}

/// Fields of an IPv4 header.
#[derive(Debug, Clone, Copy, PartialEq, Eq)]
pub struct Ipv4Header {
    /// Source address.
    pub src: [u8; 4],
    /// Destination address.
    pub dst: [u8; 4],
    /// Protocol of the payload.
    pub protocol: u8,
    /// Length of the packet.
    pub total_len: u16,
}

/// Whether bytes start with an IPv4 header: 20 bytes, version 4, and a header
/// length of at least five words.
pub open spec fn is_ipv4(bytes: Seq<u8>) -> bool {
    bytes.len() >= 20 && bytes[0] / 16 == 4 && bytes[0] % 16 >= 5
}

/// Parses the IPv4 header at the start of a packet. Options are not parsed.
pub fn parse_ipv4(bytes: &[u8]) -> (r: Option<Ipv4Header>)
    ensures
        r is Some <==> is_ipv4(bytes@),
        r matches Some(ip) ==> {
            &&& ip.src@ == bytes@.subrange(12, 16)
            &&& ip.dst@ == bytes@.subrange(16, 20)
            &&& ip.protocol == bytes@[9]
            &&& ip.total_len == be16(bytes@[2], bytes@[3])
        },
{
    if bytes.len() < 20 || bytes[0] / 16 != 4 || bytes[0] % 16 < 5 {
        return None;
    }
    let ip = Ipv4Header {
        src: [bytes[12], bytes[13], bytes[14], bytes[15]],
        dst: [bytes[16], bytes[17], bytes[18], bytes[19]],
        protocol: bytes[9],
        total_len: read_be16(bytes[2], bytes[3]),
    };
    assert(ip.src@ =~= bytes@.subrange(12, 16));
    assert(ip.dst@ =~= bytes@.subrange(16, 20));
    Some(ip)
}

/// What a load of a packet field tells: the payload type at offset 12, or the
/// protocol at offset 23 of an IPv4 frame.
pub open spec fn packet_note(packet: Seq<u8>, offset: i64, width: u8) -> Option<Seq<char>> {
    if width == 2 && offset == 12 {
        match frame_type(packet) {
            None => None,
            Some(t) => if t == ETHERTYPE_IPV4 {
                Some("ethertype=IPv4"@)
            } else {
                Some("ethertype=non-IPv4"@)
            },
        }
    } else if width == 1 && offset == 23 && packet.len() >= 14 && is_ipv4(packet.skip(14)) {
        if packet[23] == 6 {
            Some("ip.proto=TCP"@)
        } else if packet[23] == 17 {
            Some("ip.proto=UDP"@)
        } else {
            Some("ip.proto=other"@)
        }
    } else {
        None
    }
}

/// Annotates a packet load, where its offset and width are those of a known
/// field.
pub fn annotate_packet_load(packet: &[u8], offset: i64, width: u8) -> (r: Option<&'static str>)
    ensures
        match r {
            Some(s) => packet_note(packet@, offset, width) == Some(s@),
            None => packet_note(packet@, offset, width) is None,
        },
{
    if width == 2 && offset == 12 {
        return match parse_eth(packet) {
            None => None,
            Some(eth) => if eth.ethertype == ETHERTYPE_IPV4 {
                Some("ethertype=IPv4")
            } else {
                Some("ethertype=non-IPv4")
            },
        };
    }
    if width == 1 && offset == 23 && packet.len() >= 14 {
        let rest = vstd::slice::slice_subrange(packet, 14, packet.len());
        assert(rest@ =~= packet@.skip(14));
        return match parse_ipv4(rest) {
            None => None,
            Some(ip) => if ip.protocol == 6 {
                Some("ip.proto=TCP")
            } else if ip.protocol == 17 {
                Some("ip.proto=UDP")
            } else {
                Some("ip.proto=other")
            },
        };
    }
    None
}

/// What is appended to the trace line of an instruction: the note on a load
/// from the packet.
pub open spec fn load_note(vm: VmModel, packet: Seq<u8>) -> Seq<char> {
    if vm.pc >= vm.insns.len() {
        Seq::empty()
    } else {
        match vm.insns[vm.pc as int] {
            Insn::Load { base, offset, size, .. } => {
                let at = vm.regs[base.0 as int];
                let end = if PACKET_BASE + packet.len() <= i64::MAX {
                    PACKET_BASE + packet.len()
                } else {
                    i64::MAX as int
                };
                if at < PACKET_BASE || at > end {
                    Seq::empty()
                } else {
                    let field = at.wrapping_add(offset as i64).wrapping_sub(PACKET_BASE);
                    match packet_note(packet, field, size.len() as u8) {
                        Some(note) => " ; "@ + note,
                        None => Seq::empty(),
                    }
                }
            },
            _ => Seq::empty(),
        }
    }
}

/// The note on the load that a machine is about to make.
pub fn packet_annotation(vm: &Vm, packet: &[u8]) -> (r: String)
    requires
        vm.wf(),
        runnable(vm@.insns),
        vm@.regs.len() == 11,
    ensures
        r@ == load_note(vm@, packet@),
{
    let pc: usize = vm.pc();
    let insns = vm.insns();
    if pc >= insns.len() {
        return String::new();
    }
    assert(vm@.insns[pc as int].valid());
    match insns[pc] {
        Insn::Load { base, offset, size, .. } => {
            let at: i64 = vm.regs().get(base);
            let len: u64 = packet.len() as u64;
            let end: i64 = if len <= (i64::MAX - PACKET_BASE) as u64 {
                PACKET_BASE + len as i64
            } else {
                i64::MAX
            };
            if at < PACKET_BASE || at > end {
                return String::new();
            }
            let field: i64 = at.wrapping_add(offset as i64).wrapping_sub(PACKET_BASE);
            match annotate_packet_load(packet, field, size.bytes()) {
                Some(note) => {
                    let mut s = String::from_str(" ; ");
                    s.append(note);
                    s
                },
                None => String::new(),
            }
        },
        _ => String::new(),
    }
}

/// A machine with a packet, and with maps where there are any.
pub open spec fn xdp_machine(insns: Seq<Insn>, packet: Seq<u8>, maps: Seq<Option<MapStore>>) -> VmModel {
    let helpers = if forall|i: int| 0 <= i < maps.len() ==> (#[trigger] maps[i]) is None {
        |func: u32| None::<HelperFn>
    } else {
        |func: u32| map_helper(func)
    };
    let tables = if forall|i: int| 0 <= i < maps.len() ==> (#[trigger] maps[i]) is None {
        Seq::empty()
    } else {
        tables_of(maps)
    };
    VmModel::initial(insns, helpers, tables).with_xdp_packet(packet)
}

/// Makes a machine with a packet, and with maps where there are any.
pub fn load_xdp(insns: Vec<Insn>, packet: &[u8], stores: Vec<Option<MapStore>>) -> (vm: Vm)
    requires
        runnable(insns@),
        stores_wf(stores@),
    ensures
        vm.wf(),
        vm@ == xdp_machine(insns@, packet@, stores@),
{
    let mut bare = true;
    let mut i: usize = 0;
    while i < stores.len()
        invariant
            i <= stores@.len(),
            bare == (forall|k: int| 0 <= k < i ==> (#[trigger] stores@[k]) is None),
        decreases stores@.len() - i,
    {
        if stores[i].is_some() {
            bare = false;
            assert(stores@[i as int] is Some);
        }
        i = i + 1;
    }
    let mut vm = if bare {
        Vm::new(insns)
    } else {
        Vm::new_with_stores(insns, stores)
    };
    vm.install_xdp_packet(PacketBuffer::from(packet));
    vm
}

/// Runs a program on a packet, and maps its exit code to an action.
pub fn run_xdp(
    insns: Vec<Insn>,
    packet: &[u8],
    stores: Vec<Option<MapStore>>,
    max_steps: usize,
) -> (r: Result<XdpAction, VmError>)
    requires
        runnable(insns@),
        stores_wf(stores@),
    ensures
        r == (match xdp_machine(insns@, packet@, stores@).run(max_steps as nat, max_steps).1 {
            Ok(code) => Ok(XdpAction::of_code(code)),
            Err(e) => Err(e),
        }),
{
    let mut vm = load_xdp(insns, packet, stores);
    match vm.run(max_steps) {
        Ok(code) => Ok(XdpAction::from_code(code)),
        Err(e) => Err(e),
    }
}

/// The addresses of the first byte of a packet and of the byte behind it.
pub fn xdp_data_addrs(packet_len: usize) -> (r: (i64, i64))
    ensures
        r.0 == PACKET_BASE,
        r.1 == (if PACKET_BASE + packet_len <= i64::MAX {
            PACKET_BASE + packet_len
        } else {
            i64::MAX as int
        }),
{
    let len: u64 = packet_len as u64;
    if len <= (i64::MAX - PACKET_BASE) as u64 {
        (PACKET_BASE, PACKET_BASE + len as i64)
    } else {
        (PACKET_BASE, i64::MAX)
    }
}

/// The action of a run that exited.
pub fn action_of(outcome: &RunOutcome) -> (r: Option<XdpAction>)
    ensures
        r == (match *outcome {
            Ok(code) => Some(XdpAction::of_code(code)),
            Err(_) => None,
        }),
{
    match outcome {
        Ok(code) => Some(XdpAction::from_code(*code)),
        Err(_) => None,
    }
}

} // verus!
