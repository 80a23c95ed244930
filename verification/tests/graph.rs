//! Control-flow graphs and disassembly.

use ebpf_lab::cfg::{
    build_cfg, find_leaders, has_back_edge, to_dot, BasicBlock, CfgError, EdgeKind, Pc, Slot,
};
use ebpf_lab::disasm::{disassemble, disassemble_from};
use ebpf_lab::isa::{decode_program, Insn};
use petgraph::graph::NodeIndex;

fn decode(bytes: &[u8]) -> Vec<Insn> {
    decode_program(bytes).expect("fixture decodes")
}

fn decode_one(bytes: [u8; 8]) -> Insn {
    decode_program(&bytes).unwrap().remove(0)
}

#[test]
fn single_block() {
    let bytes = [
        0xb7u8, 0x00, 0, 0, 1, 0, 0, 0, //
        0x95, 0, 0, 0, 0, 0, 0, 0, //
    ];
    let cfg = build_cfg(&decode(&bytes)).unwrap();
    assert_eq!(cfg.graph.node_count(), 1);
    assert_eq!(cfg.graph.edge_count(), 0);
    assert!(!has_back_edge(&cfg));
}

#[test]
fn conditional_splits_three_blocks() {
    // mov r1,10; mov r0,1; jeq r1,10,+1; mov r0,2; exit
    let bytes = [
        0xb7u8, 0x01, 0, 0, 10, 0, 0, 0, //
        0xb7, 0x00, 0, 0, 1, 0, 0, 0, //
        0x15, 0x01, 1, 0, 10, 0, 0, 0, //
        0xb7, 0x00, 0, 0, 2, 0, 0, 0, //
        0x95, 0, 0, 0, 0, 0, 0, 0, //
    ];
    let insns = decode(&bytes);
    let leaders = find_leaders(&insns).unwrap();
    assert_eq!(leaders, vec![Pc(0), Pc(3), Pc(4)]);

    let cfg = build_cfg(&insns).unwrap();
    assert_eq!(cfg.graph.node_count(), 3);
    assert_eq!(cfg.graph.edge_count(), 3);
    // block 0 (jeq) has one true + one false edge
    let kinds: Vec<EdgeKind> =
        cfg.graph.edges(NodeIndex::new(cfg.entry)).map(|e| *e.weight()).collect();
    assert!(kinds.contains(&EdgeKind::BranchTrue));
    assert!(kinds.contains(&EdgeKind::BranchFalse));
}

#[test]
fn detects_cycle() {
    // mov r0,0; add r0,1; jeq r0,10,+1; ja -3; exit
    let bytes = [
        0xb7u8, 0x00, 0, 0, 0, 0, 0, 0, //
        0x0f, 0x00, 0, 0, 1, 0, 0, 0, //
        0x15, 0x00, 1, 0, 10, 0, 0, 0, //
        0x05, 0x00, 0xfd, 0xff, 0, 0, 0, 0, //
        0x95, 0, 0, 0, 0, 0, 0, 0, //
    ];
    let cfg = build_cfg(&decode(&bytes)).unwrap();
    assert!(has_back_edge(&cfg));
}

#[test]
fn rejects_oob_jump() {
    let bytes = [
        0x05u8, 0x00, 100, 0, 0, 0, 0, 0, // ja +100
        0x95, 0, 0, 0, 0, 0, 0, 0, //
    ];
    let err = build_cfg(&decode(&bytes)).unwrap_err();
    assert!(matches!(err, CfgError::JumpOutOfBounds { .. }));
}

#[test]
fn wide_load_slot_accounting() {
    let lo = (0x1122_3344u32 as i32).to_le_bytes();
    let hi = (0x5566_7788u32 as i32).to_le_bytes();
    let mut raw = vec![
        0x18u8, 0x02, 0, 0, lo[0], lo[1], lo[2], lo[3], //
        0x00, 0x00, 0, 0, hi[0], hi[1], hi[2], hi[3], //
    ];
    raw.extend_from_slice(&[0xb7, 0x00, 0, 0, 1, 0, 0, 0]); // slot 2: mov r0,1
    raw.extend_from_slice(&[0x05, 0x00, 1, 0, 0, 0, 0, 0]); // slot 3: ja +1 -> slot 5
    raw.extend_from_slice(&[0xb7, 0x00, 0, 0, 2, 0, 0, 0]); // slot 4: mov r0,2
    raw.extend_from_slice(&[0x95, 0, 0, 0, 0, 0, 0, 0]); // slot 5: exit

    let insns = decode(&raw);
    assert_eq!(insns.len(), 5);
    let cfg = build_cfg(&insns).unwrap();
    // blocks: [ld,mov,ja] [mov] [exit]
    assert_eq!(cfg.graph.node_count(), 3);
    assert_eq!(cfg.slot_at(Pc(4)), Slot(5));
}

#[test]
fn rejects_empty() {
    assert_eq!(build_cfg(&[]).unwrap_err(), CfgError::EmptyProgram);
}

#[test]
fn formats_mov_and_exit() {
    let mov = decode_one([0xb7, 0x00, 0, 0, 1, 0, 0, 0]);
    let exit = decode_one([0x95, 0, 0, 0, 0, 0, 0, 0]);
    assert_eq!(mov.to_string(), "mov r0, 1");
    assert_eq!(exit.to_string(), "exit");
}

#[test]
fn formats_alu32_suffix() {
    // add32 r1, 20  (0x04 = ALU class, op Add, imm source)
    let add = decode_one([0x04, 0x01, 0, 0, 20, 0, 0, 0]);
    assert_eq!(add.to_string(), "add32 r1, 20");
}

#[test]
fn disassemble_numbers_pcs() {
    let bytes = [
        0xb7u8, 0x00, 0, 0, 1, 0, 0, 0, // mov64 r0, 1
        0x95, 0, 0, 0, 0, 0, 0, 0, // exit
    ];
    let insns = decode_program(&bytes).unwrap();
    let text = disassemble(&insns);
    // The run of spaces after each digit is the 4-column gutter.
    assert!(text.contains("0   mov r0, 1"));
    assert!(text.contains("1   exit"));
    assert_eq!(text, "0   mov r0, 1\n1   exit\n");
}

#[test]
fn gutter_counts_wide_loads_twice() {
    let bytes = [
        0x18u8, 0x00, 0, 0, 1, 0, 0, 0, //
        0x00, 0, 0, 0, 2, 0, 0, 0, //
        0xb7, 0x00, 0, 0, 3, 0, 0, 0, //
    ];
    let insns = decode_program(&bytes).unwrap();
    let text = disassemble_from(&insns, 4);
    assert!(text.starts_with("4   "));
    assert!(text.contains("\n6   mov r0, 3\n"));
    assert_eq!(disassemble_from(&[], 4), "");
}

#[test]
fn blocks_and_order_of_a_loop() {
    // r0=0; r1=0; add r0,1; add r1,1; jlt r1,10,-3; exit
    let bytes = [
        0xb7u8, 0x00, 0, 0, 0, 0, 0, 0, //
        0xb7, 0x01, 0, 0, 0, 0, 0, 0, //
        0x07, 0x00, 0, 0, 1, 0, 0, 0, //
        0x07, 0x01, 0, 0, 1, 0, 0, 0, //
        0xa5, 0x01, 0xfd, 0xff, 10, 0, 0, 0, //
        0x95, 0, 0, 0, 0, 0, 0, 0, //
    ];
    let insns = decode(&bytes);
    let cfg = build_cfg(&insns).unwrap();
    assert_eq!(cfg.rpo(), &[0, 1, 2]);
    assert_eq!(cfg.block_at(Pc(3)), 1);
    let block: BasicBlock = cfg.graph[NodeIndex::new(1)];
    assert_eq!(block, BasicBlock { start: Pc(2), end: Pc(5) });
    assert_eq!(block.len(), 3);
    assert!(!block.is_empty());
    assert!(has_back_edge(&cfg));
    let dot = to_dot(&cfg, &insns);
    assert!(dot.starts_with("digraph cfg"));
    assert_eq!(dot.matches(" -> ").count(), cfg.graph.edge_count());
}

#[test]
fn jump_into_a_wide_load_is_refused() {
    // ja +1 lands on the second slot of the wide load.
    let bytes = [
        0x05u8, 0x00, 1, 0, 0, 0, 0, 0, //
        0x18, 0x01, 0, 0, 1, 0, 0, 0, //
        0x00, 0, 0, 0, 0, 0, 0, 0, //
        0x95, 0, 0, 0, 0, 0, 0, 0, //
    ];
    let err = build_cfg(&decode(&bytes)).unwrap_err();
    assert_eq!(err, CfgError::JumpIntoWide { pc: 0, target: 2 });
}

#[test]
fn graph_error_texts() {
    assert_eq!(
        CfgError::EmptyProgram.to_string(),
        "empty program: no instructions to build a CFG from"
    );
    assert_eq!(
        CfgError::JumpOutOfBounds { pc: 3, target: -4 }.to_string(),
        "jump at slot 3 targets out-of-bounds slot -4"
    );
    assert_eq!(Pc(7).to_string(), "Pc(7)");
    assert_eq!(Slot(9).to_string(), "Slot(9)");
    assert_eq!(Slot(9).as_usize(), 9);
}
