//! Optimization passes.

use ebpf_lab::cfg::build_cfg;
use ebpf_lab::isa::{decode_program, AluOp, Endian, Insn, Operand, RawInsn, Reg, Width};
use ebpf_lab::ssa::construct::build_ssa;
use ebpf_lab::ssa::dead::{dead_code_eliminate, unreachable_block_eliminate, uses_of};
use ebpf_lab::ssa::opt::{constant_fold, copy_propagate, optimize, rewrite_uses};
use ebpf_lab::ssa::{const_value, SsaInsn, SsaOperand, SsaProgram, SsaValue};

fn w(opcode: u8, dst: u8, src: u8, off: i16, imm: i32) -> [u8; 8] {
    RawInsn { opcode, regs: (src << 4) | dst, offset: off, imm }.to_bytes()
}

fn build(words: &[[u8; 8]]) -> SsaProgram {
    let bytes: Vec<u8> = words.iter().flatten().copied().collect();
    let insns = decode_program(&bytes).unwrap();
    let cfg = build_cfg(&insns).unwrap();
    build_ssa(&insns, &cfg).unwrap()
}

fn phis(prog: &SsaProgram) -> usize {
    prog.insns.iter().filter(|i| matches!(i, SsaInsn::Phi { .. })).count()
}

fn has_const(prog: &SsaProgram, v: i64) -> bool {
    prog.insns.iter().any(|i| matches!(i, SsaInsn::Const { value, .. } if *value == v))
}

#[test]
fn fold_arith() {
    // r1=10, r2=20 fold alone (both immediates); the add needs a
    // copy-prop round first (its lhs is a `Copy` result), then folds
    // to Const(30) — pinning pass interaction, not just folding.
    let mut prog = build(&[
        w(0xb7, 1, 0, 0, 10),
        w(0xb7, 2, 0, 0, 20),
        w(0xbf, 3, 1, 0, 0),
        w(0x0f, 3, 2, 0, 0),
        w(0xbf, 0, 3, 0, 0),
        w(0x95, 0, 0, 0, 0),
    ]);
    assert!(constant_fold(&mut prog));
    assert!(has_const(&prog, 10));
    assert!(has_const(&prog, 20));
    assert!(copy_propagate(&mut prog));
    assert!(constant_fold(&mut prog));
    assert!(has_const(&prog, 30));
}

#[test]
fn fold_div_by_zero_is_zero() {
    // Kernel semantics: division by zero yields zero, no trap.
    let mut prog = build(&[w(0xb7, 0, 0, 0, 7), w(0x37, 0, 0, 0, 0), w(0x95, 0, 0, 0, 0)]);
    optimize(&mut prog);
    let exit_r0 = prog.insns.iter().find_map(|i| match i {
        SsaInsn::Exit { r0 } => Some(*r0),
        _ => None,
    });
    let r0 = exit_r0.unwrap();
    assert!(matches!(prog.def_of(r0), Some(SsaInsn::Const { value: 0, .. })));
}

#[test]
fn fold_mov32_zero_extends() {
    // `mov32 r0, -1` folds to `0xFFFF_FFFF`, not `-1`: the width
    // applies even though `mov` ignores its lhs.
    let mut prog = build(&[w(0xb4, 0, 0, 0, -1), w(0x95, 0, 0, 0, 0)]);
    optimize(&mut prog);
    let exit_r0 = prog.insns.iter().find_map(|i| match i {
        SsaInsn::Exit { r0 } => Some(*r0),
        _ => None,
    });
    assert!(matches!(
        prog.def_of(exit_r0.unwrap()),
        Some(SsaInsn::Const { value: 0xFFFF_FFFF, .. })
    ));
}

#[test]
fn fold_end_guards_width() {
    // Valid width folds and survives (used at exit); bogus width
    // (99) is left alone — evaluating it would hit apply's
    // unreachable arm, while the loader traps.
    let mut prog = build(&[
        w(0xb7, 1, 0, 0, 0x1234),
        w(0xd4, 1, 0, 0, 32),
        w(0xbf, 0, 1, 0, 0),
        w(0x95, 0, 0, 0, 0),
    ]);
    optimize(&mut prog);
    let exit_r0 = prog.insns.iter().find_map(|i| match i {
        SsaInsn::Exit { r0 } => Some(*r0),
        _ => None,
    });
    assert!(matches!(
        prog.def_of(exit_r0.unwrap()),
        Some(SsaInsn::Const { value: 0x1234, .. })
    ));

    let mut prog = build(&[
        w(0xb7, 2, 0, 0, 5),
        w(0xdc, 2, 0, 0, 99),
        w(0xbf, 0, 2, 0, 0),
        w(0x95, 0, 0, 0, 0),
    ]);
    optimize(&mut prog);
    assert!(prog.insns.iter().any(|i| matches!(i, SsaInsn::BinOp { op: AluOp::End(_), .. })));
}

#[test]
fn fold_wide_const() {
    // Constants resolve through LoadImm64 defs too.
    let mut hi = [0u8; 8];
    hi.copy_from_slice(&[0x18u8, 0x01, 0, 0, 0x78, 0x56, 0x34, 0x12]);
    let mut lo = [0u8; 8];
    lo.copy_from_slice(&[0x00u8, 0, 0, 0, 0x11, 0x22, 0x33, 0x44]);
    let mut prog = build(&[hi, lo, w(0xbf, 0, 1, 0, 0), w(0x95, 0, 0, 0, 0)]);
    optimize(&mut prog);
    // mov r0, r1 collapses onto the wide const; the exit reads it.
    let exit_r0 = prog.insns.iter().find_map(|i| match i {
        SsaInsn::Exit { r0 } => Some(*r0),
        _ => None,
    });
    assert!(matches!(
        prog.def_of(exit_r0.unwrap()),
        Some(SsaInsn::LoadImm64 { .. } | SsaInsn::Const { .. })
    ));
}

#[test]
fn copy_chain_collapses() {
    // r1=7 → r2 → r3 → r0: every use ends at the constant.
    let mut prog = build(&[
        w(0xb7, 1, 0, 0, 7),
        w(0xbf, 2, 1, 0, 0),
        w(0xbf, 3, 2, 0, 0),
        w(0xbf, 0, 3, 0, 0),
        w(0x95, 0, 0, 0, 0),
    ]);
    optimize(&mut prog);
    assert_eq!(prog.len(), 2);
    let exit_r0 = prog.insns.iter().find_map(|i| match i {
        SsaInsn::Exit { r0 } => Some(*r0),
        _ => None,
    });
    assert!(matches!(prog.def_of(exit_r0.unwrap()), Some(SsaInsn::Const { value: 7, .. })));
}

#[test]
fn copy_singleton_phi() {
    // r1 rides the diamond untouched: the merge phi has one distinct
    // operand (same version both sides) and collapses. The r0 merge
    // (1 vs 2) survives.
    let mut prog = build(&[
        w(0xb7, 1, 0, 0, 7),
        w(0x15, 1, 0, 2, 5),
        w(0xb7, 0, 0, 0, 1),
        w(0x05, 0, 0, 1, 0),
        w(0xb7, 0, 0, 0, 2),
        w(0xbf, 2, 1, 0, 0),
        w(0xbf, 0, 2, 0, 0),
        w(0x95, 0, 0, 0, 0),
    ]);
    assert!(phis(&prog) > 0);
    optimize(&mut prog);
    assert_eq!(phis(&prog), 0);
}

#[test]
fn copy_never_creates_imm_lhs() {
    // jeq r5, 8 with r5 constant: the branch lhs must stay a value
    // (lowering cannot emit immediate conditions).
    let mut prog = build(&[
        w(0xb7, 5, 0, 0, 8),
        w(0x15, 5, 0, 2, 8),
        w(0xb7, 0, 0, 0, 1),
        w(0x95, 0, 0, 0, 0),
        w(0xb7, 0, 0, 0, 2),
        w(0x95, 0, 0, 0, 0),
    ]);
    optimize(&mut prog);
    for insn in &prog.insns {
        if let SsaInsn::Br { lhs, .. } = insn {
            assert!(matches!(lhs, SsaOperand::Value(_)));
        }
    }
}

#[test]
fn dce_keeps_effects() {
    // Dead ALU goes; the stack roundtrip (fault-capable) stays.
    let mut prog = build(&[
        w(0xb7, 1, 0, 0, 42),
        w(0xb7, 2, 0, 0, 99),
        w(0x0f, 2, 1, 0, 0),
        w(0x7b, 10, 1, -8, 0),
        w(0x79, 0, 10, -8, 0),
        w(0x95, 0, 0, 0, 0),
    ]);
    let before = prog.len();
    optimize(&mut prog);
    assert!(prog.len() < before);
    assert!(prog.insns.iter().any(|i| matches!(i, SsaInsn::Store { .. })));
    assert!(prog.insns.iter().any(|i| matches!(i, SsaInsn::Load { .. })));
}

#[test]
fn dce_keeps_faulting_end() {
    // A bad-width
    // `End` faults at load time, so DCE must root it even when its
    // result is unused — removing it turned `InvalidEndWidth` into
    // fall-off-end (`JumpOutOfBounds`).
    let mut prog = build(&[w(0xd7, 0, 0, 0, 0), w(0xb7, 0, 0, 0, 1), w(0x95, 0, 0, 0, 0)]);
    optimize(&mut prog);
    assert!(prog.insns.iter().any(|i| matches!(i, SsaInsn::BinOp { op: AluOp::End(_), .. })));
}

#[test]
fn dce_keeps_calls() {
    // `call 5` (ktime) is effectful: kept even though r0 is dropped.
    let mut prog = build(&[w(0x85, 0, 0, 0, 5), w(0xb7, 0, 0, 0, 0), w(0x95, 0, 0, 0, 0)]);
    optimize(&mut prog);
    assert!(prog.insns.iter().any(|i| matches!(i, SsaInsn::Call { func: 5, .. })));
}

#[test]
fn unreachable_marks_never_taken() {
    // 0x8D (call-nibble, reg shape) with an exclusive taken block:
    // the taken edge is never followed at runtime, so unreachable
    // elimination marks that block dead.
    let mut prog = build(&[
        w(0x8d, 1, 2, 2, 0),
        w(0xb7, 0, 0, 0, 1),
        w(0x95, 0, 0, 0, 0),
        w(0xb7, 0, 0, 0, 2),
        w(0x95, 0, 0, 0, 0),
    ]);
    let live_before = prog.graph.node_indices().filter(|&n| prog.graph[n].live).count();
    assert!(unreachable_block_eliminate(&mut prog));
    let live_after = prog.graph.node_indices().filter(|&n| prog.graph[n].live).count();
    assert_eq!(live_before, 3);
    assert_eq!(live_after, 2);
}

#[test]
fn optimize_redundant_shape() {
    // 9 SSA insns (3 prelude + 6) collapse to
    // exit + Const(30).
    let mut prog = build(&[
        w(0xb7, 1, 0, 0, 10),
        w(0xb7, 2, 0, 0, 20),
        w(0xbf, 3, 1, 0, 0),
        w(0x0f, 3, 2, 0, 0),
        w(0xbf, 0, 3, 0, 0),
        w(0x95, 0, 0, 0, 0),
    ]);
    optimize(&mut prog);
    assert_eq!(prog.len(), 2);
}

#[test]
fn optimizing_again_changes_nothing() {
    let mut prog = build(&[
        w(0xb7, 1, 0, 0, 10),
        w(0x15, 2, 0, 1, 10),
        w(0xb7, 1, 0, 0, 20),
        w(0xbf, 0, 1, 0, 0),
        w(0x95, 0, 0, 0, 0),
    ]);
    optimize(&mut prog);
    let insns = prog.insns.clone();
    optimize(&mut prog);
    assert_eq!(prog.insns, insns);
    assert!(!constant_fold(&mut prog));
    assert!(!copy_propagate(&mut prog));
    assert!(!dead_code_eliminate(&mut prog));
    assert!(!unreachable_block_eliminate(&mut prog));
}

#[test]
fn uses_are_rewritten() {
    let mut store = SsaInsn::Store {
        size: ebpf_lab::isa::MemSize::W,
        base: SsaValue(1),
        offset: 0,
        src: SsaOperand::Value(SsaValue(1)),
    };
    assert_eq!(uses_of(&store), vec![SsaValue(1), SsaValue(1)]);
    assert!(rewrite_uses(&mut store, SsaValue(1), SsaValue(2)));
    assert_eq!(uses_of(&store), vec![SsaValue(2), SsaValue(2)]);
    assert!(!rewrite_uses(&mut store, SsaValue(1), SsaValue(2)));
}

#[test]
fn constants_resolve() {
    let prog = build(&[w(0xb7, 0, 0, 0, 1), w(0x95, 0, 0, 0, 0)]);
    assert_eq!(const_value(&prog, SsaOperand::Imm(-3)), Some(-3));
    assert_eq!(const_value(&prog, SsaOperand::Value(SsaValue(9999))), None);
}

/// Optimizes an SSA program and checks what holds of the result.
fn assert_settles(mut prog: SsaProgram) {
    let left_ok = |insn: &SsaInsn| match insn {
        SsaInsn::BinOp { lhs, .. } | SsaInsn::Br { lhs, .. } => matches!(lhs, SsaOperand::Value(_)),
        _ => true,
    };
    assert!(prog.insns.iter().all(left_ok));
    let effects = |prog: &SsaProgram| {
        prog.insns
            .iter()
            .filter(|i| {
                matches!(
                    i,
                    SsaInsn::Load { .. }
                        | SsaInsn::Store { .. }
                        | SsaInsn::Call { .. }
                        | SsaInsn::Br { .. }
                        | SsaInsn::Ja { .. }
                        | SsaInsn::Exit { .. }
                )
            })
            .count()
    };
    let before = effects(&prog);
    optimize(&mut prog);
    assert_eq!(effects(&prog), before);
    assert!(prog.insns.iter().all(left_ok));
    for insn in &prog.insns {
        for v in uses_of(insn) {
            assert!(prog.def_of(v).is_some(), "{v:?} in {insn:?}");
        }
    }
    let once = prog.insns.clone();
    optimize(&mut prog);
    assert_eq!(prog.insns, once);
}

#[test]
fn optimized_programs_settle() {
    assert_settles(build(&[
        w(0x79, 2, 10, -8, 0),
        w(0xb7, 1, 0, 0, 3),
        w(0xbf, 3, 1, 0, 0),
        w(0x15, 2, 0, 1, 0),
        w(0x0f, 2, 3, 0, 0),
        w(0x7b, 10, 2, -16, 0),
        w(0xbf, 0, 2, 0, 0),
        w(0x95, 0, 0, 0, 0),
    ]));
}

#[test]
fn computed_swap_widths_settle() {
    let swap = Insn::Alu {
        width: Width::B64,
        op: AluOp::End(Endian::Be),
        dst: Reg(2),
        src: Operand::Reg(Reg(1)),
    };
    let imm = |dst: u8, k: i32| Insn::Alu {
        width: Width::B64,
        op: AluOp::Mov,
        dst: Reg(dst),
        src: Operand::Imm(k),
    };
    let copy = Insn::Alu {
        width: Width::B64,
        op: AluOp::Mov,
        dst: Reg(0),
        src: Operand::Reg(Reg(2)),
    };
    let insns = vec![imm(1, 16), imm(2, 0x1234), swap, copy, Insn::Exit];
    let cfg = build_cfg(&insns).unwrap();
    assert_settles(build_ssa(&insns, &cfg).unwrap());
}
