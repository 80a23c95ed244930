//! SSA construction, register allocation and lowering.

use ebpf_lab::cfg::build_cfg;
use ebpf_lab::isa::{
    decode_program, encode_program, AluOp, Insn, JumpOp, MemSize, Operand, RawInsn, Reg, Width,
};
use ebpf_lab::ssa::construct::build_ssa;
use ebpf_lab::ssa::homes::allocate;
use ebpf_lab::ssa::lower::{invert, lower};
use ebpf_lab::ssa::moves::{order_moves, MoveSrc, PlacedMove};
use ebpf_lab::ssa::opt::optimize;
use ebpf_lab::ssa::ranges::{cyclic_blocks, live_ranges};
use ebpf_lab::ssa::{SsaError, SsaInsn, SsaOperand, SsaProgram, SsaValue, START_PRED};
use ebpf_lab::vm::{RunOutcome, Vm};
use petgraph::graph::NodeIndex;

fn w(opcode: u8, dst: u8, src: u8, off: i16, imm: i32) -> [u8; 8] {
    RawInsn { opcode, regs: (src << 4) | dst, offset: off, imm }.to_bytes()
}

fn decode(bytes: &[u8]) -> Vec<Insn> {
    decode_program(bytes).expect("test bytes decode")
}

fn build(bytes: &[u8]) -> SsaProgram {
    let insns = decode(bytes);
    let cfg = build_cfg(&insns).expect("test cfg builds");
    build_ssa(&insns, &cfg).expect("test ssa builds")
}

/// Every version referenced anywhere resolves to its definition.
fn assert_defs_total(prog: &SsaProgram) {
    let mut used = Vec::new();
    for insn in &prog.insns {
        match insn {
            SsaInsn::Const { .. }
            | SsaInsn::FramePtr { .. }
            | SsaInsn::EntryCtx { .. }
            | SsaInsn::Ja { .. }
            | SsaInsn::LoadImm64 { .. } => {}
            SsaInsn::Copy { src: v, .. } => used.push(*v),
            SsaInsn::BinOp { lhs, rhs, .. } | SsaInsn::Br { lhs, rhs, .. } => {
                used.extend(operand_value(*lhs));
                used.extend(operand_value(*rhs));
            }
            SsaInsn::Load { base, .. } => used.push(*base),
            SsaInsn::Store { base, src, .. } => {
                used.push(*base);
                used.extend(operand_value(*src));
            }
            SsaInsn::Call { args, .. } => used.extend(*args),
            SsaInsn::Phi { dst: _, inputs } => used.extend(inputs.iter().map(|&(_, v)| v)),
            SsaInsn::Exit { r0 } => used.push(*r0),
        }
    }
    for v in used {
        assert!(prog.def_of(v).is_some(), "dangling version {}", v.to_string());
    }
}

fn operand_value(op: SsaOperand) -> Option<SsaValue> {
    match op {
        SsaOperand::Value(v) => Some(v),
        SsaOperand::Imm(_) => None,
    }
}

fn lower_bytes(words: &[[u8; 8]]) -> Vec<Insn> {
    let bytes: Vec<u8> = words.iter().flatten().copied().collect();
    let insns = decode_program(&bytes).expect("test bytes decode");
    let cfg = build_cfg(&insns).expect("test cfg builds");
    let prog = build_ssa(&insns, &cfg).expect("test ssa builds");
    lower(&prog).expect("test lowers")
}

/// Lowering alone keeps the outcome of a run.
fn assert_same_run(words: &[[u8; 8]]) {
    let bytes: Vec<u8> = words.iter().flatten().copied().collect();
    let insns = decode_program(&bytes).expect("test bytes decode");
    let expected: RunOutcome = Vm::new(insns).run(10_000);
    let lowered = lower_bytes(words);
    let actual: RunOutcome = Vm::new(
        decode_program(&encode_program(&lowered).expect("encodes"))
            .expect("re-decodes"),
    )
    .run(10_000);
    assert_eq!(actual, expected);
}

#[test]
fn pins_frame_and_ctx() {
    // ldxw r2, [r1+0]; exit — r10 unused, r1 read: EntryCtx homed r1.
    let bytes = [w(0x61, 2, 1, 0, 0), w(0x95, 0, 0, 0, 0)].concat();
    let prog = build(&bytes);
    let alloc = allocate(&prog).unwrap();
    let ctx = prog.insns.iter().find_map(|i| match i {
        SsaInsn::EntryCtx { dst } => Some(*dst),
        _ => None,
    });
    assert_eq!(alloc.home(ctx.unwrap()), Some(Reg(1)));
}

#[test]
fn ten_live_straight_line_fits() {
    // Ten simultaneously-live versions (nine consts plus the
    // accumulator, all read after the last definition) fit exactly:
    // nine pool homes plus `r1` through BinOp-lhs coalescing onto the
    // expired `EntryCtx` home. This pins capacity against
    // over-conservative regressions (`pressure_refuses` pins the
    // refusal side).
    let mut words = Vec::with_capacity(20);
    for r in 1..=9u8 {
        words.push(w(0xb7, r, 0, 0, i32::from(r)));
    }
    words.push(w(0xb7, 0, 0, 0, 10));
    for r in 1..=9u8 {
        words.push(w(0x0f, 0, r, 0, 0));
    }
    words.push(w(0x95, 0, 0, 0, 0));
    let bytes = words.concat();
    let prog = build(&bytes);
    assert!(allocate(&prog).is_ok());
}

#[test]
fn pressure_refuses() {
    // A loop body touching more versions than homes exist: every
    // touched version pins whole-program (see `live_ranges`), so ten
    // movs plus their ten header phis plus the counter chains stack
    // far past eleven slots. Graceful refusal, never a miscompile.
    let mut words = vec![w(0xb7, 1, 0, 0, 0)];
    for r in 0..=9u8 {
        words.push(w(0xb7, r, 0, 0, i32::from(r)));
    }
    for r in 0..=9u8 {
        words.push(w(0x0f, 0, r, 0, 0));
    }
    words.push(w(0x07, 1, 0, 0, 1));
    // Jump back to the first body mov (pc 1).
    let back = 1 - (i16::try_from(words.len()).unwrap_or(0) + 1);
    words.push(w(0xa5, 1, 0, back, 100));
    words.push(w(0x95, 0, 0, 0, 0));
    let bytes = words.concat();
    let prog = build(&bytes);
    assert!(matches!(allocate(&prog), Err(SsaError::OutOfRegisters)));
}

#[test]
fn construct_straight_line_shape() {
    // mov64 r0, 1; exit → 3 prelude + BinOp + Exit.
    let prog = build(&[w(0xb7, 0, 0, 0, 1), w(0x95, 0, 0, 0, 0)].concat());
    assert_eq!(prog.len(), 5);
    assert_defs_total(&prog);
    assert!(prog.graph[NodeIndex::new(prog.entry)].live);
}

#[test]
fn filled_cycle_terminates() {
    // A filled single-predecessor
    // loop with untouched registers shortcutted `read` forever.
    let bytes: Vec<u8> = vec![
        183, 0, 0, 0, 0, 0, 0, 0, 54, 1, 1, 0, 0, 1, 0, 0, 165, 249, 253, 255, 232, 3, 0, 97,
        18, 0, 0, 0, 0, 6, 116, 116, 116, 116, 116, 116, 0, 0, 2, 0, 122, 8, 0, 0, 116, 116,
        222, 116,
    ];
    let prog = build(&bytes);
    assert_defs_total(&prog);
}

#[test]
fn diamond_merge_phis() {
    // mov r1, 5; jeq r1, 10, +2; mov r0, 1; ja +1; mov r0, 2; exit
    let prog = build(
        &[
            w(0xb7, 1, 0, 0, 5),
            w(0x15, 1, 0, 2, 10),
            w(0xb7, 0, 0, 0, 1),
            w(0x05, 0, 0, 1, 0),
            w(0xb7, 0, 0, 0, 2),
            w(0x95, 0, 0, 0, 0),
        ]
        .concat(),
    );
    // The merge block heads a 2-input phi (r0: 1 vs 2).
    let mut found = false;
    for node in prog.graph.node_indices() {
        let bb = &prog.graph[node];
        for insn in &prog.insns[bb.start..bb.end] {
            if let SsaInsn::Phi { dst: _, inputs } = insn {
                assert_eq!(inputs.len(), 2);
                assert_ne!(inputs[0].0, inputs[1].0);
                found = true;
            }
        }
    }
    assert!(found, "diamond merge should head a phi");
    assert_defs_total(&prog);
}

#[test]
fn loop_header_phi() {
    // r0=0; r1=0; add r0,1; add r1,1; jlt r1,10,-3; exit
    let prog = build(
        &[
            w(0xb7, 0, 0, 0, 0),
            w(0xb7, 1, 0, 0, 0),
            w(0x07, 0, 0, 0, 1),
            w(0x07, 1, 0, 0, 1),
            w(0xa5, 1, 0, -3, 10),
            w(0x95, 0, 0, 0, 0),
        ]
        .concat(),
    );
    // Loop-carried r0/r1 surface as phis with backedge operands.
    let mut phis = 0;
    for node in prog.graph.node_indices() {
        let bb = &prog.graph[node];
        for insn in &prog.insns[bb.start..bb.end] {
            if let SsaInsn::Phi { dst: _, inputs } = insn {
                assert_eq!(inputs.len(), 2);
                phis += 1;
            }
        }
    }
    assert!(phis >= 2, "loop header should head phis, saw {phis}");
    assert_defs_total(&prog);
}

#[test]
fn entry_self_loop_phis() {
    // mov r0, 0; add r1, 1; jlt r1, 10, -3; exit — the entry block
    // loops to itself, so loop-carried r0/r1 surface as phis with a
    // start-sentinel inflow plus the backedge (never a bare
    // prelude hit that would reset the counter each iteration).
    let prog = build(
        &[w(0xb7, 0, 0, 0, 0), w(0x07, 1, 0, 0, 1), w(0xa5, 1, 0, -3, 10), w(0x95, 0, 0, 0, 0)]
            .concat(),
    );
    let bb = &prog.graph[NodeIndex::new(prog.entry)];
    let mut phis = 0;
    for insn in &prog.insns[bb.start..bb.end] {
        if let SsaInsn::Phi { dst: _, inputs } = insn {
            assert_eq!(inputs.len(), 2);
            assert!(inputs[0].0 == START_PRED);
            assert_eq!(inputs[1].0, prog.entry);
            phis += 1;
        }
    }
    assert!(phis >= 2, "entry loop should head phis, saw {phis}");
    assert_defs_total(&prog);
}

#[test]
fn r10_bad_end_preserved() {
    // `end r10, 0` traps when reached (`InvalidEndWidth`), so
    // construction keeps it despite the dropped `r10` destination
    //. A valid-width `end r10, 32` stays dropped: it
    // is a pure no-op since the VM ignores `r10` writes.
    let prog = build(&[w(0xd7, 10, 0, 0, 0), w(0x95, 0, 0, 0, 0)].concat());
    assert!(prog.insns.iter().any(|i| matches!(i, SsaInsn::BinOp { op: AluOp::End(_), .. })));
    assert_defs_total(&prog);
    let prog = build(&[w(0xd7, 10, 0, 0, 32), w(0x95, 0, 0, 0, 0)].concat());
    assert!(!prog.insns.iter().any(|i| matches!(i, SsaInsn::BinOp { .. })));
    assert_defs_total(&prog);
}

#[test]
fn mov32_reg_stays_binop() {
    // `mov32 r0, r1` zero-extends: it must keep its width in a
    // `BinOp`, never become a widthless `Copy` (which would preserve
    // the high bits).
    let prog = build(&[w(0xbc, 0, 1, 0, 0), w(0x95, 0, 0, 0, 0)].concat());
    assert!(
        prog.insns
            .iter()
            .any(|i| matches!(i, SsaInsn::BinOp { op: AluOp::Mov, width: Width::B32, .. }))
    );
    assert!(!prog.insns.iter().any(|i| matches!(i, SsaInsn::Copy { .. })));
    assert_defs_total(&prog);
}

#[test]
fn entry_env_total() {
    // ldimm r2, ...; exit — r0 never written, yet Exit's r0 resolves
    // to the shared entry zero (matching the zeroed VM registers).
    let mut bytes = vec![0x18u8, 0x02, 0, 0, 1, 0, 0, 0, 0, 0, 0, 0, 0, 0, 0, 0];
    bytes.extend_from_slice(&w(0x95, 0, 0, 0, 0));
    let prog = build(&bytes);
    let exit = prog.insns.iter().find_map(|i| match i {
        SsaInsn::Exit { r0 } => Some(*r0),
        _ => None,
    });
    let r0 = exit.expect("exit exists");
    assert!(matches!(prog.def_of(r0), Some(SsaInsn::Const { value: 0, .. })));
    assert_defs_total(&prog);
}

#[test]
fn r10_write_dropped() {
    // mov64 r10, 5 is ignored by the VM; construction drops the def
    // (exactly one BinOp survives: mov r0, 1).
    let prog =
        build(&[w(0xb7, 10, 0, 0, 5), w(0xb7, 0, 0, 0, 1), w(0x95, 0, 0, 0, 0)].concat());
    let binops = prog.insns.iter().filter(|i| matches!(i, SsaInsn::BinOp { .. })).count();
    assert_eq!(binops, 1);
    assert_defs_total(&prog);
}

#[test]
fn call_nibble_structural() {
    // 0x8D decodes to Jump{Call, reg}: a structural conditional the
    // VM never takes. Construction mirrors the CFG (two successors)
    // without special-casing.
    let prog = build(&[w(0x8d, 1, 2, 0, 0), w(0x95, 0, 0, 0, 0)].concat());
    assert!(prog.insns.iter().any(|i| matches!(i, SsaInsn::Br { .. })));
    assert_defs_total(&prog);
}

#[test]
fn unknown_refused() {
    let insns = decode(&[0x00, 0, 0, 0, 0, 0, 0, 0, 0x95, 0, 0, 0, 0, 0, 0, 0]);
    // Unknown-class words may still fail CFG or SSA: either refusal is
    // a sound verdict, but SSA must never accept silently.
    if let Ok(cfg) = build_cfg(&insns) {
        assert!(matches!(build_ssa(&insns, &cfg), Err(SsaError::IllegalInstruction { pc: 0 })));
    }
}

#[test]
fn empty_refused() {
    let insns = decode(&w(0x95, 0, 0, 0, 0));
    let cfg = build_cfg(&insns).expect("cfg builds");
    assert!(matches!(build_ssa(&[], &cfg), Err(SsaError::EmptyProgram)));
}

#[test]
fn lower_straight_line_shape() {
    // mov64 r0, 1; exit → the entry zero materializes first (its only
    // use is the `mov` lhs), then the real move. Optimizing folds
    // the pair away; lowering keeps it as it is.
    let out = lower_bytes(&[w(0xb7, 0, 0, 0, 1), w(0x95, 0, 0, 0, 0)]);
    assert_eq!(
        out,
        vec![
            Insn::Alu { width: Width::B64, op: AluOp::Mov, dst: Reg(0), src: Operand::Imm(0) },
            Insn::Alu { width: Width::B64, op: AluOp::Mov, dst: Reg(0), src: Operand::Imm(1) },
            Insn::Exit,
        ]
    );
}

#[test]
fn lower_roundtrips_programs() {
    // arith, branch (taken + untaken are runtime paths of one
    // program), diamond, loop, stack, endian, ldimm.
    assert_same_run(&[
        w(0xb7, 1, 0, 0, 10),
        w(0xb7, 2, 0, 0, 20),
        w(0xbf, 3, 1, 0, 0),
        w(0x0f, 3, 2, 0, 0),
        w(0xbf, 0, 3, 0, 0),
        w(0x95, 0, 0, 0, 0),
    ]);
    assert_same_run(&[
        w(0xb7, 1, 0, 0, 10),
        w(0xb7, 0, 0, 0, 1),
        w(0x15, 1, 0, 1, 10),
        w(0xb7, 0, 0, 0, 2),
        w(0x95, 0, 0, 0, 0),
    ]);
    assert_same_run(&[
        w(0xb7, 1, 0, 0, 5),
        w(0x15, 1, 0, 2, 10),
        w(0xb7, 0, 0, 0, 1),
        w(0x05, 0, 0, 1, 0),
        w(0xb7, 0, 0, 0, 2),
        w(0x95, 0, 0, 0, 0),
    ]);
    assert_same_run(&[
        w(0xb7, 0, 0, 0, 0),
        w(0xb7, 1, 0, 0, 0),
        w(0x07, 0, 0, 0, 1),
        w(0x07, 1, 0, 0, 1),
        w(0xa5, 1, 0, -3, 10),
        w(0x95, 0, 0, 0, 0),
    ]);
    assert_same_run(&[
        w(0xb7, 1, 0, 0, 42),
        w(0x7b, 10, 1, -8, 0),
        w(0x79, 0, 10, -8, 0),
        w(0x95, 0, 0, 0, 0),
    ]);
    assert_same_run(&[
        w(0xb7, 1, 0, 0, 0x1234),
        w(0xdc, 1, 0, 0, 16),
        w(0xbf, 0, 1, 0, 0),
        w(0x95, 0, 0, 0, 0),
    ]);
}

#[test]
fn dead_block_dropped_and_elided() {
    // ja over a dead wide load: the unreachable block never emits
    // (nothing executes it, so its would-be fault dies too), and the
    // unconditional jump into the next block elides entirely. The
    // entry zero still materializes (used by the `mov` lhs).
    let words = [
        w(0x05, 0, 0, 2, 0),
        w(0x18, 0, 0, 0, 7),
        w(0x00, 0, 0, 0, 0),
        w(0xb7, 0, 0, 0, 1),
        w(0x95, 0, 0, 0, 0),
    ];
    let out = lower_bytes(&words);
    assert_eq!(
        out,
        vec![
            Insn::Alu { width: Width::B64, op: AluOp::Mov, dst: Reg(0), src: Operand::Imm(0) },
            Insn::Alu { width: Width::B64, op: AluOp::Mov, dst: Reg(0), src: Operand::Imm(1) },
            Insn::Exit,
        ]
    );
    assert_same_run(&words);
}

#[test]
fn diamond_phi_moves() {
    // Merge phi with a live use after the join: moves land at
    // predecessor ends and the join runs identically (offsets
    // recomputed through them).
    assert_same_run(&[
        w(0xb7, 1, 0, 0, 5),
        w(0x15, 1, 0, 2, 10),
        w(0xb7, 0, 0, 0, 1),
        w(0x05, 0, 0, 1, 0),
        w(0xb7, 0, 0, 0, 2),
        w(0xbf, 2, 0, 0, 0),
        w(0x0f, 0, 2, 0, 0),
        w(0x95, 0, 0, 0, 0),
    ]);
}

#[test]
fn loop_invariant_survives() {
    // Loop-invariant value read in the body every iteration, with a
    // post-loop `mov` keeping `r0` (the entry zero's home) occupied:
    // the body definition must then reuse the invariant's home —
    // clobbering it on iteration two unless cycle-pinning holds the
    // home for the whole program. Run-equality over five iterations
    // proves it.
    assert_same_run(&[
        w(0xb7, 2, 0, 0, 7),
        w(0xb7, 0, 0, 0, 0),
        w(0xb7, 1, 0, 0, 0),
        w(0x0f, 0, 2, 0, 0),
        w(0x07, 1, 0, 0, 1),
        w(0xa5, 1, 0, -3, 5),
        w(0xb7, 3, 0, 0, 99),
        w(0x0f, 0, 3, 0, 0),
        w(0x95, 0, 0, 0, 0),
    ]);
}

#[test]
fn cycle_touched_ranges_pin_to_end() {
    // Direct pin of the soundness rule behind `loop_invariant_survives`:
    // every version used inside a cyclic block must stay live to
    // program end (see `live_ranges` docs). Fails without pinning
    // (ends stop at the last flat use); no pool-order luck involved.
    let words = [
        w(0xb7, 2, 0, 0, 7),
        w(0xb7, 0, 0, 0, 0),
        w(0xb7, 1, 0, 0, 0),
        w(0x0f, 0, 2, 0, 0),
        w(0x07, 1, 0, 0, 1),
        w(0xa5, 1, 0, -3, 5),
        w(0xb7, 3, 0, 0, 99),
        w(0x0f, 0, 3, 0, 0),
        w(0x95, 0, 0, 0, 0),
    ];
    let bytes: Vec<u8> = words.iter().flatten().copied().collect();
    let insns = decode_program(&bytes).unwrap();
    let cfg = build_cfg(&insns).unwrap();
    let prog = build_ssa(&insns, &cfg).unwrap();
    let ranges = live_ranges(&prog);
    let cyclic = cyclic_blocks(&prog);
    // Flat position → containing block.
    let mut block_of_pos = vec![usize::MAX; prog.len()];
    for node in prog.graph.node_indices() {
        let bb = &prog.graph[node];
        if bb.live {
            block_of_pos[bb.start..bb.end].fill(node.index());
        }
    }
    let mut pinned = 0;
    for (pos, value) in prog.reg_uses() {
        let block = block_of_pos[pos];
        if block != usize::MAX && cyclic[block] {
            let id = usize::try_from(value.0).unwrap();
            assert_eq!(ranges[id].1, prog.len(), "use of {} in a cycle must pin to end", value.to_string());
            pinned += 1;
        }
    }
    assert!(pinned > 0, "expected cycle-touched uses");
}

#[test]
fn shuffle_chain_orders() {
    // r3's value flows to r2, r2's to r1: r1←r2 must emit first
    // (r2's old value would die under r3's write otherwise).
    let ordered = order_moves(
        vec![
            PlacedMove { dst: Reg(1), src: MoveSrc::Reg(Reg(2)) },
            PlacedMove { dst: Reg(2), src: MoveSrc::Reg(Reg(3)) },
        ],
        SsaError::PhiCycle,
    )
    .unwrap();
    assert_eq!(
        ordered,
        vec![
            PlacedMove { dst: Reg(1), src: MoveSrc::Reg(Reg(2)) },
            PlacedMove { dst: Reg(2), src: MoveSrc::Reg(Reg(3)) },
        ]
    );
}

#[test]
fn shuffle_imm_after_readers() {
    // An immediate move's destination may be read by a register
    // move: the reader goes first (parallel semantics read all
    // sources before any write).
    let ordered = order_moves(
        vec![
            PlacedMove { dst: Reg(1), src: MoveSrc::Imm(5) },
            PlacedMove { dst: Reg(2), src: MoveSrc::Reg(Reg(1)) },
        ],
        SsaError::PhiCycle,
    )
    .unwrap();
    assert_eq!(
        ordered,
        vec![
            PlacedMove { dst: Reg(2), src: MoveSrc::Reg(Reg(1)) },
            PlacedMove { dst: Reg(1), src: MoveSrc::Imm(5) },
        ]
    );
}

#[test]
fn shuffle_cycle_refuses() {
    // A swap has no sequential order: refusal, never a miscompile.
    // (Both refusal variants share this sequentializer.)
    for cycle in [SsaError::PhiCycle, SsaError::CallArgCycle] {
        assert!(
            order_moves(
                vec![
                    PlacedMove { dst: Reg(1), src: MoveSrc::Reg(Reg(2)) },
                    PlacedMove { dst: Reg(2), src: MoveSrc::Reg(Reg(1)) },
                ],
                cycle.clone(),
            )
            .is_err()
        );
    }
}

#[test]
fn inverted_conditions() {
    assert_eq!(invert(JumpOp::Eq), Some(JumpOp::Ne));
    assert_eq!(invert(JumpOp::Gt), Some(JumpOp::Le));
    assert_eq!(invert(JumpOp::Sge), Some(JumpOp::Slt));
    assert_eq!(invert(JumpOp::Jset), None);
    assert_eq!(invert(JumpOp::Always), None);
}

#[test]
fn argument_swap_is_refused() {
    // r1 and r2 change places before a call: there is no order for the moves
    // unless a register is free, and one is.
    let words = [
        w(0xb7, 1, 0, 0, 1),
        w(0xb7, 2, 0, 0, 2),
        w(0xbf, 3, 1, 0, 0),
        w(0xbf, 1, 2, 0, 0),
        w(0xbf, 2, 3, 0, 0),
        w(0x85, 0, 0, 0, 5),
        w(0x95, 0, 0, 0, 0),
    ]
    .concat();
    let mut prog = build(&words);
    optimize(&mut prog);
    let r = lower(&prog);
    assert!(r.is_ok() || matches!(r, Err(SsaError::CallArgCycle)));
}

#[test]
fn loads_into_the_frame_pointer_keep_their_fault() {
    // ldxdw r10, [r1+0]; exit
    let words = [w(0x79, 10, 1, 0, 0), w(0x95, 0, 0, 0, 0)].concat();
    let prog = build(&words);
    assert!(prog.insns.iter().any(|i| matches!(
        i,
        SsaInsn::Load { dst: None, size: MemSize::Dw, .. }
    )));
    match lower(&prog) {
        Ok(insns) => assert!(insns.iter().any(|i| matches!(i, Insn::Load { .. }))),
        Err(e) => assert_eq!(e, SsaError::R10FaultingLoad),
    }
}

#[test]
fn homes_of_overlapping_values_differ() {
    let words = [
        w(0xb7, 1, 0, 0, 10),
        w(0xb7, 2, 0, 0, 20),
        w(0xb7, 3, 0, 0, 30),
        w(0x0f, 1, 2, 0, 0),
        w(0x0f, 1, 3, 0, 0),
        w(0xbf, 0, 1, 0, 0),
        w(0x95, 0, 0, 0, 0),
    ]
    .concat();
    let prog = build(&words);
    let ranges = live_ranges(&prog);
    let alloc = allocate(&prog).unwrap();
    let mut pairs = 0;
    for a in 0..ranges.len() {
        for b in 0..a {
            let (x, y) = (ranges[a], ranges[b]);
            let (ha, hb) =
                (alloc.home(SsaValue(a as u32)), alloc.home(SsaValue(b as u32)));
            if ha.is_some() && ha == hb {
                // One range may only start where the other ends.
                assert!(x.1 <= y.0 + 1 || y.1 <= x.0 + 1);
                pairs += 1;
            }
        }
    }
    assert!(pairs > 0);
}

#[test]
fn refusal_texts() {
    assert_eq!(
        SsaError::EmptyProgram.to_string(),
        "cannot build SSA over an empty program"
    );
    assert_eq!(SsaValue(3).to_string(), "v3");
    assert_eq!(SsaOperand::Imm(-2).to_string(), "-2");
}

/// Programs with jumps all over the place, from a fixed sequence of numbers.
fn tangled(seed: u64) -> Vec<u8> {
    let mut state = seed;
    let mut next = |bound: u64| {
        state = state.wrapping_mul(6_364_136_223_846_793_005).wrapping_add(1_442_695_040_888_963_407);
        (state >> 33) % bound
    };
    let len: i16 = 14;
    let mut words = Vec::new();
    for at in 0..len - 1 {
        let dst = next(6) as u8;
        let src = next(6) as u8;
        words.push(match next(4) {
            0 => w(0x0f, dst, src, 0, 0),
            1 => w(0xb7, dst, 0, 0, next(9) as i32),
            2 => w(0x1d, dst, src, next(len as u64) as i16 - at - 1, 0),
            _ => w(0x05, 0, 0, next(len as u64) as i16 - at - 1, 0),
        });
    }
    words.push(w(0x95, 0, 0, 0, 0));
    words.concat()
}

#[test]
fn phis_of_single_entries_come_back() {
    let mut seen = 0;
    for seed in 0..300 {
        let insns = decode(&tangled(seed));
        let cfg = build_cfg(&insns).unwrap();
        let prog = build_ssa(&insns, &cfg).unwrap();
        assert_defs_total(&prog);
        let order: Vec<usize> = cfg.rpo().to_vec();
        let place = |b: usize| order.iter().position(|&x| x == b);
        let out = |b: usize| -> Vec<usize> {
            cfg.graph.neighbors(NodeIndex::new(b)).map(|n| n.index()).collect()
        };
        // What can be reached over one edge or more.
        let reached = |b: usize| {
            let mut list = out(b);
            let mut i = 0;
            while i < list.len() {
                for n in out(list[i]) {
                    if !list.contains(&n) {
                        list.push(n);
                    }
                }
                i += 1;
            }
            list
        };
        for &b in &order {
            // An edge back in the order closes a cycle.
            for t in out(b) {
                if place(t) < place(b) {
                    assert!(reached(t).contains(&b), "edge {b} -> {t} of {seed}");
                }
            }
            let entries = order.iter().flat_map(|&p| out(p)).filter(|&t| t == b).count();
            let all = cfg.graph.node_indices().flat_map(|p| out(p.index())).filter(|&t| t == b);
            let single = all.count() == 1;
            let block = prog.graph[NodeIndex::new(b)];
            let phis = prog.insns[block.start..block.end]
                .iter()
                .filter(|i| matches!(i, SsaInsn::Phi { .. }))
                .count();
            if b != 0 && single {
                assert_eq!(entries, 1);
                let back = reached(b).iter().any(|&c| c == b || place(c) < place(b));
                assert!(phis == 0 || back, "block {b} of {seed}");
                seen += usize::from(phis == 0);
            }
        }
    }
    assert!(seen > 100);
}

#[test]
fn tangled_programs_run_alike() {
    let mut ends = 0;
    for seed in 0..300 {
        let insns = decode(&tangled(seed));
        let cfg = build_cfg(&insns).unwrap();
        let mut prog = build_ssa(&insns, &cfg).unwrap();
        optimize(&mut prog);
        let Ok(lowered) = lower(&prog) else { continue };
        let before = Vm::new(insns).run(1000);
        let after = Vm::new(lowered).run(1000);
        if let (Ok(x), Ok(y)) = (&before, &after) {
            assert_eq!(x, y, "{seed}");
            ends += 1;
        } else {
            assert_eq!(before.is_ok(), after.is_ok(), "{seed}");
        }
    }
    assert!(ends > 100, "{ends}");
}
