//! Programs before and after optimization.

use ebpf_lab::cfg::build_cfg;
use ebpf_lab::isa::{decode_program, AluOp, Insn, Operand, RawInsn, Reg};
use ebpf_lab::ssa::construct::build_ssa;
use ebpf_lab::ssa::homes::allocate;
use ebpf_lab::ssa::lower::lower;
use ebpf_lab::ssa::opt::optimize;
use ebpf_lab::ssa::{SsaInsn, SsaProgram};
use ebpf_lab::vm::Vm;

fn w(opcode: u8, dst: u8, src: u8, off: i16, imm: i32) -> [u8; 8] {
    RawInsn { opcode, regs: (src << 4) | dst, offset: off, imm }.to_bytes()
}

fn decode(words: &[[u8; 8]]) -> Vec<Insn> {
    decode_program(&words.concat()).unwrap()
}

fn optimized(insns: &[Insn]) -> SsaProgram {
    let cfg = build_cfg(insns).unwrap();
    let mut prog = build_ssa(insns, &cfg).unwrap();
    optimize(&mut prog);
    prog
}

fn assert_kept(words: &[[u8; 8]], code: i64) {
    let insns = decode(words);
    let lowered = lower(&optimized(&insns)).unwrap();
    assert_eq!(Vm::new(insns).run(10_000), Ok(code));
    assert_eq!(Vm::new(lowered).run(10_000), Ok(code));
}

#[test]
fn merged_values_are_kept() {
    // r6 is 3 or 5, by a loaded byte; r0 = r6 + r7.
    for (byte, code) in [(0, 12), (1, 14)] {
        assert_kept(
            &[
                w(0x72, 10, 0, -1, byte),
                w(0x71, 1, 10, -1, 0),
                w(0x71, 7, 10, -1, 0),
                w(0x27, 7, 0, 0, 0),
                w(0x07, 7, 0, 0, 9),
                w(0xb7, 6, 0, 0, 3),
                w(0x15, 1, 0, 1, 0),
                w(0xb7, 6, 0, 0, 5),
                w(0xbf, 0, 6, 0, 0),
                w(0x0f, 0, 7, 0, 0),
                w(0x95, 0, 0, 0, 0),
            ],
            code,
        );
    }
}

#[test]
fn values_live_across_a_loop_are_kept() {
    // r6 is read before and behind the loop only.
    assert_kept(
        &[
            w(0x72, 10, 0, -1, 7),
            w(0x71, 6, 10, -1, 0),
            w(0xb7, 0, 0, 0, 0),
            w(0xb7, 1, 0, 0, 0),
            w(0x07, 0, 0, 0, 2),
            w(0x07, 1, 0, 0, 1),
            w(0xa5, 1, 0, -3, 10),
            w(0x0f, 0, 6, 0, 0),
            w(0x95, 0, 0, 0, 0),
        ],
        27,
    );
}

#[test]
fn swap_widths_are_immediates() {
    // Bit 3 of the opcode is the direction, not the source of the width.
    for opcode in [0xd4, 0xdc] {
        let insns = decode(&[w(opcode, 1, 2, 0, 16)]);
        assert!(matches!(
            insns[0],
            Insn::Alu { op: AluOp::End(_), dst: Reg(1), src: Operand::Imm(16), .. }
        ));
    }
}

#[test]
fn homes_are_registers_of_used_values() {
    let insns = decode(&[
        w(0x79, 6, 1, 0, 0),
        w(0x7b, 10, 6, -8, 0),
        w(0x79, 0, 10, -8, 0),
        w(0x95, 0, 0, 0, 0),
    ]);
    let prog = optimized(&insns);
    let alloc = allocate(&prog).unwrap();
    for insn in &prog.insns {
        match insn {
            SsaInsn::FramePtr { dst } => assert_eq!(alloc.home(*dst), Some(Reg(10))),
            SsaInsn::EntryCtx { dst } => assert_eq!(alloc.home(*dst), Some(Reg(1))),
            SsaInsn::Const { dst, .. } => assert_eq!(alloc.home(*dst), None),
            SsaInsn::Load { dst: Some(dst), .. } => {
                assert!(matches!(alloc.home(*dst), Some(Reg(r)) if r < 10));
            }
            _ => {}
        }
    }
}
