//! Decoding, encoding and instruction words.

use ebpf_lab::isa::insn::InvalidReg;
use ebpf_lab::isa::opcode;
use ebpf_lab::isa::{
    decode_program, encode_program, AluOp, DecodeError, EncodeError, Endian, Insn, JumpOp, MemSize,
    Operand, RawInsn, Reg, Width,
};

fn word(opcode: u8, regs: u8, offset: i16, imm: i32) -> [u8; 8] {
    RawInsn { opcode, regs, offset, imm }.to_bytes()
}

fn roundtrip(bytes: &[u8]) {
    let insns = decode_program(bytes).expect("test bytes decode");
    assert_eq!(encode_program(&insns).expect("re-encodes"), bytes);
}

#[test]
fn decodes_mov64_imm() {
    let bytes = word(0xb7, 0x00, 0, 42);
    let insns = decode_program(&bytes).unwrap();
    assert_eq!(
        insns[0],
        Insn::Alu { width: Width::B64, op: AluOp::Mov, dst: Reg(0), src: Operand::Imm(42) }
    );
}

#[test]
fn decodes_exit_and_call() {
    let exit = word(0x95, 0x00, 0, 0);
    let call = word(0x85, 0x00, 0, 1);
    let mut bytes = Vec::new();
    bytes.extend_from_slice(&call);
    bytes.extend_from_slice(&exit);
    let insns = decode_program(&bytes).unwrap();
    assert_eq!(insns[0], Insn::Call { func: 1 });
    assert_eq!(insns[1], Insn::Exit);
}

#[test]
fn decodes_ld_imm_dw_two_slots() {
    let lo = word(0x18, 0x02, 0, 0x1122_3344u32 as i32);
    let hi = word(0x00, 0x00, 0, 0x5566_7788u32 as i32);
    let mut bytes = Vec::new();
    bytes.extend_from_slice(&lo);
    bytes.extend_from_slice(&hi);
    let insns = decode_program(&bytes).unwrap();
    assert_eq!(insns.len(), 1);
    assert_eq!(
        insns[0],
        Insn::LoadImm64 { dst: Reg(2), imm: 0x5566_7788_1122_3344u64 as i64 }
    );
}

#[test]
fn decodes_conditional_jump() {
    let bytes = word(0x15, 0x01, 3, 10); // jeq r1, 10, +3
    let insns = decode_program(&bytes).unwrap();
    assert_eq!(
        insns[0],
        Insn::Jump {
            width: Width::B64,
            op: JumpOp::Eq,
            dst: Reg(1),
            src: Operand::Imm(10),
            offset: 3
        }
    );
}

#[test]
fn decodes_ldx_and_stx() {
    let load = word(0x79, 0x21, -8, 0); // ldxdw r1, [r2-8]
    let store = word(0x7b, 0x31, 8, 0); // stxdw [r1+8], r3
    let mut bytes = Vec::new();
    bytes.extend_from_slice(&load);
    bytes.extend_from_slice(&store);
    let insns = decode_program(&bytes).unwrap();
    assert_eq!(insns[0], Insn::Load { size: MemSize::Dw, dst: Reg(1), base: Reg(2), offset: -8 });
    assert_eq!(
        insns[1],
        Insn::Store { size: MemSize::Dw, base: Reg(1), offset: 8, src: Operand::Reg(Reg(3)) }
    );
}

#[test]
fn rejects_truncated_tail() {
    assert!(matches!(decode_program(&[0xb7, 0x00, 0]), Err(DecodeError::Truncated { .. })));
}

#[test]
fn alu_shapes() {
    // add64 r3, r2 / add32 r0, 5
    roundtrip(&[0x0f, 0x23, 0, 0, 0, 0, 0, 0, 0x04, 0x00, 0, 0, 5, 0, 0, 0]);
}

#[test]
fn endianness() {
    // end64 le + end16 be (BE rides the source bit).
    roundtrip(&[0xd4, 0x00, 0, 0, 64, 0, 0, 0, 0xdc, 0x00, 0, 0, 16, 0, 0, 0]);
}

#[test]
fn jumps_and_calls() {
    // jeq-imm / jgt-reg / ja / call / exit (+ JMP32 jeq).
    roundtrip(&[
        0x15, 0x01, 1, 0, 10, 0, 0, 0, //
        0x2d, 0x43, 2, 0, 0, 0, 0, 0, //
        0x05, 0x00, 3, 0, 0, 0, 0, 0, //
        0x85, 0, 0, 0, 1, 0, 0, 0, //
        0x95, 0, 0, 0, 0, 0, 0, 0, //
        0x16, 0x01, 1, 0, 10, 0, 0, 0, //
    ]);
}

#[test]
fn memory_widths() {
    // ldxw/h/b/dw + stw-imm + stxw-reg.
    roundtrip(&[
        0x61, 0x12, 0, 0, 0, 0, 0, 0, //
        0x69, 0x12, 0, 0, 0, 0, 0, 0, //
        0x71, 0x12, 0, 0, 0, 0, 0, 0, //
        0x79, 0x12, 0, 0, 0, 0, 0, 0, //
        0x62, 0x0a, 0xf8, 0xff, 1, 0, 0, 0, //
        0x7b, 0x1a, 0xf8, 0xff, 0, 0, 0, 0, //
    ]);
}

#[test]
fn wide_immediate_splits() {
    let insns = vec![Insn::LoadImm64 { dst: Reg(2), imm: 0x5566_7788_1122_3344u64 as i64 }];
    let bytes = encode_program(&insns).unwrap();
    assert_eq!(bytes.len(), 16);
    assert_eq!(decode_program(&bytes).unwrap(), insns);
}

#[test]
fn call_nibble_reg_shape_roundtrips() {
    // 0x8D decodes to Jump{Call, reg} (not a helper call); it must
    // survive the roundtrip instead of collapsing to 0x85.
    roundtrip(&[0x8d, 0x12, 0, 0, 0, 0, 0, 0]);
}

#[test]
fn refusals() {
    assert!(matches!(
        encode_program(&[Insn::Unknown {
            raw: RawInsn { opcode: 0, regs: 0, offset: 0, imm: 0 }
        }]),
        Err(EncodeError::UnknownInstruction { pc: 0 })
    ));
    assert!(matches!(
        encode_program(&[Insn::Jump {
            width: Width::B64,
            op: JumpOp::Call,
            dst: Reg(0),
            src: Operand::Imm(1),
            offset: 0
        }]),
        Err(EncodeError::InvalidJump { pc: 0 })
    ));
    assert!(matches!(
        encode_program(&[Insn::Alu {
            width: Width::B64,
            op: AluOp::End(Endian::Le),
            dst: Reg(0),
            src: Operand::Reg(Reg(1)),
        }]),
        Err(EncodeError::InvalidEnd { pc: 0 })
    ));
}

#[test]
fn raw_regs_split_nibbles() {
    let raw = RawInsn { opcode: 0, regs: 0x21, offset: 0, imm: 0 };
    assert_eq!(raw.dst(), 1);
    assert_eq!(raw.src(), 2);
}

#[test]
fn reg_rejects_above_10() {
    assert!(Reg::new(10).is_ok());
    assert_eq!(Reg::new(11), Err(InvalidReg(11)));
}

#[test]
fn mem_size_bytes() {
    assert_eq!(MemSize::Dw.bytes(), 8);
    assert_eq!(MemSize::B.bytes(), 1);
}

#[test]
fn reg_into_usize() {
    assert_eq!(usize::from(Reg(0)), 0);
    assert_eq!(usize::from(Reg(Reg::FRAME_PTR)), 10);
    assert_eq!(usize::from(Reg(3)), Reg(3).index());
}

#[test]
fn raw_insn_from_roundtrip() {
    let bytes = [0xb7u8, 0x00, 0, 0, 1, 0, 0, 0];
    let raw = RawInsn::from(bytes);
    assert_eq!(raw, RawInsn::from_bytes(&bytes));
    let back: [u8; 8] = raw.into();
    assert_eq!(back, bytes);
}

#[test]
fn insn_stays_compact() {
    assert!(std::mem::size_of::<Insn>() <= 16, "Insn grew");
}

#[test]
fn raw_words_survive() {
    for b in 0..=255u8 {
        let bytes = [b, b ^ 0x5a, b.wrapping_mul(7), 0xff, 1, b, 0x80, b.wrapping_add(3)];
        let back: [u8; 8] = RawInsn::from_bytes(&bytes).into();
        assert_eq!(back, bytes);
    }
}

#[test]
fn single_slots_decode_to_one() {
    for op in 0..=255u8 {
        if op == opcode::LD_IMM_DW {
            continue;
        }
        if let Ok(insns) = decode_program(&word(op, 0x21, -3, 99)) {
            assert_eq!(insns.len(), 1);
        }
    }
}

#[test]
fn decode_error_variants() {
    assert_eq!(decode_program(&[0; 3]), Err(DecodeError::Truncated { remaining: 3 }));
    assert_eq!(decode_program(&word(0x18, 0, 0, 1)), Err(DecodeError::TruncatedWide));
    // An ALU nibble past the byte swap, and a jump nibble past `jsle`.
    assert_eq!(decode_program(&word(0xe7, 0, 0, 1)), Err(DecodeError::UnknownAluOp(0x0e)));
    assert_eq!(decode_program(&word(0xe5, 0, 0, 1)), Err(DecodeError::UnknownJumpOp(0x0e)));
    // Register numbers above ten.
    assert_eq!(
        decode_program(&word(0xb7, 0x0b, 0, 1)),
        Err(DecodeError::BadReg(InvalidReg(11)))
    );
    assert_eq!(
        decode_program(&word(0x79, 0xc1, 0, 0)),
        Err(DecodeError::BadReg(InvalidReg(12)))
    );
}

#[test]
fn error_texts() {
    assert_eq!(InvalidReg(11).to_string(), "invalid register r11: expected 0..=10");
    assert_eq!(
        DecodeError::Truncated { remaining: 3 }.to_string(),
        "truncated instruction stream: 3 trailing byte(s)"
    );
    assert_eq!(
        EncodeError::UnknownInstruction { pc: 4 }.to_string(),
        "cannot encode unknown instruction at pc 4"
    );
}

#[test]
fn alu_results() {
    assert_eq!(AluOp::Add.apply(i64::MAX, 1, Width::B64), i64::MIN);
    assert_eq!(AluOp::Sub.apply(0, 1, Width::B32), 0xffff_ffff);
    assert_eq!(AluOp::Div.apply(7, 0, Width::B64), 0);
    assert_eq!(AluOp::Mod.apply(7, 0, Width::B64), 0);
    assert_eq!(AluOp::Mov.apply(5, -1, Width::B32), 0xffff_ffff);
    assert_eq!(AluOp::Arsh.apply(-8, 1, Width::B64), -4);
    assert_eq!(AluOp::Rsh.apply(-8, 1, Width::B64), 0x7fff_ffff_ffff_fffc);
    assert_eq!(AluOp::End(Endian::Be).apply(0x1234, 16, Width::B64), 0x3412);
    assert_eq!(AluOp::End(Endian::Le).apply(0x1_2345, 16, Width::B64), 0x2345);
}

#[test]
fn canonical_programs_roundtrip() {
    let insns = vec![
        Insn::Alu { width: Width::B32, op: AluOp::Xor, dst: Reg(9), src: Operand::Imm(-7) },
        Insn::Alu { width: Width::B64, op: AluOp::Arsh, dst: Reg(10), src: Operand::Reg(Reg(3)) },
        Insn::Load { size: MemSize::H, dst: Reg(1), base: Reg(2), offset: -2 },
        Insn::Store { size: MemSize::B, base: Reg(10), offset: -1, src: Operand::Imm(255) },
        Insn::LoadImm64 { dst: Reg(4), imm: -2 },
        Insn::Jump {
            width: Width::B32,
            op: JumpOp::Jset,
            dst: Reg(5),
            src: Operand::Reg(Reg(6)),
            offset: -1,
        },
        Insn::Call { func: 0xffff_ffff },
        Insn::Exit,
    ];
    let bytes = encode_program(&insns).unwrap();
    assert_eq!(bytes.len(), 72);
    assert_eq!(decode_program(&bytes).unwrap(), insns);
}
