//! [`Insn`] to wire bytes, the inverse of decoding.
//!
//! Jump offsets pass through verbatim. The only refusals are values that no
//! decoder output could roundtrip: unknown instructions, call and exit
//! nibbles with an immediate source, and byte swaps with a register source.
use vstd::prelude::*;
use vstd::string::StringExecFns;

use crate::isa::decode::{decoded, head_of, lemma_decode_step, wide_imm};
use crate::isa::insn::{raw_word_roundtrip, AluOp, DecodeError, Endian, Insn, JumpOp, MemSize, Operand, RawInsn, Reg, Width};
use crate::isa::opcode;
use crate::isa::opcode::{class, lemma_mem_opcode_join, lemma_opcode_join, lemma_regs_join};
use crate::text::{nat_text, push_nat};

verus! {

/// Encoding failure.
#[derive(Debug, Clone, Copy, PartialEq, Eq, Structural)]
#[non_exhaustive]
pub enum EncodeError {
    /// Unknown instructions have no canonical encoding.
    UnknownInstruction {
        /// Index of the offending instruction.
        pc: usize,
    },
    /// A call or exit nibble with an immediate source would decode as a call
    /// or an exit.
    InvalidJump {
        /// Index of the offending instruction.
        pc: usize,
    },
    /// A byte swap uses the source bit as its direction, so a register source
    /// cannot be represented.
    InvalidEnd {
        /// Index of the offending instruction.
        pc: usize,
    },
}

impl EncodeError {
    /// The message of the error.
    pub open spec fn display(self) -> Seq<char> {
        match self {
            EncodeError::UnknownInstruction { pc } => "cannot encode unknown instruction at pc "@
                + nat_text(pc as nat),
            EncodeError::InvalidJump { pc } =>
            "cannot encode jump with call/exit condition at pc "@ + nat_text(pc as nat),
            EncodeError::InvalidEnd { pc } =>
            "cannot encode BPF_END with register source at pc "@ + nat_text(pc as nat),
        }
    }

    /// Renders the message of the error.
    pub fn to_string(&self) -> (s: String)
        ensures
            s@ == self.display(),
    {
        match *self {
            EncodeError::UnknownInstruction { pc } => {
                let mut s = String::from_str("cannot encode unknown instruction at pc ");
                push_nat(&mut s, pc as u64);
                s
            },
            EncodeError::InvalidJump { pc } => {
                let mut s = String::from_str("cannot encode jump with call/exit condition at pc ");
                push_nat(&mut s, pc as u64);
                s
            },
            EncodeError::InvalidEnd { pc } => {
                let mut s = String::from_str("cannot encode BPF_END with register source at pc ");
                push_nat(&mut s, pc as u64);
                s
            },
        }
    }
}

/// The operation nibble of an ALU opcode.
pub open spec fn alu_code(op: AluOp) -> u8 {
    match op {
        AluOp::Add => 0x0,
        AluOp::Sub => 0x1,
        AluOp::Mul => 0x2,
        AluOp::Div => 0x3,
        AluOp::Or => 0x4,
        AluOp::And => 0x5,
        AluOp::Lsh => 0x6,
        AluOp::Rsh => 0x7,
        AluOp::Neg => 0x8,
        AluOp::Mod => 0x9,
        AluOp::Xor => 0xa,
        AluOp::Mov => 0xb,
        AluOp::Arsh => 0xc,
        AluOp::End(_) => 0xd,
    }
}

/// The operation nibble of a jump opcode.
pub open spec fn jump_code(op: JumpOp) -> u8 {
    match op {
        JumpOp::Always => 0x0,
        JumpOp::Eq => 0x1,
        JumpOp::Gt => 0x2,
        JumpOp::Ge => 0x3,
        JumpOp::Jset => 0x4,
        JumpOp::Ne => 0x5,
        JumpOp::Sgt => 0x6,
        JumpOp::Sge => 0x7,
        JumpOp::Lt => 0xa,
        JumpOp::Le => 0xb,
        JumpOp::Slt => 0xc,
        JumpOp::Sle => 0xd,
        JumpOp::Call => 0x8,
        JumpOp::Exit => 0x9,
    }
}

/// The size bits of a memory opcode.
pub open spec fn size_code(size: MemSize) -> u8 {
    match size {
        MemSize::W => 0x0,
        MemSize::H => 0x1,
        MemSize::B => 0x2,
        MemSize::Dw => 0x3,
    }
}

/// The register byte of two registers; each fills a nibble.
pub open spec fn regs_code(dst: Reg, src: Reg) -> u8 {
    (src.0 << 4) | dst.0
}

/// The source bit, register byte and immediate of an operand.
pub open spec fn operand_code(dst: Reg, src: Operand) -> (u8, u8, i32) {
    match src {
        Operand::Reg(r) => (8u8, regs_code(dst, r), 0i32),
        Operand::Imm(k) => (0u8, regs_code(dst, Reg(0)), k),
    }
}

/// The raw words of one instruction at index `pc`.
pub open spec fn words_of(insn: Insn, pc: usize) -> Result<Seq<RawInsn>, EncodeError> {
    match insn {
        Insn::Alu { width, op, dst, src } => {
            let klass = if width == Width::B64 {
                class::ALU64
            } else {
                class::ALU
            };
            if let AluOp::End(endian) = op {
                match src {
                    Operand::Reg(_) => Err(EncodeError::InvalidEnd { pc }),
                    Operand::Imm(k) => Ok(
                        seq![
                            RawInsn {
                                opcode: (klass + 0xd0 + (if endian == Endian::Be {
                                    8int
                                } else {
                                    0int
                                })) as u8,
                                regs: regs_code(dst, Reg(0)),
                                offset: 0,
                                imm: k,
                            },
                        ],
                    ),
                }
            } else {
                let (bit, regs, imm) = operand_code(dst, src);
                Ok(
                    seq![
                        RawInsn {
                            opcode: (klass + alu_code(op) * 16 + bit) as u8,
                            regs,
                            offset: 0,
                            imm,
                        },
                    ],
                )
            }
        },
        Insn::Load { size, dst, base, offset } => Ok(
            seq![
                RawInsn {
                    opcode: (0x60 + size_code(size) * 8 + class::LDX) as u8,
                    regs: regs_code(dst, base),
                    offset,
                    imm: 0,
                },
            ],
        ),
        Insn::Store { size, base, offset, src } => {
            let klass = match src {
                Operand::Reg(_) => class::STX,
                Operand::Imm(_) => class::ST,
            };
            let (_, regs, imm) = operand_code(base, src);
            Ok(
                seq![
                    RawInsn { opcode: (0x60 + size_code(size) * 8 + klass) as u8, regs, offset, imm },
                ],
            )
        },
        Insn::LoadImm64 { dst, imm } => Ok(
            seq![
                RawInsn {
                    opcode: opcode::LD_IMM_DW,
                    regs: regs_code(dst, Reg(0)),
                    offset: 0,
                    imm: ((imm as u64) as u32) as i32,
                },
                RawInsn { opcode: 0, regs: 0, offset: 0, imm: (((imm as u64) >> 32) as u32) as i32 },
            ],
        ),
        Insn::Jump { width, op, dst, src, offset } => {
            let klass = if width == Width::B64 {
                class::JMP
            } else {
                class::JMP32
            };
            let (bit, regs, imm) = operand_code(dst, src);
            if op == JumpOp::Always {
                Ok(seq![RawInsn { opcode: class::JMP, regs: 0, offset, imm: 0 }])
            } else if (op == JumpOp::Call || op == JumpOp::Exit) && src is Imm {
                Err(EncodeError::InvalidJump { pc })
            } else {
                Ok(
                    seq![
                        RawInsn {
                            opcode: (klass + jump_code(op) * 16 + bit) as u8,
                            regs,
                            offset,
                            imm,
                        },
                    ],
                )
            }
        },
        Insn::Call { func } => Ok(
            seq![RawInsn { opcode: opcode::JMP_CALL, regs: 0, offset: 0, imm: func as i32 }],
        ),
        Insn::Exit => Ok(seq![RawInsn { opcode: opcode::JMP_EXIT, regs: 0, offset: 0, imm: 0 }]),
        Insn::Unknown { .. } => Err(EncodeError::UnknownInstruction { pc }),
    }
}

/// The raw words of the instructions from index `pc` on.
pub open spec fn words_from(insns: Seq<Insn>, pc: nat) -> Result<Seq<RawInsn>, EncodeError>
    decreases insns.len() - pc,
{
    if pc >= insns.len() {
        Ok(Seq::empty())
    } else {
        match words_of(insns[pc as int], pc as usize) {
            Err(e) => Err(e),
            Ok(words) => prepend_words(words, words_from(insns, pc + 1)),
        }
    }
}

/// An encoding result with words put in front of it.
pub open spec fn prepend_words(
    front: Seq<RawInsn>,
    r: Result<Seq<RawInsn>, EncodeError>,
) -> Result<Seq<RawInsn>, EncodeError> {
    match r {
        Ok(rest) => Ok(front + rest),
        Err(e) => Err(e),
    }
}

/// The bytes of a sequence of raw words.
pub open spec fn words_bytes(words: Seq<RawInsn>) -> Seq<u8>
    decreases words.len(),
{
    if words.len() == 0 {
        Seq::empty()
    } else {
        words_bytes(words.drop_last()) + words.last().bytes()
    }
}

/// The bytes of a program, or the first reason why it has none.
pub open spec fn encoded(insns: Seq<Insn>) -> Result<Seq<u8>, EncodeError> {
    match words_from(insns, 0) {
        Ok(words) => Ok(words_bytes(words)),
        Err(e) => Err(e),
    }
}

/// Serializes a decoded program to flat little-endian bytes.
pub fn encode_program(insns: &[Insn]) -> (r: Result<Vec<u8>, EncodeError>)
    ensures
        match r {
            Ok(bytes) => encoded(insns@) == Ok::<Seq<u8>, EncodeError>(bytes@),
            Err(e) => encoded(insns@) == Err::<Seq<u8>, EncodeError>(e),
        },
{
    let mut raws: Vec<RawInsn> = Vec::new();
    let mut pc: usize = 0;
    proof {
        if let Ok(rest) = words_from(insns@, 0) {
            assert(raws@ + rest =~= rest);
        }
    }
    while pc < insns.len()
        invariant
            pc <= insns@.len(),
            words_from(insns@, 0) == prepend_words(raws@, words_from(insns@, pc as nat)),
        decreases insns@.len() - pc,
    {
        let ghost before = raws@;
        match encode_one(&insns[pc], pc, &mut raws) {
            Err(e) => {
                return Err(e);
            },
            Ok(()) => {},
        }
        proof {
            let words = words_of(insns@[pc as int], pc)->Ok_0;
            if let Ok(rest) = words_from(insns@, (pc + 1) as nat) {
                assert(before + (words + rest) =~= (before + words) + rest);
            }
        }
        pc = pc + 1;
    }
    assert(raws@ + Seq::<RawInsn>::empty() =~= raws@);
    let mut out: Vec<u8> = Vec::new();
    let mut i: usize = 0;
    assert(raws@.take(0) =~= Seq::<RawInsn>::empty());
    while i < raws.len()
        invariant
            i <= raws@.len(),
            out@ == words_bytes(raws@.take(i as int)),
        decreases raws@.len() - i,
    {
        let chunk = raws[i].to_bytes();
        let mut k: usize = 0;
        let ghost base = out@;
        while k < 8
            invariant
                k <= 8,
                chunk@.len() == 8,
                out@ == base + chunk@.take(k as int),
            decreases 8 - k,
        {
            out.push(chunk[k]);
            assert(chunk@.take(k + 1) =~= chunk@.take(k as int).push(chunk@[k as int]));
            k = k + 1;
        }
        assert(chunk@.take(8) =~= chunk@);
        assert(raws@.take(i + 1).drop_last() =~= raws@.take(i as int));
        i = i + 1;
    }
    assert(raws@.take(i as int) =~= raws@);
    Ok(out)
}

/// ALU operation nibble (upper nibble of ALU opcodes).
fn alu_nibble(op: AluOp) -> (r: u8)
    ensures
        r == alu_code(op),
{
    match op {
        AluOp::Add => 0x0,
        AluOp::Sub => 0x1,
        AluOp::Mul => 0x2,
        AluOp::Div => 0x3,
        AluOp::Or => 0x4,
        AluOp::And => 0x5,
        AluOp::Lsh => 0x6,
        AluOp::Rsh => 0x7,
        AluOp::Neg => 0x8,
        AluOp::Mod => 0x9,
        AluOp::Xor => 0xa,
        AluOp::Mov => 0xb,
        AluOp::Arsh => 0xc,
        AluOp::End(_) => 0xd,
    }
}

/// Jump operation nibble (upper nibble of jump opcodes).
fn jump_nibble(op: JumpOp) -> (r: u8)
    ensures
        r == jump_code(op),
{
    match op {
        JumpOp::Always => 0x0,
        JumpOp::Eq => 0x1,
        JumpOp::Gt => 0x2,
        JumpOp::Ge => 0x3,
        JumpOp::Jset => 0x4,
        JumpOp::Ne => 0x5,
        JumpOp::Sgt => 0x6,
        JumpOp::Sge => 0x7,
        JumpOp::Lt => 0xa,
        JumpOp::Le => 0xb,
        JumpOp::Slt => 0xc,
        JumpOp::Sle => 0xd,
        JumpOp::Call => 0x8,
        JumpOp::Exit => 0x9,
    }
}

/// Memory size bits.
fn size_bits(size: MemSize) -> (r: u8)
    ensures
        r == size_code(size),
{
    match size {
        MemSize::W => 0x0,
        MemSize::H => 0x1,
        MemSize::B => 0x2,
        MemSize::Dw => 0x3,
    }
}

/// Packs a register byte: low nibble `dst`, high nibble `src`.
fn regs_byte(dst: Reg, src: Reg) -> (r: u8)
    ensures
        r == regs_code(dst, src),
{
    (src.0 << 4) | dst.0
}

/// The source bit, register byte and immediate of an operand.
fn operand_fields(dst: Reg, src: Operand) -> (r: (u8, u8, i32))
    ensures
        r == operand_code(dst, src),
{
    match src {
        Operand::Reg(r) => (0x08, regs_byte(dst, r), 0),
        Operand::Imm(k) => (0x00, regs_byte(dst, Reg(0)), k),
    }
}

/// Serializes one instruction (one or two raw words) into `out`.
fn encode_one(insn: &Insn, pc: usize, out: &mut Vec<RawInsn>) -> (r: Result<(), EncodeError>)
    ensures
        match r {
            Ok(()) => words_of(*insn, pc) is Ok && final(out)@ == old(out)@ + words_of(
                *insn,
                pc,
            )->Ok_0,
            Err(e) => words_of(*insn, pc) == Err::<Seq<RawInsn>, EncodeError>(e) && final(out)@
                == old(out)@,
        },
{
    match *insn {
        Insn::Alu { width, op, dst, src } => {
            let klass: u8 = if width.is_64() {
                0x07
            } else {
                0x04
            };
            if let AluOp::End(endian) = op {
                match src {
                    Operand::Reg(_) => {
                        return Err(EncodeError::InvalidEnd { pc });
                    },
                    Operand::Imm(k) => {
                        let be: u8 = match endian {
                            Endian::Be => 0x08,
                            Endian::Le => 0x00,
                        };
                        proof {
                            lemma_opcode_join(klass, 0xd, be);
                        }
                        out.push(
                            RawInsn {
                                opcode: klass | (0xdu8 << 4) | be,
                                regs: regs_byte(dst, Reg(0)),
                                offset: 0,
                                imm: k,
                            },
                        );
                    },
                }
            } else {
                let (src_bit, regs, imm) = operand_fields(dst, src);
                let nibble: u8 = alu_nibble(op);
                proof {
                    lemma_opcode_join(klass, nibble, src_bit);
                }
                out.push(
                    RawInsn { opcode: klass | (nibble << 4) | src_bit, regs, offset: 0, imm },
                );
            }
        },
        Insn::Load { size, dst, base, offset } => {
            let bits: u8 = size_bits(size);
            proof {
                lemma_mem_opcode_join(bits, 1);
            }
            out.push(
                RawInsn {
                    opcode: 0x60 | (bits << 3) | 0x01,
                    regs: regs_byte(dst, base),
                    offset,
                    imm: 0,
                },
            );
        },
        Insn::Store { size, base, offset, src } => {
            let klass: u8 = match src {
                Operand::Reg(_) => 0x03,
                Operand::Imm(_) => 0x02,
            };
            let (_, regs, imm) = operand_fields(base, src);
            let bits: u8 = size_bits(size);
            proof {
                lemma_mem_opcode_join(bits, klass);
            }
            out.push(RawInsn { opcode: 0x60 | (bits << 3) | klass, regs, offset, imm });
        },
        Insn::LoadImm64 { dst, imm } => {
            // The low half goes here and the high half to the next slot.
            let lo: u32 = (imm as u64) as u32;
            let hi: u32 = ((imm as u64) >> 32) as u32;
            out.push(
                RawInsn {
                    opcode: opcode::LD_IMM_DW,
                    regs: regs_byte(dst, Reg(0)),
                    offset: 0,
                    imm: lo as i32,
                },
            );
            out.push(RawInsn { opcode: 0x00, regs: 0x00, offset: 0, imm: hi as i32 });
        },
        Insn::Jump { width, op, dst, src, offset } => {
            if let JumpOp::Always = op {
                out.push(RawInsn { opcode: 0x05, regs: 0x00, offset, imm: 0 });
            } else {
                let klass: u8 = if width.is_64() {
                    0x05
                } else {
                    0x06
                };
                let (src_bit, regs, imm) = operand_fields(dst, src);
                // These nibbles with an immediate source are the dedicated
                // call and exit opcodes.
                if matches!(op, JumpOp::Call | JumpOp::Exit) && src_bit == 0x00 {
                    return Err(EncodeError::InvalidJump { pc });
                }
                let nibble: u8 = jump_nibble(op);
                proof {
                    lemma_opcode_join(klass, nibble, src_bit);
                }
                out.push(RawInsn { opcode: klass | (nibble << 4) | src_bit, regs, offset, imm });
            }
        },
        Insn::Call { func } => {
            out.push(
                RawInsn { opcode: opcode::JMP_CALL, regs: 0x00, offset: 0, imm: func as i32 },
            );
        },
        Insn::Exit => {
            out.push(RawInsn { opcode: opcode::JMP_EXIT, regs: 0, offset: 0, imm: 0 });
        },
        Insn::Unknown { .. } => {
            return Err(EncodeError::UnknownInstruction { pc });
        },
    }
    assert(final(out)@ =~= old(out)@ + words_of(*insn, pc)->Ok_0);
    Ok(())
}

/// Whether an instruction survives encoding unchanged: its registers are
/// valid, it is not unknown, it uses the source that its opcode can express,
/// and an unconditional jump carries nothing but its offset.
pub open spec fn canonical(insn: Insn) -> bool {
    insn.valid() && match insn {
        Insn::Alu { op, src, .. } => op is End ==> src is Imm,
        Insn::Jump { width, op, dst, src, .. } => {
            &&& op == JumpOp::Always ==> width == Width::B64 && dst == Reg(0) && src
                == Operand::Imm(0)
            &&& op == JumpOp::Call || op == JumpOp::Exit ==> src is Reg
        },
        Insn::Unknown { .. } => false,
        _ => true,
    }
}

/// A helper number comes back from its immediate.
pub proof fn lemma_call_code(func: u32)
    ensures
        (func as i32) as u32 == func,
        ((func as i32) as i64) as u32 == func,
{
    assert((func as i32) as u32 == func && ((func as i32) as i64) as u32 == func) by (bit_vector);
}

/// A wide immediate comes back from its halves.
pub proof fn lemma_wide_split(imm: i64)
    ensures
        wide_imm(((imm as u64) as u32) as i32, (((imm as u64) >> 32) as u32) as i32) == imm,
{
    assert(((((((imm as u64) as u32) as i32) as u32) as u64) | ((((((imm as u64)
        >> 32) as u32) as i32) as u32) as u64) << 32) as i64 == imm) by (bit_vector);
}

proof fn lemma_regs_split(dst: Reg, src: Reg)
    requires
        dst.valid(),
        src.valid(),
    ensures
        regs_code(dst, src) % 16 == dst.0,
        regs_code(dst, src) / 16 == src.0,
{
    lemma_regs_join(dst.0, src.0);
}

/// One canonical instruction decodes back from its words, whatever follows.
#[verifier::rlimit(40)]
#[verifier::spinoff_prover]
pub proof fn word_roundtrip(insn: Insn, pc: usize, tail: Seq<u8>)
    requires
        canonical(insn),
    ensures
        words_of(insn, pc) is Ok,
        words_of(insn, pc)->Ok_0.len() > 0,
        words_bytes(words_of(insn, pc)->Ok_0).len() <= 16,
        ({
            let words = words_of(insn, pc)->Ok_0;
            head_of(words[0], words_bytes(words) + tail) == Ok::<(Insn, usize), DecodeError>(
                (insn, words_bytes(words).len() as usize),
            )
        }),
{
    let words = words_of(insn, pc)->Ok_0;
    let raw = words[0];
    lemma_words_len(words);
    reveal_with_fuel(words_bytes, 3);
    match insn {
        Insn::Alu { dst, src, .. } => {
            if let Operand::Reg(r) = src {
                lemma_regs_split(dst, r);
            } else {
                lemma_regs_split(dst, Reg(0));
            }
        },
        Insn::Load { dst, base, .. } => {
            lemma_regs_split(dst, base);
        },
        Insn::Store { base, src, .. } => {
            if let Operand::Reg(r) = src {
                lemma_regs_split(base, r);
            } else {
                lemma_regs_split(base, Reg(0));
            }
        },
        Insn::LoadImm64 { dst, imm } => {
            lemma_regs_split(dst, Reg(0));
            lemma_wide_split(imm);
            let all = words_bytes(words) + tail;
            assert(words.drop_last() =~= seq![raw]);
            assert(seq![raw].drop_last() =~= Seq::<RawInsn>::empty());
            assert(words_bytes(words) =~= raw.bytes() + words[1].bytes());
            assert(all.subrange(8, 16) =~= words[1].bytes());
            raw_word_roundtrip(words[1]);
        },
        Insn::Jump { dst, src, op, .. } => {
            if let Operand::Reg(r) = src {
                lemma_regs_split(dst, r);
            } else {
                lemma_regs_split(dst, Reg(0));
            }
        },
        Insn::Call { func } => {
            lemma_call_code(func);
        },
        _ => {},
    }
}

proof fn lemma_words_len(words: Seq<RawInsn>)
    ensures
        words_bytes(words).len() == 8 * words.len(),
    decreases words.len(),
{
    if words.len() > 0 {
        lemma_words_len(words.drop_last());
    }
}

proof fn lemma_words_concat(a: Seq<RawInsn>, b: Seq<RawInsn>)
    ensures
        words_bytes(a + b) == words_bytes(a) + words_bytes(b),
    decreases b.len(),
{
    if b.len() == 0 {
        assert(a + b =~= a);
        assert(words_bytes(a) + words_bytes(b) =~= words_bytes(a));
    } else {
        lemma_words_concat(a, b.drop_last());
        assert((a + b).drop_last() =~= a + b.drop_last());
        assert(words_bytes(a + b) =~= words_bytes(a) + words_bytes(b));
    }
}

proof fn lemma_first_word(words: Seq<RawInsn>)
    requires
        words.len() > 0,
    ensures
        words_bytes(words).len() >= 8,
        words_bytes(words).subrange(0, 8) == words[0].bytes(),
    decreases words.len(),
{
    lemma_words_len(words);
    if words.len() == 1 {
        assert(words.drop_last() =~= Seq::<RawInsn>::empty());
        assert(words_bytes(words) =~= words[0].bytes());
        assert(words_bytes(words).subrange(0, 8) =~= words[0].bytes());
    } else {
        lemma_words_len(words.drop_last());
        lemma_first_word(words.drop_last());
        assert(words_bytes(words).subrange(0, 8) =~= words_bytes(words.drop_last()).subrange(0, 8));
    }
}

proof fn lemma_roundtrip_from(insns: Seq<Insn>, pc: nat)
    requires
        pc <= insns.len() <= usize::MAX,
        forall|i: int| 0 <= i < insns.len() ==> canonical(#[trigger] insns[i]),
    ensures
        words_from(insns, pc) is Ok,
        decoded(words_bytes(words_from(insns, pc)->Ok_0)) == Ok::<Seq<Insn>, DecodeError>(
            insns.skip(pc as int),
        ),
    decreases insns.len() - pc,
{
    if pc == insns.len() {
        assert(insns.skip(pc as int) =~= Seq::<Insn>::empty());
    } else {
        let insn = insns[pc as int];
        lemma_roundtrip_from(insns, pc + 1);
        let words = words_of(insn, pc as usize)->Ok_0;
        let rest = words_from(insns, pc + 1)->Ok_0;
        word_roundtrip(insn, pc as usize, words_bytes(rest));
        lemma_words_concat(words, rest);
        lemma_first_word(words);
        raw_word_roundtrip(words[0]);
        lemma_decode_step(words_bytes(words), words_bytes(rest), insn, insns.skip((pc + 1) as int));
        assert(seq![insn] + insns.skip((pc + 1) as int) =~= insns.skip(pc as int));
    }
}

/// Wire roundtrip: every program of canonical instructions encodes, and
/// decoding its bytes gives the program back.
pub proof fn wire_roundtrip(insns: Seq<Insn>)
    requires
        insns.len() <= usize::MAX,
        forall|i: int| 0 <= i < insns.len() ==> canonical(#[trigger] insns[i]),
    ensures
        encoded(insns) is Ok,
        decoded(encoded(insns)->Ok_0) == Ok::<Seq<Insn>, DecodeError>(insns),
{
    lemma_roundtrip_from(insns, 0);
    assert(insns.skip(0) =~= insns);
}

} // verus!
