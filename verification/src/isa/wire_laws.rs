//! The wire format: which fields of a word mean what.
//!
//! A word has eight bytes: the opcode, the registers, a 16-bit offset and a
//! 32-bit immediate, least significant byte first.
use vstd::prelude::*;

use crate::isa::alu_laws::{word32, word64};
use crate::isa::decode::{decoded, head_of};
use crate::isa::encode::{canonical, encoded, words_from, words_of, EncodeError};
use crate::isa::insn::{AluOp, DecodeError, Endian, Insn, JumpOp, MemSize, Operand, RawInsn, Reg, Width};
use crate::isa::opcode::lemma_regs_join;
use crate::slots::{slot_count, slot_of, width_of};

verus! {

/// The operations by the upper nibble of the opcode, up to the byte swaps.
pub open spec fn operations() -> Seq<AluOp> {
    seq![
        AluOp::Add,
        AluOp::Sub,
        AluOp::Mul,
        AluOp::Div,
        AluOp::Or,
        AluOp::And,
        AluOp::Lsh,
        AluOp::Rsh,
        AluOp::Neg,
        AluOp::Mod,
        AluOp::Xor,
        AluOp::Mov,
        AluOp::Arsh,
    ]
}

/// The comparisons by the upper nibble of the opcode.
pub open spec fn comparisons() -> Seq<JumpOp> {
    seq![
        JumpOp::Always,
        JumpOp::Eq,
        JumpOp::Gt,
        JumpOp::Ge,
        JumpOp::Jset,
        JumpOp::Ne,
        JumpOp::Sgt,
        JumpOp::Sge,
        JumpOp::Call,
        JumpOp::Exit,
        JumpOp::Lt,
        JumpOp::Le,
        JumpOp::Slt,
        JumpOp::Sle,
    ]
}

/// The access sizes by bits 3 and 4 of the opcode.
pub open spec fn sizes() -> Seq<MemSize> {
    seq![MemSize::W, MemSize::H, MemSize::B, MemSize::Dw]
}

/// Whether bit 3 of an opcode is set.
pub open spec fn bit3(opcode: u8) -> bool {
    opcode as int / 8 % 2 == 1
}

/// The operand that a word names.
pub open spec fn named(raw: RawInsn) -> Operand {
    if bit3(raw.opcode) {
        Operand::Reg(Reg((raw.regs / 16) as u8))
    } else {
        Operand::Imm(raw.imm)
    }
}

/// A decoded head of one word.
pub open spec fn one(insn: Insn) -> Result<(Insn, usize), DecodeError> {
    Ok((insn, 8))
}

/// How a word reads as an operation.
pub proof fn operations_decode(raw: RawInsn, rest: Seq<u8>)
    requires
        raw.opcode % 8 == 4 || raw.opcode % 8 == 7,
    ensures
        ({
            let nibble = raw.opcode as int / 16;
            let dst = Reg((raw.regs % 16) as u8);
            let width = if raw.opcode % 8 == 7 {
                Width::B64
            } else {
                Width::B32
            };
            let by = raw.regs / 16;
            &&& nibble > 13 ==> head_of(raw, rest) is Err
            &&& nibble == 13 ==> if dst.0 <= 10 {
                head_of(raw, rest) == one(
                    Insn::Alu {
                        width,
                        op: AluOp::End(
                            if bit3(raw.opcode) {
                                Endian::Be
                            } else {
                                Endian::Le
                            },
                        ),
                        dst,
                        src: Operand::Imm(raw.imm),
                    },
                )
            } else {
                head_of(raw, rest) is Err
            }
            &&& nibble < 13 ==> if dst.0 <= 10 && (bit3(raw.opcode) ==> by <= 10) {
                head_of(raw, rest) == one(Insn::Alu { width, op: operations()[nibble], dst, src: named(raw) })
            } else {
                head_of(raw, rest) is Err
            }
        }),
{
}

/// How a word reads as a jump, an exit or a call.
pub proof fn jumps_decode(raw: RawInsn, rest: Seq<u8>)
    requires
        raw.opcode % 8 == 5 || raw.opcode % 8 == 6,
    ensures
        ({
            let nibble = raw.opcode as int / 16;
            let dst = Reg((raw.regs % 16) as u8);
            let width = if raw.opcode % 8 == 5 {
                Width::B64
            } else {
                Width::B32
            };
            let by = raw.regs / 16;
            if raw.opcode == 0x95 {
                head_of(raw, rest) == one(Insn::Exit)
            } else if raw.opcode == 0x85 {
                head_of(raw, rest) matches Ok((Insn::Call { func }, used)) && used == 8 && func == word32(
                    raw.imm as i64,
                )
            } else if nibble < 14 && dst.0 <= 10 && (bit3(raw.opcode) ==> by <= 10) {
                head_of(raw, rest) == one(
                    Insn::Jump { width, op: comparisons()[nibble], dst, src: named(raw), offset: raw.offset },
                )
            } else {
                head_of(raw, rest) is Err
            }
        }),
{
    crate::isa::alu_laws::lemma_casts(raw.imm as i64);
}

/// How a word reads as a memory access or a wide load.
pub proof fn accesses_decode(raw: RawInsn, rest: Seq<u8>)
    requires
        raw.opcode % 8 <= 3,
    ensures
        ({
            let size = sizes()[raw.opcode as int / 8 % 4];
            let low = Reg((raw.regs % 16) as u8);
            let high = Reg((raw.regs / 16) as u8);
            let offset = raw.offset;
            let r = head_of(raw, rest);
            &&& raw.opcode % 8 == 1 ==> if low.0 <= 10 && high.0 <= 10 {
                r == one(Insn::Load { size, dst: low, base: high, offset })
            } else {
                r is Err
            }
            &&& raw.opcode % 8 == 2 ==> if low.0 <= 10 {
                r == one(Insn::Store { size, base: low, offset, src: Operand::Imm(raw.imm) })
            } else {
                r is Err
            }
            &&& raw.opcode % 8 == 3 ==> if low.0 <= 10 && high.0 <= 10 {
                r == one(Insn::Store { size, base: low, offset, src: Operand::Reg(high) })
            } else {
                r is Err
            }
            &&& raw.opcode == 0x18 ==> if rest.len() < 16 {
                r == Err::<(Insn, usize), DecodeError>(DecodeError::TruncatedWide)
            } else if low.0 <= 10 {
                r matches Ok((Insn::LoadImm64 { dst, imm }, used)) && used == 16 && dst == low && word64(imm)
                    == word32(raw.imm as i64) + 0x1_0000_0000 * word32(
                    RawInsn::of_bytes(rest.subrange(8, 16)).imm as i64,
                )
            } else {
                r is Err
            }
            &&& raw.opcode % 8 == 0 && raw.opcode != 0x18 ==> r == one(Insn::Unknown { raw })
        }),
{
    if raw.opcode == 0x18 && rest.len() >= 16 {
        let hi = RawInsn::of_bytes(rest.subrange(8, 16)).imm;
        lemma_wide(raw.imm, hi);
    }
}

proof fn lemma_wide(lo: i32, hi: i32)
    ensures
        word64(crate::isa::decode::wide_imm(lo, hi)) == word32(lo as i64) + 0x1_0000_0000 * word32(hi as i64),
{
    let (x, y) = (lo as u32, hi as u32);
    assert(((x as u64) | ((y as u64) << 32)) == x + 0x1_0000_0000 * y && (lo as i64) as u32 == x && (hi as i64) as u32
        == y) by (bit_vector)
        requires
            x == lo as u32,
            y == hi as u32,
    ;
    crate::isa::alu_laws::lemma_casts(lo as i64);
    crate::isa::alu_laws::lemma_casts(hi as i64);
    crate::isa::alu_laws::lemma_word_casts((x as u64) | ((y as u64) << 32), 0);
}

/// The bytes of a word, and what its fields are in them.
pub proof fn words_are_little_endian(raw: RawInsn)
    ensures
        raw.bytes().len() == 8,
        raw.bytes()[0] == raw.opcode,
        raw.bytes()[1] == raw.regs,
        (raw.offset - (raw.bytes()[2] + 0x100 * raw.bytes()[3])) % 0x1_0000 == 0,
        (raw.imm - (raw.bytes()[4] + 0x100 * raw.bytes()[5] + 0x1_0000 * raw.bytes()[6] + 0x100_0000 * raw.bytes()[7]))
            % 0x1_0000_0000 == 0,
{
    let (o, i) = (raw.offset, raw.imm);
    let (u, v) = (o as u16, i as u32);
    let (a, b) = ((u & 0xff) as u8, (u >> 8) as u8);
    let (c, d, e, f) = (
        (v & 0xff) as u8,
        ((v >> 8) & 0xff) as u8,
        ((v >> 16) & 0xff) as u8,
        (v >> 24) as u8,
    );
    assert(u == a + 0x100 * b && v == c + 0x100 * d + 0x1_0000 * e + 0x100_0000 * f && (o >= 0 ==> u == o) && (o < 0
        ==> u == o + 0x1_0000) && (i >= 0 ==> v == i) && (i < 0 ==> v == i + 0x1_0000_0000)) by (bit_vector)
        requires
            u == o as u16,
            v == i as u32,
            a == (u & 0xff) as u8,
            b == (u >> 8) as u8,
            c == (v & 0xff) as u8,
            d == ((v >> 8) & 0xff) as u8,
            e == ((v >> 16) & 0xff) as u8,
            f == (v >> 24) as u8,
    ;
}

/// The fields of the words of an instruction. What an instruction does not
/// use is zero.
pub proof fn instructions_encode(insn: Insn, pc: usize)
    requires
        canonical(insn),
    ensures
        words_of(insn, pc) matches Ok(words) && words.len() == width_of(insn) && ({
            let w = words[0];
            let nibble = w.opcode as int / 16;
            match insn {
                Insn::Alu { width, op, dst, src } => {
                    &&& w.opcode % 8 == (if width == Width::B64 {
                        7int
                    } else {
                        4
                    })
                    &&& w.offset == 0
                    &&& if op is End {
                        nibble == 13 && bit3(w.opcode) == (op == AluOp::End(Endian::Be)) && w.regs == dst.0
                            && src == Operand::Imm(w.imm)
                    } else {
                        nibble < 13 && operations()[nibble] == op && fits(w, dst, src)
                    }
                },
                Insn::Load { size, dst, base, offset } => {
                    &&& w.opcode % 8 == 1 && nibble / 2 == 3 && sizes()[w.opcode as int / 8 % 4] == size
                    &&& w.regs == dst.0 + 16 * base.0 && w.offset == offset && w.imm == 0
                },
                Insn::Store { size, base, offset, src } => {
                    &&& nibble / 2 == 3 && sizes()[w.opcode as int / 8 % 4] == size && w.offset == offset
                    &&& match src {
                        Operand::Reg(r) => w.opcode % 8 == 3 && w.regs == base.0 + 16 * r.0 && w.imm == 0,
                        Operand::Imm(k) => w.opcode % 8 == 2 && w.regs == base.0 && w.imm == k,
                    }
                },
                Insn::LoadImm64 { dst, imm } => {
                    &&& w.opcode == 0x18 && w.regs == dst.0 && w.offset == 0
                    &&& words[1].opcode == 0 && words[1].regs == 0 && words[1].offset == 0
                    &&& word64(imm) == word32(w.imm as i64) + 0x1_0000_0000 * word32(words[1].imm as i64)
                },
                Insn::Jump { width, op, dst, src, offset } => {
                    &&& w.opcode % 8 == (if width == Width::B64 {
                        5int
                    } else {
                        6
                    })
                    &&& nibble < 14 && comparisons()[nibble] == op && fits(w, dst, src) && w.offset == offset
                },
                Insn::Call { func } => w.opcode == 0x85 && w.regs == 0 && w.offset == 0 && word32(w.imm as i64) == func,
                Insn::Exit => w.opcode == 0x95 && w.regs == 0 && w.offset == 0 && w.imm == 0,
                _ => false,
            }
        }),
{
    match insn {
        Insn::Alu { dst, src, .. } => lemma_join(dst, src),
        Insn::Load { dst, base, .. } => lemma_join(dst, Operand::Reg(base)),
        Insn::Store { base, src, .. } => lemma_join(base, src),
        Insn::LoadImm64 { dst, imm } => {
            lemma_join(dst, Operand::Imm(0));
            let words = words_of(insn, pc)->Ok_0;
            crate::isa::encode::lemma_wide_split(imm);
            lemma_wide(words[0].imm, words[1].imm);
        },
        Insn::Jump { dst, src, .. } => lemma_join(dst, src),
        Insn::Call { func } => {
            crate::isa::encode::lemma_call_code(func);
            crate::isa::alu_laws::lemma_casts((func as i32) as i64);
        },
        _ => {},
    }
}

/// Whether a word names two operands.
pub open spec fn fits(w: RawInsn, dst: Reg, src: Operand) -> bool {
    match src {
        Operand::Reg(r) => bit3(w.opcode) && w.regs == dst.0 + 16 * r.0 && w.imm == 0,
        Operand::Imm(k) => !bit3(w.opcode) && w.regs == dst.0 && w.imm == k,
    }
}

proof fn lemma_join(dst: Reg, src: Operand)
    requires
        dst.valid(),
        src matches Operand::Reg(r) ==> r.valid(),
    ensures
        crate::isa::encode::regs_code(dst, Reg(0)) == dst.0,
        src matches Operand::Reg(r) ==> crate::isa::encode::regs_code(dst, r) == dst.0 + 16 * r.0,
{
    lemma_regs_join(dst.0, 0);
    if let Operand::Reg(r) = src {
        lemma_regs_join(dst.0, r.0);
    }
}

/// Which instructions have no encoding.
pub proof fn encoding_refusals(insn: Insn, pc: usize)
    ensures
        words_of(insn, pc) is Err <==> match insn {
            Insn::Alu { op, src, .. } => op is End && src is Reg,
            Insn::Jump { op, src, .. } => (op == JumpOp::Call || op == JumpOp::Exit) && src is Imm,
            Insn::Unknown { .. } => true,
            _ => false,
        },
        words_of(insn, pc) matches Err(e) ==> match insn {
            Insn::Alu { .. } => e == (EncodeError::InvalidEnd { pc }),
            Insn::Jump { .. } => e == (EncodeError::InvalidJump { pc }),
            _ => e == (EncodeError::UnknownInstruction { pc }),
        },
{
}

proof fn lemma_first_refusal(insns: Seq<Insn>, pc: nat)
    requires
        insns.len() <= usize::MAX,
    ensures
        match words_from(insns, pc) {
            Ok(_) => forall|k: int| pc <= k < insns.len() ==> words_of(#[trigger] insns[k], k as usize) is Ok,
            Err(e) => exists|k: int|
                pc <= k < insns.len() && words_of(#[trigger] insns[k], k as usize) == Err::<Seq<RawInsn>, EncodeError>(e)
                    && forall|j: int| pc <= j < k ==> words_of(#[trigger] insns[j], j as usize) is Ok,
        },
    decreases insns.len() - pc,
{
    if pc < insns.len() {
        lemma_first_refusal(insns, pc + 1);
        if let Err(e) = words_from(insns, pc) {
            if words_of(insns[pc as int], pc as usize) is Ok {
                let k = choose|k: int|
                    pc + 1 <= k < insns.len() && words_of(#[trigger] insns[k], k as usize) == Err::<
                        Seq<RawInsn>,
                        EncodeError,
                    >(e) && forall|j: int| pc + 1 <= j < k ==> words_of(#[trigger] insns[j], j as usize) is Ok;
                assert(words_of(insns[k], k as usize) is Err);
            }
        }
    }
}

/// A program is encoded unless an instruction has no encoding; the first such
/// one is reported.
pub proof fn first_refusal_is_reported(insns: Seq<Insn>)
    requires
        insns.len() <= usize::MAX,
    ensures
        match encoded(insns) {
            Ok(_) => forall|k: int| 0 <= k < insns.len() ==> words_of(#[trigger] insns[k], k as usize) is Ok,
            Err(e) => exists|k: int|
                0 <= k < insns.len() && words_of(#[trigger] insns[k], k as usize) == Err::<Seq<RawInsn>, EncodeError>(e)
                    && forall|j: int| 0 <= j < k ==> words_of(#[trigger] insns[j], j as usize) is Ok,
        },
{
    lemma_first_refusal(insns, 0);
}

proof fn lemma_slots_shift(insn: Insn, rest: Seq<Insn>, n: nat)
    requires
        n <= rest.len(),
    ensures
        slot_of(seq![insn] + rest, n + 1) == width_of(insn) + slot_of(rest, n),
    decreases n,
{
    let all = seq![insn] + rest;
    if n == 0 {
        assert(slot_of(all, 0) == 0);
        assert(all[0] == insn);
        assert(slot_of(all, 1) == slot_of(all, 0) + width_of(all[0]));
    } else {
        lemma_slots_shift(insn, rest, (n - 1) as nat);
        assert(all[n as int] == rest[n - 1]);
    }
}

/// A decoded program has as many slots as there are words. Bytes that are no
/// whole number of words are refused, and so is a program with a word that is.
pub proof fn every_word_counts(bytes: Seq<u8>)
    ensures
        decoded(bytes) matches Ok(insns) ==> 8 * slot_count(insns) == bytes.len(),
        bytes.len() % 8 != 0 ==> decoded(bytes) is Err,
        bytes.len() >= 8 ==> match head_of(RawInsn::of_bytes(bytes.subrange(0, 8)), bytes) {
            Err(e) => decoded(bytes) == Err::<Seq<Insn>, DecodeError>(e),
            Ok((insn, used)) => match decoded(bytes.skip(used as int)) {
                Ok(rest) => decoded(bytes) == Ok::<Seq<Insn>, DecodeError>(seq![insn] + rest),
                Err(e) => decoded(bytes) == Err::<Seq<Insn>, DecodeError>(e),
            },
        },
    decreases bytes.len(),
{
    if bytes.len() >= 8 {
        if let Ok((insn, used)) = head_of(RawInsn::of_bytes(bytes.subrange(0, 8)), bytes) {
            assert(used == 8 * width_of(insn));
            every_word_counts(bytes.skip(used as int));
            if let Ok(rest) = decoded(bytes.skip(used as int)) {
                lemma_slots_shift(insn, rest, rest.len());
            }
        }
    }
}

} // verus!
