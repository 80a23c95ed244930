//! Bytecode to [`Insn`] decoder.
use vstd::prelude::*;
use vstd::slice::slice_subrange;

use crate::isa::insn::{AluOp, DecodeError, Insn, JumpOp, MemSize, Operand, RawInsn, Reg, Width};
use crate::isa::opcode;
use crate::isa::opcode::class;

verus! {

/// The register with a raw number, as a step of decoding.
pub open spec fn reg_or_error(n: u8) -> Result<Reg, DecodeError> {
    match Reg::of(n) {
        Ok(r) => Ok(r),
        Err(e) => Err(DecodeError::BadReg(e)),
    }
}

/// The ALU or jump operand of a raw word.
pub open spec fn operand_of(raw: RawInsn) -> Result<Operand, DecodeError> {
    if opcode::source_bit(raw.opcode) {
        match reg_or_error(raw.regs / 16) {
            Ok(r) => Ok(Operand::Reg(r)),
            Err(e) => Err(e),
        }
    } else {
        Ok(Operand::Imm(raw.imm))
    }
}

/// The 64-bit immediate whose low and high words are given.
pub open spec fn wide_imm(lo: i32, hi: i32) -> i64 {
    (((lo as u32) as u64) | (((hi as u32) as u64) << 32)) as i64
}

/// The instruction of a raw word of any opcode but the exit, call and wide
/// load ones.
pub open spec fn word_of(raw: RawInsn) -> Result<Insn, DecodeError> {
    let klass = raw.opcode % 8;
    let dst = reg_or_error((raw.regs % 16) as u8);
    let src = reg_or_error(raw.regs / 16);
    let size = MemSize::of_opcode(raw.opcode);
    if klass == class::ALU64 || klass == class::ALU {
        let width = if klass == class::ALU64 {
            Width::B64
        } else {
            Width::B32
        };
        match AluOp::of_opcode(raw.opcode) {
            Err(e) => Err(e),
            Ok(op) => {
                let operand = if op is End {
                    Ok(Operand::Imm(raw.imm))
                } else {
                    operand_of(raw)
                };
                match (operand, dst) {
                    (Err(e), _) => Err(e),
                    (_, Err(e)) => Err(e),
                    (Ok(src), Ok(dst)) => Ok(Insn::Alu { width, op, dst, src }),
                }
            },
        }
    } else if klass == class::JMP || klass == class::JMP32 {
        let width = if klass == class::JMP {
            Width::B64
        } else {
            Width::B32
        };
        match (JumpOp::of_opcode(raw.opcode), operand_of(raw), dst) {
            (Err(e), _, _) => Err(e),
            (_, Err(e), _) => Err(e),
            (_, _, Err(e)) => Err(e),
            (Ok(op), Ok(src), Ok(dst)) => Ok(
                Insn::Jump { width, op, dst, src, offset: raw.offset },
            ),
        }
    } else if klass == class::LDX {
        match (dst, src) {
            (Err(e), _) => Err(e),
            (_, Err(e)) => Err(e),
            (Ok(dst), Ok(base)) => Ok(Insn::Load { size, dst, base, offset: raw.offset }),
        }
    } else if klass == class::ST {
        match dst {
            Err(e) => Err(e),
            Ok(base) => Ok(
                Insn::Store { size, base, offset: raw.offset, src: Operand::Imm(raw.imm) },
            ),
        }
    } else if klass == class::STX {
        match (src, dst) {
            (Err(e), _) => Err(e),
            (_, Err(e)) => Err(e),
            (Ok(r), Ok(base)) => Ok(
                Insn::Store { size, base, offset: raw.offset, src: Operand::Reg(r) },
            ),
        }
    } else {
        Ok(Insn::Unknown { raw })
    }
}

/// The first instruction of `rest`, whose first word is `raw`, and the number
/// of bytes it takes.
pub open spec fn head_of(raw: RawInsn, rest: Seq<u8>) -> Result<(Insn, usize), DecodeError> {
    if raw.opcode == opcode::JMP_EXIT {
        Ok((Insn::Exit, 8))
    } else if raw.opcode == opcode::JMP_CALL {
        Ok((Insn::Call { func: raw.imm as u32 }, 8))
    } else if raw.opcode == opcode::LD_IMM_DW {
        if rest.len() < 16 {
            Err(DecodeError::TruncatedWide)
        } else {
            let next = RawInsn::of_bytes(rest.subrange(8, 16));
            match reg_or_error((raw.regs % 16) as u8) {
                Err(e) => Err(e),
                Ok(dst) => Ok((Insn::LoadImm64 { dst, imm: wide_imm(raw.imm, next.imm) }, 16)),
            }
        }
    } else {
        match word_of(raw) {
            Err(e) => Err(e),
            Ok(insn) => Ok((insn, 8)),
        }
    }
}

/// The program that a byte sequence holds.
pub open spec fn decoded(bytes: Seq<u8>) -> Result<Seq<Insn>, DecodeError>
    decreases bytes.len(),
{
    if bytes.len() == 0 {
        Ok(Seq::empty())
    } else if bytes.len() < 8 {
        Err(DecodeError::Truncated { remaining: bytes.len() as usize })
    } else {
        match head_of(RawInsn::of_bytes(bytes.subrange(0, 8)), bytes) {
            Err(e) => Err(e),
            Ok((insn, used)) => {
                if used == 0 || used > bytes.len() {
                    Err(DecodeError::TruncatedWide)
                } else {
                    match decoded(bytes.skip(used as int)) {
                        Err(e) => Err(e),
                        Ok(rest) => Ok(seq![insn] + rest),
                    }
                }
            },
        }
    }
}

/// The eight bytes of `bytes` that start at `at`.
fn chunk(bytes: &[u8], at: usize) -> (c: [u8; 8])
    requires
        at + 8 <= bytes@.len(),
    ensures
        c@ == bytes@.subrange(at as int, at + 8),
{
    let c: [u8; 8] = [
        bytes[at],
        bytes[at + 1],
        bytes[at + 2],
        bytes[at + 3],
        bytes[at + 4],
        bytes[at + 5],
        bytes[at + 6],
        bytes[at + 7],
    ];
    assert(c@ =~= bytes@.subrange(at as int, at + 8));
    c
}

/// Decodes a whole program from raw bytes.
///
/// The byte length must be a multiple of 8; a trailing partial slot is an
/// error. A wide load consumes two slots and yields one instruction.
pub fn decode_program(bytes: &[u8]) -> (r: Result<Vec<Insn>, DecodeError>)
    ensures
        match r {
            Ok(insns) => decoded(bytes@) == Ok::<Seq<Insn>, DecodeError>(insns@),
            Err(e) => decoded(bytes@) == Err::<Seq<Insn>, DecodeError>(e),
        },
{
    let mut out: Vec<Insn> = Vec::new();
    let mut i: usize = 0;
    assert(bytes@.skip(0) =~= bytes@);
    assert(out@ =~= Seq::<Insn>::empty());
    proof {
        lemma_prepend_nothing(decoded(bytes@));
    }
    while i < bytes.len()
        invariant
            i <= bytes@.len(),
            decoded(bytes@) == prepend(out@, decoded(bytes@.skip(i as int))),
        decreases bytes@.len() - i,
    {
        let ghost rest = bytes@.skip(i as int);
        let remaining: usize = bytes.len() - i;
        if remaining < 8 {
            return Err(DecodeError::Truncated { remaining });
        }
        let raw = RawInsn::from_bytes(&chunk(bytes, i));
        assert(rest.subrange(0, 8) =~= bytes@.subrange(i as int, i + 8));
        let tail = slice_subrange(bytes, i, bytes.len());
        assert(tail@ =~= rest);
        match decode_one(raw, tail) {
            Err(e) => {
                return Err(e);
            },
            Ok((insn, consumed)) => {
                assert(rest.skip(consumed as int) =~= bytes@.skip(i + consumed));
                proof {
                    lemma_prepend_one(out@, insn, decoded(rest.skip(consumed as int)));
                }
                out.push(insn);
                i = i + consumed;
            },
        }
    }
    assert(bytes@.skip(i as int).len() == 0);
    assert(out@ + Seq::<Insn>::empty() =~= out@);
    Ok(out)
}

/// A decoding result with instructions put in front of it.
pub open spec fn prepend(front: Seq<Insn>, r: Result<Seq<Insn>, DecodeError>) -> Result<
    Seq<Insn>,
    DecodeError,
> {
    match r {
        Ok(rest) => Ok(front + rest),
        Err(e) => Err(e),
    }
}

proof fn lemma_prepend_nothing(r: Result<Seq<Insn>, DecodeError>)
    ensures
        prepend(Seq::empty(), r) == r,
{
    if let Ok(rest) = r {
        assert(Seq::<Insn>::empty() + rest =~= rest);
    }
}

proof fn lemma_prepend_one(front: Seq<Insn>, insn: Insn, r: Result<Seq<Insn>, DecodeError>)
    ensures
        prepend(front, prepend(seq![insn], r)) == prepend(front.push(insn), r),
{
    if let Ok(rest) = r {
        assert(front + (seq![insn] + rest) =~= front.push(insn) + rest);
    }
}

/// Decodes a register number.
fn decode_reg(n: u8) -> (r: Result<Reg, DecodeError>)
    ensures
        r == reg_or_error(n),
{
    match Reg::new(n) {
        Ok(reg) => Ok(reg),
        Err(e) => Err(DecodeError::BadReg(e)),
    }
}

/// Decodes a single instruction; gives it with the bytes consumed (8 or 16).
fn decode_one(raw: RawInsn, rest: &[u8]) -> (r: Result<(Insn, usize), DecodeError>)
    requires
        rest@.len() >= 8,
    ensures
        r == head_of(raw, rest@),
        r matches Ok((_, used)) ==> 8 <= used <= rest@.len(),
{
    if raw.opcode == opcode::JMP_EXIT {
        return Ok((Insn::Exit, RawInsn::SIZE));
    }
    if raw.opcode == opcode::JMP_CALL {
        return Ok((Insn::Call { func: raw.imm as u32 }, RawInsn::SIZE));
    }
    if raw.opcode == opcode::LD_IMM_DW {
        if rest.len() < 16 {
            return Err(DecodeError::TruncatedWide);
        }
        let next = RawInsn::from_bytes(&chunk(rest, 8));
        let imm: i64 = (((raw.imm as u32) as u64) | (((next.imm as u32) as u64) << 32)) as i64;
        return match decode_reg(raw.dst()) {
            Ok(dst) => Ok((Insn::LoadImm64 { dst, imm }, 16)),
            Err(e) => Err(e),
        };
    }
    let klass: u8 = opcode::klass(raw.opcode);
    if klass == class::ALU64 || klass == class::ALU {
        let width = if klass == class::ALU64 {
            Width::B64
        } else {
            Width::B32
        };
        let op = match AluOp::from_opcode(raw.opcode) {
            Ok(op) => op,
            Err(e) => {
                return Err(e);
            },
        };
        // A byte swap reuses the source bit as its direction, so its operand
        // is always the immediate width.
        let operand = match op {
            AluOp::End(_) => Ok(Operand::Imm(raw.imm)),
            _ => decode_operand(raw),
        };
        let src = match operand {
            Ok(src) => src,
            Err(e) => {
                return Err(e);
            },
        };
        match decode_reg(raw.dst()) {
            Ok(dst) => Ok((Insn::Alu { width, op, dst, src }, RawInsn::SIZE)),
            Err(e) => Err(e),
        }
    } else if klass == class::JMP || klass == class::JMP32 {
        let width = if klass == class::JMP {
            Width::B64
        } else {
            Width::B32
        };
        let op = match JumpOp::from_opcode(raw.opcode) {
            Ok(op) => op,
            Err(e) => {
                return Err(e);
            },
        };
        let src = match decode_operand(raw) {
            Ok(src) => src,
            Err(e) => {
                return Err(e);
            },
        };
        match decode_reg(raw.dst()) {
            Ok(dst) => Ok((Insn::Jump { width, op, dst, src, offset: raw.offset }, RawInsn::SIZE)),
            Err(e) => Err(e),
        }
    } else if klass == class::LDX {
        let size = match MemSize::from_opcode(raw.opcode) {
            Ok(size) => size,
            Err(e) => {
                return Err(e);
            },
        };
        let dst = match decode_reg(raw.dst()) {
            Ok(dst) => dst,
            Err(e) => {
                return Err(e);
            },
        };
        match decode_reg(raw.src()) {
            Ok(base) => Ok((Insn::Load { size, dst, base, offset: raw.offset }, RawInsn::SIZE)),
            Err(e) => Err(e),
        }
    } else if klass == class::ST || klass == class::STX {
        let size = match MemSize::from_opcode(raw.opcode) {
            Ok(size) => size,
            Err(e) => {
                return Err(e);
            },
        };
        let src = if klass == class::ST {
            Operand::Imm(raw.imm)
        } else {
            match decode_reg(raw.src()) {
                Ok(r) => Operand::Reg(r),
                Err(e) => {
                    return Err(e);
                },
            }
        };
        match decode_reg(raw.dst()) {
            Ok(base) => Ok((Insn::Store { size, base, offset: raw.offset, src }, RawInsn::SIZE)),
            Err(e) => Err(e),
        }
    } else {
        // Unknown class: the raw word is preserved so that later stages can
        // report the exact position.
        Ok((Insn::Unknown { raw }, RawInsn::SIZE))
    }
}

/// Chooses register or immediate source for ALU and jump operands.
fn decode_operand(raw: RawInsn) -> (r: Result<Operand, DecodeError>)
    ensures
        r == operand_of(raw),
{
    if opcode::is_imm_source(raw.opcode) {
        Ok(Operand::Imm(raw.imm))
    } else {
        match decode_reg(raw.src()) {
            Ok(r) => Ok(Operand::Reg(r)),
            Err(e) => Err(e),
        }
    }
}

/// The instruction at the head of a byte sequence names valid registers only.
pub proof fn head_is_valid(raw: RawInsn, rest: Seq<u8>)
    ensures
        head_of(raw, rest) matches Ok((insn, _)) ==> insn.valid(),
{
}

/// Every instruction of a decoded program names valid registers only.
pub proof fn decoded_is_valid(bytes: Seq<u8>)
    ensures
        decoded(bytes) matches Ok(insns) ==> forall|i: int|
            0 <= i < insns.len() ==> (#[trigger] insns[i]).valid(),
    decreases bytes.len(),
{
    if bytes.len() >= 8 {
        let raw = RawInsn::of_bytes(bytes.subrange(0, 8));
        head_is_valid(raw, bytes);
        if let Ok((insn, used)) = head_of(raw, bytes) {
            if used != 0 && used <= bytes.len() {
                decoded_is_valid(bytes.skip(used as int));
            }
        }
    }
}

/// A single slot that is no wide load decodes to exactly one instruction or
/// to an error.
pub proof fn single_slot_length_stable(bytes: Seq<u8>)
    requires
        bytes.len() == 8,
        bytes[0] != opcode::LD_IMM_DW,
    ensures
        decoded(bytes) matches Ok(insns) ==> insns.len() == 1,
{
    let raw = RawInsn::of_bytes(bytes.subrange(0, 8));
    assert(bytes.subrange(0, 8) =~= bytes);
    if let Ok((insn, used)) = head_of(raw, bytes) {
        assert(bytes.skip(used as int).len() == 0);
        assert(decoded(bytes.skip(used as int)) == Ok::<Seq<Insn>, DecodeError>(Seq::empty()));
    }
}

/// Decoding bytes whose head is one instruction and whose tail is a program.
pub proof fn lemma_decode_step(head: Seq<u8>, tail: Seq<u8>, insn: Insn, rest: Seq<Insn>)
    requires
        8 <= head.len() <= usize::MAX,
        head_of(RawInsn::of_bytes(head.subrange(0, 8)), head + tail) == Ok::<
            (Insn, usize),
            DecodeError,
        >((insn, head.len() as usize)),
        decoded(tail) == Ok::<Seq<Insn>, DecodeError>(rest),
    ensures
        decoded(head + tail) == Ok::<Seq<Insn>, DecodeError>(seq![insn] + rest),
{
    let all = head + tail;
    assert(all.subrange(0, 8) =~= head.subrange(0, 8));
    assert(all.skip(head.len() as int) =~= tail);
}

} // verus!
