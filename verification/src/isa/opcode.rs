//! Opcode class constants and helpers.
//!
//! The low three bits of an opcode are the instruction class, bit 3 selects
//! an immediate or a register source for ALU and jump opcodes, and the upper
//! nibble selects the operation.
use vstd::prelude::*;

pub mod class;

verus! {

/// The 16-byte wide immediate load.
pub const LD_IMM_DW: u8 = 0x18;

/// Helper call.
pub const JMP_CALL: u8 = 0x85;

/// Program exit.
pub const JMP_EXIT: u8 = 0x95;

/// Bit 3 of an opcode: set for a register source.
pub open spec fn source_bit(opcode: u8) -> bool {
    (opcode / 8) % 2 == 1
}

/// Returns `true` when an ALU or jump opcode uses an immediate source operand.
pub fn is_imm_source(opcode: u8) -> (r: bool)
    ensures
        r == !source_bit(opcode),
{
    proof {
        lemma_opcode_fields(opcode);
    }
    opcode & 0x08 == 0
}

/// Returns the instruction class (low three bits).
pub fn klass(opcode: u8) -> (r: u8)
    ensures
        r == opcode % 8,
{
    proof {
        lemma_opcode_fields(opcode);
    }
    opcode & 0x07
}

/// The bit fields of an opcode as arithmetic on its value.
pub proof fn lemma_opcode_fields(opcode: u8)
    by (bit_vector)
    ensures
        opcode & 0x07 == opcode % 8,
        (opcode & 0x08 == 0) == ((opcode / 8) % 2 == 0),
        (opcode & 0x08 != 0) == ((opcode / 8) % 2 == 1),
        opcode >> 4 == opcode / 16,
        (opcode >> 4) & 0x0f == opcode / 16,
        opcode & 0x0f == opcode % 16,
        (opcode >> 3) & 0x03 == (opcode / 8) % 4,
{
}

/// An opcode assembled with `|` from its fields is their sum.
pub proof fn lemma_opcode_join(low: u8, nibble: u8, bit: u8)
    by (bit_vector)
    requires
        low < 8,
        nibble < 16,
        bit == 0 || bit == 8,
    ensures
        (low | (nibble << 4)) | bit == low + nibble * 16 + bit,
{
}

/// A register byte assembled with `|` from two nibbles is their sum.
pub proof fn lemma_regs_join(dst: u8, src: u8)
    by (bit_vector)
    requires
        dst < 16,
        src < 16,
    ensures
        (src << 4) | dst == dst + src * 16,
{
}

/// A memory opcode assembled with `|` from its fields is their sum.
pub proof fn lemma_mem_opcode_join(size: u8, low: u8)
    by (bit_vector)
    requires
        low < 8,
        size < 4,
    ensures
        (0x60 | (size << 3)) | low == 0x60 + size * 8 + low,
{
}

} // verus!
