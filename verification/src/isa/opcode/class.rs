//! Instruction classes (low three bits of an opcode).
use vstd::prelude::*;

verus! {

/// Immediate, absolute and indirect loads.
pub const LD: u8 = 0x00;

/// Register-indirect loads.
pub const LDX: u8 = 0x01;

/// Immediate stores.
pub const ST: u8 = 0x02;

/// Register stores.
pub const STX: u8 = 0x03;

/// 32-bit ALU operations.
pub const ALU: u8 = 0x04;

/// 64-bit jumps, calls and exits.
pub const JMP: u8 = 0x05;

/// 32-bit jumps.
pub const JMP32: u8 = 0x06;

/// 64-bit ALU operations.
pub const ALU64: u8 = 0x07;

} // verus!
