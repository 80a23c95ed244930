//! The eBPF instruction set: the decoded instruction model and the codec of
//! its 8-byte wire format.
//!
//! [`decode::decode_program`] turns little-endian bytes into the
//! [`insn::Insn`] stream that every later stage works on, and
//! [`encode::encode_program`] is its inverse. A wide immediate load occupies
//! two 8-byte slots on the wire and decodes to a single instruction, so jump
//! offsets (counted in slots) and instruction indices can diverge.
pub mod alu;
pub mod alu_laws;
pub mod decode;
pub mod encode;
pub mod insn;
pub mod opcode;
pub mod wire_laws;

pub use decode::decode_program;
pub use encode::{encode_program, EncodeError};
pub use insn::{AluOp, DecodeError, Endian, Insn, JumpOp, MemSize, Operand, RawInsn, Reg, Width};
pub use opcode::LD_IMM_DW;
