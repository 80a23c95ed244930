//! Abstract interpretation of programs over intervals.
//!
//! Walks every reachable instruction without executing it and accepts or
//! rejects the program. Register values are tracked as [`state::Range`]s;
//! loops converge because a block that is merged too often widens; known
//! helpers are typed by [`helpers::HelperSignature`]s, and unknown helpers
//! are rejected.
use vstd::prelude::*;
use vstd::string::StringExecFns;

use crate::text::{int_text, nat_text, push_int, push_nat};
use crate::verify::trace::TraceEntry;

pub mod access;
pub mod helpers;
pub mod lattice;
pub mod laws;
pub mod meaning;
pub mod precision;
pub mod refine;
pub mod sound;
pub mod state;
pub mod trace;
pub mod transfer;
pub mod walk;

verus! {

/// A program that was accepted.
#[derive(Debug)]
pub struct VerifiedProgram {
    /// Snapshots of the visited instructions, where they were asked for.
    pub trace: Vec<TraceEntry>,
    /// Number of distinct instructions that were visited.
    pub total_pc: usize,
}

/// Why a program is rejected.
#[derive(Debug, Clone, Copy, PartialEq, Eq)]
#[non_exhaustive]
#[allow(inconsistent_fields)]
pub enum VerifyError {
    /// A register is used before it is written.
    UninitRegister {
        /// Instruction index.
        pc: usize,
        /// Register number.
        reg: u8,
    },
    /// A register has the wrong type.
    TypeMismatch {
        /// Instruction index.
        pc: usize,
        /// Register number.
        register: u8,
        /// What was expected.
        expected: &'static str,
        /// What was found.
        found: &'static str,
    },
    /// A stack access leaves the stack.
    StackOverflow {
        /// Instruction index.
        pc: usize,
    },
    /// A stack byte is read before it is written.
    UninitStackRead {
        /// Instruction index.
        pc: usize,
        /// Byte offset from the frame pointer.
        offset: i32,
    },
    /// The helper is not known.
    UnknownHelper {
        /// Instruction index.
        pc: usize,
        /// Helper id.
        func: u32,
    },
    /// The descriptor number names no map.
    BadMapFd {
        /// Instruction index.
        pc: usize,
        /// Descriptor number.
        fd: i64,
    },
    /// A map value is accessed through a pointer that may be null.
    NullMapPtrAccess {
        /// Instruction index.
        pc: usize,
        /// Base register.
        register: u8,
        /// Descriptor number.
        fd: i64,
    },
    /// A map value is accessed outside its size.
    MapValueOutOfBounds {
        /// Instruction index.
        pc: usize,
        /// Descriptor number.
        fd: i64,
        /// Byte offset from the start of the value.
        offset: i32,
        /// Access width in bytes.
        size: u8,
        /// Size of the value in bytes.
        value_size: usize,
    },
    /// The packet or its context is accessed outside its size.
    PacketOutOfBounds {
        /// Instruction index.
        pc: usize,
        /// Byte offset of the access.
        offset: i32,
        /// Access width in bytes.
        size: u8,
        /// Length of the packet.
        packet_len: usize,
    },
    /// The packet or its context is accessed and there is no packet.
    NoPacketContext {
        /// Instruction index.
        pc: usize,
    },
    /// A multi-byte access is not aligned.
    MisalignedAccess {
        /// Instruction index.
        pc: usize,
        /// Byte offset of the access.
        offset: i32,
        /// Access width in bytes.
        size: u8,
    },
    /// The width of a byte swap is not 16, 32 or 64.
    InvalidEndWidth {
        /// Instruction index.
        pc: usize,
        /// Requested width.
        width: i64,
    },
    /// The instruction is not recognised.
    IllegalInstruction {
        /// Instruction index.
        pc: usize,
    },
}

impl VerifyError {
    /// The message of the error.
    pub open spec fn display(self) -> Seq<char> {
        match self {
            VerifyError::UninitRegister { pc, reg } => "uninitialized register r"@ + nat_text(
                reg as nat,
            ) + " at pc "@ + nat_text(pc as nat),
            VerifyError::TypeMismatch { pc, register, expected, found } => "type mismatch at pc "@
                + nat_text(pc as nat) + ": r"@ + nat_text(register as nat) + " is "@ + found@
                + ", expected "@ + expected@,
            VerifyError::StackOverflow { pc } => "stack overflow at pc "@ + nat_text(pc as nat),
            VerifyError::UninitStackRead { pc, offset } => "uninitialized stack read at pc "@
                + nat_text(pc as nat) + " (offset "@ + int_text(offset as int) + ")"@,
            VerifyError::UnknownHelper { pc, func } => "unknown helper function "@ + nat_text(
                func as nat,
            ) + " at pc "@ + nat_text(pc as nat),
            VerifyError::BadMapFd { pc, fd } => "bad map fd "@ + int_text(fd as int) + " at pc "@
                + nat_text(pc as nat),
            VerifyError::NullMapPtrAccess { pc, register, fd } => "null map pointer access at pc "@
                + nat_text(pc as nat) + ": r"@ + nat_text(register as nat) + " may be null (fd "@
                + int_text(fd as int) + ")"@,
            VerifyError::MapValueOutOfBounds { pc, fd, offset, size, value_size } =>
            "map value out of bounds at pc "@ + nat_text(pc as nat) + ": fd "@ + int_text(fd as int)
                + " offset "@ + int_text(offset as int) + " size "@ + nat_text(size as nat)
                + " exceeds value size "@ + nat_text(value_size as nat),
            VerifyError::PacketOutOfBounds { pc, offset, size, packet_len } =>
            "packet out of bounds at pc "@ + nat_text(pc as nat) + ": offset "@ + int_text(
                offset as int,
            ) + " size "@ + nat_text(size as nat) + " exceeds packet length "@ + nat_text(
                packet_len as nat,
            ),
            VerifyError::NoPacketContext { pc } => "packet access with no packet context at pc "@
                + nat_text(pc as nat),
            VerifyError::MisalignedAccess { pc, offset, size } => "misaligned "@ + nat_text(
                size as nat,
            ) + "-byte access at pc "@ + nat_text(pc as nat) + " (offset "@ + int_text(
                offset as int,
            ) + ")"@,
            VerifyError::InvalidEndWidth { pc, width } => "invalid BPF_END width "@ + int_text(
                width as int,
            ) + " at pc "@ + nat_text(pc as nat),
            VerifyError::IllegalInstruction { pc } => "illegal instruction at pc "@ + nat_text(
                pc as nat,
            ),
        }
    }

    /// Renders the message of the error.
    pub fn to_string(&self) -> (s: String)
        ensures
            s@ == self.display(),
    {
        match *self {
            VerifyError::UninitRegister { pc, reg } => {
                let mut s = String::from_str("uninitialized register r");
                push_nat(&mut s, reg as u64);
                s.append(" at pc ");
                push_nat(&mut s, pc as u64);
                s
            },
            VerifyError::TypeMismatch { pc, register, expected, found } => {
                let mut s = String::from_str("type mismatch at pc ");
                push_nat(&mut s, pc as u64);
                s.append(": r");
                push_nat(&mut s, register as u64);
                s.append(" is ");
                s.append(found);
                s.append(", expected ");
                s.append(expected);
                s
            },
            VerifyError::StackOverflow { pc } => {
                let mut s = String::from_str("stack overflow at pc ");
                push_nat(&mut s, pc as u64);
                s
            },
            VerifyError::UninitStackRead { pc, offset } => {
                let mut s = String::from_str("uninitialized stack read at pc ");
                push_nat(&mut s, pc as u64);
                s.append(" (offset ");
                push_int(&mut s, offset as i64);
                s.append(")");
                s
            },
            VerifyError::UnknownHelper { pc, func } => {
                let mut s = String::from_str("unknown helper function ");
                push_nat(&mut s, func as u64);
                s.append(" at pc ");
                push_nat(&mut s, pc as u64);
                s
            },
            VerifyError::BadMapFd { pc, fd } => {
                let mut s = String::from_str("bad map fd ");
                push_int(&mut s, fd);
                s.append(" at pc ");
                push_nat(&mut s, pc as u64);
                s
            },
            VerifyError::NullMapPtrAccess { pc, register, fd } => {
                let mut s = String::from_str("null map pointer access at pc ");
                push_nat(&mut s, pc as u64);
                s.append(": r");
                push_nat(&mut s, register as u64);
                s.append(" may be null (fd ");
                push_int(&mut s, fd);
                s.append(")");
                s
            },
            VerifyError::MapValueOutOfBounds { pc, fd, offset, size, value_size } => {
                let mut s = String::from_str("map value out of bounds at pc ");
                push_nat(&mut s, pc as u64);
                s.append(": fd ");
                push_int(&mut s, fd);
                s.append(" offset ");
                push_int(&mut s, offset as i64);
                s.append(" size ");
                push_nat(&mut s, size as u64);
                s.append(" exceeds value size ");
                push_nat(&mut s, value_size as u64);
                s
            },
            VerifyError::PacketOutOfBounds { pc, offset, size, packet_len } => {
                let mut s = String::from_str("packet out of bounds at pc ");
                push_nat(&mut s, pc as u64);
                s.append(": offset ");
                push_int(&mut s, offset as i64);
                s.append(" size ");
                push_nat(&mut s, size as u64);
                s.append(" exceeds packet length ");
                push_nat(&mut s, packet_len as u64);
                s
            },
            VerifyError::NoPacketContext { pc } => {
                let mut s = String::from_str("packet access with no packet context at pc ");
                push_nat(&mut s, pc as u64);
                s
            },
            VerifyError::MisalignedAccess { pc, offset, size } => {
                let mut s = String::from_str("misaligned ");
                push_nat(&mut s, size as u64);
                s.append("-byte access at pc ");
                push_nat(&mut s, pc as u64);
                s.append(" (offset ");
                push_int(&mut s, offset as i64);
                s.append(")");
                s
            },
            VerifyError::InvalidEndWidth { pc, width } => {
                let mut s = String::from_str("invalid BPF_END width ");
                push_int(&mut s, width);
                s.append(" at pc ");
                push_nat(&mut s, pc as u64);
                s
            },
            VerifyError::IllegalInstruction { pc } => {
                let mut s = String::from_str("illegal instruction at pc ");
                push_nat(&mut s, pc as u64);
                s
            },
        }
    }
}

} // verus!
