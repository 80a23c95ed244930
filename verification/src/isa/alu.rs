//! Concrete meaning of the ALU operations.
use vstd::prelude::*;

use crate::isa::insn::{AluOp, Endian, Width};

verus! {

/// Byte-swapped low half word.
pub open spec fn swap16(v: u64) -> u64 {
    ((v & 0xff) << 8) | ((v >> 8) & 0xff)
}

/// Byte-swapped low word.
pub open spec fn swap32(v: u64) -> u64 {
    (swap16(v) << 16) | swap16(v >> 16)
}

/// Byte-swapped double word.
pub open spec fn swap64(v: u64) -> u64 {
    (swap32(v) << 32) | swap32(v >> 32)
}

/// The low `width` bits of a value, swapped for big-endian output.
pub open spec fn swapped(endian: Endian, v: u64, width: i64) -> u64 {
    match endian {
        Endian::Le => if width == 16 {
            v & 0xffff
        } else if width == 32 {
            v & 0xffff_ffff
        } else {
            v
        },
        Endian::Be => if width == 16 {
            swap16(v)
        } else if width == 32 {
            swap32(v)
        } else {
            swap64(v)
        },
    }
}

/// Whether a byte swap has this width.
pub open spec fn end_width(width: i64) -> bool {
    width == 16 || width == 32 || width == 64
}

/// 64-bit result of an operation other than a byte swap. Shift amounts are
/// taken modulo 64; division and remainder by zero give zero.
pub open spec fn alu64(op: AluOp, a: u64, b: u64) -> u64 {
    match op {
        AluOp::Add => a.wrapping_add(b),
        AluOp::Sub => a.wrapping_sub(b),
        AluOp::Mul => a.wrapping_mul(b),
        AluOp::Div => if b == 0 {
            0
        } else {
            a / b
        },
        AluOp::Or => a | b,
        AluOp::And => a & b,
        AluOp::Lsh => a << (b % 64),
        AluOp::Rsh => a >> (b % 64),
        AluOp::Neg => 0u64.wrapping_sub(a),
        AluOp::Mod => if b == 0 {
            0
        } else {
            a % b
        },
        AluOp::Xor => a ^ b,
        AluOp::Mov => b,
        AluOp::Arsh => ((a as i64) >> (b % 64)) as u64,
        AluOp::End(_) => a,
    }
}

/// 32-bit result of an operation other than a byte swap. Shift amounts are
/// taken modulo 32; division and remainder by zero give zero.
pub open spec fn alu32(op: AluOp, a: u32, b: u32) -> u32 {
    match op {
        AluOp::Add => a.wrapping_add(b),
        AluOp::Sub => a.wrapping_sub(b),
        AluOp::Mul => a.wrapping_mul(b),
        AluOp::Div => if b == 0 {
            0
        } else {
            a / b
        },
        AluOp::Or => a | b,
        AluOp::And => a & b,
        AluOp::Lsh => a << (b % 32),
        AluOp::Rsh => a >> (b % 32),
        AluOp::Neg => 0u32.wrapping_sub(a),
        AluOp::Mod => if b == 0 {
            0
        } else {
            a % b
        },
        AluOp::Xor => a ^ b,
        AluOp::Mov => b,
        AluOp::Arsh => ((a as i32) >> (b % 32)) as u32,
        AluOp::End(_) => a,
    }
}

impl AluOp {
    /// The result of the operation on register values. 32-bit results are
    /// zero-extended; a byte swap takes its width from `src`.
    pub open spec fn result(self, dst: i64, src: i64, width: Width) -> i64 {
        match (self, width) {
            (AluOp::End(endian), _) => swapped(endian, dst as u64, src) as i64,
            (_, Width::B64) => alu64(self, dst as u64, src as u64) as i64,
            (_, Width::B32) => (alu32(self, dst as u32, src as u32) as u64) as i64,
        }
    }

    /// Whether the operation is defined on this source value: a byte swap
    /// has a width of 16, 32 or 64.
    pub open spec fn defined(self, src: i64) -> bool {
        self is End ==> end_width(src)
    }

    /// Computes the operation on register values.
    pub fn apply(self, dst: i64, src: i64, width: Width) -> (r: i64)
        requires
            self.defined(src),
        ensures
            r == self.result(dst, src, width),
    {
        if let AluOp::End(endian) = self {
            return swap(endian, dst as u64, src) as i64;
        }
        match width {
            Width::B64 => apply64(self, dst as u64, src as u64) as i64,
            Width::B32 => (apply32(self, dst as u32, src as u32) as u64) as i64,
        }
    }
}

fn swap_half(v: u64) -> (r: u64)
    ensures
        r == swap16(v),
{
    ((v & 0xff) << 8) | ((v >> 8) & 0xff)
}

fn swap_word(v: u64) -> (r: u64)
    ensures
        r == swap32(v),
{
    (swap_half(v) << 16) | swap_half(v >> 16)
}

fn swap(endian: Endian, v: u64, width: i64) -> (r: u64)
    ensures
        r == swapped(endian, v, width),
{
    match endian {
        Endian::Le => if width == 16 {
            v & 0xffff
        } else if width == 32 {
            v & 0xffff_ffff
        } else {
            v
        },
        Endian::Be => if width == 16 {
            swap_half(v)
        } else if width == 32 {
            swap_word(v)
        } else {
            (swap_word(v) << 32) | swap_word(v >> 32)
        },
    }
}

fn apply64(op: AluOp, a: u64, b: u64) -> (r: u64)
    ensures
        r == alu64(op, a, b),
{
    match op {
        AluOp::Add => a.wrapping_add(b),
        AluOp::Sub => a.wrapping_sub(b),
        AluOp::Mul => a.wrapping_mul(b),
        AluOp::Div => if b == 0 {
            0
        } else {
            a / b
        },
        AluOp::Or => a | b,
        AluOp::And => a & b,
        AluOp::Lsh => a << (b % 64),
        AluOp::Rsh => a >> (b % 64),
        AluOp::Neg => 0u64.wrapping_sub(a),
        AluOp::Mod => if b == 0 {
            0
        } else {
            a % b
        },
        AluOp::Xor => a ^ b,
        AluOp::Mov => b,
        AluOp::Arsh => ((a as i64) >> (b % 64)) as u64,
        AluOp::End(_) => a,
    }
}

fn apply32(op: AluOp, a: u32, b: u32) -> (r: u32)
    ensures
        r == alu32(op, a, b),
{
    match op {
        AluOp::Add => a.wrapping_add(b),
        AluOp::Sub => a.wrapping_sub(b),
        AluOp::Mul => a.wrapping_mul(b),
        AluOp::Div => if b == 0 {
            0
        } else {
            a / b
        },
        AluOp::Or => a | b,
        AluOp::And => a & b,
        AluOp::Lsh => a << (b % 32),
        AluOp::Rsh => a >> (b % 32),
        AluOp::Neg => 0u32.wrapping_sub(a),
        AluOp::Mod => if b == 0 {
            0
        } else {
            a % b
        },
        AluOp::Xor => a ^ b,
        AluOp::Mov => b,
        AluOp::Arsh => ((a as i32) >> (b % 32)) as u32,
        AluOp::End(_) => a,
    }
}

} // verus!
