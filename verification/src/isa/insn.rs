//! Decoded instruction model.
//!
//! [`RawInsn`] is the 8-byte wire format; [`Insn`] is the decoded form that
//! the disassembler, the graph builder, the interpreter, the verifier and the
//! optimizer work on.
use vstd::prelude::*;
use vstd::string::StringExecFns;

use crate::isa::opcode::lemma_opcode_fields;
use crate::text::{byte_text, hex_text, int_text, nat_text, push_byte, push_hex, push_int, push_nat};

verus! {

/// A raw 8-byte instruction word in little-endian layout.
#[derive(Debug, Clone, Copy, PartialEq, Eq, Hash, Structural)]
pub struct RawInsn {
    /// Full opcode byte.
    pub opcode: u8,
    /// Low nibble: destination register; high nibble: source register.
    pub regs: u8,
    /// Signed branch or memory offset.
    pub offset: i16,
    /// Immediate constant.
    pub imm: i32,
}

/// The value of two little-endian bytes.
pub open spec fn le16(b0: u8, b1: u8) -> u16 {
    (b0 as u16) | ((b1 as u16) << 8)
}

/// The value of four little-endian bytes.
pub open spec fn le32(b0: u8, b1: u8, b2: u8, b3: u8) -> u32 {
    (b0 as u32) | ((b1 as u32) << 8) | ((b2 as u32) << 16) | ((b3 as u32) << 24)
}

impl RawInsn {
    /// Wire size of one instruction slot.
    pub const SIZE: usize = 8;

    /// The raw word held by eight bytes.
    pub open spec fn of_bytes(b: Seq<u8>) -> RawInsn {
        RawInsn {
            opcode: b[0],
            regs: b[1],
            offset: le16(b[2], b[3]) as i16,
            imm: le32(b[4], b[5], b[6], b[7]) as i32,
        }
    }

    /// The eight bytes of a raw word.
    pub open spec fn bytes(self) -> Seq<u8> {
        let off = self.offset as u16;
        let imm = self.imm as u32;
        seq![
            self.opcode,
            self.regs,
            (off & 0xff) as u8,
            (off >> 8) as u8,
            (imm & 0xff) as u8,
            ((imm >> 8) & 0xff) as u8,
            ((imm >> 16) & 0xff) as u8,
            (imm >> 24) as u8,
        ]
    }

    /// Destination register number (low nibble).
    pub fn dst(&self) -> (r: u8)
        ensures
            r == self.regs % 16,
    {
        proof {
            lemma_opcode_fields(self.regs);
        }
        self.regs & 0x0f
    }

    /// Source register number (high nibble).
    pub fn src(&self) -> (r: u8)
        ensures
            r == self.regs / 16,
    {
        proof {
            lemma_opcode_fields(self.regs);
        }
        (self.regs >> 4) & 0x0f
    }

    /// Decodes eight little-endian bytes.
    pub fn from_bytes(b: &[u8; 8]) -> (r: Self)
        ensures
            r == RawInsn::of_bytes(b@),
    {
        let off: u16 = (b[2] as u16) | ((b[3] as u16) << 8);
        let imm: u32 = (b[4] as u32) | ((b[5] as u32) << 8) | ((b[6] as u32) << 16) | ((b[7] as u32)
            << 24);
        RawInsn { opcode: b[0], regs: b[1], offset: off as i16, imm: imm as i32 }
    }

    /// Encodes back to eight little-endian bytes.
    pub fn to_bytes(&self) -> (r: [u8; 8])
        ensures
            r@ == self.bytes(),
    {
        let off: u16 = self.offset as u16;
        let imm: u32 = self.imm as u32;
        let r: [u8; 8] = [
            self.opcode,
            self.regs,
            (off & 0xff) as u8,
            (off >> 8) as u8,
            (imm & 0xff) as u8,
            ((imm >> 8) & 0xff) as u8,
            ((imm >> 16) & 0xff) as u8,
            (imm >> 24) as u8,
        ];
        assert(r@ =~= self.bytes());
        r
    }
}

/// Encoding a raw word and decoding the bytes gives the word back.
pub proof fn raw_word_roundtrip(raw: RawInsn)
    ensures
        RawInsn::of_bytes(raw.bytes()) == raw,
{
    let off = raw.offset;
    let imm = raw.imm;
    assert(({
        let u = off as u16;
        (((u & 0xff) as u8) as u16 | (((u >> 8) as u8) as u16) << 8) as i16
    }) == off && ({
        let u = imm as u32;
        (((u & 0xff) as u8) as u32 | ((((u >> 8) & 0xff) as u8) as u32) << 8 | ((((u >> 16)
            & 0xff) as u8) as u32) << 16 | (((u >> 24) as u8) as u32) << 24) as i32
    }) == imm) by (bit_vector);
}

/// Decoding eight bytes and encoding the raw word gives the bytes back.
pub proof fn raw_bytes_roundtrip(b: Seq<u8>)
    requires
        b.len() == 8,
    ensures
        RawInsn::of_bytes(b).bytes() == b,
{
    let b0 = b[2];
    let b1 = b[3];
    let c0 = b[4];
    let c1 = b[5];
    let c2 = b[6];
    let c3 = b[7];
    assert(({
        let u = (((b0 as u16) | ((b1 as u16) << 8)) as i16) as u16;
        (u & 0xff) as u8 == b0 && (u >> 8) as u8 == b1
    }) && ({
        let u = (((c0 as u32) | ((c1 as u32) << 8) | ((c2 as u32) << 16) | ((c3 as u32)
            << 24)) as i32) as u32;
        (u & 0xff) as u8 == c0 && ((u >> 8) & 0xff) as u8 == c1 && ((u >> 16) & 0xff) as u8 == c2
            && (u >> 24) as u8 == c3
    })) by (bit_vector);
    assert(RawInsn::of_bytes(b).bytes() =~= b);
}

impl From<[u8; 8]> for RawInsn {
    /// Decodes eight little-endian bytes.
    fn from(b: [u8; 8]) -> (r: Self) {
        Self::from_bytes(&b)
    }
}

impl vstd::std_specs::convert::FromSpecImpl<[u8; 8]> for RawInsn {
    open spec fn obeys_from_spec() -> bool {
        true
    }

    open spec fn from_spec(b: [u8; 8]) -> Self {
        RawInsn::of_bytes(b@)
    }
}

impl From<RawInsn> for [u8; 8] {
    /// Encodes into eight little-endian bytes.
    fn from(raw: RawInsn) -> (r: Self)
        ensures
            r@ == raw.bytes(),
    {
        raw.to_bytes()
    }
}

impl vstd::std_specs::convert::FromSpecImpl<RawInsn> for [u8; 8] {
    open spec fn obeys_from_spec() -> bool {
        false
    }

    open spec fn from_spec(raw: RawInsn) -> Self {
        choose|r: [u8; 8]| r@ == raw.bytes()
    }
}

/// General-purpose register `r0` to `r10` (`r10` is the read-only frame
/// pointer).
#[derive(Debug, Clone, Copy, PartialEq, Eq, Hash, Structural)]
pub struct Reg(pub u8);

/// Error for a raw register number above 10.
#[derive(Debug, Clone, Copy, PartialEq, Eq, Structural)]
pub struct InvalidReg(pub u8);

impl InvalidReg {
    /// The message of the error.
    pub open spec fn display(self) -> Seq<char> {
        "invalid register r"@ + nat_text(self.0 as nat) + ": expected 0..=10"@
    }

    /// Renders the message of the error.
    pub fn to_string(&self) -> (s: String)
        ensures
            s@ == self.display(),
    {
        let mut s = String::from_str("invalid register r");
        push_nat(&mut s, self.0 as u64);
        s.append(": expected 0..=10");
        s
    }
}

impl Reg {
    /// Number of the frame-pointer register (read-only in the interpreter).
    pub const FRAME_PTR: u8 = 10;

    /// Whether the register number is one of the eleven registers.
    pub open spec fn valid(self) -> bool {
        self.0 <= 10
    }

    /// Array index of this register.
    pub fn index(self) -> (r: usize)
        ensures
            r == self.0,
    {
        self.0 as usize
    }

    /// Whether this is the read-only frame pointer.
    pub fn is_frame_ptr(self) -> (r: bool)
        ensures
            r == (self.0 == 10),
    {
        self.0 == Self::FRAME_PTR
    }

    /// The register with a raw number, if the number is at most 10.
    pub fn new(n: u8) -> (r: Result<Self, InvalidReg>)
        ensures
            r == Reg::of(n),
    {
        if n <= 10 {
            Ok(Reg(n))
        } else {
            Err(InvalidReg(n))
        }
    }

    /// What [`Reg::new`] gives for a raw number.
    pub open spec fn of(n: u8) -> Result<Reg, InvalidReg> {
        if n <= 10 {
            Ok(Reg(n))
        } else {
            Err(InvalidReg(n))
        }
    }

    /// Text form, `r` and the number.
    pub open spec fn display(self) -> Seq<char> {
        "r"@ + nat_text(self.0 as nat)
    }

    /// Renders the text form.
    pub fn to_string(&self) -> (s: String)
        ensures
            s@ == self.display(),
    {
        let mut s = String::from_str("r");
        push_nat(&mut s, self.0 as u64);
        s
    }
}

impl From<Reg> for usize {
    /// Register number as an array index.
    fn from(r: Reg) -> (n: usize) {
        r.0 as usize
    }
}

impl vstd::std_specs::convert::FromSpecImpl<Reg> for usize {
    open spec fn obeys_from_spec() -> bool {
        true
    }

    open spec fn from_spec(r: Reg) -> usize {
        r.0 as usize
    }
}

/// ALU or jump operand: a register or a 32-bit immediate.
#[derive(Debug, Clone, Copy, PartialEq, Eq, Hash, Structural)]
pub enum Operand {
    /// Register source.
    Reg(Reg),
    /// Immediate source.
    Imm(i32),
}

impl Operand {
    /// Whether a register operand names one of the eleven registers.
    pub open spec fn valid(self) -> bool {
        self matches Operand::Reg(r) ==> r.valid()
    }

    /// Text form: the register or the decimal immediate.
    pub open spec fn display(self) -> Seq<char> {
        match self {
            Operand::Reg(r) => r.display(),
            Operand::Imm(v) => int_text(v as int),
        }
    }

    /// Renders the text form.
    pub fn to_string(&self) -> (s: String)
        ensures
            s@ == self.display(),
    {
        match self {
            Operand::Reg(r) => r.to_string(),
            Operand::Imm(v) => {
                let mut s = String::new();
                push_int(&mut s, *v as i64);
                assert(s@ =~= self.display());
                s
            },
        }
    }
}

/// Operand width: 32-bit or 64-bit semantics.
#[derive(Debug, Clone, Copy, PartialEq, Eq, Hash, Structural)]
pub enum Width {
    /// 32-bit semantics (results truncated, jumps compare low words).
    B32,
    /// 64-bit semantics.
    B64,
}

impl Width {
    /// `true` for 64-bit operations.
    pub fn is_64(self) -> (r: bool)
        ensures
            r == (self == Width::B64),
    {
        match self {
            Width::B64 => true,
            Width::B32 => false,
        }
    }

    /// Text form: `32`, or nothing for the default width.
    pub open spec fn display(self) -> Seq<char> {
        match self {
            Width::B32 => "32"@,
            Width::B64 => ""@,
        }
    }

    /// The text form as a static string.
    pub fn suffix(self) -> (s: &'static str)
        ensures
            s@ == self.display(),
    {
        match self {
            Width::B32 => "32",
            Width::B64 => "",
        }
    }
}

/// Byte-swap direction.
#[derive(Debug, Clone, Copy, PartialEq, Eq, Hash, Structural)]
pub enum Endian {
    /// Little-endian output: mask to the width.
    Le,
    /// Big-endian output: mask, then swap within the width.
    Be,
}

impl Endian {
    /// Text form.
    pub open spec fn display(self) -> Seq<char> {
        match self {
            Endian::Le => "le"@,
            Endian::Be => "be"@,
        }
    }

    /// Renders the text form.
    pub fn to_string(&self) -> (s: String)
        ensures
            s@ == self.display(),
    {
        match self {
            Endian::Le => String::from_str("le"),
            Endian::Be => String::from_str("be"),
        }
    }
}

/// ALU operations (upper nibble of an ALU opcode).
#[derive(Debug, Clone, Copy, PartialEq, Eq, Hash, Structural)]
pub enum AluOp {
    /// `+=`.
    Add,
    /// `-=`.
    Sub,
    /// `*=`.
    Mul,
    /// `/=` (unsigned).
    Div,
    /// `|=`.
    Or,
    /// `&=`.
    And,
    /// `<<=`.
    Lsh,
    /// `>>=` (logical).
    Rsh,
    /// Negation, `dst = -dst`.
    Neg,
    /// `%=` (unsigned).
    Mod,
    /// `^=`.
    Xor,
    /// `dst = src`.
    Mov,
    /// `>>=` (arithmetic).
    Arsh,
    /// Byte swap of the low 16, 32 or 64 bits.
    End(Endian),
}

impl AluOp {
    /// The operation that an opcode byte selects, if its upper nibble is one.
    /// Bit 3 selects the byte-swap direction.
    pub open spec fn of_opcode(opcode: u8) -> Result<AluOp, DecodeError> {
        if opcode / 16 == 0 {
            Ok(AluOp::Add)
        } else if opcode / 16 == 1 {
            Ok(AluOp::Sub)
        } else if opcode / 16 == 2 {
            Ok(AluOp::Mul)
        } else if opcode / 16 == 3 {
            Ok(AluOp::Div)
        } else if opcode / 16 == 4 {
            Ok(AluOp::Or)
        } else if opcode / 16 == 5 {
            Ok(AluOp::And)
        } else if opcode / 16 == 6 {
            Ok(AluOp::Lsh)
        } else if opcode / 16 == 7 {
            Ok(AluOp::Rsh)
        } else if opcode / 16 == 8 {
            Ok(AluOp::Neg)
        } else if opcode / 16 == 9 {
            Ok(AluOp::Mod)
        } else if opcode / 16 == 10 {
            Ok(AluOp::Xor)
        } else if opcode / 16 == 11 {
            Ok(AluOp::Mov)
        } else if opcode / 16 == 12 {
            Ok(AluOp::Arsh)
        } else if opcode / 16 == 13 {
            Ok(AluOp::End(if (opcode / 8) % 2 == 1 {
                Endian::Be
            } else {
                Endian::Le
            }))
        } else {
            Err(DecodeError::UnknownAluOp((opcode / 16) as u8))
        }
    }

    /// Decodes the operation of a full opcode byte.
    pub fn from_opcode(opcode: u8) -> (r: Result<Self, DecodeError>)
        ensures
            r == AluOp::of_opcode(opcode),
    {
        proof {
            lemma_opcode_fields(opcode);
        }
        match (opcode >> 4) & 0x0f {
            0x0 => Ok(AluOp::Add),
            0x1 => Ok(AluOp::Sub),
            0x2 => Ok(AluOp::Mul),
            0x3 => Ok(AluOp::Div),
            0x4 => Ok(AluOp::Or),
            0x5 => Ok(AluOp::And),
            0x6 => Ok(AluOp::Lsh),
            0x7 => Ok(AluOp::Rsh),
            0x8 => Ok(AluOp::Neg),
            0x9 => Ok(AluOp::Mod),
            0xa => Ok(AluOp::Xor),
            0xb => Ok(AluOp::Mov),
            0xc => Ok(AluOp::Arsh),
            0xd => Ok(
                AluOp::End(
                    if opcode & 0x08 != 0 {
                        Endian::Be
                    } else {
                        Endian::Le
                    },
                ),
            ),
            v => Err(DecodeError::UnknownAluOp(v)),
        }
    }

    /// Short mnemonic.
    pub open spec fn name(self) -> Seq<char> {
        match self {
            AluOp::Add => "add"@,
            AluOp::Sub => "sub"@,
            AluOp::Mul => "mul"@,
            AluOp::Div => "div"@,
            AluOp::Or => "or"@,
            AluOp::And => "and"@,
            AluOp::Lsh => "lsh"@,
            AluOp::Rsh => "rsh"@,
            AluOp::Neg => "neg"@,
            AluOp::Mod => "mod"@,
            AluOp::Xor => "xor"@,
            AluOp::Mov => "mov"@,
            AluOp::Arsh => "arsh"@,
            AluOp::End(_) => "end"@,
        }
    }

    /// Short mnemonic used by the disassembler.
    pub fn mnemonic(&self) -> (s: &'static str)
        ensures
            s@ == self.name(),
    {
        match self {
            AluOp::Add => "add",
            AluOp::Sub => "sub",
            AluOp::Mul => "mul",
            AluOp::Div => "div",
            AluOp::Or => "or",
            AluOp::And => "and",
            AluOp::Lsh => "lsh",
            AluOp::Rsh => "rsh",
            AluOp::Neg => "neg",
            AluOp::Mod => "mod",
            AluOp::Xor => "xor",
            AluOp::Mov => "mov",
            AluOp::Arsh => "arsh",
            AluOp::End(_) => "end",
        }
    }
}

/// Jump operations (upper nibble of a jump opcode).
#[derive(Debug, Clone, Copy, PartialEq, Eq, Hash, Structural)]
pub enum JumpOp {
    /// Unconditional jump.
    Always,
    /// `==`.
    Eq,
    /// `>`.
    Gt,
    /// `>=`.
    Ge,
    /// Bit test: taken when `dst & src` is not zero.
    Jset,
    /// `!=`.
    Ne,
    /// Signed `>`.
    Sgt,
    /// Signed `>=`.
    Sge,
    /// `<`.
    Lt,
    /// `<=`.
    Le,
    /// Signed `<`.
    Slt,
    /// Signed `<=`.
    Sle,
    /// Call nibble with a jump shape (helper calls are [`Insn::Call`]).
    Call,
    /// Exit nibble with a jump shape (exits are [`Insn::Exit`]).
    Exit,
}

impl JumpOp {
    /// The operation that an opcode byte selects, if its upper nibble is one.
    pub open spec fn of_opcode(opcode: u8) -> Result<JumpOp, DecodeError> {
        if opcode / 16 == 0 {
            Ok(JumpOp::Always)
        } else if opcode / 16 == 1 {
            Ok(JumpOp::Eq)
        } else if opcode / 16 == 2 {
            Ok(JumpOp::Gt)
        } else if opcode / 16 == 3 {
            Ok(JumpOp::Ge)
        } else if opcode / 16 == 4 {
            Ok(JumpOp::Jset)
        } else if opcode / 16 == 5 {
            Ok(JumpOp::Ne)
        } else if opcode / 16 == 6 {
            Ok(JumpOp::Sgt)
        } else if opcode / 16 == 7 {
            Ok(JumpOp::Sge)
        } else if opcode / 16 == 8 {
            Ok(JumpOp::Call)
        } else if opcode / 16 == 9 {
            Ok(JumpOp::Exit)
        } else if opcode / 16 == 10 {
            Ok(JumpOp::Lt)
        } else if opcode / 16 == 11 {
            Ok(JumpOp::Le)
        } else if opcode / 16 == 12 {
            Ok(JumpOp::Slt)
        } else if opcode / 16 == 13 {
            Ok(JumpOp::Sle)
        } else {
            Err(DecodeError::UnknownJumpOp((opcode / 16) as u8))
        }
    }

    /// Decodes the operation of a full opcode byte.
    pub fn from_opcode(opcode: u8) -> (r: Result<Self, DecodeError>)
        ensures
            r == JumpOp::of_opcode(opcode),
    {
        proof {
            lemma_opcode_fields(opcode);
        }
        match (opcode >> 4) & 0x0f {
            0x0 => Ok(JumpOp::Always),
            0x1 => Ok(JumpOp::Eq),
            0x2 => Ok(JumpOp::Gt),
            0x3 => Ok(JumpOp::Ge),
            0x4 => Ok(JumpOp::Jset),
            0x5 => Ok(JumpOp::Ne),
            0x6 => Ok(JumpOp::Sgt),
            0x7 => Ok(JumpOp::Sge),
            0x8 => Ok(JumpOp::Call),
            0x9 => Ok(JumpOp::Exit),
            0xa => Ok(JumpOp::Lt),
            0xb => Ok(JumpOp::Le),
            0xc => Ok(JumpOp::Slt),
            0xd => Ok(JumpOp::Sle),
            v => Err(DecodeError::UnknownJumpOp(v)),
        }
    }

    /// Short mnemonic.
    pub open spec fn name(self) -> Seq<char> {
        match self {
            JumpOp::Always => "ja"@,
            JumpOp::Eq => "jeq"@,
            JumpOp::Gt => "jgt"@,
            JumpOp::Ge => "jge"@,
            JumpOp::Jset => "jset"@,
            JumpOp::Ne => "jne"@,
            JumpOp::Sgt => "jsgt"@,
            JumpOp::Sge => "jsge"@,
            JumpOp::Lt => "jlt"@,
            JumpOp::Le => "jle"@,
            JumpOp::Slt => "jslt"@,
            JumpOp::Sle => "jsle"@,
            JumpOp::Call => "call"@,
            JumpOp::Exit => "exit"@,
        }
    }

    /// Short mnemonic used by the disassembler.
    pub fn mnemonic(&self) -> (s: &'static str)
        ensures
            s@ == self.name(),
    {
        match self {
            JumpOp::Always => "ja",
            JumpOp::Eq => "jeq",
            JumpOp::Gt => "jgt",
            JumpOp::Ge => "jge",
            JumpOp::Jset => "jset",
            JumpOp::Ne => "jne",
            JumpOp::Sgt => "jsgt",
            JumpOp::Sge => "jsge",
            JumpOp::Lt => "jlt",
            JumpOp::Le => "jle",
            JumpOp::Slt => "jslt",
            JumpOp::Sle => "jsle",
            JumpOp::Call => "call",
            JumpOp::Exit => "exit",
        }
    }
}

/// Memory access width.
#[derive(Debug, Clone, Copy, PartialEq, Eq, Hash, Structural)]
pub enum MemSize {
    /// 8-bit byte.
    B,
    /// 16-bit half word.
    H,
    /// 32-bit word.
    W,
    /// 64-bit double word.
    Dw,
}

impl MemSize {
    /// The access width that an opcode byte selects (bits 3 and 4).
    pub open spec fn of_opcode(opcode: u8) -> MemSize {
        if (opcode / 8) % 4 == 0 {
            MemSize::W
        } else if (opcode / 8) % 4 == 1 {
            MemSize::H
        } else if (opcode / 8) % 4 == 2 {
            MemSize::B
        } else {
            MemSize::Dw
        }
    }

    /// Decodes the access width of a full opcode byte; every pair of size
    /// bits names a width, so this always succeeds.
    pub fn from_opcode(opcode: u8) -> (r: Result<Self, DecodeError>)
        ensures
            r == Ok::<MemSize, DecodeError>(MemSize::of_opcode(opcode)),
    {
        proof {
            lemma_opcode_fields(opcode);
        }
        match (opcode >> 3) & 0x03 {
            0x0 => Ok(MemSize::W),
            0x1 => Ok(MemSize::H),
            0x2 => Ok(MemSize::B),
            0x3 => Ok(MemSize::Dw),
            _ => Err(DecodeError::UnknownMemSize(opcode)),
        }
    }

    /// Size in bytes.
    pub open spec fn len(self) -> nat {
        match self {
            MemSize::B => 1,
            MemSize::H => 2,
            MemSize::W => 4,
            MemSize::Dw => 8,
        }
    }

    /// Size in bytes.
    pub fn bytes(&self) -> (r: u8)
        ensures
            r == self.len(),
    {
        match self {
            MemSize::B => 1,
            MemSize::H => 2,
            MemSize::W => 4,
            MemSize::Dw => 8,
        }
    }

    /// Short mnemonic.
    pub open spec fn name(self) -> Seq<char> {
        match self {
            MemSize::B => "b"@,
            MemSize::H => "h"@,
            MemSize::W => "w"@,
            MemSize::Dw => "dw"@,
        }
    }

    /// Short mnemonic used by the disassembler.
    pub fn mnemonic(&self) -> (s: &'static str)
        ensures
            s@ == self.name(),
    {
        match self {
            MemSize::B => "b",
            MemSize::H => "h",
            MemSize::W => "w",
            MemSize::Dw => "dw",
        }
    }
}

/// A decoded instruction.
#[allow(inconsistent_fields)]
#[derive(Debug, Clone, Copy, PartialEq, Eq, Structural)]
pub enum Insn {
    /// 32-bit or 64-bit ALU operation.
    Alu {
        /// Operand width.
        width: Width,
        /// Operation.
        op: AluOp,
        /// Destination register.
        dst: Reg,
        /// Source operand.
        src: Operand,
    },
    /// Register-indirect load.
    Load {
        /// Access width.
        size: MemSize,
        /// Destination register.
        dst: Reg,
        /// Base pointer register.
        base: Reg,
        /// Signed offset from the base.
        offset: i16,
    },
    /// Store of an immediate or a register.
    Store {
        /// Access width.
        size: MemSize,
        /// Base pointer register.
        base: Reg,
        /// Signed offset from the base.
        offset: i16,
        /// Value operand.
        src: Operand,
    },
    /// Wide 64-bit immediate load (occupies two slots).
    LoadImm64 {
        /// Destination register.
        dst: Reg,
        /// Full 64-bit immediate.
        imm: i64,
    },
    /// Conditional or unconditional jump.
    Jump {
        /// Comparison width.
        width: Width,
        /// Condition.
        op: JumpOp,
        /// Compared register.
        dst: Reg,
        /// Compared operand.
        src: Operand,
        /// Offset in slots, relative to the slot after this one.
        offset: i16,
    },
    /// Helper call.
    Call {
        /// Helper function id.
        func: u32,
    },
    /// Program exit (`r0` holds the return value).
    Exit,
    /// Unrecognised opcode, preserved for diagnostics.
    Unknown {
        /// Original raw word.
        raw: RawInsn,
    },
}

impl Insn {
    /// Whether every register number in the instruction is at most 10.
    pub open spec fn valid(self) -> bool {
        match self {
            Insn::Alu { dst, src, .. } => dst.valid() && src.valid(),
            Insn::Load { dst, base, .. } => dst.valid() && base.valid(),
            Insn::Store { base, src, .. } => base.valid() && src.valid(),
            Insn::LoadImm64 { dst, .. } => dst.valid(),
            Insn::Jump { dst, src, .. } => dst.valid() && src.valid(),
            Insn::Call { .. } => true,
            Insn::Exit => true,
            Insn::Unknown { .. } => true,
        }
    }

    /// Canonical text form.
    pub open spec fn display(self) -> Seq<char> {
        match self {
            Insn::Alu { width, op, dst, src } => match (op, src) {
                (AluOp::Neg, _) => "neg"@ + width.display() + " "@ + dst.display(),
                _ => op.name() + width.display() + " "@ + dst.display() + ", "@ + src.display(),
            },
            Insn::Load { size, dst, base, offset } => dst.display() + " = *("@ + size.name()
                + " *)("@ + base.display() + " + "@ + int_text(offset as int) + ")"@,
            Insn::Store { size, base, offset, src } => "*("@ + size.name() + " *)("@
                + base.display() + " + "@ + int_text(offset as int) + ") = "@ + src.display(),
            Insn::LoadImm64 { dst, imm } => dst.display() + " = 0x"@ + hex_text(
                (imm as u64) as nat,
            ),
            Insn::Jump { op, dst, src, offset, .. } => match op {
                JumpOp::Always => "ja +"@ + int_text(offset as int),
                _ => op.name() + " "@ + dst.display() + ", "@ + src.display() + ", +"@ + int_text(
                    offset as int,
                ),
            },
            Insn::Call { func } => "call "@ + nat_text(func as nat),
            Insn::Exit => "exit"@,
            Insn::Unknown { raw } => "unknown 0x"@ + byte_text(raw.opcode),
        }
    }

    /// Renders the canonical text form.
    pub fn to_string(&self) -> (s: String)
        ensures
            s@ == self.display(),
    {
        match *self {
            Insn::Alu { width, op, dst, src } => {
                let mut s = String::from_str(op.mnemonic());
                s.append(width.suffix());
                s.append(" ");
                s.append(dst.to_string().as_str());
                match op {
                    AluOp::Neg => {},
                    _ => {
                        s.append(", ");
                        s.append(src.to_string().as_str());
                    },
                }
                s
            },
            Insn::Load { size, dst, base, offset } => {
                let mut s = dst.to_string();
                s.append(" = *(");
                s.append(size.mnemonic());
                s.append(" *)(");
                s.append(base.to_string().as_str());
                s.append(" + ");
                push_int(&mut s, offset as i64);
                s.append(")");
                s
            },
            Insn::Store { size, base, offset, src } => {
                let mut s = String::from_str("*(");
                s.append(size.mnemonic());
                s.append(" *)(");
                s.append(base.to_string().as_str());
                s.append(" + ");
                push_int(&mut s, offset as i64);
                s.append(") = ");
                s.append(src.to_string().as_str());
                s
            },
            Insn::LoadImm64 { dst, imm } => {
                let mut s = dst.to_string();
                s.append(" = 0x");
                push_hex(&mut s, imm as u64);
                s
            },
            Insn::Jump { op, dst, src, offset, .. } => {
                match op {
                    JumpOp::Always => {
                        let mut s = String::from_str("ja +");
                        push_int(&mut s, offset as i64);
                        s
                    },
                    _ => {
                        let mut s = String::from_str(op.mnemonic());
                        s.append(" ");
                        s.append(dst.to_string().as_str());
                        s.append(", ");
                        s.append(src.to_string().as_str());
                        s.append(", +");
                        push_int(&mut s, offset as i64);
                        s
                    },
                }
            },
            Insn::Call { func } => {
                let mut s = String::from_str("call ");
                push_nat(&mut s, func as u64);
                s
            },
            Insn::Exit => String::from_str("exit"),
            Insn::Unknown { raw } => {
                let mut s = String::from_str("unknown 0x");
                push_byte(&mut s, raw.opcode);
                s
            },
        }
    }
}

/// Decode failure.
#[derive(Debug, Clone, Copy, PartialEq, Eq, Structural)]
#[non_exhaustive]
pub enum DecodeError {
    /// Truncated input (fewer than 8 bytes remain).
    Truncated {
        /// Number of leftover bytes.
        remaining: usize,
    },
    /// Truncated wide load (missing second slot).
    TruncatedWide,
    /// Unknown ALU operation nibble.
    UnknownAluOp(u8),
    /// Unknown jump operation nibble.
    UnknownJumpOp(u8),
    /// Unknown memory size bits.
    UnknownMemSize(u8),
    /// Register number out of range.
    BadReg(InvalidReg),
    /// Unrecognised instruction class.
    UnknownClass(u8, u8),
}

impl DecodeError {
    /// The message of the error.
    pub open spec fn display(self) -> Seq<char> {
        match self {
            DecodeError::Truncated { remaining } => "truncated instruction stream: "@ + nat_text(
                remaining as nat,
            ) + " trailing byte(s)"@,
            DecodeError::TruncatedWide => "truncated ld_imm_dw: missing second slot"@,
            DecodeError::UnknownAluOp(v) => "unknown ALU operation nibble 0x"@ + hex_text(v as nat),
            DecodeError::UnknownJumpOp(v) => "unknown jump operation nibble 0x"@ + hex_text(
                v as nat,
            ),
            DecodeError::UnknownMemSize(v) => "unknown memory size bits in opcode 0x"@ + byte_text(
                v,
            ),
            DecodeError::BadReg(e) => e.display(),
            DecodeError::UnknownClass(c, o) => "unknown instruction class 0x"@ + hex_text(c as nat)
                + " in opcode 0x"@ + byte_text(o),
        }
    }

    /// Renders the message of the error.
    pub fn to_string(&self) -> (s: String)
        ensures
            s@ == self.display(),
    {
        match *self {
            DecodeError::Truncated { remaining } => {
                let mut s = String::from_str("truncated instruction stream: ");
                push_nat(&mut s, remaining as u64);
                s.append(" trailing byte(s)");
                s
            },
            DecodeError::TruncatedWide => String::from_str(
                "truncated ld_imm_dw: missing second slot",
            ),
            DecodeError::UnknownAluOp(v) => {
                let mut s = String::from_str("unknown ALU operation nibble 0x");
                push_hex(&mut s, v as u64);
                s
            },
            DecodeError::UnknownJumpOp(v) => {
                let mut s = String::from_str("unknown jump operation nibble 0x");
                push_hex(&mut s, v as u64);
                s
            },
            DecodeError::UnknownMemSize(v) => {
                let mut s = String::from_str("unknown memory size bits in opcode 0x");
                push_byte(&mut s, v);
                s
            },
            DecodeError::BadReg(e) => e.to_string(),
            DecodeError::UnknownClass(c, o) => {
                let mut s = String::from_str("unknown instruction class 0x");
                push_hex(&mut s, c as u64);
                s.append(" in opcode 0x");
                push_byte(&mut s, o);
                s
            },
        }
    }
}

} // verus!
