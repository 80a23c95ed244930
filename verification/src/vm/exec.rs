//! Pre-resolved execution form.
//!
//! [`ExecInsn`] is what the interpreter steps: operands are split into
//! register and immediate variants and every jump carries an absolute
//! instruction index. Lowering cannot fail: an instruction that is invalid
//! by itself becomes a [`ExecInsn::Trap`], which fires when it is reached.
use vstd::prelude::*;

use crate::isa::insn::{AluOp, Insn, JumpOp, MemSize, Operand, Reg, Width};
use crate::cfg::jump_target;
use crate::slots::{index_at, lemma_slot_bounds, lemma_slot_monotone, slot_count, slot_of, slot_table, starts_at, target_slot};
use crate::vm::{TrapKind, VmError};

verus! {

/// One pre-resolved instruction.
#[allow(inconsistent_fields)]
#[derive(Debug, Clone, Copy, PartialEq, Eq, Structural)]
pub enum ExecInsn {
    /// ALU operation with a register source.
    AluReg {
        /// Operand width.
        width: Width,
        /// Operation.
        op: AluOp,
        /// Destination register.
        dst: Reg,
        /// Source register.
        src: Reg,
    },
    /// ALU operation with an immediate source.
    AluImm {
        /// Operand width.
        width: Width,
        /// Operation.
        op: AluOp,
        /// Destination register.
        dst: Reg,
        /// Immediate operand.
        imm: i32,
    },
    /// Register-indirect load.
    Load {
        /// Access width.
        size: MemSize,
        /// Destination register.
        dst: Reg,
        /// Base pointer register.
        base: Reg,
        /// Signed offset from the base.
        offset: i16,
    },
    /// Store of a register.
    StoreReg {
        /// Access width.
        size: MemSize,
        /// Base pointer register.
        base: Reg,
        /// Signed offset from the base.
        offset: i16,
        /// Source register.
        src: Reg,
    },
    /// Store of an immediate.
    StoreImm {
        /// Access width.
        size: MemSize,
        /// Base pointer register.
        base: Reg,
        /// Signed offset from the base.
        offset: i16,
        /// Immediate value.
        imm: i32,
    },
    /// Wide immediate load.
    LoadImm64 {
        /// Destination register.
        dst: Reg,
        /// Full 64-bit immediate.
        imm: i64,
    },
    /// Conditional jump with a register source.
    JumpReg {
        /// Comparison width.
        width: Width,
        /// Condition.
        op: JumpOp,
        /// Compared register.
        dst: Reg,
        /// Compared register.
        src: Reg,
        /// Absolute target index.
        target: u32,
    },
    /// Conditional jump with an immediate source.
    JumpImm {
        /// Comparison width.
        width: Width,
        /// Condition.
        op: JumpOp,
        /// Compared register.
        dst: Reg,
        /// Compared immediate.
        imm: i32,
        /// Absolute target index.
        target: u32,
    },
    /// Unconditional jump.
    JumpAlways {
        /// Absolute target index.
        target: u32,
    },
    /// Helper call.
    Call {
        /// Helper function id.
        func: u32,
    },
    /// Program exit.
    Exit,
    /// Invalid instruction; fires its error when stepped.
    Trap(TrapKind),
}

impl ExecInsn {
    /// Whether the interpreter can step the instruction: its registers are
    /// valid, and a byte swap has an immediate width of 16, 32 or 64.
    pub open spec fn valid(self) -> bool {
        match self {
            ExecInsn::AluReg { op, dst, src, .. } => dst.valid() && src.valid() && op !is End,
            ExecInsn::AluImm { op, dst, imm, .. } => dst.valid() && op.defined(imm as i64),
            ExecInsn::Load { dst, base, .. } => dst.valid() && base.valid(),
            ExecInsn::StoreReg { base, src, .. } => base.valid() && src.valid(),
            ExecInsn::StoreImm { base, .. } => base.valid(),
            ExecInsn::LoadImm64 { dst, .. } => dst.valid(),
            ExecInsn::JumpReg { dst, src, .. } => dst.valid() && src.valid(),
            ExecInsn::JumpImm { dst, .. } => dst.valid(),
            _ => true,
        }
    }
}

/// The absolute target of a jump at index `i`, or the trap of a jump that
/// lands on no instruction.
pub open spec fn resolved(insns: Seq<Insn>, i: int, offset: i16) -> Result<u32, TrapKind> {
    let target = target_slot(insns, i, offset);
    if starts_at(insns, target) {
        Ok(index_at(insns, target) as u32)
    } else {
        Err(TrapKind::OobJump { target: target as i64 })
    }
}

/// The execution form of the instruction at index `i`.
pub open spec fn lowered(insns: Seq<Insn>, i: int) -> ExecInsn {
    match insns[i] {
        Insn::Alu { width, op, dst, src } => match (op, src) {
            (AluOp::End(_), Operand::Reg(_)) => ExecInsn::Trap(TrapKind::Illegal),
            (AluOp::End(_), Operand::Imm(w)) => if w == 16 || w == 32 || w == 64 {
                ExecInsn::AluImm { width, op, dst, imm: w }
            } else {
                ExecInsn::Trap(TrapKind::BadEndWidth { width: w as i64 })
            },
            (_, Operand::Reg(src)) => ExecInsn::AluReg { width, op, dst, src },
            (_, Operand::Imm(imm)) => ExecInsn::AluImm { width, op, dst, imm },
        },
        Insn::Load { size, dst, base, offset } => ExecInsn::Load { size, dst, base, offset },
        Insn::Store { size, base, offset, src } => match src {
            Operand::Reg(src) => ExecInsn::StoreReg { size, base, offset, src },
            Operand::Imm(imm) => ExecInsn::StoreImm { size, base, offset, imm },
        },
        Insn::LoadImm64 { dst, imm } => ExecInsn::LoadImm64 { dst, imm },
        Insn::Jump { width, op, dst, src, offset } => match resolved(insns, i, offset) {
            Err(kind) => ExecInsn::Trap(kind),
            Ok(target) => if op == JumpOp::Always {
                ExecInsn::JumpAlways { target }
            } else {
                match src {
                    Operand::Reg(src) => ExecInsn::JumpReg { width, op, dst, src, target },
                    Operand::Imm(imm) => ExecInsn::JumpImm { width, op, dst, imm, target },
                }
            },
        },
        Insn::Call { func } => ExecInsn::Call { func },
        Insn::Exit => ExecInsn::Exit,
        Insn::Unknown { .. } => ExecInsn::Trap(TrapKind::Illegal),
    }
}

/// The execution form of a program.
pub open spec fn loaded(insns: Seq<Insn>) -> Seq<ExecInsn> {
    Seq::new(insns.len(), |i: int| lowered(insns, i))
}

/// Lowers a decoded program to execution form.
pub fn load(insns: &[Insn]) -> (r: Vec<ExecInsn>)
    requires
        slot_count(insns@) <= u32::MAX,
    ensures
        r@ == loaded(insns@),
{
    let (slots, rev) = slot_table(insns);
    let mut out: Vec<ExecInsn> = Vec::new();
    let mut i: usize = 0;
    while i < insns.len()
        invariant
            i <= insns@.len(),
            slot_count(insns@) <= u32::MAX,
            slots@.len() == insns@.len(),
            forall|k: int|
                0 <= k < insns@.len() ==> #[trigger] slots@[k] == slot_of(insns@, k as nat),
            rev@.len() == slot_count(insns@),
            forall|s: int|
                0 <= s < rev@.len() ==> if starts_at(insns@, s) {
                    #[trigger] rev@[s] == index_at(insns@, s)
                } else {
                    rev@[s] == usize::MAX
                },
            out@ == loaded(insns@).take(i as int),
        decreases insns@.len() - i,
    {
        let e = lower_one(i, insns, &slots, &rev);
        out.push(e);
        assert(out@ =~= loaded(insns@).take(i + 1));
        i = i + 1;
    }
    assert(out@ =~= loaded(insns@));
    out
}

fn lower_one(i: usize, insns: &[Insn], slots: &Vec<u32>, rev: &Vec<usize>) -> (r: ExecInsn)
    requires
        i < insns@.len(),
        slot_count(insns@) <= u32::MAX,
        slots@.len() == insns@.len(),
        slots@[i as int] == slot_of(insns@, i as nat),
        rev@.len() == slot_count(insns@),
        forall|s: int|
            0 <= s < rev@.len() ==> if starts_at(insns@, s) {
                #[trigger] rev@[s] == index_at(insns@, s)
            } else {
                rev@[s] == usize::MAX
            },
    ensures
        r == lowered(insns@, i as int),
{
    match insns[i] {
        Insn::Alu { width, op, dst, src } => {
            // Decoding only produces a byte swap with an immediate width.
            if let AluOp::End(_) = op {
                return match src {
                    Operand::Reg(_) => ExecInsn::Trap(TrapKind::Illegal),
                    Operand::Imm(w) => if w == 16 || w == 32 || w == 64 {
                        ExecInsn::AluImm { width, op, dst, imm: w }
                    } else {
                        ExecInsn::Trap(TrapKind::BadEndWidth { width: w as i64 })
                    },
                };
            }
            match src {
                Operand::Reg(src) => ExecInsn::AluReg { width, op, dst, src },
                Operand::Imm(imm) => ExecInsn::AluImm { width, op, dst, imm },
            }
        },
        Insn::Load { size, dst, base, offset } => ExecInsn::Load { size, dst, base, offset },
        Insn::Store { size, base, offset, src } => match src {
            Operand::Reg(src) => ExecInsn::StoreReg { size, base, offset, src },
            Operand::Imm(imm) => ExecInsn::StoreImm { size, base, offset, imm },
        },
        Insn::LoadImm64 { dst, imm } => ExecInsn::LoadImm64 { dst, imm },
        Insn::Jump { width, op, dst, src, offset } => {
            let target: u32 = match resolve(i, offset, insns, slots, rev) {
                Ok(t) => t,
                Err(kind) => {
                    return ExecInsn::Trap(kind);
                },
            };
            if op == JumpOp::Always {
                return ExecInsn::JumpAlways { target };
            }
            match src {
                Operand::Reg(src) => ExecInsn::JumpReg { width, op, dst, src, target },
                Operand::Imm(imm) => ExecInsn::JumpImm { width, op, dst, imm, target },
            }
        },
        Insn::Call { func } => ExecInsn::Call { func },
        Insn::Exit => ExecInsn::Exit,
        Insn::Unknown { .. } => ExecInsn::Trap(TrapKind::Illegal),
    }
}

/// Resolves a jump at index `i` to an absolute target index.
fn resolve(i: usize, offset: i16, insns: &[Insn], slots: &Vec<u32>, rev: &Vec<usize>) -> (r: Result<
    u32,
    TrapKind,
>)
    requires
        i < insns@.len(),
        slot_count(insns@) <= u32::MAX,
        slots@.len() == insns@.len(),
        slots@[i as int] == slot_of(insns@, i as nat),
        rev@.len() == slot_count(insns@),
        forall|s: int|
            0 <= s < rev@.len() ==> if starts_at(insns@, s) {
                #[trigger] rev@[s] == index_at(insns@, s)
            } else {
                rev@[s] == usize::MAX
            },
    ensures
        r == resolved(insns@, i as int, offset),
{
    let target: i64 = slots[i] as i64 + 1 + offset as i64;
    proof {
        // An instruction starts below the number of slots.
        if starts_at(insns@, target as int) {
            let d = index_at(insns@, target as int);
            lemma_slot_monotone(insns@, d as nat, insns@.len());
            lemma_slot_bounds(insns@, d as nat);
        }
    }
    if target < 0 || target >= rev.len() as i64 {
        return Err(TrapKind::OobJump { target });
    }
    let decoded: usize = rev[target as usize];
    if decoded == usize::MAX {
        assert(!starts_at(insns@, target as int)) by {
            if starts_at(insns@, target as int) {
                let d = index_at(insns@, target as int);
                lemma_slot_bounds(insns@, d as nat);
            }
        }
        return Err(TrapKind::OobJump { target });
    }
    Ok(decoded as u32)
}

impl TrapKind {
    /// The error of a trap that fires at `pc`.
    pub open spec fn error(self, pc: usize) -> VmError {
        match self {
            TrapKind::OobJump { target } => VmError::JumpOutOfBounds { pc, target },
            TrapKind::BadEndWidth { width } => VmError::InvalidEndWidth { pc, width },
            TrapKind::Illegal => VmError::IllegalInstruction { pc },
        }
    }

    /// Rebuilds the runtime error of a trap that fires at `pc`.
    pub fn into_error(self, pc: usize) -> (r: VmError)
        ensures
            r == self.error(pc),
    {
        match self {
            TrapKind::OobJump { target } => VmError::JumpOutOfBounds { pc, target },
            TrapKind::BadEndWidth { width } => VmError::InvalidEndWidth { pc, width },
            TrapKind::Illegal => VmError::IllegalInstruction { pc },
        }
    }
}

/// Lowering a program of valid instructions gives instructions that the
/// interpreter can step.
pub proof fn loaded_is_valid(insns: Seq<Insn>)
    requires
        forall|i: int| 0 <= i < insns.len() ==> (#[trigger] insns[i]).valid(),
    ensures
        forall|i: int| 0 <= i < insns.len() ==> (#[trigger] loaded(insns)[i]).valid(),
{
    assert forall|i: int| 0 <= i < insns.len() implies (#[trigger] loaded(insns)[i]).valid() by {
        assert(insns[i].valid());
    }
}

/// A jump executes to the instruction that the control-flow graph leads it
/// to, and traps where the graph has none.
pub proof fn targets_match_graph(insns: Seq<Insn>, i: int, offset: i16)
    requires
        0 <= i < insns.len() <= u32::MAX,
        insns[i] matches Insn::Jump { offset: o, .. } && o == offset,
    ensures
        match jump_target(insns, i) {
            Some(t) => 0 <= t < insns.len() && resolved(insns, i, offset) == Ok::<u32, TrapKind>(
                t as u32,
            ),
            None => resolved(insns, i, offset) is Err,
        },
{
}

} // verus!
