//! What one instruction does to the abstract state, and what the edges of a
//! branch tell about it.
use vstd::prelude::*;
use vstd::string::StringExecFns;

use crate::cfg::EdgeKind;
use crate::isa::insn::{AluOp, Insn, JumpOp, MemSize, Operand, Reg, Width};
use crate::text::{hex_text, int_text, nat_text, push_hex, push_int, push_nat};
use crate::verify::access::{
    check_ctx_load, check_map_value_bounds, check_mem_access, check_packet_bounds, context_load,
    ensure_init, init_check, map_value_fd, packet_check, packet_store_error, read_only,
    stack_access, value_check, value_map,
};
use crate::verify::helpers::{built_in_outcome, known_helper, lemma_known_outcome, HelperSignatureRegistry};
use crate::verify::refine::{at_least, refine, refined};
use crate::verify::state::{Range, RegType, StateModel, VerifierState};
use crate::verify::VerifyError;
use crate::vm::memory::PACKET_BASE;

verus! {

/// The range of an operand.
pub open spec fn operand_range(s: StateModel, src: Operand) -> Range {
    match src {
        Operand::Reg(r) => s.regs[r.0 as int].range(),
        Operand::Imm(v) => Range::only(v as i64),
    }
}

/// Whether shift amounts are those that a 32-bit shift does not reduce.
pub open spec fn amounts32(r: Range) -> bool {
    r matches Range::Interval { lo, hi } && 0 <= lo && hi <= 31
}

/// The range of an ALU result.
pub open spec fn alu_range(op: AluOp, width: Width, lhs: Range, rhs: Range) -> Range {
    let full = match op {
        AluOp::Add => lhs.plus(rhs),
        AluOp::Or => lhs.ored(rhs),
        AluOp::And => lhs.anded(rhs),
        AluOp::Xor => lhs.unbounded(rhs),
        AluOp::Mov => rhs,
        AluOp::Lsh => if width == Width::B64 || amounts32(rhs) {
            lhs.shifted(rhs)
        } else {
            Range::Top
        },
        AluOp::Rsh => lhs.unbounded(rhs),
        AluOp::Arsh => lhs.unbounded(rhs),
        _ => Range::Top,
    };
    match width {
        Width::B32 => full.low32(),
        Width::B64 => full,
    }
}

/// The one number that is added to a pointer, if it is known.
pub open spec fn known_delta(s: StateModel, src: Operand) -> Option<i64> {
    match src {
        Operand::Imm(v) => Some(v as i64),
        Operand::Reg(r) => match s.regs[r.0 as int] {
            RegType::Scalar(range) => range.single(),
            _ => None,
        },
    }
}

/// A stack pointer after an addition (`sign` 1) or a subtraction (`sign`
/// -1) of a known number.
pub open spec fn moved_stack(offset: i32, delta: i64, sign: int) -> RegType {
    let k = sign * delta;
    if i32::MIN <= k <= i32::MAX && i32::MIN <= offset + k <= i32::MAX {
        RegType::StackPtr { offset: (offset + k) as i32 }
    } else {
        RegType::Scalar(Range::Top)
    }
}

/// A packet pointer after an addition or a subtraction of a known number.
pub open spec fn moved_packet(offset: Range, delta: i64, sign: int) -> RegType {
    let k = sign * delta;
    if i64::MIN <= k <= i64::MAX {
        RegType::PacketPtr { offset: offset.plus(Range::only(k as i64)) }
    } else {
        RegType::Scalar(Range::Top)
    }
}

/// A pointer moved by a known number, if it is a pointer that can be moved
/// so. Stack pointers move by 32-bit numbers only.
pub open spec fn moved(s: StateModel, dst: Reg, src: Operand, sign: int) -> Option<RegType> {
    match (s.regs[dst.0 as int], known_delta(s, src)) {
        (RegType::StackPtr { offset }, Some(delta)) => if i32::MIN <= delta <= i32::MAX {
            Some(moved_stack(offset, delta, sign))
        } else {
            None
        },
        (RegType::PacketPtr { offset }, Some(delta)) => Some(moved_packet(offset, delta, sign)),
        _ => None,
    }
}

/// The state after 64-bit pointer arithmetic, if the instruction is such:
/// a copy of a pointer, or a pointer moved by a known number.
pub open spec fn pointer_alu(s: StateModel, op: AluOp, dst: Reg, src: Operand) -> Option<StateModel> {
    match op {
        AluOp::Mov => match src {
            Operand::Reg(r) => {
                let p = s.regs[r.0 as int];
                if dst.0 != 10 && (p is StackPtr || p is PacketPtr || p is XdpMdPtr) {
                    Some(s.assigned(dst.0, p))
                } else {
                    None
                }
            },
            Operand::Imm(_) => None,
        },
        AluOp::Add => match moved(s, dst, src, 1) {
            Some(p) => Some(s.assigned(dst.0, p)),
            None => None,
        },
        AluOp::Sub => match moved(s, dst, src, -1) {
            Some(p) => Some(s.assigned(dst.0, p)),
            None => None,
        },
        _ => None,
    }
}

/// What is wrong with the operands of a byte swap.
pub open spec fn swap_check(op: AluOp, src: Operand, pc: usize) -> Result<(), VerifyError> {
    match (op, src) {
        (AluOp::End(_), Operand::Reg(_)) => Err(VerifyError::IllegalInstruction { pc }),
        (AluOp::End(_), Operand::Imm(w)) => if w == 16 || w == 32 || w == 64 {
            Ok(())
        } else {
            Err(VerifyError::InvalidEndWidth { pc, width: w as i64 })
        },
        _ => Ok(()),
    }
}

/// Whether an operand was written.
pub open spec fn operand_check(s: StateModel, src: Operand, pc: usize) -> Result<(), VerifyError> {
    match src {
        Operand::Reg(r) => init_check(s, r, pc),
        Operand::Imm(_) => Ok(()),
    }
}

/// Whether the destination was written, where the operation reads it.
pub open spec fn target_check(s: StateModel, op: AluOp, dst: Reg, pc: usize) -> Result<(), VerifyError> {
    if op == AluOp::Mov {
        Ok(())
    } else {
        init_check(s, dst, pc)
    }
}

/// The state after an ALU instruction.
pub open spec fn alu_step(
    pc: usize,
    s: StateModel,
    width: Width,
    op: AluOp,
    dst: Reg,
    src: Operand,
) -> Result<StateModel, VerifyError> {
    match (swap_check(op, src, pc), operand_check(s, src, pc), target_check(s, op, dst, pc)) {
        (Err(e), _, _) => Err(e),
        (_, Err(e), _) => Err(e),
        (_, _, Err(e)) => Err(e),
        _ => if width == Width::B64 && pointer_alu(s, op, dst, src) is Some {
            Ok(pointer_alu(s, op, dst, src)->0)
        } else {
            let range = alu_range(op, width, s.regs[dst.0 as int].range(), operand_range(s, src));
            Ok(s.assigned(dst.0, RegType::Scalar(range)))
        },
    }
}

/// The state after a load.
pub open spec fn load_step(
    pc: usize,
    s: StateModel,
    size: MemSize,
    dst: Reg,
    base: Reg,
    offset: i16,
) -> Result<StateModel, VerifyError> {
    let unknown = s.assigned(dst.0, RegType::Scalar(Range::Top));
    match value_map(s, base, pc) {
        Err(e) => Err(e),
        Ok(Some(fd)) => match value_check(s, fd, offset, size, pc) {
            Err(e) => Err(e),
            Ok(()) => Ok(unknown),
        },
        Ok(None) => match s.regs[base.0 as int] {
            RegType::XdpMdPtr => match context_load(s, offset, size, pc) {
                Err(e) => Err(e),
                Ok(value) => Ok(s.assigned(dst.0, value)),
            },
            RegType::PacketPtr { offset: base_off } => match packet_check(
                s,
                base_off,
                offset,
                size,
                pc,
            ) {
                Err(e) => Err(e),
                Ok(()) => Ok(unknown),
            },
            _ => match stack_access(s, base, offset, size, pc) {
                Err(e) => Err(e),
                Ok((start, lo, hi)) => if s.readable(lo, hi) {
                    Ok(unknown)
                } else {
                    Err(VerifyError::UninitStackRead { pc, offset: start })
                },
            },
        },
    }
}

/// The state after a store.
pub open spec fn store_step(
    pc: usize,
    s: StateModel,
    size: MemSize,
    base: Reg,
    offset: i16,
    src: Operand,
) -> Result<StateModel, VerifyError> {
    match (operand_check(s, src, pc), value_map(s, base, pc)) {
        (Err(e), _) => Err(e),
        (_, Err(e)) => Err(e),
        (_, Ok(Some(fd))) => match value_check(s, fd, offset, size, pc) {
            Err(e) => Err(e),
            Ok(()) => Ok(s),
        },
        (_, Ok(None)) => match s.regs[base.0 as int] {
            RegType::XdpMdPtr => Err(read_only(s, offset, size, pc)),
            RegType::PacketPtr { .. } => Err(read_only(s, offset, size, pc)),
            _ => match stack_access(s, base, offset, size, pc) {
                Err(e) => Err(e),
                Ok((_, lo, hi)) => Ok(s.marked(lo, hi)),
            },
        },
    }
}

/// The state after one instruction, or why it is rejected.
pub open spec fn transfer(pc: usize, insn: Insn, s: StateModel) -> Result<StateModel, VerifyError> {
    match insn {
        Insn::Alu { width, op, dst, src } => alu_step(pc, s, width, op, dst, src),
        Insn::LoadImm64 { dst, imm } => Ok(s.assigned(dst.0, RegType::Scalar(Range::only(imm)))),
        Insn::Load { size, dst, base, offset } => load_step(pc, s, size, dst, base, offset),
        Insn::Store { size, base, offset, src } => store_step(pc, s, size, base, offset, src),
        Insn::Jump { op, dst, src, .. } => if op == JumpOp::Always {
            Ok(s)
        } else {
            match (init_check(s, dst, pc), operand_check(s, src, pc)) {
                (Err(e), _) => Err(e),
                (_, Err(e)) => Err(e),
                _ => Ok(s),
            }
        },
        Insn::Call { func } => match built_in_outcome(func, s, pc) {
            None => Err(VerifyError::UnknownHelper { pc, func }),
            Some(Err(e)) => Err(e),
            Some(Ok(value)) => Ok(s.assigned(0, value)),
        },
        Insn::Exit => match init_check(s, Reg(0), pc) {
            Err(e) => Err(e),
            Ok(()) => Ok(s),
        },
        Insn::Unknown { .. } => Err(VerifyError::IllegalInstruction { pc }),
    }
}

/// The known number that moves a pointer.
fn delta_of(state: &VerifierState, src: Operand) -> (r: Option<i64>)
    requires
        src.valid(),
    ensures
        r == known_delta(state@, src),
{
    match src {
        Operand::Imm(v) => Some(v as i64),
        Operand::Reg(r) => match state.regs[r.index()] {
            RegType::Scalar(Range::Interval { lo, hi }) => if lo == hi {
                Some(lo)
            } else {
                None
            },
            _ => None,
        },
    }
}

/// Pointer arithmetic: a copy keeps what a pointer points to, an addition or
/// subtraction of a known number moves stack and packet pointers. Tells
/// whether the instruction was handled.
pub fn ptr_alu_transfer(state: &mut VerifierState, op: AluOp, dst: Reg, src: Operand) -> (handled: bool)
    requires
        dst.valid(),
        src.valid(),
    ensures
        match pointer_alu(old(state)@, op, dst, src) {
            Some(s) => handled && final(state)@ == s,
            None => !handled && final(state)@ == old(state)@,
        },
{
    match op {
        AluOp::Mov => {
            if let Operand::Reg(r) = src {
                if !dst.is_frame_ptr() {
                    let pointer = state.regs[r.index()];
                    match pointer {
                        RegType::StackPtr { .. } | RegType::PacketPtr { .. } | RegType::XdpMdPtr => {
                            state.assign(dst.0, pointer);
                            return true;
                        },
                        _ => {},
                    }
                }
            }
            false
        },
        AluOp::Add | AluOp::Sub => {
            let delta: i64 = match delta_of(state, src) {
                Some(k) => k,
                None => {
                    return false;
                },
            };
            let subtract = matches!(op, AluOp::Sub);
            let ghost sign: int = if op == AluOp::Sub {
                -1
            } else {
                1
            };
            match state.regs[dst.index()] {
                RegType::StackPtr { offset } => {
                    if delta < i32::MIN as i64 || delta > i32::MAX as i64 {
                        return false;
                    }
                    let k: i64 = if subtract {
                        -delta
                    } else {
                        delta
                    };
                    assert(k == sign * delta);
                    let moved: i64 = offset as i64 + k;
                    let next = if k > i32::MAX as i64 || moved < i32::MIN as i64 || moved
                        > i32::MAX as i64 {
                        RegType::Scalar(Range::Top)
                    } else {
                        RegType::StackPtr { offset: moved as i32 }
                    };
                    assert(next == moved_stack(offset, delta, sign));
                    state.assign(dst.0, next);
                    true
                },
                RegType::PacketPtr { offset } => {
                    let next = if subtract && delta == i64::MIN {
                        RegType::Scalar(Range::Top)
                    } else {
                        let k: i64 = if subtract {
                            -delta
                        } else {
                            delta
                        };
                        assert(k == sign * delta);
                        RegType::PacketPtr { offset: offset + Range::exact(k) }
                    };
                    assert(next == moved_packet(offset, delta, sign));
                    state.assign(dst.0, next);
                    true
                },
                _ => false,
            }
        },
        _ => false,
    }
}

/// Transfers an ALU instruction: validates byte swaps, requires what it
/// reads to be written, and computes the result.
pub fn alu_transfer(
    pc: usize,
    state: &mut VerifierState,
    width: Width,
    op: AluOp,
    dst: Reg,
    src: Operand,
) -> (r: Result<(), VerifyError>)
    requires
        dst.valid(),
        src.valid(),
    ensures
        match alu_step(pc, old(state)@, width, op, dst, src) {
            Ok(s) => r is Ok && final(state)@ == s,
            Err(e) => r == Err::<(), VerifyError>(e) && final(state)@ == old(state)@,
        },
{
    if let AluOp::End(_) = op {
        match src {
            Operand::Imm(w) => if w != 16 && w != 32 && w != 64 {
                return Err(VerifyError::InvalidEndWidth { pc, width: w as i64 });
            },
            Operand::Reg(_) => {
                return Err(VerifyError::IllegalInstruction { pc });
            },
        }
    }
    if let Operand::Reg(r) = src {
        if let Err(e) = ensure_init(state, r, pc) {
            return Err(e);
        }
    }
    if !matches!(op, AluOp::Mov) {
        if let Err(e) = ensure_init(state, dst, pc) {
            return Err(e);
        }
    }
    if width == Width::B64 && ptr_alu_transfer(state, op, dst, src) {
        return Ok(());
    }
    let lhs = state.regs[dst.index()].scalar_range();
    let rhs = match src {
        Operand::Reg(r) => state.regs[r.index()].scalar_range(),
        Operand::Imm(v) => Range::exact(v as i64),
    };
    let full = match op {
        AluOp::Add => lhs + rhs,
        AluOp::Or => lhs | rhs,
        AluOp::And => lhs & rhs,
        AluOp::Xor => lhs ^ rhs,
        AluOp::Mov => rhs,
        AluOp::Lsh => {
            let exact = match (width, rhs) {
                (Width::B64, _) => true,
                (Width::B32, Range::Interval { lo, hi }) => 0 <= lo && hi <= 31,
                _ => false,
            };
            if exact {
                lhs << rhs
            } else {
                Range::Top
            }
        },
        AluOp::Rsh => lhs >> rhs,
        AluOp::Arsh => lhs.sar(rhs),
        // A divisor may be zero: the result is then zero, and no trap.
        AluOp::Sub | AluOp::Mul | AluOp::Div | AluOp::Mod | AluOp::Neg | AluOp::End(_) => {
            Range::Top
        },
    };
    let result = match width {
        Width::B32 => full.trunc32(),
        Width::B64 => full,
    };
    state.assign(dst.0, RegType::Scalar(result));
    Ok(())
}

/// Transfers a load.
fn load_transfer(
    pc: usize,
    state: &mut VerifierState,
    size: MemSize,
    dst: Reg,
    base: Reg,
    offset: i16,
) -> (r: Result<(), VerifyError>)
    requires
        dst.valid(),
        base.valid(),
    ensures
        match load_step(pc, old(state)@, size, dst, base, offset) {
            Ok(s) => r is Ok && final(state)@ == s,
            Err(e) => r == Err::<(), VerifyError>(e) && final(state)@ == old(state)@,
        },
{
    match map_value_fd(state, base, pc) {
        Err(e) => {
            return Err(e);
        },
        Ok(Some(fd)) => {
            if let Err(e) = check_map_value_bounds(state, fd, offset, size, pc) {
                return Err(e);
            }
        },
        Ok(None) => {
            match state.regs[base.index()] {
                RegType::XdpMdPtr => {
                    return match check_ctx_load(state, offset, size, pc) {
                        Err(e) => Err(e),
                        Ok(value) => {
                            state.assign(dst.0, value);
                            Ok(())
                        },
                    };
                },
                RegType::PacketPtr { offset: base_off } => {
                    if let Err(e) = check_packet_bounds(state, base_off, offset, size, pc) {
                        return Err(e);
                    }
                },
                _ => {
                    match check_mem_access(state, base, offset, size, pc) {
                        Err(e) => {
                            return Err(e);
                        },
                        Ok((start, lo, hi)) => {
                            // A narrower store must not satisfy a wider load.
                            if !state.stack_range_init(lo, hi) {
                                return Err(VerifyError::UninitStackRead { pc, offset: start });
                            }
                        },
                    }
                },
            }
        },
    }
    state.assign(dst.0, RegType::Scalar(Range::Top));
    Ok(())
}

/// Transfers a store.
fn store_transfer(
    pc: usize,
    state: &mut VerifierState,
    size: MemSize,
    base: Reg,
    offset: i16,
    src: Operand,
) -> (r: Result<(), VerifyError>)
    requires
        base.valid(),
        src.valid(),
    ensures
        match store_step(pc, old(state)@, size, base, offset, src) {
            Ok(s) => r is Ok && final(state)@ == s,
            Err(e) => r == Err::<(), VerifyError>(e) && final(state)@ == old(state)@,
        },
{
    if let Operand::Reg(r) = src {
        if let Err(e) = ensure_init(state, r, pc) {
            return Err(e);
        }
    }
    match map_value_fd(state, base, pc) {
        Err(e) => Err(e),
        Ok(Some(fd)) => check_map_value_bounds(state, fd, offset, size, pc),
        Ok(None) => match state.regs[base.index()] {
            RegType::XdpMdPtr | RegType::PacketPtr { .. } => Err(
                packet_store_error(state, offset, size, pc),
            ),
            _ => match check_mem_access(state, base, offset, size, pc) {
                Err(e) => Err(e),
                Ok((_, lo, hi)) => {
                    state.mark_stack_range(lo, hi);
                    Ok(())
                },
            },
        },
    }
}

/// Checks one instruction and transfers the abstract state.
pub fn check_and_transfer(
    pc: usize,
    insn: &Insn,
    state: &mut VerifierState,
    helpers: HelperSignatureRegistry,
) -> (r: Result<(), VerifyError>)
    requires
        insn.valid(),
    ensures
        match transfer(pc, *insn, old(state)@) {
            Ok(s) => r is Ok && final(state)@ == s,
            Err(e) => r == Err::<(), VerifyError>(e) && final(state)@ == old(state)@,
        },
{
    match *insn {
        Insn::Alu { width, op, dst, src } => alu_transfer(pc, state, width, op, dst, src),
        Insn::LoadImm64 { dst, imm } => {
            state.assign(dst.0, RegType::Scalar(Range::exact(imm)));
            Ok(())
        },
        Insn::Load { size, dst, base, offset } => load_transfer(pc, state, size, dst, base, offset),
        Insn::Store { size, base, offset, src } => store_transfer(
            pc,
            state,
            size,
            base,
            offset,
            src,
        ),
        // An unconditional jump has operands that nothing reads.
        Insn::Jump { op: JumpOp::Always, .. } => Ok(()),
        Insn::Jump { dst, src, .. } => {
            if let Err(e) = ensure_init(state, dst, pc) {
                return Err(e);
            }
            match src {
                Operand::Reg(r) => ensure_init(state, r, pc),
                Operand::Imm(_) => Ok(()),
            }
        },
        Insn::Call { func } => match helpers.get(func) {
            None => Err(VerifyError::UnknownHelper { pc, func }),
            Some(helper) => match helper.effect(state, pc) {
                Err(e) => Err(e),
                Ok(value) => {
                    state.assign(0, value);
                    if helper.may_write_memory() {
                        state.clear_stack_init();
                    }
                    Ok(())
                },
            },
        },
        Insn::Exit => ensure_init(state, Reg(0), pc),
        Insn::Unknown { .. } => Err(VerifyError::IllegalInstruction { pc }),
    }
}

/// A register after a comparison with a number. `current` is the register
/// as it stands and `incoming` what was compared. Only a test for null
/// refines a map pointer; a pointer that is known not to be null keeps that;
/// everything else becomes a refined scalar.
pub open spec fn compared(
    current: RegType,
    incoming: RegType,
    op: JumpOp,
    k: i64,
    taken: bool,
) -> RegType {
    match incoming {
        RegType::MaybeMapPtr { fd } => if k == 0 && (op == JumpOp::Eq || op == JumpOp::Ne) {
            if (op == JumpOp::Eq) == taken {
                RegType::Scalar(Range::only(0))
            } else {
                RegType::MapPtr { fd }
            }
        } else {
            current
        },
        RegType::MapPtr { .. } => current,
        _ => RegType::Scalar(refined(incoming.range(), op, k, taken)),
    }
}

/// Refines a register on a branch edge.
pub fn refine_reg(reg: &mut RegType, incoming: &RegType, op: JumpOp, k: i64, taken: bool)
    ensures
        *final(reg) == compared(*old(reg), *incoming, op, k, taken),
{
    match *incoming {
        RegType::MaybeMapPtr { fd } => {
            let (is_eq, holds) = match op {
                JumpOp::Eq => (true, taken),
                JumpOp::Ne => (true, !taken),
                _ => (false, taken),
            };
            if is_eq && k == 0 {
                *reg = if holds {
                    RegType::Scalar(Range::exact(0))
                } else {
                    RegType::MapPtr { fd }
                };
            }
        },
        RegType::MapPtr { .. } => {},
        _ => {
            *reg = RegType::Scalar(refine(incoming.scalar_range(), op, k, taken));
        },
    }
}

/// The comparison with its operands exchanged, where there is one.
pub open spec fn swapped(op: JumpOp) -> Option<JumpOp> {
    match op {
        JumpOp::Eq => Some(JumpOp::Eq),
        JumpOp::Ne => Some(JumpOp::Ne),
        JumpOp::Gt => Some(JumpOp::Lt),
        JumpOp::Ge => Some(JumpOp::Le),
        JumpOp::Lt => Some(JumpOp::Gt),
        JumpOp::Le => Some(JumpOp::Ge),
        JumpOp::Sgt => Some(JumpOp::Slt),
        JumpOp::Sge => Some(JumpOp::Sle),
        JumpOp::Slt => Some(JumpOp::Sgt),
        JumpOp::Sle => Some(JumpOp::Sge),
        _ => None,
    }
}

/// Exchanges the operands of a comparison.
pub fn swap_op(op: JumpOp) -> (r: Option<JumpOp>)
    ensures
        r == swapped(op),
{
    match op {
        JumpOp::Eq => Some(JumpOp::Eq),
        JumpOp::Ne => Some(JumpOp::Ne),
        JumpOp::Gt => Some(JumpOp::Lt),
        JumpOp::Ge => Some(JumpOp::Le),
        JumpOp::Lt => Some(JumpOp::Gt),
        JumpOp::Le => Some(JumpOp::Ge),
        JumpOp::Sgt => Some(JumpOp::Slt),
        JumpOp::Sge => Some(JumpOp::Sle),
        JumpOp::Slt => Some(JumpOp::Sgt),
        JumpOp::Sle => Some(JumpOp::Sge),
        _ => None,
    }
}

/// The packet offset that an address stands for, if it can be computed.
pub open spec fn packet_offset(addr: i64) -> Option<i64> {
    if addr - PACKET_BASE >= i64::MIN {
        Some((addr - PACKET_BASE) as i64)
    } else {
        None
    }
}

/// The state after a comparison of two registers. Where one is a packet
/// pointer and the other a known address, the offset of the pointer is
/// refined.
pub open spec fn bound_checked(s: StateModel, op: JumpOp, dst: Reg, src: Reg, taken: bool) -> StateModel {
    match (s.regs[dst.0 as int], s.regs[src.0 as int]) {
        (RegType::PacketPtr { offset }, RegType::Scalar(r)) => match r.single() {
            Some(addr) => match packet_offset(addr) {
                Some(k) => StateModel {
                    regs: s.regs.update(
                        dst.0 as int,
                        RegType::PacketPtr { offset: refined(offset, op, k, taken) },
                    ),
                    ..s
                },
                None => s,
            },
            None => s,
        },
        (RegType::Scalar(r), RegType::PacketPtr { offset }) => match (r.single(), swapped(op)) {
            (Some(addr), Some(op)) => match packet_offset(addr) {
                Some(k) => StateModel {
                    regs: s.regs.update(
                        src.0 as int,
                        RegType::PacketPtr { offset: refined(offset, op, k, taken) },
                    ),
                    ..s
                },
                None => s,
            },
            _ => s,
        },
        _ => s,
    }
}

/// Refines a packet pointer by a comparison with a known address, such as
/// the packet end.
pub fn refine_packet_edge(out: &mut VerifierState, op: JumpOp, dst: Reg, src: Reg, taken: bool)
    requires
        dst.valid(),
        src.valid(),
    ensures
        final(out)@ == bound_checked(old(out)@, op, dst, src, taken),
{
    match (out.regs[dst.index()], out.regs[src.index()]) {
        (RegType::PacketPtr { offset }, RegType::Scalar(Range::Interval { lo, hi })) => {
            if lo == hi {
                if let Some(k) = lo.checked_sub(PACKET_BASE) {
                    out.regs[dst.index()] = RegType::PacketPtr {
                        offset: refine(offset, op, k, taken),
                    };
                    assert(out@ =~= bound_checked(old(out)@, op, dst, src, taken));
                }
            }
        },
        (RegType::Scalar(Range::Interval { lo, hi }), RegType::PacketPtr { offset }) => {
            if lo == hi {
                if let (Some(k), Some(op)) = (lo.checked_sub(PACKET_BASE), swap_op(op)) {
                    out.regs[src.index()] = RegType::PacketPtr {
                        offset: refine(offset, op, k, taken),
                    };
                    assert(out@.regs =~= old(out)@.regs.update(
                        src.0 as int,
                        RegType::PacketPtr { offset: refined(offset, op, k, taken) },
                    ));
                }
            }
        },
        _ => {},
    }
}

/// Whether no value of a range is negative.
pub open spec fn natural(r: Range) -> bool {
    r matches Range::Interval { lo, .. } && lo >= 0
}

/// Whether a comparison orders its operands as signed numbers do.
pub open spec fn signed(op: JumpOp) -> bool {
    op != JumpOp::Gt && op != JumpOp::Ge && op != JumpOp::Lt && op != JumpOp::Le
}

/// Whether a comparison heeds the sign of its operands.
pub open spec fn by_sign(op: JumpOp) -> bool {
    op == JumpOp::Sgt || op == JumpOp::Sge || op == JumpOp::Slt || op == JumpOp::Sle
}

/// Whether a comparison with `k` orders the values of a range as signed
/// 64-bit numbers.
pub open spec fn comparable(r: Range, width: Width, op: JumpOp, k: i64) -> bool {
    match width {
        Width::B64 => signed(op) || (natural(r) && k >= 0),
        Width::B32 => natural(r) && (r matches Range::Interval { hi, .. } && hi <= (if k >= 0 && !by_sign(op) {
            0xffff_ffff
        } else {
            0x7fff_ffffint
        })) && (signed(op) || k >= 0),
    }
}

/// Whether the outcome of an unsigned comparison bounds the value from
/// above.
pub open spec fn caps(op: JumpOp, taken: bool) -> bool {
    match op {
        JumpOp::Lt => taken,
        JumpOp::Le => taken,
        JumpOp::Ge => !taken,
        JumpOp::Gt => !taken,
        _ => false,
    }
}

/// A register on an edge of a comparison with a number. It is refined where
/// the width and the sign of the comparison allow it; what is bounded from
/// above as an unsigned number is not negative. A pointer that is compared
/// with a number counts as a number from there on, unless it is a map's.
pub open spec fn edge_reg(t: RegType, width: Width, op: JumpOp, k: i64, taken: bool) -> RegType {
    if t is MapPtr || t is MaybeMapPtr || comparable(t.range(), width, op, k) {
        compared(t, t, op, k, taken)
    } else if width == Width::B64 && k >= 0 && caps(op, taken) {
        compared(t, RegType::Scalar(t.range().met(at_least(0))), op, k, taken)
    } else {
        RegType::Scalar(t.range())
    }
}

/// Whether a comparison of a packet pointer with a known address orders the
/// offsets as it orders the addresses.
pub open spec fn near(op: JumpOp, offset: Range, r: Range) -> bool {
    &&& offset matches Range::Interval { lo, hi } && 0 <= lo && (hi <= 0x7fff_ffff || !signed(op))
    &&& r.single() matches Some(addr) && addr >= 0
}

/// Whether a comparison of two registers tells about a packet pointer.
pub open spec fn packet_applies(s: StateModel, width: Width, op: JumpOp, dst: Reg, src: Reg) -> bool {
    width == Width::B64 && match (s.regs[dst.0 as int], s.regs[src.0 as int]) {
        (RegType::PacketPtr { offset }, RegType::Scalar(r)) => near(op, offset, r),
        (RegType::Scalar(r), RegType::PacketPtr { offset }) => near(op, offset, r),
        _ => false,
    }
}

/// The state on an edge out of a block whose last instruction is `last`.
pub open spec fn edge_state(s: StateModel, kind: EdgeKind, last: Insn) -> StateModel {
    if kind == EdgeKind::BranchTrue || kind == EdgeKind::BranchFalse {
        let taken = kind == EdgeKind::BranchTrue;
        match last {
            Insn::Jump { width, op, dst, src: Operand::Imm(k), .. } => StateModel {
                regs: s.regs.update(
                    dst.0 as int,
                    edge_reg(s.regs[dst.0 as int], width, op, k as i64, taken),
                ),
                ..s
            },
            Insn::Jump { width, op, dst, src: Operand::Reg(src), .. } => if packet_applies(
                s,
                width,
                op,
                dst,
                src,
            ) {
                bound_checked(s, op, dst, src, taken)
            } else {
                s
            },
            _ => s,
        }
    } else {
        s
    }
}

/// The comparison of a register with a number that ends a block.
pub fn jump_info(insn: &Insn) -> (r: Option<(JumpOp, Reg, i64)>)
    ensures
        r == (match *insn {
            Insn::Jump { op, dst, src: Operand::Imm(k), .. } => Some((op, dst, k as i64)),
            _ => None,
        }),
{
    match *insn {
        Insn::Jump { op, dst, src: Operand::Imm(k), .. } => Some((op, dst, k as i64)),
        _ => None,
    }
}

/// The comparison of two registers that ends a block.
pub fn jump_info_reg(insn: &Insn) -> (r: Option<(JumpOp, Reg, Reg)>)
    ensures
        r == (match *insn {
            Insn::Jump { op, dst, src: Operand::Reg(src), .. } => Some((op, dst, src)),
            _ => None,
        }),
{
    match *insn {
        Insn::Jump { op, dst, src: Operand::Reg(src), .. } => Some((op, dst, src)),
        _ => None,
    }
}

/// Tells whether a comparison is signed, or an equality.
fn is_signed(op: JumpOp) -> (r: bool)
    ensures
        r == signed(op),
{
    !matches!(op, JumpOp::Gt | JumpOp::Ge | JumpOp::Lt | JumpOp::Le)
}

/// Tells whether a comparison orders a range as signed 64-bit numbers.
fn is_comparable(range: Range, width: Width, op: JumpOp, k: i64) -> (r: bool)
    ensures
        r == comparable(range, width, op, k),
{
    let sign_free = !matches!(op, JumpOp::Sgt | JumpOp::Sge | JumpOp::Slt | JumpOp::Sle);
    let top: i64 = if k >= 0 && sign_free {
        0xffff_ffff
    } else {
        0x7fff_ffff
    };
    let (natural, small) = match range {
        Range::Interval { lo, hi } => (lo >= 0, hi <= top),
        _ => (false, false),
    };
    match width {
        Width::B64 => is_signed(op) || (natural && k >= 0),
        Width::B32 => natural && small && (is_signed(op) || k >= 0),
    }
}

/// Refines a register on an edge of a comparison with a number.
fn refine_reg_edge(incoming: RegType, width: Width, op: JumpOp, k: i64, taken: bool) -> (r: RegType)
    ensures
        r == edge_reg(incoming, width, op, k, taken),
{
    let mut reg = incoming;
    let range = incoming.scalar_range();
    let on_map = matches!(incoming, RegType::MapPtr { .. } | RegType::MaybeMapPtr { .. });
    let capped = match op {
        JumpOp::Lt | JumpOp::Le => taken,
        JumpOp::Ge | JumpOp::Gt => !taken,
        _ => false,
    };
    if on_map || is_comparable(range, width, op, k) {
        refine_reg(&mut reg, &incoming, op, k, taken);
    } else if width == Width::B64 && k >= 0 && capped {
        let low = RegType::Scalar(range.meet(Range::Interval { lo: 0, hi: i64::MAX }));
        refine_reg(&mut reg, &low, op, k, taken);
    } else {
        reg = RegType::Scalar(range);
    }
    reg
}

/// Tells whether a comparison of two registers tells about a packet pointer.
fn tells_packet(state: &VerifierState, width: Width, op: JumpOp, dst: Reg, src: Reg) -> (r: bool)
    requires
        dst.valid(),
        src.valid(),
    ensures
        r == packet_applies(state@, width, op, dst, src),
{
    if width != Width::B64 {
        return false;
    }
    let (offset, range) = match (state.regs[dst.index()], state.regs[src.index()]) {
        (RegType::PacketPtr { offset }, RegType::Scalar(range)) => (offset, range),
        (RegType::Scalar(range), RegType::PacketPtr { offset }) => (offset, range),
        _ => {
            return false;
        },
    };
    let close = match offset {
        Range::Interval { lo, hi } => 0 <= lo && (hi <= 0x7fff_ffff || !is_signed(op)),
        _ => false,
    };
    let known = match range {
        Range::Interval { lo, hi } => lo == hi && lo >= 0,
        _ => false,
    };
    close && known
}

/// Refines the state on one edge out of a block.
pub fn refine_edge(out: &mut VerifierState, kind: EdgeKind, last: &Insn)
    requires
        last.valid(),
    ensures
        final(out)@ == edge_state(old(out)@, kind, *last),
{
    let taken = match kind {
        EdgeKind::BranchTrue => true,
        EdgeKind::BranchFalse => false,
        EdgeKind::Fallthrough | EdgeKind::Unconditional => {
            return;
        },
    };
    let width = match *last {
        Insn::Jump { width, .. } => width,
        _ => {
            return;
        },
    };
    if let Some((op, dst, k)) = jump_info(last) {
        let reg = refine_reg_edge(out.regs[dst.index()], width, op, k, taken);
        out.regs[dst.index()] = reg;
        assert(out@.regs =~= old(out)@.regs.update(dst.0 as int, reg));
        return;
    }
    if let Some((op, dst, src)) = jump_info_reg(last) {
        if tells_packet(out, width, op, dst, src) {
            refine_packet_edge(out, op, dst, src, taken);
        }
    }
}

/// What an instruction does, in words.
pub open spec fn action(insn: Insn) -> Seq<char> {
    match insn {
        Insn::Alu { op, dst, src, .. } => dst.display() + " "@ + op.name() + "= "@ + src.display(),
        Insn::LoadImm64 { dst, imm } => dst.display() + " = 0x"@ + hex_text((imm as u64) as nat),
        Insn::Load { size, dst, base, offset } => dst.display() + " = *("@ + size.name() + " *)("@
            + base.display() + " + "@ + int_text(offset as int) + ")"@,
        Insn::Store { size, base, offset, src } => "*("@ + size.name() + " *)("@ + base.display()
            + " + "@ + int_text(offset as int) + ") = "@ + src.display(),
        Insn::Jump { op, dst, src, offset, .. } => op.name() + " "@ + dst.display() + ", "@
            + src.display() + ", +"@ + int_text(offset as int),
        Insn::Call { func } => "call "@ + nat_text(func as nat),
        Insn::Exit => "exit"@,
        Insn::Unknown { .. } => "unknown"@,
    }
}

/// Describes what an instruction does.
pub fn describe_action(insn: &Insn) -> (s: String)
    ensures
        s@ == action(*insn),
{
    match *insn {
        Insn::Alu { op, dst, src, .. } => {
            let mut s = dst.to_string();
            s.append(" ");
            s.append(op.mnemonic());
            s.append("= ");
            s.append(src.to_string().as_str());
            s
        },
        Insn::LoadImm64 { dst, imm } => {
            let mut s = dst.to_string();
            s.append(" = 0x");
            push_hex(&mut s, imm as u64);
            s
        },
        Insn::Load { size, dst, base, offset } => {
            let mut s = dst.to_string();
            s.append(" = *(");
            s.append(size.mnemonic());
            s.append(" *)(");
            s.append(base.to_string().as_str());
            s.append(" + ");
            push_int(&mut s, offset as i64);
            s.append(")");
            s
        },
        Insn::Store { size, base, offset, src } => {
            let mut s = String::from_str("*(");
            s.append(size.mnemonic());
            s.append(" *)(");
            s.append(base.to_string().as_str());
            s.append(" + ");
            push_int(&mut s, offset as i64);
            s.append(") = ");
            s.append(src.to_string().as_str());
            s
        },
        Insn::Jump { op, dst, src, offset, .. } => {
            let mut s = String::from_str(op.mnemonic());
            s.append(" ");
            s.append(dst.to_string().as_str());
            s.append(", ");
            s.append(src.to_string().as_str());
            s.append(", +");
            push_int(&mut s, offset as i64);
            s
        },
        Insn::Call { func } => {
            let mut s = String::from_str("call ");
            push_nat(&mut s, func as u64);
            s
        },
        Insn::Exit => String::from_str("exit"),
        Insn::Unknown { .. } => String::from_str("unknown"),
    }
}

/// An instruction changes registers and marks only: the sizes, the slot
/// values, the maps and the packet length stay.
pub proof fn transfer_keeps_shape(pc: usize, insn: Insn, s: StateModel)
    requires
        s.wf(),
        insn.valid(),
        transfer(pc, insn, s) is Ok,
    ensures
        transfer(pc, insn, s)->Ok_0.wf(),
        transfer(pc, insn, s)->Ok_0.stack == s.stack,
        transfer(pc, insn, s)->Ok_0.maps == s.maps,
        transfer(pc, insn, s)->Ok_0.packet_len == s.packet_len,
{
}

/// The register that an instruction may write.
pub open spec fn target_of(insn: Insn) -> Option<Reg> {
    match insn {
        Insn::Alu { dst, .. } => Some(dst),
        Insn::LoadImm64 { dst, .. } => Some(dst),
        Insn::Load { dst, .. } => Some(dst),
        Insn::Call { .. } => Some(Reg(0)),
        _ => None,
    }
}

/// An instruction changes no register but its target, never the frame
/// pointer, and only a store marks stack bytes.
pub proof fn transfer_changes_its_target_only(pc: usize, insn: Insn, s: StateModel, r: Reg)
    requires
        s.wf(),
        insn.valid(),
        r.valid(),
        target_of(insn) != Some(r) || r == Reg(10),
        transfer(pc, insn, s) is Ok,
    ensures
        transfer(pc, insn, s)->Ok_0.regs[r.0 as int] == s.regs[r.0 as int],
        !(insn is Store) ==> transfer(pc, insn, s)->Ok_0.init == s.init,
{
}

/// When instructions are rejected whatever they access: an exit exactly
/// where `r0` was never written, a call of an unknown helper exactly where
/// no helper has the id, an unknown instruction always, and a jump without a
/// condition never.
pub proof fn transfer_rejects(pc: usize, insn: Insn, s: StateModel)
    ensures
        insn is Exit ==> (transfer(pc, insn, s) is Err <==> s.regs[0] == RegType::NotInit),
        insn matches Insn::Call { func } ==> (transfer(pc, insn, s) == Err::<StateModel, VerifyError>(
            VerifyError::UnknownHelper { pc, func },
        ) <==> !known_helper(func)),
        insn is Unknown ==> transfer(pc, insn, s) == Err::<StateModel, VerifyError>(
            VerifyError::IllegalInstruction { pc },
        ),
        insn matches Insn::Jump { op, .. } && op == JumpOp::Always ==> transfer(pc, insn, s) == Ok::<
            StateModel,
            VerifyError,
        >(s),
{
    if let Insn::Call { func } = insn {
        lemma_known_outcome(func, s, pc);
    }
}

/// A store through a stack pointer marks the bytes that it writes, and no
/// others.
pub proof fn stack_stores_mark_their_bytes(
    pc: usize,
    s: StateModel,
    size: MemSize,
    base: Reg,
    offset: i16,
    src: Operand,
    at: i32,
    j: int,
)
    requires
        s.wf(),
        base.valid(),
        s.regs[base.0 as int] == (RegType::StackPtr { offset: at }),
        store_step(pc, s, size, base, offset, src) is Ok,
        0 <= j < 512,
    ensures
        store_step(pc, s, size, base, offset, src)->Ok_0.init[j] == (s.init[j] || 512 + at + offset <= j < 512 + at
            + offset + size.len()),
{
}

/// An edge refines registers only.
pub proof fn edge_keeps_shape(s: StateModel, kind: EdgeKind, last: Insn)
    requires
        s.wf(),
        last.valid(),
    ensures
        edge_state(s, kind, last).wf(),
        edge_state(s, kind, last).stack == s.stack,
        edge_state(s, kind, last).maps == s.maps,
        edge_state(s, kind, last).packet_len == s.packet_len,
{
}

} // verus!
