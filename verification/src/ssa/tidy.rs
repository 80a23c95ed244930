//! When a choice of registers is sound.
//!
//! A value is wanted at a point if it may still be used from there on. A plan
//! is tidy if no instruction, move or call writes the register of a value
//! that is still wanted.
use vstd::prelude::*;

use crate::isa::alu::end_width;
use crate::isa::insn::{AluOp, Reg};
use crate::ssa::{Op, START_PRED, SsaOperand, SsaValue};
use crate::ssa::emit::{moves_at_end, tramp_keys, tramp_moves, Placement, Plan};
use crate::ssa::moves::{agreeing, writes};
use crate::ssa::run::taken_from;

verus! {

/// Where values are wanted: before index `i` of a block.
pub type Wants = spec_fn(usize, int, SsaValue) -> bool;

impl Plan {
    /// Whether an instruction only computes a value that has no register.
    pub open spec fn idle(self, op: Op) -> bool {
        match op {
            Op::Const { dst, .. } => self.home(dst) is None,
            Op::LoadImm64 { dst, .. } => self.home(dst) is None,
            Op::Copy { dst, .. } => self.home(dst) is None,
            Op::BinOp { dst, .. } => self.home(dst) is None,
            _ => false,
        }
    }

    /// Whether what is wanted behind an instruction is wanted before it,
    /// unless the instruction defines it, and what it uses is. The entry
    /// pointers are in their registers from the start on.
    pub open spec fn wants_before(self, w: Wants, b: usize, i: int) -> bool {
        let op = self.prog.insns[i];
        &&& forall|v: SsaValue| #[trigger]
            self.prog.known(b, i, v) && w(b, i + 1, v) ==> w(b, i, v) || (op.def() == Some(v) && !(op is Phi)
                && !(op is FramePtr) && !(op is EntryCtx))
        &&& !(op is Phi) && !self.idle(op) ==> (forall|k: int|
            0 <= k < op.uses().len() ==> w(b, i, #[trigger] op.uses()[k]))
    }

    /// Whether what is wanted at the start of a block is wanted at the end
    /// of a predecessor, with the inputs in place of the phis.
    pub open spec fn wants_across(self, w: Wants, p: usize, b: usize) -> bool {
        let start = self.prog.nodes[b as int].start as int;
        let end = self.prog.nodes[p as int].end as int;
        forall|v: SsaValue| #[trigger]
            self.prog.known(b, start, v) ==> match self.prog.phi_for(b, v) {
                Some(inputs) => self.home(v) is Some ==> (taken_from(inputs, p, 0) matches Some(x) ==> w(
                    p,
                    end,
                    x,
                )),
                None => w(b, start, v) ==> w(p, end, v),
            }
    }

    /// Whether no other value that is wanted behind an instruction is in a
    /// register.
    pub open spec fn spares(self, w: Wants, b: usize, i: int, r: Reg, d: SsaValue) -> bool {
        forall|v: SsaValue| #[trigger]
            self.prog.known(b, i, v) && v != d && w(b, i + 1, v) ==> self.home(v) != Some(r)
    }

    /// Whether an instruction writes no register that is wanted.
    pub open spec fn spares_at(self, w: Wants, b: usize, i: int) -> bool {
        match self.prog.insns[i] {
            Op::Const { dst, .. } => self.home(dst) matches Some(r) ==> self.spares(w, b, i, r, dst),
            Op::LoadImm64 { dst, .. } => self.home(dst) matches Some(r) ==> self.spares(w, b, i, r, dst),
            Op::Copy { dst, .. } => self.home(dst) matches Some(r) ==> self.spares(w, b, i, r, dst),
            Op::Load { dst: Some(dst), .. } => self.home(dst) matches Some(r) ==> self.spares(w, b, i, r, dst),
            Op::BinOp { dst, width, op, lhs, rhs } => match self.home(dst) {
                Some(r) => {
                    &&& self.spares(w, b, i, r, dst)
                    &&& rhs matches SsaOperand::Value(u) ==> (self.home(u) == Some(r) && op != AluOp::Mov ==> (lhs
                        matches SsaOperand::Value(x) && self.home(x) == Some(r)))
                },
                None => op is End ==> (rhs matches SsaOperand::Imm(k) && end_width(k as i64)),
            },
            Op::Call { dst, args, .. } => self.spares_call(w, b, i, dst, args),
            _ => true,
        }
    }

    /// Whether a call leaves the registers that are wanted alone, or puts
    /// them back. No register that holds what is put back is one that an
    /// argument comes from or goes to, or that of the result.
    pub open spec fn spares_call(self, w: Wants, b: usize, i: int, d: SsaValue, args: Seq<SsaValue>) -> bool {
        let moves = self.shuffle(args, 5);
        &&& args.len() == 5
        &&& self.saves(moves, i, moves.len()) matches Some(saves) ==> {
            &&& forall|k: int| 0 <= k < saves.len() ==> !writes(moves, (#[trigger] saves[k]).1)
            &&& forall|k: int, j: int|
                0 <= k < saves.len() && 0 <= j < 5 ==> self.home(#[trigger] args[j]) != Some(
                    (#[trigger] saves[k]).1,
                )
            &&& self.home(d) matches Some(r) ==> (forall|k: int|
                0 <= k < saves.len() ==> (#[trigger] saves[k]).0 != r && saves[k].1 != r)
            &&& forall|v: SsaValue| #[trigger]
                self.prog.known(b, i, v) && v != d && w(b, i + 1, v) ==> (self.home(v) matches Some(r) ==> {
                    &&& r != Reg(0)
                    &&& self.home(d) != Some(r)
                    &&& forall|k: int| 0 <= k < saves.len() ==> (#[trigger] saves[k]).1 != r
                    &&& writes(moves, r) ==> self.crosses(r, i)
                })
        }
    }

    /// Whether the moves on an edge write no register that is wanted behind
    /// it, and none that the moves behind them read.
    pub open spec fn spares_across(self, list: Seq<Placement>, w: Wants, p: usize, b: usize) -> bool {
        let start = self.prog.nodes[b as int].start as int;
        let first = moves_at_end(self, list, p);
        let then_moves = tramp_moves(list, (p, b));
        &&& tramp_keys(self, list).contains((p, b)) ==> agreeing(then_moves)
        &&& forall|v: SsaValue| #[trigger]
            self.prog.known(b, start, v) && w(b, start, v) && self.prog.phi_for(b, v) is None ==> (self.home(v)
                matches Some(r) ==> !writes(first, r) && (tramp_keys(self, list).contains((p, b)) ==> !writes(
                then_moves,
                r,
            )))
        &&& tramp_keys(self, list).contains((p, b)) ==> (forall|v: SsaValue| #[trigger]
            self.prog.known(b, start, v) ==> (self.prog.phi_for(b, v) matches Some(inputs) ==> (taken_from(
                inputs,
                p,
                0,
            ) matches Some(x) ==> (self.home(x) matches Some(r) ==> !writes(first, r)))))
    }

    /// Whether the moves at the end of a block agree, and write no register
    /// that its control instruction reads.
    pub open spec fn spares_end(self, list: Seq<Placement>, b: usize) -> bool {
        let first = moves_at_end(self, list, b);
        &&& agreeing(first)
        &&& self.prog.terminator(b) matches Some(op) ==> (forall|k: int|
            0 <= k < op.uses().len() ==> (self.home(#[trigger] op.uses()[k]) matches Some(r) ==> !writes(first, r)))
    }

    /// Whether a register holds a value at the start of the program: an
    /// entry pointer, or a zero.
    pub open spec fn set_at_start(self, v: SsaValue, r: Reg) -> bool {
        match self.prog.def_of(v) {
            Some(Op::FramePtr { .. }) => r == Reg(10),
            Some(Op::EntryCtx { .. }) => r == Reg(1),
            Some(Op::Const { value, .. }) => value == 0 && r.0 < 10 && r.0 != 1,
            _ => false,
        }
    }

    /// Whether every register that is wanted at the start of the program
    /// holds its value there.
    pub open spec fn ready_at_start(self, w: Wants) -> bool {
        let b = self.prog.entry;
        let start = self.prog.nodes[b as int].start as int;
        forall|v: SsaValue| #[trigger]
            self.prog.known(b, start, v) && w(b, start, v) ==> (self.home(v) matches Some(r)
                ==> match self.prog.phi_for(b, v) {
                Some(inputs) => taken_from(inputs, START_PRED, 0) matches Some(x) && self.set_at_start(x, r),
                None => self.set_at_start(v, r),
            })
    }

    /// Whether only the frame pointer is in `r10`, and the entry pointers are
    /// where the machine puts them.
    pub open spec fn entry_homes(self) -> bool {
        forall|v: SsaValue|
            self.prog.defined(v) ==> (#[trigger] self.home(v) matches Some(r) ==> {
                &&& r == Reg(10) <==> self.prog.def_of(v)->0 is FramePtr
                &&& self.prog.def_of(v)->0 is EntryCtx ==> r == Reg(1)
            })
    }

    /// Whether no register is written while its value is wanted, for wants
    /// that follow the uses.
    pub open spec fn tidy(self, list: Seq<Placement>, w: Wants) -> bool {
        &&& self.entry_homes()
        &&& self.ready_at_start(w)
        &&& forall|b: usize, i: int| #[trigger]
            self.prog.within(b, i) && self.prog.reaches(b) ==> self.wants_before(w, b, i) && self.spares_at(w, b, i)
        &&& forall|p: usize| #[trigger] self.prog.reaches(p) ==> self.spares_end(list, p)
        &&& forall|p: usize, b: usize|
            self.prog.reaches(p) && #[trigger] self.prog.successors(p).contains(b) ==> self.wants_across(w, p, b)
                && self.spares_across(list, w, p, b)
    }
}

} // verus!
