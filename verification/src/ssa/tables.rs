//! Which value every register must hold where.
//!
//! A table names, for every point of a program and every register, the value
//! that the register must hold there, if some use behind the point needs it.
//! Where there is a table that follows the uses, and no instruction, move or
//! call writes a register against it, the registers of a plan are sound.
use vstd::prelude::*;

use crate::isa::alu::end_width;
use crate::isa::insn::{AluOp, Insn, Reg};
use crate::ssa::emit::{homes_valid, moves_at_end, tramp_keys, tramp_moves, Placement, Plan};
use crate::ssa::moves::{agreeing, writes};
use crate::ssa::run::taken_from;
use crate::ssa::tidy::Wants;
use crate::ssa::{Op, SsaError, SsaOperand, SsaValue, START_PRED};

verus! {

/// The values that registers must hold, by point and register.
pub type Table = Seq<Option<SsaValue>>;

/// The entry of a register before index `i` of a block. The end of a block
/// is a point of its own.
pub open spec fn cell(b: usize, i: int, r: Reg) -> int {
    (i + b) * 11 + r.0
}

impl Plan {
    /// The number of entries of a table.
    pub open spec fn cells(self) -> int {
        (self.prog.insns.len() as int + self.prog.nodes.len() as int) * 11
    }

    /// Whether a table has a value in its register, if it has one.
    pub open spec fn sits(self, t: Table, b: usize, i: int, v: SsaValue) -> bool {
        self.home(v) matches Some(r) ==> t[cell(b, i, r)] == Some(v)
    }

    /// The record of wants that a table is.
    pub open spec fn asked(self, t: Table) -> Wants {
        |b: usize, i: int, v: SsaValue| self.sits(t, b, i, v)
    }

    /// Whether entries are values in their own registers.
    pub open spec fn homed(self, t: Table) -> bool {
        forall|b: usize, i: int, r: Reg|
            r.0 < 11 && 0 <= cell(b, i, r) < t.len() ==> ((#[trigger] t[cell(b, i, r)]) matches Some(v) ==> self.home(
                v,
            ) == Some(r))
    }

    /// Whether what an instruction uses is in its registers before it.
    pub open spec fn rule_uses(self, t: Table, b: usize, i: int) -> bool {
        let op = self.prog.insns[i];
        !(op is Phi) && !self.idle(op) ==> forall|k: int|
            0 <= k < op.uses().len() ==> self.sits(t, b, i, #[trigger] op.uses()[k])
    }

    /// Whether an instruction gives a value its number when it runs.
    pub open spec fn brings(self, i: int, v: SsaValue) -> bool {
        let op = self.prog.insns[i];
        op.def() == Some(v) && !(op is Phi) && !(op is FramePtr) && !(op is EntryCtx)
    }

    /// Whether what a register must hold behind an instruction it must hold
    /// before, unless the instruction gives it.
    pub open spec fn rule_back(self, t: Table, b: usize, i: int, r: Reg) -> bool {
        t[cell(b, i + 1, r)] matches Some(v) ==> t[cell(b, i, r)] == Some(v) || self.brings(i, v)
    }

    /// Whether the input of a phi with a register is in its register at the
    /// end of a predecessor.
    pub open spec fn rule_phi(self, t: Table, p: usize, j: int) -> bool {
        self.prog.insns[j] matches Op::Phi { dst, inputs } ==> (self.home(dst) is Some ==> (taken_from(inputs, p, 0)
            matches Some(x) ==> self.sits(t, p, self.prog.nodes[p as int].end as int, x)))
    }

    /// Whether what a register must hold at the start of a block it must hold
    /// at the end of a predecessor, unless a phi gives it.
    pub open spec fn rule_across(self, t: Table, p: usize, b: usize, r: Reg) -> bool {
        t[cell(b, self.prog.nodes[b as int].start as int, r)] matches Some(v) ==> self.prog.phi_for(b, v) is Some
            || t[cell(p, self.prog.nodes[p as int].end as int, r)] == Some(v)
    }

    /// Whether an instruction follows a table.
    pub open spec fn rule_insn(self, t: Table, b: usize, i: int) -> bool {
        self.rule_uses(t, b, i) && forall|r: Reg| r.0 < 11 ==> #[trigger] self.rule_back(t, b, i, r)
    }

    /// Whether an edge follows a table.
    pub open spec fn rule_edge(self, t: Table, p: usize, b: usize) -> bool {
        &&& forall|r: Reg| r.0 < 11 ==> #[trigger] self.rule_across(t, p, b, r)
        &&& forall|j: int| self.prog.within(b, j) ==> #[trigger] self.rule_phi(t, p, j)
    }

    /// Whether all reached instructions and edges follow a table.
    pub open spec fn rules(self, t: Table) -> bool {
        &&& forall|b: usize, i: int| #[trigger]
            self.prog.within(b, i) && self.prog.reaches(b) ==> self.rule_insn(t, b, i)
        &&& forall|p: usize, b: usize|
            self.prog.reaches(p) && #[trigger] self.prog.successors(p).contains(b) ==> self.rule_edge(t, p, b)
    }

    /// Whether a register must hold nothing but a value behind an
    /// instruction.
    pub open spec fn open_for(self, t: Table, b: usize, i: int, r: Reg, d: SsaValue) -> bool {
        t[cell(b, i + 1, r)] matches Some(v) ==> v == d
    }

    /// Whether an instruction writes no register against a table.
    pub open spec fn clear_insn(self, t: Table, b: usize, i: int) -> bool {
        match self.prog.insns[i] {
            Op::Const { dst, .. } => self.home(dst) matches Some(r) ==> self.open_for(t, b, i, r, dst),
            Op::LoadImm64 { dst, .. } => self.home(dst) matches Some(r) ==> self.open_for(t, b, i, r, dst),
            Op::Copy { dst, .. } => self.home(dst) matches Some(r) ==> self.open_for(t, b, i, r, dst),
            Op::Load { dst: Some(dst), .. } => self.home(dst) matches Some(r) ==> self.open_for(t, b, i, r, dst),
            Op::BinOp { dst, op, lhs, rhs, .. } => match self.home(dst) {
                Some(r) => self.open_for(t, b, i, r, dst) && self.sides_ok(op, lhs, rhs, r),
                None => op is End ==> (rhs matches SsaOperand::Imm(k) && end_width(k as i64)),
            },
            Op::Call { dst, args, .. } => self.clear_call(t, b, i, dst, args),
            _ => true,
        }
    }

    /// Whether an operation that is written over its right operand is a move,
    /// or written over its left operand too.
    pub open spec fn sides_ok(self, op: AluOp, lhs: SsaOperand, rhs: SsaOperand, r: Reg) -> bool {
        rhs matches SsaOperand::Value(u) ==> (self.home(u) == Some(r) && op != AluOp::Mov ==> (lhs
            matches SsaOperand::Value(x) && self.home(x) == Some(r)))
    }

    /// Whether a register may hold a saved value during a call.
    pub open spec fn save_ok(self, args: Seq<SsaValue>, d: SsaValue, save: (Reg, Reg)) -> bool {
        let moves = self.shuffle(args, 5);
        &&& !writes(moves, save.1)
        &&& forall|j: int| 0 <= j < 5 ==> self.home(#[trigger] args[j]) != Some(save.1)
        &&& self.home(d) != Some(save.0)
        &&& self.home(d) != Some(save.1)
    }

    /// Whether a register that must hold a value behind a call does.
    pub open spec fn survives(
        self,
        i: int,
        args: Seq<SsaValue>,
        d: SsaValue,
        saves: Seq<(Reg, Reg)>,
        r: Reg,
    ) -> bool {
        &&& r != Reg(0)
        &&& self.home(d) != Some(r)
        &&& forall|k: int| 0 <= k < saves.len() ==> (#[trigger] saves[k]).1 != r
        &&& writes(self.shuffle(args, 5), r) ==> self.crosses(r, i)
    }

    /// Whether a call writes no register against a table, or puts back what
    /// it held.
    pub open spec fn clear_call(self, t: Table, b: usize, i: int, d: SsaValue, args: Seq<SsaValue>) -> bool {
        let moves = self.shuffle(args, 5);
        &&& args.len() == 5
        &&& forall|j: int| 0 <= j < 5 ==> self.home(#[trigger] args[j]) is Some
        &&& self.saves(moves, i, moves.len()) matches Some(saves) ==> {
            &&& forall|k: int| 0 <= k < saves.len() ==> self.save_ok(args, d, #[trigger] saves[k])
            &&& forall|r: Reg|
                r.0 < 11 ==> ((#[trigger] t[cell(b, i + 1, r)]) matches Some(v) ==> v == d || self.survives(
                    i,
                    args,
                    d,
                    saves,
                    r,
                ))
        }
    }

    /// Whether the moves on an edge write a register.
    pub open spec fn overwritten(self, list: Seq<Placement>, p: usize, b: usize, r: Reg) -> bool {
        writes(moves_at_end(self, list, p), r) || (tramp_keys(self, list).contains((p, b)) && writes(
            tramp_moves(list, (p, b)),
            r,
        ))
    }

    /// Whether the input of a phi of a block stays in its register until the
    /// trampoline of an edge reads it.
    pub open spec fn reads_ok(self, list: Seq<Placement>, p: usize, j: int) -> bool {
        self.prog.insns[j] matches Op::Phi { inputs, .. } ==> (taken_from(inputs, p, 0) matches Some(x) ==> (self.home(
            x,
        ) matches Some(r) ==> !writes(moves_at_end(self, list, p), r)))
    }

    /// Whether the moves on an edge write no register against a table.
    pub open spec fn clear_edge(self, list: Seq<Placement>, t: Table, p: usize, b: usize) -> bool {
        let start = self.prog.nodes[b as int].start as int;
        &&& tramp_keys(self, list).contains((p, b)) ==> agreeing(tramp_moves(list, (p, b)))
        &&& forall|r: Reg|
            r.0 < 11 ==> ((#[trigger] t[cell(b, start, r)]) matches Some(v) ==> self.prog.phi_for(b, v) is Some
                || !self.overwritten(list, p, b, r))
        &&& tramp_keys(self, list).contains((p, b)) ==> forall|j: int|
            self.prog.within(b, j) ==> #[trigger] self.reads_ok(list, p, j)
    }

    /// Whether a register that must hold a value at the start of the program
    /// does.
    pub open spec fn starts_with(self, v: SsaValue, r: Reg) -> bool {
        match self.prog.phi_for(self.prog.entry, v) {
            Some(inputs) => taken_from(inputs, START_PRED, 0) matches Some(x) && self.set_at_start(x, r),
            None => self.set_at_start(v, r),
        }
    }

    /// Whether the registers at the start of the program are as a table says.
    pub open spec fn clear_start(self, t: Table) -> bool {
        let b = self.prog.entry;
        let start = self.prog.nodes[b as int].start as int;
        forall|r: Reg| r.0 < 11 ==> ((#[trigger] t[cell(b, start, r)]) matches Some(v) ==> self.starts_with(v, r))
    }

    /// Whether nothing in a block or on its edges writes a register against a
    /// table.
    pub open spec fn clear_block(self, list: Seq<Placement>, t: Table, p: usize) -> bool {
        &&& self.spares_end(list, p)
        &&& forall|i: int| #[trigger] self.prog.within(p, i) ==> self.clear_insn(t, p, i)
        &&& forall|b: usize| #[trigger] self.prog.successors(p).contains(b) ==> self.clear_edge(list, t, p, b)
    }

    /// Whether nothing writes a register against a table.
    pub open spec fn clear(self, list: Seq<Placement>, t: Table) -> bool {
        &&& self.entry_homes()
        &&& self.clear_start(t)
        &&& forall|p: usize| #[trigger] self.prog.reaches(p) ==> self.clear_block(list, t, p)
    }

    /// Whether a table shows that the registers of the plan are sound.
    #[verifier::opaque]
    pub open spec fn settles(self, list: Seq<Placement>, t: Table) -> bool {
        t.len() == self.cells() && self.homed(t) && self.rules(t) && self.clear(list, t)
    }

    /// Whether some table shows that the registers of the plan are sound, and
    /// tables fit in memory.
    pub open spec fn sound(self) -> bool {
        self.cells() <= usize::MAX && exists|t: Table| #[trigger] self.settles(self.placements(0)->Ok_0, t)
    }

    /// What lowering gives: the emitted instructions, if the registers are
    /// sound.
    pub open spec fn approved(self) -> Result<Seq<Insn>, SsaError> {
        match self.lowered() {
            Err(e) => Err(e),
            Ok(insns) => if self.sound() {
                Ok(insns)
            } else {
                Err(SsaError::OutOfRegisters)
            },
        }
    }
}

/// Calls that are clear spare what is wanted.
proof fn lemma_clear_call(plan: Plan, t: Table, b: usize, i: int, d: SsaValue, args: Seq<SsaValue>)
    requires
        plan.clear_call(t, b, i, d, args),
        homes_valid(plan),
    ensures
        plan.spares_call(plan.asked(t), b, i, d, args),
{
    let w = plan.asked(t);
    let moves = plan.shuffle(args, 5);
    if let Some(saves) = plan.saves(moves, i, moves.len()) {
        assert forall|k: int| 0 <= k < saves.len() implies !writes(moves, (#[trigger] saves[k]).1) by {
            assert(plan.save_ok(args, d, saves[k]));
        }
        assert forall|k: int, j: int| 0 <= k < saves.len() && 0 <= j < 5 implies plan.home(#[trigger] args[j]) != Some(
            (#[trigger] saves[k]).1,
        ) by {
            assert(plan.save_ok(args, d, saves[k]));
        }
        assert forall|k: int| 0 <= k < saves.len() implies plan.home(d) != Some((#[trigger] saves[k]).0) && plan.home(d)
            != Some(saves[k].1) by {
            assert(plan.save_ok(args, d, saves[k]));
        }
        assert forall|v: SsaValue| #[trigger] plan.prog.known(b, i, v) && v != d && w(b, i + 1, v) implies (plan.home(v)
            matches Some(r) ==> {
            &&& r != Reg(0)
            &&& plan.home(d) != Some(r)
            &&& forall|k: int| 0 <= k < saves.len() ==> (#[trigger] saves[k]).1 != r
            &&& writes(moves, r) ==> plan.crosses(r, i)
        }) by {
            if let Some(r) = plan.home(v) {
                assert(plan.homes[v.0 as int] == Some(r));
                assert(t[cell(b, i + 1, r)] == Some(v));
                assert(plan.survives(i, args, d, saves, r));
            }
        }
    }
}

proof fn lemma_open(plan: Plan, t: Table, b: usize, i: int, r: Reg, d: SsaValue)
    requires
        plan.open_for(t, b, i, r, d),
    ensures
        plan.spares(plan.asked(t), b, i, r, d),
{
    let w = plan.asked(t);
    assert forall|v: SsaValue| #[trigger] plan.prog.known(b, i, v) && v != d && w(b, i + 1, v) implies plan.home(v) != Some(
        r,
    ) by {
        if plan.home(v) == Some(r) {
            assert(t[cell(b, i + 1, r)] == Some(v));
        }
    }
}

proof fn lemma_tidy_insn(plan: Plan, t: Table, b: usize, i: int)
    requires
        plan.rule_insn(t, b, i),
        plan.clear_insn(t, b, i),
        homes_valid(plan),
    ensures
        plan.wants_before(plan.asked(t), b, i),
        plan.spares_at(plan.asked(t), b, i),
{
    let w = plan.asked(t);
    let op = plan.prog.insns[i];
    assert forall|v: SsaValue| #[trigger] plan.prog.known(b, i, v) && w(b, i + 1, v) implies w(b, i, v) || (op.def()
        == Some(v) && !(op is Phi) && !(op is FramePtr) && !(op is EntryCtx)) by {
        if let Some(r) = plan.home(v) {
            assert(plan.homes[v.0 as int] == Some(r));
            assert(plan.rule_back(t, b, i, r));
        }
    }
    if let Some(d) = op.def() {
        if let Some(r) = plan.home(d) {
            if plan.open_for(t, b, i, r, d) {
                lemma_open(plan, t, b, i, r, d);
            }
        }
    }
    if let Op::Call { dst, args, .. } = op {
        lemma_clear_call(plan, t, b, i, dst, args);
    }
}

proof fn lemma_tidy_edge(plan: Plan, list: Seq<Placement>, t: Table, p: usize, b: usize)
    requires
        plan.prog.wf(),
        plan.rule_edge(t, p, b),
        plan.clear_edge(list, t, p, b),
        homes_valid(plan),
    ensures
        plan.wants_across(plan.asked(t), p, b),
        plan.spares_across(list, plan.asked(t), p, b),
{
    let w = plan.asked(t);
    let prog = plan.prog;
    let start = prog.nodes[b as int].start as int;
    let end = prog.nodes[p as int].end as int;
    let first = moves_at_end(plan, list, p);
    let then_moves = tramp_moves(list, (p, b));
    assert forall|v: SsaValue| #[trigger] prog.known(b, start, v) implies match prog.phi_for(b, v) {
        Some(inputs) => plan.home(v) is Some ==> (taken_from(inputs, p, 0) matches Some(x) ==> w(p, end, x)),
        None => w(b, start, v) ==> w(p, end, v),
    } by {
        if prog.phi_for(b, v) is Some {
            assert(prog.within(b, prog.site(v)));
            assert(plan.rule_phi(t, p, prog.site(v)));
        } else if let Some(r) = plan.home(v) {
            assert(plan.homes[v.0 as int] == Some(r));
            assert(plan.rule_across(t, p, b, r));
        }
    }
    assert forall|v: SsaValue| #[trigger]
        prog.known(b, start, v) && w(b, start, v) && prog.phi_for(b, v) is None implies (plan.home(v) matches Some(r)
        ==> !writes(first, r) && (tramp_keys(plan, list).contains((p, b)) ==> !writes(then_moves, r))) by {
        if let Some(r) = plan.home(v) {
            assert(plan.homes[v.0 as int] == Some(r));
            assert(t[cell(b, start, r)] == Some(v));
            assert(!plan.overwritten(list, p, b, r));
        }
    }
    if tramp_keys(plan, list).contains((p, b)) {
        assert forall|v: SsaValue| #[trigger] prog.known(b, start, v) implies (prog.phi_for(b, v) matches Some(inputs)
            ==> (taken_from(inputs, p, 0) matches Some(x) ==> (plan.home(x) matches Some(r) ==> !writes(first, r)))) by {
            if prog.phi_for(b, v) is Some {
                assert(prog.within(b, prog.site(v)));
                assert(plan.reads_ok(list, p, prog.site(v)));
            }
        }
    }
}

/// A table that settles a plan is a record of wants that makes it tidy.
pub proof fn settled_plans_are_tidy(plan: Plan, list: Seq<Placement>, t: Table)
    requires
        plan.prog.wf(),
        plan.settles(list, t),
        homes_valid(plan),
    ensures
        plan.tidy(list, plan.asked(t)),
{
    reveal(Plan::settles);
    let w = plan.asked(t);
    let prog = plan.prog;
    let b = prog.entry;
    let start = prog.nodes[b as int].start as int;
    assert forall|v: SsaValue| #[trigger] prog.known(b, start, v) && w(b, start, v) implies (plan.home(v) matches Some(r)
        ==> match prog.phi_for(b, v) {
        Some(inputs) => taken_from(inputs, START_PRED, 0) matches Some(x) && plan.set_at_start(x, r),
        None => plan.set_at_start(v, r),
    }) by {
        if let Some(r) = plan.home(v) {
            assert(plan.homes[v.0 as int] == Some(r));
            assert(t[cell(b, start, r)] == Some(v));
            assert(plan.starts_with(v, r));
        }
    }
    assert forall|b: usize, i: int| #[trigger] prog.within(b, i) && prog.reaches(b) implies plan.wants_before(w, b, i)
        && plan.spares_at(w, b, i) by {
        lemma_tidy_insn(plan, t, b, i);
    }
    assert forall|p: usize, b: usize|
        prog.reaches(p) && #[trigger] prog.successors(p).contains(b) implies plan.wants_across(w, p, b)
        && plan.spares_across(list, w, p, b) by {
        lemma_tidy_edge(plan, list, t, p, b);
    }
}

} // verus!
