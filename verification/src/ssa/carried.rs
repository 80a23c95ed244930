//! Lowered code carries the values of an SSA program in registers.
//!
//! For a tidy plan, the machine on the lowered code and the SSA program go
//! side by side: wherever a value is wanted, its register holds its number.
use vstd::prelude::*;

use crate::isa::insn::{AluOp, Insn, Operand, Reg};
use crate::ssa::code::{
    after_move, comes_to, lemma_comes_end, lemma_comes_on, lemma_comes_refl, lemma_comes_step,
    lemma_ends_now, lemma_fetch, lemma_fetch_len, lemma_insn_placed, lemma_run_move, machine_ends,
    moved_on, source_in, strides, Code,
};
use crate::ssa::emit::{const_src, move_pieces, plain, Piece};
use crate::ssa::moves::{MoveSrc, PlacedMove};
use crate::ssa::run::{computed, number_of, with_value, world_of, Ending, Given, SsaState, Values};
use crate::ssa::scope::{lemma_def_ok, lemma_move, lemma_sane_step, lemma_scope_known};
use crate::ssa::tidy::Wants;
use crate::ssa::{Op, SsaOperand, SsaValue};
use crate::vm::{StepResult, VmModel};

verus! {

/// Whether code and wants fit: the program is strict, and the plan is tidy.
pub open spec fn fitting(c: Code, w: Wants) -> bool {
    &&& c.ok()
    &&& c.plan.prog.strict()
    &&& c.plan.tidy(c.list, w)
}

/// Whether every wanted value is in its register.
pub open spec fn in_homes(c: Code, w: Wants, b: usize, i: int, env: Values, regs: Seq<i64>) -> bool {
    forall|v: SsaValue| #[trigger]
        c.plan.prog.known(b, i, v) && w(b, i, v) ==> (c.plan.home(v) matches Some(r) ==> regs[r.0 as int] == env(v))
}

/// Whether a machine and a run of the SSA program are at the same point.
pub open spec fn carried(c: Code, w: Wants, g: Given, s: SsaState, m: VmModel) -> bool {
    &&& c.plan.prog.sane(g, s)
    &&& c.at(m, c.insn_at(s.block, s.at))
    &&& c.body_from(s.block, s.at) is Ok
    &&& c.holds(c.insn_at(s.block, s.at), c.body_from(s.block, s.at)->Ok_0)
    &&& world_of(m) == s.world
    &&& m.regs[10] == g.frame
    &&& in_homes(c, w, s.block, s.at, s.env, m.regs)
}

/// Whether a run is at a later place of the code: further on in its block, or
/// in a block that is laid out behind it.
pub open spec fn ahead(c: Code, s: SsaState, t: SsaState) -> bool {
    (t.block == s.block && t.at > s.at) || c.plan.order.index_of(t.block) > c.plan.order.index_of(s.block)
}

/// Whether a machine does what a step of the SSA program does. It takes a
/// step of its own, or the run gets to a later place of the code.
pub open spec fn does_step(c: Code, w: Wants, g: Given, s: SsaState, m: VmModel, limit: usize) -> bool {
    match c.plan.prog.step(g, s) {
        Ok(t) => exists|n: VmModel| #[trigger]
            comes_to(m, n) && carried(c, w, g, t, n) && (strides(m, n) || ahead(c, s, t)),
        Err(e) => machine_ends(m, limit, (s.world, e)),
    }
}

/// A register of a value.
pub proof fn lemma_home(c: Code, v: SsaValue)
    requires
        c.ok(),
        c.plan.home(v) is Some,
    ensures
        (c.plan.home(v)->0).0 <= 10,
{
    assert(c.plan.homes[v.0 as int] == c.plan.home(v));
}

/// The register of a value that is no frame pointer.
pub proof fn lemma_own_home(c: Code, w: Wants, v: SsaValue)
    requires
        fitting(c, w),
        c.plan.prog.defined(v),
        !(c.plan.prog.def_of(v)->0 is FramePtr),
        c.plan.home(v) is Some,
    ensures
        (c.plan.home(v)->0).0 < 10,
{
    lemma_home(c, v);
    let r = c.plan.home(v)->0;
    if r.0 == 10 {
        assert(r == Reg(10));
    }
}

/// A wanted value is found where it is looked for.
pub proof fn lemma_found(c: Code, w: Wants, g: Given, b: usize, i: int, env: Values, regs: Seq<i64>, v: SsaValue)
    requires
        fitting(c, w),
        in_homes(c, w, b, i, env, regs),
        forall|u: SsaValue| #[trigger] c.plan.prog.known(b, i, u) ==> c.plan.prog.coherent(g, env, u),
        c.plan.prog.known(b, i, v),
        w(b, i, v),
    ensures
        c.plan.home(v) matches Some(r) ==> regs[r.0 as int] == env(v) && r.0 <= 10,
        c.plan.move_src(v) matches Ok(src) ==> source_in(regs, src) == env(v) && (src matches MoveSrc::Reg(r)
            ==> r.0 <= 10),
{
    if c.plan.home(v) is Some {
        lemma_home(c, v);
    } else {
        assert(c.plan.prog.coherent(g, env, v));
        if let Some(Op::Const { value, .. }) = c.plan.prog.def_of(v) {
            assert(c.plan.prog.fixed(g, v) == Some(value));
        }
    }
}

/// A use of the next instruction is found where it is looked for.
pub proof fn lemma_use_found(c: Code, w: Wants, g: Given, s: SsaState, m: VmModel, k: int)
    requires
        fitting(c, w),
        carried(c, w, g, s, m),
        c.plan.prog.within(s.block, s.at),
        !(c.plan.prog.insns[s.at] is Phi),
        !c.plan.idle(c.plan.prog.insns[s.at]),
        0 <= k < c.plan.prog.insns[s.at].uses().len(),
    ensures
        ({
            let v = c.plan.prog.insns[s.at].uses()[k];
            &&& c.plan.home(v) matches Some(r) ==> m.regs[r.0 as int] == (s.env)(v) && r.0 <= 10
            &&& c.plan.move_src(v) matches Ok(src) ==> source_in(m.regs, src) == (s.env)(v) && (src
                matches MoveSrc::Reg(r) ==> r.0 <= 10)
        }),
{
    let p = c.plan.prog;
    let op = p.insns[s.at];
    assert(c.plan.wants_before(w, s.block, s.at));
    assert(p.uses_ok(s.block, s.at));
    let v = op.uses()[k];
    lemma_scope_known(p, s.block, s.at, v);
    assert(w(s.block, s.at, v));
    lemma_found(c, w, g, s.block, s.at, s.env, m.regs, v);
}

/// Wanted values stay in their registers when one register is written.
proof fn lemma_homes_after(c: Code, w: Wants, g: Given, s: SsaState, regs: Seq<i64>, after: Seq<i64>, x: i64)
    requires
        fitting(c, w),
        c.plan.prog.sane(g, s),
        c.plan.prog.within(s.block, s.at),
        !(c.plan.prog.insns[s.at] is Phi),
        in_homes(c, w, s.block, s.at, s.env, regs),
        c.plan.prog.insns[s.at].def() is Some,
        regs.len() == 11,
        ({
            let d = c.plan.prog.insns[s.at].def()->0;
            match c.plan.home(d) {
                Some(r) => c.plan.spares(w, s.block, s.at, r, d) && r.0 < 10 && after == regs.update(r.0 as int, x),
                None => after == regs,
            }
        }),
    ensures
        in_homes(c, w, s.block, s.at + 1, with_value(s.env, c.plan.prog.insns[s.at].def()->0, x), after),
{
    let p = c.plan.prog;
    let d = p.insns[s.at].def()->0;
    let env = with_value(s.env, d, x);
    lemma_def_ok(p, s.block, s.at);
    assert(c.plan.wants_before(w, s.block, s.at));
    assert forall|v: SsaValue| #[trigger] p.known(s.block, s.at + 1, v) && w(s.block, s.at + 1, v) implies (c.plan.home(v)
        matches Some(r) ==> after[r.0 as int] == env(v)) by {
        if c.plan.home(v) is Some && v != d {
            assert(p.known(s.block, s.at, v)) by {
                if p.within(s.block, p.site(v)) && p.site(v) == s.at {
                    assert(p.def_of(v)->0 == p.insns[s.at]);
                }
            }
            lemma_home(c, v);
            let r = c.plan.home(v)->0;
            assert(w(s.block, s.at, v));
            if let Some(q) = c.plan.home(d) {
                assert(r != q);
                if r.0 == q.0 {
                    assert(r == q);
                }
            }
        }
    }
}

/// Wanted values stay in their registers when none is written.
proof fn lemma_homes_still(c: Code, w: Wants, g: Given, s: SsaState, regs: Seq<i64>)
    requires
        fitting(c, w),
        c.plan.prog.sane(g, s),
        c.plan.prog.within(s.block, s.at),
        in_homes(c, w, s.block, s.at, s.env, regs),
        c.plan.prog.insns[s.at].def() is None || c.plan.prog.insns[s.at] is Phi
            || c.plan.prog.insns[s.at] is FramePtr || c.plan.prog.insns[s.at] is EntryCtx,
    ensures
        in_homes(c, w, s.block, s.at + 1, s.env, regs),
{
    let p = c.plan.prog;
    let op = p.insns[s.at];
    lemma_def_ok(p, s.block, s.at);
    assert(c.plan.wants_before(w, s.block, s.at));
    assert forall|v: SsaValue| #[trigger] p.known(s.block, s.at + 1, v) && w(s.block, s.at + 1, v) implies (c.plan.home(v)
        matches Some(r) ==> regs[r.0 as int] == (s.env)(v)) by {
        assert(p.known(s.block, s.at, v)) by {
            if p.within(s.block, p.site(v)) && p.site(v) == s.at {
                assert(p.def_of(v)->0 == op);
                assert(p.reached_site(v));
            }
        }
        assert(w(s.block, s.at, v));
    }
}

/// The machine behind an instruction.
pub proof fn lemma_stepped(c: Code, w: Wants, g: Given, s: SsaState, m: VmModel, n: VmModel, limit: usize)
    requires
        fitting(c, w),
        carried(c, w, g, s, m),
        c.plan.prog.within(s.block, s.at),
        !c.plan.prog.insns[s.at].is_control(),
        c.plan.prog.step(g, s) is Ok,
        comes_to(m, n),
        ({
            let t = c.plan.prog.step(g, s)->Ok_0;
            &&& c.at(n, c.insn_at(s.block, s.at) + (c.plan.op_pieces(s.at)->Ok_0).len())
            &&& world_of(n) == t.world
            &&& n.regs[10] == g.frame
            &&& in_homes(c, w, s.block, s.at + 1, t.env, n.regs)
        }),
    ensures
        does_step(c, w, g, s, m, limit),
{
    let t = c.plan.prog.step(g, s)->Ok_0;
    lemma_sane_step(c.plan.prog, g, s);
    lemma_insn_placed(c, s.block, s.at);
    assert(t.block == s.block && t.at == s.at + 1);
    assert(carried(c, w, g, t, n));
}

/// Phis and entry pointers are not emitted.
pub proof fn lemma_do_nothing(c: Code, w: Wants, g: Given, s: SsaState, m: VmModel, limit: usize)
    requires
        fitting(c, w),
        carried(c, w, g, s, m),
        c.plan.prog.within(s.block, s.at),
        c.plan.prog.insns[s.at] is Phi || c.plan.prog.insns[s.at] is FramePtr || c.plan.prog.insns[s.at] is EntryCtx,
    ensures
        does_step(c, w, g, s, m, limit),
{
    let p = c.plan.prog;
    let op = p.insns[s.at];
    lemma_def_ok(p, s.block, s.at);
    lemma_insn_placed(c, s.block, s.at);
    lemma_homes_still(c, w, g, s, m.regs);
    lemma_comes_refl(m);
    if !(op is Phi) {
        let d = op.def()->0;
        assert(p.def_of(d) == Some(op));
        assert(p.within(s.block, p.site(d)));
        assert(p.reached_site(d));
        assert(p.known(s.block, s.at, d));
        assert(p.coherent(g, s.env, d));
        assert(with_value(s.env, d, (s.env)(d)) =~= s.env);
    }
    lemma_stepped(c, w, g, s, m, m, limit);
}

/// An instruction that moves one number to a register.
proof fn lemma_do_move(c: Code, w: Wants, g: Given, s: SsaState, m: VmModel, limit: usize, src: MoveSrc, x: i64)
    requires
        fitting(c, w),
        carried(c, w, g, s, m),
        c.plan.prog.within(s.block, s.at),
        !(c.plan.prog.insns[s.at] is Phi),
        !(c.plan.prog.insns[s.at] is FramePtr),
        c.plan.prog.insns[s.at].def() is Some,
        c.plan.prog.step(g, s) matches Ok(t) && t == (SsaState {
            at: s.at + 1,
            env: with_value(s.env, c.plan.prog.insns[s.at].def()->0, x),
            ..s
        }),
        c.plan.home(c.plan.prog.insns[s.at].def()->0) matches Some(r) && c.plan.spares(
            w,
            s.block,
            s.at,
            r,
            c.plan.prog.insns[s.at].def()->0,
        ) && c.plan.op_pieces(s.at) == Ok::<Seq<Piece>, crate::ssa::SsaError>(
            move_pieces(PlacedMove { dst: r, src }),
        ),
        source_in(m.regs, src) == x,
        src matches MoveSrc::Reg(r) ==> r.0 <= 10,
        !c.plan.prog.insns[s.at].is_control(),
    ensures
        does_step(c, w, g, s, m, limit),
{
    let p = c.plan.prog;
    let d = p.insns[s.at].def()->0;
    let r = c.plan.home(d)->0;
    lemma_def_ok(p, s.block, s.at);
    assert(p.def_of(d) == Some(p.insns[s.at]));
    lemma_own_home(c, w, d);
    let step = PlacedMove { dst: r, src };
    lemma_insn_placed(c, s.block, s.at);
    let pc = c.insn_at(s.block, s.at);
    lemma_run_move(c, m, step, pc);
    let regs = after_move(m.regs, step);
    let n = moved_on(m, regs, pc + move_pieces(step).len());
    lemma_fetch_len(c);
    lemma_homes_after(c, w, g, s, m.regs, regs, x);
    lemma_stepped(c, w, g, s, m, n, limit);
}

/// An instruction whose value has no register.
pub proof fn lemma_do_idle(c: Code, w: Wants, g: Given, s: SsaState, m: VmModel, limit: usize)
    requires
        fitting(c, w),
        carried(c, w, g, s, m),
        c.plan.prog.within(s.block, s.at),
        c.plan.idle(c.plan.prog.insns[s.at]),
    ensures
        does_step(c, w, g, s, m, limit),
{
    let p = c.plan.prog;
    let op = p.insns[s.at];
    lemma_def_ok(p, s.block, s.at);
    assert(c.plan.spares_at(w, s.block, s.at));
    assert(p.swap_ok(s.at));
    lemma_insn_placed(c, s.block, s.at);
    lemma_comes_refl(m);
    let d = op.def()->0;
    let t = p.step(g, s)->Ok_0;
    assert(p.step(g, s) is Ok);
    let x = (t.env)(d);
    lemma_homes_after(c, w, g, s, m.regs, m.regs, x);
    assert(t.env =~= with_value(s.env, d, x));
    lemma_stepped(c, w, g, s, m, m, limit);
}

/// Constants, wide loads of immediates, and copies.
pub proof fn lemma_do_simple(c: Code, w: Wants, g: Given, s: SsaState, m: VmModel, limit: usize)
    requires
        fitting(c, w),
        carried(c, w, g, s, m),
        c.plan.prog.within(s.block, s.at),
        c.plan.prog.insns[s.at] is Const || c.plan.prog.insns[s.at] is LoadImm64 || c.plan.prog.insns[s.at] is Copy,
    ensures
        does_step(c, w, g, s, m, limit),
{
    let p = c.plan.prog;
    let op = p.insns[s.at];
    if c.plan.idle(op) {
        lemma_do_idle(c, w, g, s, m, limit);
    } else {
        assert(c.plan.spares_at(w, s.block, s.at));
        lemma_insn_placed(c, s.block, s.at);
        match op {
            Op::Const { dst, value } => {
                lemma_do_move(c, w, g, s, m, limit, const_src(value), value);
            },
            Op::LoadImm64 { dst, imm } => {
                lemma_do_move(c, w, g, s, m, limit, MoveSrc::Wide(imm), imm);
            },
            Op::Copy { dst, src } => {
                assert(op.uses()[0] == src);
                lemma_use_found(c, w, g, s, m, 0);
                lemma_do_move(c, w, g, s, m, limit, c.plan.move_src(src)->Ok_0, (s.env)(src));
            },
            _ => {},
        }
    }
}

/// Where the right operand of the next operation is found.
proof fn lemma_right(c: Code, w: Wants, g: Given, s: SsaState, m: VmModel)
    requires
        fitting(c, w),
        carried(c, w, g, s, m),
        c.plan.prog.within(s.block, s.at),
        c.plan.prog.insns[s.at] is BinOp,
        !c.plan.idle(c.plan.prog.insns[s.at]),
    ensures
        ({
            let rhs = c.plan.prog.insns[s.at]->BinOp_rhs;
            &&& rhs matches SsaOperand::Value(u) ==> (c.plan.home(u) matches Some(r) ==> m.regs[r.0 as int]
                == (s.env)(u) && r.0 <= 10)
            &&& c.plan.move_src_of(rhs) matches Ok(src) ==> source_in(m.regs, src) == number_of(s.env, rhs) && (src
                matches MoveSrc::Reg(r) ==> r.0 <= 10)
        }),
{
    let op = c.plan.prog.insns[s.at];
    if let SsaOperand::Value(u) = op->BinOp_rhs {
        let k = op.uses().len() - 1;
        assert(op.uses()[k] == u);
        lemma_use_found(c, w, g, s, m, k);
    }
}

/// Moves of either width.
pub proof fn lemma_do_mov(c: Code, w: Wants, g: Given, s: SsaState, m: VmModel, limit: usize)
    requires
        fitting(c, w),
        carried(c, w, g, s, m),
        c.plan.prog.within(s.block, s.at),
        c.plan.prog.insns[s.at] is BinOp,
        c.plan.prog.insns[s.at]->BinOp_op == AluOp::Mov,
        !c.plan.idle(c.plan.prog.insns[s.at]),
    ensures
        does_step(c, w, g, s, m, limit),
{
    let p = c.plan.prog;
    let op = p.insns[s.at];
    let width = op->BinOp_width;
    let lhs = op->BinOp_lhs;
    let rhs = op->BinOp_rhs;
    let d = op->BinOp_dst;
    let r = c.plan.home(d)->0;
    let pc = c.insn_at(s.block, s.at);
    lemma_def_ok(p, s.block, s.at);
    assert(p.def_of(d) == Some(op));
    assert(c.plan.spares_at(w, s.block, s.at));
    lemma_insn_placed(c, s.block, s.at);
    lemma_own_home(c, w, d);
    lemma_right(c, w, g, s, m);
    lemma_fetch_len(c);
    let y = number_of(s.env, rhs);
    let x = AluOp::Mov.result(number_of(s.env, lhs), y, width);
    assert(computed(s.env, op) == Ok::<i64, Ending>(x));
    assert(x == AluOp::Mov.result(m.regs[r.0 as int], y, width));
    let some = c.plan.op_pieces(s.at)->Ok_0;
    let regs = m.regs.update(r.0 as int, x);
    let n = moved_on(m, regs, pc + some.len());
    if some.len() == 0 {
        lemma_move(number_of(s.env, lhs), y);
        assert(regs =~= m.regs);
        assert(n == m);
        lemma_comes_refl(m);
    } else {
        assert(c.pieces[pc + 0] == some[0]);
        lemma_fetch(c, pc);
        assert(m.step() == (n, StepResult::Continue));
        lemma_comes_step(m);
    }
    lemma_homes_after(c, w, g, s, m.regs, regs, x);
    lemma_stepped(c, w, g, s, m, n, limit);
}

/// Arithmetic besides moves.
pub proof fn lemma_do_alu(c: Code, w: Wants, g: Given, s: SsaState, m: VmModel, limit: usize)
    requires
        fitting(c, w),
        carried(c, w, g, s, m),
        c.plan.prog.within(s.block, s.at),
        c.plan.prog.insns[s.at] is BinOp,
        c.plan.prog.insns[s.at]->BinOp_op != AluOp::Mov,
        !c.plan.idle(c.plan.prog.insns[s.at]),
    ensures
        does_step(c, w, g, s, m, limit),
{
    let p = c.plan.prog;
    let op = p.insns[s.at];
    let width = op->BinOp_width;
    let alu = op->BinOp_op;
    let lhs = op->BinOp_lhs;
    let rhs = op->BinOp_rhs;
    let d = op->BinOp_dst;
    let r = c.plan.home(d)->0;
    let pc = c.insn_at(s.block, s.at);
    lemma_def_ok(p, s.block, s.at);
    assert(p.def_of(d) == Some(op));
    assert(p.swap_ok(s.at));
    assert(c.plan.spares_at(w, s.block, s.at));
    lemma_insn_placed(c, s.block, s.at);
    lemma_own_home(c, w, d);
    lemma_right(c, w, g, s, m);
    lemma_fetch_len(c);
    let some = c.plan.op_pieces(s.at)->Ok_0;
    let left = lhs->Value_0;
    assert(op.uses()[0] == left);
    lemma_use_found(c, w, g, s, m, 0);
    let src = c.plan.move_src(left)->Ok_0;
    let by = c.plan.operand(rhs)->0;
    let step = PlacedMove { dst: r, src };
    let first = move_pieces(step);
    let last = Insn::Alu { width, op: alu, dst: r, src: by };
    assert(some == first + seq![plain(last)]);
    assert(c.holds(pc, first)) by {
        assert forall|k: int| 0 <= k < first.len() implies c.pieces[pc + k] == #[trigger] first[k] by {
            assert(some[k] == first[k]);
        }
    }
    lemma_run_move(c, m, step, pc);
    let mid_regs = after_move(m.regs, step);
    let mid = moved_on(m, mid_regs, pc + first.len());
    assert(mid_regs[r.0 as int] == number_of(s.env, lhs));
    assert(by matches Operand::Reg(q) ==> mid_regs[q.0 as int] == number_of(s.env, rhs)) by {
        if let Operand::Reg(q) = by {
            if q.0 == r.0 {
                assert(q == r);
                assert(src == MoveSrc::Reg(r));
                assert(mid_regs =~= m.regs);
            }
        }
    }
    assert(some[first.len() as int] == plain(last));
    assert(c.pieces[pc + first.len()] == plain(last));
    lemma_fetch(c, pc + first.len());
    match computed(s.env, op) {
        Ok(x) => {
            let regs = m.regs.update(r.0 as int, x);
            let n = moved_on(m, regs, pc + some.len());
            assert(mid_regs.update(r.0 as int, x) =~= regs);
            assert(mid.step() == (n, StepResult::Continue));
            lemma_comes_step(mid);
            lemma_comes_on(m, mid, n);
            lemma_homes_after(c, w, g, s, m.regs, regs, x);
            lemma_stepped(c, w, g, s, m, n, limit);
        },
        Err(e) => {
            lemma_ends_now(mid, limit);
            lemma_comes_end(m, mid, limit, (s.world, e));
        },
    }
}

/// Loads.
pub proof fn lemma_do_load(c: Code, w: Wants, g: Given, s: SsaState, m: VmModel, limit: usize)
    requires
        fitting(c, w),
        carried(c, w, g, s, m),
        c.plan.prog.within(s.block, s.at),
        c.plan.prog.insns[s.at] is Load,
    ensures
        does_step(c, w, g, s, m, limit),
{
    let p = c.plan.prog;
    let op = p.insns[s.at];
    let pc = c.insn_at(s.block, s.at);
    lemma_def_ok(p, s.block, s.at);
    assert(c.plan.spares_at(w, s.block, s.at));
    lemma_insn_placed(c, s.block, s.at);
    lemma_fetch_len(c);
    if let Op::Load { dst, size, base, offset } = op {
        assert(op.uses()[0] == base);
        lemma_use_found(c, w, g, s, m, 0);
        let from = c.plan.home(base)->0;
        let d = dst->0;
        assert(p.def_of(d) == Some(op));
        lemma_own_home(c, w, d);
        let to = c.plan.home(d)->0;
        let some = c.plan.op_pieces(s.at)->Ok_0;
        assert(c.pieces[pc + 0] == some[0]);
        lemma_fetch(c, pc);
        let addr = (s.env)(base).wrapping_add(offset as i64);
        match m.mem.load(addr, size) {
            Ok(x) => {
                let regs = m.regs.update(to.0 as int, x);
                let n = moved_on(m, regs, pc + 1);
                assert(m.step() == (n, StepResult::Continue));
                lemma_comes_step(m);
                lemma_homes_after(c, w, g, s, m.regs, regs, x);
                lemma_stepped(c, w, g, s, m, n, limit);
            },
            Err(e) => {
                lemma_ends_now(m, limit);
            },
        }
    }
}

/// Stores.
pub proof fn lemma_do_store(c: Code, w: Wants, g: Given, s: SsaState, m: VmModel, limit: usize)
    requires
        fitting(c, w),
        carried(c, w, g, s, m),
        c.plan.prog.within(s.block, s.at),
        c.plan.prog.insns[s.at] is Store,
    ensures
        does_step(c, w, g, s, m, limit),
{
    let p = c.plan.prog;
    let op = p.insns[s.at];
    let pc = c.insn_at(s.block, s.at);
    lemma_def_ok(p, s.block, s.at);
    lemma_insn_placed(c, s.block, s.at);
    lemma_fetch_len(c);
    if let Op::Store { size, base, offset, src } = op {
        assert(op.uses()[0] == base);
        lemma_use_found(c, w, g, s, m, 0);
        if let SsaOperand::Value(u) = src {
            assert(op.uses()[1] == u);
            lemma_use_found(c, w, g, s, m, 1);
        }
        let to = c.plan.home(base)->0;
        let from = c.plan.operand(src)->0;
        let some = c.plan.op_pieces(s.at)->Ok_0;
        assert(c.pieces[pc + 0] == some[0]);
        lemma_fetch(c, pc);
        let addr = (s.env)(base).wrapping_add(offset as i64);
        let x = number_of(s.env, src);
        match m.mem.store_fault(addr, size) {
            None => {
                let n = VmModel { mem: m.mem.stored(addr, size, x), pc: (pc + 1) as usize, ..m };
                assert(m.step() == (n, StepResult::Continue));
                lemma_comes_step(m);
                lemma_homes_still(c, w, g, s, m.regs);
                lemma_stepped(c, w, g, s, m, n, limit);
            },
            Some(e) => {
                lemma_ends_now(m, limit);
            },
        }
    }
}

} // verus!
