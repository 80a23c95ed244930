//! Edges in lowered code: phi moves, trampolines and jumps.
use vstd::prelude::*;

use crate::isa::insn::{Insn, JumpOp, Reg, Width};
use crate::ssa::{Op, Prog, START_PRED, SsaError, SsaOperand, SsaValue};
use crate::ssa::calls::lemma_holds_front;
use crate::ssa::carried::{
    carried, does_step, fitting, in_homes, lemma_found, lemma_home, lemma_own_home, lemma_use_found,
};
use crate::ssa::code::{
    at_once, comes_to, lemma_block_parts, lemma_comes_end, lemma_comes_on, lemma_comes_step,
    lemma_ends_now, lemma_fetch, lemma_fetch_jump, lemma_fetch_len, lemma_run_move,
    lemma_run_ordered, lemma_tramp_placed, machine_ends, movable, moved_on, source_in, strides, Code,
};
use crate::ssa::emit::{
    inverse, inverse_negates, jump, move_pieces, moves_at_end, ordered_pieces, plain, tramp_keys,
    tramp_moves, Piece, Placement, Plan, Target,
};
use crate::ssa::layout::layout_is_complete;
use crate::ssa::moves::{writes, MoveSrc, PlacedMove};
use crate::ssa::passes::{lemma_known_at_end, lemma_known_into};
use crate::ssa::run::{number_of, world_of, Ending, Given, SsaState, Values};
use crate::ssa::scope::{
    lemma_def_ok, lemma_listed, lemma_reached_block, lemma_sane_step, lemma_scope_known,
    lemma_successor_block,
};
use crate::ssa::tidy::Wants;
use crate::vm::{jump_condition, StepResult, VmModel};

verus! {

/// Whether a placed move brings an input of a phi to the phi's register.
pub open spec fn from_input(plan: Plan, e: Placement, i: int, j: int) -> bool {
    &&& plan.prog.within(e.block, i)
    &&& plan.live[e.block as int]
    &&& plan.prog.insns[i] matches Op::Phi { dst, inputs } && {
        &&& 0 <= j < inputs.len()
        &&& inputs[j].0 == e.pred
        &&& e.pred != START_PRED
        &&& plan.live[e.pred as int]
        &&& plan.home(dst) == Some(e.step.dst)
        &&& plan.move_src(inputs[j].1) == Ok::<MoveSrc, SsaError>(e.step.src)
    }
}

/// Whether a placed move comes from some phi.
pub open spec fn from_phi(plan: Plan, e: Placement) -> bool {
    exists|i: int, j: int| #[trigger] from_input(plan, e, i, j)
}

/// The moves for the inputs of a phi.
proof fn lemma_inputs_placed(plan: Plan, b: usize, i: int, k: nat)
    requires
        plan.prog.within(b, i),
        plan.live[b as int],
        plan.prog.insns[i] is Phi,
        plan.home(plan.prog.insns[i]->Phi_dst) is Some,
        plan.input_placements(b, plan.home(plan.prog.insns[i]->Phi_dst)->0, plan.prog.insns[i]->Phi_inputs, k) is Ok,
    ensures
        ({
            let home = plan.home(plan.prog.insns[i]->Phi_dst)->0;
            let inputs = plan.prog.insns[i]->Phi_inputs;
            let list = plan.input_placements(b, home, inputs, k)->Ok_0;
            &&& forall|n: int| 0 <= n < list.len() ==> from_phi(plan, #[trigger] list[n]) && list[n].block == b
            &&& forall|j: int|
                k <= j < inputs.len() && (#[trigger] inputs[j]).0 != START_PRED && plan.live[inputs[j].0 as int]
                    ==> plan.move_src(inputs[j].1) is Ok && list.contains(
                    Placement {
                        pred: inputs[j].0,
                        block: b,
                        step: PlacedMove { dst: home, src: plan.move_src(inputs[j].1)->Ok_0 },
                    },
                )
        }),
    decreases (plan.prog.insns[i]->Phi_inputs).len() - k,
{
    let home = plan.home(plan.prog.insns[i]->Phi_dst)->0;
    let inputs = plan.prog.insns[i]->Phi_inputs;
    let list = plan.input_placements(b, home, inputs, k)->Ok_0;
    if k < inputs.len() {
        let (p, v) = inputs[k as int];
        let rest = plan.input_placements(b, home, inputs, k + 1);
        assert(rest is Ok);
        lemma_inputs_placed(plan, b, i, k + 1);
        let more = rest->Ok_0;
        if p != START_PRED && plan.live[p as int] {
            let e = Placement { pred: p, block: b, step: PlacedMove { dst: home, src: plan.move_src(v)->Ok_0 } };
            assert(list == seq![e] + more);
            assert(from_input(plan, e, i, k as int));
            assert forall|n: int| 0 <= n < list.len() implies from_phi(plan, #[trigger] list[n]) && list[n].block == b by {
                if n > 0 {
                    assert(list[n] == more[n - 1]);
                }
            }
            assert forall|j: int|
                k <= j < inputs.len() && (#[trigger] inputs[j]).0 != START_PRED && plan.live[inputs[j].0 as int] implies plan.move_src(
                inputs[j].1,
            ) is Ok && list.contains(
                Placement {
                    pred: inputs[j].0,
                    block: b,
                    step: PlacedMove { dst: home, src: plan.move_src(inputs[j].1)->Ok_0 },
                },
            ) by {
                if j == k {
                    assert(list[0] == e);
                } else {
                    let f = Placement {
                        pred: inputs[j].0,
                        block: b,
                        step: PlacedMove { dst: home, src: plan.move_src(inputs[j].1)->Ok_0 },
                    };
                    let n = more.index_of(f);
                    assert(list[n + 1] == f);
                }
            }
        }
    }
}

/// The move for an input of a phi.
pub open spec fn move_for(plan: Plan, b: usize, dst: SsaValue, input: (usize, SsaValue)) -> Placement {
    Placement {
        pred: input.0,
        block: b,
        step: PlacedMove { dst: plan.home(dst)->0, src: plan.move_src(input.1)->Ok_0 },
    }
}

/// Whether the move for an input of a phi with a register is in a list.
pub open spec fn phi_listed(plan: Plan, list: Seq<Placement>, b: usize, i: int, j: int) -> bool {
    match plan.prog.insns[i] {
        Op::Phi { dst, inputs } => plan.home(dst) is Some && 0 <= j < inputs.len() && inputs[j].0 != START_PRED
            && plan.live[inputs[j].0 as int] ==> plan.move_src(inputs[j].1) is Ok && list.contains(
            move_for(plan, b, dst, inputs[j]),
        ),
        _ => true,
    }
}

/// A longer list still has the move.
proof fn lemma_listed_more(plan: Plan, a: Seq<Placement>, b: Seq<Placement>, block: usize, i: int, j: int)
    ensures
        phi_listed(plan, a, block, i, j) ==> phi_listed(plan, a + b, block, i, j),
        phi_listed(plan, b, block, i, j) ==> phi_listed(plan, a + b, block, i, j),
{
    if let Op::Phi { dst, inputs } = plan.prog.insns[i] {
        let e = move_for(plan, block, dst, inputs[j]);
        if a.contains(e) {
            let n = a.index_of(e);
            assert((a + b)[n] == e);
        }
        if b.contains(e) {
            let n = b.index_of(e);
            assert((a + b)[a.len() + n] == e);
        }
    }
}

/// The moves for the phis of a block.
proof fn lemma_phis_placed(plan: Plan, b: usize, i: int)
    requires
        b < plan.prog.nodes.len(),
        plan.prog.nodes[b as int].start <= i,
        plan.live[b as int],
        plan.phi_placements(b, i, plan.prog.nodes[b as int].end as int) is Ok,
    ensures
        ({
            let list = plan.phi_placements(b, i, plan.prog.nodes[b as int].end as int)->Ok_0;
            &&& forall|n: int| 0 <= n < list.len() ==> from_phi(plan, #[trigger] list[n])
            &&& forall|h: int, j: int|
                i <= h < plan.prog.nodes[b as int].end ==> #[trigger] phi_listed(plan, list, b, h, j)
        }),
    decreases plan.prog.nodes[b as int].end - i,
{
    let end = plan.prog.nodes[b as int].end as int;
    if i < end {
        let list = plan.phi_placements(b, i, end)->Ok_0;
        let rest = plan.phi_placements(b, i + 1, end);
        match plan.prog.insns[i] {
            Op::Phi { dst, inputs } => if let Some(home) = plan.home(dst) {
                let own = plan.input_placements(b, home, inputs, 0)->Ok_0;
                assert(rest is Ok);
                let more = rest->Ok_0;
                lemma_phis_placed(plan, b, i + 1);
                lemma_inputs_placed(plan, b, i, 0);
                assert(list == own + more);
                assert forall|n: int| 0 <= n < list.len() implies from_phi(plan, #[trigger] list[n]) by {
                    if n < own.len() {
                        assert(list[n] == own[n]);
                    } else {
                        assert(list[n] == more[n - own.len()]);
                    }
                }
                assert forall|h: int, j: int| i <= h < end implies #[trigger] phi_listed(plan, list, b, h, j) by {
                    if h == i {
                        if 0 <= j < inputs.len() {
                            assert(inputs[j].0 == inputs[j].0);
                            assert(phi_listed(plan, own, b, h, j));
                            lemma_listed_more(plan, own, more, b, h, j);
                        }
                    } else {
                        assert(phi_listed(plan, more, b, h, j));
                        lemma_listed_more(plan, own, more, b, h, j);
                    }
                }
            } else {
                lemma_phis_placed(plan, b, i + 1);
                assert forall|h: int, j: int| i <= h < end implies #[trigger] phi_listed(plan, list, b, h, j) by {
                    if h > i {
                        assert(phi_listed(plan, rest->Ok_0, b, h, j));
                    }
                }
            },
            _ => {
                lemma_phis_placed(plan, b, i + 1);
                assert forall|h: int, j: int| i <= h < end implies #[trigger] phi_listed(plan, list, b, h, j) by {
                    if h > i {
                        assert(phi_listed(plan, rest->Ok_0, b, h, j));
                    }
                }
            },
        }
    }
}

/// The moves for the phis of all blocks.
proof fn lemma_all_placed(plan: Plan, n: nat)
    requires
        plan.placements(n) is Ok,
        plan.prog.nodes.len() <= usize::MAX,
    ensures
        ({
            let list = plan.placements(n)->Ok_0;
            &&& forall|k: int| 0 <= k < list.len() ==> from_phi(plan, #[trigger] list[k])
            &&& forall|b: usize, h: int, j: int|
                n <= b && plan.prog.within(b, h) && plan.live[b as int] ==> #[trigger] phi_listed(plan, list, b, h, j)
        }),
    decreases plan.prog.nodes.len() - n,
{
    if n < plan.prog.nodes.len() {
        let list = plan.placements(n)->Ok_0;
        let rest = plan.placements(n + 1);
        if plan.live[n as int] {
            let block = plan.prog.nodes[n as int];
            let own = plan.phi_placements(n as usize, block.start as int, block.end as int)->Ok_0;
            assert(rest is Ok);
            let more = rest->Ok_0;
            lemma_all_placed(plan, n + 1);
            lemma_phis_placed(plan, n as usize, block.start as int);
            assert(list == own + more);
            assert forall|k: int| 0 <= k < list.len() implies from_phi(plan, #[trigger] list[k]) by {
                if k < own.len() {
                    assert(list[k] == own[k]);
                } else {
                    assert(list[k] == more[k - own.len()]);
                }
            }
            assert forall|b: usize, h: int, j: int| n <= b && plan.prog.within(b, h) && plan.live[b as int] implies #[trigger] phi_listed(
                plan,
                list,
                b,
                h,
                j,
            ) by {
                lemma_listed_more(plan, own, more, b, h, j);
                if b == n {
                    assert(phi_listed(plan, own, b, h, j));
                } else {
                    assert(phi_listed(plan, more, b, h, j));
                }
            }
        } else {
            lemma_all_placed(plan, n + 1);
            assert forall|b: usize, h: int, j: int| n <= b && plan.prog.within(b, h) && plan.live[b as int] implies #[trigger] phi_listed(
                plan,
                list,
                b,
                h,
                j,
            ) by {
                assert(phi_listed(plan, rest->Ok_0, b, h, j));
            }
        }
    }
}

/// The moves at the end of a block, and where they come from.
proof fn lemma_end_moves(plan: Plan, list: Seq<Placement>, p: usize)
    ensures
        forall|k: int|
            0 <= k < moves_at_end(plan, list, p).len() ==> exists|n: int|
                0 <= n < list.len() && (#[trigger] list[n]).pred == p && !plan.critical(p, list[n].block)
                    && list[n].step == #[trigger] moves_at_end(plan, list, p)[k],
        forall|n: int|
            0 <= n < list.len() && (#[trigger] list[n]).pred == p && !plan.critical(p, list[n].block)
                ==> moves_at_end(plan, list, p).contains(list[n].step),
    decreases list.len(),
{
    if list.len() > 0 {
        let front = list.drop_last();
        lemma_end_moves(plan, front, p);
        let rest = moves_at_end(plan, front, p);
        let all = moves_at_end(plan, list, p);
        let last = list.last();
        assert forall|k: int| 0 <= k < all.len() implies exists|n: int|
            0 <= n < list.len() && (#[trigger] list[n]).pred == p && !plan.critical(p, list[n].block) && list[n].step
                == #[trigger] all[k] by {
            if k < rest.len() {
                assert(all[k] == rest[k]);
                let n = choose|n: int|
                    0 <= n < front.len() && (#[trigger] front[n]).pred == p && !plan.critical(p, front[n].block)
                        && front[n].step == rest[k];
                assert(list[n] == front[n]);
            } else {
                assert(list[list.len() - 1].step == all[k]);
            }
        }
        assert forall|n: int| 0 <= n < list.len() && (#[trigger] list[n]).pred == p && !plan.critical(p, list[n].block) implies all.contains(
            list[n].step,
        ) by {
            if n < front.len() {
                assert(front[n] == list[n]);
                let k = rest.index_of(front[n].step);
                assert(all[k] == rest[k]);
            } else {
                assert(all[rest.len() as int] == last.step);
            }
        }
    }
}

/// The moves of a trampoline, and where they come from.
proof fn lemma_tramp_moves(list: Seq<Placement>, key: (usize, usize))
    ensures
        forall|k: int|
            0 <= k < tramp_moves(list, key).len() ==> exists|n: int|
                0 <= n < list.len() && ((#[trigger] list[n]).pred, list[n].block) == key && list[n].step
                    == #[trigger] tramp_moves(list, key)[k],
        forall|n: int|
            0 <= n < list.len() && ((#[trigger] list[n]).pred, list[n].block) == key ==> tramp_moves(
                list,
                key,
            ).contains(list[n].step),
    decreases list.len(),
{
    if list.len() > 0 {
        let front = list.drop_last();
        lemma_tramp_moves(front, key);
        let rest = tramp_moves(front, key);
        let all = tramp_moves(list, key);
        let last = list.last();
        assert forall|k: int| 0 <= k < all.len() implies exists|n: int|
            0 <= n < list.len() && ((#[trigger] list[n]).pred, list[n].block) == key && list[n].step
                == #[trigger] all[k] by {
            if k < rest.len() {
                assert(all[k] == rest[k]);
                let n = choose|n: int|
                    0 <= n < front.len() && ((#[trigger] front[n]).pred, front[n].block) == key && front[n].step
                        == rest[k];
                assert(list[n] == front[n]);
            } else {
                assert(list[list.len() - 1].step == all[k]);
            }
        }
        assert forall|n: int| 0 <= n < list.len() && ((#[trigger] list[n]).pred, list[n].block) == key implies all.contains(
            list[n].step,
        ) by {
            if n < front.len() {
                assert(front[n] == list[n]);
                let k = rest.index_of(front[n].step);
                assert(all[k] == rest[k]);
            } else {
                assert(all[rest.len() as int] == last.step);
            }
        }
    }
}

/// Which edges have a trampoline.
proof fn lemma_tramp_keys(plan: Plan, list: Seq<Placement>)
    ensures
        forall|k: int|
            0 <= k < tramp_keys(plan, list).len() ==> plan.critical(
                (#[trigger] tramp_keys(plan, list)[k]).0,
                tramp_keys(plan, list)[k].1,
            ),
        forall|n: int|
            0 <= n < list.len() && plan.critical((#[trigger] list[n]).pred, list[n].block) ==> tramp_keys(
                plan,
                list,
            ).contains((list[n].pred, list[n].block)),
        tramp_keys(plan, list).len() <= list.len(),
    decreases list.len(),
{
    if list.len() > 0 {
        let front = list.drop_last();
        lemma_tramp_keys(plan, front);
        let rest = tramp_keys(plan, front);
        let all = tramp_keys(plan, list);
        let last = list.last();
        assert forall|k: int| 0 <= k < all.len() implies plan.critical((#[trigger] all[k]).0, all[k].1) by {
            if k < rest.len() {
                assert(all[k] == rest[k]);
            }
        }
        assert forall|n: int| 0 <= n < list.len() && plan.critical((#[trigger] list[n]).pred, list[n].block) implies all.contains(
            (list[n].pred, list[n].block),
        ) by {
            if n < front.len() {
                assert(front[n] == list[n]);
                let k = rest.index_of((front[n].pred, front[n].block));
                assert(all[k] == rest[k]);
            } else if !rest.contains((last.pred, last.block)) {
                assert(all[rest.len() as int] == (last.pred, last.block));
            }
        }
    }
}

/// Trampolines are no more than pieces.
proof fn lemma_few_tramps(plan: Plan, list: Seq<Placement>, n: nat)
    requires
        plan.pieces(list, n) is Ok,
    ensures
        n <= (plan.pieces(list, n)->Ok_0).len(),
    decreases n,
{
    if n > 0 {
        lemma_few_tramps(plan, list, (n - 1) as nat);
    }
}

/// The layout holds the reached blocks.
pub proof fn lemma_order(c: Code, w: Wants)
    requires
        fitting(c, w),
    ensures
        c.plan.order.no_duplicates(),
        c.plan.order.len() > 0,
        c.plan.order[0] == c.plan.prog.entry,
        forall|b: usize| #[trigger] c.plan.order.contains(b) <==> c.plan.prog.reaches(b),
        forall|b: usize| b < c.plan.prog.nodes.len() ==> #[trigger] c.plan.live[b as int] == c.plan.prog.reaches(b),
        c.plan.live.len() == c.plan.prog.nodes.len(),
{
    let p = c.plan.prog;
    let t = seq![p.entry];
    assert(p.is_trace(t) && t.last() == p.entry);
    assert(p.reaches(p.entry));
    layout_is_complete(p, c.plan.live);
    assert forall|b: usize| #[trigger] c.plan.order.contains(b) <==> p.reaches(b) by {
        if p.reaches(b) {
            lemma_reached_block(p, b);
        }
    }
}

/// Every placed move can be run.
proof fn lemma_movable(c: Code, w: Wants, n: int)
    requires
        fitting(c, w),
        0 <= n < c.list.len(),
    ensures
        movable(c.list[n].step),
{
    lemma_order(c, w);
    lemma_all_placed(c.plan, 0);
    let e = c.list[n];
    assert(from_phi(c.plan, e));
    let (i, j) = choose|i: int, j: int| #[trigger] from_input(c.plan, e, i, j);
    let p = c.plan.prog;
    let dst = p.insns[i]->Phi_dst;
    assert(p.reaches(e.block));
    lemma_def_ok(p, e.block, i);
    assert(p.def_of(dst) == Some(p.insns[i]));
    lemma_own_home(c, w, dst);
    let v = (p.insns[i]->Phi_inputs)[j].1;
    if c.plan.home(v) is Some {
        lemma_home(c, v);
    }
}

/// The moves on an edge can be run.
proof fn lemma_edge_movable(c: Code, w: Wants, p: usize, b: usize)
    requires
        fitting(c, w),
    ensures
        forall|k: int| 0 <= k < c.end_moves(p).len() ==> movable(#[trigger] c.end_moves(p)[k]),
        forall|k: int|
            0 <= k < tramp_moves(c.list, (p, b)).len() ==> movable(#[trigger] tramp_moves(c.list, (p, b))[k]),
{
    lemma_end_moves(c.plan, c.list, p);
    lemma_tramp_moves(c.list, (p, b));
    assert forall|k: int| 0 <= k < c.end_moves(p).len() implies movable(#[trigger] c.end_moves(p)[k]) by {
        let n = choose|n: int|
            0 <= n < c.list.len() && (#[trigger] c.list[n]).pred == p && !c.plan.critical(p, c.list[n].block)
                && c.list[n].step == moves_at_end(c.plan, c.list, p)[k];
        lemma_movable(c, w, n);
    }
    let moves = tramp_moves(c.list, (p, b));
    assert forall|k: int| 0 <= k < moves.len() implies movable(#[trigger] moves[k]) by {
        let n = choose|n: int|
            0 <= n < c.list.len() && ((#[trigger] c.list[n]).pred, c.list[n].block) == (p, b) && c.list[n].step
                == moves[k];
        lemma_movable(c, w, n);
    }
}

/// Whether a run is at the end of its block.
pub open spec fn at_end(p: Prog, s: SsaState) -> bool {
    s.at == p.nodes[s.block as int].end || (p.within(s.block, s.at) && p.insns[s.at].is_control())
}

/// What is wanted behind the control of a block is wanted before it.
proof fn lemma_wanted_at_end(c: Code, w: Wants, g: Given, s: SsaState, v: SsaValue)
    requires
        fitting(c, w),
        c.plan.prog.sane(g, s),
        at_end(c.plan.prog, s),
        c.plan.prog.known(s.block, s.at, v),
        w(s.block, c.plan.prog.nodes[s.block as int].end as int, v),
    ensures
        w(s.block, s.at, v),
{
    let p = c.plan.prog;
    if s.at < p.nodes[s.block as int].end {
        assert(s.at + 1 == p.nodes[s.block as int].end);
        assert(c.plan.wants_before(w, s.block, s.at));
    }
}

/// Whether registers are those behind the moves of an edge.
pub open spec fn crossed(c: Code, p: usize, b: usize, regs: Seq<i64>, mid: Seq<i64>, after: Seq<i64>) -> bool {
    &&& at_once(regs, mid, c.end_moves(p))
    &&& if tramp_keys(c.plan, c.list).contains((p, b)) {
        at_once(mid, after, tramp_moves(c.list, (p, b)))
    } else {
        after == mid
    }
}

/// Behind an edge every wanted value is in its register.
proof fn lemma_crossed(c: Code, w: Wants, g: Given, s: SsaState, m: VmModel, b: usize, mid: Seq<i64>, after: Seq<i64>)
    requires
        fitting(c, w),
        carried(c, w, g, s, m),
        at_end(c.plan.prog, s),
        c.plan.prog.successors(s.block).contains(b),
        crossed(c, s.block, b, m.regs, mid, after),
    ensures
        in_homes(
            c,
            w,
            b,
            c.plan.prog.nodes[b as int].start as int,
            c.plan.prog.arrived(s.env, s.block, b),
            after,
        ),
        after.len() == 11,
        after[10] == m.regs[10],
{
    let p = c.plan.prog;
    let from = s.block;
    let start = p.nodes[b as int].start as int;
    let end = p.nodes[from as int].end as int;
    let env = p.arrived(s.env, from, b);
    lemma_successor_block(p, from, b);
    lemma_reached_block(p, from);
    lemma_edge_movable(c, w, from, b);
    assert(c.plan.wants_across(w, from, b) && c.plan.spares_across(c.list, w, from, b));
    assert forall|v: SsaValue| #[trigger] p.known(b, start, v) && w(b, start, v) implies (c.plan.home(v)
        matches Some(r) ==> after[r.0 as int] == env(v)) by {
        if let Some(r) = c.plan.home(v) {
            lemma_home(c, v);
            if let Some(inputs) = p.phi_for(b, v) {
                lemma_phi_crossed(c, w, g, s, m, b, mid, after, v);
            } else {
                lemma_known_into(p, g, s, b, v);
                assert(w(from, end, v));
                lemma_wanted_at_end(c, w, g, s, v);
                assert(!writes(c.end_moves(from), r));
                assert(mid[r.0 as int] == m.regs[r.0 as int]);
            }
        }
    }
    let ten = Reg(10);
    assert(!writes(c.end_moves(from), ten)) by {
        if writes(c.end_moves(from), ten) {
            let k = choose|k: int| 0 <= k < c.end_moves(from).len() && (#[trigger] c.end_moves(from)[k]).dst == ten;
            assert(movable(c.end_moves(from)[k]));
        }
    }
    let moves = tramp_moves(c.list, (from, b));
    assert(!writes(moves, ten)) by {
        if writes(moves, ten) {
            let k = choose|k: int| 0 <= k < moves.len() && (#[trigger] moves[k]).dst == ten;
            assert(movable(moves[k]));
        }
    }
    assert(mid[ten.0 as int] == m.regs[ten.0 as int]);
    assert(after[ten.0 as int] == mid[ten.0 as int]);
}

/// Behind an edge a phi is in its register.
proof fn lemma_phi_crossed(
    c: Code,
    w: Wants,
    g: Given,
    s: SsaState,
    m: VmModel,
    b: usize,
    mid: Seq<i64>,
    after: Seq<i64>,
    v: SsaValue,
)
    requires
        fitting(c, w),
        carried(c, w, g, s, m),
        at_end(c.plan.prog, s),
        c.plan.prog.successors(s.block).contains(b),
        crossed(c, s.block, b, m.regs, mid, after),
        c.plan.prog.known(b, c.plan.prog.nodes[b as int].start as int, v),
        c.plan.prog.phi_for(b, v) is Some,
        c.plan.home(v) is Some,
    ensures
        after[(c.plan.home(v)->0).0 as int] == c.plan.prog.arrived(s.env, s.block, b)(v),
{
    let p = c.plan.prog;
    let from = s.block;
    let end = p.nodes[from as int].end as int;
    let inputs = p.phi_for(b, v)->0;
    let r = c.plan.home(v)->0;
    lemma_order(c, w);
    lemma_successor_block(p, from, b);
    lemma_reached_block(p, from);
    assert(p.uses_ok(b, p.site(v)));
    let j = lemma_listed(inputs, from, 0);
    let x = inputs[j].1;
    assert(p.in_scope(from, end, x));
    lemma_scope_known(p, from, end, x);
    lemma_known_at_end(p, g, s, x);
    assert(c.plan.wants_across(w, from, b) && c.plan.spares_across(c.list, w, from, b));
    assert(w(from, end, x));
    lemma_wanted_at_end(c, w, g, s, x);
    lemma_found(c, w, g, from, s.at, s.env, m.regs, x);
    lemma_all_placed(c.plan, 0);
    assert(c.plan.live[b as int] && c.plan.live[from as int]);
    assert(phi_listed(c.plan, c.list, b, p.site(v), j));
    let e = move_for(c.plan, b, v, inputs[j]);
    let n = c.list.index_of(e);
    assert(c.list[n] == e);
    lemma_tramp_keys(c.plan, c.list);
    lemma_end_moves(c.plan, c.list, from);
    lemma_tramp_moves(c.list, (from, b));
    let src = c.plan.move_src(x)->Ok_0;
    if c.plan.critical(from, b) {
        assert(tramp_keys(c.plan, c.list).contains((from, b)));
        let moves = tramp_moves(c.list, (from, b));
        let k = moves.index_of(e.step);
        assert(moves[k] == e.step);
        assert(after[moves[k].dst.0 as int] == source_in(mid, moves[k].src));
        if let MoveSrc::Reg(q) = src {
            assert(c.plan.home(x) == Some(q));
            assert(!writes(c.end_moves(from), q));
            assert(mid[q.0 as int] == m.regs[q.0 as int]);
        }
    } else {
        assert(!tramp_keys(c.plan, c.list).contains((from, b))) by {
            if tramp_keys(c.plan, c.list).contains((from, b)) {
                let k = tramp_keys(c.plan, c.list).index_of((from, b));
                assert(c.plan.critical(tramp_keys(c.plan, c.list)[k].0, tramp_keys(c.plan, c.list)[k].1));
            }
        }
        let moves = c.end_moves(from);
        let k = moves.index_of(e.step);
        assert(moves[k] == e.step);
        assert(mid[moves[k].dst.0 as int] == source_in(m.regs, moves[k].src));
    }
}

/// A block that is not followed by one of its successors ends with a jump or
/// an exit.
proof fn lemma_ends_itself(c: Code, pos: int)
    requires
        c.plan.control_pieces(c.list, pos) is Ok,
        c.plan.next_block(pos) is None,
        c.plan.prog.terminator(c.plan.order[pos]) matches Some(op) ==> op.is_control(),
    ensures
        (c.plan.control_pieces(c.list, pos)->Ok_0).len() > 0,
{
}

/// A terminator passes control on.
proof fn lemma_terminates(p: Prog, i: int, end: int)
    ensures
        p.control_from(i, end) matches Some(op) ==> op.is_control(),
    decreases end - i,
{
    if i < end && !p.insns[i].is_control() {
        lemma_terminates(p, i + 1, end);
    }
}

/// A reached block starts at an instruction of the code.
proof fn lemma_inside(c: Code, w: Wants, b: usize)
    requires
        fitting(c, w),
        c.plan.prog.reaches(b),
    ensures
        0 <= c.block_at(b) < c.pieces.len(),
        c.plan.order.contains(b),
        b < c.plan.prog.nodes.len(),
        0 <= c.plan.order.index_of(b) < c.plan.order.len(),
        c.plan.order[c.plan.order.index_of(b)] == b,
{
    lemma_order(c, w);
    lemma_reached_block(c.plan.prog, b);
    assert(c.plan.order.contains(b));
    lemma_inside_from(c, w, c.plan.order.index_of(b));
}

proof fn lemma_inside_from(c: Code, w: Wants, pos: int)
    requires
        fitting(c, w),
        0 <= pos < c.plan.order.len(),
    ensures
        0 <= c.block_at(c.plan.order[pos]) < c.pieces.len(),
    decreases c.plan.order.len() - pos,
{
    let b = c.plan.order[pos];
    lemma_order(c, w);
    assert(c.plan.order.contains(b));
    lemma_reached_block(c.plan.prog, b);
    lemma_block_parts(c, pos);
    if pos + 1 < c.plan.order.len() {
        lemma_inside_from(c, w, pos + 1);
    } else {
        let node = c.plan.prog.nodes[b as int];
        lemma_terminates(c.plan.prog, node.start as int, node.end as int);
        lemma_ends_itself(c, pos);
    }
}

/// The machine at a jump.
proof fn lemma_run_jump(c: Code, m: VmModel, pc: int, target: Target, limit: usize)
    requires
        c.ok(),
        c.at(m, pc),
        c.holds(pc, seq![jump(target)]),
    ensures
        c.plan.place(c.list, target) < c.pieces.len() ==> comes_to(
            m,
            moved_on(m, m.regs, c.plan.place(c.list, target)),
        ) && strides(m, moved_on(m, m.regs, c.plan.place(c.list, target))),
        c.plan.place(c.list, target) == c.pieces.len() ==> machine_ends(m, limit, (world_of(m), Ending::FellOff)),
{
    let some = seq![jump(target)];
    assert(c.pieces[pc + 0] == some[0]);
    lemma_fetch_jump(c, pc);
    lemma_fetch_len(c);
    let to = c.plan.place(c.list, target);
    if to < c.pieces.len() {
        assert(m.step() == (moved_on(m, m.regs, to), StepResult::Continue));
        lemma_comes_step(m);
    } else {
        lemma_ends_now(m, limit);
    }
}

/// Behind the moves of a block, on the way to a successor.
proof fn lemma_to_successor(
    c: Code,
    w: Wants,
    g: Given,
    s: SsaState,
    m: VmModel,
    mid: VmModel,
    b: usize,
    limit: usize,
) -> (n: VmModel)
    requires
        fitting(c, w),
        carried(c, w, g, s, m),
        at_end(c.plan.prog, s),
        c.plan.prog.successors(s.block).contains(b),
        comes_to(m, mid),
        strides(m, mid) || c.plan.order.index_of(b) > c.plan.order.index_of(s.block),
        c.at(mid, c.plan.place(c.list, c.plan.edge(c.list, s.block, Some(b)))),
        world_of(mid) == s.world,
        at_once(m.regs, mid.regs, c.end_moves(s.block)),
        c.plan.prog.step(g, s) == Ok::<SsaState, Ending>(c.plan.prog.enter(s.env, s.world, s.block, b)),
    ensures
        comes_to(m, n),
        strides(m, n) || c.plan.order.index_of(b) > c.plan.order.index_of(s.block),
        carried(c, w, g, c.plan.prog.enter(s.env, s.world, s.block, b), n),
{
    let p = c.plan.prog;
    let from = s.block;
    let keys = tramp_keys(c.plan, c.list);
    let next = p.enter(s.env, s.world, from, b);
    lemma_successor_block(p, from, b);
    lemma_inside(c, w, b);
    lemma_sane_step(p, g, s);
    lemma_edge_movable(c, w, from, b);
    assert(c.plan.spares_across(c.list, w, from, b));
    let n = if keys.contains((from, b)) {
        let k = keys.index_of((from, b));
        lemma_few_tramps(c.plan, c.list, keys.len());
        lemma_fetch_len(c);
        lemma_tramp_placed(c, k);
        let moves = tramp_moves(c.list, (from, b));
        let pc = mid.pc as int;
        let some = ordered_pieces(moves, SsaError::PhiCycle)->Ok_0;
        let all = c.plan.tramp_pieces(c.list, k)->Ok_0;
        assert(keys[k] == (from, b));
        assert(all == some + seq![jump(Target::Block(b))]);
        lemma_holds_front(c, pc, some, seq![jump(Target::Block(b))]);
        let after = lemma_run_ordered(c, mid, moves, SsaError::PhiCycle, pc);
        lemma_run_jump(c, after, pc + some.len(), Target::Block(b), limit);
        let n = moved_on(after, after.regs, c.block_at(b));
        lemma_comes_on(m, mid, after);
        lemma_comes_on(m, after, n);
        n
    } else {
        mid
    };
    lemma_crossed(c, w, g, s, m, b, mid.regs, n.regs);
    lemma_order(c, w);
    let pos = c.plan.order.index_of(b);
    lemma_block_parts(c, pos);
    lemma_fetch_len(c);
    assert(carried(c, w, g, next, n));
    n
}

/// A jump that is left out where the target follows.
proof fn lemma_go(
    c: Code,
    w: Wants,
    g: Given,
    s: SsaState,
    m: VmModel,
    mid: VmModel,
    to: Option<usize>,
    limit: usize,
)
    requires
        fitting(c, w),
        carried(c, w, g, s, m),
        at_end(c.plan.prog, s),
        to matches Some(b) ==> c.plan.prog.successors(s.block).contains(b),
        comes_to(m, mid),
        c.at(mid, c.control_at(s.block)),
        world_of(mid) == s.world,
        at_once(m.regs, mid.regs, c.end_moves(s.block)),
        c.plan.prog.step(g, s) == c.plan.prog.go_to(s, to),
        c.plan.control_pieces(c.list, c.plan.order.index_of(s.block)) == Ok::<Seq<Piece>, SsaError>(
            c.plan.go(c.plan.order.index_of(s.block), c.plan.edge(c.list, s.block, to)),
        ),
    ensures
        does_step(c, w, g, s, m, limit),
{
    let from = s.block;
    let target = c.plan.edge(c.list, from, to);
    lemma_inside(c, w, from);
    lemma_order(c, w);
    let pos = c.plan.order.index_of(from);
    lemma_block_parts(c, pos);
    lemma_fetch_len(c);
    lemma_jump_away(c, w, g, s, m, mid, to, c.control_at(from), limit);
    if c.plan.next_block(pos) == Some(target) {
        assert(c.plan.go(pos, target).len() == 0);
        let b = to->0;
        assert(target == Target::Block(b));
        assert(c.block_at(b) == c.control_at(from));
        assert(c.plan.order[pos + 1] == b);
        assert(c.plan.order.index_of(b) == pos + 1);
        let n = lemma_to_successor(c, w, g, s, m, mid, b, limit);
    }
}

/// A jump to a successor, or out of the program.
proof fn lemma_jump_away(
    c: Code,
    w: Wants,
    g: Given,
    s: SsaState,
    m: VmModel,
    mid: VmModel,
    to: Option<usize>,
    pc: int,
    limit: usize,
)
    requires
        fitting(c, w),
        carried(c, w, g, s, m),
        at_end(c.plan.prog, s),
        to matches Some(b) ==> c.plan.prog.successors(s.block).contains(b),
        comes_to(m, mid),
        c.at(mid, pc),
        world_of(mid) == s.world,
        at_once(m.regs, mid.regs, c.end_moves(s.block)),
        c.plan.prog.step(g, s) == c.plan.prog.go_to(s, to),
    ensures
        c.holds(pc, seq![jump(c.plan.edge(c.list, s.block, to))]) ==> does_step(c, w, g, s, m, limit),
{
    let from = s.block;
    let target = c.plan.edge(c.list, from, to);
    if c.holds(pc, seq![jump(target)]) {
        lemma_run_jump(c, mid, pc, target, limit);
        lemma_fetch_len(c);
        match to {
            Some(b) => {
                lemma_edge_inside(c, w, from, b);
                let there = moved_on(mid, mid.regs, c.plan.place(c.list, target));
                lemma_comes_on(m, mid, there);
                let n = lemma_to_successor(c, w, g, s, m, there, b, limit);
            },
            None => {
                lemma_comes_end(m, mid, limit, (s.world, Ending::FellOff));
            },
        }
    }
}

/// An edge leads to an instruction of the code.
proof fn lemma_edge_inside(c: Code, w: Wants, p: usize, b: usize)
    requires
        fitting(c, w),
        c.plan.prog.reaches(p),
        c.plan.prog.successors(p).contains(b),
    ensures
        0 <= c.plan.place(c.list, c.plan.edge(c.list, p, Some(b))) < c.pieces.len(),
{
    lemma_successor_block(c.plan.prog, p, b);
    lemma_inside(c, w, b);
    let keys = tramp_keys(c.plan, c.list);
    if keys.contains((p, b)) {
        let k = keys.index_of((p, b));
        lemma_few_tramps(c.plan, c.list, keys.len());
        lemma_fetch_len(c);
        lemma_tramp_placed(c, k);
        assert((c.plan.tramp_pieces(c.list, k)->Ok_0).len() > 0);
    }
}

/// What a control instruction reads is still there behind the moves.
proof fn lemma_read_behind(c: Code, w: Wants, g: Given, s: SsaState, m: VmModel, mid: Seq<i64>, k: int)
    requires
        fitting(c, w),
        carried(c, w, g, s, m),
        c.plan.prog.within(s.block, s.at),
        c.plan.prog.insns[s.at].is_control(),
        at_once(m.regs, mid, c.end_moves(s.block)),
        0 <= k < c.plan.prog.insns[s.at].uses().len(),
    ensures
        c.plan.home(c.plan.prog.insns[s.at].uses()[k]) matches Some(r) ==> mid[r.0 as int] == (s.env)(
            c.plan.prog.insns[s.at].uses()[k],
        ) && r.0 <= 10,
{
    let p = c.plan.prog;
    let op = p.insns[s.at];
    lemma_use_found(c, w, g, s, m, k);
    assert(p.control_from(s.at, p.nodes[s.block as int].end as int) == Some(op));
    assert(c.plan.spares_end(c.list, s.block));
    if let Some(r) = c.plan.home(op.uses()[k]) {
        assert(!writes(c.end_moves(s.block), r));
    }
}

/// The machine at a conditional jump.
proof fn lemma_run_cond(
    c: Code,
    m: VmModel,
    pc: int,
    width: Width,
    op: JumpOp,
    lhs: SsaOperand,
    rhs: SsaOperand,
    target: Target,
    env: Values,
)
    requires
        c.ok(),
        c.at(m, pc),
        op != JumpOp::Always,
        c.plan.cond(width, op, lhs, rhs, target) is Ok,
        c.holds(pc, c.plan.cond(width, op, lhs, rhs, target)->Ok_0),
        c.plan.place(c.list, target) < c.pieces.len(),
        lhs matches SsaOperand::Value(v) ==> (c.plan.home(v) matches Some(r) ==> m.regs[r.0 as int] == env(v) && r.0
            <= 10),
        rhs matches SsaOperand::Value(v) ==> (c.plan.home(v) matches Some(r) ==> m.regs[r.0 as int] == env(v) && r.0
            <= 10),
    ensures
        ({
            let n = moved_on(
                m,
                m.regs,
                if jump_condition(op, number_of(env, lhs), number_of(env, rhs), width) {
                    c.plan.place(c.list, target)
                } else {
                    pc + 1
                },
            );
            comes_to(m, n) && strides(m, n)
        }),
{
    let some = c.plan.cond(width, op, lhs, rhs, target)->Ok_0;
    assert(c.pieces[pc + 0] == some[0]);
    lemma_fetch_jump(c, pc);
    lemma_fetch_len(c);
    lemma_comes_step(m);
}

/// Different targets of a branch.
proof fn lemma_same_edge(c: Code, p: usize, a: usize, b: Option<usize>)
    ensures
        c.plan.edge(c.list, p, Some(a)) == c.plan.edge(c.list, p, b) && tramp_keys(c.plan, c.list).len() <= usize::MAX
            ==> b == Some(a),
{
    let keys = tramp_keys(c.plan, c.list);
    if let Some(d) = b {
        if keys.contains((p, a)) && keys.contains((p, d)) {
            let i = keys.index_of((p, a));
            let j = keys.index_of((p, d));
            assert(keys[i] == (p, a));
            assert(keys[j] == (p, d));
        }
    }
}

/// Branches.
proof fn lemma_branch(c: Code, w: Wants, g: Given, s: SsaState, m: VmModel, mid: VmModel, limit: usize)
    requires
        fitting(c, w),
        carried(c, w, g, s, m),
        c.plan.prog.within(s.block, s.at),
        c.plan.prog.insns[s.at] is Br,
        comes_to(m, mid),
        c.at(mid, c.control_at(s.block)),
        world_of(mid) == s.world,
        at_once(m.regs, mid.regs, c.end_moves(s.block)),
    ensures
        does_step(c, w, g, s, m, limit),
{
    let p = c.plan.prog;
    let from = s.block;
    let br = p.insns[s.at];
    let width = br->Br_width;
    let op = br->Br_op;
    let lhs = br->Br_lhs;
    let rhs = br->Br_rhs;
    let yes = br->Br_true_target;
    let no = br->Br_false_target;
    let end = p.nodes[from as int].end as int;
    assert(p.terminator(from) == Some(br));
    assert(p.wired(from));
    lemma_inside(c, w, from);
    lemma_order(c, w);
    let pos = c.plan.order.index_of(from);
    lemma_block_parts(c, pos);
    lemma_fetch_len(c);
    lemma_few_tramps(c.plan, c.list, tramp_keys(c.plan, c.list).len());
    let pc = c.control_at(from);
    let holds = jump_condition(op, number_of(s.env, lhs), number_of(s.env, rhs), width);
    let to = if holds {
        yes
    } else {
        no
    };
    assert(p.step(g, s) == p.go_to(s, to));
    let taken = c.plan.edge(c.list, from, yes);
    let untaken = c.plan.edge(c.list, from, no);
    let behind = c.plan.next_block(pos);
    let some = c.plan.control_pieces(c.list, pos)->Ok_0;
    if op == JumpOp::Call || op == JumpOp::Exit {
        lemma_go(c, w, g, s, m, mid, no, limit);
    } else {
        let a = yes->0;
        lemma_same_edge(c, from, a, no);
        lemma_edge_inside(c, w, from, a);
        if let SsaOperand::Value(v) = lhs {
            assert(br.uses()[0] == v);
            lemma_read_behind(c, w, g, s, m, mid.regs, 0);
        }
        if let SsaOperand::Value(v) = rhs {
            let k = br.uses().len() - 1;
            assert(br.uses()[k] == v);
            lemma_read_behind(c, w, g, s, m, mid.regs, k);
        }
        if taken == untaken {
            lemma_go(c, w, g, s, m, mid, yes, limit);
        } else if Some(untaken) == behind {
            lemma_run_cond(c, mid, pc, width, op, lhs, rhs, taken, s.env);
            let d = no->0;
            let there = moved_on(
                mid,
                mid.regs,
                if holds {
                    c.plan.place(c.list, taken)
                } else {
                    pc + 1
                },
            );
            lemma_comes_on(m, mid, there);
            assert(untaken == Target::Block(d));
            let n = lemma_to_successor(c, w, g, s, m, there, to->0, limit);
        } else if Some(taken) == behind && untaken != Target::FallOff && inverse(op) is Some {
            let d = no->0;
            lemma_edge_inside(c, w, from, d);
            inverse_negates(op, number_of(s.env, lhs), number_of(s.env, rhs), width);
            lemma_run_cond(c, mid, pc, width, inverse(op)->0, lhs, rhs, untaken, s.env);
            let there = moved_on(
                mid,
                mid.regs,
                if holds {
                    pc + 1
                } else {
                    c.plan.place(c.list, untaken)
                },
            );
            lemma_comes_on(m, mid, there);
            assert(taken == Target::Block(a));
            let n = lemma_to_successor(c, w, g, s, m, there, to->0, limit);
        } else {
            let first = c.plan.cond(width, op, lhs, rhs, taken)->Ok_0;
            let last = seq![jump(untaken)];
            assert(some == first + last);
            lemma_holds_front(c, pc, first, last);
            lemma_run_cond(c, mid, pc, width, op, lhs, rhs, taken, s.env);
            let there = moved_on(
                mid,
                mid.regs,
                if holds {
                    c.plan.place(c.list, taken)
                } else {
                    pc + 1
                },
            );
            lemma_comes_on(m, mid, there);
            if holds {
                let n = lemma_to_successor(c, w, g, s, m, there, a, limit);
            } else {
                assert(c.holds(pc + 1, seq![jump(c.plan.edge(c.list, s.block, no))]));
                lemma_jump_away(c, w, g, s, m, there, no, pc + 1, limit);
            }
        }
    }
}

/// Exits.
proof fn lemma_leave(c: Code, w: Wants, g: Given, s: SsaState, m: VmModel, mid: VmModel, limit: usize)
    requires
        fitting(c, w),
        carried(c, w, g, s, m),
        c.plan.prog.within(s.block, s.at),
        c.plan.prog.insns[s.at] is Exit,
        comes_to(m, mid),
        c.at(mid, c.control_at(s.block)),
        world_of(mid) == s.world,
        at_once(m.regs, mid.regs, c.end_moves(s.block)),
    ensures
        does_step(c, w, g, s, m, limit),
{
    let p = c.plan.prog;
    let from = s.block;
    let op = p.insns[s.at];
    let v = op->Exit_r0;
    assert(p.terminator(from) == Some(op));
    lemma_inside(c, w, from);
    lemma_order(c, w);
    let pos = c.plan.order.index_of(from);
    lemma_block_parts(c, pos);
    lemma_fetch_len(c);
    assert(op.uses()[0] == v);
    lemma_read_behind(c, w, g, s, m, mid.regs, 0);
    let home = c.plan.home(v)->0;
    let pc = c.control_at(from);
    let step = PlacedMove { dst: Reg(0), src: MoveSrc::Reg(home) };
    let first = move_pieces(step);
    let last = seq![plain(Insn::Exit)];
    assert(c.plan.control_pieces(c.list, pos)->Ok_0 == first + last);
    lemma_holds_front(c, pc, first, last);
    lemma_run_move(c, mid, step, pc);
    let there = moved_on(mid, crate::ssa::code::after_move(mid.regs, step), pc + first.len());
    lemma_comes_on(m, mid, there);
    assert(c.pieces[pc + first.len() + 0] == last[0]);
    lemma_fetch(c, pc + first.len());
    lemma_ends_now(there, limit);
    lemma_comes_end(m, there, limit, (s.world, Ending::Exit((s.env)(v))));
}

/// The end of a block.
pub proof fn lemma_do_end(c: Code, w: Wants, g: Given, s: SsaState, m: VmModel, limit: usize)
    requires
        fitting(c, w),
        carried(c, w, g, s, m),
        at_end(c.plan.prog, s),
    ensures
        does_step(c, w, g, s, m, limit),
{
    let p = c.plan.prog;
    let from = s.block;
    let end = p.nodes[from as int].end as int;
    lemma_reached_block(p, from);
    lemma_inside(c, w, from);
    lemma_order(c, w);
    let pos = c.plan.order.index_of(from);
    lemma_block_parts(c, pos);
    lemma_edge_movable(c, w, from, from);
    assert(c.plan.spares_end(c.list, from));
    assert((c.body_from(from, s.at)->Ok_0).len() == 0);
    assert(c.insn_at(from, s.at) == c.moves_at(from));
    let mid = lemma_run_ordered(c, m, c.end_moves(from), SsaError::PhiCycle, c.moves_at(from));
    if s.at >= end {
        assert(p.terminator(from) is None);
        if let Some(to) = p.behind(from) {
            assert(p.successors(from)[0] == to);
        }
        lemma_go(c, w, g, s, m, mid, p.behind(from), limit);
    } else {
        let op = p.insns[s.at];
        assert(p.terminator(from) == Some(op));
        match op {
            Op::Br { .. } => {
                lemma_branch(c, w, g, s, m, mid, limit);
            },
            Op::Ja { target } => {
                assert(p.wired(from));
                lemma_go(c, w, g, s, m, mid, Some(target), limit);
            },
            _ => {
                lemma_leave(c, w, g, s, m, mid, limit);
            },
        }
    }
}

} // verus!
