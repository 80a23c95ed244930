//! Copy propagation keeps what programs do.
use vstd::prelude::*;

use crate::ssa::opt::{renamed, renamed_by, renamed_value, rewrite_of};
use crate::ssa::passes::{
    follows, keeps, lemma_keeps, lemma_known_at_end, lemma_known_into, lemma_precedes,
    lemma_same_reach, lemma_same_successors, lemma_same_work, matched, same_arrival, same_block,
    same_control, same_outcome, same_places,
};
use crate::ssa::run::{act, number_of, numbers_of, taken_from, Given, SsaState, Values, World};
use crate::ssa::scope::{
    lemma_def_ok, lemma_fixed, lemma_listed, lemma_meets, lemma_reached_block, lemma_reads_source,
    lemma_scope_known, lemma_source_first, lemma_successor_block, lemma_within,
};
use crate::ssa::{live_at, Op, Prog, SsaOperand, SsaValue, START_PRED};

verus! {

/// A list of values and what to write in their place.
pub type Rewrites = Seq<(SsaValue, SsaValue)>;

/// A value after the rewrites from `k` on.
pub open spec fn chased(v: SsaValue, list: Rewrites, k: nat) -> SsaValue
    decreases list.len() - k,
{
    if k >= list.len() {
        v
    } else {
        chased(renamed_value(v, list[k as int].0, list[k as int].1), list, k + 1)
    }
}

/// An operand after the rewrites from `k` on.
pub open spec fn chased_operand(o: SsaOperand, list: Rewrites, k: nat) -> SsaOperand {
    match o {
        SsaOperand::Value(v) => SsaOperand::Value(chased(v, list, k)),
        SsaOperand::Imm(n) => SsaOperand::Imm(n),
    }
}

/// An instruction with its uses after the rewrites from `k` on.
pub open spec fn chased_op(op: Op, list: Rewrites, k: nat) -> Op {
    match op {
        Op::Copy { dst, src } => Op::Copy { dst, src: chased(src, list, k) },
        Op::BinOp { dst, width, op, lhs, rhs } => Op::BinOp {
            dst,
            width,
            op,
            lhs: chased_operand(lhs, list, k),
            rhs: chased_operand(rhs, list, k),
        },
        Op::Load { dst, size, base, offset } => Op::Load { dst, size, base: chased(base, list, k), offset },
        Op::Store { size, base, offset, src } => Op::Store {
            size,
            base: chased(base, list, k),
            offset,
            src: chased_operand(src, list, k),
        },
        Op::Call { dst, func, args } => Op::Call {
            dst,
            func,
            args: args.map_values(|v: SsaValue| chased(v, list, k)),
        },
        Op::Phi { dst, inputs } => Op::Phi { dst, inputs: chased_inputs(inputs, list, k) },
        Op::Br { width, op, lhs, rhs, true_target, false_target } => Op::Br {
            width,
            op,
            lhs: chased_operand(lhs, list, k),
            rhs: chased_operand(rhs, list, k),
            true_target,
            false_target,
        },
        Op::Exit { r0 } => Op::Exit { r0: chased(r0, list, k) },
        _ => op,
    }
}

/// The inputs of a phi after the rewrites from `k` on.
pub open spec fn chased_inputs(inputs: Seq<(usize, SsaValue)>, list: Rewrites, k: nat) -> Seq<(usize, SsaValue)> {
    inputs.map_values(|i: (usize, SsaValue)| (i.0, chased(i.1, list, k)))
}

/// Rewriting an instruction rewrites its uses.
proof fn lemma_chased_op(op: Op, list: Rewrites, k: nat)
    ensures
        renamed_by(op, list, k) == chased_op(op, list, k),
    decreases list.len() - k,
{
    if k >= list.len() {
        match op {
            Op::Call { args, .. } => {
                assert(chased_op(op, list, k)->Call_args =~= args);
            },
            Op::Phi { inputs, .. } => {
                assert(chased_inputs(inputs, list, k) =~= inputs);
            },
            _ => {},
        }
    } else {
        let (from, to) = list[k as int];
        let next = renamed(op, from, to);
        lemma_chased_op(next, list, k + 1);
        match op {
            Op::Call { args, .. } => {
                assert(chased_op(next, list, k + 1)->Call_args =~= chased_op(op, list, k)->Call_args);
            },
            Op::Phi { inputs, .. } => {
                assert(chased_inputs(next->Phi_inputs, list, k + 1) =~= chased_inputs(inputs, list, k));
            },
            _ => {},
        }
    }
}

/// Whether every rewrite replaces a copy by its source.
pub open spec fn faithful_list(p: Prog, list: Rewrites) -> bool {
    forall|k: int|
        0 <= k < list.len() ==> p.defined((#[trigger] list[k]).0) && rewrite_of(p.def_of(list[k].0)->0) == Some(
            list[k],
        )
}

/// The rewrites of a scoped program replace copies by their sources.
proof fn lemma_list(p: Prog, i: nat)
    requires
        p.scoped(),
        i <= p.insns.len(),
    ensures
        faithful_list(p, p.rewrites_from(i)),
    decreases p.insns.len() - i,
{
    if i < p.insns.len() {
        lemma_list(p, i + 1);
        let rest = p.rewrites_from(i + 1);
        let list = p.rewrites_from(i);
        assert forall|k: int| 0 <= k < list.len() implies p.defined((#[trigger] list[k]).0) && rewrite_of(
            p.def_of(list[k].0)->0,
        ) == Some(list[k]) by {
            if rewrite_of(p.insns[i as int]) is Some && live_at(p.nodes, i as int) {
                if k == 0 {
                    assert(p.def_ok(i as int));
                } else {
                    assert(list[k] == rest[k - 1]);
                }
            } else {
                assert(list[k] == rest[k]);
            }
        }
    }
}

/// Where a copy may be used, its source may.
proof fn lemma_copy_scope(p: Prog, b: usize, i: int, v: SsaValue, u: SsaValue)
    requires
        p.scoped(),
        p.reaches(b),
        p.in_scope(b, i, v),
        rewrite_of(p.def_of(v)->0) == Some((v, u)),
    ensures
        p.in_scope(b, i, u),
{
    let op = p.def_of(v)->0;
    let way = choose|t: Seq<usize>| #[trigger] p.is_trace(t) && t.last() == b;
    let n = way.len() - 1;
    if p.within(b, p.site(v)) && p.site(v) < i {
        assert(p.within(way[n], p.site(v)));
        if !(op is Phi) {
            assert(p.uses_ok(b, p.site(v)));
            lemma_reads_source(op, v, u);
            let m = op.uses().index_of(u);
            assert(p.in_scope(b, p.site(v), op.uses()[m]));
        } else {
            lemma_phi_source(p, b, v, u);
        }
    } else {
        assert forall|t: Seq<usize>| #[trigger] p.is_trace(t) && t.last() == b implies p.passes(t, u) by {
            assert(p.passes(t, v));
            let q = choose|k: int| 0 <= k < t.len() - 1 && #[trigger] p.within(t[k], p.site(v));
            let k = lemma_meets(p, t, q, v);
            let r = lemma_source_first(p, t, k, v, u);
            assert(p.within(t[r], p.site(u)));
        }
        assert(p.passes(way, v));
        let q = choose|k: int| 0 <= k < way.len() - 1 && #[trigger] p.within(way[k], p.site(v));
        let k = lemma_meets(p, way, q, v);
        let r = lemma_source_first(p, way, k, v, u);
    }
}

/// Where a phi stands for one value, that value may be used.
proof fn lemma_phi_source(p: Prog, b: usize, v: SsaValue, u: SsaValue)
    requires
        p.scoped(),
        p.reaches(b),
        p.defined(v),
        p.within(b, p.site(v)),
        p.def_of(v)->0 is Phi,
        rewrite_of(p.def_of(v)->0) == Some((v, u)),
    ensures
        p.in_scope(b, p.site(v), u),
{
    let way = choose|t: Seq<usize>| #[trigger] p.is_trace(t) && t.last() == b;
    let n = way.len() - 1;
    assert(p.within(way[n], p.site(v)));
    let m = lemma_meets(p, way, n, v);
    let f = lemma_source_first(p, way, m, v, u);
    if !(p.within(b, p.site(u)) && p.site(u) < p.site(v)) {
        assert forall|t: Seq<usize>| #[trigger] p.is_trace(t) && t.last() == b implies p.passes(t, u) by {
            let last = t.len() - 1;
            assert(p.within(t[last], p.site(v)));
            let k = lemma_meets(p, t, last, v);
            let r = lemma_source_first(p, t, k, v, u);
            if r == last {
                assert(t[last] == b);
            }
            assert(p.within(t[r], p.site(u)));
        }
    }
}

/// Chasing a value that may be used gives one that may be used, with the
/// same number.
proof fn lemma_chase(p: Prog, g: Given, env: Values, b: usize, i: int, v: SsaValue, list: Rewrites, k: nat)
    requires
        p.scoped(),
        p.reaches(b),
        faithful_list(p, list),
        p.in_scope(b, i, v),
    ensures
        p.in_scope(b, i, chased(v, list, k)),
        (forall|w: SsaValue| #[trigger] p.known(b, i, w) ==> p.coherent(g, env, w)) ==> env(
            chased(v, list, k),
        ) == env(v),
    decreases list.len() - k,
{
    if k < list.len() {
        let (from, to) = list[k as int];
        let next = renamed_value(v, from, to);
        if v == from {
            lemma_copy_scope(p, b, i, v, to);
            lemma_scope_known(p, b, i, v);
            assert(p.known(b, i, v));
        }
        lemma_chase(p, g, env, b, i, next, list, k + 1);
    }
}

/// Fixed values are not chased.
proof fn lemma_chase_fixed(p: Prog, v: SsaValue, list: Rewrites, k: nat)
    requires
        faithful_list(p, list),
        p.is_fixed(v),
    ensures
        chased(v, list, k) == v,
    decreases list.len() - k,
{
    if k < list.len() {
        assert(rewrite_of(p.def_of(list[k as int].0)->0) == Some(list[k as int]));
        lemma_chase_fixed(p, v, list, k + 1);
    }
}

/// What a phi takes is chased with its inputs.
proof fn lemma_chased_taken(inputs: Seq<(usize, SsaValue)>, list: Rewrites, p: usize, k: nat)
    ensures
        taken_from(chased_inputs(inputs, list, 0), p, k) == match taken_from(inputs, p, k) {
            Some(v) => Some(chased(v, list, 0)),
            None => None,
        },
    decreases inputs.len() - k,
{
    if k < inputs.len() {
        lemma_chased_taken(inputs, list, p, k + 1);
    }
}

/// The uses of a chased instruction are the chased uses.
pub proof fn lemma_chased_uses(op: Op, list: Rewrites)
    requires
        !(op is Phi),
    ensures
        chased_op(op, list, 0).uses() == op.uses().map_values(|v: SsaValue| chased(v, list, 0)),
{
    let f = |v: SsaValue| chased(v, list, 0);
    match op {
        Op::BinOp { lhs, rhs, .. } => {
            assert(chased_op(op, list, 0).uses() =~= op.uses().map_values(f));
        },
        Op::Br { lhs, rhs, .. } => {
            assert(chased_op(op, list, 0).uses() =~= op.uses().map_values(f));
        },
        Op::Store { base, src, .. } => {
            assert(chased_op(op, list, 0).uses() =~= op.uses().map_values(f));
        },
        _ => {
            assert(chased_op(op, list, 0).uses() =~= op.uses().map_values(f));
        },
    }
}

/// A chased instruction does the same on values that match.
proof fn lemma_chased_act(g: Given, op: Op, list: Rewrites, a: Values, b: Values)
    requires
        !(op is Phi),
        forall|k: int|
            0 <= k < op.uses().len() ==> b(chased(#[trigger] op.uses()[k], list, 0)) == a(op.uses()[k]),
    ensures
        act(g, chased_op(op, list, 0), b) == act(g, op, a),
{
    match op {
        Op::Copy { src, .. } => {
            assert(op.uses()[0] == src);
        },
        Op::BinOp { lhs, rhs, .. } => {
            lemma_chased_numbers(op, lhs, rhs, list, a, b);
        },
        Op::Br { lhs, rhs, .. } => {
            lemma_chased_numbers(op, lhs, rhs, list, a, b);
        },
        Op::Load { base, .. } => {
            assert(op.uses()[0] == base);
        },
        Op::Store { base, src, .. } => {
            assert(op.uses()[0] == base);
            if let SsaOperand::Value(v) = src {
                assert(op.uses()[1] == v);
            }
        },
        Op::Call { args, .. } => {
            let after = chased_op(op, list, 0)->Call_args;
            assert forall|k: int| 0 <= k < args.len() implies b(#[trigger] after[k]) == a(args[k]) by {
                assert(op.uses()[k] == args[k]);
            }
            assert(numbers_of(b, after) =~= numbers_of(a, args));
        },
        Op::Exit { r0 } => {
            assert(op.uses()[0] == r0);
        },
        _ => {},
    }
}

proof fn lemma_chased_numbers(op: Op, lhs: SsaOperand, rhs: SsaOperand, list: Rewrites, a: Values, b: Values)
    requires
        op.uses() == lhs.values() + rhs.values(),
        forall|k: int|
            0 <= k < op.uses().len() ==> b(chased(#[trigger] op.uses()[k], list, 0)) == a(op.uses()[k]),
    ensures
        number_of(b, chased_operand(lhs, list, 0)) == number_of(a, lhs),
        number_of(b, chased_operand(rhs, list, 0)) == number_of(a, rhs),
{
    if let SsaOperand::Value(v) = lhs {
        assert(op.uses()[0] == v);
    }
    if let SsaOperand::Value(v) = rhs {
        assert(op.uses().last() == v);
    }
}

/// What copy propagation makes of a program.
pub proof fn lemma_copied(p: Prog, j: int)
    requires
        p.wf(),
        0 <= j < p.insns.len(),
    ensures
        p.copies_propagated().insns[j] == (if live_at(p.nodes, j) {
            chased_op(p.insns[j], p.rewrites_from(0), 0)
        } else {
            p.insns[j]
        }),
        p.copies_propagated().insns[j].def() == p.insns[j].def(),
        p.copies_propagated().insns[j] is Phi <==> p.insns[j] is Phi,
        p.copies_propagated().insns[j].is_control() == p.insns[j].is_control(),
        same_control(Some(p.insns[j]), Some(p.copies_propagated().insns[j])) || !p.insns[j].is_control(),
        p.copies_propagated().insns[j].blocks_below(p.nodes.len()),
{
    lemma_chased_op(p.insns[j], p.rewrites_from(0), 0);
    assert(p.insns[j].blocks_below(p.nodes.len()));
    if let Op::Phi { inputs, .. } = p.insns[j] {
        if live_at(p.nodes, j) {
            let after = chased_inputs(inputs, p.rewrites_from(0), 0);
            assert forall|i: int| 0 <= i < after.len() implies (#[trigger] after[i]).0 == START_PRED || after[i].0
                < p.nodes.len() by {
                assert(inputs[i].0 == START_PRED || inputs[i].0 < p.nodes.len());
            }
        }
    }
}

proof fn lemma_copied_control(p: Prog, i: int, end: int)
    requires
        p.wf(),
        0 <= i,
        end <= p.insns.len(),
    ensures
        same_control(p.control_from(i, end), p.copies_propagated().control_from(i, end)),
    decreases end - i,
{
    if i < end {
        lemma_copied(p, i);
        lemma_copied_control(p, i + 1, end);
    }
}

pub proof fn lemma_copied_places(p: Prog)
    requires
        p.wf(),
    ensures
        same_places(p, p.copies_propagated()),
{
    let q = p.copies_propagated();
    assert forall|j: int| 0 <= j < q.insns.len() implies (#[trigger] q.insns[j]).blocks_below(q.nodes.len()) by {
        lemma_copied(p, j);
    }
    assert(q.wf());
    assert forall|b: usize| #[trigger] p.reaches(b) implies same_control(p.terminator(b), q.terminator(b)) by {
        lemma_reached_block(p, b);
        let node = p.nodes[b as int];
        if b < p.nodes.len() - 1 {
            assert(p.nodes[b as int].end <= p.nodes[p.nodes.len() - 1].start);
        }
        lemma_copied_control(p, node.start as int, node.end as int);
    }
}

/// Copy propagation changes neither where values are defined nor whether
/// they are.
proof fn lemma_copied_value(p: Prog, v: SsaValue)
    requires
        p.wf(),
    ensures
        ({
            let q = p.copies_propagated();
            &&& q.defined(v) == p.defined(v)
            &&& q.site(v) == p.site(v)
            &&& q.is_fixed(v) == p.is_fixed(v)
            &&& p.is_fixed(v) ==> q.def_of(v) == p.def_of(v)
            &&& q.def_of(v) is Some <==> p.def_of(v) is Some
            &&& p.def_of(v) is Some ==> (q.def_of(v)->0 is Phi <==> p.def_of(v)->0 is Phi)
            &&& same_block(p, q, v)
            &&& forall|b: usize, k: int| #[trigger] q.within(b, k) == p.within(b, k)
        }),
{
    if p.def_of(v) is Some {
        lemma_copied(p, p.site(v));
    }
}

proof fn lemma_copied_scope(p: Prog, b: usize, k: int, v: SsaValue)
    requires
        p.wf(),
        p.in_scope(b, k, v),
    ensures
        p.copies_propagated().in_scope(b, k, v),
{
    lemma_copied_places(p);
    lemma_copied_value(p, v);
    if p.precedes(b, v) {
        lemma_precedes(p, p.copies_propagated(), b, v);
    }
}

/// The uses after copy propagation are in scope.
proof fn lemma_copied_uses(p: Prog, b: usize, k: int)
    requires
        p.scoped(),
        p.within(b, k),
        p.reaches(b),
    ensures
        p.copies_propagated().uses_ok(b, k),
        p.swap_ok(k) ==> p.copies_propagated().swap_ok(k),
{
    let q = p.copies_propagated();
    let list = p.rewrites_from(0);
    let g = Given { ctx: 0, frame: 0 };
    let env = |v: SsaValue| 0i64;
    lemma_copied_places(p);
    lemma_within(p, b, k);
    lemma_def_ok(p, b, k);
    lemma_copied(p, k);
    lemma_list(p, 0);
    assert(p.uses_ok(b, k));
    let op = p.insns[k];
    if let Op::Phi { inputs, .. } = op {
        let after = chased_inputs(inputs, list, 0);
        assert forall|j: int| 0 <= j < after.len() implies (if (#[trigger] after[j]).0 == START_PRED {
            q.start_ok(k, after[j].1)
        } else {
            q.reaches(after[j].0) ==> q.in_scope(after[j].0, q.nodes[after[j].0 as int].end as int, after[j].1)
        }) by {
            let (from, v) = inputs[j];
            assert(inputs[j].0 == from);
            lemma_same_reach(p, q, from);
            if from == START_PRED {
                assert(p.start_ok(k, v));
                lemma_chase_fixed(p, v, list, 0);
                lemma_copied_value(p, v);
            } else if p.reaches(from) {
                lemma_chase(p, g, env, from, p.nodes[from as int].end as int, v, list, 0);
                lemma_copied_scope(p, from, p.nodes[from as int].end as int, after[j].1);
            }
        }
        assert forall|f: usize| #[trigger] q.reaches(f) && q.successors(f).contains(b) implies taken_from(
            after,
            f,
            0,
        ) is Some by {
            lemma_same_reach(p, q, f);
            lemma_reached_block(p, f);
            lemma_same_successors(p, q, f);
            assert(p.reaches(f));
            lemma_chased_taken(inputs, list, f, 0);
        }
        lemma_chased_taken(inputs, list, START_PRED, 0);
    } else {
        lemma_chased_uses(op, list);
        let after = chased_op(op, list, 0);
        assert forall|j: int| 0 <= j < after.uses().len() implies q.in_scope(b, k, #[trigger] after.uses()[j]) by {
            lemma_chase(p, g, env, b, k, op.uses()[j], list, 0);
            lemma_copied_scope(p, b, k, after.uses()[j]);
        }
    }
}

pub proof fn lemma_copied_strict(p: Prog)
    requires
        p.scoped(),
    ensures
        p.copies_propagated().scoped(),
        p.strict() ==> p.copies_propagated().strict(),
{
    let q = p.copies_propagated();
    lemma_copied_places(p);
    assert forall|b: usize| #[trigger] q.reaches(b) implies q.wired(b) && q.nodes[b as int].live by {
        lemma_same_reach(p, q, b);
        lemma_reached_block(p, b);
        lemma_same_successors(p, q, b);
    }
    assert forall|k: int| 0 <= k < q.insns.len() && #[trigger] live_at(q.nodes, k) implies q.def_ok(k) by {
        assert(p.def_ok(k));
        lemma_copied(p, k);
    }
    assert forall|b: usize, k: int| #[trigger] q.within(b, k) && q.reaches(b) implies (p.strict() ==> q.swap_ok(k)) && q.uses_ok(b, k) && (
    q.insns[k].is_control() ==> k + 1 == q.nodes[b as int].end) by {
        lemma_same_reach(p, q, b);
        assert(p.within(b, k));
        lemma_within(p, b, k);
        lemma_copied(p, k);
        lemma_copied_uses(p, b, k);
    }
}

proof fn lemma_copied_arrival(p: Prog, g: Given, s: SsaState, t: SsaState, b: usize)
    requires
        p.scoped(),
        p.sane(g, s),
        matched(p, s, t),
        s.at == p.nodes[s.block as int].end || (p.within(s.block, s.at) && p.insns[s.at].is_control()),
        p.successors(s.block).contains(b),
    ensures
        same_arrival(p, p.copies_propagated(), s.env, t.env, s.block, b),
{
    let q = p.copies_propagated();
    let list = p.rewrites_from(0);
    let from = s.block;
    let end = p.nodes[from as int].end as int;
    lemma_reached_block(p, from);
    lemma_successor_block(p, from, b);
    lemma_list(p, 0);
    lemma_copied_places(p);
    assert forall|w: SsaValue| #[trigger] p.known(from, end, w) implies p.coherent(g, s.env, w) by {
        lemma_known_at_end(p, g, s, w);
    }
    assert forall|v: SsaValue| #[trigger] p.known(b, p.nodes[b as int].start as int, v) implies q.arrived(
        t.env,
        from,
        b,
    )(v) == p.arrived(s.env, from, b)(v) by {
        lemma_copied_value(p, v);
        if let Some(inputs) = p.phi_for(b, v) {
            assert(p.uses_ok(b, p.site(v)));
            lemma_def_ok(p, b, p.site(v));
            lemma_copied(p, p.site(v));
            let j = lemma_listed(inputs, from, 0);
            let x = inputs[j].1;
            assert(p.in_scope(from, end, x));
            lemma_chase(p, g, s.env, from, end, x, list, 0);
            let y = chased(x, list, 0);
            lemma_scope_known(p, from, end, y);
            lemma_known_at_end(p, g, s, y);
            lemma_chased_taken(inputs, list, from, 0);
            assert(q.phi_for(b, v) == Some(chased_inputs(inputs, list, 0)));
        } else {
            lemma_known_into(p, g, s, b, v);
            assert(q.phi_for(b, v) is None);
        }
    }
}

/// Copy propagation leaves every step alone.
proof fn lemma_copied_follows(p: Prog, g: Given)
    requires
        p.scoped(),
    ensures
        follows(p, p.copies_propagated(), g),
{
    let q = p.copies_propagated();
    let list = p.rewrites_from(0);
    lemma_copied_places(p);
    lemma_list(p, 0);
    assert forall|s: SsaState, t: SsaState| p.sane(g, s) && #[trigger] matched(p, s, t) implies same_outcome(
        p,
        p.step(g, s),
        q.step(g, t),
    ) by {
        lemma_reached_block(p, s.block);
        if p.within(s.block, s.at) {
            let op = p.insns[s.at];
            lemma_def_ok(p, s.block, s.at);
            lemma_copied(p, s.at);
            assert(p.uses_ok(s.block, s.at));
            if !(op is Phi) {
                assert forall|k: int| 0 <= k < op.uses().len() implies (t.env)(
                    chased(#[trigger] op.uses()[k], list, 0),
                ) == (s.env)(op.uses()[k]) by {
                    let v = op.uses()[k];
                    lemma_chase(p, g, s.env, s.block, s.at, v, list, 0);
                    lemma_scope_known(p, s.block, s.at, chased(v, list, 0));
                }
                lemma_chased_act(g, op, list, s.env, t.env);
            }
        }
        if s.at == p.nodes[s.block as int].end || (p.within(s.block, s.at) && p.insns[s.at].is_control()) {
            assert forall|b: usize| #[trigger] p.successors(s.block).contains(b) implies same_arrival(
                p,
                q,
                s.env,
                t.env,
                s.block,
                b,
            ) by {
                lemma_copied_arrival(p, g, s, t, b);
            }
        }
        lemma_same_work(p, q, g, s, t);
    }
}

/// Copy propagation leaves the start alone.
proof fn lemma_copied_first(p: Prog, g: Given, world: World)
    requires
        p.scoped(),
    ensures
        matched(p, p.first_state(g, world), p.copies_propagated().first_state(g, world)),
{
    let q = p.copies_propagated();
    let list = p.rewrites_from(0);
    let b = p.entry;
    lemma_copied_places(p);
    lemma_list(p, 0);
    let t = seq![b];
    assert(p.is_trace(t) && t.last() == b);
    assert(p.reaches(b));
    let s = p.first_state(g, world);
    let u = q.first_state(g, world);
    assert forall|v: SsaValue| #[trigger] p.known(b, s.at, v) implies (u.env)(v) == (s.env)(v) by {
        lemma_copied_value(p, v);
        lemma_fixed(p, g, v);
        assert(!p.passes(t, v));
        if let Some(inputs) = p.phi_for(b, v) {
            assert(p.uses_ok(b, p.site(v)));
            lemma_def_ok(p, b, p.site(v));
            lemma_copied(p, p.site(v));
            let j = lemma_listed(inputs, START_PRED, 0);
            let x = inputs[j].1;
            assert(p.start_ok(p.site(v), x));
            lemma_copied_value(p, x);
            lemma_fixed(p, g, x);
            lemma_chase_fixed(p, x, list, 0);
            lemma_chased_taken(inputs, list, START_PRED, 0);
            assert(q.phi_for(b, v) == Some(chased_inputs(inputs, list, 0)));
        } else {
            assert(q.phi_for(b, v) is None);
        }
    }
}

/// Copy propagation keeps what programs do.
pub proof fn lemma_copies_keep_runs(p: Prog)
    ensures
        keeps(p, p.copies_propagated()),
{
    let q = p.copies_propagated();
    if p.scoped() {
        lemma_copied_strict(p);
    }
    if p.strict() {
        assert forall|g: Given| #[trigger] follows(p, q, g) by {
            lemma_copied_follows(p, g);
        }
        assert forall|g: Given, world: World| matched(
            p,
            #[trigger] p.first_state(g, world),
            q.first_state(g, world),
        ) by {
            lemma_copied_first(p, g, world);
        }
        lemma_keeps(p, q);
    }
}

} // verus!
