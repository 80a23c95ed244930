//! The passes keep what programs do.
//!
//! A pass makes a program that goes through the same blocks, step by step,
//! and has the same numbers for the values that are known.
use vstd::prelude::*;

use crate::ssa::run::{
    act, computed, number_of, numbers_of, taken_from, Act, Ending, Given, SsaState, Values, World,
};
use crate::ssa::scope::{
    lemma_def_ok, lemma_fixed, lemma_known_before, lemma_listed, lemma_reached_block,
    lemma_sane_first, lemma_sane_step, lemma_scope_known, lemma_successor_block, lemma_targets,
    lemma_trace, lemma_trace_on, lemma_within,
};
use crate::ssa::{live_at, Op, Prog, SsaOperand, SsaValue, START_PRED};

verus! {

/// Whether two runs are at the same point, with the same numbers for what is
/// known there.
pub open spec fn matched(p: Prog, s: SsaState, t: SsaState) -> bool {
    &&& s.block == t.block
    &&& s.at == t.at
    &&& s.world == t.world
    &&& forall|v: SsaValue| #[trigger] p.known(s.block, s.at, v) ==> (t.env)(v) == (s.env)(v)
}

/// Whether two steps lead to the same point, or to the same end.
pub open spec fn same_outcome(p: Prog, a: Result<SsaState, Ending>, b: Result<SsaState, Ending>) -> bool {
    match (a, b) {
        (Ok(s), Ok(t)) => matched(p, s, t),
        (Err(e), Err(f)) => e == f,
        _ => false,
    }
}

/// Whether a program follows another from every point of a run.
pub open spec fn follows(p: Prog, q: Prog, g: Given) -> bool {
    forall|s: SsaState, t: SsaState|
        p.sane(g, s) && #[trigger] matched(p, s, t) ==> same_outcome(p, p.step(g, s), q.step(g, t))
}

/// A program that follows another ends as it does.
proof fn lemma_follows(p: Prog, q: Prog, g: Given, s: SsaState, t: SsaState, fuel: nat)
    requires
        p.scoped(),
        follows(p, q, g),
        p.sane(g, s),
        matched(p, s, t),
    ensures
        q.run(g, t, fuel) == p.run(g, s, fuel),
    decreases fuel,
{
    if fuel > 0 {
        lemma_sane_step(p, g, s);
        if let Ok(next) = p.step(g, s) {
            lemma_follows(p, q, g, next, q.step(g, t)->Ok_0, (fuel - 1) as nat);
        }
    }
}

/// Whether two control instructions, or none, send control the same ways.
pub open spec fn same_control(a: Option<Op>, b: Option<Op>) -> bool {
    match (a, b) {
        (None, None) => true,
        (Some(Op::Br { op, true_target, false_target, .. }), Some(Op::Br { op: o, true_target: t, false_target: f, .. }))
            => op == o && true_target == t && false_target == f,
        (Some(Op::Ja { target }), Some(Op::Ja { target: t })) => target == t,
        (Some(Op::Exit { .. }), Some(Op::Exit { .. })) => true,
        _ => false,
    }
}

/// Whether control goes the same ways through two programs.
pub open spec fn same_flow(p: Prog, q: Prog) -> bool {
    &&& p.wf()
    &&& q.wf()
    &&& p.edges == q.edges
    &&& p.entry == q.entry
    &&& p.nodes.len() == q.nodes.len()
    &&& forall|b: usize| #[trigger] p.reaches(b) ==> same_control(p.terminator(b), q.terminator(b))
}

proof fn lemma_same_taken(p: Prog, q: Prog, b: usize, out: Seq<(usize, crate::cfg::EdgeKind)>, i: nat)
    requires
        p.never_taken(b) == q.never_taken(b),
    ensures
        p.taken_edges(b, out, i) == q.taken_edges(b, out, i),
    decreases out.len() - i,
{
    if i < out.len() {
        lemma_same_taken(p, q, b, out, i + 1);
    }
}

/// The same flow gives the same successors.
pub proof fn lemma_same_successors(p: Prog, q: Prog, b: usize)
    requires
        same_flow(p, q),
        p.reaches(b),
    ensures
        p.successors(b) == q.successors(b),
        p.wired(b) == q.wired(b),
        p.behind(b) == q.behind(b),
{
    lemma_reached_block(p, b);
    assert(same_control(p.terminator(b), q.terminator(b)));
    lemma_same_taken(p, q, b, crate::graph::out_edges(p.edges, b), 0);
}

/// The same flow gives the same ways.
proof fn lemma_same_trace(p: Prog, q: Prog, t: Seq<usize>)
    requires
        same_flow(p, q),
        p.is_trace(t),
    ensures
        q.is_trace(t),
{
    assert forall|i: int| 0 <= i < t.len() - 1 implies q.successors(#[trigger] t[i]).contains(t[i + 1]) by {
        lemma_trace(p, t, i);
        lemma_same_successors(p, q, t[i]);
        assert(p.successors(t[i]).contains(t[i + 1]));
    }
}

/// The same flow gives no other ways.
proof fn lemma_same_trace_back(p: Prog, q: Prog, t: Seq<usize>)
    requires
        same_flow(p, q),
        q.is_trace(t),
    ensures
        p.is_trace(t),
    decreases t.len(),
{
    if t.len() > 1 {
        let n = t.len();
        let shorter = t.drop_last();
        assert(q.is_trace(shorter)) by {
            assert forall|i: int| 0 <= i < shorter.len() - 1 implies q.successors(#[trigger] shorter[i]).contains(
                shorter[i + 1],
            ) by {
                assert(q.successors(t[i]).contains(t[i + 1]));
            }
        }
        lemma_same_trace_back(p, q, shorter);
        let b = t[n - 2];
        assert(shorter.last() == b);
        assert(p.reaches(b));
        lemma_same_successors(p, q, b);
        assert(q.successors(t[n - 2]).contains(t[n - 2 + 1]));
        lemma_trace_on(p, shorter, t.last());
        assert(shorter.push(t.last()) =~= t);
    }
}

/// The same flow reaches the same blocks.
pub proof fn lemma_same_reach(p: Prog, q: Prog, b: usize)
    requires
        same_flow(p, q),
    ensures
        p.reaches(b) == q.reaches(b),
{
    if p.reaches(b) {
        let t = choose|t: Seq<usize>| #[trigger] p.is_trace(t) && t.last() == b;
        lemma_same_trace(p, q, t);
    }
    if q.reaches(b) {
        let t = choose|t: Seq<usize>| #[trigger] q.is_trace(t) && t.last() == b;
        lemma_same_trace_back(p, q, t);
    }
}

/// Whether a value is defined in the same block of two programs.
pub open spec fn same_block(p: Prog, q: Prog, v: SsaValue) -> bool {
    forall|b: usize| #[trigger] p.within(b, p.site(v)) ==> q.within(b, q.site(v))
}

/// A value that precedes a block still does.
pub proof fn lemma_precedes(p: Prog, q: Prog, b: usize, v: SsaValue)
    requires
        same_flow(p, q),
        same_block(p, q, v),
        p.precedes(b, v),
    ensures
        q.precedes(b, v),
{
    assert forall|t: Seq<usize>| #[trigger] q.is_trace(t) && t.last() == b implies q.passes(t, v) by {
        lemma_same_trace_back(p, q, t);
        assert(p.passes(t, v));
        let k = choose|k: int| 0 <= k < t.len() - 1 && #[trigger] p.within(t[k], p.site(v));
        assert(q.within(t[k], q.site(v)));
    }
}

/// What an instruction does depends on the values that it uses.
pub proof fn lemma_same_act(g: Given, op: Op, a: Values, b: Values)
    requires
        !(op is Phi),
        forall|k: int| 0 <= k < op.uses().len() ==> a(#[trigger] op.uses()[k]) == b(op.uses()[k]),
    ensures
        act(g, op, a) == act(g, op, b),
{
    match op {
        Op::Copy { src, .. } => {
            assert(op.uses()[0] == src);
        },
        Op::BinOp { lhs, rhs, .. } => {
            lemma_same_numbers(op, lhs, rhs, a, b);
        },
        Op::Br { lhs, rhs, .. } => {
            lemma_same_numbers(op, lhs, rhs, a, b);
        },
        Op::Load { base, .. } => {
            assert(op.uses()[0] == base);
        },
        Op::Store { base, src, .. } => {
            assert(op.uses()[0] == base);
            if let SsaOperand::Value(v) = src {
                assert(op.uses()[1] == v);
            }
        },
        Op::Call { args, .. } => {
            assert forall|k: int| 0 <= k < args.len() implies a(#[trigger] args[k]) == b(args[k]) by {
                assert(op.uses()[k] == args[k]);
            }
            assert(numbers_of(a, args) =~= numbers_of(b, args));
        },
        Op::Exit { r0 } => {
            assert(op.uses()[0] == r0);
        },
        _ => {},
    }
}

proof fn lemma_same_numbers(op: Op, lhs: SsaOperand, rhs: SsaOperand, a: Values, b: Values)
    requires
        op.uses() == lhs.values() + rhs.values(),
        forall|k: int| 0 <= k < op.uses().len() ==> a(#[trigger] op.uses()[k]) == b(op.uses()[k]),
    ensures
        number_of(a, lhs) == number_of(b, lhs),
        number_of(a, rhs) == number_of(b, rhs),
{
    if let SsaOperand::Value(v) = lhs {
        assert(op.uses()[0] == v);
    }
    if let SsaOperand::Value(v) = rhs {
        assert(op.uses().last() == v);
    }
}

/// Whether two programs have their instructions and blocks at the same
/// places.
pub open spec fn same_places(p: Prog, q: Prog) -> bool {
    &&& same_flow(p, q)
    &&& forall|b: int|
        0 <= b < p.nodes.len() ==> (#[trigger] p.nodes[b]).start == q.nodes[b].start && p.nodes[b].end
            == q.nodes[b].end
}

/// Whether control that arrives over an edge finds the same numbers.
pub open spec fn same_arrival(p: Prog, q: Prog, a: Values, b: Values, from: usize, to: usize) -> bool {
    forall|v: SsaValue| #[trigger]
        p.known(to, p.nodes[to as int].start as int, v) ==> q.arrived(b, from, to)(v) == p.arrived(
            a,
            from,
            to,
        )(v)
}

/// What is known before a control instruction is known behind it.
pub proof fn lemma_known_at_end(p: Prog, g: Given, s: SsaState, v: SsaValue)
    requires
        p.scoped(),
        p.sane(g, s),
        s.at == p.nodes[s.block as int].end || (p.within(s.block, s.at) && p.insns[s.at].is_control()),
        p.known(s.block, p.nodes[s.block as int].end as int, v),
    ensures
        p.known(s.block, s.at, v),
{
    if s.at < p.nodes[s.block as int].end {
        if p.within(s.block, p.site(v)) && p.site(v) == s.at {
            assert(p.def_of(v)->0 == p.insns[s.at]);
        }
    }
}

/// Steps with the same work lead to the same point.
pub proof fn lemma_same_work(p: Prog, q: Prog, g: Given, s: SsaState, t: SsaState)
    requires
        p.scoped(),
        same_places(p, q),
        p.sane(g, s),
        matched(p, s, t),
        p.within(s.block, s.at) ==> act(g, q.insns[t.at], t.env) == act(g, p.insns[s.at], s.env),
        s.at == p.nodes[s.block as int].end || (p.within(s.block, s.at) && p.insns[s.at].is_control())
            ==> (forall|b: usize| #[trigger]
            p.successors(s.block).contains(b) ==> same_arrival(p, q, s.env, t.env, s.block, b)),
    ensures
        same_outcome(p, p.step(g, s), q.step(g, t)),
{
    let b = s.block;
    lemma_reached_block(p, b);
    lemma_same_successors(p, q, b);
    let end = p.nodes[b as int].end as int;
    if s.at >= end {
        if let Some(to) = p.behind(b) {
            assert(p.successors(b)[0] == to);
            assert(p.successors(b).contains(to));
            lemma_successor_block(p, b, to);
        }
    } else {
        assert(p.within(b, s.at));
        let op = p.insns[s.at];
        let work = act(g, op, s.env);
        if let Act::Go(Some(to)) = work {
            lemma_targets(p, g, s, to);
            lemma_successor_block(p, b, to);
        } else if p.step(g, s) is Ok {
            lemma_def_ok(p, b, s.at);
            let next = p.step(g, s)->Ok_0;
            let also = q.step(g, t)->Ok_0;
            assert forall|v: SsaValue| #[trigger] p.known(b, s.at + 1, v) implies (also.env)(v) == (next.env)(v) by {
                if p.within(b, p.site(v)) && p.site(v) == s.at {
                    assert(p.def_of(v)->0 == op);
                    if op is Phi {
                        assert(p.known(b, s.at, v));
                    } else if !p.known(b, s.at, v) {
                        assert(op.def() == Some(v));
                    }
                } else {
                    assert(p.known(b, s.at, v));
                }
            }
        }
    }
}

/// Whether a program is scoped where another is, and where that one is strict
/// it is so too and ends exactly as it does.
pub open spec fn keeps(p: Prog, q: Prog) -> bool {
    &&& p.scoped() ==> q.scoped()
    &&& p.strict() ==> {
        &&& q.strict()
        &&& forall|g: Given, world: World, end: (World, Ending)| #[trigger]
            p.ends_with(g, world, end) <==> #[trigger] q.ends_with(g, world, end)
    }
}

pub proof fn lemma_keeps_on(p: Prog, q: Prog, r: Prog)
    requires
        keeps(p, q),
        keeps(q, r),
    ensures
        keeps(p, r),
{
    if p.strict() {
        assert forall|g: Given, world: World, end: (World, Ending)| #[trigger] p.ends_with(g, world, end)
            <==> #[trigger] r.ends_with(g, world, end) by {
            assert(p.ends_with(g, world, end) <==> q.ends_with(g, world, end));
        }
    }
}

/// A program that follows another from its start keeps what it does.
pub proof fn lemma_keeps(p: Prog, q: Prog)
    requires
        p.strict(),
        q.strict(),
        forall|g: Given| #[trigger] follows(p, q, g),
        forall|g: Given, world: World| matched(p, #[trigger] p.first_state(g, world), q.first_state(g, world)),
    ensures
        keeps(p, q),
{
    assert forall|g: Given, world: World, end: (World, Ending)| #[trigger] p.ends_with(g, world, end)
        <==> #[trigger] q.ends_with(g, world, end) by {
        let s = p.first_state(g, world);
        let t = q.first_state(g, world);
        lemma_sane_first(p, g, world);
        assert(follows(p, q, g));
        if p.ends_with(g, world, end) {
            let fuel = choose|fuel: nat| #[trigger] p.run(g, s, fuel) == Some(end);
            lemma_follows(p, q, g, s, t, fuel);
            assert(q.run(g, t, fuel) == Some(end));
        }
        if q.ends_with(g, world, end) {
            let fuel = choose|fuel: nat| #[trigger] q.run(g, t, fuel) == Some(end);
            lemma_follows(p, q, g, s, t, fuel);
            assert(p.run(g, s, fuel) == Some(end));
        }
    }
}

/// The control instruction of a range is the same where the instructions
/// are, or pass no control on.
proof fn lemma_same_control_from(p: Prog, q: Prog, i: int, end: int)
    requires
        forall|j: int|
            i <= j < end ==> (#[trigger] p.insns[j]) == q.insns[j] || (!p.insns[j].is_control()
                && !q.insns[j].is_control()),
    ensures
        p.control_from(i, end) == q.control_from(i, end),
    decreases end - i,
{
    if i < end {
        assert(p.insns[i] == q.insns[i] || (!p.insns[i].is_control() && !q.insns[i].is_control()));
        lemma_same_control_from(p, q, i + 1, end);
    }
}

/// Whether folding changes an instruction.
pub open spec fn folds(p: Prog, i: int) -> bool {
    p.insns[i] is BinOp && p.fold_value(p.insns[i]) is Some
}

pub proof fn lemma_fold_places(p: Prog, i: int)
    requires
        p.wf(),
        0 <= i < p.insns.len(),
    ensures
        same_places(p, p.fold_at(i)),
        p.fold_at(i).sites == p.sites,
        p.fold_at(i).nodes == p.nodes,
        p.fold_at(i).insns.len() == p.insns.len(),
        forall|j: int| 0 <= j < p.insns.len() && j != i ==> #[trigger] p.fold_at(i).insns[j] == p.insns[j],
        folds(p, i) ==> p.fold_at(i).insns[i] == (Op::Const {
            dst: p.insns[i]->BinOp_dst,
            value: p.fold_value(p.insns[i])->0,
        }),
        !folds(p, i) ==> p.fold_at(i) == p,
{
    let q = p.fold_at(i);
    assert forall|j: int| 0 <= j < q.insns.len() implies (#[trigger] q.insns[j]).blocks_below(q.nodes.len()) by {
        assert(p.insns[j].blocks_below(p.nodes.len()));
    }
    assert forall|b: usize| #[trigger] p.reaches(b) implies same_control(p.terminator(b), q.terminator(b)) by {
        lemma_reached_block(p, b);
        let node = p.nodes[b as int];
        assert forall|j: int| node.start <= j < node.end implies (#[trigger] p.insns[j]) == q.insns[j] || (
        !p.insns[j].is_control() && !q.insns[j].is_control()) by {
            lemma_within(p, b, j);
        }
        lemma_same_control_from(p, q, node.start as int, node.end as int);
        lemma_same_control_refl(p, node.start as int, node.end as int);
    }
}

pub proof fn lemma_same_control_refl(p: Prog, i: int, end: int)
    ensures
        same_control(p.control_from(i, end), p.control_from(i, end)),
    decreases end - i,
{
    if i < end && !p.insns[i].is_control() {
        lemma_same_control_refl(p, i + 1, end);
    }
}

/// Folding changes neither where values are defined nor whether they are.
proof fn lemma_fold_value_at(p: Prog, i: int, v: SsaValue)
    requires
        p.wf(),
        0 <= i < p.insns.len(),
    ensures
        ({
            let q = p.fold_at(i);
            &&& q.defined(v) == p.defined(v)
            &&& q.site(v) == p.site(v)
            &&& p.is_fixed(v) ==> q.is_fixed(v) && q.def_of(v) == p.def_of(v)
            &&& q.def_of(v) is Some <==> p.def_of(v) is Some
            &&& p.def_of(v) is Some ==> (q.def_of(v)->0 is Phi <==> p.def_of(v)->0 is Phi)
            &&& p.def_of(v) is Some && p.def_of(v)->0 is Phi ==> q.def_of(v) == p.def_of(v)
            &&& same_block(p, q, v)
            &&& forall|b: usize, k: int| #[trigger] q.within(b, k) == p.within(b, k)
        }),
{
    lemma_fold_places(p, i);
}

proof fn lemma_fold_scope(p: Prog, i: int, b: usize, k: int, v: SsaValue)
    requires
        p.wf(),
        0 <= i < p.insns.len(),
        p.in_scope(b, k, v),
    ensures
        p.fold_at(i).in_scope(b, k, v),
{
    lemma_fold_places(p, i);
    lemma_fold_value_at(p, i, v);
    if p.precedes(b, v) {
        lemma_precedes(p, p.fold_at(i), b, v);
    }
}

pub proof fn lemma_fold_strict(p: Prog, i: int)
    requires
        p.scoped(),
        0 <= i < p.insns.len(),
    ensures
        p.fold_at(i).scoped(),
        p.strict() ==> p.fold_at(i).strict(),
{
    let q = p.fold_at(i);
    lemma_fold_places(p, i);
    assert forall|b: usize| #[trigger] q.reaches(b) implies q.wired(b) && q.nodes[b as int].live by {
        lemma_same_reach(p, q, b);
        lemma_reached_block(p, b);
        lemma_same_successors(p, q, b);
    }
    assert forall|k: int| 0 <= k < q.insns.len() && #[trigger] live_at(q.nodes, k) implies q.def_ok(k) by {
        assert(p.def_ok(k));
    }
    assert forall|b: usize, k: int| #[trigger] q.within(b, k) && q.reaches(b) implies (p.strict() ==> q.swap_ok(k)) && q.uses_ok(b, k) && (
    q.insns[k].is_control() ==> k + 1 == q.nodes[b as int].end) by {
        lemma_same_reach(p, q, b);
        assert(p.within(b, k));
        lemma_within(p, b, k);
        assert(p.uses_ok(b, k));
        assert(p.strict() ==> p.swap_ok(k));
        lemma_fold_uses(p, i, b, k);
    }
}

proof fn lemma_fold_uses(p: Prog, i: int, b: usize, k: int)
    requires
        p.scoped(),
        0 <= i < p.insns.len(),
        p.within(b, k),
        p.reaches(b),
        p.uses_ok(b, k),
    ensures
        p.fold_at(i).uses_ok(b, k),
{
    let q = p.fold_at(i);
    lemma_fold_places(p, i);
    lemma_within(p, b, k);
    if k == i && folds(p, i) {
        assert(q.insns[k].uses().len() == 0);
    } else {
        let op = p.insns[k];
        assert(q.insns[k] == op);
        if let Op::Phi { inputs, .. } = op {
            assert forall|j: int| 0 <= j < inputs.len() implies (if (#[trigger] inputs[j]).0 == START_PRED {
                q.start_ok(k, inputs[j].1)
            } else {
                q.reaches(inputs[j].0) ==> q.in_scope(
                    inputs[j].0,
                    q.nodes[inputs[j].0 as int].end as int,
                    inputs[j].1,
                )
            }) by {
                lemma_fold_value_at(p, i, inputs[j].1);
                lemma_same_reach(p, q, inputs[j].0);
                if inputs[j].0 != START_PRED && p.reaches(inputs[j].0) {
                    lemma_fold_scope(p, i, inputs[j].0, p.nodes[inputs[j].0 as int].end as int, inputs[j].1);
                }
            }
            assert forall|f: usize| #[trigger] q.reaches(f) && q.successors(f).contains(b) implies taken_from(
                inputs,
                f,
                0,
            ) is Some by {
                lemma_same_reach(p, q, f);
                lemma_reached_block(p, f);
                lemma_same_successors(p, q, f);
                assert(p.reaches(f));
            }
        } else {
            assert forall|j: int| 0 <= j < op.uses().len() implies q.in_scope(b, k, #[trigger] op.uses()[j]) by {
                lemma_fold_scope(p, i, b, k, op.uses()[j]);
            }
        }
    }
}

/// A folded operation has the folded result.
proof fn lemma_fold_result(p: Prog, g: Given, s: SsaState)
    requires
        p.strict(),
        p.sane(g, s),
        p.within(s.block, s.at),
        folds(p, s.at),
    ensures
        computed(s.env, p.insns[s.at]) == Ok::<i64, Ending>(p.fold_value(p.insns[s.at])->0),
{
    let op = p.insns[s.at];
    assert(p.swap_ok(s.at));
    assert(p.uses_ok(s.block, s.at));
    if let Op::BinOp { width, op: alu, lhs, rhs, .. } = op {
        if let SsaOperand::Value(v) = lhs {
            assert(op.uses()[0] == v);
            lemma_scope_known(p, s.block, s.at, v);
            assert(p.coherent(g, s.env, v));
        }
        if let SsaOperand::Value(v) = rhs {
            assert(op.uses().last() == v);
            lemma_scope_known(p, s.block, s.at, v);
            assert(p.coherent(g, s.env, v));
        }
        assert(p.const_of(lhs) matches Some(x) ==> number_of(s.env, lhs) == x);
        assert(p.const_of(rhs) matches Some(x) ==> number_of(s.env, rhs) == x);
    }
}

/// Folding an instruction leaves every step alone.
proof fn lemma_fold_follows(p: Prog, i: int, g: Given)
    requires
        p.strict(),
        0 <= i < p.insns.len(),
    ensures
        follows(p, p.fold_at(i), g),
{
    let q = p.fold_at(i);
    lemma_fold_places(p, i);
    assert forall|s: SsaState, t: SsaState| p.sane(g, s) && #[trigger] matched(p, s, t) implies same_outcome(
        p,
        p.step(g, s),
        q.step(g, t),
    ) by {
        lemma_reached_block(p, s.block);
        if p.within(s.block, s.at) {
            let op = p.insns[s.at];
            lemma_within(p, s.block, s.at);
            assert(p.uses_ok(s.block, s.at));
            if !(op is Phi) {
                assert forall|k: int| 0 <= k < op.uses().len() implies (s.env)(#[trigger] op.uses()[k]) == (t.env)(
                    op.uses()[k],
                ) by {
                    lemma_scope_known(p, s.block, s.at, op.uses()[k]);
                }
                lemma_same_act(g, op, s.env, t.env);
            }
            if s.at == i && folds(p, i) {
                lemma_fold_result(p, g, s);
            }
        }
        if s.at == p.nodes[s.block as int].end || (p.within(s.block, s.at) && p.insns[s.at].is_control()) {
            assert forall|b: usize| #[trigger] p.successors(s.block).contains(b) implies same_arrival(
                p,
                q,
                s.env,
                t.env,
                s.block,
                b,
            ) by {
                lemma_fold_arrival(p, i, g, s, t, b);
            }
        }
        lemma_same_work(p, q, g, s, t);
    }
}

proof fn lemma_fold_arrival(p: Prog, i: int, g: Given, s: SsaState, t: SsaState, b: usize)
    requires
        p.scoped(),
        0 <= i < p.insns.len(),
        p.sane(g, s),
        matched(p, s, t),
        s.at == p.nodes[s.block as int].end || (p.within(s.block, s.at) && p.insns[s.at].is_control()),
        p.successors(s.block).contains(b),
    ensures
        same_arrival(p, p.fold_at(i), s.env, t.env, s.block, b),
{
    let q = p.fold_at(i);
    let from = s.block;
    let end = p.nodes[from as int].end as int;
    lemma_reached_block(p, from);
    lemma_successor_block(p, from, b);
    assert forall|v: SsaValue| #[trigger] p.known(b, p.nodes[b as int].start as int, v) implies q.arrived(
        t.env,
        from,
        b,
    )(v) == p.arrived(s.env, from, b)(v) by {
        lemma_fold_places(p, i);
        lemma_fold_value_at(p, i, v);
        if let Some(inputs) = p.phi_for(b, v) {
            assert(p.uses_ok(b, p.site(v)));
            let j = lemma_listed(inputs, from, 0);
            let x = inputs[j].1;
            lemma_scope_known(p, from, end, x);
            lemma_known_at_end(p, g, s, x);
            assert(q.phi_for(b, v) == Some(inputs));
        } else {
            lemma_known_into(p, g, s, b, v);
            assert(q.phi_for(b, v) is None);
        }
    }
}

/// A value that is known in a block and is no phi of it is known at the end
/// of the predecessor.
pub proof fn lemma_known_into(p: Prog, g: Given, s: SsaState, b: usize, v: SsaValue)
    requires
        p.scoped(),
        p.sane(g, s),
        s.at == p.nodes[s.block as int].end || (p.within(s.block, s.at) && p.insns[s.at].is_control()),
        p.successors(s.block).contains(b),
        p.known(b, p.nodes[b as int].start as int, v),
        p.phi_for(b, v) is None,
    ensures
        p.known(s.block, s.at, v),
{
    let end = p.nodes[s.block as int].end as int;
    if p.precedes(b, v) {
        lemma_known_before(p, s.block, b, v);
        lemma_known_at_end(p, g, s, v);
    }
}

/// Folding leaves the start alone.
proof fn lemma_fold_first(p: Prog, i: int, g: Given, world: World)
    requires
        p.scoped(),
        0 <= i < p.insns.len(),
    ensures
        matched(p, p.first_state(g, world), p.fold_at(i).first_state(g, world)),
{
    let q = p.fold_at(i);
    let b = p.entry;
    lemma_fold_places(p, i);
    let t = seq![b];
    assert(p.is_trace(t) && t.last() == b);
    assert(p.reaches(b));
    let s = p.first_state(g, world);
    let u = q.first_state(g, world);
    assert forall|v: SsaValue| #[trigger] p.known(b, s.at, v) implies (u.env)(v) == (s.env)(v) by {
        lemma_fold_value_at(p, i, v);
        lemma_fixed(p, g, v);
        assert(!p.passes(t, v));
        if let Some(inputs) = p.phi_for(b, v) {
            assert(p.uses_ok(b, p.site(v)));
            let j = lemma_listed(inputs, START_PRED, 0);
            lemma_fold_value_at(p, i, inputs[j].1);
            lemma_fixed(p, g, inputs[j].1);
            assert(q.phi_for(b, v) == Some(inputs));
        } else {
            assert(q.phi_for(b, v) is None);
        }
    }
}

/// Constant folding keeps what programs do.
pub proof fn lemma_fold_keeps_runs(p: Prog, i: nat)
    requires
        i <= p.insns.len(),
    ensures
        keeps(p, p.folded_from(i)),
    decreases p.insns.len() - i,
{
    if i < p.insns.len() {
        if live_at(p.nodes, i as int) {
            let q = p.fold_at(i as int);
            if p.scoped() {
                lemma_fold_strict(p, i as int);
            }
            if p.strict() {
                assert forall|g: Given| #[trigger] follows(p, q, g) by {
                    lemma_fold_follows(p, i as int, g);
                }
                assert forall|g: Given, world: World| matched(
                    p,
                    #[trigger] p.first_state(g, world),
                    q.first_state(g, world),
                ) by {
                    lemma_fold_first(p, i as int, g, world);
                }
                lemma_keeps(p, q);
            }
            lemma_fold_keeps_runs(q, i + 1);
            lemma_keeps_on(p, q, q.folded_from(i + 1));
        } else {
            lemma_fold_keeps_runs(p, i + 1);
        }
    }
}

} // verus!
