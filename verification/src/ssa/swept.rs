//! Dead code elimination keeps what programs do.
use vstd::prelude::*;

use crate::ssa::dead::{definitions_survive, effects_survive, lemma_kept_blocks, lemma_kept_counts, lemma_swept_tiled};
use crate::ssa::passes::{
    keeps, lemma_known_at_end, lemma_known_into, lemma_precedes, lemma_same_act,
    lemma_same_control_refl, lemma_same_reach, lemma_same_successors, same_block, same_control,
    same_flow,
};
use crate::ssa::pruned::{lemma_entry_reached, lemma_last_def};
use crate::ssa::run::{
    act, lemma_ends_before, lemma_ends_here, taken_from, Act, Ending, Given, SsaState, World,
};
use crate::ssa::scope::{
    lemma_def_ok, lemma_fixed, lemma_known_reached, lemma_listed, lemma_reached_block,
    lemma_sane_first, lemma_sane_step, lemma_scope_known, lemma_successor_block, lemma_targets,
    lemma_within,
};
use crate::ssa::{input_values, live_at, Op, Prog, SsaBlock, SsaValue, START_PRED};

verus! {

/// The place of an instruction among the kept ones.
pub open spec fn place(p: Prog, i: int) -> int {
    p.kept_below(i as nat) as int
}

/// The program without dead code, before its sites are found anew.
spec fn thinned(p: Prog) -> Prog {
    Prog {
        insns: p.kept_ops(p.insns.len()),
        nodes: p.nodes.map_values(
            |b: SsaBlock|
                SsaBlock {
                    start: p.kept_below(b.start as nat) as usize,
                    end: p.kept_below(b.end as nat) as usize,
                    live: b.live,
                },
        ),
        ..p
    }
}

/// The program without dead code.
spec fn thin(p: Prog) -> Prog {
    thinned(p).with_sites()
}

/// Where a kept instruction is.
pub proof fn lemma_kept_at(p: Prog, n: nat, i: int)
    requires
        0 <= i < n <= p.insns.len(),
        p.kept(i),
    ensures
        place(p, i) < p.kept_ops(n).len(),
        p.kept_ops(n)[place(p, i)] == p.insns[i],
    decreases n,
{
    lemma_kept_counts(p, n);
    lemma_kept_counts(p, (n - 1) as nat);
    if i < n - 1 {
        lemma_kept_at(p, (n - 1) as nat, i);
    }
}

/// Which instruction is at a place.
proof fn lemma_kept_from(p: Prog, n: nat, k: int) -> (i: int)
    requires
        n <= p.insns.len(),
        0 <= k < p.kept_ops(n).len(),
    ensures
        0 <= i < n,
        p.kept(i),
        place(p, i) == k,
    decreases n,
{
    lemma_kept_counts(p, n);
    lemma_kept_counts(p, (n - 1) as nat);
    if p.kept(n - 1) && k == p.kept_ops((n - 1) as nat).len() {
        n - 1
    } else {
        lemma_kept_from(p, (n - 1) as nat, k)
    }
}

/// Places are in order.
proof fn lemma_place(p: Prog, i: int, j: int)
    requires
        0 <= i <= j <= p.insns.len(),
    ensures
        0 <= place(p, i) <= place(p, j),
        i < j && p.kept(i) ==> place(p, i) < place(p, j),
        place(p, i) <= i,
{
    lemma_kept_counts(p, i as nat);
    lemma_kept_counts(p, j as nat);
    if i < j {
        lemma_kept_counts(p, (i + 1) as nat);
        assert(p.kept_below((i + 1) as nat) <= p.kept_below(j as nat));
    }
}

/// The range of a block.
proof fn lemma_thin_node(p: Prog, b: usize)
    requires
        p.wf(),
        b < p.nodes.len(),
    ensures
        thin(p).nodes.len() == p.nodes.len(),
        thin(p).nodes[b as int].start == place(p, p.nodes[b as int].start as int),
        thin(p).nodes[b as int].end == place(p, p.nodes[b as int].end as int),
        thin(p).nodes[b as int].live == p.nodes[b as int].live,
        p.nodes[b as int].start <= p.nodes[b as int].end <= p.insns.len(),
{
    if b < p.nodes.len() - 1 {
        assert(p.nodes[b as int].end <= p.nodes[p.nodes.len() - 1].start);
    }
    lemma_place(p, p.nodes[b as int].start as int, p.nodes[b as int].end as int);
    lemma_place(p, p.nodes[b as int].end as int, p.nodes[b as int].end as int);
}

/// A kept instruction stays in its block.
proof fn lemma_thin_within(p: Prog, b: usize, i: int)
    requires
        p.wf(),
        0 <= i < p.insns.len(),
        p.kept(i),
    ensures
        thin(p).within(b, place(p, i)) == p.within(b, i),
{
    if b < p.nodes.len() {
        lemma_thin_node(p, b);
        let start = p.nodes[b as int].start as int;
        let end = p.nodes[b as int].end as int;
        if i < start {
            lemma_place(p, i, start);
        } else {
            lemma_place(p, start, i);
        }
        if i < end {
            lemma_place(p, i, end);
        } else {
            lemma_place(p, end, i);
        }
    }
}

/// What is live stays live.
proof fn lemma_thin_live(p: Prog, i: int)
    requires
        p.wf(),
        0 <= i < p.insns.len(),
        p.kept(i),
    ensures
        live_at(thin(p).nodes, place(p, i)),
{
    let k = choose|k: int|
        0 <= k < p.nodes.len() && (#[trigger] p.nodes[k]).live && p.nodes[k].start <= i < p.nodes[k].end;
    let b = k as usize;
    lemma_thin_node(p, b);
    lemma_thin_within(p, b, i);
    assert(p.within(b, i));
    assert(thin(p).within(b, place(p, i)));
    let nodes = thin(p).nodes;
    assert(nodes[k].live && nodes[k].start <= place(p, i) < nodes[k].end);
}

/// The site of a value whose definition is kept.
proof fn lemma_thin_value(p: Prog, v: SsaValue)
    requires
        p.scoped(),
        p.defined(v),
        p.kept(p.site(v)),
    ensures
        thin(p).site(v) == place(p, p.site(v)),
        thin(p).defined(v),
        thin(p).def_of(v) == p.def_of(v),
        same_block(p, thin(p), v),
{
    let m = thinned(p);
    let q = thin(p);
    let i = p.site(v);
    let n = p.insns.len();
    let j = place(p, i);
    lemma_kept_at(p, n, i);
    lemma_thin_live(p, i);
    lemma_kept_counts(p, n);
    assert forall|k: int|
        0 <= k < m.insns.len() && #[trigger] live_at(m.nodes, k) && m.insns[k].def() == Some(v) implies k == j by {
        let h = lemma_kept_from(p, n, k);
        lemma_kept_at(p, n, h);
        assert(p.def_ok(h));
    }
    lemma_last_def(m, v, m.insns.len(), j);
    assert(q.sites[v.0 as int] == m.last_def(v.0 as int, m.insns.len()));
    assert forall|b: usize| #[trigger] p.within(b, p.site(v)) implies q.within(b, q.site(v)) by {
        lemma_thin_within(p, b, i);
    }
}

/// Control instructions of live blocks are kept.
proof fn lemma_thin_control(p: Prog, i: int, end: int)
    requires
        p.wf(),
        0 <= i <= end <= p.insns.len(),
        forall|k: int| i <= k < end ==> #[trigger] live_at(p.nodes, k),
    ensures
        thin(p).control_from(place(p, i), place(p, end)) == p.control_from(i, end),
    decreases end - i,
{
    if i < end {
        lemma_thin_control(p, i + 1, end);
        lemma_place(p, i, end);
        lemma_place(p, i, i + 1);
        assert(live_at(p.nodes, i));
        if p.kept(i) {
            lemma_kept_at(p, p.insns.len(), i);
            assert(place(p, i + 1) == place(p, i) + 1);
        } else {
            if p.effectful(p.insns[i]) {
                effects_survive(p, i);
            }
            assert(place(p, i + 1) == place(p, i));
        }
    }
}

/// Sweeping keeps a program well formed.
pub proof fn lemma_swept_wf(p: Prog)
    requires
        p.wf(),
    ensures
        p.swept().wf(),
{
    lemma_swept_tiled(p);
    lemma_kept_blocks(p, p.insns.len());
    lemma_kept_counts(p, p.insns.len());
}

/// Sweeping keeps the flow.
proof fn lemma_thin_flow(p: Prog)
    requires
        p.scoped(),
    ensures
        same_flow(p, thin(p)),
{
    let q = thin(p);
    lemma_swept_tiled(p);
    lemma_kept_blocks(p, p.insns.len());
    lemma_kept_counts(p, p.insns.len());
    assert(q.nodes == thinned(p).nodes);
    assert(q.wf());
    assert forall|b: usize| #[trigger] p.reaches(b) implies same_control(p.terminator(b), q.terminator(b)) by {
        lemma_reached_block(p, b);
        lemma_thin_node(p, b);
        let node = p.nodes[b as int];
        assert forall|k: int| node.start <= k < node.end implies #[trigger] live_at(p.nodes, k) by {
            assert(p.nodes[b as int].live);
        }
        lemma_thin_control(p, node.start as int, node.end as int);
        lemma_same_control_refl(p, node.start as int, node.end as int);
    }
}

/// What a kept instruction of a reached block uses is kept.
pub proof fn lemma_use_kept(p: Prog, i: int, b: usize, k: int, v: SsaValue)
    requires
        p.scoped(),
        p.kept(i),
        0 <= i < p.insns.len(),
        p.insns[i].uses().contains(v),
        p.reaches(b),
        p.in_scope(b, k, v),
    ensures
        p.kept(p.site(v)),
{
    lemma_scope_known(p, b, k, v);
    lemma_known_reached(p, b, k, v);
    lemma_site_kept(p, i, v);
}

proof fn lemma_site_kept(p: Prog, i: int, v: SsaValue)
    requires
        p.scoped(),
        p.kept(i),
        0 <= i < p.insns.len(),
        p.insns[i].uses().contains(v),
        p.defined(v),
        p.reached_site(v),
    ensures
        p.kept(p.site(v)),
{
    let c = choose|c: usize| #[trigger] p.within(c, p.site(v)) && p.reaches(c);
    lemma_def_ok(p, c, p.site(v));
    let m = p.insns[i].uses().index_of(v);
    assert(p.site_of(p.insns[i].uses()[m]) == Some(p.site(v)));
    assert(p.needs(i, p.site(v)));
    definitions_survive(p, i, p.site(v));
}

/// What a kept phi takes is kept.
pub proof fn lemma_input_kept(p: Prog, i: int, inputs: Seq<(usize, SsaValue)>, j: int)
    requires
        p.scoped(),
        p.kept(i),
        0 <= i < p.insns.len(),
        p.insns[i] matches Op::Phi { inputs: list, .. } && list == inputs,
        0 <= j < inputs.len(),
        exists|b: usize| #[trigger] p.within(b, i) && p.reaches(b),
        inputs[j].0 == START_PRED || p.reaches(inputs[j].0),
    ensures
        p.kept(p.site(inputs[j].1)),
        p.defined(inputs[j].1),
{
    let b = choose|b: usize| #[trigger] p.within(b, i) && p.reaches(b);
    assert(p.uses_ok(b, i));
    let v = inputs[j].1;
    assert(input_values(inputs)[j] == v);
    assert(p.insns[i].uses().contains(v));
    if inputs[j].0 == START_PRED {
        assert(p.start_ok(i, v));
        lemma_entry_reached(p, v);
        lemma_site_kept(p, i, v);
    } else {
        lemma_use_kept(p, i, inputs[j].0, p.nodes[inputs[j].0 as int].end as int, v);
    }
}

/// Scope among the kept instructions.
proof fn lemma_thin_scope(p: Prog, b: usize, k: int, v: SsaValue)
    requires
        p.scoped(),
        p.reaches(b),
        0 <= k <= p.insns.len(),
        p.in_scope(b, k, v),
        p.kept(p.site(v)),
    ensures
        thin(p).in_scope(b, place(p, k), v),
{
    lemma_thin_flow(p);
    lemma_thin_value(p, v);
    if p.within(b, p.site(v)) && p.site(v) < k {
        lemma_thin_within(p, b, p.site(v));
        lemma_place(p, p.site(v), k);
    } else {
        lemma_precedes(p, thin(p), b, v);
    }
}

/// The uses of kept instructions are in scope.
proof fn lemma_thin_uses(p: Prog, b: usize, i: int)
    requires
        p.scoped(),
        p.reaches(b),
        p.within(b, i),
        p.kept(i),
    ensures
        thin(p).uses_ok(b, place(p, i)),
{
    let q = thin(p);
    lemma_thin_flow(p);
    lemma_within(p, b, i);
    lemma_kept_at(p, p.insns.len(), i);
    let k = place(p, i);
    let op = p.insns[i];
    assert(q.insns[k] == op);
    assert(p.uses_ok(b, i));
    if let Op::Phi { inputs, .. } = op {
        assert forall|j: int| 0 <= j < inputs.len() implies (if (#[trigger] inputs[j]).0 == START_PRED {
            q.start_ok(k, inputs[j].1)
        } else {
            q.reaches(inputs[j].0) ==> q.in_scope(inputs[j].0, q.nodes[inputs[j].0 as int].end as int, inputs[j].1)
        }) by {
            let (from, v) = inputs[j];
            lemma_same_reach(p, q, from);
            if from == START_PRED {
                assert(p.start_ok(i, v));
                lemma_input_kept(p, i, inputs, j);
                lemma_thin_value(p, v);
                lemma_thin_within(p, p.entry, p.site(v));
                lemma_place(p, p.site(v), i);
            } else if p.reaches(from) {
                lemma_input_kept(p, i, inputs, j);
                lemma_reached_block(p, from);
                lemma_thin_node(p, from);
                lemma_thin_scope(p, from, p.nodes[from as int].end as int, v);
            }
        }
        assert forall|f: usize| #[trigger] q.reaches(f) && q.successors(f).contains(b) implies taken_from(
            inputs,
            f,
            0,
        ) is Some by {
            lemma_same_reach(p, q, f);
            lemma_same_successors(p, q, f);
            assert(p.reaches(f));
        }
    } else {
        assert forall|j: int| 0 <= j < op.uses().len() implies q.in_scope(b, k, #[trigger] op.uses()[j]) by {
            let v = op.uses()[j];
            assert(op.uses().contains(v));
            lemma_use_kept(p, i, b, i, v);
            lemma_thin_scope(p, b, i, v);
        }
    }
}

proof fn lemma_thin_strict(p: Prog)
    requires
        p.scoped(),
    ensures
        thin(p).scoped(),
        p.strict() ==> thin(p).strict(),
{
    let q = thin(p);
    let n = p.insns.len();
    lemma_thin_flow(p);
    assert forall|b: usize| #[trigger] q.reaches(b) implies q.wired(b) && q.nodes[b as int].live by {
        lemma_same_reach(p, q, b);
        lemma_reached_block(p, b);
        lemma_same_successors(p, q, b);
        lemma_thin_node(p, b);
    }
    assert forall|k: int| 0 <= k < q.insns.len() && #[trigger] live_at(q.nodes, k) implies q.def_ok(k) by {
        let i = lemma_kept_from(p, n, k);
        lemma_kept_at(p, n, i);
        assert(p.def_ok(i));
        if let Some(v) = p.insns[i].def() {
            lemma_thin_value(p, v);
        }
    }
    assert forall|b: usize, k: int| #[trigger] q.within(b, k) && q.reaches(b) implies (p.strict() ==> q.swap_ok(k)) && q.uses_ok(b, k) && (
    q.insns[k].is_control() ==> k + 1 == q.nodes[b as int].end) by {
        lemma_same_reach(p, q, b);
        lemma_reached_block(p, b);
        lemma_within(q, b, k);
        let i = lemma_kept_from(p, n, k);
        lemma_kept_at(p, n, i);
        lemma_thin_within(p, b, i);
        assert(p.within(b, i));
        assert(p.strict() ==> p.swap_ok(i));
        lemma_thin_uses(p, b, i);
        lemma_thin_node(p, b);
        if p.insns[i].is_control() {
            assert(i + 1 == p.nodes[b as int].end);
            assert(p.kept_below((i + 1) as nat) == p.kept_below(i as nat) + 1);
        }
    }
}

/// Whether a run without dead code is at the same point as one with it.
spec fn trails(p: Prog, s: SsaState, t: SsaState) -> bool {
    &&& s.block == t.block
    &&& t.at == place(p, s.at)
    &&& s.world == t.world
    &&& forall|v: SsaValue| #[trigger]
        p.known(s.block, s.at, v) && p.kept(p.site(v)) ==> (t.env)(v) == (s.env)(v)
}

/// Dead code only computes.
proof fn lemma_dead_step(p: Prog, g: Given, s: SsaState, t: SsaState)
    requires
        p.strict(),
        p.sane(g, s),
        trails(p, s, t),
        p.within(s.block, s.at),
        !p.kept(s.at),
    ensures
        p.step(g, s) is Ok,
        trails(p, p.step(g, s)->Ok_0, t),
{
    let op = p.insns[s.at];
    lemma_def_ok(p, s.block, s.at);
    assert(p.swap_ok(s.at));
    if p.effectful(op) {
        effects_survive(p, s.at);
    }
    let next = p.step(g, s)->Ok_0;
    assert(p.step(g, s) is Ok);
    assert(p.kept_below((s.at + 1) as nat) == p.kept_below(s.at as nat));
    assert forall|v: SsaValue| #[trigger] p.known(s.block, next.at, v) && p.kept(p.site(v)) implies (t.env)(v)
        == (next.env)(v) by {
        if p.within(s.block, p.site(v)) && p.site(v) == s.at {
        } else {
            assert(p.known(s.block, s.at, v));
        }
    }
}

/// Control arrives with the same numbers.
proof fn lemma_trail_enter(p: Prog, g: Given, s: SsaState, t: SsaState, b: usize)
    requires
        p.scoped(),
        p.sane(g, s),
        trails(p, s, t),
        s.at == p.nodes[s.block as int].end || (p.within(s.block, s.at) && p.insns[s.at].is_control()),
        p.successors(s.block).contains(b),
    ensures
        trails(
            p,
            p.enter(s.env, s.world, s.block, b),
            thin(p).enter(t.env, t.world, t.block, b),
        ),
{
    let q = thin(p);
    let from = s.block;
    let end = p.nodes[from as int].end as int;
    lemma_reached_block(p, from);
    lemma_successor_block(p, from, b);
    lemma_thin_node(p, b);
    let next = p.enter(s.env, s.world, from, b);
    let also = q.enter(t.env, t.world, from, b);
    assert forall|v: SsaValue| #[trigger] p.known(b, next.at, v) && p.kept(p.site(v)) implies (also.env)(v)
        == (next.env)(v) by {
        lemma_thin_value(p, v);
        lemma_thin_within(p, b, p.site(v));
        if let Some(inputs) = p.phi_for(b, v) {
            assert(p.uses_ok(b, p.site(v)));
            let j = lemma_listed(inputs, from, 0);
            let x = inputs[j].1;
            assert(p.within(b, p.site(v)) && p.reaches(b));
            lemma_input_kept(p, p.site(v), inputs, j);
            assert(p.in_scope(from, end, x));
            lemma_scope_known(p, from, end, x);
            lemma_known_at_end(p, g, s, x);
            assert(q.phi_for(b, v) == Some(inputs));
        } else {
            lemma_known_into(p, g, s, b, v);
            assert(q.phi_for(b, v) is None);
        }
    }
}

/// How the steps of the two runs compare.
spec fn same_move(p: Prog, a: Result<SsaState, Ending>, b: Result<SsaState, Ending>) -> bool {
    match (a, b) {
        (Ok(s), Ok(t)) => trails(p, s, t),
        (Err(e), Err(f)) => e == f,
        _ => false,
    }
}

/// A kept instruction does what it did.
proof fn lemma_kept_step(p: Prog, g: Given, s: SsaState, t: SsaState)
    requires
        p.scoped(),
        p.sane(g, s),
        trails(p, s, t),
        p.within(s.block, s.at),
        p.kept(s.at),
    ensures
        same_move(p, p.step(g, s), thin(p).step(g, t)),
{
    let q = thin(p);
    let b = s.block;
    let op = p.insns[s.at];
    lemma_def_ok(p, b, s.at);
    lemma_kept_at(p, p.insns.len(), s.at);
    lemma_thin_within(p, b, s.at);
    assert(p.uses_ok(b, s.at));
    assert(q.insns[t.at] == op);
    if !(op is Phi) {
        assert forall|k: int| 0 <= k < op.uses().len() implies (s.env)(#[trigger] op.uses()[k]) == (t.env)(
            op.uses()[k],
        ) by {
            let v = op.uses()[k];
            assert(op.uses().contains(v));
            lemma_use_kept(p, s.at, b, s.at, v);
            lemma_scope_known(p, b, s.at, v);
        }
        lemma_same_act(g, op, s.env, t.env);
    }
    let work = act(g, op, s.env);
    assert(p.kept_below((s.at + 1) as nat) == p.kept_below(s.at as nat) + 1);
    if let Act::Go(to) = work {
        if let Some(to) = to {
            lemma_targets(p, g, s, to);
            lemma_trail_enter(p, g, s, t, to);
        }
    } else if p.step(g, s) is Ok {
        let next = p.step(g, s)->Ok_0;
        let also = q.step(g, t)->Ok_0;
        assert forall|v: SsaValue| #[trigger] p.known(b, next.at, v) && p.kept(p.site(v)) implies (also.env)(v)
            == (next.env)(v) by {
            if p.within(b, p.site(v)) && p.site(v) == s.at {
                assert(p.def_of(v)->0 == op);
                if op is Phi {
                    assert(p.known(b, s.at, v));
                } else if !p.known(b, s.at, v) {
                    assert(op.def() == Some(v));
                }
            } else {
                assert(p.known(b, s.at, v));
            }
        }
    }
}

/// Without dead code a run ends as it does with it.
proof fn lemma_trail(p: Prog, g: Given, s: SsaState, t: SsaState, fuel: nat, end: (World, Ending))
    requires
        p.strict(),
        p.sane(g, s),
        trails(p, s, t),
        p.run(g, s, fuel) == Some(end),
    ensures
        thin(p).ends(g, t, end),
    decreases fuel,
{
    let q = thin(p);
    let b = s.block;
    lemma_reached_block(p, b);
    lemma_sane_step(p, g, s);
    if p.within(b, s.at) && !p.kept(s.at) {
        lemma_dead_step(p, g, s, t);
        lemma_trail(p, g, p.step(g, s)->Ok_0, t, (fuel - 1) as nat, end);
    } else {
        if p.within(b, s.at) {
            lemma_kept_step(p, g, s, t);
        } else {
            lemma_thin_flow(p);
            lemma_same_successors(p, q, b);
            lemma_thin_node(p, b);
            if let Some(to) = p.behind(b) {
                assert(p.successors(b)[0] == to);
                assert(p.successors(b).contains(to));
                lemma_trail_enter(p, g, s, t, to);
            }
        }
        match p.step(g, s) {
            Ok(next) => {
                lemma_trail(p, g, next, q.step(g, t)->Ok_0, (fuel - 1) as nat, end);
                lemma_ends_before(q, g, t, end);
            },
            Err(e) => {
                lemma_ends_here(q, g, t);
            },
        }
    }
}

/// With dead code a run ends as it does without it.
proof fn lemma_trail_back(p: Prog, g: Given, s: SsaState, t: SsaState, fuel: nat, end: (World, Ending))
    requires
        p.strict(),
        p.sane(g, s),
        trails(p, s, t),
        thin(p).run(g, t, fuel) == Some(end),
    ensures
        p.ends(g, s, end),
    decreases fuel, p.nodes[s.block as int].end - s.at,
{
    let q = thin(p);
    let b = s.block;
    lemma_reached_block(p, b);
    lemma_sane_step(p, g, s);
    if p.within(b, s.at) && !p.kept(s.at) {
        lemma_dead_step(p, g, s, t);
        lemma_dead_goes_on(p, g, s);
        lemma_trail_back(p, g, p.step(g, s)->Ok_0, t, fuel, end);
        lemma_ends_before(p, g, s, end);
    } else {
        if p.within(b, s.at) {
            lemma_kept_step(p, g, s, t);
        } else {
            lemma_thin_flow(p);
            lemma_same_successors(p, q, b);
            lemma_thin_node(p, b);
            if let Some(to) = p.behind(b) {
                assert(p.successors(b)[0] == to);
                assert(p.successors(b).contains(to));
                lemma_trail_enter(p, g, s, t, to);
            }
        }
        match p.step(g, s) {
            Ok(next) => {
                lemma_trail_back(p, g, next, q.step(g, t)->Ok_0, (fuel - 1) as nat, end);
                lemma_ends_before(p, g, s, end);
            },
            Err(e) => {
                lemma_ends_here(p, g, s);
            },
        }
    }
}

/// Dead code leads to the next instruction.
proof fn lemma_dead_goes_on(p: Prog, g: Given, s: SsaState)
    requires
        p.strict(),
        p.within(s.block, s.at),
        p.reaches(s.block),
        !p.kept(s.at),
        p.step(g, s) is Ok,
    ensures
        (p.step(g, s)->Ok_0).block == s.block,
        (p.step(g, s)->Ok_0).at == s.at + 1,
{
    lemma_def_ok(p, s.block, s.at);
    if p.effectful(p.insns[s.at]) {
        effects_survive(p, s.at);
    }
}

/// Sweeping leaves the start alone.
proof fn lemma_thin_first(p: Prog, g: Given, world: World)
    requires
        p.scoped(),
    ensures
        trails(p, p.first_state(g, world), thin(p).first_state(g, world)),
{
    let q = thin(p);
    let b = p.entry;
    let t = seq![b];
    assert(p.is_trace(t) && t.last() == b);
    assert(p.reaches(b));
    lemma_reached_block(p, b);
    lemma_thin_node(p, b);
    let s = p.first_state(g, world);
    let u = q.first_state(g, world);
    assert forall|v: SsaValue| #[trigger] p.known(b, s.at, v) && p.kept(p.site(v)) implies (u.env)(v) == (s.env)(v) by {
        lemma_thin_value(p, v);
        lemma_thin_within(p, b, p.site(v));
        lemma_fixed(p, g, v);
        assert(!p.passes(t, v));
        if let Some(inputs) = p.phi_for(b, v) {
            assert(p.uses_ok(b, p.site(v)));
            let j = lemma_listed(inputs, START_PRED, 0);
            let x = inputs[j].1;
            assert(p.within(b, p.site(v)) && p.reaches(b));
            lemma_input_kept(p, p.site(v), inputs, j);
            lemma_thin_value(p, x);
            lemma_fixed(p, g, x);
            assert(q.phi_for(b, v) == Some(inputs));
        } else {
            assert(q.phi_for(b, v) is None);
        }
    }
}

/// Dead code elimination keeps what programs do.
pub proof fn lemma_sweeping_keeps_runs(p: Prog)
    ensures
        keeps(p, p.swept()),
{
    let quiet = forall|i: int| 0 <= i < p.insns.len() ==> #[trigger] p.kept(i);
    if p.scoped() && !quiet {
        lemma_thin_strict(p);
    }
    if p.strict() && !quiet {
        let q = thin(p);
        assert(p.swept() == q);
        assert forall|g: Given, world: World, end: (World, Ending)| #[trigger] p.ends_with(g, world, end)
            <==> #[trigger] q.ends_with(g, world, end) by {
            let s = p.first_state(g, world);
            let t = q.first_state(g, world);
            lemma_sane_first(p, g, world);
            lemma_thin_first(p, g, world);
            if p.ends_with(g, world, end) {
                let fuel = choose|fuel: nat| #[trigger] p.run(g, s, fuel) == Some(end);
                lemma_trail(p, g, s, t, fuel, end);
            }
            if q.ends_with(g, world, end) {
                let fuel = choose|fuel: nat| #[trigger] q.run(g, t, fuel) == Some(end);
                lemma_trail_back(p, g, s, t, fuel, end);
            }
        }
    }
}

} // verus!
