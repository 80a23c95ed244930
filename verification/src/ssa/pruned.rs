//! Removing unreachable blocks keeps what programs do.
use vstd::prelude::*;

use crate::ssa::dead::{live_inputs, pruned_op};
use crate::ssa::passes::{
    follows, keeps, lemma_keeps, lemma_known_at_end, lemma_known_into, lemma_precedes,
    lemma_same_act, lemma_same_control_refl, lemma_same_reach, lemma_same_successors,
    lemma_same_work, matched, same_arrival, same_block, same_control, same_outcome, same_places,
};
use crate::ssa::run::{taken_from, Given, SsaState, World};
use crate::ssa::scope::{
    lemma_fixed, lemma_known_reached, lemma_listed, lemma_reached_block, lemma_scope_known,
    lemma_successor_block, lemma_within,
};
use crate::ssa::{live_at, Op, Prog, SsaBlock, SsaValue, START_PRED};

verus! {

/// The only live definition of a value is found as its site.
pub proof fn lemma_last_def(p: Prog, v: SsaValue, i: nat, j: int)
    requires
        0 <= j < i <= p.insns.len(),
        live_at(p.nodes, j),
        p.insns[j].def() == Some(v),
        forall|k: int|
            0 <= k < i && #[trigger] live_at(p.nodes, k) && p.insns[k].def() == Some(v) ==> k == j,
        p.insns.len() <= usize::MAX,
    ensures
        p.last_def(v.0 as int, i) == j,
    decreases i,
{
    assert(SsaValue(v.0) == v);
    if i - 1 != j {
        let k = i - 1;
        assert(!(live_at(p.nodes, k) && p.insns[k].def() == Some(v)));
        lemma_last_def(p, v, (i - 1) as nat, j);
    }
}

/// The program with dead blocks marked, before its sites are found anew.
spec fn marked(p: Prog) -> Prog {
    let nodes = p.reached_nodes();
    Prog {
        nodes,
        insns: Seq::new(
            p.insns.len(),
            |i: int|
                if live_at(nodes, i) {
                    pruned_op(nodes, p.insns[i])
                } else {
                    p.insns[i]
                },
        ),
        ..p
    }
}

/// The live inputs of a phi are inputs of it.
proof fn lemma_live_input(nodes: Seq<SsaBlock>, inputs: Seq<(usize, SsaValue)>, k: nat, j: int) -> (i: int)
    requires
        0 <= j < live_inputs(nodes, inputs, k).len(),
    ensures
        k <= i < inputs.len(),
        inputs[i] == live_inputs(nodes, inputs, k)[j],
        inputs[i].0 == START_PRED || nodes[inputs[i].0 as int].live,
    decreases inputs.len() - k,
{
    if k < inputs.len() {
        let (pred, v) = inputs[k as int];
        if pred == START_PRED || nodes[pred as int].live {
            if j == 0 {
                k as int
            } else {
                lemma_live_input(nodes, inputs, k + 1, j - 1)
            }
        } else {
            lemma_live_input(nodes, inputs, k + 1, j)
        }
    } else {
        0
    }
}

/// What a phi takes from a live block stays.
proof fn lemma_live_taken(nodes: Seq<SsaBlock>, inputs: Seq<(usize, SsaValue)>, p: usize, k: nat)
    requires
        p == START_PRED || nodes[p as int].live,
    ensures
        taken_from(live_inputs(nodes, inputs, k), p, 0) == taken_from(inputs, p, k),
    decreases inputs.len() - k,
{
    if k < inputs.len() {
        lemma_live_taken(nodes, inputs, p, k + 1);
        let (pred, v) = inputs[k as int];
        let rest = live_inputs(nodes, inputs, k + 1);
        if pred == START_PRED || nodes[pred as int].live {
            let all = live_inputs(nodes, inputs, k);
            assert(all[0] == (pred, v));
            lemma_taken_shift(all, rest, p, 0);
        }
    }
}

proof fn lemma_taken_shift(all: Seq<(usize, SsaValue)>, rest: Seq<(usize, SsaValue)>, p: usize, k: nat)
    requires
        all.len() == rest.len() + 1,
        forall|i: int| 0 <= i < rest.len() ==> #[trigger] rest[i] == all[i + 1],
    ensures
        taken_from(all, p, k + 1) == taken_from(rest, p, k),
    decreases rest.len() - k,
{
    if k < rest.len() {
        assert(rest[k as int] == all[(k + 1) as int]);
        lemma_taken_shift(all, rest, p, k + 1);
    }
}

/// What is reached stays live, and nothing else does.
proof fn lemma_reached_live(p: Prog, i: int)
    requires
        p.scoped(),
    ensures
        live_at(p.reached_nodes(), i) ==> live_at(p.nodes, i),
        (exists|b: usize| #[trigger] p.within(b, i) && p.reaches(b)) ==> live_at(p.reached_nodes(), i),
{
    let nodes = p.reached_nodes();
    if live_at(nodes, i) {
        let k = choose|k: int|
            0 <= k < nodes.len() && (#[trigger] nodes[k]).live && nodes[k].start <= i < nodes[k].end;
        assert(p.nodes[k].live && p.nodes[k].start <= i < p.nodes[k].end);
    }
    if exists|b: usize| #[trigger] p.within(b, i) && p.reaches(b) {
        let b = choose|b: usize| #[trigger] p.within(b, i) && p.reaches(b);
        assert(nodes[b as int].live && nodes[b as int].start <= i < nodes[b as int].end);
    }
}

/// What pruning makes of an instruction.
proof fn lemma_pruned_op(p: Prog, j: int)
    requires
        p.wf(),
        0 <= j < p.insns.len(),
    ensures
        ({
            let op = marked(p).insns[j];
            &&& op == (if live_at(p.reached_nodes(), j) {
                pruned_op(p.reached_nodes(), p.insns[j])
            } else {
                p.insns[j]
            })
            &&& op.def() == p.insns[j].def()
            &&& op is Phi <==> p.insns[j] is Phi
            &&& !(op is Phi) ==> op == p.insns[j]
            &&& op.is_control() == p.insns[j].is_control()
            &&& op.blocks_below(p.nodes.len())
        }),
{
    let nodes = p.reached_nodes();
    assert(p.insns[j].blocks_below(p.nodes.len()));
    if let Op::Phi { inputs, .. } = p.insns[j] {
        let after = live_inputs(nodes, inputs, 0);
        assert forall|i: int| 0 <= i < after.len() implies (#[trigger] after[i]).0 == START_PRED || after[i].0
            < p.nodes.len() by {
            let k = lemma_live_input(nodes, inputs, 0, i);
            assert(inputs[k].0 == START_PRED || inputs[k].0 < p.nodes.len());
        }
    }
}

proof fn lemma_marked_control(p: Prog, q: Prog, i: int, end: int)
    requires
        p.wf(),
        q.insns == marked(p).insns,
        0 <= i,
        end <= p.insns.len(),
    ensures
        p.control_from(i, end) == q.control_from(i, end),
    decreases end - i,
{
    if i < end {
        lemma_pruned_op(p, i);
        lemma_marked_control(p, q, i + 1, end);
    }
}

/// Pruning keeps the places.
proof fn lemma_pruned_places(p: Prog, q: Prog)
    requires
        p.wf(),
        q.insns == marked(p).insns,
        q.nodes == p.reached_nodes(),
        q.edges == p.edges,
        q.entry == p.entry,
    ensures
        same_places(p, q),
{
    assert forall|j: int| 0 <= j < q.insns.len() implies (#[trigger] q.insns[j]).blocks_below(q.nodes.len()) by {
        lemma_pruned_op(p, j);
    }
    assert(crate::ssa::tiled(q.nodes, q.insns.len())) by {
        assert(q.nodes.last().end == p.nodes.last().end);
        assert forall|j: int, k: int| 0 <= j < k < q.nodes.len() implies (#[trigger] q.nodes[j]).end <= (
        #[trigger] q.nodes[k]).start by {
            assert(p.nodes[j].end <= p.nodes[k].start);
        }
        assert forall|j: int, k: int| 0 <= j && k == j + 1 && k < q.nodes.len() implies (
        #[trigger] q.nodes[j]).end == (#[trigger] q.nodes[k]).start by {
            assert(p.nodes[j].end == p.nodes[k].start);
        }
        assert forall|k: int| 0 <= k < q.nodes.len() implies (#[trigger] q.nodes[k]).start <= q.nodes[k].end by {
            assert(p.nodes[k].start <= p.nodes[k].end);
        }
    }
    assert(q.wf());
    assert forall|b: usize| #[trigger] p.reaches(b) implies same_control(p.terminator(b), q.terminator(b)) by {
        lemma_reached_block(p, b);
        let node = p.nodes[b as int];
        if b < p.nodes.len() - 1 {
            assert(p.nodes[b as int].end <= p.nodes[p.nodes.len() - 1].start);
        }
        lemma_marked_control(p, q, node.start as int, node.end as int);
        lemma_same_control_refl(p, node.start as int, node.end as int);
    }
}

/// A pruned program with its sites found anew.
spec fn resited(p: Prog) -> Prog {
    marked(p).with_sites()
}

/// Pruning keeps the definitions of reached blocks.
proof fn lemma_pruned_value(p: Prog, v: SsaValue)
    requires
        p.scoped(),
        p.defined(v),
        p.reached_site(v),
    ensures
        ({
            let q = resited(p);
            &&& q.site(v) == p.site(v)
            &&& q.defined(v)
            &&& q.def_of(v) == Some(pruned_op(p.reached_nodes(), p.def_of(v)->0))
            &&& same_block(p, q, v)
        }),
{
    let q = resited(p);
    let m = marked(p);
    let j = p.site(v);
    lemma_reached_live(p, j);
    lemma_pruned_op(p, j);
    assert forall|k: int|
        0 <= k < m.insns.len() && #[trigger] live_at(m.nodes, k) && m.insns[k].def() == Some(v) implies k == j by {
        lemma_reached_live(p, k);
        lemma_pruned_op(p, k);
        assert(p.def_ok(k));
    }
    lemma_last_def(m, v, m.insns.len(), j);
    assert(q.sites[v.0 as int] == m.last_def(v.0 as int, m.insns.len()));
}

proof fn lemma_pruned_scope(p: Prog, b: usize, k: int, v: SsaValue)
    requires
        p.scoped(),
        p.reaches(b),
        p.in_scope(b, k, v),
    ensures
        resited(p).in_scope(b, k, v),
{
    lemma_pruned_places(p, resited(p));
    lemma_scope_known(p, b, k, v);
    lemma_known_reached(p, b, k, v);
    lemma_pruned_value(p, v);
    if p.precedes(b, v) {
        lemma_precedes(p, resited(p), b, v);
    }
}

proof fn lemma_pruned_uses(p: Prog, b: usize, k: int)
    requires
        p.scoped(),
        p.within(b, k),
        p.reaches(b),
    ensures
        resited(p).uses_ok(b, k),
{
    let q = resited(p);
    let nodes = p.reached_nodes();
    lemma_pruned_places(p, q);
    lemma_within(p, b, k);
    lemma_pruned_op(p, k);
    lemma_reached_live(p, k);
    assert(live_at(nodes, k)) by {
        assert(p.within(b, k) && p.reaches(b));
    }
    assert(p.uses_ok(b, k));
    let op = p.insns[k];
    if let Op::Phi { inputs, .. } = op {
        let after = live_inputs(nodes, inputs, 0);
        assert forall|j: int| 0 <= j < after.len() implies (if (#[trigger] after[j]).0 == START_PRED {
            q.start_ok(k, after[j].1)
        } else {
            q.reaches(after[j].0) ==> q.in_scope(after[j].0, q.nodes[after[j].0 as int].end as int, after[j].1)
        }) by {
            let i = lemma_live_input(nodes, inputs, 0, j);
            let (from, v) = inputs[i];
            assert(inputs[i].0 == from);
            lemma_same_reach(p, q, from);
            if from == START_PRED {
                assert(p.start_ok(k, v));
                lemma_entry_reached(p, v);
                lemma_pruned_value(p, v);
            } else if p.reaches(from) {
                lemma_reached_block(p, from);
                lemma_pruned_scope(p, from, p.nodes[from as int].end as int, v);
            }
        }
        assert forall|f: usize| #[trigger] q.reaches(f) && q.successors(f).contains(b) implies taken_from(
            after,
            f,
            0,
        ) is Some by {
            lemma_same_reach(p, q, f);
            lemma_reached_block(p, f);
            lemma_same_successors(p, q, f);
            assert(p.reaches(f));
            assert(nodes[f as int].live);
            lemma_live_taken(nodes, inputs, f, 0);
        }
        lemma_live_taken(nodes, inputs, START_PRED, 0);
    } else {
        assert forall|j: int| 0 <= j < op.uses().len() implies q.in_scope(b, k, #[trigger] op.uses()[j]) by {
            lemma_pruned_scope(p, b, k, op.uses()[j]);
        }
    }
}

/// The entry block is reached.
pub proof fn lemma_entry_reached(p: Prog, v: SsaValue)
    requires
        p.within(p.entry, p.site(v)),
    ensures
        p.reached_site(v),
        p.reaches(p.entry),
{
    let t = seq![p.entry];
    assert(p.is_trace(t) && t.last() == p.entry);
    assert(p.reaches(p.entry));
}

proof fn lemma_pruned_strict(p: Prog)
    requires
        p.scoped(),
    ensures
        resited(p).scoped(),
        p.strict() ==> resited(p).strict(),
{
    let q = resited(p);
    lemma_pruned_places(p, q);
    assert forall|b: usize| #[trigger] q.reaches(b) implies q.wired(b) && q.nodes[b as int].live by {
        lemma_same_reach(p, q, b);
        lemma_reached_block(p, b);
        lemma_same_successors(p, q, b);
    }
    assert forall|k: int| 0 <= k < q.insns.len() && #[trigger] live_at(q.nodes, k) implies q.def_ok(k) by {
        lemma_reached_live(p, k);
        assert(p.def_ok(k));
        lemma_pruned_op(p, k);
        if let Some(v) = p.insns[k].def() {
            let nodes = p.reached_nodes();
            let b = choose|b: int|
                0 <= b < nodes.len() && (#[trigger] nodes[b]).live && nodes[b].start <= k < nodes[b].end;
            assert(p.within(b as usize, k) && p.reaches(b as usize));
            assert(p.reached_site(v));
            lemma_pruned_value(p, v);
        }
    }
    assert forall|b: usize, k: int| #[trigger] q.within(b, k) && q.reaches(b) implies (p.strict() ==> q.swap_ok(k)) && q.uses_ok(b, k) && (
    q.insns[k].is_control() ==> k + 1 == q.nodes[b as int].end) by {
        lemma_same_reach(p, q, b);
        assert(p.within(b, k));
        lemma_within(p, b, k);
        assert(p.strict() ==> p.swap_ok(k));
        lemma_pruned_op(p, k);
        lemma_pruned_uses(p, b, k);
    }
}

proof fn lemma_pruned_arrival(p: Prog, g: Given, s: SsaState, t: SsaState, b: usize)
    requires
        p.scoped(),
        p.sane(g, s),
        matched(p, s, t),
        s.at == p.nodes[s.block as int].end || (p.within(s.block, s.at) && p.insns[s.at].is_control()),
        p.successors(s.block).contains(b),
    ensures
        same_arrival(p, resited(p), s.env, t.env, s.block, b),
{
    let q = resited(p);
    let from = s.block;
    let end = p.nodes[from as int].end as int;
    lemma_reached_block(p, from);
    lemma_successor_block(p, from, b);
    lemma_pruned_places(p, q);
    assert forall|v: SsaValue| #[trigger] p.known(b, p.nodes[b as int].start as int, v) implies q.arrived(
        t.env,
        from,
        b,
    )(v) == p.arrived(s.env, from, b)(v) by {
        lemma_known_reached(p, b, p.nodes[b as int].start as int, v);
        lemma_pruned_value(p, v);
        if let Some(inputs) = p.phi_for(b, v) {
            assert(p.uses_ok(b, p.site(v)));
            let j = lemma_listed(inputs, from, 0);
            let x = inputs[j].1;
            assert(p.in_scope(from, end, x));
            lemma_scope_known(p, from, end, x);
            lemma_known_at_end(p, g, s, x);
            assert(p.reached_nodes()[from as int].live);
            lemma_live_taken(p.reached_nodes(), inputs, from, 0);
            assert(q.within(b, q.site(v)));
            assert(q.phi_for(b, v) == Some(live_inputs(p.reached_nodes(), inputs, 0)));
        } else {
            lemma_known_into(p, g, s, b, v);
            assert(q.phi_for(b, v) is None);
        }
    }
}

/// Pruning leaves every step alone.
proof fn lemma_pruned_follows(p: Prog, g: Given)
    requires
        p.scoped(),
    ensures
        follows(p, resited(p), g),
{
    let q = resited(p);
    lemma_pruned_places(p, q);
    assert forall|s: SsaState, t: SsaState| p.sane(g, s) && #[trigger] matched(p, s, t) implies same_outcome(
        p,
        p.step(g, s),
        q.step(g, t),
    ) by {
        lemma_reached_block(p, s.block);
        if p.within(s.block, s.at) {
            let op = p.insns[s.at];
            lemma_within(p, s.block, s.at);
            lemma_pruned_op(p, s.at);
            assert(p.uses_ok(s.block, s.at));
            if !(op is Phi) {
                assert forall|k: int| 0 <= k < op.uses().len() implies (s.env)(#[trigger] op.uses()[k]) == (t.env)(
                    op.uses()[k],
                ) by {
                    lemma_scope_known(p, s.block, s.at, op.uses()[k]);
                }
                lemma_same_act(g, op, s.env, t.env);
            }
        }
        if s.at == p.nodes[s.block as int].end || (p.within(s.block, s.at) && p.insns[s.at].is_control()) {
            assert forall|b: usize| #[trigger] p.successors(s.block).contains(b) implies same_arrival(
                p,
                q,
                s.env,
                t.env,
                s.block,
                b,
            ) by {
                lemma_pruned_arrival(p, g, s, t, b);
            }
        }
        lemma_same_work(p, q, g, s, t);
    }
}

/// Pruning leaves the start alone.
proof fn lemma_pruned_first(p: Prog, g: Given, world: World)
    requires
        p.scoped(),
    ensures
        matched(p, p.first_state(g, world), resited(p).first_state(g, world)),
{
    let q = resited(p);
    let b = p.entry;
    lemma_pruned_places(p, q);
    let t = seq![b];
    assert(p.is_trace(t) && t.last() == b);
    assert(p.reaches(b));
    let s = p.first_state(g, world);
    let u = q.first_state(g, world);
    assert forall|v: SsaValue| #[trigger] p.known(b, s.at, v) implies (u.env)(v) == (s.env)(v) by {
        lemma_known_reached(p, b, s.at, v);
        lemma_pruned_value(p, v);
        lemma_fixed(p, g, v);
        assert(!p.passes(t, v));
        if let Some(inputs) = p.phi_for(b, v) {
            assert(p.uses_ok(b, p.site(v)));
            let j = lemma_listed(inputs, START_PRED, 0);
            let x = inputs[j].1;
            assert(p.start_ok(p.site(v), x));
            lemma_entry_reached(p, x);
            lemma_pruned_value(p, x);
            lemma_fixed(p, g, x);
            lemma_live_taken(p.reached_nodes(), inputs, START_PRED, 0);
            assert(q.within(b, q.site(v)));
            assert(q.phi_for(b, v) == Some(live_inputs(p.reached_nodes(), inputs, 0)));
        } else {
            assert(q.phi_for(b, v) is None);
        }
    }
}

/// Removing unreachable blocks keeps what programs do.
pub proof fn lemma_pruning_keeps_runs(p: Prog)
    ensures
        keeps(p, p.blocks_pruned()),
{
    let q = resited(p);
    if marked(p) == p {
        assert(p.blocks_pruned() == p);
    } else {
        assert(p.blocks_pruned() == q);
        if p.scoped() {
            lemma_pruned_strict(p);
        }
        if p.strict() {
            assert forall|g: Given| #[trigger] follows(p, q, g) by {
                lemma_pruned_follows(p, g);
            }
            assert forall|g: Given, world: World| matched(
                p,
                #[trigger] p.first_state(g, world),
                q.first_state(g, world),
            ) by {
                lemma_pruned_first(p, g, world);
            }
            lemma_keeps(p, q);
        }
    }
}

impl Prog {
    /// Whether a phi only takes values from the program start and from
    /// reached blocks.
    pub open spec fn phi_trim(self, i: int) -> bool {
        self.insns[i] matches Op::Phi { inputs, .. } ==> forall|j: int|
            0 <= j < inputs.len() ==> (#[trigger] inputs[j]).0 == START_PRED || self.reaches(inputs[j].0)
    }

    /// Whether what is live is reached, and phis take values from nowhere
    /// else.
    pub open spec fn trim(self) -> bool {
        &&& forall|b: int|
            0 <= b < self.nodes.len() && (#[trigger] self.nodes[b]).live ==> self.reaches(b as usize)
        &&& forall|i: int| 0 <= i < self.insns.len() && #[trigger] live_at(self.nodes, i) ==> self.phi_trim(i)
    }
}

/// Removing unreachable blocks keeps a program well formed.
pub proof fn lemma_pruned_wf(p: Prog)
    requires
        p.wf(),
    ensures
        p.blocks_pruned().wf(),
{
    lemma_pruned_places(p, p.blocks_pruned());
}

/// A pruned program is trim.
pub proof fn lemma_pruned_trim(p: Prog)
    requires
        p.scoped(),
    ensures
        p.blocks_pruned().trim(),
{
    let q = p.blocks_pruned();
    let nodes = p.reached_nodes();
    assert(q.nodes == nodes);
    assert(q.insns == marked(p).insns);
    lemma_pruned_places(p, q);
    assert forall|b: int| 0 <= b < q.nodes.len() && (#[trigger] q.nodes[b]).live implies q.reaches(b as usize) by {
        lemma_same_reach(p, q, b as usize);
    }
    assert forall|i: int| 0 <= i < q.insns.len() && #[trigger] live_at(q.nodes, i) implies q.phi_trim(i) by {
        lemma_pruned_op(p, i);
        if let Op::Phi { inputs, .. } = q.insns[i] {
            let was = p.insns[i]->Phi_inputs;
            assert(inputs == live_inputs(nodes, was, 0));
            assert(p.insns[i].blocks_below(p.nodes.len()));
            assert forall|j: int| 0 <= j < inputs.len() implies (#[trigger] inputs[j]).0 == START_PRED || q.reaches(
                inputs[j].0,
            ) by {
                let k = lemma_live_input(nodes, was, 0, j);
                if was[k].0 != START_PRED {
                    lemma_same_reach(p, q, was[k].0);
                }
            }
        }
    }
}

} // verus!
