//! Rounds of passes come to an end.
//!
//! Every instruction, every operation that may still be folded, every phi
//! input and every live block weighs something. A round that changes a
//! program makes it lighter, so the passes reach a fixed point.
use vstd::prelude::*;

use crate::ssa::copied::{
    chased, lemma_chased_uses, lemma_copied, lemma_copied_places, lemma_copied_strict,
    lemma_copies_keep_runs, Rewrites,
};
use crate::ssa::dead::{effects_survive, lemma_live_inputs};
use crate::ssa::opt::{quiet_round_is_identity, renamed_value, renames, rewrite_of, sole_input};
use crate::ssa::passes::{lemma_fold_keeps_runs, lemma_fold_places, lemma_fold_strict, lemma_same_reach};
use crate::ssa::pruned::{lemma_pruned_trim, lemma_pruning_keeps_runs};
use crate::ssa::scope::lemma_not_before;
use crate::ssa::swept::{lemma_input_kept, lemma_sweeping_keeps_runs, lemma_use_kept};
use crate::ssa::{input_values, live_at, Op, Prog, SsaBlock, SsaValue, START_PRED};

verus! {

/// What an instruction weighs.
pub open spec fn op_weight(op: Op) -> nat {
    match op {
        Op::BinOp { .. } => 2,
        Op::Phi { inputs, .. } => 1 + inputs.len(),
        _ => 1,
    }
}

/// What the first `n` instructions weigh.
pub open spec fn ops_weight(ops: Seq<Op>, n: nat) -> nat
    decreases n,
{
    if n == 0 {
        0
    } else {
        ops_weight(ops, (n - 1) as nat) + op_weight(ops[n - 1])
    }
}

/// The number of live blocks among the first `n`.
pub open spec fn live_count(nodes: Seq<SsaBlock>, n: nat) -> nat
    decreases n,
{
    if n == 0 {
        0
    } else {
        live_count(nodes, (n - 1) as nat) + (if nodes[n - 1].live {
            1nat
        } else {
            0nat
        })
    }
}

impl Prog {
    /// Whether every value that an instruction of a live block uses has its
    /// definition.
    pub open spec fn reads_defined(self) -> bool {
        forall|i: int, k: int|
            0 <= i < self.insns.len() && live_at(self.nodes, i) && 0 <= k < self.insns[i].uses().len()
                ==> self.def_of(#[trigger] self.insns[i].uses()[k]) is Some
    }

    /// What a program weighs.
    pub open spec fn weight(self) -> nat {
        ops_weight(self.insns, self.insns.len()) + live_count(self.nodes, self.nodes.len())
    }
}

/// Lighter instructions weigh less in all.
proof fn lemma_lighter(a: Seq<Op>, b: Seq<Op>, n: nat)
    requires
        n <= a.len(),
        n <= b.len(),
        forall|i: int| 0 <= i < n ==> op_weight(#[trigger] a[i]) <= op_weight(b[i]),
    ensures
        ops_weight(a, n) <= ops_weight(b, n),
        (exists|i: int| 0 <= i < n && op_weight(#[trigger] a[i]) < op_weight(b[i])) ==> ops_weight(a, n) < ops_weight(b, n),
    decreases n,
{
    if n > 0 {
        lemma_lighter(a, b, (n - 1) as nat);
        assert(op_weight(a[n - 1]) <= op_weight(b[n - 1]));
        if exists|i: int| 0 <= i < n && op_weight(#[trigger] a[i]) < op_weight(b[i]) {
            let i = choose|i: int| 0 <= i < n && op_weight(#[trigger] a[i]) < op_weight(b[i]);
            if i < n - 1 {
                assert(op_weight(a[i]) < op_weight(b[i]));
            }
        }
    }
}

proof fn lemma_fewer_live(a: Seq<SsaBlock>, b: Seq<SsaBlock>, n: nat)
    requires
        n <= a.len(),
        n <= b.len(),
        forall|i: int| 0 <= i < n && (#[trigger] a[i]).live ==> b[i].live,
    ensures
        live_count(a, n) <= live_count(b, n),
        (exists|i: int| 0 <= i < n && !(#[trigger] a[i]).live && b[i].live) ==> live_count(a, n) < live_count(b, n),
    decreases n,
{
    if n > 0 {
        lemma_fewer_live(a, b, (n - 1) as nat);
        if a[n - 1].live {
            assert(b[n - 1].live);
        }
        if exists|i: int| 0 <= i < n && !(#[trigger] a[i]).live && b[i].live {
            let i = choose|i: int| 0 <= i < n && !(#[trigger] a[i]).live && b[i].live;
            if i < n - 1 {
                assert(!a[i].live && b[i].live);
            }
        }
    }
}

/// Folding makes a program lighter.
proof fn lemma_fold_weight(p: Prog, i: nat)
    requires
        i <= p.insns.len(),
    ensures
        p.folded_from(i).weight() <= p.weight(),
        p.folded_from(i) != p ==> p.folded_from(i).weight() < p.weight(),
    decreases p.insns.len() - i,
{
    if i < p.insns.len() {
        if live_at(p.nodes, i as int) {
            let q = p.fold_at(i as int);
            assert(q.nodes == p.nodes);
            assert(q.insns.len() == p.insns.len());
            lemma_lighter(q.insns, p.insns, p.insns.len());
            if q != p {
                assert(op_weight(q.insns[i as int]) < op_weight(p.insns[i as int]));
            }
            lemma_fold_weight(q, i + 1);
        } else {
            lemma_fold_weight(p, i + 1);
        }
    }
}

/// Copy propagation keeps the weight.
proof fn lemma_copied_weight(p: Prog)
    requires
        p.wf(),
    ensures
        p.copies_propagated().weight() == p.weight(),
{
    let q = p.copies_propagated();
    assert forall|i: int| 0 <= i < p.insns.len() implies op_weight(#[trigger] q.insns[i]) == op_weight(p.insns[i]) by {
        lemma_copied(p, i);
    }
    assert forall|i: int| 0 <= i < p.insns.len() implies op_weight(#[trigger] p.insns[i]) <= op_weight(q.insns[i]) by {
        assert(op_weight(q.insns[i]) == op_weight(p.insns[i]));
    }
    lemma_lighter(q.insns, p.insns, p.insns.len());
    lemma_lighter(p.insns, q.insns, p.insns.len());
}

proof fn lemma_kept_weight(p: Prog, n: nat)
    requires
        n <= p.insns.len(),
    ensures
        ops_weight(p.kept_ops(n), p.kept_ops(n).len()) <= ops_weight(p.insns, n),
        (exists|i: int| 0 <= i < n && !#[trigger] p.kept(i)) ==> ops_weight(p.kept_ops(n), p.kept_ops(n).len())
            < ops_weight(p.insns, n),
    decreases n,
{
    if n > 0 {
        let m = (n - 1) as nat;
        lemma_kept_weight(p, m);
        let rest = p.kept_ops(m);
        let all = p.kept_ops(n);
        if p.kept(n - 1) {
            lemma_lighter(all, rest, rest.len());
            assert(all == rest.push(p.insns[n - 1]));
            assert(all[rest.len() as int] == p.insns[n - 1]);
            assert(ops_weight(all, all.len()) == ops_weight(all, rest.len()) + op_weight(p.insns[n - 1]));
        }
        if exists|i: int| 0 <= i < n && !#[trigger] p.kept(i) {
            let i = choose|i: int| 0 <= i < n && !#[trigger] p.kept(i);
            if i < n - 1 {
                assert(!p.kept(i));
            }
        }
    }
}

/// Sweeping makes a program lighter.
proof fn lemma_swept_weight(p: Prog)
    ensures
        p.swept().weight() <= p.weight(),
        !(forall|i: int| 0 <= i < p.insns.len() ==> #[trigger] p.kept(i)) ==> p.swept().weight() < p.weight(),
{
    let q = p.swept();
    lemma_kept_weight(p, p.insns.len());
    if !(forall|i: int| 0 <= i < p.insns.len() ==> #[trigger] p.kept(i)) {
        assert(q.insns == p.kept_ops(p.insns.len()));
        lemma_fewer_live(q.nodes, p.nodes, p.nodes.len());
    }
}

/// Pruning makes a program lighter.
proof fn lemma_pruned_weight(p: Prog)
    ensures
        p.blocks_pruned().weight() <= p.weight(),
        p.blocks_pruned().nodes != p.nodes || p.blocks_pruned().insns != p.insns ==> p.blocks_pruned().weight()
            < p.weight(),
{
    let q = p.blocks_pruned();
    let nodes = p.reached_nodes();
    assert(q.nodes == nodes);
    assert(q.insns.len() == p.insns.len());
    assert forall|i: int| 0 <= i < p.insns.len() implies op_weight(#[trigger] q.insns[i]) <= op_weight(p.insns[i]) && (
    q.insns[i] != p.insns[i] ==> op_weight(q.insns[i]) < op_weight(p.insns[i])) by {
        if let Op::Phi { inputs, .. } = p.insns[i] {
            lemma_live_inputs(nodes, inputs, 0);
            assert(inputs.skip(0) =~= inputs);
        }
    }
    lemma_lighter(q.insns, p.insns, p.insns.len());
    lemma_fewer_live(q.nodes, p.nodes, p.nodes.len());
    if q.insns != p.insns {
        if forall|i: int| 0 <= i < p.insns.len() ==> #[trigger] q.insns[i] == p.insns[i] {
            assert(q.insns =~= p.insns);
        }
        let i = choose|i: int| 0 <= i < p.insns.len() && #[trigger] q.insns[i] != p.insns[i];
        assert(op_weight(q.insns[i]) < op_weight(p.insns[i]));
    }
    if q.nodes != p.nodes {
        if forall|b: int| 0 <= b < p.nodes.len() ==> #[trigger] q.nodes[b] == p.nodes[b] {
            assert(q.nodes =~= p.nodes);
        }
        let b = choose|b: int| 0 <= b < p.nodes.len() && #[trigger] q.nodes[b] != p.nodes[b];
        assert(!q.nodes[b].live && p.nodes[b].live);
    }
}

/// Folding keeps a program trim.
proof fn lemma_fold_trim(p: Prog, i: nat)
    requires
        p.scoped(),
        p.trim(),
        i <= p.insns.len(),
    ensures
        p.folded_from(i).scoped(),
        p.folded_from(i).trim(),
    decreases p.insns.len() - i,
{
    if i < p.insns.len() {
        if live_at(p.nodes, i as int) {
            let q = p.fold_at(i as int);
            lemma_fold_places(p, i as int);
            lemma_fold_strict(p, i as int);
            assert(q.trim()) by {
                assert forall|b: int| 0 <= b < q.nodes.len() && (#[trigger] q.nodes[b]).live implies q.reaches(b as usize) by {
                    assert(p.nodes[b].live);
                    lemma_same_reach(p, q, b as usize);
                }
                assert forall|k: int| 0 <= k < q.insns.len() && #[trigger] live_at(q.nodes, k) implies q.phi_trim(k) by {
                    assert(live_at(p.nodes, k));
                    assert(p.phi_trim(k));
                    if let Op::Phi { inputs, .. } = q.insns[k] {
                        assert(k != i || q == p);
                        assert(p.insns[k] == q.insns[k]);
                        assert forall|j: int| 0 <= j < inputs.len() implies (#[trigger] inputs[j]).0
                            == START_PRED || q.reaches(inputs[j].0) by {
                            lemma_same_reach(p, q, inputs[j].0);
                        }
                    }
                }
            }
            lemma_fold_trim(q, i + 1);
        } else {
            lemma_fold_trim(p, i + 1);
        }
    }
}

/// Copy propagation keeps a program trim.
#[verifier::spinoff_prover]
proof fn lemma_copied_trim(p: Prog)
    requires
        p.scoped(),
        p.trim(),
    ensures
        p.copies_propagated().scoped(),
        p.copies_propagated().trim(),
{
    let q = p.copies_propagated();
    lemma_copied_strict(p);
    lemma_copied_places(p);
    assert forall|b: int| 0 <= b < q.nodes.len() && (#[trigger] q.nodes[b]).live implies q.reaches(b as usize) by {
        assert(p.nodes[b].live);
        lemma_same_reach(p, q, b as usize);
    }
    assert forall|k: int| 0 <= k < q.insns.len() && #[trigger] live_at(q.nodes, k) implies q.phi_trim(k) by {
        assert(live_at(p.nodes, k));
        assert(p.phi_trim(k));
        lemma_copied(p, k);
        if let Op::Phi { inputs, .. } = q.insns[k] {
            let was = p.insns[k]->Phi_inputs;
            assert forall|j: int| 0 <= j < inputs.len() implies (#[trigger] inputs[j]).0 == START_PRED
                || q.reaches(inputs[j].0) by {
                assert(was[j].0 == inputs[j].0);
                lemma_same_reach(p, q, inputs[j].0);
            }
        }
    }
}

/// The last rewrite comes from a live instruction.
proof fn lemma_last_rewrite(p: Prog, i: nat) -> (j: int)
    requires
        p.rewrites_from(i).len() > 0,
    ensures
        i <= j < p.insns.len(),
        live_at(p.nodes, j),
        rewrite_of(p.insns[j]) == Some(p.rewrites_from(i).last()),
    decreases p.insns.len() - i,
{
    if i >= p.insns.len() {
        i as int
    } else {
        let rest = p.rewrites_from(i + 1);
        if rest.len() > 0 {
            let j = lemma_last_rewrite(p, i + 1);
            assert(p.rewrites_from(i).last() == rest.last());
            j
        } else {
            i as int
        }
    }
}

/// After all rewrites nothing is the value that the last one replaces.
proof fn lemma_last_gone(v: SsaValue, list: Rewrites, k: nat)
    requires
        k < list.len(),
        list.last().0 != list.last().1,
    ensures
        chased(v, list, k) != list.last().0,
    decreases list.len() - k,
{
    let next = renamed_value(v, list[k as int].0, list[k as int].1);
    if k + 1 < list.len() {
        lemma_last_gone(next, list, k + 1);
    } else {
        assert(chased(next, list, k + 1) == next);
    }
}

/// What a live instruction of a trim program uses is defined.
proof fn lemma_live_defined(p: Prog, i: int, k: int)
    requires
        p.scoped(),
        p.trim(),
        0 <= i < p.insns.len(),
        live_at(p.nodes, i),
        0 <= k < p.insns[i].uses().len(),
    ensures
        p.defined(p.insns[i].uses()[k]),
{
    let n = choose|n: int|
        0 <= n < p.nodes.len() && (#[trigger] p.nodes[n]).live && p.nodes[n].start <= i < p.nodes[n].end;
    let b = n as usize;
    assert(p.reaches(b));
    assert(p.within(b, i));
    assert(p.uses_ok(b, i));
    if let Op::Phi { inputs, .. } = p.insns[i] {
        assert(p.phi_trim(i));
        assert(input_values(inputs)[k] == inputs[k].1);
        assert(inputs[k].0 == START_PRED || p.reaches(inputs[k].0));
    } else {
        assert(p.in_scope(b, i, p.insns[i].uses()[k]));
    }
}

/// What a kept instruction of a trim program uses is defined and kept.
proof fn lemma_live_use(p: Prog, i: int, k: int)
    requires
        p.scoped(),
        p.trim(),
        0 <= i < p.insns.len(),
        p.kept(i),
        0 <= k < p.insns[i].uses().len(),
    ensures
        p.defined(p.insns[i].uses()[k]),
        p.kept(p.site(p.insns[i].uses()[k])),
{
    let v = p.insns[i].uses()[k];
    let n = choose|n: int|
        0 <= n < p.nodes.len() && (#[trigger] p.nodes[n]).live && p.nodes[n].start <= i < p.nodes[n].end;
    let b = n as usize;
    assert(p.reaches(b));
    assert(p.within(b, i));
    assert(p.uses_ok(b, i));
    if let Op::Phi { inputs, .. } = p.insns[i] {
        assert(p.phi_trim(i));
        assert(input_values(inputs)[k] == inputs[k].1);
        lemma_input_kept(p, i, inputs, k);
    } else {
        assert(p.in_scope(b, i, v));
        assert(p.insns[i].uses().contains(v));
        lemma_use_kept(p, i, b, i, v);
    }
}

/// All instructions of a use chain of a trim program are kept.
proof fn lemma_chain_kept(p: Prog, c: Seq<int>, k: int)
    requires
        p.scoped(),
        p.trim(),
        p.is_use_chain(c),
        0 <= k < c.len(),
    ensures
        0 <= c[k] < p.insns.len(),
        p.kept(c[k]),
    decreases k,
{
    if k == 0 {
        effects_survive(p, c[0]);
    } else {
        lemma_chain_kept(p, c, k - 1);
        assert(p.needs(c[k - 1], c[k - 1 + 1]));
        let n = choose|n: int|
            0 <= n < p.insns[c[k - 1]].uses().len() && p.site_of(#[trigger] p.insns[c[k - 1]].uses()[n]) == Some(c[k]);
        lemma_live_use(p, c[k - 1], n);
    }
}

/// The sources of copies in reached blocks are other values.
proof fn lemma_not_own_source(p: Prog, i: int)
    requires
        p.scoped(),
        p.trim(),
        0 <= i < p.insns.len(),
        live_at(p.nodes, i),
        rewrite_of(p.insns[i]) is Some,
    ensures
        (rewrite_of(p.insns[i])->0).0 != (rewrite_of(p.insns[i])->0).1,
        p.insns[i].def() == Some((rewrite_of(p.insns[i])->0).0),
{
    let (d, u) = rewrite_of(p.insns[i])->0;
    let n = choose|n: int|
        0 <= n < p.nodes.len() && (#[trigger] p.nodes[n]).live && p.nodes[n].start <= i < p.nodes[n].end;
    let b = n as usize;
    assert(p.reaches(b));
    assert(p.within(b, i));
    assert(p.uses_ok(b, i));
    assert(p.def_ok(i));
    let op = p.insns[i];
    if op is Phi {
        assert(sole_input(d, op->Phi_inputs, u));
    } else {
        assert(op.uses().last() == u);
        assert(p.in_scope(b, i, op.uses()[op.uses().len() - 1]));
        if u == d {
            assert(p.site(d) == i);
            lemma_not_before(p, b, d);
        }
    }
}

/// No live instruction uses the value that the last rewrite replaces.
proof fn lemma_last_unused(p: Prog, i: int, n: int)
    requires
        p.wf(),
        p.rewrites_from(0).len() > 0,
        p.rewrites_from(0).last().0 != p.rewrites_from(0).last().1,
        0 <= i < p.insns.len(),
        live_at(p.nodes, i),
        0 <= n < p.copies_propagated().insns[i].uses().len(),
    ensures
        p.copies_propagated().insns[i].uses()[n] != p.rewrites_from(0).last().0,
{
    let list = p.rewrites_from(0);
    let op = p.insns[i];
    let v = p.copies_propagated().insns[i].uses()[n];
    lemma_copied(p, i);
    if let Op::Phi { inputs, .. } = op {
        assert(v == chased(inputs[n].1, list, 0));
        lemma_last_gone(inputs[n].1, list, 0);
    } else {
        lemma_chased_uses(op, list);
        assert(v == chased(op.uses()[n], list, 0));
        lemma_last_gone(op.uses()[n], list, 0);
    }
}

/// A copy has no effect.
proof fn lemma_copy_is_no_root(p: Prog, j: int)
    requires
        p.wf(),
        0 <= j < p.insns.len(),
        rewrite_of(p.insns[j]) is Some,
    ensures
        !p.copies_propagated().is_root(j),
{
    lemma_copied(p, j);
}

/// An instruction of a trim program that is no root, and whose value no kept
/// instruction uses, is not kept.
proof fn lemma_unused_dies(q: Prog, j: int, d: SsaValue)
    requires
        q.scoped(),
        q.trim(),
        0 <= j < q.insns.len(),
        q.insns[j].def() == Some(d),
        !q.is_root(j),
        forall|i: int, n: int|
            0 <= i < q.insns.len() && live_at(q.nodes, i) && 0 <= n < q.insns[i].uses().len()
                ==> #[trigger] q.insns[i].uses()[n] != d,
    ensures
        !q.kept(j),
{
    if q.kept(j) {
        let c = choose|c: Seq<int>| #[trigger] q.is_use_chain(c) && c.last() == j;
        let last = c.len() - 1;
        assert(last > 0);
        let i = c[last - 1];
        lemma_chain_kept(q, c, last - 1);
        assert(q.needs(c[last - 1], c[last - 1 + 1]));
        let n = choose|n: int|
            0 <= n < q.insns[i].uses().len() && q.site_of(#[trigger] q.insns[i].uses()[n]) == Some(j);
        lemma_live_use(q, i, n);
        assert(q.insns[i].uses()[n] == d);
    }
}

/// Where copy propagation meets a use, a copy becomes dead.
proof fn lemma_copy_dies(p: Prog)
    requires
        p.scoped(),
        p.trim(),
        p.has_copied_use(),
    ensures
        !(forall|i: int| 0 <= i < p.copies_propagated().insns.len() ==> #[trigger] p.copies_propagated().kept(i)),
{
    let q = p.copies_propagated();
    let list = p.rewrites_from(0);
    let w = choose|i: int| 0 <= i < p.insns.len() && live_at(p.nodes, i) && #[trigger] renames(p.insns[i], list, 0);
    assert(list.len() > 0);
    let j = lemma_last_rewrite(p, 0);
    let (d, u) = list.last();
    lemma_not_own_source(p, j);
    lemma_copied_trim(p);
    lemma_copied(p, j);
    lemma_copy_is_no_root(p, j);
    assert forall|i: int, n: int|
        0 <= i < q.insns.len() && live_at(q.nodes, i) && 0 <= n < q.insns[i].uses().len() implies #[trigger] q.insns[i].uses()[n]
        != d by {
        lemma_last_unused(p, i, n);
    }
    lemma_unused_dies(q, j, d);
    assert(!q.kept(j));
}

/// A round never makes a program heavier, and one that changes a trim
/// program makes it lighter.
proof fn lemma_round_weight(p: Prog)
    requires
        p.scoped(),
    ensures
        p.round().weight() <= p.weight(),
        p.trim() && p.round_changes() ==> p.round().weight() < p.weight(),
        p.round().trim(),
        p.round().scoped(),
{
    let folded = p.folded_from(0);
    let copied = folded.copies_propagated();
    let swept = copied.swept();
    lemma_fold_keeps_runs(p, 0);
    lemma_copies_keep_runs(folded);
    lemma_sweeping_keeps_runs(copied);
    lemma_pruning_keeps_runs(swept);
    lemma_pruned_trim(swept);
    lemma_fold_weight(p, 0);
    lemma_copied_weight(folded);
    lemma_swept_weight(copied);
    lemma_pruned_weight(swept);
    if p.trim() {
        lemma_fold_trim(p, 0);
        if folded.has_copied_use() {
            lemma_copy_dies(folded);
        }
    }
}

/// Rounds that change a scoped program are no more than its weight and one.
proof fn lemma_rounds_weight(p: Prog, n: nat)
    requires
        p.scoped(),
        forall|i: nat| i < n ==> (#[trigger] p.rounds(i)).round_changes(),
    ensures
        p.rounds(n).scoped(),
        n > 0 ==> p.rounds(n).trim(),
        n > 0 ==> p.rounds(n).weight() + n <= p.weight() + 1,
    decreases n,
{
    if n > 0 {
        let m = (n - 1) as nat;
        lemma_rounds_weight(p, m);
        lemma_round_weight(p.rounds(m));
        assert(p.rounds(m).round_changes());
    }
}

/// What is read after optimizing is defined: every value that an instruction
/// of a live block uses has its definition.
pub proof fn optimized_reads_are_defined(prog: Prog, after: Prog)
    requires
        prog.scoped(),
        prog.optimizes_to(after),
    ensures
        after.scoped(),
        after.trim(),
        after.reads_defined(),
{
    let n = choose|n: nat|
        {
            &&& 0 < n <= u64::MAX
            &&& after == #[trigger] prog.rounds(n)
            &&& forall|i: nat| i < n - 1 ==> (#[trigger] prog.rounds(i)).round_changes()
            &&& prog.rounds((n - 1) as nat).round_changes() ==> n == u64::MAX
        };
    let m = (n - 1) as nat;
    lemma_rounds_weight(prog, m);
    lemma_round_weight(prog.rounds(m));
    assert forall|i: int, k: int|
        0 <= i < after.insns.len() && live_at(after.nodes, i) && 0 <= k < after.insns[i].uses().len() implies after.def_of(
        #[trigger] after.insns[i].uses()[k],
    ) is Some by {
        lemma_live_defined(after, i, k);
    }
}

/// The passes reach a fixed point: the last round changes nothing. The
/// weight of the program must be one that rounds can be counted for.
pub proof fn optimizing_reaches_a_fixed_point(prog: Prog, after: Prog)
    requires
        prog.scoped(),
        prog.optimizes_to(after),
        prog.weight() + 1 < u64::MAX,
    ensures
        !after.round_changes(),
        after.round() == after,
{
    let n = choose|n: nat|
        {
            &&& 0 < n <= u64::MAX
            &&& after == #[trigger] prog.rounds(n)
            &&& forall|i: nat| i < n - 1 ==> (#[trigger] prog.rounds(i)).round_changes()
            &&& prog.rounds((n - 1) as nat).round_changes() ==> n == u64::MAX
        };
    let m = (n - 1) as nat;
    let last = prog.rounds(m);
    if last.round_changes() {
        assert forall|i: nat| i < n implies (#[trigger] prog.rounds(i)).round_changes() by {}
        lemma_rounds_weight(prog, n);
    }
    quiet_round_is_identity(last);
    assert(after == last.round());
}

/// What the passes end in is left alone by them: optimizing twice is
/// optimizing once. The weight of the program must be one that rounds can be
/// counted for.
pub proof fn optimizing_twice_is_optimizing_once(prog: Prog, once: Prog, twice: Prog)
    requires
        prog.scoped(),
        prog.optimizes_to(once),
        once.optimizes_to(twice),
        prog.weight() + 1 < u64::MAX,
    ensures
        twice == once,
{
    optimizing_reaches_a_fixed_point(prog, once);
    let m = choose|m: nat|
        {
            &&& 0 < m <= u64::MAX
            &&& twice == #[trigger] once.rounds(m)
            &&& forall|i: nat| i < m - 1 ==> (#[trigger] once.rounds(i)).round_changes()
            &&& once.rounds((m - 1) as nat).round_changes() ==> m == u64::MAX
        };
    assert(once.rounds(0) == once);
    assert(m == 1) by {
        if m > 1 {
            assert(once.rounds(0).round_changes());
        }
    }
    assert(once.rounds(1) == once.rounds(0).round());
}

} // verus!
