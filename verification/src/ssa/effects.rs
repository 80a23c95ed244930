//! What optimization leaves in place.
//!
//! The loads, stores, calls, branches, jumps and exits of the blocks that
//! stay live are kept, in order. Only the values that they use may be others.
use vstd::prelude::*;

use crate::ssa::copied::{lemma_copied, lemma_copied_places};
use crate::ssa::dead::{effects_survive, lemma_kept_counts};
use crate::ssa::opt::{left_operands_stay_values, lefts_are_values};
use crate::ssa::passes::lemma_fold_places;
use crate::ssa::pruned::lemma_pruned_wf;
use crate::ssa::swept::{lemma_kept_at, lemma_swept_wf};
use crate::ssa::{live_at, Op, Prog, SsaOperand, SsaValue};

verus! {

/// An operand without its value.
pub open spec fn bare_operand(o: SsaOperand) -> SsaOperand {
    match o {
        SsaOperand::Value(_) => SsaOperand::Value(SsaValue(0)),
        SsaOperand::Imm(k) => SsaOperand::Imm(k),
    }
}

/// A load, a store, a call or a control instruction, without the values that
/// it uses.
pub open spec fn effect_of(op: Op) -> Option<Op> {
    match op {
        Op::Load { dst, size, offset, .. } => Some(Op::Load { dst, size, base: SsaValue(0), offset }),
        Op::Store { size, offset, src, .. } => Some(
            Op::Store { size, base: SsaValue(0), offset, src: bare_operand(src) },
        ),
        Op::Call { dst, func, args } => Some(
            Op::Call { dst, func, args: Seq::new(args.len(), |i: int| SsaValue(0)) },
        ),
        Op::Br { width, op, lhs, rhs, true_target, false_target } => Some(
            Op::Br {
                width,
                op,
                lhs: bare_operand(lhs),
                rhs: bare_operand(rhs),
                true_target,
                false_target,
            },
        ),
        Op::Ja { target } => Some(Op::Ja { target }),
        Op::Exit { .. } => Some(Op::Exit { r0: SsaValue(0) }),
        _ => None,
    }
}

/// The effects of a range of instructions, in order.
pub open spec fn effects_between(ops: Seq<Op>, lo: int, hi: int) -> Seq<Op>
    decreases hi - lo,
{
    if hi <= lo {
        Seq::empty()
    } else {
        let rest = effects_between(ops, lo, hi - 1);
        match effect_of(ops[hi - 1]) {
            Some(e) => rest.push(e),
            None => rest,
        }
    }
}

impl Prog {
    /// The effects of a block, in order.
    pub open spec fn effects(self, b: int) -> Seq<Op> {
        effects_between(self.insns, self.nodes[b].start as int, self.nodes[b].end as int)
    }

    /// Whether a program has the blocks of another, live only where they
    /// were, and the same effects in those that are live.
    pub open spec fn keeps_effects_of(self, p: Prog) -> bool {
        &&& self.nodes.len() == p.nodes.len()
        &&& self.edges == p.edges
        &&& self.entry == p.entry
        &&& forall|b: int|
            0 <= b < p.nodes.len() && (#[trigger] self.nodes[b]).live ==> p.nodes[b].live && self.effects(b)
                == p.effects(b)
    }
}

/// The same effects at the same places.
proof fn lemma_same_effects(a: Seq<Op>, b: Seq<Op>, lo: int, hi: int)
    requires
        forall|i: int| lo <= i < hi ==> effect_of(#[trigger] a[i]) == effect_of(b[i]),
    ensures
        effects_between(a, lo, hi) == effects_between(b, lo, hi),
    decreases hi - lo,
{
    if lo < hi {
        lemma_same_effects(a, b, lo, hi - 1);
        assert(effect_of(a[hi - 1]) == effect_of(b[hi - 1]));
    }
}

proof fn lemma_block_in(p: Prog, b: int)
    requires
        p.wf(),
        0 <= b < p.nodes.len(),
    ensures
        p.nodes[b].start <= p.nodes[b].end <= p.insns.len(),
{
    if b < p.nodes.len() - 1 {
        assert(p.nodes[b].end <= p.nodes[p.nodes.len() - 1].start);
    }
}

proof fn lemma_fold_effects(p: Prog, i: nat)
    requires
        p.wf(),
        i <= p.insns.len(),
    ensures
        ({
            let q = p.folded_from(i);
            &&& q.wf()
            &&& q.nodes == p.nodes && q.edges == p.edges && q.entry == p.entry && q.insns.len() == p.insns.len()
            &&& forall|k: int| 0 <= k < p.insns.len() ==> effect_of(#[trigger] q.insns[k]) == effect_of(p.insns[k])
        }),
    decreases p.insns.len() - i,
{
    if i < p.insns.len() {
        if live_at(p.nodes, i as int) {
            let q = p.fold_at(i as int);
            lemma_fold_places(p, i as int);
            lemma_fold_effects(q, i + 1);
            let r = q.folded_from(i + 1);
            assert forall|k: int| 0 <= k < p.insns.len() implies effect_of(#[trigger] r.insns[k]) == effect_of(
                p.insns[k],
            ) by {
                assert(effect_of(r.insns[k]) == effect_of(q.insns[k]));
            }
        } else {
            lemma_fold_effects(p, i + 1);
        }
    }
}

proof fn lemma_copied_effect(p: Prog, k: int)
    requires
        p.wf(),
        0 <= k < p.insns.len(),
    ensures
        effect_of(p.copies_propagated().insns[k]) == effect_of(p.insns[k]),
{
    lemma_copied(p, k);
    if let Op::Call { args, .. } = p.insns[k] {
        let after = p.copies_propagated().insns[k]->Call_args;
        assert(Seq::new(after.len(), |i: int| SsaValue(0)) =~= Seq::new(args.len(), |i: int| SsaValue(0)));
    }
}

/// Sweeping keeps the effects of live ranges.
proof fn lemma_swept_effects(p: Prog, lo: int, hi: int)
    requires
        0 <= lo <= hi <= p.insns.len(),
        forall|i: int| lo <= i < hi ==> #[trigger] live_at(p.nodes, i),
    ensures
        effects_between(p.kept_ops(p.insns.len()), p.kept_below(lo as nat) as int, p.kept_below(hi as nat) as int)
            == effects_between(p.insns, lo, hi),
    decreases hi - lo,
{
    if lo < hi {
        let i = hi - 1;
        lemma_swept_effects(p, lo, i);
        lemma_kept_counts(p, i as nat);
        assert(p.kept_below(lo as nat) <= p.kept_below(i as nat));
        assert(live_at(p.nodes, i));
        if p.kept(i) {
            lemma_kept_at(p, p.insns.len(), i);
        } else if effect_of(p.insns[i]) is Some {
            effects_survive(p, i);
        }
    }
}

/// A round keeps the effects of what stays live.
proof fn lemma_round_effects(p: Prog)
    requires
        p.wf(),
    ensures
        p.round().keeps_effects_of(p),
        p.round().wf(),
{
    let folded = p.folded_from(0);
    let copied = folded.copies_propagated();
    let swept = copied.swept();
    let pruned = swept.blocks_pruned();
    lemma_fold_effects(p, 0);
    lemma_copied_places(folded);
    lemma_swept_wf(copied);
    lemma_pruned_wf(swept);
    assert forall|b: int| 0 <= b < p.nodes.len() && (#[trigger] pruned.nodes[b]).live implies p.nodes[b].live
        && pruned.effects(b) == p.effects(b) by {
        assert(swept.nodes[b].live);
        assert(copied.nodes[b].live);
        lemma_block_in(p, b);
        let (lo, hi) = (p.nodes[b].start as int, p.nodes[b].end as int);
        assert forall|k: int| lo <= k < hi implies effect_of(#[trigger] copied.insns[k]) == effect_of(p.insns[k]) by {
            lemma_copied_effect(folded, k);
            assert(effect_of(folded.insns[k]) == effect_of(p.insns[k]));
        }
        lemma_same_effects(copied.insns, p.insns, lo, hi);
        assert(swept.effects(b) == copied.effects(b)) by {
            assert forall|i: int| lo <= i < hi implies #[trigger] live_at(copied.nodes, i) by {
                assert(copied.nodes[b].live && copied.nodes[b].start <= i < copied.nodes[b].end);
            }
            lemma_swept_effects(copied, lo, hi);
            lemma_kept_counts(copied, lo as nat);
            lemma_kept_counts(copied, hi as nat);
        }
        lemma_block_in(swept, b);
        let (start, end) = (swept.nodes[b].start as int, swept.nodes[b].end as int);
        assert forall|k: int| start <= k < end implies effect_of(#[trigger] pruned.insns[k]) == effect_of(swept.insns[k]) by {}
        lemma_same_effects(pruned.insns, swept.insns, start, end);
    }
}

proof fn lemma_rounds_effects(p: Prog, n: nat)
    requires
        p.wf(),
    ensures
        p.rounds(n).keeps_effects_of(p),
        p.rounds(n).wf(),
        lefts_are_values(p) ==> lefts_are_values(p.rounds(n)),
    decreases n,
{
    if n > 0 {
        let m = (n - 1) as nat;
        lemma_rounds_effects(p, m);
        let q = p.rounds(m);
        lemma_round_effects(q);
        let r = q.round();
        assert forall|b: int| 0 <= b < p.nodes.len() && (#[trigger] r.nodes[b]).live implies p.nodes[b].live
            && r.effects(b) == p.effects(b) by {
            assert(q.nodes[b].live);
        }
        if lefts_are_values(q) {
            left_operands_stay_values(q);
        }
    }
}

/// Optimizing keeps the loads, stores, calls, branches, jumps and exits of
/// the blocks that stay live, in order. Blocks only ever stop being live, and
/// left operands stay values.
pub proof fn optimizing_keeps_effects(prog: Prog, after: Prog)
    requires
        prog.wf(),
        prog.optimizes_to(after),
    ensures
        after.keeps_effects_of(prog),
        after.wf(),
        lefts_are_values(prog) ==> lefts_are_values(after),
{
    let n = choose|n: nat|
        {
            &&& 0 < n <= u64::MAX
            &&& after == #[trigger] prog.rounds(n)
            &&& forall|i: nat| i < n - 1 ==> (#[trigger] prog.rounds(i)).round_changes()
            &&& prog.rounds((n - 1) as nat).round_changes() ==> n == u64::MAX
        };
    lemma_rounds_effects(prog, n);
}

} // verus!
