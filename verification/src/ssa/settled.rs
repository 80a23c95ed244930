//! What optimization leaves: programs in which no pass finds anything to do.
use vstd::prelude::*;

use crate::isa::insn::{AluOp, Width};
use crate::ssa::opt::{lemma_not_renamed, renamed, renamed_value, renames, rewrite_of, sole_input};
use crate::ssa::{live_at, Op, Prog, SsaOperand, SsaValue};

verus! {

/// Whether a number is known for an operand: an immediate, or a value that a
/// constant or a wide load defines.
pub open spec fn is_known(prog: Prog, o: SsaOperand) -> bool {
    match o {
        SsaOperand::Imm(_) => true,
        SsaOperand::Value(v) => prog.def_of(v) matches Some(op) && (op is Const || op is LoadImm64),
    }
}

/// The number that is known for an operand.
pub open spec fn known_number(prog: Prog, o: SsaOperand) -> i64 {
    match o {
        SsaOperand::Imm(k) => k as i64,
        SsaOperand::Value(v) => match prog.def_of(v) {
            Some(Op::Const { value, .. }) => value,
            Some(Op::LoadImm64 { imm, .. }) => imm,
            _ => 0,
        },
    }
}

/// Whether all that an operation reads is known, and its result is a number: a
/// move reads its right operand, a negation its left one, and a byte swap
/// needs a width of 16, 32 or 64.
pub open spec fn is_computable(prog: Prog, op: AluOp, lhs: SsaOperand, rhs: SsaOperand) -> bool {
    &&& op == AluOp::Mov || is_known(prog, lhs)
    &&& op == AluOp::Neg || is_known(prog, rhs)
    &&& op is End ==> known_number(prog, rhs) == 16 || known_number(prog, rhs) == 32 || known_number(prog, rhs) == 64
}

/// An operation on known numbers becomes a constant, the result that the
/// machine computes; any other instruction stays as it is.
pub proof fn known_operations_become_constants(prog: Prog, i: int)
    requires
        0 <= i < prog.insns.len(),
    ensures
        ({
            let after = prog.fold_at(i);
            &&& after == (Prog { insns: after.insns, ..prog })
            &&& after.insns.len() == prog.insns.len()
            &&& forall|k: int| 0 <= k < prog.insns.len() && k != i ==> #[trigger] after.insns[k] == prog.insns[k]
            &&& match prog.insns[i] {
                Op::BinOp { dst, width, op, lhs, rhs } => if is_computable(prog, op, lhs, rhs) {
                    after.insns[i] == (Op::Const {
                        dst,
                        value: op.result(known_number(prog, lhs), known_number(prog, rhs), width),
                    })
                } else {
                    after.insns[i] == prog.insns[i]
                },
                op => after.insns[i] == op,
            }
        }),
{
    if let Op::BinOp { width, lhs, rhs, .. } = prog.insns[i] {
        let (l, r) = (known_number(prog, lhs), known_number(prog, rhs));
        crate::isa::alu_laws::lemma_reads(l, r, width);
    }
}

proof fn lemma_folded_keeps(prog: Prog, k: nat, j: int)
    requires
        0 <= j < k <= prog.insns.len(),
    ensures
        prog.folded_from(k).insns.len() == prog.insns.len(),
        prog.folded_from(k).insns[j] == prog.insns[j],
    decreases prog.insns.len() - k,
{
    if k < prog.insns.len() {
        if live_at(prog.nodes, k as int) {
            lemma_folded_keeps(prog.fold_at(k as int), k + 1, j);
        } else {
            lemma_folded_keeps(prog, k + 1, j);
        }
    }
}

proof fn lemma_nothing_to_fold(prog: Prog, k: nat, i: int)
    requires
        k <= i < prog.insns.len(),
        prog.folded_from(k) == prog,
        live_at(prog.nodes, i),
    ensures
        prog.fold_at(i) == prog,
    decreases prog.insns.len() - k,
{
    if live_at(prog.nodes, k as int) {
        let next = prog.fold_at(k as int);
        lemma_folded_keeps(next, k + 1, k as int);
        assert(next.insns[k as int] == prog.insns[k as int]);
        assert(next =~= prog);
    }
    if k < i {
        lemma_nothing_to_fold(prog, k + 1, i);
    }
}

proof fn lemma_listed(prog: Prog, k: nat, i: int, r: (SsaValue, SsaValue))
    requires
        k <= i < prog.insns.len(),
        live_at(prog.nodes, i),
        rewrite_of(prog.insns[i]) == Some(r),
    ensures
        prog.rewrites_from(k).contains(r),
    decreases i - k,
{
    let rest = prog.rewrites_from(k + 1);
    if k == i {
        assert((seq![r] + rest)[0] == r);
    } else {
        lemma_listed(prog, k + 1, i, r);
        let m = rest.index_of(r);
        if let Some(q) = rewrite_of(prog.insns[k as int]) {
            assert((seq![q] + rest)[m + 1] == r);
        }
    }
}

proof fn lemma_not_used(op: Op, rewrites: Seq<(SsaValue, SsaValue)>, k: nat, m: int)
    requires
        !renames(op, rewrites, k),
        k <= m < rewrites.len(),
    ensures
        !op.uses().contains(rewrites[m].0),
    decreases m - k,
{
    if k < m {
        crate::ssa::opt::lemma_renamed_same(op, rewrites[k as int].0, rewrites[k as int].1);
        lemma_not_used(op, rewrites, k + 1, m);
    }
}

/// What an instruction lets its result be replaced by: a copy or a 64-bit move
/// of a value by that value, and a phi by the one value that it merges.
pub proof fn copies_are_replaceable(op: Op, d: SsaValue, u: SsaValue)
    ensures
        rewrite_of(op) == Some((d, u)) <==> {
            ||| op == (Op::Copy { dst: d, src: u })
            ||| op matches Op::BinOp { dst, op: AluOp::Mov, width: Width::B64, rhs, .. } && dst == d && rhs
                == SsaOperand::Value(u)
            ||| op matches Op::Phi { dst, inputs } && dst == d && sole_input(d, inputs, u)
        },
{
    if let Op::Phi { dst, inputs } = op {
        if dst == d && sole_input(d, inputs, u) {
            let w = crate::ssa::opt::only_input(dst, inputs)->0;
            assert(sole_input(dst, inputs, w));
            let i = choose|i: int| 0 <= i < inputs.len() && (#[trigger] inputs[i]).1 == u;
            assert(inputs[i].1 == w || inputs[i].1 == dst);
        }
    }
}

/// Replacing a value changes its uses only.
pub proof fn replacing_changes_uses_only(op: Op, from: SsaValue, to: SsaValue, k: int)
    requires
        0 <= k < op.uses().len(),
    ensures
        renamed(op, from, to).uses().len() == op.uses().len(),
        renamed(op, from, to).uses()[k] == (if op.uses()[k] == from {
            to
        } else {
            op.uses()[k]
        }),
        renamed(op, from, to).def() == op.def(),
{
    let next = renamed(op, from, to);
    match op {
        Op::BinOp { lhs, rhs, .. } => {},
        Op::Phi { inputs, .. } => {
            assert(next.uses() =~= op.uses().map_values(|v: SsaValue| renamed_value(v, from, to)));
        },
        Op::Call { args, .. } => {},
        _ => {},
    }
}

/// In a program that a round leaves as it is, no live operation has known
/// operands only.
pub proof fn nothing_is_left_to_fold(prog: Prog, i: int)
    requires
        !prog.round_changes(),
        0 <= i < prog.insns.len(),
        live_at(prog.nodes, i),
    ensures
        prog.insns[i] matches Op::BinOp { op, lhs, rhs, .. } ==> !is_computable(prog, op, lhs, rhs),
{
    lemma_nothing_to_fold(prog, 0, i);
    known_operations_become_constants(prog, i);
}

/// In a program that a round leaves as it is, nothing live reads the result of
/// a live copy, of a 64-bit move of a value, or of a phi of one value.
pub proof fn nothing_is_left_to_copy(prog: Prog, i: int, j: int, d: SsaValue, u: SsaValue)
    requires
        !prog.round_changes(),
        0 <= i < prog.insns.len(),
        live_at(prog.nodes, i),
        0 <= j < prog.insns.len(),
        live_at(prog.nodes, j),
        prog.insns[j] == (Op::Copy { dst: d, src: u }) || (prog.insns[j] matches Op::BinOp {
            dst,
            op: AluOp::Mov,
            width: Width::B64,
            rhs,
            ..
        } && dst == d && rhs == SsaOperand::Value(u)) || (prog.insns[j] matches Op::Phi { dst, inputs } && dst == d
            && sole_input(d, inputs, u)),
    ensures
        !prog.insns[i].uses().contains(d),
{
    copies_are_replaceable(prog.insns[j], d, u);
    let list = prog.rewrites_from(0);
    lemma_listed(prog, 0, j, (d, u));
    let m = list.index_of((d, u));
    assert(!renames(prog.insns[i], list, 0));
    lemma_not_used(prog.insns[i], list, 0, m);
}

/// In a program that a round leaves as it is, every instruction is live, and
/// either has an effect or defines what another one reads.
pub proof fn nothing_is_left_to_sweep(prog: Prog, i: int)
    requires
        !prog.round_changes(),
        0 <= i < prog.insns.len(),
    ensures
        live_at(prog.nodes, i),
        ({
            let op = prog.insns[i];
            ||| op is Load || op is Store || op is Call || op is Br || op is Ja || op is Exit
            ||| op matches Op::BinOp { op: AluOp::End(_), rhs, .. } && !(is_known(prog, rhs) && (known_number(prog, rhs)
                == 16 || known_number(prog, rhs) == 32 || known_number(prog, rhs) == 64))
            ||| exists|j: int, k: int|
                0 <= k < prog.insns[j].uses().len() && prog.site_of(#[trigger] prog.insns[j].uses()[k]) == Some(i)
        }),
{
    let list = prog.rewrites_from(0);
    assert forall|k: int| 0 <= k < prog.insns.len() && live_at(prog.nodes, k) implies crate::ssa::opt::renamed_by(
        #[trigger] prog.insns[k],
        list,
        0,
    ) == prog.insns[k] by {
        lemma_not_renamed(prog.insns[k], list, 0);
    }
    assert(prog.copies_propagated() =~= prog);
    assert(prog.kept(i));
    let p = choose|p: Seq<int>| #[trigger] prog.is_use_chain(p) && p.last() == i;
    if p.len() > 1 {
        let j = p[p.len() - 2];
        assert(prog.needs(p[p.len() - 2], p[p.len() - 2 + 1]));
        let k = choose|k: int|
            0 <= k < prog.insns[j].uses().len() && prog.site_of(#[trigger] prog.insns[j].uses()[k]) == Some(i);
        assert(prog.site_of(prog.insns[j].uses()[k]) == Some(i));
    }
}

/// In a program that a round leaves as it is, control reaches every live block.
pub proof fn nothing_is_left_to_prune(prog: Prog, b: int)
    requires
        !prog.round_changes(),
        0 <= b < prog.nodes.len(),
        prog.nodes[b].live,
    ensures
        prog.reaches(b as usize),
{
    if prog.insns.len() > 0 {
        nothing_is_left_to_sweep(prog, 0);
    }
    let list = prog.rewrites_from(0);
    assert forall|k: int| 0 <= k < prog.insns.len() && live_at(prog.nodes, k) implies crate::ssa::opt::renamed_by(
        #[trigger] prog.insns[k],
        list,
        0,
    ) == prog.insns[k] by {
        lemma_not_renamed(prog.insns[k], list, 0);
    }
    assert(prog.copies_propagated() =~= prog);
    assert(prog.swept() == prog);
    let after = prog.blocks_pruned();
    assert(after.nodes == prog.nodes);
    assert(after.nodes[b] == prog.reached_nodes()[b]);
}

} // verus!
