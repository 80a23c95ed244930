//! SSA programs of programs are scoped.
use vstd::prelude::*;

use crate::cfg::{blocks, edges, lemma_target_exists, EdgeKind};
use crate::graph::{lemma_out_edges, out_edges};
use crate::isa::decode::{decoded, head_of};
use crate::isa::insn::{AluOp, Insn, JumpOp, Operand, RawInsn, Width};
use crate::ssa::{live_at, Op, Prog, START_PRED, SsaOperand, SsaValue};
use crate::ssa::built::{
    lemma_block, lemma_edge, lemma_entry_scope, lemma_entry_values, lemma_facts, lemma_full,
    lemma_head_op, lemma_lonely, lemma_merged, lemma_name, lemma_phi_for, lemma_pred_listed,
    lemma_prelude, lemma_progress, lemma_reach_edge, Built,
};
use crate::ssa::construct::{lemma_out_edges_all, lemma_pred_edge};
use crate::ssa::form::{
    base, entry_version, may_head, op_ok, operand_ok, preds, prelude, rendered, stands_for, starts,
};
use crate::ssa::opt::{left_is_value, lefts_are_values};
use crate::ssa::run::taken_from;

verus! {

/// Whether every byte swap has an immediate width, as decoding gives it.
pub open spec fn swaps_by_immediate(insns: Seq<Insn>) -> bool {
    forall|i: int|
        0 <= i < insns.len() ==> !((#[trigger] insns[i]) matches Insn::Alu {
            op: AluOp::End(_),
            src: Operand::Reg(_),
            ..
        })
}

/// Every decoded program swaps bytes by immediate widths.
pub proof fn decoded_programs_swap_by_immediate(bytes: Seq<u8>)
    ensures
        decoded(bytes) matches Ok(insns) ==> swaps_by_immediate(insns),
    decreases bytes.len(),
{
    if bytes.len() >= 8 {
        let raw = RawInsn::of_bytes(bytes.subrange(0, 8));
        if let Ok((insn, used)) = head_of(raw, bytes) {
            if used != 0 && used <= bytes.len() {
                decoded_programs_swap_by_immediate(bytes.skip(used as int));
                if let Ok(rest) = decoded(bytes.skip(used as int)) {
                    let all = seq![insn] + rest;
                    assert forall|i: int| 0 <= i < all.len() implies !((#[trigger] all[i]) matches Insn::Alu {
                        op: AluOp::End(_),
                        src: Operand::Reg(_),
                        ..
                    }) by {
                        if i > 0 {
                            assert(all[i] == rest[i - 1]);
                        }
                    }
                }
            }
        }
    }
}

/// Edges that control can take are edges.
proof fn lemma_taken_edge(prog: Prog, b: usize, out: Seq<(usize, EdgeKind)>, i: nat, t: usize) -> (k: int)
    requires
        prog.taken_edges(b, out, i).contains(t),
    ensures
        i <= k < out.len(),
        out[k].0 == t,
    decreases out.len() - i,
{
    if i < out.len() && out[i as int].0 == t {
        i as int
    } else if i < out.len() {
        let rest = prog.taken_edges(b, out, i + 1);
        let all = prog.taken_edges(b, out, i);
        let j = all.index_of(t);
        if all =~= rest {
            assert(rest[j] == t);
        } else {
            assert(all[j] == rest[j - 1]);
        }
        assert(rest.contains(t));
        lemma_taken_edge(prog, b, out, i + 1, t)
    } else {
        0
    }
}

/// An edge that is not one of a branch that never branches can be taken.
proof fn lemma_edge_taken(prog: Prog, b: usize, out: Seq<(usize, EdgeKind)>, i: nat, k: int)
    requires
        i <= k < out.len(),
        !(prog.never_taken(b) && out[k].1 == EdgeKind::BranchTrue),
    ensures
        prog.taken_edges(b, out, i).contains(out[k].0),
    decreases out.len() - i,
{
    let rest = prog.taken_edges(b, out, i + 1);
    let all = prog.taken_edges(b, out, i);
    if i == k {
        assert(all[0] == out[k].0);
    } else {
        lemma_edge_taken(prog, b, out, i + 1, k);
        let j = rest.index_of(out[k].0);
        if all =~= rest {
            assert(all[j] == out[k].0);
        } else {
            assert(all[j + 1] == out[k].0);
        }
    }
}

/// A successor is the target of an edge.
proof fn lemma_successor_edge(c: Built, b: usize, t: usize) -> (kind: EdgeKind)
    requires
        c.ok(),
        c.prog.successors(b).contains(t),
    ensures
        edges(c.insns).contains((b, t, kind)),
{
    lemma_facts(c);
    let out = out_edges(edges(c.insns), b);
    let k = lemma_taken_edge(c.prog, b, out, 0, t);
    lemma_out_edges(edges(c.insns), b, k);
    out[k].1
}

/// The target of an edge is a successor.
proof fn lemma_edge_successor(c: Built, b: usize, t: usize, kind: EdgeKind)
    requires
        c.ok(),
        edges(c.insns).contains((b, t, kind)),
        !(c.prog.never_taken(b) && kind == EdgeKind::BranchTrue),
    ensures
        c.prog.successors(b).contains(t),
{
    lemma_facts(c);
    let out = out_edges(edges(c.insns), b);
    lemma_out_edges_all(edges(c.insns), b, t, kind);
    let k = out.index_of((t, kind));
    lemma_edge_taken(c.prog, b, out, 0, k);
}

/// The blocks on a way are the reachable ones.
proof fn lemma_trace_order(c: Built, t: Seq<usize>)
    requires
        c.ok(),
        c.prog.is_trace(t),
    ensures
        c.order.contains(t.last()),
        t.last() < blocks(c.insns).len(),
    decreases t.len(),
{
    lemma_facts(c);
    lemma_entry_values(c);
    if t.len() > 1 {
        let n = t.len();
        let shorter = t.drop_last();
        assert(c.prog.is_trace(shorter)) by {
            assert forall|i: int| 0 <= i < shorter.len() - 1 implies c.prog.successors(
                #[trigger] shorter[i],
            ).contains(shorter[i + 1]) by {
                assert(c.prog.successors(t[i]).contains(t[i + 1]));
            }
        }
        lemma_trace_order(c, shorter);
        assert(c.prog.successors(t[n - 2]).contains(t[n - 2 + 1]));
        let kind = lemma_successor_edge(c, t[n - 2], t[n - 1]);
        lemma_reach_edge(c, t[n - 2], t[n - 1], kind);
    }
}

proof fn lemma_reached(c: Built, b: usize)
    requires
        c.ok(),
        c.prog.reaches(b),
    ensures
        c.order.contains(b),
        b < blocks(c.insns).len(),
{
    let t = choose|p: Seq<usize>| #[trigger] c.prog.is_trace(p) && p.last() == b;
    lemma_trace_order(c, t);
}

/// Where a version that a body defines is defined.
proof fn lemma_version(c: Built, b: usize, pc: int, r: u8, v: SsaValue)
    requires
        c.ok(),
        b < blocks(c.insns).len(),
        c.order.contains(b),
        c.first(b) <= pc <= c.end(b),
        r < 11,
        c.progress(b, pc).1[r as int] == Some(v),
    ensures
        c.prog.defined(v),
        c.prog.within(b, c.prog.site(v)),
        c.prog.site(v) < c.body_at(b) + c.progress(b, pc).0,
    decreases pc,
{
    lemma_full(c, b);
    lemma_facts(c);
    if pc > c.first(b) {
        lemma_progress(c, b, pc - 1);
        lemma_block(c, b, pc - 1);
        let (k, env) = c.progress(b, pc - 1);
        assert(c.insns[pc - 1].valid());
        if env[r as int] == Some(v) {
            lemma_version(c, b, pc - 1, r, v);
        } else {
            assert(rendered(c.insns[pc - 1]));
            assert(k < c.form.bodies[b as int].len()) by {
                assert(op_ok(edges(c.insns), c.form.names, b, env, c.insns[pc - 1], c.form.bodies[b as int][k]));
            }
            assert(c.prog.insns[c.body_at(b) + k] == c.form.bodies[b as int][k]);
            lemma_site(c, c.body_at(b) + k);
        }
    } else {
        assert(c.progress(b, pc).1[r as int] is None);
    }
}

/// The site of what an instruction defines.
proof fn lemma_site(c: Built, i: int)
    requires
        c.ok(),
        0 <= i < c.prog.insns.len(),
        c.prog.insns[i].def() is Some,
    ensures
        c.prog.defined(c.prog.insns[i].def()->0),
        c.prog.site(c.prog.insns[i].def()->0) == i,
        (c.prog.insns[i].def()->0).0 < c.prog.sites.len(),
{
    reveal(Built::ok);
}

/// Where the phi of a block for a register is.
proof fn lemma_phi_site(c: Built, b: usize, r: u8, v: SsaValue)
    requires
        c.ok(),
        b < blocks(c.insns).len(),
        c.order.contains(b),
        c.form.has_phi(b, r, v),
    ensures
        c.prog.defined(v),
        c.prog.within(b, c.prog.site(v)),
        c.prog.site(v) < c.body_at(b),
{
    lemma_full(c, b);
    lemma_phi_for(c, b, r, v);
    let k = choose|k: int|
        0 <= k < c.form.regs[b as int].len() && #[trigger] c.form.regs[b as int][k] == r
            && c.form.heads[b as int][base(b) + k].def() == Some(v);
    lemma_head_len(c, b);
    let j = base(b) + k;
    assert(c.prog.insns[c.prog.nodes[b as int].start + j] == c.form.heads[b as int][j]);
    lemma_site(c, c.prog.nodes[b as int].start + j);
}

proof fn lemma_head_len(c: Built, b: usize)
    requires
        c.ok(),
        b < blocks(c.insns).len(),
    ensures
        c.form.heads[b as int].len() == base(b) + c.form.regs[b as int].len(),
{
    reveal(Built::ok);
    assert(c.form.head_ok(c.insns, c.order, b));
}

/// A name is an entry version, the phi of its block, or defined on every way
/// to the block.
proof fn lemma_named(c: Built, t: Seq<usize>, r: u8, v: SsaValue)
    requires
        c.ok(),
        c.prog.is_trace(t),
        c.form.names.contains((t.last(), r, v)),
    ensures
        v.0 < 3 || c.form.has_phi(t.last(), r, v) || c.prog.passes(t, v),
    decreases t.len(),
{
    let b = t.last();
    lemma_facts(c);
    lemma_name(c, b, r, v);
    lemma_trace_order(c, t);
    if v.0 >= 3 && !c.form.has_phi(b, r, v) {
        let list = preds(c.insns, b);
        if list == seq![b] && b != 0 {
            lemma_lonely(c, b);
        }
        if t.len() == 1 {
            assert(b == 0);
        } else {
            let n = t.len();
            let p = t[n - 2];
            let shorter = t.drop_last();
            assert(c.prog.is_trace(shorter)) by {
                assert forall|i: int| 0 <= i < shorter.len() - 1 implies c.prog.successors(
                    #[trigger] shorter[i],
                ).contains(shorter[i + 1]) by {
                    assert(c.prog.successors(t[i]).contains(t[i + 1]));
                }
            }
            assert(shorter.last() == p);
            lemma_trace_order(c, shorter);
            assert(c.prog.successors(t[n - 2]).contains(t[n - 2 + 1]));
            let kind = lemma_successor_edge(c, p, b);
            lemma_pred_listed(edges(c.insns), p, b, kind);
            assert(list.contains(p));
            assert(p == list[0]);
            assert(c.form.at_end(c.insns, c.order, p, r, v));
            lemma_full(c, p);
            if c.progress(p, c.end(p)).1[r as int] == Some(v) {
                lemma_version(c, p, c.end(p), r, v);
                assert(c.prog.within(t[n - 2], c.prog.site(v)));
            } else {
                lemma_progress(c, p, c.end(p));
                assert(c.form.names.contains((p, r, v)));
                lemma_named(c, shorter, r, v);
                if c.form.has_phi(p, r, v) {
                    lemma_phi_site(c, p, r, v);
                    assert(c.prog.within(t[n - 2], c.prog.site(v)));
                } else {
                    let k = choose|k: int|
                        0 <= k < shorter.len() - 1 && #[trigger] c.prog.within(shorter[k], c.prog.site(v));
                    assert(c.prog.within(t[k], c.prog.site(v)));
                }
            }
        }
    }
}

/// What stands for a register may be used.
proof fn lemma_stands_scope(c: Built, b: usize, pc: int, r: u8, v: SsaValue)
    requires
        c.ok(),
        b < blocks(c.insns).len(),
        c.prog.reaches(b),
        c.first(b) <= pc <= c.end(b),
        r < 11,
        stands_for(c.form.names, b, c.progress(b, pc).1, r, v),
    ensures
        c.prog.in_scope(b, c.body_at(b) + c.progress(b, pc).0, v),
{
    lemma_reached(c, b);
    lemma_entry_values(c);
    lemma_progress(c, b, pc);
    if c.progress(b, pc).1[r as int] is Some {
        lemma_version(c, b, pc, r, v);
    } else {
        assert(c.form.names.contains((b, r, v)));
        lemma_name(c, b, r, v);
        if v.0 < 3 {
            assert(v == entry_version(r));
            lemma_entry_scope(c, b, c.body_at(b) + c.progress(b, pc).0, v);
        } else if c.form.has_phi(b, r, v) {
            lemma_phi_site(c, b, r, v);
        } else {
            assert(c.prog.precedes(b, v)) by {
                assert forall|t: Seq<usize>| #[trigger] c.prog.is_trace(t) && t.last() == b implies c.prog.passes(
                    t,
                    v,
                ) by {
                    lemma_named(c, t, r, v);
                }
            }
            lemma_passed_defined(c, b, r, v);
        }
    }
}

/// A name that is no entry version is defined.
proof fn lemma_passed_defined(c: Built, b: usize, r: u8, v: SsaValue)
    requires
        c.ok(),
        c.form.names.contains((b, r, v)),
    ensures
        c.prog.defined(v),
{
    reveal(Built::ok);
    assert(c.form.belongs(r, v));
    lemma_entry_values(c);
    assert(v.0 < c.prog.sites.len());
    let i = c.prog.sites[v.0 as int];
    assert(c.prog.insns[i as int].def() == Some(SsaValue(v.0)));
}

/// The instruction that an instruction of a body renders.
proof fn lemma_renders(c: Built, b: usize, k: int, pc: int) -> (q: int)
    requires
        c.ok(),
        b < blocks(c.insns).len(),
        c.order.contains(b),
        c.first(b) <= pc <= c.end(b),
        0 <= k < c.progress(b, pc).0,
    ensures
        c.first(b) <= q < pc,
        rendered(c.insns[q]),
        c.progress(b, q).0 == k,
        k < c.form.bodies[b as int].len(),
        op_ok(edges(c.insns), c.form.names, b, c.progress(b, q).1, c.insns[q], c.form.bodies[b as int][k]),
    decreases pc,
{
    lemma_full(c, b);
    lemma_progress(c, b, pc - 1);
    let (j, env) = c.progress(b, pc - 1);
    if rendered(c.insns[pc - 1]) && j == k {
        pc - 1
    } else {
        lemma_renders(c, b, k, pc - 1)
    }
}

/// A used operand of a rendered instruction may be used.
proof fn lemma_operand_scope(c: Built, b: usize, q: int, from: Operand, to: SsaOperand, v: SsaValue)
    requires
        c.ok(),
        b < blocks(c.insns).len(),
        c.prog.reaches(b),
        c.first(b) <= q <= c.end(b),
        from.valid(),
        operand_ok(c.form.names, b, c.progress(b, q).1, from, to),
        to.values().contains(v),
    ensures
        c.prog.in_scope(b, c.body_at(b) + c.progress(b, q).0, v),
{
    if let (Operand::Reg(r), SsaOperand::Value(w)) = (from, to) {
        let j = to.values().index_of(v);
        assert(to.values()[j] == v);
        assert(v == w);
        lemma_stands_scope(c, b, q, r.0, v);
    }
}

/// The uses of a rendered instruction are in scope.
proof fn lemma_body_uses(c: Built, b: usize, k: int, v: SsaValue)
    requires
        c.ok(),
        b < blocks(c.insns).len(),
        c.prog.reaches(b),
        0 <= k < c.form.bodies[b as int].len(),
        c.form.bodies[b as int][k].uses().contains(v),
    ensures
        c.prog.in_scope(b, c.body_at(b) + k, v),
{
    lemma_reached(c, b);
    lemma_full(c, b);
    lemma_facts(c);
    let q = lemma_renders(c, b, k, c.end(b));
    let op = c.form.bodies[b as int][k];
    let insn = c.insns[q];
    let env = c.progress(b, q).1;
    assert(insn.valid());
    let j = op.uses().index_of(v);
    assert(op.uses()[j] == v);
    match insn {
        Insn::Alu { width, op: alu, dst, src } => {
            if alu == AluOp::Mov && width == Width::B64 && src is Reg {
                lemma_stands_scope(c, b, q, (src->Reg_0).0, v);
            } else {
                let lhs = op->BinOp_lhs;
                let rhs = op->BinOp_rhs;
                if j < lhs.values().len() {
                    assert(lhs.values()[j] == v);
                    lemma_stands_scope(c, b, q, dst.0, v);
                } else {
                    assert(rhs.values()[j - lhs.values().len()] == v);
                    lemma_operand_scope(c, b, q, src, rhs, v);
                }
            }
        },
        Insn::Load { base: from, .. } => {
            lemma_stands_scope(c, b, q, from.0, v);
        },
        Insn::Store { base: to, src, .. } => {
            let rhs = op->Store_src;
            if j == 0 {
                lemma_stands_scope(c, b, q, to.0, v);
            } else {
                assert(rhs.values()[j - 1] == v);
                lemma_operand_scope(c, b, q, src, rhs, v);
            }
        },
        Insn::Jump { op: jump, dst, src, .. } => {
            if jump != JumpOp::Always {
                let lhs = op->Br_lhs;
                let rhs = op->Br_rhs;
                if j < lhs.values().len() {
                    assert(lhs.values()[j] == v);
                    lemma_stands_scope(c, b, q, dst.0, v);
                } else {
                    assert(rhs.values()[j - lhs.values().len()] == v);
                    lemma_operand_scope(c, b, q, src, rhs, v);
                }
            }
        },
        Insn::Call { .. } => {
            let args = op->Call_args;
            assert(stands_for(c.form.names, b, env, (j + 1) as u8, args[j]));
            lemma_stands_scope(c, b, q, (j + 1) as u8, v);
        },
        Insn::Exit => {
            lemma_stands_scope(c, b, q, 0, v);
        },
        _ => {},
    }
}

/// The register and the inputs of a phi of a head.
proof fn lemma_head_phi(c: Built, b: usize, j: int) -> (r: u8)
    requires
        c.ok(),
        b < blocks(c.insns).len(),
        c.order.contains(b),
        0 <= j < c.form.heads[b as int].len(),
        c.form.heads[b as int][j] is Phi,
    ensures
        r < 11,
        c.form.has_phi(b, r, c.form.heads[b as int][j]->Phi_dst),
        c.form.merges(c.insns, c.order, b, r, c.form.heads[b as int][j]),
{
    reveal(Built::ok);
    assert(c.form.head_ok(c.insns, c.order, b));
    lemma_head_op(c, b, j);
    lemma_prelude(c);
    let k = j - base(b);
    assert(k >= 0) by {
        if k < 0 {
            assert(c.form.heads[0].take(3)[j] == c.form.heads[0][j]);
            assert(crate::ssa::form::prelude()[j] == c.form.heads[0][j]);
        }
    }
    let r = c.form.regs[b as int][k];
    assert(c.form.heads[b as int][base(b) + k].def() == Some(c.form.heads[b as int][j]->Phi_dst));
    r
}

/// The inputs of a phi are in scope at the ends of the predecessors.
proof fn lemma_phi_uses(c: Built, b: usize, j: int)
    requires
        c.ok(),
        b < blocks(c.insns).len(),
        c.prog.reaches(b),
        0 <= j < c.form.heads[b as int].len(),
        c.form.heads[b as int][j] is Phi,
    ensures
        c.prog.uses_ok(b, c.prog.nodes[b as int].start + j),
{
    lemma_reached(c, b);
    lemma_full(c, b);
    lemma_facts(c);
    lemma_entry_values(c);
    let i = c.prog.nodes[b as int].start + j;
    assert(c.prog.insns[c.prog.nodes[b as int].start + j] == c.form.heads[b as int][j]);
    let r = lemma_head_phi(c, b, j);
    let v = c.form.heads[b as int][j]->Phi_dst;
    let inputs = c.form.heads[b as int][j]->Phi_inputs;
    let from = starts(c.insns, b, r);
    lemma_phi_for(c, b, r, v);
    lemma_site(c, i);
    assert(c.prog.phi_for(b, v) == Some(inputs));
    assert forall|k: int| 0 <= k < inputs.len() implies (if (#[trigger] inputs[k]).0 == START_PRED {
        c.prog.start_ok(i, inputs[k].1)
    } else {
        c.prog.reaches(inputs[k].0) ==> c.prog.in_scope(
            inputs[k].0,
            c.prog.nodes[inputs[k].0 as int].end as int,
            inputs[k].1,
        )
    }) by {
        if k < from.len() {
            assert(inputs.take(from.len() as int)[k] == inputs[k]);
            assert(from[k] == (START_PRED, entry_version(r)));
            assert(b == 0);
            lemma_entry_scope(c, b, c.body_at(b), entry_version(r));
            lemma_head_late(c, j);
        } else {
            let p = preds(c.insns, b)[k - from.len()];
            assert(inputs[k].0 == p);
            lemma_pred_block(c, b, k - from.len());
            assert(p < blocks(c.insns).len());
            if c.prog.reaches(p) {
                lemma_reached(c, p);
                lemma_full(c, p);
                assert(c.form.at_end(c.insns, c.order, p, r, inputs[k].1));
                lemma_stands_scope(c, p, c.end(p), r, inputs[k].1);
            }
        }
    }
    assert forall|p: usize| #[trigger] c.prog.reaches(p) && c.prog.successors(p).contains(b) implies taken_from(
        inputs,
        p,
        0,
    ) is Some by {
        lemma_reached(c, p);
        let kind = lemma_successor_edge(c, p, b);
        lemma_pred_listed(edges(c.insns), p, b, kind);
        lemma_merged(c, p, b, r, v);
    }
    if b == 0 {
        lemma_entry_phi(c, r, v);
        assert(inputs.take(from.len() as int)[0] == inputs[0]);
        assert(from[0].0 == START_PRED);
    }
}

/// Phis of the entry block follow the prelude.
proof fn lemma_head_late(c: Built, j: int)
    requires
        c.ok(),
        0 <= j < c.form.heads[0].len(),
        c.form.heads[0][j] is Phi,
    ensures
        j >= 3,
{
    lemma_prelude(c);
    if j == 0 {
        assert(c.form.heads[0][0] is Phi);
    } else if j == 1 {
        assert(c.form.heads[0][1] is Phi);
    } else if j == 2 {
        assert(c.form.heads[0][2] is Phi);
    }
}

/// Phis of the entry block are there because control comes back to it.
proof fn lemma_entry_phi(c: Built, r: u8, v: SsaValue)
    requires
        c.ok(),
        c.form.has_phi(0, r, v),
    ensures
        crate::ssa::form::entry_loop(c.insns),
{
    reveal(Built::ok);
}

/// A predecessor is a block.
proof fn lemma_pred_block(c: Built, b: usize, j: int)
    requires
        c.ok(),
        0 <= j < preds(c.insns, b).len(),
    ensures
        preds(c.insns, b)[j] < blocks(c.insns).len(),
{
    lemma_facts(c);
    lemma_pred_edge(edges(c.insns), b, j);
    let p = preds(c.insns, b)[j];
    let kind = choose|kind: EdgeKind| #[trigger] edges(c.insns).contains((p, b, kind));
    crate::cfg::edges_mirror_control(c.insns, p, b, kind);
}

/// Every instruction of a reached block is in order.
proof fn lemma_op_strict(c: Built, b: usize, i: int)
    requires
        c.ok(),
        c.prog.reaches(b),
        c.prog.within(b, i),
    ensures
        swaps_by_immediate(c.insns) ==> c.prog.swap_ok(i),
        c.prog.uses_ok(b, i),
        c.prog.insns[i].is_control() ==> i + 1 == c.prog.nodes[b as int].end,
{
    lemma_reached(c, b);
    lemma_full(c, b);
    lemma_facts(c);
    let j = i - c.prog.nodes[b as int].start;
    let op = c.prog.insns[i];
    if j < c.form.heads[b as int].len() {
        assert(c.prog.insns[c.prog.nodes[b as int].start + j] == c.form.heads[b as int][j]);
        lemma_head_op(c, b, j);
        if c.form.heads[b as int][j] is Phi {
            lemma_phi_uses(c, b, j);
        } else {
            lemma_prelude(c);
            assert(op.uses().len() == 0);
        }
    } else {
        let k = j - c.form.heads[b as int].len();
        assert(c.prog.insns[c.body_at(b) + k] == c.form.bodies[b as int][k]);
        assert(i == c.body_at(b) + k);
        let q = lemma_renders(c, b, k, c.end(b));
        assert(swaps_by_immediate(c.insns) ==> !((c.insns[q]) matches Insn::Alu { op: AluOp::End(_), src: Operand::Reg(_), .. }));
        assert(!(op is Phi));
        assert forall|m: int| 0 <= m < op.uses().len() implies c.prog.in_scope(
            b,
            i,
            #[trigger] op.uses()[m],
        ) by {
            assert(op.uses().contains(op.uses()[m]));
            lemma_body_uses(c, b, k, op.uses()[m]);
        }
        if op.is_control() {
            lemma_block(c, b, q);
            assert(q + 1 == c.end(b));
            assert(c.progress(b, c.end(b)).0 == k + 1);
        }
    }
}

/// Control of a reached block follows the edges.
proof fn lemma_wired(c: Built, b: usize)
    requires
        c.ok(),
        c.prog.reaches(b),
    ensures
        c.prog.wired(b),
        c.prog.nodes[b as int].live,
{
    lemma_reached(c, b);
    lemma_full(c, b);
    lemma_facts(c);
    lemma_live(c, b);
    let node = c.prog.nodes[b as int];
    if let Some(op) = c.prog.terminator(b) {
        let i = lemma_terminator_at(c.prog, node.start as int, node.end as int);
        assert(c.prog.within(b, i));
        let j = i - node.start;
        if j < c.form.heads[b as int].len() {
            assert(c.prog.insns[node.start + j] == c.form.heads[b as int][j]);
            lemma_head_op(c, b, j);
        } else {
            let k = j - c.form.heads[b as int].len();
            assert(c.prog.insns[c.body_at(b) + k] == c.form.bodies[b as int][k]);
            let q = lemma_renders(c, b, k, c.end(b));
            match op {
                Op::Br { op: jump, true_target, false_target, .. } => {
                    lemma_edge(c, b, EdgeKind::BranchTrue, true_target);
                    lemma_block(c, b, q);
                    lemma_target_exists(c.insns, q);
                    if let Some(t) = true_target {
                        if jump != JumpOp::Call && jump != JumpOp::Exit {
                            lemma_edge_successor(c, b, t, EdgeKind::BranchTrue);
                        }
                    }
                    if let Some(t) = false_target {
                        lemma_edge_successor(c, b, t, EdgeKind::BranchFalse);
                    }
                },
                Op::Ja { target } => {
                    lemma_edge_successor(c, b, target, EdgeKind::Unconditional);
                },
                _ => {},
            }
        }
    }
}

proof fn lemma_live(c: Built, b: usize)
    requires
        c.ok(),
        b < blocks(c.insns).len(),
        c.order.contains(b),
    ensures
        c.prog.nodes[b as int].live,
{
    reveal(Built::ok);
    assert(c.prog.nodes[b as int] == c.form.nodes(c.order)[b as int]);
}

/// Where the control instruction of a range is.
proof fn lemma_terminator_at(prog: Prog, i: int, end: int) -> (r: int)
    requires
        prog.control_from(i, end) is Some,
    ensures
        i <= r < end,
        prog.control_from(i, end) == Some(prog.insns[r]),
        prog.insns[r].is_control(),
    decreases end - i,
{
    if prog.insns[i].is_control() {
        i
    } else {
        lemma_terminator_at(prog, i + 1, end)
    }
}

/// A phi stands in a block that may have one.
pub proof fn lemma_phi_placed(c: Built, b: usize, i: int)
    requires
        c.ok(),
        c.order.contains(b),
        c.prog.within(b, i),
        c.prog.insns[i] is Phi,
    ensures
        may_head(c.insns, c.order, b),
{
    lemma_facts(c);
    assert(b < blocks(c.insns).len()) by {
        reveal(Built::ok);
    }
    lemma_full(c, b);
    let j = i - c.prog.nodes[b as int].start;
    let head = c.form.heads[b as int];
    if j < head.len() {
        assert(c.prog.insns[c.prog.nodes[b as int].start + j] == head[j]);
        lemma_head_op(c, b, j);
        reveal(Built::ok);
        assert(c.form.head_ok(c.insns, c.order, b));
        if b == 0 && j < 3 {
            assert(head.take(3)[j] == head[j]);
            assert(prelude()[j] == head[j]);
        }
        assert(c.form.regs[b as int].len() > 0);
    } else {
        let k = j - head.len();
        assert(c.prog.insns[c.body_at(b) + k] == c.form.bodies[b as int][k]);
        lemma_progress(c, b, c.end(b));
    }
}

/// In the rendered blocks all left operands are values.
proof fn lemma_flat_lefts(c: Built, n: nat)
    requires
        c.ok(),
        n <= c.form.heads.len(),
    ensures
        forall|i: int| 0 <= i < c.form.flat(n).len() ==> left_is_value(#[trigger] c.form.flat(n)[i]),
    decreases n,
{
    if n > 0 {
        let m = (n - 1) as nat;
        lemma_flat_lefts(c, m);
        reveal(Built::ok);
        let b = m as usize;
        let (before, head, body) = (c.form.flat(m), c.form.heads[m as int], c.form.bodies[m as int]);
        assert(b < blocks(c.insns).len() && b == m);
        assert(c.form.head_ok(c.insns, c.order, b));
        assert forall|i: int| 0 <= i < c.form.flat(n).len() implies left_is_value(#[trigger] c.form.flat(n)[i]) by {
            if i < before.len() {
                assert(c.form.flat(n)[i] == before[i]);
            } else if i < before.len() + head.len() {
                let j = i - before.len();
                assert(c.form.flat(n)[i] == head[j]);
                if b == 0 && j < 3 {
                    assert(head.take(3)[j] == head[j]);
                    assert(prelude()[j] == head[j]);
                } else {
                    assert(c.form.regs[b as int][j - base(b)] < 11);
                    assert(head[base(b) + (j - base(b))] is Phi);
                }
            } else {
                let k = i - before.len() - head.len();
                assert(c.form.flat(n)[i] == body[k]);
                assert(c.order.contains(b));
                lemma_full(c, b);
                let q = lemma_renders(c, b, k, c.end(b));
            }
        }
    }
}

/// An SSA program of a program is scoped, and its left operands are values.
/// It is strict where byte swaps of the program have fixed widths.
pub proof fn lemma_built_strict(c: Built)
    requires
        c.ok(),
    ensures
        c.prog.scoped(),
        lefts_are_values(c.prog),
        swaps_by_immediate(c.insns) ==> c.prog.strict(),
{
    assert(c.prog.insns == c.form.flat(c.form.heads.len())) by {
        reveal(Built::ok);
    }
    lemma_flat_lefts(c, c.form.heads.len());
    lemma_facts(c);
    assert forall|b: usize| #[trigger] c.prog.reaches(b) implies c.prog.wired(b) && c.prog.nodes[b as int].live by {
        lemma_wired(c, b);
    }
    assert forall|i: int| 0 <= i < c.prog.insns.len() && #[trigger] live_at(c.prog.nodes, i) implies c.prog.def_ok(i) by {
        if c.prog.insns[i].def() is Some {
            lemma_site(c, i);
        }
    }
    assert forall|b: usize, i: int| #[trigger] c.prog.within(b, i) && c.prog.reaches(b) implies (swaps_by_immediate(
        c.insns,
    ) ==> c.prog.swap_ok(i)) && c.prog.uses_ok(b, i) && (c.prog.insns[i].is_control() ==> i + 1 == c.prog.nodes[b as int].end) by {
        lemma_op_strict(c, b, i);
    }
}

} // verus!
