//! SSA programs run as the programs that they render.
//!
//! The machine and the SSA program go through a program side by side. At
//! every instruction, each value that stands for a register has the number
//! that the register holds.
use vstd::prelude::*;

use crate::cfg::{
    block_index, blocks, blocks_partition_program, cfg_error, edges, edges_mirror_control, leads,
    lemma_leader_block, lemma_leaders, lemma_target_exists, numbered, transfers, Cfg, EdgeKind,
};
use crate::graph::{has_edge, is_path, lemma_out_edges, predecessors, reachable, Edge};
use crate::isa::insn::{AluOp, Insn, JumpOp, Operand, Width};
use crate::slots::lemma_slot_bounds;
use crate::ssa::{Op, Prog, START_PRED, SsaOperand, SsaValue};
use crate::ssa::code::{lemma_comes_end, lemma_comes_step, lemma_ends_now, machine_ends};
use crate::ssa::construct::{lemma_flat_at, lemma_out_edges_all};
use crate::ssa::form::{
    bad_end, base, body_ok, entry_loop, entry_version, goes_to, no_versions, op_ok, operand_ok,
    preds, prelude, rendered, stands_for, starts, walk, written, Env, Form,
};
use crate::ssa::proper::swaps_by_immediate;
use crate::ssa::run::{
    called, ending_of, fault_of, lemma_call_agrees, lemma_ends_before, lemma_ends_here, number_of,
    numbers_of, taken_from, with_value, world_of, Ending, Given, SsaState, Values, World,
};
use crate::ssa::scope::{
    lemma_listed, lemma_move, lemma_reached_block, lemma_scope_before, lemma_successor_block,
};
use crate::ssa::sound::built_programs_are_strict;
use crate::vm::{jump_condition, StepResult, VmModel};
use crate::vm::exec::{loaded, lowered, targets_match_graph};

verus! {

/// A program, its SSA form and its SSA program.
pub struct Built {
    /// The program.
    pub insns: Seq<Insn>,
    /// The blocks that control can reach.
    pub order: Seq<usize>,
    /// The SSA form.
    pub form: Form,
    /// The SSA program.
    pub prog: Prog,
}

impl Built {
    /// Whether the parts belong together.
    #[verifier::opaque]
    pub open spec fn ok(self) -> bool {
        &&& 0 < self.insns.len() <= 0x7fff_ffff
        &&& forall|i: int| 0 <= i < self.insns.len() ==> (#[trigger] self.insns[i]).valid()
        &&& numbered(self.insns)
        &&& cfg_error(self.insns) is None
        &&& forall|b: usize| #[trigger]
            self.order.contains(b) <==> reachable(edges(self.insns), 0, b)
        &&& self.prog.wf()
        &&& self.prog.renders(self.insns, self.order, self.form)
    }

    /// The first instruction index of a block.
    pub open spec fn first(self, b: usize) -> int {
        blocks(self.insns)[b as int].start.0 as int
    }

    /// The instruction index behind a block.
    pub open spec fn end(self, b: usize) -> int {
        blocks(self.insns)[b as int].end.0 as int
    }

    /// How far the body of a block renders the instructions before `pc`, and
    /// the versions that it has defined.
    pub open spec fn progress(self, b: usize, pc: int) -> (int, Env) {
        walk(self.insns, self.form.bodies[b as int], self.first(b), pc)
    }

    /// Where the body of a block starts in the SSA program.
    pub open spec fn body_at(self, b: usize) -> int {
        self.prog.nodes[b as int].start + self.form.heads[b as int].len()
    }

    /// Whether a value has been defined where index `i` of a block of the SSA
    /// program is reached.
    pub open spec fn ready(self, b: usize, i: int, v: SsaValue) -> bool {
        self.prog.in_scope(b, i, v) || self.prog.phi_for(b, v) is Some
    }

    /// Whether the values that stand for registers have the numbers that the
    /// registers hold, as far as they have been defined.
    pub open spec fn agrees(self, b: usize, i: int, env: Env, regs: Seq<i64>, values: Values) -> bool {
        forall|r: u8, v: SsaValue|
            r < 11 && #[trigger] stands_for(self.form.names, b, env, r, v) && self.ready(b, i, v) ==> values(v)
                == regs[r as int]
    }

    /// Whether the entry versions have the numbers of the start.
    pub open spec fn rooted(self, g: Given, values: Values) -> bool {
        &&& values(SsaValue(0)) == 0
        &&& values(SsaValue(1)) == g.frame
        &&& values(SsaValue(2)) == g.ctx
    }

    /// Whether a machine and a run of the SSA program are at the same point.
    pub open spec fn tied(self, g: Given, m: VmModel, s: SsaState) -> bool {
        let b = s.block;
        &&& m.code == loaded(self.insns)
        &&& m.regs.len() == 11
        &&& m.regs[10] == g.frame
        &&& world_of(m) == s.world
        &&& b < blocks(self.insns).len()
        &&& self.order.contains(b)
        &&& self.prog.reaches(b)
        &&& self.first(b) <= m.pc <= self.end(b)
        &&& m.pc == self.end(b) ==> !(self.insns[m.pc - 1] is Jump) && !(self.insns[m.pc - 1] is Exit)
        &&& s.at == self.body_at(b) + self.progress(b, m.pc as int).0
        &&& self.agrees(b, s.at, self.progress(b, m.pc as int).1, m.regs, s.env)
        &&& self.rooted(g, s.env)
    }
}

/// The simple facts about the parts.
pub proof fn lemma_facts(c: Built)
    requires
        c.ok(),
    ensures
        0 < c.insns.len() <= 0x7fff_ffff,
        forall|i: int| 0 <= i < c.insns.len() ==> (#[trigger] c.insns[i]).valid(),
        cfg_error(c.insns) is None,
        c.prog.wf(),
        c.prog.edges == edges(c.insns),
        c.prog.entry == 0,
        c.prog.nodes.len() == blocks(c.insns).len(),
{
    reveal(Built::ok);
}

/// Blocks hold instructions, and only their last instruction is a jump or
/// an exit.
pub proof fn lemma_block(c: Built, b: usize, pc: int)
    requires
        c.ok(),
        b < blocks(c.insns).len(),
        c.first(b) <= pc < c.end(b),
    ensures
        pc < c.insns.len(),
        insns_last(c, b, pc),
{
    reveal(Built::ok);
    blocks_partition_program(c.insns);
    if (c.insns[pc] is Jump || c.insns[pc] is Exit) && pc + 1 < c.end(b) {
        assert(leads(c.insns, pc, pc + 1));
        lemma_leader_block(c.insns, pc + 1);
        assert(block_index(c.insns, pc + 1) == b);
    }
}

pub open spec fn insns_last(c: Built, b: usize, pc: int) -> bool {
    c.insns[pc] is Jump || c.insns[pc] is Exit ==> pc + 1 == c.end(b)
}

/// The versions that a body defines are versions of their registers.
pub proof fn lemma_progress(c: Built, b: usize, pc: int)
    requires
        c.ok(),
        b < blocks(c.insns).len(),
        c.order.contains(b),
        c.first(b) <= pc <= c.end(b),
    ensures
        0 <= c.progress(b, pc).0,
        c.progress(b, pc).1.len() == 11,
        forall|r: int|
            0 <= r < 11 ==> ((#[trigger] c.progress(b, pc).1[r]) matches Some(v) ==> v.0 >= 3
                && c.form.belongs(r as u8, v)),
        forall|j: int|
            0 <= j < c.progress(b, pc).0 && j < c.form.bodies[b as int].len() ==> !((
            #[trigger] c.form.bodies[b as int][j]) is Phi),
    decreases pc,
{
    reveal(Built::ok);
    if pc > c.first(b) {
        lemma_progress(c, b, pc - 1);
        lemma_block(c, b, pc - 1);
        assert(c.form.owns(c.insns, b, pc - 1));
        let (k, env) = c.progress(b, pc - 1);
        assert(c.insns[pc - 1].valid());
        if rendered(c.insns[pc - 1]) {
            assert(op_ok(edges(c.insns), c.form.names, b, env, c.insns[pc - 1], c.form.bodies[b as int][k]));
        }
    }
}

/// The body of a block renders all its instructions.
pub proof fn lemma_full(c: Built, b: usize)
    requires
        c.ok(),
        b < blocks(c.insns).len(),
        c.order.contains(b),
    ensures
        c.progress(b, c.end(b)).0 == c.form.bodies[b as int].len(),
        body_ok(c.insns, c.form.names, b, c.form.bodies[b as int], c.first(b), c.end(b)),
        c.prog.nodes[b as int].end == c.body_at(b) + c.form.bodies[b as int].len(),
        c.prog.nodes[b as int].end <= c.prog.insns.len(),
        c.prog.nodes.len() == blocks(c.insns).len(),
        0 <= c.first(b) < c.end(b) <= c.insns.len(),
        forall|j: int|
            0 <= j < c.form.bodies[b as int].len() ==> c.prog.insns[c.body_at(b) + j]
                == #[trigger] c.form.bodies[b as int][j],
        forall|j: int|
            0 <= j < c.form.heads[b as int].len() ==> c.prog.insns[c.prog.nodes[b as int].start + j]
                == #[trigger] c.form.heads[b as int][j],
{
    reveal(Built::ok);
    let n = c.form.heads.len();
    blocks_partition_program(c.insns);
    lemma_flat_at(c.form, b as int, n);
    assert(c.prog.nodes[b as int] == c.form.nodes(c.order)[b as int]);
    assert(c.prog.insns.len() <= usize::MAX);
}

/// A value of one register is no value of another.
proof fn lemma_one_owner(c: Built, r: u8, q: u8, v: SsaValue)
    requires
        v.0 >= 3,
        c.form.belongs(r, v),
        c.form.belongs(q, v),
    ensures
        r == q,
{
}

/// What stands for a register belongs to it.
proof fn lemma_stands(c: Built, b: usize, pc: int, r: u8, v: SsaValue)
    requires
        c.ok(),
        b < blocks(c.insns).len(),
        c.order.contains(b),
        c.first(b) <= pc <= c.end(b),
        r < 11,
        stands_for(c.form.names, b, c.progress(b, pc).1, r, v),
    ensures
        c.form.belongs(r, v),
{
    reveal(Built::ok);
    lemma_progress(c, b, pc);
    if c.progress(b, pc).1[r as int] is None {
        assert(c.form.names.contains((b, r, v)));
    } else {
        assert(c.progress(b, pc).1[r as int] == Some(v));
    }
}

/// Agreement after an instruction that writes a register.
proof fn lemma_agrees_after(
    c: Built,
    g: Given,
    b: usize,
    pc: int,
    regs: Seq<i64>,
    values: Values,
    x: i64,
)
    requires
        c.ok(),
        b < blocks(c.insns).len(),
        c.order.contains(b),
        c.first(b) <= pc < c.end(b),
        regs.len() == 11,
        c.agrees(b, c.body_at(b) + c.progress(b, pc).0, c.progress(b, pc).1, regs, values),
        c.rooted(g, values),
        rendered(c.insns[pc]),
        c.insns[pc].valid(),
        written(c.insns[pc]) is Some,
    ensures
        ({
            let r = written(c.insns[pc])->0;
            let v = c.form.bodies[b as int][c.progress(b, pc).0].def();
            &&& r < 10
            &&& v is Some
            &&& c.agrees(
                b,
                c.body_at(b) + c.progress(b, pc + 1).0,
                c.progress(b, pc + 1).1,
                regs.update(r as int, x),
                with_value(values, v->0, x),
            )
            &&& c.rooted(g, with_value(values, v->0, x))
        }),
        c.progress(b, pc + 1).0 == c.progress(b, pc).0 + 1,
{
    reveal(Built::ok);
    lemma_block(c, b, pc);
    lemma_progress(c, b, pc);
    lemma_progress(c, b, pc + 1);
    assert(c.form.owns(c.insns, b, pc));
    let (k, env) = c.progress(b, pc);
    let r = written(c.insns[pc])->0;
    let v = c.form.bodies[b as int][k].def()->0;
    let next = c.progress(b, pc + 1).1;
    let after = with_value(values, v, x);
    let at = c.body_at(b) + k;
    lemma_full(c, b);
    assert(op_ok(edges(c.insns), c.form.names, b, env, c.insns[pc], c.form.bodies[b as int][k]));
    assert(c.prog.insns[c.body_at(b) + k] == c.form.bodies[b as int][k]);
    assert(next == env.update(r as int, Some(v)));
    assert forall|q: u8, w: SsaValue|
        q < 11 && #[trigger] stands_for(c.form.names, b, next, q, w) && c.ready(b, at + 1, w) implies after(w)
        == regs.update(r as int, x)[q as int] by {
        if q != r {
            assert(stands_for(c.form.names, b, env, q, w));
            lemma_stands(c, b, pc, q, w);
            if w == v {
                lemma_one_owner(c, r, q, v);
            }
            assert(c.ready(b, at, w)) by {
                if c.prog.within(b, c.prog.site(w)) && c.prog.site(w) == at {
                    assert(c.prog.def_of(w)->0 == c.prog.insns[at]);
                }
            }
        }
    }
}

/// Agreement after an instruction that writes no register.
proof fn lemma_agrees_still(c: Built, b: usize, pc: int, regs: Seq<i64>, values: Values)
    requires
        c.ok(),
        b < blocks(c.insns).len(),
        c.order.contains(b),
        c.first(b) <= pc < c.end(b),
        c.agrees(b, c.body_at(b) + c.progress(b, pc).0, c.progress(b, pc).1, regs, values),
        !rendered(c.insns[pc]) || (written(c.insns[pc]) is None
            && c.form.bodies[b as int][c.progress(b, pc).0].def() is None),
    ensures
        c.agrees(b, c.body_at(b) + c.progress(b, pc + 1).0, c.progress(b, pc + 1).1, regs, values),
        c.progress(b, pc + 1).0 == c.progress(b, pc).0 + (if rendered(c.insns[pc]) {
            1int
        } else {
            0
        }),
{
    reveal(Built::ok);
    assert(c.progress(b, pc + 1).1 == c.progress(b, pc).1);
    let (k, env) = c.progress(b, pc);
    let at = c.body_at(b) + k;
    if rendered(c.insns[pc]) {
        lemma_full(c, b);
        lemma_progress(c, b, pc);
        assert(op_ok(edges(c.insns), c.form.names, b, env, c.insns[pc], c.form.bodies[b as int][k]));
        assert(c.prog.insns[c.body_at(b) + k] == c.form.bodies[b as int][k]);
        assert forall|q: u8, w: SsaValue|
            q < 11 && #[trigger] stands_for(c.form.names, b, env, q, w) && c.ready(b, at + 1, w) implies values(w)
            == regs[q as int] by {
            assert(c.ready(b, at, w)) by {
                if c.prog.within(b, c.prog.site(w)) && c.prog.site(w) == at {
                    assert(c.prog.def_of(w)->0 == c.prog.insns[at]);
                }
            }
        }
    }
}

/// A value that a phi takes from a predecessor is an input from there.
proof fn lemma_taken(inputs: Seq<(usize, SsaValue)>, p: usize, k: nat, j: int)
    requires
        k <= j < inputs.len(),
        inputs[j].0 == p,
    ensures
        taken_from(inputs, p, k) is Some,
        exists|i: int|
            k <= i < inputs.len() && (#[trigger] inputs[i]).0 == p && taken_from(inputs, p, k) == Some(
                inputs[i].1,
            ),
    decreases inputs.len() - k,
{
    if inputs[k as int].0 != p {
        lemma_taken(inputs, p, k + 1, j);
    }
}

/// The source of an edge is listed among the predecessors of its target.
pub proof fn lemma_pred_listed(list: Seq<Edge>, p: usize, b: usize, kind: EdgeKind)
    requires
        list.contains((p, b, kind)),
    ensures
        predecessors(list, b).contains(p),
    decreases list.len(),
{
    let k = list.index_of((p, b, kind));
    let rest = predecessors(list.drop_last(), b);
    let all = predecessors(list, b);
    if k == list.len() - 1 {
        assert(all[0] == p);
    } else {
        assert(list.drop_last()[k] == (p, b, kind));
        lemma_pred_listed(list.drop_last(), p, b, kind);
        let i = rest.index_of(p);
        if list.last().1 == b {
            assert(all[i + 1] == p);
        } else {
            assert(all[i] == p);
        }
    }
}

/// What an edge joins is reachable.
pub proof fn lemma_reach_edge(c: Built, p: usize, b: usize, kind: EdgeKind)
    requires
        c.ok(),
        c.order.contains(p),
        edges(c.insns).contains((p, b, kind)),
    ensures
        c.order.contains(b),
        b < blocks(c.insns).len(),
{
    reveal(Built::ok);
    let list = edges(c.insns);
    let path = choose|q: Seq<usize>| #[trigger] is_path(list, q) && q[0] == 0 && q.last() == p;
    let longer = path.push(b);
    let e = list.index_of((p, b, kind));
    assert(has_edge(list, p, b)) by {
        assert(list[e].0 == p && list[e].1 == b);
    }
    assert(is_path(list, longer)) by {
        assert forall|i: int| 0 <= i < longer.len() - 1 implies has_edge(
            list,
            #[trigger] longer[i],
            longer[i + 1],
        ) by {
            if i < path.len() - 1 {
                assert(has_edge(list, path[i], path[i + 1]));
            }
        }
    }
    assert(longer[0] == 0 && longer.last() == b);
    edges_mirror_control(c.insns, p, b, kind);
}

/// The phi of a block that defines a value of a register.
pub proof fn lemma_phi_for(c: Built, b: usize, r: u8, v: SsaValue)
    requires
        c.ok(),
        b < blocks(c.insns).len(),
        c.order.contains(b),
        c.form.has_phi(b, r, v),
    ensures
        c.prog.phi_for(b, v) is Some,
        c.form.merges(c.insns, c.order, b, r, Op::Phi { dst: v, inputs: c.prog.phi_for(b, v)->0 }),
        c.prog.def_of(v) == Some(Op::Phi { dst: v, inputs: c.prog.phi_for(b, v)->0 }),
{
    reveal(Built::ok);
    lemma_full(c, b);
    let k = choose|k: int|
        0 <= k < c.form.regs[b as int].len() && #[trigger] c.form.regs[b as int][k] == r
            && c.form.heads[b as int][base(b) + k].def() == Some(v);
    assert(c.form.head_ok(c.insns, c.order, b));
    let i = c.prog.nodes[b as int].start + base(b) + k;
    assert(c.form.regs[b as int][k] < 11);
    assert(c.prog.insns[c.prog.nodes[b as int].start + (base(b) + k)] == c.form.heads[b as int][base(b) + k]);
    assert(c.prog.insns[i].def() == Some(v));
    assert(c.prog.sites[v.0 as int] == i);
}

/// The phis of a block stand in its head.
proof fn lemma_in_head(c: Built, b: usize, v: SsaValue)
    requires
        c.ok(),
        b < blocks(c.insns).len(),
        c.order.contains(b),
        c.prog.phi_for(b, v) is Some,
    ensures
        ({
            let j = c.prog.sites[v.0 as int] - c.prog.nodes[b as int].start;
            &&& 0 <= j < c.form.heads[b as int].len()
            &&& c.form.heads[b as int][j] is Phi
            &&& c.form.heads[b as int][j].def() == Some(v)
        }),
{
    lemma_facts(c);
    lemma_full(c, b);
    lemma_progress(c, b, c.end(b));
    let i = c.prog.sites[v.0 as int] as int;
    assert(c.prog.insns[i].def() == Some(v));
    let j = i - c.prog.nodes[b as int].start;
    if j >= c.form.heads[b as int].len() {
        let q = j - c.form.heads[b as int].len();
        assert(c.prog.insns[c.body_at(b) + q] == c.form.bodies[b as int][q]);
        assert(false);
    }
    assert(c.prog.insns[c.prog.nodes[b as int].start + j] == c.form.heads[b as int][j]);
}

/// A value that a phi of a block defines belongs to the phi's register.
proof fn lemma_phi_back(c: Built, b: usize, v: SsaValue)
    requires
        c.ok(),
        b < blocks(c.insns).len(),
        c.order.contains(b),
        c.prog.phi_for(b, v) is Some,
    ensures
        exists|r: u8| r < 11 && v.0 >= 3 && c.form.belongs(r, v) && #[trigger] c.form.has_phi(b, r, v),
{
    lemma_in_head(c, b, v);
    reveal(Built::ok);
    let j = c.prog.sites[v.0 as int] - c.prog.nodes[b as int].start;
    assert(c.form.head_ok(c.insns, c.order, b));
    let k = j - base(b);
    if k < 0 {
        let head = c.form.heads[0];
        assert(head.take(3)[j] == head[j]);
        assert(prelude()[j] == head[j]);
        assert(false);
    }
    assert(c.form.phi_owns(b, k));
    let r = c.form.regs[b as int][k];
    assert(c.form.has_phi(b, r, v));
}

/// The entry versions are defined by the prelude.
pub proof fn lemma_entry_values(c: Built)
    requires
        c.ok(),
    ensures
        c.prog.def_of(SsaValue(0)) == Some(Op::Const { dst: SsaValue(0), value: 0 }),
        c.prog.def_of(SsaValue(1)) == Some(Op::FramePtr { dst: SsaValue(1) }),
        c.prog.def_of(SsaValue(2)) == Some(Op::EntryCtx { dst: SsaValue(2) }),
        c.order.contains(0),
        0 < blocks(c.insns).len(),
        c.prog.nodes[0].start == 0,
        c.prog.sites[0] == 0,
        c.prog.sites[1] == 1,
        c.prog.sites[2] == 2,
{
    reveal(Built::ok);
    blocks_partition_program(c.insns);
    assert(c.order.contains(0)) by {
        let p: Seq<usize> = seq![0usize];
        assert(is_path(edges(c.insns), p));
        assert(p[0] == 0 && p.last() == 0);
    }
    lemma_full(c, 0);
    lemma_prelude(c);
    assert(c.prog.nodes[0] == c.form.nodes(c.order)[0]);
    let head = c.form.heads[0];
    assert(c.prog.insns[c.prog.nodes[0].start + 0] == head[0]);
    assert(c.prog.insns[c.prog.nodes[0].start + 1] == head[1]);
    assert(c.prog.insns[c.prog.nodes[0].start + 2] == head[2]);
}

/// The head of the entry block starts with the prelude.
pub proof fn lemma_prelude(c: Built)
    requires
        c.ok(),
    ensures
        c.form.heads[0].len() >= 3,
        c.form.heads[0][0] == (Op::Const { dst: SsaValue(0), value: 0 }),
        c.form.heads[0][1] == (Op::FramePtr { dst: SsaValue(1) }),
        c.form.heads[0][2] == (Op::EntryCtx { dst: SsaValue(2) }),
{
    reveal(Built::ok);
    blocks_partition_program(c.insns);
    assert(c.form.head_ok(c.insns, c.order, 0));
    let head = c.form.heads[0];
    assert(head.take(3)[0] == head[0]);
    assert(head.take(3)[1] == head[1]);
    assert(head.take(3)[2] == head[2]);
}

/// The entry versions may be used in all bodies.
pub proof fn lemma_entry_scope(c: Built, b: usize, i: int, v: SsaValue)
    requires
        c.ok(),
        b < blocks(c.insns).len(),
        c.prog.reaches(b),
        c.body_at(b) <= i,
        v.0 < 3,
    ensures
        c.prog.in_scope(b, i, v),
        c.prog.is_fixed(v),
        c.prog.within(0, c.prog.site(v)),
        c.prog.site(v) < 3,
{
    lemma_entry_values(c);
    lemma_facts(c);
    lemma_full(c, 0);
    lemma_prelude(c);
    assert(c.prog.within(0, c.prog.site(v)));
    if b != 0 {
        assert forall|t: Seq<usize>| #[trigger] c.prog.is_trace(t) && t.last() == b implies c.prog.passes(t, v) by {
            assert(t[0] == 0);
            assert(t.len() > 1) by {
                if t.len() == 1 {
                    assert(t[0] == t.last());
                }
            }
            assert(c.prog.within(t[0], c.prog.site(v)));
        }
    }
}

/// A value that is ready at the start of a body and is no phi was ready at
/// the end of the predecessor.
proof fn lemma_ready_before(c: Built, p: usize, b: usize, v: SsaValue)
    requires
        c.ok(),
        c.prog.strict(),
        p < blocks(c.insns).len(),
        c.order.contains(p),
        b < blocks(c.insns).len(),
        c.order.contains(b),
        c.prog.reaches(p),
        c.prog.successors(p).contains(b),
        c.prog.phi_for(b, v) is None,
        c.ready(b, c.body_at(b), v),
    ensures
        c.ready(p, c.prog.nodes[p as int].end as int, v),
{
    lemma_facts(c);
    lemma_full(c, b);
    lemma_full(c, p);
    if c.prog.within(b, c.prog.site(v)) && c.prog.site(v) < c.body_at(b) {
        let j = c.prog.site(v) - c.prog.nodes[b as int].start;
        assert(c.prog.insns[c.prog.nodes[b as int].start + j] == c.form.heads[b as int][j]);
        lemma_head_op(c, b, j);
        lemma_prelude(c);
        assert(v.0 < 3);
        lemma_entry_scope(c, p, c.prog.nodes[p as int].end as int, v);
    } else {
        lemma_scope_before(c.prog, p, b, v);
    }
}

/// Control that arrives over an edge finds the values of the registers.
proof fn lemma_arrive(
    c: Built,
    g: Given,
    p: usize,
    b: usize,
    kind: EdgeKind,
    regs: Seq<i64>,
    values: Values,
)
    requires
        c.ok(),
        c.prog.strict(),
        p < blocks(c.insns).len(),
        c.order.contains(p),
        c.prog.reaches(p),
        c.prog.successors(p).contains(b),
        edges(c.insns).contains((p, b, kind)),
        c.agrees(p, c.prog.nodes[p as int].end as int, c.progress(p, c.end(p)).1, regs, values),
        c.rooted(g, values),
        regs.len() == 11,
        regs[10] == g.frame,
    ensures
        b < blocks(c.insns).len(),
        c.order.contains(b),
        c.prog.reaches(b),
        c.agrees(b, c.body_at(b), no_versions(), regs, c.prog.arrived(values, p, b)),
        c.rooted(g, c.prog.arrived(values, p, b)),
{
    lemma_facts(c);
    lemma_reach_edge(c, p, b, kind);
    lemma_pred_listed(edges(c.insns), p, b, kind);
    lemma_entry_values(c);
    lemma_successor_block(c.prog, p, b);
    let after = c.prog.arrived(values, p, b);
    let list = preds(c.insns, b);
    let end = c.prog.nodes[p as int].end as int;
    assert forall|r: u8, v: SsaValue|
        r < 11 && #[trigger] stands_for(c.form.names, b, no_versions(), r, v) && c.ready(b, c.body_at(b), v) implies after(
        v,
    ) == regs[r as int] by {
        assert(no_versions()[r as int] is None);
        assert(c.form.names.contains((b, r, v)));
        lemma_name(c, b, r, v);
        if c.prog.phi_for(b, v) is Some {
            lemma_phi_back(c, b, v);
            let q = choose|q: u8|
                q < 11 && v.0 >= 3 && c.form.belongs(q, v) && #[trigger] c.form.has_phi(b, q, v);
            lemma_one_owner(c, r, q, v);
            lemma_phi_for(c, b, r, v);
            lemma_merged(c, p, b, r, v);
            let inputs = c.prog.phi_for(b, v)->0;
            let u = taken_from(inputs, p, 0)->0;
            assert(c.form.at_end(c.insns, c.order, p, r, u));
            assert(c.prog.uses_ok(b, c.prog.site(v)));
            let j = lemma_listed(inputs, p, 0);
            lemma_reached_block(c.prog, p);
            assert(c.prog.in_scope(p, end, u));
            assert(stands_for(c.form.names, p, c.progress(p, c.end(p)).1, r, u));
            assert(after(v) == values(u));
        } else {
            assert(after(v) == values(v));
            lemma_ready_before(c, p, b, v);
            if c.form.has_phi(b, r, v) {
                lemma_phi_for(c, b, r, v);
            } else if b == 0 && v == entry_version(r) && (!entry_loop(c.insns) || r == 10) {
                let i = list.index_of(p);
                assert(entry_loop(c.insns));
            } else if list.len() == 1 && c.order.contains(list[0]) && c.form.at_end(
                c.insns,
                c.order,
                list[0],
                r,
                v,
            ) {
                assert(list[0] == p);
                assert(stands_for(c.form.names, p, c.progress(p, c.end(p)).1, r, v));
            } else {
                assert(list == seq![b]);
                assert(p == b);
                if b != 0 {
                    lemma_lonely(c, b);
                }
                assert(c.progress(p, c.end(p)).1[r as int] is None);
                assert(stands_for(c.form.names, p, c.progress(p, c.end(p)).1, r, v));
            }
        }
    }
}

/// A block whose only predecessor is itself is not reached.
pub proof fn lemma_lonely(c: Built, b: usize)
    requires
        c.ok(),
        preds(c.insns, b) == seq![b],
        b != 0,
    ensures
        !c.order.contains(b),
{
    reveal(Built::ok);
    if c.order.contains(b) {
        let list = edges(c.insns);
        let path = choose|q: Seq<usize>| #[trigger] is_path(list, q) && q[0] == 0 && q.last() == b;
        lemma_lonely_path(c, b, path);
    }
}

proof fn lemma_lonely_path(c: Built, b: usize, path: Seq<usize>)
    requires
        c.ok(),
        is_path(edges(c.insns), path),
        path[0] == 0,
        path.last() == b,
        b != 0,
    ensures
        preds(c.insns, b) != seq![b],
    decreases path.len(),
{
    reveal(Built::ok);
    let list = edges(c.insns);
    if preds(c.insns, b) == seq![b] && path.len() > 1 {
        let n = path.len();
        assert(has_edge(list, path[n - 2], path[n - 2 + 1]));
        let e = choose|e: int|
            0 <= e < list.len() && (#[trigger] list[e]).0 == path[n - 2] && list[e].1 == b;
        assert(list.contains((path[n - 2], b, list[e].2)));
        lemma_pred_listed(list, path[n - 2], b, list[e].2);
        assert(path[n - 2] == b);
        let shorter = path.drop_last();
        assert(is_path(list, shorter)) by {
            assert forall|i: int| 0 <= i < shorter.len() - 1 implies has_edge(
                list,
                #[trigger] shorter[i],
                shorter[i + 1],
            ) by {
                assert(has_edge(list, path[i], path[i + 1]));
            }
        }
        lemma_lonely_path(c, b, shorter);
    }
}

/// A phi takes from a predecessor what stands for its register at the end
/// of the predecessor.
pub proof fn lemma_merged(c: Built, p: usize, b: usize, r: u8, v: SsaValue)
    requires
        c.ok(),
        p < blocks(c.insns).len(),
        b < blocks(c.insns).len(),
        c.order.contains(b),
        preds(c.insns, b).contains(p),
        c.form.has_phi(b, r, v),
    ensures
        c.prog.phi_for(b, v) is Some,
        taken_from(c.prog.phi_for(b, v)->0, p, 0) matches Some(u) && c.form.at_end(
            c.insns,
            c.order,
            p,
            r,
            u,
        ),
{
    reveal(Built::ok);
    lemma_phi_for(c, b, r, v);
    let inputs = c.prog.phi_for(b, v)->0;
    let from = starts(c.insns, b, r);
    let list = preds(c.insns, b);
    let j = list.index_of(p) + from.len();
    assert(inputs[j].0 == list[j - from.len()]);
    lemma_entry_values(c);
    lemma_full(c, 0);
    assert(p < START_PRED);
    lemma_taken(inputs, p, 0, j);
    let i = choose|i: int|
        0 <= i < inputs.len() && (#[trigger] inputs[i]).0 == p && taken_from(inputs, p, 0) == Some(
            inputs[i].1,
        );
    if i < from.len() {
        assert(inputs.take(from.len() as int)[i] == inputs[i]);
        assert(from[i].0 == START_PRED);
    }
}

/// The head of a block leaves the values alone.
proof fn lemma_head(c: Built, g: Given, s: SsaState, j: int, end: (World, Ending))
    requires
        c.ok(),
        s.block < blocks(c.insns).len(),
        c.order.contains(s.block),
        c.rooted(g, s.env),
        0 <= j <= c.form.heads[s.block as int].len(),
        c.prog.ends(g, SsaState { at: c.body_at(s.block), ..s }, end),
    ensures
        c.prog.ends(g, SsaState { at: c.prog.nodes[s.block as int].start + j, ..s }, end),
    decreases c.form.heads[s.block as int].len() - j,
{
    lemma_facts(c);
    let b = s.block;
    let head = c.form.heads[b as int];
    if j < head.len() {
        lemma_head(c, g, s, j + 1, end);
        lemma_full(c, b);
        let here = SsaState { at: c.prog.nodes[b as int].start + j, ..s };
        assert(c.prog.insns[here.at] == head[j]);
        lemma_head_op(c, b, j);
        if !(head[j] is Phi) {
            lemma_prelude(c);
            assert(with_value(s.env, SsaValue(0), 0) =~= s.env);
            assert(with_value(s.env, SsaValue(1), g.frame) =~= s.env);
            assert(with_value(s.env, SsaValue(2), g.ctx) =~= s.env);
        }
        assert(c.prog.step(g, here) == Ok::<SsaState, Ending>(
            SsaState { at: c.prog.nodes[b as int].start + j + 1, ..s },
        ));
        lemma_ends_before(c.prog, g, here, end);
    }
}

/// How one step of the machine and one of the SSA program compare.
pub open spec fn same_step(c: Built, g: Given, m: VmModel, s: SsaState) -> bool {
    match m.step() {
        (n, StepResult::Continue) => c.prog.step(g, s) matches Ok(t) && c.tied(g, n, t),
        (n, StepResult::Exit(code)) => c.prog.step(g, s) == Err::<SsaState, Ending>(Ending::Exit(code))
            && world_of(n) == s.world,
        (n, StepResult::Error(e)) => c.prog.step(g, s) matches Err(f) && fault_of(e) == Some(f)
            && world_of(n) == s.world,
    }
}

/// The number of an operand that renders another.
proof fn lemma_operand(
    c: Built,
    b: usize,
    i: int,
    env: Env,
    regs: Seq<i64>,
    values: Values,
    from: Operand,
    to: SsaOperand,
)
    requires
        c.agrees(b, i, env, regs, values),
        operand_ok(c.form.names, b, env, from, to),
        from.valid(),
        to matches SsaOperand::Value(v) ==> c.prog.in_scope(b, i, v),
    ensures
        number_of(values, to) == match from {
            Operand::Reg(r) => regs[r.0 as int],
            Operand::Imm(k) => k as i64,
        },
{
    if let (Operand::Reg(r), SsaOperand::Value(v)) = (from, to) {
        assert(stands_for(c.form.names, b, env, r.0, v));
    }
}

/// What the next instruction uses has been defined.
proof fn lemma_used(c: Built, b: usize, i: int, k: int)
    requires
        c.ok(),
        c.prog.strict(),
        c.prog.reaches(b),
        c.prog.within(b, i),
        !(c.prog.insns[i] is Phi),
        0 <= k < c.prog.insns[i].uses().len(),
    ensures
        c.prog.in_scope(b, i, c.prog.insns[i].uses()[k]),
{
    assert(c.prog.uses_ok(b, i));
}

/// What a two-sided instruction uses has been defined.
proof fn lemma_sides(c: Built, b: usize, i: int, lhs: SsaOperand, rhs: SsaOperand)
    requires
        c.ok(),
        c.prog.strict(),
        c.prog.reaches(b),
        c.prog.within(b, i),
        !(c.prog.insns[i] is Phi),
        c.prog.insns[i].uses() == lhs.values() + rhs.values(),
    ensures
        lhs matches SsaOperand::Value(v) ==> c.prog.in_scope(b, i, v),
        rhs matches SsaOperand::Value(v) ==> c.prog.in_scope(b, i, v),
{
    let op = c.prog.insns[i];
    if let SsaOperand::Value(v) = lhs {
        assert(op.uses()[0] == v);
        lemma_used(c, b, i, 0);
    }
    if let SsaOperand::Value(v) = rhs {
        let k = op.uses().len() - 1;
        assert(op.uses()[k] == v);
        lemma_used(c, b, i, k);
    }
}

/// Rendered arithmetic.
proof fn lemma_alu(c: Built, g: Given, m: VmModel, s: SsaState)
    requires
        c.ok(),
        c.prog.strict(),
        c.tied(g, m, s),
        m.pc < c.end(s.block),
        c.insns[m.pc as int] is Alu,
        rendered(c.insns[m.pc as int]),
    ensures
        same_step(c, g, m, s),
{
    lemma_facts(c);
    let b = s.block;
    let pc = m.pc as int;
    let insn = c.insns[pc];
    let (k, env) = c.progress(b, pc);
    lemma_block(c, b, pc);
    lemma_full(c, b);
    lemma_progress(c, b, pc);
    assert(insn.valid());
    let op = c.form.bodies[b as int][k];
    assert(op_ok(edges(c.insns), c.form.names, b, env, insn, op));
    assert(c.prog.insns[s.at] == op);
    assert(m.code[pc] == lowered(c.insns, pc));
    if let Insn::Alu { width, op: alu, dst, src } = insn {
        if alu == AluOp::Mov && width == Width::B64 && src is Reg {
            let from = src->Reg_0;
            let v = op->Copy_src;
            assert(op.uses()[0] == v);
            lemma_used(c, b, s.at, 0);
            assert(stands_for(c.form.names, b, env, from.0, v));
            let x = m.regs[from.0 as int];
            assert((s.env)(v) == x);
            lemma_move(m.regs[dst.0 as int], x);
            assert(dst.0 != 10);
            lemma_agrees_after(c, g, b, pc, m.regs, s.env, x);
        } else {
            let lhs = op->BinOp_lhs;
            let rhs = op->BinOp_rhs;
            lemma_sides(c, b, s.at, lhs, rhs);
            assert(stands_for(c.form.names, b, env, dst.0, lhs->Value_0));
            assert(number_of(s.env, lhs) == m.regs[dst.0 as int]);
            lemma_operand(c, b, s.at, env, m.regs, s.env, src, rhs);
            if !bad_end(alu, src) {
                let x = alu.result(number_of(s.env, lhs), number_of(s.env, rhs), width);
                lemma_agrees_after(c, g, b, pc, m.regs, s.env, x);
            }
        }
    }
}

/// Rendered instructions besides arithmetic and control.
proof fn lemma_plain(c: Built, g: Given, m: VmModel, s: SsaState)
    requires
        c.ok(),
        c.prog.strict(),
        c.tied(g, m, s),
        m.pc < c.end(s.block),
        c.insns[m.pc as int] is LoadImm64 || c.insns[m.pc as int] is Load || c.insns[m.pc as int] is Store
            || c.insns[m.pc as int] is Call,
        rendered(c.insns[m.pc as int]),
    ensures
        same_step(c, g, m, s),
{
    lemma_facts(c);
    let b = s.block;
    let pc = m.pc as int;
    let insn = c.insns[pc];
    let (k, env) = c.progress(b, pc);
    lemma_block(c, b, pc);
    lemma_full(c, b);
    lemma_progress(c, b, pc);
    assert(insn.valid());
    let op = c.form.bodies[b as int][k];
    assert(op_ok(edges(c.insns), c.form.names, b, env, insn, op));
    assert(c.prog.insns[s.at] == op);
    assert(m.code[pc] == lowered(c.insns, pc));
    match insn {
        Insn::LoadImm64 { dst, imm } => {
            lemma_agrees_after(c, g, b, pc, m.regs, s.env, imm);
        },
        Insn::Load { size, dst, base: from, offset } => {
            assert(op.uses()[0] == op->Load_base);
            lemma_used(c, b, s.at, 0);
            assert(stands_for(c.form.names, b, env, from.0, op->Load_base));
            let addr = m.regs[from.0 as int].wrapping_add(offset as i64);
            if let Ok(x) = m.mem.load(addr, size) {
                if dst.0 == 10 {
                    lemma_agrees_still(c, b, pc, m.regs, s.env);
                } else {
                    lemma_agrees_after(c, g, b, pc, m.regs, s.env, x);
                }
            }
        },
        Insn::Store { size, base: to, offset, src } => {
            assert(op.uses()[0] == op->Store_base);
            lemma_used(c, b, s.at, 0);
            if let SsaOperand::Value(v) = op->Store_src {
                assert(op.uses()[1] == v);
                lemma_used(c, b, s.at, 1);
            }
            assert(stands_for(c.form.names, b, env, to.0, op->Store_base));
            lemma_operand(c, b, s.at, env, m.regs, s.env, src, op->Store_src);
            lemma_agrees_still(c, b, pc, m.regs, s.env);
        },
        Insn::Call { func } => {
            let args = op->Call_args;
            let numbers = numbers_of(s.env, args);
            assert forall|i: int| 0 <= i < 5 implies #[trigger] numbers[i] == m.regs[i + 1] by {
                assert(op.uses()[i] == args[i]);
                lemma_used(c, b, s.at, i);
                assert(stands_for(c.form.names, b, env, (i + 1) as u8, args[i]));
            }
            lemma_call_agrees(m, func, numbers);
            if let Ok((w, x)) = called(s.world, func, numbers) {
                lemma_agrees_after(c, g, b, pc, m.regs, s.env, x);
            }
        },
        _ => {},
    }
}

/// An instruction that is not rendered does nothing.
proof fn lemma_idle(c: Built, g: Given, m: VmModel, s: SsaState)
    requires
        c.ok(),
        c.prog.strict(),
        c.tied(g, m, s),
        m.pc < c.end(s.block),
        !rendered(c.insns[m.pc as int]),
    ensures
        m.step().1 == StepResult::Continue,
        c.tied(g, m.step().0, s),
{
    lemma_facts(c);
    let pc = m.pc as int;
    lemma_block(c, s.block, pc);
    assert(c.insns[pc].valid());
    assert(m.code[pc] == lowered(c.insns, pc));
    lemma_agrees_still(c, s.block, pc, m.regs, s.env);
}

/// An edge of a block and the instructions that it joins.
pub proof fn lemma_edge(c: Built, b: usize, kind: EdgeKind, to: Option<usize>)
    requires
        c.ok(),
        b < blocks(c.insns).len(),
        goes_to(edges(c.insns), b, kind, to),
    ensures
        match to {
            Some(t) => edges(c.insns).contains((b, t, kind)) && t < blocks(c.insns).len() && transfers(
                c.insns,
                c.end(b) - 1,
                kind,
            ) == Some(c.first(t)),
            None => transfers(c.insns, c.end(b) - 1, kind) is None,
        },
{
    reveal(Built::ok);
    blocks_partition_program(c.insns);
    match to {
        Some(t) => {
            edges_mirror_control(c.insns, b, t, kind);
        },
        None => {
            let last = c.end(b) - 1;
            if let Some(pc) = transfers(c.insns, last, kind) {
                if c.insns[last] is Jump && kind != EdgeKind::BranchFalse {
                    lemma_target_exists(c.insns, last);
                } else if !(c.insns[last] is Jump) {
                    lemma_next_starts(c, b);
                } else {
                    assert(leads(c.insns, last, last + 1));
                }
                let t = block_index(c.insns, pc);
                lemma_starts_block(c, b, pc);
                edges_mirror_control(c.insns, b, t, kind);
                assert(edges(c.insns).contains((b, t, kind)));
            }
        },
    }
}

/// The instruction behind a block starts a block.
proof fn lemma_next_starts(c: Built, b: usize)
    requires
        c.ok(),
        b < blocks(c.insns).len(),
        c.end(b) < c.insns.len(),
    ensures
        crate::cfg::is_leader(c.insns, c.end(b)),
{
    reveal(Built::ok);
    blocks_partition_program(c.insns);
    lemma_leaders(c.insns, c.insns.len());
    assert(b + 1 < blocks(c.insns).len()) by {
        if b + 1 == blocks(c.insns).len() {
            assert(blocks(c.insns).last() == blocks(c.insns)[b as int]);
        }
    }
    let n: int = b + 1;
    assert(crate::cfg::leaders(c.insns)[n].0 == c.end(b));
}

/// The block of an instruction that starts one starts there.
proof fn lemma_starts_block(c: Built, b: usize, pc: int)
    requires
        c.ok(),
        0 <= pc < c.insns.len(),
        crate::cfg::is_leader(c.insns, pc),
    ensures
        block_index(c.insns, pc) < blocks(c.insns).len(),
        c.first(block_index(c.insns, pc)) == pc,
{
    reveal(Built::ok);
    lemma_leader_block(c.insns, pc);
}

/// How a machine and an SSA program compare behind a control transfer.
pub open spec fn same_turn(c: Built, g: Given, n: VmModel, next: Result<SsaState, Ending>) -> bool {
    match next {
        Ok(t) => {
            &&& t.block < blocks(c.insns).len()
            &&& t.at == c.prog.nodes[t.block as int].start
            &&& n.pc < c.end(t.block)
            &&& c.tied(g, n, SsaState { at: c.body_at(t.block), ..t })
        },
        Err(e) => e == Ending::FellOff && n.pc == c.insns.len() && n.code == loaded(c.insns),
    }
}

/// Control at the end of a block goes over an edge, or out of the program.
proof fn lemma_turn(c: Built, g: Given, m: VmModel, s: SsaState, kind: EdgeKind, to: Option<usize>)
    requires
        c.ok(),
        c.prog.strict(),
        m.code == loaded(c.insns),
        m.regs.len() == 11,
        m.regs[10] == g.frame,
        world_of(m) == s.world,
        s.block < blocks(c.insns).len(),
        c.order.contains(s.block),
        c.prog.reaches(s.block),
        to matches Some(t) ==> c.prog.successors(s.block).contains(t),
        c.agrees(
            s.block,
            c.prog.nodes[s.block as int].end as int,
            c.progress(s.block, c.end(s.block)).1,
            m.regs,
            s.env,
        ),
        c.rooted(g, s.env),
        goes_to(edges(c.insns), s.block, kind, to),
        to matches Some(t) ==> m.pc == c.first(t),
        to is None ==> m.pc == c.insns.len(),
    ensures
        same_turn(c, g, m, c.prog.go_to(s, to)),
{
    lemma_facts(c);
    if let Some(t) = to {
        lemma_edge(c, s.block, kind, to);
        lemma_arrive(c, g, s.block, t, kind, m.regs, s.env);
        lemma_full(c, t);
        lemma_progress(c, t, c.first(t));
    }
}

/// A control instruction ends its block.
proof fn lemma_last_control(prog: Prog, b: usize, i: int)
    requires
        prog.strict(),
        prog.reaches(b),
        prog.within(b, i),
        prog.insns[i].is_control(),
    ensures
        prog.terminator(b) == Some(prog.insns[i]),
        i + 1 == prog.nodes[b as int].end,
        prog.wired(b),
{
    lemma_control_found(prog, b, prog.nodes[b as int].start as int, i);
}

proof fn lemma_control_found(prog: Prog, b: usize, j: int, i: int)
    requires
        prog.strict(),
        prog.reaches(b),
        prog.within(b, i),
        prog.insns[i].is_control(),
        prog.nodes[b as int].start <= j <= i,
    ensures
        prog.control_from(j, prog.nodes[b as int].end as int) == Some(prog.insns[i]),
    decreases i - j,
{
    assert(prog.within(b, j));
    if j < i {
        assert(prog.within(b, i));
        lemma_control_found(prog, b, j + 1, i);
    }
}

/// A jump.
proof fn lemma_jump(c: Built, g: Given, m: VmModel, s: SsaState)
    requires
        c.ok(),
        c.prog.strict(),
        c.tied(g, m, s),
        m.pc < c.end(s.block),
        c.insns[m.pc as int] is Jump,
    ensures
        m.step().1 == StepResult::Continue,
        same_turn(c, g, m.step().0, c.prog.step(g, s)),
        world_of(m.step().0) == s.world,
{
    lemma_facts(c);
    let b = s.block;
    let pc = m.pc as int;
    let insn = c.insns[pc];
    let (k, env) = c.progress(b, pc);
    lemma_block(c, b, pc);
    lemma_full(c, b);
    lemma_progress(c, b, pc);
    assert(insn.valid());
    let op = c.form.bodies[b as int][k];
    assert(op_ok(edges(c.insns), c.form.names, b, env, insn, op));
    assert(c.prog.insns[s.at] == op);
    assert(m.code[pc] == lowered(c.insns, pc));
    lemma_target_exists(c.insns, pc);
    let n = m.step().0;
    lemma_last_control(c.prog, b, s.at);
    lemma_agrees_still(c, b, pc, m.regs, s.env);
    if let Insn::Jump { width, op: jump, dst, src, offset } = insn {
        targets_match_graph(c.insns, pc, offset);
        if jump == JumpOp::Always {
            let t = op->Ja_target;
            lemma_edge(c, b, EdgeKind::Unconditional, Some(t));
            lemma_turn(c, g, n, s, EdgeKind::Unconditional, Some(t));
        } else {
            let lhs = op->Br_lhs;
            let rhs = op->Br_rhs;
            lemma_sides(c, b, s.at, lhs, rhs);
            assert(stands_for(c.form.names, b, env, dst.0, lhs->Value_0));
            lemma_operand(c, b, s.at, env, m.regs, s.env, src, rhs);
            let yes = op->Br_true_target;
            let no = op->Br_false_target;
            lemma_edge(c, b, EdgeKind::BranchTrue, yes);
            lemma_edge(c, b, EdgeKind::BranchFalse, no);
            if jump_condition(jump, number_of(s.env, lhs), number_of(s.env, rhs), width) {
                lemma_turn(c, g, n, s, EdgeKind::BranchTrue, yes);
            } else {
                lemma_turn(c, g, n, s, EdgeKind::BranchFalse, no);
            }
        }
    }
}

/// The end of a block without a jump or an exit.
proof fn lemma_through(c: Built, g: Given, m: VmModel, s: SsaState)
    requires
        c.ok(),
        c.prog.strict(),
        c.tied(g, m, s),
        m.pc == c.end(s.block),
        !(c.insns[m.pc - 1] is Jump),
        !(c.insns[m.pc - 1] is Exit),
    ensures
        same_turn(c, g, m, c.prog.step(g, s)),
{
    lemma_facts(c);
    let b = s.block;
    lemma_full(c, b);
    let to = c.prog.behind(b);
    let out = crate::graph::out_edges(edges(c.insns), b);
    let all = c.prog.successors(b);
    lemma_open_end(c, b);
    assert(c.prog.step(g, s) == c.prog.go_to(s, to));
    let last = m.pc - 1;
    if m.pc < c.insns.len() {
        lemma_next_starts(c, b);
        lemma_starts_block(c, b, m.pc as int);
        let t = block_index(c.insns, m.pc as int);
        edges_mirror_control(c.insns, b, t, EdgeKind::Fallthrough);
        lemma_out_edges_all(edges(c.insns), b, t, EdgeKind::Fallthrough);
        lemma_through_only(c, b, out, 0);
        assert(out.len() > 0);
        assert(all.len() > 0 && all[0] == out[0].0);
        lemma_out_edges(edges(c.insns), b, 0);
        edges_mirror_control(c.insns, b, out[0].0, out[0].1);
        lemma_turn(c, g, m, s, EdgeKind::Fallthrough, to);
    } else {
        if out.len() > 0 {
            lemma_out_edges(edges(c.insns), b, 0);
            edges_mirror_control(c.insns, b, out[0].0, out[0].1);
        }
        assert(all.len() == 0);
    }
}

/// A block without a jump or an exit ends without a control instruction.
proof fn lemma_open_end(c: Built, b: usize)
    requires
        c.ok(),
        b < blocks(c.insns).len(),
        c.order.contains(b),
        !(c.insns[c.end(b) - 1] is Jump),
        !(c.insns[c.end(b) - 1] is Exit),
    ensures
        c.prog.terminator(b) is None,
{
    reveal(Built::ok);
    lemma_full(c, b);
    lemma_no_control(c, b, c.end(b));
    let node = c.prog.nodes[b as int];
    assert forall|i: int| node.start <= i < node.end implies !(#[trigger] c.prog.insns[i]).is_control() by {
        let j = i - node.start;
        if j < c.form.heads[b as int].len() {
            assert(c.prog.insns[node.start + j] == c.form.heads[b as int][j]);
            lemma_head_op(c, b, j);
        } else {
            let q = j - c.form.heads[b as int].len();
            assert(c.prog.insns[c.body_at(b) + q] == c.form.bodies[b as int][q]);
        }
    }
    lemma_none_found(c.prog, node.start as int, node.end as int);
}

proof fn lemma_none_found(prog: Prog, i: int, end: int)
    requires
        forall|k: int| i <= k < end ==> !(#[trigger] prog.insns[k]).is_control(),
    ensures
        prog.control_from(i, end) is None,
    decreases end - i,
{
    if i < end {
        lemma_none_found(prog, i + 1, end);
    }
}

/// The head of a block holds no control instruction.
pub proof fn lemma_head_op(c: Built, b: usize, j: int)
    requires
        c.ok(),
        b < blocks(c.insns).len(),
        c.order.contains(b),
        0 <= j < c.form.heads[b as int].len(),
    ensures
        !c.form.heads[b as int][j].is_control(),
        c.form.heads[b as int][j] is Phi || (b == 0 && j < 3 && c.form.heads[b as int][j] == prelude()[j]),
{
    reveal(Built::ok);
    let head = c.form.heads[b as int];
    assert(c.form.head_ok(c.insns, c.order, b));
    if b == 0 && j < 3 {
        assert(head.take(3)[j] == head[j]);
        assert(prelude()[j] == head[j]);
    } else {
        let k = j - base(b);
        assert(c.form.regs[b as int][k] < 11);
        assert(head[base(b) + k] is Phi);
    }
}

/// Only jumps and exits become control instructions.
proof fn lemma_no_control(c: Built, b: usize, pc: int)
    requires
        c.ok(),
        b < blocks(c.insns).len(),
        c.order.contains(b),
        c.first(b) <= pc <= c.end(b),
        pc == c.end(b) ==> !(c.insns[pc - 1] is Jump) && !(c.insns[pc - 1] is Exit),
    ensures
        forall|j: int|
            0 <= j < c.progress(b, pc).0 && j < c.form.bodies[b as int].len() ==> !(
            #[trigger] c.form.bodies[b as int][j]).is_control(),
    decreases pc,
{
    reveal(Built::ok);
    if pc > c.first(b) {
        lemma_no_control(c, b, pc - 1);
        lemma_block(c, b, pc - 1);
        let (k, env) = c.progress(b, pc - 1);
        lemma_full(c, b);
        if rendered(c.insns[pc - 1]) {
            assert(op_ok(edges(c.insns), c.form.names, b, env, c.insns[pc - 1], c.form.bodies[b as int][k]));
        }
    }
}

/// All edges of a block count as taken where it has no branch.
proof fn lemma_through_only(c: Built, b: usize, out: Seq<(usize, EdgeKind)>, i: nat)
    requires
        c.prog.terminator(b) is None,
    ensures
        c.prog.taken_edges(b, out, i).len() == (if i < out.len() {
            out.len() - i
        } else {
            0
        }),
        i < out.len() ==> c.prog.taken_edges(b, out, i)[0] == out[i as int].0,
    decreases out.len() - i,
{
    if i < out.len() {
        lemma_through_only(c, b, out, i + 1);
    }
}

/// An exit.
proof fn lemma_exit(c: Built, g: Given, m: VmModel, s: SsaState)
    requires
        c.ok(),
        c.prog.strict(),
        c.tied(g, m, s),
        m.pc < c.end(s.block),
        c.insns[m.pc as int] is Exit,
    ensures
        same_step(c, g, m, s),
{
    lemma_facts(c);
    let b = s.block;
    let pc = m.pc as int;
    let (k, env) = c.progress(b, pc);
    lemma_block(c, b, pc);
    lemma_full(c, b);
    lemma_progress(c, b, pc);
    let op = c.form.bodies[b as int][k];
    assert(op_ok(edges(c.insns), c.form.names, b, env, c.insns[pc], op));
    assert(c.prog.insns[s.at] == op);
    assert(m.code[pc] == lowered(c.insns, pc));
    assert(op.uses()[0] == op->Exit_r0);
    lemma_used(c, b, s.at, 0);
    assert(stands_for(c.form.names, b, env, 0, op->Exit_r0));
}

/// A reachable block holds no unknown instruction.
proof fn lemma_known(c: Built, b: usize, pc: int)
    requires
        c.ok(),
        b < blocks(c.insns).len(),
        c.order.contains(b),
        c.first(b) <= pc < c.end(b),
    ensures
        !(c.insns[pc] is Unknown),
{
    reveal(Built::ok);
    lemma_full(c, b);
    let (k, env) = c.progress(b, pc);
    if rendered(c.insns[pc]) {
        assert(op_ok(edges(c.insns), c.form.names, b, env, c.insns[pc], c.form.bodies[b as int][k]));
    }
}

/// Control out of the program ends the run of a machine.
proof fn lemma_out(c: Built, n: VmModel, fuel: nat, limit: usize)
    requires
        c.ok(),
        n.pc == c.insns.len(),
        n.code == loaded(c.insns),
    ensures
        ending_of(n.run(fuel, limit).1) matches Some(e) ==> e == Ending::FellOff && world_of(
            n.run(fuel, limit).0,
        ) == world_of(n),
{
    reveal(Built::ok);
    if fuel > 0 {
        assert(n.step().1 is Error);
    }
}

/// Behind a control transfer the SSA program ends as the machine does.
proof fn lemma_follow_turn(c: Built, g: Given, n: VmModel, s: SsaState, fuel: nat, limit: usize)
    requires
        c.ok(),
        c.prog.strict(),
        same_turn(c, g, n, c.prog.step(g, s)),
        world_of(n) == s.world,
    ensures
        ending_of(n.run(fuel, limit).1) matches Some(e) ==> c.prog.ends(
            g,
            s,
            (world_of(n.run(fuel, limit).0), e),
        ),
    decreases fuel, 1int,
{
    lemma_facts(c);
    match c.prog.step(g, s) {
        Ok(t) => {
            let u = SsaState { at: c.body_at(t.block), ..t };
            lemma_follow(c, g, n, u, fuel, limit);
            if let Some(e) = ending_of(n.run(fuel, limit).1) {
                let end = (world_of(n.run(fuel, limit).0), e);
                lemma_full(c, t.block);
                assert(SsaState { at: c.body_at(u.block), ..u } == u);
                lemma_head(c, g, u, 0, end);
                assert(SsaState { at: c.prog.nodes[u.block as int].start + 0, ..u } == t);
                lemma_ends_before(c.prog, g, s, end);
            }
        },
        Err(e) => {
            lemma_out(c, n, fuel, limit);
            lemma_ends_here(c.prog, g, s);
        },
    }
}

/// From a common point on, the SSA program ends as the machine does.
proof fn lemma_follow(c: Built, g: Given, m: VmModel, s: SsaState, fuel: nat, limit: usize)
    requires
        c.ok(),
        c.prog.strict(),
        c.tied(g, m, s),
    ensures
        ending_of(m.run(fuel, limit).1) matches Some(e) ==> c.prog.ends(
            g,
            s,
            (world_of(m.run(fuel, limit).0), e),
        ),
    decreases fuel, (if m.pc < c.end(s.block) {
        0int
    } else {
        2
    }),
{
    lemma_facts(c);
    let b = s.block;
    if ending_of(m.run(fuel, limit).1) is Some {
        let e = ending_of(m.run(fuel, limit).1)->0;
        let end = (world_of(m.run(fuel, limit).0), e);
        lemma_full(c, b);
        if m.pc == c.end(b) {
            lemma_through(c, g, m, s);
            lemma_follow_turn(c, g, m, s, fuel, limit);
        } else {
            let insn = c.insns[m.pc as int];
            let n = m.step().0;
            lemma_known(c, b, m.pc as int);
            if !rendered(insn) {
                lemma_idle(c, g, m, s);
                lemma_follow(c, g, n, s, (fuel - 1) as nat, limit);
            } else if insn is Jump {
                lemma_jump(c, g, m, s);
                lemma_follow_turn(c, g, n, s, (fuel - 1) as nat, limit);
            } else {
                if insn is Alu {
                    lemma_alu(c, g, m, s);
                } else if insn is Exit {
                    lemma_exit(c, g, m, s);
                } else {
                    lemma_plain(c, g, m, s);
                }
                if m.step().1 is Continue {
                    let t = c.prog.step(g, s)->Ok_0;
                    lemma_follow(c, g, n, t, (fuel - 1) as nat, limit);
                    lemma_ends_before(c.prog, g, s, end);
                } else {
                    lemma_ends_here(c.prog, g, s);
                }
            }
        }
    }
}

/// A machine before its first step: at the first instruction of a program,
/// with zeros in all registers but the context and the frame pointer.
pub open spec fn fresh(m: VmModel, insns: Seq<Insn>) -> bool {
    &&& m.pc == 0
    &&& m.code == loaded(insns)
    &&& m.regs.len() == 11
    &&& forall|r: int| 0 <= r < 10 && r != 1 ==> #[trigger] m.regs[r] == 0
}

/// What a machine hands to a program.
pub open spec fn given_by(m: VmModel) -> Given {
    Given { ctx: m.regs[1], frame: m.regs[10] }
}

/// Why a name stands for a register, and what phis of the entry say.
pub proof fn lemma_name(c: Built, b: usize, r: u8, v: SsaValue)
    requires
        c.ok(),
        c.form.names.contains((b, r, v)),
    ensures
        b < blocks(c.insns).len(),
        r < 11,
        c.form.belongs(r, v),
        c.form.may_stand(c.insns, c.order, b, r, v),
        c.form.has_phi(0, r, v) ==> entry_loop(c.insns),
{
    reveal(Built::ok);
}

/// At the start, values have the numbers of the registers.
proof fn lemma_start(c: Built, m: VmModel)
    requires
        c.ok(),
        c.prog.strict(),
        fresh(m, c.insns),
    ensures
        ({
            let s = c.prog.first_state(given_by(m), world_of(m));
            c.tied(given_by(m), m, SsaState { at: c.body_at(0), ..s })
        }),
{
    lemma_facts(c);
    let g = given_by(m);
    let s = c.prog.first_state(g, world_of(m));
    let first = c.prog.first_values(g);
    lemma_entry_values(c);
    lemma_full(c, 0);
    blocks_partition_program(c.insns);
    lemma_progress(c, 0, 0);
    assert forall|v: SsaValue| v.0 < 3 implies #[trigger] (s.env)(v) == first(v) by {
        assert(c.prog.phi_for(0, v) is None);
    }
    assert((s.env)(SsaValue(0)) == 0);
    assert((s.env)(SsaValue(1)) == g.frame);
    assert((s.env)(SsaValue(2)) == g.ctx);
    let t: Seq<usize> = seq![0usize];
    assert(c.prog.is_trace(t) && t.last() == 0);
    assert(c.prog.reaches(0));
    assert forall|r: u8, v: SsaValue|
        r < 11 && #[trigger] stands_for(c.form.names, 0, no_versions(), r, v) && c.ready(0, c.body_at(0), v) implies (s.env)(
        v,
    ) == m.regs[r as int] by {
        assert(no_versions()[r as int] is None);
        assert(c.form.names.contains((0, r, v)));
        lemma_name(c, 0, r, v);
        assert(first(entry_version(r)) == m.regs[r as int]);
        if c.prog.phi_for(0, v) is Some {
            lemma_phi_back(c, 0, v);
            let q = choose|q: u8|
                q < 11 && v.0 >= 3 && c.form.belongs(q, v) && #[trigger] c.form.has_phi(0, q, v);
            lemma_one_owner(c, r, q, v);
            lemma_phi_for(c, 0, r, v);
            let inputs = c.prog.phi_for(0, v)->0;
            assert(entry_loop(c.insns));
            let from = starts(c.insns, 0, r);
            assert(inputs.take(1)[0] == inputs[0]);
            assert(from[0] == (START_PRED, entry_version(r)));
            assert(taken_from(inputs, START_PRED, 0) == Some(entry_version(r)));
        } else {
            assert(!c.prog.passes(t, v));
            let j = c.prog.site(v);
            assert(c.prog.insns[c.prog.nodes[0].start + j] == c.form.heads[0][j]);
            lemma_head_op(c, 0, j);
            lemma_prelude(c);
            assert(v.0 < 3);
            assert(v == entry_version(r));
        }
    }
    assert(c.progress(0, 0).1 == no_versions());
}

/// An SSA program of a program ends as the program does: with the same exit
/// code or the same fault, and with the same memory and maps.
///
/// Byte swaps must take their widths from immediates, as those of every
/// decoded program do.
pub proof fn ssa_runs_as_program(
    insns: Seq<Insn>,
    cfg: &Cfg,
    prog: Prog,
    m: VmModel,
    fuel: nat,
    limit: usize,
)
    requires
        insns.len() > 0,
        cfg.describes(insns),
        forall|i: int| 0 <= i < insns.len() ==> (#[trigger] insns[i]).valid(),
        prog.wf(),
        prog.is_ssa_of(insns, cfg.order()),
        swaps_by_immediate(insns),
        fresh(m, insns),
    ensures
        ending_of(m.run(fuel, limit).1) matches Some(e) ==> prog.ends_with(
            given_by(m),
            world_of(m),
            (world_of(m.run(fuel, limit).0), e),
        ),
{
    reveal(Built::ok);
    built_programs_are_strict(insns, cfg, prog);
    let form = choose|form: Form| #[trigger] prog.renders(insns, cfg.order(), form);
    let c = Built { insns, order: cfg.order(), form, prog };
    lemma_slot_bounds(insns, insns.len());
    assert(c.ok());
    let g = given_by(m);
    let s = prog.first_state(g, world_of(m));
    let u = SsaState { at: c.body_at(0), ..s };
    lemma_start(c, m);
    lemma_follow(c, g, m, u, fuel, limit);
    if let Some(e) = ending_of(m.run(fuel, limit).1) {
        let end = (world_of(m.run(fuel, limit).0), e);
        lemma_head(c, g, u, 0, end);
        assert(SsaState { at: prog.nodes[u.block as int].start + 0, ..u } == s);
    }
}

/// A run passes the head of a block.
proof fn lemma_head_back(c: Built, g: Given, s: SsaState, j: int, fuel: nat, end: (World, Ending)) -> (left: nat)
    requires
        c.ok(),
        s.block < blocks(c.insns).len(),
        c.order.contains(s.block),
        c.rooted(g, s.env),
        0 <= j <= c.form.heads[s.block as int].len(),
        c.prog.run(g, SsaState { at: c.prog.nodes[s.block as int].start + j, ..s }, fuel) == Some(end),
    ensures
        left <= fuel,
        c.prog.run(g, SsaState { at: c.body_at(s.block), ..s }, left) == Some(end),
    decreases c.form.heads[s.block as int].len() - j,
{
    lemma_facts(c);
    let b = s.block;
    let head = c.form.heads[b as int];
    if j < head.len() {
        lemma_full(c, b);
        let here = SsaState { at: c.prog.nodes[b as int].start + j, ..s };
        assert(c.prog.insns[here.at] == head[j]);
        lemma_head_op(c, b, j);
        if !(head[j] is Phi) {
            lemma_prelude(c);
            assert(with_value(s.env, SsaValue(0), 0) =~= s.env);
            assert(with_value(s.env, SsaValue(1), g.frame) =~= s.env);
            assert(with_value(s.env, SsaValue(2), g.ctx) =~= s.env);
        }
        assert(c.prog.step(g, here) == Ok::<SsaState, Ending>(
            SsaState { at: c.prog.nodes[b as int].start + j + 1, ..s },
        ));
        lemma_head_back(c, g, s, j + 1, (fuel - 1) as nat, end)
    } else {
        fuel
    }
}

/// Behind a control transfer the machine ends as the SSA program does.
proof fn lemma_back_turn(c: Built, g: Given, n: VmModel, s: SsaState, fuel: nat, limit: usize, end: (World, Ending))
    requires
        c.ok(),
        c.prog.strict(),
        same_turn(c, g, n, c.prog.step(g, s)),
        world_of(n) == s.world,
        c.prog.run(g, s, fuel) == Some(end),
    ensures
        machine_ends(n, limit, end),
    decreases fuel, 0int,
{
    lemma_facts(c);
    match c.prog.step(g, s) {
        Ok(t) => {
            let u = SsaState { at: c.body_at(t.block), ..t };
            assert(SsaState { at: c.prog.nodes[u.block as int].start + 0, ..u } == t);
            let left = lemma_head_back(c, g, u, 0, (fuel - 1) as nat, end);
            assert(SsaState { at: c.body_at(u.block), ..u } == u);
            lemma_back(c, g, n, u, left, limit, end);
        },
        Err(e) => {
            reveal(Built::ok);
            assert(n.step().1 is Error);
            lemma_ends_now(n, limit);
        },
    }
}

/// The machine ends as the SSA program does.
proof fn lemma_back(c: Built, g: Given, m: VmModel, s: SsaState, fuel: nat, limit: usize, end: (World, Ending))
    requires
        c.ok(),
        c.prog.strict(),
        c.tied(g, m, s),
        c.prog.run(g, s, fuel) == Some(end),
    ensures
        machine_ends(m, limit, end),
    decreases fuel, c.end(s.block) - m.pc + 1,
{
    lemma_facts(c);
    let b = s.block;
    lemma_full(c, b);
    if m.pc == c.end(b) {
        lemma_through(c, g, m, s);
        lemma_back_turn(c, g, m, s, fuel, limit, end);
    } else {
        let insn = c.insns[m.pc as int];
        let n = m.step().0;
        lemma_known(c, b, m.pc as int);
        if !rendered(insn) {
            lemma_idle(c, g, m, s);
            lemma_comes_step(m);
            assert(n.pc == m.pc + 1) by {
                lemma_block(c, b, m.pc as int);
                assert(c.insns[m.pc as int].valid());
                assert(m.code[m.pc as int] == lowered(c.insns, m.pc as int));
            }
            lemma_back(c, g, n, s, fuel, limit, end);
            lemma_comes_end(m, n, limit, end);
        } else if insn is Jump {
            lemma_jump(c, g, m, s);
            lemma_comes_step(m);
            lemma_back_turn(c, g, n, s, fuel, limit, end);
            lemma_comes_end(m, n, limit, end);
        } else {
            if insn is Alu {
                lemma_alu(c, g, m, s);
            } else if insn is Exit {
                lemma_exit(c, g, m, s);
            } else {
                lemma_plain(c, g, m, s);
            }
            if m.step().1 is Continue {
                let t = c.prog.step(g, s)->Ok_0;
                lemma_comes_step(m);
                lemma_back(c, g, n, t, (fuel - 1) as nat, limit, end);
                lemma_comes_end(m, n, limit, end);
            } else {
                lemma_ends_now(m, limit);
            }
        }
    }
}

/// A program ends as an SSA program of it does. So where the program never
/// ends, neither does the SSA program.
///
/// Byte swaps must take their widths from immediates, as those of every
/// decoded program do.
pub proof fn program_runs_as_ssa(
    insns: Seq<Insn>,
    cfg: &Cfg,
    prog: Prog,
    m: VmModel,
    limit: usize,
    end: (World, Ending),
)
    requires
        insns.len() > 0,
        cfg.describes(insns),
        forall|i: int| 0 <= i < insns.len() ==> (#[trigger] insns[i]).valid(),
        prog.wf(),
        prog.is_ssa_of(insns, cfg.order()),
        swaps_by_immediate(insns),
        fresh(m, insns),
        prog.ends_with(given_by(m), world_of(m), end),
    ensures
        machine_ends(m, limit, end),
{
    reveal(Built::ok);
    built_programs_are_strict(insns, cfg, prog);
    let form = choose|form: Form| #[trigger] prog.renders(insns, cfg.order(), form);
    let c = Built { insns, order: cfg.order(), form, prog };
    lemma_slot_bounds(insns, insns.len());
    assert(c.ok());
    let g = given_by(m);
    let s = prog.first_state(g, world_of(m));
    let u = SsaState { at: c.body_at(0), ..s };
    lemma_start(c, m);
    let fuel = choose|fuel: nat| #[trigger] prog.run(g, s, fuel) == Some(end);
    assert(SsaState { at: prog.nodes[u.block as int].start + 0, ..u } == s);
    let left = lemma_head_back(c, g, u, 0, fuel, end);
    assert(SsaState { at: c.body_at(u.block), ..u } == u);
    lemma_back(c, g, m, u, left, limit, end);
}

} // verus!
