//! Control flow between SSA blocks: terminators, successors, reachability.
use vstd::prelude::*;

use crate::cfg::EdgeKind;
use crate::graph::{lemma_out_edges, out_edges, ssa_block, ssa_node_count, ssa_out_edges};
use crate::isa::insn::JumpOp;
use crate::ssa::{Op, Prog, SsaInsn, SsaProgram};

verus! {

impl Prog {
    /// The first instruction from `i` to `end` that ends its block.
    pub open spec fn control_from(self, i: int, end: int) -> Option<Op>
        decreases end - i,
    {
        if i >= end {
            None
        } else if self.insns[i].is_control() {
            Some(self.insns[i])
        } else {
            self.control_from(i + 1, end)
        }
    }

    /// The instruction that ends a block.
    pub open spec fn terminator(self, block: usize) -> Option<Op> {
        let b = self.nodes[block as int];
        self.control_from(b.start as int, b.end as int)
    }

    /// Whether the branch of a block is never taken: its condition is the
    /// call or exit nibble, which no comparison satisfies.
    pub open spec fn never_taken(self, block: usize) -> bool {
        self.terminator(block) matches Some(Op::Br { op, .. }) && (op == JumpOp::Call || op
            == JumpOp::Exit)
    }

    /// The targets of the edges from `i` on that control can follow.
    pub open spec fn taken_edges(self, block: usize, out: Seq<(usize, EdgeKind)>, i: nat) -> Seq<usize>
        decreases out.len() - i,
    {
        if i >= out.len() {
            Seq::empty()
        } else {
            let (target, kind) = out[i as int];
            let rest = self.taken_edges(block, out, i + 1);
            if self.never_taken(block) && kind == EdgeKind::BranchTrue {
                rest
            } else {
                seq![target] + rest
            }
        }
    }

    /// The blocks that control can reach from a block in one step.
    pub open spec fn successors(self, block: usize) -> Seq<usize> {
        self.taken_edges(block, out_edges(self.edges, block), 0)
    }

    /// Whether a sequence of blocks starts at the entry and follows control.
    pub open spec fn is_trace(self, p: Seq<usize>) -> bool {
        &&& p.len() > 0
        &&& p[0] == self.entry
        &&& forall|i: int| 0 <= i < p.len() - 1 ==> self.successors(#[trigger] p[i]).contains(p[i + 1])
    }

    /// Whether control can reach a block from the entry.
    pub open spec fn reaches(self, block: usize) -> bool {
        exists|p: Seq<usize>| #[trigger] self.is_trace(p) && p.last() == block
    }
}

/// Finds the instruction that ends a block.
pub fn terminator(prog: &SsaProgram, block: usize) -> (r: Option<&SsaInsn>)
    requires
        prog@.wf(),
        block < prog@.nodes.len(),
    ensures
        match r {
            Some(insn) => prog@.terminator(block) == Some(insn@),
            None => prog@.terminator(block) is None,
        },
{
    let bb = ssa_block(&prog.graph, block);
    assert(bb.end <= prog@.insns.len()) by {
        if block < prog@.nodes.len() - 1 {
            assert(prog@.nodes[block as int].end <= prog@.nodes[prog@.nodes.len() - 1].start);
        }
    }
    let mut i: usize = bb.start;
    while i < bb.end
        invariant
            bb.start <= i,
            i <= bb.end || i == bb.start,
            bb.end <= prog@.insns.len(),
            bb == prog@.nodes[block as int],
            prog@.terminator(block) == prog@.control_from(i as int, bb.end as int),
        decreases bb.end - i,
    {
        assert(prog@.insns[i as int] == prog.insns@[i as int]@);
        if prog.insns[i].is_control() {
            return Some(&prog.insns[i]);
        }
        i = i + 1;
    }
    None
}

/// The targets of followed edges are blocks.
pub proof fn lemma_successors_below(prog: Prog, block: usize)
    requires
        prog.wf(),
    ensures
        forall|i: int|
            0 <= i < prog.successors(block).len() ==> #[trigger] prog.successors(block)[i]
                < prog.nodes.len(),
{
    lemma_taken_below(prog, block, out_edges(prog.edges, block), 0);
}

proof fn lemma_taken_below(prog: Prog, block: usize, out: Seq<(usize, EdgeKind)>, i: nat)
    requires
        prog.wf(),
        out == out_edges(prog.edges, block),
    ensures
        forall|k: int|
            0 <= k < prog.taken_edges(block, out, i).len() ==> #[trigger] prog.taken_edges(
                block,
                out,
                i,
            )[k] < prog.nodes.len(),
    decreases out.len() - i,
{
    if i < out.len() {
        lemma_taken_below(prog, block, out, i + 1);
        lemma_out_edges(prog.edges, block, i as int);
        let e = (block, out[i as int].0, out[i as int].1);
        let k = choose|k: int| 0 <= k < prog.edges.len() && prog.edges[k] == e;
        assert(prog.edges[k].1 < prog.nodes.len());
        let rest = prog.taken_edges(block, out, i + 1);
        let whole = prog.taken_edges(block, out, i);
        assert forall|k: int| 0 <= k < whole.len() implies #[trigger] whole[k] < prog.nodes.len() by {
            if whole.len() == rest.len() {
                assert(whole[k] == rest[k]);
            } else if k > 0 {
                assert(whole[k] == rest[k - 1]);
            }
        }
    }
}

/// The blocks that control can reach from a block in one step: the targets
/// of its edges, without the taken edge of a branch that is never taken.
pub fn live_successors(prog: &SsaProgram, block: usize) -> (r: Vec<usize>)
    requires
        prog@.wf(),
        block < prog@.nodes.len(),
    ensures
        r@ == prog@.successors(block),
        forall|i: int| 0 <= i < r@.len() ==> #[trigger] r@[i] < prog@.nodes.len(),
{
    let dead_taken = match terminator(prog, block) {
        Some(SsaInsn::Br { op, .. }) => matches!(*op, JumpOp::Call | JumpOp::Exit),
        _ => false,
    };
    let edges = ssa_out_edges(&prog.graph, block);
    let mut out: Vec<usize> = Vec::new();
    let mut i: usize = 0;
    assert(out@ + prog@.successors(block) =~= prog@.successors(block));
    while i < edges.len()
        invariant
            i <= edges@.len(),
            dead_taken == prog@.never_taken(block),
            prog@.successors(block) == out@ + prog@.taken_edges(block, edges@, i as nat),
        decreases edges@.len() - i,
    {
        let (target, kind) = edges[i];
        if !(dead_taken && kind == EdgeKind::BranchTrue) {
            let ghost before = out@;
            out.push(target);
            proof {
                let rest = prog@.taken_edges(block, edges@, (i + 1) as nat);
                assert(before + (seq![target] + rest) =~= out@ + rest);
            }
        }
        i = i + 1;
    }
    proof {
        assert(out@ + Seq::<usize>::empty() =~= out@);
        lemma_successors_below(prog@, block);
    }
    out
}

/// The number of marks that are not set among the first `n`.
pub open spec fn unset(marks: Seq<bool>, n: nat) -> nat
    decreases n,
{
    if n == 0 {
        0
    } else {
        unset(marks, (n - 1) as nat) + (if marks[n - 1] {
            0nat
        } else {
            1
        })
    }
}

/// Setting a mark lowers the number of marks that are not set.
pub proof fn lemma_unset_update(marks: Seq<bool>, n: nat, i: int)
    requires
        0 <= i < n <= marks.len(),
        !marks[i],
    ensures
        unset(marks.update(i, true), n) == unset(marks, n) - 1,
    decreases n,
{
    if i < n - 1 {
        lemma_unset_update(marks, (n - 1) as nat, i);
    } else {
        lemma_unset_same(marks, marks.update(i, true), (n - 1) as nat);
    }
}

proof fn lemma_unset_same(a: Seq<bool>, b: Seq<bool>, n: nat)
    requires
        n <= a.len(),
        n <= b.len(),
        forall|k: int| 0 <= k < n ==> a[k] == b[k],
    ensures
        unset(a, n) == unset(b, n),
    decreases n,
{
    if n > 0 {
        lemma_unset_same(a, b, (n - 1) as nat);
    }
}

/// A set of blocks that holds the entry and is closed under control holds
/// every block that control reaches.
proof fn lemma_closed_holds(prog: Prog, marks: Seq<bool>, p: Seq<usize>)
    requires
        prog.wf(),
        marks.len() == prog.nodes.len(),
        marks[prog.entry as int],
        forall|a: usize, k: int|
            a < marks.len() && marks[a as int] && 0 <= k < prog.successors(a).len()
                ==> marks[#[trigger] prog.successors(a)[k] as int],
        prog.is_trace(p),
    ensures
        p.last() < marks.len(),
        marks[p.last() as int],
    decreases p.len(),
{
    if p.len() > 1 {
        let q = p.drop_last();
        assert(prog.is_trace(q)) by {
            assert forall|i: int| 0 <= i < q.len() - 1 implies prog.successors(
                #[trigger] q[i],
            ).contains(q[i + 1]) by {
                assert(prog.successors(p[i]).contains(p[i + 1]));
            }
        }
        lemma_closed_holds(prog, marks, q);
        let a = p[p.len() - 2];
        assert(q.last() == a);
        assert(prog.successors(a).contains(p[p.len() - 2 + 1]));
        let k = prog.successors(a).index_of(p.last());
        lemma_successors_below(prog, a);
        assert(prog.successors(a)[k] == p.last());
    }
}

/// A successor of a reached block is reached.
proof fn lemma_reach_step(prog: Prog, a: usize, b: usize)
    requires
        prog.reaches(a),
        prog.successors(a).contains(b),
    ensures
        prog.reaches(b),
{
    let p = choose|p: Seq<usize>| #[trigger] prog.is_trace(p) && p.last() == a;
    let q = p.push(b);
    assert(prog.is_trace(q)) by {
        assert forall|i: int| 0 <= i < q.len() - 1 implies prog.successors(#[trigger] q[i]).contains(
            q[i + 1],
        ) by {
            if i < p.len() - 1 {
                assert(prog.successors(p[i]).contains(p[i + 1]));
            }
        }
    }
    assert(q.last() == b);
}

/// Which blocks control can reach from the entry.
pub fn liveness(prog: &SsaProgram) -> (r: Vec<bool>)
    requires
        prog@.wf(),
    ensures
        r@.len() == prog@.nodes.len(),
        forall|b: usize| b < r@.len() ==> #[trigger] r@[b as int] == prog@.reaches(b),
{
    let n: usize = ssa_node_count(&prog.graph);
    let mut marks: Vec<bool> = Vec::with_capacity(n);
    while marks.len() < n
        invariant
            marks@.len() <= n,
            forall|k: int| 0 <= k < marks@.len() ==> !#[trigger] marks@[k],
        decreases n - marks@.len(),
    {
        marks.push(false);
    }
    let mut stack: Vec<usize> = Vec::new();
    marks.set(prog.entry, true);
    stack.push(prog.entry);
    proof {
        let p = seq![prog@.entry];
        assert(prog@.is_trace(p));
        assert(p.last() == prog@.entry);
        assert(stack@[0] == prog@.entry);
    }
    while stack.len() > 0
        invariant
            prog@.wf(),
            n == prog@.nodes.len(),
            marks@.len() == n,
            marks@[prog@.entry as int],
            forall|b: usize| b < n && #[trigger] marks@[b as int] ==> prog@.reaches(b),
            forall|i: int|
                0 <= i < stack@.len() ==> #[trigger] stack@[i] < n && marks@[stack@[i] as int],
            forall|a: usize, k: int|
                a < n && marks@[a as int] && !stack@.contains(a) && 0 <= k < prog@.successors(
                    a,
                ).len() ==> marks@[#[trigger] prog@.successors(a)[k] as int],
        decreases unset(marks@, n as nat), stack@.len(),
    {
        let ghost stack0 = stack@;
        let ghost marks0 = marks@;
        let block: usize = match stack.pop() {
            Some(b) => b,
            None => 0,
        };
        assert(stack0.last() == block);
        let succs = live_successors(prog, block);
        let mut i: usize = 0;
        assert forall|a: usize| stack0.contains(a) && a != block implies #[trigger] stack@.contains(
            a,
        ) by {
            let k = stack0.index_of(a);
            assert(stack@[k] == a);
        }
        while i < succs.len()
            invariant
                i <= succs@.len(),
                prog@.wf(),
                n == prog@.nodes.len(),
                block < n,
                marks0.len() == n,
                marks@.len() == n,
                marks0[block as int],
                succs@ == prog@.successors(block),
                forall|k: int| 0 <= k < succs@.len() ==> #[trigger] succs@[k] < n,
                forall|b: usize| b < n && #[trigger] marks@[b as int] ==> prog@.reaches(b),
                forall|b: int| 0 <= b < n && #[trigger] marks0[b] ==> marks@[b],
                forall|k: int|
                    0 <= k < stack@.len() ==> #[trigger] stack@[k] < n && marks@[stack@[k] as int],
                forall|b: usize|
                    b < n && #[trigger] marks@[b as int] && !marks0[b as int] ==> stack@.contains(b),
                forall|a: usize|
                    stack0.contains(a) && a != block ==> #[trigger] stack@.contains(a),
                forall|k: int| 0 <= k < i ==> marks@[#[trigger] succs@[k] as int],
                unset(marks@, n as nat) <= unset(marks0, n as nat),
                unset(marks@, n as nat) == unset(marks0, n as nat) ==> stack@.len()
                    == stack0.len() - 1,
            decreases succs@.len() - i,
        {
            let succ: usize = succs[i];
            if !marks[succ] {
                proof {
                    assert(prog@.successors(block).contains(succ));
                    lemma_reach_step(prog@, block, succ);
                    lemma_unset_update(marks@, n as nat, succ as int);
                }
                let ghost before = stack@;
                marks.set(succ, true);
                stack.push(succ);
                assert forall|b: usize| #[trigger] stack@.contains(b) == (before.contains(b) || b
                    == succ) by {
                    if before.contains(b) {
                        let k = before.index_of(b);
                        assert(stack@[k] == b);
                    }
                    if b == succ {
                        assert(stack@[before.len() as int] == b);
                    }
                }
            }
            i = i + 1;
        }
        proof {
            assert forall|a: usize, k: int|
                a < n && marks@[a as int] && !stack@.contains(a) && 0 <= k < prog@.successors(
                    a,
                ).len() implies marks@[#[trigger] prog@.successors(a)[k] as int] by {
                if a != block {
                    assert(marks0[a as int]);
                    assert(!stack0.contains(a));
                    lemma_successors_below(prog@, a);
                }
            }
        }
    }
    proof {
        assert forall|b: usize| b < n implies #[trigger] marks@[b as int] == prog@.reaches(b) by {
            if prog@.reaches(b) {
                let p = choose|p: Seq<usize>| #[trigger] prog@.is_trace(p) && p.last() == b;
                assert forall|a: usize, k: int|
                    a < marks@.len() && marks@[a as int] && 0 <= k < prog@.successors(
                        a,
                    ).len() implies marks@[#[trigger] prog@.successors(a)[k] as int] by {
                    assert(!stack@.contains(a));
                }
                lemma_closed_holds(prog@, marks@, p);
            }
        }
    }
    marks
}

} // verus!
