//! How far live ranges go: over every use, and no further than they must.
use vstd::prelude::*;

use crate::graph::{has_edge, is_path};
use crate::ssa::ranges::lemma_uses_inside;
use crate::ssa::{live_at, Op, Prog};

verus! {

proof fn lemma_uses(prog: Prog, id: int, k: nat, e: int)
    requires
        prog.wf(),
        0 <= id < prog.sites.len(),
        k <= prog.uses_from(0).len(),
    ensures
        prog.sites[id] <= prog.end_by_uses(id, k),
        prog.sites[id] <= e && (forall|m: int|
            0 <= m < k && (#[trigger] prog.uses_from(0)[m]).1.0 == id ==> prog.sites[id] <= prog.uses_from(0)[m].0 < e
                && !prog.in_cycle(prog.uses_from(0)[m].0 as int)) ==> prog.end_by_uses(id, k) <= e,
        forall|m: int|
            0 <= m < k && (#[trigger] prog.uses_from(0)[m]).1.0 == id ==> prog.use_end(
                prog.uses_from(0)[m].0,
                prog.sites[id],
            ) <= prog.end_by_uses(id, k),
    decreases k,
{
    if k > 0 {
        lemma_uses(prog, id, (k - 1) as nat, e);
        lemma_uses_inside(prog, 0);
        let u = prog.uses_from(0)[k - 1];
        assert(u.0 <= prog.insns.len());
    }
}

proof fn lemma_starts(prog: Prog, id: int, k: nat, e: int)
    requires
        prog.wf(),
        k <= prog.starts_from(0).len(),
    ensures
        prog.end_by_uses(id, prog.uses_from(0).len()) <= prog.end_by_starts(id, k),
        prog.end_by_uses(id, prog.uses_from(0).len()) <= e && (forall|m: int|
            0 <= m < k && (#[trigger] prog.starts_from(0)[m]).1.0 == id ==> prog.sites[id] <= prog.starts_from(0)[m].0
                <= e && !prog.in_cycle(prog.starts_from(0)[m].0 as int)) ==> prog.end_by_starts(id, k) <= e,
    decreases k,
{
    if k > 0 {
        lemma_starts(prog, id, (k - 1) as nat, e);
    }
}

proof fn lemma_backs(prog: Prog, id: int, k: nat, e: int)
    requires
        prog.wf(),
        k <= prog.nodes.len(),
    ensures
        prog.end_by_starts(id, prog.starts_from(0).len()) <= prog.end_by_backs(id, k),
        prog.end_by_starts(id, prog.starts_from(0).len()) <= e && (forall|b: usize|
            b < k ==> !#[trigger] prog.crosses(b, id)) ==> prog.end_by_backs(id, k) <= e,
        forall|b: usize| b < k && #[trigger] prog.crosses(b, id) ==> prog.nodes[b as int].end < prog.end_by_backs(id, k),
    decreases k,
{
    if k > 0 {
        lemma_backs(prog, id, (k - 1) as nat, e);
        let b = (k - 1) as usize;
        assert(prog.nodes[b as int].end <= prog.insns.len()) by {
            if b < prog.nodes.len() - 1 {
                assert(prog.nodes[b as int].end <= prog.nodes[prog.nodes.len() - 1].start);
            }
        }
    }
}

/// The range of a value starts with its definition and goes over every use
/// behind it. It goes to the end of the program where a use lies on a cycle or
/// before the definition, and over the end of every block from which control
/// jumps back while the value is live.
pub proof fn ranges_cover_uses(prog: Prog, id: int, m: int, b: usize)
    requires
        prog.wf(),
        0 <= id < prog.sites.len(),
    ensures
        prog.range_of(id).0 == prog.sites[id],
        prog.range_of(id).0 <= prog.range_of(id).1,
        0 <= m < prog.uses_from(0).len() && prog.uses_from(0)[m].1.0 == id ==> {
            let pos = prog.uses_from(0)[m].0;
            if prog.in_cycle(pos as int) || pos < prog.sites[id] {
                prog.insns.len() <= prog.range_of(id).1
            } else {
                pos < prog.range_of(id).1
            }
        },
        b < prog.nodes.len() && prog.crosses(b, id) ==> prog.nodes[b as int].end < prog.range_of(id).1,
{
    lemma_uses(prog, id, prog.uses_from(0).len(), 0);
    lemma_starts(prog, id, prog.starts_from(0).len(), 0);
    lemma_backs(prog, id, prog.nodes.len(), 0);
    lemma_uses_inside(prog, 0);
    if 0 <= m < prog.uses_from(0).len() {
        assert(prog.uses_from(0)[m].0 <= prog.insns.len());
    }
}

/// The range of a value ends with its last use, where no use lies on a cycle
/// and control does not jump back while the value is live.
pub proof fn ranges_end_with_the_last_use(prog: Prog, id: int, e: int)
    requires
        prog.wf(),
        0 <= id < prog.sites.len(),
        prog.sites[id] <= e,
        forall|m: int|
            0 <= m < prog.uses_from(0).len() && (#[trigger] prog.uses_from(0)[m]).1.0 == id ==> prog.sites[id]
                <= prog.uses_from(0)[m].0 < e && !prog.in_cycle(prog.uses_from(0)[m].0 as int),
        forall|m: int|
            0 <= m < prog.starts_from(0).len() && (#[trigger] prog.starts_from(0)[m]).1.0 == id ==> prog.sites[id]
                <= prog.starts_from(0)[m].0 <= e && !prog.in_cycle(prog.starts_from(0)[m].0 as int),
        forall|b: usize| b < prog.nodes.len() ==> !#[trigger] prog.crosses(b, id),
    ensures
        prog.range_of(id).1 <= e,
{
    lemma_uses(prog, id, prog.uses_from(0).len(), e);
    lemma_starts(prog, id, prog.starts_from(0).len(), e);
    lemma_backs(prog, id, prog.nodes.len(), e);
}

/// A value is live across a jump back where a way leads from there to a use,
/// past no block that defines it. The use of a phi lies in its predecessor.
pub proof fn ways_back_to_uses_cross(prog: Prog, p: usize, t: Seq<usize>, id: int, i: int, k: int)
    requires
        p < prog.nodes.len(),
        prog.nodes[p as int].live,
        is_path(prog.edges, t),
        t[0] <= p,
        has_edge(prog.edges, p, t[0]),
        forall|b: int|
            0 <= b < t.len() ==> !(prog.nodes[(#[trigger] t[b]) as int].start <= prog.sites[id]
                < prog.nodes[t[b] as int].end),
        t.last() < prog.nodes.len(),
        prog.nodes[t.last() as int].live,
        0 <= i < prog.insns.len(),
        live_at(prog.nodes, i),
        match prog.insns[i] {
            Op::Phi { inputs, .. } => 0 <= k < inputs.len() && inputs[k].0 == t.last() && inputs[k].1.0 == id,
            op => prog.nodes[t.last() as int].start <= i < prog.nodes[t.last() as int].end && 0 <= k < op.uses().len()
                && op.uses()[k].0 == id,
        },
    ensures
        prog.crosses(p, id),
        0 <= id < prog.sites.len() && prog.wf() ==> prog.nodes[p as int].end < prog.range_of(id).1,
{
    assert(prog.reads(t.last(), i, id)) by {
        match prog.insns[i] {
            Op::Phi { inputs, .. } => {
                assert(inputs[k].0 == t.last());
            },
            op => {
                assert(op.uses()[k].0 == id);
            },
        }
    }
    assert(prog.read_by(t.last(), id, prog.insns.len() as int));
    assert(prog.leads(t, id));
    assert(prog.live_into(t[0], id));
    if 0 <= id < prog.sites.len() && prog.wf() {
        ranges_cover_uses(prog, id, 0, p);
    }
}

} // verus!
