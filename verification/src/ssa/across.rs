//! Values that are live across jumps back.
//!
//! A value is live into a block where a way leads from there to a read of it
//! without passing its definition.
use vstd::prelude::*;

use crate::graph::{
    has_edge, is_path, lemma_out_edges, out_edges, ssa_block, ssa_node_count, ssa_out_edges,
};
use crate::ssa::construct::lemma_out_edges_all;
use crate::ssa::flow::{lemma_unset_update, unset};
use crate::ssa::{live_at, live_mask, Op, Prog, SsaInsn, SsaProgram, SsaValue};

verus! {

impl Prog {
    /// Whether an instruction of a live block reads a value in block `b`. A
    /// phi reads its inputs in the predecessors.
    pub open spec fn reads(self, b: usize, i: int, id: int) -> bool {
        live_at(self.nodes, i) && match self.insns[i] {
            Op::Phi { inputs, .. } => paired(inputs, b, id),
            op => self.within(b, i) && exists|k: int|
                0 <= k < op.uses().len() && (#[trigger] op.uses()[k]).0 == id,
        }
    }

    /// Whether one of the first `n` instructions reads a value in a block.
    pub open spec fn read_by(self, b: usize, id: int, n: int) -> bool {
        exists|i: int| 0 <= i < n && #[trigger] self.reads(b, i, id)
    }

    /// Whether a value is read in a live block.
    pub open spec fn read_in(self, b: usize, id: int) -> bool {
        b < self.nodes.len() && self.nodes[b as int].live && self.read_by(b, id, self.insns.len() as int)
    }

    /// Whether a block holds the definition of a value.
    pub open spec fn holds_def(self, b: usize, id: int) -> bool {
        self.within(b, self.sites[id] as int)
    }

    /// Whether a way leads to a read of a value without passing its
    /// definition.
    pub open spec fn leads(self, t: Seq<usize>, id: int) -> bool {
        &&& is_path(self.edges, t)
        &&& forall|k: int| 0 <= k < t.len() ==> !self.holds_def(#[trigger] t[k], id)
        &&& self.read_in(t.last(), id)
    }

    /// Whether a value is live into a block.
    pub open spec fn live_into(self, b: usize, id: int) -> bool {
        exists|t: Seq<usize>| #[trigger] self.leads(t, id) && t[0] == b
    }

    /// Whether a value is live across a jump back from a live block.
    pub open spec fn crosses(self, p: usize, id: int) -> bool {
        &&& p < self.nodes.len()
        &&& self.nodes[p as int].live
        &&& exists|q: usize| q <= p && #[trigger] has_edge(self.edges, p, q) && self.live_into(q, id)
    }
}

/// Whether a list holds a block with a value.
pub open spec fn paired(list: Seq<(usize, SsaValue)>, b: usize, id: int) -> bool {
    exists|k: int| 0 <= k < list.len() && (#[trigger] list[k]).0 == b && list[k].1.0 == id
}

proof fn lemma_paired_both(a: Seq<(usize, SsaValue)>, c: Seq<(usize, SsaValue)>, b: usize, id: int)
    ensures
        paired(a + c, b, id) <==> paired(a, b, id) || paired(c, b, id),
{
    let all = a + c;
    if paired(all, b, id) {
        let k = choose|k: int| 0 <= k < all.len() && (#[trigger] all[k]).0 == b && all[k].1.0 == id;
        if k < a.len() {
            assert(a[k] == all[k]);
        } else {
            assert(c[k - a.len()] == all[k]);
        }
    }
    if paired(a, b, id) {
        let k = choose|k: int| 0 <= k < a.len() && (#[trigger] a[k]).0 == b && a[k].1.0 == id;
        assert(all[k] == a[k]);
    }
    if paired(c, b, id) {
        let k = choose|k: int| 0 <= k < c.len() && (#[trigger] c[k]).0 == b && c[k].1.0 == id;
        assert(all[a.len() + k] == c[k]);
    }
}

/// An index lies in one block only.
proof fn lemma_one_block(prog: Prog, a: usize, b: usize, i: int)
    requires
        prog.wf(),
        prog.within(a, i),
        prog.within(b, i),
    ensures
        a == b,
{
    if a < b {
        assert(prog.nodes[a as int].end <= prog.nodes[b as int].start);
    } else if b < a {
        assert(prog.nodes[b as int].end <= prog.nodes[a as int].start);
    }
}

/// What an instruction of a live block reads, with the blocks where it does.
fn pairs_at(prog: &SsaProgram, b: usize, i: usize) -> (r: Vec<(usize, SsaValue)>)
    requires
        prog@.wf(),
        prog@.within(b, i as int),
        live_at(prog@.nodes, i as int),
    ensures
        forall|x: usize, id: int| #[trigger] paired(r@, x, id) <==> prog@.reads(x, i as int, id),
{
    let mut out: Vec<(usize, SsaValue)> = Vec::new();
    let ghost nodes = prog@.nodes;
    proof {
        let last = nodes.len() - 1;
        assert(nodes.last() == nodes[last]);
        if b < last {
            assert(nodes[b as int].end <= nodes[last].start);
        }
        assert(prog@.insns[i as int] == prog.insns@[i as int]@);
    }
    match &prog.insns[i] {
        SsaInsn::Phi { dst, inputs } => {
            let mut k: usize = 0;
            while k < inputs.len()
                invariant
                    k <= inputs@.len(),
                    out@ == inputs@.take(k as int),
                decreases inputs@.len() - k,
            {
                out.push(inputs[k]);
                k = k + 1;
                assert(out@ =~= inputs@.take(k as int));
            }
            assert(out@ =~= inputs@);
            assert(prog@.insns[i as int] == (Op::Phi { dst: *dst, inputs: inputs@ }));
        },
        _ => {
            let mut list: Vec<(usize, SsaValue)> = Vec::new();
            prog.push_uses(&mut list, i);
            let ghost op = prog@.insns[i as int];
            let ghost used = op.uses();
            proof {
                assert(!(op is Phi));
                assert(list@ =~= prog@.uses_at(i as int));
                assert(list@ =~= used.map_values(|v: SsaValue| (i, v)));
            }
            let mut k: usize = 0;
            while k < list.len()
                invariant
                    k <= list@.len(),
                    list@ == used.map_values(|v: SsaValue| (i, v)),
                    out@.len() == k,
                    forall|j: int| 0 <= j < k ==> #[trigger] out@[j] == (b, used[j]),
                decreases list@.len() - k,
            {
                out.push((b, list[k].1));
                k = k + 1;
            }
            assert forall|x: usize, id: int| #[trigger] paired(out@, x, id) <==> prog@.reads(x, i as int, id) by {
                if paired(out@, x, id) {
                    let j = choose|j: int| 0 <= j < out@.len() && (#[trigger] out@[j]).0 == x && out@[j].1.0 == id;
                    assert(out@[j] == (b, used[j]));
                    assert(op.uses()[j].0 == id);
                }
                if prog@.reads(x, i as int, id) {
                    lemma_one_block(prog@, x, b, i as int);
                    let j = choose|j: int| 0 <= j < op.uses().len() && (#[trigger] op.uses()[j]).0 == id;
                    assert(out@[j] == (b, used[j]));
                }
            }
        },
    }
    out
}

/// What all instructions of live blocks read, with the blocks where they do.
pub fn read_pairs(prog: &SsaProgram) -> (r: Vec<(usize, SsaValue)>)
    requires
        prog@.wf(),
    ensures
        forall|b: usize, id: int| #[trigger] paired(r@, b, id) <==> prog@.read_by(b, id, prog@.insns.len() as int),
{
    let n: usize = ssa_node_count(&prog.graph);
    let mask = live_mask(&prog.graph, prog.insns.len());
    let mut out: Vec<(usize, SsaValue)> = Vec::new();
    let ghost nodes = prog@.nodes;
    let mut b: usize = 0;
    let mut i: usize = 0;
    while b < n
        invariant
            b <= n,
            prog@.wf(),
            nodes == prog@.nodes,
            n == nodes.len(),
            mask@.len() == prog@.insns.len(),
            forall|k: int| 0 <= k < mask@.len() ==> #[trigger] mask@[k] == live_at(nodes, k),
            i == (if b == 0 {
                0
            } else {
                nodes[b - 1].end as int
            }),
            forall|x: usize, id: int| #[trigger] paired(out@, x, id) <==> prog@.read_by(x, id, i as int),
        decreases n - b,
    {
        let block = ssa_block(&prog.graph, b);
        assert(b > 0 ==> nodes[b - 1].end == nodes[b as int].start);
        proof {
            let last = nodes.len() - 1;
            assert(nodes.last() == nodes[last]);
            if b < last {
                assert(nodes[b as int].end <= nodes[last].start);
            }
        }
        while i < block.end
            invariant
                b < n,
                prog@.wf(),
                nodes == prog@.nodes,
                n == nodes.len(),
                block == nodes[b as int],
                block.start <= i <= block.end <= prog@.insns.len(),
                mask@.len() == prog@.insns.len(),
                forall|k: int| 0 <= k < mask@.len() ==> #[trigger] mask@[k] == live_at(nodes, k),
                forall|x: usize, id: int| #[trigger] paired(out@, x, id) <==> prog@.read_by(x, id, i as int),
            decreases block.end - i,
        {
            let ghost before = out@;
            if mask[i] {
                let mut more = pairs_at(prog, b, i);
                let ghost extra = more@;
                out.append(&mut more);
                assert(out@ =~= before + extra);
                assert forall|x: usize, id: int| #[trigger] paired(out@, x, id) <==> prog@.read_by(x, id, i + 1) by {
                    lemma_paired_both(before, extra, x, id);
                    assert(paired(extra, x, id) <==> prog@.reads(x, i as int, id));
                    assert(paired(before, x, id) <==> prog@.read_by(x, id, i as int));
                    lemma_read_next(prog@, x, id, i as int);
                }
            } else {
                assert forall|x: usize, id: int| #[trigger] paired(out@, x, id) <==> prog@.read_by(x, id, i + 1) by {
                    lemma_read_next(prog@, x, id, i as int);
                    assert(!prog@.reads(x, i as int, id));
                }
            }
            i = i + 1;
        }
        b = b + 1;
    }
    assert(nodes.last() == nodes[n - 1]);
    out
}

proof fn lemma_read_next(prog: Prog, b: usize, id: int, i: int)
    requires
        0 <= i,
    ensures
        prog.read_by(b, id, i + 1) <==> prog.read_by(b, id, i) || prog.reads(b, i, id),
{
    if prog.read_by(b, id, i + 1) && !prog.reads(b, i, id) {
        let k = choose|k: int| 0 <= k < i + 1 && #[trigger] prog.reads(b, k, id);
        assert(k < i);
    }
}

/// Whether marks are kept back over every edge to a marked block, but not
/// over the definition of a value.
spec fn closed_at(prog: Prog, id: int, marks: Seq<bool>, a: usize) -> bool {
    forall|c: usize|
        #[trigger] has_edge(prog.edges, a, c) && c < marks.len() && marks[c as int] && !prog.holds_def(a, id)
            ==> marks[a as int]
}

/// Where marks are closed, ways lead to reads from marked blocks only.
proof fn lemma_closed(prog: Prog, id: int, marks: Seq<bool>, t: Seq<usize>)
    requires
        prog.wf(),
        marks.len() == prog.nodes.len(),
        forall|b: usize| #[trigger] prog.read_in(b, id) && !prog.holds_def(b, id) ==> marks[b as int],
        forall|a: usize| a < marks.len() ==> #[trigger] closed_at(prog, id, marks, a),
        prog.leads(t, id),
    ensures
        t[0] < marks.len(),
        marks[t[0] as int],
    decreases t.len(),
{
    assert(!prog.holds_def(t[0], id));
    if t.len() == 1 {
        assert(prog.read_in(t[0], id));
    } else {
        let rest = t.skip(1);
        assert(is_path(prog.edges, rest)) by {
            assert forall|i: int| 0 <= i < rest.len() - 1 implies has_edge(
                prog.edges,
                #[trigger] rest[i],
                rest[i + 1],
            ) by {
                assert(has_edge(prog.edges, t[i + 1], t[i + 1 + 1]));
            }
        }
        assert forall|k: int| 0 <= k < rest.len() implies !prog.holds_def(#[trigger] rest[k], id) by {
            assert(!prog.holds_def(t[k + 1], id));
        }
        assert(rest.last() == t.last());
        lemma_closed(prog, id, marks, rest);
        assert(has_edge(prog.edges, t[0], t[0int + 1]));
        let e = choose|e: int|
            0 <= e < prog.edges.len() && (#[trigger] prog.edges[e]).0 == t[0] && prog.edges[e].1 == t[1];
        assert(closed_at(prog, id, marks, t[0]));
    }
}

/// A way can be entered one block before.
proof fn lemma_lead_back(prog: Prog, id: int, a: usize, c: usize)
    requires
        has_edge(prog.edges, a, c),
        prog.live_into(c, id),
        !prog.holds_def(a, id),
    ensures
        prog.live_into(a, id),
{
    let t = choose|t: Seq<usize>| #[trigger] prog.leads(t, id) && t[0] == c;
    let u = seq![a] + t;
    assert(is_path(prog.edges, u)) by {
        assert forall|i: int| 0 <= i < u.len() - 1 implies has_edge(prog.edges, #[trigger] u[i], u[i + 1]) by {
            if i > 0 {
                assert(has_edge(prog.edges, t[i - 1], t[i - 1 + 1]));
            }
        }
    }
    assert forall|k: int| 0 <= k < u.len() implies !prog.holds_def(#[trigger] u[k], id) by {
        if k > 0 {
            assert(!prog.holds_def(t[k - 1], id));
        }
    }
    assert(u.last() == t.last());
    assert(prog.leads(u, id) && u[0] == a);
}

/// Tells whether a block has an edge to a marked one.
fn leads_on(prog: &SsaProgram, a: usize, marks: &Vec<bool>) -> (r: bool)
    requires
        prog@.wf(),
        a < prog@.nodes.len(),
        marks@.len() == prog@.nodes.len(),
    ensures
        r == (exists|c: usize| #[trigger] has_edge(prog@.edges, a, c) && c < marks@.len() && marks@[c as int]),
{
    let out = ssa_out_edges(&prog.graph, a);
    let mut k: usize = 0;
    while k < out.len()
        invariant
            k <= out@.len(),
            prog@.wf(),
            a < prog@.nodes.len(),
            marks@.len() == prog@.nodes.len(),
            out@ == out_edges(prog@.edges, a),
            forall|j: int| 0 <= j < k ==> !marks@[(#[trigger] out@[j]).0 as int],
        decreases out@.len() - k,
    {
        let (c, kind) = out[k];
        proof {
            lemma_out_edges(prog@.edges, a, k as int);
            let e = prog@.edges.index_of((a, c, kind));
            assert(prog@.edges[e] == (a, c, kind));
            assert(has_edge(prog@.edges, a, c));
        }
        if marks[c] {
            return true;
        }
        k = k + 1;
    }
    assert forall|c: usize| #[trigger] has_edge(prog@.edges, a, c) && c < marks@.len() implies !marks@[c as int] by {
        let e = choose|e: int| 0 <= e < prog@.edges.len() && (#[trigger] prog@.edges[e]).0 == a && prog@.edges[e].1 == c;
        let kind = prog@.edges[e].2;
        assert(prog@.edges.contains((a, c, kind)));
        lemma_out_edges_all(prog@.edges, a, c, kind);
        let j = out@.index_of((c, kind));
        assert(out@[j] == (c, kind));
    }
    false
}

/// Marks blocks with an edge to a marked block, from the last block on. Tells
/// whether a mark was set.
fn mark_before(prog: &SsaProgram, id: usize, marks: &mut Vec<bool>) -> (changed: bool)
    requires
        prog@.wf(),
        id < prog@.sites.len(),
        old(marks)@.len() == prog@.nodes.len(),
        forall|b: usize| b < old(marks)@.len() && #[trigger] old(marks)@[b as int] ==> prog@.live_into(b, id as int),
    ensures
        final(marks)@.len() == old(marks)@.len(),
        forall|b: usize| b < old(marks)@.len() && #[trigger] final(marks)@[b as int] ==> prog@.live_into(b, id as int),
        forall|b: int| 0 <= b < old(marks)@.len() && old(marks)@[b] ==> #[trigger] final(marks)@[b],
        unset(final(marks)@, old(marks)@.len()) <= unset(old(marks)@, old(marks)@.len()),
        changed ==> unset(final(marks)@, old(marks)@.len()) < unset(old(marks)@, old(marks)@.len()),
        !changed ==> forall|a: usize| a < old(marks)@.len() ==> #[trigger] closed_at(prog@, id as int, final(marks)@, a),
{
    let ghost before = marks@;
    let ghost n = before.len();
    let site: usize = prog.def_sites[id];
    let mut changed = false;
    let mut a: usize = marks.len();
    while a > 0
        invariant
            a <= n,
            n == before.len(),
            n == prog@.nodes.len(),
            prog@.wf(),
            id < prog@.sites.len(),
            site == prog@.sites[id as int],
            marks@.len() == n,
            forall|b: usize| b < n && #[trigger] marks@[b as int] ==> prog@.live_into(b, id as int),
            forall|b: int| 0 <= b < n && before[b] ==> #[trigger] marks@[b],
            unset(marks@, n) <= unset(before, n),
            changed ==> unset(marks@, n) < unset(before, n),
            !changed ==> marks@ == before,
            !changed ==> forall|x: usize| a <= x < n ==> #[trigger] closed_at(prog@, id as int, marks@, x),
        decreases a,
    {
        a = a - 1;
        let block = ssa_block(&prog.graph, a);
        if !marks[a] && !(block.start <= site && site < block.end) && leads_on(prog, a, marks) {
            proof {
                let c = choose|c: usize| #[trigger] has_edge(prog@.edges, a, c) && c < marks@.len() && marks@[c as int];
                lemma_lead_back(prog@, id as int, a, c);
                lemma_unset_update(marks@, n, a as int);
            }
            marks.set(a, true);
            changed = true;
        }
    }
    changed
}

/// Which blocks a value is live into. The list holds what is read in which
/// blocks.
pub fn live_ins(prog: &SsaProgram, reads: &Vec<(usize, SsaValue)>, id: usize) -> (r: Vec<bool>)
    requires
        prog@.wf(),
        id < prog@.sites.len(),
        forall|b: usize, v: int| #[trigger]
            paired(reads@, b, v) <==> prog@.read_by(b, v, prog@.insns.len() as int),
    ensures
        r@.len() == prog@.nodes.len(),
        forall|b: usize| b < r@.len() ==> #[trigger] r@[b as int] == prog@.live_into(b, id as int),
{
    let n: usize = ssa_node_count(&prog.graph);
    let site: usize = prog.def_sites[id];
    let mut marks: Vec<bool> = Vec::with_capacity(n);
    while marks.len() < n
        invariant
            marks@.len() <= n,
            forall|k: int| 0 <= k < marks@.len() ==> !#[trigger] marks@[k],
        decreases n - marks@.len(),
    {
        marks.push(false);
    }
    let mut k: usize = 0;
    while k < reads.len()
        invariant
            k <= reads@.len(),
            prog@.wf(),
            n == prog@.nodes.len(),
            id < prog@.sites.len(),
            site == prog@.sites[id as int],
            marks@.len() == n,
            forall|b: usize, v: int| #[trigger]
                paired(reads@, b, v) <==> prog@.read_by(b, v, prog@.insns.len() as int),
            forall|b: usize| b < n && #[trigger] marks@[b as int] ==> prog@.live_into(b, id as int),
            forall|j: int|
                0 <= j < k && (#[trigger] reads@[j]).1.0 == id && reads@[j].0 < n && prog@.nodes[reads@[j].0 as int].live
                    && !prog@.holds_def(reads@[j].0, id as int) ==> marks@[reads@[j].0 as int],
        decreases reads@.len() - k,
    {
        let (b, value) = reads[k];
        if value.0 as usize == id && b < n {
            let block = ssa_block(&prog.graph, b);
            if block.live && !(block.start <= site && site < block.end) {
                proof {
                    assert(reads@[k as int].0 == b && reads@[k as int].1.0 == id);
                    assert(paired(reads@, b, id as int));
                    let t = seq![b];
                    assert(is_path(prog@.edges, t));
                    assert(prog@.read_in(t.last(), id as int));
                    assert(prog@.leads(t, id as int) && t[0] == b);
                }
                marks.set(b, true);
            }
        }
        k = k + 1;
    }
    assert forall|b: usize| #[trigger] prog@.read_in(b, id as int) && !prog@.holds_def(b, id as int) implies marks@[b as int] by {
        assert(paired(reads@, b, id as int));
        let j = choose|j: int| 0 <= j < reads@.len() && (#[trigger] reads@[j]).0 == b && reads@[j].1.0 == id;
    }
    let mut changed = true;
    while changed
        invariant
            prog@.wf(),
            n == prog@.nodes.len(),
            id < prog@.sites.len(),
            marks@.len() == n,
            forall|b: usize| b < n && #[trigger] marks@[b as int] ==> prog@.live_into(b, id as int),
            forall|b: usize| #[trigger] prog@.read_in(b, id as int) && !prog@.holds_def(b, id as int) ==> marks@[b as int],
            !changed ==> forall|a: usize| a < n ==> #[trigger] closed_at(prog@, id as int, marks@, a),
        decreases
            unset(marks@, n as nat),
            (if changed {
                1int
            } else {
                0int
            }),
    {
        let ghost before = marks@;
        changed = mark_before(prog, id, &mut marks);
        assert forall|b: usize| #[trigger] prog@.read_in(b, id as int) && !prog@.holds_def(b, id as int) implies marks@[b as int] by {
            assert(before[b as int]);
        }
    }
    assert forall|b: usize| b < n implies #[trigger] marks@[b as int] == prog@.live_into(b, id as int) by {
        if prog@.live_into(b, id as int) {
            let t = choose|t: Seq<usize>| #[trigger] prog@.leads(t, id as int) && t[0] == b;
            lemma_closed(prog@, id as int, marks@, t);
        }
    }
    marks
}

} // verus!
