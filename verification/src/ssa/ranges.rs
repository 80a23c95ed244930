//! Live ranges of values.
//!
//! A range goes from the definition of a value to the end of its last use.
//! What is used on a cycle may be read again on a later iteration, so it
//! stays live to the end of the program. What is live across a jump back to
//! its use stays live to the end of the block that jumps.
use vstd::prelude::*;

use crate::graph::{
    are_components, components_of, has_edge, in_some, is_path, lemma_out_edges, on_cycle, out_edges,
    reachable, ssa_block, ssa_components, ssa_contains_edge, ssa_node_count, ssa_out_edges, Edge,
};
use crate::ssa::across::{live_ins, paired, read_pairs};
use crate::ssa::construct::lemma_out_edges_all;
use crate::ssa::{live_at, Op, Prog, SsaInsn, SsaProgram, SsaValue};

verus! {

/// A path from `a` to `b` and one from `b` to `a` make a cycle.
proof fn lemma_round_trip(edges: Seq<Edge>, a: usize, b: usize)
    requires
        a != b,
        reachable(edges, a, b),
        reachable(edges, b, a),
    ensures
        on_cycle(edges, a),
{
    let p = choose|p: Seq<usize>| #[trigger] is_path(edges, p) && p[0] == a && p.last() == b;
    let q = choose|q: Seq<usize>| #[trigger] is_path(edges, q) && q[0] == b && q.last() == a;
    let r = p + q.skip(1);
    assert(p.len() > 1);
    assert(q.len() > 1);
    assert(is_path(edges, r)) by {
        assert forall|i: int| 0 <= i < r.len() - 1 implies has_edge(
            edges,
            #[trigger] r[i],
            r[i + 1],
        ) by {
            if i < p.len() - 1 {
                assert(has_edge(edges, p[i], p[i + 1]));
            } else {
                let j = i - (p.len() - 1);
                assert(has_edge(edges, q[j], q[j + 1]));
                assert(r[i] == q[j]);
                assert(r[i + 1] == q[j + 1]);
            }
        }
    }
    assert(r.last() == q.last());
}

/// A node lies on a cycle if and only if its component has another member,
/// or it has an edge to itself.
proof fn lemma_cycle_component(
    comps: Seq<Seq<usize>>,
    nodes: nat,
    edges: Seq<Edge>,
    c: int,
    n: usize,
)
    requires
        are_components(comps, nodes, edges),
        forall|e: int|
            0 <= e < edges.len() ==> (#[trigger] edges[e]).0 < nodes && edges[e].1 < nodes,
        0 <= c < comps.len(),
        comps[c].contains(n),
    ensures
        on_cycle(edges, n) <==> (comps[c].len() > 1 || has_edge(edges, n, n)),
{
    let comp = comps[c];
    if comp.len() > 1 {
        let i = comp.index_of(n);
        let j = if i == 0 {
            1int
        } else {
            0
        };
        let m = comp[j];
        assert(comp[i] != comp[j]);
        assert(comp.contains(m));
        lemma_round_trip(edges, n, m);
    }
    if has_edge(edges, n, n) {
        let p = seq![n, n];
        assert(is_path(edges, p));
        assert(p[0] == n && p.last() == n);
    }
    if on_cycle(edges, n) && !has_edge(edges, n, n) {
        let p = choose|p: Seq<usize>| #[trigger]
            is_path(edges, p) && p.len() > 1 && p[0] == n && p.last() == n;
        let m = p[1];
        assert(has_edge(edges, p[0], p[0int + 1]));
        assert(m != n);
        let first = seq![n, m];
        assert(is_path(edges, first));
        assert(first[0] == n && first.last() == m);
        let rest = p.skip(1);
        assert(is_path(edges, rest)) by {
            assert forall|i: int| 0 <= i < rest.len() - 1 implies has_edge(
                edges,
                #[trigger] rest[i],
                rest[i + 1],
            ) by {
                assert(has_edge(edges, p[i + 1], p[i + 1 + 1]));
            }
        }
        assert(rest[0] == m && rest.last() == n);
        assert(reachable(edges, n, m) && reachable(edges, m, n));
        let e = choose|e: int|
            0 <= e < edges.len() && (#[trigger] edges[e]).0 == n && edges[e].1 == m;
        assert(m < nodes);
        assert(comp.contains(m));
        let a = comp.index_of(n);
        let b = comp.index_of(m);
        assert(a != b);
    }
}

/// Which blocks lie on a cycle.
pub fn cyclic_blocks(prog: &SsaProgram) -> (r: Vec<bool>)
    requires
        prog@.wf(),
    ensures
        r@.len() == prog@.nodes.len(),
        forall|b: usize| b < r@.len() ==> #[trigger] r@[b as int] == on_cycle(prog@.edges, b),
{
    let n: usize = ssa_node_count(&prog.graph);
    let mut cyclic: Vec<bool> = Vec::with_capacity(n);
    while cyclic.len() < n
        invariant
            cyclic@.len() <= n,
            forall|k: int| 0 <= k < cyclic@.len() ==> !#[trigger] cyclic@[k],
        decreases n - cyclic@.len(),
    {
        cyclic.push(false);
    }
    let comps = ssa_components(&prog.graph);
    let ghost cs = components_of(comps@);
    let mut c: usize = 0;
    while c < comps.len()
        invariant
            c <= comps@.len(),
            prog@.wf(),
            n == prog@.nodes.len(),
            cyclic@.len() == n,
            cs == components_of(comps@),
            are_components(cs, n as nat, prog@.edges),
            forall|b: usize| b < n && #[trigger] cyclic@[b as int] ==> on_cycle(prog@.edges, b),
            forall|d: int, b: usize|
                0 <= d < c && #[trigger] cs[d].contains(b) && on_cycle(prog@.edges, b)
                    ==> cyclic@[b as int],
        decreases comps@.len() - c,
    {
        let comp = &comps[c];
        assert(cs[c as int] == comp@);
        if comp.len() > 1 {
            let mut i: usize = 0;
            while i < comp.len()
                invariant
                    i <= comp@.len(),
                    c < comps@.len(),
                    comp@.len() > 1,
                    prog@.wf(),
                    n == prog@.nodes.len(),
                    cyclic@.len() == n,
                    cs == components_of(comps@),
                    cs[c as int] == comp@,
                    are_components(cs, n as nat, prog@.edges),
                    forall|b: usize| b < n && #[trigger] cyclic@[b as int] ==> on_cycle(prog@.edges, b),
                    forall|d: int, b: usize|
                        0 <= d < c && #[trigger] cs[d].contains(b) && on_cycle(prog@.edges, b)
                            ==> cyclic@[b as int],
                    forall|k: int| 0 <= k < i ==> cyclic@[#[trigger] comp@[k] as int],
                decreases comp@.len() - i,
            {
                let node: usize = comp[i];
                proof {
                    assert(cs[c as int][i as int] == node);
                    assert(cs[c as int].contains(node));
                    lemma_cycle_component(cs, n as nat, prog@.edges, c as int, node);
                }
                cyclic.set(node, true);
                i = i + 1;
            }
            assert forall|b: usize| #[trigger] cs[c as int].contains(b) implies cyclic@[b as int] by {
                let k = comp@.index_of(b);
                assert(comp@[k] == b);
            }
        } else if comp.len() == 1 {
            let node: usize = comp[0];
            proof {
                assert(cs[c as int][0] == node);
                assert(cs[c as int].contains(node));
                lemma_cycle_component(cs, n as nat, prog@.edges, c as int, node);
                assert forall|b: usize| #[trigger] cs[c as int].contains(b) implies b == node by {
                    let k = comp@.index_of(b);
                    assert(comp@[k] == b);
                }
            }
            if ssa_contains_edge(&prog.graph, node, node) {
                cyclic.set(node, true);
            }
        }
        c = c + 1;
    }
    assert forall|b: usize| b < n implies #[trigger] cyclic@[b as int] == on_cycle(prog@.edges, b) by {
        assert(in_some(cs, b));
        let d = choose|d: int| 0 <= d < cs.len() && (#[trigger] cs[d]).contains(b);
        assert(cs[d].contains(b));
    }
    cyclic
}

impl Prog {
    /// Whether a position lies in a live block on a cycle.
    pub open spec fn in_cycle(self, pos: int) -> bool {
        exists|k: int|
            0 <= k < self.nodes.len() && (#[trigger] self.nodes[k]).live && self.nodes[k].start <= pos
                < self.nodes[k].end && on_cycle(self.edges, k as usize)
    }

    /// Where a use at `pos` lets the range of a value end. A use on a cycle,
    /// or one before the definition, keeps the value to the end of the
    /// program.
    pub open spec fn use_end(self, pos: usize, site: usize) -> usize {
        if self.in_cycle(pos as int) || pos < site {
            self.insns.len() as usize
        } else {
            (pos + 1) as usize
        }
    }

    /// Where a value that flows in from the program start lets its range
    /// end. The entry pointers are not defined again on a cycle.
    pub open spec fn start_end(self, pos: usize, v: SsaValue, site: usize) -> usize {
        let pointer = self.def_of(v) matches Some(op) && (op is FramePtr || op is EntryCtx);
        if (self.in_cycle(pos as int) && !pointer) || pos < site {
            self.insns.len() as usize
        } else {
            pos
        }
    }

    /// The end of the range of a value after the first `k` uses.
    pub open spec fn end_by_uses(self, id: int, k: nat) -> usize
        decreases k,
    {
        if k == 0 {
            self.sites[id]
        } else {
            let prev = self.end_by_uses(id, (k - 1) as nat);
            let (pos, v) = self.uses_from(0)[k - 1];
            let end = self.use_end(pos, self.sites[id]);
            if v.0 == id && end > prev {
                end
            } else {
                prev
            }
        }
    }

    /// The end of the range of a value after all uses and the first `k`
    /// inflows from the program start.
    pub open spec fn end_by_starts(self, id: int, k: nat) -> usize
        decreases k,
    {
        if k == 0 {
            self.end_by_uses(id, self.uses_from(0).len())
        } else {
            let prev = self.end_by_starts(id, (k - 1) as nat);
            let (pos, v) = self.starts_from(0)[k - 1];
            let end = self.start_end(pos, v, self.sites[id]);
            if v.0 == id && end > prev {
                end
            } else {
                prev
            }
        }
    }

    /// The end of the range of a value after all uses and inflows, and the
    /// jumps back from the first `k` blocks. Where the value is live across
    /// one, it stays to the end of the block that jumps.
    pub open spec fn end_by_backs(self, id: int, k: nat) -> usize
        decreases k,
    {
        if k == 0 {
            self.end_by_starts(id, self.starts_from(0).len())
        } else {
            let prev = self.end_by_backs(id, (k - 1) as nat);
            let end = (self.nodes[k - 1].end + 1) as usize;
            if self.crosses((k - 1) as usize, id) && end > prev {
                end
            } else {
                prev
            }
        }
    }

    /// The live range of a value: from its definition to the end of its last
    /// use.
    pub open spec fn range_of(self, id: int) -> (usize, usize) {
        (self.sites[id], self.end_by_backs(id, self.nodes.len()))
    }
}

/// Uses happen inside the program, or at its end.
pub proof fn lemma_uses_inside(prog: Prog, i: nat)
    requires
        prog.wf(),
    ensures
        forall|k: int|
            0 <= k < prog.uses_from(i).len() ==> (#[trigger] prog.uses_from(i)[k]).0
                <= prog.insns.len(),
    decreases prog.insns.len() - i,
{
    if i < prog.insns.len() {
        lemma_uses_inside(prog, i + 1);
        let rest = prog.uses_from(i + 1);
        let own = prog.uses_at(i as int);
        assert forall|k: int| 0 <= k < own.len() implies (#[trigger] own[k]).0 <= prog.insns.len() by {
            if let Op::Phi { dst, inputs } = prog.insns[i as int] {
                assert(prog.insns[i as int].blocks_below(prog.nodes.len()));
                lemma_phi_inside(prog, inputs, 0);
            }
        }
        let whole = prog.uses_from(i);
        assert forall|k: int| 0 <= k < whole.len() implies (#[trigger] whole[k]).0
            <= prog.insns.len() by {
            if live_at(prog.nodes, i as int) {
                if k < own.len() {
                    assert(whole[k] == own[k]);
                } else {
                    assert(whole[k] == rest[k - own.len()]);
                }
            } else {
                assert(whole[k] == rest[k]);
            }
        }
    }
}

proof fn lemma_phi_inside(prog: Prog, inputs: Seq<(usize, SsaValue)>, k: nat)
    requires
        prog.wf(),
        forall|i: int|
            0 <= i < inputs.len() ==> (#[trigger] inputs[i]).0 == crate::ssa::START_PRED
                || inputs[i].0 < prog.nodes.len(),
    ensures
        forall|i: int|
            0 <= i < prog.phi_uses(inputs, k).len() ==> (#[trigger] prog.phi_uses(inputs, k)[i]).0
                <= prog.insns.len(),
    decreases inputs.len() - k,
{
    if k < inputs.len() {
        lemma_phi_inside(prog, inputs, k + 1);
        let (pred, v) = inputs[k as int];
        let rest = prog.phi_uses(inputs, k + 1);
        let whole = prog.phi_uses(inputs, k);
        assert forall|i: int| 0 <= i < whole.len() implies (#[trigger] whole[i]).0
            <= prog.insns.len() by {
            if whole.len() == rest.len() {
                assert(whole[i] == rest[i]);
            } else if i > 0 {
                assert(whole[i] == rest[i - 1]);
            } else {
                let last = prog.nodes.len() - 1;
                assert(prog.nodes.last() == prog.nodes[last]);
                if pred < last {
                    assert(prog.nodes[pred as int].end <= prog.nodes[last].start);
                }
            }
        }
    }
}

/// Inflows happen inside the program.
proof fn lemma_starts_inside(prog: Prog, i: nat)
    requires
        prog.wf(),
    ensures
        forall|k: int|
            0 <= k < prog.starts_from(i).len() ==> (#[trigger] prog.starts_from(i)[k]).0
                < prog.insns.len(),
    decreases prog.insns.len() - i,
{
    if i < prog.insns.len() {
        lemma_starts_inside(prog, i + 1);
        let rest = prog.starts_from(i + 1);
        let whole = prog.starts_from(i);
        if let Op::Phi { dst, inputs } = prog.insns[i as int] {
            lemma_phi_starts_at(prog, inputs, 0, i as usize);
            let own = prog.phi_starts(inputs, 0, i as usize);
            assert forall|k: int| 0 <= k < whole.len() implies (#[trigger] whole[k]).0
                < prog.insns.len() by {
                if live_at(prog.nodes, i as int) {
                    if k < own.len() {
                        assert(whole[k] == own[k]);
                    } else {
                        assert(whole[k] == rest[k - own.len()]);
                    }
                } else {
                    assert(whole[k] == rest[k]);
                }
            }
        }
    }
}

proof fn lemma_phi_starts_at(prog: Prog, inputs: Seq<(usize, SsaValue)>, k: nat, i: usize)
    ensures
        forall|j: int|
            0 <= j < prog.phi_starts(inputs, k, i).len() ==> (#[trigger] prog.phi_starts(
                inputs,
                k,
                i,
            )[j]).0 == i,
    decreases inputs.len() - k,
{
    if k < inputs.len() {
        lemma_phi_starts_at(prog, inputs, k + 1, i);
        let rest = prog.phi_starts(inputs, k + 1, i);
        let whole = prog.phi_starts(inputs, k, i);
        assert forall|j: int| 0 <= j < whole.len() implies (#[trigger] whole[j]).0 == i by {
            if whole.len() == rest.len() {
                assert(whole[j] == rest[j]);
            } else if j > 0 {
                assert(whole[j] == rest[j - 1]);
            }
        }
    }
}

/// Which positions lie in live blocks on cycles.
fn cycle_mask(prog: &SsaProgram) -> (r: Vec<bool>)
    requires
        prog@.wf(),
    ensures
        r@.len() == prog@.insns.len(),
        forall|i: int| 0 <= i < r@.len() ==> #[trigger] r@[i] == prog@.in_cycle(i),
{
    let n: usize = ssa_node_count(&prog.graph);
    let cyclic = cyclic_blocks(prog);
    let ghost nodes = prog@.nodes;
    let len: usize = prog.insns.len();
    let mut out: Vec<bool> = Vec::with_capacity(len);
    let mut k: usize = 0;
    while k < n
        invariant
            k <= n,
            prog@.wf(),
            nodes == prog@.nodes,
            n == nodes.len(),
            cyclic@.len() == n,
            forall|b: usize| b < n ==> #[trigger] cyclic@[b as int] == on_cycle(prog@.edges, b),
            out@.len() == (if k == 0 {
                0
            } else {
                nodes[k - 1].end as int
            }),
            forall|i: int| 0 <= i < out@.len() ==> #[trigger] out@[i] == prog@.in_cycle(i),
        decreases n - k,
    {
        let block = ssa_block(&prog.graph, k);
        assert(k > 0 ==> nodes[k - 1].end == nodes[k as int].start);
        let inside = block.live && cyclic[k];
        while out.len() < block.end
            invariant
                k < n,
                prog@.wf(),
                nodes == prog@.nodes,
                n == nodes.len(),
                block == nodes[k as int],
                inside == (block.live && on_cycle(prog@.edges, k)),
                block.start <= out@.len() <= block.end,
                forall|i: int| 0 <= i < out@.len() ==> #[trigger] out@[i] == prog@.in_cycle(i),
            decreases block.end - out@.len(),
        {
            proof {
                let i = out@.len() as int;
                if prog@.in_cycle(i) {
                    let j = choose|j: int|
                        0 <= j < nodes.len() && (#[trigger] nodes[j]).live && nodes[j].start <= i
                            < nodes[j].end && on_cycle(prog@.edges, j as usize);
                    if j < k {
                        assert(nodes[j].end <= nodes[k as int].start);
                    } else if j > k {
                        assert(nodes[k as int].end <= nodes[j].start);
                    }
                }
                if inside {
                    assert(nodes[k as int].live);
                }
            }
            out.push(inside);
        }
        k = k + 1;
    }
    out
}

/// Whether a value is one of the entry pointers.
fn is_entry_pointer(prog: &SsaProgram, v: SsaValue) -> (r: bool)
    ensures
        r == (prog@.def_of(v) matches Some(op) && (op is FramePtr || op is EntryCtx)),
{
    match prog.def_of(v) {
        Some(SsaInsn::FramePtr { .. }) | Some(SsaInsn::EntryCtx { .. }) => true,
        _ => false,
    }
}

/// The live range of every value.
pub fn live_ranges(prog: &SsaProgram) -> (r: Vec<(usize, usize)>)
    requires
        prog@.wf(),
    ensures
        r@.len() == prog@.sites.len(),
        forall|id: int| 0 <= id < r@.len() ==> #[trigger] r@[id] == prog@.range_of(id),
{
    let count: usize = prog.def_sites.len();
    let len: usize = prog.insns.len();
    let mask = cycle_mask(prog);
    let mut ranges: Vec<(usize, usize)> = Vec::with_capacity(count);
    let mut id: usize = 0;
    while id < count
        invariant
            id <= count,
            count == prog@.sites.len(),
            ranges@.len() == id,
            forall|v: int|
                0 <= v < id ==> #[trigger] ranges@[v] == (prog@.sites[v], prog@.end_by_uses(v, 0)),
        decreases count - id,
    {
        let site: usize = prog.def_sites[id];
        ranges.push((site, site));
        id = id + 1;
    }
    let uses = prog.reg_uses();
    proof {
        lemma_uses_inside(prog@, 0);
        lemma_starts_inside(prog@, 0);
    }
    let mut k: usize = 0;
    while k < uses.len()
        invariant
            k <= uses@.len(),
            count == prog@.sites.len(),
            len == prog@.insns.len(),
            len < usize::MAX,
            mask@.len() == len,
            forall|i: int| 0 <= i < len ==> #[trigger] mask@[i] == prog@.in_cycle(i),
            uses@ == prog@.uses_from(0),
            forall|i: int| 0 <= i < uses@.len() ==> (#[trigger] uses@[i]).0 <= len,
            ranges@.len() == count,
            prog@.wf(),
            forall|v: int|
                0 <= v < count ==> #[trigger] ranges@[v] == (
                    prog@.sites[v],
                    prog@.end_by_uses(v, k as nat),
                ),
        decreases uses@.len() - k,
    {
        let (pos, value) = uses[k];
        let v: usize = value.0 as usize;
        proof {
            if !(pos < len) {
                lemma_not_in_cycle(prog@, pos as int);
            }
        }
        if v < count {
            let (start, end) = ranges[v];
            let pinned = pos < len && mask[pos];
            let next: usize = if pinned || pos < start {
                len
            } else {
                pos + 1
            };
            if next > end {
                ranges.set(v, (start, next));
            }
        }
        k = k + 1;
    }
    let starts = prog.start_uses();
    let mut j: usize = 0;
    while j < starts.len()
        invariant
            j <= starts@.len(),
            count == prog@.sites.len(),
            len == prog@.insns.len(),
            mask@.len() == len,
            forall|i: int| 0 <= i < len ==> #[trigger] mask@[i] == prog@.in_cycle(i),
            starts@ == prog@.starts_from(0),
            forall|i: int| 0 <= i < starts@.len() ==> (#[trigger] starts@[i]).0 < len,
            ranges@.len() == count,
            forall|v: int|
                0 <= v < count ==> #[trigger] ranges@[v] == (
                    prog@.sites[v],
                    prog@.end_by_starts(v, j as nat),
                ),
        decreases starts@.len() - j,
    {
        let (pos, value) = starts[j];
        let v: usize = value.0 as usize;
        if v < count {
            let (start, end) = ranges[v];
            let pinned = mask[pos] && !is_entry_pointer(prog, value);
            let next: usize = if pinned || pos < start {
                len
            } else {
                pos
            };
            if next > end {
                ranges.set(v, (start, next));
            }
        }
        j = j + 1;
    }
    if has_back_edge(prog) {
        extend_across(prog, &mut ranges);
    } else {
        assert forall|v: int| 0 <= v < count implies #[trigger] ranges@[v] == prog@.range_of(v) by {
            lemma_no_crossing(prog@, v, prog@.nodes.len());
        }
    }
    ranges
}

/// Whether a live block jumps back.
spec fn jumps_back(prog: Prog, p: usize) -> bool {
    &&& p < prog.nodes.len()
    &&& prog.nodes[p as int].live
    &&& exists|q: usize| q <= p && #[trigger] has_edge(prog.edges, p, q)
}

/// Tells whether some live block jumps back.
fn has_back_edge(prog: &SsaProgram) -> (r: bool)
    requires
        prog@.wf(),
    ensures
        r == (exists|p: usize| #[trigger] jumps_back(prog@, p)),
{
    let n: usize = ssa_node_count(&prog.graph);
    let mut p: usize = 0;
    while p < n
        invariant
            p <= n,
            n == prog@.nodes.len(),
            prog@.wf(),
            forall|a: usize| a < p ==> !#[trigger] jumps_back(prog@, a),
        decreases n - p,
    {
        if ssa_block(&prog.graph, p).live {
            let out = ssa_out_edges(&prog.graph, p);
            let mut k: usize = 0;
            while k < out.len()
                invariant
                    k <= out@.len(),
                    p < n,
                    n == prog@.nodes.len(),
                    prog@.nodes[p as int].live,
                    out@ == out_edges(prog@.edges, p),
                    forall|j: int| 0 <= j < k ==> (#[trigger] out@[j]).0 > p,
                decreases out@.len() - k,
            {
                if out[k].0 <= p {
                    proof {
                        lemma_edge_out(prog@.edges, p, k as int);
                        assert(jumps_back(prog@, p));
                    }
                    return true;
                }
                k = k + 1;
            }
            assert(!jumps_back(prog@, p)) by {
                assert forall|q: usize| #[trigger] has_edge(prog@.edges, p, q) implies q > p by {
                    let j = lemma_edge_listed(prog@.edges, p, q);
                    assert(out@[j].0 == q);
                }
            }
        }
        p = p + 1;
    }
    false
}

/// An outgoing edge is an edge.
proof fn lemma_edge_out(edges: Seq<Edge>, p: usize, k: int)
    requires
        0 <= k < out_edges(edges, p).len(),
    ensures
        has_edge(edges, p, out_edges(edges, p)[k].0),
{
    let (q, kind) = out_edges(edges, p)[k];
    lemma_out_edges(edges, p, k);
    let e = edges.index_of((p, q, kind));
    assert(edges[e] == (p, q, kind));
}

/// An edge is an outgoing edge.
proof fn lemma_edge_listed(edges: Seq<Edge>, p: usize, q: usize) -> (j: int)
    requires
        has_edge(edges, p, q),
    ensures
        0 <= j < out_edges(edges, p).len(),
        out_edges(edges, p)[j].0 == q,
{
    let e = choose|e: int| 0 <= e < edges.len() && (#[trigger] edges[e]).0 == p && edges[e].1 == q;
    let kind = edges[e].2;
    assert(edges.contains((p, q, kind)));
    lemma_out_edges_all(edges, p, q, kind);
    out_edges(edges, p).index_of((q, kind))
}

/// Without jumps back no value is live across one.
proof fn lemma_no_crossing(prog: Prog, id: int, k: nat)
    requires
        forall|p: usize| !#[trigger] jumps_back(prog, p),
        k <= prog.nodes.len() <= usize::MAX,
    ensures
        prog.end_by_backs(id, k) == prog.end_by_backs(id, 0),
    decreases k,
{
    if k > 0 {
        lemma_no_crossing(prog, id, (k - 1) as nat);
        assert(!jumps_back(prog, (k - 1) as usize));
    }
}

/// Tells whether a value is live across a jump back from a block.
fn is_across(prog: &SsaProgram, p: usize, id: usize, marks: &Vec<bool>) -> (r: bool)
    requires
        prog@.wf(),
        p < prog@.nodes.len(),
        marks@.len() == prog@.nodes.len(),
        forall|b: usize| b < marks@.len() ==> #[trigger] marks@[b as int] == prog@.live_into(b, id as int),
    ensures
        r == prog@.crosses(p, id as int),
{
    if !ssa_block(&prog.graph, p).live {
        return false;
    }
    let out = ssa_out_edges(&prog.graph, p);
    let mut k: usize = 0;
    while k < out.len()
        invariant
            k <= out@.len(),
            p < prog@.nodes.len(),
            prog@.nodes[p as int].live,
            marks@.len() == prog@.nodes.len(),
            forall|b: usize| b < marks@.len() ==> #[trigger] marks@[b as int] == prog@.live_into(b, id as int),
            out@ == out_edges(prog@.edges, p),
            forall|j: int| 0 <= j < k && (#[trigger] out@[j]).0 <= p ==> !prog@.live_into(out@[j].0, id as int),
        decreases out@.len() - k,
    {
        let q: usize = out[k].0;
        if q <= p && marks[q] {
            proof {
                lemma_edge_out(prog@.edges, p, k as int);
            }
            return true;
        }
        k = k + 1;
    }
    assert forall|q: usize| q <= p && #[trigger] has_edge(prog@.edges, p, q) implies !prog@.live_into(q, id as int) by {
        let j = lemma_edge_listed(prog@.edges, p, q);
        assert(out@[j].0 == q);
    }
    false
}

/// Extends ranges over the jumps back that values are live across.
fn extend_across(prog: &SsaProgram, ranges: &mut Vec<(usize, usize)>)
    requires
        prog@.wf(),
        old(ranges)@.len() == prog@.sites.len(),
        forall|id: int|
            0 <= id < old(ranges)@.len() ==> #[trigger] old(ranges)@[id] == (
                prog@.sites[id],
                prog@.end_by_backs(id, 0),
            ),
    ensures
        final(ranges)@.len() == old(ranges)@.len(),
        forall|id: int| 0 <= id < old(ranges)@.len() ==> #[trigger] final(ranges)@[id] == prog@.range_of(id),
{
    let n: usize = ssa_node_count(&prog.graph);
    let reads = read_pairs(prog);
    let ghost count = ranges@.len();
    let mut id: usize = 0;
    while id < ranges.len()
        invariant
            id <= count,
            n == prog@.nodes.len(),
            prog@.wf(),
            count == prog@.sites.len(),
            ranges@.len() == count,
            forall|b: usize, v: int| #[trigger]
                paired(reads@, b, v) <==> prog@.read_by(b, v, prog@.insns.len() as int),
            forall|v: int| 0 <= v < id ==> #[trigger] ranges@[v] == prog@.range_of(v),
            forall|v: int|
                id <= v < count ==> #[trigger] ranges@[v] == (prog@.sites[v], prog@.end_by_backs(v, 0)),
        decreases count - id,
    {
        let marks = live_ins(prog, &reads, id);
        let (start, first) = ranges[id];
        let mut end: usize = first;
        let mut p: usize = 0;
        while p < n
            invariant
                p <= n,
                n == prog@.nodes.len(),
                prog@.wf(),
                marks@.len() == n,
                forall|b: usize| b < n ==> #[trigger] marks@[b as int] == prog@.live_into(b, id as int),
                end == prog@.end_by_backs(id as int, p as nat),
            decreases n - p,
        {
            let block = ssa_block(&prog.graph, p);
            proof {
                let last = prog@.nodes.len() - 1;
                assert(prog@.nodes.last() == prog@.nodes[last]);
                if p < last {
                    assert(prog@.nodes[p as int].end <= prog@.nodes[last].start);
                }
            }
            if is_across(prog, p, id, &marks) && block.end + 1 > end {
                end = block.end + 1;
            }
            p = p + 1;
        }
        ranges.set(id, (start, end));
        id = id + 1;
    }
}

/// The end of the program lies in no block.
proof fn lemma_not_in_cycle(prog: Prog, pos: int)
    requires
        prog.wf(),
        pos >= prog.insns.len(),
    ensures
        !prog.in_cycle(pos),
{
    let last = prog.nodes.len() - 1;
    assert(prog.nodes.last() == prog.nodes[last]);
    assert forall|k: int| 0 <= k < prog.nodes.len() implies (#[trigger] prog.nodes[k]).end <= pos by {
        if k < last {
            assert(prog.nodes[k].end <= prog.nodes[last].start);
        }
    }
}

} // verus!
