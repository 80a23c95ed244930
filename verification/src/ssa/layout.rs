//! Block layout: fallthrough chains from the entry, then the remaining
//! blocks in the order of their numbers.
use vstd::prelude::*;

use crate::cfg::EdgeKind;
use crate::graph::{lemma_out_edges, out_edges, ssa_node_count, ssa_out_edges};
use crate::ssa::flow::{lemma_unset_update, unset};
use crate::ssa::{Prog, SsaProgram};

verus! {

/// How much an edge is preferred as a fallthrough; lower is better.
pub open spec fn rank(kind: EdgeKind) -> int {
    match kind {
        EdgeKind::Fallthrough => 0,
        EdgeKind::BranchFalse => 1,
        EdgeKind::BranchTrue => 2,
        EdgeKind::Unconditional => 2,
    }
}

/// The target of the first edge from `i` on of a rank that leads to a live
/// block.
pub open spec fn first_of(out: Seq<(usize, EdgeKind)>, live: Seq<bool>, want: int, i: nat) -> Option<usize>
    decreases out.len() - i,
{
    if i >= out.len() {
        None
    } else if live[out[i as int].0 as int] && rank(out[i as int].1) == want {
        Some(out[i as int].0)
    } else {
        first_of(out, live, want, i + 1)
    }
}

impl Prog {
    /// The block to lay out behind a block, if it has a live successor.
    pub open spec fn preferred(self, live: Seq<bool>, block: usize) -> Option<usize> {
        let out = out_edges(self.edges, block);
        match first_of(out, live, 0, 0) {
            Some(t) => Some(t),
            None => match first_of(out, live, 1, 0) {
                Some(t) => Some(t),
                None => first_of(out, live, 2, 0),
            },
        }
    }

    /// The blocks laid out when the chain from a block is added to those of
    /// a layout.
    pub open spec fn chain(self, live: Seq<bool>, visited: Seq<bool>, order: Seq<usize>, block: usize) -> (
        Seq<bool>,
        Seq<usize>,
    )
        decreases unset(visited, visited.len()),
    {
        if !(block < visited.len() && live[block as int] && !visited[block as int]) {
            (visited, order)
        } else {
            proof {
                lemma_unset_update(visited, visited.len(), block as int);
            }
            let marked = visited.update(block as int, true);
            let longer = order.push(block);
            match self.preferred(live, block) {
                Some(next) => self.chain(live, marked, longer, next),
                None => (marked, longer),
            }
        }
    }

    /// Chain start number `k`: the entry, then all other blocks.
    pub open spec fn chain_start(self, k: int) -> usize {
        if k == 0 {
            self.entry
        } else if k - 1 < self.entry {
            (k - 1) as usize
        } else {
            k as usize
        }
    }

    /// The blocks laid out from the first `k` chain starts.
    pub open spec fn laid_out(self, live: Seq<bool>, k: nat) -> (Seq<bool>, Seq<usize>)
        decreases k,
    {
        if k == 0 {
            (Seq::new(self.nodes.len(), |b: int| false), Seq::empty())
        } else {
            let (visited, order) = self.laid_out(live, (k - 1) as nat);
            self.chain(live, visited, order, self.chain_start(k - 1))
        }
    }

    /// The order in which live blocks are emitted.
    pub open spec fn layout(self, live: Seq<bool>) -> Seq<usize> {
        self.laid_out(live, self.nodes.len()).1
    }
}

/// Finds the first edge of a rank that leads to a live block.
fn find_of(out: &Vec<(usize, EdgeKind)>, live: &Vec<bool>, want: u8) -> (r: Option<usize>)
    requires
        forall|i: int| 0 <= i < out@.len() ==> (#[trigger] out@[i]).0 < live@.len(),
    ensures
        r == first_of(out@, live@, want as int, 0),
{
    let mut i: usize = 0;
    while i < out.len()
        invariant
            forall|k: int| 0 <= k < out@.len() ==> (#[trigger] out@[k]).0 < live@.len(),
            i <= out@.len(),
            first_of(out@, live@, want as int, 0) == first_of(out@, live@, want as int, i as nat),
        decreases out@.len() - i,
    {
        let (target, kind) = out[i];
        let level: u8 = match kind {
            EdgeKind::Fallthrough => 0,
            EdgeKind::BranchFalse => 1,
            EdgeKind::BranchTrue | EdgeKind::Unconditional => 2,
        };
        if live[target] && level == want {
            return Some(target);
        }
        i = i + 1;
    }
    None
}

/// The block to lay out behind a block.
fn preferred(prog: &SsaProgram, live: &Vec<bool>, block: usize) -> (r: Option<usize>)
    requires
        prog@.wf(),
        live@.len() == prog@.nodes.len(),
        block < prog@.nodes.len(),
    ensures
        r == prog@.preferred(live@, block),
{
    let out = ssa_out_edges(&prog.graph, block);
    proof {
        assert forall|i: int| 0 <= i < out@.len() implies (#[trigger] out@[i]).0 < live@.len() by {
            lemma_out_edges(prog@.edges, block, i);
            let e = (block, out@[i].0, out@[i].1);
            let k = prog@.edges.index_of(e);
            assert(prog@.edges[k] == e);
        }
    }
    match find_of(&out, live, 0) {
        Some(t) => Some(t),
        None => match find_of(&out, live, 1) {
            Some(t) => Some(t),
            None => find_of(&out, live, 2),
        },
    }
}

/// Adds the chain from a block to a layout.
fn add_chain(prog: &SsaProgram, live: &Vec<bool>, visited: &mut Vec<bool>, order: &mut Vec<usize>, start: usize)
    requires
        prog@.wf(),
        live@.len() == prog@.nodes.len(),
        old(visited)@.len() == prog@.nodes.len(),
    ensures
        (final(visited)@, final(order)@) == prog@.chain(live@, old(visited)@, old(order)@, start),
        final(visited)@.len() == prog@.nodes.len(),
{
    let mut current: Option<usize> = Some(start);
    let ghost all = prog@.chain(live@, visited@, order@, start);
    while current.is_some()
        invariant
            prog@.wf(),
            live@.len() == prog@.nodes.len(),
            visited@.len() == prog@.nodes.len(),
            all == match current {
                Some(block) => prog@.chain(live@, visited@, order@, block),
                None => (visited@, order@),
            },
        decreases
            unset(visited@, visited@.len()),
            (if current is Some {
                1int
            } else {
                0
            }),
    {
        let block = match current {
            Some(b) => b,
            None => {
                return;
            },
        };
        if block >= visited.len() || !live[block] || visited[block] {
            current = None;
        } else {
            proof {
                lemma_unset_update(visited@, visited@.len(), block as int);
            }
            visited.set(block, true);
            order.push(block);
            current = preferred(prog, live, block);
        }
    }
}

/// Lays out the live blocks.
pub fn layout(prog: &SsaProgram, live: &Vec<bool>) -> (r: Vec<usize>)
    requires
        prog@.wf(),
        live@.len() == prog@.nodes.len(),
    ensures
        r@ == prog@.layout(live@),
{
    let n: usize = ssa_node_count(&prog.graph);
    let mut visited: Vec<bool> = Vec::new();
    while visited.len() < n
        invariant
            visited@.len() <= n,
            forall|b: int| 0 <= b < visited@.len() ==> !#[trigger] visited@[b],
        decreases n - visited@.len(),
    {
        visited.push(false);
    }
    assert(visited@ =~= Seq::new(n as nat, |b: int| false));
    let mut order: Vec<usize> = Vec::new();
    let mut k: usize = 0;
    while k < n
        invariant
            k <= n,
            n == prog@.nodes.len(),
            prog@.wf(),
            live@.len() == n,
            visited@.len() == n,
            (visited@, order@) == prog@.laid_out(live@, k as nat),
        decreases n - k,
    {
        let start: usize = if k == 0 {
            prog.entry
        } else if k - 1 < prog.entry {
            k - 1
        } else {
            k
        };
        add_chain(prog, live, &mut visited, &mut order, start);
        k = k + 1;
    }
    order
}

/// What a layout holds: the visited blocks, once each, all of them live.
spec fn records(live: Seq<bool>, visited: Seq<bool>, order: Seq<usize>) -> bool {
    &&& order.no_duplicates()
    &&& forall|b: usize|
        #[trigger] order.contains(b) <==> b < visited.len() && visited[b as int]
    &&& forall|b: int| 0 <= b < visited.len() && #[trigger] visited[b] ==> live[b]
}

proof fn lemma_chain(prog: Prog, live: Seq<bool>, visited: Seq<bool>, order: Seq<usize>, block: usize)
    requires
        records(live, visited, order),
        live.len() == visited.len(),
    ensures
        ({
            let (v, o) = prog.chain(live, visited, order, block);
            &&& records(live, v, o)
            &&& v.len() == visited.len()
            &&& order.is_prefix_of(o)
            &&& forall|b: int| 0 <= b < visited.len() && #[trigger] visited[b] ==> v[b]
            &&& block < visited.len() && live[block as int] ==> v[block as int]
            &&& block < visited.len() && live[block as int] && order.len() == 0 ==> o.len() > 0 && o[0]
                == block
        }),
    decreases unset(visited, visited.len()),
{
    if !(block < visited.len() && live[block as int] && !visited[block as int]) {
        assert(order =~= order.take(order.len() as int));
        if block < visited.len() && live[block as int] && visited[block as int] {
            assert(order.contains(block));
        }
    } else {
        lemma_unset_update(visited, visited.len(), block as int);
        let marked = visited.update(block as int, true);
        let longer = order.push(block);
        assert(records(live, marked, longer)) by {
            assert(!order.contains(block));
            assert forall|b: usize| #[trigger] longer.contains(b) <==> b < marked.len() && marked[b as int] by {
                if longer.contains(b) {
                    let i = longer.index_of(b);
                    if i < order.len() {
                        assert(order[i] == b);
                        assert(order.contains(b));
                    }
                }
                if b < marked.len() && marked[b as int] {
                    if b == block {
                        assert(longer[order.len() as int] == b);
                    } else {
                        assert(order.contains(b));
                        let i = order.index_of(b);
                        assert(longer[i] == b);
                    }
                }
            }
        }
        assert(order =~= longer.take(order.len() as int));
        if let Some(next) = prog.preferred(live, block) {
            lemma_chain(prog, live, marked, longer, next);
            let (v, o) = prog.chain(live, marked, longer, next);
            assert(order =~= o.take(order.len() as int)) by {
                assert(longer =~= o.take(longer.len() as int));
            }
            assert(marked[block as int]);
            assert forall|b: int| 0 <= b < visited.len() && #[trigger] visited[b] implies v[b] by {
                assert(marked[b]);
            }
            if order.len() == 0 {
                assert(longer[0] == block);
                assert(o.take(longer.len() as int)[0] == o[0]);
            }
        }
    }
}

proof fn lemma_laid_out(prog: Prog, live: Seq<bool>, k: nat)
    requires
        live.len() == prog.nodes.len(),
        prog.entry < prog.nodes.len(),
        live[prog.entry as int],
        k <= prog.nodes.len(),
    ensures
        ({
            let (v, o) = prog.laid_out(live, k);
            &&& records(live, v, o)
            &&& v.len() == live.len()
            &&& k > 0 ==> o.len() > 0 && o[0] == prog.entry
            &&& forall|j: int| 0 <= j < k && live[#[trigger] prog.chain_start(j) as int]
                ==> v[prog.chain_start(j) as int]
        }),
    decreases k,
{
    if k > 0 {
        lemma_laid_out(prog, live, (k - 1) as nat);
        let (visited, order) = prog.laid_out(live, (k - 1) as nat);
        let start = prog.chain_start(k - 1);
        lemma_chain(prog, live, visited, order, start);
        let (v, o) = prog.laid_out(live, k);
        if k > 1 {
            assert(order =~= o.take(order.len() as int));
            assert(o.take(order.len() as int)[0] == o[0]);
        } else {
            assert(order.len() == 0);
        }
    } else {
        let (v, o) = prog.laid_out(live, 0);
        assert forall|b: usize| #[trigger] o.contains(b) <==> b < v.len() && v[b as int] by {
        }
    }
}

/// A layout holds every live block once, and no other; the entry comes
/// first.
pub proof fn layout_is_complete(prog: Prog, live: Seq<bool>)
    requires
        prog.wf(),
        live.len() == prog.nodes.len(),
        live[prog.entry as int],
    ensures
        prog.layout(live).no_duplicates(),
        prog.layout(live).len() > 0,
        prog.layout(live)[0] == prog.entry,
        forall|b: usize|
            #[trigger] prog.layout(live).contains(b) <==> b < live.len() && live[b as int],
{
    let n = prog.nodes.len();
    lemma_laid_out(prog, live, n);
    let (v, o) = prog.laid_out(live, n);
    assert forall|b: usize| #[trigger] o.contains(b) <==> b < live.len() && live[b as int] by {
        if b < live.len() && live[b as int] {
            let j = if b == prog.entry {
                0
            } else if b < prog.entry {
                b + 1
            } else {
                b as int
            };
            assert(prog.chain_start(j) == b);
        }
    }
}

} // verus!
