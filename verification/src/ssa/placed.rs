//! Where phis may stand.
//!
//! A block with one predecessor has a phi only where control comes back from
//! it to itself, or to a block that is visited before it.
use vstd::prelude::*;

use crate::cfg::{edges, Cfg};
use crate::graph::{has_edge, is_path, predecessors, reachable, Edge};
use crate::isa::insn::Insn;
use crate::ssa::construct::lemma_pred_edge;
use crate::ssa::form::{earlier, may_head, preds, way};

verus! {

/// Whether phis stand only where they may, blocks are visited in order, and
/// blocks are sealed before they are filled where that can be done.
#[verifier::opaque]
pub open spec fn routed(
    insns: Seq<Insn>,
    order: Seq<usize>,
    regs: Seq<Seq<u8>>,
    live: Seq<bool>,
    sealed: Seq<bool>,
    filled: Seq<bool>,
) -> bool {
    &&& forall|b: usize| b < regs.len() && (#[trigger] regs[b as int]).len() > 0 ==> may_head(insns, order, b)
    &&& forall|i: int, j: int|
        0 <= i < j < order.len() && live[#[trigger] order[j] as int] ==> live[#[trigger] order[i] as int]
    &&& forall|b: usize| b < live.len() && #[trigger] live[b as int] ==> order.contains(b)
    &&& forall|b: usize| b < live.len() && #[trigger] live[b as int] && !sealed[b as int] ==> may_head(insns, order, b)
    &&& forall|b: usize|
        b < sealed.len() && #[trigger] sealed[b as int] && preds(insns, b).len() == 1 && preds(insns, b)[0] != b
            ==> filled[preds(insns, b)[0] as int] || may_head(insns, order, b)
}

/// An edge is a way.
pub proof fn lemma_edge_way(list: Seq<Edge>, a: usize, b: usize)
    requires
        has_edge(list, a, b),
    ensures
        way(list, a, b),
{
    let t = seq![a, b];
    assert(is_path(list, t));
    assert(t[0] == a && t.last() == b);
}

/// A way can be entered one block before.
pub proof fn lemma_way_back(list: Seq<Edge>, a: usize, b: usize, c: usize)
    requires
        has_edge(list, a, b),
        way(list, b, c),
    ensures
        way(list, a, c),
{
    let t = choose|t: Seq<usize>| #[trigger] is_path(list, t) && t.len() > 1 && t[0] == b && t.last() == c;
    let u = seq![a] + t;
    assert(is_path(list, u)) by {
        assert forall|i: int| 0 <= i < u.len() - 1 implies has_edge(list, #[trigger] u[i], u[i + 1]) by {
            if i > 0 {
                assert(has_edge(list, t[i - 1], t[i - 1 + 1]));
            }
        }
    }
    assert(u[0] == a && u.last() == c && u.len() > 1);
}

/// Where a path leads on to an edge back, it makes a way.
proof fn lemma_way_round(list: Seq<Edge>, a: usize, b: usize)
    requires
        has_edge(list, a, b),
        reachable(list, b, a),
    ensures
        way(list, b, b),
{
    let t = choose|t: Seq<usize>| #[trigger] is_path(list, t) && t[0] == b && t.last() == a;
    let u = t.push(b);
    assert(is_path(list, u)) by {
        assert forall|i: int| 0 <= i < u.len() - 1 implies has_edge(list, #[trigger] u[i], u[i + 1]) by {
            if i < t.len() - 1 {
                assert(has_edge(list, t[i], t[i + 1]));
            }
        }
    }
    assert(u[0] == b && u.last() == b && u.len() > 1);
}

/// Whether control leads from a block to every block that a read is under way
/// for, other than itself, and to a visited one unless it is visited.
#[verifier::opaque]
pub open spec fn near(
    list: Seq<Edge>,
    resolving: Seq<bool>,
    sealing: Seq<bool>,
    live: Seq<bool>,
    b: usize,
) -> bool {
    &&& forall|x: usize|
        #![trigger resolving[x as int]]
        #![trigger sealing[x as int]]
        x < live.len() && (resolving[x as int] || sealing[x as int]) ==> x == b || way(list, b, x)
    &&& live[b as int] || exists|c: usize| c < live.len() && live[c as int] && #[trigger] way(list, b, c)
}

/// Whether control leads from a block to every block that a read is under way
/// for, and to a visited one unless it is visited.
#[verifier::opaque]
pub open spec fn linked(
    list: Seq<Edge>,
    resolving: Seq<bool>,
    sealing: Seq<bool>,
    live: Seq<bool>,
    b: usize,
) -> bool {
    &&& forall|x: usize|
        #![trigger resolving[x as int]]
        #![trigger sealing[x as int]]
        x < live.len() && (resolving[x as int] || sealing[x as int]) ==> way(list, b, x)
    &&& live[b as int] || exists|c: usize| c < live.len() && live[c as int] && #[trigger] way(list, b, c)
}

/// A read that comes to a block again has come round.
pub proof fn lemma_linked_near(
    list: Seq<Edge>,
    resolving: Seq<bool>,
    sealing: Seq<bool>,
    live: Seq<bool>,
    b: usize,
)
    requires
        linked(list, resolving, sealing, live, b),
        b < live.len(),
    ensures
        near(list, resolving, sealing, live, b),
        resolving[b as int] ==> way(list, b, b),
{
    reveal(linked);
    reveal(near);
}

/// A read goes on from a block.
pub proof fn lemma_near_set(
    list: Seq<Edge>,
    resolving: Seq<bool>,
    sealing: Seq<bool>,
    live: Seq<bool>,
    b: usize,
)
    requires
        linked(list, resolving, sealing, live, b),
        b < live.len() == resolving.len(),
    ensures
        near(list, resolving.update(b as int, true), sealing, live, b),
{
    reveal(linked);
    reveal(near);
    let next = resolving.update(b as int, true);
    assert forall|x: usize|
        #![trigger next[x as int]]
        #![trigger sealing[x as int]]
        x < live.len() && (next[x as int] || sealing[x as int]) implies x == b || way(list, b, x) by {
        if x != b {
            assert(next[x as int] == resolving[x as int]);
        }
    }
}

/// A read goes back over an edge.
pub proof fn lemma_linked_back(
    list: Seq<Edge>,
    resolving: Seq<bool>,
    sealing: Seq<bool>,
    live: Seq<bool>,
    a: usize,
    b: usize,
)
    requires
        near(list, resolving, sealing, live, b),
        has_edge(list, a, b),
        b < live.len(),
    ensures
        linked(list, resolving, sealing, live, a),
{
    reveal(linked);
    reveal(near);
    lemma_edge_way(list, a, b);
    assert forall|x: usize|
        #![trigger resolving[x as int]]
        #![trigger sealing[x as int]]
        x < live.len() && (resolving[x as int] || sealing[x as int]) implies way(list, a, x) by {
        if x != b {
            lemma_way_back(list, a, b, x);
        }
    }
    if !live[b as int] {
        let c = choose|c: usize| c < live.len() && live[c as int] && #[trigger] way(list, b, c);
        lemma_way_back(list, a, b, c);
    }
}

/// Where a read is under way for the only predecessor of a block, control
/// comes back to the block.
pub proof fn lemma_near_home(
    list: Seq<Edge>,
    resolving: Seq<bool>,
    sealing: Seq<bool>,
    live: Seq<bool>,
    a: usize,
    b: usize,
)
    requires
        near(list, resolving, sealing, live, b),
        has_edge(list, a, b),
        a != b,
        a < live.len(),
        sealing[a as int],
    ensures
        way(list, b, b),
{
    reveal(near);
    assert(way(list, b, a));
    let t = choose|t: Seq<usize>| #[trigger] is_path(list, t) && t.len() > 1 && t[0] == b && t.last() == a;
    assert(reachable(list, b, a));
    lemma_way_round(list, a, b);
}

/// A phi is added to a block that may have one.
pub proof fn lemma_routed_mint(
    insns: Seq<Insn>,
    order: Seq<usize>,
    regs: Seq<Seq<u8>>,
    live: Seq<bool>,
    sealed: Seq<bool>,
    filled: Seq<bool>,
    b: usize,
    now: Seq<u8>,
)
    requires
        routed(insns, order, regs, live, sealed, filled),
        may_head(insns, order, b),
        b < regs.len(),
    ensures
        routed(insns, order, regs.update(b as int, now), live, sealed, filled),
{
    reveal(routed);
    let after = regs.update(b as int, now);
    assert forall|x: usize| x < after.len() && (#[trigger] after[x as int]).len() > 0 implies may_head(
        insns,
        order,
        x,
    ) by {
        if x != b {
            assert(regs[x as int].len() > 0);
        }
    }
}

/// A block that is not sealed may have phis, where it is visited or control
/// comes back from it to a visited one.
pub proof fn lemma_may_wait(
    insns: Seq<Insn>,
    order: Seq<usize>,
    regs: Seq<Seq<u8>>,
    live: Seq<bool>,
    sealed: Seq<bool>,
    filled: Seq<bool>,
    b: usize,
)
    requires
        routed(insns, order, regs, live, sealed, filled),
        b < live.len(),
        !sealed[b as int],
        live[b as int] || exists|c: usize| c < live.len() && live[c as int] && #[trigger] way(edges(insns), b, c),
    ensures
        may_head(insns, order, b),
{
    reveal(routed);
    if !live[b as int] && order.contains(b) {
        let c = choose|c: usize| c < live.len() && live[c as int] && #[trigger] way(edges(insns), b, c);
        assert(order.contains(c));
        let i = order.index_of(c);
        let j = order.index_of(b);
        if j <= i {
            assert(live[order[j] as int]);
        }
        assert(earlier(order, c, b));
    }
}

/// A sealed block whose only predecessor is not filled may have phis.
pub proof fn lemma_may_merge(
    insns: Seq<Insn>,
    order: Seq<usize>,
    regs: Seq<Seq<u8>>,
    live: Seq<bool>,
    sealed: Seq<bool>,
    filled: Seq<bool>,
    b: usize,
)
    requires
        routed(insns, order, regs, live, sealed, filled),
        b < sealed.len(),
        sealed[b as int],
        preds(insns, b).len() == 1,
        preds(insns, b)[0] != b,
        !filled[preds(insns, b)[0] as int],
    ensures
        may_head(insns, order, b),
{
    reveal(routed);
}

/// Nothing has been visited at the start.
pub proof fn lemma_routed_start(
    insns: Seq<Insn>,
    order: Seq<usize>,
    regs: Seq<Seq<u8>>,
    none: Seq<bool>,
)
    requires
        forall|b: int| 0 <= b < regs.len() ==> (#[trigger] regs[b]).len() == 0,
        forall|b: int| 0 <= b < none.len() ==> !#[trigger] none[b],
        forall|i: int| 0 <= i < order.len() ==> #[trigger] order[i] < none.len(),
    ensures
        routed(insns, order, regs, none, none, none),
{
    reveal(routed);
}

/// Visiting the next block of the order: it is sealed at once if its
/// predecessors are.
pub proof fn lemma_routed_visit(
    insns: Seq<Insn>,
    cfg: &Cfg,
    regs: Seq<Seq<u8>>,
    live: Seq<bool>,
    sealed: Seq<bool>,
    filled: Seq<bool>,
    k: int,
    ready: bool,
)
    requires
        cfg.describes(insns),
        routed(insns, cfg.order(), regs, live, sealed, filled),
        0 <= k < cfg.order().len(),
        live.len() == sealed.len() == filled.len(),
        forall|i: int| 0 <= i < cfg.order().len() ==> #[trigger] cfg.order()[i] < live.len(),
        forall|i: int| 0 <= i < cfg.order().len() ==> #[trigger] live[cfg.order()[i] as int] == (i < k),
        forall|x: int| 0 <= x < live.len() ==> #[trigger] sealed[x] == live[x] && filled[x] == live[x],
        ready == forall|j: int|
            0 <= j < preds(insns, cfg.order()[k]).len() ==> sealed[#[trigger] preds(insns, cfg.order()[k])[j] as int],
        forall|j: int|
            0 <= j < preds(insns, cfg.order()[k]).len() ==> #[trigger] preds(insns, cfg.order()[k])[j] < live.len(),
    ensures
        ({
            let b = cfg.order()[k] as int;
            routed(insns, cfg.order(), regs, live.update(b, true), if ready {
                sealed.update(b, true)
            } else {
                sealed
            }, filled)
        }),
{
    reveal(routed);
    let order = cfg.order();
    let b = order[k];
    let from = preds(insns, b);
    let after = live.update(b as int, true);
    assert(order.contains(b));
    assert forall|i: int, j: int| 0 <= i < j < order.len() && after[#[trigger] order[j] as int] implies after[#[trigger] order[i] as int] by {
        if order[j] == b {
            assert(j == k);
            assert(live[order[i] as int] == (i < k));
        } else {
            assert(live[order[j] as int] == (j < k));
            assert(live[order[i] as int] == (i < k));
        }
    }
    if !ready && b != 0 && from.len() == 1 {
        let p = from[0];
        assert(!sealed[p as int]);
        lemma_pred_edge(edges(insns), b, 0);
        let kind = choose|kind: crate::cfg::EdgeKind| #[trigger] edges(insns).contains((p, b, kind));
        let e = edges(insns).index_of((p, b, kind));
        assert(edges(insns)[e] == (p, b, kind));
        assert(has_edge(edges(insns), p, b));
        if p == b {
            lemma_edge_way(edges(insns), b, b);
        } else {
            lemma_only_way(insns, b);
            assert(order.contains(p));
            let j = order.index_of(p);
            assert(live[order[j] as int] == (j < k));
            assert(j > k);
            assert(has_edge(edges(insns), order[j], order[k]));
            assert(reachable(edges(insns), order[k], order[j]));
            lemma_way_round(edges(insns), p, b);
        }
        assert(may_head(insns, order, b));
    }
    assert forall|x: usize| x < after.len() && #[trigger] after[x as int] implies order.contains(x) by {
        if x != b {
            assert(live[x as int]);
        }
    }
    let now = if ready {
        sealed.update(b as int, true)
    } else {
        sealed
    };
    assert forall|x: usize| x < after.len() && #[trigger] after[x as int] && !now[x as int] implies may_head(insns, order, x) by {
        if x != b {
            assert(live[x as int]);
            assert(sealed[x as int] == live[x as int]);
        }
    }
    assert forall|x: usize|
        x < now.len() && #[trigger] now[x as int] && preds(insns, x).len() == 1 && preds(insns, x)[0] != x implies filled[preds(
        insns,
        x,
    )[0] as int] || may_head(insns, order, x) by {
        if x == b {
            if ready {
                assert(sealed[from[0] as int]);
            } else {
                assert(sealed[x as int]);
            }
        } else {
            assert(sealed[x as int]);
        }
    }
}

/// A block with one predecessor is reached over it.
proof fn lemma_only_way(insns: Seq<Insn>, b: usize)
    requires
        b != 0,
        reachable(edges(insns), 0, b),
        preds(insns, b).len() == 1,
    ensures
        reachable(edges(insns), 0, preds(insns, b)[0]),
{
    let list = edges(insns);
    let t = choose|t: Seq<usize>| #[trigger] is_path(list, t) && t[0] == 0 && t.last() == b;
    let n = t.len() as int;
    assert(n > 1);
    let u = t.take(n - 1);
    assert(is_path(list, u)) by {
        assert forall|i: int| 0 <= i < u.len() - 1 implies has_edge(list, #[trigger] u[i], u[i + 1]) by {
            assert(has_edge(list, t[i], t[i + 1]));
        }
    }
    assert(has_edge(list, t[n - 2], t[n - 2 + 1]));
    lemma_listed_pred(list, t[n - 2], b);
    assert(u[0] == 0 && u.last() == preds(insns, b)[0]);
}

/// The source of an edge is a predecessor.
proof fn lemma_listed_pred(list: Seq<Edge>, a: usize, b: usize)
    requires
        has_edge(list, a, b),
    ensures
        predecessors(list, b).contains(a),
        predecessors(list, b).len() == 1 ==> predecessors(list, b)[0] == a,
    decreases list.len(),
{
    let e = choose|e: int| 0 <= e < list.len() && (#[trigger] list[e]).0 == a && list[e].1 == b;
    let rest = predecessors(list.drop_last(), b);
    let all = predecessors(list, b);
    if e == list.len() - 1 {
        assert(all[0] == a);
    } else {
        assert(list.drop_last()[e] == list[e]);
        assert(has_edge(list.drop_last(), a, b));
        lemma_listed_pred(list.drop_last(), a, b);
        let k = rest.index_of(a);
        if list.last().1 == b {
            assert(all[k + 1] == a);
        } else {
            assert(all[k] == a);
        }
    }
}

/// Filling a block, and sealing it then.
pub proof fn lemma_routed_seal(
    insns: Seq<Insn>,
    order: Seq<usize>,
    regs: Seq<Seq<u8>>,
    live: Seq<bool>,
    sealed: Seq<bool>,
    filled: Seq<bool>,
    b: usize,
)
    requires
        routed(insns, order, regs, live, sealed, filled),
        b < live.len(),
        live.len() == sealed.len() == filled.len(),
        live[b as int],
    ensures
        routed(insns, order, regs, live, sealed.update(b as int, true), filled),
{
    reveal(routed);
    let now = sealed.update(b as int, true);
    assert forall|x: usize|
        x < now.len() && #[trigger] now[x as int] && preds(insns, x).len() == 1 && preds(insns, x)[0] != x implies filled[preds(
        insns,
        x,
    )[0] as int] || may_head(insns, order, x) by {
        if x != b {
            assert(sealed[x as int]);
        } else if sealed[b as int] {
            assert(sealed[x as int]);
        } else {
            assert(live[x as int]);
        }
    }
    assert forall|x: usize| x < live.len() && #[trigger] live[x as int] && !now[x as int] implies may_head(insns, order, x) by {
        assert(!sealed[x as int]);
    }
}

pub proof fn lemma_routed_fill(
    insns: Seq<Insn>,
    order: Seq<usize>,
    regs: Seq<Seq<u8>>,
    live: Seq<bool>,
    sealed: Seq<bool>,
    filled: Seq<bool>,
    b: usize,
)
    requires
        routed(insns, order, regs, live, sealed, filled),
        b < filled.len(),
        live.len() == sealed.len() == filled.len(),
        forall|x: usize, j: int|
            x < live.len() && 0 <= j < preds(insns, x).len() ==> (#[trigger] preds(insns, x)[j]) < live.len(),
    ensures
        routed(insns, order, regs, live, sealed, filled.update(b as int, true)),
{
    reveal(routed);
    let now = filled.update(b as int, true);
    assert forall|x: usize|
        x < sealed.len() && #[trigger] sealed[x as int] && preds(insns, x).len() == 1 && preds(insns, x)[0] != x implies now[preds(
        insns,
        x,
    )[0] as int] || may_head(insns, order, x) by {
        assert(preds(insns, x)[0] < live.len());
    }
}

} // verus!
