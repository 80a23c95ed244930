//! SSA programs of programs are light: rounds of passes can be counted for
//! them.
use vstd::prelude::*;

use crate::cfg::{blocks, blocks_partition_program, edges, lemma_leaders};
use crate::graph::{predecessors, Edge};
use crate::ssa::built::{lemma_full, lemma_progress, Built};
use crate::ssa::construct::lemma_few_edges;
use crate::ssa::form::{base, preds, starts};
use crate::ssa::progress::{live_count, op_weight, ops_weight};
use crate::ssa::{Op, SsaBlock};

verus! {

/// The number of edges into the first `n` blocks.
spec fn into_first(list: Seq<Edge>, n: int) -> nat
    decreases list.len(),
{
    if list.len() == 0 {
        0
    } else {
        into_first(list.drop_last(), n) + (if list.last().1 < n {
            1nat
        } else {
            0nat
        })
    }
}

proof fn lemma_into_next(list: Seq<Edge>, b: usize)
    ensures
        into_first(list, b + 1) == into_first(list, b as int) + predecessors(list, b).len(),
        into_first(list, b + 1) <= list.len(),
    decreases list.len(),
{
    if list.len() > 0 {
        lemma_into_next(list.drop_last(), b);
    }
}

/// The weight of two sequences is that of both.
proof fn lemma_joined_weight(a: Seq<Op>, b: Seq<Op>, n: nat)
    requires
        n <= b.len(),
    ensures
        ops_weight(a + b, a.len() + n) == ops_weight(a, a.len()) + ops_weight(b, n),
    decreases n,
{
    if n == 0 {
        lemma_prefix_weight(a, b, a.len());
    } else {
        lemma_joined_weight(a, b, (n - 1) as nat);
        assert((a + b)[a.len() + n - 1] == b[n - 1]);
    }
}

proof fn lemma_prefix_weight(a: Seq<Op>, b: Seq<Op>, n: nat)
    requires
        n <= a.len(),
    ensures
        ops_weight(a + b, n) == ops_weight(a, n),
    decreases n,
{
    if n > 0 {
        lemma_prefix_weight(a, b, (n - 1) as nat);
        assert((a + b)[n - 1] == a[n - 1]);
    }
}

/// Instructions of at most some weight.
proof fn lemma_bounded_weight(ops: Seq<Op>, lo: nat, n: nat, most: nat)
    requires
        lo <= n <= ops.len(),
        forall|i: int| lo <= i < n ==> op_weight(#[trigger] ops[i]) <= most,
    ensures
        ops_weight(ops, n) <= ops_weight(ops, lo) + (n - lo) * most,
    decreases n,
{
    if n > lo {
        let m = (n - 1) as nat;
        lemma_bounded_weight(ops, lo, m, most);
        assert(op_weight(ops[m as int]) <= most);
        assert((n - lo) * most == (m - lo) * most + most) by (nonlinear_arith)
            requires
                m == n - 1,
        ;
    }
}

proof fn lemma_few_regs(regs: Seq<u8>, n: nat)
    requires
        regs.no_duplicates(),
        n <= 255,
        forall|k: int| 0 <= k < regs.len() ==> #[trigger] regs[k] < n,
    ensures
        regs.len() <= n,
    decreases n,
{
    if n == 0 {
        if regs.len() > 0 {
            assert(regs[0] < n);
        }
    } else {
        let last = (n - 1) as u8;
        if regs.contains(last) {
            let i = choose|i: int| 0 <= i < regs.len() && regs[i] == last;
            let rest = regs.remove(i);
            assert forall|k: int| 0 <= k < rest.len() implies #[trigger] rest[k] < n - 1 by {
                let j = if k < i {
                    k
                } else {
                    k + 1
                };
                assert(rest[k] == regs[j] && j != i);
            }
            assert(rest.no_duplicates()) by {
                assert forall|x: int, y: int| 0 <= x < rest.len() && 0 <= y < rest.len() && x != y implies rest[x]
                    != rest[y] by {
                    let a = if x < i {
                        x
                    } else {
                        x + 1
                    };
                    let b = if y < i {
                        y
                    } else {
                        y + 1
                    };
                    assert(rest[x] == regs[a] && rest[y] == regs[b] && a != b);
                }
            }
            lemma_few_regs(rest, (n - 1) as nat);
        } else {
            assert forall|k: int| 0 <= k < regs.len() implies #[trigger] regs[k] < n - 1 by {
                assert(regs.contains(regs[k]));
            }
            lemma_few_regs(regs, (n - 1) as nat);
        }
    }
}

/// A body has no more instructions than it renders.
proof fn lemma_body_len(c: Built, b: usize, pc: int)
    requires
        c.ok(),
        b < blocks(c.insns).len(),
        c.order.contains(b),
        c.first(b) <= pc <= c.end(b),
    ensures
        c.progress(b, pc).0 <= pc - c.first(b),
    decreases pc,
{
    if pc > c.first(b) {
        lemma_body_len(c, b, pc - 1);
        lemma_progress(c, b, pc - 1);
    }
}

/// What a head weighs.
proof fn lemma_head_weight(c: Built, b: usize)
    requires
        c.ok(),
        b < blocks(c.insns).len(),
    ensures
        ops_weight(c.form.heads[b as int], c.form.heads[b as int].len()) <= base(b) + 22 + 11 * preds(c.insns, b).len(),
{
    reveal(Built::ok);
    let head = c.form.heads[b as int];
    let regs = c.form.regs[b as int];
    let most = 2 + preds(c.insns, b).len();
    assert(c.form.head_ok(c.insns, c.order, b));
    assert forall|k: int| 0 <= k < regs.len() implies #[trigger] regs[k] < 11 by {}
    lemma_few_regs(regs, 11);
    assert forall|i: int| 0 <= i < base(b) implies op_weight(#[trigger] head[i]) <= 1 by {
        assert(head.take(3)[i] == head[i]);
    }
    assert forall|i: int| base(b) <= i < head.len() implies op_weight(#[trigger] head[i]) <= most by {
        let k = i - base(b);
        assert(regs[k] < 11);
        assert(head[base(b) + k] is Phi);
        assert(starts(c.insns, b, regs[k]).len() <= 1);
    }
    lemma_bounded_weight(head, 0, base(b) as nat, 1);
    lemma_bounded_weight(head, base(b) as nat, head.len(), most);
    assert(regs.len() * most <= 11 * most) by (nonlinear_arith)
        requires
            regs.len() <= 11,
    ;
}

/// What the first blocks weigh.
proof fn lemma_flat_weight(c: Built, n: nat)
    requires
        c.ok(),
        n <= blocks(c.insns).len(),
    ensures
        ops_weight(c.form.flat(n), c.form.flat(n).len()) <= 3 + 22 * n + 11 * into_first(edges(c.insns), n as int)
            + 2 * (if n == 0 {
            0
        } else {
            c.end((n - 1) as usize)
        }),
    decreases n,
{
    reveal(Built::ok);
    blocks_partition_program(c.insns);
    if n > 0 {
        let m = (n - 1) as nat;
        let b = m as usize;
        lemma_flat_weight(c, m);
        let (before, head, body) = (c.form.flat(m), c.form.heads[m as int], c.form.bodies[m as int]);
        lemma_joined_weight(before, head, head.len());
        lemma_joined_weight(before + head, body, body.len());
        assert(c.form.flat(n) =~= before + head + body);
        lemma_head_weight(c, b);
        lemma_into_next(edges(c.insns), b);
        assert(ops_weight(body, body.len()) <= 2 * (c.end(b) - c.first(b))) by {
            if c.order.contains(b) {
                lemma_full(c, b);
                lemma_body_len(c, b, c.end(b));
                lemma_progress(c, b, c.end(b));
                assert forall|i: int| 0 <= i < body.len() implies op_weight(#[trigger] body[i]) <= 2 by {}
                lemma_bounded_weight(body, 0, body.len(), 2);
            } else {
                assert(body.len() == 0);
            }
        }
        assert(c.first(b) == (if m == 0 {
            0
        } else {
            c.end((m - 1) as usize)
        })) by {
            if m > 0 {
                assert(blocks(c.insns)[m - 1].end == blocks(c.insns)[m as int].start);
            }
        }
        if m == 0 {
            assert(before.len() == 0);
        }
    }
}

proof fn lemma_live_count(nodes: Seq<SsaBlock>, n: nat)
    ensures
        live_count(nodes, n) <= n,
    decreases n,
{
    if n > 0 {
        lemma_live_count(nodes, (n - 1) as nat);
    }
}

/// An SSA program of a program weighs so little that rounds of passes can be
/// counted for it.
pub proof fn lemma_built_weight(c: Built)
    requires
        c.ok(),
    ensures
        c.prog.weight() + 1 < u64::MAX,
{
    reveal(Built::ok);
    let n = blocks(c.insns).len();
    blocks_partition_program(c.insns);
    lemma_leaders(c.insns, c.insns.len());
    lemma_flat_weight(c, n);
    lemma_few_edges(c.insns, n);
    if n > 0 {
        lemma_into_next(edges(c.insns), (n - 1) as usize);
    }
    lemma_live_count(c.prog.nodes, c.prog.nodes.len());
    assert(c.prog.insns == c.form.flat(c.form.heads.len()));
}

} // verus!
