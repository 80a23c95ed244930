//! What acceptance means: the entry states that the verifier ends with cover
//! every run, so an accepted program does not fault on memory.
use vstd::prelude::*;

use crate::cfg::{
    block_edges, block_index, blocks, blocks_partition_program, edges, edges_mirror_control,
    edges_of_first, is_leader, leaders, leads, lemma_leader_block, lemma_leaders,
    lemma_target_exists, transfers, Cfg, EdgeKind,
};
use crate::graph::{out_edges, Edge};
use crate::isa::insn::Insn;
use crate::slots::lemma_slot_bounds;
use crate::bytes::lemma_bytes_len;
use crate::verify::meaning::{
    eased, fails, hosts, lemma_step_len, hosts_one, merge_keeps, reads_result, reg_holds, serves_maps, step_ignores_result,
    step_is_covered, values_sized, writes_result,
    way_out,
};
use crate::verify::state::StateModel;
use crate::verify::transfer::{
    edge_keeps_shape, edge_state, transfer, transfer_keeps_shape,
};
use crate::verify::walk::{
    block_exit, first_desc, lemma_graph_in_bounds, map_table, task_of, ConfigModel, Task, WalkModel,
};
use crate::verify::VerifyError;
use crate::vm::exec::loaded;
use crate::vm::maps::{
    as_map, entry_matches, has_key, index_of, max_fd, pairs_of, slots_of, stores_error, table_error,
    DescModel, MapStore, StoreModel,
};
use crate::vm::memory::{MAP_SCRATCH_BASE, PACKET_BASE};
use crate::vm::{map_helper, tables_of, HelperFn, StepResult, VmModel};

verus! {

/// Whether a state stands for every machine that another stands for.
pub open spec fn covers(t: StateModel, s: StateModel) -> bool {
    forall|m: VmModel| #[trigger] s.describes(m) ==> t.describes(m)
}

proof fn lemma_covers(a: StateModel, b: StateModel, c: StateModel)
    requires
        covers(a, b),
        covers(b, c),
    ensures
        covers(a, c),
{
    assert forall|m: VmModel| #[trigger] c.describes(m) implies a.describes(m) by {
        assert(b.describes(m));
    }
}

/// Merging covers both sides.
proof fn lemma_merge_covers(a: StateModel, b: StateModel)
    requires
        a.wf(),
        b.wf(),
        a.maps == b.maps,
        a.packet_len == b.packet_len,
    ensures
        covers(a.joined(b), a),
        covers(a.joined(b), b),
        covers(a.widened(b), a),
        covers(a.widened(b), b),
        a.joined(b).wf(),
        a.widened(b).wf(),
        a.joined(b).maps == a.maps,
        a.widened(b).maps == a.maps,
{
    crate::verify::lattice::join_maps_idempotent(a.maps);
    assert forall|m: VmModel| #[trigger] a.describes(m) implies a.joined(b).describes(m)
        && a.widened(b).describes(m) by {
        merge_keeps(a, b, m);
    }
    assert forall|m: VmModel| #[trigger] b.describes(m) implies a.joined(b).describes(m)
        && a.widened(b).describes(m) by {
        merge_keeps(a, b, m);
    }
}

/// Whether a state has the sizes, the maps and the packet length of a task.
spec fn sane(task: Task, s: StateModel) -> bool {
    s.wf() && s.maps == map_table(task.config.maps) && s.packet_len == task.config.packet_len
}

proof fn lemma_transfer_sane(task: Task, pc: usize, insn: Insn, s: StateModel)
    requires
        sane(task, s),
        insn.valid(),
        transfer(pc, insn, s) is Ok,
    ensures
        sane(task, transfer(pc, insn, s)->Ok_0),
{
    transfer_keeps_shape(pc, insn, s);
}

proof fn lemma_edge_sane(task: Task, s: StateModel, kind: EdgeKind, last: Insn)
    requires
        sane(task, s),
        last.valid(),
    ensures
        sane(task, edge_state(s, kind, last)),
{
    edge_keeps_shape(s, kind, last);
}

proof fn lemma_exit_sane(task: Task, pc: int, end: int, s: StateModel)
    requires
        sane(task, s),
        0 <= pc,
        end <= task.insns.len(),
        forall|i: int| 0 <= i < task.insns.len() ==> (#[trigger] task.insns[i]).valid(),
        block_exit(task.insns, pc, end, s) is Ok,
    ensures
        sane(task, block_exit(task.insns, pc, end, s)->Ok_0),
    decreases end - pc,
{
    if pc < end {
        lemma_transfer_sane(task, pc as usize, task.insns[pc], s);
        lemma_exit_sane(task, pc + 1, end, transfer(pc as usize, task.insns[pc], s)->Ok_0);
    }
}

/// How many changes of an entry state were not yet seen.
spec fn lag(w: WalkModel, b: int) -> int {
    if w.changes[b] >= w.seen[b] {
        w.changes[b] - w.seen[b]
    } else {
        w.changes[b] - w.seen[b] + 0x1_0000_0000
    }
}

/// Whether what leaves a block is covered by what its successors start with.
pub open spec fn block_covered(task: Task, w: WalkModel, b: int, s: StateModel) -> bool {
    let start = blocks(task.insns)[b].start.0 as int;
    let end = blocks(task.insns)[b].end.0 as int;
    let out = out_edges(edges(task.insns), b as usize);
    &&& block_exit(task.insns, start, end, s) is Ok
    &&& forall|k: int|
        0 <= k < out.len() ==> edge_covered(
            w,
            #[trigger] out[k],
            block_exit(task.insns, start, end, s)->Ok_0,
            task.insns[end - 1],
        )
}

/// Whether what flows along an edge is covered by what its target starts
/// with.
pub open spec fn edge_covered(w: WalkModel, e: (usize, EdgeKind), s: StateModel, last: Insn) -> bool {
    w.states[e.0 as int] is Some && covers(w.states[e.0 as int]->0, edge_state(s, e.1, last))
}

/// The parts of a run have their sizes, and its queue holds blocks, each
/// once.
spec fn orderly(task: Task, w: WalkModel) -> bool {
    let n = task.block_count();
    &&& w.states.len() == n
    &&& w.changes.len() == n
    &&& w.seen.len() == n
    &&& w.merges.len() == n
    &&& w.queued.len() == n
    &&& w.queue.len() <= n
    &&& w.queue.no_duplicates()
    &&& forall|p: int| 0 <= p < w.queue.len() ==> #[trigger] w.queue[p] < n
    &&& forall|b: usize| b < n ==> (#[trigger] w.queued[b as int] <==> w.queue.contains(b))
    &&& forall|b: int|
        0 <= b < n ==> ((#[trigger] w.states[b]) is Some ==> sane(task, w.states[b]->0))
    &&& w.states[0] is Some
    &&& covers(w.states[0]->0, task.entry_state())
}

/// No block waits too long: the unseen changes of a waiting block are
/// bounded by its place in the queue.
spec fn timely(task: Task, w: WalkModel, slack: int) -> bool {
    let n = task.block_count();
    &&& forall|p: int|
        0 <= p < w.queue.len() ==> 1 <= lag(w, #[trigger] w.queue[p] as int) <= 2 * (n - p) - 1
            + slack
    &&& forall|b: usize| b < n && !(#[trigger] w.queued[b as int]) ==> lag(w, b as int) <= 1
}

/// Between visits: every block that does not wait is covered.
spec fn settled(task: Task, w: WalkModel) -> bool {
    &&& orderly(task, w)
    &&& timely(task, w, 2)
    &&& forall|b: usize|
        b < task.block_count() && !(#[trigger] w.queued[b as int]) && w.states[b as int] is Some
            ==> lag(w, b as int) == 0 && block_covered(task, w, b as int, w.states[b as int]->0)
}

/// During the visit of a block, after `i` of its edges.
spec fn flowing(task: Task, w: WalkModel, node: usize, s: StateModel, i: nat) -> bool {
    let start = blocks(task.insns)[node as int].start.0 as int;
    let end = blocks(task.insns)[node as int].end.0 as int;
    let out = out_edges(edges(task.insns), node);
    &&& orderly(task, w)
    &&& timely(task, w, i as int)
    &&& forall|b: usize|
        b < task.block_count() && !(#[trigger] w.queued[b as int]) && w.states[b as int] is Some
            ==> lag(w, b as int) == 0 && (if b == node {
            w.states[b as int] == Some(s)
        } else {
            block_covered(task, w, b as int, w.states[b as int]->0)
        })
    &&& forall|k: int|
        0 <= k < i ==> edge_covered(
            w,
            #[trigger] out[k],
            block_exit(task.insns, start, end, s)->Ok_0,
            task.insns[end - 1],
        )
}

/// Entry states that only move up keep what they cover.
proof fn lemma_still_covered(task: Task, w: WalkModel, v: WalkModel, e: (usize, EdgeKind), s: StateModel, last: Insn)
    requires
        edge_covered(w, e, s, last),
        v.states[e.0 as int] is Some,
        covers(v.states[e.0 as int]->0, w.states[e.0 as int]->0),
    ensures
        edge_covered(v, e, s, last),
{
    lemma_covers(v.states[e.0 as int]->0, w.states[e.0 as int]->0, edge_state(s, e.1, last));
}

/// What a merge does to a run.
proof fn lemma_merged(task: Task, w: WalkModel, node: usize, incoming: StateModel)
    requires
        orderly(task, w),
        node < task.block_count(),
        sane(task, incoming),
    ensures
        ({
            let v = w.merged(node, incoming, task.config.threshold);
            &&& orderly(task, v)
            &&& v.states[node as int] is Some
            &&& covers(v.states[node as int]->0, incoming)
            &&& w.states[node as int] is Some ==> covers(
                v.states[node as int]->0,
                w.states[node as int]->0,
            )
            &&& forall|b: int|
                0 <= b < task.block_count() && b != node ==> #[trigger] v.states[b] == w.states[b]
            &&& v.seen == w.seen
            &&& v.states[node as int] == w.states[node as int] ==> v.changes == w.changes
                && v.queue == w.queue && v.queued == w.queued
            &&& v.states[node as int] != w.states[node as int] ==> {
                &&& v.changes == w.changes.update(
                    node as int,
                    w.changes[node as int].wrapping_add(1),
                )
                &&& v.queued == w.queued.update(node as int, true)
                &&& v.queue == (if w.queued[node as int] {
                    w.queue
                } else {
                    w.queue.push(node)
                })
            }
        }),
{
    let threshold = task.config.threshold;
    let v = w.merged(node, incoming, threshold);
    let n = task.block_count();
    if let Some(existing) = w.states[node as int] {
        assert(sane(task, existing));
        lemma_merge_covers(existing, incoming);
    }
    let changed = v.states[node as int] != w.states[node as int];
    if changed {
        assert(v.queued =~= w.queued.update(node as int, true));
        assert forall|b: usize| b < n implies (#[trigger] v.queued[b as int] <==> v.queue.contains(b)) by {
            assert(w.queued[b as int] <==> w.queue.contains(b));
            if !w.queued[node as int] {
                let q = w.queue.push(node);
                if b == node {
                    assert(q[w.queue.len() as int] == node);
                } else if w.queue.contains(b) {
                    let p = w.queue.index_of(b);
                    assert(q[p] == b);
                } else if q.contains(b) {
                    let p = q.index_of(b);
                    assert(w.queue[p] == b);
                }
            }
        }
        if !w.queued[node as int] {
            assert(!w.queue.contains(node));
            lemma_push_distinct(w.queue, node, n);
        }
        assert forall|p: int| 0 <= p < v.queue.len() implies #[trigger] v.queue[p] < n by {
            if p < w.queue.len() {
                assert(w.queue[p] < n);
            }
        }
    } else {
        assert(v.states =~= w.states);
    }
    assert forall|b: int| 0 <= b < n implies ((#[trigger] v.states[b]) is Some ==> sane(
        task,
        v.states[b]->0,
    )) by {
        if b != node {
            assert(w.states[b] is Some ==> sane(task, w.states[b]->0));
        }
    }
    if node == 0 {
        lemma_covers(v.states[0]->0, w.states[0]->0, task.entry_state());
    }
}

/// Numbers below a bound that are all different are not more than the bound.
proof fn lemma_distinct_len(s: Seq<usize>, n: nat)
    requires
        s.no_duplicates(),
        forall|i: int| 0 <= i < s.len() ==> #[trigger] s[i] < n,
    ensures
        s.len() <= n,
    decreases n,
{
    if s.len() > 0 && n > 0 {
        let top = (n - 1) as usize;
        if s.contains(top) {
            let i = s.index_of(top);
            let rest = s.remove(i);
            assert forall|j: int, k: int| 0 <= j < rest.len() && 0 <= k < rest.len() && j != k implies rest[j]
                != rest[k] by {
                let a = if j < i {
                    j
                } else {
                    j + 1
                };
                let b = if k < i {
                    k
                } else {
                    k + 1
                };
                assert(rest[j] == s[a] && rest[k] == s[b]);
            }
            assert forall|j: int| 0 <= j < rest.len() implies #[trigger] rest[j] < n - 1 by {
                let a = if j < i {
                    j
                } else {
                    j + 1
                };
                assert(rest[j] == s[a]);
                assert(s[a] < n);
                assert(s[a] != s[i]);
            }
            lemma_distinct_len(rest, (n - 1) as nat);
        } else {
            assert forall|j: int| 0 <= j < s.len() implies #[trigger] s[j] < n - 1 by {
                assert(s[j] < n);
                assert(s.contains(s[j]));
            }
            lemma_distinct_len(s, (n - 1) as nat);
        }
    } else if s.len() > 0 {
        assert(s[0] < n);
    }
}

/// A block that joins a queue of other blocks.
proof fn lemma_push_distinct(q: Seq<usize>, node: usize, n: nat)
    requires
        q.no_duplicates(),
        !q.contains(node),
        node < n,
        forall|p: int| 0 <= p < q.len() ==> #[trigger] q[p] < n,
    ensures
        q.push(node).no_duplicates(),
        q.len() + 1 <= n,
{
    let all = q.push(node);
    assert forall|j: int, k: int| 0 <= j < all.len() && 0 <= k < all.len() && j != k implies all[j]
        != all[k] by {
        if j < q.len() {
            assert(q.contains(q[j]));
        }
        if k < q.len() {
            assert(q.contains(q[k]));
        }
    }
    lemma_distinct_len(all, n);
}

/// Whether entry states only moved up.
spec fn ascended(task: Task, w: WalkModel, v: WalkModel) -> bool {
    forall|b: int|
        0 <= b < task.block_count() && (#[trigger] w.states[b]) is Some ==> v.states[b] is Some
            && covers(v.states[b]->0, w.states[b]->0)
}

/// Whether the edges of a program lead to blocks, and no block has more than
/// two.
spec fn bounded(task: Task) -> bool {
    let n = task.block_count();
    &&& 0 < n <= 0x7fff_ffff
    &&& forall|i: int| 0 <= i < task.insns.len() ==> (#[trigger] task.insns[i]).valid()
    &&& forall|k: int|
        0 <= k < n ==> (#[trigger] blocks(task.insns)[k]).start.0 < blocks(task.insns)[k].end.0
            <= task.insns.len()
    &&& forall|node: usize| (#[trigger] out_edges(edges(task.insns), node)).len() <= 2
    &&& forall|node: usize, i: int|
        0 <= i < out_edges(edges(task.insns), node).len() ==> (#[trigger] out_edges(
            edges(task.insns),
            node,
        )[i]).0 < n
}

proof fn lemma_block_stays(task: Task, w: WalkModel, v: WalkModel, b: int, s: StateModel)
    requires
        bounded(task),
        ascended(task, w, v),
        block_covered(task, w, b, s),
        0 <= b < task.block_count(),
    ensures
        block_covered(task, v, b, s),
{
    let start = blocks(task.insns)[b].start.0 as int;
    let end = blocks(task.insns)[b].end.0 as int;
    let out = out_edges(edges(task.insns), b as usize);
    let exit = block_exit(task.insns, start, end, s)->Ok_0;
    assert forall|k: int| 0 <= k < out.len() implies edge_covered(
        v,
        #[trigger] out[k],
        exit,
        task.insns[end - 1],
    ) by {
        assert(out_edges(edges(task.insns), b as usize)[k].0 < task.block_count());
        assert(edge_covered(w, out[k], exit, task.insns[end - 1]));
        lemma_still_covered(task, w, v, out[k], exit, task.insns[end - 1]);
    }
}

/// One edge of a visit.
proof fn lemma_flow_one(task: Task, w: WalkModel, node: usize, s: StateModel, i: nat)
    requires
        bounded(task),
        node < task.block_count(),
        sane(task, s),
        i < out_edges(edges(task.insns), node).len(),
        flowing(task, w, node, s, i),
        block_exit(
            task.insns,
            blocks(task.insns)[node as int].start.0 as int,
            blocks(task.insns)[node as int].end.0 as int,
            s,
        ) is Ok,
    ensures
        ({
            let start = blocks(task.insns)[node as int].start.0 as int;
            let end = blocks(task.insns)[node as int].end.0 as int;
            let (target, kind) = out_edges(edges(task.insns), node)[i as int];
            let exit = block_exit(task.insns, start, end, s)->Ok_0;
            flowing(
                task,
                w.merged(
                    target,
                    edge_state(exit, kind, task.insns[end - 1]),
                    task.config.threshold,
                ),
                node,
                s,
                i + 1,
            )
        }),
{
    let n = task.block_count();
    let start = blocks(task.insns)[node as int].start.0 as int;
    let end = blocks(task.insns)[node as int].end.0 as int;
    let out = out_edges(edges(task.insns), node);
    let (target, kind) = out[i as int];
    let last = task.insns[end - 1];
    let exit = block_exit(task.insns, start, end, s)->Ok_0;
    let incoming = edge_state(exit, kind, last);
    assert(blocks(task.insns)[node as int].start.0 < blocks(task.insns)[node as int].end.0
        <= task.insns.len());
    assert(out_edges(edges(task.insns), node)[i as int].0 < n);
    assert(out_edges(edges(task.insns), node).len() <= 2);
    assert(last.valid());
    lemma_exit_sane(task, start, end, s);
    lemma_edge_sane(task, exit, kind, last);
    lemma_merged(task, w, target, incoming);
    let v = w.merged(target, incoming, task.config.threshold);
    assert(ascended(task, w, v)) by {
        assert forall|b: int| 0 <= b < n && (#[trigger] w.states[b]) is Some implies v.states[b] is Some
            && covers(v.states[b]->0, w.states[b]->0) by {
            if b != target {
                assert(v.states[b] == w.states[b]);
            }
        }
    }
    let changed = v.states[target as int] != w.states[target as int];
    let t = target as int;
    // The unseen changes of the target, before and after.
    assert(lag(w, t) <= 2 * n + 1) by {
        if w.queued[t] {
            assert(w.queue.contains(target));
            let p = w.queue.index_of(target);
            assert(w.queue[p] == target);
        }
    }
    assert(changed ==> lag(v, t) == lag(w, t) + 1);
    assert forall|p: int| 0 <= p < v.queue.len() implies 1 <= lag(v, #[trigger] v.queue[p] as int)
        <= 2 * (n - p) - 1 + (i + 1) by {
        if p < w.queue.len() {
            assert(v.queue[p] == w.queue[p]);
            assert(1 <= lag(w, w.queue[p] as int) <= 2 * (n - p) - 1 + i);
            if w.queue[p] != target {
                assert(v.changes[w.queue[p] as int] == w.changes[w.queue[p] as int]);
            }
        } else {
            assert(changed && !w.queued[t]);
            assert(v.queue[p] == target);
            assert(lag(w, t) <= 1);
            assert(p == w.queue.len());
            assert(v.queue.len() <= n);
        }
    }
    assert forall|b: usize| b < n && !(#[trigger] v.queued[b as int]) implies lag(v, b as int) <= 1 by {
        assert(!w.queued[b as int]);
        if changed {
            assert(b != target);
            assert(v.changes[b as int] == w.changes[b as int]);
        }
    }
    assert forall|b: usize|
        b < n && !(#[trigger] v.queued[b as int]) && v.states[b as int] is Some implies lag(
        v,
        b as int,
    ) == 0 && (if b == node {
        v.states[b as int] == Some(s)
    } else {
        block_covered(task, v, b as int, v.states[b as int]->0)
    }) by {
        assert(!w.queued[b as int]);
        if changed {
            assert(b != target);
            assert(v.changes[b as int] == w.changes[b as int]);
        }
        assert(v.states[b as int] == w.states[b as int]);
        if b != node {
            lemma_block_stays(task, w, v, b as int, w.states[b as int]->0);
        }
    }
    assert forall|k: int| 0 <= k < i + 1 implies edge_covered(v, #[trigger] out[k], exit, last) by {
        if k < i {
            assert(out_edges(edges(task.insns), node)[k].0 < n);
            assert(edge_covered(w, out[k], exit, last));
            lemma_still_covered(task, w, v, out[k], exit, last);
        }
    }
}

/// The edges of a visit that are left.
proof fn lemma_flow(task: Task, w: WalkModel, node: usize, s: StateModel, i: nat)
    requires
        bounded(task),
        node < task.block_count(),
        sane(task, s),
        i <= out_edges(edges(task.insns), node).len(),
        flowing(task, w, node, s, i),
        block_exit(
            task.insns,
            blocks(task.insns)[node as int].start.0 as int,
            blocks(task.insns)[node as int].end.0 as int,
            s,
        ) is Ok,
    ensures
        ({
            let start = blocks(task.insns)[node as int].start.0 as int;
            let end = blocks(task.insns)[node as int].end.0 as int;
            settled(
                task,
                w.flowed(
                    out_edges(edges(task.insns), node),
                    i,
                    block_exit(task.insns, start, end, s)->Ok_0,
                    task.insns[end - 1],
                    task.config.threshold,
                ),
            )
        }),
    decreases out_edges(edges(task.insns), node).len() - i,
{
    let start = blocks(task.insns)[node as int].start.0 as int;
    let end = blocks(task.insns)[node as int].end.0 as int;
    let out = out_edges(edges(task.insns), node);
    let exit = block_exit(task.insns, start, end, s)->Ok_0;
    assert(out_edges(edges(task.insns), node).len() <= 2);
    if i < out.len() {
        let (target, kind) = out[i as int];
        lemma_flow_one(task, w, node, s, i);
        lemma_flow(
            task,
            w.merged(
                target,
                edge_state(exit, kind, task.insns[end - 1]),
                task.config.threshold,
            ),
            node,
            s,
            i + 1,
        );
    } else {
        assert forall|p: int| 0 <= p < w.queue.len() implies 1 <= lag(w, #[trigger] w.queue[p] as int)
            <= 2 * (task.block_count() - p) - 1 + 2 by {
            assert(1 <= lag(w, w.queue[p] as int));
        }
        assert forall|b: usize|
            b < task.block_count() && !(#[trigger] w.queued[b as int]) && w.states[b as int] is Some implies lag(
            w,
            b as int,
        ) == 0 && block_covered(task, w, b as int, w.states[b as int]->0) by {
            if b == node {
                assert(w.states[b as int] == Some(s));
            }
        }
    }
}

/// A step keeps every block that does not wait covered.
proof fn lemma_step_settles(task: Task, w: WalkModel)
    requires
        bounded(task),
        settled(task, w),
        w.queue.len() > 0,
        task.step(w) is Ok,
    ensures
        settled(task, task.step(w)->Ok_0),
{
    let n = task.block_count();
    let node = w.queue[0];
    let popped = w.popped();
    assert(1 <= lag(w, w.queue[0] as int) <= 2 * n + 1);
    assert(w.seen[node as int] != w.changes[node as int]);
    let noted = WalkModel {
        seen: w.seen.update(node as int, w.changes[node as int]),
        ..popped
    };
    assert(w.queue[0] < n);
    assert(forall|p: int| 0 <= p < noted.queue.len() ==> noted.queue[p] == w.queue[p + 1]);
    assert forall|b: usize| b < n implies (#[trigger] noted.queued[b as int] <==> noted.queue.contains(b)) by {
        assert(w.queued[b as int] <==> w.queue.contains(b));
        if noted.queue.contains(b) {
            let p = noted.queue.index_of(b);
            assert(w.queue[p + 1] == b);
            assert(b != node);
        }
        if b != node && w.queue.contains(b) {
            let p = w.queue.index_of(b);
            assert(p > 0);
            assert(noted.queue[p - 1] == b);
        }
    }
    assert(orderly(task, noted));
    assert forall|p: int| 0 <= p < noted.queue.len() implies 1 <= lag(
        noted,
        #[trigger] noted.queue[p] as int,
    ) <= 2 * (n - p) - 1 by {
        assert(noted.queue[p] == w.queue[p + 1]);
        assert(w.queue[p + 1] != w.queue[0]);
        assert(1 <= lag(w, w.queue[p + 1] as int) <= 2 * (n - (p + 1)) - 1 + 2);
    }
    assert forall|b: usize| b < n && !(#[trigger] noted.queued[b as int]) implies lag(noted, b as int)
        <= 1 by {
        if b != node {
            assert(!w.queued[b as int]);
        }
    }
    match w.states[node as int] {
        None => {
            assert forall|b: usize|
                b < n && !(#[trigger] noted.queued[b as int]) && noted.states[b as int] is Some implies lag(
                noted,
                b as int,
            ) == 0 && block_covered(task, noted, b as int, noted.states[b as int]->0) by {
                assert(!w.queued[b as int]);
                lemma_block_same(task, w, noted, b as int, w.states[b as int]->0);
            }
        },
        Some(s) => {
            let start = blocks(task.insns)[node as int].start.0 as int;
            let end = blocks(task.insns)[node as int].end.0 as int;
            let passed = WalkModel {
                visited: Seq::new(
                    noted.visited.len(),
                    |i: int| noted.visited[i] || start <= i < end,
                ),
                trace: noted.trace + crate::verify::walk::block_trace(task.insns, start, end, s),
                ..noted
            };
            assert(sane(task, s));
            assert forall|b: usize|
                b < n && !(#[trigger] passed.queued[b as int]) && passed.states[b as int] is Some implies lag(
                passed,
                b as int,
            ) == 0 && (if b == node {
                passed.states[b as int] == Some(s)
            } else {
                block_covered(task, passed, b as int, passed.states[b as int]->0)
            }) by {
                if b != node {
                    assert(!w.queued[b as int]);
                    lemma_block_same(task, w, passed, b as int, w.states[b as int]->0);
                }
            }
            assert(orderly(task, passed));
            assert(timely(task, passed, 0)) by {
                assert forall|p: int| 0 <= p < passed.queue.len() implies 1 <= lag(
                    passed,
                    #[trigger] passed.queue[p] as int,
                ) <= 2 * (n - p) - 1 + 0 by {
                    assert(1 <= lag(noted, noted.queue[p] as int));
                }
                assert forall|b: usize| b < n && !(#[trigger] passed.queued[b as int]) implies lag(
                    passed,
                    b as int,
                ) <= 1 by {
                    assert(!noted.queued[b as int]);
                }
            }
            assert(flowing(task, passed, node, s, 0));
            lemma_flow(task, passed, node, s, 0);
        },
    }
}

/// Coverage depends on the entry states alone.
proof fn lemma_block_same(task: Task, w: WalkModel, v: WalkModel, b: int, s: StateModel)
    requires
        block_covered(task, w, b, s),
        v.states == w.states,
    ensures
        block_covered(task, v, b, s),
{
    let start = blocks(task.insns)[b].start.0 as int;
    let end = blocks(task.insns)[b].end.0 as int;
    let out = out_edges(edges(task.insns), b as usize);
    assert forall|k: int| 0 <= k < out.len() implies edge_covered(
        v,
        #[trigger] out[k],
        block_exit(task.insns, start, end, s)->Ok_0,
        task.insns[end - 1],
    ) by {
        assert(edge_covered(
            w,
            out[k],
            block_exit(task.insns, start, end, s)->Ok_0,
            task.insns[end - 1],
        ));
    }
}

proof fn lemma_out_concat(a: Seq<Edge>, b: Seq<Edge>, node: usize)
    ensures
        out_edges(a + b, node).len() == out_edges(a, node).len() + out_edges(b, node).len(),
    decreases b.len(),
{
    if b.len() == 0 {
        assert(a + b =~= a);
    } else {
        assert((a + b).drop_last() =~= a + b.drop_last());
        assert((a + b).last() == b.last());
        lemma_out_concat(a, b.drop_last(), node);
    }
}

proof fn lemma_out_none(own: Seq<Edge>, node: usize)
    requires
        forall|i: int| 0 <= i < own.len() ==> (#[trigger] own[i]).0 != node,
    ensures
        out_edges(own, node).len() == 0,
    decreases own.len(),
{
    if own.len() > 0 {
        lemma_out_none(own.drop_last(), node);
        assert(own.last() == own[own.len() - 1]);
    }
}

proof fn lemma_out_bound(own: Seq<Edge>, node: usize)
    ensures
        out_edges(own, node).len() <= own.len(),
    decreases own.len(),
{
    if own.len() > 0 {
        lemma_out_bound(own.drop_last(), node);
    }
}

/// No block has more than two ways out.
proof fn lemma_out_degree(insns: Seq<Insn>, k: nat, node: usize)
    requires
        k <= leaders(insns).len() <= usize::MAX,
    ensures
        out_edges(edges_of_first(insns, k), node).len() <= (if node < k {
            2int
        } else {
            0
        }),
    decreases k,
{
    if k > 0 {
        lemma_out_degree(insns, (k - 1) as nat, node);
        let own = block_edges(insns, k - 1);
        lemma_out_concat(edges_of_first(insns, (k - 1) as nat), own, node);
        lemma_out_bound(own, node);
        if node != k - 1 {
            lemma_out_none(own, node);
        }
    }
}

proof fn lemma_bounded(insns: Seq<Insn>, cfg: Cfg, config: ConfigModel)
    requires
        cfg.describes(insns),
        forall|i: int| 0 <= i < insns.len() ==> (#[trigger] insns[i]).valid(),
    ensures
        insns.len() <= 0x7fff_ffff,
        bounded(task_of(insns, &cfg, config)),
{
    lemma_slot_bounds(insns, insns.len());
    lemma_graph_in_bounds(insns, &cfg);
    lemma_leaders(insns, insns.len());
    assert forall|node: usize| (#[trigger] out_edges(edges(insns), node)).len() <= 2 by {
        lemma_out_degree(insns, leaders(insns).len(), node);
    }
}

/// A run starts with every block waiting.
proof fn lemma_start_settled(insns: Seq<Insn>, cfg: Cfg, config: ConfigModel)
    requires
        cfg.describes(insns),
        forall|i: int| 0 <= i < insns.len() ==> (#[trigger] insns[i]).valid(),
    ensures
        settled(task_of(insns, &cfg, config), task_of(insns, &cfg, config).start()),
{
    let task = task_of(insns, &cfg, config);
    let w = task.start();
    let n = task.block_count();
    lemma_bounded(insns, cfg, config);
    lemma_graph_in_bounds(insns, &cfg);
    lemma_distinct_len(cfg.order(), n);
    assert(cfg.order().contains(0)) by {
        assert(cfg.order()[0] == 0);
    }
    assert forall|b: usize| b < n implies (#[trigger] w.queued[b as int] <==> w.queue.contains(b)) by {
        assert((b as int) as usize == b);
    }
    assert(covers(w.states[0]->0, task.entry_state()));
    assert forall|p: int| 0 <= p < w.queue.len() implies 1 <= lag(w, #[trigger] w.queue[p] as int)
        <= 2 * (n - p) - 1 + 2 by {
        assert(w.queue[p] < n);
    }
    assert forall|b: usize| b < n && !(#[trigger] w.queued[b as int]) implies lag(w, b as int) <= 1 by {
        assert(b != 0);
    }
}

proof fn lemma_after_settled(insns: Seq<Insn>, cfg: Cfg, config: ConfigModel, k: nat)
    requires
        cfg.describes(insns),
        forall|i: int| 0 <= i < insns.len() ==> (#[trigger] insns[i]).valid(),
        task_of(insns, &cfg, config).after(k) is Ok,
    ensures
        settled(task_of(insns, &cfg, config), task_of(insns, &cfg, config).after(k)->Ok_0),
    decreases k,
{
    let task = task_of(insns, &cfg, config);
    lemma_bounded(insns, cfg, config);
    if k == 0 {
        lemma_start_settled(insns, cfg, config);
    } else {
        lemma_after_settled(insns, cfg, config, (k - 1) as nat);
        let w = task.after((k - 1) as nat)->Ok_0;
        if w.queue.len() > 0 {
            lemma_step_settles(task, w);
        }
    }
}

/// An accepted program has entry states that are closed: the entry state of
/// the program is covered, and what leaves a block that was reached passes
/// every check and is covered by what its successors start with.
pub proof fn accepted_states_are_closed(
    insns: Seq<Insn>,
    cfg: Cfg,
    config: ConfigModel,
    w: WalkModel,
)
    requires
        cfg.describes(insns),
        forall|i: int| 0 <= i < insns.len() ==> (#[trigger] insns[i]).valid(),
        task_of(insns, &cfg, config).ends(Ok(w)),
    ensures
        w.states.len() == blocks(insns).len(),
        w.states[0] is Some,
        covers(w.states[0]->0, task_of(insns, &cfg, config).entry_state()),
        forall|b: int|
            0 <= b < blocks(insns).len() && (#[trigger] w.states[b]) is Some ==> block_covered(
                task_of(insns, &cfg, config),
                w,
                b,
                w.states[b]->0,
            ),
{
    let task = task_of(insns, &cfg, config);
    let k = choose|k: nat| #[trigger] task.after(k) == Ok::<WalkModel, VerifyError>(w);
    lemma_bounded(insns, cfg, config);
    lemma_after_settled(insns, cfg, config, k);
    assert forall|b: int| 0 <= b < blocks(insns).len() && (#[trigger] w.states[b]) is Some implies block_covered(
        task,
        w,
        b,
        w.states[b]->0,
    ) by {
        assert(w.queued[b as usize as int] <==> w.queue.contains(b as usize));
    }
}

/// The state that the verifier ends with before an instruction.
pub open spec fn state_before(insns: Seq<Insn>, w: WalkModel, pc: int) -> StateModel {
    let b = block_index(insns, pc) as int;
    block_exit(insns, blocks(insns)[b].start.0 as int, pc, w.states[b]->0)->Ok_0
}

/// Whether `r0` holds the result of a failed update or deletion after an
/// instruction, if it did or did not before.
pub open spec fn failed_after(m: VmModel, insn: Insn, failed: bool) -> bool {
    fails(m, insn) || (failed && !writes_result(insn))
}

/// Whether no step of a run goes on from reading the result of a failed
/// update or deletion in `r0`. The result may be overwritten, ignored, or be
/// what the program exits with.
pub open spec fn failures_unread(insns: Seq<Insn>, m: VmModel, failed: bool, fuel: nat) -> bool
    decreases fuel,
{
    fuel == 0 || m.pc >= insns.len() || {
        &&& failed ==> !reads_result(insns[m.pc as int])
        &&& m.step().1 == StepResult::Continue ==> failures_unread(
            insns,
            m.step().0,
            failed_after(m, insns[m.pc as int], failed),
            (fuel - 1) as nat,
        )
    }
}

/// The machine that the verifier's states describe: with the result that an
/// update or a deletion is taken to have.
spec fn seen(m: VmModel, failed: bool) -> VmModel {
    if failed {
        eased(m)
    } else {
        m
    }
}

/// Part of a block.
proof fn lemma_exit_prefix(insns: Seq<Insn>, start: int, pc: int, end: int, s: StateModel)
    requires
        start <= pc < end,
        block_exit(insns, start, end, s) is Ok,
    ensures
        block_exit(insns, start, pc, s) is Ok,
        transfer(pc as usize, insns[pc], block_exit(insns, start, pc, s)->Ok_0) is Ok,
        block_exit(insns, start, pc + 1, s) == transfer(
            pc as usize,
            insns[pc],
            block_exit(insns, start, pc, s)->Ok_0,
        ),
    decreases pc - start,
{
    if start < pc {
        lemma_exit_prefix(
            insns,
            start + 1,
            pc,
            end,
            transfer(start as usize, insns[start], s)->Ok_0,
        );
    } else {
        reveal_with_fuel(block_exit, 2);
    }
}

/// An edge of the graph is one of the ways out of its block.
proof fn lemma_way_out(all: Seq<Edge>, a: usize, b: usize, kind: EdgeKind)
    requires
        all.contains((a, b, kind)),
    ensures
        out_edges(all, a).contains((b, kind)),
    decreases all.len(),
{
    let e = (a, b, kind);
    let i = all.index_of(e);
    let rest = out_edges(all.drop_last(), a);
    let out = out_edges(all, a);
    if i == all.len() - 1 {
        assert(out[0] == (b, kind));
    } else {
        assert(all.drop_last()[i] == e);
        lemma_way_out(all.drop_last(), a, b, kind);
        let k = rest.index_of((b, kind));
        if all.last().0 == a {
            assert(out[k + 1] == (b, kind));
        } else {
            assert(out[k] == (b, kind));
        }
    }
}

/// A jump or an exit ends its block.
proof fn lemma_control_ends_block(insns: Seq<Insn>, pc: int)
    requires
        0 <= pc < insns.len() <= usize::MAX,
        insns[pc] is Jump || insns[pc] is Exit,
    ensures
        blocks(insns)[block_index(insns, pc) as int].end.0 == pc + 1,
{
    blocks_partition_program(insns);
    let b = block_index(insns, pc);
    let end = blocks(insns)[b as int].end.0;
    if pc + 1 < end {
        assert(leads(insns, pc, pc + 1));
        lemma_leader_block(insns, pc + 1);
        let c = block_index(insns, pc + 1);
        assert(blocks(insns)[c as int].start.0 == pc + 1);
        assert(blocks(insns)[b as int].start.0 <= pc + 1 < blocks(insns)[b as int].end.0);
    }
}

/// Whether a machine is where the verifier's states describe it, or past the
/// end of the program.
spec fn followed(insns: Seq<Insn>, w: WalkModel, m: VmModel) -> bool {
    let b = block_index(insns, m.pc as int) as int;
    m.pc >= insns.len() || (w.states[b] is Some && block_exit(
        insns,
        blocks(insns)[b].start.0 as int,
        m.pc as int,
        w.states[b]->0,
    ) is Ok && state_before(insns, w, m.pc as int).describes(m))
}

/// A step along the states of an accepted program.
proof fn lemma_track(insns: Seq<Insn>, cfg: Cfg, config: ConfigModel, w: WalkModel, m: VmModel)
    requires
        cfg.describes(insns),
        forall|i: int| 0 <= i < insns.len() ==> (#[trigger] insns[i]).valid(),
        task_of(insns, &cfg, config).ends(Ok(w)),
        m.pc < insns.len(),
        m.code == loaded(insns),
        serves_maps(m),
        followed(insns, w, m),
    ensures
        match m.step().1 {
            StepResult::Error(e) => e !is Memory,
            StepResult::Exit(_) => true,
            StepResult::Continue => {
                let after = m.step().0;
                after.code == m.code && after.helpers == m.helpers && followed(
                    insns,
                    w,
                    seen(after, fails(m, insns[m.pc as int])),
                )
            },
        },
{
    let task = task_of(insns, &cfg, config);
    lemma_bounded(insns, cfg, config);
    accepted_states_are_closed(insns, cfg, config, w);
    blocks_partition_program(insns);
    let pc = m.pc as int;
    let b = block_index(insns, pc);
    let start = blocks(insns)[b as int].start.0 as int;
    let end = blocks(insns)[b as int].end.0 as int;
    let entry = w.states[b as int]->0;
    assert(block_covered(task, w, b as int, entry));
    lemma_exit_prefix(insns, start, pc, end, entry);
    let s = state_before(insns, w, pc);
    step_is_covered(s, m, insns);
    if m.step().1 == StepResult::Continue {
        let after = m.step().0;
        let insn = insns[pc];
        let kind = way_out(m, insn);
        let next = transfer(m.pc, insn, s)->Ok_0;
        if insn is Jump {
            lemma_control_ends_block(insns, pc);
            lemma_target_exists(insns, pc);
        }
        if after.pc < insns.len() {
            let q = after.pc as int;
            let c = block_index(insns, q);
            if pc + 1 < end {
                assert(insn !is Jump);
                assert(q == pc + 1);
                assert(blocks(insns)[b as int].start.0 <= q < blocks(insns)[b as int].end.0);
                assert(c == b);
            } else {
                assert(transfers(insns, end - 1, kind) == Some(q));
                assert(is_leader(insns, q)) by {
                    if q == pc + 1 && !(insn is Jump) {
                        // The next block starts where this one ends.
                        assert(b + 1 < blocks(insns).len()) by {
                            if b + 1 >= blocks(insns).len() {
                                assert(blocks(insns).last() == blocks(insns)[b as int]);
                            }
                        }
                        lemma_leaders(insns, insns.len());
                        assert(blocks(insns)[b as int].end == blocks(insns)[b + 1].start);
                    } else if insn is Jump && q == pc + 1 {
                        assert(leads(insns, pc, q));
                    }
                }
                lemma_leader_block(insns, q);
                assert(blocks(insns)[c as int].start.0 == q);
                edges_mirror_control(insns, b, c, kind);
                lemma_way_out(edges(insns), b, c, kind);
                let out = out_edges(edges(insns), b);
                let k = out.index_of((c, kind));
                assert(end == pc + 1);
                assert(block_exit(insns, start, end, entry) == Ok::<StateModel, VerifyError>(next));
                assert(out[k] == (c, kind));
                assert(b as int as usize == b);
                assert(edge_covered(w, out[k], next, insns[end - 1]));
                assert(edge_state(next, kind, insn).describes(seen(after, fails(m, insn))));
            }
        }
    }
}

/// A step along the states of an accepted program, where `r0` may hold the
/// result of a failed update or deletion.
proof fn lemma_track_failed(insns: Seq<Insn>, cfg: Cfg, config: ConfigModel, w: WalkModel, m: VmModel, failed: bool)
    requires
        cfg.describes(insns),
        forall|i: int| 0 <= i < insns.len() ==> (#[trigger] insns[i]).valid(),
        task_of(insns, &cfg, config).ends(Ok(w)),
        m.pc < insns.len(),
        m.regs.len() == 11,
        m.code == loaded(insns),
        serves_maps(m),
        followed(insns, w, seen(m, failed)),
        failed ==> !reads_result(insns[m.pc as int]),
    ensures
        match m.step().1 {
            StepResult::Error(e) => e !is Memory,
            StepResult::Exit(_) => true,
            StepResult::Continue => {
                let after = m.step().0;
                after.code == m.code && after.helpers == m.helpers && followed(
                    insns,
                    w,
                    seen(after, failed_after(m, insns[m.pc as int], failed)),
                )
            },
        },
{
    let insn = insns[m.pc as int];
    lemma_bounded(insns, cfg, config);
    lemma_track(insns, cfg, config, w, seen(m, failed));
    if failed {
        step_ignores_result(m, insns);
        if m.step().1 == StepResult::Continue {
            let after = m.step().0;
            let other = eased(m).step().0;
            if fails(m, insn) {
                assert(other == after);
            } else if !writes_result(insn) {
                assert(other == eased(after));
            }
        }
    }
}

/// A run along the states of an accepted program.
proof fn lemma_run_followed(
    insns: Seq<Insn>,
    cfg: Cfg,
    config: ConfigModel,
    w: WalkModel,
    m: VmModel,
    failed: bool,
    fuel: nat,
    limit: usize,
)
    requires
        cfg.describes(insns),
        forall|i: int| 0 <= i < insns.len() ==> (#[trigger] insns[i]).valid(),
        task_of(insns, &cfg, config).ends(Ok(w)),
        m.regs.len() == 11,
        m.code == loaded(insns),
        serves_maps(m),
        followed(insns, w, seen(m, failed)),
        failures_unread(insns, m, failed, fuel),
    ensures
        m.run(fuel, limit).1 matches Err(e) ==> e !is Memory,
    decreases fuel,
{
    if fuel > 0 && m.pc < insns.len() {
        lemma_track_failed(insns, cfg, config, w, m, failed);
        if m.step().1 == StepResult::Continue {
            lemma_step_len(m, insns);
            let next = failed_after(m, insns[m.pc as int], failed);
            lemma_run_followed(insns, cfg, config, w, m.step().0, next, (fuel - 1) as nat, limit);
        }
    }
}

/// A machine at the start of a program, with a packet if there is one.
pub open spec fn machine_for(
    insns: Seq<Insn>,
    helpers: spec_fn(u32) -> Option<HelperFn>,
    maps: Seq<Option<(DescModel, StoreModel)>>,
    packet: Option<Seq<u8>>,
) -> VmModel {
    let m = VmModel::initial(insns, helpers, maps);
    match packet {
        None => m,
        Some(p) => m.with_xdp_packet(p),
    }
}

/// Whether a verification was told of the packet and of the maps that a
/// machine has, and the machine has no helpers but those for maps.
pub open spec fn matches_machine(
    config: ConfigModel,
    helpers: spec_fn(u32) -> Option<HelperFn>,
    maps: Seq<Option<(DescModel, StoreModel)>>,
    packet: Option<Seq<u8>>,
) -> bool {
    &&& match (packet, config.packet_len) {
        (None, None) => true,
        (Some(p), Some(len)) => p.len() == len && len <= MAP_SCRATCH_BASE - PACKET_BASE,
        _ => false,
    }
    &&& hosts(map_table(config.maps), maps)
    &&& forall|func: u32| (#[trigger] helpers(func)) is Some ==> helpers(func) == map_helper(func)
}

/// The entry state describes a machine at the start.
proof fn lemma_entry_describes(
    task: Task,
    helpers: spec_fn(u32) -> Option<HelperFn>,
    maps: Seq<Option<(DescModel, StoreModel)>>,
    packet: Option<Seq<u8>>,
)
    requires
        matches_machine(task.config, helpers, maps, packet),
    ensures
        task.entry_state().describes(machine_for(task.insns, helpers, maps, packet)),
{
    let s = task.entry_state();
    let m = machine_for(task.insns, helpers, maps, packet);
    if let Some(p) = packet {
        lemma_bytes_len(PACKET_BASE as nat, 4);
        lemma_bytes_len((PACKET_BASE + p.len()) as nat, 4);
    }
    assert forall|i: int| 0 <= i < 11 implies reg_holds(
        s.maps,
        #[trigger] s.regs[i],
        m.regs[i],
        m.mem.scratch.len(),
    ) by {}
}

/// Acceptance means memory safety: a program that the verifier accepts does
/// not fault on memory, however long it runs, on a machine with the packet
/// and the maps that the verification was told of. Updates and deletions are
/// modelled as successful, so this speaks of runs that do not go on from
/// reading the result of a failed one.
pub proof fn accepted_programs_do_not_fault(
    insns: Seq<Insn>,
    cfg: Cfg,
    config: ConfigModel,
    w: WalkModel,
    helpers: spec_fn(u32) -> Option<HelperFn>,
    maps: Seq<Option<(DescModel, StoreModel)>>,
    packet: Option<Seq<u8>>,
    fuel: nat,
    limit: usize,
)
    requires
        cfg.describes(insns),
        forall|i: int| 0 <= i < insns.len() ==> (#[trigger] insns[i]).valid(),
        task_of(insns, &cfg, config).ends(Ok(w)),
        matches_machine(config, helpers, maps, packet),
        failures_unread(insns, machine_for(insns, helpers, maps, packet), false, fuel),
    ensures
        machine_for(insns, helpers, maps, packet).run(fuel, limit).1 matches Err(e) ==> e !is Memory,
{
    let task = task_of(insns, &cfg, config);
    let m = machine_for(insns, helpers, maps, packet);
    lemma_bounded(insns, cfg, config);
    lemma_entry_describes(task, helpers, maps, packet);
    accepted_states_are_closed(insns, cfg, config, w);
    blocks_partition_program(insns);
    assert(block_index(insns, 0) == 0) by {
        assert(blocks(insns)[0].start.0 <= 0 < blocks(insns)[0].end.0);
    }
    assert(followed(insns, w, m));
    lemma_run_followed(insns, cfg, config, w, m, false, fuel, limit);
}

/// A machine without helpers makes no updates or deletions.
proof fn lemma_no_failures(insns: Seq<Insn>, m: VmModel, fuel: nat)
    requires
        forall|func: u32| (#[trigger] (m.helpers)(func)) is None,
    ensures
        failures_unread(insns, m, false, fuel),
    decreases fuel,
{
    if fuel > 0 && m.pc < insns.len() {
        if m.step().1 == StepResult::Continue {
            lemma_no_failures(insns, m.step().0, (fuel - 1) as nat);
        }
    }
}

/// Acceptance means memory safety: a program that the verifier accepts
/// without maps does not fault on memory, however long it runs, on a machine
/// without helpers, with the packet that the verification was told of.
pub proof fn accepted_programs_are_memory_safe(
    insns: Seq<Insn>,
    cfg: Cfg,
    config: ConfigModel,
    w: WalkModel,
    packet: Option<Seq<u8>>,
    fuel: nat,
    limit: usize,
)
    requires
        cfg.describes(insns),
        forall|i: int| 0 <= i < insns.len() ==> (#[trigger] insns[i]).valid(),
        task_of(insns, &cfg, config).ends(Ok(w)),
        matches_machine(config, |func: u32| None, Seq::empty(), packet),
    ensures
        machine_for(insns, |func: u32| None, Seq::empty(), packet).run(fuel, limit).1 matches Err(e)
            ==> e !is Memory,
{
    let none = |func: u32| None::<HelperFn>;
    let maps = Seq::<Option<(DescModel, StoreModel)>>::empty();
    lemma_no_failures(insns, machine_for(insns, none, maps, packet), fuel);
    accepted_programs_do_not_fault(insns, cfg, config, w, none, maps, packet, fuel, limit);
}

/// Whether no run of a program faults on memory, on any machine with the
/// packet and the maps that a verification is told of. This speaks of runs
/// that do not go on from reading the result of a failed update or deletion.
pub open spec fn safe_under(insns: Seq<Insn>, config: ConfigModel) -> bool {
    forall|
        helpers: spec_fn(u32) -> Option<HelperFn>,
        maps: Seq<Option<(DescModel, StoreModel)>>,
        packet: Option<Seq<u8>>,
        fuel: nat,
        limit: usize,
    |
        matches_machine(config, helpers, maps, packet) && failures_unread(
            insns,
            machine_for(insns, helpers, maps, packet),
            false,
            fuel,
        ) ==> ((#[trigger] machine_for(insns, helpers, maps, packet).run(fuel, limit)).1 matches Err(e) ==> e !is Memory)
}

/// A program that is accepted is safe on the machines that the verification
/// was told of.
pub proof fn accepted_programs_are_safe(insns: Seq<Insn>, cfg: Cfg, config: ConfigModel, w: WalkModel)
    requires
        cfg.describes(insns),
        forall|i: int| 0 <= i < insns.len() ==> (#[trigger] insns[i]).valid(),
        task_of(insns, &cfg, config).ends(Ok(w)),
    ensures
        safe_under(insns, config),
{
    assert forall|
        helpers: spec_fn(u32) -> Option<HelperFn>,
        maps: Seq<Option<(DescModel, StoreModel)>>,
        packet: Option<Seq<u8>>,
        fuel: nat,
        limit: usize,
    |
        matches_machine(config, helpers, maps, packet) && failures_unread(
            insns,
            machine_for(insns, helpers, maps, packet),
            false,
            fuel,
        ) implies ((#[trigger] machine_for(insns, helpers, maps, packet).run(fuel, limit)).1 matches Err(e) ==> e !is Memory) by {
        accepted_programs_do_not_fault(insns, cfg, config, w, helpers, maps, packet, fuel, limit);
    }
}

/// Whether no run of a program on a machine without helpers faults on memory.
pub open spec fn memory_safe(insns: Seq<Insn>) -> bool {
    never_faults(VmModel::initial(insns, |func: u32| None, Seq::empty()))
}

/// Whether no run from a machine faults on memory.
pub open spec fn never_faults(m: VmModel) -> bool {
    forall|fuel: nat, limit: usize| (#[trigger] m.run(fuel, limit)).1 matches Err(e) ==> e !is Memory
}

/// A program that is accepted without maps and without a packet is memory
/// safe.
pub proof fn accepted_plain_programs_are_memory_safe(
    insns: Seq<Insn>,
    cfg: Cfg,
    config: ConfigModel,
    w: WalkModel,
)
    requires
        cfg.describes(insns),
        forall|i: int| 0 <= i < insns.len() ==> (#[trigger] insns[i]).valid(),
        task_of(insns, &cfg, config).ends(Ok(w)),
        config.maps.len() == 0,
        config.packet_len is None,
    ensures
        memory_safe(insns),
{
    let none = |func: u32| None::<HelperFn>;
    let maps = Seq::<Option<(DescModel, StoreModel)>>::empty();
    assert(matches_machine(config, none, maps, None)) by {
        assert forall|fd: int| 0 <= fd < map_table(config.maps).len() && (#[trigger] map_table(
            config.maps,
        )[fd]) is Some implies false by {
            reveal_with_fuel(first_desc, 1);
        }
    }
    let m = VmModel::initial(insns, none, maps);
    assert forall|fuel: nat, limit: usize| (#[trigger] m.run(fuel, limit)).1 matches Err(e) ==> e !is Memory by {
        accepted_programs_are_memory_safe(insns, cfg, config, w, None, fuel, limit);
    }
}

/// The first descriptor with a number is one of the descriptors.
proof fn lemma_first_desc(descs: Seq<DescModel>, fd: int, i: nat) -> (k: int)
    requires
        first_desc(descs, fd, i) is Some,
    ensures
        i <= k < descs.len(),
        descs[k].fd == fd,
        first_desc(descs, fd, i) == Some(descs[k]),
    decreases descs.len() - i,
{
    if descs[i as int].fd == fd {
        i as int
    } else {
        lemma_first_desc(descs, fd, i + 1)
    }
}

proof fn lemma_table_distinct(descs: Seq<DescModel>, i: nat, j: int, k: int)
    requires
        table_error(descs, i) is None,
        i <= k < descs.len(),
        0 <= j < k,
    ensures
        descs[j].fd != descs[k].fd,
    decreases descs.len() - i,
{
    if i < k {
        lemma_table_distinct(descs, i + 1, j, k);
    }
}

/// A store that keeps its invariant has values of the right size.
proof fn lemma_store_sized(store: MapStore)
    requires
        store.wf(),
    ensures
        values_sized(store.descriptor()@, store@),
{
    match store {
        MapStore::Hash { data, .. } => {
            let s = pairs_of(data@);
            assert forall|key: Seq<u8>| #[trigger] as_map(s).contains_key(key) implies as_map(
                s,
            )[key].len() == store.descriptor()@.value_size by {
                assert(has_key(s, key));
                let i = index_of(s, key);
                assert(0 <= i < s.len() && s[i].0 == key);
            }
        },
        MapStore::Array { data, .. } => {
            assert forall|i: int| 0 <= i < slots_of(data@).len() implies (#[trigger] slots_of(
                data@,
            )[i]).len() == store.descriptor()@.value_size by {
                assert(data@[i]@.len() == store.descriptor()@.value_size);
            }
        },
        MapStore::LruArray { data, .. } => {
            let s = pairs_of(data@);
            assert forall|i: int| 0 <= i < s.len() implies (#[trigger] s[i]).1.len()
                == store.descriptor()@.value_size by {}
        },
    }
}

/// The stores that are built from descriptors are the maps that a
/// verification with these descriptors was told of, if none has number 0,
/// which the verifier takes for no map.
pub proof fn built_stores_are_hosted(descs: Seq<DescModel>, maps: Seq<Option<MapStore>>)
    requires
        stores_error(descs) is None,
        forall|k: int| 0 <= k < descs.len() ==> (#[trigger] descs[k]).fd != 0,
        maps.len() == (if descs.len() == 0 {
            0
        } else {
            max_fd(descs) + 1
        }),
        forall|fd: int|
            0 <= fd < maps.len() ==> entry_matches(#[trigger] maps[fd], fd, descs, descs.len()),
    ensures
        hosts(map_table(descs), tables_of(maps)),
{
    let table = map_table(descs);
    assert forall|fd: int| 0 <= fd < table.len() && (#[trigger] table[fd]) is Some implies fd
        < tables_of(maps).len() && hosts_one(table[fd]->0, tables_of(maps)[fd]) by {
        let k = lemma_first_desc(descs, fd, 0);
        assert(entry_matches(maps[fd], fd, descs, descs.len()));
        assert(maps[fd] is Some);
        let store = maps[fd]->0;
        let j = choose|j: int|
            0 <= j < descs.len() && (#[trigger] descs[j]).fd == fd && store.descriptor()@ == descs[j]
                && store@ == descs[j].contents();
        if j < k {
            lemma_table_distinct(descs, 0, j, k);
        } else if k < j {
            lemma_table_distinct(descs, 0, k, j);
        }
        lemma_store_sized(store);
    }
    assert forall|fd: int| 0 <= fd < tables_of(maps).len() && (#[trigger] tables_of(maps)[fd]) is Some implies fd
        < table.len() && table[fd] is Some by {
        assert(entry_matches(maps[fd], fd, descs, descs.len()));
        let store = maps[fd]->0;
        let j = choose|j: int|
            0 <= j < descs.len() && (#[trigger] descs[j]).fd == fd && store.descriptor()@ == descs[j]
                && store@ == descs[j].contents();
        lemma_desc_found(descs, fd, 0, j);
    }
}

/// A descriptor with a number is found.
proof fn lemma_desc_found(descs: Seq<DescModel>, fd: int, i: nat, j: int)
    requires
        i <= j < descs.len(),
        descs[j].fd == fd,
    ensures
        first_desc(descs, fd, i) is Some,
    decreases j - i,
{
    if descs[i as int].fd != fd {
        lemma_desc_found(descs, fd, i + 1, j);
    }
}

} // verus!
