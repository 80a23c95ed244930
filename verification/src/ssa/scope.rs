//! Where values may be used.
//!
//! In a scoped program every value is defined on every way to its uses. Along
//! a run of a scoped program, a copy has the number of its source for as long
//! as it can be used.
use vstd::prelude::*;

use crate::isa::insn::{AluOp, JumpOp, Width};
use crate::ssa::{live_at, Op, Prog, START_PRED, SsaOperand, SsaValue};
use crate::ssa::flow::lemma_successors_below;
use crate::ssa::opt::{only_input, rewrite_of, sole_input};
use crate::ssa::run::{act, number_of, taken_from, with_value, Act, Given, SsaState, Values, World};

verus! {

impl Prog {
    /// Whether an instruction defines a value, and it is the value's site.
    pub open spec fn defined(self, v: SsaValue) -> bool {
        self.def_of(v) matches Some(op) && op.def() == Some(v)
    }

    /// The index of the instruction that defines a value.
    pub open spec fn site(self, v: SsaValue) -> int {
        self.sites[v.0 as int] as int
    }

    /// Whether a value has the same number wherever it is used.
    pub open spec fn is_fixed(self, v: SsaValue) -> bool {
        match self.def_of(v) {
            Some(op) => op is Const || op is LoadImm64 || op is FramePtr || op is EntryCtx,
            None => false,
        }
    }

    /// Whether control reaches the block of a value's definition.
    pub open spec fn reached_site(self, v: SsaValue) -> bool {
        exists|b: usize| #[trigger] self.within(b, self.site(v)) && self.reaches(b)
    }

    /// Whether a way through the blocks passes the definition of a value
    /// before its last block.
    pub open spec fn passes(self, t: Seq<usize>, v: SsaValue) -> bool {
        exists|k: int| 0 <= k < t.len() - 1 && #[trigger] self.within(t[k], self.site(v))
    }

    /// Whether every way to a block passes the definition of a value.
    pub open spec fn precedes(self, b: usize, v: SsaValue) -> bool {
        forall|t: Seq<usize>| #[trigger] self.is_trace(t) && t.last() == b ==> self.passes(t, v)
    }

    /// Whether a value may be used at index `i` of a block.
    pub open spec fn in_scope(self, b: usize, i: int, v: SsaValue) -> bool {
        &&& self.defined(v)
        &&& (self.within(b, self.site(v)) && self.site(v) < i) || self.precedes(b, v)
    }

    /// Whether a phi at an index may take a value from the program start: a
    /// fixed one that the entry block defines before.
    pub open spec fn start_ok(self, i: int, v: SsaValue) -> bool {
        self.defined(v) && self.is_fixed(v) && self.within(self.entry, self.site(v)) && self.site(v) < i
    }

    /// Whether the uses at an index of a block are in scope. A phi uses its
    /// inputs at the ends of the predecessors.
    pub open spec fn uses_ok(self, b: usize, i: int) -> bool {
        match self.insns[i] {
            Op::Phi { inputs, .. } => {
                &&& forall|k: int|
                    0 <= k < inputs.len() ==> if (#[trigger] inputs[k]).0 == START_PRED {
                        self.start_ok(i, inputs[k].1)
                    } else {
                        self.reaches(inputs[k].0) ==> self.in_scope(
                            inputs[k].0,
                            self.nodes[inputs[k].0 as int].end as int,
                            inputs[k].1,
                        )
                    }
                &&& forall|p: usize| #[trigger]
                    self.reaches(p) && self.successors(p).contains(b) ==> taken_from(inputs, p, 0)
                        is Some
                &&& b == self.entry ==> taken_from(inputs, START_PRED, 0) is Some
            },
            op => forall|k: int|
                0 <= k < op.uses().len() ==> self.in_scope(b, i, #[trigger] op.uses()[k]),
        }
    }

    /// Whether control at the end of a block follows the edges.
    pub open spec fn wired(self, b: usize) -> bool {
        match self.terminator(b) {
            Some(Op::Br { op, true_target, false_target, .. }) => {
                &&& op != JumpOp::Always
                &&& true_target is Some
                &&& op != JumpOp::Call && op != JumpOp::Exit ==> self.successors(b).contains(
                    true_target->0,
                )
                &&& false_target matches Some(t) ==> self.successors(b).contains(t)
            },
            Some(Op::Ja { target }) => self.successors(b).contains(target),
            _ => true,
        }
    }

    /// Whether an instruction is the site of the value that it defines.
    pub open spec fn def_ok(self, i: int) -> bool {
        self.insns[i].def() matches Some(v) ==> v.0 < self.sites.len() && self.site(v) == i
    }

    /// Whether no byte swap takes its width from a value.
    pub open spec fn swap_ok(self, i: int) -> bool {
        !(self.insns[i] matches Op::BinOp { op: AluOp::End(_), rhs: SsaOperand::Value(_), .. })
    }

    /// Whether every value is defined once, on every way to its uses, and
    /// only the last instruction of a block passes control on.
    pub open spec fn scoped(self) -> bool {
        &&& self.wf()
        &&& forall|b: usize| #[trigger] self.reaches(b) ==> self.wired(b) && self.nodes[b as int].live
        &&& forall|i: int| 0 <= i < self.insns.len() && #[trigger] live_at(self.nodes, i) ==> self.def_ok(i)
        &&& forall|b: usize, i: int| #[trigger] self.within(b, i) && self.reaches(b) ==> self.uses_ok(b, i)
            && (self.insns[i].is_control() ==> i + 1 == self.nodes[b as int].end)
    }

    /// Whether a scoped program has no byte swap of a width that it computes
    /// where control reaches.
    pub open spec fn strict(self) -> bool {
        &&& self.scoped()
        &&& forall|b: usize, i: int| #[trigger] self.within(b, i) && self.reaches(b) ==> self.swap_ok(i)
    }

    /// Whether a value has its number at index `i` of a block. The phis of a
    /// block have theirs from its start on.
    pub open spec fn known(self, b: usize, i: int, v: SsaValue) -> bool {
        &&& self.defined(v)
        &&& (self.is_fixed(v) && self.reached_site(v)) || (self.within(b, self.site(v)) && (self.def_of(
            v,
        )->0 is Phi || self.site(v) < i)) || self.precedes(b, v)
    }

    /// Whether a value has its fixed number, or that of the value that it
    /// copies.
    pub open spec fn coherent(self, g: Given, env: Values, v: SsaValue) -> bool {
        &&& self.fixed(g, v) matches Some(x) ==> env(v) == x
        &&& rewrite_of(self.def_of(v)->0) matches Some((d, u)) ==> env(v) == env(u)
    }

    /// Whether a state can occur in a run, as far as its values go.
    pub open spec fn sane(self, g: Given, s: SsaState) -> bool {
        &&& self.reaches(s.block)
        &&& self.nodes[s.block as int].start <= s.at <= self.nodes[s.block as int].end
        &&& self.terminator(s.block) == self.control_from(s.at, self.nodes[s.block as int].end as int)
        &&& forall|v: SsaValue| #[trigger] self.known(s.block, s.at, v) ==> self.coherent(g, s.env, v)
    }
}

/// Blocks on a way are blocks of the program, and reached.
pub proof fn lemma_trace(prog: Prog, t: Seq<usize>, k: int)
    requires
        prog.wf(),
        prog.is_trace(t),
        0 <= k < t.len(),
    ensures
        prog.is_trace(t.take(k + 1)),
        t.take(k + 1).last() == t[k],
        prog.reaches(t[k]),
        t[k] < prog.nodes.len(),
{
    let p = t.take(k + 1);
    assert(prog.is_trace(p)) by {
        assert forall|i: int| 0 <= i < p.len() - 1 implies prog.successors(#[trigger] p[i]).contains(
            p[i + 1],
        ) by {
            assert(prog.successors(t[i]).contains(t[i + 1]));
        }
    }
    assert(p.last() == t[k]);
    if k > 0 {
        assert(prog.successors(t[k - 1]).contains(t[k - 1 + 1]));
        let j = prog.successors(t[k - 1]).index_of(t[k]);
        lemma_successors_below(prog, t[k - 1]);
        assert(prog.successors(t[k - 1])[j] < prog.nodes.len());
    }
}

/// A way that goes one block further.
pub proof fn lemma_trace_on(prog: Prog, t: Seq<usize>, b: usize)
    requires
        prog.is_trace(t),
        prog.successors(t.last()).contains(b),
    ensures
        prog.is_trace(t.push(b)),
        prog.reaches(b),
{
    let p = t.push(b);
    assert(prog.is_trace(p)) by {
        assert forall|i: int| 0 <= i < p.len() - 1 implies prog.successors(#[trigger] p[i]).contains(
            p[i + 1],
        ) by {
            if i < t.len() - 1 {
                assert(prog.successors(t[i]).contains(t[i + 1]));
            }
        }
    }
    assert(p.last() == b);
}

/// What precedes a block may be used at the ends of its predecessors.
pub proof fn lemma_scope_before(prog: Prog, p: usize, b: usize, v: SsaValue)
    requires
        prog.wf(),
        prog.reaches(p),
        prog.successors(p).contains(b),
        prog.defined(v),
        prog.precedes(b, v),
    ensures
        prog.in_scope(p, prog.nodes[p as int].end as int, v),
{
    if !prog.within(p, prog.site(v)) {
        assert forall|t: Seq<usize>| #[trigger] prog.is_trace(t) && t.last() == p implies prog.passes(t, v) by {
            lemma_trace_on(prog, t, b);
            let on = t.push(b);
            assert(on.last() == b);
            assert(prog.passes(on, v));
            let k = choose|k: int| 0 <= k < on.len() - 1 && #[trigger] prog.within(on[k], prog.site(v));
            assert(on[k] == t[k]);
            if k == t.len() - 1 {
                assert(t[k] == p);
            }
            assert(prog.within(t[k], prog.site(v)));
        }
    }
}

/// A way to a block that it has not met before.
pub open spec fn first_way(prog: Prog, t: Seq<usize>, b: usize) -> bool {
    &&& prog.is_trace(t)
    &&& t.last() == b
    &&& forall|k: int| 0 <= k < t.len() - 1 ==> #[trigger] t[k] != b
}

/// A way to a block starts with one that meets it for the first time.
proof fn lemma_first_way(prog: Prog, t: Seq<usize>, b: usize) -> (r: Seq<usize>)
    requires
        prog.wf(),
        prog.is_trace(t),
        t.last() == b,
    ensures
        first_way(prog, r, b),
    decreases t.len(),
{
    if exists|k: int| 0 <= k < t.len() - 1 && #[trigger] t[k] == b {
        let k = choose|k: int| 0 <= k < t.len() - 1 && #[trigger] t[k] == b;
        lemma_trace(prog, t, k);
        lemma_first_way(prog, t.take(k + 1), b)
    } else {
        t
    }
}

/// An index is in one block only.
proof fn lemma_one_block(prog: Prog, a: usize, b: usize, i: int)
    requires
        prog.wf(),
        prog.within(a, i),
        prog.within(b, i),
    ensures
        a == b,
{
    if a < b {
        assert(prog.nodes[a as int].end <= prog.nodes[b as int].start);
    } else if b < a {
        assert(prog.nodes[b as int].end <= prog.nodes[a as int].start);
    }
}

/// A block does not precede itself.
pub proof fn lemma_not_before(prog: Prog, b: usize, v: SsaValue)
    requires
        prog.wf(),
        prog.reaches(b),
        prog.within(b, prog.site(v)),
    ensures
        !prog.precedes(b, v),
{
    let t = choose|p: Seq<usize>| #[trigger] prog.is_trace(p) && p.last() == b;
    let r = lemma_first_way(prog, t, b);
    if prog.precedes(b, v) {
        assert(prog.passes(r, v));
        let k = choose|k: int| 0 <= k < r.len() - 1 && #[trigger] prog.within(r[k], prog.site(v));
        lemma_one_block(prog, r[k], b, prog.site(v));
        assert(r[k] != b);
    }
}

/// Whether a way meets the definition of a value first at an index.
pub open spec fn meets(prog: Prog, t: Seq<usize>, k: int, v: SsaValue) -> bool {
    &&& 0 <= k < t.len()
    &&& prog.within(t[k], prog.site(v))
    &&& forall|j: int| 0 <= j < k ==> !(#[trigger] prog.within(t[j], prog.site(v)))
}

pub proof fn lemma_meets(prog: Prog, t: Seq<usize>, k: int, v: SsaValue) -> (r: int)
    requires
        0 <= k < t.len(),
        prog.within(t[k], prog.site(v)),
    ensures
        meets(prog, t, r, v),
        r <= k,
    decreases k,
{
    if exists|j: int| 0 <= j < k && #[trigger] prog.within(t[j], prog.site(v)) {
        let j = choose|j: int| 0 <= j < k && #[trigger] prog.within(t[j], prog.site(v));
        lemma_meets(prog, t, j, v)
    } else {
        k
    }
}

/// Every instruction of a reached block is the site of what it defines.
pub proof fn lemma_def_ok(prog: Prog, b: usize, i: int)
    requires
        prog.scoped(),
        prog.reaches(b),
        prog.within(b, i),
    ensures
        prog.def_ok(i),
        0 <= i < prog.insns.len(),
        live_at(prog.nodes, i),
{
    lemma_within(prog, b, i);
    assert(prog.nodes[b as int].live && prog.nodes[b as int].start <= i < prog.nodes[b as int].end);
    assert(live_at(prog.nodes, i));
}

/// An index in a block is an index of an instruction.
pub proof fn lemma_within(prog: Prog, b: usize, i: int)
    requires
        prog.wf(),
        prog.within(b, i),
    ensures
        0 <= i < prog.insns.len(),
{
    if b < prog.nodes.len() - 1 {
        assert(prog.nodes[b as int].end <= prog.nodes[prog.nodes.len() - 1].start);
    }
}

/// What a value copies is defined before it, on every way.
pub proof fn lemma_source_first(prog: Prog, t: Seq<usize>, k: int, v: SsaValue, u: SsaValue) -> (r: int)
    requires
        prog.scoped(),
        prog.is_trace(t),
        meets(prog, t, k, v),
        prog.defined(v),
        rewrite_of(prog.def_of(v)->0) == Some((v, u)),
    ensures
        0 <= r <= k,
        prog.within(t[r], prog.site(u)),
        prog.defined(u),
        r == k ==> prog.site(u) < prog.site(v) && (prog.def_of(v)->0 is Phi ==> prog.is_fixed(u)),
{
    let b = t[k];
    let i = prog.site(v);
    let op = prog.def_of(v)->0;
    lemma_trace(prog, t, k);
    assert(prog.uses_ok(b, i));
    let here = t.take(k + 1);
    match op {
        Op::Phi { dst, inputs } => {
            assert(sole_input(v, inputs, u)) by {
                assert(only_input(v, inputs) == Some(u));
            }
            if k == 0 {
                let j = lemma_listed(inputs, START_PRED, 0);
                assert(inputs[j].1 == u || inputs[j].1 == v);
                assert(prog.start_ok(i, inputs[j].1));
                0
            } else {
                let p = t[k - 1];
                lemma_trace(prog, t, k - 1);
                assert(prog.successors(t[k - 1]).contains(t[k - 1 + 1]));
                assert(taken_from(inputs, p, 0) is Some);
                let j = lemma_listed(inputs, p, 0);
                let x = inputs[j].1;
                assert(p != START_PRED);
                assert(prog.in_scope(p, prog.nodes[p as int].end as int, x));
                let before = t.take(k);
                assert(before =~= t.take(k - 1 + 1));
                if x == v {
                    if !prog.within(p, prog.site(v)) {
                        assert(prog.passes(before, v));
                        let q = choose|q: int|
                            0 <= q < before.len() - 1 && #[trigger] prog.within(before[q], prog.site(v));
                        assert(prog.within(t[q], prog.site(v)));
                    }
                    assert(prog.within(t[k - 1], prog.site(v)));
                    assert(false);
                    0
                } else if prog.within(p, prog.site(u)) {
                    k - 1
                } else {
                    assert(prog.passes(before, u));
                    let q = choose|q: int|
                        0 <= q < before.len() - 1 && #[trigger] prog.within(before[q], prog.site(u));
                    assert(prog.within(t[q], prog.site(u)));
                    q
                }
            }
        },
        _ => {
            lemma_reads_source(op, v, u);
            let m = op.uses().index_of(u);
            assert(prog.in_scope(b, i, op.uses()[m]));
            if prog.within(b, prog.site(u)) && prog.site(u) < i {
                k
            } else {
                assert(prog.passes(here, u));
                let q = choose|q: int|
                    0 <= q < here.len() - 1 && #[trigger] prog.within(here[q], prog.site(u));
                assert(prog.within(t[q], prog.site(u)));
                q
            }
        },
    }
}

/// A copy reads its source.
pub proof fn lemma_reads_source(op: Op, v: SsaValue, u: SsaValue)
    requires
        rewrite_of(op) == Some((v, u)),
        !(op is Phi),
    ensures
        op.uses().contains(u),
{
    match op {
        Op::Copy { src, .. } => {
            assert(op.uses()[0] == u);
        },
        Op::BinOp { lhs, rhs, .. } => {
            assert(op.uses().last() == u);
        },
        _ => {},
    }
}

/// A value that a phi takes is one of its inputs.
pub proof fn lemma_listed(inputs: Seq<(usize, SsaValue)>, p: usize, k: nat) -> (j: int)
    requires
        taken_from(inputs, p, k) is Some,
    ensures
        k <= j < inputs.len(),
        inputs[j].0 == p,
        taken_from(inputs, p, k) == Some(inputs[j].1),
    decreases inputs.len() - k,
{
    if inputs[k as int].0 == p {
        k as int
    } else {
        lemma_listed(inputs, p, k + 1)
    }
}

/// A value that is known where another is defined does not copy that one.
proof fn lemma_not_a_copy(prog: Prog, b: usize, d: SsaValue, v: SsaValue)
    requires
        prog.scoped(),
        prog.reaches(b),
        prog.defined(d),
        !prog.is_fixed(d),
        prog.within(b, prog.site(d)),
        prog.known(b, prog.site(d), v),
    ensures
        rewrite_of(prog.def_of(v)->0) != Some((v, d)),
{
    if rewrite_of(prog.def_of(v)->0) == Some((v, d)) {
        let t = choose|p: Seq<usize>| #[trigger] prog.is_trace(p) && p.last() == b;
        let r = lemma_first_way(prog, t, b);
        let n = r.len() - 1;
        assert(r[n] == b);
        let q = if prog.within(b, prog.site(v)) {
            n
        } else {
            assert(prog.passes(r, v));
            choose|k: int| 0 <= k < r.len() - 1 && #[trigger] prog.within(r[k], prog.site(v))
        };
        let k = lemma_meets(prog, r, q, v);
        let j = lemma_source_first(prog, r, k, v, d);
        lemma_one_block(prog, r[j], b, prog.site(d));
        if j < n {
            assert(r[j] != b);
        }
        assert(j == n && k == n);
        lemma_one_block(prog, r[k], b, prog.site(v));
    }
}

/// What precedes a block is known at the ends of its predecessors.
pub proof fn lemma_known_before(prog: Prog, p: usize, b: usize, v: SsaValue)
    requires
        prog.wf(),
        prog.reaches(p),
        prog.successors(p).contains(b),
        prog.defined(v),
        prog.precedes(b, v),
    ensures
        prog.known(p, prog.nodes[p as int].end as int, v),
{
    if !prog.within(p, prog.site(v)) {
        assert forall|t: Seq<usize>| #[trigger] prog.is_trace(t) && t.last() == p implies prog.passes(t, v) by {
            lemma_trace_on(prog, t, b);
            let on = t.push(b);
            assert(on.last() == b);
            assert(prog.passes(on, v));
            let k = choose|k: int| 0 <= k < on.len() - 1 && #[trigger] prog.within(on[k], prog.site(v));
            assert(on[k] == t[k]);
            if k == t.len() - 1 {
                assert(t[k] == p);
            }
            assert(prog.within(t[k], prog.site(v)));
        }
    }
}

/// What is known is defined in a reached block.
pub proof fn lemma_known_reached(prog: Prog, b: usize, i: int, v: SsaValue)
    requires
        prog.wf(),
        prog.reaches(b),
        prog.known(b, i, v),
    ensures
        prog.reached_site(v),
{
    if prog.precedes(b, v) {
        let t = choose|p: Seq<usize>| #[trigger] prog.is_trace(p) && p.last() == b;
        assert(prog.passes(t, v));
        let k = choose|k: int| 0 <= k < t.len() - 1 && #[trigger] prog.within(t[k], prog.site(v));
        lemma_trace(prog, t, k);
    } else if prog.within(b, prog.site(v)) {
        assert(prog.reached_site(v));
    }
}

/// What may be used is known.
pub proof fn lemma_scope_known(prog: Prog, b: usize, i: int, v: SsaValue)
    requires
        prog.in_scope(b, i, v),
    ensures
        prog.known(b, i, v),
{
}

/// A fixed value is no phi.
pub proof fn lemma_fixed(prog: Prog, g: Given, v: SsaValue)
    ensures
        prog.is_fixed(v) <==> prog.fixed(g, v) is Some,
        prog.is_fixed(v) ==> rewrite_of(prog.def_of(v)->0) is None,
{
}

/// Values stay coherent when control passes an edge.
proof fn lemma_coherent_enter(prog: Prog, g: Given, env: Values, p: usize, b: usize, v: SsaValue)
    requires
        prog.scoped(),
        prog.reaches(p),
        prog.successors(p).contains(b),
        forall|w: SsaValue| #[trigger] prog.known(p, prog.nodes[p as int].end as int, w) ==> prog.coherent(g, env, w),
        prog.reaches(b),
        prog.known(b, prog.nodes[b as int].start as int, v),
    ensures
        prog.coherent(g, prog.arrived(env, p, b), v),
{
    let after = prog.arrived(env, p, b);
    let end = prog.nodes[p as int].end as int;
    lemma_fixed(prog, g, v);
    if prog.is_fixed(v) {
        lemma_known_reached(prog, b, prog.nodes[b as int].start as int, v);
        assert(prog.known(p, end, v));
    } else if prog.within(b, prog.site(v)) && prog.def_of(v)->0 is Phi {
        let inputs = prog.def_of(v)->0->Phi_inputs;
        assert(prog.uses_ok(b, prog.site(v)));
        if let Some((d, u)) = rewrite_of(prog.def_of(v)->0) {
            assert(only_input(v, inputs) == Some(u));
            assert(sole_input(v, inputs, u));
            let j = lemma_listed(inputs, p, 0);
            let x = inputs[j].1;
            lemma_reached_block(prog, p);
            lemma_scope_known(prog, p, end, x);
            assert(prog.coherent(g, env, x));
            assert(env(x) == env(u));
            lemma_arrived_source(prog, p, b, v, u, env);
        }
    } else {
        assert(prog.precedes(b, v)) by {
            if prog.within(b, prog.site(v)) && prog.site(v) < prog.nodes[b as int].start {
                assert(false);
            }
        }
        lemma_known_before(prog, p, b, v);
        assert(prog.coherent(g, env, v));
        if prog.within(b, prog.site(v)) {
            lemma_not_before(prog, b, v);
        }
        assert(after(v) == env(v));
        if let Some((d, u)) = rewrite_of(prog.def_of(v)->0) {
            lemma_arrived_source(prog, p, b, v, u, env);
        }
    }
}

/// A reached block is a block below the start marker.
pub proof fn lemma_reached_block(prog: Prog, b: usize)
    requires
        prog.wf(),
        prog.reaches(b),
    ensures
        b < prog.nodes.len(),
        b != START_PRED,
{
    let t = choose|p: Seq<usize>| #[trigger] prog.is_trace(p) && p.last() == b;
    lemma_trace(prog, t, t.len() - 1);
}

/// What a known value copies does not change when control enters a block.
proof fn lemma_arrived_source(prog: Prog, p: usize, b: usize, v: SsaValue, u: SsaValue, env: Values)
    requires
        prog.scoped(),
        prog.reaches(b),
        prog.known(b, prog.nodes[b as int].start as int, v),
        rewrite_of(prog.def_of(v)->0) == Some((v, u)),
    ensures
        prog.arrived(env, p, b)(u) == env(u),
{
    if prog.phi_for(b, u) is Some {
        assert(prog.within(b, prog.site(u)));
        assert(prog.known(b, prog.site(u), v));
        lemma_not_a_copy(prog, b, u, v);
    }
}

/// Values stay coherent when an instruction gives one its number.
proof fn lemma_coherent_give(prog: Prog, g: Given, s: SsaState, x: i64, v: SsaValue)
    requires
        prog.scoped(),
        prog.sane(g, s),
        prog.within(s.block, s.at),
        !(prog.insns[s.at] is Phi),
        prog.insns[s.at].def() is Some,
        ({
            let op = prog.insns[s.at];
            let d = op.def()->0;
            let env = with_value(s.env, d, x);
            &&& prog.fixed(g, d) matches Some(y) ==> x == y
            &&& rewrite_of(op) matches Some((d, u)) ==> x == (s.env)(u)
        }),
        prog.known(s.block, s.at + 1, v),
    ensures
        prog.coherent(g, with_value(s.env, prog.insns[s.at].def()->0, x), v),
{
    let op = prog.insns[s.at];
    let d = op.def()->0;
    let env = with_value(s.env, d, x);
    lemma_def_ok(prog, s.block, s.at);
    assert(prog.site(d) == s.at);
    assert(prog.defined(d));
    lemma_fixed(prog, g, d);
    lemma_fixed(prog, g, v);
    if v != d {
        assert(prog.known(s.block, s.at, v)) by {
            if prog.within(s.block, prog.site(v)) && prog.site(v) == s.at {
                assert(prog.def_of(v)->0 == op);
            }
        }
        assert(prog.coherent(g, s.env, v));
        if let Some((w, u)) = rewrite_of(prog.def_of(v)->0) {
            if u == d {
                if prog.is_fixed(d) {
                    assert(prog.reached_site(d)) by {
                        assert(prog.within(s.block, prog.site(d)));
                    }
                    assert(prog.known(s.block, s.at, d));
                    assert(prog.coherent(g, s.env, d));
                } else {
                    lemma_not_a_copy(prog, s.block, d, v);
                }
            }
        }
    } else {
        if let Some((w, u)) = rewrite_of(op) {
            assert(w == d);
        }
    }
}

/// A 64-bit move gives its source.
pub proof fn lemma_move(x: i64, y: i64)
    ensures
        AluOp::Mov.result(x, y, Width::B64) == y,
{
    assert((y as u64) as i64 == y) by (bit_vector);
}

/// Where control can go from a block.
pub proof fn lemma_targets(prog: Prog, g: Given, s: SsaState, to: usize)
    requires
        prog.scoped(),
        prog.sane(g, s),
        prog.within(s.block, s.at),
        act(g, prog.insns[s.at], s.env) == Act::Go(Some(to)),
    ensures
        prog.successors(s.block).contains(to),
        s.at + 1 == prog.nodes[s.block as int].end,
{
    let op = prog.insns[s.at];
    assert(op.is_control());
    assert(prog.control_from(s.at, prog.nodes[s.block as int].end as int) == Some(op));
    assert(prog.wired(s.block));
}

/// Values stay coherent when control goes to a block.
proof fn lemma_sane_enter(prog: Prog, g: Given, s: SsaState, to: usize)
    requires
        prog.scoped(),
        prog.sane(g, s),
        prog.successors(s.block).contains(to),
        s.at == prog.nodes[s.block as int].end || (s.at + 1 == prog.nodes[s.block as int].end
            && prog.insns[s.at].is_control()),
    ensures
        prog.sane(g, prog.enter(s.env, s.world, s.block, to)),
{
    let p = s.block;
    let end = prog.nodes[p as int].end as int;
    let t = choose|t: Seq<usize>| #[trigger] prog.is_trace(t) && t.last() == p;
    lemma_trace_on(prog, t, to);
    lemma_reached_block(prog, to);
    lemma_reached_block(prog, p);
    assert forall|w: SsaValue| #[trigger] prog.known(p, end, w) implies prog.coherent(g, s.env, w) by {
        if s.at < end {
            assert(prog.within(p, s.at));
            if prog.within(p, prog.site(w)) && prog.site(w) == s.at {
                assert(prog.def_of(w)->0 == prog.insns[s.at]);
            }
        }
        assert(prog.known(p, s.at, w));
    }
    let next = prog.enter(s.env, s.world, p, to);
    assert forall|v: SsaValue| #[trigger] prog.known(to, next.at, v) implies prog.coherent(g, next.env, v) by {
        lemma_coherent_enter(prog, g, s.env, p, to, v);
    }
}

/// Along a run of a scoped program values stay coherent.
pub proof fn lemma_sane_step(prog: Prog, g: Given, s: SsaState)
    requires
        prog.scoped(),
        prog.sane(g, s),
    ensures
        prog.step(g, s) matches Ok(t) ==> prog.sane(g, t),
{
    lemma_reached_block(prog, s.block);
    let end = prog.nodes[s.block as int].end as int;
    if let Ok(t) = prog.step(g, s) {
        if s.at >= end {
            let to = prog.behind(s.block)->0;
            assert(prog.successors(s.block)[0] == to);
            lemma_sane_enter(prog, g, s, to);
        } else {
            let op = prog.insns[s.at];
            assert(prog.within(s.block, s.at));
            if let Act::Go(Some(to)) = act(g, op, s.env) {
                lemma_targets(prog, g, s, to);
                lemma_sane_enter(prog, g, s, to);
            } else {
                assert(!op.is_control());
                assert(prog.control_from(s.at, end) == prog.control_from(s.at + 1, end));
                assert forall|v: SsaValue| #[trigger] prog.known(s.block, t.at, v) implies prog.coherent(g, t.env, v) by {
                    lemma_sane_value(prog, g, s, v);
                }
            }
        }
    }
}

/// Values are coherent behind an instruction that passes no control on.
proof fn lemma_sane_value(prog: Prog, g: Given, s: SsaState, v: SsaValue)
    requires
        prog.scoped(),
        prog.sane(g, s),
        prog.within(s.block, s.at),
        !prog.insns[s.at].is_control(),
        prog.step(g, s) is Ok,
        prog.known(s.block, s.at + 1, v),
    ensures
        prog.coherent(g, (prog.step(g, s)->Ok_0).env, v),
{
    let t = prog.step(g, s)->Ok_0;
    let op = prog.insns[s.at];
    lemma_def_ok(prog, s.block, s.at);
    match op.def() {
        Some(d) => if op is Phi {
            assert(prog.known(s.block, s.at, v)) by {
                if prog.within(s.block, prog.site(v)) && prog.site(v) == s.at {
                    assert(prog.def_of(v)->0 == op);
                }
            }
        } else {
            assert(prog.def_of(d) == Some(op));
            if let Op::BinOp { width, op: alu, lhs, rhs, .. } = op {
                lemma_move(number_of(s.env, lhs), number_of(s.env, rhs));
            }
            let x = (t.env)(d);
            assert(t.env =~= with_value(s.env, d, x));
            lemma_coherent_give(prog, g, s, x, v);
        },
        None => {
            assert(prog.known(s.block, s.at, v)) by {
                if prog.within(s.block, prog.site(v)) && prog.site(v) == s.at {
                    assert(prog.def_of(v)->0 == op);
                }
            }
        },
    }
}

/// A run of a scoped program starts with coherent values.
pub proof fn lemma_sane_first(prog: Prog, g: Given, world: World)
    requires
        prog.scoped(),
    ensures
        prog.sane(g, prog.first_state(g, world)),
{
    let b = prog.entry;
    let s = prog.first_state(g, world);
    let first = prog.first_values(g);
    let t = seq![b];
    assert(prog.is_trace(t));
    assert(t.last() == b);
    assert(prog.reaches(b));
    assert forall|v: SsaValue| #[trigger] prog.known(b, s.at, v) implies prog.coherent(g, s.env, v) by {
        lemma_fixed(prog, g, v);
        if !prog.is_fixed(v) {
            assert(!prog.passes(t, v));
            let inputs = prog.def_of(v)->0->Phi_inputs;
            assert(prog.uses_ok(b, prog.site(v)));
            if let Some((d, u)) = rewrite_of(prog.def_of(v)->0) {
                assert(only_input(v, inputs) == Some(u));
                assert(sole_input(v, inputs, u));
                let j = lemma_listed(inputs, START_PRED, 0);
                assert(inputs[j].1 == u);
                lemma_fixed(prog, g, u);
                assert((s.env)(v) == first(u));
                assert((s.env)(u) == first(u));
            }
        }
    }
}

/// A successor of a reached block is a reached block.
pub proof fn lemma_successor_block(prog: Prog, b: usize, to: usize)
    requires
        prog.wf(),
        prog.reaches(b),
        prog.successors(b).contains(to),
    ensures
        prog.reaches(to),
        to < prog.nodes.len(),
{
    let t = choose|p: Seq<usize>| #[trigger] prog.is_trace(p) && p.last() == b;
    lemma_trace_on(prog, t, to);
    lemma_reached_block(prog, to);
}

} // verus!
