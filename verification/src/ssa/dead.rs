//! Removal of dead code and of blocks that control cannot reach.
use vstd::prelude::*;

use crate::graph::{ssa_block, ssa_node_count, ssa_set_block};
use crate::isa::alu::end_width;
use crate::isa::insn::AluOp;
use crate::ssa::flow::{lemma_unset_update, liveness, unset};
use crate::ssa::{
    const_value, input_values, live_at, live_mask, ops_of, tiled, Op, Prog, SsaBlock, SsaInsn,
    SsaOperand, SsaProgram, SsaValue, START_PRED,
};

verus! {

impl Prog {
    /// Whether an instruction is kept for its own sake: it accesses memory,
    /// calls, transfers control, or is a byte swap that may trap.
    pub open spec fn effectful(self, op: Op) -> bool {
        match op {
            Op::Load { .. } => true,
            Op::Store { .. } => true,
            Op::Call { .. } => true,
            Op::BinOp { op: AluOp::End(_), rhs, .. } => !(self.const_of(rhs) matches Some(w)
                && end_width(w)),
            _ => op.is_control(),
        }
    }

    /// Whether the instruction at `i` is live and kept for its own sake.
    pub open spec fn is_root(self, i: int) -> bool {
        0 <= i < self.insns.len() && live_at(self.nodes, i) && self.effectful(self.insns[i])
    }

    /// The index of the definition of a value, if there is one.
    pub open spec fn site_of(self, v: SsaValue) -> Option<int> {
        if v.0 < self.sites.len() && self.sites[v.0 as int] < self.insns.len() {
            Some(self.sites[v.0 as int] as int)
        } else {
            None
        }
    }

    /// Whether the instruction at `i` uses what the one at `j` defines.
    pub open spec fn needs(self, i: int, j: int) -> bool {
        exists|k: int|
            0 <= k < self.insns[i].uses().len() && self.site_of(
                #[trigger] self.insns[i].uses()[k],
            ) == Some(j)
    }

    /// Whether a sequence of instructions starts at a root and goes on from
    /// uses to definitions.
    pub open spec fn is_use_chain(self, p: Seq<int>) -> bool {
        &&& p.len() > 0
        &&& self.is_root(p[0])
        &&& forall|i: int| 0 <= i < p.len() - 1 ==> self.needs(#[trigger] p[i], p[i + 1])
    }

    /// Whether a root needs the instruction at `i`, directly or not.
    pub open spec fn needed(self, i: int) -> bool {
        exists|p: Seq<int>| #[trigger] self.is_use_chain(p) && p.last() == i
    }

    /// Whether dead-code elimination keeps the instruction at `i`.
    pub open spec fn kept(self, i: int) -> bool {
        live_at(self.nodes, i) && self.needed(i)
    }

    /// The number of kept instructions below `i`.
    pub open spec fn kept_below(self, i: nat) -> nat
        decreases i,
    {
        if i == 0 {
            0
        } else {
            self.kept_below((i - 1) as nat) + (if self.kept(i - 1) {
                1nat
            } else {
                0
            })
        }
    }

    /// The kept instructions below `i`.
    pub open spec fn kept_ops(self, i: nat) -> Seq<Op>
        decreases i,
    {
        if i == 0 {
            Seq::empty()
        } else if self.kept(i - 1) {
            self.kept_ops((i - 1) as nat).push(self.insns[i - 1])
        } else {
            self.kept_ops((i - 1) as nat)
        }
    }

    /// The program with its kept instructions only.
    pub open spec fn swept(self) -> Prog {
        if forall|i: int| 0 <= i < self.insns.len() ==> #[trigger] self.kept(i) {
            self
        } else {
            Prog {
                insns: self.kept_ops(self.insns.len()),
                nodes: self.nodes.map_values(
                    |b: SsaBlock|
                        SsaBlock {
                            start: self.kept_below(b.start as nat) as usize,
                            end: self.kept_below(b.end as nat) as usize,
                            live: b.live,
                        },
                ),
                ..self
            }.with_sites()
        }
    }
}

/// The values that an instruction uses, in order.
pub fn uses_of(insn: &SsaInsn) -> (r: Vec<SsaValue>)
    ensures
        r@ == insn@.uses(),
{
    let mut out: Vec<SsaValue> = Vec::new();
    match insn {
        SsaInsn::Const { .. } | SsaInsn::FramePtr { .. } | SsaInsn::EntryCtx { .. }
        | SsaInsn::LoadImm64 { .. } | SsaInsn::Ja { .. } => {},
        SsaInsn::Copy { src, .. } => {
            out.push(*src);
        },
        SsaInsn::BinOp { lhs, rhs, .. } => {
            push_value(&mut out, *lhs);
            push_value(&mut out, *rhs);
        },
        SsaInsn::Br { lhs, rhs, .. } => {
            push_value(&mut out, *lhs);
            push_value(&mut out, *rhs);
        },
        SsaInsn::Load { base, .. } => {
            out.push(*base);
        },
        SsaInsn::Store { base, src, .. } => {
            out.push(*base);
            push_value(&mut out, *src);
        },
        SsaInsn::Call { args, .. } => {
            out.push(args[0]);
            out.push(args[1]);
            out.push(args[2]);
            out.push(args[3]);
            out.push(args[4]);
        },
        SsaInsn::Phi { inputs, .. } => {
            let mut k: usize = 0;
            while k < inputs.len()
                invariant
                    k <= inputs@.len(),
                    out@ == input_values(inputs@).take(k as int),
                decreases inputs@.len() - k,
            {
                out.push(inputs[k].1);
                k = k + 1;
                assert(out@ =~= input_values(inputs@).take(k as int));
            }
        },
        SsaInsn::Exit { r0 } => {
            out.push(*r0);
        },
    }
    assert(out@ =~= insn@.uses());
    out
}

fn push_value(out: &mut Vec<SsaValue>, operand: SsaOperand)
    ensures
        final(out)@ == old(out)@ + operand.values(),
{
    if let SsaOperand::Value(v) = operand {
        out.push(v);
    }
    assert(out@ =~= old(out)@ + operand.values());
}

/// Whether an instruction is kept for its own sake.
fn is_effectful(prog: &SsaProgram, insn: &SsaInsn) -> (r: bool)
    ensures
        r == prog@.effectful(insn@),
{
    match insn {
        SsaInsn::Load { .. } | SsaInsn::Store { .. } | SsaInsn::Call { .. } => true,
        SsaInsn::BinOp { op: AluOp::End(_), rhs, .. } => match const_value(prog, *rhs) {
            Some(w) => !(w == 16 || w == 32 || w == 64),
            None => true,
        },
        _ => insn.is_control(),
    }
}

/// Index of the definition of a value.
fn def_index(prog: &SsaProgram, value: SsaValue) -> (r: Option<usize>)
    ensures
        match r {
            Some(i) => prog@.site_of(value) == Some(i as int) && i < prog@.insns.len(),
            None => prog@.site_of(value) is None,
        },
{
    let id: usize = value.0 as usize;
    if id < prog.def_sites.len() && prog.def_sites[id] < prog.insns.len() {
        Some(prog.def_sites[id])
    } else {
        None
    }
}

/// What a needed instruction uses is needed.
proof fn lemma_need_step(prog: Prog, i: int, j: int)
    requires
        prog.needed(i),
        prog.needs(i, j),
    ensures
        prog.needed(j),
{
    let p = choose|p: Seq<int>| #[trigger] prog.is_use_chain(p) && p.last() == i;
    let q = p.push(j);
    assert(prog.is_use_chain(q)) by {
        assert forall|k: int| 0 <= k < q.len() - 1 implies prog.needs(#[trigger] q[k], q[k + 1]) by {
            if k < p.len() - 1 {
                assert(prog.needs(p[k], p[k + 1]));
            }
        }
    }
    assert(q.last() == j);
}

/// Marks that hold the roots and are closed under use hold everything that
/// is needed.
proof fn lemma_marks_needed(prog: Prog, marks: Seq<bool>, p: Seq<int>)
    requires
        marks.len() == prog.insns.len(),
        forall|i: int| #[trigger] prog.is_root(i) ==> marks[i],
        forall|i: int, j: int|
            0 <= i < marks.len() && marks[i] && #[trigger] prog.needs(i, j) ==> marks[j],
        prog.is_use_chain(p),
    ensures
        0 <= p.last() < marks.len(),
        marks[p.last()],
    decreases p.len(),
{
    if p.len() > 1 {
        let q = p.drop_last();
        assert(prog.is_use_chain(q)) by {
            assert forall|k: int| 0 <= k < q.len() - 1 implies prog.needs(#[trigger] q[k], q[k + 1]) by {
                assert(prog.needs(p[k], p[k + 1]));
            }
        }
        lemma_marks_needed(prog, marks, q);
        assert(prog.needs(p[p.len() - 2], p[p.len() - 2 + 1]));
    } else {
        assert(prog.is_root(p[0]));
    }
}

/// Whether every mark is on a needed instruction.
spec fn sound_marks(prog: Prog, marks: Seq<bool>) -> bool {
    &&& marks.len() == prog.insns.len()
    &&& forall|k: int| 0 <= k < marks.len() && #[trigger] marks[k] ==> prog.needed(k)
}

/// Whether what a marked instruction uses is marked, but for the
/// instructions in a worklist.
spec fn closed_but(prog: Prog, marks: Seq<bool>, work: Seq<usize>) -> bool {
    forall|a: usize, j: int|
        a < marks.len() && marks[a as int] && !work.contains(a) && #[trigger] prog.needs(
            a as int,
            j,
        ) ==> marks[j]
}

/// Whether a worklist holds marked instructions.
spec fn marked_work(marks: Seq<bool>, work: Seq<usize>) -> bool {
    forall|k: int|
        0 <= k < work.len() ==> #[trigger] work[k] < marks.len() && marks[work[k] as int]
}

/// Pushing an element adds it, and nothing else.
proof fn lemma_push_contains(before: Seq<usize>, x: usize)
    ensures
        forall|b: usize| #[trigger] before.push(x).contains(b) == (before.contains(b) || b == x),
{
    assert forall|b: usize| #[trigger] before.push(x).contains(b) == (before.contains(b) || b == x) by {
        if before.contains(b) {
            let j = before.index_of(b);
            assert(before.push(x)[j] == b);
        }
        if b == x {
            assert(before.push(x)[before.len() as int] == b);
        }
    }
}

/// Marks the roots and puts them on the worklist.
fn mark_roots(prog: &SsaProgram) -> (r: (Vec<bool>, Vec<usize>))
    requires
        prog@.wf(),
    ensures
        r.0@.len() == prog@.insns.len(),
        forall|k: int| 0 <= k < r.0@.len() ==> #[trigger] r.0@[k] == prog@.is_root(k),
        marked_work(r.0@, r.1@),
        forall|k: usize| k < r.0@.len() && #[trigger] r.0@[k as int] ==> r.1@.contains(k),
{
    let n: usize = prog.insns.len();
    let mask = live_mask(&prog.graph, n);
    let mut marks: Vec<bool> = Vec::with_capacity(n);
    let mut work: Vec<usize> = Vec::new();
    let mut i: usize = 0;
    while i < n
        invariant
            i <= n,
            n == prog@.insns.len(),
            mask@.len() == n,
            forall|k: int| 0 <= k < n ==> #[trigger] mask@[k] == live_at(prog@.nodes, k),
            marks@.len() == i,
            forall|k: int| 0 <= k < i ==> #[trigger] marks@[k] == prog@.is_root(k),
            marked_work(marks@, work@),
            forall|k: usize| k < i && #[trigger] marks@[k as int] ==> work@.contains(k),
        decreases n - i,
    {
        assert(prog@.insns[i as int] == prog.insns@[i as int]@);
        let rooted = mask[i] && is_effectful(prog, &prog.insns[i]);
        marks.push(rooted);
        if rooted {
            proof {
                lemma_push_contains(work@, i);
            }
            work.push(i);
        }
        i = i + 1;
    }
    (marks, work)
}

/// Marks what one instruction uses, and puts what was not marked on the
/// worklist.
fn mark_uses(prog: &SsaProgram, idx: usize, marks: &mut Vec<bool>, work: &mut Vec<usize>)
    requires
        idx < prog@.insns.len(),
        sound_marks(prog@, old(marks)@),
        old(marks)@[idx as int],
        marked_work(old(marks)@, old(work)@),
    ensures
        sound_marks(prog@, final(marks)@),
        marked_work(final(marks)@, final(work)@),
        forall|k: int|
            0 <= k < old(marks)@.len() && #[trigger] old(marks)@[k] ==> final(marks)@[k],
        forall|b: usize|
            b < final(marks)@.len() && #[trigger] final(marks)@[b as int] && !old(marks)@[b as int]
                ==> final(work)@.contains(b),
        forall|b: usize| old(work)@.contains(b) ==> #[trigger] final(work)@.contains(b),
        forall|j: int| #[trigger] prog@.needs(idx as int, j) ==> final(marks)@[j],
        unset(final(marks)@, prog@.insns.len()) < unset(old(marks)@, prog@.insns.len()) || (unset(
            final(marks)@,
            prog@.insns.len(),
        ) == unset(old(marks)@, prog@.insns.len()) && final(work)@ == old(work)@),
{
    let n: usize = prog.insns.len();
    let uses = uses_of(&prog.insns[idx]);
    let ghost marks0 = marks@;
    let ghost work0 = work@;
    assert(prog@.insns[idx as int] == prog.insns@[idx as int]@);
    let mut k: usize = 0;
    while k < uses.len()
        invariant
            k <= uses@.len(),
            n == prog@.insns.len(),
            idx < n,
            sound_marks(prog@, marks0),
            marks0[idx as int],
            sound_marks(prog@, marks@),
            marked_work(marks@, work@),
            uses@ == prog@.insns[idx as int].uses(),
            forall|b: int| 0 <= b < n && #[trigger] marks0[b] ==> marks@[b],
            forall|b: usize|
                b < n && #[trigger] marks@[b as int] && !marks0[b as int] ==> work@.contains(b),
            forall|b: usize| work0.contains(b) ==> #[trigger] work@.contains(b),
            forall|j: int|
                0 <= j < k ==> (prog@.site_of(#[trigger] uses@[j]) matches Some(d) ==> marks@[d]),
            unset(marks@, n as nat) < unset(marks0, n as nat) || (unset(marks@, n as nat) == unset(
                marks0,
                n as nat,
            ) && work@ == work0),
        decreases uses@.len() - k,
    {
        if let Some(def) = def_index(prog, uses[k]) {
            if !marks[def] {
                proof {
                    assert(prog@.site_of(prog@.insns[idx as int].uses()[k as int]) == Some(
                        def as int,
                    ));
                    assert(prog@.needs(idx as int, def as int));
                    lemma_need_step(prog@, idx as int, def as int);
                    lemma_unset_update(marks@, n as nat, def as int);
                    lemma_push_contains(work@, def);
                }
                marks.set(def, true);
                work.push(def);
            }
        }
        k = k + 1;
    }
    assert forall|j: int| #[trigger] prog@.needs(idx as int, j) implies marks@[j] by {
        let q = choose|q: int|
            0 <= q < prog@.insns[idx as int].uses().len() && prog@.site_of(
                #[trigger] prog@.insns[idx as int].uses()[q],
            ) == Some(j);
        assert(prog@.site_of(uses@[q]) == Some(j));
    }
}

/// Roots are needed.
proof fn lemma_roots_needed(prog: Prog, marks: Seq<bool>)
    requires
        marks.len() == prog.insns.len(),
        forall|k: int| 0 <= k < marks.len() ==> #[trigger] marks[k] == prog.is_root(k),
    ensures
        sound_marks(prog, marks),
        forall|k: int| #[trigger] prog.is_root(k) ==> marks[k],
{
    assert forall|k: int| 0 <= k < marks.len() && #[trigger] marks[k] implies prog.needed(k) by {
        let p = seq![k];
        assert(prog.is_use_chain(p));
        assert(p.last() == k);
    }
}

/// When nothing is left on the worklist, everything that is needed is marked.
proof fn lemma_marks_all(prog: Prog, marks: Seq<bool>, work: Seq<usize>, i: int)
    requires
        0 <= i < marks.len() <= usize::MAX,
        forall|k: int| #[trigger] prog.is_root(k) ==> marks[k],
        sound_marks(prog, marks),
        closed_but(prog, marks, work),
        work.len() == 0,
    ensures
        marks[i] == prog.needed(i),
{
    if prog.needed(i) {
        let p = choose|p: Seq<int>| #[trigger] prog.is_use_chain(p) && p.last() == i;
        assert forall|a: int, j: int|
            0 <= a < marks.len() && marks[a] && #[trigger] prog.needs(a, j) implies marks[j] by {
            let b = a as usize;
            assert(!work.contains(b));
            assert(prog.needs(b as int, j));
        }
        lemma_marks_needed(prog, marks, p);
    }
}

/// Marks what the roots need.
fn mark_needed(prog: &SsaProgram) -> (r: Vec<bool>)
    requires
        prog@.wf(),
    ensures
        r@.len() == prog@.insns.len(),
        forall|i: int| 0 <= i < r@.len() ==> #[trigger] r@[i] == prog@.needed(i),
{
    let n: usize = prog.insns.len();
    let (mut marks, mut work) = mark_roots(prog);
    proof {
        lemma_roots_needed(prog@, marks@);
    }
    while work.len() > 0
        invariant
            n == prog@.insns.len(),
            forall|k: int| #[trigger] prog@.is_root(k) ==> marks@[k],
            sound_marks(prog@, marks@),
            marked_work(marks@, work@),
            closed_but(prog@, marks@, work@),
        decreases unset(marks@, n as nat), work@.len(),
    {
        let ghost work0 = work@;
        let ghost marks0 = marks@;
        let idx: usize = match work.pop() {
            Some(b) => b,
            None => 0,
        };
        proof {
            assert(work0 =~= work@.push(idx));
            lemma_push_contains(work@, idx);
            assert(marked_work(marks@, work@)) by {
                assert forall|k: int| 0 <= k < work@.len() implies #[trigger] work@[k] < marks@.len()
                    && marks@[work@[k] as int] by {
                    assert(work@[k] == work0[k]);
                }
            }
            assert(work0[work0.len() - 1] == idx);
        }
        mark_uses(prog, idx, &mut marks, &mut work);
        assert(closed_but(prog@, marks@, work@)) by {
            assert forall|a: usize, j: int|
                a < marks@.len() && marks@[a as int] && !work@.contains(a) && #[trigger] prog@.needs(
                    a as int,
                    j,
                ) implies marks@[j] by {
                if a != idx {
                    assert(marks0[a as int]);
                    assert(!work0.contains(a));
                    assert(marks0[j]);
                    lemma_site_in(prog@, a as int, j);
                }
            }
        }
    }
    proof {
        assert forall|i: int| 0 <= i < n implies #[trigger] marks@[i] == prog@.needed(i) by {
            lemma_marks_all(prog@, marks@, work@, i);
        }
    }
    marks
}

/// Definitions lie in the program.
proof fn lemma_site_in(prog: Prog, i: int, j: int)
    requires
        prog.needs(i, j),
    ensures
        0 <= j < prog.insns.len(),
{
}

/// Facts about counts of kept instructions.
pub proof fn lemma_kept_counts(prog: Prog, i: nat)
    requires
        i <= prog.insns.len(),
    ensures
        prog.kept_ops(i).len() == prog.kept_below(i),
        prog.kept_below(i) <= i,
        forall|j: nat| j <= i ==> #[trigger] prog.kept_below(j) <= prog.kept_below(i),
        prog.kept_below(i) == i <==> forall|k: int| 0 <= k < i ==> #[trigger] prog.kept(k),
    decreases i,
{
    if i > 0 {
        lemma_kept_counts(prog, (i - 1) as nat);
        let m = (i - 1) as nat;
        assert forall|j: nat| j <= i implies #[trigger] prog.kept_below(j) <= prog.kept_below(i) by {
            if j < i {
                assert(j <= m);
                assert(prog.kept_below(j) <= prog.kept_below(m));
            }
        }
        if prog.kept_below(i) == i {
            assert(prog.kept(i - 1));
            assert(prog.kept_below(m) == m);
        }
    }
}

/// Kept instructions name blocks as before.
pub proof fn lemma_kept_blocks(prog: Prog, i: nat)
    requires
        i <= prog.insns.len(),
        prog.wf(),
    ensures
        forall|k: int|
            0 <= k < prog.kept_ops(i).len() ==> (#[trigger] prog.kept_ops(i)[k]).blocks_below(
                prog.nodes.len(),
            ),
    decreases i,
{
    if i > 0 {
        let m = (i - 1) as nat;
        lemma_kept_blocks(prog, m);
        assert forall|k: int| 0 <= k < prog.kept_ops(i).len() implies (
        #[trigger] prog.kept_ops(i)[k]).blocks_below(prog.nodes.len()) by {
            if k < prog.kept_ops(m).len() {
                assert(prog.kept_ops(m)[k].blocks_below(prog.nodes.len()));
            } else {
                assert(prog.insns[i - 1].blocks_below(prog.nodes.len()));
            }
        }
    }
}

/// Block ranges stay in order under a map that keeps order.
pub proof fn lemma_swept_tiled(prog: Prog)
    requires
        prog.wf(),
    ensures
        tiled(
            prog.nodes.map_values(
                |b: SsaBlock|
                    SsaBlock {
                        start: prog.kept_below(b.start as nat) as usize,
                        end: prog.kept_below(b.end as nat) as usize,
                        live: b.live,
                    },
            ),
            prog.kept_ops(prog.insns.len()).len(),
        ),
{
    let nodes = prog.nodes;
    let len = prog.insns.len();
    let next = nodes.map_values(
        |b: SsaBlock|
            SsaBlock {
                start: prog.kept_below(b.start as nat) as usize,
                end: prog.kept_below(b.end as nat) as usize,
                live: b.live,
            },
    );
    lemma_kept_counts(prog, len);
    assert forall|k: int| 0 <= k < nodes.len() implies (#[trigger] nodes[k]).end <= len by {
        if k < nodes.len() - 1 {
            assert(nodes[k].end <= nodes[nodes.len() - 1].start);
        }
    }
    assert forall|k: int| 0 <= k < next.len() implies (#[trigger] next[k]).start <= next[k].end
        && next[k].start == prog.kept_below(nodes[k].start as nat) && next[k].end
        == prog.kept_below(nodes[k].end as nat) by {
        lemma_kept_counts(prog, nodes[k].end as nat);
        assert(prog.kept_below(nodes[k].start as nat) <= prog.kept_below(nodes[k].end as nat));
        assert(prog.kept_below(nodes[k].end as nat) <= prog.kept_below(len));
    }
    assert forall|j: int, k: int| 0 <= j < k < next.len() implies (#[trigger] next[j]).end <= (
    #[trigger] next[k]).start by {
        assert(nodes[j].end <= nodes[k].start);
        lemma_kept_counts(prog, nodes[k].start as nat);
        assert(prog.kept_below(nodes[j].end as nat) <= prog.kept_below(nodes[k].start as nat));
    }
    assert(next.last() == next[next.len() - 1]);
    assert(nodes.last() == nodes[nodes.len() - 1]);
}

/// Whether the marks of the needed and of the live instructions together say
/// what is kept.
#[verifier::opaque]
spec fn marked_kept(prog: Prog, marks: Seq<bool>, mask: Seq<bool>) -> bool {
    forall|i: int|
        #![trigger marks[i]]
        0 <= i < marks.len() ==> prog.kept(i) == (marks[i] && mask[i])
}

proof fn lemma_marked(prog: Prog, marks: Seq<bool>, mask: Seq<bool>, i: int)
    requires
        marked_kept(prog, marks, mask),
        0 <= i < marks.len(),
    ensures
        prog.kept(i) == (marks[i] && mask[i]),
{
    reveal(marked_kept);
    let here = marks[i];
}

/// Keeps the marked instructions of a block range.
fn keep_range(
    prog: &SsaProgram,
    marks: &Vec<bool>,
    mask: &Vec<bool>,
    start: usize,
    end: usize,
    kept: &mut Vec<SsaInsn>,
)
    requires
        start <= end <= prog@.insns.len(),
        marks@.len() == prog@.insns.len(),
        mask@.len() == prog@.insns.len(),
        marked_kept(prog@, marks@, mask@),
        ops_of(old(kept)@) == prog@.kept_ops(start as nat),
    ensures
        ops_of(final(kept)@) == prog@.kept_ops(end as nat),
{
    let mut i: usize = start;
    while i < end
        invariant
            start <= i <= end <= prog@.insns.len(),
            marks@.len() == prog@.insns.len(),
            mask@.len() == prog@.insns.len(),
            marked_kept(prog@, marks@, mask@),
            ops_of(kept@) == prog@.kept_ops(i as nat),
        decreases end - i,
    {
        assert(prog@.insns[i as int] == prog.insns@[i as int]@);
        proof {
            lemma_marked(prog@, marks@, mask@, i as int);
        }
        if marks[i] && mask[i] {
            let ghost before = ops_of(kept@);
            let insn = prog.insns[i].duplicate();
            kept.push(insn);
            assert(ops_of(kept@) =~= before.push(prog@.insns[i as int]));
        }
        i = i + 1;
    }
}

/// Removes what no effect needs. Tells whether the program changed.
pub fn dead_code_eliminate(prog: &mut SsaProgram) -> (changed: bool)
    requires
        old(prog)@.wf(),
    ensures
        final(prog)@ == old(prog)@.swept(),
        changed == !(forall|i: int|
            0 <= i < old(prog)@.insns.len() ==> #[trigger] old(prog)@.kept(i)),
        final(prog)@.wf(),
{
    let ghost start = prog@;
    let marks = mark_needed(prog);
    let mask = live_mask(&prog.graph, prog.insns.len());
    assert(marked_kept(start, marks@, mask@)) by {
        reveal(marked_kept);
        assert forall|i: int|
            #![trigger marks@[i]]
            0 <= i < marks@.len() implies start.kept(i) == (marks@[i] && mask@[i]) by {
            assert(mask@[i] == live_at(start.nodes, i));
        }
    }
    let n: usize = ssa_node_count(&prog.graph);
    let mut kept: Vec<SsaInsn> = Vec::new();
    let mut ranges: Vec<SsaBlock> = Vec::with_capacity(n);
    let mut k: usize = 0;
    assert(ops_of(kept@) =~= Seq::empty());
    while k < n
        invariant
            k <= n,
            n == start.nodes.len(),
            prog@ == start,
            start.wf(),
            marks@.len() == start.insns.len(),
            mask@.len() == start.insns.len(),
            marked_kept(start, marks@, mask@),
            ops_of(kept@) == start.kept_ops(
                (if k == 0 {
                    0
                } else {
                    start.nodes[k - 1].end as int
                }) as nat,
            ),
            ranges@.len() == k,
            forall|j: int|
                0 <= j < k ==> #[trigger] ranges@[j] == (SsaBlock {
                    start: start.kept_below(start.nodes[j].start as nat) as usize,
                    end: start.kept_below(start.nodes[j].end as nat) as usize,
                    live: start.nodes[j].live,
                }),
        decreases n - k,
    {
        let block = ssa_block(&prog.graph, k);
        proof {
            assert(k > 0 ==> start.nodes[k - 1].end == start.nodes[k as int].start);
            if k < start.nodes.len() - 1 {
                assert(start.nodes[k as int].end <= start.nodes[start.nodes.len() - 1].start);
            }
            lemma_kept_counts(start, block.start as nat);
            lemma_kept_counts(start, block.end as nat);
        }
        let from: usize = kept.len();
        assert(ops_of(kept@).len() == kept@.len());
        keep_range(prog, &marks, &mask, block.start, block.end, &mut kept);
        assert(ops_of(kept@).len() == kept@.len());
        ranges.push(SsaBlock { start: from, end: kept.len(), live: block.live });
        k = k + 1;
    }
    proof {
        lemma_kept_counts(start, start.insns.len());
        assert(start.nodes.last() == start.nodes[start.nodes.len() - 1]);
        assert(ops_of(kept@).len() == kept@.len());
    }
    if kept.len() == prog.insns.len() {
        return false;
    }
    prog.insns = kept;
    let ghost next = start.nodes.map_values(
        |b: SsaBlock|
            SsaBlock {
                start: start.kept_below(b.start as nat) as usize,
                end: start.kept_below(b.end as nat) as usize,
                live: b.live,
            },
    );
    let mut j: usize = 0;
    while j < n
        invariant
            j <= n,
            n == start.nodes.len(),
            n == ranges@.len(),
            next.len() == n,
            forall|i: int| 0 <= i < n ==> #[trigger] ranges@[i] == next[i],
            prog@.nodes.len() == n,
            forall|i: int| 0 <= i < j ==> #[trigger] prog@.nodes[i] == next[i],
            prog@.edges == start.edges,
            prog@.insns == start.kept_ops(start.insns.len()),
            prog@.entry == start.entry,
            prog@.sites == start.sites,
        decreases n - j,
    {
        ssa_set_block(&mut prog.graph, j, ranges[j]);
        j = j + 1;
    }
    proof {
        assert(prog@.nodes =~= next);
        lemma_swept_tiled(start);
        lemma_kept_blocks(start, start.insns.len());
        assert(prog@.wf());
    }
    prog.rebuild_def_sites();
    assert(prog@ =~= start.swept());
    true
}

/// The inputs from `k` on that come from the program start or from a live
/// block.
pub open spec fn live_inputs(nodes: Seq<SsaBlock>, inputs: Seq<(usize, SsaValue)>, k: nat) -> Seq<
    (usize, SsaValue),
>
    decreases inputs.len() - k,
{
    if k >= inputs.len() {
        Seq::empty()
    } else {
        let (pred, v) = inputs[k as int];
        let rest = live_inputs(nodes, inputs, k + 1);
        if pred == START_PRED || nodes[pred as int].live {
            seq![(pred, v)] + rest
        } else {
            rest
        }
    }
}

/// An instruction without the phi inputs of dead blocks.
pub open spec fn pruned_op(nodes: Seq<SsaBlock>, op: Op) -> Op {
    match op {
        Op::Phi { dst, inputs } => Op::Phi { dst, inputs: live_inputs(nodes, inputs, 0) },
        _ => op,
    }
}

impl Prog {
    /// The blocks, live where they were and control reaches them.
    pub open spec fn reached_nodes(self) -> Seq<SsaBlock> {
        Seq::new(
            self.nodes.len(),
            |b: int|
                SsaBlock {
                    live: self.nodes[b].live && self.reaches(b as usize),
                    ..self.nodes[b]
                },
        )
    }

    /// The program with dead blocks marked and their inputs removed from the
    /// phis of live blocks.
    pub open spec fn blocks_pruned(self) -> Prog {
        let nodes = self.reached_nodes();
        let next = Prog {
            nodes,
            insns: Seq::new(
                self.insns.len(),
                |i: int|
                    if live_at(nodes, i) {
                        pruned_op(nodes, self.insns[i])
                    } else {
                        self.insns[i]
                    },
            ),
            ..self
        };
        if next == self {
            self
        } else {
            next.with_sites()
        }
    }
}

/// The inputs from `k` on that are kept are no more than the inputs, and all
/// of them where none is dropped.
pub proof fn lemma_live_inputs(nodes: Seq<SsaBlock>, inputs: Seq<(usize, SsaValue)>, k: nat)
    requires
        k <= inputs.len(),
    ensures
        live_inputs(nodes, inputs, k).len() <= inputs.len() - k,
        live_inputs(nodes, inputs, k).len() == inputs.len() - k ==> live_inputs(nodes, inputs, k)
            == inputs.skip(k as int),
        forall|i: int|
            0 <= i < live_inputs(nodes, inputs, k).len() ==> inputs.contains(
                #[trigger] live_inputs(nodes, inputs, k)[i],
            ),
    decreases inputs.len() - k,
{
    if k < inputs.len() {
        lemma_live_inputs(nodes, inputs, k + 1);
        let rest = live_inputs(nodes, inputs, k + 1);
        let whole = live_inputs(nodes, inputs, k);
        assert(inputs.skip(k as int) =~= seq![inputs[k as int]] + inputs.skip((k + 1) as int));
        assert forall|i: int| 0 <= i < whole.len() implies inputs.contains(#[trigger] whole[i]) by {
            if whole.len() == rest.len() {
                assert(whole[i] == rest[i]);
            } else if i > 0 {
                assert(whole[i] == rest[i - 1]);
            } else {
                assert(whole[0] == inputs[k as int]);
            }
        }
    } else {
        assert(inputs.skip(k as int) =~= Seq::empty());
    }
}

/// Drops the inputs of dead blocks.
fn prune_inputs(prog: &SsaProgram, inputs: &Vec<(usize, SsaValue)>) -> (r: Vec<(usize, SsaValue)>)
    requires
        forall|i: int|
            0 <= i < inputs@.len() ==> (#[trigger] inputs@[i]).0 == START_PRED || inputs@[i].0
                < prog@.nodes.len(),
    ensures
        r@ == live_inputs(prog@.nodes, inputs@, 0),
{
    let mut out: Vec<(usize, SsaValue)> = Vec::new();
    let mut k: usize = 0;
    assert(out@ + live_inputs(prog@.nodes, inputs@, 0) =~= live_inputs(prog@.nodes, inputs@, 0));
    while k < inputs.len()
        invariant
            k <= inputs@.len(),
            forall|i: int|
                0 <= i < inputs@.len() ==> (#[trigger] inputs@[i]).0 == START_PRED || inputs@[i].0
                    < prog@.nodes.len(),
            live_inputs(prog@.nodes, inputs@, 0) == out@ + live_inputs(
                prog@.nodes,
                inputs@,
                k as nat,
            ),
        decreases inputs@.len() - k,
    {
        let (pred, v) = inputs[k];
        if pred == START_PRED || ssa_block(&prog.graph, pred).live {
            let ghost before = out@;
            out.push((pred, v));
            proof {
                let rest = live_inputs(prog@.nodes, inputs@, (k + 1) as nat);
                assert(before + (seq![(pred, v)] + rest) =~= out@ + rest);
            }
        }
        k = k + 1;
    }
    assert(out@ + Seq::<(usize, SsaValue)>::empty() =~= out@);
    out
}

/// Marks the blocks that control cannot reach as dead. Tells whether one
/// was marked.
fn mark_dead_blocks(prog: &mut SsaProgram) -> (changed: bool)
    requires
        old(prog)@.wf(),
    ensures
        final(prog)@ == (Prog { nodes: old(prog)@.reached_nodes(), ..old(prog)@ }),
        changed == (final(prog)@.nodes != old(prog)@.nodes),
{
    let ghost start = prog@;
    let reachable = liveness(prog);
    let n: usize = ssa_node_count(&prog.graph);
    let mut changed = false;
    let mut k: usize = 0;
    while k < n
        invariant
            k <= n,
            n == start.nodes.len(),
            n == prog@.nodes.len(),
            n == reachable@.len(),
            forall|b: usize| b < n ==> #[trigger] reachable@[b as int] == start.reaches(b),
            forall|b: int| 0 <= b < k ==> #[trigger] prog@.nodes[b] == start.reached_nodes()[b],
            forall|b: int| k <= b < n ==> #[trigger] prog@.nodes[b] == start.nodes[b],
            prog@ == (Prog { nodes: prog@.nodes, ..start }),
            changed == exists|b: int| 0 <= b < k && #[trigger] prog@.nodes[b] != start.nodes[b],
        decreases n - k,
    {
        let block = ssa_block(&prog.graph, k);
        let ghost before = prog@.nodes;
        if block.live && !reachable[k] {
            ssa_set_block(
                &mut prog.graph,
                k,
                SsaBlock { start: block.start, end: block.end, live: false },
            );
            changed = true;
            assert(prog@.nodes[k as int] != start.nodes[k as int]);
        }
        assert(forall|b: int| 0 <= b < k ==> prog@.nodes[b] == before[b]);
        assert(prog@ =~= (Prog { nodes: prog@.nodes, ..start }));
        k = k + 1;
    }
    assert(prog@.nodes =~= start.reached_nodes());
    assert(!changed ==> prog@.nodes =~= start.nodes);
    changed
}

/// Marks blocks that control cannot reach as dead, and removes their inputs
/// from the phis of live blocks. Tells whether the program changed.
pub fn unreachable_block_eliminate(prog: &mut SsaProgram) -> (changed: bool)
    requires
        old(prog)@.wf(),
    ensures
        final(prog)@ == old(prog)@.blocks_pruned(),
        changed == (final(prog)@.nodes != old(prog)@.nodes || final(prog)@.insns
            != old(prog)@.insns),
        final(prog)@.wf(),
{
    let ghost start = prog@;
    let mut changed = mark_dead_blocks(prog);
    let ghost nodes = start.reached_nodes();
    assert(tiled(nodes, start.insns.len())) by {
        assert(forall|k: int|
            0 <= k < nodes.len() ==> (#[trigger] nodes[k]).start == start.nodes[k].start
                && nodes[k].end == start.nodes[k].end);
    }
    let mask = live_mask(&prog.graph, prog.insns.len());
    let mut i: usize = 0;
    while i < prog.insns.len()
        invariant
            i <= prog@.insns.len(),
            prog@.insns.len() == start.insns.len(),
            start.wf(),
            nodes == start.reached_nodes(),
            prog@ == (Prog { nodes, insns: prog@.insns, ..start }),
            mask@.len() == start.insns.len(),
            forall|k: int| 0 <= k < mask@.len() ==> #[trigger] mask@[k] == live_at(nodes, k),
            forall|k: int|
                0 <= k < i ==> #[trigger] prog@.insns[k] == (if live_at(nodes, k) {
                    pruned_op(nodes, start.insns[k])
                } else {
                    start.insns[k]
                }),
            forall|k: int| i <= k < start.insns.len() ==> #[trigger] prog@.insns[k] == start.insns[k],
            changed == (nodes != start.nodes || exists|k: int|
                0 <= k < i && #[trigger] prog@.insns[k] != start.insns[k]),
        decreases prog@.insns.len() - i,
    {
        let ghost before = prog@.insns;
        assert(before[i as int] == prog.insns@[i as int]@);
        assert(start.insns[i as int].blocks_below(start.nodes.len()));
        if mask[i] {
            if let SsaInsn::Phi { dst, inputs } = &prog.insns[i] {
                proof {
                    let op = start.insns[i as int];
                    assert(op is Phi && op->Phi_inputs == inputs@);
                    assert forall|j: int| 0 <= j < inputs@.len() implies (#[trigger] inputs@[j]).0
                        == START_PRED || inputs@[j].0 < prog@.nodes.len() by {
                        assert(op->Phi_inputs[j] == inputs@[j]);
                    }
                    lemma_live_inputs(nodes, inputs@, 0);
                    assert(inputs@.skip(0) =~= inputs@);
                }
                let pruned = prune_inputs(prog, inputs);
                if pruned.len() != inputs.len() {
                    let next = SsaInsn::Phi { dst: *dst, inputs: pruned };
                    prog.insns.set(i, next);
                    changed = true;
                    assert(prog@.insns =~= before.update(i as int, next@));
                    assert(prog@.insns[i as int] != start.insns[i as int]);
                }
            }
        }
        proof {
            assert(prog@ =~= (Prog { nodes, insns: prog@.insns, ..start }));
            assert(forall|k: int| 0 <= k < i ==> prog@.insns[k] == before[k]);
        }
        i = i + 1;
    }
    proof {
        let next = Prog {
            nodes,
            insns: Seq::new(
                start.insns.len(),
                |i: int|
                    if live_at(nodes, i) {
                        pruned_op(nodes, start.insns[i])
                    } else {
                        start.insns[i]
                    },
            ),
            ..start
        };
        assert(prog@ =~= next);
        if !changed {
            assert(next.insns =~= start.insns);
            assert(next =~= start);
        }
        assert forall|i: int| 0 <= i < next.insns.len() implies (#[trigger] next.insns[i]).blocks_below(
            next.nodes.len(),
        ) by {
            assert(start.insns[i].blocks_below(start.nodes.len()));
            if let Op::Phi { dst, inputs } = start.insns[i] {
                lemma_live_inputs(nodes, inputs, 0);
                let kept = live_inputs(nodes, inputs, 0);
                assert forall|j: int| 0 <= j < kept.len() implies (#[trigger] kept[j]).0 == START_PRED
                    || kept[j].0 < next.nodes.len() by {
                    assert(inputs.contains(kept[j]));
                    let q = inputs.index_of(kept[j]);
                    assert(inputs[q] == kept[j]);
                }
            }
        }
        assert(next.wf());
    }
    if changed {
        prog.rebuild_def_sites();
    }
    changed
}

/// An instruction in a live block that stores, calls, loads, branches or may
/// trap is never removed.
pub proof fn effects_survive(prog: Prog, i: int)
    requires
        prog.is_root(i),
    ensures
        prog.kept(i),
{
    let p = seq![i];
    assert(prog.is_use_chain(p));
    assert(p.last() == i);
}

/// What a kept instruction uses is kept, where its definition is in a live
/// block.
pub proof fn definitions_survive(prog: Prog, i: int, j: int)
    requires
        prog.kept(i),
        prog.needs(i, j),
        live_at(prog.nodes, j),
    ensures
        prog.kept(j),
{
    let p = choose|p: Seq<int>| #[trigger] prog.is_use_chain(p) && p.last() == i;
    let q = p.push(j);
    assert(prog.is_use_chain(q)) by {
        assert forall|k: int| 0 <= k < q.len() - 1 implies prog.needs(#[trigger] q[k], q[k + 1]) by {
            if k < p.len() - 1 {
                assert(prog.needs(p[k], p[k + 1]));
            }
        }
    }
    assert(q.last() == j);
}

} // verus!
