//! The state of an SSA construction, and what each step of it keeps.
use vstd::prelude::*;

use crate::cfg::{blocks, edges};
use crate::isa::insn::Insn;
use crate::ssa::flow::unset;
use crate::graph::Edge;
use crate::ssa::form::{
    base, body_ok, entry_loop, entry_version, no_versions, op_ok, preds, prelude, rendered,
    stands_for, starts, walk, written, Env, Form, Names,
};
use crate::ssa::{Op, SsaValue, START_PRED};

verus! {

/// A phi input that was read from a block that is not filled yet: the block,
/// position and input of the phi, the predecessor, and the register.
pub type Stale = (usize, usize, usize, usize, u8);

/// An SSA form under construction.
#[verifier::ext_equal]
pub struct Draft {
    /// The program.
    pub insns: Seq<Insn>,
    /// Current version by register and block.
    pub cur: Seq<Seq<Option<SsaValue>>>,
    /// Blocks whose predecessors are known to be final.
    pub sealed: Seq<bool>,
    /// Blocks whose body is complete.
    pub filled: Seq<bool>,
    /// Blocks that were visited.
    pub live: Seq<bool>,
    /// The instructions so far, and what they stand for.
    pub form: Form,
    /// Versions that the body of a block has defined so far.
    pub env: Seq<Env>,
    /// Position and register of the phis that wait for their inputs, by
    /// block.
    pub incomplete: Seq<Seq<(usize, u8)>>,
    /// Phi inputs to read again.
    pub stale: Seq<Stale>,
    /// Block, part and position of the definition of each value.
    pub origins: Seq<(usize, bool, usize)>,
    /// Block and position of the phis whose inputs are being read.
    pub flight: Set<(usize, usize)>,
    /// Instructions of the program that were rendered.
    pub done: Seq<bool>,
}

/// The number of blocks without a version.
pub open spec fn nones(cur: Seq<Option<SsaValue>>, n: nat) -> nat
    decreases n,
{
    if n == 0 {
        0
    } else {
        nones(cur, (n - 1) as nat) + (if cur[n - 1] is None {
            1nat
        } else {
            0
        })
    }
}

/// The number of registers and blocks without a version, for the first `r`
/// registers.
pub open spec fn all_nones(cur: Seq<Seq<Option<SsaValue>>>, n: nat, r: nat) -> nat
    decreases r,
{
    if r == 0 {
        0
    } else {
        all_nones(cur, n, (r - 1) as nat) + nones(cur[r - 1], n)
    }
}

/// The number of instructions in the first `n` lists.
pub open spec fn total(lists: Seq<Seq<Op>>, n: nat) -> nat
    decreases n,
{
    if n == 0 {
        0
    } else {
        total(lists, (n - 1) as nat) + lists[n - 1].len()
    }
}

/// Whether every value that an instruction uses is below a bound.
pub open spec fn uses_below(op: Op, next: nat) -> bool {
    forall|k: int| 0 <= k < op.uses().len() ==> (#[trigger] op.uses()[k]).0 < next
}

impl Draft {
    /// The number of blocks.
    pub open spec fn n(self) -> nat {
        blocks(self.insns).len()
    }

    /// The next value.
    pub open spec fn next(self) -> nat {
        self.origins.len()
    }

    /// The current version of a register in a block.
    pub open spec fn cell(self, r: u8, b: usize) -> Option<SsaValue> {
        self.cur[r as int][b as int]
    }

    /// Whether a value stands for a register in a block, as far as its body
    /// goes.
    pub open spec fn known(self, b: usize, r: u8, v: SsaValue) -> bool {
        stands_for(self.form.names, b, self.env[b as int], r, v)
    }

    /// Whether a phi still waits for its inputs.
    pub open spec fn is_open(self, b: usize, pos: usize) -> bool {
        self.flight.contains((b, pos)) || self.listed(b, pos)
    }

    /// Whether a phi is on the list of its block.
    pub open spec fn listed(self, b: usize, pos: usize) -> bool {
        exists|k: int|
            0 <= k < self.incomplete[b as int].len() && (#[trigger] self.incomplete[b as int][k]).0
                == pos
    }

    /// Whether a phi input is to be read again.
    pub open spec fn is_stale(self, s: Stale) -> bool {
        self.stale.contains(s)
    }

    pub open spec fn shape(self) -> bool {
        let n = self.n();
        &&& 0 < n < START_PRED
        &&& self.cur.len() == 11
        &&& forall|r: int| 0 <= r < 11 ==> (#[trigger] self.cur[r]).len() == n
        &&& self.sealed.len() == n
        &&& self.filled.len() == n
        &&& self.live.len() == n
        &&& self.form.heads.len() == n
        &&& self.form.bodies.len() == n
        &&& self.form.regs.len() == n
        &&& self.form.owner.len() == self.next()
        &&& self.env.len() == n
        &&& forall|b: int| 0 <= b < n ==> (#[trigger] self.env[b]).len() == 11
        &&& self.incomplete.len() == n
        &&& self.done.len() == self.insns.len()
        &&& 3 <= self.next()
        &&& 3 + 11 * n + self.insns.len() < u32::MAX
        &&& forall|b: usize, j: int|
            b < n && 0 <= j < preds(self.insns, b).len() ==> (#[trigger] preds(self.insns, b)[j]) < n
    }

    /// What holds of a current version.
    pub open spec fn cell_ok(self, r: u8, b: usize) -> bool {
        match self.cell(r, b) {
            Some(v) => v.0 < self.next() && self.form.belongs(r, v) && self.known(b, r, v),
            None => self.env[b as int][r as int] is None,
        }
    }

    pub open spec fn cells_ok(self) -> bool {
        forall|r: u8, b: usize| r < 11 && b < self.n() ==> #[trigger] self.cell_ok(r, b)
    }

    /// Why a value may stand for a register at the start of a block.
    pub open spec fn backed(self, b: usize, r: u8, v: SsaValue) -> bool {
        ||| b == 0 && v == entry_version(r) && (!entry_loop(self.insns) || r == 10)
        ||| self.form.has_phi(b, r, v)
        ||| {
            let p = preds(self.insns, b)[0];
            &&& b != 0
            &&& preds(self.insns, b).len() == 1
            &&& self.filled[p as int]
            &&& self.known(p, r, v)
        }
        ||| {
            &&& b != 0
            &&& preds(self.insns, b) == seq![b]
            &&& self.filled[b as int]
            &&& self.env[b as int][r as int] is None
            &&& v == entry_version(r)
        }
    }

    pub open spec fn names_ok(self) -> bool {
        forall|b: usize, r: u8, v: SsaValue| #[trigger]
            self.form.names.contains((b, r, v)) ==> b < self.n() && r < 11 && v.0 < self.next()
                && self.form.belongs(r, v) && self.backed(b, r, v)
    }

    /// What holds of an input of a complete phi.
    pub open spec fn input_ok(self, b: usize, pos: usize, j: usize, r: u8, input: (usize, SsaValue)) -> bool {
        let (p, w) = input;
        &&& p == preds(self.insns, b)[j - starts(self.insns, b, r).len()]
        &&& w.0 < self.next()
        &&& self.form.belongs(r, w)
        &&& (self.filled[p as int] && self.known(p, r, w)) || self.is_stale((b, pos, j, p, r))
    }

    /// What holds of a phi.
    pub open spec fn phi_ok(self, b: usize, k: int) -> bool {
        let r = self.form.regs[b as int][k];
        let pos = (base(b) + k) as usize;
        let from = starts(self.insns, b, r);
        &&& r < 11
        &&& self.cell(r, b) is Some
        &&& self.form.heads[b as int][pos as int] matches Op::Phi { dst, inputs } && {
            &&& dst.0 >= 3
            &&& self.form.belongs(r, dst)
            &&& if self.is_open(b, pos) {
                inputs == from
            } else {
                &&& inputs.len() == from.len() + preds(self.insns, b).len()
                &&& inputs.take(from.len() as int) == from
                &&& forall|j: usize|
                    from.len() <= j < inputs.len() ==> self.input_ok(
                        b,
                        pos,
                        j,
                        r,
                        #[trigger] inputs[j as int],
                    )
            }
        }
    }

    /// What holds of the head of a block.
    pub open spec fn head_shape(self, b: usize) -> bool {
        let head = self.form.heads[b as int];
        let regs = self.form.regs[b as int];
        &&& head.len() == base(b) + regs.len()
        &&& head.len() <= usize::MAX
        &&& b == 0 ==> head.take(3) == prelude()
        &&& regs.no_duplicates()
        &&& forall|k: int| 0 <= k < regs.len() ==> #[trigger] self.phi_ok(b, k)
    }

    pub open spec fn heads_ok(self) -> bool {
        forall|b: usize| b < self.n() ==> #[trigger] self.head_shape(b)
    }

    /// Whether a position of a block holds a phi for a register.
    pub open spec fn phi_at(self, b: usize, pos: usize, r: u8) -> bool {
        &&& b < self.n()
        &&& base(b) <= pos < self.form.heads[b as int].len()
        &&& pos - base(b) < self.form.regs[b as int].len()
        &&& self.form.regs[b as int][pos - base(b)] == r
    }

    /// What holds of the list of waiting phis of a block.
    pub open spec fn list_ok(self, b: usize) -> bool {
        let list = self.incomplete[b as int];
        &&& forall|k: int|
            0 <= k < list.len() ==> self.phi_at(b, (#[trigger] list[k]).0, list[k].1)
                && !self.flight.contains((b, list[k].0))
        &&& forall|j: int, k: int|
            0 <= j < k < list.len() ==> (#[trigger] list[j]).0 < (#[trigger] list[k]).0
    }

    pub open spec fn lists_ok(self) -> bool {
        &&& forall|b: usize| b < self.n() ==> #[trigger] self.list_ok(b)
        &&& forall|b: usize, pos: usize| #[trigger]
            self.flight.contains((b, pos)) ==> b < self.n() && base(b) <= pos
                < self.form.heads[b as int].len()
    }

    /// What holds of an input that is to be read again.
    pub open spec fn stale_ok(self, s: Stale) -> bool {
        let (b, pos, j, p, r) = s;
        &&& self.phi_at(b, pos, r)
        &&& r < 11
        &&& p < self.n()
        &&& self.cell(r, p) is Some
        &&& !self.is_open(b, pos)
        &&& self.form.heads[b as int][pos as int] matches Op::Phi { inputs, .. } && j < inputs.len()
            && starts(self.insns, b, r).len() <= j && inputs[j as int].0 == p && (self.live[p as int]
            || self.form.names.contains((p, r, inputs[j as int].1)))
    }

    pub open spec fn stales_ok(self) -> bool {
        forall|i: int| 0 <= i < self.stale.len() ==> self.stale_ok(#[trigger] self.stale[i])
    }

    /// The part of a block that an origin names.
    pub open spec fn part(self, b: usize, head: bool) -> Seq<Op> {
        if head {
            self.form.heads[b as int]
        } else {
            self.form.bodies[b as int]
        }
    }

    /// Whether a value is defined where its origin says.
    pub open spec fn origin_ok(self, v: int) -> bool {
        let (b, head, pos) = self.origins[v];
        &&& b < self.n()
        &&& pos < self.part(b, head).len()
        &&& self.part(b, head)[pos as int].def() == Some(SsaValue(v as u32))
    }

    /// Whether the definition at a place has that place as its origin.
    pub open spec fn place_ok(self, b: usize, head: bool, pos: usize) -> bool {
        self.part(b, head)[pos as int].def() matches Some(v) ==> v.0 < self.next()
            && self.origins[v.0 as int] == (b, head, pos)
    }

    pub open spec fn origins_ok(self) -> bool {
        &&& forall|v: int| 0 <= v < self.next() ==> #[trigger] self.origin_ok(v)
        &&& forall|b: usize, head: bool, pos: usize|
            b < self.n() && pos < self.part(b, head).len() ==> #[trigger] self.place_ok(b, head, pos)
    }

    /// What holds of the body of a block.
    pub open spec fn body_shape(self, b: usize) -> bool {
        let (start, end) = (
            blocks(self.insns)[b as int].start.0 as int,
            blocks(self.insns)[b as int].end.0 as int,
        );
        let body = self.form.bodies[b as int];
        &&& self.filled[b as int] ==> {
            &&& self.live[b as int]
            &&& body_ok(self.insns, self.form.names, b, body, start, end)
            &&& walk(self.insns, body, start, end) == (body.len() as int, self.env[b as int])
            &&& forall|q: int|
                start <= q < end ==> #[trigger] self.form.owns(self.insns, b, q)
        }
        &&& !self.live[b as int] ==> body.len() == 0 && self.env[b as int] == no_versions()
        &&& forall|k: int|
            0 <= k < body.len() ==> uses_below(#[trigger] body[k], self.next()) && body[k].blocks_below(
                self.n(),
            )
        &&& body.len() <= usize::MAX
    }

    pub open spec fn bodies_ok(self) -> bool {
        forall|b: usize| b < self.n() ==> #[trigger] self.body_shape(b)
    }

    pub open spec fn counts_ok(self) -> bool {
        let n = self.n();
        let ops = total(self.form.heads, n) + total(self.form.bodies, n);
        &&& self.next() <= ops
        &&& ops + all_nones(self.cur, n, 11) + unset(self.done, self.insns.len()) <= 3 + 11 * n
            + self.insns.len()
    }

    pub open spec fn flags_ok(self) -> bool {
        &&& forall|b: usize|
            b < self.n() && #[trigger] self.sealed[b as int] && preds(self.insns, b).contains(b)
                ==> self.filled[b as int]
        &&& !entry_loop(self.insns) ==> self.form.regs[0].len() == 0 && forall|r: u8|
            r < 11 ==> (#[trigger] self.cell(r, 0)) is Some
    }

    /// What every step keeps.
    pub open spec fn inv(self) -> bool {
        &&& self.shape()
        &&& self.cells_ok()
        &&& self.names_ok()
        &&& self.heads_ok()
        &&& self.lists_ok()
        &&& self.stales_ok()
        &&& self.origins_ok()
        &&& self.bodies_ok()
        &&& self.counts_ok()
        &&& self.flags_ok()
    }

    /// Whether one draft grew out of another by reading a register: phis were
    /// added and completed, but for the waiting ones, and versions of the
    /// register were found.
    pub open spec fn grew(self, d: Draft, r: u8, skip: Set<(usize, usize)>) -> bool {
        &&& d.insns == self.insns
        &&& d.sealed == self.sealed
        &&& d.filled == self.filled
        &&& d.live == self.live
        &&& d.form.bodies == self.form.bodies
        &&& d.env == self.env
        &&& d.done == self.done
        &&& self.form.names.subset_of(d.form.names)
        &&& self.form.owner.is_prefix_of(d.form.owner)
        &&& self.origins.is_prefix_of(d.origins)
        &&& forall|s: u8| s < 11 && s != r ==> (#[trigger] d.cur[s as int]) == self.cur[s as int]
        &&& forall|x: usize|
            x < self.n() && (#[trigger] self.cell(r, x)) is Some ==> d.cell(r, x) is Some
        &&& nones(d.cur[r as int], self.n()) <= nones(self.cur[r as int], self.n())
        &&& forall|x: usize|
            x < self.n() ==> (#[trigger] self.form.regs[x as int]).is_prefix_of(
                d.form.regs[x as int],
            )
        &&& forall|x: usize|
            x < self.n() ==> (#[trigger] self.incomplete[x as int]).is_prefix_of(
                d.incomplete[x as int],
            )
        &&& forall|x: usize|
            x < self.n() && (self.sealed[x as int] || self.cell(r, x) is Some)
                ==> d.incomplete[x as int] == #[trigger] self.incomplete[x as int]
        &&& forall|x: usize, pos: usize|
            #![trigger self.is_open(x, pos)]
            x < self.n() && pos < self.form.heads[x as int].len() && self.is_open(x, pos)
                && !skip.contains((x, pos)) ==> d.is_open(x, pos) && d.form.heads[x as int][pos as int]
                == self.form.heads[x as int][pos as int]
        &&& forall|x: usize|
            x < self.n() ==> (#[trigger] self.form.heads[x as int]).len()
                <= d.form.heads[x as int].len()
    }
}

/// Growing twice is growing.
pub proof fn lemma_grew_trans(a: Draft, b: Draft, c: Draft, r: u8, skip: Set<(usize, usize)>)
    requires
        a.grew(b, r, skip),
        b.grew(c, r, skip),
        a.shape(),
        b.shape(),
    ensures
        a.grew(c, r, skip),
{
    assert forall|x: usize| x < a.n() && (#[trigger] a.cell(r, x)) is Some implies c.cell(r, x) is Some by {
        assert(b.cell(r, x) is Some);
    }
    assert forall|x: usize| x < a.n() implies (#[trigger] a.form.regs[x as int]).is_prefix_of(
        c.form.regs[x as int],
    ) by {
        let (p, q, s) = (a.form.regs[x as int], b.form.regs[x as int], c.form.regs[x as int]);
        assert(p.is_prefix_of(q));
        assert(q.is_prefix_of(s));
        assert(p =~= s.take(p.len() as int));
    }
    assert forall|x: usize| x < a.n() implies (#[trigger] a.incomplete[x as int]).is_prefix_of(
        c.incomplete[x as int],
    ) by {
        let (p, q, s) = (a.incomplete[x as int], b.incomplete[x as int], c.incomplete[x as int]);
        assert(p.is_prefix_of(q));
        assert(q.is_prefix_of(s));
        assert(p =~= s.take(p.len() as int));
    }
    assert forall|x: usize| x < a.n() && (a.sealed[x as int] || a.cell(r, x) is Some) implies
        c.incomplete[x as int] == #[trigger] a.incomplete[x as int] by {
        assert(b.incomplete[x as int] == a.incomplete[x as int]);
        if a.cell(r, x) is Some {
            assert(b.cell(r, x) is Some);
        }
    }
    assert forall|x: usize, pos: usize|
        #![trigger a.is_open(x, pos)]
        x < a.n() && pos < a.form.heads[x as int].len() && a.is_open(x, pos) && !skip.contains((x, pos)) implies c.is_open(
        x,
        pos,
    ) && c.form.heads[x as int][pos as int] == a.form.heads[x as int][pos as int] by {
        assert(a.form.heads[x as int].len() <= b.form.heads[x as int].len());
        assert(b.is_open(x, pos));
    }
    assert forall|x: usize| x < a.n() implies (#[trigger] a.form.heads[x as int]).len()
        <= c.form.heads[x as int].len() by {
        assert(b.form.heads[x as int].len() <= c.form.heads[x as int].len());
    }
    assert(a.form.owner =~= c.form.owner.take(a.form.owner.len() as int));
    assert(a.origins =~= c.origins.take(a.origins.len() as int));
    assert forall|s: u8| s < 11 && s != r implies (#[trigger] c.cur[s as int]) == a.cur[s as int] by {
        assert(b.cur[s as int] == a.cur[s as int]);
    }
}

/// Changing nothing is growing.
pub proof fn lemma_grew_refl(a: Draft, r: u8, skip: Set<(usize, usize)>)
    ensures
        a.grew(a, r, skip),
{
    assert(a.form.owner =~= a.form.owner.take(a.form.owner.len() as int));
    assert(a.origins =~= a.origins.take(a.origins.len() as int));
    assert forall|x: usize| x < a.n() implies (#[trigger] a.form.regs[x as int]).is_prefix_of(
        a.form.regs[x as int],
    ) by {
        let p = a.form.regs[x as int];
        assert(p =~= p.take(p.len() as int));
    }
    assert forall|x: usize| x < a.n() implies (#[trigger] a.incomplete[x as int]).is_prefix_of(
        a.incomplete[x as int],
    ) by {
        let p = a.incomplete[x as int];
        assert(p =~= p.take(p.len() as int));
    }
}

impl Draft {
    /// Whether everything that was established of names in one draft stays
    /// so in another.
    pub open spec fn extends(self, d: Draft) -> bool {
        &&& d.insns == self.insns
        &&& self.form.names.subset_of(d.form.names)
        &&& self.form.owner.is_prefix_of(d.form.owner)
        &&& forall|x: usize|
            x < self.n() && #[trigger] self.filled[x as int] ==> d.filled[x as int] && d.env[x as int]
                == self.env[x as int]
        &&& forall|x: usize|
            x < self.n() ==> (#[trigger] self.form.regs[x as int]).is_prefix_of(
                d.form.regs[x as int],
            )
        &&& forall|x: usize, k: int|
            x < self.n() && 0 <= k < self.form.regs[x as int].len()
                ==> d.form.heads[x as int][base(x) + k].def() == (
            #[trigger] self.form.heads[x as int][base(x) + k]).def()
    }
}

pub proof fn lemma_belongs(a: Form, b: Form, r: u8, v: SsaValue)
    requires
        a.owner.is_prefix_of(b.owner),
        a.belongs(r, v),
    ensures
        b.belongs(r, v),
{
    if v.0 >= 3 {
        assert(b.owner.take(a.owner.len() as int)[v.0 as int] == a.owner[v.0 as int]);
    }
}

proof fn lemma_backed(a: Draft, d: Draft, b: usize, r: u8, v: SsaValue)
    requires
        a.extends(d),
        a.shape(),
        b < a.n(),
        a.backed(b, r, v),
    ensures
        d.backed(b, r, v),
{
    if a.form.has_phi(b, r, v) {
        let k = choose|k: int|
            0 <= k < a.form.regs[b as int].len() && #[trigger] a.form.regs[b as int][k] == r
                && a.form.heads[b as int][base(b) + k].def() == Some(v);
        assert(a.form.heads[b as int][base(b) + k].def() == Some(v));
        let (p, q) = (a.form.regs[b as int], d.form.regs[b as int]);
        assert(p.is_prefix_of(q));
        assert(q[k] == q.take(p.len() as int)[k]);
        assert(d.form.regs[b as int][k] == r);
        assert(d.form.has_phi(b, r, v));
    } else if preds(a.insns, b).len() == 1 {
        let p = preds(a.insns, b)[0];
        assert(p < a.n());
    }
}

/// Names that were backed stay backed.
pub proof fn lemma_names(a: Draft, d: Draft)
    requires
        a.extends(d),
        a.shape(),
        a.names_ok(),
        a.next() <= d.next(),
        d.n() == a.n(),
    ensures
        forall|b: usize, r: u8, v: SsaValue| #[trigger]
            a.form.names.contains((b, r, v)) ==> b < d.n() && r < 11 && v.0 < d.next()
                && d.form.belongs(r, v) && d.backed(b, r, v),
{
    assert forall|b: usize, r: u8, v: SsaValue| #[trigger] a.form.names.contains((b, r, v)) implies b
        < d.n() && r < 11 && v.0 < d.next() && d.form.belongs(r, v) && d.backed(b, r, v) by {
        lemma_backed(a, d, b, r, v);
        lemma_belongs(a.form, d.form, r, v);
    }
}

pub proof fn lemma_nones_update(cur: Seq<Option<SsaValue>>, n: nat, i: int, v: SsaValue)
    requires
        0 <= i < n <= cur.len(),
    ensures
        nones(cur.update(i, Some(v)), n) == nones(cur, n) - (if cur[i] is None {
            1int
        } else {
            0
        }),
    decreases n,
{
    if i < n - 1 {
        lemma_nones_update(cur, (n - 1) as nat, i, v);
    } else {
        lemma_nones_same(cur, cur.update(i, Some(v)), (n - 1) as nat);
    }
}

proof fn lemma_nones_same(a: Seq<Option<SsaValue>>, b: Seq<Option<SsaValue>>, n: nat)
    requires
        n <= a.len(),
        n <= b.len(),
        forall|k: int| 0 <= k < n ==> a[k] == b[k],
    ensures
        nones(a, n) == nones(b, n),
    decreases n,
{
    if n > 0 {
        lemma_nones_same(a, b, (n - 1) as nat);
    }
}

pub proof fn lemma_all_nones_update(
    cur: Seq<Seq<Option<SsaValue>>>,
    n: nat,
    m: nat,
    r: int,
    row: Seq<Option<SsaValue>>,
)
    requires
        0 <= r < m <= cur.len(),
    ensures
        all_nones(cur.update(r, row), n, m) == all_nones(cur, n, m) - nones(cur[r], n) + nones(row, n),
    decreases m,
{
    if r < m - 1 {
        lemma_all_nones_update(cur, n, (m - 1) as nat, r, row);
    } else {
        lemma_all_nones_same(cur, cur.update(r, row), n, (m - 1) as nat);
    }
}

proof fn lemma_all_nones_same(
    a: Seq<Seq<Option<SsaValue>>>,
    b: Seq<Seq<Option<SsaValue>>>,
    n: nat,
    m: nat,
)
    requires
        m <= a.len(),
        m <= b.len(),
        forall|k: int| 0 <= k < m ==> a[k] == b[k],
    ensures
        all_nones(a, n, m) == all_nones(b, n, m),
    decreases m,
{
    if m > 0 {
        lemma_all_nones_same(a, b, n, (m - 1) as nat);
    }
}

pub proof fn lemma_total_update(lists: Seq<Seq<Op>>, n: nat, b: int, list: Seq<Op>)
    requires
        0 <= b < n <= lists.len(),
    ensures
        total(lists.update(b, list), n) == total(lists, n) - lists[b].len() + list.len(),
    decreases n,
{
    if b < n - 1 {
        lemma_total_update(lists, (n - 1) as nat, b, list);
    } else {
        lemma_total_same(lists, lists.update(b, list), (n - 1) as nat);
    }
}

proof fn lemma_total_same(a: Seq<Seq<Op>>, b: Seq<Seq<Op>>, n: nat)
    requires
        n <= a.len(),
        n <= b.len(),
        forall|k: int| 0 <= k < n ==> (#[trigger] a[k]).len() == b[k].len(),
    ensures
        total(a, n) == total(b, n),
    decreases n,
{
    if n > 0 {
        assert(a[n - 1].len() == b[n - 1].len());
        lemma_total_same(a, b, (n - 1) as nat);
    }
}

/// Rendering stays right when more values may stand for registers.
pub proof fn lemma_body_ok_names(
    insns: Seq<Insn>,
    names: Names,
    more: Names,
    b: usize,
    body: Seq<Op>,
    start: int,
    pc: int,
)
    requires
        body_ok(insns, names, b, body, start, pc),
        names.subset_of(more),
    ensures
        body_ok(insns, more, b, body, start, pc),
{
    assert forall|q: int| start <= q < pc && rendered(#[trigger] insns[q]) implies {
        let (k, env) = walk(insns, body, start, q);
        0 <= k < body.len() && op_ok(edges(insns), more, b, env, insns[q], body[k])
    } by {
        let (k, env) = walk(insns, body, start, q);
        lemma_op_ok_names(edges(insns), names, more, b, env, insns[q], body[k]);
    }
}

proof fn lemma_op_ok_names(
    list: Seq<Edge>,
    names: Names,
    more: Names,
    b: usize,
    env: Env,
    insn: Insn,
    op: Op,
)
    requires
        op_ok(list, names, b, env, insn, op),
        names.subset_of(more),
    ensures
        op_ok(list, more, b, env, insn, op),
{
    if let (Insn::Call { .. }, Op::Call { args, .. }) = (insn, op) {
        assert forall|i: int| #![trigger args[i]] 0 <= i < 5 implies stands_for(
            more,
            b,
            env,
            (i + 1) as u8,
            args[i],
        ) by {
            assert(stands_for(names, b, env, (i + 1) as u8, args[i]));
        }
    }
}

impl Draft {
    /// A phi for a register is added to a block, to be completed at once or
    /// when the block is sealed.
    pub open spec fn minted(self, b: usize, r: u8, now: bool) -> Draft {
        let v = SsaValue(self.next() as u32);
        let pos = self.form.heads[b as int].len() as usize;
        let op = Op::Phi { dst: v, inputs: starts(self.insns, b, r) };
        Draft {
            cur: self.cur.update(r as int, self.cur[r as int].update(b as int, Some(v))),
            form: Form {
                heads: self.form.heads.update(b as int, self.form.heads[b as int].push(op)),
                regs: self.form.regs.update(b as int, self.form.regs[b as int].push(r)),
                owner: self.form.owner.push(r),
                names: self.form.names.insert((b, r, v)),
                ..self.form
            },
            origins: self.origins.push((b, true, pos)),
            flight: if now {
                self.flight.insert((b, pos))
            } else {
                self.flight
            },
            incomplete: if now {
                self.incomplete
            } else {
                self.incomplete.update(b as int, self.incomplete[b as int].push((pos, r)))
            },
            ..self
        }
    }

    /// A version of a register in a block is remembered.
    pub open spec fn noted(self, b: usize, r: u8, v: SsaValue) -> Draft {
        Draft {
            cur: self.cur.update(r as int, self.cur[r as int].update(b as int, Some(v))),
            form: Form { names: self.form.names.insert((b, r, v)), ..self.form },
            ..self
        }
    }
}

/// There is room for one more instruction where a version is missing.
pub proof fn lemma_missing(d: Draft, b: usize, r: u8)
    requires
        d.inv(),
        b < d.n(),
        r < 11,
        d.cell(r, b) is None,
    ensures
        d.next() < u32::MAX - 1,
        d.form.heads[b as int].len() < u32::MAX,
        nones(d.cur[r as int], d.n()) > 0,
        b == 0 ==> entry_loop(d.insns),
{
    let row = d.cur[r as int];
    lemma_nones_update(row, d.n(), b as int, SsaValue(0));
    lemma_all_nones_update(d.cur, d.n(), 11, r as int, row.update(b as int, Some(SsaValue(0))));
    lemma_total_update(d.form.heads, d.n(), b as int, Seq::empty());
}

proof fn lemma_mint_open(d: Draft, b: usize, r: u8, now: bool)
    requires
        d.inv(),
        b < d.n(),
        r < 11,
        d.cell(r, b) is None,
    ensures
        forall|x: usize, pos: usize|
            x < d.n() && pos < d.form.heads[x as int].len() ==> #[trigger] d.minted(
                b,
                r,
                now,
            ).is_open(x, pos) == d.is_open(x, pos),
        d.minted(b, r, now).is_open(b, d.form.heads[b as int].len() as usize),
{
    lemma_missing(d, b, r);
    assert(d.head_shape(b));
    let e = d.minted(b, r, now);
    let at = d.form.heads[b as int].len() as usize;
    assert forall|x: usize, pos: usize| x < d.n() && pos < d.form.heads[x as int].len() implies
        #[trigger] e.is_open(x, pos) == d.is_open(x, pos) by {
        assert((x, pos) != (b, at));
        if d.listed(x, pos) {
            let k = choose|k: int|
                0 <= k < d.incomplete[x as int].len() && (#[trigger] d.incomplete[x as int][k]).0 == pos;
            assert(e.incomplete[x as int][k].0 == pos);
        }
        if e.listed(x, pos) {
            let k = choose|k: int|
                0 <= k < e.incomplete[x as int].len() && (#[trigger] e.incomplete[x as int][k]).0 == pos;
            if k < d.incomplete[x as int].len() {
                assert(d.incomplete[x as int][k].0 == pos);
            }
        }
    }
    if !now {
        let k = d.incomplete[b as int].len() as int;
        assert(e.incomplete[b as int][k].0 == at);
    }
}

/// Adding a phi keeps the invariant.
pub proof fn lemma_mint(d: Draft, b: usize, r: u8, now: bool)
    requires
        d.inv(),
        b < d.n(),
        r < 11,
        d.cell(r, b) is None,
    ensures
        d.minted(b, r, now).inv(),
        nones(d.minted(b, r, now).cur[r as int], d.n()) == nones(d.cur[r as int], d.n()) - 1,
        d.minted(b, r, now).phi_at(b, d.form.heads[b as int].len() as usize, r),
        d.minted(b, r, now).known(b, r, SsaValue(d.next() as u32)),
{
    lemma_missing(d, b, r);
    lemma_mint_open(d, b, r, now);
    assert(d.head_shape(b));
    assert(d.cell_ok(r, b));
    let e = d.minted(b, r, now);
    let v = SsaValue(d.next() as u32);
    let at = d.form.heads[b as int].len() as usize;
    let n = d.n();
    assert(d.form.owner =~= e.form.owner.take(d.form.owner.len() as int));
    assert(e.shape());
    assert forall|x: usize| x < n implies (#[trigger] d.form.regs[x as int]).is_prefix_of(
        e.form.regs[x as int],
    ) by {
        let (p, q) = (d.form.regs[x as int], e.form.regs[x as int]);
        assert(p =~= q.take(p.len() as int));
    }
    assert forall|x: usize, k: int| x < n && 0 <= k < d.form.regs[x as int].len() implies e.form.heads[x as int][base(
        x,
    ) + k].def() == (#[trigger] d.form.heads[x as int][base(x) + k]).def() by {
        assert(d.head_shape(x));
    }
    assert(d.extends(e));
    lemma_names(d, e);
    assert(e.form.belongs(r, v));
    assert(e.form.has_phi(b, r, v)) by {
        let k = d.form.regs[b as int].len() as int;
        assert(e.form.regs[b as int][k] == r);
        assert(base(b) + k == at);
    }
    assert(e.names_ok());
    assert(e.cells_ok()) by {
        assert forall|s: u8, x: usize| s < 11 && x < e.n() implies #[trigger] e.cell_ok(s, x) by {
            assert(d.cell_ok(s, x));
            if let Some(w) = d.cell(s, x) {
                lemma_belongs(d.form, e.form, s, w);
            }
            if s == r && x == b {
                assert(e.cell(s, x) == Some(v));
            } else {
                assert(e.cell(s, x) == d.cell(s, x));
            }
        }
    }
    lemma_mint_heads(d, b, r, now);
    lemma_mint_lists(d, b, r, now);
    lemma_mint_places(d, b, r, now);
    assert(e.bodies_ok()) by {
        assert forall|x: usize| x < e.n() implies #[trigger] e.body_shape(x) by {
            assert(d.body_shape(x));
            let (start, end) = (
                blocks(d.insns)[x as int].start.0 as int,
                blocks(d.insns)[x as int].end.0 as int,
            );
            if d.filled[x as int] {
                lemma_body_ok_names(
                    d.insns,
                    d.form.names,
                    e.form.names,
                    x,
                    d.form.bodies[x as int],
                    start,
                    end,
                );
                assert forall|q: int| start <= q < end implies #[trigger] e.form.owns(d.insns, x, q) by {
                    lemma_owns(d.form, e.form, d.insns, x, q);
                }
            }
        }
    }
    let row = d.cur[r as int];
    lemma_nones_update(row, n, b as int, v);
    lemma_all_nones_update(d.cur, n, 11, r as int, row.update(b as int, Some(v)));
    lemma_total_update(d.form.heads, n, b as int, e.form.heads[b as int]);
    assert(e.flags_ok()) by {
        assert forall|s: u8| !entry_loop(d.insns) && s < 11 implies (#[trigger] e.cell(s, 0)) is Some by {
            assert(d.cell(s, 0) is Some);
        }
        assert forall|x: usize|
            x < e.n() && #[trigger] e.sealed[x as int] && preds(e.insns, x).contains(x) implies e.filled[x as int] by {
            assert(d.sealed[x as int]);
        }
    }
}

pub proof fn lemma_owns(a: Form, b: Form, insns: Seq<Insn>, x: usize, q: int)
    requires
        a.owns(insns, x, q),
        a.owner.is_prefix_of(b.owner),
        a.bodies[x as int] == b.bodies[x as int],
    ensures
        b.owns(insns, x, q),
{
    let body = a.bodies[x as int];
    let k = walk(insns, body, blocks(insns)[x as int].start.0 as int, q).0;
    if let Some(r) = written(insns[q]) {
        lemma_belongs(a, b, r, body[k].def()->0);
    }
}

proof fn lemma_mint_heads(d: Draft, b: usize, r: u8, now: bool)
    requires
        d.inv(),
        b < d.n(),
        r < 11,
        d.cell(r, b) is None,
    ensures
        d.minted(b, r, now).heads_ok(),
{
    lemma_missing(d, b, r);
    lemma_mint_open(d, b, r, now);
    let e = d.minted(b, r, now);
    let v = SsaValue(d.next() as u32);
    let at = d.form.heads[b as int].len() as usize;
    assert(d.form.owner =~= e.form.owner.take(d.form.owner.len() as int));
    assert forall|x: usize| x < e.n() implies #[trigger] e.head_shape(x) by {
        assert(d.head_shape(x));
        let regs = e.form.regs[x as int];
        assert forall|k: int| 0 <= k < regs.len() implies #[trigger] e.phi_ok(x, k) by {
            let old_regs = d.form.regs[x as int];
            let pos = (base(x) + k) as usize;
            if k < old_regs.len() {
                assert(d.phi_ok(x, k));
                let s = old_regs[k];
                assert(regs[k] == s);
                assert(d.cell(s, x) is Some);
                assert(e.cell(s, x) is Some);
                assert(e.form.heads[x as int][pos as int] == d.form.heads[x as int][pos as int]);
                assert(e.is_open(x, pos) == d.is_open(x, pos));
                if let Op::Phi { dst, inputs } = d.form.heads[x as int][pos as int] {
                    lemma_belongs(d.form, e.form, s, dst);
                    if !d.is_open(x, pos) {
                        let from = starts(d.insns, x, s);
                        assert forall|j: usize| from.len() <= j < inputs.len() implies e.input_ok(
                            x,
                            pos,
                            j,
                            s,
                            #[trigger] inputs[j as int],
                        ) by {
                            assert(d.input_ok(x, pos, j, s, inputs[j as int]));
                            lemma_belongs(d.form, e.form, s, inputs[j as int].1);
                        }
                    }
                }
            } else {
                assert(x == b && pos == at);
                assert(e.is_open(x, pos));
                assert(e.cell(r, b) == Some(v));
            }
        }
        if x == b {
            let old_regs = d.form.regs[x as int];
            assert(!old_regs.contains(r)) by {
                if old_regs.contains(r) {
                    let k = old_regs.index_of(r);
                    assert(d.phi_ok(b, k));
                }
            }
            assert(regs.no_duplicates());
            if b == 0 {
                assert(e.form.heads[x as int].take(3) =~= d.form.heads[x as int].take(3));
            }
        }
    }
}

proof fn lemma_mint_lists(d: Draft, b: usize, r: u8, now: bool)
    requires
        d.inv(),
        b < d.n(),
        r < 11,
        d.cell(r, b) is None,
    ensures
        d.minted(b, r, now).lists_ok(),
        d.minted(b, r, now).stales_ok(),
{
    lemma_missing(d, b, r);
    lemma_mint_open(d, b, r, now);
    let e = d.minted(b, r, now);
    let at = d.form.heads[b as int].len() as usize;
    assert(d.head_shape(b));
    assert forall|x: usize| x < e.n() implies #[trigger] e.list_ok(x) by {
        assert(d.list_ok(x));
        assert(d.head_shape(x));
        let list = e.incomplete[x as int];
        let old_list = d.incomplete[x as int];
        assert forall|k: int| 0 <= k < list.len() implies e.phi_at(x, (#[trigger] list[k]).0, list[k].1)
            && !e.flight.contains((x, list[k].0)) by {
            if k < old_list.len() {
                assert(list[k] == old_list[k]);
                assert(d.phi_at(x, old_list[k].0, old_list[k].1));
            }
        }
        assert forall|j: int, k: int| 0 <= j < k < list.len() implies (#[trigger] list[j]).0 < (
        #[trigger] list[k]).0 by {
            assert(list[j] == old_list[j]);
            assert(d.phi_at(x, old_list[j].0, old_list[j].1));
            if k < old_list.len() {
                assert(list[k] == old_list[k]);
            }
        }
    }
    assert forall|i: int| 0 <= i < e.stale.len() implies e.stale_ok(#[trigger] e.stale[i]) by {
        let (x, pos, j, p, s) = d.stale[i];
        assert(d.stale_ok(d.stale[i]));
        assert(d.head_shape(x));
        assert(e.is_open(x, pos) == d.is_open(x, pos));
        assert(e.form.heads[x as int][pos as int] == d.form.heads[x as int][pos as int]);
        assert(d.cell(s, p) is Some);
        assert(e.cell(s, p) is Some);
    }
}

proof fn lemma_mint_places(d: Draft, b: usize, r: u8, now: bool)
    requires
        d.inv(),
        b < d.n(),
        r < 11,
        d.cell(r, b) is None,
    ensures
        d.minted(b, r, now).origins_ok(),
{
    lemma_missing(d, b, r);
    let e = d.minted(b, r, now);
    let v = SsaValue(d.next() as u32);
    let at = d.form.heads[b as int].len() as usize;
    assert forall|w: int| 0 <= w < e.next() implies #[trigger] e.origin_ok(w) by {
        if w < d.next() {
            assert(d.origin_ok(w));
            let (x, head, pos) = d.origins[w];
            assert(e.part(x, head)[pos as int] == d.part(x, head)[pos as int]);
        }
    }
    assert forall|x: usize, head: bool, pos: usize| x < e.n() && pos < e.part(x, head).len() implies
        #[trigger] e.place_ok(x, head, pos) by {
        if pos < d.part(x, head).len() {
            assert(d.place_ok(x, head, pos));
            assert(e.part(x, head)[pos as int] == d.part(x, head)[pos as int]);
            if let Some(w) = d.part(x, head)[pos as int].def() {
                assert(e.origins[w.0 as int] == d.origins[w.0 as int]);
            }
        } else {
            assert(x == b && head && pos == at);
        }
    }
}

/// Adding a phi is growing.
pub proof fn lemma_mint_grew(d: Draft, b: usize, r: u8, now: bool)
    requires
        d.inv(),
        b < d.n(),
        r < 11,
        d.cell(r, b) is None,
        !now ==> !d.sealed[b as int],
    ensures
        d.grew(d.minted(b, r, now), r, Set::empty()),
{
    lemma_missing(d, b, r);
    lemma_mint_open(d, b, r, now);
    lemma_mint(d, b, r, now);
    let e = d.minted(b, r, now);
    assert(d.form.owner =~= e.form.owner.take(d.form.owner.len() as int));
    assert(d.origins =~= e.origins.take(d.origins.len() as int));
    assert forall|x: usize| x < d.n() implies (#[trigger] d.form.regs[x as int]).is_prefix_of(
        e.form.regs[x as int],
    ) by {
        let (p, q) = (d.form.regs[x as int], e.form.regs[x as int]);
        assert(p =~= q.take(p.len() as int));
    }
    assert forall|x: usize| x < d.n() implies (#[trigger] d.incomplete[x as int]).is_prefix_of(
        e.incomplete[x as int],
    ) by {
        let (p, q) = (d.incomplete[x as int], e.incomplete[x as int]);
        assert(p =~= q.take(p.len() as int));
    }
    assert forall|x: usize| x < d.n() && (#[trigger] d.cell(r, x)) is Some implies e.cell(r, x) is Some by {
    }
    assert forall|x: usize, pos: usize|
        #![trigger d.is_open(x, pos)]
        x < d.n() && pos < d.form.heads[x as int].len() && d.is_open(x, pos) implies e.is_open(x, pos)
        && e.form.heads[x as int][pos as int] == d.form.heads[x as int][pos as int] by {
        assert(e.is_open(x, pos) == d.is_open(x, pos));
    }
}

/// Remembering a version keeps the invariant, and is growing.
pub proof fn lemma_note(d: Draft, b: usize, r: u8, v: SsaValue)
    requires
        d.inv(),
        b < d.n(),
        r < 11,
        d.env[b as int][r as int] is None,
        v.0 < d.next(),
        d.form.belongs(r, v),
        d.backed(b, r, v),
    ensures
        d.noted(b, r, v).inv(),
        d.grew(d.noted(b, r, v), r, Set::empty()),
        d.noted(b, r, v).known(b, r, v),
{
    let e = d.noted(b, r, v);
    let n = d.n();
    let row = d.cur[r as int];
    lemma_nones_update(row, n, b as int, v);
    lemma_all_nones_update(d.cur, n, 11, r as int, row.update(b as int, Some(v)));
    assert forall|x: usize| x < n implies (#[trigger] d.form.regs[x as int]).is_prefix_of(
        e.form.regs[x as int],
    ) by {
        let p = d.form.regs[x as int];
        assert(p =~= p.take(p.len() as int));
    }
    assert forall|x: usize| x < n implies (#[trigger] d.incomplete[x as int]).is_prefix_of(
        e.incomplete[x as int],
    ) by {
        let p = d.incomplete[x as int];
        assert(p =~= p.take(p.len() as int));
    }
    assert(d.form.owner =~= e.form.owner.take(d.form.owner.len() as int));
    assert(d.origins =~= e.origins.take(d.origins.len() as int));
    assert(d.extends(e));
    lemma_names(d, e);
    lemma_backed(d, e, b, r, v);
    assert(e.shape());
    assert(e.names_ok());
    assert forall|s: u8, x: usize| s < 11 && x < n && (#[trigger] d.cell(s, x)) is Some implies e.cell(
        s,
        x,
    ) is Some by {
    }
    assert(e.cells_ok()) by {
        assert forall|s: u8, x: usize| s < 11 && x < e.n() implies #[trigger] e.cell_ok(s, x) by {
            assert(d.cell_ok(s, x));
            if s == r && x == b {
                assert(e.cell(s, x) == Some(v));
            } else {
                assert(e.cell(s, x) == d.cell(s, x));
            }
        }
    }
    assert forall|x: usize, pos: usize| #![trigger d.is_open(x, pos)] d.is_open(x, pos) == e.is_open(
        x,
        pos,
    ) by {
        assert(d.listed(x, pos) == e.listed(x, pos)) by {
            assert(d.incomplete == e.incomplete);
        }
    }
    assert(e.heads_ok()) by {
        assert forall|x: usize| x < e.n() implies #[trigger] e.head_shape(x) by {
            assert(d.head_shape(x));
            let regs = e.form.regs[x as int];
            assert forall|k: int| 0 <= k < regs.len() implies #[trigger] e.phi_ok(x, k) by {
                assert(d.phi_ok(x, k));
                let pos = (base(x) + k) as usize;
                let s = regs[k];
                assert(d.cell(s, x) is Some);
                assert(d.is_open(x, pos) == e.is_open(x, pos));
                if let Op::Phi { inputs, .. } = d.form.heads[x as int][pos as int] {
                    if !d.is_open(x, pos) {
                        let from = starts(d.insns, x, s);
                        assert forall|j: usize| from.len() <= j < inputs.len() implies e.input_ok(
                            x,
                            pos,
                            j,
                            s,
                            #[trigger] inputs[j as int],
                        ) by {
                            assert(d.input_ok(x, pos, j, s, inputs[j as int]));
                        }
                    }
                }
            }
        }
    }
    assert(e.lists_ok()) by {
        assert forall|x: usize| x < e.n() implies #[trigger] e.list_ok(x) by {
            assert(d.list_ok(x));
            let list = e.incomplete[x as int];
            assert forall|k: int| 0 <= k < list.len() implies e.phi_at(x, (#[trigger] list[k]).0, list[k].1)
                && !e.flight.contains((x, list[k].0)) by {
                assert(d.phi_at(x, d.incomplete[x as int][k].0, list[k].1));
            }
        }
    }
    assert(e.stales_ok()) by {
        assert forall|i: int| 0 <= i < e.stale.len() implies e.stale_ok(#[trigger] e.stale[i]) by {
            let (x, pos, j, p, s) = d.stale[i];
            assert(d.stale_ok(d.stale[i]));
            assert(d.is_open(x, pos) == e.is_open(x, pos));
            assert(d.cell(s, p) is Some);
        }
    }
    assert(e.origins_ok()) by {
        assert forall|w: int| 0 <= w < e.next() implies #[trigger] e.origin_ok(w) by {
            assert(d.origin_ok(w));
        }
        assert forall|x: usize, head: bool, pos: usize| x < e.n() && pos < e.part(x, head).len() implies
            #[trigger] e.place_ok(x, head, pos) by {
            assert(d.place_ok(x, head, pos));
        }
    }
    assert(e.bodies_ok()) by {
        assert forall|x: usize| x < e.n() implies #[trigger] e.body_shape(x) by {
            assert(d.body_shape(x));
            let (start, end) = (
                blocks(d.insns)[x as int].start.0 as int,
                blocks(d.insns)[x as int].end.0 as int,
            );
            if d.filled[x as int] {
                lemma_body_ok_names(
                    d.insns,
                    d.form.names,
                    e.form.names,
                    x,
                    d.form.bodies[x as int],
                    start,
                    end,
                );
                assert forall|q: int| start <= q < end implies #[trigger] e.form.owns(d.insns, x, q) by {
                    lemma_owns(d.form, e.form, d.insns, x, q);
                }
            }
        }
    }
    assert(e.flags_ok()) by {
        assert forall|s: u8| !entry_loop(d.insns) && s < 11 implies (#[trigger] e.cell(s, 0)) is Some by {
            assert(d.cell(s, 0) is Some);
        }
        assert forall|x: usize|
            x < e.n() && #[trigger] e.sealed[x as int] && preds(e.insns, x).contains(x) implies e.filled[x as int] by {
            assert(d.sealed[x as int]);
        }
    }
    assert forall|x: usize, pos: usize|
        #![trigger d.is_open(x, pos)]
        x < d.n() && pos < d.form.heads[x as int].len() && d.is_open(x, pos) implies e.is_open(x, pos)
        && e.form.heads[x as int][pos as int] == d.form.heads[x as int][pos as int] by {
        assert(d.is_open(x, pos) == e.is_open(x, pos));
    }
}

/// The inputs of predecessors from `j` on that are to be read again.
pub open spec fn stale_inputs(
    insns: Seq<Insn>,
    filled: Seq<bool>,
    b: usize,
    pos: usize,
    r: u8,
    j: nat,
) -> Seq<Stale>
    decreases j,
{
    if j == 0 {
        Seq::empty()
    } else {
        let rest = stale_inputs(insns, filled, b, pos, r, (j - 1) as nat);
        let p = preds(insns, b)[j - 1];
        if filled[p as int] {
            rest
        } else {
            rest.push((b, pos, (starts(insns, b, r).len() + j - 1) as usize, p, r))
        }
    }
}

/// Whether an input to read again is that of one of the first `j`
/// predecessors, which is not filled.
spec fn waits_for(insns: Seq<Insn>, filled: Seq<bool>, b: usize, pos: usize, r: u8, j: nat, t: Stale) -> bool {
    exists|k: int|
        0 <= k < j && !filled[#[trigger] preds(insns, b)[k] as int] && t == (
            b,
            pos,
            (starts(insns, b, r).len() + k) as usize,
            preds(insns, b)[k],
            r,
        )
}

proof fn lemma_stale_inputs(
    insns: Seq<Insn>,
    filled: Seq<bool>,
    b: usize,
    pos: usize,
    r: u8,
    j: nat,
)
    ensures
        forall|t: Stale| #[trigger]
            stale_inputs(insns, filled, b, pos, r, j).contains(t) <==> waits_for(
                insns,
                filled,
                b,
                pos,
                r,
                j,
                t,
            ),
    decreases j,
{
    if j > 0 {
        lemma_stale_inputs(insns, filled, b, pos, r, (j - 1) as nat);
        let rest = stale_inputs(insns, filled, b, pos, r, (j - 1) as nat);
        let all = stale_inputs(insns, filled, b, pos, r, j);
        let p = preds(insns, b)[j - 1];
        let last = (b, pos, (starts(insns, b, r).len() + j - 1) as usize, p, r);
        assert forall|t: Stale| #[trigger] all.contains(t) implies waits_for(
            insns,
            filled,
            b,
            pos,
            r,
            j,
            t,
        ) by {
            let i = all.index_of(t);
            if i < rest.len() {
                assert(rest[i] == t);
                assert(rest.contains(t));
                let k = choose|k: int|
                    0 <= k < j - 1 && !filled[#[trigger] preds(insns, b)[k] as int] && t == (
                        b,
                        pos,
                        (starts(insns, b, r).len() + k) as usize,
                        preds(insns, b)[k],
                        r,
                    );
                assert(!filled[preds(insns, b)[k] as int]);
            } else {
                assert(!filled[preds(insns, b)[j - 1] as int]);
            }
        }
        assert forall|t: Stale| waits_for(insns, filled, b, pos, r, j, t) implies #[trigger] all.contains(t) by {
            let k = choose|k: int|
                0 <= k < j && !filled[#[trigger] preds(insns, b)[k] as int] && t == (
                    b,
                    pos,
                    (starts(insns, b, r).len() + k) as usize,
                    preds(insns, b)[k],
                    r,
                );
            if k < j - 1 {
                assert(!filled[preds(insns, b)[k] as int]);
                assert(waits_for(insns, filled, b, pos, r, (j - 1) as nat, t));
                assert(rest.contains(t));
                let m = rest.index_of(t);
                assert(all[m] == t);
            } else {
                assert(t == last);
                assert(all[rest.len() as int] == t);
            }
        }
    }
}

/// The inputs of a phi: what it takes from the start, and an operand per
/// predecessor.
pub open spec fn inputs_of(insns: Seq<Insn>, b: usize, r: u8, operands: Seq<SsaValue>) -> Seq<
    (usize, SsaValue),
> {
    starts(insns, b, r) + Seq::new(operands.len(), |j: int| (preds(insns, b)[j], operands[j]))
}

impl Draft {
    /// A phi gets its inputs.
    pub open spec fn completed(self, b: usize, pos: usize, r: u8, operands: Seq<SsaValue>) -> Draft {
        let head = self.form.heads[b as int];
        let op = Op::Phi {
            dst: head[pos as int].def()->0,
            inputs: inputs_of(self.insns, b, r, operands),
        };
        Draft {
            form: Form { heads: self.form.heads.update(b as int, head.update(pos as int, op)), ..self.form },
            stale: self.stale + stale_inputs(
                self.insns,
                self.filled,
                b,
                pos,
                r,
                preds(self.insns, b).len(),
            ),
            flight: self.flight.remove((b, pos)),
            ..self
        }
    }

    /// Whether operands are versions of a register at the predecessors of a
    /// block.
    pub open spec fn operands_ok(self, b: usize, r: u8, operands: Seq<SsaValue>) -> bool {
        &&& operands.len() <= preds(self.insns, b).len()
        &&& forall|j: int|
            0 <= j < operands.len() ==> {
                let p = preds(self.insns, b)[j];
                &&& (#[trigger] operands[j]).0 < self.next()
                &&& self.form.belongs(r, operands[j])
                &&& self.known(p, r, operands[j])
                &&& self.cell(r, p) is Some
            }
    }
}

/// Operands stay versions when a draft grows.
pub proof fn lemma_operands(a: Draft, d: Draft, b: usize, r: u8, operands: Seq<SsaValue>, skip: Set<(usize, usize)>)
    requires
        a.shape(),
        a.grew(d, r, skip),
        b < a.n(),
        a.operands_ok(b, r, operands),
    ensures
        d.operands_ok(b, r, operands),
{
    assert forall|j: int| 0 <= j < operands.len() implies {
        let p = preds(d.insns, b)[j];
        &&& (#[trigger] operands[j]).0 < d.next()
        &&& d.form.belongs(r, operands[j])
        &&& d.known(p, r, operands[j])
        &&& d.cell(r, p) is Some
    } by {
        let p = preds(a.insns, b)[j];
        assert(operands[j].0 < a.next());
        assert(a.cell(r, p) is Some);
        lemma_belongs(a.form, d.form, r, operands[j]);
    }
}

/// Completing a phi keeps the invariant.
#[verifier::spinoff_prover]
#[verifier::rlimit(40)]
pub proof fn lemma_complete(d: Draft, b: usize, pos: usize, r: u8, operands: Seq<SsaValue>)
    requires
        d.inv(),
        d.phi_at(b, pos, r),
        r < 11,
        d.flight.contains((b, pos)),
        operands.len() == preds(d.insns, b).len(),
        starts(d.insns, b, r).len() + operands.len() <= usize::MAX,
        d.operands_ok(b, r, operands),
    ensures
        d.completed(b, pos, r, operands).inv(),
        d.grew(d.completed(b, pos, r, operands), r, set![(b, pos)]),
{
    let e = d.completed(b, pos, r, operands);
    let n = d.n();
    let at = pos - base(b);
    assert(d.head_shape(b));
    assert(d.phi_ok(b, at));
    assert((base(b) + at) as usize == pos);
    let dst = d.form.heads[b as int][pos as int]->Phi_dst;
    assert(d.form.heads[b as int][pos as int].def() == Some(dst));
    let op = e.form.heads[b as int][pos as int];
    assert(op.def() == Some(dst));
    let inputs = inputs_of(d.insns, b, r, operands);
    let from = starts(d.insns, b, r);
    lemma_stale_inputs(d.insns, d.filled, b, pos, r, preds(d.insns, b).len());
    let more = stale_inputs(d.insns, d.filled, b, pos, r, preds(d.insns, b).len());
    assert(d.form.owner =~= e.form.owner.take(d.form.owner.len() as int));
    assert(d.origins =~= e.origins.take(d.origins.len() as int));
    assert forall|x: usize| x < n implies (#[trigger] d.form.regs[x as int]).is_prefix_of(
        e.form.regs[x as int],
    ) by {
        let p = d.form.regs[x as int];
        assert(p =~= p.take(p.len() as int));
    }
    assert forall|x: usize| x < n implies (#[trigger] d.incomplete[x as int]).is_prefix_of(
        e.incomplete[x as int],
    ) by {
        let p = d.incomplete[x as int];
        assert(p =~= p.take(p.len() as int));
    }
    assert forall|x: usize, k: int| x < n && 0 <= k < d.form.regs[x as int].len() implies e.form.heads[x as int][base(
        x,
    ) + k].def() == (#[trigger] d.form.heads[x as int][base(x) + k]).def() by {
    }
    assert(d.extends(e));
    lemma_names(d, e);
    assert(e.shape());
    assert(e.names_ok());
    assert(d.list_ok(b));
    assert(!e.is_open(b, pos)) by {
        if e.listed(b, pos) {
            let k = choose|k: int|
                0 <= k < e.incomplete[b as int].len() && (#[trigger] e.incomplete[b as int][k]).0 == pos;
            assert(d.incomplete[b as int][k].0 == pos);
        }
    }
    assert forall|x: usize, q: usize| #![trigger d.is_open(x, q)] #![trigger e.is_open(x, q)] (x, q)
        != (b, pos) implies d.is_open(x, q) == e.is_open(x, q) by {
        assert(d.listed(x, q) == e.listed(x, q)) by {
            assert(d.incomplete == e.incomplete);
        }
    }
    assert forall|t: Stale| #[trigger] d.is_stale(t) implies e.is_stale(t) by {
        let i = d.stale.index_of(t);
        assert(e.stale[i] == t);
    }
    assert(e.cells_ok()) by {
        assert forall|s: u8, x: usize| s < 11 && x < e.n() implies #[trigger] e.cell_ok(s, x) by {
            assert(d.cell_ok(s, x));
        }
    }
    assert(e.heads_ok()) by {
        assert forall|x: usize| x < e.n() implies #[trigger] e.head_shape(x) by {
            assert(d.head_shape(x));
            let regs = e.form.regs[x as int];
            if b == 0 {
                assert(e.form.heads[0].take(3) =~= d.form.heads[0].take(3));
            }
            assert forall|k: int| 0 <= k < regs.len() implies #[trigger] e.phi_ok(x, k) by {
                assert(d.phi_ok(x, k));
                let q = (base(x) + k) as usize;
                let s = regs[k];
                assert(d.cell(s, x) is Some);
                if (x, q) == (b, pos) {
                    assert(s == r);
                    assert(inputs.take(from.len() as int) =~= from);
                    assert forall|j: usize| from.len() <= j < inputs.len() implies e.input_ok(
                        x,
                        q,
                        j,
                        s,
                        #[trigger] inputs[j as int],
                    ) by {
                        let m = j - from.len();
                        let p = preds(d.insns, b)[m];
                        assert(inputs[j as int] == (p, operands[m]));
                        if !d.filled[p as int] {
                            let t = (b, pos, j, p, r);
                            assert(!d.filled[preds(d.insns, b)[m] as int]);
                            assert(waits_for(
                                d.insns,
                                d.filled,
                                b,
                                pos,
                                r,
                                preds(d.insns, b).len(),
                                t,
                            ));
                            assert(more.contains(t));
                            let i = more.index_of(t);
                            assert(e.stale[d.stale.len() + i] == t);
                        }
                    }
                } else {
                    assert(d.is_open(x, q) == e.is_open(x, q));
                    assert(e.form.heads[x as int][q as int] == d.form.heads[x as int][q as int]);
                    if let Op::Phi { inputs: ins, .. } = d.form.heads[x as int][q as int] {
                        if !d.is_open(x, q) {
                            let f = starts(d.insns, x, s);
                            assert forall|j: usize| f.len() <= j < ins.len() implies e.input_ok(
                                x,
                                q,
                                j,
                                s,
                                #[trigger] ins[j as int],
                            ) by {
                                assert(d.input_ok(x, q, j, s, ins[j as int]));
                                let t = (x, q, j, ins[j as int].0, s);
                                if d.is_stale(t) {
                                    assert(e.is_stale(t));
                                }
                            }
                        }
                    }
                }
            }
        }
    }
    assert(e.lists_ok()) by {
        assert forall|x: usize| x < e.n() implies #[trigger] e.list_ok(x) by {
            assert(d.list_ok(x));
            let list = e.incomplete[x as int];
            assert forall|k: int| 0 <= k < list.len() implies e.phi_at(x, (#[trigger] list[k]).0, list[k].1)
                && !e.flight.contains((x, list[k].0)) by {
                assert(d.phi_at(x, d.incomplete[x as int][k].0, list[k].1));
            }
        }
    }
    assert(e.stales_ok()) by {
        assert forall|i: int| 0 <= i < e.stale.len() implies e.stale_ok(#[trigger] e.stale[i]) by {
            if i < d.stale.len() {
                let (x, q, j, p, s) = d.stale[i];
                assert(e.stale[i] == d.stale[i]);
                assert(d.stale_ok(d.stale[i]));
                assert(d.is_open(b, pos));
                assert((x, q) != (b, pos));
                assert(d.is_open(x, q) == e.is_open(x, q));
                assert(d.cell(s, p) is Some);
            } else {
                let t = more[i - d.stale.len()];
                assert(e.stale[i] == t);
                assert(more.contains(t));
                let k = choose|k: int|
                    0 <= k < preds(d.insns, b).len() && !d.filled[#[trigger] preds(d.insns, b)[k] as int]
                        && t == (
                        b,
                        pos,
                        (starts(d.insns, b, r).len() + k) as usize,
                        preds(d.insns, b)[k],
                        r,
                    );
                let p = preds(d.insns, b)[k];
                assert(inputs[from.len() + k] == (p, operands[k]));
                assert(operands[k].0 < d.next());
                assert(d.body_shape(p));
                assert(!d.live[p as int] ==> d.form.names.contains((p, r, operands[k])));
            }
        }
    }
    assert(e.origins_ok()) by {
        assert forall|w: int| 0 <= w < e.next() implies #[trigger] e.origin_ok(w) by {
            assert(d.origin_ok(w));
        }
        assert forall|x: usize, head: bool, q: usize| x < e.n() && q < e.part(x, head).len() implies
            #[trigger] e.place_ok(x, head, q) by {
            assert(d.place_ok(x, head, q));
        }
    }
    assert(e.bodies_ok()) by {
        assert forall|x: usize| x < e.n() implies #[trigger] e.body_shape(x) by {
            assert(d.body_shape(x));
            let (start, end) = (
                blocks(d.insns)[x as int].start.0 as int,
                blocks(d.insns)[x as int].end.0 as int,
            );
            if d.filled[x as int] {
                assert forall|q: int| start <= q < end implies #[trigger] e.form.owns(d.insns, x, q) by {
                    lemma_owns(d.form, e.form, d.insns, x, q);
                }
            }
        }
    }
    assert(e.counts_ok()) by {
        lemma_total_update(d.form.heads, n, b as int, e.form.heads[b as int]);
    }
    assert(e.flags_ok()) by {
        assert forall|s: u8| !entry_loop(d.insns) && s < 11 implies (#[trigger] e.cell(s, 0)) is Some by {
            assert(d.cell(s, 0) is Some);
        }
        assert forall|x: usize|
            x < e.n() && #[trigger] e.sealed[x as int] && preds(e.insns, x).contains(x) implies e.filled[x as int] by {
            assert(d.sealed[x as int]);
        }
    }
    let skip = set![(b, pos)];
    assert forall|x: usize, q: usize|
        #![trigger d.is_open(x, q)]
        x < d.n() && q < d.form.heads[x as int].len() && d.is_open(x, q) && !skip.contains((x, q)) implies e.is_open(
        x,
        q,
    ) && e.form.heads[x as int][q as int] == d.form.heads[x as int][q as int] by {
        assert(d.is_open(x, q) == e.is_open(x, q));
    }
    assert forall|x: usize| x < d.n() && (#[trigger] d.cell(r, x)) is Some implies e.cell(r, x) is Some by {
    }
}

} // verus!
