//! Steps of an SSA construction that render instructions.
use vstd::prelude::*;

use crate::cfg::{blocks, edges};
use crate::isa::insn::Insn;
use crate::ssa::draft::{
    lemma_all_nones_update, lemma_belongs, lemma_names, lemma_nones_update, lemma_owns,
    lemma_total_update, uses_below, Draft,
};
use crate::ssa::flow::{lemma_unset_update, unset};
use crate::ssa::form::{
    base, body_ok, entry_loop, op_ok, preds, rendered, starts, walk, written, Form,
};
use crate::ssa::{Op, SsaValue};

verus! {

impl Draft {
    /// The first index of a block.
    pub open spec fn start(self, b: usize) -> int {
        blocks(self.insns)[b as int].start.0 as int
    }

    /// One past the last index of a block.
    pub open spec fn end(self, b: usize) -> int {
        blocks(self.insns)[b as int].end.0 as int
    }

    /// Whether the body of a block renders its instructions up to `pc`.
    pub open spec fn partly(self, b: usize, pc: int) -> bool {
        let body = self.form.bodies[b as int];
        &&& self.start(b) <= pc <= self.end(b)
        &&& self.live[b as int]
        &&& !self.filled[b as int]
        &&& body_ok(self.insns, self.form.names, b, body, self.start(b), pc)
        &&& walk(self.insns, body, self.start(b), pc) == (body.len() as int, self.env[b as int])
        &&& forall|q: int| self.start(b) <= q < pc ==> #[trigger] self.form.owns(self.insns, b, q)
        &&& forall|q: int| pc <= q < self.end(b) ==> !#[trigger] self.done[q]
    }

    /// An instruction is added to the body of a block for index `pc`, and
    /// defines a register.
    pub open spec fn bodied(self, b: usize, op: Op, target: Option<u8>, pc: int) -> Draft {
        let v = SsaValue(self.next() as u32);
        let at = self.form.bodies[b as int].len() as usize;
        let grown = Draft {
            form: Form {
                bodies: self.form.bodies.update(b as int, self.form.bodies[b as int].push(op)),
                owner: if op.def() is Some {
                    self.form.owner.push(
                        match target {
                            Some(r) => r,
                            None => 10,
                        },
                    )
                } else {
                    self.form.owner
                },
                ..self.form
            },
            origins: if op.def() is Some {
                self.origins.push((b, false, at))
            } else {
                self.origins
            },
            done: self.done.update(pc, true),
            ..self
        };
        match target {
            Some(r) => Draft {
                cur: self.cur.update(r as int, self.cur[r as int].update(b as int, Some(v))),
                env: self.env.update(b as int, self.env[b as int].update(r as int, Some(v))),
                ..grown
            },
            None => grown,
        }
    }

    /// Index `pc` is passed over.
    pub open spec fn passed(self, pc: int) -> Draft {
        Draft { done: self.done.update(pc, true), ..self }
    }
}

/// The position that belongs to an index does not go down.
proof fn lemma_walk_grows(insns: Seq<Insn>, body: Seq<Op>, start: int, p: int, q: int)
    requires
        p <= q,
    ensures
        0 <= walk(insns, body, start, p).0 <= walk(insns, body, start, q).0,
    decreases q - start,
{
    if q <= start {
    } else if p < q {
        lemma_walk_grows(insns, body, start, p, q - 1);
        lemma_walk_grows(insns, body, start, q - 1, q - 1);
    } else {
        lemma_walk_grows(insns, body, start, q - 1, q - 1);
    }
}

/// Instructions behind a position do not matter to it.
proof fn lemma_walk_push(insns: Seq<Insn>, body: Seq<Op>, op: Op, start: int, pc: int)
    requires
        walk(insns, body, start, pc).0 <= body.len(),
    ensures
        walk(insns, body.push(op), start, pc) == walk(insns, body, start, pc),
    decreases pc - start,
{
    if pc > start {
        lemma_walk_grows(insns, body, start, pc - 1, pc);
        lemma_walk_push(insns, body, op, start, pc - 1);
    }
}

/// Rendering an index extends what is rendered.
pub proof fn lemma_body_push(d: Draft, e: Draft, b: usize, op: Op, pc: int)
    requires
        d.inv(),
        b < d.n(),
        d.partly(b, pc),
        pc < d.end(b),
        rendered(d.insns[pc]),
        e.insns == d.insns,
        e.form.names == d.form.names,
        e.form.bodies[b as int] == d.form.bodies[b as int].push(op),
        d.form.owner.is_prefix_of(e.form.owner),
        op_ok(edges(d.insns), d.form.names, b, d.env[b as int], d.insns[pc], op),
        written(d.insns[pc]) matches Some(r) ==> op.def() matches Some(v) && v.0 >= 3 && e.form.belongs(
            r,
            v,
        ),
    ensures
        body_ok(e.insns, e.form.names, b, e.form.bodies[b as int], d.start(b), pc + 1),
        walk(e.insns, e.form.bodies[b as int], d.start(b), pc + 1) == (
            (d.form.bodies[b as int].len() + 1) as int,
            match written(d.insns[pc]) {
                Some(r) => d.env[b as int].update(r as int, op.def()),
                None => d.env[b as int],
            },
        ),
        forall|q: int| d.start(b) <= q < pc + 1 ==> #[trigger] e.form.owns(e.insns, b, q),
{
    let body = d.form.bodies[b as int];
    let more = body.push(op);
    let start = d.start(b);
    lemma_walk_push(d.insns, body, op, start, pc);
    assert forall|q: int| start <= q < pc + 1 && rendered(#[trigger] d.insns[q]) implies {
        let (k, env) = walk(d.insns, more, start, q);
        0 <= k < more.len() && op_ok(edges(d.insns), d.form.names, b, env, d.insns[q], more[k])
    } by {
        if q < pc {
            lemma_walk_grows(d.insns, body, start, q, pc);
            lemma_walk_push(d.insns, body, op, start, q);
        }
    }
    assert forall|q: int| start <= q < pc + 1 implies #[trigger] e.form.owns(e.insns, b, q) by {
        lemma_walk_grows(d.insns, body, start, q, pc);
        lemma_walk_push(d.insns, body, op, start, q);
        let k = walk(d.insns, body, start, q).0;
        if q < pc {
            assert(d.form.owns(d.insns, b, q));
            if let Some(r) = written(d.insns[q]) {
                assert(rendered(d.insns[q]));
                assert(more[k] == body[k]);
                lemma_belongs(d.form, e.form, r, body[k].def()->0);
            }
        }
    }
}

/// Rendering an instruction keeps the invariant.
#[verifier::spinoff_prover]
#[verifier::rlimit(40)]
pub proof fn lemma_bodied(d: Draft, b: usize, op: Op, target: Option<u8>, pc: int)
    requires
        d.inv(),
        b < d.n(),
        d.live[b as int],
        !d.filled[b as int],
        0 <= pc < d.insns.len(),
        !d.done[pc],
        op.def() matches Some(v) ==> v == SsaValue(d.next() as u32),
        target matches Some(r) ==> r < 11 && op.def() is Some,
        uses_below(op, d.next()),
        op.blocks_below(d.n()),
    ensures
        d.bodied(b, op, target, pc).inv(),
{
    let e = d.bodied(b, op, target, pc);
    let n = d.n();
    let v = SsaValue(d.next() as u32);
    let at = d.form.bodies[b as int].len() as usize;
    lemma_unset_update(d.done, d.insns.len(), pc);
    lemma_total_update(d.form.bodies, n, b as int, e.form.bodies[b as int]);
    assert(d.form.bodies[b as int].len() < u32::MAX && d.next() < u32::MAX) by {
        lemma_total_update(d.form.bodies, n, b as int, Seq::empty());
    }
    if let Some(r) = target {
        let row = d.cur[r as int];
        lemma_nones_update(row, n, b as int, v);
        lemma_all_nones_update(d.cur, n, 11, r as int, row.update(b as int, Some(v)));
    }
    assert(d.form.owner =~= e.form.owner.take(d.form.owner.len() as int));
    assert forall|x: usize| x < n implies (#[trigger] d.form.regs[x as int]).is_prefix_of(
        e.form.regs[x as int],
    ) by {
        let p = d.form.regs[x as int];
        assert(p =~= p.take(p.len() as int));
    }
    assert(d.extends(e));
    lemma_names(d, e);
    assert(e.shape());
    assert(e.names_ok());
    assert forall|x: usize, q: usize| #![trigger d.is_open(x, q)] #![trigger e.is_open(x, q)] d.is_open(
        x,
        q,
    ) == e.is_open(x, q) by {
        assert(d.listed(x, q) == e.listed(x, q)) by {
            assert(d.incomplete == e.incomplete);
        }
    }
    assert forall|s: u8, x: usize| s < 11 && x < n && (#[trigger] d.cell(s, x)) is Some implies e.cell(
        s,
        x,
    ) is Some by {
    }
    assert(e.cells_ok()) by {
        assert forall|s: u8, x: usize| s < 11 && x < e.n() implies #[trigger] e.cell_ok(s, x) by {
            assert(d.cell_ok(s, x));
            if let Some(w) = d.cell(s, x) {
                lemma_belongs(d.form, e.form, s, w);
            }
            if target == Some(s) && x == b {
                assert(e.cell(s, x) == Some(v));
                assert(e.env[x as int][s as int] == Some(v));
                assert(e.form.belongs(s, v));
            } else {
                assert(e.cell(s, x) == d.cell(s, x));
                assert(e.env[x as int][s as int] == d.env[x as int][s as int]);
            }
        }
    }
    assert(e.heads_ok()) by {
        assert forall|x: usize| x < e.n() implies #[trigger] e.head_shape(x) by {
            assert(d.head_shape(x));
            let regs = e.form.regs[x as int];
            assert forall|k: int| 0 <= k < regs.len() implies #[trigger] e.phi_ok(x, k) by {
                assert(d.phi_ok(x, k));
                let pos = (base(x) + k) as usize;
                let s = regs[k];
                assert(d.cell(s, x) is Some);
                assert(d.is_open(x, pos) == e.is_open(x, pos));
                if let Op::Phi { dst, inputs } = d.form.heads[x as int][pos as int] {
                    lemma_belongs(d.form, e.form, s, dst);
                    if !d.is_open(x, pos) {
                        let from = starts(d.insns, x, s);
                        assert forall|j: usize| from.len() <= j < inputs.len() implies e.input_ok(
                            x,
                            pos,
                            j,
                            s,
                            #[trigger] inputs[j as int],
                        ) by {
                            assert(d.input_ok(x, pos, j, s, inputs[j as int]));
                            lemma_belongs(d.form, e.form, s, inputs[j as int].1);
                        }
                    }
                }
            }
        }
    }
    assert(e.lists_ok()) by {
        assert forall|x: usize| x < e.n() implies #[trigger] e.list_ok(x) by {
            assert(d.list_ok(x));
            let list = e.incomplete[x as int];
            assert forall|k: int| 0 <= k < list.len() implies e.phi_at(x, (#[trigger] list[k]).0, list[k].1)
                && !e.flight.contains((x, list[k].0)) by {
                assert(d.phi_at(x, d.incomplete[x as int][k].0, list[k].1));
            }
        }
    }
    assert(e.stales_ok()) by {
        assert forall|i: int| 0 <= i < e.stale.len() implies e.stale_ok(#[trigger] e.stale[i]) by {
            let (x, pos, j, p, s) = d.stale[i];
            assert(d.stale_ok(d.stale[i]));
            assert(d.is_open(x, pos) == e.is_open(x, pos));
            assert(d.cell(s, p) is Some);
        }
    }
    assert(e.origins_ok()) by {
        assert forall|w: int| 0 <= w < e.next() implies #[trigger] e.origin_ok(w) by {
            if w < d.next() {
                assert(d.origin_ok(w));
                let (x, head, pos) = d.origins[w];
                assert(e.part(x, head)[pos as int] == d.part(x, head)[pos as int]);
            }
        }
        assert forall|x: usize, head: bool, pos: usize| x < e.n() && pos < e.part(x, head).len() implies
            #[trigger] e.place_ok(x, head, pos) by {
            if pos < d.part(x, head).len() {
                assert(d.place_ok(x, head, pos));
                assert(e.part(x, head)[pos as int] == d.part(x, head)[pos as int]);
                if let Some(w) = d.part(x, head)[pos as int].def() {
                    assert(e.origins[w.0 as int] == d.origins[w.0 as int]);
                }
            } else {
                assert(x == b && !head && pos == at);
            }
        }
    }
    assert(e.bodies_ok()) by {
        assert forall|x: usize| x < e.n() implies #[trigger] e.body_shape(x) by {
            assert(d.body_shape(x));
            let body = e.form.bodies[x as int];
            if d.filled[x as int] {
                assert forall|q: int| d.start(x) <= q < d.end(x) implies #[trigger] e.form.owns(
                    d.insns,
                    x,
                    q,
                ) by {
                    assert(d.form.owns(d.insns, x, q));
                    lemma_owns(d.form, e.form, d.insns, x, q);
                }
            }
            assert forall|k: int| 0 <= k < body.len() implies uses_below(#[trigger] body[k], e.next())
                && body[k].blocks_below(e.n()) by {
                if k < d.form.bodies[x as int].len() {
                    assert(uses_below(d.form.bodies[x as int][k], d.next()));
                    assert(body[k] == d.form.bodies[x as int][k]);
                }
            }
        }
    }
    assert(e.flags_ok()) by {
        assert forall|s: u8| !entry_loop(d.insns) && s < 11 implies (#[trigger] e.cell(s, 0)) is Some by {
            assert(d.cell(s, 0) is Some);
        }
        assert forall|x: usize|
            x < e.n() && #[trigger] e.sealed[x as int] && preds(e.insns, x).contains(x) implies e.filled[x as int] by {
            assert(d.sealed[x as int]);
        }
    }
}

/// A draft that differs in the progress of its blocks only.
pub open spec fn advances(d: Draft, e: Draft) -> bool {
    &&& e == (Draft { sealed: e.sealed, filled: e.filled, live: e.live, done: e.done, ..d })
    &&& e.sealed.len() == d.sealed.len()
    &&& e.filled.len() == d.filled.len()
    &&& e.live.len() == d.live.len()
    &&& e.done.len() == d.done.len()
    &&& forall|x: usize|
        x < d.n() ==> (#[trigger] d.filled[x as int] ==> e.filled[x as int]) && (d.live[x as int]
            ==> e.live[x as int])
}

/// Progress of blocks keeps the invariant, where bodies and flags allow it.
pub proof fn lemma_advance(d: Draft, e: Draft)
    requires
        d.inv(),
        advances(d, e),
        unset(e.done, d.insns.len()) <= unset(d.done, d.insns.len()),
        forall|b: usize|
            b < d.n() && #[trigger] e.filled[b as int] && !d.filled[b as int] ==> e.live[b as int] && d.partly(
                b,
                d.end(b),
            ),
        forall|b: usize|
            b < d.n() && #[trigger] e.sealed[b as int] && preds(d.insns, b).contains(b)
                ==> e.filled[b as int],
    ensures
        e.inv(),
{
    let n = d.n();
    assert(d.form.owner =~= e.form.owner.take(d.form.owner.len() as int));
    assert forall|x: usize| x < n implies (#[trigger] d.form.regs[x as int]).is_prefix_of(
        e.form.regs[x as int],
    ) by {
        let p = d.form.regs[x as int];
        assert(p =~= p.take(p.len() as int));
    }
    assert(d.extends(e));
    lemma_names(d, e);
    assert(e.shape());
    assert(e.names_ok());
    assert forall|x: usize, q: usize| #![trigger d.is_open(x, q)] #![trigger e.is_open(x, q)] d.is_open(
        x,
        q,
    ) == e.is_open(x, q) by {
        assert(d.listed(x, q) == e.listed(x, q)) by {
            assert(d.incomplete == e.incomplete);
        }
    }
    assert(e.cells_ok()) by {
        assert forall|s: u8, x: usize| s < 11 && x < e.n() implies #[trigger] e.cell_ok(s, x) by {
            assert(d.cell_ok(s, x));
        }
    }
    assert(e.heads_ok()) by {
        assert forall|x: usize| x < e.n() implies #[trigger] e.head_shape(x) by {
            assert(d.head_shape(x));
            let regs = e.form.regs[x as int];
            assert forall|k: int| 0 <= k < regs.len() implies #[trigger] e.phi_ok(x, k) by {
                assert(d.phi_ok(x, k));
                let pos = (base(x) + k) as usize;
                let s = regs[k];
                assert(d.cell(s, x) is Some);
                assert(d.is_open(x, pos) == e.is_open(x, pos));
                if let Op::Phi { inputs, .. } = d.form.heads[x as int][pos as int] {
                    if !d.is_open(x, pos) {
                        let from = starts(d.insns, x, s);
                        assert forall|j: usize| from.len() <= j < inputs.len() implies e.input_ok(
                            x,
                            pos,
                            j,
                            s,
                            #[trigger] inputs[j as int],
                        ) by {
                            assert(d.input_ok(x, pos, j, s, inputs[j as int]));
                            assert(preds(d.insns, x)[j - from.len()] < n);
                        }
                    }
                }
            }
        }
    }
    assert(e.lists_ok()) by {
        assert forall|x: usize| x < e.n() implies #[trigger] e.list_ok(x) by {
            assert(d.list_ok(x));
            let list = e.incomplete[x as int];
            assert forall|k: int| 0 <= k < list.len() implies e.phi_at(x, (#[trigger] list[k]).0, list[k].1)
                && !e.flight.contains((x, list[k].0)) by {
                assert(d.phi_at(x, d.incomplete[x as int][k].0, list[k].1));
            }
        }
    }
    assert(e.stales_ok()) by {
        assert forall|i: int| 0 <= i < e.stale.len() implies e.stale_ok(#[trigger] e.stale[i]) by {
            let (x, pos, j, p, s) = d.stale[i];
            assert(d.stale_ok(d.stale[i]));
            assert(d.is_open(x, pos) == e.is_open(x, pos));
            assert(d.cell(s, p) is Some);
            assert(d.filled[p as int] ==> e.filled[p as int]);
        }
    }
    assert(e.origins_ok()) by {
        assert forall|w: int| 0 <= w < e.next() implies #[trigger] e.origin_ok(w) by {
            assert(d.origin_ok(w));
        }
        assert forall|x: usize, head: bool, pos: usize| x < e.n() && pos < e.part(x, head).len() implies
            #[trigger] e.place_ok(x, head, pos) by {
            assert(d.place_ok(x, head, pos));
        }
    }
    assert(e.bodies_ok()) by {
        assert forall|x: usize| x < e.n() implies #[trigger] e.body_shape(x) by {
            assert(d.body_shape(x));
            assert(d.filled[x as int] ==> e.filled[x as int]);
        }
    }
    assert(e.flags_ok()) by {
        assert forall|s: u8| !entry_loop(d.insns) && s < 11 implies (#[trigger] e.cell(s, 0)) is Some by {
            assert(d.cell(s, 0) is Some);
        }
    }
}

} // verus!
