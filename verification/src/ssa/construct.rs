//! SSA construction on the fly.
//!
//! Blocks are visited in reverse postorder. A block is sealed before it is
//! filled once all of its predecessors are sealed, so that straight-line code
//! and diamonds read versions straight from the predecessors; in a block that
//! is not sealed, a read adds a phi whose inputs are read when the block is
//! sealed. Every register has an entry version, so every read ends at a
//! definition.
//!
//! [`build_ssa`] states its result with [`crate::ssa::form`].
use vstd::prelude::*;

use petgraph::graph::DiGraph;

use crate::cfg::{
    block_index, blocks, blocks_partition_program, cfg_error, edges, edges_mirror_control,
    edges_of_first, jump_target, leaders, leads, lemma_leader_block, lemma_target_exists, Cfg,
    EdgeKind,
};
use crate::graph::{
    cfg_block, cfg_edge_count, cfg_edge_kind, cfg_endpoints, cfg_node_count, cfg_out_edges,
    cfg_predecessors, has_edge, lemma_out_edges, lemma_reachable_target, out_edges, predecessors,
    ssa_add_edge, ssa_add_node, ssa_block, ssa_edges, ssa_graph, ssa_nodes, ssa_set_block, Edge,
};
use crate::isa::insn::{AluOp, Insn, JumpOp, MemSize, Operand, Reg, Width};
use crate::ssa::draft::{
    all_nones, inputs_of, lemma_belongs, lemma_body_ok_names, lemma_complete, lemma_grew_refl, lemma_grew_trans, lemma_mint,
    lemma_mint_grew, lemma_missing, lemma_names, lemma_note, lemma_operands, lemma_owns, lemma_total_update, nones, stale_inputs, total, uses_below,
    Draft, Stale,
};
use crate::ssa::flow::{lemma_unset_update, unset};
use crate::ssa::form::{
    bad_end, base, body_ok, entry_loop, entry_version, goes_to, may_head, no_versions, op_ok,
    operand_ok, preds, prelude, rendered, stands_for, starts, unknown_from, unknown_in, walk,
    written, Env, Form, Names,
};
use crate::ssa::opt::lefts_are_values;
use crate::ssa::placed::{
    lemma_linked_back, lemma_linked_near, lemma_may_merge, lemma_may_wait, lemma_near_home,
    lemma_near_set, lemma_routed_fill, lemma_routed_mint, lemma_routed_seal, lemma_routed_start,
    lemma_routed_visit, linked, near, routed,
};
use crate::ssa::proper::swaps_by_immediate;
use crate::ssa::render::{lemma_advance, lemma_bodied, lemma_body_push};
use crate::ssa::sound::{built_programs_are_scoped, built_programs_end_alike};
use crate::ssa::{
    ops_of, tiled, Op, Prog, SsaBlock, SsaError, SsaInsn, SsaOperand, SsaProgram, SsaValue, START_PRED,
};

verus! {

/// What is known of a draft beyond its lists.
struct Facts {
    regs: Seq<Seq<u8>>,
    owner: Seq<u8>,
    names: Names,
    env: Seq<Env>,
    flight: Set<(usize, usize)>,
    done: Seq<bool>,
}

/// Construction state.
struct Builder<'a> {
    insns: &'a [Insn],
    cfg: &'a Cfg,
    /// Current version by register and block.
    cur: Vec<Vec<Option<SsaValue>>>,
    /// Blocks whose predecessors are known to be final.
    sealed: Vec<bool>,
    /// Blocks whose body is complete.
    filled: Vec<bool>,
    /// Blocks that were visited.
    live: Vec<bool>,
    /// Entry versions and phis, by block.
    heads: Vec<Vec<SsaInsn>>,
    /// Rendered instructions, by block.
    bodies: Vec<Vec<SsaInsn>>,
    /// Position and register of waiting phis, by block.
    incomplete: Vec<Vec<(usize, u8)>>,
    /// Phi inputs that were read from blocks that were not filled.
    stale: Vec<Stale>,
    /// Block, part and position of the definition of each value.
    origins: Vec<(usize, bool, usize)>,
    /// Whether some edge leads back into the entry block.
    entry_loop: bool,
    /// Blocks whose version is being looked for.
    resolving: Vec<bool>,
    /// The block that is being sealed.
    sealing: Vec<bool>,
    facts: Ghost<Facts>,
}

/// The rows of a table.
spec fn rows<T>(table: Seq<Vec<T>>) -> Seq<Seq<T>> {
    table.map_values(|row: Vec<T>| row@)
}

/// The contents of instruction lists.
spec fn lists(table: Seq<Vec<SsaInsn>>) -> Seq<Seq<Op>> {
    table.map_values(|list: Vec<SsaInsn>| ops_of(list@))
}

/// Sets an entry of a table.
fn set_cell(table: &mut Vec<Vec<Option<SsaValue>>>, r: usize, b: usize, v: SsaValue)
    requires
        r < old(table)@.len(),
        b < old(table)@[r as int]@.len(),
    ensures
        rows(final(table)@) == rows(old(table)@).update(
            r as int,
            rows(old(table)@)[r as int].update(b as int, Some(v)),
        ),
{
    table[r][b] = Some(v);
    assert(rows(table@) =~= rows(old(table)@).update(
        r as int,
        rows(old(table)@)[r as int].update(b as int, Some(v)),
    ));
}

/// Appends an instruction to a list.
fn append(table: &mut Vec<Vec<SsaInsn>>, b: usize, insn: SsaInsn)
    requires
        b < old(table)@.len(),
    ensures
        lists(final(table)@) == lists(old(table)@).update(
            b as int,
            lists(old(table)@)[b as int].push(insn@),
        ),
        final(table)@.len() == old(table)@.len(),
{
    let ghost before = table@;
    table[b].push(insn);
    assert(ops_of(table@[b as int]@) =~= ops_of(before[b as int]@).push(insn@));
    assert(lists(table@) =~= lists(before).update(b as int, lists(before)[b as int].push(insn@)));
}

/// Replaces an instruction of a list.
fn replace(table: &mut Vec<Vec<SsaInsn>>, b: usize, pos: usize, insn: SsaInsn)
    requires
        b < old(table)@.len(),
        pos < old(table)@[b as int]@.len(),
    ensures
        lists(final(table)@) == lists(old(table)@).update(
            b as int,
            lists(old(table)@)[b as int].update(pos as int, insn@),
        ),
{
    let ghost before = table@;
    table[b][pos] = insn;
    assert(ops_of(table@[b as int]@) =~= ops_of(before[b as int]@).update(pos as int, insn@));
    assert(lists(table@) =~= lists(before).update(
        b as int,
        lists(before)[b as int].update(pos as int, insn@),
    ));
}

/// The entry version of a register.
fn entry_value(r: u8) -> (v: SsaValue)
    ensures
        v == entry_version(r),
{
    if r == 10 {
        SsaValue(1)
    } else if r == 1 {
        SsaValue(2)
    } else {
        SsaValue(0)
    }
}

impl<'a> Builder<'a> {
    /// The draft.
    spec fn draft(&self) -> Draft {
        Draft {
            insns: self.insns@,
            cur: rows(self.cur@),
            sealed: self.sealed@,
            filled: self.filled@,
            live: self.live@,
            form: Form {
                heads: lists(self.heads@),
                bodies: lists(self.bodies@),
                regs: self.facts@.regs,
                owner: self.facts@.owner,
                names: self.facts@.names,
            },
            env: self.facts@.env,
            incomplete: rows(self.incomplete@),
            stale: self.stale@,
            origins: self.origins@,
            flight: self.facts@.flight,
            done: self.facts@.done,
        }
    }

    /// What every step keeps.
    spec fn wf(&self) -> bool {
        &&& self.cfg.describes(self.insns@)
        &&& self.entry_loop == entry_loop(self.insns@)
        &&& self.draft().inv()
        &&& self.resolving@.len() == self.draft().n()
        &&& self.sealing@.len() == self.draft().n()
        &&& routed(
            self.draft().insns,
            self.cfg.order(),
            self.draft().form.regs,
            self.draft().live,
            self.draft().sealed,
            self.draft().filled,
        )
    }

    /// Whether no read is under way.
    spec fn idle(&self) -> bool {
        forall|x: int|
            #![trigger self.resolving@[x]]
            #![trigger self.sealing@[x]]
            0 <= x < self.draft().n() ==> !self.resolving@[x] && !self.sealing@[x]
    }

    /// Whether a block may have phis.
    spec fn takes_phis(&self, b: usize) -> bool {
        may_head(self.insns@, self.cfg.order(), b)
    }

    /// Whether a read has come to a block.
    spec fn near(&self, b: usize) -> bool {
        near(edges(self.insns@), self.resolving@, self.sealing@, self.live@, b)
    }

    /// Whether a read may go on to a block.
    spec fn linked(&self, b: usize) -> bool {
        linked(edges(self.insns@), self.resolving@, self.sealing@, self.live@, b)
    }

    /// What a read keeps.
    spec fn same_task(&self, other: &Self) -> bool {
        &&& self.insns == other.insns
        &&& self.cfg == other.cfg
        &&& self.resolving@ == other.resolving@
        &&& self.sealing@ == other.sealing@
        &&& self.entry_loop == other.entry_loop
    }

    /// Adds a phi for a register to a block.
    fn mint_phi(&mut self, b: usize, r: u8, now: bool) -> (res: (SsaValue, usize))
        requires
            old(self).wf(),
            b < old(self).draft().n(),
            r < 11,
            old(self).draft().cell(r, b) is None,
            old(self).takes_phis(b),
        ensures
            final(self).wf(),
            final(self).same_task(old(self)),
            final(self).draft() == old(self).draft().minted(b, r, now),
            res.0.0 == old(self).draft().next(),
            res.1 == old(self).draft().form.heads[b as int].len(),
    {
        let ghost d = self.draft();
        proof {
            lemma_missing(d, b, r);
            lemma_mint(d, b, r, now);
            assert(d.head_shape(b));
            assert(d.cur[r as int].len() == d.n());
        }
        let v = SsaValue(self.origins.len() as u32);
        let pos: usize = self.heads[b].len();
        let mut inputs: Vec<(usize, SsaValue)> = Vec::new();
        if b == 0 && self.entry_loop {
            inputs.push((START_PRED, entry_value(r)));
        }
        assert(inputs@ =~= starts(d.insns, b, r));
        set_cell(&mut self.cur, r as usize, b, v);
        append(&mut self.heads, b, SsaInsn::Phi { dst: v, inputs });
        self.origins.push((b, true, pos));
        if !now {
            let ghost before = self.incomplete@;
            self.incomplete[b].push((pos, r));
            assert(rows(self.incomplete@) =~= rows(before).update(
                b as int,
                rows(before)[b as int].push((pos, r)),
            ));
        }
        proof {
            let e = d.minted(b, r, now);
            self.facts@ = Facts {
                regs: e.form.regs,
                owner: e.form.owner,
                names: e.form.names,
                env: e.env,
                flight: e.flight,
                done: e.done,
            };
            assert(self.draft() =~= e);
            lemma_routed_mint(
                d.insns,
                self.cfg.order(),
                d.form.regs,
                d.live,
                d.sealed,
                d.filled,
                b,
                e.form.regs[b as int],
            );
            assert(e.form.regs =~= d.form.regs.update(b as int, e.form.regs[b as int]));
        }
        (v, pos)
    }

    /// Remembers a version of a register in a block.
    fn note(&mut self, b: usize, r: u8, v: SsaValue)
        requires
            old(self).wf(),
            b < old(self).draft().n(),
            r < 11,
            old(self).draft().env[b as int][r as int] is None,
            v.0 < old(self).draft().next(),
            old(self).draft().form.belongs(r, v),
            old(self).draft().backed(b, r, v),
        ensures
            final(self).wf(),
            final(self).same_task(old(self)),
            final(self).draft() == old(self).draft().noted(b, r, v),
            old(self).draft().grew(final(self).draft(), r, Set::empty()),
            final(self).draft().known(b, r, v),
    {
        let ghost d = self.draft();
        proof {
            lemma_note(d, b, r, v);
            assert(d.cur[r as int].len() == d.n());
        }
        set_cell(&mut self.cur, r as usize, b, v);
        proof {
            self.facts@ = Facts { names: d.noted(b, r, v).form.names, ..self.facts@ };
            assert(self.draft() =~= d.noted(b, r, v));
        }
    }
}

/// A block has at most two outgoing edges, so there are few predecessors.
pub proof fn lemma_few_edges(insns: Seq<Insn>, k: nat)
    ensures
        edges_of_first(insns, k).len() <= 2 * k,
    decreases k,
{
    if k > 0 {
        lemma_few_edges(insns, (k - 1) as nat);
    }
}

proof fn lemma_few_preds(list: Seq<Edge>, b: usize)
    ensures
        predecessors(list, b).len() <= list.len(),
    decreases list.len(),
{
    if list.len() > 0 {
        lemma_few_preds(list.drop_last(), b);
    }
}

proof fn lemma_grew_more(a: Draft, d: Draft, r: u8, x: (usize, usize))
    requires
        a.grew(d, r, Set::empty()),
    ensures
        a.grew(d, r, set![x]),
{
}

proof fn lemma_grew_new(a: Draft, d: Draft, r: u8, x: (usize, usize))
    requires
        a.grew(d, r, set![x]),
        x.1 >= a.form.heads[x.0 as int].len(),
    ensures
        a.grew(d, r, Set::empty()),
{
    let skip = set![x];
    assert forall|y: usize, pos: usize|
        #![trigger a.is_open(y, pos)]
        y < a.n() && pos < a.form.heads[y as int].len() && a.is_open(y, pos) implies d.is_open(y, pos)
        && d.form.heads[y as int][pos as int] == a.form.heads[y as int][pos as int] by {
        assert(!skip.contains((y, pos)));
    }
}

impl<'a> Builder<'a> {
    /// The current version of a register in a block.
    fn read(&mut self, b: usize, r: u8) -> (v: SsaValue)
        requires
            old(self).wf(),
            b < old(self).draft().n(),
            r < 11,
            old(self).linked(b),
        ensures
            final(self).wf(),
            final(self).same_task(old(self)),
            old(self).draft().grew(final(self).draft(), r, Set::empty()),
            final(self).draft().flight == old(self).draft().flight,
            final(self).draft().known(b, r, v),
            final(self).draft().form.belongs(r, v),
            final(self).draft().cell(r, b) is Some,
            v.0 < final(self).draft().next(),
        decreases
            nones(old(self).draft().cur[r as int], old(self).draft().n()),
            unset(old(self).resolving@, old(self).draft().n()),
            2nat,
    {
        let ghost d = self.draft();
        proof {
            assert(d.cell_ok(r, b));
            assert(d.cur[r as int].len() == d.n());
            lemma_grew_refl(d, r, Set::empty());
        }
        if let Some(v) = self.cur[r as usize][b] {
            return v;
        }
        self.read_recursive(b, r)
    }

    /// Looks for the version of a register in a block that has none yet.
    fn read_recursive(&mut self, b: usize, r: u8) -> (v: SsaValue)
        requires
            old(self).wf(),
            b < old(self).draft().n(),
            r < 11,
            old(self).draft().cell(r, b) is None,
            old(self).linked(b),
        ensures
            final(self).wf(),
            final(self).same_task(old(self)),
            old(self).draft().grew(final(self).draft(), r, Set::empty()),
            final(self).draft().flight == old(self).draft().flight,
            final(self).draft().known(b, r, v),
            final(self).draft().form.belongs(r, v),
            final(self).draft().cell(r, b) is Some,
            v.0 < final(self).draft().next(),
        decreases
            nones(old(self).draft().cur[r as int], old(self).draft().n()),
            unset(old(self).resolving@, old(self).draft().n()),
            1nat,
    {
        if self.resolving[b] {
            proof {
                lemma_linked_near(edges(self.insns@), self.resolving@, self.sealing@, self.live@, b);
            }
            return self.merge(b, r);
        }
        let ghost before = self.resolving@;
        proof {
            lemma_unset_update(before, self.draft().n(), b as int);
        }
        let ghost d = self.draft();
        proof {
            lemma_near_set(edges(self.insns@), self.resolving@, self.sealing@, self.live@, b);
        }
        self.resolving.set(b, true);
        assert(self.draft() == d);
        let v = self.resolve_uncached(b, r);
        let ghost e = self.draft();
        self.resolving.set(b, false);
        assert(self.draft() == e);
        assert(self.resolving@ =~= before);
        v
    }

    /// Adds a phi and reads its inputs at once.
    fn merge(&mut self, b: usize, r: u8) -> (v: SsaValue)
        requires
            old(self).wf(),
            b < old(self).draft().n(),
            r < 11,
            old(self).draft().cell(r, b) is None,
            old(self).near(b),
            old(self).takes_phis(b),
        ensures
            final(self).wf(),
            final(self).same_task(old(self)),
            old(self).draft().grew(final(self).draft(), r, Set::empty()),
            final(self).draft().flight == old(self).draft().flight,
            final(self).draft().known(b, r, v),
            final(self).draft().form.belongs(r, v),
            final(self).draft().cell(r, b) is Some,
            v.0 < final(self).draft().next(),
        decreases
            nones(old(self).draft().cur[r as int], old(self).draft().n()),
            0nat,
            0nat,
    {
        let ghost d = self.draft();
        proof {
            lemma_missing(d, b, r);
            lemma_mint(d, b, r, true);
            lemma_mint_grew(d, b, r, true);
        }
        let (v, pos) = self.mint_phi(b, r, true);
        let ghost e = self.draft();
        self.complete_phi(b, pos, r);
        proof {
            let x = (b, pos);
            let f = self.draft();
            lemma_grew_more(d, e, r, x);
            lemma_grew_trans(d, e, f, r, set![x]);
            lemma_grew_new(d, f, r, x);
            assert(e.cell(r, b) == Some(v));
            assert(e.cell_ok(r, b));
            lemma_belongs(e.form, f.form, r, v);
            assert(d.flight =~= e.flight.remove(x)) by {
                if d.flight.contains(x) {
                    assert(pos < d.form.heads[b as int].len());
                }
            }
        }
        v
    }

    /// Looks for the version of a register in a block.
    fn resolve_uncached(&mut self, b: usize, r: u8) -> (v: SsaValue)
        requires
            old(self).wf(),
            b < old(self).draft().n(),
            r < 11,
            old(self).draft().cell(r, b) is None,
            old(self).near(b),
        ensures
            final(self).wf(),
            final(self).same_task(old(self)),
            old(self).draft().grew(final(self).draft(), r, Set::empty()),
            final(self).draft().flight == old(self).draft().flight,
            final(self).draft().known(b, r, v),
            final(self).draft().form.belongs(r, v),
            final(self).draft().cell(r, b) is Some,
            v.0 < final(self).draft().next(),
        decreases
            nones(old(self).draft().cur[r as int], old(self).draft().n()),
            unset(old(self).resolving@, old(self).draft().n()),
            3nat,
    {
        let ghost d = self.draft();
        assert(d.cell_ok(r, b));
        if !self.sealed[b] {
            proof {
                lemma_missing(d, b, r);
                lemma_mint(d, b, r, false);
                lemma_mint_grew(d, b, r, false);
                reveal(near);
                lemma_may_wait(
                    d.insns,
                    self.cfg.order(),
                    d.form.regs,
                    d.live,
                    d.sealed,
                    d.filled,
                    b,
                );
            }
            let (v, _pos) = self.mint_phi(b, r, false);
            proof {
                let e = self.draft();
                assert(e.cell(r, b) == Some(v));
                assert(e.cell_ok(r, b));
            }
            return v;
        }
        let from = cfg_predecessors(&self.cfg.graph, b);
        assert(from@ == preds(d.insns, b));
        // Control enters the entry block from the program start too, so what
        // its only predecessor ends with does not stand for a register there.
        if from.len() == 1 && b != 0 {
            let p: usize = from[0];
            assert(p == preds(d.insns, b)[0] && p < d.n());
            proof {
                lemma_source(d.insns, b, 0);
            }
            if p == b {
                let v = entry_value(r);
                proof {
                    assert(preds(d.insns, b) =~= seq![b]);
                    assert(preds(d.insns, b).contains(b));
                    assert(d.sealed[b as int]);
                    assert(d.backed(b, r, v));
                }
                self.note(b, r, v);
                return v;
            }
            if self.filled[p] && !self.sealing[p] {
                proof {
                    lemma_linked_back(edges(d.insns), self.resolving@, self.sealing@, self.live@, p, b);
                }
                let v = self.read(p, r);
                let ghost e = self.draft();
                assert(e.backed(b, r, v));
                self.note(b, r, v);
                proof {
                    lemma_grew_trans(d, e, self.draft(), r, Set::empty());
                }
                return v;
            }
            proof {
                if d.filled[p as int] {
                    lemma_near_home(edges(d.insns), self.resolving@, self.sealing@, self.live@, p, b);
                } else {
                    lemma_may_merge(
                        d.insns,
                        self.cfg.order(),
                        d.form.regs,
                        d.live,
                        d.sealed,
                        d.filled,
                        b,
                    );
                }
            }
        }
        self.merge(b, r)
    }

    /// Reads the inputs of a phi.
    fn complete_phi(&mut self, b: usize, pos: usize, r: u8)
        requires
            old(self).wf(),
            old(self).draft().phi_at(b, pos, r),
            r < 11,
            old(self).draft().flight.contains((b, pos)),
            old(self).near(b),
        ensures
            final(self).wf(),
            final(self).same_task(old(self)),
            old(self).draft().grew(final(self).draft(), r, set![(b, pos)]),
            final(self).draft().flight == old(self).draft().flight.remove((b, pos)),
        decreases
            nones(old(self).draft().cur[r as int], old(self).draft().n()),
            unset(old(self).resolving@, old(self).draft().n()),
            3nat,
    {
        let ghost d = self.draft();
        let ghost x = (b, pos);
        let from = cfg_predecessors(&self.cfg.graph, b);
        let mut operands: Vec<SsaValue> = Vec::new();
        let mut j: usize = 0;
        proof {
            lemma_grew_refl(d, r, Set::empty());
        }
        while j < from.len()
            invariant
                self.wf(),
                self.same_task(old(self)),
                d == old(self).draft(),
                d.shape(),
                d.grew(self.draft(), r, Set::empty()),
                self.draft().flight == d.flight,
                d.phi_at(b, pos, r),
                r < 11,
                d.flight.contains((b, pos)),
                from@ == preds(d.insns, b),
                j <= from@.len(),
                operands@.len() == j,
                self.draft().operands_ok(b, r, operands@),
                self.near(b),
                d.insns == self.insns@,
            decreases from@.len() - j,
        {
            let ghost before = self.draft();
            assert(preds(d.insns, b)[j as int] < d.n());
            proof {
                lemma_source(d.insns, b, j as int);
                lemma_linked_back(
                    edges(d.insns),
                    self.resolving@,
                    self.sealing@,
                    self.live@,
                    preds(d.insns, b)[j as int],
                    b,
                );
            }
            let v = self.read(from[j], r);
            proof {
                lemma_grew_trans(d, before, self.draft(), r, Set::empty());
                lemma_operands(before, self.draft(), b, r, operands@, Set::empty());
            }
            let ghost some = operands@;
            operands.push(v);
            proof {
                let e = self.draft();
                assert forall|i: int| 0 <= i < operands@.len() implies {
                    let p = preds(e.insns, b)[i];
                    &&& (#[trigger] operands@[i]).0 < e.next()
                    &&& e.form.belongs(r, operands@[i])
                    &&& e.known(p, r, operands@[i])
                    &&& e.cell(r, p) is Some
                } by {
                    if i < some.len() {
                        assert(operands@[i] == some[i]);
                    }
                }
            }
            j = j + 1;
        }
        let ghost e = self.draft();
        proof {
            lemma_few_edges(d.insns, leaders(d.insns).len());
            lemma_few_preds(edges(d.insns), b);
            assert(d.form.regs[b as int].is_prefix_of(e.form.regs[b as int]));
            let (p, q) = (d.form.regs[b as int], e.form.regs[b as int]);
            assert(q.take(p.len() as int)[pos - base(b)] == q[pos - base(b)]);
            assert(e.phi_at(b, pos, r));
            assert(e.head_shape(b));
            assert(e.phi_ok(b, pos - base(b)));
            lemma_complete(e, b, pos, r, operands@);
            assert(operands@.len() == preds(d.insns, b).len());
        }
        self.fill_phi(b, pos, r, &from, &operands);
        proof {
            lemma_grew_more(d, e, r, x);
            lemma_grew_trans(d, e, self.draft(), r, set![x]);
        }
    }

    /// Writes the inputs of a phi, and notes those to read again.
    fn fill_phi(&mut self, b: usize, pos: usize, r: u8, from: &Vec<usize>, operands: &Vec<SsaValue>)
        requires
            old(self).wf(),
            old(self).draft().phi_at(b, pos, r),
            old(self).draft().form.heads[b as int][pos as int] is Phi,
            from@ == preds(old(self).draft().insns, b),
            operands@.len() == from@.len(),
            from@.len() < usize::MAX,
            old(self).draft().completed(b, pos, r, operands@).inv(),
        ensures
            final(self).wf(),
            final(self).same_task(old(self)),
            final(self).draft() == old(self).draft().completed(b, pos, r, operands@),
    {
        let ghost d = self.draft();
        let mut inputs: Vec<(usize, SsaValue)> = Vec::new();
        if b == 0 && self.entry_loop {
            inputs.push((START_PRED, entry_value(r)));
        }
        assert(inputs@ =~= starts(d.insns, b, r));
        assert(stale_inputs(d.insns, d.filled, b, pos, r, 0) =~= Seq::empty());
        assert(d.stale + Seq::<Stale>::empty() =~= d.stale);
        let mut j: usize = 0;
        while j < from.len()
            invariant
                self.same_task(old(self)),
                d == old(self).draft(),
                self.draft() == (Draft { stale: self.stale@, ..d }),
                d.shape(),
                b < d.n(),
                from@ == preds(d.insns, b),
                operands@.len() == from@.len(),
                from@.len() < usize::MAX,
                j <= from@.len(),
                inputs@ == starts(d.insns, b, r) + Seq::new(
                    j as nat,
                    |i: int| (preds(d.insns, b)[i], operands@[i]),
                ),
                self.stale@ == d.stale + stale_inputs(d.insns, d.filled, b, pos, r, j as nat),
            decreases from@.len() - j,
        {
            let p: usize = from[j];
            assert(p == preds(d.insns, b)[j as int] && p < d.n());
            inputs.push((p, operands[j]));
            assert(inputs@ =~= starts(d.insns, b, r) + Seq::new(
                (j + 1) as nat,
                |i: int| (preds(d.insns, b)[i], operands@[i]),
            ));
            let ghost some = self.stale@;
            if !self.filled[p] {
                self.stale.push((b, pos, inputs.len() - 1, p, r));
            }
            assert(self.stale@ =~= d.stale + stale_inputs(
                d.insns,
                d.filled,
                b,
                pos,
                r,
                (j + 1) as nat,
            ));
            j = j + 1;
        }
        assert(d.form.heads[b as int] == ops_of(self.heads@[b as int]@));
        let dst = match self.heads[b][pos].def_dst() {
            Some(dst) => dst,
            None => SsaValue(0),
        };
        assert(inputs@ =~= inputs_of(d.insns, b, r, operands@));
        replace(&mut self.heads, b, pos, SsaInsn::Phi { dst, inputs });
        proof {
            let e = d.completed(b, pos, r, operands@);
            self.facts@ = Facts { flight: e.flight, ..self.facts@ };
            assert(self.draft() =~= e);
        }
    }
}

/// What reads keep.
spec fn kept(d: Draft, e: Draft) -> bool {
    &&& e.insns == d.insns
    &&& e.sealed == d.sealed
    &&& e.filled == d.filled
    &&& e.live == d.live
    &&& e.form.bodies == d.form.bodies
    &&& e.env == d.env
    &&& e.done == d.done
    &&& e.flight == d.flight
    &&& d.form.names.subset_of(e.form.names)
    &&& d.form.owner.is_prefix_of(e.form.owner)
    &&& d.next() <= e.next()
    &&& forall|x: usize|
        x < d.n() && #[trigger] d.sealed[x as int] ==> e.incomplete[x as int]
            == d.incomplete[x as int]
}

proof fn lemma_kept(d: Draft, e: Draft, r: u8)
    requires
        d.shape(),
        d.grew(e, r, Set::empty()),
        e.flight == d.flight,
    ensures
        kept(d, e),
{
    assert forall|x: usize| x < d.n() && #[trigger] d.sealed[x as int] implies e.incomplete[x as int]
        == d.incomplete[x as int] by {
        assert(d.incomplete[x as int] == d.incomplete[x as int]);
    }
}

proof fn lemma_kept_trans(a: Draft, b: Draft, c: Draft)
    requires
        kept(a, b),
        kept(b, c),
    ensures
        kept(a, c),
{
    assert(a.form.owner =~= c.form.owner.take(a.form.owner.len() as int)) by {
        let (p, q, s) = (a.form.owner, b.form.owner, c.form.owner);
        assert(p =~= q.take(p.len() as int));
        assert(q =~= s.take(q.len() as int));
    }
    assert forall|x: usize| x < a.n() && #[trigger] a.sealed[x as int] implies c.incomplete[x as int]
        == a.incomplete[x as int] by {
        assert(b.sealed[x as int]);
    }
}

proof fn lemma_partly_kept(d: Draft, e: Draft, b: usize, pc: int)
    requires
        kept(d, e),
        d.partly(b, pc),
    ensures
        e.partly(b, pc),
{
    lemma_body_ok_names(
        d.insns,
        d.form.names,
        e.form.names,
        b,
        d.form.bodies[b as int],
        d.start(b),
        pc,
    );
    assert forall|q: int| e.start(b) <= q < pc implies #[trigger] e.form.owns(e.insns, b, q) by {
        assert(d.form.owns(d.insns, b, q));
        lemma_owns(d.form, e.form, d.insns, b, q);
    }
}

/// What rendering a block keeps.
spec fn worked(d: Draft, e: Draft, b: usize) -> bool {
    &&& e.insns == d.insns
    &&& e.sealed == d.sealed
    &&& e.filled == d.filled
    &&& e.live == d.live
    &&& e.flight == d.flight
    &&& forall|x: usize|
        x < d.n() && #[trigger] d.sealed[x as int] ==> e.incomplete[x as int]
            == d.incomplete[x as int]
    &&& forall|q: int|
        0 <= q < d.insns.len() && !(d.start(b) <= q < d.end(b)) ==> #[trigger] e.done[q] == d.done[q]
}

proof fn lemma_worked_trans(a: Draft, c: Draft, d: Draft, b: usize)
    requires
        worked(a, c, b),
        worked(c, d, b),
    ensures
        worked(a, d, b),
{
    assert forall|x: usize| x < a.n() && #[trigger] a.sealed[x as int] implies d.incomplete[x as int]
        == a.incomplete[x as int] by {
        assert(c.sealed[x as int]);
    }
    assert forall|q: int| 0 <= q < a.insns.len() && !(a.start(b) <= q < a.end(b)) implies #[trigger] d.done[q]
        == a.done[q] by {
        assert(c.done[q] == a.done[q]);
    }
}

/// Every outgoing edge of a node is listed.
pub proof fn lemma_out_edges_all(list: Seq<Edge>, b: usize, t: usize, kind: EdgeKind)
    requires
        list.contains((b, t, kind)),
    ensures
        out_edges(list, b).contains((t, kind)),
    decreases list.len(),
{
    let e = (b, t, kind);
    let k = list.index_of(e);
    let rest = out_edges(list.drop_last(), b);
    let all = out_edges(list, b);
    if k == list.len() - 1 {
        assert(all[0] == (t, kind));
    } else {
        assert(list.drop_last()[k] == e);
        lemma_out_edges_all(list.drop_last(), b, t, kind);
        let m = rest.index_of((t, kind));
        if list.last().0 == b {
            assert(all[m + 1] == (t, kind));
        } else {
            assert(all[m] == (t, kind));
        }
    }
}

/// An unconditional jump ends its block, and the block has its edge.
proof fn lemma_jump_edge(insns: Seq<Insn>, b: usize, pc: int)
    requires
        cfg_error(insns) is None,
        0 < insns.len() <= usize::MAX,
        b < blocks(insns).len(),
        blocks(insns)[b as int].start.0 <= pc < blocks(insns)[b as int].end.0,
        insns[pc] matches Insn::Jump { op, .. } && op == JumpOp::Always,
    ensures
        exists|t: usize| #[trigger] edges(insns).contains((b, t, EdgeKind::Unconditional)),
{
    blocks_partition_program(insns);
    let end = blocks(insns)[b as int].end.0;
    assert(pc + 1 == end) by {
        if pc + 1 < end {
            assert(leads(insns, pc, pc + 1));
            lemma_leader_block(insns, pc + 1);
            assert(block_index(insns, pc + 1) == b);
        }
    }
    lemma_target_exists(insns, pc);
    let to = jump_target(insns, pc)->0;
    lemma_leader_block(insns, to);
    let t = block_index(insns, to);
    edges_mirror_control(insns, b, t, EdgeKind::Unconditional);
    assert(edges(insns).contains((b, t, EdgeKind::Unconditional)));
}

/// Whether an operation is a byte swap without a valid immediate width.
fn is_bad_end(op: AluOp, src: Operand) -> (r: bool)
    ensures
        r == bad_end(op, src),
{
    match op {
        AluOp::End(_) => match src {
            Operand::Imm(w) => !(w == 16 || w == 32 || w == 64),
            Operand::Reg(_) => true,
        },
        _ => false,
    }
}

impl<'a> Builder<'a> {
    /// Whether index `pc` of a block is to be rendered next.
    spec fn ready(&self, b: usize, pc: int) -> bool {
        &&& self.wf()
        &&& self.idle()
        &&& b < self.draft().n()
        &&& self.draft().partly(b, pc)
        &&& pc < self.draft().end(b)
        &&& 0 <= pc < self.insns@.len()
        &&& self.insns@[pc].valid()
    }

    /// Reads a register in the block that is being rendered.
    fn read_at(&mut self, b: usize, r: Reg, pc: usize) -> (v: SsaValue)
        requires
            old(self).ready(b, pc as int),
            r.valid(),
        ensures
            final(self).ready(b, pc as int),
            final(self).same_task(old(self)),
            kept(old(self).draft(), final(self).draft()),
            final(self).draft().known(b, r.0, v),
            v.0 < final(self).draft().next(),
    {
        let ghost d = self.draft();
        proof {
            reveal(linked);
        }
        let v = self.read(b, r.0);
        proof {
            lemma_kept(d, self.draft(), r.0);
            lemma_partly_kept(d, self.draft(), b, pc as int);
        }
        v
    }

    /// Reads an operand.
    fn operand(&mut self, b: usize, src: Operand, pc: usize) -> (to: SsaOperand)
        requires
            old(self).ready(b, pc as int),
            src.valid(),
        ensures
            final(self).ready(b, pc as int),
            final(self).same_task(old(self)),
            kept(old(self).draft(), final(self).draft()),
            operand_ok(
                final(self).draft().form.names,
                b,
                final(self).draft().env[b as int],
                src,
                to,
            ),
            to matches SsaOperand::Value(v) ==> v.0 < final(self).draft().next(),
    {
        match src {
            Operand::Reg(r) => SsaOperand::Value(self.read_at(b, r, pc)),
            Operand::Imm(k) => {
                let ghost d = self.draft();
                proof {
                    assert(d.form.owner =~= d.form.owner.take(d.form.owner.len() as int));
                    assert(kept(d, d));
                }
                SsaOperand::Imm(k)
            },
        }
    }

    /// Adds an instruction for index `pc`.
    fn emit(&mut self, b: usize, insn: SsaInsn, target: Option<u8>, pc: usize)
        requires
            old(self).ready(b, pc as int),
            rendered(old(self).insns@[pc as int]),
            written(old(self).insns@[pc as int]) == target,
            op_ok(
                edges(old(self).insns@),
                old(self).draft().form.names,
                b,
                old(self).draft().env[b as int],
                old(self).insns@[pc as int],
                insn@,
            ),
            insn@.def() matches Some(v) ==> v.0 == old(self).draft().next(),
            target is Some ==> insn@.def() is Some,
            uses_below(insn@, old(self).draft().next()),
            insn@.blocks_below(old(self).draft().n()),
        ensures
            final(self).wf(),
            final(self).same_task(old(self)),
            final(self).draft().partly(b, pc + 1),
            worked(old(self).draft(), final(self).draft(), b),
    {
        let ghost d = self.draft();
        let ghost op = insn@;
        let ghost e = d.bodied(b, op, target, pc as int);
        proof {
            blocks_partition_program(d.insns);
            assert(!d.done[pc as int]);
            lemma_bodied(d, b, op, target, pc as int);
            assert(d.form.owner =~= e.form.owner.take(d.form.owner.len() as int));
            if let Some(r) = target {
                assert(e.form.owner[d.form.owner.len() as int] == r);
            }
            lemma_body_push(d, e, b, op, pc as int);
            assert(d.cur.len() == 11);
            lemma_few_ops(d, b);
        }
        let at: usize = self.bodies[b].len();
        let def = insn.def_dst();
        append(&mut self.bodies, b, insn);
        if def.is_some() {
            self.origins.push((b, false, at));
        }
        if let (Some(r), Some(v)) = (target, def) {
            assert(d.cur[r as int].len() == d.n());
            set_cell(&mut self.cur, r as usize, b, v);
        }
        proof {
            self.facts@ = Facts {
                regs: e.form.regs,
                owner: e.form.owner,
                names: e.form.names,
                env: e.env,
                flight: e.flight,
                done: e.done,
            };
            assert(self.draft() =~= e);
            assert(e.env[b as int] =~= (match target {
                Some(r) => d.env[b as int].update(r as int, op.def()),
                None => d.env[b as int],
            }));
        }
    }

    /// Passes over an instruction that has no effect: it counts as done, and
    /// nothing else changes.
    fn pass(&mut self, b: usize, pc: usize)
        requires
            old(self).ready(b, pc as int),
            !rendered(old(self).insns@[pc as int]),
        ensures
            final(self).wf(),
            final(self).same_task(old(self)),
            final(self).draft() == old(self).draft().passed(pc as int),
            final(self).draft().partly(b, pc + 1),
            worked(old(self).draft(), final(self).draft(), b),
    {
        let ghost d = self.draft();
        let ghost e = d.passed(pc as int);
        proof {
            blocks_partition_program(d.insns);
            lemma_unset_update(d.done, d.insns.len(), pc as int);
            assert(!d.done[pc as int]);
            assert forall|x: usize|
                x < d.n() && #[trigger] e.sealed[x as int] && preds(d.insns, x).contains(x) implies e.filled[x as int] by {
                assert(d.sealed[x as int]);
            }
            lemma_advance(d, e);
            self.facts@ = Facts { done: e.done, ..self.facts@ };
            assert(self.draft() =~= e);
            assert forall|q: int| d.start(b) <= q < pc + 1 implies #[trigger] e.form.owns(d.insns, b, q) by {
                if q < pc {
                    assert(d.form.owns(d.insns, b, q));
                }
            }
            assert forall|q: int| pc + 1 <= q < e.end(b) implies !#[trigger] e.done[q] by {
                assert(!d.done[q]);
            }
        }
    }
}

/// A body is short.
proof fn lemma_few_ops(d: Draft, b: usize)
    requires
        d.inv(),
        b < d.n(),
    ensures
        d.form.bodies[b as int].len() < u32::MAX,
        d.next() < u32::MAX,
{
    lemma_total_update(d.form.bodies, d.n(), b as int, Seq::empty());
}

impl<'a> Builder<'a> {
    /// The next value.
    fn fresh(&self) -> (v: SsaValue)
        requires
            self.wf(),
        ensures
            v.0 == self.draft().next(),
    {
        proof {
            assert(0 < self.draft().n());
            lemma_few_ops(self.draft(), 0);
        }
        SsaValue(self.origins.len() as u32)
    }

    /// Renders an operation.
    fn fill_alu(&mut self, b: usize, pc: usize, width: Width, op: AluOp, dst: Reg, src: Operand)
        requires
            old(self).ready(b, pc as int),
            old(self).insns@[pc as int] == (Insn::Alu { width, op, dst, src }),
        ensures
            final(self).wf(),
            final(self).same_task(old(self)),
            final(self).draft().partly(b, pc + 1),
            worked(old(self).draft(), final(self).draft(), b),
    {
        let ghost d = self.draft();
        if dst.is_frame_ptr() && !is_bad_end(op, src) {
            self.pass(b, pc);
            return;
        }
        match (op, width, src) {
            (AluOp::Mov, Width::B64, Operand::Reg(from)) => {
                let v = self.read_at(b, from, pc);
                let to = self.fresh();
                let insn = SsaInsn::Copy { dst: to, src: v };
                self.emit(b, insn, Some(dst.0), pc);
            },
            _ => {
                let lhs = self.read_at(b, dst, pc);
                let ghost e = self.draft();
                let rhs = self.operand(b, src, pc);
                proof {
                    lemma_kept_trans(d, e, self.draft());
                }
                let to = self.fresh();
                let insn = SsaInsn::BinOp { dst: to, width, op, lhs: SsaOperand::Value(lhs), rhs };
                let target = if dst.is_frame_ptr() {
                    None
                } else {
                    Some(dst.0)
                };
                self.emit(b, insn, target, pc);
            },
        }
    }

    /// Renders a load.
    fn fill_load(&mut self, b: usize, pc: usize, size: MemSize, dst: Reg, from: Reg, offset: i16)
        requires
            old(self).ready(b, pc as int),
            old(self).insns@[pc as int] == (Insn::Load { size, dst, base: from, offset }),
        ensures
            final(self).wf(),
            final(self).same_task(old(self)),
            final(self).draft().partly(b, pc + 1),
            worked(old(self).draft(), final(self).draft(), b),
    {
        let v = self.read_at(b, from, pc);
        if dst.is_frame_ptr() {
            self.emit(b, SsaInsn::Load { dst: None, size, base: v, offset }, None, pc);
        } else {
            let to = self.fresh();
            self.emit(b, SsaInsn::Load { dst: Some(to), size, base: v, offset }, Some(dst.0), pc);
        }
    }

    /// Renders a store.
    fn fill_store(&mut self, b: usize, pc: usize, size: MemSize, to: Reg, offset: i16, src: Operand)
        requires
            old(self).ready(b, pc as int),
            old(self).insns@[pc as int] == (Insn::Store { size, base: to, offset, src }),
        ensures
            final(self).wf(),
            final(self).same_task(old(self)),
            final(self).draft().partly(b, pc + 1),
            worked(old(self).draft(), final(self).draft(), b),
    {
        let ghost d = self.draft();
        let v = self.read_at(b, to, pc);
        let ghost e = self.draft();
        let from = self.operand(b, src, pc);
        proof {
            lemma_kept_trans(d, e, self.draft());
        }
        self.emit(b, SsaInsn::Store { size, base: v, offset, src: from }, None, pc);
    }

    /// The targets of a branch, from the edges of its block.
    fn branch_targets(&self, b: usize) -> (r: (Option<usize>, Option<usize>))
        requires
            self.wf(),
            b < self.draft().n(),
        ensures
            goes_to(edges(self.insns@), b, EdgeKind::BranchTrue, r.0),
            goes_to(edges(self.insns@), b, EdgeKind::BranchFalse, r.1),
            r.0 matches Some(t) ==> t < self.draft().n(),
            r.1 matches Some(t) ==> t < self.draft().n(),
    {
        let ghost list = edges(self.insns@);
        let out = cfg_out_edges(&self.cfg.graph, b);
        let mut yes: Option<usize> = None;
        let mut no: Option<usize> = None;
        let mut i: usize = 0;
        while i < out.len()
            invariant
                i <= out@.len(),
                out@ == out_edges(list, b),
                self.wf(),
                list == edges(self.insns@),
                yes matches Some(t) ==> list.contains((b, t, EdgeKind::BranchTrue)) && t
                    < self.draft().n(),
                no matches Some(t) ==> list.contains((b, t, EdgeKind::BranchFalse)) && t
                    < self.draft().n(),
                yes is None ==> forall|k: int| 0 <= k < i ==> (#[trigger] out@[k]).1 != EdgeKind::BranchTrue,
                no is None ==> forall|k: int| 0 <= k < i ==> (#[trigger] out@[k]).1 != EdgeKind::BranchFalse,
            decreases out@.len() - i,
        {
            let (t, kind) = out[i];
            proof {
                lemma_out_edges(list, b, i as int);
                edges_mirror_control(self.insns@, b, t, kind);
            }
            match kind {
                EdgeKind::BranchTrue => {
                    yes = Some(t);
                },
                EdgeKind::BranchFalse => {
                    no = Some(t);
                },
                EdgeKind::Fallthrough | EdgeKind::Unconditional => {},
            }
            i = i + 1;
        }
        proof {
            assert forall|t: usize| yes is None implies !#[trigger] list.contains((b, t, EdgeKind::BranchTrue)) by {
                if list.contains((b, t, EdgeKind::BranchTrue)) {
                    lemma_out_edges_all(list, b, t, EdgeKind::BranchTrue);
                    let k = out@.index_of((t, EdgeKind::BranchTrue));
                    assert(out@[k].1 == EdgeKind::BranchTrue);
                }
            }
            assert forall|t: usize| no is None implies !#[trigger] list.contains((b, t, EdgeKind::BranchFalse)) by {
                if list.contains((b, t, EdgeKind::BranchFalse)) {
                    lemma_out_edges_all(list, b, t, EdgeKind::BranchFalse);
                    let k = out@.index_of((t, EdgeKind::BranchFalse));
                    assert(out@[k].1 == EdgeKind::BranchFalse);
                }
            }
        }
        (yes, no)
    }

    /// The target of an unconditional jump, from the edges of its block.
    fn jump_target_of(&self, b: usize) -> (r: usize)
        requires
            self.wf(),
            b < self.draft().n(),
            exists|t: usize| #[trigger] edges(self.insns@).contains((b, t, EdgeKind::Unconditional)),
        ensures
            goes_to(edges(self.insns@), b, EdgeKind::Unconditional, Some(r)),
            r < self.draft().n(),
    {
        let ghost list = edges(self.insns@);
        let out = cfg_out_edges(&self.cfg.graph, b);
        let mut i: usize = 0;
        while i < out.len()
            invariant
                i <= out@.len(),
                self.wf(),
                list == edges(self.insns@),
                out@ == out_edges(list, b),
                forall|k: int| 0 <= k < i ==> (#[trigger] out@[k]).1 != EdgeKind::Unconditional,
            decreases out@.len() - i,
        {
            let (t, kind) = out[i];
            proof {
                lemma_out_edges(list, b, i as int);
                edges_mirror_control(self.insns@, b, t, kind);
            }
            if kind == EdgeKind::Unconditional {
                return t;
            }
            i = i + 1;
        }
        proof {
            let t = choose|t: usize| #[trigger] list.contains((b, t, EdgeKind::Unconditional));
            lemma_out_edges_all(list, b, t, EdgeKind::Unconditional);
            let k = out@.index_of((t, EdgeKind::Unconditional));
            assert(out@[k].1 == EdgeKind::Unconditional);
        }
        0
    }

    /// Renders a jump.
    fn fill_jump(&mut self, b: usize, pc: usize, width: Width, op: JumpOp, dst: Reg, src: Operand)
        requires
            old(self).ready(b, pc as int),
            old(self).insns@[pc as int] matches Insn::Jump { width: w, op: o, dst: t, src: s, .. } && w
                == width && o == op && t == dst && s == src,
        ensures
            final(self).wf(),
            final(self).same_task(old(self)),
            final(self).draft().partly(b, pc + 1),
            worked(old(self).draft(), final(self).draft(), b),
    {
        let ghost d = self.draft();
        if op == JumpOp::Always {
            proof {
                lemma_jump_edge(d.insns, b, pc as int);
            }
            let target = self.jump_target_of(b);
            self.emit(b, SsaInsn::Ja { target }, None, pc);
            return;
        }
        let lhs = self.read_at(b, dst, pc);
        let ghost e = self.draft();
        let rhs = self.operand(b, src, pc);
        proof {
            lemma_kept_trans(d, e, self.draft());
        }
        let (true_target, false_target) = self.branch_targets(b);
        let insn = SsaInsn::Br { width, op, lhs: SsaOperand::Value(lhs), rhs, true_target, false_target };
        self.emit(b, insn, None, pc);
    }

    /// Reads the argument registers.
    fn read_args(&mut self, b: usize, pc: usize) -> (args: [SsaValue; 5])
        requires
            old(self).ready(b, pc as int),
        ensures
            final(self).ready(b, pc as int),
            final(self).same_task(old(self)),
            kept(old(self).draft(), final(self).draft()),
            forall|i: int| #![trigger args@[i]]
                0 <= i < 5 ==> final(self).draft().known(b, (i + 1) as u8, args@[i]) && args@[i].0
                    < final(self).draft().next(),
    {
        let ghost d = self.draft();
        proof {
            assert(d.form.owner =~= d.form.owner.take(d.form.owner.len() as int));
            assert(kept(d, d));
        }
        let mut args = [SsaValue(0);5];
        let mut r: u8 = 1;
        while r < 6
            invariant
                1 <= r <= 6,
                self.ready(b, pc as int),
                self.same_task(old(self)),
                d == old(self).draft(),
                kept(d, self.draft()),
                forall|i: int| #![trigger args@[i]]
                    0 <= i < r - 1 ==> self.draft().known(b, (i + 1) as u8, args@[i]) && args@[i].0
                        < self.draft().next(),
            decreases 6 - r,
        {
            let ghost e = self.draft();
            let ghost before = args@;
            let v = self.read_at(b, Reg(r), pc);
            args[(r - 1) as usize] = v;
            proof {
                let f = self.draft();
                lemma_kept_trans(d, e, f);
                assert forall|i: int| #![trigger args@[i]] 0 <= i < r implies f.known(
                    b,
                    (i + 1) as u8,
                    args@[i],
                ) && args@[i].0 < f.next() by {
                    if i < r - 1 {
                        assert(args@[i] == before[i]);
                        assert(e.known(b, (i + 1) as u8, before[i]));
                    }
                }
            }
            r = r + 1;
        }
        args
    }

    /// Renders a call.
    fn fill_call(&mut self, b: usize, pc: usize, func: u32)
        requires
            old(self).ready(b, pc as int),
            old(self).insns@[pc as int] == (Insn::Call { func }),
        ensures
            final(self).wf(),
            final(self).same_task(old(self)),
            final(self).draft().partly(b, pc + 1),
            worked(old(self).draft(), final(self).draft(), b),
    {
        let args = self.read_args(b, pc);
        let to = self.fresh();
        proof {
            let e = self.draft();
            assert forall|i: int| #![trigger args@[i]] 0 <= i < 5 implies stands_for(
                e.form.names,
                b,
                e.env[b as int],
                (i + 1) as u8,
                args@[i],
            ) by {
                assert(e.known(b, (i + 1) as u8, args@[i]));
            }
        }
        self.emit(b, SsaInsn::Call { dst: to, func, args }, Some(0), pc);
    }

    /// Renders the instruction at index `pc`.
    fn fill_one(&mut self, b: usize, pc: usize)
        requires
            old(self).ready(b, pc as int),
            !(old(self).insns@[pc as int] is Unknown),
        ensures
            final(self).wf(),
            final(self).same_task(old(self)),
            final(self).draft().partly(b, pc + 1),
            worked(old(self).draft(), final(self).draft(), b),
    {
        match self.insns[pc] {
            Insn::Alu { width, op, dst, src } => self.fill_alu(b, pc, width, op, dst, src),
            Insn::LoadImm64 { dst, imm } => {
                if dst.is_frame_ptr() {
                    self.pass(b, pc);
                } else {
                    let to = self.fresh();
                    self.emit(b, SsaInsn::LoadImm64 { dst: to, imm }, Some(dst.0), pc);
                }
            },
            Insn::Load { size, dst, base: from, offset } => self.fill_load(b, pc, size, dst, from, offset),
            Insn::Store { size, base: to, offset, src } => self.fill_store(b, pc, size, to, offset, src),
            Insn::Jump { width, op, dst, src, .. } => self.fill_jump(b, pc, width, op, dst, src),
            Insn::Call { func } => self.fill_call(b, pc, func),
            Insn::Exit => {
                let r0 = self.read_at(b, Reg(0), pc);
                self.emit(b, SsaInsn::Exit { r0 }, None, pc);
            },
            Insn::Unknown { .. } => {},
        }
    }

    /// Renders the instructions of a block, up to the first unknown one.
    fn fill(&mut self, b: usize) -> (res: Result<(), SsaError>)
        requires
            old(self).wf(),
            b < old(self).draft().n(),
            old(self).idle(),
            old(self).draft().partly(b, old(self).draft().start(b)),
            forall|i: int| 0 <= i < old(self).insns@.len() ==> (#[trigger] old(self).insns@[i]).valid(),
        ensures
            final(self).wf(),
            final(self).same_task(old(self)),
            worked(old(self).draft(), final(self).draft(), b),
            match unknown_in(
                old(self).insns@,
                old(self).draft().start(b),
                old(self).draft().end(b),
            ) {
                None => res is Ok && final(self).draft().partly(b, final(self).draft().end(b)),
                Some(pc) => res == Err::<(), SsaError>(
                    SsaError::IllegalInstruction { pc: pc as usize },
                ) && 0 <= pc < old(self).insns@.len(),
            },
    {
        let ghost d = self.draft();
        proof {
            blocks_partition_program(d.insns);
        }
        let block = cfg_block(&self.cfg.graph, b);
        let end: usize = block.end.0;
        let mut pc: usize = block.start.0;
        while pc < end
            invariant
                self.wf(),
                self.same_task(old(self)),
                d == old(self).draft(),
                d.insns == old(self).insns@,
                b < d.n(),
                end == d.end(b),
                end <= d.insns.len(),
                pc <= end,
                forall|i: int| 0 <= i < d.insns.len() ==> (#[trigger] d.insns[i]).valid(),
                self.idle(),
                self.draft().partly(b, pc as int),
                worked(d, self.draft(), b),
                unknown_in(d.insns, d.start(b), d.end(b)) == unknown_in(d.insns, pc as int, d.end(b)),
            decreases end - pc,
        {
            if let Insn::Unknown { .. } = self.insns[pc] {
                return Err(SsaError::IllegalInstruction { pc });
            }
            let ghost e = self.draft();
            self.fill_one(b, pc);
            proof {
                lemma_worked_trans(d, e, self.draft(), b);
            }
            pc = pc + 1;
        }
        Ok(())
    }
}

/// The phis of a list from `j` on.
spec fn pending(b: usize, list: Seq<(usize, u8)>, j: int) -> Set<(usize, usize)> {
    Set::new(|t: (usize, usize)| exists|k: int| j <= k < list.len() && t == (b, (#[trigger] list[k]).0))
}

/// The draft whose waiting phis of a block are being completed.
spec fn taken(d: Draft, b: usize) -> Draft {
    Draft {
        incomplete: d.incomplete.update(b as int, Seq::empty()),
        flight: pending(b, d.incomplete[b as int], 0),
        ..d
    }
}

/// Taking up the waiting phis of a block keeps the invariant.
proof fn lemma_taken(d: Draft, b: usize)
    requires
        d.inv(),
        b < d.n(),
        d.flight == Set::<(usize, usize)>::empty(),
    ensures
        taken(d, b).inv(),
{
    let e = taken(d, b);
    let list = d.incomplete[b as int];
    let n = d.n();
    assert(d.list_ok(b));
    assert(d.form.owner =~= e.form.owner.take(d.form.owner.len() as int));
    assert forall|x: usize| x < n implies (#[trigger] d.form.regs[x as int]).is_prefix_of(
        e.form.regs[x as int],
    ) by {
        let p = d.form.regs[x as int];
        assert(p =~= p.take(p.len() as int));
    }
    assert(d.extends(e));
    lemma_names(d, e);
    assert(e.shape());
    assert forall|x: usize, q: usize| #![trigger d.is_open(x, q)] #![trigger e.is_open(x, q)] x < n implies d.is_open(
        x,
        q,
    ) == e.is_open(x, q) by {
        if d.listed(x, q) {
            let k = choose|k: int|
                0 <= k < d.incomplete[x as int].len() && (#[trigger] d.incomplete[x as int][k]).0 == q;
            if x == b {
                assert(list[k].0 == q);
                assert(e.flight.contains((x, q)));
            } else {
                assert(e.incomplete[x as int][k].0 == q);
            }
        }
        if e.flight.contains((x, q)) {
            let k = choose|k: int| 0 <= k < list.len() && (x, q) == (b, (#[trigger] list[k]).0);
            assert(d.incomplete[x as int][k].0 == q);
        }
        if e.listed(x, q) {
            let k = choose|k: int|
                0 <= k < e.incomplete[x as int].len() && (#[trigger] e.incomplete[x as int][k]).0 == q;
            assert(d.incomplete[x as int][k].0 == q);
        }
    }
    assert(e.cells_ok()) by {
        assert forall|s: u8, x: usize| s < 11 && x < e.n() implies #[trigger] e.cell_ok(s, x) by {
            assert(d.cell_ok(s, x));
        }
    }
    assert(e.heads_ok()) by {
        assert forall|x: usize| x < e.n() implies #[trigger] e.head_shape(x) by {
            assert(d.head_shape(x));
            let regs = e.form.regs[x as int];
            assert forall|k: int| 0 <= k < regs.len() implies #[trigger] e.phi_ok(x, k) by {
                assert(d.phi_ok(x, k));
                let pos = (base(x) + k) as usize;
                let r = regs[k];
                assert(d.cell(r, x) is Some);
                assert(d.is_open(x, pos) == e.is_open(x, pos));
                if let Op::Phi { inputs, .. } = d.form.heads[x as int][pos as int] {
                    if !d.is_open(x, pos) {
                        let from = starts(d.insns, x, r);
                        assert forall|j: usize| from.len() <= j < inputs.len() implies e.input_ok(
                            x,
                            pos,
                            j,
                            r,
                            #[trigger] inputs[j as int],
                        ) by {
                            assert(d.input_ok(x, pos, j, r, inputs[j as int]));
                        }
                    }
                }
            }
        }
    }
    assert(e.lists_ok()) by {
        assert forall|x: usize| x < e.n() implies #[trigger] e.list_ok(x) by {
            assert(d.list_ok(x));
            let rest = e.incomplete[x as int];
            assert forall|k: int| 0 <= k < rest.len() implies e.phi_at(x, (#[trigger] rest[k]).0, rest[k].1)
                && !e.flight.contains((x, rest[k].0)) by {
                assert(d.phi_at(x, d.incomplete[x as int][k].0, rest[k].1));
            }
        }
        assert forall|x: usize, pos: usize| #[trigger] e.flight.contains((x, pos)) implies x < e.n() && base(
            x,
        ) <= pos < e.form.heads[x as int].len() by {
            let k = choose|k: int| 0 <= k < list.len() && (x, pos) == (b, (#[trigger] list[k]).0);
            assert(d.phi_at(b, list[k].0, list[k].1));
        }
    }
    assert(e.stales_ok()) by {
        assert forall|i: int| 0 <= i < e.stale.len() implies e.stale_ok(#[trigger] e.stale[i]) by {
            let (x, pos, j, p, r) = d.stale[i];
            assert(d.stale_ok(d.stale[i]));
            assert(d.is_open(x, pos) == e.is_open(x, pos));
            assert(d.cell(r, p) is Some);
        }
    }
    assert(e.origins_ok()) by {
        assert forall|w: int| 0 <= w < e.next() implies #[trigger] e.origin_ok(w) by {
            assert(d.origin_ok(w));
        }
        assert forall|x: usize, head: bool, pos: usize| x < e.n() && pos < e.part(x, head).len() implies
            #[trigger] e.place_ok(x, head, pos) by {
            assert(d.place_ok(x, head, pos));
        }
    }
    assert(e.bodies_ok()) by {
        assert forall|x: usize| x < e.n() implies #[trigger] e.body_shape(x) by {
            assert(d.body_shape(x));
        }
    }
    assert(e.flags_ok()) by {
        assert forall|r: u8| !entry_loop(d.insns) && r < 11 implies (#[trigger] e.cell(r, 0)) is Some by {
            assert(d.cell(r, 0) is Some);
        }
        assert forall|x: usize|
            x < e.n() && #[trigger] e.sealed[x as int] && preds(e.insns, x).contains(x) implies e.filled[x as int] by {
            assert(d.sealed[x as int]);
        }
    }
}

/// What sealing a block keeps.
spec fn sealed_one(d: Draft, e: Draft, b: usize) -> bool {
    &&& e.insns == d.insns
    &&& e.sealed == d.sealed.update(b as int, true)
    &&& e.filled == d.filled
    &&& e.live == d.live
    &&& e.done == d.done
    &&& e.flight == d.flight
    &&& e.incomplete[b as int].len() == 0
    &&& forall|x: usize|
        x < d.n() && x != b && #[trigger] d.sealed[x as int] ==> e.incomplete[x as int]
            == d.incomplete[x as int]
}

impl<'a> Builder<'a> {
    /// Completes the waiting phis of a filled block.
    fn seal(&mut self, b: usize)
        requires
            old(self).wf(),
            b < old(self).draft().n(),
            old(self).draft().flight == Set::<(usize, usize)>::empty(),
            old(self).draft().filled[b as int],
            old(self).idle(),
        ensures
            final(self).wf(),
            final(self).idle(),
            final(self).insns == old(self).insns,
            final(self).cfg == old(self).cfg,
            sealed_one(old(self).draft(), final(self).draft(), b),
    {
        let ghost d = self.draft();
        let ghost list = d.incomplete[b as int];
        proof {
            lemma_taken(d, b);
            assert(d.list_ok(b));
            assert(d.body_shape(b));
            reveal(near);
        }
        self.sealing.set(b, true);
        let mut waiting: Vec<(usize, u8)> = Vec::new();
        std::mem::swap(&mut waiting, &mut self.incomplete[b]);
        let ghost e = taken(d, b);
        proof {
            assert(waiting@ == list);
            self.facts@ = Facts { flight: e.flight, ..self.facts@ };
            assert(self.draft() =~= e);
        }
        let mut k: usize = 0;
        while k < waiting.len()
            invariant
                self.wf(),
                self.near(b),
                old(self).idle(),
                self.resolving@ == old(self).resolving@,
                self.sealing@ == old(self).sealing@.update(b as int, true),
                self.insns == old(self).insns,
                self.cfg == old(self).cfg,
                d == old(self).draft(),
                d.insns == old(self).insns@,
                e == taken(d, b),
                e.shape(),
                b < d.n(),
                waiting@ == list,
                list == d.incomplete[b as int],
                d.list_ok(b),
                k <= list.len(),
                self.draft().insns == e.insns,
                self.draft().sealed == e.sealed,
                self.draft().filled == e.filled,
                self.draft().live == e.live,
                self.draft().done == e.done,
                self.draft().flight == pending(b, list, k as int),
                self.draft().incomplete[b as int].len() == 0,
                forall|x: usize|
                    x < d.n() && x != b && #[trigger] d.sealed[x as int]
                        ==> self.draft().incomplete[x as int] == d.incomplete[x as int],
                d.form.regs[b as int].is_prefix_of(self.draft().form.regs[b as int]),
                d.form.heads[b as int].len() <= self.draft().form.heads[b as int].len(),
            decreases list.len() - k,
        {
            let (pos, r) = waiting[k];
            let ghost f = self.draft();
            proof {
                assert(d.phi_at(b, list[k as int].0, list[k as int].1));
                assert(f.flight.contains((b, pos))) by {
                    assert(list[k as int].0 == pos);
                }
                let (p, q) = (d.form.regs[b as int], f.form.regs[b as int]);
                assert(q.take(p.len() as int)[pos - base(b)] == q[pos - base(b)]);
                assert(f.head_shape(b));
                assert(f.phi_at(b, pos, r));
                assert(f.phi_ok(b, pos - base(b)));
                assert(f.cell(r, b) is Some);
            }
            self.complete_phi(b, pos, r);
            proof {
                let g = self.draft();
                assert(f.flight.remove((b, pos)) =~= pending(b, list, k + 1)) by {
                    assert forall|t: (usize, usize)| f.flight.remove((b, pos)).contains(t) <==> pending(
                        b,
                        list,
                        k + 1,
                    ).contains(t) by {
                        if pending(b, list, k + 1).contains(t) {
                            let m = choose|m: int|
                                k + 1 <= m < list.len() && t == (b, (#[trigger] list[m]).0);
                            assert(list[k as int].0 < list[m].0);
                        }
                        if f.flight.remove((b, pos)).contains(t) {
                            let m = choose|m: int|
                                k <= m < list.len() && t == (b, (#[trigger] list[m]).0);
                            assert(m != k);
                        }
                    }
                }
                assert(f.incomplete[b as int] == g.incomplete[b as int]);
                assert forall|x: usize| x < d.n() && x != b && #[trigger] d.sealed[x as int] implies g.incomplete[x as int]
                    == d.incomplete[x as int] by {
                    assert(f.incomplete[x as int] == d.incomplete[x as int]);
                    assert(f.sealed[x as int]);
                    assert(g.incomplete[x as int] == f.incomplete[x as int]);
                }
                assert(f.form.regs[b as int].is_prefix_of(g.form.regs[b as int]));
                let (p, q, t) = (d.form.regs[b as int], f.form.regs[b as int], g.form.regs[b as int]);
                assert(p =~= t.take(p.len() as int));
                assert(f.form.heads[b as int].len() <= g.form.heads[b as int].len());
            }
            k = k + 1;
        }
        let ghost f = self.draft();
        self.sealing.set(b, false);
        self.sealed.set(b, true);
        proof {
            let g = self.draft();
            lemma_routed_seal(
                f.insns,
                self.cfg.order(),
                f.form.regs,
                f.live,
                f.sealed,
                f.filled,
                b,
            );
            assert forall|x: usize|
                x < f.n() && #[trigger] g.sealed[x as int] && preds(f.insns, x).contains(x) implies g.filled[x as int] by {
                if x != b {
                    assert(f.sealed[x as int]);
                }
            }
            lemma_advance(f, g);
            assert(f.flight =~= Set::<(usize, usize)>::empty());
        }
    }
}

/// The draft at the start: the entry versions only.
spec fn start_draft(insns: Seq<Insn>) -> Draft {
    let n = blocks(insns).len();
    let seeded = |r: int| !entry_loop(insns) || r == 10;
    Draft {
        insns,
        cur: Seq::new(
            11,
            |r: int|
                Seq::new(
                    n,
                    |b: int|
                        if b == 0 && seeded(r) {
                            Some(entry_version(r as u8))
                        } else {
                            None
                        },
                ),
        ),
        sealed: Seq::new(n, |b: int| false),
        filled: Seq::new(n, |b: int| false),
        live: Seq::new(n, |b: int| false),
        form: Form {
            heads: Seq::new(
                n,
                |b: int|
                    if b == 0 {
                        prelude()
                    } else {
                        Seq::empty()
                    },
            ),
            bodies: Seq::new(n, |b: int| Seq::empty()),
            regs: Seq::new(n, |b: int| Seq::empty()),
            owner: seq![0u8, 10u8, 1u8],
            names: Set::new(
                |t: (usize, u8, SsaValue)|
                    t.0 == 0 && t.1 < 11 && seeded(t.1 as int) && t.2 == entry_version(t.1),
            ),
        },
        env: Seq::new(n, |b: int| no_versions()),
        incomplete: Seq::new(n, |b: int| Seq::empty()),
        stale: Seq::empty(),
        origins: seq![(0usize, true, 0usize), (0usize, true, 1usize), (0usize, true, 2usize)],
        flight: Set::empty(),
        done: Seq::new(insns.len(), |i: int| false),
    }
}

pub proof fn lemma_pred_edge(list: Seq<Edge>, b: usize, j: int)
    requires
        0 <= j < predecessors(list, b).len(),
    ensures
        exists|kind: EdgeKind| #[trigger] list.contains((predecessors(list, b)[j], b, kind)),
    decreases list.len(),
{
    let (from, to, kind) = list.last();
    let rest = list.drop_last();
    let p = predecessors(list, b)[j];
    if to == b && j == 0 {
        assert(list[list.len() - 1] == (p, b, kind));
        assert(list.contains((p, b, kind)));
    } else {
        let m = if to == b {
            j - 1
        } else {
            j
        };
        assert(predecessors(rest, b)[m] == p);
        lemma_pred_edge(rest, b, m);
        let k = choose|k: EdgeKind| #[trigger] rest.contains((p, b, k));
        let i = rest.index_of((p, b, k));
        assert(list[i] == (p, b, k));
        assert(list.contains((p, b, k)));
    }
}

proof fn lemma_nones_bound(cur: Seq<Seq<Option<SsaValue>>>, n: nat, r: nat)
    ensures
        all_nones(cur, n, r) <= r * n,
    decreases r,
{
    if r > 0 {
        lemma_nones_bound(cur, n, (r - 1) as nat);
        lemma_row_bound(cur[r - 1], n);
        assert(r * n == (r - 1) * n + n) by (nonlinear_arith)
            requires
                r > 0,
        ;
    }
}

proof fn lemma_row_bound(row: Seq<Option<SsaValue>>, n: nat)
    ensures
        nones(row, n) <= n,
    decreases n,
{
    if n > 0 {
        lemma_row_bound(row, (n - 1) as nat);
    }
}

proof fn lemma_unset_bound(marks: Seq<bool>, n: nat)
    ensures
        unset(marks, n) <= n,
    decreases n,
{
    if n > 0 {
        lemma_unset_bound(marks, (n - 1) as nat);
    }
}

proof fn lemma_start_totals(insns: Seq<Insn>, n: nat)
    requires
        n <= blocks(insns).len(),
    ensures
        total(start_draft(insns).form.heads, n) == (if n == 0 {
            0nat
        } else {
            3
        }),
        total(start_draft(insns).form.bodies, n) == 0,
    decreases n,
{
    if n > 0 {
        lemma_start_totals(insns, (n - 1) as nat);
    }
}

/// The draft at the start meets the invariant.
proof fn lemma_start(insns: Seq<Insn>)
    requires
        insns.len() > 0,
        insns.len() <= usize::MAX,
        cfg_error(insns) is None,
        3 + 11 * blocks(insns).len() + insns.len() < u32::MAX,
    ensures
        start_draft(insns).inv(),
{
    let d = start_draft(insns);
    let n = d.n();
    blocks_partition_program(insns);
    assert forall|b: usize, j: int| b < n && 0 <= j < preds(insns, b).len() implies (#[trigger] preds(
        insns,
        b,
    )[j]) < n by {
        lemma_pred_edge(edges(insns), b, j);
        let p = preds(insns, b)[j];
        let kind = choose|kind: EdgeKind| #[trigger] edges(insns).contains((p, b, kind));
        edges_mirror_control(insns, p, b, kind);
    }
    assert(d.shape());
    assert(d.names_ok()) by {
        assert forall|b: usize, r: u8, v: SsaValue| #[trigger] d.form.names.contains((b, r, v)) implies b
            < n && r < 11 && v.0 < d.next() && d.form.belongs(r, v) && d.backed(b, r, v) by {
        }
    }
    assert(d.cells_ok()) by {
        assert forall|r: u8, b: usize| r < 11 && b < n implies #[trigger] d.cell_ok(r, b) by {
            if let Some(v) = d.cell(r, b) {
                assert(d.form.names.contains((b, r, v)));
            }
        }
    }
    assert(d.heads_ok()) by {
        assert forall|b: usize| b < n implies #[trigger] d.head_shape(b) by {
            if b == 0 {
                assert(d.form.heads[0].take(3) =~= prelude());
            }
        }
    }
    assert(d.lists_ok()) by {
        assert forall|b: usize| b < n implies #[trigger] d.list_ok(b) by {
        }
    }
    assert(d.origins_ok()) by {
        assert forall|v: int| 0 <= v < d.next() implies #[trigger] d.origin_ok(v) by {
            assert(d.part(0, true) == prelude());
        }
        assert forall|b: usize, head: bool, pos: usize| b < n && pos < d.part(b, head).len() implies
            #[trigger] d.place_ok(b, head, pos) by {
            assert(b == 0 && head);
            assert(d.part(0, true) == prelude());
        }
    }
    assert(d.bodies_ok()) by {
        assert forall|b: usize| b < n implies #[trigger] d.body_shape(b) by {
        }
    }
    lemma_start_totals(insns, n);
    lemma_nones_bound(d.cur, n, 11);
    lemma_unset_bound(d.done, insns.len());
    assert(d.flags_ok()) by {
        assert forall|r: u8| !entry_loop(insns) && r < 11 implies (#[trigger] d.cell(r, 0)) is Some by {
        }
    }
}

/// A vector of one mark per block.
fn marks(n: usize) -> (r: Vec<bool>)
    ensures
        r@ == Seq::new(n as nat, |b: int| false),
{
    let mut r: Vec<bool> = Vec::new();
    while r.len() < n
        invariant
            r@.len() <= n,
            forall|b: int| 0 <= b < r@.len() ==> !#[trigger] r@[b],
        decreases n - r@.len(),
    {
        r.push(false);
    }
    assert(r@ =~= Seq::new(n as nat, |b: int| false));
    r
}

/// A vector of one empty list per block.
fn empty_lists(n: usize) -> (r: Vec<Vec<SsaInsn>>)
    ensures
        lists(r@) == Seq::new(n as nat, |b: int| Seq::<Op>::empty()),
{
    let mut r: Vec<Vec<SsaInsn>> = Vec::new();
    while r.len() < n
        invariant
            r@.len() <= n,
            forall|b: int| 0 <= b < r@.len() ==> (#[trigger] r@[b])@.len() == 0,
        decreases n - r@.len(),
    {
        r.push(Vec::new());
    }
    assert forall|b: int| 0 <= b < n implies #[trigger] lists(r@)[b] == Seq::<Op>::empty() by {
        assert(r@[b]@.len() == 0);
        assert(ops_of(r@[b]@) =~= Seq::<Op>::empty());
    }
    assert(lists(r@) =~= Seq::new(n as nat, |b: int| Seq::<Op>::empty()));
    r
}

/// The versions of a register at the start, by block.
fn first_row(n: usize, seed: Option<SsaValue>) -> (r: Vec<Option<SsaValue>>)
    ensures
        r@ == Seq::new(
            n as nat,
            |b: int|
                if b == 0 {
                    seed
                } else {
                    None
                },
        ),
{
    let mut r: Vec<Option<SsaValue>> = Vec::new();
    while r.len() < n
        invariant
            r@.len() <= n,
            forall|b: int|
                0 <= b < r@.len() ==> #[trigger] r@[b] == (if b == 0 {
                    seed
                } else {
                    None
                }),
        decreases n - r@.len(),
    {
        if r.len() == 0 {
            r.push(seed);
        } else {
            r.push(None);
        }
    }
    assert(r@ =~= Seq::new(
        n as nat,
        |b: int|
            if b == 0 {
                seed
            } else {
                None
            },
    ));
    r
}

impl<'a> Builder<'a> {
    /// The state at the start.
    fn start(insns: &'a [Insn], cfg: &'a Cfg) -> (r: Self)
        requires
            cfg.describes(insns@),
            insns@.len() > 0,
            3 + 11 * blocks(insns@).len() + insns@.len() < u32::MAX,
        ensures
            r.wf(),
            r.idle(),
            r.insns == insns,
            r.cfg == cfg,
            r.draft() == start_draft(insns@),
    {
        let ghost d = start_draft(insns@);
        proof {
            lemma_start(insns@);
            lemma_order_below(insns@, cfg);
            lemma_routed_start(insns@, cfg.order(), d.form.regs, d.live);
        }
        let n: usize = cfg_node_count(&cfg.graph);
        let loops = cfg_predecessors(&cfg.graph, 0).len() > 0;
        let mut cur: Vec<Vec<Option<SsaValue>>> = Vec::new();
        let mut r: u8 = 0;
        while r < 11
            invariant
                r <= 11,
                n == blocks(insns@).len(),
                d == start_draft(insns@),
                loops == entry_loop(insns@),
                cur@.len() == r,
                forall|s: int| 0 <= s < r ==> (#[trigger] cur@[s])@ == d.cur[s],
            decreases 11 - r,
        {
            let seed = if !loops || r == 10 {
                Some(entry_value(r))
            } else {
                None
            };
            let row = first_row(n, seed);
            assert(row@ =~= d.cur[r as int]);
            cur.push(row);
            r = r + 1;
        }
        assert(rows(cur@) =~= d.cur);
        let mut heads = empty_lists(n);
        assert(heads@.len() == n) by {
            assert(lists(heads@).len() == n);
        }
        append(&mut heads, 0, SsaInsn::Const { dst: SsaValue(0), value: 0 });
        append(&mut heads, 0, SsaInsn::FramePtr { dst: SsaValue(1) });
        append(&mut heads, 0, SsaInsn::EntryCtx { dst: SsaValue(2) });
        proof {
            assert(lists(heads@)[0] =~= prelude());
            assert(lists(heads@) =~= d.form.heads);
        }
        let bodies = empty_lists(n);
        let mut incomplete: Vec<Vec<(usize, u8)>> = Vec::new();
        while incomplete.len() < n
            invariant
                incomplete@.len() <= n,
                forall|b: int| 0 <= b < incomplete@.len() ==> (#[trigger] incomplete@[b])@.len() == 0,
            decreases n - incomplete@.len(),
        {
            incomplete.push(Vec::new());
        }
        proof {
            assert forall|b: int| 0 <= b < n implies #[trigger] rows(incomplete@)[b] == Seq::<(usize, u8)>::empty() by {
                assert(incomplete@[b]@.len() == 0);
                assert(incomplete@[b]@ =~= Seq::empty());
            }
            assert(rows(incomplete@) =~= d.incomplete);
            assert(lists(bodies@) =~= d.form.bodies);
        }
        let origins = vec![(0, true, 0), (0, true, 1), (0, true, 2)];
        assert(origins@ =~= d.origins);
        let r = Builder {
            insns,
            cfg,
            cur,
            sealed: marks(n),
            filled: marks(n),
            live: marks(n),
            heads,
            bodies,
            incomplete,
            stale: Vec::new(),
            origins,
            entry_loop: loops,
            resolving: marks(n),
            sealing: marks(n),
            facts: Ghost(
                Facts {
                    regs: d.form.regs,
                    owner: d.form.owner,
                    names: d.form.names,
                    env: d.env,
                    flight: d.flight,
                    done: d.done,
                },
            ),
        };
        assert(r.draft() =~= d);
        r
    }

    /// Whether every predecessor of a block is sealed.
    fn all_preds_sealed(&self, b: usize) -> (r: bool)
        requires
            self.wf(),
            b < self.draft().n(),
        ensures
            r == forall|j: int|
                0 <= j < preds(self.insns@, b).len() ==> self.sealed@[#[trigger] preds(
                    self.insns@,
                    b,
                )[j] as int],
    {
        let from = cfg_predecessors(&self.cfg.graph, b);
        let mut j: usize = 0;
        while j < from.len()
            invariant
                self.wf(),
                b < self.draft().n(),
                from@ == preds(self.insns@, b),
                j <= from@.len(),
                forall|i: int|
                    0 <= i < j ==> self.sealed@[#[trigger] preds(self.insns@, b)[i] as int],
            decreases from@.len() - j,
        {
            assert(preds(self.draft().insns, b)[j as int] < self.draft().n());
            if !self.sealed[from[j]] {
                assert(!self.sealed@[preds(self.insns@, b)[j as int] as int]);
                return false;
            }
            j = j + 1;
        }
        true
    }

    /// Whether a block has index `k` of the order, and those before it are
    /// done.
    spec fn is_turn(&self, k: int, b: usize) -> bool {
        let order = self.cfg.order();
        &&& 0 <= k < order.len()
        &&& order[k] == b
        &&& forall|i: int| 0 <= i < order.len() ==> #[trigger] self.live@[order[i] as int] == (i < k)
    }

    /// Whether a block is the next of the order, and what was visited is
    /// filled and sealed.
    spec fn is_next(&self, b: usize) -> bool {
        &&& exists|k: int| self.is_turn(k, b)
        &&& forall|x: int|
            0 <= x < self.draft().n() ==> #[trigger] self.sealed@[x] == self.live@[x] && self.filled@[x] == self.live@[x]
    }

    /// Visits a block: fills and seals it.
    fn visit(&mut self, b: usize) -> (res: Result<(), SsaError>)
        requires
            old(self).wf(),
            b < old(self).draft().n(),
            !old(self).draft().live[b as int],
            !old(self).draft().sealed[b as int],
            old(self).idle(),
            old(self).is_next(b),
            old(self).draft().flight == Set::<(usize, usize)>::empty(),
            forall|q: int|
                old(self).draft().start(b) <= q < old(self).draft().end(b)
                    ==> !#[trigger] old(self).draft().done[q],
            forall|i: int| 0 <= i < old(self).insns@.len() ==> (#[trigger] old(self).insns@[i]).valid(),
        ensures
            match unknown_in(
                old(self).insns@,
                old(self).draft().start(b),
                old(self).draft().end(b),
            ) {
                None => {
                    let (d, e) = (old(self).draft(), final(self).draft());
                    &&& res is Ok
                    &&& final(self).wf()
                    &&& final(self).idle()
                    &&& final(self).insns == old(self).insns
                    &&& final(self).cfg == old(self).cfg
                    &&& e.flight == d.flight
                    &&& e.live == d.live.update(b as int, true)
                    &&& e.filled == d.filled.update(b as int, true)
                    &&& e.sealed == d.sealed.update(b as int, true)
                    &&& e.incomplete[b as int].len() == 0
                    &&& forall|x: usize|
                        x < d.n() && x != b && #[trigger] d.sealed[x as int] ==> e.incomplete[x as int]
                            == d.incomplete[x as int]
                    &&& forall|q: int|
                        0 <= q < d.insns.len() && !(d.start(b) <= q < d.end(b)) ==> #[trigger] e.done[q]
                            == d.done[q]
                },
                Some(pc) => res == Err::<(), SsaError>(
                    SsaError::IllegalInstruction { pc: pc as usize },
                ) && 0 <= pc < old(self).insns@.len(),
            },
    {
        let ghost d = self.draft();
        assert(d.body_shape(b));
        let ready = self.all_preds_sealed(b);
        proof {
            let k = choose|k: int| self.is_turn(k, b);
            lemma_order_below(d.insns, self.cfg);
            lemma_routed_visit(
                d.insns,
                self.cfg,
                d.form.regs,
                d.live,
                d.sealed,
                d.filled,
                k,
                ready,
            );
        }
        self.live.set(b, true);
        proof {
            let e = self.draft();
            assert forall|x: usize|
                x < d.n() && #[trigger] e.sealed[x as int] && preds(d.insns, x).contains(x) implies e.filled[x as int] by {
                assert(d.sealed[x as int]);
            }
            lemma_advance(d, e);
        }
        let ghost d1 = self.draft();
        if ready {
            self.sealed.set(b, true);
            proof {
                let e = self.draft();
                assert forall|x: usize|
                    x < d.n() && #[trigger] e.sealed[x as int] && preds(d.insns, x).contains(x) implies e.filled[x as int] by {
                    if x == b {
                        let j = preds(d.insns, b).index_of(b);
                        assert(d1.sealed[preds(d.insns, b)[j] as int]);
                    } else {
                        assert(d1.sealed[x as int]);
                    }
                }
                lemma_advance(d1, e);
            }
        }
        let ghost d2 = self.draft();
        proof {
            blocks_partition_program(d.insns);
            assert(d2.partly(b, d2.start(b))) by {
                assert(d2.form.bodies[b as int].len() == 0);
            }
        }
        match self.fill(b) {
            Err(e) => {
                return Err(e);
            },
            Ok(()) => {},
        }
        let ghost d3 = self.draft();
        self.filled.set(b, true);
        proof {
            let e = self.draft();
            assert forall|x: usize|
                x < d.n() && #[trigger] e.sealed[x as int] && preds(d.insns, x).contains(x) implies e.filled[x as int] by {
                assert(d3.sealed[x as int]);
            }
            lemma_advance(d3, e);
            lemma_routed_fill(
                d3.insns,
                self.cfg.order(),
                d3.form.regs,
                d3.live,
                d3.sealed,
                d3.filled,
                b,
            );
        }
        let ghost d4 = self.draft();
        self.seal(b);
        proof {
            let e = self.draft();
            assert(e.sealed =~= d.sealed.update(b as int, true));
            assert forall|x: usize| x < d.n() && x != b && #[trigger] d.sealed[x as int] implies e.incomplete[x as int]
                == d.incomplete[x as int] by {
                assert(d2.sealed[x as int]);
                assert(d4.sealed[x as int]);
            }
        }
        Ok(())
    }
}

/// The draft in which an input of a phi is replaced.
spec fn repaired(d: Draft, t: Stale, w: SsaValue) -> Draft {
    let (b, pos, j, p, r) = t;
    let head = d.form.heads[b as int];
    let op = Op::Phi {
        dst: head[pos as int]->Phi_dst,
        inputs: head[pos as int]->Phi_inputs.update(j as int, (p, w)),
    };
    Draft {
        form: Form { heads: d.form.heads.update(b as int, head.update(pos as int, op)), ..d.form },
        ..d
    }
}

/// Whether an input is among those to read again from `k` on.
spec fn still(d: Draft, k: int, t: Stale) -> bool {
    exists|i: int| k <= i < d.stale.len() && #[trigger] d.stale[i] == t
}

/// Whether the inputs of a phi are versions at the ends of the predecessors,
/// but for those to read again from `k` on.
spec fn phi_settled(d: Draft, k: int, b: usize, m: int) -> bool {
    let r = d.form.regs[b as int][m];
    let pos = (base(b) + m) as usize;
    let from = starts(d.insns, b, r);
    !d.is_open(b, pos) ==> (d.form.heads[b as int][pos as int] matches Op::Phi { inputs, .. } ==> forall|
        j: usize,
    |
        from.len() <= j < inputs.len() ==> {
            let (p, w) = #[trigger] inputs[j as int];
            ||| (d.filled[p as int] ==> d.known(p, r, w))
            ||| still(d, k, (b, pos, j, p, r))
        })
}

/// Whether all phis are settled, but for inputs from `k` on.
spec fn settled(d: Draft, k: int) -> bool {
    forall|b: usize, m: int|
        b < d.n() && 0 <= m < d.form.regs[b as int].len() ==> #[trigger] phi_settled(d, k, b, m)
}

/// Replacing an input by the version of its predecessor keeps the invariant.
proof fn lemma_repaired(d: Draft, k: int, w: SsaValue)
    requires
        d.inv(),
        0 <= k < d.stale.len(),
        settled(d, k),
        d.filled[d.stale[k].3 as int],
        d.cell(d.stale[k].4, d.stale[k].3) == Some(w),
    ensures
        repaired(d, d.stale[k], w).inv(),
        settled(repaired(d, d.stale[k], w), k + 1),
{
    let t = d.stale[k];
    let (b, pos, j, p, r) = t;
    let e = repaired(d, t, w);
    let n = d.n();
    assert(d.stale_ok(t));
    assert(d.head_shape(b));
    let at = pos - base(b);
    assert(d.phi_ok(b, at));
    assert((base(b) + at) as usize == pos);
    assert(d.cell_ok(r, p));
    let from = starts(d.insns, b, r);
    let ins = d.form.heads[b as int][pos as int]->Phi_inputs;
    let now = ins.update(j as int, (p, w));
    assert(d.input_ok(b, pos, j, r, ins[j as int]));
    assert(d.form.owner =~= e.form.owner.take(d.form.owner.len() as int));
    assert forall|x: usize| x < n implies (#[trigger] d.form.regs[x as int]).is_prefix_of(
        e.form.regs[x as int],
    ) by {
        let q = d.form.regs[x as int];
        assert(q =~= q.take(q.len() as int));
    }
    assert forall|x: usize, m: int| x < n && 0 <= m < d.form.regs[x as int].len() implies e.form.heads[x as int][base(
        x,
    ) + m].def() == (#[trigger] d.form.heads[x as int][base(x) + m]).def() by {
    }
    assert(d.extends(e));
    lemma_names(d, e);
    assert(e.shape());
    assert forall|x: usize, q: usize| #![trigger d.is_open(x, q)] #![trigger e.is_open(x, q)] d.is_open(
        x,
        q,
    ) == e.is_open(x, q) by {
        assert(d.listed(x, q) == e.listed(x, q)) by {
            assert(d.incomplete == e.incomplete);
        }
    }
    assert(e.cells_ok()) by {
        assert forall|s: u8, x: usize| s < 11 && x < e.n() implies #[trigger] e.cell_ok(s, x) by {
            assert(d.cell_ok(s, x));
        }
    }
    assert(e.heads_ok()) by {
        assert forall|x: usize| x < e.n() implies #[trigger] e.head_shape(x) by {
            assert(d.head_shape(x));
            if b == 0 {
                assert(e.form.heads[0].take(3) =~= d.form.heads[0].take(3));
            }
            let regs = e.form.regs[x as int];
            assert forall|m: int| 0 <= m < regs.len() implies #[trigger] e.phi_ok(x, m) by {
                assert(d.phi_ok(x, m));
                let q = (base(x) + m) as usize;
                let s = regs[m];
                assert(d.cell(s, x) is Some);
                assert(d.is_open(x, q) == e.is_open(x, q));
                if let Op::Phi { inputs, .. } = d.form.heads[x as int][q as int] {
                    if !d.is_open(x, q) {
                        let f = starts(d.insns, x, s);
                        if (x, q) == (b, pos) {
                            assert(now.take(f.len() as int) =~= inputs.take(f.len() as int));
                            assert forall|i: usize| f.len() <= i < now.len() implies e.input_ok(
                                x,
                                q,
                                i,
                                s,
                                #[trigger] now[i as int],
                            ) by {
                                assert(d.input_ok(x, q, i, s, inputs[i as int]));
                            }
                        } else {
                            assert forall|i: usize| f.len() <= i < inputs.len() implies e.input_ok(
                                x,
                                q,
                                i,
                                s,
                                #[trigger] inputs[i as int],
                            ) by {
                                assert(d.input_ok(x, q, i, s, inputs[i as int]));
                            }
                        }
                    }
                }
            }
        }
    }
    assert(e.lists_ok()) by {
        assert forall|x: usize| x < e.n() implies #[trigger] e.list_ok(x) by {
            assert(d.list_ok(x));
            let list = e.incomplete[x as int];
            assert forall|m: int| 0 <= m < list.len() implies e.phi_at(x, (#[trigger] list[m]).0, list[m].1)
                && !e.flight.contains((x, list[m].0)) by {
                assert(d.phi_at(x, d.incomplete[x as int][m].0, list[m].1));
            }
        }
    }
    assert(e.stales_ok()) by {
        assert(d.body_shape(p));
        assert forall|i: int| 0 <= i < e.stale.len() implies e.stale_ok(#[trigger] e.stale[i]) by {
            let (x, q, m, y, s) = d.stale[i];
            assert(d.stale_ok(d.stale[i]));
            assert(d.is_open(x, q) == e.is_open(x, q));
            assert(d.cell(s, y) is Some);
        }
    }
    assert(e.origins_ok()) by {
        assert forall|v: int| 0 <= v < e.next() implies #[trigger] e.origin_ok(v) by {
            assert(d.origin_ok(v));
        }
        assert forall|x: usize, head: bool, q: usize| x < e.n() && q < e.part(x, head).len() implies
            #[trigger] e.place_ok(x, head, q) by {
            assert(d.place_ok(x, head, q));
        }
    }
    assert(e.bodies_ok()) by {
        assert forall|x: usize| x < e.n() implies #[trigger] e.body_shape(x) by {
            assert(d.body_shape(x));
            let (first, end) = (d.start(x), d.end(x));
            if d.filled[x as int] {
                assert forall|q: int| first <= q < end implies #[trigger] e.form.owns(d.insns, x, q) by {
                    assert(d.form.owns(d.insns, x, q));
                }
            }
        }
    }
    assert(e.counts_ok()) by {
        lemma_total_update(d.form.heads, n, b as int, e.form.heads[b as int]);
    }
    assert(e.flags_ok()) by {
        assert forall|s: u8| !entry_loop(d.insns) && s < 11 implies (#[trigger] e.cell(s, 0)) is Some by {
            assert(d.cell(s, 0) is Some);
        }
        assert forall|x: usize|
            x < e.n() && #[trigger] e.sealed[x as int] && preds(e.insns, x).contains(x) implies e.filled[x as int] by {
            assert(d.sealed[x as int]);
        }
    }
    lemma_still(d, e, k, t, w);
}

/// After an input is replaced, it need not be read again.
proof fn lemma_still(d: Draft, e: Draft, k: int, t: Stale, w: SsaValue)
    requires
        d.inv(),
        0 <= k < d.stale.len(),
        t == d.stale[k],
        e == repaired(d, t, w) || (e == d && !d.filled[t.3 as int]),
        settled(d, k),
        d.filled[t.3 as int] ==> d.known(t.3, t.4, w),
        forall|x: usize, q: usize| #![trigger d.is_open(x, q)] d.is_open(x, q) == e.is_open(x, q),
    ensures
        settled(e, k + 1),
{
    let (b, pos, j, p, r) = t;
    assert(d.stale_ok(t));
    assert forall|x: usize, m: int| x < e.n() && 0 <= m < e.form.regs[x as int].len() implies #[trigger] phi_settled(
        e,
        k + 1,
        x,
        m,
    ) by {
        assert(phi_settled(d, k, x, m));
        let s = e.form.regs[x as int][m];
        let q = (base(x) + m) as usize;
        let f = starts(d.insns, x, s);
        assert(d.is_open(x, q) == e.is_open(x, q));
        assert(d.head_shape(x));
        assert(d.phi_ok(x, m));
        if !d.is_open(x, q) {
            if let Op::Phi { inputs, .. } = e.form.heads[x as int][q as int] {
                let before = d.form.heads[x as int][q as int]->Phi_inputs;
                assert forall|i: usize| f.len() <= i < inputs.len() implies {
                    let (y, v) = #[trigger] inputs[i as int];
                    ||| (e.filled[y as int] ==> e.known(y, s, v))
                    ||| still(e, k + 1, (x, q, i, y, s))
                } by {
                    let (y, v) = inputs[i as int];
                    assert(d.input_ok(x, q, i, s, before[i as int]));
                    if (x, q, i) == (b, pos, j) {
                        assert(s == r);
                        assert(y == p);
                    } else {
                        assert(inputs[i as int] == before[i as int]);
                        let u = (x, q, i, y, s);
                        if still(d, k, u) {
                            let c = choose|c: int| k <= c < d.stale.len() && #[trigger] d.stale[c] == u;
                            assert(c != k);
                            assert(e.stale[c] == u);
                        }
                    }
                }
            }
        }
    }
}

impl<'a> Builder<'a> {
    /// Reads the stale phi inputs again, from the filled predecessors.
    fn repair(&mut self)
        requires
            old(self).wf(),
        ensures
            final(self).wf(),
            final(self).same_task(old(self)),
            settled(final(self).draft(), final(self).draft().stale.len() as int),
            final(self).draft() == (Draft {
                form: Form {
                    heads: final(self).draft().form.heads,
                    ..old(self).draft().form
                },
                ..old(self).draft()
            }),
    {
        let ghost d = self.draft();
        proof {
            assert(settled(d, 0)) by {
                assert forall|b: usize, m: int| b < d.n() && 0 <= m < d.form.regs[b as int].len() implies
                    #[trigger] phi_settled(d, 0, b, m) by {
                    assert(d.head_shape(b));
                    assert(d.phi_ok(b, m));
                    let r = d.form.regs[b as int][m];
                    let pos = (base(b) + m) as usize;
                    let from = starts(d.insns, b, r);
                    if let Op::Phi { inputs, .. } = d.form.heads[b as int][pos as int] {
                        if !d.is_open(b, pos) {
                            assert forall|j: usize| from.len() <= j < inputs.len() implies {
                                let (p, w) = #[trigger] inputs[j as int];
                                ||| (d.filled[p as int] ==> d.known(p, r, w))
                                ||| still(d, 0, (b, pos, j, p, r))
                            } by {
                                let (p, w) = inputs[j as int];
                                assert(d.input_ok(b, pos, j, r, inputs[j as int]));
                                let t = (b, pos, j, p, r);
                                if d.is_stale(t) {
                                    let i = d.stale.index_of(t);
                                    assert(d.stale[i] == t);
                                }
                            }
                        }
                    }
                }
            }
        }
        let mut k: usize = 0;
        while k < self.stale.len()
            invariant
                self.wf(),
                self.same_task(old(self)),
                d == old(self).draft(),
                self.stale@ == d.stale,
                k <= self.stale@.len(),
                settled(self.draft(), k as int),
                self.draft() == (Draft {
                    form: Form { heads: self.draft().form.heads, ..d.form },
                    ..d
                }),
            decreases self.stale@.len() - k,
        {
            let (b, pos, j, p, r) = self.stale[k];
            let ghost e = self.draft();
            proof {
                assert(e.stale_ok(e.stale[k as int]));
                assert(e.cur[r as int].len() == e.n());
                assert(e.form.heads[b as int] == ops_of(self.heads@[b as int]@));
                assert(e.cell(r, p) is Some);
            }
            if self.filled[p] {
                if let Some(w) = self.cur[r as usize][p] {
                    proof {
                        lemma_repaired(e, k as int, w);
                        assert(e.form.heads[b as int][pos as int] == self.heads@[b as int]@[pos as int]@);
                    }
                    let insn = self.heads[b][pos].duplicate();
                    if let SsaInsn::Phi { dst, inputs } = insn {
                        let mut inputs = inputs;
                        inputs.set(j, (p, w));
                        replace(&mut self.heads, b, pos, SsaInsn::Phi { dst, inputs });
                        assert(self.draft() =~= repaired(e, e.stale[k as int], w));
                    }
                }
            } else {
                proof {
                    lemma_still(e, e, k as int, e.stale[k as int], SsaValue(0));
                }
            }
            k = k + 1;
        }
    }
}

/// Whether a draft is finished: the blocks of an order are filled, no others
/// are, and all phis of filled blocks are settled.
spec fn finished(d: Draft, order: Seq<usize>) -> bool {
    &&& d.inv()
    &&& d.flight == Set::<(usize, usize)>::empty()
    &&& settled(d, d.stale.len() as int)
    &&& order.contains(0)
    &&& forall|x: usize|
        x < d.n() && (#[trigger] d.form.regs[x as int]).len() > 0 ==> may_head(d.insns, order, x)
    &&& forall|x: usize|
        x < d.n() ==> {
            &&& #[trigger] d.live[x as int] == order.contains(x)
            &&& d.filled[x as int] == d.live[x as int]
            &&& d.live[x as int] ==> d.incomplete[x as int].len() == 0
        }
}

proof fn lemma_at_end(d: Draft, order: Seq<usize>, b: usize)
    requires
        finished(d, order),
        b < d.n(),
    ensures
        d.form.versions(d.insns, b, order.contains(b)) == d.env[b as int],
{
    assert(d.body_shape(b));
    assert(d.live[b as int] == order.contains(b));
}

/// The form of a finished draft is an SSA form of the program.
proof fn lemma_form(d: Draft, order: Seq<usize>)
    requires
        finished(d, order),
    ensures
        d.form.is_form_of(d.insns, order),
{
    let n = d.n();
    let form = d.form;
    assert forall|b: usize| b < n implies #[trigger] form.head_ok(d.insns, order, b) by {
        assert(d.head_shape(b));
        assert(d.live[b as int] == order.contains(b));
        let head = form.heads[b as int];
        let regs = form.regs[b as int];
        assert forall|k: int| 0 <= k < regs.len() implies (#[trigger] regs[k]) < 11 && (form.merges(
            d.insns,
            order,
            b,
            regs[k],
            head[base(b) + k],
        ) || (!order.contains(b) && (head[base(b) + k] matches Op::Phi { inputs, .. } && inputs.len() == 0))) by {
            assert(d.phi_ok(b, k));
            let r = regs[k];
            let pos = (base(b) + k) as usize;
            let from = starts(d.insns, b, r);
            if d.is_open(b, pos) {
                let i = choose|i: int|
                    0 <= i < d.incomplete[b as int].len() && (#[trigger] d.incomplete[b as int][i]).0
                        == pos;
                assert(!order.contains(b));
            } else if let Op::Phi { inputs, .. } = head[pos as int] {
                assert(phi_settled(d, d.stale.len() as int, b, k));
                assert forall|j: int| from.len() <= j < inputs.len() implies {
                    let p = preds(d.insns, b)[j - from.len()];
                    (#[trigger] inputs[j]).0 == p && form.at_end(d.insns, order, p, r, inputs[j].1)
                } by {
                    let i = j as usize;
                    let (p, w) = inputs[j];
                    lemma_few_edges(d.insns, leaders(d.insns).len());
                    lemma_few_preds(edges(d.insns), b);
                    assert(d.input_ok(b, pos, i, r, inputs[i as int]));
                    assert(p < n) by {
                        assert(preds(d.insns, b)[j - from.len()] < n);
                    }
                    lemma_at_end(d, order, p);
                    assert(d.live[p as int] == order.contains(p));
                    assert(!still(d, d.stale.len() as int, (b, pos, i, p, r)));
                    if !d.filled[p as int] {
                        let t = (b, pos, i, p, r);
                        assert(d.is_stale(t));
                        let m = d.stale.index_of(t);
                        assert(d.stale_ok(d.stale[m]));
                        assert(d.body_shape(p));
                    }
                    assert(d.known(p, r, w));
                }
                assert(form.merges(d.insns, order, b, r, head[pos as int]));
            }
        }
    }
    assert forall|b: usize| b < n implies if #[trigger] order.contains(b) {
        let (start, end) = (
            blocks(d.insns)[b as int].start.0 as int,
            blocks(d.insns)[b as int].end.0 as int,
        );
        &&& body_ok(d.insns, form.names, b, form.bodies[b as int], start, end)
        &&& walk(d.insns, form.bodies[b as int], start, end).0 == form.bodies[b as int].len()
    } else {
        form.bodies[b as int].len() == 0
    } by {
        assert(d.body_shape(b));
        assert(d.live[b as int] == order.contains(b));
    }
    assert forall|b: usize, r: u8, v: SsaValue| #[trigger] form.names.contains((b, r, v)) implies b < n && r
        < 11 && form.belongs(r, v) && form.may_stand(d.insns, order, b, r, v) by {
        assert(d.backed(b, r, v));
        lemma_at_end(d, order, b);
        if preds(d.insns, b).len() == 1 {
            let p = preds(d.insns, b)[0];
            assert(p < n);
            lemma_at_end(d, order, p);
            assert(d.live[p as int] == order.contains(p));
        }
    }
    assert forall|b: usize, k: int| b < n && 0 <= k < form.regs[b as int].len() implies #[trigger] form.phi_owns(
        b,
        k,
    ) by {
        assert(d.head_shape(b));
        assert(d.phi_ok(b, k));
    }
    assert forall|b: usize, q: int|
        order.contains(b) && b < n && blocks(d.insns)[b as int].start.0 <= q
            < blocks(d.insns)[b as int].end.0 implies #[trigger] form.owns(d.insns, b, q) by {
        assert(d.body_shape(b));
        assert(d.live[b as int] == order.contains(b));
    }
}

/// The instructions of the first blocks are as many as their lists hold.
proof fn lemma_flat_len(form: Form, b: nat)
    ensures
        form.flat(b).len() == total(form.heads, b) + total(form.bodies, b),
    decreases b,
{
    if b > 0 {
        lemma_flat_len(form, (b - 1) as nat);
    }
}

/// The instructions of the first blocks start those of more blocks.
proof fn lemma_flat_prefix(form: Form, a: nat, b: nat)
    requires
        a <= b,
    ensures
        form.flat(a).len() <= form.flat(b).len(),
        forall|i: int| 0 <= i < form.flat(a).len() ==> #[trigger] form.flat(b)[i] == form.flat(a)[i],
    decreases b,
{
    if a < b {
        lemma_flat_prefix(form, a, (b - 1) as nat);
    }
}

/// Where the instructions of a block are.
pub proof fn lemma_flat_at(form: Form, b: int, n: nat)
    requires
        0 <= b < n,
    ensures
        form.flat(b as nat).len() + form.heads[b].len() + form.bodies[b].len() == form.flat(
            (b + 1) as nat,
        ).len(),
        form.flat((b + 1) as nat).len() <= form.flat(n).len(),
        forall|pos: int|
            0 <= pos < form.heads[b].len() ==> form.flat(n)[form.flat(b as nat).len() + pos]
                == #[trigger] form.heads[b][pos],
        forall|pos: int|
            0 <= pos < form.bodies[b].len() ==> form.flat(n)[form.flat(b as nat).len()
                + form.heads[b].len() + pos] == #[trigger] form.bodies[b][pos],
{
    let next = form.flat((b + 1) as nat);
    lemma_flat_prefix(form, (b + 1) as nat, n);
    assert forall|pos: int| 0 <= pos < form.heads[b].len() implies form.flat(n)[form.flat(b as nat).len()
        + pos] == #[trigger] form.heads[b][pos] by {
        assert(next[form.flat(b as nat).len() + pos] == form.heads[b][pos]);
    }
    assert forall|pos: int| 0 <= pos < form.bodies[b].len() implies form.flat(n)[form.flat(b as nat).len()
        + form.heads[b].len() + pos] == #[trigger] form.bodies[b][pos] by {
        assert(next[form.flat(b as nat).len() + form.heads[b].len() + pos] == form.bodies[b][pos]);
    }
}

/// The block and the part that an instruction comes from.
proof fn lemma_flat_from(form: Form, n: nat, i: int) -> (r: (int, bool, int))
    requires
        0 <= i < form.flat(n).len(),
    ensures
        0 <= r.0 < n,
        r.1 ==> 0 <= r.2 < form.heads[r.0].len() && i == form.flat(r.0 as nat).len() + r.2
            && form.flat(n)[i] == form.heads[r.0][r.2],
        !r.1 ==> 0 <= r.2 < form.bodies[r.0].len() && i == form.flat(r.0 as nat).len()
            + form.heads[r.0].len() + r.2 && form.flat(n)[i] == form.bodies[r.0][r.2],
    decreases n,
{
    let before = form.flat((n - 1) as nat);
    if i < before.len() {
        lemma_flat_prefix(form, (n - 1) as nat, n);
        lemma_flat_from(form, (n - 1) as nat, i)
    } else if i < before.len() + form.heads[n - 1].len() {
        (n - 1, true, i - before.len())
    } else {
        (n - 1, false, i - before.len() - form.heads[n - 1].len())
    }
}

/// The index of the instruction that an origin names.
spec fn site_of(form: Form, origin: (usize, bool, usize)) -> int {
    let (b, head, pos) = origin;
    form.flat(b as nat).len() + pos + (if head {
        0
    } else {
        form.heads[b as int].len() as int
    })
}

/// The program of a finished draft.
spec fn assembled(d: Draft, order: Seq<usize>) -> Prog {
    Prog {
        nodes: d.form.nodes(order),
        edges: edges(d.insns),
        insns: d.form.flat(d.n()),
        entry: 0,
        sites: Seq::new(d.next(), |v: int| site_of(d.form, d.origins[v]) as usize),
    }
}

/// The program of a finished draft renders its form.
proof fn lemma_assembled(d: Draft, order: Seq<usize>)
    requires
        finished(d, order),
        cfg_error(d.insns) is None,
        d.insns.len() <= usize::MAX,
    ensures
        assembled(d, order).wf(),
        assembled(d, order).renders(d.insns, order, d.form),
{
    let prog = assembled(d, order);
    let n = d.n();
    let form = d.form;
    lemma_form(d, order);
    lemma_flat_len(form, n);
    let nodes = prog.nodes;
    assert forall|k: int| 0 <= k < n implies {
        &&& (#[trigger] nodes[k]).start == form.flat(k as nat).len()
        &&& nodes[k].end == form.flat((k + 1) as nat).len()
        &&& nodes[k].start <= nodes[k].end
    } by {
        lemma_flat_at(form, k, n);
    }
    assert forall|j: int, k: int| 0 <= j < k < n implies (#[trigger] nodes[j]).end <= (
    #[trigger] nodes[k]).start by {
        lemma_flat_prefix(form, (j + 1) as nat, k as nat);
    }
    assert(tiled(nodes, prog.insns.len())) by {
        assert(nodes[0].start == 0);
        assert(nodes[n - 1].end == form.flat(n).len());
    }
    assert forall|i: int| 0 <= i < prog.edges.len() implies (#[trigger] prog.edges[i]).0 < n && prog.edges[i].1
        < n by {
        let (a, b, kind) = prog.edges[i];
        assert(edges(d.insns).contains((a, b, kind)));
        edges_mirror_control(d.insns, a, b, kind);
    }
    assert forall|i: int| 0 <= i < prog.insns.len() implies (#[trigger] prog.insns[i]).blocks_below(n)
        && uses_below(prog.insns[i], d.next()) && (prog.insns[i].def() matches Some(v) ==> v.0 < d.next()
        && prog.sites[v.0 as int] == i) by {
        let (b, head, pos) = lemma_flat_from(form, n, i);
        lemma_op(d, order, b as usize, head, pos as usize);
        assert(d.head_shape(b as usize));
        assert(d.body_shape(b as usize));
        assert(d.place_ok(b as usize, head, pos as usize));
        lemma_flat_at(form, b, n);
    }
    assert forall|v: int| 0 <= v < prog.sites.len() implies (#[trigger] prog.sites[v]) < prog.insns.len()
        && prog.insns[prog.sites[v] as int].def() == Some(SsaValue(v as u32)) by {
        assert(d.origin_ok(v));
        let (b, head, pos) = d.origins[v];
        lemma_flat_at(form, b as int, n);
        if head {
            assert(form.heads[b as int][pos as int].def() == Some(SsaValue(v as u32)));
        } else {
            assert(form.bodies[b as int][pos as int].def() == Some(SsaValue(v as u32)));
        }
    }
    assert forall|i: int, k: int| 0 <= i < prog.insns.len() && 0 <= k < prog.insns[i].uses().len() implies (
    #[trigger] prog.insns[i].uses()[k]).0 < prog.sites.len() by {
        assert(uses_below(prog.insns[i], d.next()));
    }
}

/// What an instruction of a finished draft names.
proof fn lemma_op(d: Draft, order: Seq<usize>, b: usize, head: bool, pos: usize)
    requires
        finished(d, order),
        b < d.n(),
        pos < d.part(b, head).len(),
    ensures
        d.part(b, head)[pos as int].blocks_below(d.n()),
        uses_below(d.part(b, head)[pos as int], d.next()),
{
    assert(d.body_shape(b));
    assert(d.head_shape(b));
    if head {
        let op = d.form.heads[b as int][pos as int];
        if pos < base(b) {
            assert(op == d.form.heads[0].take(3)[pos as int]);
        } else {
            let m = pos - base(b);
            assert(d.phi_ok(b, m));
            let r = d.form.regs[b as int][m];
            let from = starts(d.insns, b, r);
            if let Op::Phi { dst, inputs } = op {
                assert forall|j: int| 0 <= j < inputs.len() implies ((#[trigger] inputs[j]).0 == START_PRED
                    || inputs[j].0 < d.n()) && inputs[j].1.0 < d.next() by {
                    if j < from.len() {
                        assert(inputs[j] == inputs.take(from.len() as int)[j]);
                    } else {
                        lemma_few_edges(d.insns, leaders(d.insns).len());
                        lemma_few_preds(edges(d.insns), b);
                        assert(d.input_ok(b, pos, j as usize, r, inputs[j as usize as int]));
                        assert(preds(d.insns, b)[j - from.len()] < d.n());
                    }
                }
                assert(op is Phi);
                assert(op->Phi_inputs == inputs);
                assert forall|j: int| 0 <= j < op->Phi_inputs.len() implies (#[trigger] op->Phi_inputs[j]).0
                    == START_PRED || op->Phi_inputs[j].0 < d.n() by {
                    assert(op->Phi_inputs[j] == inputs[j]);
                }
                assert forall|j: int| 0 <= j < op.uses().len() implies (#[trigger] op.uses()[j]).0 < d.next() by {
                    assert(op.uses()[j] == inputs[j].1);
                }
            }
        }
    }
}

impl<'a> Builder<'a> {
    /// The graph of the program: the edges of the control-flow graph, with
    /// empty blocks.
    fn bare_graph(&self) -> (g: DiGraph<SsaBlock, EdgeKind>)
        requires
            self.wf(),
        ensures
            ssa_nodes(g).len() == self.draft().n(),
            ssa_edges(g) == edges(self.insns@),
    {
        let ghost all = edges(self.insns@);
        let n: usize = cfg_node_count(&self.cfg.graph);
        let count: usize = cfg_edge_count(&self.cfg.graph);
        let mut g = ssa_graph(n, count);
        let mut b: usize = 0;
        while b < n
            invariant
                b <= n,
                n < u32::MAX,
                ssa_nodes(g).len() == b,
                ssa_edges(g) == Seq::<Edge>::empty(),
            decreases n - b,
        {
            ssa_add_node(&mut g, SsaBlock { start: 0, end: 0, live: false });
            b = b + 1;
        }
        proof {
            lemma_few_edges(self.insns@, leaders(self.insns@).len());
        }
        let mut e: usize = 0;
        assert(all.take(0) =~= Seq::empty());
        while e < count
            invariant
                self.wf(),
                all == edges(self.insns@),
                e <= count,
                count == all.len(),
                count < u32::MAX,
                n == self.draft().n(),
                ssa_nodes(g).len() == n,
                ssa_edges(g) == all.take(e as int),
            decreases count - e,
        {
            proof {
                let (a, c, kind) = all[e as int];
                assert(all.contains((a, c, kind)));
                edges_mirror_control(self.insns@, a, c, kind);
            }
            if let (Some((a, c)), Some(kind)) = (
                cfg_endpoints(&self.cfg.graph, e),
                cfg_edge_kind(&self.cfg.graph, e),
            ) {
                ssa_add_edge(&mut g, a, c, kind);
            }
            e = e + 1;
            assert(ssa_edges(g) =~= all.take(e as int));
        }
        assert(all.take(count as int) =~= all);
        g
    }

    /// Puts the blocks together.
    fn finish(&mut self) -> (r: SsaProgram)
        requires
            old(self).wf(),
            finished(old(self).draft(), old(self).cfg.order()),
        ensures
            r@ == assembled(old(self).draft(), old(self).cfg.order()),
    {
        let ghost d = self.draft();
        let ghost form = d.form;
        let ghost order = self.cfg.order();
        proof {
            lemma_flat_len(form, d.n());
        }
        let n: usize = cfg_node_count(&self.cfg.graph);
        let mut graph = self.bare_graph();
        let mut insns: Vec<SsaInsn> = Vec::new();
        let mut head_lens: Vec<usize> = Vec::new();
        assert(ops_of(insns@) =~= form.flat(0));
        let mut b: usize = 0;
        while b < n
            invariant
                b <= n,
                n == d.n(),
                finished(d, order),
                form == d.form,
                form.flat(d.n()).len() < u32::MAX,
                self.live@ == d.live,
                self.origins@ == d.origins,
                self.heads@.len() == n,
                self.bodies@.len() == n,
                head_lens@.len() == b,
                forall|k: int| 0 <= k < b ==> #[trigger] head_lens@[k] == form.heads[k].len(),
                forall|k: int| b <= k < n ==> ops_of((#[trigger] self.heads@[k])@) == form.heads[k],
                forall|k: int| b <= k < n ==> ops_of((#[trigger] self.bodies@[k])@) == form.bodies[k],
                ops_of(insns@) == form.flat(b as nat),
                ssa_nodes(graph).len() == n,
                ssa_edges(graph) == edges(d.insns),
                forall|k: int| 0 <= k < b ==> #[trigger] ssa_nodes(graph)[k] == form.nodes(order)[k],
            decreases n - b,
        {
            proof {
                lemma_flat_at(form, b as int, n as nat);
                assert(form.nodes(order)[b as int].start == form.flat(b as nat).len());
                assert(d.live[b as int] == order.contains(b));
                assert(ops_of(self.heads@[b as int]@) == form.heads[b as int]);
                assert(ops_of(self.bodies@[b as int]@) == form.bodies[b as int]);
            }
            let ghost before = insns@;
            let ghost (hs, bs) = (self.heads@, self.bodies@);
            let start: usize = insns.len();
            head_lens.push(self.heads[b].len());
            insns.append(&mut self.heads[b]);
            insns.append(&mut self.bodies[b]);
            proof {
                assert(insns@ =~= before + hs[b as int]@ + bs[b as int]@);
                assert(ops_of(insns@) =~= ops_of(before) + ops_of(hs[b as int]@) + ops_of(
                    bs[b as int]@,
                ));
                assert(form.flat((b + 1) as nat) == form.flat(b as nat) + form.heads[b as int]
                    + form.bodies[b as int]);
                assert(insns@.len() == ops_of(insns@).len());
            }
            ssa_set_block(&mut graph, b, SsaBlock { start, end: insns.len(), live: self.live[b] });
            b = b + 1;
        }
        let mut def_sites: Vec<usize> = Vec::new();
        let mut v: usize = 0;
        while v < self.origins.len()
            invariant
                v <= self.origins@.len(),
                self.origins@ == d.origins,
                n == d.n(),
                finished(d, order),
                form == d.form,
                form.flat(d.n()).len() < u32::MAX,
                head_lens@.len() == n,
                forall|k: int| 0 <= k < n ==> #[trigger] head_lens@[k] == form.heads[k].len(),
                ssa_nodes(graph).len() == n,
                forall|k: int| 0 <= k < n ==> #[trigger] ssa_nodes(graph)[k] == form.nodes(order)[k],
                def_sites@.len() == v,
                forall|w: int|
                    0 <= w < v ==> #[trigger] def_sites@[w] == site_of(form, d.origins[w]) as usize,
            decreases self.origins@.len() - v,
        {
            let (b, head, pos) = self.origins[v];
            proof {
                assert(d.origin_ok(v as int));
                lemma_flat_at(form, b as int, n as nat);
            }
            let start: usize = ssa_block(&graph, b).start;
            if head {
                def_sites.push(start + pos);
            } else {
                def_sites.push(start + head_lens[b] + pos);
            }
            v = v + 1;
        }
        let r = SsaProgram { graph, insns, entry: 0, def_sites };
        proof {
            assert(ssa_nodes(graph) =~= form.nodes(order));
            assert(r@ =~= assembled(d, order));
        }
        r
    }
}

/// The blocks of the order are blocks of the program.
proof fn lemma_order_below(insns: Seq<Insn>, cfg: &Cfg)
    requires
        cfg.describes(insns),
        0 < insns.len() <= usize::MAX,
    ensures
        forall|i: int| 0 <= i < cfg.order().len() ==> #[trigger] cfg.order()[i] < blocks(insns).len(),
{
    blocks_partition_program(insns);
    assert forall|i: int| 0 <= i < cfg.order().len() implies #[trigger] cfg.order()[i] < blocks(insns).len() by {
        let b = cfg.order()[i];
        assert(cfg.order().contains(b));
        if b != 0 {
            lemma_reachable_target(edges(insns), 0, b);
            let e = choose|e: int| 0 <= e < edges(insns).len() && (#[trigger] edges(insns)[e]).1 == b;
            let (a, c, kind) = edges(insns)[e];
            assert(edges(insns).contains((a, c, kind)));
            edges_mirror_control(insns, a, c, kind);
        }
    }
}

/// A predecessor is the source of an edge.
proof fn lemma_source(insns: Seq<Insn>, b: usize, j: int)
    requires
        0 <= j < preds(insns, b).len(),
    ensures
        has_edge(edges(insns), preds(insns, b)[j], b),
{
    let list = edges(insns);
    let p = preds(insns, b)[j];
    lemma_pred_edge(list, b, j);
    let kind = choose|kind: EdgeKind| #[trigger] list.contains((p, b, kind));
    let e = list.index_of((p, b, kind));
    assert(list[e] == (p, b, kind));
}

/// Builds the SSA form of a program over its control-flow graph.
///
/// The result is an SSA program of it: see [`Prog::is_ssa_of`]. It ends as the
/// program does, with the same exit code or the same fault, and with the same
/// memory and maps. Programs are small enough for values to be numbered with
/// 32 bits. A block that is reached over a single edge has phis only where
/// control comes back from it.
pub fn build_ssa(insns: &[Insn], cfg: &Cfg) -> (r: Result<SsaProgram, SsaError>)
    requires
        insns@.len() > 0 ==> cfg.describes(insns@),
        forall|i: int| 0 <= i < insns@.len() ==> (#[trigger] insns@[i]).valid(),
        3 + 11 * blocks(insns@).len() + insns@.len() < u32::MAX,
    ensures
        insns@.len() == 0 ==> r == Err::<SsaProgram, SsaError>(SsaError::EmptyProgram),
        insns@.len() > 0 ==> match unknown_from(insns@, cfg.order(), 0) {
            Some(pc) => r == Err::<SsaProgram, SsaError>(
                SsaError::IllegalInstruction { pc: pc as usize },
            ) && 0 <= pc < insns@.len(),
            None => r matches Ok(p) && p@.wf() && p@.is_ssa_of(insns@, cfg.order()),
        },
        r matches Ok(p) ==> p@.scoped() && lefts_are_values(p@) && p@.weight() + 1 < u64::MAX,
        swaps_by_immediate(insns@) ==> (r matches Ok(p) ==> p@.strict() && p@.ends_as(insns@)),
{
    if insns.len() == 0 {
        return Err(SsaError::EmptyProgram);
    }
    let ghost order = cfg.order();
    let mut builder = Builder::start(insns, cfg);
    proof {
        blocks_partition_program(insns@);
        assert(order.take(0) =~= Seq::empty());
    }
    let rpo = cfg.rpo();
    let mut k: usize = 0;
    while k < rpo.len()
        invariant
            k <= rpo@.len(),
            rpo@ == order,
            order == cfg.order(),
            cfg.describes(insns@),
            insns@.len() > 0,
            forall|i: int| 0 <= i < insns@.len() ==> (#[trigger] insns@[i]).valid(),
            builder.wf(),
            builder.idle(),
            builder.insns == insns,
            builder.cfg == cfg,
            builder.draft().flight == Set::<(usize, usize)>::empty(),
            forall|x: usize|
                x < builder.draft().n() ==> {
                    &&& #[trigger] builder.draft().live[x as int] == order.take(k as int).contains(x)
                    &&& builder.draft().filled[x as int] == builder.draft().live[x as int]
                    &&& builder.draft().sealed[x as int] == builder.draft().live[x as int]
                    &&& builder.draft().live[x as int] ==> builder.draft().incomplete[x as int].len() == 0
                },
            forall|q: int|
                0 <= q < insns@.len() && #[trigger] builder.draft().done[q] ==> order.take(
                    k as int,
                ).contains(block_index(insns@, q)),
            unknown_from(insns@, order, 0) == unknown_from(insns@, order, k as nat),
        decreases rpo@.len() - k,
    {
        let b: usize = rpo[k];
        let ghost d = builder.draft();
        proof {
            assert(order.contains(b)) by {
                assert(order[k as int] == b);
            }
            blocks_partition_program(insns@);
            lemma_order_below(insns@, cfg);
            assert(b < d.n());
            assert(!order.take(k as int).contains(b)) by {
                if order.take(k as int).contains(b) {
                    let i = order.take(k as int).index_of(b);
                    assert(order[i] == order[k as int]);
                }
            }
            assert(d.live[b as int] == order.take(k as int).contains(b));
            assert forall|q: int| d.start(b) <= q < d.end(b) implies !#[trigger] d.done[q] by {
                assert(block_index(insns@, q) == b);
            }
            assert(builder.is_turn(k as int, b)) by {
                assert forall|i: int| 0 <= i < order.len() implies #[trigger] builder.live@[order[i] as int] == (i
                    < k) by {
                    let x = order[i];
                    assert(x < d.n());
                    assert(d.live[x as int] == order.take(k as int).contains(x));
                    if i < k {
                        assert(order.take(k as int)[i] == x);
                    }
                    if order.take(k as int).contains(x) {
                        let m = order.take(k as int).index_of(x);
                        assert(order[m] == order[i]);
                    }
                }
            }
            assert forall|x: int| 0 <= x < d.n() implies #[trigger] builder.sealed@[x] == builder.live@[x]
                && builder.filled@[x] == builder.live@[x] by {
                assert(d.live[(x as usize) as int] == order.take(k as int).contains(x as usize));
            }
        }
        match builder.visit(b) {
            Err(e) => {
                return Err(e);
            },
            Ok(()) => {},
        }
        proof {
            let e = builder.draft();
            let (old_take, take) = (order.take(k as int), order.take(k + 1));
            assert(take =~= old_take.push(b));
            assert forall|x: usize| x < e.n() implies {
                &&& #[trigger] e.live[x as int] == take.contains(x)
                &&& e.filled[x as int] == e.live[x as int]
                &&& e.sealed[x as int] == e.live[x as int]
                &&& e.live[x as int] ==> e.incomplete[x as int].len() == 0
            } by {
                assert(d.live[x as int] == old_take.contains(x));
                if x == b {
                    assert(take[k as int] == b);
                } else {
                    if old_take.contains(x) {
                        let i = old_take.index_of(x);
                        assert(take[i] == x);
                    }
                    if take.contains(x) {
                        let i = take.index_of(x);
                        assert(old_take[i] == x);
                    }
                }
            }
            assert forall|q: int| 0 <= q < insns@.len() && #[trigger] e.done[q] implies take.contains(
                block_index(insns@, q),
            ) by {
                if d.start(b) <= q < d.end(b) {
                    assert(block_index(insns@, q) == b);
                    assert(take[k as int] == b);
                } else {
                    assert(d.done[q]);
                    let i = old_take.index_of(block_index(insns@, q));
                    assert(take[i] == block_index(insns@, q));
                }
            }
        }
        k = k + 1;
    }
    let ghost d = builder.draft();
    builder.repair();
    proof {
        let e = builder.draft();
        assert(order.take(k as int) =~= order);
        assert forall|x: usize| x < e.n() implies {
            &&& #[trigger] e.live[x as int] == order.contains(x)
            &&& e.filled[x as int] == e.live[x as int]
            &&& e.live[x as int] ==> e.incomplete[x as int].len() == 0
        } by {
            assert(d.live[x as int] == order.take(k as int).contains(x));
        }
        assert(order.contains(0)) by {
            assert(order[0] == 0);
        }
        reveal(routed);
        assert(finished(e, order));
        lemma_assembled(e, order);
    }
    let ghost form = builder.draft().form;
    let prog = builder.finish();
    assert(prog@.renders(insns@, order, form));
    proof {
        built_programs_are_scoped(insns@, cfg, prog@);
        if swaps_by_immediate(insns@) {
            built_programs_end_alike(insns@, cfg, prog@);
        }
    }
    Ok(prog)
}

} // verus!
