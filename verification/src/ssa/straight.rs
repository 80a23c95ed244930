//! Programs without jumps: their registers are always sound.
use vstd::prelude::*;

use crate::graph::{has_edge, is_path, on_cycle};
use crate::isa::insn::{Insn, JumpOp, Reg};
use crate::slots::slot_of;
use crate::ssa::emit::{
    cat, insns_of, jump, move_pieces, moves_at_end, moves_pieces, ordered_pieces, tramp_keys, Emitted, Placement, Plan,
    Target,
};
use crate::ssa::homes::{hands_over, homed_values_are_used, homes_are_registers, is_pin, lemma_allocation, some_pin};
use crate::ssa::layout::layout_is_complete;
use crate::ssa::lowerable::{emission_succeeds, lowering_succeeds, registers_run_out_in_a_crowd, tangled};
use crate::ssa::moves::{in_order, is_read, proper, writes, PlacedMove};
use crate::ssa::spans::ranges_cover_uses;
use crate::ssa::tables::{cell, Table};
use crate::ssa::{live_at, Op, Prog, SsaError, SsaOperand, SsaValue};

verus! {

/// Whether an instruction gives an entry pointer.
pub open spec fn is_pointer(op: Op) -> bool {
    op is FramePtr || op is EntryCtx
}

impl Prog {
    /// Whether a program has one block and no phis, and gives each entry
    /// pointer at most once, before any call.
    pub open spec fn straight(self) -> bool {
        &&& self.strict() && self.formed()
        &&& self.nodes.len() == 1 && self.edges.len() == 0
        &&& self.sites.len() <= usize::MAX
        &&& forall|i: int| 0 <= i < self.insns.len() ==> !((#[trigger] self.insns[i]) is Phi)
        &&& forall|i: int, j: int|
            0 <= i < j < self.insns.len() && is_pointer(#[trigger] self.insns[j]) ==> !((#[trigger] self.insns[i]) is Call)
                && !(self.insns[i] is FramePtr && self.insns[j] is FramePtr) && !(self.insns[i] is EntryCtx
                && self.insns[j] is EntryCtx)
    }
}

/// A straight program with registers for its values.
struct Line {
    prog: Prog,
    order: Seq<usize>,
    homes: Seq<Option<Reg>>,
}

impl Line {
    spec fn plan(self) -> Plan {
        self.prog.plan(self.homes)
    }

    spec fn wf(self) -> bool {
        &&& self.prog.straight()
        &&& self.prog.is_order(self.order)
        &&& self.prog.allocation(self.order) == Some(self.homes)
    }

    /// Whether a value is an entry pointer.
    spec fn given(self, v: SsaValue) -> bool {
        self.prog.def_of(v) matches Some(op) && is_pointer(op)
    }

    /// Whether a value is live before an index.
    spec fn covers(self, v: SsaValue, i: int) -> bool {
        &&& v.0 < self.prog.sites.len()
        &&& i < self.prog.range_of(v.0 as int).1
        &&& self.prog.site(v) < i || self.given(v)
    }

    /// Whether a register holds a value that is live before an index.
    spec fn sitting(self, i: int, r: Reg, v: SsaValue) -> bool {
        self.plan().home(v) == Some(r) && self.covers(v, i)
    }

    /// What a register holds before an index.
    spec fn at(self, i: int, r: Reg) -> Option<SsaValue> {
        if exists|v: SsaValue| #[trigger] self.sitting(i, r, v) {
            Some(choose|v: SsaValue| #[trigger] self.sitting(i, r, v))
        } else {
            None
        }
    }

    spec fn table(self) -> Table {
        Seq::new(self.plan().cells() as nat, |c: int| self.at(c / 11, Reg((c % 11) as u8)))
    }
}

proof fn lemma_line(l: Line)
    requires
        l.wf(),
    ensures
        l.prog.reaches(0),
        l.prog.entry == 0,
        l.prog.nodes[0].start == 0,
        l.prog.nodes[0].end == l.prog.insns.len(),
        l.prog.successors(0).len() == 0,
        forall|i: int| 0 <= i < l.prog.insns.len() ==> #[trigger] live_at(l.prog.nodes, i) && l.prog.within(0, i),
        forall|i: int| !#[trigger] l.prog.in_cycle(i),
        forall|b: usize, id: int| !#[trigger] l.prog.crosses(b, id),
{
    let prog = l.prog;
    let p = seq![0usize];
    assert(prog.is_trace(p));
    assert(p.last() == 0);
    assert(prog.reaches(0));
    assert(prog.nodes[0].live);
    assert(crate::graph::out_edges(prog.edges, 0).len() == 0);
    assert forall|i: int| !#[trigger] prog.in_cycle(i) by {
        if prog.in_cycle(i) {
            let k = choose|k: int|
                0 <= k < prog.nodes.len() && (#[trigger] prog.nodes[k]).live && prog.nodes[k].start <= i
                    < prog.nodes[k].end && on_cycle(prog.edges, k as usize);
            let q = choose|q: Seq<usize>| #[trigger]
                is_path(prog.edges, q) && q.len() > 1 && q[0] == k && q.last() == k;
            assert(has_edge(prog.edges, q[0], q[0int + 1]));
        }
    }
}

/// Uses in the list are uses of an instruction.
proof fn lemma_use_site(prog: Prog, j: nat, k: int) -> (r: (int, int))
    requires
        j <= prog.insns.len() < usize::MAX,
        0 <= k < prog.uses_from(j).len(),
        forall|i: int| 0 <= i < prog.insns.len() ==> !((#[trigger] prog.insns[i]) is Phi),
    ensures
        j <= r.0 < prog.insns.len(),
        0 <= r.1 < prog.insns[r.0].uses().len(),
        prog.uses_from(j)[k] == (r.0 as usize, prog.insns[r.0].uses()[r.1]),
    decreases prog.insns.len() - j,
{
    let own = prog.uses_at(j as int);
    let rest = prog.uses_from(j + 1);
    if live_at(prog.nodes, j as int) && k < own.len() {
        (j as int, k)
    } else if live_at(prog.nodes, j as int) {
        assert((own + rest)[k] == rest[k - own.len()]);
        lemma_use_site(prog, j + 1, k - own.len())
    } else {
        lemma_use_site(prog, j + 1, k)
    }
}

proof fn lemma_no_starts(prog: Prog, j: nat)
    requires
        forall|i: int| 0 <= i < prog.insns.len() ==> !((#[trigger] prog.insns[i]) is Phi),
    ensures
        prog.starts_from(j).len() == 0,
    decreases prog.insns.len() - j,
{
    if j < prog.insns.len() {
        lemma_no_starts(prog, j + 1);
    }
}

/// What an instruction uses is defined before it.
proof fn lemma_use_before(l: Line, i: int, k: int)
    requires
        l.wf(),
        0 <= i < l.prog.insns.len(),
        0 <= k < l.prog.insns[i].uses().len(),
    ensures
        l.prog.defined(l.prog.insns[i].uses()[k]),
        0 <= l.prog.site(l.prog.insns[i].uses()[k]) < i,
        i < l.prog.range_of(l.prog.insns[i].uses()[k].0 as int).1,
        l.covers(l.prog.insns[i].uses()[k], i),
{
    let prog = l.prog;
    lemma_line(l);
    let v = prog.insns[i].uses()[k];
    assert(live_at(prog.nodes, i));
    assert(prog.within(0, i));
    assert(prog.uses_ok(0, i));
    assert(prog.in_scope(0, i, v));
    if prog.precedes(0, v) {
        let t = seq![0usize];
        assert(prog.is_trace(t));
        assert(t.last() == 0);
        assert(prog.passes(t, v));
    }
    let u = (i as usize, v);
    assert(prog.uses_at(i)[k] == u);
    crate::ssa::lowerable::lemma_listed(prog, 0, i, u);
    let m = prog.uses_from(0).index_of(u);
    ranges_cover_uses(prog, v.0 as int, m, 0);
}

/// A value with a register is defined, and is read behind its definition
/// unless its instruction must write.
proof fn lemma_homed(l: Line, v: SsaValue)
    requires
        l.wf(),
        l.plan().home(v) is Some,
    ensures
        l.prog.defined(v),
        l.homes.len() == l.prog.sites.len(),
        0 <= l.prog.site(v) < l.prog.insns.len(),
        l.prog.insns[l.prog.site(v)].def() == Some(v),
        (l.plan().home(v)->0).valid(),
        l.prog.must_write(l.prog.site(v), v.0 as int) || l.prog.site(v) + 1 < l.prog.range_of(v.0 as int).1,
        l.given(v) <==> l.prog.pinned_homes()[v.0 as int] is Some,
        !l.given(v) ==> l.order.contains(v.0 as usize),
        l.prog.def_of(v)->0 is FramePtr ==> l.plan().home(v) == Some(Reg(10)),
        l.prog.def_of(v)->0 is EntryCtx ==> l.plan().home(v) == Some(Reg(1)),
{
    let prog = l.prog;
    let id = v.0 as usize;
    lemma_line(l);
    lemma_allocation(prog, l.order, l.homes);
    homed_values_are_used(prog, l.order, l.homes, id);
    homes_are_registers(prog, l.order, l.homes, id as int);
    lemma_no_starts(prog, 0);
    if exists|i: int| 0 <= i < prog.insns.len() && #[trigger] prog.must_write(i, id as int) {
        let i = choose|i: int| 0 <= i < prog.insns.len() && #[trigger] prog.must_write(i, id as int);
        assert(live_at(prog.nodes, i));
        assert(prog.def_ok(i));
        let w = prog.insns[i].def()->0;
        assert(w == v);
    } else {
        let k = choose|k: int| 0 <= k < prog.uses_from(0).len() && (#[trigger] prog.uses_from(0)[k]).1.0 == id;
        let (i, m) = lemma_use_site(prog, 0, k);
        assert(prog.insns[i].uses()[m] == v);
        lemma_use_before(l, i, m);
    }
    if l.given(v) {
        let home = if prog.def_of(v)->0 is FramePtr {
            Reg(10)
        } else {
            Reg(1)
        };
        let pin = (home, prog.range_of(id as int).1, id);
        assert(is_pin(prog, prog.site(v), pin));
        assert(some_pin(prog, pin));
    }
    if prog.pinned_homes()[id as int] is Some {
        let pin = (l.homes[id as int]->0, prog.range_of(id as int).1, id);
        let j = choose|j: int| #[trigger] is_pin(prog, j, pin);
        assert(live_at(prog.nodes, j));
        assert(prog.def_ok(j));
        assert(prog.insns[j].def() == Some(v));
        assert(prog.site(v) == j);
    }
}

/// Of two values in a register the first has ended where the second starts, or
/// is its left operand.
proof fn lemma_apart(l: Line, v: SsaValue, w: SsaValue)
    requires
        l.wf(),
        v != w,
        l.plan().home(v) is Some,
        l.plan().home(v) == l.plan().home(w),
        !l.given(w),
        l.given(v) || l.prog.site(v) < l.prog.site(w),
    ensures
        hands_over(l.prog, v.0 as int, w.0 as int),
{
    let prog = l.prog;
    lemma_homed(l, v);
    lemma_homed(l, w);
    lemma_allocation(prog, l.order, l.homes);
    let j = l.order.index_of(w.0 as usize);
    assert(l.order[j] == w.0);
    if l.given(v) {
        assert(prog.pinned_homes()[v.0 as int] is Some);
    } else {
        let i = l.order.index_of(v.0 as usize);
        assert(l.order[i] == v.0);
        if j < i {
            assert(prog.comes_before(l.order[j], l.order[i]));
        }
        assert(i < j);
    }
}

/// A register holds one value at a time.
proof fn lemma_alone(l: Line, i: int, r: Reg, v: SsaValue)
    requires
        l.wf(),
        l.sitting(i, r, v),
    ensures
        l.at(i, r) == Some(v),
{
    let w = choose|w: SsaValue| #[trigger] l.sitting(i, r, w);
    assert(l.sitting(i, r, w));
    lemma_homed(l, v);
    lemma_homed(l, w);
    if v != w {
        let (a, b) = (l.prog.site(v), l.prog.site(w));
        assert(a != b);
        if l.given(v) && l.given(w) {
            if a < b {
                assert(!(l.prog.insns[a] is FramePtr && l.prog.insns[b] is FramePtr) && !(l.prog.insns[a] is EntryCtx
                    && l.prog.insns[b] is EntryCtx));
            } else {
                assert(!(l.prog.insns[b] is FramePtr && l.prog.insns[a] is FramePtr) && !(l.prog.insns[b] is EntryCtx
                    && l.prog.insns[a] is EntryCtx));
            }
            assert(false);
        } else if !l.given(w) && (l.given(v) || a < b) {
            lemma_apart(l, v, w);
        } else {
            lemma_apart(l, w, v);
        }
    }
}

proof fn lemma_cell(l: Line, i: int, r: Reg)
    requires
        l.wf(),
        0 <= i <= l.prog.insns.len(),
        r.0 < 11,
    ensures
        cell(0, i, r) == i * 11 + r.0,
        0 <= cell(0, i, r) < l.table().len(),
        l.table()[cell(0, i, r)] == l.at(i, r),
{
    let c = i * 11 + r.0;
    assert(c / 11 == i && c % 11 == r.0 as int);
    assert(Reg((c % 11) as u8) == r);
}

/// What a register holds behind an instruction is not overwritten by it.
proof fn lemma_open(l: Line, i: int, r: Reg, d: SsaValue, v: SsaValue)
    requires
        l.wf(),
        0 <= i < l.prog.insns.len(),
        l.plan().home(d) == Some(r),
        l.prog.insns[i].def() == Some(d),
        !is_pointer(l.prog.insns[i]),
        l.plan().home(v) == Some(r),
        i + 1 < l.prog.range_of(v.0 as int).1,
        l.prog.site(v) <= i || l.given(v),
    ensures
        v == d,
{
    lemma_homed(l, d);
    lemma_homed(l, v);
    lemma_line(l);
    assert(live_at(l.prog.nodes, i));
    assert(l.prog.def_ok(i));
    assert(l.prog.site(d) == i);
    if v != d {
        lemma_apart(l, v, d);
    }
}

proof fn lemma_saved(l: Line, moves: Seq<PlacedMove>, pos: int, n: nat)
    requires
        n <= moves.len(),
    ensures
        l.plan().saves(moves, pos, n) matches Some(saves) ==> forall|k: int|
            0 <= k < saves.len() ==> {
                let s = #[trigger] saves[k];
                &&& l.plan().crosses(s.0, pos)
                &&& !l.plan().holds(s.1, pos)
                &&& !writes(moves, s.1)
            },
    decreases n,
{
    if n > 0 {
        lemma_saved(l, moves, pos, (n - 1) as nat);
        if let Some(rest) = l.plan().saves(moves, pos, (n - 1) as nat) {
            if l.plan().crosses(moves[n - 1].dst, pos) {
                if let Some(temp) = l.plan().first_temp(moves, rest, pos, 0) {
                    lemma_temp(l, moves, rest, pos, 0);
                }
            }
        }
    }
}

proof fn lemma_temp(l: Line, moves: Seq<PlacedMove>, saves: Seq<(Reg, Reg)>, pos: int, i: nat)
    ensures
        l.plan().first_temp(moves, saves, pos, i) matches Some(temp) ==> l.plan().can_save(moves, saves, pos, temp),
    decreases 10 - i,
{
    if i < 10 {
        lemma_temp(l, moves, saves, pos, i + 1);
    }
}

proof fn lemma_call(l: Line, i: int)
    requires
        l.wf(),
        0 <= i < l.prog.insns.len(),
        l.prog.insns[i] is Call,
    ensures
        l.plan().clear_insn(l.table(), 0, i),
{
    let plan = l.plan();
    let prog = l.prog;
    let op = prog.insns[i];
    let t = l.table();
    lemma_line(l);
    lemma_allocation(prog, l.order, l.homes);
    assert(live_at(prog.nodes, i) && prog.within(0, i));
    assert(prog.has_form(i));
    if let Op::Call { dst: d, args, .. } = op {
        assert forall|j: int| 0 <= j < 5 implies plan.home(#[trigger] args[j]) is Some by {
            assert(op.uses()[j] == args[j]);
            crate::ssa::lowerable::lemma_homes(prog, l.order, l.homes, 0, i, j);
        }
        let moves = plan.shuffle(args, 5);
        lemma_saved(l, moves, i, moves.len());
        if let Some(saves) = plan.saves(moves, i, moves.len()) {
            assert forall|k: int| 0 <= k < saves.len() implies plan.save_ok(args, d, #[trigger] saves[k]) by {
                let s = saves[k];
                assert(plan.crosses(s.0, i) && !plan.holds(s.1, i) && !writes(moves, s.1));
                assert forall|j: int| 0 <= j < 5 implies plan.home(#[trigger] args[j]) != Some(s.1) by {
                    assert(op.uses()[j] == args[j]);
                    lemma_use_before(l, i, j);
                    if plan.home(args[j]) == Some(s.1) {
                        assert(plan.homes[args[j].0 as int] == Some(s.1));
                        assert(plan.holds(s.1, i));
                    }
                }
                if plan.home(d) is Some {
                    lemma_homed(l, d);
                    assert(live_at(prog.nodes, i));
                    assert(prog.def_ok(i));
                    assert(prog.site(d) == i);
                    if plan.home(d) == Some(s.1) {
                        assert(plan.homes[d.0 as int] == Some(s.1));
                        assert(plan.holds(s.1, i));
                    }
                    if plan.home(d) == Some(s.0) {
                        let id = choose|id: int|
                            0 <= id < plan.homes.len() && id < prog.sites.len() && (#[trigger] plan.homes[id]) == Some(
                                s.0,
                            ) && prog.range_of(id).0 < i < prog.range_of(id).1;
                        homed_values_are_used(prog, l.order, l.homes, id as usize);
                        crate::ssa::homes::lemma_used_small(prog, id);
                        let v = SsaValue(id as u32);
                        lemma_apart(l, v, d);
                    }
                }
            }
            assert forall|r: Reg| r.0 < 11 implies ((#[trigger] t[cell(0, i + 1, r)]) matches Some(v) ==> v == d
                || plan.survives(i, args, d, saves, r)) by {
                lemma_cell(l, i + 1, r);
                if let Some(v) = t[cell(0, i + 1, r)] {
                    assert(l.sitting(i + 1, r, v));
                    lemma_homed(l, v);
                    if v != d {
                        assert(live_at(prog.nodes, i));
                        assert(prog.def_ok(i));
                        assert(prog.site(v) != i);
                        if l.given(v) && prog.site(v) > i {
                            assert(!(prog.insns[i] is Call));
                        }
                        assert(prog.site(v) < i);
                        assert(plan.homes[v.0 as int] == Some(r));
                        assert(plan.holds(r, i));
                        assert(plan.crosses(r, i));
                        if r == Reg(0) {
                            assert(!l.given(v));
                            let j = l.order.index_of(v.0 as usize);
                            assert(l.order[j] == v.0);
                            assert(prog.r0_free(prog.range_of(v.0 as int).0, prog.range_of(v.0 as int).1));
                            assert(prog.insns[i] is Call);
                        }
                        if plan.home(d) == Some(r) {
                            lemma_open(l, i, r, d, v);
                        }
                    }
                }
            }
        }
        assert(plan.clear_call(t, 0, i, d, args));
    }
}

proof fn lemma_clear(l: Line, i: int)
    requires
        l.wf(),
        0 <= i < l.prog.insns.len(),
    ensures
        l.plan().clear_insn(l.table(), 0, i),
{
    let plan = l.plan();
    let prog = l.prog;
    let op = prog.insns[i];
    let t = l.table();
    lemma_line(l);
    assert(live_at(prog.nodes, i));
    assert(prog.within(0, i));
    assert(prog.swap_ok(i));
    if op is Call {
        lemma_call(l, i);
    } else {
        if let Some(d) = op.def() {
            if let Some(r) = plan.home(d) {
                lemma_homed(l, d);
                lemma_cell(l, i + 1, r);
                if !is_pointer(op) {
                    if let Some(v) = t[cell(0, i + 1, r)] {
                        assert(l.sitting(i + 1, r, v));
                        lemma_open(l, i, r, d, v);
                    }
                }
                if let Op::BinOp { op: alu, lhs, rhs: SsaOperand::Value(u), .. } = op {
                    assert(op.uses()[op.uses().len() - 1] == u);
                    lemma_use_before(l, i, op.uses().len() - 1);
                    if plan.home(u) == Some(r) {
                        assert(prog.def_ok(i));
                        lemma_apart(l, u, d);
                        assert(SsaValue(d.0) == d);
                    }
                }
            } else if let Op::BinOp { dst, op: alu, lhs, rhs, .. } = op {
                if alu is End {
                    assert(prog.def_ok(i));
                    if crate::ssa::homes::may_trap(prog, op) {
                        assert(prog.must_write(i, d.0 as int));
                        assert(prog.is_used(d.0 as int));
                        crate::ssa::homes::used_values_are_homed(prog, l.order, l.homes, d.0 as usize);
                    }
                }
            }
        }
    }
}

proof fn lemma_rules(l: Line, i: int)
    requires
        l.wf(),
        0 <= i < l.prog.insns.len(),
    ensures
        l.plan().rule_insn(l.table(), 0, i),
{
    let plan = l.plan();
    let prog = l.prog;
    let op = prog.insns[i];
    let t = l.table();
    lemma_line(l);
    assert forall|k: int| 0 <= k < op.uses().len() implies plan.sits(t, 0, i, #[trigger] op.uses()[k]) by {
        let v = op.uses()[k];
        lemma_use_before(l, i, k);
        if let Some(r) = plan.home(v) {
            lemma_homed(l, v);
            lemma_cell(l, i, r);
            lemma_alone(l, i, r, v);
        }
    }
    assert forall|r: Reg| r.0 < 11 implies #[trigger] plan.rule_back(t, 0, i, r) by {
        lemma_cell(l, i, r);
        lemma_cell(l, i + 1, r);
        if let Some(v) = t[cell(0, i + 1, r)] {
            assert(l.sitting(i + 1, r, v));
            lemma_homed(l, v);
            if prog.site(v) < i || l.given(v) {
                lemma_alone(l, i, r, v);
            } else {
                assert(prog.site(v) == i);
            }
        }
    }
}

proof fn lemma_no_phis(plan: Plan, b: usize, i: int, end: int)
    requires
        0 <= i,
        end <= plan.prog.insns.len(),
        forall|k: int| 0 <= k < plan.prog.insns.len() ==> !((#[trigger] plan.prog.insns[k]) is Phi),
    ensures
        plan.phi_placements(b, i, end) == Ok::<Seq<Placement>, SsaError>(Seq::empty()),
    decreases end - i,
{
    if i < end {
        lemma_no_phis(plan, b, i + 1, end);
    }
}

/// In a program without jumps the registers that are handed out are sound,
/// whatever its instructions are.
pub proof fn straight_programs_are_sound(prog: Prog, order: Seq<usize>, homes: Seq<Option<Reg>>)
    requires
        prog.straight(),
        prog.is_order(order),
        prog.allocation(order) == Some(homes),
        (prog.insns.len() + 1) * 11 <= usize::MAX,
    ensures
        prog.plan(homes).placements(0) == Ok::<Seq<Placement>, SsaError>(Seq::empty()),
        prog.plan(homes).sound(),
{
    let l = Line { prog, order, homes };
    let plan = l.plan();
    let t = l.table();
    let none = Seq::<Placement>::empty();
    lemma_line(l);
    lemma_allocation(prog, order, homes);
    lemma_no_phis(plan, 0, 0, prog.insns.len() as int);
    assert(plan.placements(1) == Ok::<Seq<Placement>, SsaError>(none));
    assert(plan.live[0]);
    assert(none + none =~= none);
    assert(plan.placements(0) == Ok::<Seq<Placement>, SsaError>(none));
    assert(plan.homed(t)) by {
        assert forall|b: usize, i: int, r: Reg| r.0 < 11 && 0 <= cell(b, i, r) < t.len() implies ((#[trigger] t[cell(
            b,
            i,
            r,
        )]) matches Some(v) ==> plan.home(v) == Some(r)) by {
            let c = cell(b, i, r);
            assert(c % 11 == r.0 as int);
            if let Some(v) = t[c] {
                assert(l.sitting(c / 11, r, v));
            }
        }
    }
    assert(plan.rules(t)) by {
        assert forall|b: usize, i: int| #[trigger] prog.within(b, i) && prog.reaches(b) implies plan.rule_insn(
            t,
            b,
            i,
        ) by {
            lemma_rules(l, i);
        }
        assert forall|p: usize, b: usize| prog.reaches(p) && #[trigger] prog.successors(p).contains(b) implies plan.rule_edge(
            t,
            p,
            b,
        ) by {
            lemma_reached_zero(l, p);
        }
    }
    assert(plan.entry_homes()) by {
        assert forall|v: SsaValue| prog.defined(v) implies (#[trigger] plan.home(v) matches Some(r) ==> {
            &&& r == Reg(10) <==> prog.def_of(v)->0 is FramePtr
            &&& prog.def_of(v)->0 is EntryCtx ==> r == Reg(1)
        }) by {
            if plan.home(v) is Some {
                lemma_homed(l, v);
                if !l.given(v) {
                    let j = order.index_of(v.0 as usize);
                    assert(order[j] == v.0);
                }
            }
        }
    }
    assert(plan.clear_start(t)) by {
        assert forall|r: Reg| r.0 < 11 implies ((#[trigger] t[cell(0, 0, r)]) matches Some(v) ==> plan.starts_with(
            v,
            r,
        )) by {
            lemma_cell(l, 0, r);
            if let Some(v) = t[cell(0, 0, r)] {
                assert(l.sitting(0, r, v));
                lemma_homed(l, v);
            }
        }
    }
    assert(moves_at_end(plan, none, 0).len() == 0);
    assert forall|p: usize| #[trigger] prog.reaches(p) implies plan.clear_block(none, t, p) by {
        lemma_reached_zero(l, p);
        assert forall|i: int| #[trigger] prog.within(p, i) implies plan.clear_insn(t, p, i) by {
            lemma_clear(l, i);
        }
    }
    assert(plan.settles(none, t)) by {
        reveal(Plan::settles);
    }
}

/// Whether no piece is a jump.
spec fn jumpless(r: Emitted) -> bool {
    r matches Ok(pieces) ==> forall|i: int| 0 <= i < pieces.len() ==> (#[trigger] pieces[i]).target is None
}

proof fn lemma_moves_jumpless(moves: Seq<PlacedMove>, n: nat)
    requires
        n <= moves.len(),
    ensures
        forall|i: int| 0 <= i < moves_pieces(moves, n).len() ==> (#[trigger] moves_pieces(moves, n)[i]).target is None,
    decreases n,
{
    if n > 0 {
        lemma_moves_jumpless(moves, (n - 1) as nat);
        let (a, b) = (moves_pieces(moves, (n - 1) as nat), move_pieces(moves[n - 1]));
        assert forall|i: int| 0 <= i < moves_pieces(moves, n).len() implies (#[trigger] moves_pieces(moves, n)[i]).target
            is None by {
            if i < a.len() {
                assert(moves_pieces(moves, n)[i] == a[i]);
            } else {
                assert(moves_pieces(moves, n)[i] == b[i - a.len()]);
            }
        }
    }
}

proof fn lemma_op_jumpless(plan: Plan, i: int)
    ensures
        jumpless(plan.op_pieces(i)),
{
    if let Op::Call { dst, func, args } = plan.prog.insns[i] {
        let moves = plan.shuffle(args, 5);
        if let Some(list) = in_order(proper(moves)) {
            lemma_moves_jumpless(list, list.len());
        }
    }
}

proof fn lemma_body_jumpless(plan: Plan, i: int, end: int)
    ensures
        jumpless(plan.body_pieces(i, end)),
    decreases end - i,
{
    if i < end && !plan.prog.insns[i].is_control() {
        lemma_op_jumpless(plan, i);
        lemma_body_jumpless(plan, i + 1, end);
    }
}

/// The only jump that a program without jumps may end with leads behind it.
proof fn lemma_not_far(l: Line, i: int)
    requires
        l.wf(),
    ensures
        !l.plan().too_far(i),
{
    let plan = l.plan();
    let prog = l.prog;
    let none = Seq::<Placement>::empty();
    lemma_line(l);
    lemma_no_phis(plan, 0, 0, prog.insns.len() as int);
    assert(plan.placements(1) == Ok::<Seq<Placement>, SsaError>(none));
    assert(plan.live[0]);
    assert(none + none =~= none);
    assert(plan.placements(0) == Ok::<Seq<Placement>, SsaError>(none));
    layout_is_complete(prog, plan.live);
    assert(plan.order.len() == 1) by {
        if plan.order.len() > 1 {
            assert(plan.order.contains(plan.order[1]));
            assert(plan.order[1] == plan.order[0]);
        }
    }
    assert(tramp_keys(plan, none).len() == 0);
    let body = plan.body_pieces(0, prog.insns.len() as int);
    lemma_body_jumpless(plan, 0, prog.insns.len() as int);
    let moves = moves_at_end(plan, none, 0);
    assert(moves.len() == 0);
    assert(proper(moves).len() == 0);
    assert(prog.wired(0));
    let end = plan.control_pieces(none, 0);
    lemma_end(l);
    reveal_with_fuel(Plan::blocks_pieces, 2);
    assert(plan.all_pieces(none) == plan.blocks_pieces(none, 1));
    assert(plan.all_pieces(none) == cat(Ok(Seq::empty()), plan.block_pieces(none, 0)));
    if plan.too_far(i) {
        let pieces = plan.all_pieces(none)->Ok_0;
        if let Ok(front) = ordered_pieces(moves, SsaError::PhiCycle) {
            if let Ok(a) = body {
                if let Ok(z) = end {
                    assert(in_order(proper(moves)) matches Some(list) && list.len() == 0);
                    assert(front.len() == 0);
                    assert(pieces =~= a + z);
                    if i < a.len() {
                        assert(pieces[i] == a[i]);
                    }
                    let k = i - a.len();
                    assert(pieces[i] == z[k]);
                    assert(z.len() == 1 && k == 0 && z[0] == jump(Target::FallOff));
                    let insns = insns_of(pieces);
                    assert(insns[i] == z[0].insn);
                    assert(plan.place(none, Target::FallOff) == pieces.len());
                    assert(slot_of(insns, (i + 1) as nat) == slot_of(insns, i as nat) + 1);
                }
            }
        }
    }
}

/// Control leaves a program without jumps at its end.
proof fn lemma_end(l: Line)
    requires
        l.wf(),
        l.prog.wired(0),
        l.plan().order.len() == 1,
        l.plan().order[0] == 0,
    ensures
        ({
            let end = l.plan().control_pieces(Seq::empty(), 0);
            ||| jumpless(end)
            ||| end == Emitted::Ok(seq![jump(Target::FallOff)])
        }),
{
    lemma_line(l);
    let plan = l.plan();
    let none = Seq::<Placement>::empty();
    assert(tramp_keys(plan, none).len() == 0);
    match l.prog.terminator(0) {
        Some(Op::Ja { target }) => {
            assert(l.prog.successors(0).contains(target));
        },
        Some(Op::Br { op, true_target, false_target, .. }) => {
            if let Some(t) = false_target {
                assert(l.prog.successors(0).contains(t));
            }
            if op != JumpOp::Call && op != JumpOp::Exit {
                assert(l.prog.successors(0).contains(true_target->0));
            }
        },
        _ => {},
    }
}

proof fn lemma_fit(l: Line)
    requires
        l.wf(),
        l.plan().placements(0) == Ok::<Seq<Placement>, SsaError>(Seq::empty()),
    ensures
        l.plan().phis_fit(),
{
    let prog = l.prog;
    let plan = l.plan();
    let none = Seq::<Placement>::empty();
    lemma_line(l);
    assert(plan.phis_fit()) by {
        assert(tramp_keys(plan, none).len() == 0);
        assert forall|b: usize| #[trigger] prog.reaches(b) implies !tangled(moves_at_end(plan, none, b)) by {
            let moves = moves_at_end(plan, none, b);
            assert(moves.len() == 0);
            if tangled(moves) {
                let knot = choose|knot: Seq<PlacedMove>|
                    #![trigger knot.len()]
                    knot.len() > 0 && forall|i: int|
                        0 <= i < knot.len() ==> moves.contains(#[trigger] knot[i]) && !knot[i].is_idle() && is_read(
                            knot,
                            knot[i].dst,
                        );
                assert(moves.contains(knot[0]));
            }
        }
        assert forall|b: usize, i: int| #[trigger] prog.within(b, i) && prog.reaches(b) implies plan.starts_in_place(
            i,
        ) by {
            lemma_reached_zero(l, b);
            assert(!(prog.insns[i] is Phi));
        }
    }
}

/// A program without jumps lowers where its values have registers and its
/// calls can be made, whatever its instructions are.
pub proof fn straight_programs_lower(prog: Prog, order: Seq<usize>, homes: Seq<Option<Reg>>)
    requires
        prog.straight(),
        prog.is_order(order),
        prog.allocation(order) == Some(homes),
        (prog.insns.len() + 1) * 11 <= usize::MAX,
        prog.plan(homes).calls_fit(),
    ensures
        exists|code: Seq<Insn>| #[trigger] prog.lowers_to(Ok(code)),
{
    let l = Line { prog, order, homes };
    let plan = l.plan();
    straight_programs_are_sound(prog, order, homes);
    assert forall|i: int| !#[trigger] plan.too_far(i) by {
        lemma_not_far(l, i);
    }
    lemma_fit(l);
    lowering_succeeds(prog, order, homes);
}

/// A program without jumps is refused only where more values are live than
/// there are registers, or a call cannot be made.
pub proof fn straight_programs_are_refused_for_a_reason(prog: Prog, e: SsaError)
    requires
        prog.straight(),
        (prog.insns.len() + 1) * 11 <= usize::MAX,
        prog.lowers_to(Err(e)),
    ensures
        e == SsaError::OutOfRegisters && prog.crowded() || e == SsaError::CallArgCycle && exists|order: Seq<usize>| #[trigger]
            prog.is_order(order) && prog.allocation(order) is Some && !prog.plan(
                prog.allocation(order)->0,
            ).calls_fit(),
{
    let order = choose|order: Seq<usize>|
        #![trigger prog.is_order(order)]
        prog.is_order(order) && Err::<Seq<Insn>, SsaError>(e) == (match prog.allocation(order) {
            None => Err(SsaError::OutOfRegisters),
            Some(homes) => prog.plan(homes).approved(),
        });
    match prog.allocation(order) {
        None => {
            registers_run_out_in_a_crowd(prog, order);
        },
        Some(homes) => {
            let l = Line { prog, order, homes };
            let plan = l.plan();
            straight_programs_are_sound(prog, order, homes);
            emission_succeeds(prog, order, homes);
            assert forall|i: int| !#[trigger] plan.too_far(i) by {
                lemma_not_far(l, i);
            }
            lemma_fit(l);
        },
    }
}

proof fn lemma_reached_zero(l: Line, p: usize)
    requires
        l.wf(),
        l.prog.reaches(p),
    ensures
        p == 0,
{
    lemma_line(l);
    let q = choose|q: Seq<usize>| #[trigger] l.prog.is_trace(q) && q.last() == p;
    if q.len() > 1 {
        assert(l.prog.successors(q[0]).contains(q[0int + 1]));
    }
}

} // verus!
