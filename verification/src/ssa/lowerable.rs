//! Which programs lowering takes, and why it refuses the others.
//!
//! Whatever the operations of a program compute, it is refused only where
//! more values are live than there are registers, where moves form a cycle,
//! where a call has no room to save a value, where a jump is too far, or
//! where no table shows that the registers are sound.
use vstd::prelude::*;

use crate::isa::insn::{AluOp, Insn, JumpOp, Reg};
use crate::ssa::emit::{cat, moves_at_end, tramp_keys, tramp_moves, Placement, Plan};
use crate::ssa::homes::{still_taken, used_values_are_homed, Taken};
use crate::ssa::layout::layout_is_complete;
use crate::ssa::moves::{in_order, is_read, proper, refused_moves_form_a_cycle, writes, PlacedMove};
use crate::ssa::{live_at, Op, Prog, SsaError, SsaOperand, SsaValue, START_PRED};

verus! {

/// Whether some of the moves form a cycle: each writes what another one
/// reads.
pub open spec fn tangled(moves: Seq<PlacedMove>) -> bool {
    exists|knot: Seq<PlacedMove>|
        #![trigger knot.len()]
        {
            &&& knot.len() > 0
            &&& forall|i: int|
                0 <= i < knot.len() ==> moves.contains(#[trigger] knot[i]) && !knot[i].is_idle() && is_read(
                    knot,
                    knot[i].dst,
                )
        }
}

impl Prog {
    /// Whether an instruction has a form that the machine has: an operation
    /// other than a move and a comparison have a value on the left, a load
    /// has a destination, and a call has five arguments.
    pub open spec fn has_form(self, i: int) -> bool {
        match self.insns[i] {
            Op::BinOp { op, lhs, .. } => op == AluOp::Mov || lhs is Value,
            Op::Br { op, lhs, .. } => op == JumpOp::Call || op == JumpOp::Exit || lhs is Value,
            Op::Load { dst, .. } => dst is Some,
            Op::Call { args, .. } => args.len() == 5,
            _ => true,
        }
    }

    /// Whether every instruction that control reaches has a form that the
    /// machine has.
    pub open spec fn formed(self) -> bool {
        forall|b: usize, i: int| #[trigger] self.within(b, i) && self.reaches(b) ==> self.has_form(i)
    }

    /// Whether a call stands inside the range of a value.
    pub open spec fn spans_call(self, id: int) -> bool {
        exists|i: int|
            self.range_of(id).0 < i < self.range_of(id).1 && 0 <= i < self.insns.len() && live_at(
                self.nodes,
                i,
            ) && (#[trigger] self.insns[i]) is Call
    }

    /// Whether other values are live where a value starts, too many for it to
    /// get one of the nine registers that are handed out. A value whose range
    /// spans a call cannot have `r0`, so that it has eight to choose from.
    pub open spec fn crowds(self, id: usize, others: Seq<usize>) -> bool {
        &&& id < self.sites.len() && self.is_used(id as int)
        &&& others.no_duplicates() && !others.contains(id)
        &&& forall|j: int|
            0 <= j < others.len() ==> (#[trigger] others[j]) < self.sites.len() && self.is_used(others[j] as int)
                && self.range_of(others[j] as int).0 <= self.range_of(id as int).0 < self.range_of(
                others[j] as int,
            ).1
        &&& others.len() >= 9 || (others.len() >= 8 && self.spans_call(id as int))
    }

    /// Whether more values are live somewhere than there are registers.
    pub open spec fn crowded(self) -> bool {
        exists|id: usize, others: Seq<usize>| #[trigger] self.crowds(id, others)
    }
}

proof fn lemma_taken_before(active: Seq<Taken>, start: usize, m: int)
    requires
        0 <= m < still_taken(active, start).len(),
    ensures
        active.contains(still_taken(active, start)[m]),
        still_taken(active, start)[m].1 > start,
    decreases active.len(),
{
    let rest = still_taken(active.drop_last(), start);
    if m < rest.len() {
        lemma_taken_before(active.drop_last(), start, m);
        let k = active.drop_last().index_of(rest[m]);
        assert(active[k] == rest[m]);
    } else {
        assert(active.last() == still_taken(active, start)[m]);
    }
}

/// Whether what holds the registers that are handed out is what has them as
/// homes, and started by a position.
spec fn booked(prog: Prog, homes: Seq<Option<Reg>>, active: Seq<Taken>, at: int) -> bool {
    forall|m: int|
        0 <= m < active.len() && (#[trigger] active[m]).0 != Reg(1) && active[m].0 != Reg(10) ==> {
            let id = active[m].2 as int;
            &&& id < prog.sites.len() && prog.is_used(id) && homes[id] == Some(active[m].0)
            &&& prog.range_of(id).0 <= at && active[m].1 == prog.range_of(id).1
        }
}

/// What holds a register.
spec fn holder(active: Seq<Taken>, r: Reg) -> int {
    choose|m: int| 0 <= m < active.len() && (#[trigger] active[m]).0 == r
}

proof fn lemma_pool_full(prog: Prog, active: Seq<Taken>, id: int, k: nat, j: nat)
    requires
        prog.pool_home(active, id, k) is None,
        k <= j < 9,
    ensures
        !prog.may_take(active, id, crate::ssa::homes::pool(j as int)),
    decreases j - k,
{
    if k < j {
        lemma_pool_full(prog, active, id, k + 1, j);
    }
}

proof fn lemma_crowd(prog: Prog, homes: Seq<Option<Reg>>, active: Seq<Taken>, id: usize)
    requires
        id < prog.sites.len(),
        prog.is_used(id as int),
        homes.len() == prog.sites.len(),
        homes[id as int] is None,
        booked(prog, homes, active, prog.range_of(id as int).0 as int),
        forall|m: int| 0 <= m < active.len() ==> (#[trigger] active[m]).1 > prog.range_of(id as int).0,
        prog.pool_home(active, id as int, 0) is None,
    ensures
        prog.crowded(),
{
    let start = prog.range_of(id as int).0;
    let all = !(prog.r0_free(start, prog.range_of(id as int).1));
    let n: nat = if all {
        8
    } else {
        9
    };
    let others = Seq::new(
        n,
        |j: int|
            active[holder(
                active,
                Reg(
                    if j < 8 {
                        (j + 2) as u8
                    } else {
                        0
                    },
                ),
            )].2,
    );
    assert forall|j: int| 0 <= j < n implies ({
        let r = Reg(
            if j < 8 {
                (j + 2) as u8
            } else {
                0
            },
        );
        &&& 0 <= holder(active, r) < active.len()
        &&& active[holder(active, r)].0 == r
        &&& (#[trigger] others[j]) == active[holder(active, r)].2
        &&& homes[others[j] as int] == Some(r)
        &&& others[j] < prog.sites.len() && prog.is_used(others[j] as int)
        &&& prog.range_of(others[j] as int).0 <= start < prog.range_of(others[j] as int).1
    }) by {
        let r = Reg(
            if j < 8 {
                (j + 2) as u8
            } else {
                0
            },
        );
        let at: nat = if j < 8 {
            (j + 1) as nat
        } else {
            0
        };
        lemma_pool_full(prog, active, id as int, 0, at);
        assert(crate::ssa::homes::pool(at as int) == r);
        assert(!crate::ssa::homes::is_free(active, r));
        let m = holder(active, r);
        assert(active[m].0 == r);
    }
    assert(others.no_duplicates()) by {
        assert forall|i: int, j: int| 0 <= i < others.len() && 0 <= j < others.len() && i != j implies others[i]
            != others[j] by {
            assert(homes[others[i] as int] != homes[others[j] as int]);
        }
    }
    assert(!others.contains(id)) by {
        if others.contains(id) {
            let j = others.index_of(id);
            assert(homes[others[j] as int] is Some);
        }
    }
    if all {
        let i = choose|i: int|
            start < i < prog.range_of(id as int).1 && 0 <= i < prog.insns.len() && live_at(prog.nodes, i) && (
            #[trigger] prog.insns[i]) is Call;
        assert(prog.insns[i] is Call);
        assert(prog.spans_call(id as int));
    }
    assert(prog.crowds(id, others));
}

proof fn lemma_no_room(prog: Prog, order: Seq<usize>, k: nat, homes: Seq<Option<Reg>>, active: Seq<Taken>, at: int)
    requires
        prog.is_order(order),
        homes.len() == prog.sites.len(),
        prog.sites.len() <= usize::MAX,
        booked(prog, homes, active, at),
        k < order.len() ==> at <= prog.range_of(order[k as int] as int).0,
        forall|j: int| k <= j < order.len() ==> homes[(#[trigger] order[j]) as int] is None,
        prog.place_from(order, k, homes, active) is None,
    ensures
        prog.crowded(),
    decreases order.len() - k,
{
    let id = order[k as int] as int;
    let (start, end) = prog.range_of(id);
    let taken = still_taken(active, start);
    assert(booked(prog, homes, taken, start as int)) by {
        assert forall|m: int|
            0 <= m < taken.len() && (#[trigger] taken[m]).0 != Reg(1) && taken[m].0 != Reg(10) implies {
            let v = taken[m].2 as int;
            &&& v < prog.sites.len() && prog.is_used(v) && homes[v] == Some(taken[m].0)
            &&& prog.range_of(v).0 <= start && taken[m].1 == prog.range_of(v).1
        } by {
            lemma_taken_before(active, start, m);
            let j = active.index_of(taken[m]);
            assert(active[j] == taken[m]);
        }
    }
    match prog.choose_home(homes, taken, id) {
        None => {
            assert forall|m: int| 0 <= m < taken.len() implies (#[trigger] taken[m]).1 > start by {
                lemma_taken_before(active, start, m);
            }
            lemma_crowd(prog, homes, taken, id as usize);
        },
        Some(home) => {
            let homes2 = homes.update(id, Some(home));
            let active2 = taken.push((home, end, id as usize));
            assert(booked(prog, homes2, active2, start as int)) by {
                assert forall|m: int|
                    0 <= m < active2.len() && (#[trigger] active2[m]).0 != Reg(1) && active2[m].0 != Reg(10) implies {
                    let v = active2[m].2 as int;
                    &&& v < prog.sites.len() && prog.is_used(v) && homes2[v] == Some(active2[m].0)
                    &&& prog.range_of(v).0 <= start && active2[m].1 == prog.range_of(v).1
                } by {
                    if m < taken.len() {
                        assert(active2[m] == taken[m]);
                        assert(homes[taken[m].2 as int] is Some);
                    }
                }
            }
            if k + 1 < order.len() {
                assert(prog.comes_before(order[k as int], order[k as int + 1]));
            }
            assert forall|j: int| k + 1 <= j < order.len() implies homes2[(#[trigger] order[j]) as int] is None by {
                assert(prog.comes_before(order[k as int], order[j]));
            }
            lemma_no_room(prog, order, k + 1, homes2, active2, start as int);
        },
    }
}

/// Registers run out only where more values are live than there are
/// registers.
pub proof fn registers_run_out_in_a_crowd(prog: Prog, order: Seq<usize>)
    requires
        prog.wf(),
        prog.sites.len() <= usize::MAX,
        prog.is_order(order),
        prog.allocation(order) is None,
    ensures
        prog.crowded(),
{
    let pins = prog.pinned(prog.insns.len());
    crate::ssa::homes::lemma_pins(prog, prog.insns.len());
    crate::ssa::homes::lemma_pinned_len(prog);
    assert(booked(prog, prog.pinned_homes(), pins, 0)) by {
        assert forall|m: int| 0 <= m < pins.len() implies (#[trigger] pins[m]).0 == Reg(1) || pins[m].0 == Reg(10) by {
            assert(crate::ssa::homes::some_pin(prog, pins[m]));
        }
    }
    lemma_no_room(prog, order, 0, prog.pinned_homes(), pins, 0);
}

impl Plan {
    /// Whether a register cannot hold a saved value during a call: it holds a
    /// live value, or the argument moves or another saved value need it.
    pub open spec fn busy(self, moves: Seq<PlacedMove>, saves: Seq<(Reg, Reg)>, pos: int, r: Reg) -> bool {
        ||| self.holds(r, pos)
        ||| is_read(moves, r)
        ||| writes(moves, r)
        ||| exists|i: int| 0 <= i < saves.len() && (#[trigger] saves[i]).1 == r
    }

    /// Whether a call can be made: its argument moves form no cycle, and
    /// there is a register for every value that they overwrite while it is
    /// live.
    pub open spec fn callable(self, i: int) -> bool {
        self.prog.insns[i] matches Op::Call { args, .. } ==> {
            let moves = self.shuffle(args, 5);
            &&& !tangled(moves)
            &&& !exists|saves: Seq<(Reg, Reg)>|
                saves.len() < moves.len() && forall|r: Reg| 1 <= r.0 <= 9 ==> #[trigger] self.busy(moves, saves, i, r)
        }
    }

    /// Whether every call that control reaches can be made.
    pub open spec fn calls_fit(self) -> bool {
        forall|b: usize, i: int| #[trigger] self.prog.within(b, i) && self.prog.reaches(b) ==> self.callable(i)
    }

    /// Whether a phi has what comes from the program start in its register.
    pub open spec fn starts_in_place(self, i: int) -> bool {
        self.prog.insns[i] matches Op::Phi { dst, inputs } ==> (self.home(dst) is Some ==> forall|k: int|
            0 <= k < inputs.len() && (#[trigger] inputs[k]).0 == START_PRED ==> self.home(inputs[k].1) == self.home(
                dst,
            ))
    }

    /// Whether the moves of the phis form no cycle at the end of a block or on
    /// an edge, and what comes from the program start is in place.
    pub open spec fn phis_fit(self) -> bool {
        let list = self.placements(0)->Ok_0;
        &&& forall|b: usize, i: int| #[trigger]
            self.prog.within(b, i) && self.prog.reaches(b) ==> self.starts_in_place(i)
        &&& forall|b: usize| #[trigger] self.prog.reaches(b) ==> !tangled(moves_at_end(self, list, b))
        &&& forall|k: int|
            0 <= k < tramp_keys(self, list).len() ==> !tangled(tramp_moves(list, #[trigger] tramp_keys(self, list)[k]))
    }

    /// Whether a jump is too far for 16 bits.
    pub open spec fn too_far(self, i: int) -> bool {
        let list = self.placements(0)->Ok_0;
        let pieces = self.all_pieces(list)->Ok_0;
        &&& self.placements(0) is Ok && self.all_pieces(list) is Ok
        &&& 0 <= i < pieces.len() && pieces[i].target is Some
        &&& self.offset(list, i) < -0x8000 || self.offset(list, i) > 0x7fff
    }

    /// What the laws ask of a plan.
    spec fn given(self, order: Seq<usize>) -> bool {
        let prog = self.prog;
        &&& prog.scoped() && prog.formed() && prog.sites.len() <= usize::MAX
        &&& prog.is_order(order)
        &&& prog.allocation(order) == Some(self.homes)
        &&& self == prog.plan(self.homes)
    }
}

/// The uses of a live instruction are listed.
pub proof fn lemma_listed(prog: Prog, j: nat, i: int, u: (usize, SsaValue))
    requires
        j <= i < prog.insns.len(),
        live_at(prog.nodes, i),
        prog.uses_at(i).contains(u),
    ensures
        prog.uses_from(j).contains(u),
    decreases i - j,
{
    let rest = prog.uses_from(j + 1);
    if j == i {
        let k = prog.uses_at(i).index_of(u);
        assert((prog.uses_at(i) + rest)[k] == u);
    } else {
        lemma_listed(prog, j + 1, i, u);
        let k = rest.index_of(u);
        if live_at(prog.nodes, j as int) {
            assert((prog.uses_at(j as int) + rest)[prog.uses_at(j as int).len() + k] == u);
        }
    }
}

proof fn lemma_phi_listed(prog: Prog, inputs: Seq<(usize, SsaValue)>, j: nat, k: int)
    requires
        j <= k < inputs.len(),
        inputs[k].0 != START_PRED,
        prog.nodes[inputs[k].0 as int].live,
    ensures
        prog.phi_uses(inputs, j).contains((prog.nodes[inputs[k].0 as int].end, inputs[k].1)),
    decreases k - j,
{
    let u = (prog.nodes[inputs[k].0 as int].end, inputs[k].1);
    let rest = prog.phi_uses(inputs, j + 1);
    let head = seq![(prog.nodes[inputs[j as int].0 as int].end, inputs[j as int].1)];
    if j == k {
        assert((head + rest)[0] == u);
    } else {
        lemma_phi_listed(prog, inputs, j + 1, k);
        let m = rest.index_of(u);
        assert((head + rest)[m + 1] == u);
    }
}

proof fn lemma_start_listed(prog: Prog, inputs: Seq<(usize, SsaValue)>, j: nat, k: int, i: usize)
    requires
        j <= k < inputs.len(),
        inputs[k].0 == START_PRED,
    ensures
        prog.phi_starts(inputs, j, i).contains((i, inputs[k].1)),
    decreases k - j,
{
    let u = (i, inputs[k].1);
    let rest = prog.phi_starts(inputs, j + 1, i);
    let head = seq![(i, inputs[j as int].1)];
    if j == k {
        assert((head + rest)[0] == u);
    } else {
        lemma_start_listed(prog, inputs, j + 1, k, i);
        let m = rest.index_of(u);
        assert((head + rest)[m + 1] == u);
    }
}

proof fn lemma_starts_listed(prog: Prog, j: nat, i: int, inputs: Seq<(usize, SsaValue)>, u: (usize, SsaValue))
    requires
        j <= i < prog.insns.len(),
        live_at(prog.nodes, i),
        prog.insns[i] matches Op::Phi { inputs: own, .. } && own == inputs,
        prog.phi_starts(inputs, 0, i as usize).contains(u),
    ensures
        prog.starts_from(j).contains(u),
    decreases i - j,
{
    let rest = prog.starts_from(j + 1);
    if j == i {
        let own = prog.phi_starts(inputs, 0, i as usize);
        let k = own.index_of(u);
        assert((own + rest)[k] == u);
    } else {
        lemma_starts_listed(prog, j + 1, i, inputs, u);
        let k = rest.index_of(u);
        if let Op::Phi { inputs: other, .. } = prog.insns[j as int] {
            let own = prog.phi_starts(other, 0, j as usize);
            assert((own + rest)[own.len() + k] == u);
        }
    }
}

/// A block that control reaches lies in the program and is live.
proof fn lemma_reached(plan: Plan, order: Seq<usize>, b: usize, i: int)
    requires
        plan.given(order),
        plan.prog.reaches(b),
        plan.prog.within(b, i),
    ensures
        0 <= i < plan.prog.insns.len(),
        live_at(plan.prog.nodes, i),
{
    let nodes = plan.prog.nodes;
    assert(nodes[b as int].live);
    if b < nodes.len() - 1 {
        assert(nodes[b as int].end <= nodes[nodes.len() - 1].start);
    }
}

/// What an instruction uses where control reaches has a register.
proof fn lemma_use_homed(plan: Plan, order: Seq<usize>, b: usize, i: int, k: int)
    requires
        plan.given(order),
        plan.prog.reaches(b),
        plan.prog.within(b, i),
        !(plan.prog.insns[i] is Phi),
        0 <= k < plan.prog.insns[i].uses().len(),
    ensures
        plan.home(plan.prog.insns[i].uses()[k]) is Some,
{
    let prog = plan.prog;
    lemma_reached(plan, order, b, i);
    let op = prog.insns[i];
    let v = op.uses()[k];
    assert(prog.uses_ok(b, i));
    assert(prog.in_scope(b, i, v));
    let u = (i as usize, v);
    assert(prog.uses_at(i)[k] == u);
    lemma_listed(prog, 0, i, u);
    let m = prog.uses_from(0).index_of(u);
    assert(prog.uses_from(0)[m].1.0 == v.0);
    assert(prog.is_used(v.0 as int));
    used_values_are_homed(prog, order, plan.homes, v.0 as usize);
}

/// What an instruction uses where control reaches has a register.
pub proof fn lemma_homes(prog: Prog, order: Seq<usize>, homes: Seq<Option<Reg>>, b: usize, i: int, k: int)
    requires
        prog.scoped(),
        prog.formed(),
        prog.sites.len() <= usize::MAX,
        prog.is_order(order),
        prog.allocation(order) == Some(homes),
        prog.reaches(b),
        prog.within(b, i),
        !(prog.insns[i] is Phi),
        0 <= k < prog.insns[i].uses().len(),
    ensures
        prog.plan(homes).home(prog.insns[i].uses()[k]) is Some,
{
    lemma_use_homed(prog.plan(homes), order, b, i, k);
}

/// What a load writes has a register.
proof fn lemma_load_homed(plan: Plan, order: Seq<usize>, b: usize, i: int, v: SsaValue)
    requires
        plan.given(order),
        plan.prog.reaches(b),
        plan.prog.within(b, i),
        plan.prog.insns[i] is Load,
        plan.prog.insns[i].def() == Some(v),
    ensures
        plan.home(v) is Some,
{
    let prog = plan.prog;
    lemma_reached(plan, order, b, i);
    assert(prog.def_ok(i));
    assert(prog.must_write(i, v.0 as int));
    assert(prog.is_used(v.0 as int));
    used_values_are_homed(prog, order, plan.homes, v.0 as usize);
}

/// An input of a phi has a register, where control comes from there.
proof fn lemma_input_homed(plan: Plan, order: Seq<usize>, b: usize, i: int, k: int)
    requires
        plan.given(order),
        plan.prog.reaches(b),
        plan.prog.within(b, i),
        plan.prog.insns[i] matches Op::Phi { inputs, .. } && 0 <= k < inputs.len() && (inputs[k].0 == START_PRED
            || plan.live[inputs[k].0 as int]),
    ensures
        plan.prog.insns[i] matches Op::Phi { inputs, .. } && plan.home(inputs[k].1) is Some,
{
    let prog = plan.prog;
    lemma_reached(plan, order, b, i);
    assert(prog.uses_ok(b, i));
    if let Op::Phi { inputs, .. } = prog.insns[i] {
        let (p, v) = inputs[k];
        assert(prog.insns[i].blocks_below(prog.nodes.len()));
        if p == START_PRED {
            assert(prog.start_ok(i, v));
            lemma_start_listed(prog, inputs, 0, k, i as usize);
            let u = (i as usize, v);
            lemma_starts_listed(prog, 0, i, inputs, u);
            let m = prog.starts_from(0).index_of(u);
            assert(prog.starts_from(0)[m].1.0 == v.0);
        } else {
            assert(prog.reaches(p));
            assert(prog.in_scope(p, prog.nodes[p as int].end as int, v));
            lemma_phi_listed(prog, inputs, 0, k);
            let u = (prog.nodes[p as int].end, v);
            lemma_listed(prog, 0, i, u);
            let m = prog.uses_from(0).index_of(u);
            assert(prog.uses_from(0)[m].1.0 == v.0);
        }
        assert(prog.is_used(v.0 as int));
        used_values_are_homed(prog, order, plan.homes, v.0 as usize);
    }
}

proof fn lemma_temps(plan: Plan, moves: Seq<PlacedMove>, saves: Seq<(Reg, Reg)>, pos: int, i: nat, r: Reg)
    requires
        plan.first_temp(moves, saves, pos, i) is None,
        i <= 9,
        1 <= r.0 <= 9,
        r.0 == 1 || i + 1 <= r.0,
    ensures
        plan.busy(moves, saves, pos, r),
    decreases 10 - i,
{
    let temp = if i < 9 {
        crate::ssa::homes::pool(i as int)
    } else {
        Reg(1)
    };
    assert(!plan.can_save(moves, saves, pos, temp));
    if temp != r {
        if i < 9 {
            lemma_temps(plan, moves, saves, pos, i + 1, r);
        }
    }
}

proof fn lemma_saves_fail(plan: Plan, moves: Seq<PlacedMove>, pos: int, n: nat)
    requires
        n <= moves.len(),
    ensures
        plan.saves(moves, pos, n) is None ==> exists|saves: Seq<(Reg, Reg)>|
            saves.len() < moves.len() && forall|r: Reg| 1 <= r.0 <= 9 ==> #[trigger] plan.busy(moves, saves, pos, r),
        plan.saves(moves, pos, n) matches Some(s) ==> s.len() <= n,
    decreases n,
{
    if n > 0 {
        lemma_saves_fail(plan, moves, pos, (n - 1) as nat);
        if let Some(rest) = plan.saves(moves, pos, (n - 1) as nat) {
            if plan.saves(moves, pos, n) is None {
                assert forall|r: Reg| 1 <= r.0 <= 9 implies #[trigger] plan.busy(moves, rest, pos, r) by {
                    lemma_temps(plan, moves, rest, pos, 0, r);
                }
            }
        }
    }
}

/// The pieces of an instruction that control reaches.
proof fn lemma_op_emitted(plan: Plan, order: Seq<usize>, b: usize, i: int)
    requires
        plan.given(order),
        plan.prog.reaches(b),
        plan.prog.within(b, i),
    ensures
        plan.op_pieces(i) matches Err(e) ==> e == SsaError::CallArgCycle && !plan.callable(i),
{
    let prog = plan.prog;
    let op = prog.insns[i];
    lemma_reached(plan, order, b, i);
    assert(prog.has_form(i));
    if !(op is Phi) {
        assert forall|k: int| 0 <= k < op.uses().len() implies plan.home(#[trigger] op.uses()[k]) is Some by {
            lemma_use_homed(plan, order, b, i, k);
        }
    }
    match op {
        Op::Copy { src, .. } => {
            assert(op.uses()[0] == src);
        },
        Op::BinOp { lhs, rhs, .. } => {
            if let SsaOperand::Value(v) = lhs {
                assert(op.uses()[0] == v);
            }
            if let SsaOperand::Value(v) = rhs {
                assert(op.uses()[op.uses().len() - 1] == v);
            }
        },
        Op::Load { dst, base, .. } => {
            assert(op.uses()[0] == base);
            lemma_load_homed(plan, order, b, i, dst->0);
        },
        Op::Store { base, src, .. } => {
            assert(op.uses()[0] == base);
            if let SsaOperand::Value(v) = src {
                assert(op.uses()[1] == v);
            }
        },
        Op::Call { args, .. } => {
            assert forall|k: int| 0 <= k < 5 implies plan.home(#[trigger] args[k]) is Some by {
                assert(op.uses()[k] == args[k]);
            }
            let moves = plan.shuffle(args, 5);
            lemma_saves_fail(plan, moves, i, moves.len());
            if in_order(proper(moves)) is None {
                refused_moves_form_a_cycle(moves);
            }
        },
        _ => {},
    }
}

proof fn lemma_body_emitted(plan: Plan, order: Seq<usize>, b: usize, i: int)
    requires
        plan.given(order),
        plan.prog.reaches(b),
        b < plan.prog.nodes.len(),
        plan.prog.nodes[b as int].start <= i,
    ensures
        plan.body_pieces(i, plan.prog.nodes[b as int].end as int) matches Err(e) ==> e == SsaError::CallArgCycle
            && !plan.calls_fit(),
    decreases plan.prog.nodes[b as int].end - i,
{
    if i < plan.prog.nodes[b as int].end {
        lemma_op_emitted(plan, order, b, i);
        lemma_body_emitted(plan, order, b, i + 1);
        assert(plan.prog.within(b, i));
    }
}

proof fn lemma_control_at(prog: Prog, i: int, end: int) -> (j: int)
    requires
        prog.control_from(i, end) is Some,
    ensures
        i <= j < end,
        prog.control_from(i, end) == Some(prog.insns[j]),
        prog.insns[j].is_control(),
    decreases end - i,
{
    if prog.insns[i].is_control() {
        i
    } else {
        lemma_control_at(prog, i + 1, end)
    }
}

proof fn lemma_control_emitted(plan: Plan, order: Seq<usize>, list: Seq<Placement>, pos: int)
    requires
        plan.given(order),
        0 <= pos < plan.order.len(),
        plan.prog.reaches(plan.order[pos]),
        plan.order[pos] < plan.prog.nodes.len(),
    ensures
        plan.control_pieces(list, pos) is Ok,
{
    let b = plan.order[pos];
    let prog = plan.prog;
    if prog.terminator(b) is Some {
        let j = lemma_control_at(prog, prog.nodes[b as int].start as int, prog.nodes[b as int].end as int);
        let op = prog.insns[j];
        assert(prog.within(b, j));
        assert(prog.has_form(j));
        assert forall|k: int| 0 <= k < op.uses().len() implies plan.home(#[trigger] op.uses()[k]) is Some by {
            lemma_use_homed(plan, order, b, j, k);
        }
        match op {
            Op::Br { lhs, rhs, .. } => {
                if let SsaOperand::Value(v) = lhs {
                    assert(op.uses()[0] == v);
                }
                if let SsaOperand::Value(v) = rhs {
                    assert(op.uses()[op.uses().len() - 1] == v);
                }
            },
            Op::Exit { r0 } => {
                assert(op.uses()[0] == r0);
            },
            _ => {},
        }
    }
}

proof fn lemma_inputs_placed(plan: Plan, order: Seq<usize>, b: usize, i: int, k: nat)
    requires
        plan.given(order),
        plan.prog.reaches(b),
        plan.prog.within(b, i),
        plan.prog.insns[i] matches Op::Phi { dst, .. } && plan.home(dst) is Some,
    ensures
        plan.prog.insns[i] matches Op::Phi { dst, inputs } && (plan.input_placements(b, plan.home(dst)->0, inputs, k)
            matches Err(e) ==> e == SsaError::PhiCycle && !plan.starts_in_place(i)),
    decreases (plan.prog.insns[i]->inputs).len() - k,
{
    if let Op::Phi { dst, inputs } = plan.prog.insns[i] {
        if k < inputs.len() {
            lemma_inputs_placed(plan, order, b, i, k + 1);
            if inputs[k as int].0 == START_PRED || plan.live[inputs[k as int].0 as int] {
                lemma_input_homed(plan, order, b, i, k as int);
            }
        }
    }
}

proof fn lemma_phis_placed(plan: Plan, order: Seq<usize>, b: usize, i: int)
    requires
        plan.given(order),
        plan.prog.reaches(b),
        b < plan.prog.nodes.len(),
        plan.prog.nodes[b as int].start <= i,
    ensures
        plan.phi_placements(b, i, plan.prog.nodes[b as int].end as int) matches Err(e) ==> e == SsaError::PhiCycle
            && !plan.phis_fit(),
    decreases plan.prog.nodes[b as int].end - i,
{
    if i < plan.prog.nodes[b as int].end {
        lemma_phis_placed(plan, order, b, i + 1);
        assert(plan.prog.within(b, i));
        if let Op::Phi { dst, .. } = plan.prog.insns[i] {
            if plan.home(dst) is Some {
                lemma_inputs_placed(plan, order, b, i, 0);
            }
        }
    }
}

proof fn lemma_placed(plan: Plan, order: Seq<usize>, b: nat)
    requires
        plan.given(order),
    ensures
        plan.placements(b) matches Err(e) ==> e == SsaError::PhiCycle && !plan.phis_fit(),
    decreases plan.prog.nodes.len() - b,
{
    if b < plan.prog.nodes.len() {
        lemma_placed(plan, order, b + 1);
        if plan.live[b as int] {
            lemma_phis_placed(plan, order, b as usize, plan.prog.nodes[b as int].start as int);
        }
    }
}

proof fn lemma_blocks_emitted(plan: Plan, order: Seq<usize>, list: Seq<Placement>, n: nat)
    requires
        plan.given(order),
        plan.placements(0) == Ok::<Seq<Placement>, SsaError>(list),
        n <= plan.order.len(),
        forall|k: int|
            0 <= k < plan.order.len() ==> (#[trigger] plan.order[k]) < plan.prog.nodes.len() && plan.prog.reaches(
                plan.order[k],
            ),
    ensures
        plan.blocks_pieces(list, n) matches Err(e) ==> (e == SsaError::CallArgCycle && !plan.calls_fit()) || (e
            == SsaError::PhiCycle && !plan.phis_fit()),
    decreases n,
{
    if n > 0 {
        lemma_blocks_emitted(plan, order, list, (n - 1) as nat);
        let b = plan.order[n - 1];
        lemma_body_emitted(plan, order, b, plan.prog.nodes[b as int].start as int);
        lemma_control_emitted(plan, order, list, n - 1);
        let moves = moves_at_end(plan, list, b);
        if in_order(proper(moves)) is None {
            refused_moves_form_a_cycle(moves);
            assert(tangled(moves));
            assert(plan.prog.reaches(b));
        }
    }
}

proof fn lemma_all_emitted(plan: Plan, order: Seq<usize>, list: Seq<Placement>, n: nat)
    requires
        plan.given(order),
        plan.placements(0) == Ok::<Seq<Placement>, SsaError>(list),
        n <= tramp_keys(plan, list).len(),
        forall|k: int|
            0 <= k < plan.order.len() ==> (#[trigger] plan.order[k]) < plan.prog.nodes.len() && plan.prog.reaches(
                plan.order[k],
            ),
    ensures
        plan.pieces(list, n) matches Err(e) ==> (e == SsaError::CallArgCycle && !plan.calls_fit()) || (e
            == SsaError::PhiCycle && !plan.phis_fit()),
    decreases n,
{
    if n == 0 {
        lemma_blocks_emitted(plan, order, list, plan.order.len());
    } else {
        lemma_all_emitted(plan, order, list, (n - 1) as nat);
        let k = n - 1;
        let key = tramp_keys(plan, list)[k];
        let moves = tramp_moves(list, key);
        if in_order(proper(moves)) is None {
            refused_moves_form_a_cycle(moves);
            assert(tangled(moves));
            assert(!plan.phis_fit()) by {
                assert(tangled(tramp_moves(list, tramp_keys(plan, list)[k])));
            }
        }
        assert(plan.pieces(list, n) == cat(plan.pieces(list, k as nat), plan.tramp_pieces(list, k)));
    }
}

proof fn lemma_first_far(plan: Plan, list: Seq<Placement>, i: nat)
    ensures
        plan.first_far(list, i) matches Some(k) ==> {
            let pieces = plan.all_pieces(list)->Ok_0;
            &&& i <= k < pieces.len() && pieces[k].target is Some
            &&& plan.offset(list, k) < -0x8000 || plan.offset(list, k) > 0x7fff
        },
    decreases (plan.all_pieces(list)->Ok_0).len() - i,
{
    if i < (plan.all_pieces(list)->Ok_0).len() {
        lemma_first_far(plan, list, i + 1);
    }
}

/// Once every value has its register, code is emitted unless moves form a
/// cycle, a call has no room, or a jump is too far. It does not matter which
/// operations there are.
pub proof fn emission_succeeds(prog: Prog, order: Seq<usize>, homes: Seq<Option<Reg>>)
    requires
        prog.scoped(),
        prog.formed(),
        prog.sites.len() <= usize::MAX,
        prog.is_order(order),
        prog.allocation(order) == Some(homes),
    ensures
        match prog.plan(homes).lowered() {
            Ok(_) => true,
            Err(SsaError::PhiCycle) => !prog.plan(homes).phis_fit(),
            Err(SsaError::CallArgCycle) => !prog.plan(homes).calls_fit(),
            Err(SsaError::JumpTooFar { .. }) => exists|i: int| #[trigger] prog.plan(homes).too_far(i),
            Err(_) => false,
        },
{
    let plan = prog.plan(homes);
    assert(plan.given(order));
    lemma_placed(plan, order, 0);
    if let Ok(list) = plan.placements(0) {
        let start = seq![prog.entry];
        assert(prog.is_trace(start));
        assert(start.last() == prog.entry);
        assert(prog.reaches(prog.entry));
        layout_is_complete(prog, plan.live);
        assert forall|k: int| 0 <= k < plan.order.len() implies (#[trigger] plan.order[k]) < plan.prog.nodes.len()
            && plan.prog.reaches(plan.order[k]) by {
            assert(plan.order.contains(plan.order[k]));
        }
        lemma_all_emitted(plan, order, list, tramp_keys(plan, list).len());
        lemma_first_far(plan, list, 0);
        if plan.all_pieces(list) is Ok {
            if let Some(i) = plan.first_far(list, 0) {
                assert(plan.too_far(i));
            }
        }
    }
}

/// Where an instruction writes a register against a table. An operation does
/// where the register must hold another value behind it, or is read on the
/// right only; it does not matter which operation it is. What only reads
/// registers never does.
pub proof fn operations_are_clear_alike(plan: Plan, t: crate::ssa::tables::Table, b: usize, i: int)
    ensures
        plan.prog.insns[i] matches Op::BinOp { dst, op, lhs, rhs, .. } ==> match plan.home(dst) {
            Some(r) => {
                let behind = t[(i + 1 + b) * 11 + r.0];
                plan.clear_insn(t, b, i) <==> (behind is None || behind == Some(dst)) && (op == AluOp::Mov || !(rhs
                    matches SsaOperand::Value(u) && plan.home(u) == Some(r)) || (lhs matches SsaOperand::Value(x)
                    && plan.home(x) == Some(r)))
            },
            None => !(op is End) ==> plan.clear_insn(t, b, i),
        },
        plan.prog.insns[i] matches Op::Load { dst: Some(dst), .. } ==> (plan.home(dst) matches Some(r) ==> {
            let behind = t[(i + 1 + b) * 11 + r.0];
            plan.clear_insn(t, b, i) <==> behind is None || behind == Some(dst)
        }),
        plan.prog.insns[i] is Store || plan.prog.insns[i].is_control() || plan.prog.insns[i] is Phi ==> plan.clear_insn(
            t,
            b,
            i,
        ),
{
}

/// An edge without moves writes no register, whatever its block ends with.
pub proof fn edges_without_moves_are_clear(
    plan: Plan,
    list: Seq<Placement>,
    t: crate::ssa::tables::Table,
    p: usize,
    b: usize,
)
    requires
        moves_at_end(plan, list, p).len() == 0,
        !tramp_keys(plan, list).contains((p, b)),
    ensures
        plan.spares_end(list, p),
        plan.clear_edge(list, t, p, b),
{
}

/// Lowering succeeds where values have registers, moves form no cycle, calls
/// have room, jumps are not too far, and a table shows that the registers are
/// sound.
pub proof fn lowering_succeeds(prog: Prog, order: Seq<usize>, homes: Seq<Option<Reg>>)
    requires
        prog.scoped(),
        prog.formed(),
        prog.sites.len() <= usize::MAX,
        prog.is_order(order),
        prog.allocation(order) == Some(homes),
        prog.plan(homes).phis_fit(),
        prog.plan(homes).calls_fit(),
        forall|i: int| !#[trigger] prog.plan(homes).too_far(i),
        prog.plan(homes).sound(),
    ensures
        exists|code: Seq<Insn>| #[trigger] prog.lowers_to(Ok(code)),
{
    emission_succeeds(prog, order, homes);
    let code = prog.plan(homes).lowered()->Ok_0;
    assert(prog.lowers_to(Ok(code)));
}

/// Why lowering refuses a program: more values are live than there are
/// registers or no table shows that the registers are sound, the moves of
/// phis or arguments form a cycle or have no room, or a jump is too far.
pub proof fn refusals_have_a_cause(prog: Prog, e: SsaError)
    requires
        prog.scoped(),
        prog.formed(),
        prog.sites.len() <= usize::MAX,
        prog.lowers_to(Err(e)),
    ensures
        e == SsaError::OutOfRegisters ==> prog.crowded() || exists|order: Seq<usize>| #[trigger]
            prog.is_order(order) && prog.allocation(order) is Some && !prog.plan(prog.allocation(order)->0).sound(),
        e == SsaError::PhiCycle ==> exists|order: Seq<usize>| #[trigger]
            prog.is_order(order) && prog.allocation(order) is Some && !prog.plan(
                prog.allocation(order)->0,
            ).phis_fit(),
        e == SsaError::CallArgCycle ==> exists|order: Seq<usize>| #[trigger]
            prog.is_order(order) && prog.allocation(order) is Some && !prog.plan(
                prog.allocation(order)->0,
            ).calls_fit(),
        e is JumpTooFar ==> exists|order: Seq<usize>, i: int|
            #![trigger prog.is_order(order), prog.plan(prog.allocation(order)->0).too_far(i)]
            prog.is_order(order) && prog.allocation(order) is Some && prog.plan(prog.allocation(order)->0).too_far(i),
        e == SsaError::OutOfRegisters || e == SsaError::PhiCycle || e == SsaError::CallArgCycle || e is JumpTooFar,
{
    let order = choose|order: Seq<usize>|
        #![trigger prog.is_order(order)]
        prog.is_order(order) && Err::<Seq<Insn>, SsaError>(e) == (match prog.allocation(order) {
            None => Err(SsaError::OutOfRegisters),
            Some(homes) => prog.plan(homes).approved(),
        });
    match prog.allocation(order) {
        None => {
            registers_run_out_in_a_crowd(prog, order);
        },
        Some(homes) => {
            emission_succeeds(prog, order, homes);
        },
    }
}

} // verus!
