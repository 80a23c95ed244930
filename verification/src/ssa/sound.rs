//! Optimization keeps what programs do.
use vstd::prelude::*;

use crate::cfg::Cfg;
use crate::isa::insn::{AluOp, Insn, Reg};
use crate::slots::lemma_slot_bounds;
use crate::ssa::built::{fresh, given_by, program_runs_as_ssa, ssa_runs_as_program, Built};
use crate::ssa::calls::lemma_do_call;
use crate::ssa::carried::{
    ahead, carried, does_step, fitting, lemma_do_alu, lemma_do_idle, lemma_do_load, lemma_do_mov,
    lemma_do_nothing, lemma_do_simple, lemma_do_store,
};
use crate::ssa::code::{
    comes_to, end_within, later, lemma_block_parts, lemma_comes_end, lemma_later_end, lemma_one_end,
    machine_ends, strides, Code,
};
use crate::ssa::copied::lemma_copies_keep_runs;
use crate::ssa::crossed::{lemma_do_end, lemma_order};
use crate::ssa::effects::optimizing_keeps_effects;
use crate::ssa::emit::homes_valid;
use crate::ssa::form::{comes_back, preds, Form};
use crate::ssa::homes::homes_are_registers;
use crate::ssa::opt::lefts_are_values;
use crate::ssa::passes::{keeps, lemma_fold_keeps_runs, lemma_keeps_on};
use crate::ssa::progress::{
    optimized_reads_are_defined, optimizing_reaches_a_fixed_point, optimizing_twice_is_optimizing_once,
};
use crate::ssa::proper::{lemma_built_strict, lemma_phi_placed, swaps_by_immediate};
use crate::ssa::pruned::lemma_pruning_keeps_runs;
use crate::ssa::run::{
    lemma_ends_before, lemma_ends_here, world_of, Ending, Given, SsaState, World,
};
use crate::ssa::scope::{lemma_reached_block, lemma_sane_first, lemma_sane_step};
use crate::ssa::swept::lemma_sweeping_keeps_runs;
use crate::ssa::tables::{settled_plans_are_tidy, Table};
use crate::ssa::tidy::Wants;
use crate::ssa::weighed::lemma_built_weight;
use crate::ssa::{Op, Prog, SsaError, SsaValue};
use crate::vm::VmModel;

verus! {

/// In an SSA program of a program, every value is defined on every way to
/// its uses, and left operands are values. Rounds of passes can be counted
/// for it.
pub proof fn built_programs_are_scoped(insns: Seq<Insn>, cfg: &Cfg, prog: Prog)
    requires
        insns.len() > 0,
        cfg.describes(insns),
        forall|i: int| 0 <= i < insns.len() ==> (#[trigger] insns[i]).valid(),
        prog.wf(),
        prog.is_ssa_of(insns, cfg.order()),
    ensures
        prog.scoped(),
        lefts_are_values(prog),
        swaps_by_immediate(insns) ==> prog.strict(),
        prog.weight() + 1 < u64::MAX,
{
    let form = choose|form: Form| #[trigger] prog.renders(insns, cfg.order(), form);
    let c = Built { insns, order: cfg.order(), form, prog };
    lemma_slot_bounds(insns, insns.len());
    reveal(Built::ok);
    assert(c.ok());
    lemma_built_strict(c);
    lemma_built_weight(c);
}

/// A block that is reached over a single edge has a phi only where control
/// comes back from it, to itself or to a block that is visited before it.
pub proof fn single_entries_have_phis_for_reads_that_come_back(
    insns: Seq<Insn>,
    cfg: &Cfg,
    prog: Prog,
    b: usize,
    i: int,
)
    requires
        insns.len() > 0,
        cfg.describes(insns),
        forall|k: int| 0 <= k < insns.len() ==> (#[trigger] insns[k]).valid(),
        prog.wf(),
        prog.is_ssa_of(insns, cfg.order()),
        b != 0,
        cfg.order().contains(b),
        preds(insns, b).len() == 1,
        prog.within(b, i),
        prog.insns[i] is Phi,
    ensures
        comes_back(insns, cfg.order(), b),
{
    let form = choose|form: Form| #[trigger] prog.renders(insns, cfg.order(), form);
    let c = Built { insns, order: cfg.order(), form, prog };
    lemma_slot_bounds(insns, insns.len());
    reveal(Built::ok);
    assert(c.ok());
    lemma_phi_placed(c, b, i);
}

/// What holds of an optimized program.
pub proof fn lemma_optimized(prog: Prog, after: Prog)
    requires
        prog.wf(),
        prog.optimizes_to(after),
    ensures
        keeps(prog, after),
        after.keeps_effects_of(prog),
        lefts_are_values(prog) ==> lefts_are_values(after),
        prog.scoped() ==> after.reads_defined(),
        prog.scoped() && prog.weight() + 1 < u64::MAX ==> !after.round_changes(),
{
    let n = choose|n: nat|
        {
            &&& 0 < n <= u64::MAX
            &&& after == #[trigger] prog.rounds(n)
            &&& forall|i: nat| i < n - 1 ==> (#[trigger] prog.rounds(i)).round_changes()
            &&& prog.rounds((n - 1) as nat).round_changes() ==> n == u64::MAX
        };
    lemma_rounds(prog, n);
    optimizing_keeps_effects(prog, after);
    if prog.scoped() {
        optimized_reads_are_defined(prog, after);
        if prog.weight() + 1 < u64::MAX {
            optimizing_reaches_a_fixed_point(prog, after);
        }
    }
}

/// Optimizing an SSA program of a program keeps the loads, stores, calls,
/// branches, jumps and exits of the blocks that stay live, in order. Blocks
/// only ever stop being live, left operands are still values, and every value
/// that a live block reads still has its definition. Optimizing again changes
/// nothing.
pub proof fn optimizing_keeps_built_programs(insns: Seq<Insn>, cfg: &Cfg, prog: Prog, after: Prog)
    requires
        insns.len() > 0,
        cfg.describes(insns),
        forall|i: int| 0 <= i < insns.len() ==> (#[trigger] insns[i]).valid(),
        prog.wf(),
        prog.is_ssa_of(insns, cfg.order()),
        prog.optimizes_to(after),
    ensures
        after.keeps_effects_of(prog),
        lefts_are_values(after),
        after.reads_defined(),
        !after.round_changes(),
        forall|twice: Prog| #[trigger] after.optimizes_to(twice) ==> twice == after,
{
    built_programs_are_scoped(insns, cfg, prog);
    optimizing_keeps_effects(prog, after);
    optimized_reads_are_defined(prog, after);
    optimizing_reaches_a_fixed_point(prog, after);
    assert forall|twice: Prog| #[trigger] after.optimizes_to(twice) implies twice == after by {
        optimizing_twice_is_optimizing_once(prog, after, twice);
    }
}

/// An SSA program of a program whose byte swaps have fixed widths is strict.
pub proof fn built_programs_are_strict(insns: Seq<Insn>, cfg: &Cfg, prog: Prog)
    requires
        insns.len() > 0,
        cfg.describes(insns),
        forall|i: int| 0 <= i < insns.len() ==> (#[trigger] insns[i]).valid(),
        swaps_by_immediate(insns),
        prog.wf(),
        prog.is_ssa_of(insns, cfg.order()),
    ensures
        prog.strict(),
{
    built_programs_are_scoped(insns, cfg, prog);
}

/// A round of all passes keeps what programs do.
proof fn lemma_round(prog: Prog)
    ensures
        keeps(prog, prog.round()),
{
    let folded = prog.folded_from(0);
    let copied = folded.copies_propagated();
    let swept = copied.swept();
    lemma_fold_keeps_runs(prog, 0);
    lemma_copies_keep_runs(folded);
    lemma_sweeping_keeps_runs(copied);
    lemma_pruning_keeps_runs(swept);
    lemma_keeps_on(prog, folded, copied);
    lemma_keeps_on(prog, copied, swept);
    lemma_keeps_on(prog, swept, swept.blocks_pruned());
}

proof fn lemma_rounds(prog: Prog, n: nat)
    ensures
        keeps(prog, prog.rounds(n)),
    decreases n,
{
    if n > 0 {
        lemma_rounds(prog, (n - 1) as nat);
        lemma_round(prog.rounds((n - 1) as nat));
        lemma_keeps_on(prog, prog.rounds((n - 1) as nat), prog.rounds(n));
    }
}

/// The optimized program ends as the program did: with the same exit code or
/// the same fault, and with the same memory and maps, and only if it did. Its
/// values are still defined on every way to their uses.
pub proof fn optimizing_keeps_endings(
    prog: Prog,
    after: Prog,
    g: Given,
    world: World,
    end: (World, Ending),
)
    requires
        prog.strict(),
        prog.optimizes_to(after),
    ensures
        after.strict(),
        prog.ends_with(g, world, end) <==> after.ends_with(g, world, end),
{
    let n = choose|n: nat|
        {
            &&& 0 < n <= u64::MAX
            &&& after == #[trigger] prog.rounds(n)
            &&& forall|i: nat| i < n - 1 ==> (#[trigger] prog.rounds(i)).round_changes()
            &&& prog.rounds((n - 1) as nat).round_changes() ==> n == u64::MAX
        };
    lemma_rounds(prog, n);
}

/// The machine does what the SSA program does, step by step.
proof fn lemma_do_step(c: Code, w: Wants, g: Given, s: SsaState, m: VmModel, limit: usize)
    requires
        fitting(c, w),
        carried(c, w, g, s, m),
    ensures
        does_step(c, w, g, s, m, limit),
{
    let p = c.plan.prog;
    lemma_reached_block(p, s.block);
    if !p.within(s.block, s.at) || p.insns[s.at].is_control() {
        lemma_do_end(c, w, g, s, m, limit);
    } else {
        match p.insns[s.at] {
            Op::Phi { .. } => {
                lemma_do_nothing(c, w, g, s, m, limit);
            },
            Op::FramePtr { .. } => {
                lemma_do_nothing(c, w, g, s, m, limit);
            },
            Op::EntryCtx { .. } => {
                lemma_do_nothing(c, w, g, s, m, limit);
            },
            Op::BinOp { op, .. } => {
                if c.plan.idle(p.insns[s.at]) {
                    lemma_do_idle(c, w, g, s, m, limit);
                } else if op == AluOp::Mov {
                    lemma_do_mov(c, w, g, s, m, limit);
                } else {
                    lemma_do_alu(c, w, g, s, m, limit);
                }
            },
            Op::Load { .. } => {
                lemma_do_load(c, w, g, s, m, limit);
            },
            Op::Store { .. } => {
                lemma_do_store(c, w, g, s, m, limit);
            },
            Op::Call { dst, args, .. } => {
                assert(c.plan.spares_at(w, s.block, s.at));
                lemma_do_call(c, w, g, s, m, limit);
            },
            _ => {
                lemma_do_simple(c, w, g, s, m, limit);
            },
        }
    }
}

/// The machine ends as the SSA program does.
proof fn lemma_carry(c: Code, w: Wants, g: Given, s: SsaState, m: VmModel, fuel: nat, limit: usize, end: (World, Ending))
    requires
        fitting(c, w),
        carried(c, w, g, s, m),
        c.plan.prog.run(g, s, fuel) == Some(end),
    ensures
        machine_ends(m, limit, end),
    decreases fuel,
{
    lemma_do_step(c, w, g, s, m, limit);
    if let Ok(t) = c.plan.prog.step(g, s) {
        let n = choose|n: VmModel| #[trigger]
            comes_to(m, n) && carried(c, w, g, t, n) && (strides(m, n) || ahead(c, s, t));
        lemma_carry(c, w, g, t, n, (fuel - 1) as nat, limit, end);
        lemma_comes_end(m, n, limit, end);
    }
}

/// The SSA program ends as the machine does. Every step of it makes the
/// machine take a step, or gets to a later place of the code.
proof fn lemma_carry_back(c: Code, w: Wants, g: Given, s: SsaState, m: VmModel, fuel: nat, limit: usize, end: (World, Ending))
    requires
        fitting(c, w),
        carried(c, w, g, s, m),
        end_within(m, fuel, limit) == Some(end),
    ensures
        c.plan.prog.ends(g, s, end),
    decreases fuel, c.plan.order.len() - c.plan.order.index_of(s.block), c.plan.prog.nodes[s.block as int].end - s.at,
{
    let p = c.plan.prog;
    lemma_do_step(c, w, g, s, m, limit);
    lemma_order(c, w);
    match p.step(g, s) {
        Ok(t) => {
            let n = choose|n: VmModel| #[trigger]
                comes_to(m, n) && carried(c, w, g, t, n) && (strides(m, n) || ahead(c, s, t));
            lemma_sane_step(p, g, s);
            lemma_reached_block(p, t.block);
            assert(c.plan.order.contains(t.block));
            let k = if strides(m, n) {
                choose|k: nat| k > 0 && #[trigger] later(m, k) == Some(n)
            } else {
                choose|k: nat| #[trigger] later(m, k) == Some(n)
            };
            lemma_later_end(m, k, fuel, limit);
            lemma_carry_back(c, w, g, t, n, (fuel - k) as nat, limit, end);
            lemma_ends_before(p, g, s, end);
        },
        Err(e) => {
            let f = choose|f: nat| #[trigger] end_within(m, f, limit) == Some((s.world, e));
            lemma_one_end(m, fuel, f, limit);
            lemma_ends_here(p, g, s);
        },
    }
}

/// At the start, wanted values are in their registers.
proof fn lemma_carry_first(c: Code, w: Wants, m: VmModel)
    requires
        fitting(c, w),
        fresh(m, c.insns),
    ensures
        carried(c, w, given_by(m), c.plan.prog.first_state(given_by(m), world_of(m)), m),
{
    let p = c.plan.prog;
    let g = given_by(m);
    let b = p.entry;
    let s = p.first_state(g, world_of(m));
    lemma_sane_first(p, g, world_of(m));
    lemma_order(c, w);
    lemma_reached_block(p, b);
    assert(c.plan.order.contains(b));
    assert(c.plan.order.index_of(b) == 0);
    lemma_block_parts(c, 0);
    assert(c.block_at(b) == 0);
    assert forall|v: SsaValue| #[trigger] p.known(b, s.at, v) && w(b, s.at, v) implies (c.plan.home(v)
        matches Some(r) ==> m.regs[r.0 as int] == (s.env)(v)) by {
        assert(c.plan.ready_at_start(w));
    }
}

/// Code over a plan that is tidy ends exactly as the SSA program does.
proof fn lemma_tidy_code(
    prog: Prog,
    homes: Seq<Option<Reg>>,
    insns: Seq<Insn>,
    w: Wants,
    m: VmModel,
    limit: usize,
    end: (World, Ending),
)
    requires
        prog.strict(),
        homes_valid(prog.plan(homes)),
        prog.plan(homes).lowered() == Ok::<Seq<Insn>, SsaError>(insns),
        insns.len() <= u32::MAX,
        prog.plan(homes).tidy(prog.plan(homes).placements(0)->Ok_0, w),
        fresh(m, insns),
    ensures
        prog.ends_with(given_by(m), world_of(m), end) <==> machine_ends(m, limit, end),
{
    let plan = prog.plan(homes);
    let list = plan.placements(0)->Ok_0;
    let pieces = plan.all_pieces(list)->Ok_0;
    let c = Code { plan, list, pieces, insns };
    assert(c.ok());
    lemma_carry_first(c, w, m);
    let g = given_by(m);
    let s = prog.first_state(g, world_of(m));
    if prog.ends_with(g, world_of(m), end) {
        let fuel = choose|fuel: nat| #[trigger] prog.run(g, s, fuel) == Some(end);
        lemma_carry(c, w, g, s, m, fuel, limit, end);
    }
    if machine_ends(m, limit, end) {
        let fuel = choose|fuel: nat| #[trigger] end_within(m, fuel, limit) == Some(end);
        lemma_carry_back(c, w, g, s, m, fuel, limit, end);
    }
}

/// Lowered code ends as the SSA program does: with the same exit code or the
/// same fault, and with the same memory and maps, and only if it does.
pub proof fn lowered_code_runs_as_ssa(
    prog: Prog,
    insns: Seq<Insn>,
    m: VmModel,
    limit: usize,
    end: (World, Ending),
)
    requires
        prog.strict(),
        prog.sites.len() <= usize::MAX,
        prog.lowers_to(Ok(insns)),
        insns.len() <= u32::MAX,
        fresh(m, insns),
    ensures
        prog.ends_with(given_by(m), world_of(m), end) <==> machine_ends(m, limit, end),
{
    let order = choose|order: Seq<usize>|
        #![trigger prog.is_order(order)]
        prog.is_order(order) && Ok::<Seq<Insn>, SsaError>(insns) == (match prog.allocation(order) {
            None => Err(SsaError::OutOfRegisters),
            Some(homes) => prog.plan(homes).approved(),
        });
    let homes = prog.allocation(order)->0;
    let plan = prog.plan(homes);
    let list = plan.placements(0)->Ok_0;
    let t = choose|t: Table| #[trigger] plan.settles(list, t);
    assert forall|i: int| 0 <= i < homes.len() implies ((#[trigger] homes[i]) matches Some(r) ==> r.valid()) by {
        homes_are_registers(prog, order, homes, i);
    }
    assert(homes_valid(plan));
    settled_plans_are_tidy(plan, list, t);
    lemma_tidy_code(prog, homes, insns, plan.asked(t), m, limit, end);
}

/// The optimizer never miscompiles: a program that was built into SSA form,
/// optimized and lowered ends as it did before, with the same exit code or
/// the same fault, and with the same memory and maps, and only if it did: a
/// program that never ends stays one that never does.
///
/// Byte swaps must take their widths from immediates, as those of every
/// decoded program do.
pub proof fn optimized_code_runs_as_program(
    insns: Seq<Insn>,
    cfg: &Cfg,
    prog: Prog,
    after: Prog,
    code: Seq<Insn>,
    before_run: VmModel,
    after_run: VmModel,
    limit: usize,
    end: (World, Ending),
)
    requires
        insns.len() > 0,
        cfg.describes(insns),
        forall|i: int| 0 <= i < insns.len() ==> (#[trigger] insns[i]).valid(),
        swaps_by_immediate(insns),
        prog.wf(),
        prog.is_ssa_of(insns, cfg.order()),
        prog.optimizes_to(after),
        after.sites.len() <= usize::MAX,
        after.lowers_to(Ok(code)),
        code.len() <= u32::MAX,
        fresh(before_run, insns),
        fresh(after_run, code),
        given_by(after_run) == given_by(before_run),
        world_of(after_run) == world_of(before_run),
    ensures
        machine_ends(before_run, limit, end) <==> machine_ends(after_run, limit, end),
{
    built_programs_end_alike(insns, cfg, prog);
    optimizing_keeps_endings(prog, after, given_by(before_run), world_of(before_run), end);
    lowered_code_runs_as_ssa(after, code, after_run, limit, end);
    assert(prog.ends_with(given_by(before_run), world_of(before_run), end) <==> machine_ends(before_run, limit, end));
}

impl Prog {
    /// Whether the SSA program ends as a program does, and only if it does.
    pub open spec fn ends_as(self, insns: Seq<Insn>) -> bool {
        forall|m: VmModel, limit: usize, end: (World, Ending)|
            fresh(m, insns) ==> (self.ends_with(given_by(m), world_of(m), end) <==> #[trigger] machine_ends(
                m,
                limit,
                end,
            ))
    }
}

/// An SSA program of a program is strict, and ends as the program does.
pub proof fn built_programs_end_alike(insns: Seq<Insn>, cfg: &Cfg, prog: Prog)
    requires
        insns.len() > 0,
        cfg.describes(insns),
        forall|i: int| 0 <= i < insns.len() ==> (#[trigger] insns[i]).valid(),
        swaps_by_immediate(insns),
        prog.wf(),
        prog.is_ssa_of(insns, cfg.order()),
    ensures
        prog.strict(),
        prog.ends_as(insns),
{
    built_programs_are_strict(insns, cfg, prog);
    assert forall|m: VmModel, limit: usize, end: (World, Ending)| fresh(m, insns) implies (prog.ends_with(
        given_by(m),
        world_of(m),
        end,
    ) <==> #[trigger] machine_ends(m, limit, end)) by {
        if prog.ends_with(given_by(m), world_of(m), end) {
            program_runs_as_ssa(insns, cfg, prog, m, limit, end);
        }
        if machine_ends(m, limit, end) {
            let fuel = choose|fuel: nat| #[trigger] end_within(m, fuel, limit) == Some(end);
            ssa_runs_as_program(insns, cfg, prog, m, fuel, limit);
        }
    }
}

/// Lowered code ends as the SSA program does.
pub proof fn lowered_code_ends_alike(prog: Prog, code: Seq<Insn>)
    requires
        prog.strict(),
        prog.sites.len() <= usize::MAX,
        prog.lowers_to(Ok(code)),
        code.len() <= u32::MAX,
    ensures
        prog.ends_as(code),
{
    assert forall|m: VmModel, limit: usize, end: (World, Ending)| fresh(m, code) implies (prog.ends_with(
        given_by(m),
        world_of(m),
        end,
    ) <==> #[trigger] machine_ends(m, limit, end)) by {
        lowered_code_runs_as_ssa(prog, code, m, limit, end);
    }
}

/// Whether code ends as a program does, from any start: with the same exit
/// code or the same fault, and with the same memory and maps. One never ends
/// where the other never does.
pub open spec fn ends_alike(insns: Seq<Insn>, code: Seq<Insn>) -> bool {
    forall|before: VmModel, after: VmModel, limit: usize, end: (World, Ending)|
        fresh(before, insns) && fresh(after, code) && given_by(after) == given_by(before) && world_of(after)
            == world_of(before) ==> (#[trigger] machine_ends(before, limit, end) <==> #[trigger] machine_ends(
            after,
            limit,
            end,
        ))
}

/// What was built into SSA form, optimized and lowered ends as the program
/// did.
pub proof fn optimized_code_ends_alike(insns: Seq<Insn>, cfg: &Cfg, prog: Prog, after: Prog, code: Seq<Insn>)
    requires
        insns.len() > 0,
        cfg.describes(insns),
        forall|i: int| 0 <= i < insns.len() ==> (#[trigger] insns[i]).valid(),
        swaps_by_immediate(insns),
        prog.wf(),
        prog.is_ssa_of(insns, cfg.order()),
        prog.optimizes_to(after),
        after.sites.len() <= usize::MAX,
        after.lowers_to(Ok(code)),
        code.len() <= u32::MAX,
    ensures
        ends_alike(insns, code),
{
    assert forall|a: VmModel, b: VmModel, limit: usize, end: (World, Ending)|
        fresh(a, insns) && fresh(b, code) && given_by(b) == given_by(a) && world_of(b) == world_of(a) implies (
    #[trigger] machine_ends(a, limit, end) <==> #[trigger] machine_ends(b, limit, end)) by {
        optimized_code_runs_as_program(insns, cfg, prog, after, code, a, b, limit, end);
    }
}

} // verus!
