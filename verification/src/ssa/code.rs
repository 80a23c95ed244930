//! How lowered code runs on the machine.
use vstd::prelude::*;

use crate::isa::insn::{Insn, JumpOp, Operand, Reg};
use crate::slots::{index_at, lemma_index_at, lemma_slot_monotone, slot_of, starts_at};
use crate::ssa::SsaError;
use crate::ssa::emit::{
    homes_valid, jumps_land_on_targets, lemma_place, lowered_insns_are_valid, move_pieces,
    moves_pieces, ordered_pieces, Emitted, Piece, Placement, Plan, Target,
};
use crate::ssa::moves::{
    agreeing, first_free, in_order, lemma_first_free, lemma_proper, moved, moved_in_turn,
    order_is_parallel, proper, source_value, writes, MoveSrc, PlacedMove, Regs,
};
use crate::ssa::run::{ending_of, world_of, Ending, World};
use crate::ssa::scope::lemma_move;
use crate::vm::{assigned, StepResult, VmModel};
use crate::vm::exec::{loaded, lowered, ExecInsn};

verus! {

/// A plan and the code that it is lowered to.
pub struct Code {
    /// The plan.
    pub plan: Plan,
    /// The moves on its edges.
    pub list: Seq<Placement>,
    /// The emitted pieces.
    pub pieces: Seq<Piece>,
    /// The lowered program.
    pub insns: Seq<Insn>,
}

impl Code {
    /// Whether the parts belong together.
    pub open spec fn ok(self) -> bool {
        &&& self.plan.prog.wf()
        &&& self.plan == self.plan.prog.plan(self.plan.homes)
        &&& homes_valid(self.plan)
        &&& self.plan.placements(0) == Ok::<Seq<Placement>, SsaError>(self.list)
        &&& self.plan.all_pieces(self.list) == Ok::<Seq<Piece>, SsaError>(self.pieces)
        &&& self.plan.lowered() == Ok::<Seq<Insn>, SsaError>(self.insns)
        &&& self.insns.len() <= u32::MAX
    }

    /// Whether a machine runs the code and is at an instruction.
    pub open spec fn at(self, m: VmModel, pc: int) -> bool {
        &&& m.code == loaded(self.insns)
        &&& m.pc == pc
        &&& m.regs.len() == 11
    }

    /// Whether some pieces stand at an index of the code.
    pub open spec fn holds(self, pc: int, some: Seq<Piece>) -> bool {
        &&& 0 <= pc
        &&& pc + some.len() <= self.pieces.len()
        &&& forall|k: int| 0 <= k < some.len() ==> self.pieces[pc + k] == #[trigger] some[k]
    }
}

/// A machine some steps later, if none of them ends its run.
pub open spec fn later(m: VmModel, k: nat) -> Option<VmModel>
    decreases k,
{
    if k == 0 {
        Some(m)
    } else {
        match m.step() {
            (n, StepResult::Continue) => later(n, (k - 1) as nat),
            _ => None,
        }
    }
}

/// Whether a machine comes to be another.
pub open spec fn comes_to(m: VmModel, n: VmModel) -> bool {
    exists|k: nat| #[trigger] later(m, k) == Some(n)
}

/// Whether a machine comes to be another in at least one step.
pub open spec fn strides(m: VmModel, n: VmModel) -> bool {
    exists|k: nat| k > 0 && #[trigger] later(m, k) == Some(n)
}

/// How a machine's run ends within a number of steps, and what it leaves.
pub open spec fn end_within(m: VmModel, fuel: nat, limit: usize) -> Option<(World, Ending)> {
    match ending_of(m.run(fuel, limit).1) {
        Some(e) => Some((world_of(m.run(fuel, limit).0), e)),
        None => None,
    }
}

/// Whether a machine's run ends, and so.
pub open spec fn machine_ends(m: VmModel, limit: usize, end: (World, Ending)) -> bool {
    exists|fuel: nat| #[trigger] end_within(m, fuel, limit) == Some(end)
}

/// A machine with other registers, at another instruction.
pub open spec fn moved_on(m: VmModel, regs: Seq<i64>, pc: int) -> VmModel {
    VmModel { regs, pc: pc as usize, ..m }
}

pub proof fn lemma_comes_refl(m: VmModel)
    ensures
        comes_to(m, m),
{
    assert(later(m, 0) == Some(m));
}

pub proof fn lemma_comes_step(m: VmModel)
    requires
        m.step().1 == StepResult::Continue,
    ensures
        comes_to(m, m.step().0),
        strides(m, m.step().0),
{
    assert(later(m.step().0, 0) == Some(m.step().0));
    assert(later(m, 1) == Some(m.step().0));
}

proof fn lemma_later(m: VmModel, j: nat, k: nat)
    requires
        later(m, j) is Some,
    ensures
        later(m, j + k) == later(later(m, j)->0, k),
    decreases j,
{
    if j > 0 {
        lemma_later(m.step().0, (j - 1) as nat, k);
    }
}

pub proof fn lemma_comes_on(m: VmModel, n: VmModel, o: VmModel)
    requires
        comes_to(m, n),
        comes_to(n, o),
    ensures
        comes_to(m, o),
        strides(m, n) || strides(n, o) ==> strides(m, o),
{
    let j = if strides(m, n) {
        choose|k: nat| k > 0 && #[trigger] later(m, k) == Some(n)
    } else {
        choose|k: nat| #[trigger] later(m, k) == Some(n)
    };
    let k = if strides(n, o) {
        choose|k: nat| k > 0 && #[trigger] later(n, k) == Some(o)
    } else {
        choose|k: nat| #[trigger] later(n, k) == Some(o)
    };
    lemma_later(m, j, k);
    assert(later(m, j + k) == Some(o));
}

/// A run that ends, from some steps later on.
pub proof fn lemma_later_end(m: VmModel, k: nat, fuel: nat, limit: usize)
    requires
        later(m, k) is Some,
        end_within(m, fuel, limit) is Some,
    ensures
        k < fuel,
        end_within(later(m, k)->0, (fuel - k) as nat, limit) == end_within(m, fuel, limit),
    decreases k,
{
    if k > 0 {
        lemma_later_end(m.step().0, (k - 1) as nat, (fuel - 1) as nat, limit);
    }
}

/// A run ends in one way.
pub proof fn lemma_one_end(m: VmModel, a: nat, b: nat, limit: usize)
    requires
        end_within(m, a, limit) is Some,
        end_within(m, b, limit) is Some,
    ensures
        end_within(m, a, limit) == end_within(m, b, limit),
    decreases a,
{
    if m.step().1 is Continue {
        lemma_one_end(m.step().0, (a - 1) as nat, (b - 1) as nat, limit);
    }
}

proof fn lemma_later_run(m: VmModel, k: nat, fuel: nat, limit: usize)
    requires
        later(m, k) is Some,
    ensures
        m.run(k + fuel, limit) == later(m, k)->0.run(fuel, limit),
    decreases k,
{
    if k > 0 {
        lemma_later_run(m.step().0, (k - 1) as nat, fuel, limit);
        assert((k + fuel - 1) as nat == (k - 1) as nat + fuel);
    }
}

/// A machine ends as the one that it comes to be.
pub proof fn lemma_comes_end(m: VmModel, n: VmModel, limit: usize, end: (World, Ending))
    requires
        comes_to(m, n),
        machine_ends(n, limit, end),
    ensures
        machine_ends(m, limit, end),
{
    let k = choose|k: nat| #[trigger] later(m, k) == Some(n);
    let fuel = choose|fuel: nat| #[trigger] end_within(n, fuel, limit) == Some(end);
    lemma_later_run(m, k, fuel, limit);
    assert(end_within(m, k + fuel, limit) == Some(end));
}

/// A machine whose step ends its run.
pub proof fn lemma_ends_now(m: VmModel, limit: usize)
    requires
        match m.step().1 {
            StepResult::Continue => false,
            StepResult::Exit(code) => true,
            StepResult::Error(e) => crate::ssa::run::fault_of(e) is Some,
        },
    ensures
        machine_ends(
            m,
            limit,
            (
                world_of(m.step().0),
                match m.step().1 {
                    StepResult::Exit(code) => Ending::Exit(code),
                    StepResult::Error(e) => crate::ssa::run::fault_of(e)->0,
                    _ => Ending::Illegal,
                },
            ),
        ),
{
    assert(end_within(m, 1, limit) is Some);
}

/// What a piece without a target becomes.
pub proof fn lemma_fetch(c: Code, i: int)
    requires
        c.ok(),
        0 <= i < c.pieces.len(),
    ensures
        c.insns.len() == c.pieces.len(),
        c.insns[i].valid(),
        c.pieces[i].target is None ==> c.insns[i] == c.pieces[i].insn,
        loaded(c.insns)[i] == lowered(c.insns, i),
{
    lowered_insns_are_valid(c.plan, i);
    assert(c.insns[i] == c.plan.resolved(c.list, i));
}

/// Where a jump leads, or that it traps.
pub proof fn lemma_fetch_jump(c: Code, i: int)
    requires
        c.ok(),
        0 <= i < c.pieces.len(),
        c.pieces[i].target is Some,
        c.pieces[i].insn is Jump,
    ensures
        c.insns.len() == c.pieces.len(),
        ({
            let to = c.plan.place(c.list, c.pieces[i].target->0);
            let insn = c.pieces[i].insn;
            &&& 0 <= to <= c.pieces.len()
            &&& if to < c.pieces.len() {
                loaded(c.insns)[i] == (if insn->Jump_op == JumpOp::Always {
                    ExecInsn::JumpAlways { target: to as u32 }
                } else {
                    match insn->Jump_src {
                        Operand::Reg(src) => ExecInsn::JumpReg {
                            width: insn->Jump_width,
                            op: insn->Jump_op,
                            dst: insn->Jump_dst,
                            src,
                            target: to as u32,
                        },
                        Operand::Imm(imm) => ExecInsn::JumpImm {
                            width: insn->Jump_width,
                            op: insn->Jump_op,
                            dst: insn->Jump_dst,
                            imm,
                            target: to as u32,
                        },
                    }
                })
            } else {
                loaded(c.insns)[i] matches ExecInsn::Trap(kind) && kind is OobJump
            }
        }),
{
    lemma_fetch(c, i);
    assert(c.insns[i] == c.plan.resolved(c.list, i));
    jumps_land_on_targets(c.plan, c.list, i);
    let to = c.plan.place(c.list, c.pieces[i].target->0);
    lemma_place(c.plan, c.list, c.pieces[i].target->0);
    let slot = slot_of(c.insns, to as nat) as int;
    if to < c.pieces.len() {
        lemma_index_at(c.insns, to);
    } else {
        if starts_at(c.insns, slot) {
            let d = index_at(c.insns, slot);
            lemma_slot_monotone(c.insns, d as nat, to as nat);
        }
    }
}

/// What a move source holds in some registers.
pub open spec fn source_in(regs: Seq<i64>, src: MoveSrc) -> i64 {
    match src {
        MoveSrc::Reg(r) => regs[r.0 as int],
        MoveSrc::Imm(k) => k as i64,
        MoveSrc::Wide(k) => k,
    }
}

/// Registers after a move.
pub open spec fn after_move(regs: Seq<i64>, m: PlacedMove) -> Seq<i64> {
    assigned(regs, m.dst, source_in(regs, m.src))
}

/// Registers after the first `n` of some moves.
pub open spec fn after_moves(regs: Seq<i64>, list: Seq<PlacedMove>, n: nat) -> Seq<i64>
    decreases n,
{
    if n == 0 {
        regs
    } else {
        after_move(after_moves(regs, list, (n - 1) as nat), list[n - 1])
    }
}

pub proof fn lemma_after_len(regs: Seq<i64>, list: Seq<PlacedMove>, n: nat)
    requires
        regs.len() == 11,
        n <= list.len(),
        forall|i: int| 0 <= i < n ==> movable(#[trigger] list[i]),
    ensures
        after_moves(regs, list, n).len() == 11,
    decreases n,
{
    if n > 0 {
        assert(movable(list[n - 1]));
        lemma_after_len(regs, list, (n - 1) as nat);
    }
}

/// Whether the registers of a move are registers, and it does not write the
/// frame pointer.
pub open spec fn movable(m: PlacedMove) -> bool {
    m.dst.0 < 10 && (m.src matches MoveSrc::Reg(r) ==> r.0 <= 10)
}

/// The machine at a move.
pub proof fn lemma_run_move(c: Code, m: VmModel, step: PlacedMove, pc: int)
    requires
        c.ok(),
        c.at(m, pc),
        movable(step),
        c.holds(pc, move_pieces(step)),
    ensures
        comes_to(m, moved_on(m, after_move(m.regs, step), pc + move_pieces(step).len())),
{
    let regs = after_move(m.regs, step);
    let n = moved_on(m, regs, pc + move_pieces(step).len());
    if move_pieces(step).len() == 0 {
        assert(regs =~= m.regs);
        assert(n == m);
        lemma_comes_refl(m);
    } else {
        assert(c.pieces[pc + 0] == move_pieces(step)[0]);
        lemma_fetch(c, pc);
        let x = source_in(m.regs, step.src);
        lemma_move(m.regs[step.dst.0 as int], x);
        assert(m.step() == (n, StepResult::Continue));
        lemma_comes_step(m);
    }
}

/// The machine at moves one after another.
pub proof fn lemma_run_moves(c: Code, m: VmModel, list: Seq<PlacedMove>, n: nat, pc: int)
    requires
        c.ok(),
        c.at(m, pc),
        n <= list.len(),
        forall|i: int| 0 <= i < n ==> movable(#[trigger] list[i]),
        c.holds(pc, moves_pieces(list, n)),
    ensures
        comes_to(m, moved_on(m, after_moves(m.regs, list, n), pc + moves_pieces(list, n).len())),
    decreases n,
{
    if n == 0 {
        assert(moved_on(m, m.regs, pc + 0) == m);
        lemma_comes_refl(m);
    } else {
        let some = moves_pieces(list, (n - 1) as nat);
        let last = move_pieces(list[n - 1]);
        let all = moves_pieces(list, n);
        assert(c.holds(pc, some)) by {
            assert forall|k: int| 0 <= k < some.len() implies c.pieces[pc + k] == #[trigger] some[k] by {
                assert(all[k] == some[k]);
            }
        }
        lemma_run_moves(c, m, list, (n - 1) as nat, pc);
        let regs = after_moves(m.regs, list, (n - 1) as nat);
        lemma_after_len(m.regs, list, (n - 1) as nat);
        let mid = moved_on(m, regs, pc + some.len());
        assert(c.holds(pc + some.len(), last)) by {
            assert forall|k: int| 0 <= k < last.len() implies c.pieces[pc + some.len() + k] == #[trigger] last[k] by {
                assert(all[some.len() + k] == last[k]);
                assert(c.pieces[pc + (some.len() + k)] == all[some.len() + k]);
            }
        }
        lemma_fetch_len(c);
        lemma_run_move(c, mid, list[n - 1], pc + some.len());
        lemma_comes_on(m, mid, moved_on(mid, after_move(regs, list[n - 1]), pc + some.len() + last.len()));
    }
}

/// The code is as long as the pieces, and its indices are machine numbers.
pub proof fn lemma_fetch_len(c: Code)
    requires
        c.ok(),
    ensures
        c.pieces.len() == c.insns.len(),
        c.pieces.len() <= u32::MAX,
{
}

/// The contents of registers as a function.
spec fn contents(regs: Seq<i64>) -> Regs {
    |r: Reg| regs[r.0 as int] as u64
}

proof fn lemma_bits(x: i64, k: i32)
    ensures
        (x as u64) as i64 == x,
        (k as i64) as u64 == k as u64,
{
    assert((x as u64) as i64 == x && (k as i64) as u64 == k as u64) by (bit_vector);
}

/// One more move at the end.
proof fn lemma_turn_push(regs: Regs, list: Seq<PlacedMove>, m: PlacedMove)
    ensures
        moved_in_turn(regs, list.push(m)) == moved(moved_in_turn(regs, list), m),
    decreases list.len(),
{
    let all = list.push(m);
    if list.len() == 0 {
        assert(all.drop_first() =~= Seq::empty());
        assert(moved_in_turn(moved(regs, all[0]), all.drop_first()) == moved(regs, all[0]));
    } else {
        assert(all.drop_first() =~= list.drop_first().push(m));
        lemma_turn_push(moved(regs, list[0]), list.drop_first(), m);
    }
}

/// Moves on registers and on their contents.
proof fn lemma_contents(regs: Seq<i64>, list: Seq<PlacedMove>, n: nat)
    requires
        regs.len() == 11,
        n <= list.len(),
        forall|i: int| 0 <= i < list.len() ==> movable(#[trigger] list[i]),
    ensures
        forall|r: Reg|
            r.0 <= 10 ==> after_moves(regs, list, n)[r.0 as int] as u64 == #[trigger] moved_in_turn(
                contents(regs),
                list.take(n as int),
            )(r),
    decreases n,
{
    if n == 0 {
        assert(list.take(0) =~= Seq::empty());
    } else {
        let before = list.take(n - 1);
        lemma_contents(regs, list, (n - 1) as nat);
        lemma_after_len(regs, list, (n - 1) as nat);
        let m = list[n - 1];
        assert(movable(m));
        assert(list.take(n as int) =~= before.push(m));
        lemma_turn_push(contents(regs), before, m);
        let mid = after_moves(regs, list, (n - 1) as nat);
        let fun = moved_in_turn(contents(regs), before);
        match m.src {
            MoveSrc::Reg(s) => {
                assert(mid[s.0 as int] as u64 == fun(s));
            },
            MoveSrc::Imm(k) => {
                lemma_bits(0, k);
            },
            MoveSrc::Wide(k) => {},
        }
        assert(source_in(mid, m.src) as u64 == source_value(fun, m.src));
        assert forall|r: Reg| r.0 <= 10 implies after_moves(regs, list, n)[r.0 as int] as u64
            == #[trigger] moved_in_turn(contents(regs), list.take(n as int))(r) by {
            assert(mid[r.0 as int] as u64 == fun(r));
        }
    }
}

/// Ordered moves are some of the moves.
proof fn lemma_order_from(moves: Seq<PlacedMove>)
    requires
        in_order(moves) is Some,
    ensures
        forall|i: int| 0 <= i < (in_order(moves)->0).len() ==> moves.contains(#[trigger] (in_order(moves)->0)[i]),
    decreases moves.len(),
{
    if moves.len() > 0 {
        lemma_first_free(moves, 0);
        let k = first_free(moves, 0)->0;
        let rest = moves.remove(k);
        lemma_order_from(rest);
        let list = in_order(moves)->0;
        let tail = in_order(rest)->0;
        assert forall|i: int| 0 <= i < list.len() implies moves.contains(#[trigger] list[i]) by {
            if i == 0 {
                assert(moves[k] == list[0]);
            } else {
                assert(list[i] == tail[i - 1]);
                let j = rest.index_of(tail[i - 1]);
                let h = if j < k {
                    j
                } else {
                    j + 1
                };
                assert(moves[h] == list[i]);
            }
        }
    }
}

/// Registers after moves that take place at once.
pub open spec fn at_once(before: Seq<i64>, after: Seq<i64>, moves: Seq<PlacedMove>) -> bool {
    &&& after.len() == 11
    &&& forall|i: int|
        0 <= i < moves.len() ==> after[(#[trigger] moves[i]).dst.0 as int] == source_in(before, moves[i].src)
    &&& forall|r: Reg| r.0 <= 10 && !(#[trigger] writes(moves, r)) ==> after[r.0 as int] == before[r.0 as int]
}

/// The machine at ordered moves does what the moves do at once.
pub proof fn lemma_run_ordered(c: Code, m: VmModel, moves: Seq<PlacedMove>, cycle: SsaError, pc: int) -> (n: VmModel)
    requires
        c.ok(),
        c.at(m, pc),
        agreeing(moves),
        forall|i: int| 0 <= i < moves.len() ==> movable(#[trigger] moves[i]),
        ordered_pieces(moves, cycle) is Ok,
        c.holds(pc, ordered_pieces(moves, cycle)->Ok_0),
    ensures
        comes_to(m, n),
        c.at(n, pc + (ordered_pieces(moves, cycle)->Ok_0).len()),
        world_of(n) == world_of(m),
        at_once(m.regs, n.regs, moves),
{
    let list = in_order(proper(moves))->0;
    let count = list.len();
    lemma_proper(moves);
    lemma_order_from(proper(moves));
    assert forall|i: int| 0 <= i < list.len() implies movable(#[trigger] list[i]) by {
        assert(proper(moves).contains(list[i]));
        assert(moves.contains(list[i]));
        let k = moves.index_of(list[i]);
        assert(movable(moves[k]));
    }
    lemma_run_moves(c, m, list, count, pc);
    lemma_after_len(m.regs, list, count);
    let regs = after_moves(m.regs, list, count);
    let n = moved_on(m, regs, pc + moves_pieces(list, count).len());
    lemma_fetch_len(c);
    order_is_parallel(contents(m.regs), moves);
    lemma_contents(m.regs, list, count);
    assert(list.take(count as int) =~= list);
    let fun = moved_in_turn(contents(m.regs), list);
    assert forall|i: int| 0 <= i < moves.len() implies regs[(#[trigger] moves[i]).dst.0 as int] == source_in(
        m.regs,
        moves[i].src,
    ) by {
        let step = moves[i];
        assert(movable(step));
        assert(fun(step.dst) == source_value(contents(m.regs), step.src));
        assert(regs[step.dst.0 as int] as u64 == fun(step.dst));
        lemma_bits(regs[step.dst.0 as int], 0);
        lemma_bits(source_in(m.regs, step.src), 0);
        if let MoveSrc::Imm(k) = step.src {
            lemma_bits(0, k);
        }
    }
    assert forall|r: Reg| r.0 <= 10 && !(#[trigger] writes(moves, r)) implies regs[r.0 as int] == m.regs[r.0 as int] by {
        assert(fun(r) == contents(m.regs)(r));
        assert(regs[r.0 as int] as u64 == fun(r));
        lemma_bits(regs[r.0 as int], 0);
        lemma_bits(m.regs[r.0 as int], 0);
    }
    n
}

/// The pieces of the first blocks start those of more blocks.
proof fn lemma_blocks_prefix(plan: Plan, list: Seq<Placement>, n: nat, m: nat)
    requires
        n <= m,
        plan.blocks_pieces(list, m) is Ok,
    ensures
        plan.blocks_pieces(list, n) is Ok,
        (plan.blocks_pieces(list, n)->Ok_0).len() <= (plan.blocks_pieces(list, m)->Ok_0).len(),
        forall|k: int|
            0 <= k < (plan.blocks_pieces(list, n)->Ok_0).len() ==> (plan.blocks_pieces(list, m)->Ok_0)[k]
                == #[trigger] (plan.blocks_pieces(list, n)->Ok_0)[k],
    decreases m,
{
    if n < m {
        lemma_blocks_prefix(plan, list, n, (m - 1) as nat);
    }
}

/// The pieces up to some trampolines start those up to more.
proof fn lemma_pieces_prefix(plan: Plan, list: Seq<Placement>, n: nat, m: nat)
    requires
        n <= m,
        plan.pieces(list, m) is Ok,
    ensures
        plan.pieces(list, n) is Ok,
        (plan.pieces(list, n)->Ok_0).len() <= (plan.pieces(list, m)->Ok_0).len(),
        forall|k: int|
            0 <= k < (plan.pieces(list, n)->Ok_0).len() ==> (plan.pieces(list, m)->Ok_0)[k]
                == #[trigger] (plan.pieces(list, n)->Ok_0)[k],
    decreases m,
{
    if n < m {
        lemma_pieces_prefix(plan, list, n, (m - 1) as nat);
    }
}

impl Code {
    /// Where a block starts.
    pub open spec fn block_at(self, b: usize) -> int {
        self.plan.place(self.list, Target::Block(b))
    }

    /// The pieces of a block from an instruction on, without its control.
    pub open spec fn body_from(self, b: usize, i: int) -> Emitted {
        self.plan.body_pieces(i, self.plan.prog.nodes[b as int].end as int)
    }

    /// Where the pieces of an instruction of a block start.
    pub open spec fn insn_at(self, b: usize, i: int) -> int {
        self.block_at(b) + (self.body_from(b, self.plan.prog.nodes[b as int].start as int)->Ok_0).len() - (
        self.body_from(b, i)->Ok_0).len()
    }

    /// The moves at the end of a block.
    pub open spec fn end_moves(self, b: usize) -> Seq<PlacedMove> {
        crate::ssa::emit::moves_at_end(self.plan, self.list, b)
    }

    /// The moves at the end of a block, in order.
    pub open spec fn end_pieces(self, b: usize) -> Emitted {
        ordered_pieces(self.end_moves(b), SsaError::PhiCycle)
    }

    /// Where the body of a block has ended.
    pub open spec fn moves_at(self, b: usize) -> int {
        self.block_at(b) + (self.body_from(b, self.plan.prog.nodes[b as int].start as int)->Ok_0).len()
    }

    /// Where the control of a block starts.
    pub open spec fn control_at(self, b: usize) -> int {
        self.moves_at(b) + (self.end_pieces(b)->Ok_0).len()
    }
}

/// A block that is laid out stands at its place.
proof fn lemma_block_placed(c: Code, pos: int)
    requires
        c.ok(),
        c.plan.order.no_duplicates(),
        0 <= pos < c.plan.order.len(),
    ensures
        ({
            let b = c.plan.order[pos];
            &&& c.plan.block_pieces(c.list, pos) is Ok
            &&& c.holds(c.block_at(b), c.plan.block_pieces(c.list, pos)->Ok_0)
            &&& pos + 1 < c.plan.order.len() ==> c.block_at(c.plan.order[pos + 1]) == c.block_at(b) + (
            c.plan.block_pieces(c.list, pos)->Ok_0).len()
        }),
{
    let plan = c.plan;
    let list = c.list;
    let b = plan.order[pos];
    let keys = crate::ssa::emit::tramp_keys(plan, list).len();
    lemma_pieces_prefix(plan, list, 0, keys);
    lemma_blocks_prefix(plan, list, (pos + 1) as nat, plan.order.len());
    lemma_blocks_prefix(plan, list, pos as nat, plan.order.len());
    let some = plan.blocks_pieces(list, pos as nat)->Ok_0;
    let more = plan.blocks_pieces(list, (pos + 1) as nat)->Ok_0;
    let own = plan.block_pieces(list, pos)->Ok_0;
    assert(more == some + own);
    assert(plan.order.contains(b));
    assert(plan.order.index_of(b) == pos);
    assert forall|k: int| 0 <= k < own.len() implies c.pieces[c.block_at(b) + k] == #[trigger] own[k] by {
        assert(more[some.len() + k] == own[k]);
        let all = plan.blocks_pieces(list, plan.order.len())->Ok_0;
        assert(all[some.len() + k] == more[some.len() + k]);
        assert(c.pieces[some.len() + k] == all[some.len() + k]);
    }
    if pos + 1 < plan.order.len() {
        let n = plan.order[pos + 1];
        assert(plan.order.contains(n));
        assert(plan.order.index_of(n) == pos + 1);
    }
}

/// The parts of a block.
pub proof fn lemma_block_parts(c: Code, pos: int)
    requires
        c.ok(),
        c.plan.order.no_duplicates(),
        0 <= pos < c.plan.order.len(),
        c.plan.order[pos] < c.plan.prog.nodes.len(),
    ensures
        ({
            let b = c.plan.order[pos];
            let start = c.plan.prog.nodes[b as int].start as int;
            &&& c.body_from(b, start) is Ok
            &&& c.holds(c.insn_at(b, start), c.body_from(b, start)->Ok_0)
            &&& c.insn_at(b, start) == c.block_at(b)
            &&& c.end_pieces(b) is Ok
            &&& c.holds(c.moves_at(b), c.end_pieces(b)->Ok_0)
            &&& c.plan.control_pieces(c.list, pos) is Ok
            &&& c.holds(c.control_at(b), c.plan.control_pieces(c.list, pos)->Ok_0)
            &&& pos + 1 < c.plan.order.len() ==> c.block_at(c.plan.order[pos + 1]) == c.control_at(b) + (
            c.plan.control_pieces(c.list, pos)->Ok_0).len()
        }),
{
    lemma_block_placed(c, pos);
    let b = c.plan.order[pos];
    let start = c.plan.prog.nodes[b as int].start as int;
    let own = c.plan.block_pieces(c.list, pos)->Ok_0;
    let body = c.body_from(b, start)->Ok_0;
    let moves = c.end_pieces(b)->Ok_0;
    let control = c.plan.control_pieces(c.list, pos)->Ok_0;
    assert(own == body + moves + control);
    assert forall|k: int| 0 <= k < body.len() implies c.pieces[c.block_at(b) + k] == #[trigger] body[k] by {
        assert(own[k] == body[k]);
    }
    assert forall|k: int| 0 <= k < moves.len() implies c.pieces[c.moves_at(b) + k] == #[trigger] moves[k] by {
        assert(own[body.len() + k] == moves[k]);
        assert(c.pieces[c.block_at(b) + (body.len() + k)] == own[body.len() + k]);
    }
    assert forall|k: int| 0 <= k < control.len() implies c.pieces[c.control_at(b) + k] == #[trigger] control[k] by {
        assert(own[body.len() + moves.len() + k] == control[k]);
        assert(c.pieces[c.block_at(b) + (body.len() + moves.len() + k)] == own[body.len() + moves.len() + k]);
    }
}

/// Where the pieces of an instruction stand.
pub proof fn lemma_insn_placed(c: Code, b: usize, i: int)
    requires
        c.ok(),
        c.body_from(b, i) is Ok,
        c.holds(c.insn_at(b, i), c.body_from(b, i)->Ok_0),
        i < c.plan.prog.nodes[b as int].end,
        !c.plan.prog.insns[i].is_control(),
    ensures
        c.plan.op_pieces(i) is Ok,
        c.holds(c.insn_at(b, i), c.plan.op_pieces(i)->Ok_0),
        c.body_from(b, i + 1) is Ok,
        c.insn_at(b, i + 1) == c.insn_at(b, i) + (c.plan.op_pieces(i)->Ok_0).len(),
        c.holds(c.insn_at(b, i + 1), c.body_from(b, i + 1)->Ok_0),
{
    let own = c.plan.op_pieces(i)->Ok_0;
    let rest = c.body_from(b, i + 1)->Ok_0;
    let all = c.body_from(b, i)->Ok_0;
    assert(all == own + rest);
    assert forall|k: int| 0 <= k < own.len() implies c.pieces[c.insn_at(b, i) + k] == #[trigger] own[k] by {
        assert(all[k] == own[k]);
    }
    assert forall|k: int| 0 <= k < rest.len() implies c.pieces[c.insn_at(b, i + 1) + k] == #[trigger] rest[k] by {
        assert(all[own.len() + k] == rest[k]);
        assert(c.pieces[c.insn_at(b, i) + (own.len() + k)] == all[own.len() + k]);
    }
}

/// A trampoline stands at its place.
pub proof fn lemma_tramp_placed(c: Code, k: int)
    requires
        c.ok(),
        0 <= k < crate::ssa::emit::tramp_keys(c.plan, c.list).len() <= usize::MAX,
    ensures
        c.plan.tramp_pieces(c.list, k) is Ok,
        c.holds(c.plan.place(c.list, Target::Tramp(k as usize)), c.plan.tramp_pieces(c.list, k)->Ok_0),
{
    let plan = c.plan;
    let list = c.list;
    let keys = crate::ssa::emit::tramp_keys(plan, list).len();
    lemma_pieces_prefix(plan, list, k as nat, keys);
    lemma_pieces_prefix(plan, list, (k + 1) as nat, keys);
    let some = plan.pieces(list, k as nat)->Ok_0;
    let more = plan.pieces(list, (k + 1) as nat)->Ok_0;
    let own = plan.tramp_pieces(list, k)->Ok_0;
    assert(more == some + own);
    assert forall|j: int| 0 <= j < own.len() implies c.pieces[some.len() + j] == #[trigger] own[j] by {
        assert(more[some.len() + j] == own[j]);
    }
}

} // verus!
