//! Lowering: SSA back to instructions.
//!
//! [`lower`] assigns registers ([`crate::ssa::homes`]), lays out the live
//! blocks ([`crate::ssa::layout`]), emits them with their phi moves and call
//! shuffles, and fills in the jump offsets. What it emits is stated in
//! [`crate::ssa::emit`]. It refuses a program that needs more than it has.
use vstd::prelude::*;

use crate::graph::{ssa_block, ssa_node_count};
use crate::isa::insn::{AluOp, Insn, JumpOp, Operand, Reg, Width};
use crate::slots::{slot_of, slot_width};
use crate::ssa::emit::{
    cat, const_src, homes_valid, insns_of, inverse, jump, lemma_place, mov, move_pieces, moves_at_end,
    moves_pieces, occurrences, ordered_pieces, plain, tramp_keys, tramp_moves, with_offset, Piece,
    Placement, Plan, Target,
};
use crate::ssa::flow::{live_successors, liveness, terminator};
use crate::ssa::homes::{allocate, homes_are_registers, pool_reg, Allocation};
use crate::ssa::layout::{layout, layout_is_complete};
use crate::ssa::moves::{is_read, order_moves, writes, MoveSrc, PlacedMove};
use crate::ssa::ranges::live_ranges;
use crate::ssa::sound::lowered_code_ends_alike;
use crate::ssa::{Prog, SsaError, SsaInsn, SsaOperand, SsaProgram, SsaValue, START_PRED};

mod clear;
mod settle;

verus! {

/// Lowering state.
struct Lower<'p> {
    prog: &'p SsaProgram,
    alloc: Allocation,
    /// Live ranges by value.
    ranges: Vec<(usize, usize)>,
    /// Blocks that control can reach.
    live: Vec<bool>,
    /// The live blocks in the order of emission.
    order: Vec<usize>,
    /// Whether several edges leave a block.
    forks: Vec<bool>,
    /// Whether several edges lead into a block.
    joins: Vec<bool>,
    /// Phi moves at the end of each block.
    end_moves: Vec<Vec<PlacedMove>>,
    /// The edges of the trampolines.
    keys: Vec<(usize, usize)>,
    /// The moves of the trampolines.
    tramps: Vec<Vec<PlacedMove>>,
    /// All phi moves.
    list: Ghost<Seq<Placement>>,
}

/// Results with a prefix.
spec fn after<T>(some: Seq<T>, r: Result<Seq<T>, SsaError>) -> Result<Seq<T>, SsaError> {
    match r {
        Ok(more) => Ok(some + more),
        Err(e) => Err(e),
    }
}

/// Whether placements name blocks below a bound.
spec fn in_range(list: Seq<Placement>, n: nat) -> bool {
    forall|i: int| 0 <= i < list.len() ==> (#[trigger] list[i]).pred < n && list[i].block < n
}

/// Whether a list was extended by a result, or the result is an error.
spec fn extended<T>(
    before: Seq<T>,
    now: Seq<T>,
    r: Result<(), SsaError>,
    by: Result<Seq<T>, SsaError>,
) -> bool {
    match by {
        Ok(more) => r is Ok && now == before + more,
        Err(e) => r == Err::<(), SsaError>(e),
    }
}

/// The constant as a move source.
fn const_source(value: i64) -> (r: MoveSrc)
    ensures
        r == const_src(value),
{
    if value >= i32::MIN as i64 && value <= i32::MAX as i64 {
        MoveSrc::Imm(value as i32)
    } else {
        MoveSrc::Wide(value)
    }
}

/// The opposite of a comparison, if it has one.
pub fn invert(op: JumpOp) -> (r: Option<JumpOp>)
    ensures
        r == inverse(op),
{
    match op {
        JumpOp::Eq => Some(JumpOp::Ne),
        JumpOp::Ne => Some(JumpOp::Eq),
        JumpOp::Gt => Some(JumpOp::Le),
        JumpOp::Ge => Some(JumpOp::Lt),
        JumpOp::Lt => Some(JumpOp::Ge),
        JumpOp::Le => Some(JumpOp::Gt),
        JumpOp::Sgt => Some(JumpOp::Sle),
        JumpOp::Sge => Some(JumpOp::Slt),
        JumpOp::Slt => Some(JumpOp::Sge),
        JumpOp::Sle => Some(JumpOp::Sgt),
        _ => None,
    }
}

/// Emits a move, unless it copies a register to itself.
fn emit_move(out: &mut Vec<Piece>, m: PlacedMove)
    ensures
        final(out)@ == old(out)@ + move_pieces(m),
{
    match m.src {
        MoveSrc::Reg(s) => {
            if s != m.dst {
                out.push(Piece { insn: mov_insn(m.dst, Operand::Reg(s)), target: None });
            }
        },
        MoveSrc::Imm(k) => {
            out.push(Piece { insn: mov_insn(m.dst, Operand::Imm(k)), target: None });
        },
        MoveSrc::Wide(k) => {
            out.push(Piece { insn: Insn::LoadImm64 { dst: m.dst, imm: k }, target: None });
        },
    }
    assert(out@ =~= old(out)@ + move_pieces(m));
}

/// A register move.
fn mov_insn(dst: Reg, src: Operand) -> (r: Insn)
    ensures
        r == mov(dst, src),
{
    Insn::Alu { width: Width::B64, op: AluOp::Mov, dst, src }
}

/// Emits an unconditional jump.
fn emit_jump(out: &mut Vec<Piece>, target: Target)
    ensures
        final(out)@ == old(out)@ + seq![jump(target)],
{
    out.push(
        Piece {
            insn: Insn::Jump {
                width: Width::B64,
                op: JumpOp::Always,
                dst: Reg(0),
                src: Operand::Imm(0),
                offset: 0,
            },
            target: Some(target),
        },
    );
    assert(out@ =~= old(out)@ + seq![jump(target)]);
}

/// Emits an instruction that is no jump.
fn emit_plain(out: &mut Vec<Piece>, insn: Insn)
    ensures
        final(out)@ == old(out)@ + seq![plain(insn)],
{
    out.push(Piece { insn, target: None });
    assert(out@ =~= old(out)@ + seq![plain(insn)]);
}

/// A copy of moves.
fn copy_moves(moves: &Vec<PlacedMove>) -> (r: Vec<PlacedMove>)
    ensures
        r@ == moves@,
{
    let mut r: Vec<PlacedMove> = Vec::new();
    let mut i: usize = 0;
    while i < moves.len()
        invariant
            i <= moves@.len(),
            r@ == moves@.take(i as int),
        decreases moves@.len() - i,
    {
        r.push(moves[i]);
        i = i + 1;
        assert(r@ =~= moves@.take(i as int));
    }
    assert(r@ =~= moves@);
    r
}

/// Emits parallel moves in a sequential order.
fn emit_moves(out: &mut Vec<Piece>, moves: &Vec<PlacedMove>, cycle: SsaError) -> (r: Result<(), SsaError>)
    ensures
        extended(old(out)@, final(out)@, r, ordered_pieces(moves@, cycle)),
{
    let ghost before = out@;
    let list = match order_moves(copy_moves(moves), cycle) {
        Err(e) => {
            return Err(e);
        },
        Ok(list) => list,
    };
    let mut i: usize = 0;
    assert(before + Seq::<Piece>::empty() =~= before);
    while i < list.len()
        invariant
            i <= list@.len(),
            out@ == before + moves_pieces(list@, i as nat),
        decreases list@.len() - i,
    {
        emit_move(out, list[i]);
        assert(before + moves_pieces(list@, i as nat) + move_pieces(list@[i as int]) =~= before
            + moves_pieces(list@, (i + 1) as nat));
        i = i + 1;
    }
    Ok(())
}

impl<'p> Lower<'p> {
    /// The plan.
    spec fn plan(&self) -> Plan {
        Plan {
            prog: self.prog@,
            homes: self.alloc.homes@,
            live: self.live@,
            order: self.order@,
        }
    }

    /// What holds before phi moves are collected.
    spec fn ready(&self) -> bool {
        let n = self.prog@.nodes.len();
        &&& self.prog@.wf()
        &&& self.alloc.homes@.len() == self.prog@.sites.len()
        &&& self.ranges@.len() == self.prog@.sites.len()
        &&& forall|id: int|
            0 <= id < self.ranges@.len() ==> #[trigger] self.ranges@[id] == self.prog@.range_of(id)
        &&& self.live@.len() == n
        &&& forall|k: int| 0 <= k < self.order@.len() ==> (#[trigger] self.order@[k]) < n
        &&& self.order@.no_duplicates()
        &&& self.forks@.len() == n
        &&& forall|b: usize| b < n ==> #[trigger] self.forks@[b as int] == self.plan().forks(b)
        &&& self.joins@.len() == n
        &&& forall|b: usize|
            b < n ==> #[trigger] self.joins@[b as int] == (self.plan().entries(b, n) > 1)
        &&& self.end_moves@.len() == n
    }

    /// What holds after the first phi moves are collected.
    spec fn collected(&self, list: Seq<Placement>) -> bool {
        &&& forall|p: usize|
            p < self.prog@.nodes.len() ==> (#[trigger] self.end_moves@[p as int])@ == moves_at_end(
                self.plan(),
                list,
                p,
            )
        &&& self.keys@ == tramp_keys(self.plan(), list)
        &&& self.tramps@.len() == self.keys@.len()
        &&& forall|k: int|
            0 <= k < self.keys@.len() ==> (#[trigger] self.tramps@[k])@ == tramp_moves(
                list,
                self.keys@[k],
            )
    }

    /// The register of a value.
    fn home_of(&self, v: SsaValue) -> (r: Option<Reg>)
        ensures
            r == self.plan().home(v),
    {
        self.alloc.home(v)
    }

    /// A value as a move source.
    fn move_src(&self, v: SsaValue) -> (r: Result<MoveSrc, SsaError>)
        ensures
            r == self.plan().move_src(v),
    {
        if let Some(home) = self.home_of(v) {
            return Ok(MoveSrc::Reg(home));
        }
        match self.prog.def_of(v) {
            Some(SsaInsn::Const { value, .. }) => Ok(const_source(*value)),
            _ => Err(SsaError::OutOfRegisters),
        }
    }

    /// An operand as a move source.
    fn move_src_of(&self, operand: SsaOperand) -> (r: Result<MoveSrc, SsaError>)
        ensures
            r == self.plan().move_src_of(operand),
    {
        match operand {
            SsaOperand::Value(v) => self.move_src(v),
            SsaOperand::Imm(k) => Ok(MoveSrc::Imm(k)),
        }
    }

    /// An operand of an instruction.
    fn operand_of(&self, operand: SsaOperand) -> (r: Option<Operand>)
        ensures
            r == self.plan().operand(operand),
    {
        match operand {
            SsaOperand::Value(v) => match self.home_of(v) {
                Some(r) => Some(Operand::Reg(r)),
                None => None,
            },
            SsaOperand::Imm(k) => Some(Operand::Imm(k)),
        }
    }
}

/// Which blocks several edges leave, and into which several lead.
fn edge_counts(prog: &SsaProgram, live: &Vec<bool>, Ghost(plan): Ghost<Plan>) -> (r: (Vec<bool>, Vec<bool>))
    requires
        prog@.wf(),
        plan.prog == prog@,
        plan.live == live@,
        live@.len() == prog@.nodes.len(),
    ensures
        r.0@.len() == prog@.nodes.len(),
        r.1@.len() == prog@.nodes.len(),
        forall|b: usize| b < prog@.nodes.len() ==> #[trigger] r.0@[b as int] == plan.forks(b),
        forall|b: usize|
            b < prog@.nodes.len() ==> #[trigger] r.1@[b as int] == (plan.entries(
                b,
                prog@.nodes.len(),
            ) > 1),
{
    let n: usize = ssa_node_count(&prog.graph);
    let mut forks: Vec<bool> = Vec::new();
    let mut entered: Vec<bool> = Vec::new();
    let mut joins: Vec<bool> = Vec::new();
    while entered.len() < n
        invariant
            entered@.len() <= n,
            joins@.len() == entered@.len(),
            forall|b: int| 0 <= b < entered@.len() ==> !#[trigger] entered@[b],
            forall|b: int| 0 <= b < joins@.len() ==> !#[trigger] joins@[b],
        decreases n - entered@.len(),
    {
        entered.push(false);
        joins.push(false);
    }
    let mut p: usize = 0;
    while p < n
        invariant
            p <= n,
            n == prog@.nodes.len(),
            prog@.wf(),
            plan.prog == prog@,
            plan.live == live@,
            live@.len() == n,
            forks@.len() == p,
            entered@.len() == n,
            joins@.len() == n,
            forall|b: usize| b < p ==> #[trigger] forks@[b as int] == plan.forks(b),
            forall|b: usize| b < n ==> #[trigger] entered@[b as int] == (plan.entries(b, p as nat) > 0),
            forall|b: usize| b < n ==> #[trigger] joins@[b as int] == (plan.entries(b, p as nat) > 1),
        decreases n - p,
    {
        if live[p] {
            let to = live_successors(prog, p);
            forks.push(to.len() > 1);
            let mut i: usize = 0;
            while i < to.len()
                invariant
                    i <= to@.len(),
                    p < n,
                    to@ == prog@.successors(p),
                    forall|k: int| 0 <= k < to@.len() ==> #[trigger] to@[k] < n,
                    entered@.len() == n,
                    joins@.len() == n,
                    forall|b: usize|
                        b < n ==> #[trigger] entered@[b as int] == (plan.entries(b, p as nat)
                            + occurrences(to@, b, i as nat) > 0),
                    forall|b: usize|
                        b < n ==> #[trigger] joins@[b as int] == (plan.entries(b, p as nat)
                            + occurrences(to@, b, i as nat) > 1),
                decreases to@.len() - i,
            {
                let t: usize = to[i];
                let ghost (before, many) = (entered@, joins@);
                if entered[t] {
                    joins.set(t, true);
                } else {
                    entered.set(t, true);
                }
                proof {
                    assert forall|b: usize| b < n implies #[trigger] entered@[b as int] == (plan.entries(
                        b,
                        p as nat,
                    ) + occurrences(to@, b, (i + 1) as nat) > 0) by {
                        assert(before[b as int] == (plan.entries(b, p as nat) + occurrences(
                            to@,
                            b,
                            i as nat,
                        ) > 0));
                    }
                    assert forall|b: usize| b < n implies #[trigger] joins@[b as int] == (plan.entries(
                        b,
                        p as nat,
                    ) + occurrences(to@, b, (i + 1) as nat) > 1) by {
                        assert(many[b as int] == (plan.entries(b, p as nat) + occurrences(
                            to@,
                            b,
                            i as nat,
                        ) > 1));
                        assert(before[b as int] == (plan.entries(b, p as nat) + occurrences(
                            to@,
                            b,
                            i as nat,
                        ) > 0));
                    }
                }
                i = i + 1;
            }
        } else {
            forks.push(false);
        }
        p = p + 1;
    }
    (forks, joins)
}

impl<'p> Lower<'p> {
    /// The moves that give a phi its inputs.
    fn place_inputs(
        &self,
        b: usize,
        home: Reg,
        inputs: &Vec<(usize, SsaValue)>,
        list: &mut Vec<Placement>,
    ) -> (r: Result<(), SsaError>)
        requires
            self.ready(),
            forall|i: int|
                0 <= i < inputs@.len() ==> (#[trigger] inputs@[i]).0 == START_PRED || inputs@[i].0
                    < self.prog@.nodes.len(),
            b < self.prog@.nodes.len(),
            in_range(old(list)@, self.prog@.nodes.len()),
        ensures
            extended(
                old(list)@,
                final(list)@,
                r,
                self.plan().input_placements(b, home, inputs@, 0),
            ),
            in_range(final(list)@, self.prog@.nodes.len()),
    {
        let ghost plan = self.plan();
        let ghost before = list@;
        let ghost all = plan.input_placements(b, home, inputs@, 0);
        let mut k: usize = 0;
        proof {
            if let Ok(l) = all {
                assert(before + l =~= before + l);
            }
        }
        while k < inputs.len()
            invariant
                k <= inputs@.len(),
                self.ready(),
                plan == self.plan(),
                forall|i: int|
                    0 <= i < inputs@.len() ==> (#[trigger] inputs@[i]).0 == START_PRED || inputs@[i].0
                        < self.prog@.nodes.len(),
                b < self.prog@.nodes.len(),
                in_range(list@, self.prog@.nodes.len()),
                all == plan.input_placements(b, home, inputs@, 0),
                after(before, all) == after(
                    list@,
                    plan.input_placements(b, home, inputs@, k as nat),
                ),
            decreases inputs@.len() - k,
        {
            let (p, v) = inputs[k];
            if p == START_PRED {
                match self.move_src(v) {
                    Err(e) => {
                        return Err(e);
                    },
                    Ok(src) => {
                        if src != MoveSrc::Reg(home) {
                            return Err(SsaError::PhiCycle);
                        }
                    },
                }
            } else if self.live[p] {
                match self.move_src(v) {
                    Err(e) => {
                        return Err(e);
                    },
                    Ok(src) => {
                        let one = Placement { pred: p, block: b, step: PlacedMove { dst: home, src } };
                        let ghost some = list@;
                        list.push(one);
                        proof {
                            if let Ok(l) = plan.input_placements(b, home, inputs@, (k + 1) as nat) {
                                assert(some + (seq![one] + l) =~= list@ + l);
                            }
                        }
                    },
                }
            }
            k = k + 1;
        }
        assert(list@ + Seq::<Placement>::empty() =~= list@);
        Ok(())
    }

    /// The moves of the phis of a block.
    fn place_phis(&self, b: usize, list: &mut Vec<Placement>) -> (r: Result<(), SsaError>)
        requires
            self.ready(),
            b < self.prog@.nodes.len(),
            in_range(old(list)@, self.prog@.nodes.len()),
        ensures
            extended(
                old(list)@,
                final(list)@,
                r,
                self.plan().phi_placements(
                    b,
                    self.prog@.nodes[b as int].start as int,
                    self.prog@.nodes[b as int].end as int,
                ),
            ),
            in_range(final(list)@, self.prog@.nodes.len()),
    {
        let ghost plan = self.plan();
        let ghost before = list@;
        let bb = ssa_block(&self.prog.graph, b);
        let ghost all = plan.phi_placements(b, bb.start as int, bb.end as int);
        proof {
            lemma_block_end(self.prog@, b);
        }
        let mut i: usize = bb.start;
        while i < bb.end
            invariant
                b < self.prog@.nodes.len(),
                in_range(list@, self.prog@.nodes.len()),
                bb == self.prog@.nodes[b as int],
                bb.start <= i <= bb.end,
                bb.end <= self.prog@.insns.len(),
                self.ready(),
                plan == self.plan(),
                all == plan.phi_placements(b, bb.start as int, bb.end as int),
                after(before, all) == after(list@, plan.phi_placements(b, i as int, bb.end as int)),
            decreases bb.end - i,
        {
            assert(self.prog@.insns[i as int] == self.prog.insns@[i as int]@);
            if let SsaInsn::Phi { dst, inputs } = &self.prog.insns[i] {
                if let Some(home) = self.home_of(*dst) {
                    let ghost some = list@;
                    let ghost op = self.prog@.insns[i as int];
                    proof {
                        assert(op.blocks_below(self.prog@.nodes.len()));
                        assert(op->Phi_inputs == inputs@);
                        assert forall|j: int| 0 <= j < inputs@.len() implies (#[trigger] inputs@[j]).0
                            == START_PRED || inputs@[j].0 < self.prog@.nodes.len() by {
                            assert(op->Phi_inputs[j] == inputs@[j]);
                        }
                    }
                    match self.place_inputs(b, home, inputs, list) {
                        Err(e) => {
                            return Err(e);
                        },
                        Ok(()) => {},
                    }
                    proof {
                        let one = plan.input_placements(b, home, inputs@, 0)->Ok_0;
                        if let Ok(l) = plan.phi_placements(b, i + 1, bb.end as int) {
                            assert(some + (one + l) =~= list@ + l);
                        }
                    }
                }
            }
            i = i + 1;
        }
        assert(list@ + Seq::<Placement>::empty() =~= list@);
        Ok(())
    }

    /// The moves of all phis of live blocks.
    fn place_all(&self) -> (r: Result<Vec<Placement>, SsaError>)
        requires
            self.ready(),
        ensures
            match self.plan().placements(0) {
                Ok(list) => r matches Ok(v) && v@ == list && in_range(list, self.prog@.nodes.len()),
                Err(e) => r == Err::<Vec<Placement>, SsaError>(e),
            },
    {
        let ghost plan = self.plan();
        let n: usize = ssa_node_count(&self.prog.graph);
        let mut list: Vec<Placement> = Vec::new();
        let mut b: usize = 0;
        proof {
            if let Ok(l) = plan.placements(0) {
                assert(list@ + l =~= l);
            }
        }
        while b < n
            invariant
                b <= n,
                n == self.prog@.nodes.len(),
                self.ready(),
                plan == self.plan(),
                in_range(list@, n as nat),
                plan.placements(0) == after(list@, plan.placements(b as nat)),
            decreases n - b,
        {
            if self.live[b] {
                let ghost some = list@;
                match self.place_phis(b, &mut list) {
                    Err(e) => {
                        return Err(e);
                    },
                    Ok(()) => {},
                }
                proof {
                    let block = self.prog@.nodes[b as int];
                    let one = plan.phi_placements(b, block.start as int, block.end as int)->Ok_0;
                    if let Ok(l) = plan.placements((b + 1) as nat) {
                        assert(some + (one + l) =~= list@ + l);
                    }
                }
            }
            b = b + 1;
        }
        assert(list@ + Seq::<Placement>::empty() =~= list@);
        Ok(list)
    }

    /// Whether moves on an edge need a trampoline.
    fn is_critical(&self, p: usize, b: usize) -> (r: bool)
        requires
            self.ready(),
            p < self.prog@.nodes.len(),
            b < self.prog@.nodes.len(),
        ensures
            r == self.plan().critical(p, b),
    {
        self.forks[p] && self.joins[b]
    }

    /// The trampoline of an edge.
    fn find_key(&self, p: usize, b: usize) -> (r: Option<usize>)
        ensures
            match r {
                Some(k) => k < self.keys@.len() && self.keys@[k as int] == (p, b) && forall|i: int|
                    0 <= i < k ==> #[trigger] self.keys@[i] != (p, b),
                None => !self.keys@.contains((p, b)),
            },
    {
        let mut k: usize = 0;
        while k < self.keys.len()
            invariant
                k <= self.keys@.len(),
                forall|i: int| 0 <= i < k ==> #[trigger] self.keys@[i] != (p, b),
            decreases self.keys@.len() - k,
        {
            let (from, to) = self.keys[k];
            if from == p && to == b {
                return Some(k);
            }
            k = k + 1;
        }
        None
    }
}

/// A block ends within the program.
proof fn lemma_block_end(prog: Prog, b: usize)
    requires
        prog.wf(),
        b < prog.nodes.len(),
    ensures
        prog.nodes[b as int].start <= prog.nodes[b as int].end <= prog.insns.len(),
{
    if b < prog.nodes.len() - 1 {
        assert(prog.nodes[b as int].end <= prog.nodes[prog.nodes.len() - 1].start);
    }
}

impl<'p> Lower<'p> {
    /// Distributes phi moves to block ends and trampolines.
    fn collect(&mut self, list: &Vec<Placement>)
        requires
            old(self).ready(),
            old(self).collected(Seq::empty()),
            in_range(list@, old(self).prog@.nodes.len()),
        ensures
            final(self).ready(),
            final(self).plan() == old(self).plan(),
            final(self).collected(list@),
    {
        let mut k: usize = 0;
        let ghost plan = self.plan();
        assert(list@.take(0) =~= Seq::empty());
        while k < list.len()
            invariant
                k <= list@.len(),
                self.ready(),
                self.plan() == plan,
                plan == old(self).plan(),
                in_range(list@, self.prog@.nodes.len()),
                self.collected(list@.take(k as int)),
            decreases list@.len() - k,
        {
            let one = list[k];
            let ghost some = list@.take(k as int);
            let ghost more = list@.take(k + 1);
            let ghost n = self.prog@.nodes.len();
            assert(more.drop_last() =~= some);
            assert(more.last() == one);
            let ghost (ends, keys, tramps) = (self.end_moves@, self.keys@, self.tramps@);
            if self.is_critical(one.pred, one.block) {
                match self.find_key(one.pred, one.block) {
                    Some(i) => {
                        assert(keys.contains((one.pred, one.block)));
                        self.tramps[i].push(one.step);
                        proof {
                            assert forall|j: int| 0 <= j < self.keys@.len() implies (
                            #[trigger] self.tramps@[j])@ == tramp_moves(more, self.keys@[j]) by {
                                assert(tramps[j]@ == tramp_moves(some, keys[j]));
                                if j != i {
                                    assert(keys[j] != keys[i as int]) by {
                                        lemma_keys(plan, some);
                                    }
                                }
                            }
                        }
                    },
                    None => {
                        self.keys.push((one.pred, one.block));
                        let mut moves: Vec<PlacedMove> = Vec::new();
                        moves.push(one.step);
                        self.tramps.push(moves);
                        proof {
                            lemma_no_moves(plan, some, (one.pred, one.block));
                            assert forall|j: int| 0 <= j < self.keys@.len() implies (
                            #[trigger] self.tramps@[j])@ == tramp_moves(more, self.keys@[j]) by {
                                if j < keys.len() {
                                    assert(tramps[j]@ == tramp_moves(some, keys[j]));
                                    assert(keys.contains(keys[j]));
                                } else {
                                    assert(moves@ =~= tramp_moves(some, self.keys@[j]).push(one.step));
                                }
                            }
                        }
                    },
                }
            } else {
                self.end_moves[one.pred].push(one.step);
                proof {
                    assert forall|j: int| 0 <= j < self.keys@.len() implies (#[trigger] self.tramps@[j])@
                        == tramp_moves(more, self.keys@[j]) by {
                        assert(tramps[j]@ == tramp_moves(some, keys[j]));
                        lemma_keys(plan, some);
                    }
                }
            }
            proof {
                assert(self.ready());
                assert forall|p: usize| p < n implies (#[trigger] self.end_moves@[p as int])@ == moves_at_end(
                    plan,
                    more,
                    p,
                ) by {
                    assert(ends[p as int]@ == moves_at_end(plan, some, p));
                }
            }
            k = k + 1;
        }
        assert(list@.take(k as int) =~= list@);
    }
}

/// The trampolines of placements are those of critical edges, once each.
proof fn lemma_keys(plan: Plan, list: Seq<Placement>)
    ensures
        tramp_keys(plan, list).no_duplicates(),
        forall|k: int|
            0 <= k < tramp_keys(plan, list).len() ==> plan.critical(
                (#[trigger] tramp_keys(plan, list)[k]).0,
                tramp_keys(plan, list)[k].1,
            ),
    decreases list.len(),
{
    if list.len() > 0 {
        lemma_keys(plan, list.drop_last());
        let rest = tramp_keys(plan, list.drop_last());
        let all = tramp_keys(plan, list);
        assert forall|k: int| 0 <= k < all.len() implies plan.critical((#[trigger] all[k]).0, all[k].1) by {
            if k < rest.len() {
                assert(all[k] == rest[k]);
            }
        }
    }
}

/// An edge without a trampoline has no moves that need one.
proof fn lemma_no_moves(plan: Plan, list: Seq<Placement>, key: (usize, usize))
    requires
        plan.critical(key.0, key.1),
        !tramp_keys(plan, list).contains(key),
    ensures
        tramp_moves(list, key) == Seq::<PlacedMove>::empty(),
    decreases list.len(),
{
    if list.len() > 0 {
        let rest = tramp_keys(plan, list.drop_last());
        let all = tramp_keys(plan, list);
        let last = list.last();
        assert(!rest.contains(key)) by {
            if rest.contains(key) {
                let k = rest.index_of(key);
                assert(all[k] == key);
            }
        }
        lemma_no_moves(plan, list.drop_last(), key);
        if (last.pred, last.block) == key {
            assert(all == rest.push(key));
            assert(all[rest.len() as int] == key);
        }
    }
}

impl<'p> Lower<'p> {
    /// Whether a register holds a value that is live at a position.
    fn holds(&self, r: Reg, pos: usize) -> (b: bool)
        requires
            self.ready(),
        ensures
            b == self.plan().holds(r, pos as int),
    {
        let ghost plan = self.plan();
        let mut id: usize = 0;
        while id < self.ranges.len()
            invariant
                self.ready(),
                plan == self.plan(),
                id <= self.ranges@.len(),
                forall|k: int|
                    0 <= k < id ==> !((#[trigger] plan.homes[k]) == Some(r) && plan.prog.range_of(k).0 <= pos
                        < plan.prog.range_of(k).1),
            decreases self.ranges@.len() - id,
        {
            let (start, end) = self.ranges[id];
            if start <= pos && pos < end {
                if let Some(home) = self.alloc.homes[id] {
                    if home == r {
                        assert(plan.homes[id as int] == Some(r));
                        return true;
                    }
                }
            }
            id = id + 1;
        }
        false
    }

    /// Whether a register holds a value from before a position to behind it.
    fn crosses(&self, r: Reg, pos: usize) -> (b: bool)
        requires
            self.ready(),
        ensures
            b == self.plan().crosses(r, pos as int),
    {
        let ghost plan = self.plan();
        let mut id: usize = 0;
        while id < self.ranges.len()
            invariant
                self.ready(),
                plan == self.plan(),
                id <= self.ranges@.len(),
                forall|k: int|
                    0 <= k < id ==> !((#[trigger] plan.homes[k]) == Some(r) && plan.prog.range_of(k).0 < pos
                        < plan.prog.range_of(k).1),
            decreases self.ranges@.len() - id,
        {
            let (start, end) = self.ranges[id];
            if start < pos && pos < end {
                if let Some(home) = self.alloc.homes[id] {
                    if home == r {
                        assert(plan.homes[id as int] == Some(r));
                        return true;
                    }
                }
            }
            id = id + 1;
        }
        false
    }

    /// The moves that put arguments into their registers.
    fn shuffle(&self, args: &[SsaValue; 5]) -> (r: Option<Vec<PlacedMove>>)
        requires
            self.ready(),
        ensures
            match r {
                Some(moves) => moves@ == self.plan().shuffle(args@, 5) && forall|i: int|
                    0 <= i < 5 ==> self.plan().home(#[trigger] args@[i]) is Some,
                None => exists|i: int| 0 <= i < 5 && self.plan().home(#[trigger] args@[i]) is None,
            },
    {
        let mut moves: Vec<PlacedMove> = Vec::new();
        let mut i: usize = 0;
        while i < 5
            invariant
                i <= 5,
                self.ready(),
                moves@ == self.plan().shuffle(args@, i as nat),
                forall|k: int| 0 <= k < i ==> self.plan().home(#[trigger] args@[k]) is Some,
            decreases 5 - i,
        {
            match self.home_of(args[i]) {
                None => {
                    assert(self.plan().home(args@[i as int]) is None);
                    return None;
                },
                Some(home) => {
                    let to = Reg((i + 1) as u8);
                    if home != to {
                        moves.push(PlacedMove { dst: to, src: MoveSrc::Reg(home) });
                    }
                },
            }
            i = i + 1;
        }
        Some(moves)
    }

    /// Whether a register can hold a saved value during a call.
    fn can_save(&self, moves: &Vec<PlacedMove>, saves: &Vec<(Reg, Reg)>, pos: usize, temp: Reg) -> (r: bool)
        requires
            self.ready(),
        ensures
            r == self.plan().can_save(moves@, saves@, pos as int, temp),
    {
        if temp == Reg(0) || self.holds(temp, pos) {
            return false;
        }
        let mut i: usize = 0;
        while i < moves.len()
            invariant
                i <= moves@.len(),
                forall|k: int|
                    0 <= k < i ==> (#[trigger] moves@[k]).src != MoveSrc::Reg(temp) && moves@[k].dst != temp,
            decreases moves@.len() - i,
        {
            if moves[i].src == MoveSrc::Reg(temp) {
                assert(moves@[i as int].src == MoveSrc::Reg(temp));
                assert(is_read(moves@, temp));
                return false;
            }
            if moves[i].dst == temp {
                assert(moves@[i as int].dst == temp);
                assert(writes(moves@, temp));
                return false;
            }
            i = i + 1;
        }
        let mut k: usize = 0;
        while k < saves.len()
            invariant
                k <= saves@.len(),
                forall|j: int| 0 <= j < k ==> (#[trigger] saves@[j]).1 != temp,
            decreases saves@.len() - k,
        {
            let (_dst, used) = saves[k];
            if used == temp {
                assert(saves@[k as int].1 == temp);
                return false;
            }
            k = k + 1;
        }
        true
    }

    /// The first register that can hold a saved value.
    fn find_temp(&self, moves: &Vec<PlacedMove>, saves: &Vec<(Reg, Reg)>, pos: usize) -> (r: Option<Reg>)
        requires
            self.ready(),
        ensures
            r == self.plan().first_temp(moves@, saves@, pos as int, 0),
    {
        let mut i: usize = 0;
        while i < 10
            invariant
                i <= 10,
                self.ready(),
                self.plan().first_temp(moves@, saves@, pos as int, 0) == self.plan().first_temp(
                    moves@,
                    saves@,
                    pos as int,
                    i as nat,
                ),
            decreases 10 - i,
        {
            let temp = if i < 9 {
                pool_reg(i)
            } else {
                Reg(1)
            };
            if self.can_save(moves, saves, pos, temp) {
                return Some(temp);
            }
            i = i + 1;
        }
        None
    }

    /// The destinations that hold values from before the call, with the
    /// registers that save them.
    fn find_saves(&self, moves: &Vec<PlacedMove>, pos: usize) -> (r: Option<Vec<(Reg, Reg)>>)
        requires
            self.ready(),
        ensures
            match r {
                Some(saves) => self.plan().saves(moves@, pos as int, moves@.len()) == Some(saves@),
                None => self.plan().saves(moves@, pos as int, moves@.len()) is None,
            },
    {
        let mut saves: Vec<(Reg, Reg)> = Vec::new();
        let mut i: usize = 0;
        while i < moves.len()
            invariant
                i <= moves@.len(),
                self.ready(),
                self.plan().saves(moves@, pos as int, i as nat) == Some(saves@),
            decreases moves@.len() - i,
        {
            if self.crosses(moves[i].dst, pos) {
                match self.find_temp(moves, &saves, pos) {
                    None => {
                        proof {
                            lemma_no_saves(self.plan(), moves@, pos as int, (i + 1) as nat, moves@.len());
                        }
                        return None;
                    },
                    Some(temp) => {
                        saves.push((moves[i].dst, temp));
                    },
                }
            }
            i = i + 1;
        }
        Some(saves)
    }

    /// Emits a call.
    fn emit_call(&self, out: &mut Vec<Piece>, dst: SsaValue, func: u32, args: &[SsaValue; 5], pos: usize) -> (r:
        Result<(), SsaError>)
        requires
            self.ready(),
        ensures
            extended(old(out)@, final(out)@, r, self.plan().call_pieces(dst, func, args@, pos as int)),
    {
        let ghost plan = self.plan();
        let ghost start = out@;
        let moves = match self.shuffle(args) {
            None => {
                return Err(SsaError::OutOfRegisters);
            },
            Some(moves) => moves,
        };
        let saves = match self.find_saves(&moves, pos) {
            None => {
                return Err(SsaError::CallArgCycle);
            },
            Some(saves) => saves,
        };
        let ghost keep = saves@.map_values(|s: (Reg, Reg)| plain(mov(s.1, Operand::Reg(s.0))));
        let ghost back = saves@.map_values(|s: (Reg, Reg)| plain(mov(s.0, Operand::Reg(s.1))));
        let mut i: usize = 0;
        assert(keep.take(0) =~= Seq::empty());
        assert(start + Seq::<Piece>::empty() =~= start);
        while i < saves.len()
            invariant
                i <= saves@.len(),
                keep == saves@.map_values(|s: (Reg, Reg)| plain(mov(s.1, Operand::Reg(s.0)))),
                out@ == start + keep.take(i as int),
            decreases saves@.len() - i,
        {
            let (to, temp) = saves[i];
            emit_plain(out, mov_insn(temp, Operand::Reg(to)));
            i = i + 1;
            assert(out@ =~= start + keep.take(i as int));
        }
        assert(keep.take(i as int) =~= keep);
        match emit_moves(out, &moves, SsaError::CallArgCycle) {
            Err(e) => {
                return Err(e);
            },
            Ok(()) => {},
        }
        let ghost shuffled = ordered_pieces(moves@, SsaError::CallArgCycle)->Ok_0;
        emit_plain(out, Insn::Call { func });
        let ghost called = out@;
        let ghost result = match plan.home(dst) {
            Some(home) => if home != Reg(0) {
                seq![plain(mov(home, Operand::Reg(Reg(0))))]
            } else {
                Seq::empty()
            },
            None => Seq::empty(),
        };
        if let Some(home) = self.home_of(dst) {
            if home != Reg(0) {
                emit_plain(out, mov_insn(home, Operand::Reg(Reg(0))));
            }
        }
        assert(out@ =~= called + result);
        let ghost moved = out@;
        let mut k: usize = 0;
        assert(back.take(0) =~= Seq::empty());
        assert(moved + Seq::<Piece>::empty() =~= moved);
        while k < saves.len()
            invariant
                k <= saves@.len(),
                back == saves@.map_values(|s: (Reg, Reg)| plain(mov(s.0, Operand::Reg(s.1)))),
                out@ == moved + back.take(k as int),
            decreases saves@.len() - k,
        {
            let (to, temp) = saves[k];
            emit_plain(out, mov_insn(to, Operand::Reg(temp)));
            k = k + 1;
            assert(out@ =~= moved + back.take(k as int));
        }
        proof {
            assert(back.take(k as int) =~= back);
            assert(out@ =~= start + (keep + shuffled + seq![plain(Insn::Call { func })] + result + back));
        }
        Ok(())
    }

    /// Emits an operation.
    fn emit_alu(
        &self,
        out: &mut Vec<Piece>,
        dst: SsaValue,
        width: Width,
        op: AluOp,
        lhs: SsaOperand,
        rhs: SsaOperand,
    ) -> (r: Result<(), SsaError>)
        ensures
            extended(old(out)@, final(out)@, r, self.plan().alu_pieces(dst, width, op, lhs, rhs)),
    {
        let ghost start = out@;
        let home = match self.home_of(dst) {
            None => {
                assert(out@ =~= start + Seq::<Piece>::empty());
                return Ok(());
            },
            Some(home) => home,
        };
        if op == AluOp::Mov {
            match self.move_src_of(rhs) {
                Err(e) => Err(e),
                Ok(MoveSrc::Wide(_)) => Err(SsaError::OutOfRegisters),
                Ok(MoveSrc::Imm(k)) => {
                    emit_plain(out, Insn::Alu { width, op, dst: home, src: Operand::Imm(k) });
                    Ok(())
                },
                Ok(MoveSrc::Reg(s)) => {
                    // A 32-bit move clears the upper half.
                    if s == home && width == Width::B64 {
                        assert(out@ =~= start + Seq::<Piece>::empty());
                    } else {
                        emit_plain(out, Insn::Alu { width, op, dst: home, src: Operand::Reg(s) });
                    }
                    Ok(())
                },
            }
        } else {
            match lhs {
                SsaOperand::Imm(_) => Err(SsaError::OutOfRegisters),
                SsaOperand::Value(v) => match self.move_src(v) {
                    Err(e) => Err(e),
                    Ok(src) => {
                        emit_move(out, PlacedMove { dst: home, src });
                        match self.operand_of(rhs) {
                            None => Err(SsaError::OutOfRegisters),
                            Some(by) => {
                                emit_plain(out, Insn::Alu { width, op, dst: home, src: by });
                                assert(out@ =~= start + (move_pieces(PlacedMove { dst: home, src })
                                    + seq![plain(Insn::Alu { width, op, dst: home, src: by })]));
                                Ok(())
                            },
                        }
                    },
                },
            }
        }
    }

    /// Emits the instruction at an index.
    fn emit_op(&self, out: &mut Vec<Piece>, i: usize) -> (r: Result<(), SsaError>)
        requires
            self.ready(),
            i < self.prog@.insns.len(),
        ensures
            extended(old(out)@, final(out)@, r, self.plan().op_pieces(i as int)),
    {
        let ghost start = out@;
        proof {
            assert(self.prog@.insns[i as int] == self.prog.insns@[i as int]@);
            assert(start + Seq::<Piece>::empty() =~= start);
        }
        match &self.prog.insns[i] {
            SsaInsn::Const { dst, value } => {
                if let Some(home) = self.home_of(*dst) {
                    emit_move(out, PlacedMove { dst: home, src: const_source(*value) });
                }
                Ok(())
            },
            SsaInsn::LoadImm64 { dst, imm } => {
                if let Some(home) = self.home_of(*dst) {
                    emit_plain(out, Insn::LoadImm64 { dst: home, imm: *imm });
                }
                Ok(())
            },
            SsaInsn::Copy { dst, src } => {
                if let Some(home) = self.home_of(*dst) {
                    match self.move_src(*src) {
                        Err(e) => {
                            return Err(e);
                        },
                        Ok(from) => {
                            emit_move(out, PlacedMove { dst: home, src: from });
                        },
                    }
                }
                Ok(())
            },
            SsaInsn::BinOp { dst, width, op, lhs, rhs } => self.emit_alu(out, *dst, *width, *op, *lhs, *rhs),
            SsaInsn::Load { dst, size, base, offset } => match self.home_of(*base) {
                None => Err(SsaError::OutOfRegisters),
                Some(from) => match *dst {
                    None => Err(SsaError::R10FaultingLoad),
                    Some(v) => match self.home_of(v) {
                        None => Err(SsaError::OutOfRegisters),
                        Some(to) => {
                            emit_plain(
                                out,
                                Insn::Load { size: *size, dst: to, base: from, offset: *offset },
                            );
                            Ok(())
                        },
                    },
                },
            },
            SsaInsn::Store { size, base, offset, src } => match self.home_of(*base) {
                None => Err(SsaError::OutOfRegisters),
                Some(to) => match self.operand_of(*src) {
                    None => Err(SsaError::OutOfRegisters),
                    Some(from) => {
                        emit_plain(
                            out,
                            Insn::Store { size: *size, base: to, offset: *offset, src: from },
                        );
                        Ok(())
                    },
                },
            },
            SsaInsn::Call { dst, func, args } => self.emit_call(out, *dst, *func, args, i),
            SsaInsn::Phi { .. } | SsaInsn::FramePtr { .. } | SsaInsn::EntryCtx { .. } | SsaInsn::Br {
                ..
            } | SsaInsn::Ja { .. } | SsaInsn::Exit { .. } => Ok(()),
        }
    }

    /// Emits the instructions of a block up to the one that ends it.
    fn emit_body(&self, out: &mut Vec<Piece>, b: usize) -> (r: Result<(), SsaError>)
        requires
            self.ready(),
            b < self.prog@.nodes.len(),
        ensures
            extended(
                old(out)@,
                final(out)@,
                r,
                self.plan().body_pieces(
                    self.prog@.nodes[b as int].start as int,
                    self.prog@.nodes[b as int].end as int,
                ),
            ),
    {
        let ghost plan = self.plan();
        let ghost before = out@;
        let bb = ssa_block(&self.prog.graph, b);
        let ghost all = plan.body_pieces(bb.start as int, bb.end as int);
        proof {
            lemma_block_end(self.prog@, b);
        }
        let mut i: usize = bb.start;
        while i < bb.end
            invariant
                bb == self.prog@.nodes[b as int],
                bb.start <= i <= bb.end,
                bb.end <= self.prog@.insns.len(),
                self.ready(),
                plan == self.plan(),
                before == old(out)@,
                all == plan.body_pieces(bb.start as int, bb.end as int),
                after(before, all) == after(out@, plan.body_pieces(i as int, bb.end as int)),
            decreases bb.end - i,
        {
            assert(self.prog@.insns[i as int] == self.prog.insns@[i as int]@);
            if self.prog.insns[i].is_control() {
                assert(out@ + Seq::<Piece>::empty() =~= out@);
                return Ok(());
            }
            let ghost some = out@;
            match self.emit_op(out, i) {
                Err(e) => {
                    return Err(e);
                },
                Ok(()) => {},
            }
            proof {
                let one = plan.op_pieces(i as int)->Ok_0;
                if let Ok(l) = plan.body_pieces(i + 1, bb.end as int) {
                    assert(some + (one + l) =~= out@ + l);
                }
            }
            i = i + 1;
        }
        assert(out@ + Seq::<Piece>::empty() =~= out@);
        Ok(())
    }
}

/// Where no register can save a value, there are no saves.
proof fn lemma_no_saves(plan: Plan, moves: Seq<PlacedMove>, pos: int, n: nat, m: nat)
    requires
        n <= m,
        plan.saves(moves, pos, n) is None,
    ensures
        plan.saves(moves, pos, m) is None,
    decreases m,
{
    if n < m {
        lemma_no_saves(plan, moves, pos, n, (m - 1) as nat);
    }
}

impl<'p> Lower<'p> {
    /// What holds after phi moves are collected.
    spec fn wf(&self) -> bool {
        self.ready() && self.collected(self.list@)
    }

    /// Where an edge leads.
    fn resolve_edge(&self, p: usize, to: Option<usize>) -> (r: Target)
        requires
            self.wf(),
        ensures
            r == self.plan().edge(self.list@, p, to),
    {
        match to {
            None => Target::FallOff,
            Some(b) => match self.find_key(p, b) {
                Some(k) => {
                    proof {
                        let keys = tramp_keys(self.plan(), self.list@);
                        lemma_keys(self.plan(), self.list@);
                        assert(keys[k as int] == (p, b));
                        assert(keys.contains((p, b)));
                        assert(keys.index_of((p, b)) == k);
                    }
                    Target::Tramp(k)
                },
                None => Target::Block(b),
            },
        }
    }

    /// Emits a conditional jump.
    fn emit_cond(
        &self,
        out: &mut Vec<Piece>,
        width: Width,
        op: JumpOp,
        lhs: SsaOperand,
        rhs: SsaOperand,
        target: Target,
    ) -> (r: Result<(), SsaError>)
        ensures
            extended(old(out)@, final(out)@, r, self.plan().cond(width, op, lhs, rhs, target)),
    {
        match lhs {
            SsaOperand::Imm(_) => Err(SsaError::OutOfRegisters),
            SsaOperand::Value(v) => match (self.home_of(v), self.operand_of(rhs)) {
                (Some(dst), Some(src)) => {
                    let one = Piece {
                        insn: Insn::Jump { width, op, dst, src, offset: 0 },
                        target: Some(target),
                    };
                    out.push(one);
                    assert(out@ =~= old(out)@ + seq![one]);
                    Ok(())
                },
                _ => Err(SsaError::OutOfRegisters),
            },
        }
    }

    /// The block behind the one at a position, if control can go there.
    fn next_block(&self, pos: usize) -> (r: Option<Target>)
        requires
            self.wf(),
            pos < self.order@.len(),
        ensures
            r == self.plan().next_block(pos as int),
    {
        if self.order.len() - pos <= 1 {
            return None;
        }
        let next: usize = self.order[pos + 1];
        let to = live_successors(self.prog, self.order[pos]);
        let mut i: usize = 0;
        while i < to.len()
            invariant
                i <= to@.len(),
                self.wf(),
                pos + 1 < self.order@.len(),
                next == self.order@[pos + 1],
                to@ == self.prog@.successors(self.order@[pos as int]),
                forall|k: int| 0 <= k < i ==> #[trigger] to@[k] != next,
            decreases to@.len() - i,
        {
            if to[i] == next {
                assert(to@.contains(next)) by {
                    assert(to@[i as int] == next);
                }
                return Some(Target::Block(next));
            }
            i = i + 1;
        }
        None
    }

    /// Emits a jump, unless the target is the block behind.
    fn go(&self, out: &mut Vec<Piece>, pos: usize, target: Target)
        requires
            self.wf(),
            pos < self.order@.len(),
        ensures
            final(out)@ == old(out)@ + self.plan().go(pos as int, target),
    {
        if let Some(next) = self.next_block(pos) {
            if next == target {
                assert(out@ =~= old(out)@ + Seq::<Piece>::empty());
                return;
            }
        }
        emit_jump(out, target);
    }

    /// Emits a conditional branch.
    fn emit_branch(
        &self,
        out: &mut Vec<Piece>,
        pos: usize,
        width: Width,
        op: JumpOp,
        lhs: SsaOperand,
        rhs: SsaOperand,
        taken: Target,
        untaken: Target,
    ) -> (r: Result<(), SsaError>)
        requires
            self.wf(),
            pos < self.order@.len(),
        ensures
            extended(
                old(out)@,
                final(out)@,
                r,
                if taken == untaken {
                    Ok(self.plan().go(pos as int, taken))
                } else if Some(untaken) == self.plan().next_block(pos as int) {
                    self.plan().cond(width, op, lhs, rhs, taken)
                } else if Some(taken) == self.plan().next_block(pos as int) && untaken
                    != Target::FallOff && inverse(op) is Some {
                    self.plan().cond(width, inverse(op)->0, lhs, rhs, untaken)
                } else {
                    cat(self.plan().cond(width, op, lhs, rhs, taken), Ok(seq![jump(untaken)]))
                },
            ),
    {
        let ghost start = out@;
        if taken == untaken {
            self.go(out, pos, taken);
            return Ok(());
        }
        let behind = self.next_block(pos);
        if let Some(next) = behind {
            if next == untaken {
                return self.emit_cond(out, width, op, lhs, rhs, taken);
            }
            if next == taken && untaken != Target::FallOff {
                if let Some(inv) = invert(op) {
                    return self.emit_cond(out, width, inv, lhs, rhs, untaken);
                }
            }
        }
        match self.emit_cond(out, width, op, lhs, rhs, taken) {
            Err(e) => Err(e),
            Ok(()) => {
                emit_jump(out, untaken);
                proof {
                    let one = self.plan().cond(width, op, lhs, rhs, taken)->Ok_0;
                    assert(out@ =~= start + (one + seq![jump(untaken)]));
                }
                Ok(())
            },
        }
    }

    /// Emits what ends the block at a position.
    fn emit_control(&self, out: &mut Vec<Piece>, pos: usize) -> (r: Result<(), SsaError>)
        requires
            self.wf(),
            pos < self.order@.len(),
        ensures
            extended(
                old(out)@,
                final(out)@,
                r,
                self.plan().control_pieces(self.list@, pos as int),
            ),
    {
        let ghost start = out@;
        let b: usize = self.order[pos];
        match terminator(self.prog, b) {
            None => {
                let to = live_successors(self.prog, b);
                let next: Option<usize> = if to.len() > 0 {
                    Some(to[0])
                } else {
                    None
                };
                let target = self.resolve_edge(b, next);
                self.go(out, pos, target);
                Ok(())
            },
            Some(SsaInsn::Ja { target }) => {
                let target = self.resolve_edge(b, Some(*target));
                self.go(out, pos, target);
                Ok(())
            },
            Some(SsaInsn::Br { width, op, lhs, rhs, true_target, false_target }) => {
                let untaken = self.resolve_edge(b, *false_target);
                if matches!(*op, JumpOp::Call | JumpOp::Exit) {
                    self.go(out, pos, untaken);
                    return Ok(());
                }
                let taken = self.resolve_edge(b, *true_target);
                self.emit_branch(out, pos, *width, *op, *lhs, *rhs, taken, untaken)
            },
            Some(SsaInsn::Exit { r0 }) => match self.home_of(*r0) {
                None => Err(SsaError::OutOfRegisters),
                Some(home) => {
                    let m = PlacedMove { dst: Reg(0), src: MoveSrc::Reg(home) };
                    emit_move(out, m);
                    emit_plain(out, Insn::Exit);
                    assert(out@ =~= start + (move_pieces(m) + seq![plain(Insn::Exit)]));
                    Ok(())
                },
            },
            Some(_) => {
                assert(out@ =~= start + Seq::<Piece>::empty());
                Ok(())
            },
        }
    }

    /// Emits the block at a position.
    fn emit_block(&self, out: &mut Vec<Piece>, pos: usize) -> (r: Result<(), SsaError>)
        requires
            self.wf(),
            pos < self.order@.len(),
        ensures
            extended(
                old(out)@,
                final(out)@,
                r,
                self.plan().block_pieces(self.list@, pos as int),
            ),
    {
        let ghost plan = self.plan();
        let ghost start = out@;
        let b: usize = self.order[pos];
        let ghost block = self.prog@.nodes[b as int];
        match self.emit_body(out, b) {
            Err(e) => {
                return Err(e);
            },
            Ok(()) => {},
        }
        match emit_moves(out, &self.end_moves[b], SsaError::PhiCycle) {
            Err(e) => {
                return Err(e);
            },
            Ok(()) => {},
        }
        match self.emit_control(out, pos) {
            Err(e) => {
                return Err(e);
            },
            Ok(()) => {},
        }
        proof {
            let x = plan.body_pieces(block.start as int, block.end as int)->Ok_0;
            let y = ordered_pieces(moves_at_end(plan, self.list@, b), SsaError::PhiCycle)->Ok_0;
            let z = plan.control_pieces(self.list@, pos as int)->Ok_0;
            assert(start + x + y + z =~= start + (x + y + z));
        }
        Ok(())
    }

    /// Emits all blocks and trampolines. The result tells where each of them
    /// starts.
    fn emit_all(&self, out: &mut Vec<Piece>) -> (r: Result<(Vec<usize>, Vec<usize>), SsaError>)
        requires
            self.wf(),
            old(out)@.len() == 0,
        ensures
            match self.plan().all_pieces(self.list@) {
                Err(e) => r == Err::<(Vec<usize>, Vec<usize>), SsaError>(e),
                Ok(pieces) => {
                    &&& final(out)@ == pieces
                    &&& r matches Ok((block_at, tramp_at)) && block_at@.len() == self.order@.len()
                        && tramp_at@.len() == self.keys@.len() && (forall|k: int|
                        0 <= k < block_at@.len() ==> #[trigger] block_at@[k]
                            == (self.plan().blocks_pieces(self.list@, k as nat)->Ok_0).len()) && (forall|k:
                        int|
                        0 <= k < tramp_at@.len() ==> #[trigger] tramp_at@[k] == (self.plan().pieces(
                            self.list@,
                            k as nat,
                        )->Ok_0).len())
                },
            },
    {
        let ghost plan = self.plan();
        let ghost list = self.list@;
        let mut block_at: Vec<usize> = Vec::new();
        let mut pos: usize = 0;
        assert(out@ =~= Seq::empty());
        while pos < self.order.len()
            invariant
                pos <= self.order@.len(),
                self.wf(),
                plan == self.plan(),
                list == self.list@,
                plan.blocks_pieces(list, pos as nat) == Ok::<Seq<Piece>, SsaError>(out@),
                block_at@.len() == pos,
                forall|k: int|
                    0 <= k < pos ==> #[trigger] block_at@[k] == (plan.blocks_pieces(
                        list,
                        k as nat,
                    )->Ok_0).len(),
            decreases self.order@.len() - pos,
        {
            block_at.push(out.len());
            match self.emit_block(out, pos) {
                Err(e) => {
                    proof {
                        lemma_blocks_fail(plan, list, (pos + 1) as nat, self.order@.len(), e);
                        lemma_pieces_fail(plan, list, 0, tramp_keys(plan, list).len(), e);
                    }
                    return Err(e);
                },
                Ok(()) => {},
            }
            pos = pos + 1;
        }
        let mut tramp_at: Vec<usize> = Vec::new();
        let mut k: usize = 0;
        while k < self.keys.len()
            invariant
                k <= self.keys@.len(),
                self.wf(),
                plan == self.plan(),
                list == self.list@,
                plan.pieces(list, k as nat) == Ok::<Seq<Piece>, SsaError>(out@),
                tramp_at@.len() == k,
                forall|j: int|
                    0 <= j < k ==> #[trigger] tramp_at@[j] == (plan.pieces(list, j as nat)->Ok_0).len(),
            decreases self.keys@.len() - k,
        {
            tramp_at.push(out.len());
            let ghost some = out@;
            assert(self.tramps@[k as int]@ == tramp_moves(list, self.keys@[k as int]));
            match emit_moves(out, &self.tramps[k], SsaError::PhiCycle) {
                Err(e) => {
                    proof {
                        assert(plan.pieces(list, (k + 1) as nat) == Err::<Seq<Piece>, SsaError>(e));
                        lemma_pieces_fail(plan, list, (k + 1) as nat, tramp_keys(plan, list).len(), e);
                    }
                    return Err(e);
                },
                Ok(()) => {},
            }
            let (_pred, block) = self.keys[k];
            emit_jump(out, Target::Block(block));
            proof {
                let x = ordered_pieces(
                    tramp_moves(list, self.keys@[k as int]),
                    SsaError::PhiCycle,
                )->Ok_0;
                let y = seq![jump(Target::Block(block))];
                assert(some + x + y =~= some + (x + y));
            }
            k = k + 1;
        }
        Ok((block_at, tramp_at))
    }
}

proof fn lemma_blocks_fail(plan: Plan, list: Seq<Placement>, n: nat, m: nat, e: SsaError)
    requires
        n <= m,
        plan.blocks_pieces(list, n) == Err::<Seq<Piece>, SsaError>(e),
    ensures
        plan.blocks_pieces(list, m) == Err::<Seq<Piece>, SsaError>(e),
    decreases m,
{
    if n < m {
        lemma_blocks_fail(plan, list, n, (m - 1) as nat, e);
    }
}

proof fn lemma_pieces_fail(plan: Plan, list: Seq<Placement>, n: nat, m: nat, e: SsaError)
    requires
        n <= m,
        plan.pieces(list, n) == Err::<Seq<Piece>, SsaError>(e),
    ensures
        plan.pieces(list, m) == Err::<Seq<Piece>, SsaError>(e),
    decreases m,
{
    if n < m {
        lemma_pieces_fail(plan, list, n, (m - 1) as nat, e);
    }
}

/// The slot numbers of emitted instructions, and of the end behind them.
fn slots_of(out: &Vec<Piece>) -> (r: Vec<u128>)
    ensures
        r@.len() == out@.len() + 1,
        forall|i: int| 0 <= i < r@.len() ==> #[trigger] r@[i] == slot_of(insns_of(out@), i as nat),
        forall|i: int| 0 <= i < r@.len() ==> #[trigger] r@[i] <= 2 * i,
{
    let ghost insns = insns_of(out@);
    let mut r: Vec<u128> = Vec::new();
    let mut slot: u128 = 0;
    r.push(0);
    let mut i: usize = 0;
    while i < out.len()
        invariant
            i <= out@.len(),
            insns == insns_of(out@),
            r@.len() == i + 1,
            slot == slot_of(insns, i as nat),
            slot <= 2 * i,
            forall|k: int| 0 <= k < r@.len() ==> #[trigger] r@[k] == slot_of(insns, k as nat),
            forall|k: int| 0 <= k < r@.len() ==> #[trigger] r@[k] <= 2 * k,
        decreases out@.len() - i,
    {
        assert(insns[i as int] == out@[i as int].insn);
        slot = slot + slot_width(&out[i].insn) as u128;
        r.push(slot);
        i = i + 1;
    }
    r
}

impl<'p> Lower<'p> {
    /// Where each block starts; behind the last instruction for a block that
    /// is not emitted.
    fn block_starts(&self, block_at: &Vec<usize>, count: usize) -> (r: Vec<usize>)
        requires
            self.wf(),
            block_at@.len() == self.order@.len(),
        ensures
            r@.len() == self.prog@.nodes.len(),
            forall|b: usize|
                b < r@.len() ==> #[trigger] r@[b as int] == (if self.order@.contains(b) {
                    block_at@[self.order@.index_of(b)]
                } else {
                    count
                }),
    {
        let n: usize = ssa_node_count(&self.prog.graph);
        let mut r: Vec<usize> = Vec::new();
        while r.len() < n
            invariant
                r@.len() <= n,
                forall|b: int| 0 <= b < r@.len() ==> #[trigger] r@[b] == count,
            decreases n - r@.len(),
        {
            r.push(count);
        }
        let ghost order = self.order@;
        let mut pos: usize = 0;
        while pos < self.order.len()
            invariant
                pos <= self.order@.len(),
                self.wf(),
                order == self.order@,
                n == self.prog@.nodes.len(),
                block_at@.len() == order.len(),
                r@.len() == n,
                forall|b: usize|
                    b < n ==> #[trigger] r@[b as int] == (if order.contains(b) && order.index_of(b) < pos {
                        block_at@[order.index_of(b)]
                    } else {
                        count
                    }),
            decreases self.order@.len() - pos,
        {
            let ghost before = r@;
            let here: usize = self.order[pos];
            r.set(here, block_at[pos]);
            proof {
                assert(order[pos as int] == here);
                assert(order.contains(here));
                assert(order.index_of(here) == pos);
                assert forall|b: usize| b < n implies #[trigger] r@[b as int] == (if order.contains(b)
                    && order.index_of(b) < pos + 1 {
                    block_at@[order.index_of(b)]
                } else {
                    count
                }) by {
                    if b != here {
                        assert(r@[b as int] == before[b as int]);
                        if order.contains(b) && order.index_of(b) == pos {
                            assert(order[pos as int] == b);
                        }
                    }
                }
            }
            pos = pos + 1;
        }
        r
    }

    /// Fills in the jump offsets.
    fn resolve(&self, out: &Vec<Piece>, block_at: &Vec<usize>, tramp_at: &Vec<usize>) -> (r: Result<
        Vec<Insn>,
        SsaError,
    >)
        requires
            self.wf(),
            self.plan().all_pieces(self.list@) == Ok::<Seq<Piece>, SsaError>(out@),
            block_at@.len() == self.order@.len(),
            tramp_at@.len() == self.keys@.len(),
            forall|k: int|
                0 <= k < block_at@.len() ==> #[trigger] block_at@[k] == (self.plan().blocks_pieces(
                    self.list@,
                    k as nat,
                )->Ok_0).len(),
            forall|k: int|
                0 <= k < tramp_at@.len() ==> #[trigger] tramp_at@[k] == (self.plan().pieces(
                    self.list@,
                    k as nat,
                )->Ok_0).len(),
        ensures
            match self.plan().first_far(self.list@, 0) {
                Some(i) => r == Err::<Vec<Insn>, SsaError>(SsaError::JumpTooFar { pc: i as usize }),
                None => r matches Ok(v) && v@ == Seq::new(
                    out@.len(),
                    |i: int| self.plan().resolved(self.list@, i),
                ),
            },
    {
        let ghost plan = self.plan();
        let ghost list = self.list@;
        let count: usize = out.len();
        let slots = slots_of(out);
        let starts = self.block_starts(block_at, count);
        let mut insns: Vec<Insn> = Vec::new();
        let mut i: usize = 0;
        while i < count
            invariant
                i <= count,
                count == out@.len(),
                self.wf(),
                plan == self.plan(),
                list == self.list@,
                plan.all_pieces(list) == Ok::<Seq<Piece>, SsaError>(out@),
                block_at@.len() == self.order@.len(),
                tramp_at@.len() == self.keys@.len(),
                forall|k: int|
                    0 <= k < block_at@.len() ==> #[trigger] block_at@[k] == (plan.blocks_pieces(
                        list,
                        k as nat,
                    )->Ok_0).len(),
                forall|k: int|
                    0 <= k < tramp_at@.len() ==> #[trigger] tramp_at@[k] == (plan.pieces(
                        list,
                        k as nat,
                    )->Ok_0).len(),
                slots@.len() == count + 1,
                forall|k: int|
                    0 <= k < slots@.len() ==> #[trigger] slots@[k] == slot_of(insns_of(out@), k as nat),
                forall|k: int| 0 <= k < slots@.len() ==> #[trigger] slots@[k] <= 2 * k,
                starts@.len() == self.prog@.nodes.len(),
                forall|b: usize|
                    b < starts@.len() ==> #[trigger] starts@[b as int] == (if self.order@.contains(b) {
                        block_at@[self.order@.index_of(b)]
                    } else {
                        count
                    }),
                insns@.len() == i,
                forall|k: int| 0 <= k < i ==> #[trigger] insns@[k] == plan.resolved(list, k),
                plan.first_far(list, 0) == plan.first_far(list, i as nat),
            decreases count - i,
        {
            match out[i].target {
                None => {
                    insns.push(out[i].insn);
                },
                Some(target) => {
                    let at: usize = match target {
                        Target::Block(b) => if b < starts.len() {
                            starts[b]
                        } else {
                            proof {
                                if self.order@.contains(b) {
                                    let k = self.order@.index_of(b);
                                    assert(self.order@[k] < self.prog@.nodes.len());
                                }
                            }
                            count
                        },
                        Target::Tramp(k) => if k < tramp_at.len() {
                            tramp_at[k]
                        } else {
                            count
                        },
                        Target::FallOff => count,
                    };
                    assert(at == plan.place(list, target));
                    proof {
                        lemma_place(plan, list, target);
                    }
                    let offset: i128 = slots[at] as i128 - slots[i] as i128 - 1;
                    assert(offset == plan.offset(list, i as int));
                    if offset < i16::MIN as i128 || offset > i16::MAX as i128 {
                        return Err(SsaError::JumpTooFar { pc: i });
                    }
                    insns.push(set_offset(out[i].insn, offset as i16));
                },
            }
            i = i + 1;
        }
        assert(insns@ =~= Seq::new(out@.len(), |k: int| plan.resolved(list, k)));
        Ok(insns)
    }
}

/// A jump with another offset.
fn set_offset(insn: Insn, to: i16) -> (r: Insn)
    ensures
        r == with_offset(insn, to),
{
    match insn {
        Insn::Jump { width, op, dst, src, .. } => Insn::Jump { width, op, dst, src, offset: to },
        _ => insn,
    }
}

/// Lowers an SSA program to instructions.
///
/// The result is the one that [`Prog::lowers_to`] describes. It is an error
/// where values exceed the registers, moves form a cycle, a jump is too far,
/// or a load into the frame pointer would be lost. Code is only given out if
/// its registers are sound: no instruction, move or call writes a register
/// while its value is still needed.
pub fn lower(prog: &SsaProgram) -> (r: Result<Vec<Insn>, SsaError>)
    requires
        prog@.wf(),
    ensures
        prog@.lowers_to(
            match r {
                Ok(insns) => Ok(insns@),
                Err(e) => Err(e),
            },
        ),
        prog@.strict() ==> (r matches Ok(insns) ==> insns@.len() > u32::MAX || prog@.ends_as(insns@)),
{
    let alloc = match allocate(prog) {
        Err(e) => {
            return Err(e);
        },
        Ok(alloc) => alloc,
    };
    let ghost homes = alloc.homes@;
    let ghost plan = prog@.plan(homes);
    let live = liveness(prog);
    proof {
        assert(live@ =~= plan.live) by {
            assert forall|b: int| 0 <= b < live@.len() implies live@[b] == plan.live[b] by {
                assert(live@[b as usize as int] == prog@.reaches(b as usize));
            }
        }
        assert(live@[prog@.entry as int]) by {
            let p = seq![prog@.entry];
            assert(prog@.is_trace(p));
            assert(p.last() == prog@.entry);
            assert(prog@.reaches(prog@.entry));
        }
        layout_is_complete(prog@, live@);
    }
    let order = layout(prog, &live);
    proof {
        assert forall|k: int| 0 <= k < order@.len() implies (#[trigger] order@[k]) < prog@.nodes.len() by {
            assert(order@.contains(order@[k]));
        }
    }
    let ranges = live_ranges(prog);
    let (forks, joins) = edge_counts(prog, &live, Ghost(plan));
    let n: usize = ssa_node_count(&prog.graph);
    let mut end_moves: Vec<Vec<PlacedMove>> = Vec::new();
    while end_moves.len() < n
        invariant
            end_moves@.len() <= n,
            forall|b: int| 0 <= b < end_moves@.len() ==> (#[trigger] end_moves@[b])@.len() == 0,
        decreases n - end_moves@.len(),
    {
        end_moves.push(Vec::new());
    }
    let mut lower = Lower {
        prog,
        alloc,
        ranges,
        live,
        order,
        forks,
        joins,
        end_moves,
        keys: Vec::new(),
        tramps: Vec::new(),
        list: Ghost(Seq::empty()),
    };
    proof {
        assert(lower.plan() =~= plan);
        assert(lower.ready());
        assert(lower.collected(Seq::empty())) by {
            assert forall|p: usize| p < n implies (#[trigger] lower.end_moves@[p as int])@ == moves_at_end(
                plan,
                Seq::empty(),
                p,
            ) by {
                assert(lower.end_moves@[p as int]@.len() == 0);
                assert(lower.end_moves@[p as int]@ =~= Seq::empty());
            }
            assert(lower.keys@ =~= tramp_keys(plan, Seq::empty()));
        }
    }
    let list = match lower.place_all() {
        Err(e) => {
            return Err(e);
        },
        Ok(list) => list,
    };
    lower.collect(&list);
    lower.list = Ghost(list@);
    assert(lower.plan() == plan);
    assert(lower.wf());
    let mut out: Vec<Piece> = Vec::new();
    let (block_at, tramp_at) = match lower.emit_all(&mut out) {
        Err(e) => {
            return Err(e);
        },
        Ok(at) => at,
    };
    let insns = match lower.resolve(&out, &block_at, &tramp_at) {
        Err(e) => {
            return Err(e);
        },
        Ok(insns) => insns,
    };
    proof {
        let order = choose|order: Seq<usize>| #[trigger] prog@.is_order(order) && prog@.allocation(order) == Some(homes);
        assert forall|i: int| 0 <= i < homes.len() implies ((#[trigger] homes[i]) matches Some(r) ==> r.valid()) by {
            homes_are_registers(prog@, order, homes, i);
        }
        assert(homes_valid(lower.plan()));
    }
    if !lower.tables_fit() || !lower.is_sound() {
        return Err(SsaError::OutOfRegisters);
    }
    proof {
        assert(prog@.lowers_to(Ok(insns@)));
        if prog@.strict() && insns@.len() <= u32::MAX {
            lowered_code_ends_alike(prog@, insns@);
        }
    }
    Ok(insns)
}

} // verus!
