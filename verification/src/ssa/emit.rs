//! What lowering emits: the instructions of an SSA program over a choice of
//! registers and a block layout, and where their jumps lead.
//!
//! Emission is stated in [`Piece`]s, instructions whose jump offsets are
//! still open. Phi moves run at the ends of predecessors; on an edge from a
//! block with several successors to a block with several predecessors they
//! run in a trampoline behind all blocks.
use vstd::prelude::*;

use crate::isa::insn::{AluOp, Insn, JumpOp, Operand, Reg, Width};
use crate::slots::{slot_of, target_slot, width_of};
use crate::ssa::homes::pool;
use crate::ssa::moves::{first_free, in_order, is_read, proper, writes, MoveSrc, PlacedMove};
use crate::vm::jump_condition;
use crate::ssa::{Op, Prog, SsaError, SsaOperand, SsaValue, START_PRED};

verus! {

/// Where a jump leads.
#[derive(Debug, Clone, Copy, PartialEq, Eq, Structural)]
pub enum Target {
    /// A block.
    Block(usize),
    /// A trampoline.
    Tramp(usize),
    /// Past the last instruction.
    FallOff,
}

/// An emitted instruction, with the target of a jump.
#[derive(Debug, Clone, Copy, PartialEq, Eq)]
pub struct Piece {
    /// The instruction; the offset of a jump is open.
    pub insn: Insn,
    /// The target of a jump.
    pub target: Option<Target>,
}

/// A phi move on an edge.
#[derive(Debug, Clone, Copy, PartialEq, Eq)]
pub struct Placement {
    /// Source block of the edge.
    pub pred: usize,
    /// Block of the phi.
    pub block: usize,
    /// The move.
    pub step: PlacedMove,
}

/// Pieces, or why there are none.
pub type Emitted = Result<Seq<Piece>, SsaError>;

/// No pieces.
pub open spec fn nothing() -> Emitted {
    Ok(Seq::empty())
}

/// Pieces one after another; the first error counts.
pub open spec fn cat(a: Emitted, b: Emitted) -> Emitted {
    match a {
        Err(e) => Err(e),
        Ok(x) => match b {
            Err(e) => Err(e),
            Ok(y) => Ok(x + y),
        },
    }
}

/// A piece that is no jump.
pub open spec fn plain(insn: Insn) -> Piece {
    Piece { insn, target: None }
}

/// A register move.
pub open spec fn mov(dst: Reg, src: Operand) -> Insn {
    Insn::Alu { width: Width::B64, op: AluOp::Mov, dst, src }
}

/// An unconditional jump.
pub open spec fn jump(target: Target) -> Piece {
    Piece {
        insn: Insn::Jump {
            width: Width::B64,
            op: JumpOp::Always,
            dst: Reg(0),
            src: Operand::Imm(0),
            offset: 0,
        },
        target: Some(target),
    }
}

/// The pieces of a move: none for a register to itself.
pub open spec fn move_pieces(m: PlacedMove) -> Seq<Piece> {
    match m.src {
        MoveSrc::Reg(s) => if s == m.dst {
            Seq::empty()
        } else {
            seq![plain(mov(m.dst, Operand::Reg(s)))]
        },
        MoveSrc::Imm(k) => seq![plain(mov(m.dst, Operand::Imm(k)))],
        MoveSrc::Wide(k) => seq![plain(Insn::LoadImm64 { dst: m.dst, imm: k })],
    }
}

/// The pieces of the first `n` moves.
pub open spec fn moves_pieces(moves: Seq<PlacedMove>, n: nat) -> Seq<Piece>
    decreases n,
{
    if n == 0 {
        Seq::empty()
    } else {
        moves_pieces(moves, (n - 1) as nat) + move_pieces(moves[n - 1])
    }
}

/// The pieces of parallel moves, in a sequential order.
pub open spec fn ordered_pieces(moves: Seq<PlacedMove>, cycle: SsaError) -> Emitted {
    match in_order(proper(moves)) {
        Some(list) => Ok(moves_pieces(list, list.len())),
        None => Err(cycle),
    }
}

/// The constant as a move source.
pub open spec fn const_src(value: i64) -> MoveSrc {
    if i32::MIN <= value <= i32::MAX {
        MoveSrc::Imm(value as i32)
    } else {
        MoveSrc::Wide(value)
    }
}

/// The opposite of a comparison, if it has one.
pub open spec fn inverse(op: JumpOp) -> Option<JumpOp> {
    match op {
        JumpOp::Eq => Some(JumpOp::Ne),
        JumpOp::Ne => Some(JumpOp::Eq),
        JumpOp::Gt => Some(JumpOp::Le),
        JumpOp::Ge => Some(JumpOp::Lt),
        JumpOp::Lt => Some(JumpOp::Ge),
        JumpOp::Le => Some(JumpOp::Gt),
        JumpOp::Sgt => Some(JumpOp::Sle),
        JumpOp::Sge => Some(JumpOp::Slt),
        JumpOp::Slt => Some(JumpOp::Sge),
        JumpOp::Sle => Some(JumpOp::Sgt),
        _ => None,
    }
}

/// How often a block occurs in the first `n` of a list.
pub open spec fn occurrences(list: Seq<usize>, b: usize, n: nat) -> nat
    decreases n,
{
    if n == 0 {
        0
    } else {
        occurrences(list, b, (n - 1) as nat) + (if list[n - 1] == b {
            1nat
        } else {
            0
        })
    }
}

/// The moves of placements on edges out of a block that need no trampoline.
pub open spec fn moves_at_end(plan: Plan, list: Seq<Placement>, p: usize) -> Seq<PlacedMove>
    decreases list.len(),
{
    if list.len() == 0 {
        Seq::empty()
    } else {
        let rest = moves_at_end(plan, list.drop_last(), p);
        let last = list.last();
        if last.pred == p && !plan.critical(last.pred, last.block) {
            rest.push(last.step)
        } else {
            rest
        }
    }
}

/// The edges that need a trampoline, in the order of their first placement.
pub open spec fn tramp_keys(plan: Plan, list: Seq<Placement>) -> Seq<(usize, usize)>
    decreases list.len(),
{
    if list.len() == 0 {
        Seq::empty()
    } else {
        let rest = tramp_keys(plan, list.drop_last());
        let last = list.last();
        if plan.critical(last.pred, last.block) && !rest.contains((last.pred, last.block)) {
            rest.push((last.pred, last.block))
        } else {
            rest
        }
    }
}

/// The moves of placements on an edge.
pub open spec fn tramp_moves(list: Seq<Placement>, key: (usize, usize)) -> Seq<PlacedMove>
    decreases list.len(),
{
    if list.len() == 0 {
        Seq::empty()
    } else {
        let rest = tramp_moves(list.drop_last(), key);
        let last = list.last();
        if (last.pred, last.block) == key {
            rest.push(last.step)
        } else {
            rest
        }
    }
}

/// A program with registers for its values, its live blocks and their order.
#[verifier::ext_equal]
pub struct Plan {
    /// The program.
    pub prog: Prog,
    /// Registers by value.
    pub homes: Seq<Option<Reg>>,
    /// Blocks that control can reach.
    pub live: Seq<bool>,
    /// The live blocks in the order of emission.
    pub order: Seq<usize>,
}

impl Plan {
    /// The register of a value.
    pub open spec fn home(self, v: SsaValue) -> Option<Reg> {
        Prog::home_in(self.homes, v)
    }

    /// A value as a move source: its register, or a constant.
    pub open spec fn move_src(self, v: SsaValue) -> Result<MoveSrc, SsaError> {
        match self.home(v) {
            Some(r) => Ok(MoveSrc::Reg(r)),
            None => match self.prog.def_of(v) {
                Some(Op::Const { value, .. }) => Ok(const_src(value)),
                _ => Err(SsaError::OutOfRegisters),
            },
        }
    }

    /// An operand as a move source.
    pub open spec fn move_src_of(self, operand: SsaOperand) -> Result<MoveSrc, SsaError> {
        match operand {
            SsaOperand::Value(v) => self.move_src(v),
            SsaOperand::Imm(k) => Ok(MoveSrc::Imm(k)),
        }
    }

    /// An operand of an instruction.
    pub open spec fn operand(self, operand: SsaOperand) -> Option<Operand> {
        match operand {
            SsaOperand::Value(v) => match self.home(v) {
                Some(r) => Some(Operand::Reg(r)),
                None => None,
            },
            SsaOperand::Imm(k) => Some(Operand::Imm(k)),
        }
    }

    /// Whether several edges leave a live block.
    pub open spec fn forks(self, p: usize) -> bool {
        self.live[p as int] && self.prog.successors(p).len() > 1
    }

    /// How many edges lead into a block from the live ones of the first `n`
    /// blocks.
    pub open spec fn entries(self, b: usize, n: nat) -> nat
        decreases n,
    {
        if n == 0 {
            0
        } else {
            let before = self.entries(b, (n - 1) as nat);
            if self.live[n - 1] {
                let to = self.prog.successors((n - 1) as usize);
                before + occurrences(to, b, to.len())
            } else {
                before
            }
        }
    }

    /// Whether moves on an edge can stand at neither end of it.
    pub open spec fn critical(self, p: usize, b: usize) -> bool {
        self.forks(p) && self.entries(b, self.prog.nodes.len()) > 1
    }

    /// The moves that give a phi its inputs from input `k` on. A value from
    /// the program start must already be in place.
    pub open spec fn input_placements(
        self,
        b: usize,
        home: Reg,
        inputs: Seq<(usize, SsaValue)>,
        k: nat,
    ) -> Result<Seq<Placement>, SsaError>
        decreases inputs.len() - k,
    {
        if k >= inputs.len() {
            Ok(Seq::empty())
        } else {
            let (p, v) = inputs[k as int];
            let rest = self.input_placements(b, home, inputs, k + 1);
            if p == START_PRED {
                match self.move_src(v) {
                    Err(e) => Err(e),
                    Ok(src) => if src == MoveSrc::Reg(home) {
                        rest
                    } else {
                        Err(SsaError::PhiCycle)
                    },
                }
            } else if !self.live[p as int] {
                rest
            } else {
                match self.move_src(v) {
                    Err(e) => Err(e),
                    Ok(src) => match rest {
                        Err(e) => Err(e),
                        Ok(list) => Ok(
                            seq![Placement { pred: p, block: b, step: PlacedMove { dst: home, src } }]
                                + list,
                        ),
                    },
                }
            }
        }
    }

    /// The moves of the phis of a block from instruction `i` on. A phi
    /// without a register is not needed.
    pub open spec fn phi_placements(self, b: usize, i: int, end: int) -> Result<Seq<Placement>, SsaError>
        decreases end - i,
    {
        if i >= end {
            Ok(Seq::empty())
        } else {
            let rest = self.phi_placements(b, i + 1, end);
            match self.prog.insns[i] {
                Op::Phi { dst, inputs } => match self.home(dst) {
                    None => rest,
                    Some(home) => match self.input_placements(b, home, inputs, 0) {
                        Err(e) => Err(e),
                        Ok(list) => match rest {
                            Err(e) => Err(e),
                            Ok(more) => Ok(list + more),
                        },
                    },
                },
                _ => rest,
            }
        }
    }

    /// The moves of all phis of live blocks from block `b` on.
    pub open spec fn placements(self, b: nat) -> Result<Seq<Placement>, SsaError>
        decreases self.prog.nodes.len() - b,
    {
        if b >= self.prog.nodes.len() {
            Ok(Seq::empty())
        } else {
            let rest = self.placements(b + 1);
            if !self.live[b as int] {
                rest
            } else {
                let block = self.prog.nodes[b as int];
                match self.phi_placements(b as usize, block.start as int, block.end as int) {
                    Err(e) => Err(e),
                    Ok(list) => match rest {
                        Err(e) => Err(e),
                        Ok(more) => Ok(list + more),
                    },
                }
            }
        }
    }

    /// Where an edge leads: to its trampoline, if it has one.
    pub open spec fn edge(self, list: Seq<Placement>, p: usize, to: Option<usize>) -> Target {
        match to {
            None => Target::FallOff,
            Some(b) => if tramp_keys(self, list).contains((p, b)) {
                Target::Tramp(tramp_keys(self, list).index_of((p, b)) as usize)
            } else {
                Target::Block(b)
            },
        }
    }

    /// Whether a register holds a value that is live at a position.
    pub open spec fn holds(self, r: Reg, pos: int) -> bool {
        exists|id: int|
            0 <= id < self.homes.len() && id < self.prog.sites.len() && (#[trigger] self.homes[id])
                == Some(r) && self.prog.range_of(id).0 <= pos < self.prog.range_of(id).1
    }

    /// Whether a register holds a value from before a position to behind it.
    pub open spec fn crosses(self, r: Reg, pos: int) -> bool {
        exists|id: int|
            0 <= id < self.homes.len() && id < self.prog.sites.len() && (#[trigger] self.homes[id])
                == Some(r) && self.prog.range_of(id).0 < pos < self.prog.range_of(id).1
    }

    /// The moves that put the first `n` arguments into their registers.
    pub open spec fn shuffle(self, args: Seq<SsaValue>, n: nat) -> Seq<PlacedMove>
        decreases n,
    {
        if n == 0 {
            Seq::empty()
        } else {
            let rest = self.shuffle(args, (n - 1) as nat);
            let home = self.home(args[n - 1])->0;
            if home == Reg(n as u8) {
                rest
            } else {
                rest.push(PlacedMove { dst: Reg(n as u8), src: MoveSrc::Reg(home) })
            }
        }
    }

    /// Whether a register can hold a saved value during a call.
    pub open spec fn can_save(
        self,
        moves: Seq<PlacedMove>,
        saves: Seq<(Reg, Reg)>,
        pos: int,
        temp: Reg,
    ) -> bool {
        &&& temp != Reg(0)
        &&& !self.holds(temp, pos)
        &&& !is_read(moves, temp)
        &&& !writes(moves, temp)
        &&& forall|i: int| 0 <= i < saves.len() ==> (#[trigger] saves[i]).1 != temp
    }

    /// The first register from candidate `i` on that can hold a saved value:
    /// the pool, then `r1`.
    pub open spec fn first_temp(
        self,
        moves: Seq<PlacedMove>,
        saves: Seq<(Reg, Reg)>,
        pos: int,
        i: nat,
    ) -> Option<Reg>
        decreases 10 - i,
    {
        if i >= 10 {
            None
        } else {
            let temp = if i < 9 {
                pool(i as int)
            } else {
                Reg(1)
            };
            if self.can_save(moves, saves, pos, temp) {
                Some(temp)
            } else {
                self.first_temp(moves, saves, pos, i + 1)
            }
        }
    }

    /// The destinations of the first `n` moves that hold values from before
    /// the call, each with the register that saves it.
    pub open spec fn saves(self, moves: Seq<PlacedMove>, pos: int, n: nat) -> Option<Seq<(Reg, Reg)>>
        decreases n,
    {
        if n == 0 {
            Some(Seq::empty())
        } else {
            match self.saves(moves, pos, (n - 1) as nat) {
                None => None,
                Some(rest) => if !self.crosses(moves[n - 1].dst, pos) {
                    Some(rest)
                } else {
                    match self.first_temp(moves, rest, pos, 0) {
                        None => None,
                        Some(temp) => Some(rest.push((moves[n - 1].dst, temp))),
                    }
                },
            }
        }
    }

    /// The pieces of a call: saves, argument moves, the call, the result
    /// move, and restores.
    pub open spec fn call_pieces(self, dst: SsaValue, func: u32, args: Seq<SsaValue>, pos: int) -> Emitted {
        if exists|i: int| 0 <= i < 5 && self.home(#[trigger] args[i]) is None {
            Err(SsaError::OutOfRegisters)
        } else {
            let moves = self.shuffle(args, 5);
            match self.saves(moves, pos, moves.len()) {
                None => Err(SsaError::CallArgCycle),
                Some(saves) => {
                    let keep = saves.map_values(|s: (Reg, Reg)| plain(mov(s.1, Operand::Reg(s.0))));
                    let back = saves.map_values(|s: (Reg, Reg)| plain(mov(s.0, Operand::Reg(s.1))));
                    let result = match self.home(dst) {
                        Some(home) => if home != Reg(0) {
                            seq![plain(mov(home, Operand::Reg(Reg(0))))]
                        } else {
                            Seq::empty()
                        },
                        None => Seq::empty(),
                    };
                    match ordered_pieces(moves, SsaError::CallArgCycle) {
                        Err(e) => Err(e),
                        Ok(shuffled) => Ok(
                            keep + shuffled + seq![plain(Insn::Call { func })] + result + back,
                        ),
                    }
                },
            }
        }
    }

    /// The pieces of an operation.
    pub open spec fn alu_pieces(
        self,
        dst: SsaValue,
        width: Width,
        op: AluOp,
        lhs: SsaOperand,
        rhs: SsaOperand,
    ) -> Emitted {
        match self.home(dst) {
            None => nothing(),
            Some(home) => if op == AluOp::Mov {
                match self.move_src_of(rhs) {
                    Err(e) => Err(e),
                    Ok(MoveSrc::Wide(_)) => Err(SsaError::OutOfRegisters),
                    Ok(MoveSrc::Imm(k)) => Ok(
                        seq![plain(Insn::Alu { width, op, dst: home, src: Operand::Imm(k) })],
                    ),
                    Ok(MoveSrc::Reg(r)) => if r == home && width == Width::B64 {
                        nothing()
                    } else {
                        Ok(seq![plain(Insn::Alu { width, op, dst: home, src: Operand::Reg(r) })])
                    },
                }
            } else {
                match lhs {
                    SsaOperand::Imm(_) => Err(SsaError::OutOfRegisters),
                    SsaOperand::Value(v) => match self.move_src(v) {
                        Err(e) => Err(e),
                        Ok(src) => match self.operand(rhs) {
                            None => Err(SsaError::OutOfRegisters),
                            Some(by) => Ok(
                                move_pieces(PlacedMove { dst: home, src }) + seq![
                                    plain(Insn::Alu { width, op, dst: home, src: by }),
                                ],
                            ),
                        },
                    },
                }
            },
        }
    }

    /// The pieces of the instruction at index `i`.
    pub open spec fn op_pieces(self, i: int) -> Emitted {
        match self.prog.insns[i] {
            Op::Const { dst, value } => match self.home(dst) {
                Some(home) => Ok(move_pieces(PlacedMove { dst: home, src: const_src(value) })),
                None => nothing(),
            },
            Op::LoadImm64 { dst, imm } => match self.home(dst) {
                Some(home) => Ok(seq![plain(Insn::LoadImm64 { dst: home, imm })]),
                None => nothing(),
            },
            Op::Copy { dst, src } => match self.home(dst) {
                Some(home) => match self.move_src(src) {
                    Err(e) => Err(e),
                    Ok(src) => Ok(move_pieces(PlacedMove { dst: home, src })),
                },
                None => nothing(),
            },
            Op::BinOp { dst, width, op, lhs, rhs } => self.alu_pieces(dst, width, op, lhs, rhs),
            Op::Load { dst, size, base, offset } => match self.home(base) {
                None => Err(SsaError::OutOfRegisters),
                Some(from) => match dst {
                    None => Err(SsaError::R10FaultingLoad),
                    Some(v) => match self.home(v) {
                        None => Err(SsaError::OutOfRegisters),
                        Some(to) => Ok(
                            seq![plain(Insn::Load { size, dst: to, base: from, offset })],
                        ),
                    },
                },
            },
            Op::Store { size, base, offset, src } => match self.home(base) {
                None => Err(SsaError::OutOfRegisters),
                Some(to) => match self.operand(src) {
                    None => Err(SsaError::OutOfRegisters),
                    Some(from) => Ok(
                        seq![plain(Insn::Store { size, base: to, offset, src: from })],
                    ),
                },
            },
            Op::Call { dst, func, args } => self.call_pieces(dst, func, args, i),
            _ => nothing(),
        }
    }

    /// The pieces of instructions from `i` on, up to the one that ends the
    /// block.
    pub open spec fn body_pieces(self, i: int, end: int) -> Emitted
        decreases end - i,
    {
        if i >= end {
            nothing()
        } else if self.prog.insns[i].is_control() {
            nothing()
        } else {
            cat(self.op_pieces(i), self.body_pieces(i + 1, end))
        }
    }

    /// A conditional jump.
    pub open spec fn cond(
        self,
        width: Width,
        op: JumpOp,
        lhs: SsaOperand,
        rhs: SsaOperand,
        target: Target,
    ) -> Emitted {
        match lhs {
            SsaOperand::Imm(_) => Err(SsaError::OutOfRegisters),
            SsaOperand::Value(v) => match (self.home(v), self.operand(rhs)) {
                (Some(dst), Some(src)) => Ok(
                    seq![
                        Piece {
                            insn: Insn::Jump { width, op, dst, src, offset: 0 },
                            target: Some(target),
                        },
                    ],
                ),
                _ => Err(SsaError::OutOfRegisters),
            },
        }
    }

    /// The block behind the one at a position, if control can go there.
    pub open spec fn next_block(self, pos: int) -> Option<Target> {
        if pos + 1 < self.order.len() && self.prog.successors(self.order[pos]).contains(
            self.order[pos + 1],
        ) {
            Some(Target::Block(self.order[pos + 1]))
        } else {
            None
        }
    }

    /// A jump, unless the target is the block behind.
    pub open spec fn go(self, pos: int, target: Target) -> Seq<Piece> {
        if self.next_block(pos) == Some(target) {
            Seq::empty()
        } else {
            seq![jump(target)]
        }
    }

    /// The pieces that end the block at a position of the order.
    pub open spec fn control_pieces(self, list: Seq<Placement>, pos: int) -> Emitted {
        let b = self.order[pos];
        match self.prog.terminator(b) {
            None => {
                let to = self.prog.successors(b);
                let next = if to.len() > 0 {
                    Some(to[0])
                } else {
                    None
                };
                Ok(self.go(pos, self.edge(list, b, next)))
            },
            Some(Op::Ja { target }) => Ok(self.go(pos, self.edge(list, b, Some(target)))),
            Some(Op::Br { width, op, lhs, rhs, true_target, false_target }) => {
                let taken = self.edge(list, b, true_target);
                let untaken = self.edge(list, b, false_target);
                let behind = self.next_block(pos);
                if op == JumpOp::Call || op == JumpOp::Exit {
                    Ok(self.go(pos, untaken))
                } else if taken == untaken {
                    Ok(self.go(pos, taken))
                } else if Some(untaken) == behind {
                    self.cond(width, op, lhs, rhs, taken)
                } else if Some(taken) == behind && untaken != Target::FallOff && inverse(op) is Some {
                    self.cond(width, inverse(op)->0, lhs, rhs, untaken)
                } else {
                    cat(self.cond(width, op, lhs, rhs, taken), Ok(seq![jump(untaken)]))
                }
            },
            Some(Op::Exit { r0 }) => match self.home(r0) {
                None => Err(SsaError::OutOfRegisters),
                Some(home) => Ok(
                    move_pieces(PlacedMove { dst: Reg(0), src: MoveSrc::Reg(home) }) + seq![
                        plain(Insn::Exit),
                    ],
                ),
            },
            Some(_) => nothing(),
        }
    }

    /// The pieces of the block at a position of the order: its body, the phi
    /// moves at its end, and what ends it.
    pub open spec fn block_pieces(self, list: Seq<Placement>, pos: int) -> Emitted {
        let b = self.order[pos];
        let block = self.prog.nodes[b as int];
        cat(
            cat(
                self.body_pieces(block.start as int, block.end as int),
                ordered_pieces(moves_at_end(self, list, b), SsaError::PhiCycle),
            ),
            self.control_pieces(list, pos),
        )
    }

    /// The pieces of the first `n` blocks of the order.
    pub open spec fn blocks_pieces(self, list: Seq<Placement>, n: nat) -> Emitted
        decreases n,
    {
        if n == 0 {
            nothing()
        } else {
            cat(self.blocks_pieces(list, (n - 1) as nat), self.block_pieces(list, n - 1))
        }
    }

    /// The pieces of a trampoline: its moves, and a jump to the block.
    pub open spec fn tramp_pieces(self, list: Seq<Placement>, k: int) -> Emitted {
        let key = tramp_keys(self, list)[k];
        cat(
            ordered_pieces(tramp_moves(list, key), SsaError::PhiCycle),
            Ok(seq![jump(Target::Block(key.1))]),
        )
    }

    /// The pieces of all blocks and the first `n` trampolines.
    pub open spec fn pieces(self, list: Seq<Placement>, n: nat) -> Emitted
        decreases n,
    {
        if n == 0 {
            self.blocks_pieces(list, self.order.len())
        } else {
            cat(self.pieces(list, (n - 1) as nat), self.tramp_pieces(list, n - 1))
        }
    }

    /// All pieces.
    pub open spec fn all_pieces(self, list: Seq<Placement>) -> Emitted {
        self.pieces(list, tramp_keys(self, list).len())
    }

    /// The index of the first piece of a target; past the last one for a
    /// target that is not emitted.
    pub open spec fn place(self, list: Seq<Placement>, target: Target) -> int {
        let count = (self.all_pieces(list)->Ok_0).len() as int;
        match target {
            Target::Block(b) => if self.order.contains(b) {
                (self.blocks_pieces(list, self.order.index_of(b) as nat)->Ok_0).len() as int
            } else {
                count
            },
            Target::Tramp(k) => if k < tramp_keys(self, list).len() {
                (self.pieces(list, k as nat)->Ok_0).len() as int
            } else {
                count
            },
            Target::FallOff => count,
        }
    }

    /// The offset of the jump at index `i`, in slots.
    pub open spec fn offset(self, list: Seq<Placement>, i: int) -> int {
        let pieces = self.all_pieces(list)->Ok_0;
        let insns = insns_of(pieces);
        slot_of(insns, self.place(list, pieces[i].target->0) as nat) - slot_of(insns, i as nat) - 1
    }

    /// The first jump from index `i` on whose offset does not fit 16 bits.
    pub open spec fn first_far(self, list: Seq<Placement>, i: nat) -> Option<int>
        decreases (self.all_pieces(list)->Ok_0).len() - i,
    {
        let pieces = self.all_pieces(list)->Ok_0;
        if i >= pieces.len() {
            None
        } else if pieces[i as int].target is Some && !(i16::MIN <= self.offset(list, i as int)
            <= i16::MAX) {
            Some(i as int)
        } else {
            self.first_far(list, i + 1)
        }
    }

    /// The instruction at index `i`, with its jump offset.
    pub open spec fn resolved(self, list: Seq<Placement>, i: int) -> Insn {
        let piece = (self.all_pieces(list)->Ok_0)[i];
        match piece.target {
            Some(_) => with_offset(piece.insn, self.offset(list, i) as i16),
            None => piece.insn,
        }
    }

    /// The lowered program, or why there is none.
    pub open spec fn lowered(self) -> Result<Seq<Insn>, SsaError> {
        match self.placements(0) {
            Err(e) => Err(e),
            Ok(list) => match self.all_pieces(list) {
                Err(e) => Err(e),
                Ok(pieces) => match self.first_far(list, 0) {
                    Some(i) => Err(SsaError::JumpTooFar { pc: i as usize }),
                    None => Ok(Seq::new(pieces.len(), |i: int| self.resolved(list, i))),
                },
            },
        }
    }
}

/// The instructions of pieces.
pub open spec fn insns_of(pieces: Seq<Piece>) -> Seq<Insn> {
    pieces.map_values(|p: Piece| p.insn)
}

/// A jump with another offset.
pub open spec fn with_offset(insn: Insn, to: i16) -> Insn {
    match insn {
        Insn::Jump { width, op, dst, src, .. } => Insn::Jump { width, op, dst, src, offset: to },
        _ => insn,
    }
}

impl Prog {
    /// The plan over homes: the reachable blocks in their layout.
    pub open spec fn plan(self, homes: Seq<Option<Reg>>) -> Plan {
        let live = Seq::new(self.nodes.len(), |b: int| self.reaches(b as usize));
        Plan { prog: self, homes, live, order: self.layout(live) }
    }

    /// Whether a result is that of lowering the program: registers are placed
    /// in the order of the live ranges, and the plan over them is emitted, if
    /// its registers are sound.
    pub open spec fn lowers_to(self, r: Result<Seq<Insn>, SsaError>) -> bool {
        exists|order: Seq<usize>|
            #![trigger self.is_order(order)]
            self.is_order(order) && r == (match self.allocation(order) {
                None => Err(SsaError::OutOfRegisters),
                Some(homes) => self.plan(homes).approved(),
            })
    }
}

proof fn lemma_same_slots(a: Seq<Insn>, b: Seq<Insn>, i: nat)
    requires
        i <= a.len(),
        a.len() == b.len(),
        forall|k: int| 0 <= k < a.len() ==> width_of(#[trigger] a[k]) == width_of(b[k]),
    ensures
        slot_of(a, i) == slot_of(b, i),
    decreases i,
{
    if i > 0 {
        lemma_same_slots(a, b, (i - 1) as nat);
        assert(width_of(a[i - 1]) == width_of(b[i - 1]));
    }
}

proof fn lemma_blocks_grow(plan: Plan, list: Seq<Placement>, n: nat, m: nat)
    requires
        n <= m,
        plan.blocks_pieces(list, m) is Ok,
    ensures
        plan.blocks_pieces(list, n) is Ok,
        (plan.blocks_pieces(list, n)->Ok_0).len() <= (plan.blocks_pieces(list, m)->Ok_0).len(),
    decreases m,
{
    if n < m {
        lemma_blocks_grow(plan, list, n, (m - 1) as nat);
    }
}

proof fn lemma_pieces_grow(plan: Plan, list: Seq<Placement>, n: nat, m: nat)
    requires
        n <= m,
        plan.pieces(list, m) is Ok,
    ensures
        plan.pieces(list, n) is Ok,
        (plan.pieces(list, n)->Ok_0).len() <= (plan.pieces(list, m)->Ok_0).len(),
    decreases m,
{
    if n < m {
        lemma_pieces_grow(plan, list, n, (m - 1) as nat);
    }
}

/// A target starts within the emitted instructions, or at their end.
pub proof fn lemma_place(plan: Plan, list: Seq<Placement>, target: Target)
    requires
        plan.all_pieces(list) is Ok,
    ensures
        0 <= plan.place(list, target) <= (plan.all_pieces(list)->Ok_0).len(),
{
    let keys = tramp_keys(plan, list).len();
    lemma_pieces_grow(plan, list, 0, keys);
    match target {
        Target::Block(b) => {
            if plan.order.contains(b) {
                lemma_blocks_grow(plan, list, plan.order.index_of(b) as nat, plan.order.len());
            }
        },
        Target::Tramp(k) => {
            if k < keys {
                lemma_pieces_grow(plan, list, k as nat, keys);
            }
        },
        Target::FallOff => {},
    }
}

/// Whether pieces are instructions with valid registers, and those with a
/// target are jumps.
pub open spec fn well_made(pieces: Seq<Piece>) -> bool {
    forall|i: int|
        0 <= i < pieces.len() ==> (#[trigger] pieces[i]).insn.valid() && (pieces[i].target is Some
            ==> pieces[i].insn is Jump)
}

/// Whether what is emitted is well made.
spec fn well_emitted(r: Emitted) -> bool {
    r matches Ok(pieces) ==> well_made(pieces)
}

/// Whether all registers of a plan are registers.
pub open spec fn homes_valid(plan: Plan) -> bool {
    forall|i: int| 0 <= i < plan.homes.len() ==> ((#[trigger] plan.homes[i]) matches Some(r) ==> r.valid())
}

/// Whether the destination and the source of a move are registers.
spec fn move_valid(m: PlacedMove) -> bool {
    m.dst.valid() && (m.src matches MoveSrc::Reg(r) ==> r.valid())
}

spec fn moves_valid(moves: Seq<PlacedMove>) -> bool {
    forall|i: int| 0 <= i < moves.len() ==> move_valid(#[trigger] moves[i])
}

proof fn lemma_cat_made(a: Emitted, b: Emitted)
    requires
        well_emitted(a),
        well_emitted(b),
    ensures
        well_emitted(cat(a, b)),
{
}

proof fn lemma_moves_made(moves: Seq<PlacedMove>, n: nat)
    requires
        moves_valid(moves),
        n <= moves.len(),
    ensures
        well_made(moves_pieces(moves, n)),
    decreases n,
{
    if n > 0 {
        lemma_moves_made(moves, (n - 1) as nat);
        assert(move_valid(moves[n - 1]));
    }
}

proof fn lemma_proper_valid(moves: Seq<PlacedMove>)
    requires
        moves_valid(moves),
    ensures
        moves_valid(proper(moves)),
    decreases moves.len(),
{
    if moves.len() > 0 {
        assert(moves_valid(moves.drop_last())) by {
            assert forall|i: int| 0 <= i < moves.drop_last().len() implies move_valid(
                #[trigger] moves.drop_last()[i],
            ) by {
                assert(move_valid(moves[i]));
            }
        }
        lemma_proper_valid(moves.drop_last());
        assert(move_valid(moves[moves.len() - 1]));
    }
}

proof fn lemma_order_valid(moves: Seq<PlacedMove>)
    requires
        moves_valid(moves),
    ensures
        in_order(moves) matches Some(list) ==> moves_valid(list),
    decreases moves.len(),
{
    if moves.len() > 0 {
        if let Some(i) = first_free(moves, 0) {
            if 0 <= i < moves.len() {
                let rest = moves.remove(i);
                assert(moves_valid(rest)) by {
                    assert forall|k: int| 0 <= k < rest.len() implies move_valid(#[trigger] rest[k]) by {
                        let j = if k < i {
                            k
                        } else {
                            k + 1
                        };
                        assert(rest[k] == moves[j]);
                        assert(move_valid(moves[j]));
                    }
                }
                lemma_order_valid(rest);
                if let Some(list) = in_order(rest) {
                    let all = seq![moves[i]] + list;
                    assert forall|k: int| 0 <= k < all.len() implies move_valid(#[trigger] all[k]) by {
                        if k == 0 {
                            assert(move_valid(moves[i]));
                        } else {
                            assert(move_valid(list[k - 1]));
                        }
                    }
                }
            }
        }
    }
}

proof fn lemma_ordered_made(moves: Seq<PlacedMove>, cycle: SsaError)
    requires
        moves_valid(moves),
    ensures
        well_emitted(ordered_pieces(moves, cycle)),
{
    lemma_proper_valid(moves);
    lemma_order_valid(proper(moves));
    if let Some(list) = in_order(proper(moves)) {
        lemma_moves_made(list, list.len());
    }
}

proof fn lemma_home_valid(plan: Plan, v: SsaValue)
    requires
        homes_valid(plan),
    ensures
        plan.home(v) matches Some(r) ==> r.valid(),
        plan.move_src(v) matches Ok(MoveSrc::Reg(r)) ==> r.valid(),
{
    if v.0 < plan.homes.len() {
        assert(plan.homes[v.0 as int] matches Some(r) ==> r.valid());
    }
}

proof fn lemma_operand_valid(plan: Plan, o: SsaOperand)
    requires
        homes_valid(plan),
    ensures
        plan.operand(o) matches Some(x) ==> x.valid(),
        plan.move_src_of(o) matches Ok(MoveSrc::Reg(r)) ==> r.valid(),
{
    if let SsaOperand::Value(v) = o {
        lemma_home_valid(plan, v);
    }
}

proof fn lemma_shuffle_valid(plan: Plan, args: Seq<SsaValue>, n: nat)
    requires
        homes_valid(plan),
        n <= 5,
        forall|i: int| 0 <= i < 5 ==> plan.home(#[trigger] args[i]) is Some,
    ensures
        moves_valid(plan.shuffle(args, n)),
    decreases n,
{
    if n > 0 {
        lemma_shuffle_valid(plan, args, (n - 1) as nat);
        lemma_home_valid(plan, args[n - 1]);
        let rest = plan.shuffle(args, (n - 1) as nat);
        let all = plan.shuffle(args, n);
        assert forall|i: int| 0 <= i < all.len() implies move_valid(#[trigger] all[i]) by {
            if i < rest.len() {
                assert(move_valid(rest[i]));
            }
        }
    }
}

proof fn lemma_temp_valid(plan: Plan, moves: Seq<PlacedMove>, saves: Seq<(Reg, Reg)>, pos: int, i: nat)
    ensures
        plan.first_temp(moves, saves, pos, i) matches Some(r) ==> r.valid(),
    decreases 10 - i,
{
    if i < 10 {
        lemma_temp_valid(plan, moves, saves, pos, i + 1);
    }
}

proof fn lemma_saves_valid(plan: Plan, moves: Seq<PlacedMove>, pos: int, n: nat)
    requires
        moves_valid(moves),
        n <= moves.len(),
    ensures
        plan.saves(moves, pos, n) matches Some(saves) ==> forall|i: int|
            0 <= i < saves.len() ==> (#[trigger] saves[i]).0.valid() && saves[i].1.valid(),
    decreases n,
{
    if n > 0 {
        lemma_saves_valid(plan, moves, pos, (n - 1) as nat);
        if let Some(rest) = plan.saves(moves, pos, (n - 1) as nat) {
            lemma_temp_valid(plan, moves, rest, pos, 0);
            assert(move_valid(moves[n - 1]));
        }
    }
}

proof fn lemma_call_made(plan: Plan, dst: SsaValue, func: u32, args: Seq<SsaValue>, pos: int)
    requires
        homes_valid(plan),
    ensures
        well_emitted(plan.call_pieces(dst, func, args, pos)),
{
    if !(exists|i: int| 0 <= i < 5 && plan.home(#[trigger] args[i]) is None) {
        lemma_shuffle_valid(plan, args, 5);
        let moves = plan.shuffle(args, 5);
        lemma_saves_valid(plan, moves, pos, moves.len());
        lemma_ordered_made(moves, SsaError::CallArgCycle);
        lemma_home_valid(plan, dst);
        if let Some(saves) = plan.saves(moves, pos, moves.len()) {
            if let Ok(shuffled) = ordered_pieces(moves, SsaError::CallArgCycle) {
                let keep = saves.map_values(|s: (Reg, Reg)| plain(mov(s.1, Operand::Reg(s.0))));
                let back = saves.map_values(|s: (Reg, Reg)| plain(mov(s.0, Operand::Reg(s.1))));
                assert(well_made(keep)) by {
                    assert forall|i: int| 0 <= i < keep.len() implies (#[trigger] keep[i]).insn.valid()
                        && (keep[i].target is Some ==> keep[i].insn is Jump) by {
                        assert(saves[i].0.valid());
                    }
                }
                assert(well_made(back)) by {
                    assert forall|i: int| 0 <= i < back.len() implies (#[trigger] back[i]).insn.valid()
                        && (back[i].target is Some ==> back[i].insn is Jump) by {
                        assert(saves[i].0.valid());
                    }
                }
            }
        }
    }
}

proof fn lemma_op_made(plan: Plan, i: int)
    requires
        homes_valid(plan),
    ensures
        well_emitted(plan.op_pieces(i)),
{
    match plan.prog.insns[i] {
        Op::Const { dst, value } => {
            lemma_home_valid(plan, dst);
        },
        Op::LoadImm64 { dst, imm } => {
            lemma_home_valid(plan, dst);
        },
        Op::Copy { dst, src } => {
            lemma_home_valid(plan, dst);
            lemma_home_valid(plan, src);
        },
        Op::BinOp { dst, width, op, lhs, rhs } => {
            lemma_home_valid(plan, dst);
            lemma_operand_valid(plan, lhs);
            lemma_operand_valid(plan, rhs);
        },
        Op::Load { dst, size, base, offset } => {
            lemma_home_valid(plan, base);
            if let Some(v) = dst {
                lemma_home_valid(plan, v);
            }
        },
        Op::Store { size, base, offset, src } => {
            lemma_home_valid(plan, base);
            lemma_operand_valid(plan, src);
        },
        Op::Call { dst, func, args } => {
            lemma_call_made(plan, dst, func, args, i);
        },
        _ => {},
    }
}

proof fn lemma_body_made(plan: Plan, i: int, end: int)
    requires
        homes_valid(plan),
    ensures
        well_emitted(plan.body_pieces(i, end)),
    decreases end - i,
{
    if i < end && !plan.prog.insns[i].is_control() {
        lemma_op_made(plan, i);
        lemma_body_made(plan, i + 1, end);
        lemma_cat_made(plan.op_pieces(i), plan.body_pieces(i + 1, end));
    }
}

proof fn lemma_cond_made(
    plan: Plan,
    width: Width,
    op: JumpOp,
    lhs: SsaOperand,
    rhs: SsaOperand,
    target: Target,
)
    requires
        homes_valid(plan),
    ensures
        well_emitted(plan.cond(width, op, lhs, rhs, target)),
{
    lemma_operand_valid(plan, lhs);
    lemma_operand_valid(plan, rhs);
    if let SsaOperand::Value(v) = lhs {
        lemma_home_valid(plan, v);
    }
}

proof fn lemma_control_made(plan: Plan, list: Seq<Placement>, pos: int)
    requires
        homes_valid(plan),
    ensures
        well_emitted(plan.control_pieces(list, pos)),
{
    let b = plan.order[pos];
    match plan.prog.terminator(b) {
        Some(Op::Br { width, op, lhs, rhs, true_target, false_target }) => {
            let taken = plan.edge(list, b, true_target);
            let untaken = plan.edge(list, b, false_target);
            lemma_cond_made(plan, width, op, lhs, rhs, taken);
            if inverse(op) is Some {
                lemma_cond_made(plan, width, inverse(op)->0, lhs, rhs, untaken);
            }
            lemma_cat_made(plan.cond(width, op, lhs, rhs, taken), Ok(seq![jump(untaken)]));
        },
        Some(Op::Exit { r0 }) => {
            lemma_home_valid(plan, r0);
        },
        _ => {},
    }
}

/// Whether the moves of placements have registers.
spec fn placed_valid(list: Seq<Placement>) -> bool {
    forall|i: int| 0 <= i < list.len() ==> move_valid((#[trigger] list[i]).step)
}

proof fn lemma_inputs_valid(plan: Plan, b: usize, home: Reg, inputs: Seq<(usize, SsaValue)>, k: nat)
    requires
        homes_valid(plan),
        home.valid(),
    ensures
        plan.input_placements(b, home, inputs, k) matches Ok(list) ==> placed_valid(list),
    decreases inputs.len() - k,
{
    if k < inputs.len() {
        lemma_inputs_valid(plan, b, home, inputs, k + 1);
        lemma_home_valid(plan, inputs[k as int].1);
    }
}

proof fn lemma_phis_valid(plan: Plan, b: usize, i: int, end: int)
    requires
        homes_valid(plan),
    ensures
        plan.phi_placements(b, i, end) matches Ok(list) ==> placed_valid(list),
    decreases end - i,
{
    if i < end {
        lemma_phis_valid(plan, b, i + 1, end);
        if let Op::Phi { dst, inputs } = plan.prog.insns[i] {
            lemma_home_valid(plan, dst);
            if let Some(home) = plan.home(dst) {
                lemma_inputs_valid(plan, b, home, inputs, 0);
            }
        }
    }
}

proof fn lemma_placements_valid(plan: Plan, b: nat)
    requires
        homes_valid(plan),
    ensures
        plan.placements(b) matches Ok(list) ==> placed_valid(list),
    decreases plan.prog.nodes.len() - b,
{
    if b < plan.prog.nodes.len() {
        lemma_placements_valid(plan, b + 1);
        let block = plan.prog.nodes[b as int];
        lemma_phis_valid(plan, b as usize, block.start as int, block.end as int);
    }
}

proof fn lemma_end_moves_valid(plan: Plan, list: Seq<Placement>, p: usize)
    requires
        placed_valid(list),
    ensures
        moves_valid(moves_at_end(plan, list, p)),
    decreases list.len(),
{
    if list.len() > 0 {
        assert(placed_valid(list.drop_last())) by {
            assert forall|i: int| 0 <= i < list.drop_last().len() implies move_valid(
                (#[trigger] list.drop_last()[i]).step,
            ) by {
                assert(move_valid(list[i].step));
            }
        }
        lemma_end_moves_valid(plan, list.drop_last(), p);
        assert(move_valid(list[list.len() - 1].step));
    }
}

proof fn lemma_tramp_moves_valid(list: Seq<Placement>, key: (usize, usize))
    requires
        placed_valid(list),
    ensures
        moves_valid(tramp_moves(list, key)),
    decreases list.len(),
{
    if list.len() > 0 {
        assert(placed_valid(list.drop_last())) by {
            assert forall|i: int| 0 <= i < list.drop_last().len() implies move_valid(
                (#[trigger] list.drop_last()[i]).step,
            ) by {
                assert(move_valid(list[i].step));
            }
        }
        lemma_tramp_moves_valid(list.drop_last(), key);
        assert(move_valid(list[list.len() - 1].step));
    }
}

proof fn lemma_blocks_made(plan: Plan, list: Seq<Placement>, n: nat)
    requires
        homes_valid(plan),
        placed_valid(list),
    ensures
        well_emitted(plan.blocks_pieces(list, n)),
    decreases n,
{
    if n > 0 {
        lemma_blocks_made(plan, list, (n - 1) as nat);
        let b = plan.order[n - 1];
        let block = plan.prog.nodes[b as int];
        let body = plan.body_pieces(block.start as int, block.end as int);
        let ends = ordered_pieces(moves_at_end(plan, list, b), SsaError::PhiCycle);
        lemma_body_made(plan, block.start as int, block.end as int);
        lemma_end_moves_valid(plan, list, b);
        lemma_ordered_made(moves_at_end(plan, list, b), SsaError::PhiCycle);
        lemma_cat_made(body, ends);
        lemma_control_made(plan, list, n - 1);
        lemma_cat_made(cat(body, ends), plan.control_pieces(list, n - 1));
        lemma_cat_made(plan.blocks_pieces(list, (n - 1) as nat), plan.block_pieces(list, n - 1));
    }
}

proof fn lemma_pieces_made(plan: Plan, list: Seq<Placement>, n: nat)
    requires
        homes_valid(plan),
        placed_valid(list),
    ensures
        well_emitted(plan.pieces(list, n)),
    decreases n,
{
    if n == 0 {
        lemma_blocks_made(plan, list, plan.order.len());
    } else {
        lemma_pieces_made(plan, list, (n - 1) as nat);
        let key = tramp_keys(plan, list)[n - 1];
        lemma_tramp_moves_valid(list, key);
        lemma_ordered_made(tramp_moves(list, key), SsaError::PhiCycle);
        lemma_cat_made(
            ordered_pieces(tramp_moves(list, key), SsaError::PhiCycle),
            Ok(seq![jump(Target::Block(key.1))]),
        );
        lemma_cat_made(plan.pieces(list, (n - 1) as nat), plan.tramp_pieces(list, n - 1));
    }
}

/// Every instruction of a lowered program has valid registers.
pub proof fn lowered_insns_are_valid(plan: Plan, i: int)
    requires
        homes_valid(plan),
        plan.lowered() is Ok,
        0 <= i < (plan.lowered()->Ok_0).len(),
    ensures
        (plan.lowered()->Ok_0)[i].valid(),
{
    lemma_placements_valid(plan, 0);
    let list = plan.placements(0)->Ok_0;
    lemma_pieces_made(plan, list, tramp_keys(plan, list).len());
    let pieces = plan.all_pieces(list)->Ok_0;
    assert(pieces[i].insn.valid());
    assert((plan.lowered()->Ok_0)[i] == plan.resolved(list, i));
}

/// Every jump of a lowered program lands where its target starts: on its
/// first instruction, or behind the last one for a target that is not
/// emitted.
pub proof fn jumps_land_on_targets(plan: Plan, list: Seq<Placement>, i: int)
    requires
        plan.placements(0) == Ok::<Seq<Placement>, SsaError>(list),
        plan.lowered() is Ok,
        0 <= i < (plan.lowered()->Ok_0).len(),
        (plan.all_pieces(list)->Ok_0)[i].target is Some,
        homes_valid(plan),
    ensures
        (plan.lowered()->Ok_0)[i] matches Insn::Jump { offset, .. } && target_slot(
            plan.lowered()->Ok_0,
            i,
            offset,
        ) == slot_of(
            plan.lowered()->Ok_0,
            plan.place(list, (plan.all_pieces(list)->Ok_0)[i].target->0) as nat,
        ),
{
    let pieces = plan.all_pieces(list)->Ok_0;
    let open = insns_of(pieces);
    let done = plan.lowered()->Ok_0;
    lemma_placements_valid(plan, 0);
    lemma_pieces_made(plan, list, tramp_keys(plan, list).len());
    assert(pieces[i].insn.valid());
    lemma_place(plan, list, pieces[i].target->0);
    assert forall|k: int| 0 <= k < open.len() implies width_of(#[trigger] open[k]) == width_of(done[k]) by {
        assert(done[k] == plan.resolved(list, k));
    }
    lemma_same_slots(open, done, i as nat);
    lemma_same_slots(open, done, plan.place(list, pieces[i].target->0) as nat);
    lemma_far(plan, list, 0, i);
    assert(done[i] == plan.resolved(list, i));
}

proof fn lemma_far(plan: Plan, list: Seq<Placement>, k: nat, i: int)
    requires
        plan.first_far(list, k) is None,
        k <= i < (plan.all_pieces(list)->Ok_0).len(),
        (plan.all_pieces(list)->Ok_0)[i].target is Some,
    ensures
        i16::MIN <= plan.offset(list, i) <= i16::MAX,
    decreases (plan.all_pieces(list)->Ok_0).len() - k,
{
    if k < i {
        lemma_far(plan, list, k + 1, i);
    }
}

/// The opposite of a comparison holds exactly where the comparison does not.
pub proof fn inverse_negates(op: JumpOp, a: i64, b: i64, width: Width)
    requires
        inverse(op) is Some,
    ensures
        jump_condition(inverse(op)->0, a, b, width) == !jump_condition(op, a, b, width),
{
}

} // verus!
