//! What SSA programs compute.
//!
//! An SSA program runs over an assignment of numbers to values, block by
//! block. The phis of a block take their values together, when control
//! arrives over an edge. Memory, helpers and maps are those of the virtual
//! machine.
use vstd::prelude::*;

use crate::isa::alu::end_width;
use crate::isa::insn::{AluOp, MemSize};
use crate::ssa::{Op, Prog, SsaOperand, SsaValue, START_PRED};
use crate::vm::maps::{DescModel, StoreModel};
use crate::vm::memory::{MemError, MemModel};
use crate::vm::{jump_condition, HelperFn, RunOutcome, StepResult, VmError, VmModel};

verus! {

/// What a program works on besides registers or values.
#[verifier::ext_equal]
pub struct World {
    /// Memory.
    pub mem: MemModel,
    /// Registered helpers.
    pub helpers: spec_fn(u32) -> Option<HelperFn>,
    /// Maps by descriptor number.
    pub maps: Seq<Option<(DescModel, StoreModel)>>,
}

/// The world of a machine.
pub open spec fn world_of(m: VmModel) -> World {
    World { mem: m.mem, helpers: m.helpers, maps: m.maps }
}

/// How a run ends, whatever the numbering of the instructions.
pub enum Ending {
    /// It exits with a code.
    Exit(i64),
    /// A memory access faults.
    Memory(MemError),
    /// A helper is not registered.
    UnknownHelper(u32),
    /// A byte swap has a bad width.
    BadWidth(i64),
    /// An instruction is illegal.
    Illegal,
    /// Control leaves the program.
    FellOff,
}

/// The ending that an error stands for, unless it is a spent step budget.
pub open spec fn fault_of(e: VmError) -> Option<Ending> {
    match e {
        VmError::IllegalInstruction { .. } => Some(Ending::Illegal),
        VmError::JumpOutOfBounds { .. } => Some(Ending::FellOff),
        VmError::UnknownHelper { func } => Some(Ending::UnknownHelper(func)),
        VmError::InvalidEndWidth { width, .. } => Some(Ending::BadWidth(width)),
        VmError::StepsExceeded { .. } => None,
        VmError::Memory(e) => Some(Ending::Memory(e)),
    }
}

/// The ending of a run, unless its step budget was spent.
pub open spec fn ending_of(outcome: RunOutcome) -> Option<Ending> {
    match outcome {
        Ok(code) => Some(Ending::Exit(code)),
        Err(e) => fault_of(e),
    }
}

/// The numbers that values stand for.
pub type Values = spec_fn(SsaValue) -> i64;

/// What a program is started with.
pub struct Given {
    /// The context pointer, in `r1`.
    pub ctx: i64,
    /// The frame pointer, in `r10`.
    pub frame: i64,
}

/// Values with one of them changed.
pub open spec fn with_value(env: Values, v: SsaValue, x: i64) -> Values {
    |w: SsaValue|
        if w == v {
            x
        } else {
            env(w)
        }
}

/// The number of an operand.
pub open spec fn number_of(env: Values, o: SsaOperand) -> i64 {
    match o {
        SsaOperand::Value(v) => env(v),
        SsaOperand::Imm(k) => k as i64,
    }
}

/// The numbers of call arguments.
pub open spec fn numbers_of(env: Values, args: Seq<SsaValue>) -> Seq<i64> {
    args.map_values(|v: SsaValue| env(v))
}

/// A machine that holds call arguments in its registers.
pub open spec fn caller(w: World, args: Seq<i64>) -> VmModel {
    VmModel {
        regs: seq![0i64, args[0], args[1], args[2], args[3], args[4], 0i64, 0i64, 0i64, 0i64, 0i64],
        pc: 0,
        insns: Seq::empty(),
        code: Seq::empty(),
        mem: w.mem,
        helpers: w.helpers,
        maps: w.maps,
    }
}

/// What a helper call does to the world, and what it returns.
pub open spec fn called(w: World, func: u32, args: Seq<i64>) -> Result<(World, i64), Ending> {
    let (after, outcome) = caller(w, args).call(func);
    match outcome {
        StepResult::Continue => Ok((world_of(after), after.regs[0])),
        StepResult::Exit(code) => Err(Ending::Exit(code)),
        StepResult::Error(e) => Err(fault_of(e)->0),
    }
}

/// What an arithmetic operation gives. A byte swap needs an immediate width
/// of 16, 32 or 64.
pub open spec fn computed(env: Values, op: Op) -> Result<i64, Ending> {
    match op {
        Op::BinOp { width, op, lhs, rhs, .. } => match (op, rhs) {
            (AluOp::End(_), SsaOperand::Value(_)) => Err(Ending::Illegal),
            (AluOp::End(_), SsaOperand::Imm(w)) => if end_width(w as i64) {
                Ok(op.result(number_of(env, lhs), w as i64, width))
            } else {
                Err(Ending::BadWidth(w as i64))
            },
            _ => Ok(op.result(number_of(env, lhs), number_of(env, rhs), width)),
        },
        _ => Ok(0),
    }
}

/// What an instruction does, with its operands evaluated.
pub enum Act {
    /// Nothing.
    Pass,
    /// It gives a value its number.
    Give(SsaValue, i64),
    /// It loads from an address.
    Load(Option<SsaValue>, MemSize, i64),
    /// It stores a number at an address.
    Store(MemSize, i64, i64),
    /// It calls a helper.
    Call(SsaValue, u32, Seq<i64>),
    /// It goes to a block, or out of the program.
    Go(Option<usize>),
    /// It ends the run.
    Stop(Ending),
}

/// What an instruction does on given values.
pub open spec fn act(g: Given, op: Op, env: Values) -> Act {
    match op {
        Op::Const { dst, value } => Act::Give(dst, value),
        Op::LoadImm64 { dst, imm } => Act::Give(dst, imm),
        Op::FramePtr { dst } => Act::Give(dst, g.frame),
        Op::EntryCtx { dst } => Act::Give(dst, g.ctx),
        Op::Copy { dst, src } => Act::Give(dst, env(src)),
        Op::BinOp { dst, .. } => match computed(env, op) {
            Ok(x) => Act::Give(dst, x),
            Err(e) => Act::Stop(e),
        },
        Op::Load { dst, size, base, offset } => Act::Load(
            dst,
            size,
            env(base).wrapping_add(offset as i64),
        ),
        Op::Store { size, base, offset, src } => Act::Store(
            size,
            env(base).wrapping_add(offset as i64),
            number_of(env, src),
        ),
        Op::Call { dst, func, args } => Act::Call(dst, func, numbers_of(env, args)),
        Op::Phi { .. } => Act::Pass,
        Op::Br { width, op, lhs, rhs, true_target, false_target } => Act::Go(
            if jump_condition(op, number_of(env, lhs), number_of(env, rhs), width) {
                true_target
            } else {
                false_target
            },
        ),
        Op::Ja { target } => Act::Go(Some(target)),
        Op::Exit { r0 } => Act::Stop(Ending::Exit(env(r0))),
    }
}

/// The value that a phi takes from a predecessor.
pub open spec fn taken_from(inputs: Seq<(usize, SsaValue)>, p: usize, k: nat) -> Option<SsaValue>
    decreases inputs.len() - k,
{
    if k >= inputs.len() {
        None
    } else if inputs[k as int].0 == p {
        Some(inputs[k as int].1)
    } else {
        taken_from(inputs, p, k + 1)
    }
}

/// A point in the run of an SSA program.
pub struct SsaState {
    /// The numbers of values.
    pub env: Values,
    /// The current block.
    pub block: usize,
    /// The next instruction.
    pub at: int,
    /// Memory, helpers and maps.
    pub world: World,
}

impl Prog {
    /// The number of a value that is the same wherever it is used.
    pub open spec fn fixed(self, g: Given, v: SsaValue) -> Option<i64> {
        match self.def_of(v) {
            Some(Op::Const { value, .. }) => Some(value),
            Some(Op::LoadImm64 { imm, .. }) => Some(imm),
            Some(Op::FramePtr { .. }) => Some(g.frame),
            Some(Op::EntryCtx { .. }) => Some(g.ctx),
            _ => None,
        }
    }

    /// Values at the start: the fixed ones, and zero for the rest.
    pub open spec fn first_values(self, g: Given) -> Values {
        |v: SsaValue|
            match self.fixed(g, v) {
                Some(x) => x,
                None => 0,
            }
    }

    /// Whether an instruction index is in a block.
    pub open spec fn within(self, b: usize, i: int) -> bool {
        b < self.nodes.len() && self.nodes[b as int].start <= i < self.nodes[b as int].end
    }

    /// The inputs of the phi of a block that defines a value.
    pub open spec fn phi_for(self, b: usize, v: SsaValue) -> Option<Seq<(usize, SsaValue)>> {
        match self.def_of(v) {
            Some(Op::Phi { dst, inputs }) => if dst == v && self.within(
                b,
                self.sites[v.0 as int] as int,
            ) {
                Some(inputs)
            } else {
                None
            },
            _ => None,
        }
    }

    /// Values after control arrives at a block from a predecessor.
    pub open spec fn arrived(self, env: Values, p: usize, b: usize) -> Values {
        |v: SsaValue|
            match self.phi_for(b, v) {
                Some(inputs) => match taken_from(inputs, p, 0) {
                    Some(u) => env(u),
                    None => env(v),
                },
                None => env(v),
            }
    }

    /// The start of a block, entered from a predecessor.
    pub open spec fn enter(self, env: Values, world: World, p: usize, b: usize) -> SsaState {
        SsaState { env: self.arrived(env, p, b), block: b, at: self.nodes[b as int].start as int, world }
    }

    /// Control on its way to a block, or out of the program.
    pub open spec fn go_to(self, s: SsaState, to: Option<usize>) -> Result<SsaState, Ending> {
        match to {
            Some(b) => Ok(self.enter(s.env, s.world, s.block, b)),
            None => Err(Ending::FellOff),
        }
    }

    /// The block behind one that ends without a control instruction.
    pub open spec fn behind(self, b: usize) -> Option<usize> {
        let to = self.successors(b);
        if to.len() > 0 {
            Some(to[0])
        } else {
            None
        }
    }

    /// A run after an instruction has done its work, or how it ends.
    pub open spec fn perform(self, s: SsaState, act: Act) -> Result<SsaState, Ending> {
        let next = SsaState { at: s.at + 1, ..s };
        match act {
            Act::Pass => Ok(next),
            Act::Give(v, x) => Ok(SsaState { env: with_value(s.env, v, x), ..next }),
            Act::Load(dst, size, addr) => match s.world.mem.load(addr, size) {
                Ok(x) => match dst {
                    Some(v) => Ok(SsaState { env: with_value(s.env, v, x), ..next }),
                    None => Ok(next),
                },
                Err(e) => Err(Ending::Memory(e)),
            },
            Act::Store(size, addr, x) => match s.world.mem.store_fault(addr, size) {
                None => Ok(
                    SsaState {
                        world: World { mem: s.world.mem.stored(addr, size, x), ..s.world },
                        ..next
                    },
                ),
                Some(e) => Err(Ending::Memory(e)),
            },
            Act::Call(v, func, args) => match called(s.world, func, args) {
                Ok((world, x)) => Ok(SsaState { env: with_value(s.env, v, x), world, ..next }),
                Err(e) => Err(e),
            },
            Act::Go(to) => self.go_to(s, to),
            Act::Stop(e) => Err(e),
        }
    }

    /// A run one step further on, or how it ends.
    pub open spec fn step(self, g: Given, s: SsaState) -> Result<SsaState, Ending> {
        if s.at >= self.nodes[s.block as int].end {
            self.go_to(s, self.behind(s.block))
        } else {
            self.perform(s, act(g, self.insns[s.at], s.env))
        }
    }

    /// How a run ends within a number of steps, and the world it leaves.
    pub open spec fn run(self, g: Given, s: SsaState, fuel: nat) -> Option<(World, Ending)>
        decreases fuel,
    {
        if fuel == 0 {
            None
        } else {
            match self.step(g, s) {
                Ok(next) => self.run(g, next, (fuel - 1) as nat),
                Err(e) => Some((s.world, e)),
            }
        }
    }

    /// Whether a run ends, and so.
    pub open spec fn ends(self, g: Given, s: SsaState, end: (World, Ending)) -> bool {
        exists|fuel: nat| #[trigger] self.run(g, s, fuel) == Some(end)
    }

    /// The start of the program.
    pub open spec fn first_state(self, g: Given, world: World) -> SsaState {
        self.enter(self.first_values(g), world, START_PRED, self.entry)
    }

    /// Whether the program ends so when it is started in a world.
    pub open spec fn ends_with(self, g: Given, world: World, end: (World, Ending)) -> bool {
        self.ends(g, self.first_state(g, world), end)
    }
}

/// A run that ends from the next state on ends.
pub proof fn lemma_ends_before(prog: Prog, g: Given, s: SsaState, end: (World, Ending))
    requires
        prog.step(g, s) matches Ok(next) && prog.ends(g, next, end),
    ensures
        prog.ends(g, s, end),
{
    let next = prog.step(g, s)->Ok_0;
    let fuel = choose|fuel: nat| #[trigger] prog.run(g, next, fuel) == Some(end);
    assert(prog.run(g, s, fuel + 1) == Some(end));
}

/// A run that stops here ends.
pub proof fn lemma_ends_here(prog: Prog, g: Given, s: SsaState)
    requires
        prog.step(g, s) is Err,
    ensures
        prog.ends(g, s, (s.world, prog.step(g, s)->Err_0)),
{
    assert(prog.run(g, s, 1) == Some((s.world, prog.step(g, s)->Err_0)));
}

/// A helper call on a machine does what it does to the world, and writes
/// `r0`.
pub proof fn lemma_call_agrees(m: VmModel, func: u32, args: Seq<i64>)
    requires
        m.regs.len() == 11,
        args.len() == 5,
        forall|i: int| 0 <= i < 5 ==> #[trigger] args[i] == m.regs[i + 1],
    ensures
        match called(world_of(m), func, args) {
            Ok((w, x)) => {
                let (n, r) = m.call(func);
                &&& r == StepResult::Continue
                &&& world_of(n) == w
                &&& n.regs == m.regs.update(0, x)
                &&& n.pc == (m.pc + 1) as usize
                &&& n.code == m.code
                &&& n.insns == m.insns
            },
            Err(e) => {
                let (n, r) = m.call(func);
                &&& r matches StepResult::Error(err) && fault_of(err) == Some(e)
                &&& world_of(n) == world_of(m)
            },
        },
{
    let c = caller(world_of(m), args);
    assert(c.regs[1] == args[0] && args[0] == m.regs[1]);
    assert(c.regs[2] == args[1] && args[1] == m.regs[2]);
    assert(c.regs[3] == args[2] && args[2] == m.regs[3]);
    assert(c.regs[4] == args[3] && args[3] == m.regs[4]);
}

} // verus!
