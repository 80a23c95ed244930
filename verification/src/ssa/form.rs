//! What an SSA form of a program is.
//!
//! A [`Form`] lists, per block, a head (the entry versions and the phis) and
//! a body (one instruction per instruction of the program, except for pure
//! writes to the frame pointer). It also records which values may stand for
//! a register at the start of a block. [`Form::is_form_of`] says when all of
//! that is a faithful rendering of the program.
use vstd::prelude::*;

use crate::cfg::{blocks, edges, EdgeKind};
use crate::graph::{is_path, predecessors, Edge};
use crate::isa::insn::{AluOp, Insn, JumpOp, Operand, Reg, Width};
use crate::ssa::{Op, Prog, SsaBlock, SsaOperand, SsaValue, START_PRED};

verus! {

/// The entry version of a register: `v1` is the frame pointer, `v2` the
/// context pointer, and `v0` the zero of all other registers.
pub open spec fn entry_version(r: u8) -> SsaValue {
    if r == 10 {
        SsaValue(1)
    } else if r == 1 {
        SsaValue(2)
    } else {
        SsaValue(0)
    }
}

/// The sources of the edges into a block.
pub open spec fn preds(insns: Seq<Insn>, b: usize) -> Seq<usize> {
    predecessors(edges(insns), b)
}

/// Whether a way of one edge or more leads from a block to another.
pub open spec fn way(list: Seq<Edge>, a: usize, b: usize) -> bool {
    exists|t: Seq<usize>| #[trigger] is_path(list, t) && t.len() > 1 && t[0] == a && t.last() == b
}

/// Whether one block is visited before another.
pub open spec fn earlier(order: Seq<usize>, a: usize, b: usize) -> bool {
    exists|i: int, j: int| 0 <= i < j < order.len() && #[trigger] order[i] == a && #[trigger] order[j] == b
}

/// Whether control comes back from a block, to itself or to one that is
/// visited before it.
pub open spec fn comes_back(insns: Seq<Insn>, order: Seq<usize>, b: usize) -> bool {
    exists|c: usize| #[trigger] way(edges(insns), b, c) && (c == b || earlier(order, c, b))
}

/// Whether a block may have phis: one that is reached over a single edge only
/// where a read can come back to it.
pub open spec fn may_head(insns: Seq<Insn>, order: Seq<usize>, b: usize) -> bool {
    b != 0 && order.contains(b) && preds(insns, b).len() == 1 ==> comes_back(insns, order, b)
}

/// Whether some edge leads back into the entry block.
pub open spec fn entry_loop(insns: Seq<Insn>) -> bool {
    preds(insns, 0).len() > 0
}

/// What a phi of a block takes from the program start: the entry version, in
/// an entry block that is entered again.
pub open spec fn starts(insns: Seq<Insn>, b: usize, r: u8) -> Seq<(usize, SsaValue)> {
    if b == 0 && entry_loop(insns) {
        seq![(START_PRED, entry_version(r))]
    } else {
        Seq::empty()
    }
}

/// The definitions of the entry versions.
pub open spec fn prelude() -> Seq<Op> {
    seq![
        Op::Const { dst: SsaValue(0), value: 0 },
        Op::FramePtr { dst: SsaValue(1) },
        Op::EntryCtx { dst: SsaValue(2) },
    ]
}

/// The number of instructions before the phis of a block.
pub open spec fn base(b: usize) -> int {
    if b == 0 {
        3
    } else {
        0
    }
}

/// Whether an operation is a byte swap without a valid immediate width.
pub open spec fn bad_end(op: AluOp, src: Operand) -> bool {
    op is End && !(src matches Operand::Imm(w) && (w == 16 || w == 32 || w == 64))
}

/// Whether an instruction is rendered at all. A write to the frame pointer
/// that cannot fault has no effect.
pub open spec fn rendered(insn: Insn) -> bool {
    match insn {
        Insn::Alu { op, dst, src, .. } => dst.0 != 10 || bad_end(op, src),
        Insn::LoadImm64 { dst, .. } => dst.0 != 10,
        _ => true,
    }
}

/// The register that an instruction writes.
pub open spec fn written(insn: Insn) -> Option<u8> {
    match insn {
        Insn::Alu { dst, .. } => if dst.0 != 10 {
            Some(dst.0)
        } else {
            None
        },
        Insn::LoadImm64 { dst, .. } => if dst.0 != 10 {
            Some(dst.0)
        } else {
            None
        },
        Insn::Load { dst, .. } => if dst.0 != 10 {
            Some(dst.0)
        } else {
            None
        },
        Insn::Call { .. } => Some(0),
        _ => None,
    }
}

/// Versions of registers that were defined inside a block.
pub type Env = Seq<Option<SsaValue>>;

/// No version of any register.
pub open spec fn no_versions() -> Env {
    Seq::new(11, |r: int| None)
}

/// The position in a body that belongs to index `pc`, and the versions that
/// the body has defined before it.
pub open spec fn walk(insns: Seq<Insn>, body: Seq<Op>, start: int, pc: int) -> (int, Env)
    decreases pc - start,
{
    if pc <= start {
        (0, no_versions())
    } else {
        let (k, env) = walk(insns, body, start, pc - 1);
        if !rendered(insns[pc - 1]) {
            (k, env)
        } else {
            match written(insns[pc - 1]) {
                Some(r) => (k + 1, env.update(r as int, body[k].def())),
                None => (k + 1, env),
            }
        }
    }
}

/// Whether an edge kind of a block leads to a block, or to none.
pub open spec fn goes_to(list: Seq<Edge>, b: usize, kind: EdgeKind, target: Option<usize>) -> bool {
    match target {
        Some(t) => list.contains((b, t, kind)),
        None => forall|t: usize| !#[trigger] list.contains((b, t, kind)),
    }
}

/// Values that may stand for a register at the start of a block.
pub type Names = Set<(usize, u8, SsaValue)>;

/// Whether a value stands for a register in a block, behind some versions.
pub open spec fn stands_for(names: Names, b: usize, env: Env, r: u8, v: SsaValue) -> bool {
    match env[r as int] {
        Some(w) => v == w,
        None => names.contains((b, r, v)),
    }
}

/// Whether an operand renders another.
pub open spec fn operand_ok(names: Names, b: usize, env: Env, src: Operand, to: SsaOperand) -> bool {
    match (src, to) {
        (Operand::Imm(k), SsaOperand::Imm(l)) => k == l,
        (Operand::Reg(r), SsaOperand::Value(v)) => stands_for(names, b, env, r.0, v),
        _ => false,
    }
}

/// Whether an operand is a value that stands for a register.
pub open spec fn value_ok(names: Names, b: usize, env: Env, r: u8, to: SsaOperand) -> bool {
    to matches SsaOperand::Value(v) && stands_for(names, b, env, r, v)
}

/// Whether an SSA instruction renders an instruction of a block.
pub open spec fn op_ok(list: Seq<Edge>, names: Names, b: usize, env: Env, insn: Insn, op: Op) -> bool {
    match insn {
        Insn::Alu { width, op: alu, dst, src } => match (alu, width, src) {
            (AluOp::Mov, Width::B64, Operand::Reg(from)) => op matches Op::Copy { src: v, .. }
                && stands_for(names, b, env, from.0, v),
            _ => op matches Op::BinOp { width: w, op: o, lhs, rhs, .. } && w == width && o == alu
                && value_ok(names, b, env, dst.0, lhs) && operand_ok(names, b, env, src, rhs),
        },
        Insn::LoadImm64 { imm, .. } => op matches Op::LoadImm64 { imm: k, .. } && k == imm,
        Insn::Load { size, dst, base: from, offset } => op matches Op::Load {
            dst: to,
            size: s,
            base: v,
            offset: o,
        } && s == size && o == offset && (to is None <==> dst.0 == 10) && stands_for(
            names,
            b,
            env,
            from.0,
            v,
        ),
        Insn::Store { size, base: to, offset, src } => op matches Op::Store {
            size: s,
            base: v,
            offset: o,
            src: from,
        } && s == size && o == offset && stands_for(names, b, env, to.0, v) && operand_ok(
            names,
            b,
            env,
            src,
            from,
        ),
        Insn::Jump { width, op: jump, dst, src, .. } => if jump == JumpOp::Always {
            op matches Op::Ja { target } && goes_to(list, b, EdgeKind::Unconditional, Some(target))
        } else {
            op matches Op::Br { width: w, op: j, lhs, rhs, true_target, false_target } && w == width
                && j == jump && value_ok(names, b, env, dst.0, lhs) && operand_ok(
                names,
                b,
                env,
                src,
                rhs,
            ) && goes_to(list, b, EdgeKind::BranchTrue, true_target) && goes_to(
                list,
                b,
                EdgeKind::BranchFalse,
                false_target,
            )
        },
        Insn::Call { func } => op matches Op::Call { func: f, args, .. } && f == func && args.len() == 5
            && (forall|i: int| #![trigger args[i]]
            0 <= i < 5 ==> stands_for(names, b, env, (i + 1) as u8, args[i])),
        Insn::Exit => op matches Op::Exit { r0 } && stands_for(names, b, env, 0, r0),
        Insn::Unknown { .. } => false,
    }
}

/// The SSA instructions of a program by block, with the register of each
/// phi, the register that each value belongs to, and the values that may
/// stand for registers.
#[verifier::ext_equal]
pub struct Form {
    /// Entry versions and phis, by block.
    pub heads: Seq<Seq<Op>>,
    /// Rendered instructions, by block.
    pub bodies: Seq<Seq<Op>>,
    /// The register of each phi, by block.
    pub regs: Seq<Seq<u8>>,
    /// The register that a value is a version of, by value.
    pub owner: Seq<u8>,
    /// The values that may stand for a register at the start of a block.
    pub names: Names,
}

/// Whether the SSA instructions of a body render the instructions from
/// `start` up to `pc`.
pub open spec fn body_ok(
    insns: Seq<Insn>,
    names: Names,
    b: usize,
    body: Seq<Op>,
    start: int,
    pc: int,
) -> bool {
    forall|q: int|
        start <= q < pc && rendered(#[trigger] insns[q]) ==> {
            let (k, env) = walk(insns, body, start, q);
            0 <= k < body.len() && op_ok(edges(insns), names, b, env, insns[q], body[k])
        }
}

impl Form {
    /// The versions that the body of a block defines.
    pub open spec fn versions(self, insns: Seq<Insn>, b: usize, live: bool) -> Env {
        if live {
            walk(
                insns,
                self.bodies[b as int],
                blocks(insns)[b as int].start.0 as int,
                blocks(insns)[b as int].end.0 as int,
            ).1
        } else {
            no_versions()
        }
    }

    /// Whether a value may stand for a register at the end of a block.
    pub open spec fn at_end(self, insns: Seq<Insn>, order: Seq<usize>, b: usize, r: u8, v: SsaValue) -> bool {
        stands_for(self.names, b, self.versions(insns, b, order.contains(b)), r, v)
    }

    /// Whether a value is the entry version of a register, or a later
    /// version of it.
    pub open spec fn belongs(self, r: u8, v: SsaValue) -> bool {
        if v.0 < 3 {
            v == entry_version(r)
        } else {
            v.0 < self.owner.len() && self.owner[v.0 as int] == r
        }
    }

    /// Whether a block has a phi for a register that defines a value.
    pub open spec fn has_phi(self, b: usize, r: u8, v: SsaValue) -> bool {
        exists|k: int|
            0 <= k < self.regs[b as int].len() && #[trigger] self.regs[b as int][k] == r
                && self.heads[b as int][base(b) + k].def() == Some(v)
    }

    /// Why a value may stand for a register at the start of a block: it is
    /// the entry version, the block has a phi for it, it stands for the
    /// register at the end of the only predecessor, or the block is its own
    /// only predecessor and leaves the register alone.
    pub open spec fn may_stand(
        self,
        insns: Seq<Insn>,
        order: Seq<usize>,
        b: usize,
        r: u8,
        v: SsaValue,
    ) -> bool {
        ||| b == 0 && v == entry_version(r) && (!entry_loop(insns) || r == 10)
        ||| self.has_phi(b, r, v)
        ||| {
            &&& b != 0
            &&& preds(insns, b).len() == 1
            &&& order.contains(preds(insns, b)[0])
            &&& self.at_end(insns, order, preds(insns, b)[0], r, v)
        }
        ||| {
            &&& b != 0
            &&& preds(insns, b) == seq![b]
            &&& self.versions(insns, b, order.contains(b))[r as int] is None
            &&& v == entry_version(r)
        }
    }

    /// Whether a phi merges the values that stand for its register at the
    /// ends of the predecessors.
    pub open spec fn merges(self, insns: Seq<Insn>, order: Seq<usize>, b: usize, r: u8, op: Op) -> bool {
        op matches Op::Phi { inputs, .. } && {
            let from = starts(insns, b, r);
            &&& inputs.len() == from.len() + preds(insns, b).len()
            &&& inputs.take(from.len() as int) == from
            &&& forall|j: int|
                from.len() <= j < inputs.len() ==> {
                    let p = preds(insns, b)[j - from.len()];
                    (#[trigger] inputs[j]).0 == p && self.at_end(insns, order, p, r, inputs[j].1)
                }
        }
    }

    /// Whether the head of a block is the entry prelude, where it belongs,
    /// and one phi for each of some registers. A block that cannot be reached
    /// may hold phis without inputs.
    pub open spec fn head_ok(self, insns: Seq<Insn>, order: Seq<usize>, b: usize) -> bool {
        let head = self.heads[b as int];
        let regs = self.regs[b as int];
        &&& head.len() == base(b) + regs.len()
        &&& b == 0 ==> head.take(3) == prelude()
        &&& regs.no_duplicates()
        &&& forall|k: int|
            0 <= k < regs.len() ==> (#[trigger] regs[k]) < 11 && (self.merges(
                insns,
                order,
                b,
                regs[k],
                head[base(b) + k],
            ) || (!order.contains(b) && (head[base(b) + k] matches Op::Phi { inputs, .. }
                && inputs.len() == 0)))
    }

    /// Whether this is an SSA form of a program whose reachable blocks are
    /// the ones of an order.
    pub open spec fn is_form_of(self, insns: Seq<Insn>, order: Seq<usize>) -> bool {
        let n = blocks(insns).len();
        &&& self.heads.len() == n
        &&& self.bodies.len() == n
        &&& self.regs.len() == n
        &&& forall|b: usize| b < n ==> #[trigger] self.head_ok(insns, order, b)
        &&& !entry_loop(insns) ==> self.regs[0].len() == 0
        &&& forall|b: usize|
            b < n && (#[trigger] self.regs[b as int]).len() > 0 ==> may_head(insns, order, b)
        &&& forall|b: usize|
            b < n ==> if #[trigger] order.contains(b) {
                let (start, end) = (
                    blocks(insns)[b as int].start.0 as int,
                    blocks(insns)[b as int].end.0 as int,
                );
                &&& body_ok(insns, self.names, b, self.bodies[b as int], start, end)
                &&& walk(insns, self.bodies[b as int], start, end).0 == self.bodies[b as int].len()
            } else {
                self.bodies[b as int].len() == 0
            }
        &&& forall|b: usize, r: u8, v: SsaValue| #[trigger]
            self.names.contains((b, r, v)) ==> b < n && r < 11 && self.belongs(r, v)
                && self.may_stand(insns, order, b, r, v)
        &&& forall|b: usize, k: int|
            b < n && 0 <= k < self.regs[b as int].len() ==> #[trigger] self.phi_owns(b, k)
        &&& forall|b: usize, q: int|
            order.contains(b) && b < n && blocks(insns)[b as int].start.0 <= q
                < blocks(insns)[b as int].end.0 ==> #[trigger] self.owns(insns, b, q)
    }

    /// Whether phi `k` of a block defines a version of its register.
    pub open spec fn phi_owns(self, b: usize, k: int) -> bool {
        self.heads[b as int][base(b) + k].def() matches Some(v) && v.0 >= 3 && self.belongs(
            self.regs[b as int][k],
            v,
        )
    }

    /// Whether the instruction that renders index `q` of a block defines a
    /// version of the register that index `q` writes.
    pub open spec fn owns(self, insns: Seq<Insn>, b: usize, q: int) -> bool {
        let body = self.bodies[b as int];
        let k = walk(insns, body, blocks(insns)[b as int].start.0 as int, q).0;
        match written(insns[q]) {
            Some(r) => body[k].def() matches Some(v) && v.0 >= 3 && self.belongs(r, v),
            None => true,
        }
    }

    /// The instructions of the first `b` blocks, one after another.
    pub open spec fn flat(self, b: nat) -> Seq<Op>
        decreases b,
    {
        if b == 0 {
            Seq::empty()
        } else {
            self.flat((b - 1) as nat) + self.heads[b - 1] + self.bodies[b - 1]
        }
    }

    /// The blocks of the program.
    pub open spec fn nodes(self, order: Seq<usize>) -> Seq<SsaBlock> {
        Seq::new(
            self.heads.len(),
            |b: int|
                SsaBlock {
                    start: self.flat(b as nat).len() as usize,
                    end: self.flat((b + 1) as nat).len() as usize,
                    live: order.contains(b as usize),
                },
        )
    }
}

impl Prog {
    /// Whether every value is defined exactly once, where its site says, and
    /// every value that is used is defined.
    pub open spec fn single_assignment(self) -> bool {
        &&& forall|v: int|
            0 <= v < self.sites.len() ==> (#[trigger] self.sites[v]) < self.insns.len()
                && self.insns[self.sites[v] as int].def() == Some(SsaValue(v as u32))
        &&& forall|i: int|
            0 <= i < self.insns.len() ==> ((#[trigger] self.insns[i]).def() matches Some(v) ==> v.0
                < self.sites.len() && self.sites[v.0 as int] == i)
        &&& forall|i: int, k: int|
            0 <= i < self.insns.len() && 0 <= k < self.insns[i].uses().len() ==> (
            #[trigger] self.insns[i].uses()[k]).0 < self.sites.len()
        &&& self.sites.len() <= u32::MAX
    }

    /// Whether this is the SSA program of a form.
    pub open spec fn renders(self, insns: Seq<Insn>, order: Seq<usize>, form: Form) -> bool {
        &&& form.is_form_of(insns, order)
        &&& self.insns == form.flat(form.heads.len())
        &&& self.nodes == form.nodes(order)
        &&& self.edges == edges(insns)
        &&& self.entry == 0
        &&& self.sites.len() == form.owner.len()
        &&& self.single_assignment()
    }

    /// Whether this is an SSA program of a program whose reachable blocks are
    /// the ones of an order.
    pub open spec fn is_ssa_of(self, insns: Seq<Insn>, order: Seq<usize>) -> bool {
        exists|form: Form| #[trigger] self.renders(insns, order, form)
    }
}

/// The first unknown instruction from index `pc` up to an end.
pub open spec fn unknown_in(insns: Seq<Insn>, pc: int, end: int) -> Option<int>
    decreases end - pc,
{
    if pc >= end {
        None
    } else if insns[pc] is Unknown {
        Some(pc)
    } else {
        unknown_in(insns, pc + 1, end)
    }
}

/// The first unknown instruction of the blocks of an order from `i` on.
pub open spec fn unknown_from(insns: Seq<Insn>, order: Seq<usize>, i: nat) -> Option<int>
    decreases order.len() - i,
{
    if i >= order.len() {
        None
    } else {
        let block = blocks(insns)[order[i as int] as int];
        match unknown_in(insns, block.start.0 as int, block.end.0 as int) {
            Some(pc) => Some(pc),
            None => unknown_from(insns, order, i + 1),
        }
    }
}

} // verus!
