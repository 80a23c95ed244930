//! Optimization: constant folding and copy propagation, and the driver that
//! runs all passes to a fixed point.
use vstd::prelude::*;

use crate::isa::alu::end_width;
use crate::isa::insn::{AluOp, Width};
use crate::ssa::passes::keeps;
use crate::ssa::sound::lemma_optimized;
use crate::ssa::{
    const_value, input_values, live_at, live_mask, Op, Prog, SsaInsn, SsaOperand, SsaProgram,
    SsaValue,
};

verus! {

impl Prog {
    /// The constant that an instruction computes, if its operands are known.
    /// A move reads its right operand only, a negation its left one; a byte
    /// swap needs a valid width.
    pub open spec fn fold_value(self, op: Op) -> Option<i64> {
        match op {
            Op::BinOp { width, op, lhs, rhs, .. } => match op {
                AluOp::Mov => match self.const_of(rhs) {
                    Some(r) => Some(op.result(0, r, width)),
                    None => None,
                },
                AluOp::Neg => match self.const_of(lhs) {
                    Some(l) => Some(op.result(l, 0, width)),
                    None => None,
                },
                AluOp::End(_) => match (self.const_of(lhs), self.const_of(rhs)) {
                    (Some(l), Some(r)) => if end_width(r) {
                        Some(op.result(l, r, width))
                    } else {
                        None
                    },
                    _ => None,
                },
                _ => match (self.const_of(lhs), self.const_of(rhs)) {
                    (Some(l), Some(r)) => Some(op.result(l, r, width)),
                    _ => None,
                },
            },
            _ => None,
        }
    }

    /// The program with the instruction at `i` folded, if it can be.
    pub open spec fn fold_at(self, i: int) -> Prog {
        match (self.insns[i], self.fold_value(self.insns[i])) {
            (Op::BinOp { dst, .. }, Some(value)) => Prog {
                insns: self.insns.update(i, Op::Const { dst, value }),
                ..self
            },
            _ => self,
        }
    }

    /// The program with the live instructions from `i` on folded in order.
    pub open spec fn folded_from(self, i: nat) -> Prog
        decreases self.insns.len() - i,
        when i <= self.insns.len()
    {
        if i >= self.insns.len() {
            self
        } else if live_at(self.nodes, i as int) {
            self.fold_at(i as int).folded_from(i + 1)
        } else {
            self.folded_from(i + 1)
        }
    }
}

/// The constant that an instruction computes.
fn folded_value(prog: &SsaProgram, insn: &SsaInsn) -> (r: Option<(SsaValue, i64)>)
    ensures
        match r {
            Some((dst, value)) => prog@.fold_value(insn@) == Some(value) && insn@ is BinOp
                && insn@->BinOp_dst == dst,
            None => prog@.fold_value(insn@) is None,
        },
{
    match insn {
        SsaInsn::BinOp { dst, width, op, lhs, rhs } => match *op {
            // A move ignores its left operand, but its width still applies.
            AluOp::Mov => match const_value(prog, *rhs) {
                Some(r) => Some((*dst, op.apply(0, r, *width))),
                None => None,
            },
            AluOp::Neg => match const_value(prog, *lhs) {
                Some(l) => Some((*dst, op.apply(l, 0, *width))),
                None => None,
            },
            AluOp::End(_) => match (const_value(prog, *lhs), const_value(prog, *rhs)) {
                (Some(l), Some(r)) => if r == 16 || r == 32 || r == 64 {
                    Some((*dst, op.apply(l, r, *width)))
                } else {
                    None
                },
                _ => None,
            },
            _ => match (const_value(prog, *lhs), const_value(prog, *rhs)) {
                (Some(l), Some(r)) => Some((*dst, op.apply(l, r, *width))),
                _ => None,
            },
        },
        _ => None,
    }
}

/// Folds constant operations in place. Tells whether the program changed.
pub fn constant_fold(prog: &mut SsaProgram) -> (changed: bool)
    requires
        old(prog)@.wf(),
    ensures
        final(prog)@ == old(prog)@.folded_from(0),
        changed == (final(prog)@ != old(prog)@),
        final(prog)@.wf(),
{
    let mask = live_mask(&prog.graph, prog.insns.len());
    let ghost start = prog@;
    let mut changed = false;
    let mut i: usize = 0;
    while i < prog.insns.len()
        invariant
            i <= prog@.insns.len(),
            prog@.wf(),
            prog@.nodes == start.nodes,
            prog@.insns.len() == start.insns.len(),
            mask@.len() == prog@.insns.len(),
            forall|k: int| 0 <= k < mask@.len() ==> #[trigger] mask@[k] == live_at(start.nodes, k),
            start.folded_from(0) == prog@.folded_from(i as nat),
            !changed ==> prog@ == start,
            changed ==> exists|j: int| 0 <= j < i && #[trigger] prog@.insns[j] != start.insns[j],
            forall|j: int| i <= j < prog@.insns.len() ==> #[trigger] prog@.insns[j] == start.insns[j],
        decreases prog@.insns.len() - i,
    {
        let ghost before = prog@;
        assert(before.insns[i as int] == prog.insns@[i as int]@);
        if mask[i] {
            if let Some((dst, value)) = folded_value(prog, &prog.insns[i]) {
                prog.insns.set(i, SsaInsn::Const { dst, value });
                changed = true;
                proof {
                    assert(prog@ =~= before.fold_at(i as int));
                    assert(prog@.insns[i as int] != start.insns[i as int]);
                    assert forall|k: int| 0 <= k < prog@.insns.len() implies (
                    #[trigger] prog@.insns[k]).blocks_below(prog@.nodes.len()) by {
                        assert(before.insns[k].blocks_below(prog@.nodes.len()));
                    }
                }
            }
        }
        proof {
            if changed && exists|j: int| 0 <= j < i && #[trigger] before.insns[j] != start.insns[j] {
                let j = choose|j: int| 0 <= j < i && #[trigger] before.insns[j] != start.insns[j];
                assert(prog@.insns[j] != start.insns[j]);
            }
        }
        i = i + 1;
    }
    changed
}

/// The one value, other than the phi itself, that all inputs of a phi are.
pub open spec fn only_input(dst: SsaValue, inputs: Seq<(usize, SsaValue)>) -> Option<SsaValue> {
    if exists|u: SsaValue| #[trigger] sole_input(dst, inputs, u) {
        Some(choose|u: SsaValue| #[trigger] sole_input(dst, inputs, u))
    } else {
        None
    }
}

/// Whether a value is an input of a phi, and every input is it or the phi.
pub open spec fn sole_input(dst: SsaValue, inputs: Seq<(usize, SsaValue)>, u: SsaValue) -> bool {
    &&& u != dst
    &&& exists|i: int| 0 <= i < inputs.len() && (#[trigger] inputs[i]).1 == u
    &&& forall|i: int|
        0 <= i < inputs.len() ==> (#[trigger] inputs[i]).1 == u || inputs[i].1 == dst
}

/// What an instruction lets its result be replaced by.
pub open spec fn rewrite_of(op: Op) -> Option<(SsaValue, SsaValue)> {
    match op {
        Op::Copy { dst, src } => Some((dst, src)),
        Op::BinOp { dst, op: AluOp::Mov, width: Width::B64, rhs: SsaOperand::Value(u), .. } => Some(
            (dst, u),
        ),
        Op::Phi { dst, inputs } => match only_input(dst, inputs) {
            Some(u) => Some((dst, u)),
            None => None,
        },
        _ => None,
    }
}

/// A value under a renaming.
pub open spec fn renamed_value(v: SsaValue, from: SsaValue, to: SsaValue) -> SsaValue {
    if v == from {
        to
    } else {
        v
    }
}

/// An operand under a renaming.
pub open spec fn renamed_operand(o: SsaOperand, from: SsaValue, to: SsaValue) -> SsaOperand {
    match o {
        SsaOperand::Value(v) => SsaOperand::Value(renamed_value(v, from, to)),
        SsaOperand::Imm(k) => SsaOperand::Imm(k),
    }
}

/// An instruction with every use of one value renamed.
pub open spec fn renamed(op: Op, from: SsaValue, to: SsaValue) -> Op {
    match op {
        Op::Copy { dst, src } => Op::Copy { dst, src: renamed_value(src, from, to) },
        Op::BinOp { dst, width, op, lhs, rhs } => Op::BinOp {
            dst,
            width,
            op,
            lhs: renamed_operand(lhs, from, to),
            rhs: renamed_operand(rhs, from, to),
        },
        Op::Load { dst, size, base, offset } => Op::Load {
            dst,
            size,
            base: renamed_value(base, from, to),
            offset,
        },
        Op::Store { size, base, offset, src } => Op::Store {
            size,
            base: renamed_value(base, from, to),
            offset,
            src: renamed_operand(src, from, to),
        },
        Op::Call { dst, func, args } => Op::Call {
            dst,
            func,
            args: args.map_values(|v: SsaValue| renamed_value(v, from, to)),
        },
        Op::Phi { dst, inputs } => Op::Phi {
            dst,
            inputs: inputs.map_values(
                |i: (usize, SsaValue)| (i.0, renamed_value(i.1, from, to)),
            ),
        },
        Op::Br { width, op, lhs, rhs, true_target, false_target } => Op::Br {
            width,
            op,
            lhs: renamed_operand(lhs, from, to),
            rhs: renamed_operand(rhs, from, to),
            true_target,
            false_target,
        },
        Op::Exit { r0 } => Op::Exit { r0: renamed_value(r0, from, to) },
        _ => op,
    }
}

/// An instruction with the renamings from `k` on applied in order.
pub open spec fn renamed_by(op: Op, rewrites: Seq<(SsaValue, SsaValue)>, k: nat) -> Op
    decreases rewrites.len() - k,
{
    if k >= rewrites.len() {
        op
    } else {
        renamed_by(renamed(op, rewrites[k as int].0, rewrites[k as int].1), rewrites, k + 1)
    }
}

/// Whether one of the renamings from `k` on meets a use.
pub open spec fn renames(op: Op, rewrites: Seq<(SsaValue, SsaValue)>, k: nat) -> bool
    decreases rewrites.len() - k,
{
    if k >= rewrites.len() {
        false
    } else {
        op.uses().contains(rewrites[k as int].0) || renames(
            renamed(op, rewrites[k as int].0, rewrites[k as int].1),
            rewrites,
            k + 1,
        )
    }
}

impl Prog {
    /// The renamings that the live instructions from `i` on allow.
    pub open spec fn rewrites_from(self, i: nat) -> Seq<(SsaValue, SsaValue)>
        decreases self.insns.len() - i,
    {
        if i >= self.insns.len() {
            Seq::empty()
        } else {
            let rest = self.rewrites_from(i + 1);
            match rewrite_of(self.insns[i as int]) {
                Some(r) => if live_at(self.nodes, i as int) {
                    seq![r] + rest
                } else {
                    rest
                },
                None => rest,
            }
        }
    }

    /// The program with the results of copies, and of phis that merge one
    /// value, replaced by what they copy.
    pub open spec fn copies_propagated(self) -> Prog {
        let rewrites = self.rewrites_from(0);
        Prog {
            insns: Seq::new(
                self.insns.len(),
                |i: int|
                    if live_at(self.nodes, i) {
                        renamed_by(self.insns[i], rewrites, 0)
                    } else {
                        self.insns[i]
                    },
            ),
            ..self
        }
    }

    /// Whether copy propagation meets a use.
    pub open spec fn has_copied_use(self) -> bool {
        exists|i: int|
            0 <= i < self.insns.len() && live_at(self.nodes, i) && #[trigger] renames(
                self.insns[i],
                self.rewrites_from(0),
                0,
            )
    }
}

/// Finds the one value that all inputs of a phi are.
fn find_only_input(dst: SsaValue, inputs: &Vec<(usize, SsaValue)>) -> (r: Option<SsaValue>)
    ensures
        r == only_input(dst, inputs@),
{
    let mut found: Option<SsaValue> = None;
    let mut i: usize = 0;
    while i < inputs.len()
        invariant
            i <= inputs@.len(),
            match found {
                None => forall|k: int| 0 <= k < i ==> (#[trigger] inputs@[k]).1 == dst,
                Some(u) => {
                    &&& u != dst
                    &&& exists|k: int| 0 <= k < i && (#[trigger] inputs@[k]).1 == u
                    &&& forall|k: int|
                        0 <= k < i ==> (#[trigger] inputs@[k]).1 == u || inputs@[k].1 == dst
                },
            },
        decreases inputs@.len() - i,
    {
        let v = inputs[i].1;
        if v != dst {
            match found {
                None => {
                    found = Some(v);
                    assert(inputs@[i as int].1 == v);
                },
                Some(u) => {
                    if u != v {
                        proof {
                            let a = choose|k: int| 0 <= k < i && (#[trigger] inputs@[k]).1 == u;
                            assert forall|w: SsaValue| !(#[trigger] sole_input(dst, inputs@, w)) by {
                                assert(inputs@[a].1 == u);
                                assert(inputs@[i as int].1 == v);
                            }
                        }
                        return None;
                    }
                },
            }
        }
        i = i + 1;
    }
    proof {
        match found {
            None => {
                assert forall|w: SsaValue| !(#[trigger] sole_input(dst, inputs@, w)) by {}
            },
            Some(u) => {
                assert(sole_input(dst, inputs@, u));
                let w = only_input(dst, inputs@)->0;
                let a = choose|k: int| 0 <= k < i && (#[trigger] inputs@[k]).1 == u;
                assert(inputs@[a].1 == w || inputs@[a].1 == dst);
            },
        }
    }
    found
}

/// What an instruction lets its result be replaced by.
fn find_rewrite(insn: &SsaInsn) -> (r: Option<(SsaValue, SsaValue)>)
    ensures
        r == rewrite_of(insn@),
{
    match insn {
        SsaInsn::Copy { dst, src } => Some((*dst, *src)),
        // A 32-bit move truncates, so it is no copy.
        SsaInsn::BinOp {
            dst,
            op: AluOp::Mov,
            width: Width::B64,
            rhs: SsaOperand::Value(u),
            ..
        } => Some((*dst, *u)),
        SsaInsn::Phi { dst, inputs } => match find_only_input(*dst, inputs) {
            Some(u) => Some((*dst, u)),
            None => None,
        },
        _ => None,
    }
}

/// Renames a value.
fn rename_value(v: SsaValue, from: SsaValue, to: SsaValue) -> (r: SsaValue)
    ensures
        r == renamed_value(v, from, to),
{
    if v == from {
        to
    } else {
        v
    }
}

/// Renames an operand.
fn rename_operand(o: SsaOperand, from: SsaValue, to: SsaValue) -> (r: SsaOperand)
    ensures
        r == renamed_operand(o, from, to),
{
    match o {
        SsaOperand::Value(v) => SsaOperand::Value(rename_value(v, from, to)),
        SsaOperand::Imm(k) => SsaOperand::Imm(k),
    }
}

/// Whether an operand is a value.
fn is_value(o: SsaOperand, v: SsaValue) -> (r: bool)
    ensures
        r == o.values().contains(v),
{
    match o {
        SsaOperand::Value(u) => {
            assert(o.values()[0] == u);
            u == v
        },
        SsaOperand::Imm(_) => false,
    }
}

/// An instruction that does not use a value stays as it is.
pub proof fn lemma_renamed_same(op: Op, from: SsaValue, to: SsaValue)
    requires
        !op.uses().contains(from),
    ensures
        renamed(op, from, to) == op,
{
    match op {
        Op::Copy { src, .. } => {
            assert(op.uses()[0] == src);
        },
        Op::BinOp { lhs, rhs, .. } => {
            lemma_either(lhs.values(), rhs.values(), from);
            lemma_operand_same(lhs, from, to);
            lemma_operand_same(rhs, from, to);
        },
        Op::Br { lhs, rhs, .. } => {
            lemma_either(lhs.values(), rhs.values(), from);
            lemma_operand_same(lhs, from, to);
            lemma_operand_same(rhs, from, to);
        },
        Op::Load { base, .. } => {
            assert(op.uses()[0] == base);
        },
        Op::Store { base, src, .. } => {
            lemma_either(seq![base], src.values(), from);
            assert(seq![base][0] == base);
            lemma_operand_same(src, from, to);
        },
        Op::Call { args, .. } => {
            assert(args.map_values(|v: SsaValue| renamed_value(v, from, to)) =~= args);
        },
        Op::Phi { inputs, .. } => {
            assert forall|i: int| 0 <= i < inputs.len() implies (#[trigger] inputs[i]).1 != from by {
                assert(input_values(inputs)[i] == inputs[i].1);
            }
            assert(inputs.map_values(
                |i: (usize, SsaValue)| (i.0, renamed_value(i.1, from, to)),
            ) =~= inputs);
        },
        Op::Exit { r0 } => {
            assert(op.uses()[0] == r0);
        },
        _ => {},
    }
}

proof fn lemma_operand_same(o: SsaOperand, from: SsaValue, to: SsaValue)
    requires
        !o.values().contains(from),
    ensures
        renamed_operand(o, from, to) == o,
{
    if let SsaOperand::Value(v) = o {
        assert(o.values()[0] == v);
    }
}

/// Concatenation holds what its parts hold.
proof fn lemma_either(a: Seq<SsaValue>, b: Seq<SsaValue>, v: SsaValue)
    ensures
        (a + b).contains(v) == (a.contains(v) || b.contains(v)),
{
    if a.contains(v) {
        let i = a.index_of(v);
        assert((a + b)[i] == v);
    }
    if b.contains(v) {
        let i = b.index_of(v);
        assert((a + b)[a.len() + i] == v);
    }
}

/// Renames call arguments. Tells whether one was renamed.
fn rewrite_args(args: &mut [SsaValue; 5], from: SsaValue, to: SsaValue) -> (changed: bool)
    ensures
        final(args)@ == old(args)@.map_values(|v: SsaValue| renamed_value(v, from, to)),
        changed == old(args)@.contains(from),
{
    let ghost old_args = args@;
    let mut changed = false;
    let mut i: usize = 0;
    while i < 5
        invariant
            i <= 5,
            args@.len() == 5,
            old_args.len() == 5,
            forall|k: int| 0 <= k < i ==> #[trigger] args@[k] == renamed_value(old_args[k], from, to),
            forall|k: int| i <= k < 5 ==> #[trigger] args@[k] == old_args[k],
            changed == exists|k: int| 0 <= k < i && #[trigger] old_args[k] == from,
        decreases 5 - i,
    {
        if args[i] == from {
            args[i] = to;
            changed = true;
            assert(old_args[i as int] == from);
        }
        i = i + 1;
    }
    assert(args@ =~= old_args.map_values(|v: SsaValue| renamed_value(v, from, to)));
    changed
}

/// Renames phi inputs. Tells whether one was renamed.
fn rename_inputs(inputs: &Vec<(usize, SsaValue)>, from: SsaValue, to: SsaValue) -> (r: (
    Vec<(usize, SsaValue)>,
    bool,
))
    ensures
        r.0@ == inputs@.map_values(|i: (usize, SsaValue)| (i.0, renamed_value(i.1, from, to))),
        r.1 == input_values(inputs@).contains(from),
{
    let mut out: Vec<(usize, SsaValue)> = Vec::with_capacity(inputs.len());
    let mut changed = false;
    let mut i: usize = 0;
    while i < inputs.len()
        invariant
            i <= inputs@.len(),
            out@.len() == i,
            forall|k: int|
                0 <= k < i ==> #[trigger] out@[k] == (
                    inputs@[k].0,
                    renamed_value(inputs@[k].1, from, to),
                ),
            changed == exists|k: int| 0 <= k < i && (#[trigger] inputs@[k]).1 == from,
        decreases inputs@.len() - i,
    {
        let (pred, v) = inputs[i];
        if v == from {
            changed = true;
            assert(inputs@[i as int].1 == from);
        }
        out.push((pred, rename_value(v, from, to)));
        i = i + 1;
    }
    proof {
        assert(out@ =~= inputs@.map_values(
            |i: (usize, SsaValue)| (i.0, renamed_value(i.1, from, to)),
        ));
        let values = input_values(inputs@);
        if changed {
            let k = choose|k: int| 0 <= k < inputs@.len() && (#[trigger] inputs@[k]).1 == from;
            assert(values[k] == from);
        }
        if values.contains(from) {
            let k = values.index_of(from);
            assert(inputs@[k].1 == from);
        }
    }
    (out, changed)
}

/// Renames every use of a value in one instruction. Tells whether there was
/// one.
pub fn rewrite_uses(insn: &mut SsaInsn, from: SsaValue, to: SsaValue) -> (changed: bool)
    ensures
        final(insn)@ == renamed(old(insn)@, from, to),
        changed == old(insn)@.uses().contains(from),
{
    proof {
        let before = insn@;
        match before {
            Op::Copy { src, .. } => {
                assert(before.uses()[0] == src);
            },
            Op::BinOp { lhs, rhs, .. } => {
                lemma_either(lhs.values(), rhs.values(), from);
            },
            Op::Load { base, .. } => {
                assert(before.uses()[0] == base);
            },
            Op::Store { base, src, .. } => {
                lemma_either(seq![base], src.values(), from);
                assert(seq![base][0] == base);
            },
            Op::Br { lhs, rhs, .. } => {
                lemma_either(lhs.values(), rhs.values(), from);
            },
            Op::Exit { r0 } => {
                assert(before.uses()[0] == r0);
            },
            _ => {},
        }
    }
    let (next, changed) = match &*insn {
        SsaInsn::Copy { dst, src } => (
            SsaInsn::Copy { dst: *dst, src: rename_value(*src, from, to) },
            *src == from,
        ),
        SsaInsn::BinOp { dst, width, op, lhs, rhs } => (
            SsaInsn::BinOp {
                dst: *dst,
                width: *width,
                op: *op,
                lhs: rename_operand(*lhs, from, to),
                rhs: rename_operand(*rhs, from, to),
            },
            is_value(*lhs, from) || is_value(*rhs, from),
        ),
        SsaInsn::Load { dst, size, base, offset } => (
            SsaInsn::Load {
                dst: *dst,
                size: *size,
                base: rename_value(*base, from, to),
                offset: *offset,
            },
            *base == from,
        ),
        SsaInsn::Store { size, base, offset, src } => (
            SsaInsn::Store {
                size: *size,
                base: rename_value(*base, from, to),
                offset: *offset,
                src: rename_operand(*src, from, to),
            },
            *base == from || is_value(*src, from),
        ),
        SsaInsn::Call { dst, func, args } => {
            let mut args = *args;
            let changed = rewrite_args(&mut args, from, to);
            (SsaInsn::Call { dst: *dst, func: *func, args }, changed)
        },
        SsaInsn::Phi { dst, inputs } => {
            let (inputs, changed) = rename_inputs(inputs, from, to);
            (SsaInsn::Phi { dst: *dst, inputs }, changed)
        },
        SsaInsn::Br { width, op, lhs, rhs, true_target, false_target } => (
            SsaInsn::Br {
                width: *width,
                op: *op,
                lhs: rename_operand(*lhs, from, to),
                rhs: rename_operand(*rhs, from, to),
                true_target: *true_target,
                false_target: *false_target,
            },
            is_value(*lhs, from) || is_value(*rhs, from),
        ),
        SsaInsn::Exit { r0 } => (
            SsaInsn::Exit { r0: rename_value(*r0, from, to) },
            *r0 == from,
        ),
        SsaInsn::Const { .. } | SsaInsn::FramePtr { .. } | SsaInsn::EntryCtx { .. }
        | SsaInsn::LoadImm64 { .. } | SsaInsn::Ja { .. } => {
            return false;
        },
    };
    if changed {
        *insn = next;
    } else {
        proof {
            lemma_renamed_same(insn@, from, to);
        }
    }
    changed
}

/// Applies all renamings to an instruction. Tells whether one met a use.
fn rewrite_all(insn: &mut SsaInsn, rewrites: &Vec<(SsaValue, SsaValue)>) -> (changed: bool)
    ensures
        final(insn)@ == renamed_by(old(insn)@, rewrites@, 0),
        changed == renames(old(insn)@, rewrites@, 0),
{
    let ghost start = insn@;
    let mut changed = false;
    let mut k: usize = 0;
    while k < rewrites.len()
        invariant
            k <= rewrites@.len(),
            renamed_by(start, rewrites@, 0) == renamed_by(insn@, rewrites@, k as nat),
            renames(start, rewrites@, 0) == (changed || renames(insn@, rewrites@, k as nat)),
        decreases rewrites@.len() - k,
    {
        let (from, to) = rewrites[k];
        let hit = rewrite_uses(insn, from, to);
        changed = changed || hit;
        k = k + 1;
    }
    changed
}

/// A renaming names the blocks that were named.
proof fn lemma_renamed_blocks(op: Op, rewrites: Seq<(SsaValue, SsaValue)>, k: nat, n: nat)
    requires
        op.blocks_below(n),
    ensures
        renamed_by(op, rewrites, k).blocks_below(n),
    decreases rewrites.len() - k,
{
    if k < rewrites.len() {
        let (from, to) = rewrites[k as int];
        let next = renamed(op, from, to);
        if let Op::Phi { dst, inputs } = op {
            let changed = inputs.map_values(
                |i: (usize, SsaValue)| (i.0, renamed_value(i.1, from, to)),
            );
            assert forall|i: int| 0 <= i < changed.len() implies (#[trigger] changed[i]).0
                == crate::ssa::START_PRED || changed[i].0 < n by {
                assert(inputs[i].0 == changed[i].0);
            }
        }
        lemma_renamed_blocks(next, rewrites, k + 1, n);
    }
}

/// Collects what the live instructions let be renamed.
fn collect_rewrites(prog: &SsaProgram) -> (r: Vec<(SsaValue, SsaValue)>)
    requires
        prog@.wf(),
    ensures
        r@ == prog@.rewrites_from(0),
{
    let mask = live_mask(&prog.graph, prog.insns.len());
    let mut out: Vec<(SsaValue, SsaValue)> = Vec::new();
    let mut i: usize = 0;
    assert(out@ + prog@.rewrites_from(0) =~= prog@.rewrites_from(0));
    while i < prog.insns.len()
        invariant
            i <= prog@.insns.len(),
            mask@.len() == prog@.insns.len(),
            forall|k: int| 0 <= k < mask@.len() ==> #[trigger] mask@[k] == live_at(prog@.nodes, k),
            prog@.rewrites_from(0) == out@ + prog@.rewrites_from(i as nat),
        decreases prog@.insns.len() - i,
    {
        assert(prog@.insns[i as int] == prog.insns@[i as int]@);
        if mask[i] {
            if let Some(r) = find_rewrite(&prog.insns[i]) {
                let ghost before = out@;
                out.push(r);
                proof {
                    let rest = prog@.rewrites_from((i + 1) as nat);
                    assert(before + (seq![r] + rest) =~= out@ + rest);
                }
            }
        }
        i = i + 1;
    }
    assert(out@ + Seq::<(SsaValue, SsaValue)>::empty() =~= out@);
    out
}

/// Without a renaming nothing changes.
proof fn lemma_no_rewrites(prog: Prog)
    requires
        prog.rewrites_from(0).len() == 0,
    ensures
        prog.copies_propagated() == prog,
        !prog.has_copied_use(),
{
    assert(prog.copies_propagated() =~= prog);
}

/// Replaces the results of copies, and of phis that merge one value, by what
/// they copy. Tells whether a use was replaced.
pub fn copy_propagate(prog: &mut SsaProgram) -> (changed: bool)
    requires
        old(prog)@.wf(),
    ensures
        final(prog)@ == old(prog)@.copies_propagated(),
        changed == old(prog)@.has_copied_use(),
        final(prog)@.wf(),
{
    let ghost start = prog@;
    let rewrites = collect_rewrites(prog);
    if rewrites.len() == 0 {
        proof {
            lemma_no_rewrites(start);
        }
        return false;
    }
    let mask = live_mask(&prog.graph, prog.insns.len());
    let mut changed = false;
    let mut i: usize = 0;
    while i < prog.insns.len()
        invariant
            i <= prog@.insns.len(),
            prog@.insns.len() == start.insns.len(),
            prog@ == (Prog { insns: prog@.insns, ..start }),
            rewrites@ == start.rewrites_from(0),
            mask@.len() == start.insns.len(),
            forall|k: int| 0 <= k < mask@.len() ==> #[trigger] mask@[k] == live_at(start.nodes, k),
            forall|k: int|
                0 <= k < i ==> #[trigger] prog@.insns[k] == start.copies_propagated().insns[k],
            forall|k: int| i <= k < start.insns.len() ==> #[trigger] prog@.insns[k] == start.insns[k],
            changed == exists|k: int|
                0 <= k < i && live_at(start.nodes, k) && #[trigger] renames(
                    start.insns[k],
                    rewrites@,
                    0,
                ),
        decreases prog@.insns.len() - i,
    {
        let ghost before = prog@.insns;
        assert(before[i as int] == prog.insns@[i as int]@);
        if mask[i] {
            let mut insn = prog.insns[i].duplicate();
            let hit = rewrite_all(&mut insn, &rewrites);
            let ghost next = insn@;
            prog.insns.set(i, insn);
            assert(prog@.insns =~= before.update(i as int, next));
            if hit {
                changed = true;
                assert(renames(start.insns[i as int], rewrites@, 0));
            }
        }
        assert(prog@ =~= (Prog { insns: prog@.insns, ..start }));
        i = i + 1;
    }
    proof {
        assert(prog@ =~= start.copies_propagated());
        assert forall|k: int| 0 <= k < prog@.insns.len() implies (#[trigger] prog@.insns[k]).blocks_below(
            prog@.nodes.len(),
        ) by {
            assert(start.insns[k].blocks_below(start.nodes.len()));
            lemma_renamed_blocks(start.insns[k], rewrites@, 0, start.nodes.len());
        }
    }
    changed
}

impl Prog {
    /// The program after one round of all passes.
    pub open spec fn round(self) -> Prog {
        self.folded_from(0).copies_propagated().swept().blocks_pruned()
    }

    /// Whether a pass of a round changes the program.
    pub open spec fn round_changes(self) -> bool {
        let folded = self.folded_from(0);
        let copied = folded.copies_propagated();
        let swept = copied.swept();
        ||| folded != self
        ||| folded.has_copied_use()
        ||| !(forall|i: int| 0 <= i < copied.insns.len() ==> #[trigger] copied.kept(i))
        ||| swept.blocks_pruned().nodes != swept.nodes
        ||| swept.blocks_pruned().insns != swept.insns
    }

    /// The program after `n` rounds.
    pub open spec fn rounds(self, n: nat) -> Prog
        decreases n,
    {
        if n == 0 {
            self
        } else {
            self.rounds((n - 1) as nat).round()
        }
    }
}

impl Prog {
    /// Whether a program is what rounds of all passes make of this one: the
    /// first round that changes nothing ends the run, or the last one that
    /// can be counted.
    pub open spec fn optimizes_to(self, after: Prog) -> bool {
        exists|n: nat|
            {
                &&& 0 < n <= u64::MAX
                &&& after == #[trigger] self.rounds(n)
                &&& forall|i: nat| i < n - 1 ==> (#[trigger] self.rounds(i)).round_changes()
                &&& self.rounds((n - 1) as nat).round_changes() ==> n == u64::MAX
            }
    }
}

/// Runs all passes until a round changes nothing. Rounds are counted in 64
/// bits, and the last one that can be counted ends the run too. Where every
/// value is defined on every way to its uses, that many rounds are never
/// needed by a program that fits in memory.
pub fn optimize(prog: &mut SsaProgram)
    requires
        old(prog)@.wf(),
    ensures
        final(prog)@.wf(),
        old(prog)@.optimizes_to(final(prog)@),
        keeps(old(prog)@, final(prog)@),
        final(prog)@.keeps_effects_of(old(prog)@),
        lefts_are_values(old(prog)@) ==> lefts_are_values(final(prog)@),
        old(prog)@.scoped() ==> final(prog)@.reads_defined(),
        old(prog)@.scoped() && old(prog)@.weight() + 1 < u64::MAX ==> !final(prog)@.round_changes(),
{
    let ghost start = prog@;
    let mut count: u64 = 0;
    let mut changed = true;
    while changed && count < u64::MAX
        invariant
            prog@.wf(),
            prog@ == start.rounds(count as nat),
            count == 0 ==> changed,
            forall|i: nat| i + 1 < count ==> (#[trigger] start.rounds(i)).round_changes(),
            count > 0 ==> changed == start.rounds((count - 1) as nat).round_changes(),
        decreases u64::MAX - count,
    {
        let ghost before = prog@;
        let folded = constant_fold(prog);
        let copied = copy_propagate(prog);
        let swept = crate::ssa::dead::dead_code_eliminate(prog);
        let pruned = crate::ssa::dead::unreachable_block_eliminate(prog);
        changed = folded || copied || swept || pruned;
        assert(changed == before.round_changes());
        assert(start.rounds((count + 1) as nat) == before.round());
        count = count + 1;
    }
    proof {
        assert(prog@ == start.rounds(count as nat));
        assert(start.optimizes_to(prog@));
        lemma_optimized(start, prog@);
    }
}

/// A round that changes nothing leaves the program as it is, so what the
/// passes end in is a fixed point.
pub proof fn quiet_round_is_identity(prog: Prog)
    requires
        !prog.round_changes(),
    ensures
        prog.round() == prog,
{
    let folded = prog.folded_from(0);
    let rewrites = folded.rewrites_from(0);
    assert(folded == prog);
    assert forall|i: int| 0 <= i < prog.insns.len() && live_at(prog.nodes, i) implies renamed_by(
        #[trigger] prog.insns[i],
        rewrites,
        0,
    ) == prog.insns[i] by {
        assert(!renames(prog.insns[i], rewrites, 0));
        lemma_not_renamed(prog.insns[i], rewrites, 0);
    }
    assert(folded.copies_propagated() =~= prog);
    assert(prog.swept() == prog);
    let pruned = prog.blocks_pruned();
    assert(pruned.nodes == prog.nodes);
    assert(pruned.insns == prog.insns);
    assert(prog.reached_nodes() =~= pruned.nodes);
}

/// Renamings that meet no use leave an instruction as it is.
pub proof fn lemma_not_renamed(op: Op, rewrites: Seq<(SsaValue, SsaValue)>, k: nat)
    requires
        !renames(op, rewrites, k),
    ensures
        renamed_by(op, rewrites, k) == op,
    decreases rewrites.len() - k,
{
    if k < rewrites.len() {
        lemma_renamed_same(op, rewrites[k as int].0, rewrites[k as int].1);
        lemma_not_renamed(op, rewrites, k + 1);
    }
}

/// Folding agrees with execution: an instruction folds to what the machine
/// computes from the constants of its operands.
pub proof fn folding_agrees_with_execution(prog: Prog, op: Op, l: i64, r: i64)
    requires
        op is BinOp,
        prog.const_of(op->BinOp_lhs) == Some(l),
        prog.const_of(op->BinOp_rhs) == Some(r),
        op->BinOp_op.defined(r),
    ensures
        prog.fold_value(op) == Some(op->BinOp_op.result(l, r, op->BinOp_width)),
{
}

/// Whether the left operand of an operation or a branch is a value.
pub open spec fn left_is_value(op: Op) -> bool {
    match op {
        Op::BinOp { lhs, .. } => lhs is Value,
        Op::Br { lhs, .. } => lhs is Value,
        _ => true,
    }
}

/// Whether all left operands of a program are values.
pub open spec fn lefts_are_values(prog: Prog) -> bool {
    forall|i: int| 0 <= i < prog.insns.len() ==> left_is_value(#[trigger] prog.insns[i])
}

proof fn lemma_left_folded(prog: Prog, i: nat)
    requires
        lefts_are_values(prog),
        i <= prog.insns.len(),
    ensures
        lefts_are_values(prog.folded_from(i)),
    decreases prog.insns.len() - i,
{
    if i < prog.insns.len() {
        if live_at(prog.nodes, i as int) {
            let next = prog.fold_at(i as int);
            assert forall|k: int| 0 <= k < next.insns.len() implies left_is_value(
                #[trigger] next.insns[k],
            ) by {
                assert(left_is_value(prog.insns[k]));
            }
            lemma_left_folded(next, i + 1);
        } else {
            lemma_left_folded(prog, i + 1);
        }
    }
}

proof fn lemma_left_renamed(op: Op, rewrites: Seq<(SsaValue, SsaValue)>, k: nat)
    requires
        left_is_value(op),
    ensures
        left_is_value(renamed_by(op, rewrites, k)),
    decreases rewrites.len() - k,
{
    if k < rewrites.len() {
        lemma_left_renamed(renamed(op, rewrites[k as int].0, rewrites[k as int].1), rewrites, k + 1);
    }
}

proof fn lemma_left_kept(prog: Prog, i: nat)
    requires
        lefts_are_values(prog),
        i <= prog.insns.len(),
    ensures
        forall|k: int|
            0 <= k < prog.kept_ops(i).len() ==> left_is_value(#[trigger] prog.kept_ops(i)[k]),
    decreases i,
{
    if i > 0 {
        lemma_left_kept(prog, (i - 1) as nat);
        let rest = prog.kept_ops((i - 1) as nat);
        assert forall|k: int| 0 <= k < prog.kept_ops(i).len() implies left_is_value(
            #[trigger] prog.kept_ops(i)[k],
        ) by {
            if k < rest.len() {
                assert(left_is_value(rest[k]));
            } else {
                assert(left_is_value(prog.insns[i - 1]));
            }
        }
    }
}

/// The passes never make the left operand of an operation or a branch an
/// immediate.
pub proof fn left_operands_stay_values(prog: Prog)
    requires
        lefts_are_values(prog),
    ensures
        lefts_are_values(prog.round()),
{
    let folded = prog.folded_from(0);
    lemma_left_folded(prog, 0);
    let copied = folded.copies_propagated();
    assert(lefts_are_values(copied)) by {
        assert forall|i: int| 0 <= i < copied.insns.len() implies left_is_value(
            #[trigger] copied.insns[i],
        ) by {
            assert(left_is_value(folded.insns[i]));
            lemma_left_renamed(folded.insns[i], folded.rewrites_from(0), 0);
        }
    }
    let swept = copied.swept();
    assert(lefts_are_values(swept)) by {
        lemma_left_kept(copied, copied.insns.len());
    }
    let pruned = swept.blocks_pruned();
    assert forall|i: int| 0 <= i < pruned.insns.len() implies left_is_value(
        #[trigger] pruned.insns[i],
    ) by {
        assert(left_is_value(swept.insns[i]));
    }
}

} // verus!
