//! Register SSA: construction, optimization and lowering.
//!
//! [`construct::build_ssa`] turns a decoded program and its control-flow
//! graph into an [`SsaProgram`]; [`opt::optimize`] folds constants,
//! propagates copies and removes dead code and dead blocks;
//! [`lower::lower`] assigns registers and emits instructions again.
//!
//! Only registers are versioned. Loads, stores and calls are never removed.
//!
//! [`run`] says what an SSA program does. [`sound`] states that building,
//! optimizing and lowering keep what a program does.
use vstd::prelude::*;
use vstd::string::StringExecFns;

use petgraph::graph::DiGraph;

use crate::cfg::EdgeKind;
use crate::graph::{ssa_block, ssa_edges, ssa_node_count, ssa_nodes, Edge};
use crate::isa::encode::EncodeError;
use crate::isa::insn::{AluOp, JumpOp, MemSize, Width};
use crate::text::{int_text, nat_text, push_int, push_nat};

pub mod across;
pub mod built;
pub mod calls;
pub mod carried;
pub mod code;
pub mod construct;
pub mod copied;
pub mod crossed;
pub mod dead;
pub mod draft;
pub mod effects;
pub mod emit;
pub mod flow;
pub mod form;
pub mod homes;
pub mod layout;
pub mod lower;
pub mod lowerable;
pub mod moves;
pub mod opt;
pub mod passes;
pub mod placed;
pub mod progress;
pub mod proper;
pub mod pruned;
pub mod ranges;
pub mod render;
pub mod run;
pub mod scope;
pub mod settled;
pub mod sound;
pub mod spans;
pub mod straight;
pub mod swept;
pub mod tables;
pub mod thrift;
pub mod tidy;
pub mod weighed;

verus! {

/// The predecessor under which a value flows in from the program start. It
/// is no block: block numbers fit 32 bits and are below it.
pub const START_PRED: usize = 0xffff_ffff;

/// A single-assignment value.
#[derive(Debug, Clone, Copy, PartialEq, Eq, Hash, Structural)]
pub struct SsaValue(pub u32);

impl SsaValue {
    /// Text form.
    pub open spec fn display(self) -> Seq<char> {
        "v"@ + nat_text(self.0 as nat)
    }

    /// Renders the text form.
    pub fn to_string(&self) -> (s: String)
        ensures
            s@ == self.display(),
    {
        let mut s = String::from_str("v");
        push_nat(&mut s, self.0 as u64);
        s
    }
}

/// A value or an immediate.
#[derive(Debug, Clone, Copy, PartialEq, Eq, Structural)]
pub enum SsaOperand {
    /// A value.
    Value(SsaValue),
    /// A 32-bit immediate.
    Imm(i32),
}

impl SsaOperand {
    /// Text form.
    pub open spec fn display(self) -> Seq<char> {
        match self {
            SsaOperand::Value(v) => v.display(),
            SsaOperand::Imm(k) => int_text(k as int),
        }
    }

    /// Renders the text form.
    pub fn to_string(&self) -> (s: String)
        ensures
            s@ == self.display(),
    {
        match *self {
            SsaOperand::Value(v) => v.to_string(),
            SsaOperand::Imm(k) => {
                let mut s = String::new();
                push_int(&mut s, k as i64);
                assert(s@ =~= int_text(k as int));
                s
            },
        }
    }

    /// The values that the operand uses.
    pub open spec fn values(self) -> Seq<SsaValue> {
        match self {
            SsaOperand::Value(v) => seq![v],
            SsaOperand::Imm(_) => Seq::empty(),
        }
    }
}

/// One SSA instruction.
#[derive(Debug, Clone, PartialEq, Eq)]
#[allow(inconsistent_fields)]
pub enum SsaInsn {
    /// A known constant.
    Const {
        /// Defined value.
        dst: SsaValue,
        /// The constant.
        value: i64,
    },
    /// The frame pointer at entry.
    FramePtr {
        /// Defined value.
        dst: SsaValue,
    },
    /// The context pointer at entry.
    EntryCtx {
        /// Defined value.
        dst: SsaValue,
    },
    /// A 64-bit register copy.
    Copy {
        /// Defined value.
        dst: SsaValue,
        /// Copied value.
        src: SsaValue,
    },
    /// An ALU operation.
    BinOp {
        /// Defined value.
        dst: SsaValue,
        /// Operand width.
        width: Width,
        /// Operation.
        op: AluOp,
        /// Left operand.
        lhs: SsaOperand,
        /// Right operand.
        rhs: SsaOperand,
    },
    /// A wide immediate.
    LoadImm64 {
        /// Defined value.
        dst: SsaValue,
        /// The immediate.
        imm: i64,
    },
    /// A load. The result of a load into the frame pointer is dropped.
    Load {
        /// Defined value.
        dst: Option<SsaValue>,
        /// Access width.
        size: MemSize,
        /// Base pointer.
        base: SsaValue,
        /// Signed offset from the base.
        offset: i16,
    },
    /// A store.
    Store {
        /// Access width.
        size: MemSize,
        /// Base pointer.
        base: SsaValue,
        /// Signed offset from the base.
        offset: i16,
        /// Stored operand.
        src: SsaOperand,
    },
    /// A helper call.
    Call {
        /// Defined value.
        dst: SsaValue,
        /// Helper id.
        func: u32,
        /// The values of `r1` to `r5`.
        args: [SsaValue; 5],
    },
    /// A merge: one value per incoming edge.
    Phi {
        /// Defined value.
        dst: SsaValue,
        /// Predecessor block and value at its end.
        inputs: Vec<(usize, SsaValue)>,
    },
    /// A conditional branch.
    Br {
        /// Comparison width.
        width: Width,
        /// Condition.
        op: JumpOp,
        /// Left operand.
        lhs: SsaOperand,
        /// Right operand.
        rhs: SsaOperand,
        /// Target when taken.
        true_target: Option<usize>,
        /// Target when not taken.
        false_target: Option<usize>,
    },
    /// An unconditional jump.
    Ja {
        /// Target block.
        target: usize,
    },
    /// Program exit.
    Exit {
        /// The value of `r0`.
        r0: SsaValue,
    },
}

/// Contents of an [`SsaInsn`].
#[verifier::ext_equal]
#[allow(inconsistent_fields)]
pub enum Op {
    /// See [`SsaInsn::Const`].
    Const {
        /// Defined value.
        dst: SsaValue,
        /// The constant.
        value: i64,
    },
    /// See [`SsaInsn::FramePtr`].
    FramePtr {
        /// Defined value.
        dst: SsaValue,
    },
    /// See [`SsaInsn::EntryCtx`].
    EntryCtx {
        /// Defined value.
        dst: SsaValue,
    },
    /// See [`SsaInsn::Copy`].
    Copy {
        /// Defined value.
        dst: SsaValue,
        /// Copied value.
        src: SsaValue,
    },
    /// See [`SsaInsn::BinOp`].
    BinOp {
        /// Defined value.
        dst: SsaValue,
        /// Operand width.
        width: Width,
        /// Operation.
        op: AluOp,
        /// Left operand.
        lhs: SsaOperand,
        /// Right operand.
        rhs: SsaOperand,
    },
    /// See [`SsaInsn::LoadImm64`].
    LoadImm64 {
        /// Defined value.
        dst: SsaValue,
        /// The immediate.
        imm: i64,
    },
    /// See [`SsaInsn::Load`].
    Load {
        /// Defined value.
        dst: Option<SsaValue>,
        /// Access width.
        size: MemSize,
        /// Base pointer.
        base: SsaValue,
        /// Signed offset from the base.
        offset: i16,
    },
    /// See [`SsaInsn::Store`].
    Store {
        /// Access width.
        size: MemSize,
        /// Base pointer.
        base: SsaValue,
        /// Signed offset from the base.
        offset: i16,
        /// Stored operand.
        src: SsaOperand,
    },
    /// See [`SsaInsn::Call`].
    Call {
        /// Defined value.
        dst: SsaValue,
        /// Helper id.
        func: u32,
        /// The values of `r1` to `r5`.
        args: Seq<SsaValue>,
    },
    /// See [`SsaInsn::Phi`].
    Phi {
        /// Defined value.
        dst: SsaValue,
        /// Predecessor block and value at its end.
        inputs: Seq<(usize, SsaValue)>,
    },
    /// See [`SsaInsn::Br`].
    Br {
        /// Comparison width.
        width: Width,
        /// Condition.
        op: JumpOp,
        /// Left operand.
        lhs: SsaOperand,
        /// Right operand.
        rhs: SsaOperand,
        /// Target when taken.
        true_target: Option<usize>,
        /// Target when not taken.
        false_target: Option<usize>,
    },
    /// See [`SsaInsn::Ja`].
    Ja {
        /// Target block.
        target: usize,
    },
    /// See [`SsaInsn::Exit`].
    Exit {
        /// The value of `r0`.
        r0: SsaValue,
    },
}

impl View for SsaInsn {
    type V = Op;

    open spec fn view(&self) -> Op {
        match *self {
            SsaInsn::Const { dst, value } => Op::Const { dst, value },
            SsaInsn::FramePtr { dst } => Op::FramePtr { dst },
            SsaInsn::EntryCtx { dst } => Op::EntryCtx { dst },
            SsaInsn::Copy { dst, src } => Op::Copy { dst, src },
            SsaInsn::BinOp { dst, width, op, lhs, rhs } => Op::BinOp { dst, width, op, lhs, rhs },
            SsaInsn::LoadImm64 { dst, imm } => Op::LoadImm64 { dst, imm },
            SsaInsn::Load { dst, size, base, offset } => Op::Load { dst, size, base, offset },
            SsaInsn::Store { size, base, offset, src } => Op::Store { size, base, offset, src },
            SsaInsn::Call { dst, func, args } => Op::Call { dst, func, args: args@ },
            SsaInsn::Phi { dst, inputs } => Op::Phi { dst, inputs: inputs@ },
            SsaInsn::Br { width, op, lhs, rhs, true_target, false_target } => Op::Br {
                width,
                op,
                lhs,
                rhs,
                true_target,
                false_target,
            },
            SsaInsn::Ja { target } => Op::Ja { target },
            SsaInsn::Exit { r0 } => Op::Exit { r0 },
        }
    }
}

/// The values of phi inputs.
pub open spec fn input_values(inputs: Seq<(usize, SsaValue)>) -> Seq<SsaValue> {
    inputs.map_values(|i: (usize, SsaValue)| i.1)
}

impl Op {
    /// The value that the instruction defines.
    pub open spec fn def(self) -> Option<SsaValue> {
        match self {
            Op::Const { dst, .. } => Some(dst),
            Op::FramePtr { dst } => Some(dst),
            Op::EntryCtx { dst } => Some(dst),
            Op::Copy { dst, .. } => Some(dst),
            Op::BinOp { dst, .. } => Some(dst),
            Op::LoadImm64 { dst, .. } => Some(dst),
            Op::Call { dst, .. } => Some(dst),
            Op::Phi { dst, .. } => Some(dst),
            Op::Load { dst, .. } => dst,
            Op::Store { .. } => None,
            Op::Br { .. } => None,
            Op::Ja { .. } => None,
            Op::Exit { .. } => None,
        }
    }

    /// The values that the instruction uses, in order.
    pub open spec fn uses(self) -> Seq<SsaValue> {
        match self {
            Op::Const { .. } => Seq::empty(),
            Op::FramePtr { .. } => Seq::empty(),
            Op::EntryCtx { .. } => Seq::empty(),
            Op::LoadImm64 { .. } => Seq::empty(),
            Op::Ja { .. } => Seq::empty(),
            Op::Copy { src, .. } => seq![src],
            Op::BinOp { lhs, rhs, .. } => lhs.values() + rhs.values(),
            Op::Br { lhs, rhs, .. } => lhs.values() + rhs.values(),
            Op::Load { base, .. } => seq![base],
            Op::Store { base, src, .. } => seq![base] + src.values(),
            Op::Call { args, .. } => args,
            Op::Phi { inputs, .. } => input_values(inputs),
            Op::Exit { r0 } => seq![r0],
        }
    }

    /// Whether the instruction ends its block.
    pub open spec fn is_control(self) -> bool {
        self is Br || self is Ja || self is Exit
    }

    /// Whether the blocks that the instruction names are below `n`.
    pub open spec fn blocks_below(self, n: nat) -> bool {
        match self {
            Op::Phi { inputs, .. } => forall|i: int|
                0 <= i < inputs.len() ==> (#[trigger] inputs[i]).0 == START_PRED || inputs[i].0 < n,
            Op::Br { true_target, false_target, .. } => {
                &&& true_target matches Some(t) ==> t < n
                &&& false_target matches Some(t) ==> t < n
            },
            Op::Ja { target } => target < n,
            _ => true,
        }
    }
}

impl SsaInsn {
    /// The value that the instruction defines.
    pub fn def_dst(&self) -> (r: Option<SsaValue>)
        ensures
            r == self@.def(),
    {
        match self {
            SsaInsn::Const { dst, .. } => Some(*dst),
            SsaInsn::FramePtr { dst } => Some(*dst),
            SsaInsn::EntryCtx { dst } => Some(*dst),
            SsaInsn::Copy { dst, .. } => Some(*dst),
            SsaInsn::BinOp { dst, .. } => Some(*dst),
            SsaInsn::LoadImm64 { dst, .. } => Some(*dst),
            SsaInsn::Call { dst, .. } => Some(*dst),
            SsaInsn::Phi { dst, .. } => Some(*dst),
            SsaInsn::Load { dst, .. } => *dst,
            SsaInsn::Store { .. } | SsaInsn::Br { .. } | SsaInsn::Ja { .. } | SsaInsn::Exit {
                ..
            } => None,
        }
    }

    /// Whether the instruction ends its block.
    pub fn is_control(&self) -> (r: bool)
        ensures
            r == self@.is_control(),
    {
        match self {
            SsaInsn::Br { .. } | SsaInsn::Ja { .. } | SsaInsn::Exit { .. } => true,
            _ => false,
        }
    }

    /// A copy of the instruction.
    pub fn duplicate(&self) -> (r: SsaInsn)
        ensures
            r@ == self@,
    {
        match self {
            SsaInsn::Const { dst, value } => SsaInsn::Const { dst: *dst, value: *value },
            SsaInsn::FramePtr { dst } => SsaInsn::FramePtr { dst: *dst },
            SsaInsn::EntryCtx { dst } => SsaInsn::EntryCtx { dst: *dst },
            SsaInsn::Copy { dst, src } => SsaInsn::Copy { dst: *dst, src: *src },
            SsaInsn::BinOp { dst, width, op, lhs, rhs } => SsaInsn::BinOp {
                dst: *dst,
                width: *width,
                op: *op,
                lhs: *lhs,
                rhs: *rhs,
            },
            SsaInsn::LoadImm64 { dst, imm } => SsaInsn::LoadImm64 { dst: *dst, imm: *imm },
            SsaInsn::Load { dst, size, base, offset } => SsaInsn::Load {
                dst: *dst,
                size: *size,
                base: *base,
                offset: *offset,
            },
            SsaInsn::Store { size, base, offset, src } => SsaInsn::Store {
                size: *size,
                base: *base,
                offset: *offset,
                src: *src,
            },
            SsaInsn::Call { dst, func, args } => SsaInsn::Call {
                dst: *dst,
                func: *func,
                args: *args,
            },
            SsaInsn::Phi { dst, inputs } => {
                let mut copy: Vec<(usize, SsaValue)> = Vec::with_capacity(inputs.len());
                let mut i: usize = 0;
                while i < inputs.len()
                    invariant
                        i <= inputs@.len(),
                        copy@ == inputs@.take(i as int),
                    decreases inputs@.len() - i,
                {
                    copy.push(inputs[i]);
                    i = i + 1;
                    assert(copy@ =~= inputs@.take(i as int));
                }
                assert(copy@ =~= inputs@);
                SsaInsn::Phi { dst: *dst, inputs: copy }
            },
            SsaInsn::Br { width, op, lhs, rhs, true_target, false_target } => SsaInsn::Br {
                width: *width,
                op: *op,
                lhs: *lhs,
                rhs: *rhs,
                true_target: *true_target,
                false_target: *false_target,
            },
            SsaInsn::Ja { target } => SsaInsn::Ja { target: *target },
            SsaInsn::Exit { r0 } => SsaInsn::Exit { r0: *r0 },
        }
    }
}

/// One SSA basic block: a range of the program's flat instruction vector.
#[derive(Debug, Clone, Copy, PartialEq, Eq, Structural)]
pub struct SsaBlock {
    /// Start index.
    pub start: usize,
    /// End index (exclusive).
    pub end: usize,
    /// Whether the block is reachable.
    pub live: bool,
}

/// A program in SSA form. Its blocks have the numbers of the blocks of the
/// control-flow graph.
#[derive(Debug)]
pub struct SsaProgram {
    /// Block graph.
    pub graph: DiGraph<SsaBlock, EdgeKind>,
    /// All instructions, block after block.
    pub insns: Vec<SsaInsn>,
    /// Entry block.
    pub entry: usize,
    /// Index of the defining instruction by value; `usize::MAX` for a value
    /// that is not defined.
    pub def_sites: Vec<usize>,
}

/// Contents of an [`SsaProgram`].
#[verifier::ext_equal]
pub struct Prog {
    /// Blocks.
    pub nodes: Seq<SsaBlock>,
    /// Edges, in the order in which they were added.
    pub edges: Seq<Edge>,
    /// All instructions.
    pub insns: Seq<Op>,
    /// Entry block.
    pub entry: usize,
    /// Index of the defining instruction by value.
    pub sites: Seq<usize>,
}

/// Contents of instructions.
pub open spec fn ops_of(insns: Seq<SsaInsn>) -> Seq<Op> {
    insns.map_values(|i: SsaInsn| i@)
}

impl View for SsaProgram {
    type V = Prog;

    open spec fn view(&self) -> Prog {
        Prog {
            nodes: ssa_nodes(self.graph),
            edges: ssa_edges(self.graph),
            insns: ops_of(self.insns@),
            entry: self.entry,
            sites: self.def_sites@,
        }
    }
}

/// Whether an index lies in a block that can be reached.
pub open spec fn live_at(nodes: Seq<SsaBlock>, i: int) -> bool {
    exists|k: int|
        0 <= k < nodes.len() && (#[trigger] nodes[k]).live && nodes[k].start <= i < nodes[k].end
}

/// Whether block ranges follow each other and cover `len` instructions.
pub open spec fn tiled(nodes: Seq<SsaBlock>, len: nat) -> bool {
    &&& nodes.len() > 0
    &&& nodes[0].start == 0
    &&& nodes.last().end == len
    &&& forall|k: int| 0 <= k < nodes.len() ==> (#[trigger] nodes[k]).start <= nodes[k].end
    &&& forall|j: int, k: int|
        0 <= j < k < nodes.len() ==> (#[trigger] nodes[j]).end <= (#[trigger] nodes[k]).start
    &&& forall|j: int, k: int|
        0 <= j && k == j + 1 && k < nodes.len() ==> (#[trigger] nodes[j]).end == (
        #[trigger] nodes[k]).start
}

impl Prog {
    /// Whether the blocks cover the instructions one after another, and every
    /// block number names a block.
    pub open spec fn wf(self) -> bool {
        &&& self.nodes.len() <= START_PRED
        &&& self.entry < self.nodes.len()
        &&& tiled(self.nodes, self.insns.len())
        &&& self.insns.len() < usize::MAX
        &&& forall|e: int|
            0 <= e < self.edges.len() ==> (#[trigger] self.edges[e]).0 < self.nodes.len()
                && self.edges[e].1 < self.nodes.len()
        &&& forall|i: int|
            0 <= i < self.insns.len() ==> (#[trigger] self.insns[i]).blocks_below(
                self.nodes.len(),
            )
    }

    /// The defining instruction of a value.
    pub open spec fn def_of(self, v: SsaValue) -> Option<Op> {
        if v.0 < self.sites.len() && self.sites[v.0 as int] < self.insns.len() {
            Some(self.insns[self.sites[v.0 as int] as int])
        } else {
            None
        }
    }

    /// The constant that an operand is known to be.
    pub open spec fn const_of(self, operand: SsaOperand) -> Option<i64> {
        match operand {
            SsaOperand::Imm(k) => Some(k as i64),
            SsaOperand::Value(v) => match self.def_of(v) {
                Some(Op::Const { value, .. }) => Some(value),
                Some(Op::LoadImm64 { imm, .. }) => Some(imm),
                _ => None,
            },
        }
    }

    /// The last live instruction below `i` that defines a value.
    pub open spec fn last_def(self, v: int, i: nat) -> usize
        decreases i,
    {
        if i == 0 {
            usize::MAX
        } else if live_at(self.nodes, i - 1) && self.insns[i - 1].def() == Some(
            SsaValue(v as u32),
        ) {
            (i - 1) as usize
        } else {
            self.last_def(v, (i - 1) as nat)
        }
    }

    /// The program with its definition sites recomputed from the live
    /// blocks.
    pub open spec fn with_sites(self) -> Prog {
        Prog {
            sites: Seq::new(
                self.sites.len(),
                |v: int|
                    if v <= u32::MAX {
                        self.last_def(v, self.insns.len())
                    } else {
                        usize::MAX
                    },
            ),
            ..self
        }
    }

    /// The register uses of the instruction at `i`, each with the position
    /// where it happens. A phi uses an input at the end of the predecessor;
    /// inputs from dead predecessors and from the program start do not
    /// count.
    pub open spec fn uses_at(self, i: int) -> Seq<(usize, SsaValue)> {
        match self.insns[i] {
            Op::Phi { inputs, .. } => self.phi_uses(inputs, 0),
            op => op.uses().map_values(|v: SsaValue| (i as usize, v)),
        }
    }

    /// The uses of phi inputs from input `k` on.
    pub open spec fn phi_uses(self, inputs: Seq<(usize, SsaValue)>, k: nat) -> Seq<(usize, SsaValue)>
        decreases inputs.len() - k,
    {
        if k >= inputs.len() {
            Seq::empty()
        } else {
            let (pred, v) = inputs[k as int];
            let rest = self.phi_uses(inputs, k + 1);
            if pred != START_PRED && self.nodes[pred as int].live {
                seq![(self.nodes[pred as int].end, v)] + rest
            } else {
                rest
            }
        }
    }

    /// The register uses of the live instructions from `i` on.
    pub open spec fn uses_from(self, i: nat) -> Seq<(usize, SsaValue)>
        decreases self.insns.len() - i,
    {
        if i >= self.insns.len() {
            Seq::empty()
        } else if live_at(self.nodes, i as int) {
            self.uses_at(i as int) + self.uses_from(i + 1)
        } else {
            self.uses_from(i + 1)
        }
    }

    /// The values that phi inputs from input `k` on take from the program
    /// start.
    pub open spec fn phi_starts(self, inputs: Seq<(usize, SsaValue)>, k: nat, i: usize) -> Seq<
        (usize, SsaValue),
    >
        decreases inputs.len() - k,
    {
        if k >= inputs.len() {
            Seq::empty()
        } else {
            let (pred, v) = inputs[k as int];
            let rest = self.phi_starts(inputs, k + 1, i);
            if pred == START_PRED {
                seq![(i, v)] + rest
            } else {
                rest
            }
        }
    }

    /// The values that live phis from `i` on take from the program start.
    pub open spec fn starts_from(self, i: nat) -> Seq<(usize, SsaValue)>
        decreases self.insns.len() - i,
    {
        if i >= self.insns.len() {
            Seq::empty()
        } else {
            let rest = self.starts_from(i + 1);
            match self.insns[i as int] {
                Op::Phi { inputs, .. } => if live_at(self.nodes, i as int) {
                    self.phi_starts(inputs, 0, i as usize) + rest
                } else {
                    rest
                },
                _ => rest,
            }
        }
    }
}

/// Which instructions lie in live blocks.
pub fn live_mask(graph: &DiGraph<SsaBlock, EdgeKind>, len: usize) -> (r: Vec<bool>)
    requires
        tiled(ssa_nodes(*graph), len as nat),
    ensures
        r@.len() == len,
        forall|i: int| 0 <= i < len ==> #[trigger] r@[i] == live_at(ssa_nodes(*graph), i),
{
    let n: usize = ssa_node_count(graph);
    let ghost nodes = ssa_nodes(*graph);
    let mut out: Vec<bool> = Vec::with_capacity(len);
    let mut k: usize = 0;
    while k < n
        invariant
            k <= n,
            nodes == ssa_nodes(*graph),
            n == nodes.len(),
            tiled(nodes, len as nat),
            out@.len() == (if k == 0 {
                0
            } else {
                nodes[k - 1].end as int
            }),
            forall|i: int| 0 <= i < out@.len() ==> #[trigger] out@[i] == live_at(nodes, i),
        decreases n - k,
    {
        let block = ssa_block(graph, k);
        assert(k > 0 ==> nodes[k - 1].end == nodes[k as int].start);
        while out.len() < block.end
            invariant
                k < n,
                n == nodes.len(),
                tiled(nodes, len as nat),
                block == nodes[k as int],
                block.start <= out@.len() <= block.end,
                forall|i: int| 0 <= i < out@.len() ==> #[trigger] out@[i] == live_at(nodes, i),
            decreases block.end - out@.len(),
        {
            proof {
                let i = out@.len() as int;
                if live_at(nodes, i) {
                    let j = choose|j: int|
                        0 <= j < nodes.len() && (#[trigger] nodes[j]).live && nodes[j].start <= i
                            < nodes[j].end;
                    if j < k {
                        assert(nodes[j].end <= nodes[k as int].start);
                    } else if j > k {
                        assert(nodes[k as int].end <= nodes[j].start);
                    }
                }
            }
            out.push(block.live);
        }
        k = k + 1;
    }
    out
}

impl SsaProgram {
    /// Number of instructions.
    pub fn len(&self) -> (r: usize)
        ensures
            r == self@.insns.len(),
    {
        self.insns.len()
    }

    /// Whether there are no instructions.
    pub fn is_empty(&self) -> (r: bool)
        ensures
            r == (self@.insns.len() == 0),
    {
        self.insns.len() == 0
    }

    /// The defining instruction of a value.
    pub fn def_of(&self, value: SsaValue) -> (r: Option<&SsaInsn>)
        ensures
            match r {
                Some(insn) => self@.def_of(value) == Some(insn@),
                None => self@.def_of(value) is None,
            },
    {
        let id: usize = value.0 as usize;
        if id < self.def_sites.len() {
            let site: usize = self.def_sites[id];
            if site < self.insns.len() {
                return Some(&self.insns[site]);
            }
        }
        None
    }

    /// Every use of a register, with the position where it happens.
    pub fn reg_uses(&self) -> (r: Vec<(usize, SsaValue)>)
        requires
            self@.wf(),
        ensures
            r@ == self@.uses_from(0),
    {
        let mask = live_mask(&self.graph, self.insns.len());
        let mut out: Vec<(usize, SsaValue)> = Vec::new();
        let mut i: usize = 0;
        assert(out@ + self@.uses_from(0) =~= self@.uses_from(0));
        while i < self.insns.len()
            invariant
                i <= self.insns@.len(),
                self@.wf(),
                mask@.len() == self.insns@.len(),
                forall|k: int| 0 <= k < mask@.len() ==> #[trigger] mask@[k] == live_at(self@.nodes, k),
                self@.uses_from(0) == out@ + self@.uses_from(i as nat),
            decreases self.insns@.len() - i,
        {
            if mask[i] {
                let ghost before = out@;
                self.push_uses(&mut out, i);
                proof {
                    let rest = self@.uses_from((i + 1) as nat);
                    assert(before + (self@.uses_at(i as int) + rest) =~= out@ + rest);
                }
            }
            i = i + 1;
        }
        assert(out@ + Seq::<(usize, SsaValue)>::empty() =~= out@);
        out
    }

    /// Appends the uses of one instruction.
    fn push_uses(&self, out: &mut Vec<(usize, SsaValue)>, i: usize)
        requires
            self@.wf(),
            i < self.insns@.len(),
        ensures
            final(out)@ == old(out)@ + self@.uses_at(i as int),
    {
        let ghost before = out@;
        assert(self@.insns[i as int] == self.insns@[i as int]@);
        match &self.insns[i] {
            SsaInsn::Const { .. } | SsaInsn::FramePtr { .. } | SsaInsn::EntryCtx { .. }
            | SsaInsn::LoadImm64 { .. } | SsaInsn::Ja { .. } => {},
            SsaInsn::Copy { src, .. } => {
                out.push((i, *src));
            },
            SsaInsn::BinOp { lhs, rhs, .. } => {
                SsaProgram::push_operand(out, i, *lhs);
                SsaProgram::push_operand(out, i, *rhs);
            },
            SsaInsn::Br { lhs, rhs, .. } => {
                SsaProgram::push_operand(out, i, *lhs);
                SsaProgram::push_operand(out, i, *rhs);
            },
            SsaInsn::Load { base, .. } => {
                out.push((i, *base));
            },
            SsaInsn::Store { base, src, .. } => {
                out.push((i, *base));
                SsaProgram::push_operand(out, i, *src);
            },
            SsaInsn::Call { args, .. } => {
                out.push((i, args[0]));
                out.push((i, args[1]));
                out.push((i, args[2]));
                out.push((i, args[3]));
                out.push((i, args[4]));
            },
            SsaInsn::Phi { dst, inputs } => {
                let mut k: usize = 0;
                let ghost whole = self@.phi_uses(inputs@, 0);
                assert(before + whole =~= out@ + self@.phi_uses(inputs@, 0));
                assert(self@.insns[i as int] == (Op::Phi { dst: *dst, inputs: inputs@ }));
                proof {
                    let op = self@.insns[i as int];
                    assert(op.blocks_below(self@.nodes.len()));
                    assert(op is Phi);
                    assert(op->Phi_inputs == inputs@);
                    assert forall|j: int| 0 <= j < inputs@.len() implies (#[trigger] inputs@[j]).0
                        == START_PRED || inputs@[j].0 < self@.nodes.len() by {
                        assert(op->Phi_inputs[j] == inputs@[j]);
                    }
                }
                while k < inputs.len()
                    invariant
                        k <= inputs@.len(),
                        forall|j: int|
                            0 <= j < inputs@.len() ==> (#[trigger] inputs@[j]).0 == START_PRED
                                || inputs@[j].0 < self@.nodes.len(),
                        before + whole == out@ + self@.phi_uses(inputs@, k as nat),
                    decreases inputs@.len() - k,
                {
                    let (pred, value) = inputs[k];
                    if pred != START_PRED {
                        let block = ssa_block(&self.graph, pred);
                        if block.live {
                            let ghost done = out@;
                            out.push((block.end, value));
                            proof {
                                let rest = self@.phi_uses(inputs@, (k + 1) as nat);
                                assert(done + (seq![(block.end, value)] + rest) =~= out@ + rest);
                            }
                        }
                    }
                    k = k + 1;
                }
                assert(out@ + Seq::<(usize, SsaValue)>::empty() =~= out@);
            },
            SsaInsn::Exit { r0 } => {
                out.push((i, *r0));
            },
        }
        assert(out@ =~= before + self@.uses_at(i as int));
    }

    /// Appends the use of an operand.
    fn push_operand(out: &mut Vec<(usize, SsaValue)>, pos: usize, operand: SsaOperand)
        ensures
            final(out)@ == old(out)@ + operand.values().map_values(|v: SsaValue| (pos, v)),
    {
        if let SsaOperand::Value(value) = operand {
            out.push((pos, value));
        }
        assert(out@ =~= old(out)@ + operand.values().map_values(|v: SsaValue| (pos, v)));
    }

    /// Every value that flows into a phi from the program start, with the
    /// position of the phi.
    pub fn start_uses(&self) -> (r: Vec<(usize, SsaValue)>)
        requires
            self@.wf(),
        ensures
            r@ == self@.starts_from(0),
    {
        let mask = live_mask(&self.graph, self.insns.len());
        let mut out: Vec<(usize, SsaValue)> = Vec::new();
        let mut i: usize = 0;
        assert(out@ + self@.starts_from(0) =~= self@.starts_from(0));
        while i < self.insns.len()
            invariant
                i <= self.insns@.len(),
                mask@.len() == self.insns@.len(),
                forall|k: int| 0 <= k < mask@.len() ==> #[trigger] mask@[k] == live_at(self@.nodes, k),
                self@.starts_from(0) == out@ + self@.starts_from(i as nat),
            decreases self.insns@.len() - i,
        {
            assert(self@.insns[i as int] == self.insns@[i as int]@);
            if mask[i] {
                if let SsaInsn::Phi { inputs, .. } = &self.insns[i] {
                    let ghost before = out@;
                    let ghost whole = self@.phi_starts(inputs@, 0, i);
                    let mut k: usize = 0;
                    assert(before + whole =~= out@ + self@.phi_starts(inputs@, 0, i));
                    while k < inputs.len()
                        invariant
                            k <= inputs@.len(),
                            before + whole == out@ + self@.phi_starts(inputs@, k as nat, i),
                        decreases inputs@.len() - k,
                    {
                        let (pred, value) = inputs[k];
                        if pred == START_PRED {
                            let ghost done = out@;
                            out.push((i, value));
                            proof {
                                let rest = self@.phi_starts(inputs@, (k + 1) as nat, i);
                                assert(done + (seq![(i, value)] + rest) =~= out@ + rest);
                            }
                        }
                        k = k + 1;
                    }
                    proof {
                        let rest = self@.starts_from((i + 1) as nat);
                        assert(out@ + Seq::<(usize, SsaValue)>::empty() =~= out@);
                        assert(before + (whole + rest) =~= out@ + rest);
                    }
                }
            }
            i = i + 1;
        }
        assert(out@ + Seq::<(usize, SsaValue)>::empty() =~= out@);
        out
    }

    /// Recomputes the definition sites from the live blocks.
    pub fn rebuild_def_sites(&mut self)
        requires
            old(self)@.wf(),
        ensures
            final(self)@ == old(self)@.with_sites(),
    {
        let mask = live_mask(&self.graph, self.insns.len());
        let count: usize = self.def_sites.len();
        let mut sites: Vec<usize> = Vec::with_capacity(count);
        while sites.len() < count
            invariant
                sites@.len() <= count,
                forall|v: int| 0 <= v < sites@.len() ==> #[trigger] sites@[v] == usize::MAX,
            decreases count - sites@.len(),
        {
            sites.push(usize::MAX);
        }
        let ghost prog = self@;
        let mut i: usize = 0;
        while i < self.insns.len()
            invariant
                i <= self.insns@.len(),
                self@ == prog,
                mask@.len() == self.insns@.len(),
                forall|k: int| 0 <= k < mask@.len() ==> #[trigger] mask@[k] == live_at(prog.nodes, k),
                sites@.len() == count,
                count == prog.sites.len(),
                forall|v: int|
                    0 <= v < count ==> #[trigger] sites@[v] == (if v <= u32::MAX {
                        prog.last_def(v, i as nat)
                    } else {
                        usize::MAX
                    }),
            decreases self.insns@.len() - i,
        {
            assert(prog.insns[i as int] == self.insns@[i as int]@);
            if mask[i] {
                if let Some(dst) = self.insns[i].def_dst() {
                    let id: usize = dst.0 as usize;
                    if id < sites.len() {
                        sites.set(id, i);
                    }
                }
            }
            i = i + 1;
        }
        self.def_sites = sites;
        assert(self@ =~= prog.with_sites());
    }
}

/// Resolves an operand to a constant.
pub fn const_value(prog: &SsaProgram, operand: SsaOperand) -> (r: Option<i64>)
    ensures
        r == prog@.const_of(operand),
{
    match operand {
        SsaOperand::Imm(k) => Some(k as i64),
        SsaOperand::Value(v) => match prog.def_of(v) {
            Some(SsaInsn::Const { value, .. }) => Some(*value),
            Some(SsaInsn::LoadImm64 { imm, .. }) => Some(*imm),
            _ => None,
        },
    }
}

/// Why a program cannot be built or lowered.
#[derive(Debug, Clone, Copy, PartialEq, Eq, Structural)]
#[non_exhaustive]
pub enum SsaError {
    /// An instruction is not recognised.
    IllegalInstruction {
        /// Instruction index.
        pc: usize,
    },
    /// There are no instructions.
    EmptyProgram,
    /// More values are live than there are registers.
    OutOfRegisters,
    /// The moves into a block form a cycle.
    PhiCycle,
    /// The moves of call arguments form a cycle.
    CallArgCycle,
    /// A jump offset does not fit 16 bits.
    JumpTooFar {
        /// Index of the jump in the output.
        pc: usize,
    },
    /// A load into the frame pointer has no register for its result.
    R10FaultingLoad,
    /// The output cannot be encoded.
    Encode(EncodeError),
}

impl SsaError {
    /// The message of the error.
    pub open spec fn display(self) -> Seq<char> {
        match self {
            SsaError::IllegalInstruction { pc } => "illegal instruction at pc "@ + nat_text(
                pc as nat,
            ),
            SsaError::EmptyProgram => "cannot build SSA over an empty program"@,
            SsaError::OutOfRegisters =>
            "register pressure exceeds the allocatable set (spilling is not implemented)"@,
            SsaError::PhiCycle => "unresolvable phi-copy cycle"@,
            SsaError::CallArgCycle => "unresolvable call-argument shuffle cycle"@,
            SsaError::JumpTooFar { pc } => "lowered jump at pc "@ + nat_text(pc as nat)
                + " exceeds the i16 slot range"@,
            SsaError::R10FaultingLoad => "lowering cannot preserve a faulting load into r10"@,
            SsaError::Encode(e) => e.display(),
        }
    }

    /// Renders the message of the error.
    pub fn to_string(&self) -> (s: String)
        ensures
            s@ == self.display(),
    {
        match *self {
            SsaError::IllegalInstruction { pc } => {
                let mut s = String::from_str("illegal instruction at pc ");
                push_nat(&mut s, pc as u64);
                s
            },
            SsaError::EmptyProgram => String::from_str("cannot build SSA over an empty program"),
            SsaError::OutOfRegisters => String::from_str(
                "register pressure exceeds the allocatable set (spilling is not implemented)",
            ),
            SsaError::PhiCycle => String::from_str("unresolvable phi-copy cycle"),
            SsaError::CallArgCycle => String::from_str("unresolvable call-argument shuffle cycle"),
            SsaError::JumpTooFar { pc } => {
                let mut s = String::from_str("lowered jump at pc ");
                push_nat(&mut s, pc as u64);
                s.append(" exceeds the i16 slot range");
                s
            },
            SsaError::R10FaultingLoad => String::from_str(
                "lowering cannot preserve a faulting load into r10",
            ),
            SsaError::Encode(e) => e.to_string(),
        }
    }
}

impl From<EncodeError> for SsaError {
    fn from(e: EncodeError) -> (r: Self) {
        SsaError::Encode(e)
    }
}

impl vstd::std_specs::convert::FromSpecImpl<EncodeError> for SsaError {
    open spec fn obeys_from_spec() -> bool {
        true
    }

    open spec fn from_spec(e: EncodeError) -> Self {
        SsaError::Encode(e)
    }
}

} // verus!
