//! Control-flow graphs over decoded instructions.
//!
//! [`build_cfg`] partitions a program into basic blocks and links them with
//! typed edges in a `petgraph` graph. Jump offsets count 8-byte slots, so
//! every jump is resolved in slot space and translated back to an
//! instruction index; a jump outside the program or onto the second half of
//! a wide instruction is an error.
pub mod laws;

use vstd::prelude::*;
use vstd::string::StringExecFns;

use petgraph::graph::DiGraph;

use crate::graph::{
    cfg_add_edge, cfg_add_node, cfg_block, cfg_edge_count, cfg_edge_kind, cfg_edges, cfg_endpoints,
    cfg_graph, cfg_is_cyclic, cfg_node_count, cfg_nodes, cfg_postorder, has_edge, on_cycle,
    postorder, reachable, Edge,
};
use crate::isa::insn::{Insn, JumpOp};
use crate::slots::{
    index_at, lemma_slot_bounds, lemma_slot_monotone, slot_count, slot_of, slot_table, slot_width,
    starts_at, target_slot,
};
use crate::text::{int_text, nat_text, pad_right, push_gutter, push_int, push_nat};

verus! {

/// Index of a decoded instruction.
#[derive(Debug, Clone, Copy, PartialEq, Eq, PartialOrd, Ord, Hash, Structural)]
pub struct Pc(pub usize);

impl Pc {
    /// Text form.
    pub open spec fn display(self) -> Seq<char> {
        "Pc("@ + nat_text(self.0 as nat) + ")"@
    }

    /// Renders the text form.
    pub fn to_string(&self) -> (s: String)
        ensures
            s@ == self.display(),
    {
        let mut s = String::from_str("Pc(");
        push_nat(&mut s, self.0 as u64);
        s.append(")");
        s
    }
}

/// 8-byte slot number: the unit that jump offsets count in.
#[derive(Debug, Clone, Copy, PartialEq, Eq, PartialOrd, Ord, Hash, Structural)]
pub struct Slot(pub u32);

impl Slot {
    /// Text form.
    pub open spec fn display(self) -> Seq<char> {
        "Slot("@ + nat_text(self.0 as nat) + ")"@
    }

    /// Renders the text form.
    pub fn to_string(&self) -> (s: String)
        ensures
            s@ == self.display(),
    {
        let mut s = String::from_str("Slot(");
        push_nat(&mut s, self.0 as u64);
        s.append(")");
        s
    }

    /// The slot number as an index.
    pub fn as_usize(self) -> (r: usize)
        ensures
            r == self.0,
    {
        self.0 as usize
    }
}

/// A basic block: a half-open range of instruction indices.
#[derive(Debug, Clone, Copy, PartialEq, Eq, Structural)]
pub struct BasicBlock {
    /// First instruction index of the block.
    pub start: Pc,
    /// One past the last instruction index.
    pub end: Pc,
}

impl BasicBlock {
    /// Number of instructions in the block.
    pub fn len(&self) -> (r: usize)
        requires
            self.start.0 <= self.end.0,
        ensures
            r == self.end.0 - self.start.0,
    {
        self.end.0 - self.start.0
    }

    /// Whether the block contains no instructions.
    pub fn is_empty(&self) -> (r: bool)
        ensures
            r == (self.start.0 >= self.end.0),
    {
        self.start.0 >= self.end.0
    }
}

/// How control reaches a successor block.
#[derive(Debug, Clone, Copy, PartialEq, Eq, Hash, Structural)]
pub enum EdgeKind {
    /// Straight-line fallthrough.
    Fallthrough,
    /// Conditional branch taken.
    BranchTrue,
    /// Conditional branch not taken.
    BranchFalse,
    /// Unconditional jump.
    Unconditional,
}

/// Graph construction error.
#[derive(Debug, Clone, Copy, PartialEq, Eq, Structural)]
#[non_exhaustive]
#[allow(inconsistent_fields)]
pub enum CfgError {
    /// The program contains no instructions.
    EmptyProgram,
    /// A jump target is outside the program.
    JumpOutOfBounds {
        /// Slot of the jumping instruction.
        pc: u32,
        /// Target slot; it can be negative.
        target: i64,
    },
    /// A jump target is the second half of a wide instruction.
    JumpIntoWide {
        /// Slot of the jumping instruction.
        pc: u32,
        /// Target slot.
        target: u32,
    },
}

impl CfgError {
    /// The message of the error.
    pub open spec fn display(self) -> Seq<char> {
        match self {
            CfgError::EmptyProgram => "empty program: no instructions to build a CFG from"@,
            CfgError::JumpOutOfBounds { pc, target } => "jump at slot "@ + nat_text(pc as nat)
                + " targets out-of-bounds slot "@ + int_text(target as int),
            CfgError::JumpIntoWide { pc, target } => "jump at slot "@ + nat_text(pc as nat)
                + " targets middle of wide instruction at slot "@ + nat_text(target as nat),
        }
    }

    /// Renders the message of the error.
    pub fn to_string(&self) -> (s: String)
        ensures
            s@ == self.display(),
    {
        match *self {
            CfgError::EmptyProgram => String::from_str(
                "empty program: no instructions to build a CFG from",
            ),
            CfgError::JumpOutOfBounds { pc, target } => {
                let mut s = String::from_str("jump at slot ");
                push_nat(&mut s, pc as u64);
                s.append(" targets out-of-bounds slot ");
                push_int(&mut s, target);
                s
            },
            CfgError::JumpIntoWide { pc, target } => {
                let mut s = String::from_str("jump at slot ");
                push_nat(&mut s, pc as u64);
                s.append(" targets middle of wide instruction at slot ");
                push_nat(&mut s, target as u64);
                s
            },
        }
    }
}

/// Whether the slots, blocks and edges of a program can be numbered with 32
/// bits.
pub open spec fn numbered(insns: Seq<Insn>) -> bool {
    slot_count(insns) <= 0x7fff_ffff
}

/// The target of a jump that lands on an instruction.
pub open spec fn jump_target(insns: Seq<Insn>, i: int) -> Option<int> {
    match insns[i] {
        Insn::Jump { offset, .. } => if starts_at(insns, target_slot(insns, i, offset)) {
            Some(index_at(insns, target_slot(insns, i, offset)))
        } else {
            None
        },
        _ => None,
    }
}

/// What is wrong with the jump at index `i`, if anything.
pub open spec fn jump_error(insns: Seq<Insn>, i: int) -> Option<CfgError> {
    match insns[i] {
        Insn::Jump { offset, .. } => {
            let pc = slot_of(insns, i as nat) as u32;
            let target = target_slot(insns, i, offset);
            if starts_at(insns, target) {
                None
            } else if 0 <= target < slot_count(insns) {
                Some(CfgError::JumpIntoWide { pc, target: target as u32 })
            } else {
                Some(CfgError::JumpOutOfBounds { pc, target: target as i64 })
            }
        },
        _ => None,
    }
}

/// The first invalid jump from index `i` on.
pub open spec fn first_jump_error(insns: Seq<Insn>, i: nat) -> Option<CfgError>
    decreases insns.len() - i,
{
    if i >= insns.len() {
        None
    } else if jump_error(insns, i as int) is Some {
        jump_error(insns, i as int)
    } else {
        first_jump_error(insns, i + 1)
    }
}

/// Why a program has no graph, if it has none.
pub open spec fn cfg_error(insns: Seq<Insn>) -> Option<CfgError> {
    if insns.len() == 0 {
        Some(CfgError::EmptyProgram)
    } else {
        first_jump_error(insns, 0)
    }
}

/// Whether the instruction at `j` makes index `p` start a block: as its jump
/// target, or as the instruction after a jump or an exit.
pub open spec fn leads(insns: Seq<Insn>, j: int, p: int) -> bool {
    jump_target(insns, j) == Some(p) || ((insns[j] is Jump || insns[j] is Exit) && j + 1 == p)
}

/// Whether index `p` starts a block.
pub open spec fn is_leader(insns: Seq<Insn>, p: int) -> bool {
    p == 0 || exists|j: int| 0 <= j < insns.len() && #[trigger] leads(insns, j, p)
}

/// The block starts below `n`, in ascending order.
pub open spec fn leaders_below(insns: Seq<Insn>, n: nat) -> Seq<Pc>
    decreases n,
{
    if n == 0 {
        Seq::empty()
    } else {
        let rest = leaders_below(insns, (n - 1) as nat);
        if is_leader(insns, n - 1) {
            rest.push(Pc((n - 1) as usize))
        } else {
            rest
        }
    }
}

/// The block starts of a program, in ascending order.
pub open spec fn leaders(insns: Seq<Insn>) -> Seq<Pc> {
    leaders_below(insns, insns.len())
}

/// The end of block `k`: the next block start, or the end of the program.
pub open spec fn block_end(insns: Seq<Insn>, k: int) -> int {
    if k + 1 < leaders(insns).len() {
        leaders(insns)[k + 1].0 as int
    } else {
        insns.len() as int
    }
}

/// The blocks of a program.
pub open spec fn blocks(insns: Seq<Insn>) -> Seq<BasicBlock> {
    Seq::new(
        leaders(insns).len(),
        |k: int| BasicBlock { start: leaders(insns)[k], end: Pc(block_end(insns, k) as usize) },
    )
}

/// The number of the block that holds index `pc`.
pub open spec fn block_index(insns: Seq<Insn>, pc: int) -> usize {
    (leaders_below(insns, (pc + 1) as nat).len() - 1) as usize
}

/// The outgoing edges of block `k`, from its last instruction.
pub open spec fn block_edges(insns: Seq<Insn>, k: int) -> Seq<Edge> {
    let end = block_end(insns, k);
    let last = end - 1;
    let from = k as usize;
    let next = if end < insns.len() {
        Some(block_index(insns, end))
    } else {
        None
    };
    match insns[last] {
        Insn::Jump { op, .. } => {
            let target = block_index(insns, jump_target(insns, last)->0);
            if op == JumpOp::Always {
                seq![(from, target, EdgeKind::Unconditional)]
            } else {
                match next {
                    Some(n) => seq![
                        (from, target, EdgeKind::BranchTrue),
                        (from, n, EdgeKind::BranchFalse),
                    ],
                    None => seq![(from, target, EdgeKind::BranchTrue)],
                }
            }
        },
        Insn::Exit => Seq::empty(),
        _ => match next {
            Some(n) => seq![(from, n, EdgeKind::Fallthrough)],
            None => Seq::empty(),
        },
    }
}

/// The outgoing edges of the first `k` blocks.
pub open spec fn edges_of_first(insns: Seq<Insn>, k: nat) -> Seq<Edge>
    decreases k,
{
    if k == 0 {
        Seq::empty()
    } else {
        edges_of_first(insns, (k - 1) as nat) + block_edges(insns, k - 1)
    }
}

/// The edges of a program's graph.
pub open spec fn edges(insns: Seq<Insn>) -> Seq<Edge> {
    edges_of_first(insns, leaders(insns).len())
}

/// The blocks that the entry reaches, in reverse postorder.
pub open spec fn visit_order(insns: Seq<Insn>) -> Seq<usize> {
    postorder(leaders(insns).len(), edges(insns), 0).reverse()
}

/// A control-flow graph.
#[derive(Debug)]
pub struct Cfg {
    /// Block graph; node numbers follow instruction order.
    pub graph: DiGraph<BasicBlock, EdgeKind>,
    /// Entry block.
    pub entry: usize,
    /// Containing block by instruction index.
    pub block_of_pc: Vec<usize>,
    /// Slot number by instruction index.
    pub slot_of: Vec<Slot>,
    /// Reverse postorder of the blocks that the entry reaches.
    pub rpo: Vec<usize>,
}

impl Cfg {
    /// Containing block by instruction index.
    pub open spec fn block_table(&self) -> Seq<usize> {
        self.block_of_pc@
    }

    /// Slot number by instruction index.
    pub open spec fn slot_numbers(&self) -> Seq<Slot> {
        self.slot_of@
    }

    /// Reverse postorder of the blocks that the entry reaches.
    pub open spec fn order(&self) -> Seq<usize> {
        self.rpo@
    }

    /// Whether this is the graph of a program.
    pub open spec fn describes(&self, insns: Seq<Insn>) -> bool {
        &&& numbered(insns)
        &&& cfg_error(insns) is None
        &&& cfg_nodes(self.graph) == blocks(insns)
        &&& cfg_edges(self.graph) == edges(insns)
        &&& self.entry == 0
        &&& self.block_table() == Seq::new(insns.len(), |i: int| block_index(insns, i))
        &&& self.slot_numbers() == Seq::new(
            insns.len(),
            |i: int| Slot(slot_of(insns, i as nat) as u32),
        )
        &&& self.order() == visit_order(insns)
        &&& self.order().no_duplicates()
        &&& self.order().len() > 0
        &&& self.order()[0] == 0
        &&& forall|n: usize| #[trigger]
            self.order().contains(n) <==> reachable(edges(insns), 0, n)
        &&& forall|i: int, j: int|
            0 <= i < j < self.order().len() && #[trigger] has_edge(
                edges(insns),
                self.order()[j],
                self.order()[i],
            ) ==> reachable(edges(insns), self.order()[i], self.order()[j])
    }

    /// Containing block of an instruction index.
    pub fn block_at(&self, pc: Pc) -> (r: usize)
        requires
            pc.0 < self.block_table().len(),
        ensures
            r == self.block_table()[pc.0 as int],
    {
        self.block_of_pc[pc.0]
    }

    /// Slot number of an instruction index.
    pub fn slot_at(&self, pc: Pc) -> (r: Slot)
        requires
            pc.0 < self.slot_numbers().len(),
        ensures
            r == self.slot_numbers()[pc.0 as int],
    {
        self.slot_of[pc.0]
    }

    /// Blocks in reverse postorder, the entry block first.
    pub fn rpo(&self) -> (r: &[usize])
        ensures
            r@ == self.order(),
    {
        self.rpo.as_slice()
    }
}

/// Resolves the jump at index `i` to a target index.
fn resolve_target(
    insns: &[Insn],
    slots: &Vec<u32>,
    decoded_of_slot: &Vec<usize>,
    i: usize,
    offset: i16,
) -> (r: Result<Pc, CfgError>)
    requires
        numbered(insns@),
        i < insns@.len(),
        insns@[i as int] is Jump,
        insns@[i as int]->Jump_offset == offset,
        slots@.len() == insns@.len(),
        slots@[i as int] == slot_of(insns@, i as nat),
        decoded_of_slot@.len() == slot_count(insns@),
        forall|s: int|
            0 <= s < decoded_of_slot@.len() ==> if starts_at(insns@, s) {
                #[trigger] decoded_of_slot@[s] == index_at(insns@, s)
            } else {
                decoded_of_slot@[s] == usize::MAX
            },
    ensures
        match r {
            Ok(t) => jump_target(insns@, i as int) == Some(t.0 as int) && jump_error(
                insns@,
                i as int,
            ) is None && t.0 < insns@.len(),
            Err(e) => jump_error(insns@, i as int) == Some(e),
        },
{
    let pc: u32 = slots[i];
    let target: i64 = pc as i64 + 1 + offset as i64;
    proof {
        if starts_at(insns@, target as int) {
            let d = index_at(insns@, target as int);
            lemma_slot_monotone(insns@, d as nat, insns@.len());
            lemma_slot_bounds(insns@, d as nat);
        }
    }
    if target < 0 || target >= decoded_of_slot.len() as i64 {
        return Err(CfgError::JumpOutOfBounds { pc, target });
    }
    let decoded: usize = decoded_of_slot[target as usize];
    if decoded == usize::MAX {
        return Err(CfgError::JumpIntoWide { pc, target: target as u32 });
    }
    Ok(Pc(decoded))
}

/// Resolves every jump: the entry of a jump holds its target index.
fn jump_targets(insns: &[Insn], slots: &Vec<u32>, decoded_of_slot: &Vec<usize>) -> (r: Result<
    Vec<Option<Pc>>,
    CfgError,
>)
    requires
        numbered(insns@),
        slots@.len() == insns@.len(),
        forall|k: int|
            0 <= k < insns@.len() ==> #[trigger] slots@[k] == slot_of(insns@, k as nat),
        decoded_of_slot@.len() == slot_count(insns@),
        forall|s: int|
            0 <= s < decoded_of_slot@.len() ==> if starts_at(insns@, s) {
                #[trigger] decoded_of_slot@[s] == index_at(insns@, s)
            } else {
                decoded_of_slot@[s] == usize::MAX
            },
    ensures
        match r {
            Ok(targets) => {
                &&& first_jump_error(insns@, 0) is None
                &&& targets_of(targets@, insns@)
            },
            Err(e) => first_jump_error(insns@, 0) == Some(e),
        },
{
    let mut out: Vec<Option<Pc>> = Vec::new();
    let mut i: usize = 0;
    while i < insns.len()
        invariant
            i <= insns@.len(),
            numbered(insns@),
            slots@.len() == insns@.len(),
            forall|k: int|
                0 <= k < insns@.len() ==> #[trigger] slots@[k] == slot_of(insns@, k as nat),
            decoded_of_slot@.len() == slot_count(insns@),
            forall|s: int|
                0 <= s < decoded_of_slot@.len() ==> if starts_at(insns@, s) {
                    #[trigger] decoded_of_slot@[s] == index_at(insns@, s)
                } else {
                    decoded_of_slot@[s] == usize::MAX
                },
            first_jump_error(insns@, 0) == first_jump_error(insns@, i as nat),
            out@.len() == i,
            forall|k: int|
                0 <= k < i ==> #[trigger] target_entry(out@[k], insns@, k),
        decreases insns@.len() - i,
    {
        match insns[i] {
            Insn::Jump { offset, .. } => {
                match resolve_target(insns, slots, decoded_of_slot, i, offset) {
                    Ok(t) => {
                        out.push(Some(t));
                    },
                    Err(e) => {
                        return Err(e);
                    },
                }
            },
            _ => {
                out.push(None);
            },
        }
        assert(target_entry(out@[i as int], insns@, i as int));
        i = i + 1;
    }
    Ok(out)
}

/// Whether a table entry is the target of the jump at index `i`.
spec fn target_entry(entry: Option<Pc>, insns: Seq<Insn>, i: int) -> bool {
    match entry {
        Some(t) => jump_target(insns, i) == Some(t.0 as int) && t.0 < insns.len(),
        None => jump_target(insns, i) is None && !(insns[i] is Jump),
    }
}

/// Whether a table holds the targets of all jumps.
spec fn targets_of(targets: Seq<Option<Pc>>, insns: Seq<Insn>) -> bool {
    &&& targets.len() == insns.len()
    &&& forall|k: int| 0 <= k < insns.len() ==> #[trigger] target_entry(targets[k], insns, k)
}

/// Collects the block starts in ascending order.
fn collect_leaders(insns: &[Insn], targets: &Vec<Option<Pc>>) -> (r: Vec<Pc>)
    requires
        insns@.len() > 0,
        targets_of(targets@, insns@),
    ensures
        r@ == leaders(insns@),
{
    let mut marks: Vec<bool> = Vec::new();
    let mut i: usize = 0;
    while i < insns.len()
        invariant
            i <= insns@.len(),
            marks@.len() == i,
            forall|p: int| 0 <= p < i ==> #[trigger] marks@[p] == (p == 0),
        decreases insns@.len() - i,
    {
        marks.push(i == 0);
        i = i + 1;
    }
    let mut i: usize = 0;
    while i < insns.len()
        invariant
            i <= insns@.len(),
            targets_of(targets@, insns@),
            marks@.len() == insns@.len(),
            forall|p: int|
                0 <= p < insns@.len() ==> #[trigger] marks@[p] == (p == 0 || exists|j: int|
                    0 <= j < i && #[trigger] leads(insns@, j, p)),
        decreases insns@.len() - i,
    {
        let ghost before = marks@;
        assert(target_entry(targets@[i as int], insns@, i as int));
        if let Some(t) = targets[i] {
            marks.set(t.0, true);
        }
        let closes = match insns[i] {
            Insn::Jump { .. } => true,
            Insn::Exit => true,
            _ => false,
        };
        if closes && i + 1 < insns.len() {
            marks.set(i + 1, true);
        }
        proof {
            assert forall|p: int| 0 <= p < insns@.len() implies #[trigger] marks@[p] == (p == 0
                || exists|j: int| 0 <= j < i + 1 && #[trigger] leads(insns@, j, p)) by {
                assert(marks@[p] == (before[p] || leads(insns@, i as int, p)));
                if before[p] && p != 0 {
                    let j = choose|j: int| 0 <= j < i && #[trigger] leads(insns@, j, p);
                    assert(leads(insns@, j, p));
                }
            }
        }
        i = i + 1;
    }
    let mut out: Vec<Pc> = Vec::new();
    let mut p: usize = 0;
    while p < insns.len()
        invariant
            p <= insns@.len(),
            marks@.len() == insns@.len(),
            forall|q: int|
                0 <= q < insns@.len() ==> #[trigger] marks@[q] == is_leader(insns@, q),
            out@ == leaders_below(insns@, p as nat),
        decreases insns@.len() - p,
    {
        if marks[p] {
            out.push(Pc(p));
        }
        p = p + 1;
    }
    out
}

/// Finds the block starts of a program.
pub fn find_leaders(insns: &[Insn]) -> (r: Result<Vec<Pc>, CfgError>)
    requires
        numbered(insns@),
    ensures
        match r {
            Ok(out) => cfg_error(insns@) is None && out@ == leaders(insns@),
            Err(e) => cfg_error(insns@) == Some(e),
        },
{
    if insns.len() == 0 {
        return Err(CfgError::EmptyProgram);
    }
    let (slots, decoded_of_slot) = slot_table(insns);
    match jump_targets(insns, &slots, &decoded_of_slot) {
        Ok(targets) => Ok(collect_leaders(insns, &targets)),
        Err(e) => Err(e),
    }
}

/// Block starts are ascending, below `n`, and start with index 0.
pub proof fn lemma_leaders(insns: Seq<Insn>, n: nat)
    requires
        n <= usize::MAX,
    ensures
        n > 0 ==> leaders_below(insns, n).len() > 0 && leaders_below(insns, n)[0] == Pc(0),
        leaders_below(insns, n).len() <= n,
        forall|k: int|
            0 <= k < leaders_below(insns, n).len() ==> (#[trigger] leaders_below(insns, n)[k]).0 < n
                && is_leader(insns, leaders_below(insns, n)[k].0 as int),
        forall|j: int, k: int|
            0 <= j < k < leaders_below(insns, n).len() ==> (#[trigger] leaders_below(
                insns,
                n,
            )[j]).0 < (#[trigger] leaders_below(insns, n)[k]).0,
    decreases n,
{
    if n > 0 {
        lemma_leaders(insns, (n - 1) as nat);
        if n == 1 {
            assert(is_leader(insns, 0));
        }
    }
}

/// An index inside a block's range belongs to that block.
proof fn lemma_block_index(insns: Seq<Insn>, n: nat, k: int, pc: int)
    requires
        n <= usize::MAX,
        0 <= k < leaders_below(insns, n).len(),
        leaders_below(insns, n)[k].0 <= pc,
        pc < (if k + 1 < leaders_below(insns, n).len() {
            leaders_below(insns, n)[k + 1].0 as int
        } else {
            n as int
        }),
    ensures
        leaders_below(insns, (pc + 1) as nat).len() == k + 1,
    decreases n,
{
    lemma_leaders(insns, n);
    lemma_leaders(insns, (n - 1) as nat);
    let all = leaders_below(insns, n);
    let rest = leaders_below(insns, (n - 1) as nat);
    if is_leader(insns, n - 1) {
        if k < rest.len() {
            assert(all[k] == rest[k]);
            if k + 1 < rest.len() {
                assert(all[k + 1] == rest[k + 1]);
            }
            lemma_block_index(insns, (n - 1) as nat, k, pc);
        }
    } else if pc < n - 1 {
        lemma_block_index(insns, (n - 1) as nat, k, pc);
    }
}

/// A block start begins the block that holds it.
pub proof fn lemma_leader_block(insns: Seq<Insn>, p: int)
    requires
        insns.len() <= usize::MAX,
        0 <= p < insns.len(),
        is_leader(insns, p),
    ensures
        block_index(insns, p) < leaders(insns).len(),
        leaders(insns)[block_index(insns, p) as int] == Pc(p as usize),
{
    lemma_leaders(insns, (p + 1) as nat);
    lemma_leaders_prefix(insns, (p + 1) as nat, insns.len());
    let below = leaders_below(insns, (p + 1) as nat);
    assert(below.last() == Pc(p as usize));
    assert(leaders(insns)[below.len() - 1] == below[below.len() - 1]);
}

/// The block starts below a bound are a prefix of those below a higher one.
proof fn lemma_leaders_prefix(insns: Seq<Insn>, m: nat, n: nat)
    requires
        m <= n,
    ensures
        leaders_below(insns, m).len() <= leaders_below(insns, n).len(),
        forall|k: int|
            0 <= k < leaders_below(insns, m).len() ==> leaders_below(insns, n)[k] == (
            #[trigger] leaders_below(insns, m)[k]),
    decreases n,
{
    if m < n {
        lemma_leaders_prefix(insns, m, (n - 1) as nat);
    }
}

/// Every index belongs to the block whose range holds it.
proof fn lemma_containing_block(insns: Seq<Insn>, pc: int)
    requires
        0 <= pc < insns.len() <= usize::MAX,
    ensures
        block_index(insns, pc) < leaders(insns).len(),
        leaders(insns)[block_index(insns, pc) as int].0 <= pc < block_end(
            insns,
            block_index(insns, pc) as int,
        ),
{
    let below = leaders_below(insns, (pc + 1) as nat);
    lemma_leaders(insns, (pc + 1) as nat);
    lemma_leaders(insns, insns.len());
    lemma_leaders_prefix(insns, (pc + 1) as nat, insns.len());
    let k = below.len() - 1;
    assert(leaders(insns)[k] == below[k]);
    if k + 1 < leaders(insns).len() && leaders(insns)[k + 1].0 <= pc {
        lemma_leader_block(insns, leaders(insns)[k + 1].0 as int);
        lemma_leaders_prefix(insns, (leaders(insns)[k + 1].0 + 1) as nat, (pc + 1) as nat);
        let q = leaders(insns)[k + 1].0;
        let bi = leaders_below(insns, (q + 1) as nat).len() - 1;
        lemma_leaders_prefix(insns, (q + 1) as nat, insns.len());
        assert(leaders(insns)[bi] == Pc(q));
    }
}

/// Builds the control-flow graph of a program.
pub fn build_cfg(insns: &[Insn]) -> (r: Result<Cfg, CfgError>)
    requires
        numbered(insns@),
    ensures
        match r {
            Ok(cfg) => cfg.describes(insns@),
            Err(e) => cfg_error(insns@) == Some(e),
        },
{
    if insns.len() == 0 {
        return Err(CfgError::EmptyProgram);
    }
    let n: usize = insns.len();
    let (slots, decoded_of_slot) = slot_table(insns);
    let targets = match jump_targets(insns, &slots, &decoded_of_slot) {
        Ok(targets) => targets,
        Err(e) => {
            return Err(e);
        },
    };
    let starts = collect_leaders(insns, &targets);
    let count: usize = starts.len();
    proof {
        lemma_leaders(insns@, insns@.len());
        lemma_slot_bounds(insns@, insns@.len());
    }
    let mut graph = cfg_graph(count, 0);
    let mut block_of_pc: Vec<usize> = Vec::new();
    let mut k: usize = 0;
    while k < count
        invariant
            k <= count,
            count == starts@.len(),
            starts@ == leaders(insns@),
            n == insns@.len(),
            0 < n <= 0x7fff_ffff,
            count <= n,
            cfg_nodes(graph) == blocks(insns@).take(k as int),
            cfg_edges(graph) == Seq::<Edge>::empty(),
            block_of_pc@.len() == (if k < count {
                starts@[k as int].0 as int
            } else {
                n as int
            }),
            forall|pc: int|
                0 <= pc < block_of_pc@.len() ==> #[trigger] block_of_pc@[pc] == block_index(
                    insns@,
                    pc,
                ),
        decreases count - k,
    {
        proof {
            lemma_leaders(insns@, insns@.len());
        }
        let start: Pc = starts[k];
        let end: Pc = if k + 1 < count {
            starts[k + 1]
        } else {
            Pc(n)
        };
        let _ = cfg_add_node(&mut graph, BasicBlock { start, end });
        assert(cfg_nodes(graph) =~= blocks(insns@).take(k + 1));
        let mut pc: usize = start.0;
        while pc < end.0
            invariant
                start.0 <= pc <= end.0 <= n,
                n == insns@.len(),
                k < count,
                count == leaders(insns@).len(),
                start == leaders(insns@)[k as int],
                end.0 == block_end(insns@, k as int),
                count <= n,
                n <= 0x7fff_ffff,
                block_of_pc@.len() == pc,
                forall|q: int|
                    0 <= q < block_of_pc@.len() ==> #[trigger] block_of_pc@[q] == block_index(
                        insns@,
                        q,
                    ),
            decreases end.0 - pc,
        {
            proof {
                lemma_block_index(insns@, insns@.len(), k as int, pc as int);
            }
            block_of_pc.push(k);
            pc = pc + 1;
        }
        k = k + 1;
    }
    assert(cfg_nodes(graph) =~= blocks(insns@));
    let mut idx: usize = 0;
    while idx < count
        invariant
            idx <= count,
            count == starts@.len(),
            starts@ == leaders(insns@),
            n == insns@.len(),
            0 < n <= 0x7fff_ffff,
            count <= n,
            targets_of(targets@, insns@),
            block_of_pc@.len() == n,
            forall|pc: int|
                0 <= pc < n ==> #[trigger] block_of_pc@[pc] == block_index(insns@, pc),
            cfg_nodes(graph) == blocks(insns@),
            cfg_edges(graph) == edges_of_first(insns@, idx as nat),
            cfg_edges(graph).len() <= 2 * idx,
        decreases count - idx,
    {
        proof {
            lemma_leaders(insns@, insns@.len());
        }
        let end: usize = if idx + 1 < count {
            starts[idx + 1].0
        } else {
            n
        };
        assert(end == block_end(insns@, idx as int));
        let last: usize = end - 1;
        assert(target_entry(targets@[last as int], insns@, last as int));
        let ghost before = cfg_edges(graph);
        proof {
            if end < n {
                lemma_containing_block(insns@, end as int);
            }
            if let Some(t) = targets@[last as int] {
                lemma_containing_block(insns@, t.0 as int);
            }
        }
        match insns[last] {
            Insn::Jump { op, .. } => {
                let target: usize = match targets[last] {
                    Some(t) => block_of_pc[t.0],
                    None => 0,
                };
                if op == JumpOp::Always {
                    cfg_add_edge(&mut graph, idx, target, EdgeKind::Unconditional);
                } else {
                    cfg_add_edge(&mut graph, idx, target, EdgeKind::BranchTrue);
                    if end < n {
                        cfg_add_edge(&mut graph, idx, block_of_pc[end], EdgeKind::BranchFalse);
                    }
                }
            },
            Insn::Exit => {},
            _ => {
                if end < n {
                    cfg_add_edge(&mut graph, idx, block_of_pc[end], EdgeKind::Fallthrough);
                }
            },
        }
        assert(cfg_edges(graph) =~= before + block_edges(insns@, idx as int));
        idx = idx + 1;
    }
    let post = cfg_postorder(&graph, 0);
    let rpo = reversed(&post);
    let mut slot_numbers: Vec<Slot> = Vec::new();
    let mut i: usize = 0;
    while i < n
        invariant
            i <= n,
            n == insns@.len(),
            slots@.len() == n,
            forall|k: int| 0 <= k < n ==> #[trigger] slots@[k] == slot_of(insns@, k as nat),
            slot_numbers@ == Seq::new(i as nat, |k: int| Slot(slot_of(insns@, k as nat) as u32)),
        decreases n - i,
    {
        slot_numbers.push(Slot(slots[i]));
        assert(slot_numbers@ =~= Seq::new(
            (i + 1) as nat,
            |k: int| Slot(slot_of(insns@, k as nat) as u32),
        ));
        i = i + 1;
    }
    let cfg = Cfg { graph, entry: 0, block_of_pc, slot_of: slot_numbers, rpo };
    proof {
        assert(cfg.block_table() =~= Seq::new(insns@.len(), |i: int| block_index(insns@, i)));
        assert(cfg.slot_numbers() =~= Seq::new(
            insns@.len(),
            |i: int| Slot(slot_of(insns@, i as nat) as u32),
        ));
        lemma_reverse_members(post@);
        assert forall|m: usize| #[trigger] cfg.order().contains(m) <==> reachable(
            edges(insns@),
            0,
            m,
        ) by {
            assert(cfg.order().contains(m) <==> post@.contains(m));
        }
        let n = post@.len() as int;
        assert forall|i: int, j: int|
            0 <= i < j < cfg.order().len() && #[trigger] has_edge(
                edges(insns@),
                cfg.order()[j],
                cfg.order()[i],
            ) implies reachable(edges(insns@), cfg.order()[i], cfg.order()[j]) by {
            assert(cfg.order()[i] == post@[n - 1 - i] && cfg.order()[j] == post@[n - 1 - j]);
            assert(has_edge(edges(insns@), post@[n - 1 - j], post@[n - 1 - i]));
        }
    }
    Ok(cfg)
}

/// A sequence backwards.
fn reversed(s: &Vec<usize>) -> (r: Vec<usize>)
    ensures
        r@ == s@.reverse(),
{
    let mut out: Vec<usize> = Vec::new();
    let mut i: usize = s.len();
    while i > 0
        invariant
            i <= s@.len(),
            out@.len() == s@.len() - i,
            forall|k: int| 0 <= k < out@.len() ==> #[trigger] out@[k] == s@[s@.len() - 1 - k],
        decreases i,
    {
        i = i - 1;
        out.push(s[i]);
    }
    assert(out@ =~= s@.reverse());
    out
}

proof fn lemma_reverse_members(s: Seq<usize>)
    requires
        s.no_duplicates(),
    ensures
        s.reverse().no_duplicates(),
        forall|n: usize| s.reverse().contains(n) <==> #[trigger] s.contains(n),
        s.len() > 0 ==> s.reverse()[0] == s.last(),
{
    let r = s.reverse();
    assert forall|n: usize| r.contains(n) <==> #[trigger] s.contains(n) by {
        if s.contains(n) {
            let i = choose|i: int| 0 <= i < s.len() && s[i] == n;
            assert(r[s.len() - 1 - i] == n);
        }
        if r.contains(n) {
            let i = choose|i: int| 0 <= i < r.len() && r[i] == n;
            assert(s[s.len() - 1 - i] == n);
        }
    }
}

/// Whether the graph contains a cycle.
pub fn has_back_edge(cfg: &Cfg) -> (r: bool)
    ensures
        r == exists|n: usize| #[trigger] on_cycle(cfg_edges(cfg.graph), n),
{
    cfg_is_cyclic(&cfg.graph)
}

/// Every instruction belongs to exactly one block: block ranges are not
/// empty, the first starts at index 0, each starts where the one before it
/// ends, and the last ends at the end of the program.
pub proof fn blocks_partition_program(insns: Seq<Insn>)
    requires
        0 < insns.len() <= usize::MAX,
    ensures
        blocks(insns).len() > 0,
        blocks(insns)[0].start == Pc(0),
        blocks(insns).last().end == Pc(insns.len() as usize),
        forall|k: int|
            0 <= k < blocks(insns).len() ==> (#[trigger] blocks(insns)[k]).start.0 < blocks(
                insns,
            )[k].end.0 <= insns.len(),
        forall|j: int, k: int|
            0 <= j < blocks(insns).len() && k == j + 1 && k < blocks(insns).len() ==> (
            #[trigger] blocks(insns)[j]).end == (#[trigger] blocks(insns)[k]).start,
        forall|pc: int|
            0 <= pc < insns.len() ==> {
                let b = #[trigger] block_index(insns, pc);
                b < blocks(insns).len() && blocks(insns)[b as int].start.0 <= pc < blocks(
                    insns,
                )[b as int].end.0
            },
        forall|pc: int, k: int|
            0 <= pc < insns.len() && 0 <= k < blocks(insns).len() && (#[trigger] blocks(
                insns,
            )[k]).start.0 <= pc < blocks(insns)[k].end.0 ==> #[trigger] block_index(insns, pc) == k,
{
    lemma_leaders(insns, insns.len());
    assert forall|pc: int| 0 <= pc < insns.len() implies {
        let b = #[trigger] block_index(insns, pc);
        b < blocks(insns).len() && blocks(insns)[b as int].start.0 <= pc < blocks(
            insns,
        )[b as int].end.0
    } by {
        lemma_containing_block(insns, pc);
    }
    assert forall|pc: int, k: int|
        0 <= pc < insns.len() && 0 <= k < blocks(insns).len() && (#[trigger] blocks(
            insns,
        )[k]).start.0 <= pc < blocks(insns)[k].end.0 implies #[trigger] block_index(insns, pc)
        == k by {
        lemma_block_index(insns, insns.len(), k, pc);
    }
}

/// Where control can go after the last instruction of a block, by kind.
pub open spec fn transfers(insns: Seq<Insn>, last: int, kind: EdgeKind) -> Option<int> {
    match (insns[last], kind) {
        (Insn::Jump { op, .. }, EdgeKind::Unconditional) => if op == JumpOp::Always {
            jump_target(insns, last)
        } else {
            None
        },
        (Insn::Jump { op, .. }, EdgeKind::BranchTrue) => if op != JumpOp::Always {
            jump_target(insns, last)
        } else {
            None
        },
        (Insn::Jump { op, .. }, EdgeKind::BranchFalse) => if op != JumpOp::Always && last + 1
            < insns.len() {
            Some(last + 1)
        } else {
            None
        },
        (Insn::Jump { .. }, _) => None,
        (Insn::Exit, _) => None,
        (_, EdgeKind::Fallthrough) => if last + 1 < insns.len() {
            Some(last + 1)
        } else {
            None
        },
        _ => None,
    }
}

proof fn lemma_no_jump_error(insns: Seq<Insn>, i: nat, j: int)
    requires
        first_jump_error(insns, i) is None,
        i <= j < insns.len(),
    ensures
        jump_error(insns, j) is None,
    decreases insns.len() - i,
{
    if i < j {
        lemma_no_jump_error(insns, i + 1, j);
    }
}

/// The target of a jump in a program without invalid jumps.
pub proof fn lemma_target_exists(insns: Seq<Insn>, i: int)
    requires
        cfg_error(insns) is None,
        0 <= i < insns.len(),
        insns[i] is Jump,
    ensures
        jump_target(insns, i) is Some,
        0 <= jump_target(insns, i)->0 < insns.len(),
        is_leader(insns, jump_target(insns, i)->0),
{
    lemma_no_jump_error(insns, 0, i);
    assert(leads(insns, i, jump_target(insns, i)->0));
}

proof fn lemma_edge_in_block(insns: Seq<Insn>, k: nat, e: int)
    requires
        0 <= e < edges_of_first(insns, k).len(),
    ensures
        exists|b: int|
            0 <= b < k && #[trigger] block_edges(insns, b).contains(edges_of_first(insns, k)[e]),
    decreases k,
{
    let rest = edges_of_first(insns, (k - 1) as nat);
    if e < rest.len() {
        lemma_edge_in_block(insns, (k - 1) as nat, e);
        let b = choose|b: int| 0 <= b < k - 1 && #[trigger] block_edges(insns, b).contains(rest[e]);
        assert(block_edges(insns, b).contains(edges_of_first(insns, k)[e]));
    } else {
        let own = block_edges(insns, k - 1);
        assert(own[e - rest.len()] == edges_of_first(insns, k)[e]);
        assert(own.contains(edges_of_first(insns, k)[e]));
    }
}

proof fn lemma_block_edge_in(insns: Seq<Insn>, k: nat, b: int, i: int)
    requires
        0 <= b < k,
        0 <= i < block_edges(insns, b).len(),
    ensures
        edges_of_first(insns, k).contains(block_edges(insns, b)[i]),
    decreases k,
{
    let rest = edges_of_first(insns, (k - 1) as nat);
    let all = edges_of_first(insns, k);
    if b < k - 1 {
        lemma_block_edge_in(insns, (k - 1) as nat, b, i);
        let e = choose|e: int| 0 <= e < rest.len() && rest[e] == block_edges(insns, b)[i];
        assert(all[e] == block_edges(insns, b)[i]);
    } else {
        assert(all[rest.len() + i] == block_edges(insns, b)[i]);
    }
}

/// Edges mirror control transfer exactly: there is an edge of a kind between
/// two blocks if and only if control passes in that way from the last
/// instruction of the one to the first instruction of the other.
pub proof fn edges_mirror_control(insns: Seq<Insn>, a: usize, b: usize, kind: EdgeKind)
    requires
        cfg_error(insns) is None,
        insns.len() <= usize::MAX,
    ensures
        edges(insns).contains((a, b, kind)) <==> {
            &&& a < blocks(insns).len()
            &&& b < blocks(insns).len()
            &&& transfers(insns, blocks(insns)[a as int].end.0 - 1, kind) == Some(
                blocks(insns)[b as int].start.0 as int,
            )
        },
{
    lemma_leaders(insns, insns.len());
    let count = leaders(insns).len();
    let goal = edges(insns).contains((a, b, kind));
    if goal {
        let e = choose|e: int| 0 <= e < edges(insns).len() && edges(insns)[e] == (a, b, kind);
        lemma_edge_in_block(insns, count, e);
        let k = choose|k: int|
            0 <= k < count && #[trigger] block_edges(insns, k).contains(edges(insns)[e]);
        lemma_own_edges(insns, k, b, kind);
        assert(a == k);
    }
    if a < count && b < count && transfers(insns, blocks(insns)[a as int].end.0 - 1, kind) == Some(
        blocks(insns)[b as int].start.0 as int,
    ) {
        lemma_own_edges(insns, a as int, b, kind);
        let own = block_edges(insns, a as int);
        let i = choose|i: int| 0 <= i < own.len() && own[i] == (a, b, kind);
        lemma_block_edge_in(insns, count, a as int, i);
    }
}

proof fn lemma_own_edges(insns: Seq<Insn>, k: int, b: usize, kind: EdgeKind)
    requires
        cfg_error(insns) is None,
        insns.len() <= usize::MAX,
        0 <= k < leaders(insns).len(),
    ensures
        forall|e: Edge| #[trigger] block_edges(insns, k).contains(e) ==> e.0 == k,
        block_edges(insns, k).contains((k as usize, b, kind)) <==> {
            &&& b < leaders(insns).len()
            &&& transfers(insns, block_end(insns, k) - 1, kind) == Some(
                leaders(insns)[b as int].0 as int,
            )
        },
{
    lemma_leaders(insns, insns.len());
    let end = block_end(insns, k);
    let last = end - 1;
    let own = block_edges(insns, k);
    if insns[last] is Jump {
        lemma_target_exists(insns, last);
        lemma_leader_block(insns, jump_target(insns, last)->0);
    }
    if end < insns.len() {
        lemma_leader_block(insns, end);
    }
    assert forall|e: Edge| #[trigger] own.contains(e) implies e.0 == k by {
        let i = choose|i: int| 0 <= i < own.len() && own[i] == e;
        assert(own[i] == e);
    }
    let t = transfers(insns, last, kind);
    let e = (k as usize, b, kind);
    if own.contains(e) {
        let i = choose|i: int| 0 <= i < own.len() && own[i] == e;
        assert(own[i] == e);
    }
    if b < leaders(insns).len() && t == Some(leaders(insns)[b as int].0 as int) {
        lemma_leader_block(insns, t->0);
        assert(block_index(insns, t->0) == b) by {
            let c = block_index(insns, t->0);
            assert(leaders(insns)[c as int] == leaders(insns)[b as int]);
        }
        if kind == EdgeKind::BranchFalse {
            assert(own[1] == e);
        } else {
            assert(own[0] == e);
        }
    }
}

/// The text of the first `n` instructions of a block in a graph label.
pub open spec fn label_text(block: Seq<Insn>, n: nat) -> Seq<char>
    decreases n,
{
    if n == 0 {
        Seq::empty()
    } else {
        label_text(block, (n - 1) as nat) + (pad_right(
            nat_text(slot_of(block, (n - 1) as nat)),
            4,
        ) + block[n - 1].display() + "\\l"@)
    }
}

/// The text of node `k` of a rendered graph.
pub open spec fn node_text(insns: Seq<Insn>, k: int) -> Seq<char> {
    let b = blocks(insns)[k];
    "  n"@ + nat_text(k as nat) + " [label=\"block "@ + nat_text(k as nat) + " [slots "@ + nat_text(
        slot_of(insns, b.start.0 as nat),
    ) + ".."@ + nat_text(slot_of(insns, b.end.0 as nat)) + "]\\l"@ + label_text(
        insns.subrange(b.start.0 as int, b.end.0 as int),
        (b.end.0 - b.start.0) as nat,
    ) + "\"];\n"@
}

/// The label of an edge kind.
pub open spec fn kind_text(kind: EdgeKind) -> Seq<char> {
    match kind {
        EdgeKind::BranchTrue => "true"@,
        EdgeKind::BranchFalse => "false"@,
        EdgeKind::Unconditional => "jump"@,
        EdgeKind::Fallthrough => ""@,
    }
}

/// The text of an edge of a rendered graph.
pub open spec fn edge_text(e: Edge) -> Seq<char> {
    "  n"@ + nat_text(e.0 as nat) + " -> n"@ + nat_text(e.1 as nat) + " [label=\""@ + kind_text(e.2)
        + "\"];\n"@
}

/// The text of the first `k` nodes.
pub open spec fn nodes_text(insns: Seq<Insn>, k: nat) -> Seq<char>
    decreases k,
{
    if k == 0 {
        Seq::empty()
    } else {
        nodes_text(insns, (k - 1) as nat) + node_text(insns, k - 1)
    }
}

/// The text of the first `k` edges.
pub open spec fn edges_text(list: Seq<Edge>, k: nat) -> Seq<char>
    decreases k,
{
    if k == 0 {
        Seq::empty()
    } else {
        edges_text(list, (k - 1) as nat) + edge_text(list[k - 1])
    }
}

/// The rendered graph of a program.
pub open spec fn dot_text(insns: Seq<Insn>) -> Seq<char> {
    "digraph cfg {\n  node [shape=box, fontname=\"monospace\"];\n"@ + nodes_text(
        insns,
        leaders(insns).len(),
    ) + edges_text(edges(insns), edges(insns).len()) + "}\n"@
}

/// Appends one block's disassembly to a label, numbering slots from 0.
fn write_block_body(s: &mut String, insns: &[Insn], start: usize, end: usize)
    requires
        start <= end <= insns@.len(),
        end - start <= 0x7fff_ffff,
    ensures
        final(s)@ == old(s)@ + label_text(
            insns@.subrange(start as int, end as int),
            (end - start) as nat,
        ),
{
    let ghost block = insns@.subrange(start as int, end as int);
    let mut pc: u32 = 0;
    let mut i: usize = start;
    assert(s@ =~= old(s)@ + label_text(block, 0));
    while i < end
        invariant
            start <= i <= end <= insns@.len(),
            end - start <= 0x7fff_ffff,
            block == insns@.subrange(start as int, end as int),
            pc == slot_of(block, (i - start) as nat),
            s@ == old(s)@ + label_text(block, (i - start) as nat),
        decreases end - i,
    {
        let insn = insns[i];
        assert(block[i - start] == insn);
        let ghost before = s@;
        push_gutter(s, pc as u64);
        s.append(insn.to_string().as_str());
        s.append("\\l");
        proof {
            lemma_slot_bounds(block, (i - start) as nat);
            assert(s@ =~= old(s)@ + label_text(block, (i + 1 - start) as nat));
        }
        pc = pc.wrapping_add(slot_width(&insn));
        i = i + 1;
    }
}

/// Appends the text of node `k`.
fn write_node(s: &mut String, cfg: &Cfg, insns: &[Insn], k: usize)
    requires
        cfg.describes(insns@),
        k < leaders(insns@).len(),
    ensures
        final(s)@ == old(s)@ + node_text(insns@, k as int),
{
    proof {
        lemma_slot_bounds(insns@, insns@.len());
        blocks_partition_program(insns@);
    }
    let bb = cfg_block(&cfg.graph, k);
    assert(bb == blocks(insns@)[k as int]);
    let first_slot: u32 = cfg.slot_at(bb.start).0;
    let last_pc: usize = bb.end.0 - 1;
    proof {
        lemma_slot_monotone(insns@, bb.start.0 as nat, bb.end.0 as nat);
        if bb.end.0 < insns@.len() {
            lemma_slot_monotone(insns@, bb.end.0 as nat, insns@.len());
        }
    }
    let last_slot: u32 = cfg.slot_at(Pc(last_pc)).0 + slot_width(&insns[last_pc]);
    s.append("  n");
    push_nat(s, k as u64);
    s.append(" [label=\"block ");
    push_nat(s, k as u64);
    s.append(" [slots ");
    push_nat(s, first_slot as u64);
    s.append("..");
    push_nat(s, last_slot as u64);
    s.append("]\\l");
    write_block_body(s, insns, bb.start.0, bb.end.0);
    s.append("\"];\n");
    assert(s@ =~= old(s)@ + node_text(insns@, k as int));
}

/// Renders the graph in Graphviz format.
pub fn to_dot(cfg: &Cfg, insns: &[Insn]) -> (r: String)
    requires
        cfg.describes(insns@),
    ensures
        r@ == dot_text(insns@),
{
    let mut s = String::from_str("digraph cfg {\n  node [shape=box, fontname=\"monospace\"];\n");
    let ghost head = s@;
    let count: usize = cfg_node_count(&cfg.graph);
    let mut k: usize = 0;
    proof {
        lemma_slot_bounds(insns@, insns@.len());
        lemma_leaders(insns@, insns@.len());
    }
    assert(s@ =~= head + nodes_text(insns@, 0));
    while k < count
        invariant
            k <= count,
            cfg.describes(insns@),
            insns@.len() <= 0x7fff_ffff,
            count == leaders(insns@).len(),
            s@ == head + nodes_text(insns@, k as nat),
        decreases count - k,
    {
        write_node(&mut s, cfg, insns, k);
        assert(s@ =~= head + nodes_text(insns@, (k + 1) as nat));
        k = k + 1;
    }
    let ghost middle = s@;
    let edge_count: usize = cfg_edge_count(&cfg.graph);
    let mut e: usize = 0;
    assert(s@ =~= middle + edges_text(edges(insns@), 0));
    while e < edge_count
        invariant
            e <= edge_count,
            cfg.describes(insns@),
            edge_count == edges(insns@).len(),
            s@ == middle + edges_text(edges(insns@), e as nat),
        decreases edge_count - e,
    {
        let ghost before = s@;
        if let (Some((a, b)), Some(kind)) = (
            cfg_endpoints(&cfg.graph, e),
            cfg_edge_kind(&cfg.graph, e),
        ) {
            let label: &str = match kind {
                EdgeKind::BranchTrue => "true",
                EdgeKind::BranchFalse => "false",
                EdgeKind::Unconditional => "jump",
                EdgeKind::Fallthrough => "",
            };
            s.append("  n");
            push_nat(&mut s, a as u64);
            s.append(" -> n");
            push_nat(&mut s, b as u64);
            s.append(" [label=\"");
            s.append(label);
            s.append("\"];\n");
            assert(s@ =~= before + edge_text(edges(insns@)[e as int]));
        }
        assert(s@ =~= middle + edges_text(edges(insns@), (e + 1) as nat));
        e = e + 1;
    }
    s.append("}\n");
    assert(s@ =~= dot_text(insns@));
    s
}

} // verus!
