//! The worklist: block states are merged along the edges of the graph until
//! nothing changes, or until an instruction is rejected.
use std::collections::VecDeque;

use vstd::prelude::*;
use vstd::string::StringExecFns;

use crate::cfg::{blocks, blocks_partition_program, edges, edges_mirror_control, Cfg, EdgeKind, Pc};
use crate::graph::{
    cfg_block, cfg_node_count, cfg_out_edges, lemma_out_edges, lemma_reachable_target, out_edges,
};
use crate::isa::insn::Insn;
use crate::slots::{lemma_slot_monotone, slot_of};
use crate::text::{nat_text, pad_right, push_gutter};
use crate::verify::helpers::HelperSignatureRegistry;
use crate::verify::lattice::{max_height, state_height, state_height_bounded, state_merge_ascends};
use crate::verify::sound::{
    accepted_plain_programs_are_memory_safe, accepted_programs_are_safe, memory_safe, safe_under,
};
use crate::verify::state::{table_of, StateModel, VerifierState};
use crate::verify::trace::{
    format_regs, format_stack, full_slots, pack_marks, regs_lines, EntryModel, TraceEntry,
};
use crate::verify::transfer::{
    action, check_and_transfer, describe_action, edge_state, refine_edge, transfer,
    transfer_keeps_shape, edge_keeps_shape,
};
use crate::verify::{VerifiedProgram, VerifyError};
use crate::vm::maps::{descs_of, max_fd, DescModel, MapDesc, MAX_MAP_FD};

verus! {

/// Settings of the verifier.
#[derive(Debug, Clone)]
pub struct VerifyConfig {
    /// How often a block may be merged before it widens.
    pub widening_threshold: usize,
    /// Map descriptors.
    pub maps: Vec<MapDesc>,
    /// Length of the packet, if there is one.
    pub packet_len: Option<usize>,
}

/// Contents of a [`VerifyConfig`].
#[verifier::ext_equal]
pub struct ConfigModel {
    /// How often a block may be merged before it widens.
    pub threshold: usize,
    /// Map descriptors.
    pub maps: Seq<DescModel>,
    /// Length of the packet.
    pub packet_len: Option<usize>,
}

impl View for VerifyConfig {
    type V = ConfigModel;

    open spec fn view(&self) -> ConfigModel {
        ConfigModel {
            threshold: self.widening_threshold,
            maps: descs_of(self.maps@),
            packet_len: self.packet_len,
        }
    }
}

impl Default for VerifyConfig {
    /// Widening after 16 merges, no maps, no packet.
    fn default() -> (r: Self)
        ensures
            r@ == (ConfigModel { threshold: 16, maps: Seq::empty(), packet_len: None }),
    {
        let maps: Vec<MapDesc> = Vec::new();
        assert(descs_of(maps@) =~= Seq::empty());
        VerifyConfig { widening_threshold: 16, maps, packet_len: None }
    }
}

impl VerifyConfig {
    /// Default settings with maps.
    pub fn with_maps(maps: Vec<MapDesc>) -> (r: Self)
        ensures
            r@ == (ConfigModel { threshold: 16, maps: descs_of(maps@), packet_len: None }),
    {
        VerifyConfig { widening_threshold: 16, maps, packet_len: None }
    }

    /// Default settings with a packet length.
    pub fn with_packet_len(packet_len: usize) -> (r: Self)
        ensures
            r@ == (ConfigModel {
                threshold: 16,
                maps: Seq::empty(),
                packet_len: Some(packet_len),
            }),
    {
        let maps: Vec<MapDesc> = Vec::new();
        assert(descs_of(maps@) =~= Seq::empty());
        VerifyConfig { widening_threshold: 16, maps, packet_len: Some(packet_len) }
    }
}

/// The first descriptor with a number, from index `i` on.
pub open spec fn first_desc(descs: Seq<DescModel>, fd: int, i: nat) -> Option<DescModel>
    decreases descs.len() - i,
{
    if i >= descs.len() {
        None
    } else if descs[i as int].fd == fd {
        Some(descs[i as int])
    } else {
        first_desc(descs, fd, i + 1)
    }
}

/// The length of the descriptor table: numbers above the limit have no
/// entry.
pub open spec fn table_len(descs: Seq<DescModel>) -> nat {
    let max = max_fd(descs);
    if max < 0 {
        1
    } else if max > MAX_MAP_FD {
        (MAX_MAP_FD + 1) as nat
    } else {
        (max + 1) as nat
    }
}

/// The descriptors by number. Index 0 is always empty.
pub open spec fn map_table(descs: Seq<DescModel>) -> Seq<Option<DescModel>> {
    Seq::new(
        table_len(descs),
        |i: int|
            if i == 0 {
                None
            } else {
                first_desc(descs, i, 0)
            },
    )
}

/// An empty table.
fn empty_table(len: usize) -> (r: Vec<Option<MapDesc>>)
    ensures
        table_of(r@) == Seq::new(len as nat, |i: int| None::<DescModel>),
{
    let mut out: Vec<Option<MapDesc>> = Vec::new();
    while out.len() < len
        invariant
            out@.len() <= len,
            forall|i: int| 0 <= i < out@.len() ==> #[trigger] out@[i] is None,
        decreases len - out@.len(),
    {
        out.push(None);
    }
    assert(table_of(out@) =~= Seq::new(len as nat, |i: int| None::<DescModel>));
    out
}

/// Builds the descriptor table. The first claim of a number wins.
pub fn build_map_table(config: &VerifyConfig) -> (r: Vec<Option<MapDesc>>)
    ensures
        table_of(r@) == map_table(config@.maps),
{
    let descs = &config.maps;
    let mut max: i64 = i64::MIN;
    let mut i: usize = 0;
    while i < descs.len()
        invariant
            i <= descs@.len(),
            max == max_fd(descs_of(descs@).take(i as int)),
        decreases descs@.len() - i,
    {
        proof {
            let part = descs_of(descs@).take(i + 1);
            assert(part.drop_last() =~= descs_of(descs@).take(i as int));
            assert(part.last() == descs@[i as int]@);
        }
        if descs[i].fd > max {
            max = descs[i].fd;
        }
        i = i + 1;
    }
    assert(descs_of(descs@).take(i as int) =~= descs_of(descs@));
    let len: usize = if max < 0 {
        1
    } else if max > MAX_MAP_FD {
        MAX_MAP_FD as usize + 1
    } else {
        max as usize + 1
    };
    let mut table = empty_table(len);
    let ghost model = descs_of(descs@);
    // Later descriptors are entered first, so the first claim is kept.
    let mut k: usize = descs.len();
    while k > 0
        invariant
            k <= descs@.len(),
            model == descs_of(descs@),
            len == table_len(model),
            len <= MAX_MAP_FD + 1,
            table_of(table@) == Seq::new(
                len as nat,
                |i: int|
                    if i == 0 {
                        None
                    } else {
                        first_desc(model, i, k as nat)
                    },
            ),
        decreases k,
    {
        k = k - 1;
        let fd: i64 = descs[k].fd;
        let ghost before = table_of(table@);
        assert(model[k as int] == descs@[k as int]@);
        if fd > 0 && fd < len as i64 {
            let copy = descs[k].duplicate();
            let ghost c = copy@;
            assert(table@.len() == before.len());
            table.set(fd as usize, Some(copy));
            assert(table_of(table@) =~= before.update(fd as int, Some(c)));
        }
        assert(table_of(table@) =~= Seq::new(
            len as nat,
            |i: int|
                if i == 0 {
                    None
                } else {
                    first_desc(model, i, k as nat)
                },
        ));
    }
    assert(table_of(table@) =~= map_table(model));
    table
}

/// What a run of the verifier depends on.
pub struct Task {
    /// The program.
    pub insns: Seq<Insn>,
    /// The blocks in the order in which they are first visited.
    pub order: Seq<usize>,
    /// The settings.
    pub config: ConfigModel,
}

/// The progress of a run.
#[verifier::ext_equal]
pub struct WalkModel {
    /// Entry state of each block that was reached.
    pub states: Seq<Option<StateModel>>,
    /// How often the entry state of each block changed.
    pub changes: Seq<u32>,
    /// The number of changes when each block was last visited.
    pub seen: Seq<u32>,
    /// How often each block was merged.
    pub merges: Seq<usize>,
    /// Blocks that wait for a visit, in order.
    pub queue: Seq<usize>,
    /// Whether each block waits.
    pub queued: Seq<bool>,
    /// Which instructions were visited.
    pub visited: Seq<bool>,
    /// Snapshots, in the order of the visits.
    pub trace: Seq<EntryModel>,
}

impl WalkModel {
    /// A block is put in the queue, unless it waits already.
    pub open spec fn pushed(self, node: usize) -> WalkModel {
        if self.queued[node as int] {
            self
        } else {
            WalkModel {
                queue: self.queue.push(node),
                queued: self.queued.update(node as int, true),
                ..self
            }
        }
    }

    /// The first block leaves the queue.
    pub open spec fn popped(self) -> WalkModel {
        WalkModel {
            queue: self.queue.drop_first(),
            queued: self.queued.update(self.queue[0] as int, false),
            ..self
        }
    }

    /// The entry state of a block changes.
    pub open spec fn changed(self, node: usize, s: StateModel) -> WalkModel {
        WalkModel {
            states: self.states.update(node as int, Some(s)),
            changes: self.changes.update(
                node as int,
                self.changes[node as int].wrapping_add(1),
            ),
            ..self
        }.pushed(node)
    }

    /// A state flows into a block: the first one is taken as it is, later
    /// ones are joined, and beyond the threshold they are widened.
    pub open spec fn merged(self, node: usize, incoming: StateModel, threshold: usize) -> WalkModel {
        match self.states[node as int] {
            None => self.changed(node, incoming),
            Some(existing) => {
                let merges = if self.merges[node as int] < usize::MAX {
                    (self.merges[node as int] + 1) as usize
                } else {
                    usize::MAX
                };
                let counted = WalkModel {
                    merges: self.merges.update(node as int, merges),
                    ..self
                };
                let next = if merges > threshold {
                    existing.widened(incoming)
                } else {
                    existing.joined(incoming)
                };
                if next == existing {
                    counted
                } else {
                    counted.changed(node, next)
                }
            },
        }
    }

    /// A block's exit state flows along its edges from edge `i` on.
    pub open spec fn flowed(
        self,
        out: Seq<(usize, EdgeKind)>,
        i: nat,
        s: StateModel,
        last: Insn,
        threshold: usize,
    ) -> WalkModel
        decreases out.len() - i,
    {
        if i >= out.len() {
            self
        } else {
            let (target, kind) = out[i as int];
            self.merged(target, edge_state(s, kind, last), threshold).flowed(
                out,
                i + 1,
                s,
                last,
                threshold,
            )
        }
    }
}

/// The state after the instructions from `pc` to `end`.
pub open spec fn block_exit(insns: Seq<Insn>, pc: int, end: int, s: StateModel) -> Result<
    StateModel,
    VerifyError,
>
    decreases end - pc,
{
    if pc >= end {
        Ok(s)
    } else {
        match transfer(pc as usize, insns[pc], s) {
            Err(e) => Err(e),
            Ok(next) => block_exit(insns, pc + 1, end, next),
        }
    }
}

/// The listing line of an instruction.
pub open spec fn listing_line(insns: Seq<Insn>, pc: int) -> Seq<char> {
    pad_right(nat_text(slot_of(insns, pc as nat)), 4) + insns[pc].display()
}

/// The snapshot after an instruction.
pub open spec fn snapshot(insns: Seq<Insn>, pc: int, s: StateModel) -> EntryModel {
    EntryModel {
        pc,
        insns: listing_line(insns, pc),
        regs: regs_lines(s.regs),
        stack_init: full_slots(s.init, 64),
        action: action(insns[pc]),
    }
}

/// The snapshots of the instructions from `pc` to `end`.
pub open spec fn block_trace(insns: Seq<Insn>, pc: int, end: int, s: StateModel) -> Seq<EntryModel>
    decreases end - pc,
{
    if pc >= end {
        Seq::empty()
    } else {
        match transfer(pc as usize, insns[pc], s) {
            Err(_) => Seq::empty(),
            Ok(next) => seq![snapshot(insns, pc, next)] + block_trace(insns, pc + 1, end, next),
        }
    }
}

impl Task {
    /// The entry state of the program.
    pub open spec fn entry_state(self) -> StateModel {
        let table = map_table(self.config.maps);
        if self.config.packet_len is Some {
            StateModel::at_xdp_entry(self.config.packet_len, table)
        } else {
            StateModel::at_entry(table)
        }
    }

    /// The number of blocks.
    pub open spec fn block_count(self) -> nat {
        blocks(self.insns).len()
    }

    /// The start of a run: the entry block has a state, and every block that
    /// can be reached waits.
    pub open spec fn start(self) -> WalkModel {
        let n = self.block_count();
        WalkModel {
            states: Seq::new(
                n,
                |i: int|
                    if i == 0 {
                        Some(self.entry_state())
                    } else {
                        None
                    },
            ),
            changes: Seq::new(
                n,
                |i: int|
                    if i == 0 {
                        1u32
                    } else {
                        0u32
                    },
            ),
            seen: Seq::new(n, |i: int| u32::MAX),
            merges: Seq::new(n, |i: int| 0usize),
            queue: self.order,
            queued: Seq::new(n, |i: int| self.order.contains(i as usize)),
            visited: Seq::new(self.insns.len(), |i: int| false),
            trace: Seq::empty(),
        }
    }

    /// A visit of a block with an entry state.
    pub open spec fn visit(self, w: WalkModel, node: usize, s: StateModel) -> Result<
        WalkModel,
        VerifyError,
    > {
        let start = blocks(self.insns)[node as int].start.0 as int;
        let end = blocks(self.insns)[node as int].end.0 as int;
        match block_exit(self.insns, start, end, s) {
            Err(e) => Err(e),
            Ok(out) => Ok(
                WalkModel {
                    visited: Seq::new(
                        w.visited.len(),
                        |i: int| w.visited[i] || start <= i < end,
                    ),
                    trace: w.trace + block_trace(self.insns, start, end, s),
                    ..w
                }.flowed(
                    out_edges(edges(self.insns), node),
                    0,
                    out,
                    self.insns[end - 1],
                    self.config.threshold,
                ),
            ),
        }
    }

    /// One step: the first block in the queue is visited, unless its entry
    /// state was seen already.
    pub open spec fn step(self, w: WalkModel) -> Result<WalkModel, VerifyError> {
        if w.queue.len() == 0 {
            Ok(w)
        } else {
            let node = w.queue[0];
            let popped = w.popped();
            if w.seen[node as int] == w.changes[node as int] {
                Ok(popped)
            } else {
                let noted = WalkModel {
                    seen: w.seen.update(node as int, w.changes[node as int]),
                    ..popped
                };
                match w.states[node as int] {
                    None => Ok(noted),
                    Some(s) => self.visit(noted, node, s),
                }
            }
        }
    }

    /// The progress after `n` steps, or the first rejection.
    pub open spec fn after(self, n: nat) -> Result<WalkModel, VerifyError>
        decreases n,
    {
        if n == 0 {
            Ok(self.start())
        } else {
            match self.after((n - 1) as nat) {
                Err(e) => Err(e),
                Ok(w) => self.step(w),
            }
        }
    }

    /// Whether the run ends in this way: with an empty queue, or with a
    /// rejection.
    pub open spec fn ends(self, r: Result<WalkModel, VerifyError>) -> bool {
        &&& exists|n: nat| #[trigger] self.after(n) == r
        &&& r matches Ok(w) ==> w.queue.len() == 0
    }
}

/// The number of marks among the first `n`.
pub open spec fn count_marks(marks: Seq<bool>, n: nat) -> nat
    decreases n,
{
    if n == 0 {
        0
    } else {
        count_marks(marks, (n - 1) as nat) + (if marks[n - 1] {
            1nat
        } else {
            0
        })
    }
}

/// The contents of a trace.
pub open spec fn entries_of(trace: Seq<TraceEntry>) -> Seq<EntryModel> {
    trace.map_values(|e: TraceEntry| e@)
}

/// A run keeps going in one way: once it has ended it stays as it is.
pub proof fn run_stays_ended(task: Task, r: Result<WalkModel, VerifyError>, n: nat, m: nat)
    requires
        task.after(n) == r,
        r matches Ok(w) ==> w.queue.len() == 0,
        n <= m,
    ensures
        task.after(m) == r,
    decreases m,
{
    if n < m {
        run_stays_ended(task, r, n, (m - 1) as nat);
    }
}

/// The verdict on a program is determined: a run ends in one way only.
pub proof fn verdict_unique(
    task: Task,
    a: Result<WalkModel, VerifyError>,
    b: Result<WalkModel, VerifyError>,
)
    requires
        task.ends(a),
        task.ends(b),
    ensures
        a == b,
{
    let n = choose|n: nat| #[trigger] task.after(n) == a;
    let m = choose|m: nat| #[trigger] task.after(m) == b;
    if n <= m {
        run_stays_ended(task, a, n, m);
    } else {
        run_stays_ended(task, b, m, n);
    }
}

/// How far the entry states of the first `n` blocks are from the top.
spec fn total_height(states: Seq<Option<StateModel>>, n: nat) -> int
    decreases n,
{
    if n == 0 {
        0
    } else {
        total_height(states, (n - 1) as nat) + slot_height(states[n - 1])
    }
}

/// How far the entry state of a block is from the top.
spec fn slot_height(s: Option<StateModel>) -> int {
    match s {
        None => max_height() + 1,
        Some(s) => state_height(s),
    }
}

/// Heights are not negative.
proof fn lemma_total_height(states: Seq<Option<StateModel>>, n: nat)
    ensures
        0 <= total_height(states, n),
    decreases n,
{
    if n > 0 {
        lemma_total_height(states, (n - 1) as nat);
        if let Some(s) = states[n - 1] {
            state_height_bounded(s);
        }
    }
}

/// The height after one entry state changed.
proof fn lemma_height_update(
    states: Seq<Option<StateModel>>,
    n: nat,
    node: int,
    s: Option<StateModel>,
)
    requires
        n <= states.len(),
        0 <= node < states.len(),
    ensures
        total_height(states.update(node, s), n) == total_height(states, n) + (if node < n {
            slot_height(s) - slot_height(states[node])
        } else {
            0
        }),
    decreases n,
{
    if n > 0 {
        lemma_height_update(states, (n - 1) as nat, node, s);
    }
}

impl WalkModel {
    /// Whether the parts have their sizes, and the states agree on what no
    /// instruction changes.
    spec fn shaped(self, n: nat, insns: nat, table: Seq<Option<DescModel>>) -> bool {
        &&& self.states.len() == n
        &&& self.changes.len() == n
        &&& self.seen.len() == n
        &&& self.merges.len() == n
        &&& self.queued.len() == n
        &&& self.visited.len() == insns
        &&& forall|i: int| 0 <= i < self.queue.len() ==> #[trigger] self.queue[i] < n
        &&& forall|i: int|
            0 <= i < n ==> (#[trigger] self.states[i] matches Some(s) ==> s.wf() && s.maps == table)
    }

    /// How far the run is from its end: the entry states, and then the queue.
    spec fn height(self) -> int {
        total_height(self.states, self.states.len())
    }
}

/// A merge keeps the shape, and puts a block in the queue only where an entry
/// state moves up.
proof fn lemma_merge_progress(
    w: WalkModel,
    node: usize,
    incoming: StateModel,
    threshold: usize,
    n: nat,
    insns: nat,
    table: Seq<Option<DescModel>>,
)
    requires
        w.shaped(n, insns, table),
        node < n,
        incoming.wf(),
        incoming.maps == table,
    ensures
        w.merged(node, incoming, threshold).shaped(n, insns, table),
        w.merged(node, incoming, threshold).height() < w.height() || (w.merged(
            node,
            incoming,
            threshold,
        ).height() == w.height() && w.merged(node, incoming, threshold).queue == w.queue),
{
    let next = w.merged(node, incoming, threshold);
    match w.states[node as int] {
        None => {
            state_height_bounded(incoming);
            lemma_height_update(w.states, n, node as int, Some(incoming));
        },
        Some(existing) => {
            state_merge_ascends(existing, incoming);
            lemma_height_update(w.states, n, node as int, Some(existing.joined(incoming)));
            lemma_height_update(w.states, n, node as int, Some(existing.widened(incoming)));
        },
    }
}

/// The flow along all edges keeps the shape, and puts blocks in the queue
/// only where an entry state moves up.
proof fn lemma_flow_progress(
    w: WalkModel,
    out: Seq<(usize, EdgeKind)>,
    i: nat,
    s: StateModel,
    last: Insn,
    threshold: usize,
    n: nat,
    insns: nat,
    table: Seq<Option<DescModel>>,
)
    requires
        w.shaped(n, insns, table),
        forall|k: int| 0 <= k < out.len() ==> (#[trigger] out[k]).0 < n,
        s.wf(),
        s.maps == table,
        last.valid(),
    ensures
        w.flowed(out, i, s, last, threshold).shaped(n, insns, table),
        w.flowed(out, i, s, last, threshold).height() < w.height() || (w.flowed(
            out,
            i,
            s,
            last,
            threshold,
        ).height() == w.height() && w.flowed(out, i, s, last, threshold).queue == w.queue),
    decreases out.len() - i,
{
    if i < out.len() {
        let (target, kind) = out[i as int];
        edge_keeps_shape(s, kind, last);
        let incoming = edge_state(s, kind, last);
        lemma_merge_progress(w, target, incoming, threshold, n, insns, table);
        lemma_flow_progress(
            w.merged(target, incoming, threshold),
            out,
            i + 1,
            s,
            last,
            threshold,
            n,
            insns,
            table,
        );
    }
}

/// A block that is passed keeps the sizes and the maps of the state.
proof fn lemma_block_shape(insns: Seq<Insn>, pc: int, end: int, s: StateModel)
    requires
        s.wf(),
        0 <= pc,
        end <= insns.len(),
        forall|i: int| 0 <= i < insns.len() ==> (#[trigger] insns[i]).valid(),
        block_exit(insns, pc, end, s) is Ok,
    ensures
        block_exit(insns, pc, end, s)->Ok_0.wf(),
        block_exit(insns, pc, end, s)->Ok_0.maps == s.maps,
    decreases end - pc,
{
    if pc < end {
        transfer_keeps_shape(pc as usize, insns[pc], s);
        lemma_block_shape(insns, pc + 1, end, transfer(pc as usize, insns[pc], s)->Ok_0);
    }
}

/// Setting a mark that was not set raises the count by one.
proof fn lemma_count_update(marks: Seq<bool>, n: nat, i: int)
    requires
        0 <= i < marks.len(),
        n <= marks.len(),
        !marks[i],
    ensures
        count_marks(marks.update(i, true), n) == count_marks(marks, n) + (if i < n {
            1nat
        } else {
            0
        }),
    decreases n,
{
    if n > 0 {
        lemma_count_update(marks, (n - 1) as nat, i);
    }
}

/// A count is at most the number of marks, and less where a mark is missing.
proof fn lemma_count_bound(marks: Seq<bool>, n: nat)
    requires
        n <= marks.len(),
    ensures
        count_marks(marks, n) <= n,
        (exists|i: int| 0 <= i < n && !#[trigger] marks[i]) ==> count_marks(marks, n) < n,
    decreases n,
{
    if n > 0 {
        lemma_count_bound(marks, (n - 1) as nat);
    }
}

/// No marks, no count.
proof fn lemma_count_none(marks: Seq<bool>, n: nat)
    requires
        n <= marks.len(),
        forall|i: int| 0 <= i < n ==> !#[trigger] marks[i],
    ensures
        count_marks(marks, n) == 0,
    decreases n,
{
    if n > 0 {
        lemma_count_none(marks, (n - 1) as nat);
    }
}

/// The entry states that a vector holds.
spec fn states_of(states: Seq<Option<VerifierState>>) -> Seq<Option<StateModel>> {
    states.map_values(
        |s: Option<VerifierState>|
            match s {
                Some(s) => Some(s@),
                None => None,
            },
    )
}

/// The progress of a run.
struct Walk {
    states: Vec<Option<VerifierState>>,
    changes: Vec<u32>,
    seen: Vec<u32>,
    merges: Vec<usize>,
    queue: VecDeque<usize>,
    queued: Vec<bool>,
    visited: Vec<bool>,
    total: usize,
    trace: Vec<TraceEntry>,
    log: Ghost<Seq<EntryModel>>,
}

impl View for Walk {
    type V = WalkModel;

    closed spec fn view(&self) -> WalkModel {
        WalkModel {
            states: states_of(self.states@),
            changes: self.changes@,
            seen: self.seen@,
            merges: self.merges@,
            queue: self.queue@,
            queued: self.queued@,
            visited: self.visited@,
            trace: self.log@,
        }
    }
}

impl Walk {
    /// Puts a block in the queue, unless it waits already.
    fn push(&mut self, node: usize)
        requires
            node < old(self).queued@.len(),
        ensures
            final(self)@ == old(self)@.pushed(node),
            final(self).total == old(self).total,
            final(self).trace == old(self).trace,
            final(self).visited == old(self).visited,
            final(self).log == old(self).log,
    {
        if !self.queued[node] {
            self.queued.set(node, true);
            self.queue.push_back(node);
        }
        assert(self@ =~= old(self)@.pushed(node));
    }

    /// Takes the first block from the queue.
    fn pop(&mut self) -> (r: Option<usize>)
        requires
            forall|i: int|
                0 <= i < old(self).queue@.len() ==> #[trigger] old(self).queue@[i]
                    < old(self).queued@.len(),
        ensures
            match r {
                None => old(self).queue@.len() == 0 && final(self)@ == old(self)@,
                Some(node) => {
                    &&& old(self).queue@.len() > 0
                    &&& node == old(self).queue@[0]
                    &&& final(self)@ == old(self)@.popped()
                },
            },
            final(self).total == old(self).total,
            final(self).trace == old(self).trace,
            final(self).visited == old(self).visited,
            final(self).log == old(self).log,
    {
        match self.queue.pop_front() {
            None => None,
            Some(node) => {
                self.queued.set(node, false);
                assert(self@ =~= old(self)@.popped());
                Some(node)
            },
        }
    }

    /// Sets a new entry state and queues the block.
    fn change(&mut self, node: usize, state: VerifierState)
        requires
            node < old(self).states@.len(),
            node < old(self).changes@.len(),
            node < old(self).queued@.len(),
        ensures
            final(self)@ == old(self)@.changed(node, state@),
            final(self).total == old(self).total,
            final(self).trace == old(self).trace,
            final(self).visited == old(self).visited,
            final(self).log == old(self).log,
    {
        let ghost s = state@;
        let ghost before = self@;
        self.states.set(node, Some(state));
        let next: u32 = self.changes[node].wrapping_add(1);
        self.changes.set(node, next);
        assert(self@.states =~= before.states.update(node as int, Some(s)));
        self.push(node);
    }

    /// Merges a state into the entry state of a block.
    fn merge_successor(&mut self, target: usize, incoming: VerifierState, threshold: usize)
        requires
            target < old(self).states@.len(),
            target < old(self).changes@.len(),
            target < old(self).merges@.len(),
            target < old(self).queued@.len(),
        ensures
            final(self)@ == old(self)@.merged(target, incoming@, threshold),
            final(self).total == old(self).total,
            final(self).trace == old(self).trace,
            final(self).visited == old(self).visited,
            final(self).log == old(self).log,
    {
        assert(self@.states[target as int] == (match self.states@[target as int] {
            Some(s) => Some(s@),
            None => None,
        }));
        match &self.states[target] {
            None => {
                self.change(target, incoming);
            },
            Some(existing) => {
                let merges: usize = if self.merges[target] < usize::MAX {
                    self.merges[target] + 1
                } else {
                    usize::MAX
                };
                let mut next = existing.duplicate();
                let changed = if merges > threshold {
                    next.widen_assign(&incoming)
                } else {
                    next.join_assign(&incoming)
                };
                self.merges.set(target, merges);
                if changed {
                    self.change(target, next);
                }
            },
        }
    }
}

/// Renders the snapshot after an instruction.
fn trace_entry(insns: &[Insn], cfg: &Cfg, pc: usize, state: &VerifierState) -> (r: TraceEntry)
    requires
        pc < insns@.len(),
        cfg.describes(insns@),
    ensures
        r@ == snapshot(insns@, pc as int, state@),
{
    let insn = insns[pc];
    let mut line = String::new();
    proof {
        lemma_slot_monotone(insns@, pc as nat, insns@.len());
    }
    push_gutter(&mut line, cfg.slot_at(Pc(pc)).0 as u64);
    line.append(insn.to_string().as_str());
    let words = pack_marks(&state.stack_init);
    let r = TraceEntry {
        pc,
        insns: line,
        regs: format_regs(&state.regs),
        stack_init: format_stack(&words),
        action: describe_action(&insn),
    };
    assert(line@ =~= listing_line(insns@, pc as int));
    assert(r@ =~= snapshot(insns@, pc as int, state@));
    r
}

/// The blocks lie inside the program, and edges lead to blocks.
pub proof fn lemma_graph_in_bounds(insns: Seq<Insn>, cfg: &Cfg)
    requires
        cfg.describes(insns),
        insns.len() <= usize::MAX,
    ensures
        insns.len() > 0,
        blocks(insns).len() > 0,
        forall|k: int|
            0 <= k < blocks(insns).len() ==> (#[trigger] blocks(insns)[k]).start.0 < blocks(
                insns,
            )[k].end.0 <= insns.len(),
        forall|node: usize, i: int|
            0 <= i < out_edges(edges(insns), node).len() ==> (#[trigger] out_edges(
                edges(insns),
                node,
            )[i]).0 < blocks(insns).len(),
        forall|i: int| 0 <= i < cfg.order().len() ==> #[trigger] cfg.order()[i] < blocks(insns).len(),
{
    blocks_partition_program(insns);
    assert forall|node: usize, i: int|
        0 <= i < out_edges(edges(insns), node).len() implies (#[trigger] out_edges(
        edges(insns),
        node,
    )[i]).0 < blocks(insns).len() by {
        lemma_out_edges(edges(insns), node, i);
        let (b, kind) = out_edges(edges(insns), node)[i];
        edges_mirror_control(insns, node, b, kind);
    }
    assert forall|i: int| 0 <= i < cfg.order().len() implies #[trigger] cfg.order()[i] < blocks(
        insns,
    ).len() by {
        let n = cfg.order()[i];
        assert(cfg.order().contains(n));
        if n != 0 {
            lemma_reachable_target(edges(insns), 0, n);
            let k = choose|k: int| 0 <= k < edges(insns).len() && (#[trigger] edges(insns)[k]).1 == n;
            let (a, b, kind) = edges(insns)[k];
            assert(edges(insns).contains((a, b, kind)));
            edges_mirror_control(insns, a, b, kind);
        }
    }
}

impl Walk {
    /// Whether the counters match the model.
    spec fn counted(&self, collect: bool) -> bool {
        &&& self.total == count_marks(self.visited@, self.visited@.len())
        &&& collect ==> entries_of(self.trace@) == self.log@
        &&& !collect ==> self.trace@.len() == 0
    }

    /// Passes one instruction.
    fn pass_insn(
        &mut self,
        insns: &[Insn],
        cfg: &Cfg,
        pc: usize,
        state: &mut VerifierState,
        collect_trace: bool,
    ) -> (r: Result<(), VerifyError>)
        requires
            cfg.describes(insns@),
            pc < insns@.len(),
            insns@[pc as int].valid(),
            old(self).visited@.len() == insns@.len(),
            old(self).counted(collect_trace),
        ensures
            final(self).counted(collect_trace),
            match transfer(pc, insns@[pc as int], old(state)@) {
                Err(e) => r == Err::<(), VerifyError>(e) && final(state)@ == old(state)@,
                Ok(next) => r is Ok && final(state)@ == next && final(self)@ == (WalkModel {
                    visited: old(self)@.visited.update(pc as int, true),
                    trace: old(self)@.trace.push(snapshot(insns@, pc as int, next)),
                    ..old(self)@
                }),
            },
    {
        let total: usize = insns.len();
        let helpers = HelperSignatureRegistry::built_in();
        if let Err(e) = check_and_transfer(pc, &insns[pc], state, helpers) {
            return Err(e);
        }
        let ghost marks = self.visited@;
        if !self.visited[pc] {
            proof {
                lemma_count_update(marks, marks.len(), pc as int);
                lemma_count_bound(marks, marks.len());
            }
            self.visited.set(pc, true);
            self.total = self.total + 1;
        }
        assert(self.visited@ =~= marks.update(pc as int, true));
        let ghost entry = snapshot(insns@, pc as int, state@);
        if collect_trace {
            let ghost before = self.trace@;
            let line = trace_entry(insns, cfg, pc, state);
            self.trace.push(line);
            assert(entries_of(self.trace@) =~= entries_of(before).push(entry));
        }
        proof {
            self.log@ = self.log@.push(entry);
        }
        Ok(())
    }

    /// Passes the instructions of a block.
    fn pass_block(
        &mut self,
        insns: &[Insn],
        cfg: &Cfg,
        start: usize,
        end: usize,
        state: &mut VerifierState,
        collect_trace: bool,
    ) -> (r: Result<(), VerifyError>)
        requires
            cfg.describes(insns@),
            forall|i: int| 0 <= i < insns@.len() ==> (#[trigger] insns@[i]).valid(),
            start <= end <= insns@.len(),
            old(self).visited@.len() == insns@.len(),
            old(self).counted(collect_trace),
        ensures
            final(self).counted(collect_trace),
            match block_exit(insns@, start as int, end as int, old(state)@) {
                Err(e) => r == Err::<(), VerifyError>(e),
                Ok(out) => r is Ok && final(state)@ == out && final(self)@ == (WalkModel {
                    visited: Seq::new(
                        old(self)@.visited.len(),
                        |i: int| old(self)@.visited[i] || start <= i < end,
                    ),
                    trace: old(self)@.trace + block_trace(
                        insns@,
                        start as int,
                        end as int,
                        old(state)@,
                    ),
                    ..old(self)@
                }),
            },
    {
        let ghost s0 = state@;
        let ghost w0 = self@;
        let mut pc: usize = start;
        assert(self@ =~= (WalkModel {
            visited: Seq::new(w0.visited.len(), |i: int| w0.visited[i] || start <= i < pc),
            trace: self@.trace,
            ..w0
        }));
        while pc < end
            invariant
                cfg.describes(insns@),
                forall|i: int| 0 <= i < insns@.len() ==> (#[trigger] insns@[i]).valid(),
                start <= pc <= end <= insns@.len(),
                self.counted(collect_trace),
                self.visited@.len() == insns@.len(),
                s0 == old(state)@,
                w0 == old(self)@,
                block_exit(insns@, start as int, end as int, s0) == block_exit(
                    insns@,
                    pc as int,
                    end as int,
                    state@,
                ),
                w0.trace + block_trace(insns@, start as int, end as int, s0) == self@.trace
                    + block_trace(insns@, pc as int, end as int, state@),
                self@ == (WalkModel {
                    visited: Seq::new(
                        w0.visited.len(),
                        |i: int| w0.visited[i] || start <= i < pc,
                    ),
                    trace: self@.trace,
                    ..w0
                }),
                w0.visited.len() == insns@.len(),
            decreases end - pc,
        {
            let ghost before = state@;
            let ghost w = self@;
            if let Err(e) = self.pass_insn(insns, cfg, pc, state, collect_trace) {
                return Err(e);
            }
            proof {
                let entry = snapshot(insns@, pc as int, state@);
                let rest = block_trace(insns@, pc + 1, end as int, state@);
                assert(block_trace(insns@, pc as int, end as int, before) == seq![entry] + rest);
                assert(w.trace + (seq![entry] + rest) =~= w.trace.push(entry) + rest);
            }
            pc = pc + 1;
            assert(self@.visited =~= Seq::new(
                w0.visited.len(),
                |i: int| w0.visited[i] || start <= i < pc,
            ));
        }
        assert(self@.trace + Seq::<EntryModel>::empty() =~= self@.trace);
        Ok(())
    }

    /// Sends the exit state of a block along its edges.
    fn flow(&mut self, out: &Vec<(usize, EdgeKind)>, state: &VerifierState, last: &Insn, threshold: usize)
        requires
            last.valid(),
            old(self)@.states.len() == old(self)@.changes.len(),
            old(self)@.states.len() == old(self)@.merges.len(),
            old(self)@.states.len() == old(self)@.queued.len(),
            forall|k: int| 0 <= k < out@.len() ==> (#[trigger] out@[k]).0 < old(self)@.states.len(),
        ensures
            final(self)@ == old(self)@.flowed(out@, 0, state@, *last, threshold),
            final(self).total == old(self).total,
            final(self).trace == old(self).trace,
            final(self).visited == old(self).visited,
            final(self).log == old(self).log,
    {
        let mut i: usize = 0;
        let ghost w0 = self@;
        while i < out.len()
            invariant
                i <= out@.len(),
                last.valid(),
                self@.states.len() == w0.states.len(),
                self@.states.len() == self@.changes.len(),
                self@.states.len() == self@.merges.len(),
                self@.states.len() == self@.queued.len(),
                forall|k: int| 0 <= k < out@.len() ==> (#[trigger] out@[k]).0 < w0.states.len(),
                w0.flowed(out@, 0, state@, *last, threshold) == self@.flowed(
                    out@,
                    i as nat,
                    state@,
                    *last,
                    threshold,
                ),
                self.total == old(self).total,
                self.trace == old(self).trace,
                self.visited == old(self).visited,
                self.log == old(self).log,
            decreases out@.len() - i,
        {
            let (target, kind) = out[i];
            let mut incoming = state.duplicate();
            refine_edge(&mut incoming, kind, last);
            self.merge_successor(target, incoming, threshold);
            i = i + 1;
        }
    }
}

/// What a run on a program depends on.
pub open spec fn task_of(insns: Seq<Insn>, cfg: &Cfg, config: ConfigModel) -> Task {
    Task { insns, order: cfg.order(), config }
}

/// The state of the entry block.
fn entry_state(config: &VerifyConfig) -> (r: VerifierState)
    ensures
        forall|task: Task| #![trigger task.entry_state()] task.config == config@ ==> r@ == task.entry_state(),
{
    let table = build_map_table(config);
    match config.packet_len {
        Some(_) => VerifierState::initial_xdp(config.packet_len, table),
        None => VerifierState::initial_with_maps(table),
    }
}

impl Walk {
    /// Starts a run: the entry block has a state, and every block that can
    /// be reached waits in the queue.
    fn begin(insns: &[Insn], cfg: &Cfg, config: &VerifyConfig) -> (r: Walk)
        requires
            cfg.describes(insns@),
        ensures
            r@ == task_of(insns@, cfg, config@).start(),
            r.counted(true),
            r.counted(false),
    {
        let ghost task = task_of(insns@, cfg, config@);
        let total: usize = insns.len();
        let n: usize = cfg_node_count(&cfg.graph);
        proof {
            lemma_graph_in_bounds(insns@, cfg);
        }
        let mut states: Vec<Option<VerifierState>> = Vec::with_capacity(n);
        let mut changes: Vec<u32> = Vec::with_capacity(n);
        let mut seen: Vec<u32> = Vec::with_capacity(n);
        let mut merges: Vec<usize> = Vec::with_capacity(n);
        let mut queued: Vec<bool> = Vec::with_capacity(n);
        states.push(Some(entry_state(config)));
        changes.push(1);
        seen.push(u32::MAX);
        merges.push(0);
        queued.push(false);
        assert(states_of(states@) =~= seq![Some(task.entry_state())]);
        let mut i: usize = 1;
        while i < n
            invariant
                1 <= i <= n,
                states@.len() == i,
                changes@.len() == i,
                seen@.len() == i,
                merges@.len() == i,
                queued@.len() == i,
                states_of(states@)[0] == Some(task.entry_state()),
                changes@[0] == 1,
                forall|k: int| 0 < k < i ==> #[trigger] states@[k] is None,
                forall|k: int| 0 < k < i ==> #[trigger] changes@[k] == 0,
                forall|k: int| 0 <= k < i ==> #[trigger] seen@[k] == u32::MAX,
                forall|k: int| 0 <= k < i ==> #[trigger] merges@[k] == 0,
                forall|k: int| 0 <= k < i ==> !#[trigger] queued@[k],
            decreases n - i,
        {
            states.push(None);
            changes.push(0);
            seen.push(u32::MAX);
            merges.push(0);
            queued.push(false);
            i = i + 1;
        }
        let mut visited: Vec<bool> = Vec::with_capacity(total);
        while visited.len() < total
            invariant
                visited@.len() <= total,
                forall|k: int| 0 <= k < visited@.len() ==> !#[trigger] visited@[k],
            decreases total - visited@.len(),
        {
            visited.push(false);
        }
        let mut walk = Walk {
            states,
            changes,
            seen,
            merges,
            queue: VecDeque::with_capacity(n),
            queued,
            visited,
            total: 0,
            trace: Vec::new(),
            log: Ghost(Seq::empty()),
        };
        let ghost start = task.start();
        proof {
            lemma_count_none(walk.visited@, walk.visited@.len());
            assert(walk@.states =~= start.states);
            assert(walk@.visited =~= start.visited);
            assert(walk@.changes =~= start.changes);
            assert(walk@.seen =~= start.seen);
            assert(walk@.merges =~= start.merges);
            assert(entries_of(walk.trace@) =~= walk.log@);
        }
        let order = cfg.rpo();
        let mut k: usize = 0;
        while k < order.len()
            invariant
                k <= order@.len(),
                order@ == cfg.order(),
                order@.no_duplicates(),
                n == start.states.len(),
                forall|j: int| 0 <= j < order@.len() ==> #[trigger] order@[j] < n,
                walk@.queued.len() == n,
                walk@.queue == order@.take(k as int),
                forall|j: int|
                    0 <= j < n ==> #[trigger] walk@.queued[j] == order@.take(k as int).contains(
                        j as usize,
                    ),
                walk@ == (WalkModel { queue: walk@.queue, queued: walk@.queued, ..start }),
                walk.total == 0,
                walk.trace@.len() == 0,
                walk.log@.len() == 0,
                count_marks(walk.visited@, walk.visited@.len()) == 0,
            decreases order@.len() - k,
        {
            let node: usize = order[k];
            proof {
                let part = order@.take(k as int);
                let next = order@.take(k + 1);
                assert(next =~= part.push(node));
                if part.contains(node) {
                    let j = part.index_of(node);
                    assert(order@[j] == order@[k as int]);
                }
                assert forall|x: usize| #[trigger] next.contains(x) == (part.contains(x) || x
                    == node) by {
                    if part.contains(x) {
                        let j = part.index_of(x);
                        assert(next[j] == x);
                    }
                    if x == node {
                        assert(next[k as int] == x);
                    }
                }
            }
            walk.push(node);
            k = k + 1;
        }
        proof {
            assert(order@.take(k as int) =~= order@);
            assert(walk@.queued =~= start.queued);
            assert(walk@ =~= start);
            assert(entries_of(walk.trace@) =~= walk.log@);
        }
        walk
    }

    /// Visits the first block in the queue.
    fn advance(
        &mut self,
        insns: &[Insn],
        cfg: &Cfg,
        config: &VerifyConfig,
        collect_trace: bool,
        node: usize,
    ) -> (r: Result<(), VerifyError>)
        requires
            cfg.describes(insns@),
            forall|i: int| 0 <= i < insns@.len() ==> (#[trigger] insns@[i]).valid(),
            old(self)@.shaped(
                blocks(insns@).len(),
                insns@.len(),
                map_table(config@.maps),
            ),
            old(self).counted(collect_trace),
            node < blocks(insns@).len(),
        ensures
            final(self).counted(collect_trace),
            ({
                let task = task_of(insns@, cfg, config@);
                let w = old(self)@;
                let noted = WalkModel {
                    seen: w.seen.update(node as int, w.changes[node as int]),
                    ..w
                };
                if w.seen[node as int] == w.changes[node as int] {
                    r is Ok && final(self)@ == w
                } else {
                    match w.states[node as int] {
                        None => r is Ok && final(self)@ == noted,
                        Some(s) => match task.visit(noted, node, s) {
                            Err(e) => r == Err::<(), VerifyError>(e),
                            Ok(next) => r is Ok && final(self)@ == next,
                        },
                    }
                }
            }),
    {
        let total: usize = insns.len();
        proof {
            lemma_graph_in_bounds(insns@, cfg);
        }
        if self.seen[node] == self.changes[node] {
            return Ok(());
        }
        let seen: u32 = self.changes[node];
        self.seen.set(node, seen);
        assert(self@.states[node as int] == (match self.states@[node as int] {
            Some(s) => Some(s@),
            None => None,
        }));
        let mut current = match &self.states[node] {
            None => {
                return Ok(());
            },
            Some(s) => s.duplicate(),
        };
        let ghost s = current@;
        let block = cfg_block(&cfg.graph, node);
        let (start, end) = (block.start.0, block.end.0);
        assert(blocks(insns@)[node as int] == block);
        if let Err(e) = self.pass_block(insns, cfg, start, end, &mut current, collect_trace) {
            return Err(e);
        }
        let out = cfg_out_edges(&cfg.graph, node);
        self.flow(&out, &current, &insns[end - 1], config.widening_threshold);
        Ok(())
    }
}

/// A step keeps the shape and brings the run nearer to its end.
proof fn lemma_step_progress(task: Task, w: WalkModel, cfg: &Cfg)
    requires
        cfg.describes(task.insns),
        task.insns.len() <= usize::MAX,
        forall|i: int| 0 <= i < task.insns.len() ==> (#[trigger] task.insns[i]).valid(),
        w.shaped(task.block_count(), task.insns.len(), map_table(task.config.maps)),
        w.queue.len() > 0,
        task.step(w) is Ok,
    ensures
        task.step(w)->Ok_0.shaped(
            task.block_count(),
            task.insns.len(),
            map_table(task.config.maps),
        ),
        task.step(w)->Ok_0.height() < w.height() || (task.step(w)->Ok_0.height() == w.height()
            && task.step(w)->Ok_0.queue.len() < w.queue.len()),
        0 <= task.step(w)->Ok_0.height(),
{
    let node = w.queue[0];
    let popped = w.popped();
    let next = task.step(w)->Ok_0;
    let table = map_table(task.config.maps);
    assert(forall|i: int| 0 <= i < popped.queue.len() ==> popped.queue[i] == w.queue[i + 1]);
    lemma_graph_in_bounds(task.insns, cfg);
    if w.seen[node as int] != w.changes[node as int] && w.states[node as int] is Some {
        let s = w.states[node as int]->0;
        let start = blocks(task.insns)[node as int].start.0 as int;
        let end = blocks(task.insns)[node as int].end.0 as int;
        lemma_block_shape(task.insns, start, end, s);
        let noted = WalkModel {
            seen: w.seen.update(node as int, w.changes[node as int]),
            ..popped
        };
        let passed = WalkModel {
            visited: Seq::new(noted.visited.len(), |i: int| noted.visited[i] || start <= i < end),
            trace: noted.trace + block_trace(task.insns, start, end, s),
            ..noted
        };
        lemma_flow_progress(
            passed,
            out_edges(edges(task.insns), node),
            0,
            block_exit(task.insns, start, end, s)->Ok_0,
            task.insns[end - 1],
            task.config.threshold,
            task.block_count(),
            task.insns.len(),
            table,
        );
    }
    lemma_total_height(next.states, next.states.len());
}

/// The start of a run has its shape.
proof fn lemma_start_shaped(task: Task, cfg: &Cfg)
    requires
        cfg.describes(task.insns),
        task.insns.len() <= usize::MAX,
        task.order == cfg.order(),
    ensures
        task.start().shaped(
            task.block_count(),
            task.insns.len(),
            map_table(task.config.maps),
        ),
{
    lemma_graph_in_bounds(task.insns, cfg);
}

/// The worklist. Ends because entry states only move up in an order of
/// finite height.
fn verify_core(insns: &[Insn], cfg: &Cfg, config: &VerifyConfig, collect_trace: bool) -> (r: Result<
    VerifiedProgram,
    VerifyError,
>)
    requires
        cfg.describes(insns@),
        forall|i: int| 0 <= i < insns@.len() ==> (#[trigger] insns@[i]).valid(),
    ensures
        match r {
            Ok(p) => exists|w: WalkModel|
                {
                    &&& #[trigger] task_of(insns@, cfg, config@).ends(Ok(w))
                    &&& p.total_pc == count_marks(w.visited, insns@.len())
                    &&& entries_of(p.trace@) == (if collect_trace {
                        w.trace
                    } else {
                        Seq::empty()
                    })
                },
            Err(e) => task_of(insns@, cfg, config@).ends(Err(e)),
        },
{
    let ghost task = task_of(insns@, cfg, config@);
    let ghost n = task.block_count();
    let ghost table = map_table(config@.maps);
    let total: usize = insns.len();
    let mut walk = Walk::begin(insns, cfg, config);
    let ghost mut steps: nat = 0;
    proof {
        lemma_start_shaped(task, cfg);
        lemma_total_height(walk@.states, walk@.states.len());
    }
    while walk.queue.len() > 0
        invariant
            cfg.describes(insns@),
            total == insns@.len(),
            forall|i: int| 0 <= i < insns@.len() ==> (#[trigger] insns@[i]).valid(),
            task == task_of(insns@, cfg, config@),
            n == task.block_count(),
            table == map_table(config@.maps),
            task.after(steps) == Ok::<WalkModel, VerifyError>(walk@),
            walk@.shaped(n, insns@.len(), table),
            walk.counted(collect_trace),
            0 <= walk@.height(),
        decreases walk@.height(), walk@.queue.len(),
    {
        let ghost w = walk@;
        if let Some(node) = walk.pop() {
            assert(w.queue[0] == node);
            assert(forall|i: int| 0 <= i < walk@.queue.len() ==> walk@.queue[i] == w.queue[i + 1]);
            assert(walk@.shaped(n, insns@.len(), table));
            let visit = walk.advance(insns, cfg, config, collect_trace, node);
            assert(task.after(steps + 1) == task.step(w));
            if let Err(e) = visit {
                assert(task.step(w) == Err::<WalkModel, VerifyError>(e));
                return Err(e);
            }
            proof {
                assert(task.step(w) == Ok::<WalkModel, VerifyError>(walk@));
                lemma_step_progress(task, w, cfg);
                steps = steps + 1;
            }
        }
    }
    assert(task.ends(Ok(walk@)));
    assert(!collect_trace ==> entries_of(walk.trace@) =~= Seq::empty());
    Ok(VerifiedProgram { trace: walk.trace, total_pc: walk.total })
}

/// The marks are no more than the places.
proof fn lemma_few_marks(marks: Seq<bool>, n: nat)
    ensures
        count_marks(marks, n) <= n,
    decreases n,
{
    if n > 0 {
        lemma_few_marks(marks, (n - 1) as nat);
    }
}

/// Verifies a program with the default settings. No trace is kept. What it
/// accepts never faults on memory.
pub fn verify(insns: &[Insn], cfg: &Cfg) -> (r: Result<VerifiedProgram, VerifyError>)
    requires
        cfg.describes(insns@),
        forall|i: int| 0 <= i < insns@.len() ==> (#[trigger] insns@[i]).valid(),
    ensures
        ({
            let config = ConfigModel { threshold: 16, maps: Seq::empty(), packet_len: None };
            match r {
                Ok(p) => p.trace@.len() == 0 && exists|w: WalkModel|
                    {
                        &&& #[trigger] task_of(insns@, cfg, config).ends(Ok(w))
                        &&& p.total_pc == count_marks(w.visited, insns@.len())
                    },
                Err(e) => task_of(insns@, cfg, config).ends(Err(e)),
            }
        }),
        r matches Ok(p) ==> memory_safe(insns@) && p.total_pc <= insns@.len(),
{
    let config = VerifyConfig::default();
    let r = verify_with_config(insns, cfg, &config);
    proof {
        if r is Ok {
            let w = choose|w: WalkModel|
                {
                    &&& #[trigger] task_of(insns@, cfg, config@).ends(Ok(w))
                    &&& r->Ok_0.total_pc == count_marks(w.visited, insns@.len())
                };
            accepted_plain_programs_are_memory_safe(insns@, *cfg, config@, w);
            lemma_few_marks(w.visited, insns@.len());
        }
    }
    r
}

/// Verifies a program. No trace is kept. What it accepts does not fault on
/// memory on the machines that the settings describe: see [`safe_under`].
pub fn verify_with_config(insns: &[Insn], cfg: &Cfg, config: &VerifyConfig) -> (r: Result<
    VerifiedProgram,
    VerifyError,
>)
    requires
        cfg.describes(insns@),
        forall|i: int| 0 <= i < insns@.len() ==> (#[trigger] insns@[i]).valid(),
    ensures
        match r {
            Ok(p) => p.trace@.len() == 0 && exists|w: WalkModel|
                {
                    &&& #[trigger] task_of(insns@, cfg, config@).ends(Ok(w))
                    &&& p.total_pc == count_marks(w.visited, insns@.len())
                },
            Err(e) => task_of(insns@, cfg, config@).ends(Err(e)),
        },
        r is Ok ==> safe_under(insns@, config@),
{
    let r = verify_core(insns, cfg, config, false);
    if let Ok(p) = &r {
        assert(entries_of(p.trace@).len() == p.trace@.len());
        proof {
            let w = choose|w: WalkModel| #[trigger] task_of(insns@, cfg, config@).ends(Ok(w));
            accepted_programs_are_safe(insns@, *cfg, config@, w);
        }
    }
    r
}

/// Verifies a program and keeps a snapshot per visited instruction. What it
/// accepts does not fault on memory on the machines that the settings
/// describe: see [`safe_under`].
pub fn verify_traced(insns: &[Insn], cfg: &Cfg, config: &VerifyConfig) -> (r: Result<
    VerifiedProgram,
    VerifyError,
>)
    requires
        cfg.describes(insns@),
        forall|i: int| 0 <= i < insns@.len() ==> (#[trigger] insns@[i]).valid(),
    ensures
        match r {
            Ok(p) => exists|w: WalkModel|
                {
                    &&& #[trigger] task_of(insns@, cfg, config@).ends(Ok(w))
                    &&& p.total_pc == count_marks(w.visited, insns@.len())
                    &&& entries_of(p.trace@) == w.trace
                },
            Err(e) => task_of(insns@, cfg, config@).ends(Err(e)),
        },
        r is Ok ==> safe_under(insns@, config@),
{
    let r = verify_core(insns, cfg, config, true);
    proof {
        if r is Ok {
            let w = choose|w: WalkModel| #[trigger] task_of(insns@, cfg, config@).ends(Ok(w));
            accepted_programs_are_safe(insns@, *cfg, config@, w);
        }
    }
    r
}

} // verus!
