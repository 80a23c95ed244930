//! The texts and decisions of the command line: listings, trace lines,
//! verdicts, and the optimization pipeline.
use vstd::prelude::*;
use vstd::string::StringExecFns;

use crate::cfg::{
    blocks, blocks_partition_program, build_cfg, cfg_error, edges, lemma_leaders, numbered,
    visit_order, Cfg, CfgError,
};
use crate::disasm::{disassemble, disassemble_from, listing};
use crate::elf::{ElfProgram, ProgramModel};
use crate::graph::{cfg_block, cfg_edge_count, cfg_node_count};
use crate::isa::encode::{encode_program, encoded, EncodeError};
use crate::isa::insn::Insn;
use crate::slots::slot_of;
use crate::ssa::construct::build_ssa;
use crate::ssa::form::unknown_from;
use crate::ssa::lower::lower;
use crate::ssa::opt::optimize;
use crate::ssa::proper::swaps_by_immediate;
use crate::ssa::sound::{ends_alike, optimized_code_ends_alike};
use crate::ssa::{Prog, SsaError};
use crate::text::{int_text, nat_text, push_int, push_nat};
use crate::verify::{VerifiedProgram, VerifyError};
use crate::vm::xdp::{load_note, packet_annotation, XdpAction};
use crate::vm::{runnable, RunOutcome, StepResult, Vm, VmModel};

verus! {

/// The header and the listing of a program.
pub open spec fn program_text(prog: ProgramModel, insns: Seq<Insn>) -> Seq<char> {
    "Program: "@ + prog.name + "\nType: "@ + prog.prog_type.display() + "\nInstructions: "@
        + nat_text(insns.len()) + "\nRelocations: "@ + nat_text(prog.relocations.len()) + "\n\n"@
        + listing(insns, 0, 0)
}

/// Renders the header and the listing of a program.
pub fn inspect_text(prog: &ElfProgram, insns: &[Insn]) -> (s: String)
    ensures
        s@ == program_text(prog@, insns@),
{
    let mut s = String::from_str("Program: ");
    s.append(prog.name.as_str());
    s.append("\nType: ");
    s.append(prog.prog_type.to_string().as_str());
    s.append("\nInstructions: ");
    push_nat(&mut s, insns.len() as u64);
    s.append("\nRelocations: ");
    push_nat(&mut s, prog.relocations.len() as u64);
    s.append("\n\n");
    s.append(disassemble(insns).as_str());
    s
}

/// The range of a block, and its listing.
pub open spec fn block_text(insns: Seq<Insn>, k: int) -> Seq<char> {
    let (start, end) = (blocks(insns)[k].start.0 as int, blocks(insns)[k].end.0 as int);
    "block "@ + nat_text(k as nat) + ": ["@ + nat_text(start as nat) + ".."@ + nat_text(end as nat)
        + ")\n"@ + listing(
        insns.subrange(start, end),
        0,
        slot_of(insns, start as nat) as usize,
    )
}

/// The texts of the first `k` blocks.
pub open spec fn blocks_text(insns: Seq<Insn>, k: nat) -> Seq<char>
    decreases k,
{
    if k == 0 {
        Seq::empty()
    } else {
        blocks_text(insns, (k - 1) as nat) + block_text(insns, k - 1)
    }
}

/// The block listing of a program.
pub open spec fn graph_text(insns: Seq<Insn>) -> Seq<char> {
    "Blocks: "@ + nat_text(blocks(insns).len()) + "  Edges: "@ + nat_text(edges(insns).len()) + "\n"@
        + blocks_text(insns, blocks(insns).len())
}

/// Renders the block listing of a program.
pub fn cfg_text(cfg: &Cfg, insns: &[Insn]) -> (s: String)
    requires
        cfg.describes(insns@),
    ensures
        s@ == graph_text(insns@),
{
    let n: usize = cfg_node_count(&cfg.graph);
    let count: usize = insns.len();
    let mut s = String::from_str("Blocks: ");
    push_nat(&mut s, n as u64);
    s.append("  Edges: ");
    push_nat(&mut s, cfg_edge_count(&cfg.graph) as u64);
    s.append("\n");
    let ghost head = s@;
    proof {
        blocks_partition_program(insns@);
    }
    assert(head + Seq::<char>::empty() =~= head);
    let mut k: usize = 0;
    while k < n
        invariant
            k <= n,
            n == blocks(insns@).len(),
            cfg.describes(insns@),
            count == insns@.len(),
            count > 0,
            s@ == head + blocks_text(insns@, k as nat),
        decreases n - k,
    {
        proof {
            blocks_partition_program(insns@);
        }
        let bb = cfg_block(&cfg.graph, k);
        let ghost before = s@;
        s.append("block ");
        push_nat(&mut s, k as u64);
        s.append(": [");
        push_nat(&mut s, bb.start.0 as u64);
        s.append("..");
        push_nat(&mut s, bb.end.0 as u64);
        s.append(")\n");
        let base: usize = cfg.slot_at(bb.start).as_usize();
        let body = vstd::slice::slice_subrange(insns, bb.start.0, bb.end.0);
        s.append(disassemble_from(body, base).as_str());
        proof {
            crate::slots::lemma_slot_bounds(insns@, bb.start.0 as nat);
            crate::slots::lemma_slot_monotone(insns@, bb.start.0 as nat, insns@.len());
            assert(base == slot_of(insns@, bb.start.0 as nat));
            assert(s@ =~= before + block_text(insns@, k as int));
            assert(head + blocks_text(insns@, k as nat) + block_text(insns@, k as int) =~= head
                + blocks_text(insns@, (k + 1) as nat));
        }
        k = k + 1;
    }
    s
}

/// The registers of the first `n` that changed, with their new values. The
/// frame pointer is left out.
pub open spec fn changes(before: Seq<i64>, after: Seq<i64>, n: nat) -> Seq<char>
    decreases n,
{
    if n == 0 {
        Seq::empty()
    } else {
        let rest = changes(before, after, (n - 1) as nat);
        if before[n - 1] == after[n - 1] || n - 1 == 10 {
            rest
        } else {
            (if rest.len() > 0 {
                rest + ", "@
            } else {
                rest
            }) + "r"@ + nat_text((n - 1) as nat) + " = "@ + int_text(after[n - 1] as int)
        }
    }
}

/// Renders the registers that changed.
fn changes_text(before: &[i64; 11], after: &[i64; 11]) -> (s: String)
    ensures
        s@ == changes(before@, after@, 11),
{
    let mut s = String::new();
    let mut first = true;
    let mut i: usize = 0;
    while i < 11
        invariant
            i <= 11,
            s@ == changes(before@, after@, i as nat),
            first == (s@.len() == 0),
        decreases 11 - i,
    {
        if before[i] != after[i] && i != 10 {
            if !first {
                s.append(", ");
            }
            s.append("r");
            push_nat(&mut s, i as u64);
            s.append(" = ");
            push_int(&mut s, after[i]);
            first = false;
            proof {
                reveal_strlit("r");
            }
        }
        i = i + 1;
    }
    s
}

/// The line of one step: the instruction and what it changed, the action or
/// code of an exit, or the error.
pub open spec fn step_text(vm: VmModel, packet: Option<Seq<u8>>) -> Seq<char> {
    let (next, outcome) = vm.step();
    match outcome {
        StepResult::Continue => {
            let note = match packet {
                Some(bytes) => load_note(vm, bytes),
                None => Seq::empty(),
            };
            "PC "@ + nat_text(vm.pc as nat) + ": "@ + vm.insns[vm.pc as int].display() + "  ["@ + changes(
                vm.regs,
                next.regs,
                11,
            ) + "]"@ + note + "\n"@
        },
        StepResult::Exit(code) => exit_text(code, packet is Some),
        StepResult::Error(e) => "error at PC "@ + nat_text(vm.pc as nat) + ": "@ + e.display() + "\n"@,
    }
}

/// The line of an exit code; with a packet, its action too.
pub open spec fn exit_text(code: i64, xdp: bool) -> Seq<char> {
    if xdp {
        "xdp: "@ + XdpAction::of_code(code).display() + " ("@ + int_text(code as int) + ")\n"@
    } else {
        "exit: "@ + int_text(code as int) + "\n"@
    }
}

/// Renders the line of an exit code.
fn exit_line(code: i64, xdp: bool) -> (s: String)
    ensures
        s@ == exit_text(code, xdp),
{
    if xdp {
        let mut s = String::from_str("xdp: ");
        s.append(XdpAction::from_code(code).to_string().as_str());
        s.append(" (");
        push_int(&mut s, code);
        s.append(")\n");
        s
    } else {
        let mut s = String::from_str("exit: ");
        push_int(&mut s, code);
        s.append("\n");
        s
    }
}

/// The line of a run without a trace.
pub open spec fn run_text(outcome: RunOutcome, xdp: bool) -> Seq<char> {
    match outcome {
        Ok(code) => exit_text(code, xdp),
        Err(e) => "error: "@ + e.display() + "\n"@,
    }
}

/// Renders the line of a run without a trace.
pub fn run_line(outcome: &RunOutcome, xdp: bool) -> (s: String)
    ensures
        s@ == run_text(*outcome, xdp),
{
    match outcome {
        Ok(code) => exit_line(*code, xdp),
        Err(e) => {
            let mut s = String::from_str("error: ");
            s.append(e.to_string().as_str());
            s.append("\n");
            s
        },
    }
}

/// Makes one step of a traced run: the line to print, and whether the run
/// goes on.
pub fn trace_step(vm: &mut Vm, packet: Option<&[u8]>) -> (r: (String, bool))
    requires
        old(vm).wf(),
        runnable(old(vm)@.insns),
        old(vm)@.regs.len() == 11,
        old(vm)@.code.len() == old(vm)@.insns.len(),
    ensures
        final(vm).wf(),
        final(vm)@ == old(vm)@.step().0,
        r.0@ == step_text(
            old(vm)@,
            match packet {
                Some(bytes) => Some(bytes@),
                None => None,
            },
        ),
        r.1 == (old(vm)@.step().1 is Continue),
{
    let pc: usize = vm.pc();
    let ghost start = vm@;
    let before = *vm.regs().as_array();
    let note = match packet {
        Some(bytes) => packet_annotation(vm, bytes),
        None => String::new(),
    };
    match vm.step() {
        StepResult::Continue => {
            let mut s = String::from_str("PC ");
            push_nat(&mut s, pc as u64);
            s.append(": ");
            let insn = vm.insns()[pc];
            s.append(insn.to_string().as_str());
            s.append("  [");
            s.append(changes_text(&before, vm.regs().as_array()).as_str());
            s.append("]");
            s.append(note.as_str());
            s.append("\n");
            (s, true)
        },
        StepResult::Exit(code) => (exit_line(code, packet.is_some()), false),
        StepResult::Error(e) => {
            let mut s = String::from_str("error at PC ");
            push_nat(&mut s, pc as u64);
            s.append(": ");
            s.append(e.to_string().as_str());
            s.append("\n");
            (s, false)
        },
    }
}

/// The line of a verdict on a program.
pub open spec fn verdict_text(total_pc: Result<usize, VerifyError>, count: nat) -> Seq<char> {
    match total_pc {
        Ok(n) => "verified: "@ + nat_text(count) + " instructions, "@ + nat_text(n as nat)
            + " PCs visited\n"@,
        Err(e) => "rejected: "@ + e.display() + "\n"@,
    }
}

/// Renders the line of a verdict on a program of `count` instructions.
pub fn verdict_line(outcome: &Result<VerifiedProgram, VerifyError>, count: usize) -> (s: String)
    ensures
        s@ == verdict_text(
            match *outcome {
                Ok(p) => Ok(p.total_pc),
                Err(e) => Err(e),
            },
            count as nat,
        ),
{
    match outcome {
        Ok(p) => {
            let mut s = String::from_str("verified: ");
            push_nat(&mut s, count as u64);
            s.append(" instructions, ");
            push_nat(&mut s, p.total_pc as u64);
            s.append(" PCs visited\n");
            s
        },
        Err(e) => {
            let mut s = String::from_str("rejected: ");
            s.append(e.to_string().as_str());
            s.append("\n");
            s
        },
    }
}

/// Why a program is not optimized.
#[derive(Debug, Clone, PartialEq, Eq)]
pub enum OptimizeError {
    /// It has no control-flow graph.
    Cfg(CfgError),
    /// It has no SSA form.
    Build(SsaError),
    /// It cannot be lowered.
    Lower(SsaError),
    /// The result cannot be encoded.
    Encode(EncodeError),
}

impl OptimizeError {
    /// The message of the error, for a program with a name.
    pub open spec fn display(self, name: Seq<char>) -> Seq<char> {
        match self {
            OptimizeError::Cfg(e) => "building CFG for `"@ + name + "`: "@ + e.display(),
            OptimizeError::Build(e) => "building SSA for `"@ + name + "`: "@ + e.display(),
            OptimizeError::Lower(e) => "lowering `"@ + name + "`: "@ + e.display(),
            OptimizeError::Encode(e) => "encoding `"@ + name + "`: "@ + e.display(),
        }
    }

    /// Renders the message of the error, for a program with a name.
    pub fn describe(&self, name: &str) -> (s: String)
        ensures
            s@ == self.display(name@),
    {
        let (what, why) = match self {
            OptimizeError::Cfg(e) => ("building CFG for `", e.to_string()),
            OptimizeError::Build(e) => ("building SSA for `", e.to_string()),
            OptimizeError::Lower(e) => ("lowering `", e.to_string()),
            OptimizeError::Encode(e) => ("encoding `", e.to_string()),
        };
        let mut s = String::from_str(what);
        s.append(name);
        s.append("`: ");
        s.append(why.as_str());
        s
    }
}

/// Whether a result is that of encoding the lowering of a program.
pub open spec fn encodes_to(
    lowered: Result<Seq<Insn>, SsaError>,
    r: Result<(usize, Vec<u8>), OptimizeError>,
) -> bool {
    match lowered {
        Err(e) => r == Err::<(usize, Vec<u8>), OptimizeError>(OptimizeError::Lower(e)),
        Ok(insns) => match encoded(insns) {
            Err(e) => r == Err::<(usize, Vec<u8>), OptimizeError>(OptimizeError::Encode(e)),
            Ok(bytes) => r matches Ok((n, out)) && n == insns.len() && out@ == bytes,
        },
    }
}

/// Whether a result comes from an SSA form: optimized, lowered and encoded.
pub open spec fn comes_from(
    prog: Prog,
    after: Prog,
    lowered: Result<Seq<Insn>, SsaError>,
    r: Result<(usize, Vec<u8>), OptimizeError>,
) -> bool {
    prog.optimizes_to(after) && after.lowers_to(lowered) && encodes_to(lowered, r)
}

/// Optimizes a program: its graph, its SSA form, all passes, lowering and
/// encoding. Gives the number of instructions and their bytes. They end as
/// the program does: with the same exit code or the same fault, and with the
/// same memory and maps.
#[verifier::spinoff_prover]
#[verifier::rlimit(60)]
pub fn optimize_program(insns: &[Insn]) -> (r: Result<(usize, Vec<u8>), OptimizeError>)
    requires
        numbered(insns@),
        3 + 12 * insns@.len() < u32::MAX,
        forall|i: int| 0 <= i < insns@.len() ==> (#[trigger] insns@[i]).valid(),
    ensures
        match cfg_error(insns@) {
            Some(e) => r == Err::<(usize, Vec<u8>), OptimizeError>(OptimizeError::Cfg(e)),
            None => match unknown_from(insns@, visit_order(insns@), 0) {
                Some(pc) => r == Err::<(usize, Vec<u8>), OptimizeError>(
                    OptimizeError::Build(SsaError::IllegalInstruction { pc: pc as usize }),
                ),
                None => exists|prog: Prog, after: Prog, lowered: Result<Seq<Insn>, SsaError>|
                    prog.is_ssa_of(insns@, visit_order(insns@)) && #[trigger] comes_from(
                        prog,
                        after,
                        lowered,
                        r,
                    ),
            },
        },
        swaps_by_immediate(insns@) ==> (r matches Ok((n, out)) ==> n > u32::MAX || exists|code: Seq<Insn>| #[trigger]
            encoded(code) == Ok::<Seq<u8>, EncodeError>(out@) && code.len() == n && ends_alike(insns@, code)),
{
    let cfg = match build_cfg(insns) {
        Err(e) => {
            return Err(OptimizeError::Cfg(e));
        },
        Ok(cfg) => cfg,
    };
    proof {
        lemma_leaders(insns@, insns@.len());
    }
    let mut ssa = match build_ssa(insns, &cfg) {
        Err(e) => {
            return Err(OptimizeError::Build(e));
        },
        Ok(ssa) => ssa,
    };
    let ghost before = ssa@;
    optimize(&mut ssa);
    let lowered = match lower(&ssa) {
        Err(e) => {
            proof {
                let l = Err::<Seq<Insn>, SsaError>(e);
                assert(comes_from(before, ssa@, l, Err(OptimizeError::Lower(e))));
            }
            return Err(OptimizeError::Lower(e));
        },
        Ok(lowered) => lowered,
    };
    let ghost l = Ok::<Seq<Insn>, SsaError>(lowered@);
    let r: Result<(usize, Vec<u8>), OptimizeError> = match encode_program(lowered.as_slice()) {
        Err(e) => Err(OptimizeError::Encode(e)),
        Ok(bytes) => Ok((lowered.len(), bytes)),
    };
    assert(comes_from(before, ssa@, l, r));
    proof {
        if swaps_by_immediate(insns@) && lowered@.len() <= u32::MAX {
            optimized_code_ends_alike(insns@, &cfg, before, ssa@, lowered@);
        }
    }
    r
}

} // verus!
