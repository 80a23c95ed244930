//! Text disassembler.
//!
//! One instruction per line. Each line begins with the slot number of the
//! instruction, left-aligned in a four-column gutter, and goes on with the
//! text of the instruction. A wide load advances the gutter by two.
pub mod laws;

use vstd::prelude::*;
use vstd::string::StringExecFns;

use crate::isa::insn::Insn;
use crate::slots::{slot_width, width_of};
use crate::text::{nat_text, pad_right, push_gutter};

verus! {

/// One line of the listing.
pub open spec fn line(pc: usize, insn: Insn) -> Seq<char> {
    pad_right(nat_text(pc as nat), 4) + insn.display() + "\n"@
}

/// The listing of the instructions from index `i` on, numbered from `pc`.
pub open spec fn listing(insns: Seq<Insn>, i: nat, pc: usize) -> Seq<char>
    decreases insns.len() - i,
{
    if i >= insns.len() {
        Seq::empty()
    } else {
        line(pc, insns[i as int]) + listing(
            insns,
            i + 1,
            pc.wrapping_add(width_of(insns[i as int]) as usize),
        )
    }
}

/// Renders a full program, numbering slots from 0.
pub fn disassemble(insns: &[Insn]) -> (s: String)
    ensures
        s@ == listing(insns@, 0, 0),
{
    disassemble_from(insns, 0)
}

/// Renders an instruction slice, numbering slots from `base_pc`.
pub fn disassemble_from(insns: &[Insn], base_pc: usize) -> (s: String)
    ensures
        s@ == listing(insns@, 0, base_pc),
{
    let mut out = String::new();
    let mut pc: usize = base_pc;
    let mut i: usize = 0;
    assert(out@ + listing(insns@, 0, base_pc) =~= listing(insns@, 0, base_pc));
    while i < insns.len()
        invariant
            i <= insns@.len(),
            listing(insns@, 0, base_pc) == out@ + listing(insns@, i as nat, pc),
        decreases insns@.len() - i,
    {
        let ghost before = out@;
        let insn = insns[i];
        push_gutter(&mut out, pc as u64);
        out.append(insn.to_string().as_str());
        out.append("\n");
        let next: usize = pc.wrapping_add(slot_width(&insn) as usize);
        proof {
            let rest = listing(insns@, (i + 1) as nat, next);
            assert(out@ =~= before + line(pc, insn));
            assert(before + (line(pc, insn) + rest) =~= out@ + rest);
        }
        pc = next;
        i = i + 1;
    }
    assert(out@ + Seq::<char>::empty() =~= out@);
    out
}

} // verus!
