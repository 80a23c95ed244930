//! What a listing is: a line for every instruction, numbered by its slot.
use vstd::prelude::*;

use crate::disasm::{line, listing};
use crate::isa::insn::{AluOp, Insn, JumpOp, MemSize};
use crate::slots::{slot_count, slot_of, width_of};

verus! {

/// The lines of the first `n` instructions, each with the slot of its
/// instruction.
pub open spec fn lines(insns: Seq<Insn>, n: nat) -> Seq<char>
    decreases n,
{
    if n == 0 {
        Seq::empty()
    } else {
        lines(insns, (n - 1) as nat) + line(slot_of(insns, (n - 1) as nat) as usize, insns[n - 1])
    }
}

proof fn lemma_lines(insns: Seq<Insn>, i: nat)
    requires
        i <= insns.len(),
        slot_count(insns) <= usize::MAX,
    ensures
        lines(insns, insns.len()) == lines(insns, i) + listing(insns, i, slot_of(insns, i) as usize),
    decreases insns.len() - i,
{
    let here = slot_of(insns, i) as usize;
    if i < insns.len() {
        crate::slots::lemma_slot_monotone(insns, i, insns.len());
        if i + 1 < insns.len() {
            crate::slots::lemma_slot_monotone(insns, i + 1, insns.len());
        }
        lemma_lines(insns, i + 1);
        let next = slot_of(insns, i + 1) as usize;
        assert(next == here + width_of(insns[i as int]));
        let rest = listing(insns, i + 1, next);
        assert(lines(insns, i) + line(here, insns[i as int]) + rest =~= lines(insns, i) + (line(here, insns[i as int])
            + rest));
    } else {
        assert(lines(insns, i) + Seq::<char>::empty() =~= lines(insns, i));
    }
}

/// A listing has the lines of all instructions, in order, each with the slot
/// of its instruction.
pub proof fn listings_number_slots(insns: Seq<Insn>)
    requires
        slot_count(insns) <= usize::MAX,
    ensures
        listing(insns, 0, 0) == lines(insns, insns.len()),
{
    lemma_lines(insns, 0);
    assert(Seq::<char>::empty() + listing(insns, 0, 0) =~= listing(insns, 0, 0));
}

/// Different operations have different names, but for the byte swaps, which
/// share one.
pub proof fn operations_have_names(a: AluOp, b: AluOp)
    requires
        a.name() == b.name(),
    ensures
        a == b || (a is End && b is End),
{
    reveal_strlit("add");
    reveal_strlit("sub");
    reveal_strlit("mul");
    reveal_strlit("div");
    reveal_strlit("or");
    reveal_strlit("and");
    reveal_strlit("lsh");
    reveal_strlit("rsh");
    reveal_strlit("neg");
    reveal_strlit("mod");
    reveal_strlit("xor");
    reveal_strlit("mov");
    reveal_strlit("arsh");
    reveal_strlit("end");
    let (x, y) = (a.name(), b.name());
    assert(x.len() == y.len() && x[0] == y[0] && x[1] == y[1]);
    assert(x.len() > 2 ==> x[2] == y[2]);
}

/// Different comparisons have different names.
pub proof fn comparisons_have_names(a: JumpOp, b: JumpOp)
    requires
        a.name() == b.name(),
    ensures
        a == b,
{
    reveal_strlit("ja");
    reveal_strlit("jeq");
    reveal_strlit("jgt");
    reveal_strlit("jge");
    reveal_strlit("jset");
    reveal_strlit("jne");
    reveal_strlit("jsgt");
    reveal_strlit("jsge");
    reveal_strlit("jlt");
    reveal_strlit("jle");
    reveal_strlit("jslt");
    reveal_strlit("jsle");
    reveal_strlit("call");
    reveal_strlit("exit");
    let (x, y) = (a.name(), b.name());
    assert(x.len() == y.len() && x[0] == y[0] && x[1] == y[1]);
    assert(x.len() > 2 ==> x[2] == y[2]);
    assert(x.len() > 3 ==> x[3] == y[3]);
}

/// Different sizes have different names.
pub proof fn sizes_have_names(a: MemSize, b: MemSize)
    requires
        a.name() == b.name(),
    ensures
        a == b,
{
    reveal_strlit("b");
    reveal_strlit("h");
    reveal_strlit("w");
    reveal_strlit("dw");
    let (x, y) = (a.name(), b.name());
    assert(x.len() == y.len() && x[0] == y[0]);
}

} // verus!
