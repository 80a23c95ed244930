//! Slot numbering.
//!
//! Jump offsets count 8-byte slots. A wide immediate load occupies two slots
//! and decodes to one instruction, so the slot number of an instruction can
//! exceed its index.
use vstd::prelude::*;

use crate::isa::insn::Insn;

verus! {

/// Slots that one instruction occupies.
pub open spec fn width_of(insn: Insn) -> nat {
    if insn is LoadImm64 {
        2
    } else {
        1
    }
}

/// First slot of the instruction at index `i`, or the number of slots before
/// the end of the program for `i == insns.len()`.
pub open spec fn slot_of(insns: Seq<Insn>, i: nat) -> nat
    decreases i,
{
    if i == 0 {
        0
    } else {
        slot_of(insns, (i - 1) as nat) + width_of(insns[i - 1])
    }
}

/// Number of slots of a program.
pub open spec fn slot_count(insns: Seq<Insn>) -> nat {
    slot_of(insns, insns.len())
}

/// Whether an instruction starts at a slot.
pub open spec fn starts_at(insns: Seq<Insn>, slot: int) -> bool {
    exists|d: int| 0 <= d < insns.len() && #[trigger] slot_of(insns, d as nat) == slot
}

/// Index of the instruction that starts at a slot.
pub open spec fn index_at(insns: Seq<Insn>, slot: int) -> int {
    choose|d: int| 0 <= d < insns.len() && #[trigger] slot_of(insns, d as nat) == slot
}

/// Target slot of a jump at index `i`; it can lie outside the program.
pub open spec fn target_slot(insns: Seq<Insn>, i: int, offset: i16) -> int {
    slot_of(insns, i as nat) + 1 + offset
}

/// Slot numbers grow with the index.
pub proof fn lemma_slot_monotone(insns: Seq<Insn>, i: nat, j: nat)
    requires
        i < j,
    ensures
        slot_of(insns, i) < slot_of(insns, j),
        slot_of(insns, i) + (j - i) <= slot_of(insns, j),
    decreases j,
{
    if i + 1 < j {
        lemma_slot_monotone(insns, i, (j - 1) as nat);
    }
}

/// Slot numbers are at least the index and at most twice the index.
pub proof fn lemma_slot_bounds(insns: Seq<Insn>, i: nat)
    ensures
        i <= slot_of(insns, i) <= 2 * i,
    decreases i,
{
    if i > 0 {
        lemma_slot_bounds(insns, (i - 1) as nat);
    }
}

/// An instruction is found at its own slot.
pub proof fn lemma_index_at(insns: Seq<Insn>, d: int)
    requires
        0 <= d < insns.len(),
    ensures
        starts_at(insns, slot_of(insns, d as nat) as int),
        index_at(insns, slot_of(insns, d as nat) as int) == d,
{
    let s = slot_of(insns, d as nat) as int;
    assert(starts_at(insns, s));
    let e = index_at(insns, s);
    if e < d {
        lemma_slot_monotone(insns, e as nat, d as nat);
    }
    if d < e {
        lemma_slot_monotone(insns, d as nat, e as nat);
    }
}

/// Slots that one instruction occupies.
pub fn slot_width(insn: &Insn) -> (r: u32)
    ensures
        r == width_of(*insn),
{
    match insn {
        Insn::LoadImm64 { .. } => 2,
        _ => 1,
    }
}

/// Slot number of each instruction, and the inverse: the index of the
/// instruction that starts at each slot, `usize::MAX` where none does.
pub fn slot_table(insns: &[Insn]) -> (r: (Vec<u32>, Vec<usize>))
    requires
        slot_count(insns@) <= u32::MAX,
    ensures
        r.0@.len() == insns@.len(),
        forall|i: int| 0 <= i < insns@.len() ==> #[trigger] r.0@[i] == slot_of(insns@, i as nat),
        r.1@.len() == slot_count(insns@),
        forall|s: int|
            0 <= s < r.1@.len() ==> if starts_at(insns@, s) {
                #[trigger] r.1@[s] == index_at(insns@, s)
            } else {
                r.1@[s] == usize::MAX
            },
{
    let mut slots: Vec<u32> = Vec::new();
    let mut slot: u32 = 0;
    let mut i: usize = 0;
    while i < insns.len()
        invariant
            i <= insns@.len(),
            slot_count(insns@) <= u32::MAX,
            slots@.len() == i,
            slot == slot_of(insns@, i as nat),
            forall|k: int| 0 <= k < i ==> #[trigger] slots@[k] == slot_of(insns@, k as nat),
        decreases insns@.len() - i,
    {
        slots.push(slot);
        proof {
            if i + 1 < insns@.len() {
                lemma_slot_monotone(insns@, (i + 1) as nat, insns@.len());
            }
        }
        slot = slot + slot_width(&insns[i]);
        i = i + 1;
    }
    let total: usize = slot as usize;
    let mut rev: Vec<usize> = Vec::new();
    let mut k: usize = 0;
    while k < total
        invariant
            k <= total,
            rev@.len() == k,
            forall|s: int| 0 <= s < k ==> #[trigger] rev@[s] == usize::MAX,
        decreases total - k,
    {
        rev.push(usize::MAX);
        k = k + 1;
    }
    let mut i: usize = 0;
    while i < insns.len()
        invariant
            i <= insns@.len() <= usize::MAX,
            total == slot_count(insns@),
            slots@.len() == insns@.len(),
            forall|k: int|
                0 <= k < insns@.len() ==> #[trigger] slots@[k] == slot_of(insns@, k as nat),
            rev@.len() == total,
            forall|d: int|
                0 <= d < i ==> rev@[#[trigger] slot_of(insns@, d as nat) as int] == d,
            forall|s: int|
                0 <= s < total && #[trigger] rev@[s] != usize::MAX ==> 0 <= rev@[s] < i && slot_of(
                    insns@,
                    rev@[s] as nat,
                ) == s,
        decreases insns@.len() - i,
    {
        let s: usize = slots[i] as usize;
        proof {
            lemma_slot_monotone(insns@, i as nat, insns@.len());
        }
        let ghost before = rev@;
        rev.set(s, i);
        proof {
            assert forall|d: int| 0 <= d < i + 1 implies rev@[#[trigger] slot_of(
                insns@,
                d as nat,
            ) as int] == d by {
                if d < i {
                    lemma_slot_monotone(insns@, d as nat, i as nat);
                    lemma_slot_monotone(insns@, d as nat, insns@.len());
                    assert(before[slot_of(insns@, d as nat) as int] == d);
                }
            }
        }
        i = i + 1;
    }
    proof {
        assert forall|s: int| 0 <= s < rev@.len() implies if starts_at(insns@, s) {
            #[trigger] rev@[s] == index_at(insns@, s)
        } else {
            rev@[s] == usize::MAX
        } by {
            if starts_at(insns@, s) {
                let d = index_at(insns@, s);
                assert(rev@[slot_of(insns@, d as nat) as int] == d);
            } else if rev@[s] != usize::MAX {
                let d = rev@[s] as int;
                assert(slot_of(insns@, d as nat) == s);
            }
        }
    }
    (slots, rev)
}

} // verus!
