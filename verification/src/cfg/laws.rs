//! What the graph of a program is: where its blocks start and end, and which
//! programs have none.
use vstd::prelude::*;

use crate::cfg::{
    block_index, blocks, blocks_partition_program, cfg_error, first_jump_error, is_leader, jump_error, jump_target, leaders,
    leads, lemma_leader_block, lemma_leaders, CfgError,
};
use crate::isa::insn::Insn;
use crate::slots::{lemma_index_at, slot_count, slot_of};

verus! {

/// Whether a jump lands on the instruction at an index: it starts in the slot
/// that lies the offset behind the slot after the jump.
pub open spec fn lands(insns: Seq<Insn>, i: int, t: int) -> bool {
    &&& 0 <= t < insns.len()
    &&& insns[i] matches Insn::Jump { offset, .. } && slot_of(insns, t as nat) == slot_of(insns, i as nat) + 1 + offset
}

/// Whether a jump lands nowhere.
pub open spec fn astray(insns: Seq<Insn>, i: int) -> bool {
    insns[i] is Jump && forall|t: int| 0 <= t < insns.len() ==> !#[trigger] lands(insns, i, t)
}

/// The target of a jump is where it lands.
pub proof fn targets_are_landings(insns: Seq<Insn>, i: int, t: int)
    requires
        0 <= i < insns.len(),
    ensures
        jump_target(insns, i) == Some(t) <==> lands(insns, i, t),
        astray(insns, i) <==> jump_error(insns, i) is Some,
        insns[i] is Jump && jump_target(insns, i) is None ==> astray(insns, i),
{
    if lands(insns, i, t) {
        lemma_index_at(insns, t);
    }
    if jump_target(insns, i) is Some {
        let d = jump_target(insns, i)->0;
        assert(lands(insns, i, d));
        lemma_index_at(insns, d);
    }
    if jump_error(insns, i) is Some {
        assert forall|d: int| 0 <= d < insns.len() implies !#[trigger] lands(insns, i, d) by {
            if lands(insns, i, d) {
                lemma_index_at(insns, d);
            }
        }
    }
    if insns[i] is Jump && jump_target(insns, i) is None {
        assert forall|d: int| 0 <= d < insns.len() implies !#[trigger] lands(insns, i, d) by {
            if lands(insns, i, d) {
                lemma_index_at(insns, d);
            }
        }
    }
}

proof fn lemma_first_error(insns: Seq<Insn>, k: nat)
    ensures
        match first_jump_error(insns, k) {
            None => forall|i: int| k <= i < insns.len() ==> !#[trigger] astray(insns, i),
            Some(e) => exists|i: int|
                k <= i < insns.len() && #[trigger] astray(insns, i) && jump_error(insns, i) == Some(e) && forall|j: int|
                    k <= j < i ==> !#[trigger] astray(insns, j),
        },
    decreases insns.len() - k,
{
    if k < insns.len() {
        lemma_first_error(insns, k + 1);
        targets_are_landings(insns, k as int, 0);
        match first_jump_error(insns, k) {
            None => {
                assert forall|i: int| k <= i < insns.len() implies !#[trigger] astray(insns, i) by {}
            },
            Some(e) => {
                if jump_error(insns, k as int) is Some {
                    assert(astray(insns, k as int));
                } else {
                    let i = choose|i: int|
                        k + 1 <= i < insns.len() && #[trigger] astray(insns, i) && jump_error(insns, i) == Some(e)
                            && forall|j: int| k + 1 <= j < i ==> !#[trigger] astray(insns, j);
                    assert forall|j: int| k <= j < i implies !#[trigger] astray(insns, j) by {}
                    assert(astray(insns, i));
                }
            },
        }
    }
}

/// A program has a graph unless it is empty or a jump lands nowhere. The first
/// such jump is reported, with the slot where it would have landed: in the
/// middle of a wide instruction, or outside of the program.
pub proof fn programs_without_graph(insns: Seq<Insn>)
    requires
        slot_count(insns) <= 0x7fff_ffff,
    ensures
        insns.len() == 0 <==> cfg_error(insns) == Some(CfgError::EmptyProgram),
        cfg_error(insns) is None <==> insns.len() > 0 && forall|i: int|
            0 <= i < insns.len() ==> !#[trigger] astray(insns, i),
        insns.len() > 0 ==> (cfg_error(insns) matches Some(e) ==> exists|i: int|
            0 <= i < insns.len() && #[trigger] astray(insns, i) && (forall|j: int|
                0 <= j < i ==> !#[trigger] astray(insns, j)) && {
                let slot = slot_of(insns, i as nat);
                let to = slot + 1 + insns[i]->Jump_offset;
                if 0 <= to < slot_count(insns) {
                    e matches CfgError::JumpIntoWide { pc, target } && pc == slot && target == to
                } else {
                    e matches CfgError::JumpOutOfBounds { pc, target } && pc == slot && target == to
                }
            }),
{
    lemma_first_error(insns, 0);
    if insns.len() > 0 {
        if let Some(e) = cfg_error(insns) {
            let i = choose|i: int|
                0 <= i < insns.len() && #[trigger] astray(insns, i) && jump_error(insns, i) == Some(e) && forall|j: int|
                    0 <= j < i ==> !#[trigger] astray(insns, j);
            assert(astray(insns, i));
            crate::slots::lemma_slot_monotone(insns, i as nat, insns.len());
        }
    }
}

/// Blocks are entered at the start and left at the end only: inside of a block
/// no instruction but the last is a jump or an exit, and no jump lands behind
/// the first one.
pub proof fn blocks_are_straight(insns: Seq<Insn>, k: int, p: int, j: int)
    requires
        0 < insns.len() <= usize::MAX,
        0 <= k < blocks(insns).len(),
        blocks(insns)[k].start.0 < p < blocks(insns)[k].end.0,
        0 <= j < insns.len(),
    ensures
        !(insns[p - 1] is Jump),
        !(insns[p - 1] is Exit),
        !lands(insns, j, p),
{
    lemma_leaders(insns, insns.len());
    blocks_partition_program(insns);
    targets_are_landings(insns, j, p);
    if is_leader(insns, p) {
        lemma_leader_block(insns, p);
        assert(block_index(insns, p) == k);
    }
    assert(!leads(insns, p - 1, p));
    assert(!leads(insns, j, p));
}

/// A block starts only where the program does, where a jump lands, or behind a
/// jump or an exit.
pub proof fn blocks_start_for_a_reason(insns: Seq<Insn>, k: int)
    requires
        0 < insns.len() <= usize::MAX,
        0 <= k < blocks(insns).len(),
    ensures
        ({
            let p = blocks(insns)[k].start.0 as int;
            p == 0 || insns[p - 1] is Jump || insns[p - 1] is Exit || exists|j: int|
                0 <= j < insns.len() && #[trigger] lands(insns, j, p)
        }),
{
    lemma_leaders(insns, insns.len());
    let p = blocks(insns)[k].start.0 as int;
    assert(leaders(insns)[k].0 == p);
    assert(is_leader(insns, p));
    if p != 0 {
        let j = choose|j: int| 0 <= j < insns.len() && #[trigger] leads(insns, j, p);
        targets_are_landings(insns, j, p);
        if jump_target(insns, j) == Some(p) {
            assert(lands(insns, j, p));
        }
    }
}

} // verus!
