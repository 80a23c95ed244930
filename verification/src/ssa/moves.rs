//! Parallel register moves and their sequential order.
use vstd::prelude::*;

use crate::isa::insn::Reg;
use crate::ssa::SsaError;

verus! {

/// A move source: a register, or a constant.
#[derive(Debug, Clone, Copy, PartialEq, Eq, Structural)]
pub enum MoveSrc {
    /// A register.
    Reg(Reg),
    /// A constant that fits an immediate.
    Imm(i32),
    /// A wide constant.
    Wide(i64),
}

/// One register move.
#[derive(Debug, Clone, Copy, PartialEq, Eq, Structural)]
pub struct PlacedMove {
    /// Destination.
    pub dst: Reg,
    /// Source.
    pub src: MoveSrc,
}

impl PlacedMove {
    /// Whether the move copies a register to itself.
    pub open spec fn is_idle(self) -> bool {
        self.src == MoveSrc::Reg(self.dst)
    }
}

/// Moves without those that copy a register to itself.
pub open spec fn proper(moves: Seq<PlacedMove>) -> Seq<PlacedMove>
    decreases moves.len(),
{
    if moves.len() == 0 {
        Seq::empty()
    } else {
        let rest = proper(moves.drop_last());
        if moves.last().is_idle() {
            rest
        } else {
            rest.push(moves.last())
        }
    }
}

/// Whether some move reads a register.
pub open spec fn is_read(moves: Seq<PlacedMove>, r: Reg) -> bool {
    exists|i: int| 0 <= i < moves.len() && (#[trigger] moves[i]).src == MoveSrc::Reg(r)
}

/// Whether some move writes a register.
pub open spec fn writes(moves: Seq<PlacedMove>, r: Reg) -> bool {
    exists|i: int| 0 <= i < moves.len() && (#[trigger] moves[i]).dst == r
}

/// The first move from `i` on whose destination no move reads.
pub open spec fn first_free(moves: Seq<PlacedMove>, i: nat) -> Option<int>
    decreases moves.len() - i,
{
    if i >= moves.len() {
        None
    } else if !is_read(moves, moves[i as int].dst) {
        Some(i as int)
    } else {
        first_free(moves, i + 1)
    }
}

/// Moves in a sequential order: each is one whose destination none of those
/// that remain reads.
pub open spec fn in_order(moves: Seq<PlacedMove>) -> Option<Seq<PlacedMove>>
    decreases moves.len(),
{
    if moves.len() == 0 {
        Some(Seq::empty())
    } else {
        match first_free(moves, 0) {
            Some(i) => if 0 <= i < moves.len() {
                match in_order(moves.remove(i)) {
                    Some(rest) => Some(seq![moves[i]] + rest),
                    None => None,
                }
            } else {
                None
            },
            None => None,
        }
    }
}

pub proof fn lemma_first_free(moves: Seq<PlacedMove>, i: nat)
    ensures
        match first_free(moves, i) {
            Some(k) => i <= k < moves.len() && !is_read(moves, moves[k].dst),
            None => forall|k: int| i <= k < moves.len() ==> is_read(moves, (#[trigger] moves[k]).dst),
        },
    decreases moves.len() - i,
{
    if i < moves.len() {
        lemma_first_free(moves, i + 1);
    }
}

/// Whether some pending move reads a register.
fn reads(pending: &Vec<PlacedMove>, r: Reg) -> (b: bool)
    ensures
        b == is_read(pending@, r),
{
    let mut i: usize = 0;
    while i < pending.len()
        invariant
            i <= pending@.len(),
            forall|k: int| 0 <= k < i ==> (#[trigger] pending@[k]).src != MoveSrc::Reg(r),
        decreases pending@.len() - i,
    {
        if let MoveSrc::Reg(s) = pending[i].src {
            if s == r {
                assert(pending@[i as int].src == MoveSrc::Reg(r));
                return true;
            }
        }
        i = i + 1;
    }
    false
}

/// Finds the first pending move whose destination no pending move reads.
fn find_free(pending: &Vec<PlacedMove>) -> (r: Option<usize>)
    ensures
        match r {
            Some(i) => first_free(pending@, 0) == Some(i as int) && i < pending@.len(),
            None => first_free(pending@, 0) is None,
        },
{
    let mut i: usize = 0;
    while i < pending.len()
        invariant
            i <= pending@.len(),
            first_free(pending@, 0) == first_free(pending@, i as nat),
        decreases pending@.len() - i,
    {
        if !reads(pending, pending[i].dst) {
            return Some(i);
        }
        i = i + 1;
    }
    None
}

/// Orders parallel moves for sequential execution. A cycle has no order and
/// gives the error.
pub fn order_moves(moves: Vec<PlacedMove>, cycle: SsaError) -> (r: Result<Vec<PlacedMove>, SsaError>)
    ensures
        match in_order(proper(moves@)) {
            Some(list) => r matches Ok(v) && v@ == list,
            None => r == Err::<Vec<PlacedMove>, SsaError>(cycle),
        },
{
    let mut pending: Vec<PlacedMove> = Vec::new();
    let mut i: usize = 0;
    assert(moves@.take(0) =~= Seq::empty());
    while i < moves.len()
        invariant
            i <= moves@.len(),
            pending@ == proper(moves@.take(i as int)),
        decreases moves@.len() - i,
    {
        assert(moves@.take(i + 1).drop_last() =~= moves@.take(i as int));
        let m = moves[i];
        let idle = match m.src {
            MoveSrc::Reg(s) => s == m.dst,
            _ => false,
        };
        if !idle {
            pending.push(m);
        }
        i = i + 1;
    }
    assert(moves@.take(i as int) =~= moves@);
    let mut ordered: Vec<PlacedMove> = Vec::new();
    let ghost start = pending@;
    proof {
        if let Some(list) = in_order(start) {
            assert(Seq::<PlacedMove>::empty() + list =~= list);
        }
    }
    while pending.len() > 0
        invariant
            start == proper(moves@),
            match in_order(start) {
                Some(list) => in_order(pending@) matches Some(rest) && list == ordered@ + rest,
                None => in_order(pending@) is None,
            },
        decreases pending@.len(),
    {
        match find_free(&pending) {
            None => {
                return Err(cycle);
            },
            Some(k) => {
                let ghost before = pending@;
                let ghost some = ordered@;
                let m = pending.remove(k);
                ordered.push(m);
                proof {
                    assert(pending@ =~= before.remove(k as int));
                    if let Some(rest) = in_order(pending@) {
                        assert(some + (seq![m] + rest) =~= ordered@ + rest);
                    }
                }
            },
        }
    }
    assert(ordered@ + Seq::<PlacedMove>::empty() =~= ordered@);
    Ok(ordered)
}

/// Contents of registers.
pub type Regs = spec_fn(Reg) -> u64;

/// What a move source holds.
pub open spec fn source_value(regs: Regs, src: MoveSrc) -> u64 {
    match src {
        MoveSrc::Reg(r) => regs(r),
        MoveSrc::Imm(k) => k as u64,
        MoveSrc::Wide(k) => k as u64,
    }
}

/// Registers after a move.
pub open spec fn moved(regs: Regs, m: PlacedMove) -> Regs {
    |r: Reg|
        if r == m.dst {
            source_value(regs, m.src)
        } else {
            regs(r)
        }
}

/// Registers after moves one after another.
pub open spec fn moved_in_turn(regs: Regs, moves: Seq<PlacedMove>) -> Regs
    decreases moves.len(),
{
    if moves.len() == 0 {
        regs
    } else {
        moved_in_turn(moved(regs, moves[0]), moves.drop_first())
    }
}

/// Whether no two moves write the same register.
pub open spec fn distinct(moves: Seq<PlacedMove>) -> bool {
    forall|i: int, j: int|
        0 <= i < j < moves.len() ==> (#[trigger] moves[i]).dst != (#[trigger] moves[j]).dst
}

/// Whether moves to the same register come from the same source.
pub open spec fn agreeing(moves: Seq<PlacedMove>) -> bool {
    forall|i: int, j: int|
        0 <= i < j < moves.len() && (#[trigger] moves[i]).dst == (#[trigger] moves[j]).dst ==> moves[i].src
            == moves[j].src
}

/// Whether registers are those after moves at once: every destination holds
/// what its source held before.
pub open spec fn moved_at_once(before: Regs, after: Regs, moves: Seq<PlacedMove>) -> bool {
    &&& forall|i: int|
        0 <= i < moves.len() ==> after((#[trigger] moves[i]).dst) == source_value(before, moves[i].src)
    &&& forall|r: Reg|
        (forall|i: int| 0 <= i < moves.len() ==> (#[trigger] moves[i]).dst != r) ==> #[trigger] after(r)
            == before(r)
}

proof fn lemma_in_order(regs: Regs, moves: Seq<PlacedMove>)
    requires
        agreeing(moves),
        in_order(moves) is Some,
    ensures
        moved_at_once(regs, moved_in_turn(regs, in_order(moves)->0), moves),
    decreases moves.len(),
{
    if moves.len() > 0 {
        lemma_first_free(moves, 0);
        let k = first_free(moves, 0)->0;
        let m = moves[k];
        let rest = moves.remove(k);
        let list = in_order(rest)->0;
        let order = in_order(moves)->0;
        assert(order == seq![m] + list);
        assert(order.drop_first() =~= list);
        assert(agreeing(rest)) by {
            assert forall|i: int, j: int| 0 <= i < j < rest.len() && (#[trigger] rest[i]).dst == (
            #[trigger] rest[j]).dst implies rest[i].src == rest[j].src by {
                let a = if i < k {
                    i
                } else {
                    i + 1
                };
                let b = if j < k {
                    j
                } else {
                    j + 1
                };
                assert(rest[i] == moves[a]);
                assert(rest[j] == moves[b]);
            }
        }
        let mid = moved(regs, m);
        lemma_in_order(mid, rest);
        let after = moved_in_turn(mid, list);
        assert(moved_in_turn(regs, order) == after);
        assert forall|i: int| 0 <= i < moves.len() implies after((#[trigger] moves[i]).dst) == source_value(
            regs,
            moves[i].src,
        ) by {
            if i == k {
                assert(m.src != MoveSrc::Reg(m.dst)) by {
                    assert(moves[k] == m);
                    assert(!is_read(moves, m.dst));
                }
                if exists|j: int| 0 <= j < rest.len() && (#[trigger] rest[j]).dst == m.dst {
                    let j = choose|j: int| 0 <= j < rest.len() && (#[trigger] rest[j]).dst == m.dst;
                    let b = if j < k {
                        j
                    } else {
                        j + 1
                    };
                    assert(rest[j] == moves[b]);
                    if b < k {
                        assert(moves[b].src == moves[k].src);
                    } else {
                        assert(moves[k].src == moves[b].src);
                    }
                    assert(after(rest[j].dst) == source_value(mid, rest[j].src));
                } else {
                    assert(after(m.dst) == mid(m.dst));
                }
            } else {
                let j = if i < k {
                    i
                } else {
                    i - 1
                };
                assert(rest[j] == moves[i]);
                assert(after(rest[j].dst) == source_value(mid, rest[j].src));
                if let MoveSrc::Reg(s) = moves[i].src {
                    assert(s != m.dst) by {
                        if s == m.dst {
                            assert(moves[i].src == MoveSrc::Reg(m.dst));
                            assert(is_read(moves, m.dst));
                        }
                    }
                }
            }
        }
        assert forall|r: Reg|
            (forall|i: int| 0 <= i < moves.len() ==> (#[trigger] moves[i]).dst != r) implies #[trigger] after(r)
            == regs(r) by {
            assert(moves[k].dst != r);
            assert forall|j: int| 0 <= j < rest.len() implies (#[trigger] rest[j]).dst != r by {
                let b = if j < k {
                    j
                } else {
                    j + 1
                };
                assert(rest[j] == moves[b]);
            }
            assert(after(r) == mid(r));
        }
    }
}

pub proof fn lemma_proper(moves: Seq<PlacedMove>)
    ensures
        forall|m: PlacedMove| #[trigger]
            proper(moves).contains(m) <==> moves.contains(m) && !m.is_idle(),
        agreeing(moves) ==> agreeing(proper(moves)),
    decreases moves.len(),
{
    if moves.len() > 0 {
        let front = moves.drop_last();
        let last = moves.last();
        let rest = proper(front);
        let all = proper(moves);
        lemma_proper(front);
        assert forall|m: PlacedMove| #[trigger] all.contains(m) <==> moves.contains(m) && !m.is_idle() by {
            if all.contains(m) {
                let i = all.index_of(m);
                if i < rest.len() {
                    assert(rest[i] == m);
                    assert(rest.contains(m));
                    let j = front.index_of(m);
                    assert(moves[j] == m);
                } else {
                    assert(moves[moves.len() - 1] == m);
                }
            }
            if moves.contains(m) && !m.is_idle() {
                let j = moves.index_of(m);
                if j < front.len() {
                    assert(front[j] == m);
                    assert(rest.contains(m));
                    let i = rest.index_of(m);
                    assert(all[i] == m);
                } else {
                    assert(all[rest.len() as int] == m);
                }
            }
        }
        if agreeing(moves) {
            assert(agreeing(front)) by {
                assert forall|i: int, j: int| 0 <= i < j < front.len() && (#[trigger] front[i]).dst
                    == (#[trigger] front[j]).dst implies front[i].src == front[j].src by {
                    assert(moves[i] == front[i]);
                    assert(moves[j] == front[j]);
                }
            }
            assert forall|i: int, j: int| 0 <= i < j < all.len() && (#[trigger] all[i]).dst == (
            #[trigger] all[j]).dst implies all[i].src == all[j].src by {
                if j < rest.len() {
                    assert(all[i] == rest[i]);
                    assert(all[j] == rest[j]);
                } else {
                    assert(all[i] == rest[i]);
                    assert(rest.contains(rest[i]));
                    let k = front.index_of(rest[i]);
                    assert(moves[k] == rest[i]);
                    assert(all[j] == moves[moves.len() - 1]);
                    assert(moves[k].src == moves[moves.len() - 1].src);
                }
            }
        }
    }
}

/// Moves in the order that [`order_moves`] gives do, one after another, what
/// the moves do at once.
pub proof fn order_is_parallel(regs: Regs, moves: Seq<PlacedMove>)
    requires
        agreeing(moves),
        in_order(proper(moves)) is Some,
    ensures
        moved_at_once(regs, moved_in_turn(regs, in_order(proper(moves))->0), moves),
{
    lemma_proper(moves);
    let list = proper(moves);
    lemma_in_order(regs, list);
    let after = moved_in_turn(regs, in_order(list)->0);
    assert forall|i: int| 0 <= i < moves.len() implies after((#[trigger] moves[i]).dst) == source_value(
        regs,
        moves[i].src,
    ) by {
        let m = moves[i];
        if m.is_idle() {
            assert forall|j: int| 0 <= j < list.len() implies (#[trigger] list[j]).dst != m.dst by {
                assert(list.contains(list[j]));
                let k = moves.index_of(list[j]);
                assert(k != i);
                if moves[k].dst == m.dst {
                    assert(moves[k].src == moves[i].src);
                }
            }
            assert(after(m.dst) == regs(m.dst));
        } else {
            assert(moves.contains(m));
            let j = list.index_of(m);
            assert(list.contains(m));
            assert(after(list[j].dst) == source_value(regs, list[j].src));
        }
    }
    assert forall|r: Reg|
        (forall|i: int| 0 <= i < moves.len() ==> (#[trigger] moves[i]).dst != r) implies #[trigger] after(r)
        == regs(r) by {
        assert forall|j: int| 0 <= j < list.len() implies (#[trigger] list[j]).dst != r by {
            assert(list.contains(list[j]));
            let k = moves.index_of(list[j]);
            assert(moves[k].dst != r);
        }
    }
}

/// Moves are refused only where some of them form a cycle: there are moves of
/// which each destination is read by another one of them.
pub proof fn refused_moves_form_a_cycle(moves: Seq<PlacedMove>)
    requires
        in_order(proper(moves)) is None,
    ensures
        exists|knot: Seq<PlacedMove>|
            #![trigger knot.len()]
            {
                &&& knot.len() > 0
                &&& forall|i: int|
                    0 <= i < knot.len() ==> moves.contains(#[trigger] knot[i]) && !knot[i].is_idle()
                        && is_read(knot, knot[i].dst)
            },
{
    lemma_proper(moves);
    let knot = lemma_knot(proper(moves));
    assert forall|i: int| 0 <= i < knot.len() implies moves.contains(#[trigger] knot[i]) && !knot[i].is_idle()
        && is_read(knot, knot[i].dst) by {
        assert(proper(moves).contains(knot[i]));
    }
    assert(knot.len() > 0);
}

proof fn lemma_knot(moves: Seq<PlacedMove>) -> (knot: Seq<PlacedMove>)
    requires
        in_order(moves) is None,
    ensures
        knot.len() > 0,
        forall|i: int|
            0 <= i < knot.len() ==> moves.contains(#[trigger] knot[i]) && is_read(knot, knot[i].dst),
    decreases moves.len(),
{
    lemma_first_free(moves, 0);
    match first_free(moves, 0) {
        None => moves,
        Some(k) => {
            let rest = moves.remove(k);
            let knot = lemma_knot(rest);
            assert forall|i: int| 0 <= i < knot.len() implies moves.contains(#[trigger] knot[i]) && is_read(
                knot,
                knot[i].dst,
            ) by {
                assert(rest.contains(knot[i]));
                let j = rest.index_of(knot[i]);
                let m = if j < k {
                    j
                } else {
                    j + 1
                };
                assert(moves[m] == knot[i]);
            }
            knot
        },
    }
}

} // verus!
