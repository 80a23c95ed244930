//! Calls in lowered code.
//!
//! A call moves its arguments to `r1` to `r5`. Registers there that are still
//! in use are kept elsewhere and put back behind the call.
use vstd::prelude::*;

use crate::isa::insn::{Insn, Operand, Reg};
use crate::ssa::{SsaError, SsaValue};
use crate::ssa::carried::{
    carried, does_step, fitting, in_homes, lemma_home, lemma_own_home, lemma_stepped,
    lemma_use_found,
};
use crate::ssa::code::{
    after_moves, at_once, comes_to, lemma_after_len, lemma_comes_end, lemma_comes_on,
    lemma_comes_refl, lemma_comes_step, lemma_ends_now, lemma_fetch, lemma_fetch_len,
    lemma_insn_placed, lemma_run_moves, lemma_run_ordered, movable, moved_on, source_in, Code,
};
use crate::ssa::emit::{mov, moves_pieces, ordered_pieces, plain, Piece, Plan};
use crate::ssa::moves::{distinct, writes, MoveSrc, PlacedMove};
use crate::ssa::run::{called, lemma_call_agrees, numbers_of, with_value, world_of, Given, SsaState};
use crate::ssa::scope::{lemma_def_ok, lemma_move};
use crate::ssa::tidy::Wants;
use crate::vm::{StepResult, VmModel};

verus! {

/// Moves one after another, where no move writes what another reads.
proof fn lemma_spread(regs: Seq<i64>, list: Seq<PlacedMove>, n: nat)
    requires
        regs.len() == 11,
        n <= list.len(),
        forall|i: int| 0 <= i < list.len() ==> movable(#[trigger] list[i]),
        distinct(list),
        forall|i: int, j: int|
            0 <= i < list.len() && 0 <= j < list.len() ==> (#[trigger] list[i]).src != MoveSrc::Reg(
                (#[trigger] list[j]).dst,
            ),
    ensures
        after_moves(regs, list, n).len() == 11,
        forall|i: int|
            0 <= i < n ==> after_moves(regs, list, n)[(#[trigger] list[i]).dst.0 as int] == source_in(
                regs,
                list[i].src,
            ),
        forall|r: Reg|
            r.0 <= 10 && !(#[trigger] writes(list, r)) ==> after_moves(regs, list, n)[r.0 as int] == regs[r.0 as int],
    decreases n,
{
    lemma_after_len(regs, list, n);
    if n > 0 {
        let m = (n - 1) as nat;
        lemma_spread(regs, list, m);
        let mid = after_moves(regs, list, m);
        let all = after_moves(regs, list, n);
        let last = list[m as int];
        assert(movable(last));
        assert(source_in(mid, last.src) == source_in(regs, last.src)) by {
            if let MoveSrc::Reg(s) = last.src {
                lemma_unwritten(regs, list, m, s);
            }
        }
        assert forall|i: int| 0 <= i < n implies all[(#[trigger] list[i]).dst.0 as int] == source_in(regs, list[i].src) by {
            if i < m {
                assert(list[i].dst != list[m as int].dst);
                if list[i].dst.0 == last.dst.0 {
                    assert(list[i].dst == last.dst);
                }
            }
        }
        assert forall|r: Reg| r.0 <= 10 && !(#[trigger] writes(list, r)) implies all[r.0 as int] == regs[r.0 as int] by {
            if r.0 == last.dst.0 {
                assert(last.dst == r);
                assert(writes(list, r));
            }
        }
    }
}

proof fn lemma_unwritten(regs: Seq<i64>, list: Seq<PlacedMove>, n: nat, r: Reg)
    requires
        regs.len() == 11,
        n <= list.len(),
        r.0 <= 10,
        forall|i: int| 0 <= i < list.len() ==> movable(#[trigger] list[i]),
        forall|j: int| 0 <= j < list.len() ==> (#[trigger] list[j]).dst != r,
    ensures
        after_moves(regs, list, n)[r.0 as int] == regs[r.0 as int],
    decreases n,
{
    lemma_after_len(regs, list, n);
    if n > 0 {
        lemma_after_len(regs, list, (n - 1) as nat);
        lemma_unwritten(regs, list, (n - 1) as nat, r);
        let last = list[n - 1];
        assert(movable(last));
        if last.dst.0 == r.0 {
            assert(last.dst == r);
        }
    }
}

/// Whether all arguments are in registers.
spec fn all_homed(plan: Plan, args: Seq<SsaValue>) -> bool {
    forall|i: int| 0 <= i < 5 ==> plan.home(#[trigger] args[i]) is Some && (plan.home(args[i])->0).0 <= 10
}

/// The moves that bring arguments to their registers.
proof fn lemma_shuffle(plan: Plan, args: Seq<SsaValue>, n: nat)
    requires
        n <= 5,
        args.len() == 5,
        all_homed(plan, args),
    ensures
        distinct(plan.shuffle(args, n)),
        plan.shuffle(args, n).len() <= n,
        forall|i: int|
            0 <= i < plan.shuffle(args, n).len() ==> movable(#[trigger] plan.shuffle(args, n)[i]) && 1
                <= plan.shuffle(args, n)[i].dst.0 <= n && plan.shuffle(args, n)[i].src == MoveSrc::Reg(
                plan.home(args[plan.shuffle(args, n)[i].dst.0 - 1])->0,
            ),
        forall|k: int|
            0 <= k < n && plan.home(#[trigger] args[k]) != Some(Reg((k + 1) as u8)) ==> writes(
                plan.shuffle(args, n),
                Reg((k + 1) as u8),
            ),
        forall|k: int|
            0 <= k < n && plan.home(#[trigger] args[k]) == Some(Reg((k + 1) as u8)) ==> !writes(
                plan.shuffle(args, n),
                Reg((k + 1) as u8),
            ),
    decreases n,
{
    if n > 0 {
        let m = (n - 1) as nat;
        lemma_shuffle(plan, args, m);
        let rest = plan.shuffle(args, m);
        let all = plan.shuffle(args, n);
        assert(plan.home(args[m as int]) is Some);
        assert forall|k: int| 0 <= k < n && plan.home(#[trigger] args[k]) != Some(Reg((k + 1) as u8)) implies writes(
            all,
            Reg((k + 1) as u8),
        ) by {
            if k < m {
                assert(writes(rest, Reg((k + 1) as u8)));
                let i = choose|i: int| 0 <= i < rest.len() && (#[trigger] rest[i]).dst == Reg((k + 1) as u8);
                assert(all[i] == rest[i]);
            } else {
                assert(all[rest.len() as int].dst == Reg(n as u8));
            }
        }
        assert forall|k: int| 0 <= k < n && plan.home(#[trigger] args[k]) == Some(Reg((k + 1) as u8)) implies !writes(
            all,
            Reg((k + 1) as u8),
        ) by {
            if writes(all, Reg((k + 1) as u8)) {
                let i = choose|i: int| 0 <= i < all.len() && (#[trigger] all[i]).dst == Reg((k + 1) as u8);
                if i < rest.len() {
                    assert(rest[i] == all[i]);
                    if k < m {
                        assert(writes(rest, Reg((k + 1) as u8)));
                    }
                }
            }
        }
    }
}

/// The register that is found for something to keep.
proof fn lemma_temp(plan: Plan, moves: Seq<PlacedMove>, saves: Seq<(Reg, Reg)>, pos: int, i: nat)
    ensures
        plan.first_temp(moves, saves, pos, i) matches Some(t) ==> plan.can_save(moves, saves, pos, t) && t.0 < 10,
    decreases 10 - i,
{
    if i < 10 {
        lemma_temp(plan, moves, saves, pos, i + 1);
    }
}

/// Whether one of the first `n` moves writes a register.
#[verifier::opaque]
spec fn written_by(moves: Seq<PlacedMove>, n: nat, r: Reg) -> bool {
    exists|j: int| 0 <= j < n && (#[trigger] moves[j]).dst == r
}

/// Whether a register is kept.
#[verifier::opaque]
spec fn is_kept(saves: Seq<(Reg, Reg)>, r: Reg) -> bool {
    exists|k: int| 0 <= k < saves.len() && (#[trigger] saves[k]).0 == r
}

/// Whether saved registers are destinations that are in use, and are kept in
/// different free registers.
spec fn kept_apart(plan: Plan, moves: Seq<PlacedMove>, saves: Seq<(Reg, Reg)>, pos: int, n: nat) -> bool {
    &&& forall|k: int|
        0 <= k < saves.len() ==> plan.crosses((#[trigger] saves[k]).0, pos) && !plan.holds(saves[k].1, pos)
            && saves[k].1.0 < 10 && saves[k].1 != Reg(0) && 1 <= saves[k].0.0 <= 5 && written_by(
            moves,
            n,
            saves[k].0,
        )
    &&& forall|j: int|
        0 <= j < n && plan.crosses((#[trigger] moves[j]).dst, pos) ==> is_kept(saves, moves[j].dst)
    &&& forall|i: int, k: int|
        0 <= i < k < saves.len() ==> (#[trigger] saves[i]).0 != (#[trigger] saves[k]).0 && saves[i].1 != saves[k].1
}

proof fn lemma_written_by(moves: Seq<PlacedMove>, n: nat, r: Reg)
    requires
        n < moves.len(),
    ensures
        written_by(moves, n, r) ==> written_by(moves, n + 1, r),
        written_by(moves, n + 1, moves[n as int].dst),
        distinct(moves) ==> !written_by(moves, n, moves[n as int].dst),
{
    reveal(written_by);
    if written_by(moves, n, r) {
        let j = choose|j: int| 0 <= j < n && (#[trigger] moves[j]).dst == r;
        assert(moves[j].dst == r);
    }
    assert(moves[n as int].dst == moves[n as int].dst);
    if distinct(moves) && written_by(moves, n, moves[n as int].dst) {
        let j = choose|j: int| 0 <= j < n && (#[trigger] moves[j]).dst == moves[n as int].dst;
        assert(moves[j].dst != moves[n as int].dst);
    }
}

proof fn lemma_is_kept(saves: Seq<(Reg, Reg)>, s: (Reg, Reg), r: Reg)
    ensures
        is_kept(saves, r) ==> is_kept(saves.push(s), r),
        is_kept(saves.push(s), s.0),
{
    reveal(is_kept);
    let all = saves.push(s);
    if is_kept(saves, r) {
        let k = choose|k: int| 0 <= k < saves.len() && (#[trigger] saves[k]).0 == r;
        assert(all[k] == saves[k]);
    }
    assert(all[saves.len() as int] == s);
}

/// One register more is kept.
proof fn lemma_kept_more(plan: Plan, moves: Seq<PlacedMove>, rest: Seq<(Reg, Reg)>, pos: int, m: nat, t: Reg)
    requires
        m < moves.len(),
        distinct(moves),
        1 <= moves[m as int].dst.0 <= 5,
        kept_apart(plan, moves, rest, pos, m),
        plan.crosses(moves[m as int].dst, pos),
        plan.can_save(moves, rest, pos, t),
        t.0 < 10,
    ensures
        kept_apart(plan, moves, rest.push((moves[m as int].dst, t)), pos, m + 1),
{
    let dst = moves[m as int].dst;
    let all = rest.push((dst, t));
    assert forall|k: int| 0 <= k < all.len() implies plan.crosses((#[trigger] all[k]).0, pos) && !plan.holds(
        all[k].1,
        pos,
    ) && all[k].1.0 < 10 && all[k].1 != Reg(0) && 1 <= all[k].0.0 <= 5 && written_by(moves, m + 1, all[k].0) by {
        lemma_written_by(moves, m, all[k].0);
        if k < rest.len() {
            assert(all[k] == rest[k]);
        }
    }
    assert forall|j: int| 0 <= j < m + 1 && plan.crosses((#[trigger] moves[j]).dst, pos) implies is_kept(
        all,
        moves[j].dst,
    ) by {
        lemma_is_kept(rest, (dst, t), moves[j].dst);
    }
    assert forall|i: int, k: int| 0 <= i < k < all.len() implies (#[trigger] all[i]).0 != (#[trigger] all[k]).0
        && all[i].1 != all[k].1 by {
        assert(all[i] == rest[i]);
        if k < rest.len() {
            assert(all[k] == rest[k]);
        } else {
            lemma_written_by(moves, m, rest[i].0);
            assert(written_by(moves, m, rest[i].0));
        }
    }
}

/// No register more is kept.
proof fn lemma_kept_same(plan: Plan, moves: Seq<PlacedMove>, rest: Seq<(Reg, Reg)>, pos: int, m: nat)
    requires
        m < moves.len(),
        kept_apart(plan, moves, rest, pos, m),
        !plan.crosses(moves[m as int].dst, pos),
    ensures
        kept_apart(plan, moves, rest, pos, m + 1),
{
    assert forall|k: int| 0 <= k < rest.len() implies written_by(moves, m + 1, (#[trigger] rest[k]).0) by {
        lemma_written_by(moves, m, rest[k].0);
    }
}

proof fn lemma_saves(plan: Plan, moves: Seq<PlacedMove>, pos: int, n: nat)
    requires
        n <= moves.len(),
        distinct(moves),
        forall|i: int| 0 <= i < moves.len() ==> 1 <= (#[trigger] moves[i]).dst.0 <= 5,
    ensures
        plan.saves(moves, pos, n) matches Some(saves) ==> kept_apart(plan, moves, saves, pos, n),
    decreases n,
{
    if n > 0 {
        let m = (n - 1) as nat;
        lemma_saves(plan, moves, pos, m);
        if let Some(rest) = plan.saves(moves, pos, m) {
            assert(1 <= moves[m as int].dst.0 <= 5);
            if plan.crosses(moves[m as int].dst, pos) {
                lemma_temp(plan, moves, rest, pos, 0);
                if let Some(t) = plan.first_temp(moves, rest, pos, 0) {
                    lemma_kept_more(plan, moves, rest, pos, m, t);
                }
            } else {
                lemma_kept_same(plan, moves, rest, pos, m);
            }
        }
    }
}

/// The moves that keep registers.
spec fn keeping(saves: Seq<(Reg, Reg)>) -> Seq<PlacedMove> {
    saves.map_values(|s: (Reg, Reg)| PlacedMove { dst: s.1, src: MoveSrc::Reg(s.0) })
}

/// The moves that put registers back.
spec fn returning(saves: Seq<(Reg, Reg)>) -> Seq<PlacedMove> {
    saves.map_values(|s: (Reg, Reg)| PlacedMove { dst: s.0, src: MoveSrc::Reg(s.1) })
}

/// Moves between different registers are all emitted.
proof fn lemma_plain_moves(list: Seq<PlacedMove>, n: nat)
    requires
        n <= list.len(),
        forall|i: int| 0 <= i < list.len() ==> (#[trigger] list[i]).src is Reg && list[i].src->Reg_0 != list[i].dst,
    ensures
        moves_pieces(list, n).len() == n,
        forall|i: int|
            0 <= i < n ==> #[trigger] moves_pieces(list, n)[i] == plain(mov(list[i].dst, Operand::Reg(list[i].src->Reg_0))),
    decreases n,
{
    if n > 0 {
        lemma_plain_moves(list, (n - 1) as nat);
        assert(list[n - 1].src is Reg);
    }
}

/// Keeping and returning are moves apart from each other.
proof fn lemma_kept_moves(plan: Plan, moves: Seq<PlacedMove>, saves: Seq<(Reg, Reg)>, pos: int, n: nat)
    requires
        kept_apart(plan, moves, saves, pos, n),
    ensures
        distinct(keeping(saves)),
        distinct(returning(saves)),
        forall|i: int| 0 <= i < saves.len() ==> movable(#[trigger] keeping(saves)[i]),
        forall|i: int| 0 <= i < saves.len() ==> movable(#[trigger] returning(saves)[i]),
        forall|i: int, j: int|
            0 <= i < saves.len() && 0 <= j < saves.len() ==> (#[trigger] keeping(saves)[i]).src != MoveSrc::Reg(
                (#[trigger] keeping(saves)[j]).dst,
            ),
        forall|i: int, j: int|
            0 <= i < saves.len() && 0 <= j < saves.len() ==> (#[trigger] returning(saves)[i]).src != MoveSrc::Reg(
                (#[trigger] returning(saves)[j]).dst,
            ),
{
    let a = keeping(saves);
    let b = returning(saves);
    assert forall|i: int, j: int| 0 <= i < saves.len() && 0 <= j < saves.len() implies (#[trigger] a[i]).src
        != MoveSrc::Reg((#[trigger] a[j]).dst) by {
        assert(plan.crosses(saves[i].0, pos));
        assert(!plan.holds(saves[j].1, pos));
    }
    assert forall|i: int, j: int| 0 <= i < saves.len() && 0 <= j < saves.len() implies (#[trigger] b[i]).src
        != MoveSrc::Reg((#[trigger] b[j]).dst) by {
        assert(plan.crosses(saves[j].0, pos));
        assert(!plan.holds(saves[i].1, pos));
    }
    assert forall|i: int, j: int| 0 <= i < j < a.len() implies (#[trigger] a[i]).dst != (#[trigger] a[j]).dst by {
        assert(saves[i].1 != saves[j].1);
    }
    assert forall|i: int, j: int| 0 <= i < j < b.len() implies (#[trigger] b[i]).dst != (#[trigger] b[j]).dst by {
        assert(saves[i].0 != saves[j].0);
    }
    assert forall|i: int| 0 <= i < saves.len() implies movable(#[trigger] a[i]) by {
        assert(saves[i].1.0 < 10);
    }
    assert forall|i: int| 0 <= i < saves.len() implies movable(#[trigger] b[i]) by {
        assert(saves[i].1.0 < 10);
    }
}

/// Registers around a call: as kept, as shuffled, behind the call with its
/// result in place, and put back.
spec fn around_call(
    plan: Plan,
    saves: Seq<(Reg, Reg)>,
    moves: Seq<PlacedMove>,
    regs: Seq<i64>,
    kept: Seq<i64>,
    shuffled: Seq<i64>,
    result: Seq<i64>,
    back: Seq<i64>,
) -> bool {
    &&& kept == after_moves(regs, keeping(saves), saves.len())
    &&& at_once(kept, shuffled, moves)
    &&& back == after_moves(result, returning(saves), saves.len())
}

/// What the registers hold around a call.
proof fn lemma_around(
    c: Code,
    w: Wants,
    g: Given,
    s: SsaState,
    saves: Seq<(Reg, Reg)>,
    regs: Seq<i64>,
    kept: Seq<i64>,
    shuffled: Seq<i64>,
    result: Seq<i64>,
    back: Seq<i64>,
    x: i64,
)
    requires
        fitting(c, w),
        c.plan.prog.sane(g, s),
        c.plan.prog.within(s.block, s.at),
        in_homes(c, w, s.block, s.at, s.env, regs),
        c.plan.prog.insns[s.at] is Call,
        ({
            let args = c.plan.prog.insns[s.at]->Call_args;
            let d = c.plan.prog.insns[s.at]->Call_dst;
            let moves = c.plan.shuffle(args, 5);
            &&& args.len() == 5
            &&& all_homed(c.plan, args)
            &&& c.plan.saves(moves, s.at, moves.len()) == Some(saves)
            &&& around_call(c.plan, saves, moves, regs, kept, shuffled, result, back)
            &&& result == (match c.plan.home(d) {
                Some(r) => if r != Reg(0) {
                    shuffled.update(0, x).update(r.0 as int, x)
                } else {
                    shuffled.update(0, x)
                },
                None => shuffled.update(0, x),
            })
        }),
        regs.len() == 11,
    ensures
        back.len() == 11,
        back[10] == regs[10],
        in_homes(c, w, s.block, s.at + 1, with_value(s.env, c.plan.prog.insns[s.at]->Call_dst, x), back),
{
    let p = c.plan.prog;
    let op = p.insns[s.at];
    let args = op->Call_args;
    let d = op->Call_dst;
    let moves = c.plan.shuffle(args, 5);
    let env = with_value(s.env, d, x);
    lemma_def_ok(p, s.block, s.at);
    assert(p.def_of(d) == Some(op));
    lemma_shuffle(c.plan, args, 5);
    lemma_saves(c.plan, moves, s.at, moves.len());
    lemma_kept_moves(c.plan, moves, saves, s.at, moves.len());
    assert(c.plan.spares_at(w, s.block, s.at));
    assert(c.plan.wants_before(w, s.block, s.at));
    lemma_spread(regs, keeping(saves), saves.len());
    lemma_spread(result, returning(saves), saves.len());
    if c.plan.home(d) is Some {
        lemma_own_home(c, w, d);
    }
    assert forall|r: Reg| r.0 <= 10 && r != Reg(0) && c.plan.home(d) != Some(r) && (forall|k: int|
        0 <= k < saves.len() ==> (#[trigger] saves[k]).1 != r) && (writes(moves, r) ==> c.plan.crosses(r, s.at)) implies back[r.0 as int]
        == #[trigger] regs[r.0 as int] by {
        lemma_through_call(c, w, s, saves, moves, regs, kept, shuffled, result, back, x, d, r);
    }
    assert forall|v: SsaValue| #[trigger] p.known(s.block, s.at + 1, v) && w(s.block, s.at + 1, v) implies (c.plan.home(v)
        matches Some(r) ==> back[r.0 as int] == env(v)) by {
        if let Some(r) = c.plan.home(v) {
            lemma_home(c, v);
            if v == d {
                assert(!writes(returning(saves), r)) by {
                    if writes(returning(saves), r) {
                        let k = choose|k: int|
                            0 <= k < returning(saves).len() && (#[trigger] returning(saves)[k]).dst == r;
                        assert(saves[k].0 == r);
                    }
                }
                assert(back[r.0 as int] == result[r.0 as int]);
            } else {
                assert(p.known(s.block, s.at, v)) by {
                    if p.within(s.block, p.site(v)) && p.site(v) == s.at {
                        assert(p.def_of(v)->0 == op);
                    }
                }
                assert(w(s.block, s.at, v));
                assert(regs[r.0 as int] == (s.env)(v));
            }
        }
    }
    let ten = Reg(10);
    assert(!writes(moves, ten));
    assert(back[ten.0 as int] == regs[ten.0 as int]);
}

/// A register that a call leaves alone, or puts back.
proof fn lemma_through_call(
    c: Code,
    w: Wants,
    s: SsaState,
    saves: Seq<(Reg, Reg)>,
    moves: Seq<PlacedMove>,
    regs: Seq<i64>,
    kept: Seq<i64>,
    shuffled: Seq<i64>,
    result: Seq<i64>,
    back: Seq<i64>,
    x: i64,
    d: SsaValue,
    r: Reg,
)
    requires
        regs.len() == 11,
        shuffled.len() == 11,
        kept_apart(c.plan, moves, saves, s.at, moves.len()),
        around_call(c.plan, saves, moves, regs, kept, shuffled, result, back),
        result == (match c.plan.home(d) {
            Some(r) => if r != Reg(0) {
                shuffled.update(0, x).update(r.0 as int, x)
            } else {
                shuffled.update(0, x)
            },
            None => shuffled.update(0, x),
        }),
        c.plan.home(d) matches Some(q) ==> q.0 < 10 && (forall|k: int|
            0 <= k < saves.len() ==> (#[trigger] saves[k]).1 != q),
        forall|k: int| 0 <= k < saves.len() ==> !writes(moves, (#[trigger] saves[k]).1),
        r.0 <= 10,
        r != Reg(0),
        c.plan.home(d) != Some(r),
        forall|k: int| 0 <= k < saves.len() ==> (#[trigger] saves[k]).1 != r,
        forall|k: int| 0 <= k < saves.len() ==> (#[trigger] saves[k]).1 != Reg(0),
        writes(moves, r) ==> c.plan.crosses(r, s.at),
    ensures
        back[r.0 as int] == regs[r.0 as int],
{
    lemma_kept_moves(c.plan, moves, saves, s.at, moves.len());
    lemma_spread(regs, keeping(saves), saves.len());
    lemma_spread(result, returning(saves), saves.len());
    assert(!writes(keeping(saves), r)) by {
        if writes(keeping(saves), r) {
            let k = choose|k: int| 0 <= k < keeping(saves).len() && (#[trigger] keeping(saves)[k]).dst == r;
            assert(saves[k].1 == r);
        }
    }
    if r.0 == 0 {
        assert(r == Reg(0));
    }
    if let Some(q) = c.plan.home(d) {
        if q.0 == r.0 {
            assert(q == r);
        }
    }
    if writes(moves, r) {
        let j = choose|j: int| 0 <= j < moves.len() && (#[trigger] moves[j]).dst == r;
        assert(c.plan.crosses(moves[j].dst, s.at));
        assert(is_kept(saves, moves[j].dst));
        reveal(is_kept);
        let k = choose|k: int| 0 <= k < saves.len() && (#[trigger] saves[k]).0 == moves[j].dst;
        let t = saves[k].1;
        assert(returning(saves)[k] == (PlacedMove { dst: r, src: MoveSrc::Reg(t) }));
        assert(back[r.0 as int] == source_in(result, MoveSrc::Reg(t)));
        assert(t.0 < 10 && t != Reg(0));
        if t.0 == 0 {
            assert(t == Reg(0));
        }
        if let Some(q) = c.plan.home(d) {
            if q.0 == t.0 {
                assert(q == t);
            }
        }
        assert(result[t.0 as int] == shuffled[t.0 as int]);
        assert(!writes(moves, t));
        assert(shuffled[t.0 as int] == kept[t.0 as int]);
        assert(keeping(saves)[k] == (PlacedMove { dst: t, src: MoveSrc::Reg(r) }));
        assert(kept[t.0 as int] == regs[r.0 as int]);
    } else {
        assert(!writes(returning(saves), r)) by {
            if writes(returning(saves), r) {
                let k = choose|k: int|
                    0 <= k < returning(saves).len() && (#[trigger] returning(saves)[k]).dst == r;
                assert(saves[k].0 == r);
                assert(written_by(moves, moves.len(), saves[k].0));
                reveal(written_by);
                assert(writes(moves, r));
            }
        }
    }
}

/// Pieces at the front of others stand at the same place.
pub proof fn lemma_holds_front(c: Code, pc: int, a: Seq<Piece>, b: Seq<Piece>)
    requires
        c.holds(pc, a + b),
    ensures
        c.holds(pc, a),
        c.holds(pc + a.len(), b),
{
    let all = a + b;
    assert forall|k: int| 0 <= k < a.len() implies c.pieces[pc + k] == #[trigger] a[k] by {
        assert(all[k] == a[k]);
    }
    assert forall|k: int| 0 <= k < b.len() implies c.pieces[pc + a.len() + k] == #[trigger] b[k] by {
        assert(all[a.len() + k] == b[k]);
        assert(c.pieces[pc + (a.len() + k)] == all[a.len() + k]);
    }
}

/// The argument registers hold the arguments.
proof fn lemma_arguments(
    c: Code,
    w: Wants,
    g: Given,
    s: SsaState,
    m: VmModel,
    saves: Seq<(Reg, Reg)>,
    kept: Seq<i64>,
    shuffled: Seq<i64>,
)
    requires
        fitting(c, w),
        carried(c, w, g, s, m),
        c.plan.prog.within(s.block, s.at),
        c.plan.prog.insns[s.at] is Call,
        ({
            let args = c.plan.prog.insns[s.at]->Call_args;
            let moves = c.plan.shuffle(args, 5);
            &&& args.len() == 5
            &&& all_homed(c.plan, args)
            &&& c.plan.saves(moves, s.at, moves.len()) == Some(saves)
            &&& kept == after_moves(m.regs, keeping(saves), saves.len())
            &&& at_once(kept, shuffled, moves)
        }),
    ensures
        forall|i: int|
            0 <= i < 5 ==> #[trigger] numbers_of(s.env, c.plan.prog.insns[s.at]->Call_args)[i] == shuffled[i + 1],
{
    let p = c.plan.prog;
    let op = p.insns[s.at];
    let args = op->Call_args;
    let moves = c.plan.shuffle(args, 5);
    lemma_shuffle(c.plan, args, 5);
    lemma_saves(c.plan, moves, s.at, moves.len());
    lemma_kept_moves(c.plan, moves, saves, s.at, moves.len());
    lemma_spread(m.regs, keeping(saves), saves.len());
    assert(c.plan.spares_at(w, s.block, s.at));
    assert forall|i: int| 0 <= i < 5 implies #[trigger] numbers_of(s.env, args)[i] == shuffled[i + 1] by {
        let v = args[i];
        assert(op.uses()[i] == v);
        lemma_use_found(c, w, g, s, m, i);
        let home = c.plan.home(v)->0;
        assert(m.regs[home.0 as int] == (s.env)(v));
        assert(!writes(keeping(saves), home)) by {
            if writes(keeping(saves), home) {
                let k = choose|k: int| 0 <= k < keeping(saves).len() && (#[trigger] keeping(saves)[k]).dst == home;
                assert(saves[k].1 == home);
                assert(c.plan.home(args[i]) != Some(saves[k].1));
            }
        }
        assert(kept[home.0 as int] == (s.env)(v));
        let to = Reg((i + 1) as u8);
        if home == to {
            assert(!writes(moves, to));
        } else {
            assert(writes(moves, to));
            let j = choose|j: int| 0 <= j < moves.len() && (#[trigger] moves[j]).dst == to;
            assert(moves[j].src == MoveSrc::Reg(home));
            assert(shuffled[moves[j].dst.0 as int] == source_in(kept, moves[j].src));
        }
    }
}

/// Moves that are all emitted, run by the machine.
proof fn lemma_run_plain(c: Code, m: VmModel, list: Seq<PlacedMove>, some: Seq<Piece>, pc: int) -> (n: VmModel)
    requires
        c.ok(),
        c.at(m, pc),
        forall|i: int| 0 <= i < list.len() ==> movable(#[trigger] list[i]),
        forall|i: int| 0 <= i < list.len() ==> (#[trigger] list[i]).src is Reg && list[i].src->Reg_0 != list[i].dst,
        some.len() == list.len(),
        forall|i: int|
            0 <= i < list.len() ==> #[trigger] some[i] == plain(mov(list[i].dst, Operand::Reg(list[i].src->Reg_0))),
        c.holds(pc, some),
    ensures
        comes_to(m, n),
        c.at(n, pc + some.len()),
        n == moved_on(m, after_moves(m.regs, list, list.len()), pc + some.len()),
        world_of(n) == world_of(m),
{
    let count = list.len();
    lemma_plain_moves(list, count);
    assert(moves_pieces(list, count) =~= some);
    lemma_run_moves(c, m, list, count, pc);
    lemma_after_len(m.regs, list, count);
    lemma_fetch_len(c);
    moved_on(m, after_moves(m.regs, list, count), pc + some.len())
}

/// The pieces that keep registers.
spec fn keep_pieces(saves: Seq<(Reg, Reg)>) -> Seq<Piece> {
    saves.map_values(|s: (Reg, Reg)| plain(mov(s.1, Operand::Reg(s.0))))
}

/// The pieces that put registers back.
spec fn back_pieces(saves: Seq<(Reg, Reg)>) -> Seq<Piece> {
    saves.map_values(|s: (Reg, Reg)| plain(mov(s.0, Operand::Reg(s.1))))
}

/// The pieces that move a result.
spec fn result_pieces(plan: Plan, d: SsaValue) -> Seq<Piece> {
    match plan.home(d) {
        Some(home) => if home != Reg(0) {
            seq![plain(mov(home, Operand::Reg(Reg(0))))]
        } else {
            Seq::empty()
        },
        None => Seq::empty(),
    }
}

/// Registers with a result moved.
spec fn with_result(plan: Plan, d: SsaValue, regs: Seq<i64>, x: i64) -> Seq<i64> {
    match plan.home(d) {
        Some(r) => if r != Reg(0) {
            regs.update(0, x).update(r.0 as int, x)
        } else {
            regs.update(0, x)
        },
        None => regs.update(0, x),
    }
}

/// What a call is emitted as, and where the parts stand.
spec fn call_parts(c: Code, s: SsaState, saves: Seq<(Reg, Reg)>) -> bool {
    let op = c.plan.prog.insns[s.at];
    let args = op->Call_args;
    let moves = c.plan.shuffle(args, 5);
    let shuffled = ordered_pieces(moves, SsaError::CallArgCycle);
    let pc = c.insn_at(s.block, s.at);
    let then_pc = pc + saves.len() + (shuffled->Ok_0).len();
    &&& all_homed(c.plan, args)
    &&& c.plan.saves(moves, s.at, moves.len()) == Some(saves)
    &&& shuffled is Ok
    &&& c.holds(pc, keep_pieces(saves))
    &&& c.holds(pc + saves.len(), shuffled->Ok_0)
    &&& c.holds(then_pc, seq![plain(Insn::Call { func: op->Call_func })])
    &&& c.holds(then_pc + 1, result_pieces(c.plan, op->Call_dst))
    &&& c.holds(then_pc + 1 + result_pieces(c.plan, op->Call_dst).len(), back_pieces(saves))
    &&& (c.plan.op_pieces(s.at)->Ok_0).len() == saves.len() + (shuffled->Ok_0).len() + 1 + result_pieces(
        c.plan,
        op->Call_dst,
    ).len() + saves.len()
}

proof fn lemma_call_parts(c: Code, w: Wants, g: Given, s: SsaState, m: VmModel) -> (saves: Seq<(Reg, Reg)>)
    requires
        fitting(c, w),
        carried(c, w, g, s, m),
        c.plan.prog.within(s.block, s.at),
        c.plan.prog.insns[s.at] is Call,
        (c.plan.prog.insns[s.at]->Call_args).len() == 5,
    ensures
        call_parts(c, s, saves),
{
    let op = c.plan.prog.insns[s.at];
    let args = op->Call_args;
    let pc = c.insn_at(s.block, s.at);
    let moves = c.plan.shuffle(args, 5);
    lemma_insn_placed(c, s.block, s.at);
    assert(all_homed(c.plan, args)) by {
        assert forall|i: int| 0 <= i < 5 implies c.plan.home(#[trigger] args[i]) is Some && (c.plan.home(
            args[i],
        )->0).0 <= 10 by {
            lemma_home(c, args[i]);
        }
    }
    let saves = c.plan.saves(moves, s.at, moves.len())->0;
    let keep = keep_pieces(saves);
    let back = back_pieces(saves);
    let result = result_pieces(c.plan, op->Call_dst);
    let shuffle = ordered_pieces(moves, SsaError::CallArgCycle)->Ok_0;
    let call = seq![plain(Insn::Call { func: op->Call_func })];
    let all = c.plan.op_pieces(s.at)->Ok_0;
    assert(all == keep + shuffle + call + result + back);
    lemma_holds_front(c, pc, keep + shuffle + call + result, back);
    lemma_holds_front(c, pc, keep + shuffle + call, result);
    lemma_holds_front(c, pc, keep + shuffle, call);
    lemma_holds_front(c, pc, keep, shuffle);
    saves
}

/// The moves around a call are all emitted.
proof fn lemma_kept_pieces(plan: Plan, moves: Seq<PlacedMove>, saves: Seq<(Reg, Reg)>, pos: int, n: nat)
    requires
        kept_apart(plan, moves, saves, pos, n),
    ensures
        forall|i: int|
            0 <= i < saves.len() ==> (#[trigger] keeping(saves)[i]).src is Reg && keeping(saves)[i].src->Reg_0
                != keeping(saves)[i].dst,
        forall|i: int|
            0 <= i < saves.len() ==> (#[trigger] returning(saves)[i]).src is Reg && returning(saves)[i].src->Reg_0
                != returning(saves)[i].dst,
{
    lemma_kept_moves(plan, moves, saves, pos, n);
    assert forall|i: int| 0 <= i < saves.len() implies (#[trigger] keeping(saves)[i]).src is Reg && keeping(
        saves,
    )[i].src->Reg_0 != keeping(saves)[i].dst by {
        assert(keeping(saves)[i].src != MoveSrc::Reg(keeping(saves)[i].dst));
    }
    assert forall|i: int| 0 <= i < saves.len() implies (#[trigger] returning(saves)[i]).src is Reg && returning(
        saves,
    )[i].src->Reg_0 != returning(saves)[i].dst by {
        assert(returning(saves)[i].src != MoveSrc::Reg(returning(saves)[i].dst));
    }
}

/// The machine up to the call.
proof fn lemma_to_call(c: Code, w: Wants, g: Given, s: SsaState, m: VmModel, saves: Seq<(Reg, Reg)>) -> (r: (
    VmModel,
    VmModel,
))
    requires
        fitting(c, w),
        carried(c, w, g, s, m),
        c.plan.prog.within(s.block, s.at),
        c.plan.prog.insns[s.at] is Call,
        (c.plan.prog.insns[s.at]->Call_args).len() == 5,
        call_parts(c, s, saves),
    ensures
        ({
            let op = c.plan.prog.insns[s.at];
            let moves = c.plan.shuffle(op->Call_args, 5);
            let shuffle = ordered_pieces(moves, SsaError::CallArgCycle)->Ok_0;
            let (m1, m2) = r;
            &&& comes_to(m, m2)
            &&& c.at(m2, c.insn_at(s.block, s.at) + saves.len() + shuffle.len())
            &&& world_of(m2) == s.world
            &&& m1.regs == after_moves(m.regs, keeping(saves), saves.len())
            &&& at_once(m1.regs, m2.regs, moves)
            &&& forall|i: int| 0 <= i < 5 ==> #[trigger] numbers_of(s.env, op->Call_args)[i] == m2.regs[i + 1]
        }),
{
    let op = c.plan.prog.insns[s.at];
    let args = op->Call_args;
    let pc = c.insn_at(s.block, s.at);
    let moves = c.plan.shuffle(args, 5);
    lemma_shuffle(c.plan, args, 5);
    lemma_saves(c.plan, moves, s.at, moves.len());
    lemma_kept_moves(c.plan, moves, saves, s.at, moves.len());
    lemma_kept_pieces(c.plan, moves, saves, s.at, moves.len());
    let m1 = lemma_run_plain(c, m, keeping(saves), keep_pieces(saves), pc);
    let m2 = lemma_run_ordered(c, m1, moves, SsaError::CallArgCycle, pc + saves.len());
    lemma_comes_on(m, m1, m2);
    lemma_arguments(c, w, g, s, m, saves, m1.regs, m2.regs);
    (m1, m2)
}

/// The machine from the call on.
proof fn lemma_from_call(
    c: Code,
    w: Wants,
    g: Given,
    s: SsaState,
    m: VmModel,
    saves: Seq<(Reg, Reg)>,
    x: i64,
    before: Seq<i64>,
) -> (n: VmModel)
    requires
        fitting(c, w),
        c.plan.prog.sane(g, s),
        c.plan.prog.within(s.block, s.at),
        c.plan.prog.insns[s.at] is Call,
        (c.plan.prog.insns[s.at]->Call_args).len() == 5,
        call_parts(c, s, saves),
        c.at(
            m,
            c.insn_at(s.block, s.at) + saves.len() + (ordered_pieces(
                c.plan.shuffle(c.plan.prog.insns[s.at]->Call_args, 5),
                SsaError::CallArgCycle,
            )->Ok_0).len() + 1,
        ),
        before.len() == 11,
        m.regs == before.update(0, x),
    ensures
        comes_to(m, n),
        c.at(n, c.insn_at(s.block, s.at) + (c.plan.op_pieces(s.at)->Ok_0).len()),
        world_of(n) == world_of(m),
        n.regs == after_moves(
            with_result(c.plan, c.plan.prog.insns[s.at]->Call_dst, before, x),
            returning(saves),
            saves.len(),
        ),
{
    let p = c.plan.prog;
    let op = p.insns[s.at];
    let d = op->Call_dst;
    let moves = c.plan.shuffle(op->Call_args, 5);
    let pc = m.pc as int;
    lemma_def_ok(p, s.block, s.at);
    assert(p.def_of(d) == Some(op));
    lemma_fetch_len(c);
    lemma_shuffle(c.plan, op->Call_args, 5);
    lemma_saves(c.plan, moves, s.at, moves.len());
    lemma_kept_moves(c.plan, moves, saves, s.at, moves.len());
    lemma_kept_pieces(c.plan, moves, saves, s.at, moves.len());
    let result = result_pieces(c.plan, d);
    let regs = with_result(c.plan, d, before, x);
    let mid = moved_on(m, regs, pc + result.len());
    if result.len() > 0 {
        let r = c.plan.home(d)->0;
        lemma_own_home(c, w, d);
        assert(c.pieces[pc + 0] == result[0]);
        lemma_fetch(c, pc);
        lemma_move(m.regs[r.0 as int], x);
        assert(m.step() == (mid, StepResult::Continue));
        lemma_comes_step(m);
    } else {
        assert(mid == m);
        lemma_comes_refl(m);
    }
    let n = lemma_run_plain(c, mid, returning(saves), back_pieces(saves), pc + result.len());
    lemma_comes_on(m, mid, n);
    n
}

/// Calls.
pub proof fn lemma_do_call(c: Code, w: Wants, g: Given, s: SsaState, m: VmModel, limit: usize)
    requires
        fitting(c, w),
        carried(c, w, g, s, m),
        c.plan.prog.within(s.block, s.at),
        c.plan.prog.insns[s.at] is Call,
        (c.plan.prog.insns[s.at]->Call_args).len() == 5,
    ensures
        does_step(c, w, g, s, m, limit),
{
    let op = c.plan.prog.insns[s.at];
    let func = op->Call_func;
    let numbers = numbers_of(s.env, op->Call_args);
    let saves = lemma_call_parts(c, w, g, s, m);
    let (m1, m2) = lemma_to_call(c, w, g, s, m, saves);
    let pc = m2.pc as int;
    let call = seq![plain(Insn::Call { func })];
    lemma_fetch_len(c);
    lemma_call_agrees(m2, func, numbers);
    assert(c.pieces[pc + 0] == call[0]);
    lemma_fetch(c, pc);
    assert(m2.step() == m2.call(func));
    match called(s.world, func, numbers) {
        Err(e) => {
            lemma_ends_now(m2, limit);
            lemma_comes_end(m, m2, limit, (s.world, e));
        },
        Ok((world, x)) => {
            let m3 = m2.step().0;
            lemma_comes_step(m2);
            lemma_comes_on(m, m2, m3);
            let m5 = lemma_from_call(c, w, g, s, m3, saves, x, m2.regs);
            lemma_comes_on(m, m3, m5);
            let result = with_result(c.plan, op->Call_dst, m2.regs, x);
            lemma_around(c, w, g, s, saves, m.regs, m1.regs, m2.regs, result, m5.regs, x);
            lemma_stepped(c, w, g, s, m, m5, limit);
        },
    }
}

} // verus!
