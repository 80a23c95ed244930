//! What lowering saves: moves that move nothing, jumps to what comes next,
//! and registers that are free again.
use vstd::prelude::*;

use crate::cfg::{blocks, EdgeKind};
use crate::graph::out_edges;
use crate::isa::insn::{AluOp, Insn, JumpOp, Operand, Reg, Width};
use crate::ssa::emit::{
    cat, const_src, jump, mov, move_pieces, moves_at_end, moves_pieces, ordered_pieces, plain, tramp_keys, tramp_moves,
    Emitted, Piece, Placement, Plan, Target,
};
use crate::ssa::form::{unknown_from, unknown_in};
use crate::ssa::homes::{is_free, pool, Taken};
use crate::ssa::layout::first_of;
use crate::ssa::moves::{in_order, proper, writes, PlacedMove};
use crate::ssa::{Op, Prog, SsaError, SsaOperand, SsaValue};

verus! {

/// Whether an instruction copies a register to itself.
pub open spec fn copies_to_itself(insn: Insn) -> bool {
    insn matches Insn::Alu { width: Width::B64, op: AluOp::Mov, dst, src } && src == Operand::Reg(dst)
}

/// Whether no piece copies a register to itself.
spec fn thrifty(s: Seq<Piece>) -> bool {
    forall|i: int| 0 <= i < s.len() ==> !copies_to_itself((#[trigger] s[i]).insn)
}

spec fn all_thrifty(r: Emitted) -> bool {
    r matches Ok(s) ==> thrifty(s)
}

proof fn lemma_both(a: Seq<Piece>, b: Seq<Piece>)
    requires
        thrifty(a),
        thrifty(b),
    ensures
        thrifty(a + b),
{
    assert forall|i: int| 0 <= i < (a + b).len() implies !copies_to_itself((#[trigger] (a + b)[i]).insn) by {
        if i < a.len() {
            assert((a + b)[i] == a[i]);
        } else {
            assert((a + b)[i] == b[i - a.len()]);
        }
    }
}

proof fn lemma_cat(a: Emitted, b: Emitted)
    requires
        all_thrifty(a),
        all_thrifty(b),
    ensures
        all_thrifty(cat(a, b)),
{
    if a is Ok && b is Ok {
        lemma_both(a->Ok_0, b->Ok_0);
    }
}

proof fn lemma_moves(moves: Seq<PlacedMove>, n: nat)
    requires
        n <= moves.len(),
    ensures
        thrifty(moves_pieces(moves, n)),
    decreases n,
{
    if n > 0 {
        lemma_moves(moves, (n - 1) as nat);
        assert(thrifty(move_pieces(moves[n - 1])));
        lemma_both(moves_pieces(moves, (n - 1) as nat), move_pieces(moves[n - 1]));
    }
}

proof fn lemma_ordered(moves: Seq<PlacedMove>, cycle: SsaError)
    ensures
        all_thrifty(ordered_pieces(moves, cycle)),
{
    if let Some(list) = in_order(proper(moves)) {
        lemma_moves(list, list.len());
    }
}

proof fn lemma_temp(plan: Plan, moves: Seq<PlacedMove>, saves: Seq<(Reg, Reg)>, pos: int, i: nat)
    ensures
        plan.first_temp(moves, saves, pos, i) matches Some(temp) ==> !writes(moves, temp),
    decreases 10 - i,
{
    if i < 10 {
        lemma_temp(plan, moves, saves, pos, i + 1);
    }
}

proof fn lemma_saves(plan: Plan, moves: Seq<PlacedMove>, pos: int, n: nat)
    requires
        n <= moves.len(),
    ensures
        plan.saves(moves, pos, n) matches Some(saves) ==> forall|k: int|
            0 <= k < saves.len() ==> (#[trigger] saves[k]).0 != saves[k].1,
    decreases n,
{
    if n > 0 {
        lemma_saves(plan, moves, pos, (n - 1) as nat);
        if let Some(rest) = plan.saves(moves, pos, (n - 1) as nat) {
            lemma_temp(plan, moves, rest, pos, 0);
            assert(writes(moves, moves[n - 1].dst));
        }
    }
}

proof fn lemma_call(plan: Plan, dst: SsaValue, func: u32, args: Seq<SsaValue>, pos: int)
    ensures
        all_thrifty(plan.call_pieces(dst, func, args, pos)),
{
    let moves = plan.shuffle(args, 5);
    lemma_saves(plan, moves, pos, moves.len());
    lemma_ordered(moves, SsaError::CallArgCycle);
    if let Some(saves) = plan.saves(moves, pos, moves.len()) {
        if let Ok(shuffled) = ordered_pieces(moves, SsaError::CallArgCycle) {
            let keep = saves.map_values(|s: (Reg, Reg)| plain(mov(s.1, Operand::Reg(s.0))));
            let back = saves.map_values(|s: (Reg, Reg)| plain(mov(s.0, Operand::Reg(s.1))));
            assert(thrifty(keep)) by {
                assert forall|i: int| 0 <= i < keep.len() implies !copies_to_itself((#[trigger] keep[i]).insn) by {
                    assert(saves[i].0 != saves[i].1);
                }
            }
            assert(thrifty(back)) by {
                assert forall|i: int| 0 <= i < back.len() implies !copies_to_itself((#[trigger] back[i]).insn) by {
                    assert(saves[i].0 != saves[i].1);
                }
            }
            let result = match plan.home(dst) {
                Some(home) => if home != Reg(0) {
                    seq![plain(mov(home, Operand::Reg(Reg(0))))]
                } else {
                    Seq::empty()
                },
                None => Seq::empty(),
            };
            let call = seq![plain(Insn::Call { func })];
            assert(thrifty(result));
            assert(thrifty(call));
            lemma_both(keep, shuffled);
            lemma_both(keep + shuffled, call);
            lemma_both(keep + shuffled + call, result);
            lemma_both(keep + shuffled + call + result, back);
        }
    }
}

proof fn lemma_op(plan: Plan, i: int)
    ensures
        all_thrifty(plan.op_pieces(i)),
{
    match plan.prog.insns[i] {
        Op::Call { dst, func, args } => {
            lemma_call(plan, dst, func, args, i);
        },
        _ => {},
    }
}

proof fn lemma_body(plan: Plan, i: int, end: int)
    ensures
        all_thrifty(plan.body_pieces(i, end)),
    decreases end - i,
{
    if i < end && !plan.prog.insns[i].is_control() {
        lemma_op(plan, i);
        lemma_body(plan, i + 1, end);
        lemma_cat(plan.op_pieces(i), plan.body_pieces(i + 1, end));
    }
}

proof fn lemma_blocks(plan: Plan, list: Seq<Placement>, n: nat)
    ensures
        all_thrifty(plan.blocks_pieces(list, n)),
    decreases n,
{
    if n > 0 {
        lemma_blocks(plan, list, (n - 1) as nat);
        let b = plan.order[n - 1];
        let block = plan.prog.nodes[b as int];
        let body = plan.body_pieces(block.start as int, block.end as int);
        let ends = ordered_pieces(moves_at_end(plan, list, b), SsaError::PhiCycle);
        lemma_body(plan, block.start as int, block.end as int);
        lemma_ordered(moves_at_end(plan, list, b), SsaError::PhiCycle);
        lemma_cat(body, ends);
        assert(all_thrifty(plan.control_pieces(list, n - 1)));
        lemma_cat(cat(body, ends), plan.control_pieces(list, n - 1));
        lemma_cat(plan.blocks_pieces(list, (n - 1) as nat), plan.block_pieces(list, n - 1));
    }
}

proof fn lemma_pieces(plan: Plan, list: Seq<Placement>, n: nat)
    ensures
        all_thrifty(plan.pieces(list, n)),
    decreases n,
{
    if n == 0 {
        lemma_blocks(plan, list, plan.order.len());
    } else {
        lemma_pieces(plan, list, (n - 1) as nat);
        let key = tramp_keys(plan, list)[n - 1];
        let moves = ordered_pieces(tramp_moves(list, key), SsaError::PhiCycle);
        let back = Emitted::Ok(seq![jump(Target::Block(key.1))]);
        lemma_ordered(tramp_moves(list, key), SsaError::PhiCycle);
        assert(all_thrifty(back));
        lemma_cat(moves, back);
        lemma_cat(plan.pieces(list, (n - 1) as nat), plan.tramp_pieces(list, n - 1));
    }
}

/// Lowered code never copies a register to itself.
pub proof fn nothing_is_moved_in_place(plan: Plan, i: int)
    requires
        plan.lowered() is Ok,
        0 <= i < (plan.lowered()->Ok_0).len(),
    ensures
        !copies_to_itself((plan.lowered()->Ok_0)[i]),
{
    let list = plan.placements(0)->Ok_0;
    lemma_pieces(plan, list, tramp_keys(plan, list).len());
    let pieces = plan.all_pieces(list)->Ok_0;
    assert(!copies_to_itself(pieces[i].insn));
    assert((plan.lowered()->Ok_0)[i] == plan.resolved(list, i));
}

/// A constant that fits 32 bits takes one slot, and any other one two.
pub proof fn constants_are_short(dst: Reg, value: i64)
    ensures
        ({
            let pieces = move_pieces(PlacedMove { dst, src: const_src(value) });
            &&& pieces.len() == 1 && pieces[0].target is None
            &&& if -0x8000_0000 <= value <= 0x7fff_ffff {
                pieces[0].insn matches Insn::Alu { width: Width::B64, op: AluOp::Mov, dst: to, src: Operand::Imm(k) } && to
                    == dst && k == value
            } else {
                pieces[0].insn == (Insn::LoadImm64 { dst, imm: value })
            }
        }),
{
}

/// Moves run in a trampoline only where neither end of the edge can hold them:
/// other edges leave the one block, and other edges lead into the other one.
pub proof fn trampolines_are_on_critical_edges(plan: Plan, list: Seq<Placement>, k: int)
    requires
        0 <= k < tramp_keys(plan, list).len(),
    ensures
        ({
            let (p, b) = tramp_keys(plan, list)[k];
            plan.prog.successors(p).len() > 1 && plan.entries(b, plan.prog.nodes.len()) > 1
        }),
    decreases list.len(),
{
    if list.len() > 0 {
        let rest = tramp_keys(plan, list.drop_last());
        if k < rest.len() {
            trampolines_are_on_critical_edges(plan, list.drop_last(), k);
        }
    }
}

/// A block that goes on to the block behind it, on an edge without a
/// trampoline, needs no jump, and a branch with one of its targets there needs
/// no second one.
pub proof fn next_blocks_need_no_jump(plan: Plan, list: Seq<Placement>, pos: int)
    requires
        0 <= pos,
        pos + 1 < plan.order.len(),
        plan.prog.successors(plan.order[pos]).contains(plan.order[pos + 1]),
        !tramp_keys(plan, list).contains((plan.order[pos], plan.order[pos + 1])),
    ensures
        ({
            let (b, next) = (plan.order[pos], plan.order[pos + 1]);
            let end = plan.control_pieces(list, pos);
            match plan.prog.terminator(b) {
                None => plan.prog.successors(b)[0] == next ==> (end matches Ok(s) && s.len() == 0),
                Some(Op::Ja { target }) => target == next ==> (end matches Ok(s) && s.len() == 0),
                Some(Op::Br { op, false_target, true_target, .. }) => {
                    &&& false_target == Some(next) ==> (end matches Ok(s) ==> s.len() <= 1)
                    &&& true_target == Some(next) && false_target is Some && op != JumpOp::Jset && op != JumpOp::Always
                        && op != JumpOp::Call && op != JumpOp::Exit ==> (end matches Ok(s) ==> s.len() <= 1)
                },
                _ => true,
            }
        }),
{
}

proof fn lemma_first(out: Seq<(usize, EdgeKind)>, live: Seq<bool>, want: int, i: nat)
    ensures
        match first_of(out, live, want, i) {
            Some(t) => exists|k: int|
                i <= k < out.len() && (#[trigger] out[k]).0 == t && live[t as int] && crate::ssa::layout::rank(out[k].1)
                    == want,
            None => forall|k: int|
                i <= k < out.len() ==> !(live[(#[trigger] out[k]).0 as int] && crate::ssa::layout::rank(out[k].1)
                    == want),
        },
    decreases out.len() - i,
{
    if i < out.len() {
        lemma_first(out, live, want, i + 1);
    }
}

/// The block to lay out behind another one is one that it falls through to, if
/// that is live, else one where it goes if its branch is not taken, and else
/// any other live one.
pub proof fn fallthroughs_come_first(prog: Prog, live: Seq<bool>, block: usize, k: int)
    requires
        0 <= k < out_edges(prog.edges, block).len(),
        live[out_edges(prog.edges, block)[k].0 as int],
    ensures
        ({
            let out = out_edges(prog.edges, block);
            prog.preferred(live, block) matches Some(t) && live[t as int] && exists|m: int|
                0 <= m < out.len() && (#[trigger] out[m]).0 == t && (out[k].1 == EdgeKind::Fallthrough ==> out[m].1
                    == EdgeKind::Fallthrough) && (out[k].1 == EdgeKind::BranchFalse ==> out[m].1
                    == EdgeKind::Fallthrough || out[m].1 == EdgeKind::BranchFalse)
        }),
{
    let out = out_edges(prog.edges, block);
    lemma_first(out, live, 0, 0);
    lemma_first(out, live, 1, 0);
    lemma_first(out, live, 2, 0);
    let t = prog.preferred(live, block)->0;
    let want = if first_of(out, live, 0, 0) is Some {
        0int
    } else if first_of(out, live, 1, 0) is Some {
        1
    } else {
        2
    };
    assert(first_of(out, live, want, 0) == Some(t));
    let m = choose|m: int|
        0 <= m < out.len() && (#[trigger] out[m]).0 == t && live[t as int] && crate::ssa::layout::rank(out[m].1) == want;
    assert(out[m].0 == t);
}

/// Whether the block that is preferred behind the one at a position comes next,
/// or was laid out before.
pub open spec fn goes_on(prog: Prog, live: Seq<bool>, order: Seq<usize>, k: int) -> bool {
    prog.preferred(live, order[k]) matches Some(t) ==> order.take(k + 1).contains(t) || (k + 1 < order.len()
        && order[k + 1] == t)
}

/// Whether marks are on the blocks of an order.
spec fn marked(visited: Seq<bool>, order: Seq<usize>) -> bool {
    forall|b: usize| b < visited.len() ==> (#[trigger] visited[b as int] <==> order.contains(b))
}

proof fn lemma_preferred(prog: Prog, live: Seq<bool>, block: usize)
    requires
        prog.wf(),
    ensures
        prog.preferred(live, block) matches Some(t) ==> t < prog.nodes.len() && live[t as int],
{
    let out = out_edges(prog.edges, block);
    lemma_first(out, live, 0, 0);
    lemma_first(out, live, 1, 0);
    lemma_first(out, live, 2, 0);
    if let Some(t) = prog.preferred(live, block) {
        let m = choose|m: int| 0 <= m < out.len() && (#[trigger] out[m]).0 == t;
        crate::graph::lemma_out_edges(prog.edges, block, m);
        let e = prog.edges.index_of((block, out[m].0, out[m].1));
        assert(prog.edges[e].1 == t);
    }
}

proof fn lemma_chain(prog: Prog, live: Seq<bool>, visited: Seq<bool>, order: Seq<usize>, block: usize)
    requires
        prog.wf(),
        live.len() == prog.nodes.len(),
        visited.len() == prog.nodes.len(),
        marked(visited, order),
        forall|k: int| 0 <= k < order.len() - 1 ==> #[trigger] goes_on(prog, live, order, k),
        order.len() > 0 ==> goes_on(prog, live, order, order.len() - 1) || prog.preferred(live, order.last()) == Some(
            block,
        ),
    ensures
        ({
            let (v, o) = prog.chain(live, visited, order, block);
            v.len() == visited.len() && marked(v, o) && forall|k: int| 0 <= k < o.len() ==> #[trigger] goes_on(
                prog,
                live,
                o,
                k,
            )
        }),
    decreases crate::ssa::flow::unset(visited, visited.len()),
{
    if order.len() > 0 {
        lemma_preferred(prog, live, order.last());
        assert(order.take(order.len() as int) =~= order);
    }
    if block < visited.len() && live[block as int] && !visited[block as int] {
        crate::ssa::flow::lemma_unset_update(visited, visited.len(), block as int);
        let more = visited.update(block as int, true);
        let longer = order.push(block);
        assert(marked(more, longer)) by {
            assert forall|b: usize| b < more.len() implies (#[trigger] more[b as int] <==> longer.contains(b)) by {
                if order.contains(b) {
                    let j = order.index_of(b);
                    assert(longer[j] == b);
                }
                if b == block {
                    assert(longer[order.len() as int] == b);
                }
                assert(visited[b as int] <==> order.contains(b));
            }
        }
        assert forall|k: int| 0 <= k < longer.len() - 1 implies #[trigger] goes_on(prog, live, longer, k) by {
            assert(longer.take(k + 1) =~= order.take(k + 1));
            assert(longer[k] == order[k]);
            if k < order.len() - 1 {
                assert(goes_on(prog, live, order, k));
                assert(longer[k + 1] == order[k + 1]);
            } else {
                assert(longer[k + 1] == block);
            }
        }
        assert(longer.last() == block);
        if let Some(next) = prog.preferred(live, block) {
            lemma_chain(prog, live, more, longer, next);
        }
    }
}

proof fn lemma_laid(prog: Prog, live: Seq<bool>, n: nat)
    requires
        prog.wf(),
        live.len() == prog.nodes.len(),
    ensures
        ({
            let (v, o) = prog.laid_out(live, n);
            v.len() == prog.nodes.len() && marked(v, o) && forall|k: int| 0 <= k < o.len() ==> #[trigger] goes_on(
                prog,
                live,
                o,
                k,
            )
        }),
    decreases n,
{
    if n > 0 {
        lemma_laid(prog, live, (n - 1) as nat);
        let (v, o) = prog.laid_out(live, (n - 1) as nat);
        if o.len() > 0 {
            assert(goes_on(prog, live, o, o.len() - 1));
        }
        lemma_chain(prog, live, v, o, prog.chain_start(n - 1));
    }
}

/// Behind every block comes the one that is preferred there, unless it was laid
/// out before.
pub proof fn layouts_go_on(prog: Prog, live: Seq<bool>, k: int)
    requires
        prog.wf(),
        live.len() == prog.nodes.len(),
        0 <= k < prog.layout(live).len(),
    ensures
        goes_on(prog, live, prog.layout(live), k),
{
    lemma_laid(prog, live, prog.nodes.len());
}

/// An operation takes the register of its left operand, where the operand ends
/// with it and nothing else is there.
pub proof fn operations_reuse_registers(
    prog: Prog,
    homes: Seq<Option<Reg>>,
    active: Seq<Taken>,
    id: usize,
    left: SsaValue,
    home: Reg,
)
    requires
        prog.def_of(SsaValue(id as u32)) matches Some(Op::BinOp { lhs, .. }) && lhs == SsaOperand::Value(left),
        left.0 < homes.len(),
        homes[left.0 as int] == Some(home),
        home != Reg(10),
        home != Reg(0),
        prog.range_of(left.0 as int).0 <= prog.range_of(id as int).0,
        forall|i: int|
            0 <= i < active.len() && (#[trigger] active[i]).0 == home ==> active[i].2 == left.0 && active[i].1
                == prog.range_of(id as int).0 + 1,
    ensures
        prog.choose_home(homes, active, id as int) == Some(home),
{
}

/// A phi takes the register of its first input, where nothing is there.
pub proof fn phis_reuse_registers(
    prog: Prog,
    homes: Seq<Option<Reg>>,
    active: Seq<Taken>,
    id: usize,
    inputs: Seq<(usize, SsaValue)>,
    home: Reg,
)
    requires
        prog.def_of(SsaValue(id as u32)) matches Some(Op::Phi { inputs: own, .. }) && own == inputs,
        inputs.len() > 0,
        inputs[0].1.0 < homes.len(),
        homes[inputs[0].1.0 as int] == Some(home),
        home != Reg(10),
        home != Reg(0),
        forall|i: int| 0 <= i < active.len() ==> (#[trigger] active[i]).0 != home,
    ensures
        prog.choose_home(homes, active, id as int) == Some(home),
{
}

proof fn lemma_pool(prog: Prog, active: Seq<Taken>, id: int, k: nat, j: nat)
    requires
        k <= j < 9,
        forall|m: nat| k <= m < j ==> !prog.may_take(active, id, #[trigger] pool(m as int)),
        prog.may_take(active, id, pool(j as int)),
    ensures
        prog.pool_home(active, id, k) == Some(pool(j as int)),
    decreases j - k,
{
    if k < j {
        assert(!prog.may_take(active, id, pool(k as int)));
        lemma_pool(prog, active, id, k + 1, j);
    }
}

/// A value that shares no register takes the first free one: `r0` where no call
/// is inside its range, and then `r2` to `r9`.
pub proof fn first_free_register_is_taken(
    prog: Prog,
    homes: Seq<Option<Reg>>,
    active: Seq<Taken>,
    id: usize,
    r: Reg,
)
    requires
        prog.def_of(SsaValue(id as u32)) matches Some(op) && !(op is Phi) && !(op is BinOp),
        prog.arg_regs(id as int, prog.insns.len()).len() == 0,
        2 <= r.0 <= 9,
        forall|i: int| 0 <= i < active.len() ==> (#[trigger] active[i]).0 != r,
        forall|q: Reg| 2 <= q.0 < r.0 ==> !#[trigger] is_free(active, q),
    ensures
        ({
            let free = forall|i: int| 0 <= i < active.len() ==> (#[trigger] active[i]).0 != Reg(0);
            let called = !prog.r0_free(prog.range_of(id as int).0, prog.range_of(id as int).1);
            prog.choose_home(homes, active, id as int) == Some(
                if free && !called {
                    Reg(0)
                } else {
                    r
                },
            )
        }),
{
    let j = (r.0 - 1) as nat;
    assert(pool(0) == Reg(0));
    assert(pool(j as int) == r);
    if prog.may_take(active, id as int, Reg(0)) {
        lemma_pool(prog, active, id as int, 0, 0);
    } else {
        assert forall|m: nat| 0 <= m < j implies !prog.may_take(active, id as int, #[trigger] pool(m as int)) by {
            if m > 0 {
                let q = Reg((m + 1) as u8);
                assert(pool(m as int) == q);
                assert(!is_free(active, q));
            }
        }
        lemma_pool(prog, active, id as int, 0, j);
    }
}

/// A value that a call takes first goes where the call takes it, if nothing is
/// there.
pub proof fn arguments_go_to_their_registers(
    prog: Prog,
    homes: Seq<Option<Reg>>,
    active: Seq<Taken>,
    id: usize,
    r: Reg,
)
    requires
        prog.def_of(SsaValue(id as u32)) matches Some(op) && !(op is Phi) && !(op is BinOp),
        prog.arg_regs(id as int, prog.insns.len()).len() > 0,
        prog.arg_regs(id as int, prog.insns.len())[0] == r,
        r != Reg(0),
        forall|i: int| 0 <= i < active.len() ==> (#[trigger] active[i]).0 != r,
    ensures
        prog.choose_home(homes, active, id as int) == Some(r),
{
}

proof fn lemma_unknown_in(insns: Seq<Insn>, pc: int, end: int)
    ensures
        match unknown_in(insns, pc, end) {
            Some(k) => pc <= k < end && insns[k] is Unknown && forall|j: int|
                pc <= j < k ==> !((#[trigger] insns[j]) is Unknown),
            None => forall|j: int| pc <= j < end ==> !((#[trigger] insns[j]) is Unknown),
        },
    decreases end - pc,
{
    if pc < end {
        lemma_unknown_in(insns, pc + 1, end);
    }
}

/// A program is refused for an unknown instruction where a block that is
/// visited has one, and only there.
pub proof fn unknown_instructions_are_found(insns: Seq<Insn>, order: Seq<usize>, i: nat, k: int, j: int)
    ensures
        unknown_from(insns, order, i) matches Some(pc) ==> insns[pc] is Unknown && exists|m: int|
            i <= m < order.len() && {
                let block = blocks(insns)[(#[trigger] order[m]) as int];
                block.start.0 <= pc < block.end.0
            },
        unknown_from(insns, order, i) is None && i <= k < order.len() ==> {
            let block = blocks(insns)[order[k] as int];
            block.start.0 <= j < block.end.0 ==> !(insns[j] is Unknown)
        },
    decreases order.len() - i,
{
    if i < order.len() {
        unknown_instructions_are_found(insns, order, i + 1, k, j);
        let block = blocks(insns)[order[i as int] as int];
        lemma_unknown_in(insns, block.start.0 as int, block.end.0 as int);
    }
}

} // verus!
