//! How much the verifier knows: bounds that it must not lose.
use vstd::prelude::*;

use crate::cfg::EdgeKind;
use crate::isa::insn::{AluOp, Insn, JumpOp, Operand, Reg, Width};
use crate::slots::slot_of;
use crate::text::{nat_text, pad_right};
use crate::verify::helpers::possible_check;
use crate::verify::lattice::{lemma_and_corners, lemma_bit_bounds, lemma_low_half, lemma_or_corners};
use crate::verify::laws::stack_bytes_written;
use crate::verify::state::{and_bounded, or_bounded, Range, RegType, StateModel};
use crate::verify::trace::{full_slots, regs_lines, slot_full};
use crate::verify::transfer::{alu_range, edge_state, transfer};
use crate::verify::walk::{block_exit, block_trace, WalkModel};
use crate::verify::VerifyError;
use crate::vm::memory::PACKET_BASE;

verus! {

/// A conjunction with a known mask that is not negative lies between zero and
/// the mask.
pub proof fn masks_bound(lo: i64, hi: i64, mask: i64)
    requires
        lo <= hi,
        0 <= mask,
    ensures
        alu_range(
            AluOp::And,
            Width::B64,
            Range::Interval { lo, hi },
            Range::Interval { lo: mask, hi: mask },
        ) matches Range::Interval { lo: a, hi: b } && 0 <= a <= b <= mask,
{
    lemma_bit_bounds(lo, mask);
    lemma_bit_bounds(hi, mask);
    if and_bounded(lo, hi, mask, mask) {
        lemma_and_corners(lo, hi, mask, mask, lo, mask);
    }
}

/// A disjunction of numbers that are not negative is no smaller than either,
/// and no larger than their sum.
pub proof fn disjunctions_are_bounded(l1: i64, h1: i64, l2: i64, h2: i64)
    requires
        0 <= l1 <= h1,
        0 <= l2 <= h2,
        h1 + h2 <= i64::MAX,
    ensures
        alu_range(
            AluOp::Or,
            Width::B64,
            Range::Interval { lo: l1, hi: h1 },
            Range::Interval { lo: l2, hi: h2 },
        ) matches Range::Interval { lo: a, hi: b } && l1 <= a && l2 <= a && a <= b <= h1 + h2,
{
    lemma_bit_bounds(l1, l2);
    lemma_bit_bounds(h1, h2);
    if or_bounded(l1, h1, l2, h2) {
        lemma_or_corners(l1, h1, l2, h2, l1, l2);
    }
}

/// A 32-bit result is a number of 32 bits, as far as it is known, and a sum
/// that is such a number is kept.
pub proof fn half_words_are_bounded(op: AluOp, l1: i64, h1: i64, l2: i64, h2: i64)
    requires
        l1 <= h1,
        l2 <= h2,
    ensures
        ({
            let (x, y) = (Range::Interval { lo: l1, hi: h1 }, Range::Interval { lo: l2, hi: h2 });
            &&& alu_range(op, Width::B32, x, y) matches Range::Interval { lo, hi } ==> 0 <= lo <= hi < 0x1_0000_0000
            &&& 0 <= l1 + l2 && h1 + h2 < 0x1_0000_0000 ==> alu_range(AluOp::Add, Width::B32, x, y) == (
            Range::Interval { lo: (l1 + l2) as i64, hi: (h1 + h2) as i64 })
            &&& 0 <= l2 && h2 < 0x1_0000_0000 ==> alu_range(AluOp::Mov, Width::B32, x, y) == y
        }),
{
    let (x, y) = (Range::Interval { lo: l1, hi: h1 }, Range::Interval { lo: l2, hi: h2 });
    if let Range::Interval { lo, hi } = alu_range(op, Width::B64, x, y) {
        lemma_low_half(lo);
        lemma_low_half(hi);
    }
    if 0 <= l1 + l2 && h1 + h2 < 0x1_0000_0000 {
        lemma_low_half((l1 + l2) as i64);
        lemma_low_half((h1 + h2) as i64);
    }
    lemma_low_half(l2);
    lemma_low_half(h2);
}

/// An unsigned bound from above makes a number that was not known one between
/// zero and the bound.
pub proof fn unsigned_bounds_cap(s: StateModel, dst: Reg, k: i32, offset: i16)
    requires
        s.wf(),
        dst.valid(),
        s.regs[dst.0 as int] == RegType::Scalar(Range::Top),
        0 < k,
    ensures
        ({
            let on = |op: JumpOp, kind: EdgeKind|
                edge_state(
                    s,
                    kind,
                    Insn::Jump { width: Width::B64, op, dst, src: Operand::Imm(k), offset },
                ).regs[dst.0 as int];
            let below = RegType::Scalar(Range::Interval { lo: 0, hi: (k - 1) as i64 });
            let upto = RegType::Scalar(Range::Interval { lo: 0, hi: k as i64 });
            &&& on(JumpOp::Lt, EdgeKind::BranchTrue) == below
            &&& on(JumpOp::Ge, EdgeKind::BranchFalse) == below
            &&& on(JumpOp::Le, EdgeKind::BranchTrue) == upto
            &&& on(JumpOp::Gt, EdgeKind::BranchFalse) == upto
        }),
{
}

/// A comparison with a number fixes a number that was not known where they are
/// equal.
pub proof fn equality_fixes(s: StateModel, dst: Reg, lo: i64, hi: i64, k: i32, offset: i16)
    requires
        s.wf(),
        dst.valid(),
        s.regs[dst.0 as int] == RegType::Scalar(Range::Interval { lo, hi }),
        lo <= k <= hi,
    ensures
        ({
            let on = |op: JumpOp, kind: EdgeKind|
                edge_state(
                    s,
                    kind,
                    Insn::Jump { width: Width::B64, op, dst, src: Operand::Imm(k), offset },
                ).regs[dst.0 as int];
            let fixed = RegType::Scalar(Range::Interval { lo: k as i64, hi: k as i64 });
            on(JumpOp::Eq, EdgeKind::BranchTrue) == fixed && on(JumpOp::Ne, EdgeKind::BranchFalse) == fixed
        }),
{
}

/// A packet pointer that is compared with a known address keeps the offsets
/// whose addresses go the way of the comparison.
pub proof fn bound_checks_refine(
    s: StateModel,
    dst: Reg,
    src: Reg,
    op: JumpOp,
    taken: bool,
    lo: i64,
    hi: i64,
    addr: i64,
    v: i64,
    offset: i16,
)
    requires
        s.wf(),
        dst.valid(),
        src.valid(),
        s.regs[dst.0 as int] == (RegType::PacketPtr { offset: Range::Interval { lo, hi } }),
        s.regs[src.0 as int] == RegType::Scalar(Range::Interval { lo: addr, hi: addr }),
        0 <= lo <= hi <= 0x7fff_ffff,
        PACKET_BASE < addr <= 0xffff_ffff,
        op == JumpOp::Gt || op == JumpOp::Ge || op == JumpOp::Lt || op == JumpOp::Le,
    ensures
        ({
            let insn = Insn::Jump { width: Width::B64, op, dst, src: Operand::Reg(src), offset };
            let kind = if taken {
                EdgeKind::BranchTrue
            } else {
                EdgeKind::BranchFalse
            };
            let at = PACKET_BASE + v;
            let holds = if op == JumpOp::Gt {
                at > addr
            } else if op == JumpOp::Ge {
                at >= addr
            } else if op == JumpOp::Lt {
                at < addr
            } else {
                at <= addr
            };
            edge_state(s, kind, insn).regs[dst.0 as int] matches RegType::PacketPtr { offset: r } && (r.has(v) <==> lo
                <= v <= hi && holds == taken)
        }),
{
}

/// Where two paths meet, numbers have the hull of their ranges, and packet
/// pointers that of their offsets; different pointers become a number that is
/// not known.
pub proof fn merges_keep_hulls(a: StateModel, b: StateModel, r: int, l1: i64, h1: i64, l2: i64, h2: i64)
    requires
        a.wf(),
        b.wf(),
        0 <= r < 11,
    ensures
        ({
            let hull = Range::Interval {
                lo: if l1 <= l2 {
                    l1
                } else {
                    l2
                },
                hi: if h1 >= h2 {
                    h1
                } else {
                    h2
                },
            };
            let (x, y) = (Range::Interval { lo: l1, hi: h1 }, Range::Interval { lo: l2, hi: h2 });
            let got = a.joined(b).regs[r];
            &&& a.regs[r] == RegType::Scalar(x) && b.regs[r] == RegType::Scalar(y) ==> got == RegType::Scalar(hull)
            &&& a.regs[r] == (RegType::PacketPtr { offset: x }) && b.regs[r] == (RegType::PacketPtr { offset: y })
                ==> got == (RegType::PacketPtr { offset: hull })
            &&& a.regs[r] is StackPtr && a.regs[r] != b.regs[r] && b.regs[r] != RegType::NotInit ==> got
                == RegType::Scalar(Range::Top)
        }),
{
}

/// Where two paths meet, a map is known where both know the same.
pub proof fn merges_keep_common_maps(a: StateModel, b: StateModel, fd: i64)
    ensures
        a.joined(b).desc(fd) is Some <==> a.desc(fd) is Some && a.desc(fd) == b.desc(fd),
        a.joined(b).desc(fd) is Some ==> a.joined(b).desc(fd) == a.desc(fd),
{
}

/// What comes into a block is kept at first, merged with what came before up
/// to the threshold, and widened from there on. The block waits for a visit
/// where this changed what is known. Other blocks are not concerned.
pub proof fn blocks_gather_states(w: WalkModel, node: usize, s: StateModel, threshold: usize, other: int)
    requires
        node < w.states.len(),
        w.states.len() == w.merges.len(),
        w.merges[node as int] < usize::MAX,
    ensures
        ({
            let after = w.merged(node, s, threshold);
            let waiting = if w.queued[node as int] {
                w.queue
            } else {
                w.queue.push(node)
            };
            &&& match w.states[node as int] {
                None => after.states[node as int] == Some(s) && after.queue == waiting,
                Some(known) => {
                    let next = if w.merges[node as int] < threshold {
                        known.joined(s)
                    } else {
                        known.widened(s)
                    };
                    &&& after.states[node as int] == Some(next)
                    &&& after.merges[node as int] == w.merges[node as int] + 1
                    &&& after.queue == (if next == known {
                        w.queue
                    } else {
                        waiting
                    })
                },
            }
            &&& 0 <= other < w.states.len() && other != node ==> after.states[other] == w.states[other]
        }),
{
}

/// The stack slots that are listed are those whose bytes were all written, from
/// the lowest one up.
pub proof fn full_slots_are_listed(marks: Seq<bool>, n: nat, slot: int, k: int)
    ensures
        0 <= slot < n && (forall|j: int| 8 * slot <= j < 8 * slot + 8 ==> #[trigger] marks[j]) ==> exists|i: int|
            0 <= i < full_slots(marks, n).len() && (#[trigger] full_slots(marks, n)[i]).offset == 8 * slot - 512,
        0 <= k < full_slots(marks, n).len() ==> {
            let at = full_slots(marks, n)[k].offset + 512;
            &&& at % 8 == 0 && 0 <= at < 8 * n
            &&& forall|j: int| at <= j < at + 8 ==> #[trigger] marks[j]
            &&& k > 0 ==> full_slots(marks, n)[k - 1].offset < full_slots(marks, n)[k].offset
        },
    decreases n,
{
    if n > 0 {
        let rest = full_slots(marks, (n - 1) as nat);
        let all = full_slots(marks, n);
        full_slots_are_listed(marks, (n - 1) as nat, slot, k);
        if k > 0 {
            full_slots_are_listed(marks, (n - 1) as nat, slot, k - 1);
        }
        if 0 <= slot < n && (forall|j: int| 8 * slot <= j < 8 * slot + 8 ==> #[trigger] marks[j]) {
            if slot == n - 1 {
                assert(slot_full(marks, n - 1));
                assert(all[rest.len() as int].offset == 8 * slot - 512);
            } else {
                let i = choose|i: int| 0 <= i < rest.len() && (#[trigger] rest[i]).offset == 8 * slot - 512;
                assert(all[i] == rest[i]);
            }
        }
        if 0 <= k < rest.len() {
            assert(all[k] == rest[k]);
        }
    }
}

/// A trace has an entry for every instruction of a block, in order, with what
/// is known behind it.
pub proof fn traces_follow_blocks(insns: Seq<Insn>, pc: int, end: int, s: StateModel, k: int)
    requires
        block_exit(insns, pc, end, s) is Ok,
        0 <= k < end - pc,
    ensures
        block_trace(insns, pc, end, s).len() == end - pc,
        ({
            let entry = block_trace(insns, pc, end, s)[k];
            &&& entry.pc == pc + k
            &&& entry.insns == pad_right(nat_text(slot_of(insns, (pc + k) as nat)), 4) + insns[pc + k].display()
            &&& block_exit(insns, pc, pc + k + 1, s) matches Ok(t) && entry.regs == regs_lines(t.regs)
                && entry.stack_init == full_slots(t.init, 64)
        }),
    decreases end - pc,
{
    let next = transfer(pc as usize, insns[pc], s)->Ok_0;
    let rest = block_trace(insns, pc + 1, end, next);
    if pc + 1 < end {
        if k > 0 {
            traces_follow_blocks(insns, pc + 1, end, next, k - 1);
            assert(block_trace(insns, pc, end, s)[k] == rest[k - 1]);
            assert(block_exit(insns, pc, pc + k + 1, s) == block_exit(insns, pc + 1, pc + k + 1, next));
        } else {
            traces_follow_blocks(insns, pc + 1, end, next, 0);
        }
    }
    if k == 0 {
        assert(block_exit(insns, pc + 1, pc + 1, next) == Ok::<StateModel, VerifyError>(next));
        assert(block_exit(insns, pc, pc + 1, s) == block_exit(insns, pc + 1, pc + 1, next));
    }
}

proof fn lemma_possible(s: StateModel, r: Range, fd: nat, takes_value: bool, pc: usize)
    requires
        s.wf(),
        s.maps.len() <= i64::MAX,
    ensures
        possible_check(s, r, fd, takes_value, pc) is Ok <==> forall|k: int|
            fd <= k < s.maps.len() && r.has(k as i64) ==> ((#[trigger] s.maps[k]) matches Some(d)
                ==> stack_bytes_written(s, Reg(2), d.key_size) && (takes_value ==> stack_bytes_written(
                s,
                Reg(3),
                d.value_size,
            ))),
    decreases s.maps.len() - fd,
{
    if fd < s.maps.len() {
        lemma_possible(s, r, fd + 1, takes_value, pc);
    }
}

/// A helper whose map is not known needs a key, and a value, for every map that
/// it may be. It gives a number that is not known. A pointer is no map.
pub proof fn unknown_map_verdict(pc: usize, s: StateModel, func: u32)
    requires
        s.wf(),
        s.maps.len() <= i64::MAX,
        1 <= func <= 3,
    ensures
        ({
            let r = transfer(pc, Insn::Call { func }, s);
            &&& !(s.regs[1] is Scalar) ==> r is Err
            &&& s.regs[1] matches RegType::Scalar(range) ==> (!(range matches Range::Interval { lo, hi } && lo == hi)
                ==> {
                &&& r is Ok <==> forall|k: int|
                    0 <= k < s.maps.len() && range.has(k as i64) ==> ((#[trigger] s.maps[k]) matches Some(d)
                        ==> stack_bytes_written(s, Reg(2), d.key_size) && (func == 2 ==> stack_bytes_written(
                        s,
                        Reg(3),
                        d.value_size,
                    )))
                &&& r matches Ok(t) ==> t.regs[0] == RegType::Scalar(Range::Top)
            })
        }),
{
    if let RegType::Scalar(range) = s.regs[1] {
        lemma_possible(s, range, 0, func == 2, pc);
    }
}

} // verus!
