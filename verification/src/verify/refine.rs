//! Branch refinement: what a comparison tells about a register on the taken
//! and on the untaken edge.
use vstd::prelude::*;

use crate::isa::insn::{JumpOp, Width};
use crate::verify::state::Range;
use crate::vm::jump_condition;

verus! {

/// The values that a comparison with `k` lets through, as an interval.
/// What an interval cannot express gives `Top`.
pub open spec fn admitted(op: JumpOp, k: i64, taken: bool) -> Range {
    match (op, taken) {
        (JumpOp::Eq, true) => Range::only(k),
        (JumpOp::Ne, false) => Range::only(k),
        (JumpOp::Lt, true) => below(k),
        (JumpOp::Slt, true) => below(k),
        (JumpOp::Ge, false) => below(k),
        (JumpOp::Sge, false) => below(k),
        (JumpOp::Lt, false) => at_least(k),
        (JumpOp::Slt, false) => at_least(k),
        (JumpOp::Ge, true) => at_least(k),
        (JumpOp::Sge, true) => at_least(k),
        (JumpOp::Le, true) => at_most(k),
        (JumpOp::Sle, true) => at_most(k),
        (JumpOp::Gt, false) => at_most(k),
        (JumpOp::Sgt, false) => at_most(k),
        (JumpOp::Le, false) => above(k),
        (JumpOp::Sle, false) => above(k),
        (JumpOp::Gt, true) => above(k),
        (JumpOp::Sgt, true) => above(k),
        _ => Range::Top,
    }
}

/// The values below `k`; the lowest value has only itself.
pub open spec fn below(k: i64) -> Range {
    Range::Interval {
        lo: i64::MIN,
        hi: if k == i64::MIN {
            i64::MIN
        } else {
            (k - 1) as i64
        },
    }
}

/// The values from `k` on.
pub open spec fn at_least(k: i64) -> Range {
    Range::Interval { lo: k, hi: i64::MAX }
}

/// The values up to `k`.
pub open spec fn at_most(k: i64) -> Range {
    Range::Interval { lo: i64::MIN, hi: k }
}

/// The values above `k`; the highest value has only itself.
pub open spec fn above(k: i64) -> Range {
    Range::Interval {
        lo: if k == i64::MAX {
            i64::MAX
        } else {
            (k + 1) as i64
        },
        hi: i64::MAX,
    }
}

/// A range on one edge of a comparison.
pub open spec fn refined(range: Range, op: JumpOp, k: i64, taken: bool) -> Range {
    range.met(admitted(op, k, taken))
}

/// Narrows a range by the outcome of a comparison.
pub fn refine(range: Range, op: JumpOp, k: i64, taken: bool) -> (r: Range)
    ensures
        r == refined(range, op, k, taken),
{
    // Half of the comparisons are the complements of the others.
    let (op, taken) = match op {
        JumpOp::Ne => (JumpOp::Eq, !taken),
        JumpOp::Ge => (JumpOp::Lt, !taken),
        JumpOp::Gt => (JumpOp::Le, !taken),
        JumpOp::Sge => (JumpOp::Slt, !taken),
        JumpOp::Sgt => (JumpOp::Sle, !taken),
        other => (other, taken),
    };
    match (op, taken) {
        (JumpOp::Eq, true) => range.meet(Range::exact(k)),
        (JumpOp::Lt, true) | (JumpOp::Slt, true) => {
            let hi: i64 = if k == i64::MIN {
                k
            } else {
                k - 1
            };
            range.meet(Range::Interval { lo: i64::MIN, hi })
        },
        (JumpOp::Lt, false) | (JumpOp::Slt, false) => range.meet(
            Range::Interval { lo: k, hi: i64::MAX },
        ),
        (JumpOp::Le, true) | (JumpOp::Sle, true) => range.meet(
            Range::Interval { lo: i64::MIN, hi: k },
        ),
        (JumpOp::Le, false) | (JumpOp::Sle, false) => {
            let lo: i64 = if k == i64::MAX {
                k
            } else {
                k + 1
            };
            range.meet(Range::Interval { lo, hi: i64::MAX })
        },
        _ => range,
    }
}

/// Whether a comparison orders its operands as signed numbers do: it is
/// signed or an equality, or both operands are not negative.
pub open spec fn ordered_alike(op: JumpOp, v: i64, k: i64) -> bool {
    match op {
        JumpOp::Gt => v >= 0 && k >= 0,
        JumpOp::Ge => v >= 0 && k >= 0,
        JumpOp::Lt => v >= 0 && k >= 0,
        JumpOp::Le => v >= 0 && k >= 0,
        _ => true,
    }
}

/// Refinement keeps every value for which the comparison goes the way of the
/// edge. Intervals are signed, so an unsigned comparison counts only between
/// numbers that are not negative.
pub proof fn refine_sound(range: Range, op: JumpOp, v: i64, k: i64, taken: bool)
    requires
        range.has(v),
        ordered_alike(op, v, k),
        jump_condition(op, v, k, Width::B64) == taken,
    ensures
        refined(range, op, k, taken).has(v),
{
    assert((v as u64 == k as u64 ==> v == k) && (v >= 0 ==> v as u64 == v) && (k >= 0 ==> k as u64 == k))
        by (bit_vector);
}

/// Refinement never adds a value.
pub proof fn refine_narrows(range: Range, op: JumpOp, k: i64, taken: bool)
    ensures
        refined(range, op, k, taken).within(range),
{
}

/// A comparison that goes one way refines as its complement that goes the
/// other way.
pub proof fn complements_agree(range: Range, k: i64, taken: bool)
    ensures
        refined(range, JumpOp::Ne, k, taken) == refined(range, JumpOp::Eq, k, !taken),
        refined(range, JumpOp::Ge, k, taken) == refined(range, JumpOp::Lt, k, !taken),
        refined(range, JumpOp::Gt, k, taken) == refined(range, JumpOp::Le, k, !taken),
        refined(range, JumpOp::Sge, k, taken) == refined(range, JumpOp::Slt, k, !taken),
        refined(range, JumpOp::Sgt, k, taken) == refined(range, JumpOp::Sle, k, !taken),
{
}

} // verus!
