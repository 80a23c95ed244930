//! Laws of the abstract domain: the order of ranges, soundness of the range
//! operators, and the finite height that ends every chain of merges.
use vstd::prelude::*;

use crate::verify::state::{
    and_bounded, and_least, joined_init, joined_maps, joined_regs, lower_part, one_sided, or_bounded,
    or_least, upper_part, widened_regs, Range, RegType, StateModel,
};
use crate::vm::maps::DescModel;

verus! {

/// The join of two ranges does not depend on their order.
pub proof fn join_commutative(a: Range, b: Range)
    ensures
        a.joined(b) == b.joined(a),
{
}

/// Joining a range with itself changes nothing.
pub proof fn join_idempotent(a: Range)
    ensures
        a.joined(a) == a,
{
}

/// The join of two ranges contains both, and every range that contains both
/// contains the join.
pub proof fn join_is_least(a: Range, b: Range, c: Range)
    requires
        a.valid(),
        b.valid(),
    ensures
        a.within(a.joined(b)),
        b.within(a.joined(b)),
        a.within(c) && b.within(c) ==> a.joined(b).within(c),
{
    if a.within(c) && b.within(c) {
        assert forall|v: i64| #[trigger] a.joined(b).has(v) implies c.has(v) by {
            match (a, b) {
                (Range::Interval { lo: l1, hi: h1 }, Range::Interval { lo: l2, hi: h2 }) => {
                    assert(a.has(l1) && a.has(h1) && b.has(l2) && b.has(h2));
                },
                _ => {
                    assert(a.has(v) || b.has(v) || a == Range::Top || b == Range::Top);
                    if !a.has(v) && !b.has(v) {
                        assert(false);
                    }
                },
            }
        }
    }
}

/// The meet of two ranges does not depend on their order.
pub proof fn meet_commutative(a: Range, b: Range)
    ensures
        a.met(b) == b.met(a),
{
}

/// Meeting a range with itself changes nothing.
pub proof fn meet_idempotent(a: Range)
    requires
        a.valid(),
    ensures
        a.met(a) == a,
{
}

/// The meet of two ranges holds exactly the values of both.
pub proof fn meet_is_intersection(a: Range, b: Range, v: i64)
    ensures
        a.met(b).has(v) == (a.has(v) && b.has(v)),
{
}

/// `Top` and `Bottom` absorb or give way.
pub proof fn top_bottom_absorption(a: Range)
    ensures
        Range::Top.joined(a) == Range::Top,
        a.joined(Range::Top) == Range::Top,
        Range::Bottom.joined(a) == a,
        a.joined(Range::Bottom) == a,
        Range::Bottom.met(a) == Range::Bottom,
        a.met(Range::Bottom) == Range::Bottom,
{
}

/// Ranges whose meet is empty have no value in common.
pub proof fn meet_bottom_means_disjoint(a: Range, b: Range)
    requires
        a.met(b) == Range::Bottom,
    ensures
        forall|v: i64| !(#[trigger] a.has(v) && b.has(v)),
{
    assert forall|v: i64| !(#[trigger] a.has(v) && b.has(v)) by {
        meet_is_intersection(a, b, v);
    }
}

/// Widening a range by itself changes nothing.
pub proof fn widen_idempotent(a: Range)
    ensures
        a.widened(a) == a,
{
}

/// Widening keeps every value of both ranges.
pub proof fn widen_extends(a: Range, b: Range)
    ensures
        a.within(a.widened(b)),
        b.within(a.widened(b)),
        a.valid() && b.valid() ==> a.joined(b).within(a.widened(b)),
{
}

/// Each bound moves at most once: a bounded range inside a widened one
/// widens it no further.
pub proof fn widen_converges(a: Range, b: Range, c: Range)
    requires
        c.within(a.widened(b)),
        c.valid(),
        c != Range::Top,
    ensures
        a.widened(b).widened(c) == a.widened(b),
{
    if let Range::Interval { lo, hi } = c {
        assert(c.has(lo) && c.has(hi));
    }
}

/// The sum of ranges contains the sum of any two of their values.
pub proof fn add_sound(a: Range, b: Range, x: i64, y: i64)
    requires
        a.has(x),
        b.has(y),
    ensures
        a.plus(b).has(x.wrapping_add(y)),
{
}

/// What a conjunction and a disjunction are bounded by.
pub proof fn lemma_bit_bounds(x: i64, y: i64)
    ensures
        x >= 0 ==> 0 <= ((x as u64) & (y as u64)) as i64 <= x,
        y >= 0 ==> 0 <= ((x as u64) & (y as u64)) as i64 <= y,
        x >= 0 && y >= 0 ==> x <= ((x as u64) | (y as u64)) as i64,
        x >= 0 && y >= 0 ==> y <= ((x as u64) | (y as u64)) as i64,
        x >= 0 && y >= 0 ==> ((x as u64) | (y as u64)) as i64 <= x + y,
{
    assert((x >= 0 ==> 0 <= ((x as u64) & (y as u64)) as i64 && ((x as u64) & (y as u64)) as i64 <= x) && (y >= 0
        ==> 0 <= ((x as u64) & (y as u64)) as i64 && ((x as u64) & (y as u64)) as i64 <= y)) by (bit_vector);
    assert(x >= 0 && y >= 0 ==> x <= ((x as u64) | (y as u64)) as i64 && y <= ((x as u64) | (y as u64)) as i64
        && ((x as u64) | (y as u64)) as i64 <= x + y) by (bit_vector);
}

/// Shifts that lose no bit keep the order.
proof fn lemma_shift_order(x: u64, hi: u64, s: u64, t: u64)
    requires
        x <= hi,
        s <= t,
        t <= 63,
        hi <= (0x7fff_ffff_ffff_ffffu64 >> t),
    ensures
        x << s <= hi << t,
        hi << t <= 0x7fff_ffff_ffff_ffff,
{
    assert(x << s <= hi << t && hi << t <= 0x7fff_ffff_ffff_ffffu64) by (bit_vector)
        requires
            x <= hi,
            s <= t,
            t <= 63,
            hi <= (0x7fff_ffff_ffff_ffffu64 >> t),
    ;
}

/// The low half of a number is its remainder.
pub proof fn lemma_low_half(v: i64)
    ensures
        ((v as u64) & 0xffff_ffff) as i64 == v as int % 0x1_0000_0000,
{
    let low = ((v as u64) & 0xffff_ffff) as i64;
    assert(0 <= low && low < 0x1_0000_0000i64 && (v - low) % 0x1_0000_0000 == 0) by (bit_vector)
        requires
            low == ((v as u64) & 0xffff_ffff) as i64,
    ;
}

/// Where values have the signs of their bounds, no conjunction is below the
/// least one.
#[verifier::spinoff_prover]
proof fn lemma_least_word(l1: i64, h1: i64, l2: i64, h2: i64, x: i64, y: i64)
    requires
        l1 <= x <= h1,
        l2 <= y <= h2,
        one_sided(l1, h1, l2, h2),
        and_least(l1 as u64, h1 as u64, l2 as u64, h2 as u64),
    ensures
        ((l1 as u64) & (l2 as u64)) as i64 <= ((x as u64) & (y as u64)) as i64,
{
    assert(((l1 as u64) & (l2 as u64)) as i64 <= ((x as u64) & (y as u64)) as i64) by (bit_vector)
        requires
            l1 <= x <= h1,
            l2 <= y <= h2,
            one_sided(l1, h1, l2, h2),
            and_least(l1 as u64, h1 as u64, l2 as u64, h2 as u64),
    ;
}

/// Where values have the signs of their bounds, no conjunction is above the
/// greatest one.
#[verifier::spinoff_prover]
proof fn lemma_greatest_word(l1: i64, h1: i64, l2: i64, h2: i64, x: i64, y: i64)
    requires
        l1 <= x <= h1,
        l2 <= y <= h2,
        one_sided(l1, h1, l2, h2),
        or_least(!(h1 as u64), !(l1 as u64), !(h2 as u64), !(l2 as u64)),
    ensures
        ((x as u64) & (y as u64)) as i64 <= ((h1 as u64) & (h2 as u64)) as i64,
{
    assert(((x as u64) & (y as u64)) as i64 <= ((h1 as u64) & (h2 as u64)) as i64) by (bit_vector)
        requires
            l1 <= x <= h1,
            l2 <= y <= h2,
            one_sided(l1, h1, l2, h2),
            or_least(!(h1 as u64), !(l1 as u64), !(h2 as u64), !(l2 as u64)),
    ;
}

/// Conjunctions of negative values are negative, and disjunctions are
/// complements of conjunctions.
proof fn lemma_complements(x: i64, y: i64)
    ensures
        x < 0 && y < 0 ==> (((x as u64) & (y as u64)) as i64) < 0,
        (((-1 - x) as i64 as u64) & ((-1 - y) as i64 as u64)) as i64 == -1 - (((x as u64) | (y as u64)) as i64),
{
    assert((x < 0 && y < 0 ==> (((x as u64) & (y as u64)) as i64) < 0) && (((-1 - x) as i64 as u64) & ((-1
        - y) as i64 as u64)) as i64 == -1 - (((x as u64) | (y as u64)) as i64)) by (bit_vector);
}

/// Conjunctions lie between those of the bounds where these are the least and
/// the greatest.
pub proof fn lemma_and_corners(l1: i64, h1: i64, l2: i64, h2: i64, x: i64, y: i64)
    requires
        l1 <= x <= h1,
        l2 <= y <= h2,
        and_bounded(l1, h1, l2, h2),
    ensures
        ((l1 as u64) & (l2 as u64)) as i64 <= ((x as u64) & (y as u64)) as i64 <= ((h1 as u64) & (h2 as u64)) as i64,
{
    let (p1, p2) = (lower_part(l1, h1), lower_part(l2, h2));
    let (q1, q2) = (upper_part(l1, h1), upper_part(l2, h2));
    lemma_bit_bounds(x, y);
    lemma_bit_bounds(h1, h2);
    lemma_complements(x, y);
    lemma_complements(l1, l2);
    if (l1 < 0 && h1 >= 0 && l2 >= 0) || (l2 < 0 && h2 >= 0 && l1 >= 0) {
        assert(((l1 as u64) & (l2 as u64)) as i64 == 0);
    } else if x <= p1 && y <= p2 {
        lemma_least_word(l1, p1, l2, p2, x, y);
    }
    if !(h1 >= 0 && h2 >= 0 && (l1 < 0 || l2 < 0)) && x >= q1 && y >= q2 {
        lemma_greatest_word(q1, h1, q2, h2, x, y);
    }
}

/// Disjunctions lie between those of the bounds where these are the least and
/// the greatest.
pub proof fn lemma_or_corners(l1: i64, h1: i64, l2: i64, h2: i64, x: i64, y: i64)
    requires
        l1 <= x <= h1,
        l2 <= y <= h2,
        or_bounded(l1, h1, l2, h2),
    ensures
        ((l1 as u64) | (l2 as u64)) as i64 <= ((x as u64) | (y as u64)) as i64 <= ((h1 as u64) | (h2 as u64)) as i64,
{
    lemma_and_corners(
        (-1 - h1) as i64,
        (-1 - l1) as i64,
        (-1 - h2) as i64,
        (-1 - l2) as i64,
        (-1 - x) as i64,
        (-1 - y) as i64,
    );
    lemma_complements(l1, l2);
    lemma_complements(x, y);
    lemma_complements(h1, h2);
}

/// The bitwise operators, left shifts and truncations contain their results
/// on any two values.
pub proof fn bitwise_sound(a: Range, b: Range, x: i64, y: i64)
    requires
        a.has(x),
        b.has(y),
    ensures
        a.anded(b).has(((x as u64) & (y as u64)) as i64),
        a.ored(b).has(((x as u64) | (y as u64)) as i64),
        a.unbounded(b).has(((x as u64) ^ (y as u64)) as i64),
        0 <= y <= 63 ==> a.shifted(b).has(((x as u64) << (y as u64)) as i64),
        a.low32().has(((x as u64) & 0xffff_ffff) as i64),
{
    lemma_bit_bounds(x, y);
    if let (Range::Interval { lo: l1, hi: h1 }, Range::Interval { lo: l2, hi: h2 }) = (a, b) {
        if and_bounded(l1, h1, l2, h2) {
            lemma_and_corners(l1, h1, l2, h2, x, y);
        }
        if or_bounded(l1, h1, l2, h2) {
            lemma_or_corners(l1, h1, l2, h2, x, y);
        }
    }
    low_sound(a, x);
    if 0 <= y <= 63 {
        shift_sound(a, b, x, y);
    }
}

/// Truncation contains the low half of every value.
pub proof fn low_sound(a: Range, x: i64)
    requires
        a.has(x),
    ensures
        a.low32().has(((x as u64) & 0xffff_ffff) as i64),
{
    if let Range::Interval { lo, hi } = a {
        lemma_low_half(lo);
        lemma_low_half(hi);
        lemma_low_half(x);
    }
}

/// A left shift contains the shifted values.
pub proof fn shift_sound(a: Range, b: Range, x: i64, y: i64)
    requires
        a.has(x),
        b.has(y),
        0 <= y <= 63,
    ensures
        a.shifted(b).has(((x as u64) << (y as u64)) as i64),
{
    if let (Range::Interval { lo, hi }, Range::Interval { lo: s, hi: t }) = (a, b) {
        if 0 <= lo && t <= 63 && 0 <= s && (hi as u64) <= (0x7fff_ffff_ffff_ffffu64 >> (t as u64)) {
            lemma_same_bits(lo);
            lemma_same_bits(hi);
            lemma_same_bits(x);
            lemma_same_bits(s);
            lemma_same_bits(t);
            lemma_same_bits(y);
            lemma_shift_order(x as u64, hi as u64, y as u64, t as u64);
            let top = hi as u64;
            let (u, v) = (t as u64, y as u64);
            assert((x as u64) <= (0x7fff_ffff_ffff_ffffu64 >> v)) by {
                let z = x as u64;
                assert(z <= (0x7fff_ffff_ffff_ffffu64 >> v)) by (bit_vector)
                    requires
                        z <= top,
                        top <= (0x7fff_ffff_ffff_ffffu64 >> u),
                        v <= u,
                        u <= 63,
                ;
            }
            lemma_shift_order(lo as u64, x as u64, s as u64, y as u64);
            lemma_same_word(((x as u64) << (y as u64)));
            lemma_same_word(((lo as u64) << (s as u64)));
            lemma_same_word(((hi as u64) << (t as u64)));
        }
    }
}

proof fn lemma_same_bits(x: i64)
    ensures
        x >= 0 ==> x as u64 == x,
{
    assert(x >= 0 ==> x as u64 == x) by (bit_vector);
}

proof fn lemma_same_word(z: u64)
    ensures
        z <= 0x7fff_ffff_ffff_ffff ==> z as i64 == z,
{
    assert(z <= 0x7fff_ffff_ffff_ffff ==> z as i64 == z) by (bit_vector);
}

/// How far a range is from the top of its order.
pub open spec fn range_height(r: Range) -> int {
    match r {
        Range::Bottom => 0x4_0000_0000_0000_0000,
        Range::Interval { lo, hi } => 0x1_0000_0000_0000_0000 - (hi - lo),
        Range::Top => 0,
    }
}

/// How far a register type is from the top of its order.
pub open spec fn reg_height(r: RegType) -> int {
    match r {
        RegType::NotInit => 0,
        RegType::Scalar(r) => 1 + range_height(r),
        RegType::PacketPtr { offset } => 2 + range_height(offset),
        _ => 2,
    }
}

/// A merge moves a register type up, or leaves it.
pub proof fn reg_merge_ascends(a: RegType, b: RegType)
    ensures
        a.joined(b) != a ==> reg_height(a.joined(b)) < reg_height(a),
        a.widened(b) != a ==> reg_height(a.widened(b)) < reg_height(a),
        0 <= reg_height(a) <= 0x4_0000_0000_0000_0002,
{
}

/// The heights of the first `n` registers.
pub open spec fn regs_height(regs: Seq<RegType>, n: nat) -> int
    decreases n,
{
    if n == 0 {
        0
    } else {
        regs_height(regs, (n - 1) as nat) + reg_height(regs[n - 1])
    }
}

/// The number of marks among the first `n`.
pub open spec fn marks_height(marks: Seq<bool>, n: nat) -> int
    decreases n,
{
    if n == 0 {
        0
    } else {
        marks_height(marks, (n - 1) as nat) + (if marks[n - 1] {
            1int
        } else {
            0
        })
    }
}

/// How far a state is from the top of its order.
pub open spec fn state_height(s: StateModel) -> int {
    regs_height(s.regs, 11) + regs_height(s.stack, 64) + marks_height(s.init, 512)
}

/// Heights of register files that moved up register by register.
proof fn lemma_regs_ascend(a: Seq<RegType>, b: Seq<RegType>, n: nat)
    requires
        n <= a.len(),
        a.len() == b.len(),
        forall|i: int|
            0 <= i < n ==> (#[trigger] b[i] == a[i] || reg_height(b[i]) < reg_height(a[i])),
    ensures
        regs_height(b, n) <= regs_height(a, n),
        0 <= regs_height(b, n),
        (exists|i: int| 0 <= i < n && b[i] != a[i]) ==> regs_height(b, n) < regs_height(a, n),
    decreases n,
{
    if n > 0 {
        let m = (n - 1) as nat;
        lemma_regs_ascend(a, b, m);
        assert(b[m as int] == a[m as int] || reg_height(b[m as int]) < reg_height(a[m as int]));
        reg_merge_ascends(b[m as int], b[m as int]);
        if exists|i: int| 0 <= i < n && b[i] != a[i] {
            let i = choose|i: int| 0 <= i < n && b[i] != a[i];
            if i < m {
                assert(exists|i: int| 0 <= i < m && b[i] != a[i]);
            }
        }
    }
}

/// Heights of marks that were dropped.
proof fn lemma_marks_ascend(a: Seq<bool>, b: Seq<bool>, n: nat)
    requires
        n <= a.len(),
        a.len() == b.len(),
        forall|i: int| 0 <= i < n ==> (#[trigger] b[i] ==> a[i]),
    ensures
        marks_height(b, n) <= marks_height(a, n),
        0 <= marks_height(b, n),
        (exists|i: int| 0 <= i < n && b[i] != a[i]) ==> marks_height(b, n) < marks_height(a, n),
    decreases n,
{
    if n > 0 {
        let m = (n - 1) as nat;
        lemma_marks_ascend(a, b, m);
        assert(b[m as int] ==> a[m as int]);
        if exists|i: int| 0 <= i < n && b[i] != a[i] {
            let i = choose|i: int| 0 <= i < n && b[i] != a[i];
            if i < m {
                assert(exists|i: int| 0 <= i < m && b[i] != a[i]);
            }
        }
    }
}

/// Joining a descriptor table with itself changes nothing.
pub proof fn join_maps_idempotent(a: Seq<Option<DescModel>>)
    ensures
        joined_maps(a, a) == a,
{
    assert(joined_maps(a, a) =~= a);
}

/// A merge of states that agree on their maps moves the state up, or leaves
/// it. Every chain of merges is therefore finite.
pub proof fn state_merge_ascends(a: StateModel, b: StateModel)
    requires
        a.wf(),
        b.wf(),
        a.maps == b.maps,
    ensures
        a.joined(b).wf(),
        a.widened(b).wf(),
        a.joined(b).maps == a.maps,
        a.widened(b).maps == a.maps,
        a.joined(b) != a ==> state_height(a.joined(b)) < state_height(a),
        a.widened(b) != a ==> state_height(a.widened(b)) < state_height(a),
        0 <= state_height(a),
{
    join_maps_idempotent(a.maps);
    let j = joined_regs(a.regs, b.regs);
    let w = widened_regs(a.regs, b.regs);
    let s = joined_regs(a.stack, b.stack);
    let m = joined_init(a.init, b.init);
    assert forall|i: int| 0 <= i < 11 implies (#[trigger] j[i] == a.regs[i] || reg_height(j[i])
        < reg_height(a.regs[i])) by {
        reg_merge_ascends(a.regs[i], b.regs[i]);
    }
    assert forall|i: int| 0 <= i < 11 implies (#[trigger] w[i] == a.regs[i] || reg_height(w[i])
        < reg_height(a.regs[i])) by {
        reg_merge_ascends(a.regs[i], b.regs[i]);
    }
    assert forall|i: int| 0 <= i < 64 implies (#[trigger] s[i] == a.stack[i] || reg_height(s[i])
        < reg_height(a.stack[i])) by {
        reg_merge_ascends(a.stack[i], b.stack[i]);
    }
    lemma_regs_ascend(a.regs, j, 11);
    lemma_regs_ascend(a.regs, w, 11);
    lemma_regs_ascend(a.regs, a.regs, 11);
    lemma_regs_ascend(a.stack, s, 64);
    lemma_regs_ascend(a.stack, a.stack, 64);
    lemma_marks_ascend(a.init, m, 512);
    lemma_marks_ascend(a.init, a.init, 512);
    if a.joined(b) != a {
        if j =~= a.regs && s =~= a.stack && m =~= a.init {
            assert(a.joined(b) =~= a);
        }
    }
    if a.widened(b) != a {
        if w =~= a.regs && s =~= a.stack && m =~= a.init {
            assert(a.widened(b) =~= a);
        }
    }
}

/// The largest height of a state.
pub open spec fn max_height() -> int {
    75int * 0x4_0000_0000_0000_0002 + 512
}

proof fn lemma_regs_bounded(regs: Seq<RegType>, n: nat)
    ensures
        0 <= regs_height(regs, n) <= n * 0x4_0000_0000_0000_0002,
    decreases n,
{
    if n > 0 {
        lemma_regs_bounded(regs, (n - 1) as nat);
        reg_merge_ascends(regs[n - 1], regs[n - 1]);
    }
}

proof fn lemma_marks_bounded(marks: Seq<bool>, n: nat)
    ensures
        0 <= marks_height(marks, n) <= n,
    decreases n,
{
    if n > 0 {
        lemma_marks_bounded(marks, (n - 1) as nat);
    }
}

/// Heights are bounded.
pub proof fn state_height_bounded(s: StateModel)
    ensures
        0 <= state_height(s) <= max_height(),
{
    lemma_regs_bounded(s.regs, 11);
    lemma_regs_bounded(s.stack, 64);
    lemma_marks_bounded(s.init, 512);
}

} // verus!
