//! Abstract state of the verifier: the interval lattice, register types and
//! the machine state that the worklist propagates.
use std::rc::Rc;

use vstd::prelude::*;
use vstd::string::StringExecFns;

use crate::text::{int_text, push_int};
use crate::verify::lattice::{bitwise_sound, low_sound};
use crate::vm::maps::{DescModel, MapDesc};

verus! {

/// An abstract integer: nothing, an interval, or anything.
#[derive(Clone, Copy, Debug, PartialEq, Eq, Hash, Structural)]
pub enum Range {
    /// Unreachable or contradictory: no value.
    Bottom,
    /// Every value from `lo` to `hi`, both included.
    Interval {
        /// Lower bound.
        lo: i64,
        /// Upper bound.
        hi: i64,
    },
    /// Any value.
    Top,
}

/// The smaller of two integers.
pub open spec fn min_of(a: i64, b: i64) -> i64 {
    if a <= b {
        a
    } else {
        b
    }
}

/// The larger of two integers.
pub open spec fn max_of(a: i64, b: i64) -> i64 {
    if a >= b {
        a
    } else {
        b
    }
}

/// The interval between two bounds, or `Top` where they are out of order.
pub open spec fn ordered(lo: i64, hi: i64) -> Range {
    if lo <= hi {
        Range::Interval { lo, hi }
    } else {
        Range::Top
    }
}

/// The interval between two bounds, or `Top` where they are out of order.
fn in_order(lo: i64, hi: i64) -> (r: Range)
    ensures
        r == ordered(lo, hi),
{
    if lo <= hi {
        Range::Interval { lo, hi }
    } else {
        Range::Top
    }
}

/// The least word that is larger than `a` and first differs from it in the
/// lowest bit of `z`, where `a` lacks that bit.
pub open spec fn raised(a: u64, z: u64) -> u64 {
    (a | (z & !((z - 1) as u64))) & !(((z - 1) as u64) & !z)
}

/// Whether `a & c` is the least conjunction of words from `a` to `b` and from
/// `c` to `d`: none of them can be raised in a bit that both lack, above a bit
/// that would be lost.
pub open spec fn and_least(a: u64, b: u64, c: u64, d: u64) -> bool {
    let w = a & c;
    let z = !(a | c) & !(w ^ ((w - 1) as u64));
    w == 0 || z == 0 || (raised(a, z) > b && raised(c, z) > d)
}

/// Whether `a` cannot be raised within `b` in a bit of `c`, above a bit that
/// only `a` has.
pub open spec fn or_kept(a: u64, b: u64, c: u64) -> bool {
    let w = a & !c;
    let z = !a & c & !(w ^ ((w - 1) as u64));
    w == 0 || z == 0 || raised(a, z) > b
}

/// Whether `a | c` is the least disjunction of words from `a` to `b` and from
/// `c` to `d`.
pub open spec fn or_least(a: u64, b: u64, c: u64, d: u64) -> bool {
    or_kept(a, b, c) && or_kept(c, d, a)
}

/// Whether all values of two ranges have the signs of their bounds.
pub open spec fn one_sided(l1: i64, h1: i64, l2: i64, h2: i64) -> bool {
    (l1 < 0) == (h1 < 0) && (l2 < 0) == (h2 < 0)
}

/// The greatest value of a range that has the sign of its lower bound.
pub open spec fn lower_part(l: i64, h: i64) -> i64 {
    if l < 0 && h >= 0 {
        (-1) as i64
    } else {
        h
    }
}

/// The least value of a range that has the sign of its upper bound.
pub open spec fn upper_part(l: i64, h: i64) -> i64 {
    if l < 0 && h >= 0 {
        0
    } else {
        l
    }
}

/// Whether the conjunction of the lower bounds of two ranges is the least one.
/// Where one range holds 0 and the other no negative value, that is 0.
pub open spec fn and_low(l1: i64, h1: i64, l2: i64, h2: i64) -> bool {
    if (l1 < 0 && h1 >= 0 && l2 >= 0) || (l2 < 0 && h2 >= 0 && l1 >= 0) {
        (l1 as u64) & (l2 as u64) == 0
    } else {
        and_least(l1 as u64, lower_part(l1, h1) as u64, l2 as u64, lower_part(l2, h2) as u64)
    }
}

/// Whether the conjunction of the upper bounds of two ranges is the greatest
/// one. Where one range holds -1, that is the upper bound of the other. The
/// greatest conjunction is the least disjunction of complements.
pub open spec fn and_high(l1: i64, h1: i64, l2: i64, h2: i64) -> bool {
    if h1 >= 0 && h2 >= 0 && (l1 < 0 || l2 < 0) {
        let top = ((h1 as u64) & (h2 as u64)) as i64;
        (l1 < 0 ==> top == h2) && (l2 < 0 ==> top == h1)
    } else {
        or_least(!(h1 as u64), !(upper_part(l1, h1) as u64), !(h2 as u64), !(upper_part(l2, h2) as u64))
    }
}

/// Whether the conjunctions of the bounds of two ranges are the least and the
/// greatest ones.
pub open spec fn and_bounded(l1: i64, h1: i64, l2: i64, h2: i64) -> bool {
    and_low(l1, h1, l2, h2) && and_high(l1, h1, l2, h2)
}

/// Whether the disjunctions of the bounds of two ranges are the least and the
/// greatest ones: those of the complements are, as conjunctions.
pub open spec fn or_bounded(l1: i64, h1: i64, l2: i64, h2: i64) -> bool {
    and_bounded((-1 - h1) as i64, (-1 - l1) as i64, (-1 - h2) as i64, (-1 - l2) as i64)
}

/// Computes [`raised`].
fn raise(a: u64, z: u64) -> (r: u64)
    requires
        z > 0,
    ensures
        r == raised(a, z),
{
    (a | (z & !(z - 1))) & !((z - 1) & !z)
}

/// Tells whether `a & c` is the least conjunction.
fn is_and_least(a: u64, b: u64, c: u64, d: u64) -> (r: bool)
    ensures
        r == and_least(a, b, c, d),
{
    let w: u64 = a & c;
    if w == 0 {
        return true;
    }
    let z: u64 = !(a | c) & !(w ^ (w - 1));
    z == 0 || (raise(a, z) > b && raise(c, z) > d)
}

/// Tells whether `a` cannot be raised in a bit of `c`.
fn is_or_kept(a: u64, b: u64, c: u64) -> (r: bool)
    ensures
        r == or_kept(a, b, c),
{
    let w: u64 = a & !c;
    if w == 0 {
        return true;
    }
    let z: u64 = !a & c & !(w ^ (w - 1));
    z == 0 || raise(a, z) > b
}

/// Tells whether the conjunctions of the bounds are the least and the
/// greatest.
fn is_and_bounded(l1: i64, h1: i64, l2: i64, h2: i64) -> (r: bool)
    ensures
        r == and_bounded(l1, h1, l2, h2),
{
    let mixed1 = l1 < 0 && h1 >= 0;
    let mixed2 = l2 < 0 && h2 >= 0;
    let (a, b, c, d) = (l1 as u64, h1 as u64, l2 as u64, h2 as u64);
    let low = if (mixed1 && l2 >= 0) || (mixed2 && l1 >= 0) {
        a & c == 0
    } else {
        let p: i64 = if mixed1 {
            -1
        } else {
            h1
        };
        let q: i64 = if mixed2 {
            -1
        } else {
            h2
        };
        is_and_least(a, p as u64, c, q as u64)
    };
    let high = if h1 >= 0 && h2 >= 0 && (l1 < 0 || l2 < 0) {
        let top: i64 = (b & d) as i64;
        (l1 >= 0 || top == h2) && (l2 >= 0 || top == h1)
    } else {
        let p: i64 = if mixed1 {
            0
        } else {
            l1
        };
        let q: i64 = if mixed2 {
            0
        } else {
            l2
        };
        is_or_kept(!b, !(p as u64), !d) && is_or_kept(!d, !(q as u64), !b)
    };
    low && high
}

impl Range {
    /// Whether the bounds are in order.
    pub open spec fn valid(self) -> bool {
        self matches Range::Interval { lo, hi } ==> lo <= hi
    }

    /// Whether a value belongs to the range.
    pub open spec fn has(self, v: i64) -> bool {
        match self {
            Range::Bottom => false,
            Range::Interval { lo, hi } => lo <= v <= hi,
            Range::Top => true,
        }
    }

    /// Whether every value of this range belongs to another.
    pub open spec fn within(self, other: Range) -> bool {
        forall|v: i64| #[trigger] self.has(v) ==> other.has(v)
    }

    /// The range of one value.
    pub open spec fn only(v: i64) -> Range {
        Range::Interval { lo: v, hi: v }
    }

    /// The one value of the range, if it is one.
    pub open spec fn single(self) -> Option<i64> {
        match self {
            Range::Interval { lo, hi } => if lo == hi {
                Some(lo)
            } else {
                None
            },
            _ => None,
        }
    }

    /// Least upper bound.
    pub open spec fn joined(self, other: Range) -> Range {
        match (self, other) {
            (Range::Bottom, r) => r,
            (r, Range::Bottom) => r,
            (Range::Interval { lo: l1, hi: h1 }, Range::Interval { lo: l2, hi: h2 }) => {
                Range::Interval { lo: min_of(l1, l2), hi: max_of(h1, h2) }
            },
            _ => Range::Top,
        }
    }

    /// Greatest lower bound.
    pub open spec fn met(self, other: Range) -> Range {
        match (self, other) {
            (Range::Top, r) => r,
            (r, Range::Top) => r,
            (Range::Interval { lo: l1, hi: h1 }, Range::Interval { lo: l2, hi: h2 }) => {
                let (lo, hi) = (max_of(l1, l2), min_of(h1, h2));
                if lo <= hi {
                    Range::Interval { lo, hi }
                } else {
                    Range::Bottom
                }
            },
            _ => Range::Bottom,
        }
    }

    /// Like the least upper bound, but a bound that moves outward jumps to
    /// the extreme.
    pub open spec fn widened(self, other: Range) -> Range {
        match (self, other) {
            (Range::Bottom, r) => r,
            (r, Range::Bottom) => r,
            (Range::Interval { lo: l1, hi: h1 }, Range::Interval { lo: l2, hi: h2 }) => {
                Range::Interval {
                    lo: if l2 < l1 {
                        i64::MIN
                    } else {
                        l1
                    },
                    hi: if h2 > h1 {
                        i64::MAX
                    } else {
                        h1
                    },
                }
            },
            _ => Range::Top,
        }
    }

    /// The low halves of the values. The bounds keep their order where the
    /// values between them do not wrap around. A wide range has every low
    /// half.
    pub open spec fn low32(self) -> Range {
        match self {
            Range::Interval { lo, hi } => if hi - lo <= 0xffff_ffff {
                ordered(((lo as u64) & 0xffff_ffff) as i64, ((hi as u64) & 0xffff_ffff) as i64)
            } else {
                Range::Interval { lo: 0, hi: 0xffff_ffff }
            },
            _ => self,
        }
    }

    /// Sums: the bounds are added, and an overflow gives `Top`.
    pub open spec fn plus(self, other: Range) -> Range {
        match (self, other) {
            (Range::Bottom, _) => Range::Bottom,
            (_, Range::Bottom) => Range::Bottom,
            (Range::Interval { lo: l1, hi: h1 }, Range::Interval { lo: l2, hi: h2 }) => {
                if i64::MIN <= l1 + l2 <= i64::MAX && i64::MIN <= h1 + h2 <= i64::MAX {
                    Range::Interval { lo: (l1 + l2) as i64, hi: (h1 + h2) as i64 }
                } else {
                    Range::Top
                }
            },
            _ => Range::Top,
        }
    }

    /// Conjunctions. They lie between those of the bounds, where these are
    /// the least and the greatest. Elsewhere, where values of one range are
    /// not negative, the result is not negative and no larger than they are.
    pub open spec fn anded(self, other: Range) -> Range {
        match (self, other) {
            (Range::Bottom, _) => Range::Bottom,
            (_, Range::Bottom) => Range::Bottom,
            (Range::Interval { lo: l1, hi: h1 }, Range::Interval { lo: l2, hi: h2 }) => {
                if l1 == h1 && l2 == h2 {
                    Range::only(((l1 as u64) & (l2 as u64)) as i64)
                } else if and_bounded(l1, h1, l2, h2) {
                    ordered(((l1 as u64) & (l2 as u64)) as i64, ((h1 as u64) & (h2 as u64)) as i64)
                } else if l1 >= 0 && l2 >= 0 {
                    ordered(0, min_of(h1, h2))
                } else if l1 >= 0 {
                    ordered(0, h1)
                } else if l2 >= 0 {
                    ordered(0, h2)
                } else {
                    Range::Top
                }
            },
            _ => Range::Top,
        }
    }

    /// Disjunctions. They lie between those of the bounds, where these are
    /// the least and the greatest. Elsewhere, of values that are not negative
    /// the result is no smaller than either, and no larger than their sum.
    pub open spec fn ored(self, other: Range) -> Range {
        match (self, other) {
            (Range::Bottom, _) => Range::Bottom,
            (_, Range::Bottom) => Range::Bottom,
            (Range::Interval { lo: l1, hi: h1 }, Range::Interval { lo: l2, hi: h2 }) => {
                if l1 == h1 && l2 == h2 {
                    Range::only(((l1 as u64) | (l2 as u64)) as i64)
                } else if or_bounded(l1, h1, l2, h2) {
                    ordered(((l1 as u64) | (l2 as u64)) as i64, ((h1 as u64) | (h2 as u64)) as i64)
                } else if l1 >= 0 && l2 >= 0 && 0 <= h1 + h2 <= i64::MAX {
                    ordered(max_of(l1, l2), (h1 + h2) as i64)
                } else {
                    Range::Top
                }
            },
            _ => Range::Top,
        }
    }

    /// The result of an operation that keeps no bounds.
    pub open spec fn unbounded(self, other: Range) -> Range {
        if self == Range::Bottom || other == Range::Bottom {
            Range::Bottom
        } else {
            Range::Top
        }
    }

    /// Left shifts of values that are not negative by amounts from 0 to 63.
    /// Of single values it is known; elsewhere no value may lose a bit.
    pub open spec fn shifted(self, other: Range) -> Range {
        match (self, other) {
            (Range::Bottom, _) => Range::Bottom,
            (_, Range::Bottom) => Range::Bottom,
            (Range::Interval { lo, hi }, Range::Interval { lo: s, hi: t }) => {
                if 0 <= lo <= hi && 0 <= s <= t <= 63 {
                    if lo == hi && s == t {
                        Range::only(((lo as u64) << (s as u64)) as i64)
                    } else if (hi as u64) <= (0x7fff_ffff_ffff_ffffu64 >> (t as u64)) {
                        ordered(
                            ((lo as u64) << (s as u64)) as i64,
                            ((hi as u64) << (t as u64)) as i64,
                        )
                    } else {
                        Range::Top
                    }
                } else {
                    Range::Top
                }
            },
            _ => Range::Top,
        }
    }

    /// Text form.
    pub open spec fn display(self) -> Seq<char> {
        match self {
            Range::Bottom => "⊥"@,
            Range::Top => "⊤"@,
            Range::Interval { lo, hi } => if lo == hi {
                int_text(lo as int)
            } else {
                "["@ + int_text(lo as int) + ", "@ + int_text(hi as int) + "]"@
            },
        }
    }

    /// A single concrete value.
    pub fn exact(v: i64) -> (r: Self)
        ensures
            r == Range::only(v),
    {
        Range::Interval { lo: v, hi: v }
    }

    /// Tells whether a value belongs to the range.
    pub fn contains(&self, v: i64) -> (r: bool)
        ensures
            r == self.has(v),
    {
        match *self {
            Range::Bottom => false,
            Range::Interval { lo, hi } => lo <= v && v <= hi,
            Range::Top => true,
        }
    }

    /// Least upper bound: the smallest range that contains both.
    pub fn join(self, other: Self) -> (r: Self)
        ensures
            r == self.joined(other),
    {
        match (self, other) {
            (Range::Bottom, r) => r,
            (r, Range::Bottom) => r,
            (Range::Interval { lo: l1, hi: h1 }, Range::Interval { lo: l2, hi: h2 }) => {
                Range::Interval {
                    lo: if l1 <= l2 {
                        l1
                    } else {
                        l2
                    },
                    hi: if h1 >= h2 {
                        h1
                    } else {
                        h2
                    },
                }
            },
            _ => Range::Top,
        }
    }

    /// Greatest lower bound: the largest range that both contain. `Bottom`
    /// for intervals that do not overlap.
    pub fn meet(self, other: Self) -> (r: Self)
        ensures
            r == self.met(other),
    {
        match (self, other) {
            (Range::Top, r) => r,
            (r, Range::Top) => r,
            (Range::Interval { lo: l1, hi: h1 }, Range::Interval { lo: l2, hi: h2 }) => {
                let lo: i64 = if l1 >= l2 {
                    l1
                } else {
                    l2
                };
                let hi: i64 = if h1 <= h2 {
                    h1
                } else {
                    h2
                };
                if lo <= hi {
                    Range::Interval { lo, hi }
                } else {
                    Range::Bottom
                }
            },
            _ => Range::Bottom,
        }
    }

    /// Widens this range to cover another: a bound that moves outward jumps
    /// to the extreme.
    pub fn widen(self, other: Self) -> (r: Self)
        ensures
            r == self.widened(other),
    {
        match (self, other) {
            (Range::Bottom, r) => r,
            (r, Range::Bottom) => r,
            (Range::Interval { lo: l1, hi: h1 }, Range::Interval { lo: l2, hi: h2 }) => {
                Range::Interval {
                    lo: if l2 < l1 {
                        i64::MIN
                    } else {
                        l1
                    },
                    hi: if h2 > h1 {
                        i64::MAX
                    } else {
                        h1
                    },
                }
            },
            _ => Range::Top,
        }
    }

    /// The low 32 bits, for 32-bit operations.
    pub fn trunc32(self) -> (r: Self)
        ensures
            r == self.low32(),
            forall|x: i64| #[trigger] self.has(x) ==> r.has(((x as u64) & 0xffff_ffff) as i64),
    {
        proof {
            assert forall|x: i64| #[trigger] self.has(x) implies self.low32().has(
                ((x as u64) & 0xffff_ffff) as i64,
            ) by {
                low_sound(self, x);
            }
        }
        match self {
            Range::Interval { lo, hi } => {
                if hi as i128 - lo as i128 > 0xffff_ffff {
                    return Range::Interval { lo: 0, hi: 0xffff_ffff };
                }
                let lo: i64 = ((lo as u64) & 0xffff_ffff) as i64;
                let hi: i64 = ((hi as u64) & 0xffff_ffff) as i64;
                in_order(lo, hi)
            },
            _ => self,
        }
    }

    /// Arithmetic right shift: no bounds are kept.
    pub fn sar(self, shift: Self) -> (r: Self)
        ensures
            r == self.unbounded(shift),
    {
        match (self, shift) {
            (Range::Bottom, _) => Range::Bottom,
            (_, Range::Bottom) => Range::Bottom,
            _ => Range::Top,
        }
    }

    /// Renders the text form.
    pub fn to_string(&self) -> (s: String)
        ensures
            s@ == self.display(),
    {
        match *self {
            Range::Bottom => String::from_str("⊥"),
            Range::Top => String::from_str("⊤"),
            Range::Interval { lo, hi } => {
                let mut s = String::new();
                if lo == hi {
                    push_int(&mut s, lo);
                    assert(s@ =~= int_text(lo as int));
                } else {
                    s.append("[");
                    push_int(&mut s, lo);
                    s.append(", ");
                    push_int(&mut s, hi);
                    s.append("]");
                    assert(s@ =~= self.display());
                }
                s
            },
        }
    }
}

impl std::ops::Add for Range {
    type Output = Self;

    fn add(self, other: Self) -> (r: Self) {
        match (self, other) {
            (Range::Bottom, _) => Range::Bottom,
            (_, Range::Bottom) => Range::Bottom,
            (Range::Interval { lo: l1, hi: h1 }, Range::Interval { lo: l2, hi: h2 }) => {
                match (l1.checked_add(l2), h1.checked_add(h2)) {
                    (Some(lo), Some(hi)) => Range::Interval { lo, hi },
                    _ => Range::Top,
                }
            },
            _ => Range::Top,
        }
    }
}

impl vstd::std_specs::ops::AddSpecImpl for Range {
    open spec fn obeys_add_spec() -> bool {
        true
    }

    open spec fn add_req(self, other: Self) -> bool {
        true
    }

    open spec fn add_spec(self, other: Self) -> Self {
        self.plus(other)
    }
}

impl std::ops::BitAnd for Range {
    type Output = Self;

    fn bitand(self, other: Self) -> (r: Self)
        ensures
            forall|x: i64, y: i64| #[trigger]
                self.has(x) && #[trigger] other.has(y) ==> r.has(((x as u64) & (y as u64)) as i64),
    {
        proof {
            assert forall|x: i64, y: i64| #[trigger] self.has(x) && #[trigger] other.has(y) implies self.anded(other).has(
                ((x as u64) & (y as u64)) as i64,
            ) by {
                bitwise_sound(self, other, x, y);
            }
        }
        match (self, other) {
            (Range::Bottom, _) => Range::Bottom,
            (_, Range::Bottom) => Range::Bottom,
            (Range::Interval { lo: l1, hi: h1 }, Range::Interval { lo: l2, hi: h2 }) => {
                if l1 == h1 && l2 == h2 {
                    Range::exact(((l1 as u64) & (l2 as u64)) as i64)
                } else if is_and_bounded(l1, h1, l2, h2) {
                    in_order(((l1 as u64) & (l2 as u64)) as i64, ((h1 as u64) & (h2 as u64)) as i64)
                } else if l1 >= 0 && l2 >= 0 {
                    in_order(
                        0,
                        if h1 <= h2 {
                            h1
                        } else {
                            h2
                        },
                    )
                } else if l1 >= 0 {
                    in_order(0, h1)
                } else if l2 >= 0 {
                    in_order(0, h2)
                } else {
                    Range::Top
                }
            },
            _ => Range::Top,
        }
    }
}

impl vstd::std_specs::ops::BitAndSpecImpl for Range {
    open spec fn obeys_bitand_spec() -> bool {
        true
    }

    open spec fn bitand_req(self, other: Self) -> bool {
        true
    }

    open spec fn bitand_spec(self, other: Self) -> Self {
        self.anded(other)
    }
}

impl std::ops::BitOr for Range {
    type Output = Self;

    fn bitor(self, other: Self) -> (r: Self)
        ensures
            forall|x: i64, y: i64| #[trigger]
                self.has(x) && #[trigger] other.has(y) ==> r.has(((x as u64) | (y as u64)) as i64),
    {
        proof {
            assert forall|x: i64, y: i64| #[trigger] self.has(x) && #[trigger] other.has(y) implies self.ored(other).has(
                ((x as u64) | (y as u64)) as i64,
            ) by {
                bitwise_sound(self, other, x, y);
            }
        }
        match (self, other) {
            (Range::Bottom, _) => Range::Bottom,
            (_, Range::Bottom) => Range::Bottom,
            (Range::Interval { lo: l1, hi: h1 }, Range::Interval { lo: l2, hi: h2 }) => {
                if l1 == h1 && l2 == h2 {
                    return Range::exact(((l1 as u64) | (l2 as u64)) as i64);
                }
                if is_and_bounded(-1 - h1, -1 - l1, -1 - h2, -1 - l2) {
                    return in_order(
                        ((l1 as u64) | (l2 as u64)) as i64,
                        ((h1 as u64) | (h2 as u64)) as i64,
                    );
                }
                let sum: i128 = h1 as i128 + h2 as i128;
                if l1 >= 0 && l2 >= 0 && 0 <= sum && sum <= i64::MAX as i128 {
                    in_order(
                        if l1 >= l2 {
                            l1
                        } else {
                            l2
                        },
                        sum as i64,
                    )
                } else {
                    Range::Top
                }
            },
            _ => Range::Top,
        }
    }
}

impl vstd::std_specs::ops::BitOrSpecImpl for Range {
    open spec fn obeys_bitor_spec() -> bool {
        true
    }

    open spec fn bitor_req(self, other: Self) -> bool {
        true
    }

    open spec fn bitor_spec(self, other: Self) -> Self {
        self.ored(other)
    }
}

impl std::ops::BitXor for Range {
    type Output = Self;

    /// No bounds are kept.
    fn bitxor(self, other: Self) -> (r: Self) {
        match (self, other) {
            (Range::Bottom, _) => Range::Bottom,
            (_, Range::Bottom) => Range::Bottom,
            _ => Range::Top,
        }
    }
}

impl vstd::std_specs::ops::BitXorSpecImpl for Range {
    open spec fn obeys_bitxor_spec() -> bool {
        true
    }

    open spec fn bitxor_req(self, other: Self) -> bool {
        true
    }

    open spec fn bitxor_spec(self, other: Self) -> Self {
        self.unbounded(other)
    }
}

impl std::ops::Shl for Range {
    type Output = Self;

    fn shl(self, shift: Self) -> (r: Self)
        ensures
            forall|x: i64, y: i64| #[trigger]
                self.has(x) && #[trigger] shift.has(y) && 0 <= y <= 63 ==> r.has(((x as u64) << (y as u64)) as i64),
    {
        proof {
            assert forall|x: i64, y: i64| #[trigger] self.has(x) && #[trigger] shift.has(y) && 0 <= y <= 63 implies self.shifted(shift).has(
                ((x as u64) << (y as u64)) as i64,
            ) by {
                bitwise_sound(self, shift, x, y);
            }
        }
        match (self, shift) {
            (Range::Bottom, _) => Range::Bottom,
            (_, Range::Bottom) => Range::Bottom,
            (Range::Interval { lo, hi }, Range::Interval { lo: s, hi: t }) => {
                if 0 <= lo && lo <= hi && 0 <= s && s <= t && t <= 63 {
                    if lo == hi && s == t {
                        Range::exact(((lo as u64) << (s as u64)) as i64)
                    } else if (hi as u64) <= (0x7fff_ffff_ffff_ffffu64 >> (t as u64)) {
                        in_order(
                            ((lo as u64) << (s as u64)) as i64,
                            ((hi as u64) << (t as u64)) as i64,
                        )
                    } else {
                        Range::Top
                    }
                } else {
                    Range::Top
                }
            },
            _ => Range::Top,
        }
    }
}

impl vstd::std_specs::ops::ShlSpecImpl for Range {
    open spec fn obeys_shl_spec() -> bool {
        true
    }

    open spec fn shl_req(self, shift: Self) -> bool {
        true
    }

    open spec fn shl_spec(self, shift: Self) -> Self {
        self.shifted(shift)
    }
}

impl std::ops::Shr for Range {
    type Output = Self;

    /// No bounds are kept.
    fn shr(self, shift: Self) -> (r: Self) {
        match (self, shift) {
            (Range::Bottom, _) => Range::Bottom,
            (_, Range::Bottom) => Range::Bottom,
            _ => Range::Top,
        }
    }
}

impl vstd::std_specs::ops::ShrSpecImpl for Range {
    open spec fn obeys_shr_spec() -> bool {
        true
    }

    open spec fn shr_req(self, shift: Self) -> bool {
        true
    }

    open spec fn shr_spec(self, shift: Self) -> Self {
        self.unbounded(shift)
    }
}

/// What a register holds.
#[derive(Clone, Copy, Debug, PartialEq, Eq, Structural)]
#[allow(inconsistent_fields)]
pub enum RegType {
    /// Never written.
    NotInit,
    /// A number in a range.
    Scalar(Range),
    /// A pointer into the stack: the frame pointer plus an offset.
    StackPtr {
        /// Byte offset from the frame pointer.
        offset: i32,
    },
    /// A pointer to a map value that is known not to be null.
    MapPtr {
        /// Descriptor number of the map.
        fd: i64,
    },
    /// The result of a map lookup: a pointer to a map value, or null.
    MaybeMapPtr {
        /// Descriptor number of the map.
        fd: i64,
    },
    /// The pointer to the packet context.
    XdpMdPtr,
    /// A pointer into the packet: its start plus an offset.
    PacketPtr {
        /// Byte offset from the packet start.
        offset: Range,
    },
}

impl RegType {
    /// What is known where two paths meet.
    pub open spec fn joined(self, other: RegType) -> RegType {
        match (self, other) {
            (RegType::NotInit, _) => RegType::NotInit,
            (_, RegType::NotInit) => RegType::NotInit,
            (RegType::Scalar(a), RegType::Scalar(b)) => RegType::Scalar(a.joined(b)),
            (RegType::PacketPtr { offset: a }, RegType::PacketPtr { offset: b }) => {
                RegType::PacketPtr { offset: a.joined(b) }
            },
            _ => if self == other {
                self
            } else {
                RegType::Scalar(Range::Top)
            },
        }
    }

    /// Like `joined`, but scalars widen.
    pub open spec fn widened(self, other: RegType) -> RegType {
        match (self, other) {
            (RegType::Scalar(a), RegType::Scalar(b)) => RegType::Scalar(a.widened(b)),
            _ => self.joined(other),
        }
    }

    /// The scalar range: anything for pointers, nothing for a register that
    /// was never written.
    pub open spec fn range(self) -> Range {
        match self {
            RegType::Scalar(r) => r,
            RegType::NotInit => Range::Bottom,
            _ => Range::Top,
        }
    }

    /// Merges two register types.
    pub fn join(a: &Self, b: &Self) -> (r: Self)
        ensures
            r == a.joined(*b),
    {
        match (*a, *b) {
            (RegType::NotInit, _) => RegType::NotInit,
            (_, RegType::NotInit) => RegType::NotInit,
            (RegType::Scalar(r1), RegType::Scalar(r2)) => RegType::Scalar(r1.join(r2)),
            (RegType::PacketPtr { offset: o1 }, RegType::PacketPtr { offset: o2 }) => {
                RegType::PacketPtr { offset: o1.join(o2) }
            },
            _ => if *a == *b {
                *a
            } else {
                RegType::Scalar(Range::Top)
            },
        }
    }

    /// Merges another type into this one. Tells whether this one changed.
    pub fn join_assign(&mut self, other: &Self) -> (changed: bool)
        ensures
            *final(self) == old(self).joined(*other),
            changed == (*final(self) != *old(self)),
    {
        let joined = RegType::join(self, other);
        if *self == joined {
            false
        } else {
            *self = joined;
            true
        }
    }

    /// Widens another type into this one. Tells whether this one changed.
    pub fn widen_assign(&mut self, other: &Self) -> (changed: bool)
        ensures
            *final(self) == old(self).widened(*other),
            changed == (*final(self) != *old(self)),
    {
        let next = match (*self, *other) {
            (RegType::Scalar(r1), RegType::Scalar(r2)) => RegType::Scalar(r1.widen(r2)),
            _ => RegType::join(self, other),
        };
        if *self == next {
            false
        } else {
            *self = next;
            true
        }
    }

    /// The scalar range, or `Top` for a pointer.
    pub fn scalar_range(&self) -> (r: Range)
        ensures
            r == self.range(),
    {
        match *self {
            RegType::Scalar(r) => r,
            RegType::NotInit => Range::Bottom,
            _ => Range::Top,
        }
    }

    /// The stack offset of a stack pointer.
    pub fn stack_offset(&self) -> (r: Option<i32>)
        ensures
            r == (match *self {
                RegType::StackPtr { offset } => Some(offset),
                _ => None,
            }),
    {
        match *self {
            RegType::StackPtr { offset } => Some(offset),
            _ => None,
        }
    }
}

/// The value of an 8-byte stack slot. Which bytes may be read is tracked
/// apart from it.
pub type StackSlot = RegType;

/// Number of 8-byte stack slots.
pub const STACK_SLOTS: usize = 64;

/// Size of the stack in bytes.
pub const STACK_BYTES: usize = 512;

/// Size of the stack in bytes, signed.
pub const STACK_BYTES_I32: i32 = 512;

/// Abstract machine state at one instruction.
#[derive(Clone, Debug, PartialEq, Eq)]
pub struct VerifierState {
    /// Registers `r0` to `r10`.
    pub regs: [RegType; 11],
    /// Stack slots, lowest address first.
    pub stack: [StackSlot; STACK_SLOTS],
    /// Which stack bytes were written, lowest address first.
    pub stack_init: [bool; STACK_BYTES],
    /// Map descriptors by descriptor number.
    pub maps: Rc<Vec<Option<MapDesc>>>,
    /// Length of the packet, if there is one.
    pub packet_len: Option<usize>,
}

/// Contents of a [`VerifierState`].
#[verifier::ext_equal]
pub struct StateModel {
    /// Registers.
    pub regs: Seq<RegType>,
    /// Stack slots.
    pub stack: Seq<RegType>,
    /// Which stack bytes were written.
    pub init: Seq<bool>,
    /// Map descriptors by descriptor number.
    pub maps: Seq<Option<DescModel>>,
    /// Length of the packet.
    pub packet_len: Option<usize>,
}

/// Contents of an optional descriptor.
pub open spec fn desc_of(d: Option<MapDesc>) -> Option<DescModel> {
    match d {
        Some(d) => Some(d@),
        None => None,
    }
}

/// Contents of a descriptor table.
pub open spec fn table_of(maps: Seq<Option<MapDesc>>) -> Seq<Option<DescModel>> {
    maps.map_values(|d: Option<MapDesc>| desc_of(d))
}

impl View for VerifierState {
    type V = StateModel;

    open spec fn view(&self) -> StateModel {
        StateModel {
            regs: self.regs@,
            stack: self.stack@,
            init: self.stack_init@,
            maps: table_of(self.maps@),
            packet_len: self.packet_len,
        }
    }
}

/// Register types where two paths meet.
pub open spec fn joined_regs(a: Seq<RegType>, b: Seq<RegType>) -> Seq<RegType> {
    Seq::new(a.len(), |i: int| a[i].joined(b[i]))
}

/// Register types where a loop closes.
pub open spec fn widened_regs(a: Seq<RegType>, b: Seq<RegType>) -> Seq<RegType> {
    Seq::new(a.len(), |i: int| a[i].widened(b[i]))
}

/// The bytes that were written on both paths.
pub open spec fn joined_init(a: Seq<bool>, b: Seq<bool>) -> Seq<bool> {
    Seq::new(a.len(), |i: int| a[i] && b[i])
}

/// The descriptors that two tables agree on.
pub open spec fn joined_maps(a: Seq<Option<DescModel>>, b: Seq<Option<DescModel>>) -> Seq<
    Option<DescModel>,
> {
    Seq::new(
        if a.len() >= b.len() {
            a.len()
        } else {
            b.len()
        },
        |i: int|
            if i < a.len() && i < b.len() && a[i] == b[i] {
                a[i]
            } else {
                None
            },
    )
}

impl StateModel {
    /// Whether the fixed-size parts have their sizes.
    pub open spec fn wf(self) -> bool {
        self.regs.len() == 11 && self.stack.len() == 64 && self.init.len() == 512
    }

    /// The state at entry: nothing was written but the frame pointer.
    pub open spec fn at_entry(maps: Seq<Option<DescModel>>) -> StateModel {
        StateModel {
            regs: Seq::new(11, |i: int| RegType::NotInit).update(10, RegType::StackPtr { offset: 0 }),
            stack: Seq::new(64, |i: int| RegType::NotInit),
            init: Seq::new(512, |i: int| false),
            maps,
            packet_len: None,
        }
    }

    /// The state at entry of a packet program: `r1` points to the context.
    pub open spec fn at_xdp_entry(packet_len: Option<usize>, maps: Seq<Option<DescModel>>) -> StateModel {
        let s = StateModel::at_entry(maps);
        StateModel { regs: s.regs.update(1, RegType::XdpMdPtr), packet_len, ..s }
    }

    /// The state where two paths meet.
    pub open spec fn joined(self, other: StateModel) -> StateModel {
        StateModel {
            regs: joined_regs(self.regs, other.regs),
            stack: joined_regs(self.stack, other.stack),
            init: joined_init(self.init, other.init),
            maps: joined_maps(self.maps, other.maps),
            packet_len: self.packet_len,
        }
    }

    /// The state where a loop closes: scalar registers widen, the rest joins.
    pub open spec fn widened(self, other: StateModel) -> StateModel {
        StateModel { regs: widened_regs(self.regs, other.regs), ..self.joined(other) }
    }

    /// The state after a write of a register; the frame pointer is
    /// read-only.
    pub open spec fn assigned(self, r: u8, value: RegType) -> StateModel {
        if r == 10 {
            self
        } else {
            StateModel { regs: self.regs.update(r as int, value), ..self }
        }
    }

    /// Whether the stack bytes from `lo` to `hi` were all written.
    pub open spec fn readable(self, lo: int, hi: int) -> bool {
        forall|j: int| lo <= j <= hi ==> #[trigger] self.init[j]
    }

    /// The state after a write of the stack bytes from `lo` to `hi`.
    pub open spec fn marked(self, lo: int, hi: int) -> StateModel {
        StateModel { init: Seq::new(512, |j: int| self.init[j] || lo <= j <= hi), ..self }
    }

    /// The state with no stack byte readable.
    pub open spec fn cleared(self) -> StateModel {
        StateModel { init: Seq::new(512, |j: int| false), ..self }
    }

    /// The descriptor with a number.
    pub open spec fn desc(self, fd: i64) -> Option<DescModel> {
        if 0 <= fd < self.maps.len() {
            self.maps[fd as int]
        } else {
            None
        }
    }
}

/// Calls `Rc::clone`: another pointer to the same table.
#[verifier::external_body]
fn share(maps: &Rc<Vec<Option<MapDesc>>>) -> (r: Rc<Vec<Option<MapDesc>>>)
    ensures
        r == *maps,
{
    maps.clone()
}

/// Merges register types in place. Tells whether one changed.
fn join_slots<const N: usize>(a: &mut [RegType; N], b: &[RegType; N]) -> (changed: bool)
    ensures
        final(a)@ == joined_regs(old(a)@, b@),
        changed == (final(a)@ != old(a)@),
{
    let mut changed = false;
    let mut i: usize = 0;
    while i < N
        invariant
            i <= N,
            a@.len() == N,
            b@.len() == N,
            old(a)@.len() == N,
            forall|j: int| 0 <= j < i ==> #[trigger] a@[j] == old(a)@[j].joined(b@[j]),
            forall|j: int| i <= j < N ==> #[trigger] a@[j] == old(a)@[j],
            changed == exists|j: int| 0 <= j < i && #[trigger] a@[j] != old(a)@[j],
        decreases N - i,
    {
        let mut slot = a[i];
        let ghost before = a@;
        if slot.join_assign(&b[i]) {
            a[i] = slot;
            changed = true;
            assert(a@[i as int] != old(a)@[i as int]);
        }
        proof {
            assert(forall|j: int| 0 <= j < i ==> a@[j] == before[j]);
        }
        i = i + 1;
    }
    assert(a@ =~= joined_regs(old(a)@, b@));
    assert(!changed ==> a@ =~= old(a)@);
    changed
}

/// Widens registers in place. Tells whether one changed.
fn widen_slots<const N: usize>(a: &mut [RegType; N], b: &[RegType; N]) -> (changed: bool)
    ensures
        final(a)@ == widened_regs(old(a)@, b@),
        changed == (final(a)@ != old(a)@),
{
    let mut changed = false;
    let mut i: usize = 0;
    while i < N
        invariant
            i <= N,
            a@.len() == N,
            b@.len() == N,
            old(a)@.len() == N,
            forall|j: int| 0 <= j < i ==> #[trigger] a@[j] == old(a)@[j].widened(b@[j]),
            forall|j: int| i <= j < N ==> #[trigger] a@[j] == old(a)@[j],
            changed == exists|j: int| 0 <= j < i && #[trigger] a@[j] != old(a)@[j],
        decreases N - i,
    {
        let mut slot = a[i];
        let ghost before = a@;
        if slot.widen_assign(&b[i]) {
            a[i] = slot;
            changed = true;
            assert(a@[i as int] != old(a)@[i as int]);
        }
        proof {
            assert(forall|j: int| 0 <= j < i ==> a@[j] == before[j]);
        }
        i = i + 1;
    }
    assert(a@ =~= widened_regs(old(a)@, b@));
    assert(!changed ==> a@ =~= old(a)@);
    changed
}

/// Keeps the marks that both sides have. Tells whether one was dropped.
fn join_marks(a: &mut [bool; STACK_BYTES], b: &[bool; STACK_BYTES]) -> (changed: bool)
    ensures
        final(a)@ == joined_init(old(a)@, b@),
        changed == (final(a)@ != old(a)@),
{
    let mut changed = false;
    let mut i: usize = 0;
    while i < STACK_BYTES
        invariant
            i <= 512,
            a@.len() == 512,
            b@.len() == 512,
            old(a)@.len() == 512,
            forall|j: int| 0 <= j < i ==> #[trigger] a@[j] == (old(a)@[j] && b@[j]),
            forall|j: int| i <= j < 512 ==> #[trigger] a@[j] == old(a)@[j],
            changed == exists|j: int| 0 <= j < i && #[trigger] a@[j] != old(a)@[j],
        decreases 512 - i,
    {
        let ghost before = a@;
        if a[i] && !b[i] {
            a[i] = false;
            changed = true;
            assert(a@[i as int] != old(a)@[i as int]);
        }
        proof {
            assert(forall|j: int| 0 <= j < i ==> a@[j] == before[j]);
        }
        i = i + 1;
    }
    assert(a@ =~= joined_init(old(a)@, b@));
    assert(!changed ==> a@ =~= old(a)@);
    changed
}

/// The descriptor at an index, if the table holds one.
fn entry(maps: &Vec<Option<MapDesc>>, i: usize) -> (r: Option<&MapDesc>)
    ensures
        match r {
            Some(d) => i < maps@.len() && table_of(maps@)[i as int] == Some(d@),
            None => i < maps@.len() ==> table_of(maps@)[i as int] is None,
        },
{
    if i < maps.len() {
        assert(table_of(maps@)[i as int] == desc_of(maps@[i as int]));
        maps[i].as_ref()
    } else {
        None
    }
}

/// Merges two descriptor tables: the entries that both agree on.
fn join_maps(a: &Vec<Option<MapDesc>>, b: &Vec<Option<MapDesc>>) -> (r: Vec<Option<MapDesc>>)
    ensures
        table_of(r@) == joined_maps(table_of(a@), table_of(b@)),
{
    let len: usize = if a.len() >= b.len() {
        a.len()
    } else {
        b.len()
    };
    let mut out: Vec<Option<MapDesc>> = Vec::with_capacity(len);
    let mut i: usize = 0;
    while i < len
        invariant
            i <= len,
            len == joined_maps(table_of(a@), table_of(b@)).len(),
            table_of(out@) == joined_maps(table_of(a@), table_of(b@)).take(i as int),
        decreases len - i,
    {
        let ghost before = table_of(out@);
        let next: Option<MapDesc> = match (entry(a, i), entry(b, i)) {
            (Some(x), Some(y)) => if x.same(y) {
                Some(x.duplicate())
            } else {
                None
            },
            _ => None,
        };
        proof {
            let whole = joined_maps(table_of(a@), table_of(b@));
            assert(desc_of(next) == whole[i as int]);
            assert(whole.take(i + 1) =~= whole.take(i as int).push(whole[i as int]));
        }
        out.push(next);
        assert(table_of(out@) =~= before.push(desc_of(next)));
        i = i + 1;
    }
    proof {
        let whole = joined_maps(table_of(a@), table_of(b@));
        assert(whole.take(len as int) =~= whole);
    }
    out
}

/// Whether two descriptor tables have the same contents.
fn same_maps(a: &Vec<Option<MapDesc>>, b: &Vec<Option<MapDesc>>) -> (r: bool)
    ensures
        r == (table_of(a@) == table_of(b@)),
{
    if a.len() != b.len() {
        assert(table_of(a@).len() != table_of(b@).len());
        return false;
    }
    let mut i: usize = 0;
    while i < a.len()
        invariant
            i <= a@.len(),
            a@.len() == b@.len(),
            forall|k: int| 0 <= k < i ==> #[trigger] table_of(a@)[k] == table_of(b@)[k],
        decreases a@.len() - i,
    {
        let same = match (entry(a, i), entry(b, i)) {
            (Some(x), Some(y)) => x.same(y),
            (None, None) => true,
            _ => false,
        };
        if !same {
            assert(table_of(a@)[i as int] != table_of(b@)[i as int]);
            return false;
        }
        i = i + 1;
    }
    assert(table_of(a@) =~= table_of(b@));
    true
}

impl VerifierState {
    /// State at entry: every register is unwritten but the frame pointer.
    pub fn initial() -> (r: Self)
        ensures
            r@ == StateModel::at_entry(Seq::empty()),
    {
        let maps: Vec<Option<MapDesc>> = Vec::new();
        assert(table_of(maps@) =~= Seq::empty());
        VerifierState::initial_with_maps(maps)
    }

    /// State at entry with a table of map descriptors.
    pub fn initial_with_maps(maps: Vec<Option<MapDesc>>) -> (r: Self)
        ensures
            r@ == StateModel::at_entry(table_of(maps@)),
    {
        let mut regs: [RegType; 11] = [RegType::NotInit; 11];
        regs[10] = RegType::StackPtr { offset: 0 };
        let r = VerifierState {
            regs,
            stack: [RegType::NotInit; 64],
            stack_init: [false; 512],
            maps: Rc::new(maps),
            packet_len: None,
        };
        assert(r@ =~= StateModel::at_entry(table_of(maps@)));
        r
    }

    /// State at entry of a packet program: `r1` points to the context.
    pub fn initial_xdp(packet_len: Option<usize>, maps: Vec<Option<MapDesc>>) -> (r: Self)
        ensures
            r@ == StateModel::at_xdp_entry(packet_len, table_of(maps@)),
    {
        let ghost table = table_of(maps@);
        let mut r = VerifierState::initial_with_maps(maps);
        r.regs[1] = RegType::XdpMdPtr;
        r.packet_len = packet_len;
        assert(r@ =~= StateModel::at_xdp_entry(packet_len, table));
        r
    }

    /// A copy of the state, which shares the descriptor table.
    pub fn duplicate(&self) -> (r: Self)
        ensures
            r@ == self@,
    {
        VerifierState {
            regs: self.regs,
            stack: self.stack,
            stack_init: self.stack_init,
            maps: share(&self.maps),
            packet_len: self.packet_len,
        }
    }

    /// Merges another descriptor table into that of the state. Tells whether
    /// it changed.
    fn merge_maps(&mut self, other: &Self) -> (changed: bool)
        ensures
            final(self)@ == (StateModel {
                maps: joined_maps(old(self)@.maps, other@.maps),
                ..old(self)@
            }),
            changed == (final(self)@.maps != old(self)@.maps),
    {
        let merged = join_maps(&self.maps, &other.maps);
        if same_maps(&merged, &self.maps) {
            false
        } else {
            self.maps = Rc::new(merged);
            true
        }
    }

    /// Merges two states where paths meet.
    pub fn join(a: &Self, b: &Self) -> (r: Self)
        ensures
            r@ == a@.joined(b@),
    {
        let mut r = a.duplicate();
        let changed = r.join_assign(b);
        r
    }

    /// Merges two states where a loop closes: scalar registers widen, the
    /// rest joins.
    pub fn widen(old_state: &Self, new_state: &Self) -> (r: Self)
        ensures
            r@ == old_state@.widened(new_state@),
    {
        let mut r = old_state.duplicate();
        let changed = r.widen_assign(new_state);
        r
    }

    /// Joins another state into this one. Tells whether this one changed.
    pub fn join_assign(&mut self, other: &Self) -> (changed: bool)
        ensures
            final(self)@ == old(self)@.joined(other@),
            changed == (final(self)@ != old(self)@),
    {
        let regs = join_slots(&mut self.regs, &other.regs);
        let stack = join_slots(&mut self.stack, &other.stack);
        let init = join_marks(&mut self.stack_init, &other.stack_init);
        let maps = self.merge_maps(other);
        assert(self@ =~= old(self)@.joined(other@));
        regs || stack || init || maps
    }

    /// Widens another state into this one. Tells whether this one changed.
    pub fn widen_assign(&mut self, other: &Self) -> (changed: bool)
        ensures
            final(self)@ == old(self)@.widened(other@),
            changed == (final(self)@ != old(self)@),
    {
        let regs = widen_slots(&mut self.regs, &other.regs);
        let stack = join_slots(&mut self.stack, &other.stack);
        let init = join_marks(&mut self.stack_init, &other.stack_init);
        let maps = self.merge_maps(other);
        assert(self@ =~= old(self)@.widened(other@));
        regs || stack || init || maps
    }

    /// Whether the stack bytes from `lo` to `hi` were all written.
    pub fn stack_range_init(&self, lo: usize, hi: usize) -> (r: bool)
        requires
            hi < 512,
        ensures
            r == self@.readable(lo as int, hi as int),
    {
        let mut i: usize = lo;
        while i <= hi
            invariant
                lo <= i,
                i <= hi + 1 || i == lo,
                hi < 512,
                forall|j: int| lo <= j < i ==> #[trigger] self@.init[j],
            decreases hi + 1 - i,
        {
            if !self.stack_init[i] {
                assert(!self@.init[i as int]);
                return false;
            }
            i = i + 1;
        }
        true
    }

    /// Marks the stack bytes from `lo` to `hi` as written.
    pub fn mark_stack_range(&mut self, lo: usize, hi: usize)
        requires
            hi < 512,
        ensures
            final(self)@ == old(self)@.marked(lo as int, hi as int),
    {
        let mut i: usize = lo;
        while i <= hi
            invariant
                lo <= i,
                i <= hi + 1 || i == lo,
                hi < 512,
                self@.regs == old(self)@.regs,
                self@.stack == old(self)@.stack,
                self@.maps == old(self)@.maps,
                self@.packet_len == old(self)@.packet_len,
                forall|j: int|
                    0 <= j < 512 ==> #[trigger] self@.init[j] == (old(self)@.init[j] || lo <= j < i),
            decreases hi + 1 - i,
        {
            let ghost before = self@.init;
            self.stack_init[i] = true;
            assert(self@.init =~= before.update(i as int, true));
            i = i + 1;
        }
        assert(self@ =~= old(self)@.marked(lo as int, hi as int));
    }

    /// Forgets which stack bytes were written.
    pub fn clear_stack_init(&mut self)
        ensures
            final(self)@ == old(self)@.cleared(),
    {
        self.stack_init = [false; 512];
        assert(self@ =~= old(self)@.cleared());
    }

    /// Writes a register; the frame pointer is read-only.
    pub fn assign(&mut self, r: u8, value: RegType)
        requires
            r <= 10,
        ensures
            final(self)@ == old(self)@.assigned(r, value),
    {
        if r != 10 {
            self.regs[r as usize] = value;
            assert(self@.regs =~= old(self)@.regs.update(r as int, value));
        }
    }

    /// The descriptor with a number.
    pub fn map_desc(&self, fd: i64) -> (r: Option<&MapDesc>)
        ensures
            match r {
                Some(d) => self@.desc(fd) == Some(d@),
                None => self@.desc(fd) is None,
            },
    {
        if fd < 0 || fd as u64 >= self.maps.len() as u64 {
            return None;
        }
        entry(&self.maps, fd as usize)
    }
}

} // verus!
