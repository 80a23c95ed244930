//! Abstract values, states and refinement.

use ebpf_lab::isa::{JumpOp, MemSize, Reg};
use ebpf_lab::verify::access::packet_store_error;
use ebpf_lab::verify::refine::refine;
use ebpf_lab::verify::state::{
    Range, RegType, StackSlot, VerifierState, STACK_BYTES, STACK_BYTES_I32, STACK_SLOTS,
};
use ebpf_lab::verify::transfer::{refine_packet_edge, refine_reg, swap_op};
use ebpf_lab::verify::VerifyError;
use ebpf_lab::vm::memory::PACKET_BASE;

/// Refine on one successor edge the way `verify` does: `out` starts as
/// a clone of the block-exit state, `incoming` is the pre-edge state.
fn edge(incoming: &RegType, op: JumpOp, k: i64, taken: bool) -> RegType {
    let mut out = incoming.clone();
    refine_reg(&mut out, incoming, op, k, taken);
    out
}

/// Packet edge the way `verify` does: `out` holds both registers at
/// block exit; the compared pair is `(dst, src)`.
fn packet_edge(
    dst_ty: &RegType,
    src_ty: &RegType,
    op: JumpOp,
    taken: bool,
) -> (RegType, RegType) {
    let mut out = VerifierState::initial_xdp(Some(64), Vec::new());
    out.regs[2] = dst_ty.clone();
    out.regs[3] = src_ty.clone();
    refine_packet_edge(&mut out, op, Reg(2), Reg(3), taken);
    (out.regs[2].clone(), out.regs[3].clone())
}

#[test]
fn range_join_bottom() {
    assert_eq!(Range::Bottom.join(Range::exact(5)), Range::exact(5));
    assert_eq!(Range::exact(5).join(Range::Bottom), Range::exact(5));
}

#[test]
fn range_join_intervals() {
    let a = Range::Interval { lo: 1, hi: 5 };
    let b = Range::Interval { lo: 3, hi: 8 };
    assert_eq!(a.join(b), Range::Interval { lo: 1, hi: 8 });
}

#[test]
fn range_meet_disjoint() {
    let a = Range::Interval { lo: 1, hi: 5 };
    let b = Range::Interval { lo: 10, hi: 20 };
    assert_eq!(a.meet(b), Range::Bottom);
}

#[test]
fn range_meet_overlapping() {
    let a = Range::Interval { lo: 1, hi: 10 };
    let b = Range::Interval { lo: 5, hi: 15 };
    assert_eq!(a.meet(b), Range::Interval { lo: 5, hi: 10 });
}

#[test]
fn range_add_sound() {
    let a = Range::Interval { lo: 1, hi: 5 };
    let b = Range::Interval { lo: 10, hi: 20 };
    assert_eq!(a + b, Range::Interval { lo: 11, hi: 25 });
}

#[test]
fn range_add_overflow() {
    let a = Range::Interval { lo: i64::MAX - 1, hi: i64::MAX };
    let b = Range::Interval { lo: 1, hi: 1 };
    assert_eq!(a + b, Range::Top);
}

#[test]
fn range_bitwise_extremes() {
    let t = Range::Top;
    let b = Range::Bottom;
    let x = Range::exact(5);
    assert_eq!(b & x, b);
    assert_eq!(x & b, b);
    assert_eq!(t & x, t);
    assert_eq!(x | b, b);
    assert_eq!(t | x, t);
    assert_eq!(b ^ x, b);
    assert_eq!(x ^ t, t);
    assert_eq!(x << b, b);
    assert_eq!(b << x, b);
    assert_eq!(x >> b, b);
    assert_eq!(x.sar(b), b);
}

#[test]
fn range_bitwise_intervals() {
    let a = Range::Interval { lo: 0b1100, hi: 0b1100 };
    let b = Range::Interval { lo: 0b1010, hi: 0b1010 };
    assert_eq!(a & b, Range::exact(0b1000));
    assert_eq!(a | b, Range::exact(0b1110));
    // XOR always widens (not interval-shaped).
    assert_eq!(a ^ b, Range::Top);
    assert_eq!(a ^ a, Range::Top);
}

#[test]
fn range_shl_sound() {
    let v = Range::Interval { lo: 1, hi: 3 };
    assert_eq!(v << Range::exact(2), Range::Interval { lo: 4, hi: 12 });
    // Out-of-range shift amount degrades to Top.
    assert_eq!(v << Range::exact(64), Range::Top);
    assert_eq!(v << Range::Top, Range::Top);
    // Negative values degrade to Top.
    assert_eq!(Range::Interval { lo: -1, hi: 3 } << Range::exact(1), Range::Top);
    // Shr/sar are conservatively Top.
    assert_eq!(v >> Range::exact(1), Range::Top);
    assert_eq!(v.sar(Range::exact(1)), Range::Top);
}

#[test]
fn range_trunc32() {
    assert_eq!(Range::Bottom.trunc32(), Range::Bottom);
    assert_eq!(Range::Top.trunc32(), Range::Top);
    assert_eq!(Range::exact(5).trunc32(), Range::exact(5));
    // High bits are masked away.
    assert_eq!(Range::exact(-1).trunc32(), Range::exact(0xFFFF_FFFF));
}

#[test]
fn range_debug_forms() {
    assert_eq!(Range::Bottom.to_string(), "⊥");
    assert_eq!(Range::Top.to_string(), "⊤");
    assert_eq!(Range::exact(7).to_string(), "7");
    assert_eq!(Range::Interval { lo: 1, hi: 2 }.to_string(), "[1, 2]");
}

#[test]
fn reg_join_notinit() {
    let a = RegType::NotInit;
    let b = RegType::Scalar(Range::exact(5));
    assert!(matches!(RegType::join(&a, &b), RegType::NotInit));
}

#[test]
fn map_ptr_join() {
    let a = RegType::MapPtr { fd: 1 };
    let b = RegType::MapPtr { fd: 1 };
    assert_eq!(RegType::join(&a, &b), RegType::MapPtr { fd: 1 });
    let c = RegType::MapPtr { fd: 2 };
    assert_eq!(RegType::join(&a, &c), RegType::Scalar(Range::Top));
    assert_eq!(
        RegType::join(&a, &RegType::Scalar(Range::exact(0))),
        RegType::Scalar(Range::Top)
    );
}

#[test]
fn stack_slot_default() {
    let s: StackSlot = RegType::NotInit;
    assert!(matches!(s, RegType::NotInit));
}

#[test]
fn stack_bytes_matches_slots() {
    // `STACK_BYTES` is the `usize` twin of `STACK_SLOTS * 8` so array
    // lengths stay cast-free; pin the two together here.
    assert_eq!(STACK_BYTES, STACK_SLOTS * 8);
    assert_eq!(STACK_BYTES_I32, i32::try_from(STACK_BYTES).expect("512 fits in i32"));
}

#[test]
fn verifier_state_initial() {
    let s = VerifierState::initial();
    assert!(matches!(s.regs[10], RegType::StackPtr { offset: 0 }));
    assert!(matches!(s.regs[0], RegType::NotInit));
    assert!(s.stack_init.iter().all(|&b| !b));
}

#[test]
fn widen_idempotent() {
    let a = Range::Interval { lo: 1, hi: 5 };
    assert_eq!(a.widen(a), a);
    assert_eq!(Range::Top.widen(Range::Top), Range::Top);
    assert_eq!(Range::Bottom.widen(Range::Bottom), Range::Bottom);
}

#[test]
fn widen_grows_left() {
    // New lo moves outward → jump to MIN.
    let old = Range::Interval { lo: 5, hi: 10 };
    let new = Range::Interval { lo: 2, hi: 10 };
    assert_eq!(old.widen(new), Range::Interval { lo: i64::MIN, hi: 10 });
}

#[test]
fn widen_grows_to_top() {
    let old = Range::Interval { lo: 5, hi: 10 };
    let new = Range::Interval { lo: -100, hi: 100 };
    assert_eq!(old.widen(new), Range::Interval { lo: i64::MIN, hi: i64::MAX });
}

#[test]
fn widen_absorbs_top() {
    let a = Range::exact(5);
    assert_eq!(Range::Top.widen(a), Range::Top);
    assert_eq!(a.widen(Range::Top), Range::Top);
    assert_eq!(Range::Bottom.widen(a), a);
    assert_eq!(a.widen(Range::Bottom), a);
}

#[test]
fn state_widen_basic() {
    let mut a = VerifierState::initial();
    let mut b = VerifierState::initial();
    a.regs[0] = RegType::Scalar(Range::Interval { lo: 0, hi: 5 });
    b.regs[0] = RegType::Scalar(Range::Interval { lo: 0, hi: 10 });
    // hi moved outward → MAX.
    let w = VerifierState::widen(&a, &b);
    assert_eq!(w.regs[0], RegType::Scalar(Range::Interval { lo: 0, hi: i64::MAX }));
    // StackPtr registers fall back to join.
    assert!(matches!(w.regs[10], RegType::StackPtr { offset: 0 }));
}

#[test]
fn join_assign_matches_join() {
    let mut a = VerifierState::initial();
    let mut b = VerifierState::initial();
    a.regs[0] = RegType::Scalar(Range::Interval { lo: 0, hi: 5 });
    b.regs[0] = RegType::Scalar(Range::Interval { lo: 3, hi: 8 });
    let expected = VerifierState::join(&a, &b);
    let mut assigned = a;
    assert!(assigned.join_assign(&b));
    assert_eq!(assigned, expected);
    // Second join is a no-op.
    assert!(!assigned.join_assign(&b));
}

#[test]
fn widen_assign_matches_widen() {
    let mut a = VerifierState::initial();
    let mut b = VerifierState::initial();
    a.regs[0] = RegType::Scalar(Range::Interval { lo: 0, hi: 5 });
    b.regs[0] = RegType::Scalar(Range::Interval { lo: 0, hi: 10 });
    let expected = VerifierState::widen(&a, &b);
    let mut assigned = a;
    assert!(assigned.widen_assign(&b));
    assert_eq!(assigned, expected);
    assert!(!assigned.widen_assign(&b));
}

#[test]
fn eq_true_narrows() {
    let r = Range::Top;
    assert_eq!(refine(r, JumpOp::Eq, 10, true), Range::exact(10));
}

#[test]
fn lt_true_narrows() {
    let r = Range::Top;
    assert_eq!(refine(r, JumpOp::Lt, 100, true), Range::Interval { lo: i64::MIN, hi: 99 });
}

#[test]
fn lt_false_narrows() {
    let r = Range::Top;
    assert_eq!(refine(r, JumpOp::Lt, 100, false), Range::Interval { lo: 100, hi: i64::MAX });
}

#[test]
fn refine_existing_range() {
    let r = Range::Interval { lo: 0, hi: 200 };
    let refined = refine(r, JumpOp::Lt, 100, true);
    assert_eq!(refined, Range::Interval { lo: 0, hi: 99 });
}

#[test]
fn disjoint_meet_gives_bottom() {
    let r = Range::Interval { lo: 50, hi: 100 };
    let refined = refine(r, JumpOp::Lt, 10, true);
    assert_eq!(refined, Range::Bottom);
}

#[test]
fn complements_normalize() {
    let r = Range::Top;
    // Ne taken ⟺ Eq untaken (inexpressible → unchanged).
    assert_eq!(refine(r, JumpOp::Ne, 10, true), r);
    assert_eq!(refine(r, JumpOp::Ne, 10, false), Range::exact(10));
    // Ge taken ⟺ Lt untaken.
    assert_eq!(refine(r, JumpOp::Ge, 10, true), Range::Interval { lo: 10, hi: i64::MAX });
    assert_eq!(refine(r, JumpOp::Ge, 10, false), Range::Interval { lo: i64::MIN, hi: 9 });
    // Gt taken ⟺ Le untaken.
    assert_eq!(refine(r, JumpOp::Gt, 10, true), Range::Interval { lo: 11, hi: i64::MAX });
    assert_eq!(refine(r, JumpOp::Gt, 10, false), Range::Interval { lo: i64::MIN, hi: 10 });
    // Signed twins normalize the same way.
    assert_eq!(refine(r, JumpOp::Sge, 10, true), Range::Interval { lo: 10, hi: i64::MAX });
    assert_eq!(refine(r, JumpOp::Sgt, 10, false), Range::Interval { lo: i64::MIN, hi: 10 });
}

#[test]
fn inexpressible_keeps_range() {
    let r = Range::Interval { lo: 0, hi: 200 };
    assert_eq!(refine(r, JumpOp::Eq, 10, false), r);
    assert_eq!(refine(r, JumpOp::Jset, 10, true), r);
    assert_eq!(refine(r, JumpOp::Jset, 10, false), r);
    assert_eq!(refine(r, JumpOp::Always, 0, true), r);
}

#[test]
fn le_sle_arms() {
    let r = Range::Top;
    assert_eq!(refine(r, JumpOp::Le, 10, true), Range::Interval { lo: i64::MIN, hi: 10 });
    assert_eq!(refine(r, JumpOp::Le, 10, false), Range::Interval { lo: 11, hi: i64::MAX });
    assert_eq!(refine(r, JumpOp::Slt, 10, true), Range::Interval { lo: i64::MIN, hi: 9 });
    assert_eq!(refine(r, JumpOp::Sle, 10, false), Range::Interval { lo: 11, hi: i64::MAX });
}

#[test]
fn refine_reg_maybe_map_ptr_truth_table() {
    let maybe = RegType::MaybeMapPtr { fd: 1 };
    // Immediate `== 0` / `!= 0` are the only refining comparisons:
    // null edge → exact-zero scalar, non-null edge → proven pointer.
    assert_eq!(edge(&maybe, JumpOp::Eq, 0, true), RegType::Scalar(Range::exact(0)));
    assert_eq!(edge(&maybe, JumpOp::Eq, 0, false), RegType::MapPtr { fd: 1 });
    assert_eq!(edge(&maybe, JumpOp::Ne, 0, true), RegType::MapPtr { fd: 1 });
    assert_eq!(edge(&maybe, JumpOp::Ne, 0, false), RegType::Scalar(Range::exact(0)));
    // Non-zero k against a null check, and every other comparison,
    // leave the nullable pointer unchanged on both edges.
    for (op, k) in [(JumpOp::Eq, 5), (JumpOp::Ne, 5), (JumpOp::Gt, 0), (JumpOp::Sle, 0)] {
        for taken in [true, false] {
            assert_eq!(
                edge(&maybe, op, k, taken),
                maybe,
                "op {op:?} k {k} taken {taken} should not refine"
            );
        }
    }
}

#[test]
fn refine_reg_preserves_proven_map_ptr() {
    // A second null check (or any comparison) on a proven pointer must
    // not collapse it to a scalar — the guard already happened, and a
    // later block terminator comparing this register would otherwise
    // destroy provenance.
    let proven = RegType::MapPtr { fd: 1 };
    for (op, k, taken) in [
        (JumpOp::Eq, 0, true),
        (JumpOp::Eq, 0, false),
        (JumpOp::Ne, 0, true),
        (JumpOp::Gt, 5, false),
    ] {
        assert_eq!(
            edge(&proven, op, k, taken),
            proven,
            "op {op:?} k {k} taken {taken} should not degrade a proven pointer"
        );
    }
}

#[test]
fn refine_reg_scalar_keeps_interval_refinement() {
    // Scalars are met with the interval of the condition.
    let scalar = RegType::Scalar(Range::Interval { lo: 0, hi: 10 });
    assert_eq!(
        edge(&scalar, JumpOp::Lt, 5, true),
        RegType::Scalar(Range::Interval { lo: 0, hi: 4 })
    );
}

#[test]
fn swap_op_table() {
    assert_eq!(swap_op(JumpOp::Eq), Some(JumpOp::Eq));
    assert_eq!(swap_op(JumpOp::Gt), Some(JumpOp::Lt));
    assert_eq!(swap_op(JumpOp::Ge), Some(JumpOp::Le));
    assert_eq!(swap_op(JumpOp::Lt), Some(JumpOp::Gt));
    assert_eq!(swap_op(JumpOp::Sgt), Some(JumpOp::Slt));
    assert_eq!(swap_op(JumpOp::Jset), None);
    assert_eq!(swap_op(JumpOp::Always), None);
}

#[test]
fn refine_packet_edge_narrows_offset() {
    // `r2 = pkt+[0,100]`, `r3 = PACKET_BASE + 64` (data_end): the
    // bound-check `jgt r2, r3` proves `off <= 64` on the fallthrough.
    let base = PACKET_BASE;
    let pkt = RegType::PacketPtr { offset: Range::Interval { lo: 0, hi: 100 } };
    let end = RegType::Scalar(Range::exact(base + 64));
    let (false_pkt, _) = packet_edge(&pkt, &end, JumpOp::Gt, false);
    assert_eq!(false_pkt, RegType::PacketPtr { offset: Range::Interval { lo: 0, hi: 64 } });
    // Taken edge proves `off > 64`.
    let (taken_pkt, _) = packet_edge(&pkt, &end, JumpOp::Gt, true);
    assert_eq!(taken_pkt, RegType::PacketPtr { offset: Range::Interval { lo: 65, hi: 100 } });
    // Swapped operands (`jlt end, pkt`) refine the packet register.
    let (_, swapped) = packet_edge(&end, &pkt, JumpOp::Lt, false);
    assert_eq!(swapped, RegType::PacketPtr { offset: Range::Interval { lo: 0, hi: 64 } });
    // Non-exact scalars do not refine (sound imprecision).
    let fuzzy = RegType::Scalar(Range::Interval { lo: base, hi: base + 128 });
    let (untouched, _) = packet_edge(&pkt, &fuzzy, JumpOp::Gt, false);
    assert_eq!(untouched, pkt);
}

#[test]
fn packet_store_error_names_context() {
    let some = VerifierState::initial_xdp(Some(54), Vec::new());
    assert!(matches!(
        packet_store_error(&some, 0, MemSize::W, 0),
        VerifyError::PacketOutOfBounds { packet_len: 54, .. }
    ));
    let none = VerifierState::initial();
    assert!(matches!(
        packet_store_error(&none, 0, MemSize::W, 0),
        VerifyError::NoPacketContext { .. }
    ));
}

/// Whether a range holds a value.
fn contains(r: Range, v: i64) -> bool {
    match r {
        Range::Bottom => false,
        Range::Top => true,
        Range::Interval { lo, hi } => lo <= v && v <= hi,
    }
}

fn sample() -> Vec<Range> {
    let mut all = vec![Range::Bottom, Range::Top];
    for lo in [-1000, -3, 0, 1, 7] {
        for width in [0, 1, 5, 100] {
            all.push(Range::Interval { lo, hi: lo + width });
        }
    }
    all
}

#[test]
fn join_and_meet_laws() {
    for a in sample() {
        assert_eq!(a.join(a), a);
        assert_eq!(a.meet(a), a);
        assert_eq!(a.widen(a), a);
        assert_eq!(Range::Top.join(a), Range::Top);
        assert_eq!(Range::Bottom.join(a), a);
        assert_eq!(Range::Bottom.meet(a), Range::Bottom);
        for b in sample() {
            assert_eq!(a.join(b), b.join(a));
            assert_eq!(a.meet(b), b.meet(a));
            for v in [-1000, -3, 0, 2, 8, 101] {
                if contains(a, v) || contains(b, v) {
                    assert!(contains(a.join(b), v));
                    assert!(contains(a.widen(b), v));
                }
                assert_eq!(contains(a.meet(b), v), contains(a, v) && contains(b, v));
            }
        }
    }
}

#[test]
fn sums_hold_the_corner_sums() {
    for a in sample() {
        for b in sample() {
            for x in [-1000, -3, 0, 1, 7] {
                for y in [-1000, -3, 0, 1, 7] {
                    if contains(a, x) && contains(b, y) {
                        assert!(contains(a + b, x + y));
                    }
                }
            }
        }
    }
}

#[test]
fn bit_operations_hold_their_results() {
    let big = Range::Interval { lo: 0, hi: 1 << 32 };
    assert!(contains(big.trunc32(), 0xffff_ffff));
    assert!(contains(big.trunc32(), 0));
    assert_eq!(Range::exact(-1).trunc32(), Range::exact(0xffff_ffff));
    assert_eq!(Range::Bottom.trunc32(), Range::Bottom);
    assert_eq!(Range::Top.trunc32(), Range::Top);
    let near = |lo: i64| Range::Interval { lo, hi: lo + 1 };
    assert!(contains(near(1) & near(4), 0));
    assert!(contains(near(1) | near(1), 3));
    assert_eq!(Range::exact(6) & Range::exact(3), Range::exact(2));
    assert_eq!(Range::Bottom & Range::exact(3), Range::Bottom);
    assert_eq!(Range::exact(6) | Range::exact(3), Range::exact(7));
    let wide = Range::Interval { lo: 0, hi: 1 << 62 };
    let by = Range::Interval { lo: 0, hi: 2 };
    assert!(contains(wide << by, 1 << 62));
    assert!(contains(wide << by, i64::MIN));
    for a in sample() {
        for b in sample() {
            for x in [-1000, -3, 0, 1, 7] {
                for y in [-1000, -3, 0, 1, 7] {
                    if contains(a, x) && contains(b, y) {
                        assert!(contains(a & b, x & y));
                        assert!(contains(a | b, x | y));
                        if y >= 0 {
                            assert!(contains(a << b, x << y));
                        }
                        assert!(contains(a.trunc32(), x & 0xffff_ffff));
                    }
                }
            }
        }
    }
}

#[test]
fn bit_operations_keep_exact_bounds() {
    let range = |lo: i64, hi: i64| Range::Interval { lo, hi };
    assert_eq!(range(4, 7) & Range::exact(7), range(4, 7));
    assert_eq!(Range::exact(1) | range(2, 3), Range::exact(3));
    assert_eq!(range(-4, -1) & range(-8, -1), range(-8, -1));
    // The bounds of a conjunction are not those of the bounds here.
    assert_eq!(range(3, 4) & range(3, 4), range(0, 4));
    assert_eq!(range(0, i64::MAX).trunc32(), range(0, 0xffff_ffff));
    assert_eq!(range(-1, 1).trunc32(), Range::Top);
    for l1 in -9..9 {
        for h1 in l1..9 {
            for l2 in -9..9 {
                for h2 in l2..9 {
                    let and = range(l1, h1) & range(l2, h2);
                    let or = range(l1, h1) | range(l2, h2);
                    // The bounds of the bounds are taken wherever they hold.
                    let and_corners = range(l1 & l2, h1 & h2);
                    let or_corners = range(l1 | l2, h1 | h2);
                    let mut and_fits = true;
                    let mut or_fits = true;
                    for x in l1..=h1 {
                        for y in l2..=h2 {
                            assert!(contains(and, x & y) && contains(or, x | y));
                            and_fits &= contains(and_corners, x & y);
                            or_fits &= contains(or_corners, x | y);
                        }
                    }
                    assert!(!and_fits || and == and_corners, "{l1} {h1} {l2} {h2}");
                    assert!(!or_fits || or == or_corners, "{l1} {h1} {l2} {h2}");
                }
            }
        }
    }
}
