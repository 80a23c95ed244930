//! What the verifier accepts and what it rejects, instruction by instruction.
use vstd::prelude::*;

use crate::cfg::{block_index, blocks, edges, EdgeKind};
use crate::graph::out_edges;
use crate::isa::insn::{AluOp, Insn, JumpOp, MemSize, Operand, Reg, Width};
use crate::verify::refine::refined;
use crate::verify::state::{Range, RegType, StateModel};
use crate::verify::transfer::{alu_range, edge_state, transfer};
use crate::verify::walk::{block_exit, first_desc, Task, WalkModel};
use crate::verify::VerifyError;
use crate::vm::maps::DescModel;

verus! {

/// The outcome of an instruction.
pub type Verdict = Result<StateModel, VerifyError>;

/// Whether an instruction reads a register: the operands of an operation
/// and of a comparison, the base and the source of a memory access, the
/// result at an exit, the map of a helper that takes one. A move does not
/// read its destination.
pub open spec fn reads(insn: Insn, r: Reg) -> bool {
    match insn {
        Insn::Alu { op, dst, src, .. } => src == Operand::Reg(r) || (op != AluOp::Mov && dst == r),
        Insn::Load { base, .. } => base == r,
        Insn::Store { base, src, .. } => base == r || src == Operand::Reg(r),
        Insn::Jump { op, dst, src, .. } => op != JumpOp::Always && (dst == r || src == Operand::Reg(r)),
        Insn::Call { func } => 1 <= func <= 3 && r == Reg(1),
        Insn::Exit => r == Reg(0),
        _ => false,
    }
}

/// An instruction that reads a register which was never written is
/// rejected.
pub proof fn unwritten_registers_are_not_read(pc: usize, insn: Insn, s: StateModel, r: Reg)
    requires
        reads(insn, r),
        s.regs[r.0 as int] == RegType::NotInit,
    ensures
        transfer(pc, insn, s) is Err,
{
}

/// Whether an operand is a register that was never written.
pub open spec fn unwritten(s: StateModel, src: Operand) -> bool {
    src matches Operand::Reg(r) && s.regs[r.0 as int] == RegType::NotInit
}

/// The error at an operand that was never written.
pub open spec fn unwritten_error(pc: usize, src: Operand) -> Verdict {
    Err(VerifyError::UninitRegister { pc, reg: src->Reg_0.0 })
}

/// An operation is rejected for a byte swap of a width that is computed or
/// that does not exist, and for reading what was never written, and for
/// nothing else.
pub proof fn operation_verdict(pc: usize, s: StateModel, width: Width, op: AluOp, dst: Reg, src: Operand)
    ensures
        ({
            let r = transfer(pc, Insn::Alu { width, op, dst, src }, s);
            if op is End && src is Reg {
                r == Verdict::Err(VerifyError::IllegalInstruction { pc })
            } else if op is End && src->Imm_0 != 16 && src->Imm_0 != 32 && src->Imm_0 != 64 {
                r == Verdict::Err(VerifyError::InvalidEndWidth { pc, width: src->Imm_0 as i64 })
            } else if unwritten(s, src) {
                r == unwritten_error(pc, src)
            } else if op != AluOp::Mov && s.regs[dst.0 as int] == RegType::NotInit {
                r == Verdict::Err(VerifyError::UninitRegister { pc, reg: dst.0 })
            } else {
                r is Ok
            }
        }),
{
}

/// A comparison is rejected for reading what was never written, and for
/// nothing else; it changes nothing.
pub proof fn comparison_verdict(
    pc: usize,
    s: StateModel,
    width: Width,
    op: JumpOp,
    dst: Reg,
    src: Operand,
    offset: i16,
)
    ensures
        ({
            let r = transfer(pc, Insn::Jump { width, op, dst, src, offset }, s);
            if op == JumpOp::Always {
                r == Verdict::Ok(s)
            } else if s.regs[dst.0 as int] == RegType::NotInit {
                r == Verdict::Err(VerifyError::UninitRegister { pc, reg: dst.0 })
            } else if unwritten(s, src) {
                r == unwritten_error(pc, src)
            } else {
                r == Verdict::Ok(s)
            }
        }),
{
}

/// An exit gives back `r0`, which must have been written.
pub proof fn exit_verdict(pc: usize, s: StateModel)
    ensures
        transfer(pc, Insn::Exit, s) == (if s.regs[0] == RegType::NotInit {
            Verdict::Err(VerifyError::UninitRegister { pc, reg: 0 })
        } else {
            Verdict::Ok(s)
        }),
{
}

/// Whether the bytes of an access lie in the stack frame of 512 bytes below
/// its end, at a multiple of their number.
pub open spec fn on_stack(at: int, size: MemSize) -> bool {
    -512 <= at && at + size.len() <= 0 && at % size.len() as int == 0
}

/// A load through a stack pointer is accepted exactly where its bytes lie in
/// the frame, are aligned, and were all written.
pub proof fn stack_load_verdict(
    pc: usize,
    s: StateModel,
    size: MemSize,
    dst: Reg,
    base: Reg,
    offset: i16,
    at: i32,
)
    requires
        s.regs[base.0 as int] == (RegType::StackPtr { offset: at }),
    ensures
        ({
            let r = transfer(pc, Insn::Load { size, dst, base, offset }, s);
            let written = forall|k: int|
                512 + at + offset <= k < 512 + at + offset + size.len() ==> #[trigger] s.init[k];
            &&& r is Ok <==> on_stack(at + offset, size) && written
            &&& on_stack(at + offset, size) && !written ==> r == Verdict::Err(
                VerifyError::UninitStackRead { pc, offset: (at + offset) as i32 },
            )
            &&& at + offset < -512 || at + offset + size.len() > 0 ==> r == Verdict::Err(
                VerifyError::StackOverflow { pc },
            )
            &&& -512 <= at + offset && at + offset + size.len() <= 0 && (at + offset) % size.len() as int != 0
                ==> r == Verdict::Err(
                VerifyError::MisalignedAccess { pc, offset: (at + offset) as i32, size: size.len() as u8 },
            )
        }),
{
}

/// A store through a stack pointer is accepted exactly where its source was
/// written and its bytes lie in the frame and are aligned.
pub proof fn stack_store_verdict(
    pc: usize,
    s: StateModel,
    size: MemSize,
    base: Reg,
    offset: i16,
    src: Operand,
    at: i32,
)
    requires
        s.regs[base.0 as int] == (RegType::StackPtr { offset: at }),
    ensures
        ({
            let r = transfer(pc, Insn::Store { size, base, offset, src }, s);
            &&& r is Ok <==> !unwritten(s, src) && on_stack(at + offset, size)
            &&& unwritten(s, src) ==> r == unwritten_error(pc, src)
            &&& !unwritten(s, src) && (at + offset < -512 || at + offset + size.len() > 0) ==> r == Verdict::Err(
                VerifyError::StackOverflow { pc },
            )
            &&& r matches Ok(t) ==> t.regs == s.regs
        }),
{
}

/// An access through a pointer to a map value is accepted exactly where it
/// lies inside the value and is aligned. One that may be null is never
/// followed.
pub proof fn map_access_verdict(
    pc: usize,
    s: StateModel,
    size: MemSize,
    dst: Reg,
    base: Reg,
    offset: i16,
    src: Operand,
    fd: i64,
)
    ensures
        ({
            let load = transfer(pc, Insn::Load { size, dst, base, offset }, s);
            let store = transfer(pc, Insn::Store { size, base, offset, src }, s);
            let inside = s.desc(fd) matches Some(d) && 0 <= offset && offset + size.len() <= d.value_size && offset as int
                % size.len() as int == 0;
            &&& s.regs[base.0 as int] == (RegType::MapPtr { fd }) ==> {
                &&& load is Ok <==> inside
                &&& store is Ok <==> inside && !unwritten(s, src)
                &&& store matches Ok(t) ==> t == s
            }
            &&& s.regs[base.0 as int] == (RegType::MaybeMapPtr { fd }) ==> {
                let null = Verdict::Err(VerifyError::NullMapPtrAccess { pc, register: base.0, fd });
                load == null && store == (if unwritten(s, src) {
                    unwritten_error(pc, src)
                } else {
                    null
                })
            }
        }),
{
}

/// The packet and its context are never written, and nothing is reached
/// through a number.
pub proof fn unwritable_memory(
    pc: usize,
    s: StateModel,
    size: MemSize,
    dst: Reg,
    base: Reg,
    offset: i16,
    src: Operand,
)
    ensures
        ({
            let load = transfer(pc, Insn::Load { size, dst, base, offset }, s);
            let store = transfer(pc, Insn::Store { size, base, offset, src }, s);
            match s.regs[base.0 as int] {
                RegType::PacketPtr { .. } => store is Err,
                RegType::XdpMdPtr => store is Err,
                RegType::Scalar(_) => load is Err && store is Err,
                RegType::NotInit => load is Err && store is Err,
                _ => true,
            }
        }),
{
}

/// A load through a packet pointer is accepted where every offset that the
/// pointer may have leaves the bytes inside the packet; more than one byte
/// needs one known offset, a multiple of their number. It is rejected where
/// some offset leaves them outside.
pub proof fn packet_load_verdict(
    pc: usize,
    s: StateModel,
    size: MemSize,
    dst: Reg,
    base: Reg,
    offset: i16,
    lo: i64,
    hi: i64,
    v: i64,
)
    requires
        s.regs[base.0 as int] == (RegType::PacketPtr { offset: Range::Interval { lo, hi } }),
        lo <= hi,
    ensures
        ({
            let r = transfer(pc, Insn::Load { size, dst, base, offset }, s);
            &&& s.packet_len is None ==> r == Verdict::Err(VerifyError::NoPacketContext { pc })
            &&& s.packet_len matches Some(len) ==> {
                &&& lo <= v <= hi && (v + offset < 0 || v + offset + size.len() > len) ==> r is Err
                &&& size.len() > 1 && (lo != hi || (lo + offset) % size.len() as int != 0) ==> r is Err
                &&& 0 <= lo + offset && hi + offset + size.len() <= len && len <= i64::MAX && (size.len() == 1 || (lo
                    == hi && (lo + offset) % size.len() as int == 0)) ==> r is Ok
            }
        }),
{
}

/// The words of the packet context are the packet start and the packet end;
/// nothing lies behind them.
pub proof fn context_load_verdict(
    pc: usize,
    s: StateModel,
    size: MemSize,
    dst: Reg,
    base: Reg,
    offset: i16,
    len: usize,
)
    requires
        s.wf(),
        dst.0 < 10,
        s.regs[base.0 as int] == RegType::XdpMdPtr,
        s.packet_len == Some(len),
    ensures
        ({
            let r = transfer(pc, Insn::Load { size, dst, base, offset }, s);
            &&& r is Ok <==> 0 <= offset && offset + size.len() <= 8 && offset as int % size.len() as int == 0
            &&& r matches Ok(t) ==> {
                let got = t.regs[dst.0 as int];
                if size == MemSize::W && offset == 0 {
                    got == (RegType::PacketPtr { offset: Range::Interval { lo: 0, hi: 0 } })
                } else if size == MemSize::W && len <= 0xffff_ffff {
                    got == RegType::Scalar(
                        Range::Interval {
                            lo: (crate::vm::memory::PACKET_BASE + len) as i64,
                            hi: (crate::vm::memory::PACKET_BASE + len) as i64,
                        },
                    )
                } else {
                    got is Scalar
                }
            }
        }),
{
}

/// What a register holds after a constant, a copy, a load and an operation on
/// pointers: a number that is known, what was copied, a number that is not
/// known, and the pointer moved by the known number.
pub proof fn known_results(pc: usize, s: StateModel, dst: Reg, src: Reg, k: i32, imm: i64)
    requires
        s.wf(),
        dst.0 < 10,
        src.valid(),
    ensures
        transfer(pc, Insn::LoadImm64 { dst, imm }, s) matches Ok(t) && t.regs[dst.0 as int] == RegType::Scalar(
            Range::Interval { lo: imm, hi: imm },
        ),
        transfer(pc, Insn::Alu { width: Width::B64, op: AluOp::Mov, dst, src: Operand::Imm(k) }, s) matches Ok(t)
            && t.regs[dst.0 as int] == RegType::Scalar(Range::Interval { lo: k as i64, hi: k as i64 }),
        (match s.regs[src.0 as int] {
            RegType::Scalar(_) => true,
            RegType::StackPtr { .. } => true,
            RegType::PacketPtr { .. } => true,
            RegType::XdpMdPtr => true,
            _ => false,
        }) ==> (transfer(
            pc,
            Insn::Alu { width: Width::B64, op: AluOp::Mov, dst, src: Operand::Reg(src) },
            s,
        ) matches Ok(t) && t.regs[dst.0 as int] == s.regs[src.0 as int]),
        s.regs[dst.0 as int] matches RegType::StackPtr { offset } ==> (-0x4000_0000 <= offset <= 0x4000_0000
            && -0x3fff_ffff <= k <= 0x3fff_ffff ==> (transfer(
            pc,
            Insn::Alu { width: Width::B64, op: AluOp::Add, dst, src: Operand::Imm(k) },
            s,
        ) matches Ok(t) && t.regs[dst.0 as int] == (RegType::StackPtr { offset: (offset + k) as i32 })) && (transfer(
            pc,
            Insn::Alu { width: Width::B64, op: AluOp::Sub, dst, src: Operand::Imm(k) },
            s,
        ) matches Ok(t) && t.regs[dst.0 as int] == (RegType::StackPtr { offset: (offset - k) as i32 }))),
        s.regs[dst.0 as int] matches RegType::PacketPtr { offset: Range::Interval { lo, hi } } ==> (0 <= lo <= hi
            <= 0x7fff_ffff ==> (transfer(
            pc,
            Insn::Alu { width: Width::B64, op: AluOp::Add, dst, src: Operand::Imm(k) },
            s,
        ) matches Ok(t) && t.regs[dst.0 as int] == (RegType::PacketPtr {
            offset: Range::Interval { lo: (lo + k) as i64, hi: (hi + k) as i64 },
        }))),
{
}

/// What is computed is a number, but for a copy of a pointer and a pointer
/// that is moved by a known number, with 64 bits. A copy of a pointer to a map
/// value is a number that is not known.
pub proof fn results_are_numbers(pc: usize, s: StateModel, width: Width, op: AluOp, dst: Reg, src: Operand)
    requires
        s.wf(),
        dst.0 < 10,
    ensures
        transfer(pc, Insn::Alu { width, op, dst, src }, s) matches Ok(t) ==> {
            let got = t.regs[dst.0 as int];
            &&& width == Width::B32 || (op != AluOp::Mov && op != AluOp::Add && op != AluOp::Sub) ==> got is Scalar
            &&& src is Imm && op == AluOp::Mov ==> got is Scalar
            &&& src matches Operand::Reg(r) ==> (width == Width::B64 && op == AluOp::Mov && (s.regs[r.0 as int]
                is MapPtr || s.regs[r.0 as int] is MaybeMapPtr) ==> got == RegType::Scalar(Range::Top))
            &&& s.regs[dst.0 as int] is Scalar && op != AluOp::Mov ==> got is Scalar
            &&& (s.regs[dst.0 as int] is MapPtr || s.regs[dst.0 as int] is MaybeMapPtr) && op != AluOp::Mov ==> got
                is Scalar
        },
{
}

/// What is loaded is a number that is not known, but for the words of the packet
/// context.
pub proof fn loads_are_not_known(pc: usize, s: StateModel, size: MemSize, dst: Reg, base: Reg, offset: i16)
    requires
        s.wf(),
        dst.0 < 10,
        !(s.regs[base.0 as int] is XdpMdPtr),
    ensures
        transfer(pc, Insn::Load { size, dst, base, offset }, s) matches Ok(t) ==> t.regs[dst.0 as int]
            == RegType::Scalar(Range::Top),
{
}

/// The frame pointer stays the frame pointer.
pub proof fn frame_pointer_is_kept(pc: usize, insn: Insn, s: StateModel)
    requires
        s.wf(),
        insn.valid(),
        s.regs[10] == (RegType::StackPtr { offset: 0 }),
    ensures
        transfer(pc, insn, s) matches Ok(t) ==> t.regs[10] == (RegType::StackPtr { offset: 0 }),
{
}

/// The range of a result of two known numbers is the result, for the
/// operations that are followed: moves, sums that do not overflow,
/// conjunctions, disjunctions, and left shifts of numbers that are not
/// negative.
pub proof fn known_operands_give_known_results(a: i64, b: i64)
    ensures
        ({
            let (x, y) = (Range::Interval { lo: a, hi: a }, Range::Interval { lo: b, hi: b });
            let known = |op: AluOp|
                alu_range(op, Width::B64, x, y) == Range::Interval {
                    lo: op.result(a, b, Width::B64),
                    hi: op.result(a, b, Width::B64),
                };
            &&& known(AluOp::Mov)
            &&& known(AluOp::And)
            &&& known(AluOp::Or)
            &&& i64::MIN <= a + b <= i64::MAX ==> known(AluOp::Add)
            &&& a >= 0 && 0 <= b <= 63 ==> known(AluOp::Lsh)
        }),
{
    crate::isa::alu_laws::arithmetic_wraps(a, b);
    let sum = AluOp::Add.result(a, b, Width::B64);
    if i64::MIN <= a + b <= i64::MAX {
        let m = 0x1_0000_0000_0000_0000int;
        vstd::arithmetic::div_mod::lemma_fundamental_div_mod(sum - (a + b), m);
        let q = (sum - (a + b)) / m;
        assert(sum - (a + b) == m * q);
        assert(q == 0) by (nonlinear_arith)
            requires
                sum - (a + b) == m * q,
                m == 0x1_0000_0000_0000_0000int,
                -m < sum - (a + b) < m,
        ;
    }
    if 0 <= b <= 63 {
        assert((b as u64) % 64 == b as u64) by (bit_vector)
            requires
                0 <= b <= 63,
        ;
    }
}

/// Sums of ranges have the sums of the bounds as bounds.
pub proof fn sums_of_ranges(a: i64, b: i64, c: i64, d: i64)
    requires
        a <= b,
        c <= d,
        i64::MIN <= a + c,
        b + d <= i64::MAX,
    ensures
        alu_range(
            AluOp::Add,
            Width::B64,
            Range::Interval { lo: a, hi: b },
            Range::Interval { lo: c, hi: d },
        ) == (Range::Interval { lo: (a + c) as i64, hi: (b + d) as i64 }),
{
}

/// What the helpers give, and what they ask for. A map helper needs a map
/// that exists, and a key and a value whose bytes were written; its result
/// may be null for a lookup and counts as success elsewhere.
pub proof fn helper_verdict(pc: usize, s: StateModel, func: u32)
    requires
        s.wf(),
    ensures
        ({
            let r = transfer(pc, Insn::Call { func }, s);
            let known = func == 1 || func == 2 || func == 3 || func == 5 || func == 6 || func == 43;
            &&& !known ==> r == Verdict::Err(VerifyError::UnknownHelper { pc, func })
            &&& func == 5 ==> (r matches Ok(t) && t.regs[0] == RegType::Scalar(
                Range::Interval { lo: 0, hi: i64::MAX },
            ))
            &&& func == 6 ==> (r matches Ok(t) && t.regs[0] == RegType::Scalar(Range::Top))
            &&& func == 43 ==> (r matches Ok(t) && t.regs[0] == RegType::Scalar(
                Range::Interval { lo: 0, hi: 0x7fff_ffff },
            ))
            &&& 1 <= func <= 3 ==> {
                &&& s.regs[1] == RegType::NotInit ==> r == Verdict::Err(
                    VerifyError::UninitRegister { pc, reg: 1 },
                )
                &&& s.regs[1] matches RegType::Scalar(Range::Interval { lo, hi }) ==> (lo == hi ==> match s.desc(lo) {
                    None => r == Verdict::Err(VerifyError::BadMapFd { pc, fd: lo }),
                    Some(d) => {
                        &&& r is Ok <==> stack_bytes_written(s, Reg(2), d.key_size) && (func == 2
                            ==> stack_bytes_written(s, Reg(3), d.value_size))
                        &&& r matches Ok(t) ==> t.regs[0] == (if func == 1 {
                            RegType::MaybeMapPtr { fd: lo }
                        } else {
                            RegType::Scalar(Range::Interval { lo: 0, hi: 0 })
                        })
                    },
                })
            }
        }),
{
}

/// Whether a register points to bytes of the stack frame that were all
/// written. No more than 255 are taken.
pub open spec fn stack_bytes_written(s: StateModel, r: Reg, n: usize) -> bool {
    s.regs[r.0 as int] matches RegType::StackPtr { offset: at } && n <= 255 && -512 <= at && at + n <= 0 && at + n
        >= -511 && forall|k: int| 512 + at <= k < 512 + at + n ==> #[trigger] s.init[k]
}

/// A test for null tells a pointer to a map value from null.
pub proof fn null_test_refines(s: StateModel, dst: Reg, offset: i16, fd: i64, width: Width)
    requires
        s.wf(),
        dst.valid(),
        s.regs[dst.0 as int] == (RegType::MaybeMapPtr { fd }),
    ensures
        ({
            let eq = Insn::Jump { width, op: JumpOp::Eq, dst, src: Operand::Imm(0), offset };
            let ne = Insn::Jump { width, op: JumpOp::Ne, dst, src: Operand::Imm(0), offset };
            let null = RegType::Scalar(Range::Interval { lo: 0, hi: 0 });
            let value = RegType::MapPtr { fd };
            &&& edge_state(s, EdgeKind::BranchTrue, eq).regs[dst.0 as int] == null
            &&& edge_state(s, EdgeKind::BranchFalse, eq).regs[dst.0 as int] == value
            &&& edge_state(s, EdgeKind::BranchTrue, ne).regs[dst.0 as int] == value
            &&& edge_state(s, EdgeKind::BranchFalse, ne).regs[dst.0 as int] == null
        }),
{
}

/// A signed comparison with a number leaves exactly the numbers of a range
/// that go its way.
pub proof fn comparisons_refine_exactly(range: Range, k: i64, v: i64, taken: bool)
    requires
        i64::MIN < k < i64::MAX,
        range.valid(),
    ensures
        refined(range, JumpOp::Slt, k, taken).has(v) <==> range.has(v) && (v < k) == taken,
        refined(range, JumpOp::Sle, k, taken).has(v) <==> range.has(v) && (v <= k) == taken,
        refined(range, JumpOp::Sgt, k, taken).has(v) <==> range.has(v) && (v > k) == taken,
        refined(range, JumpOp::Sge, k, taken).has(v) <==> range.has(v) && (v >= k) == taken,
        refined(range, JumpOp::Eq, k, true).has(v) <==> range.has(v) && v == k,
        refined(range, JumpOp::Ne, k, false).has(v) <==> range.has(v) && v == k,
{
}

/// A comparison with a number that is not negative refines a register of
/// numbers that are not negative, whether it is signed or not.
pub proof fn edges_refine(
    s: StateModel,
    width: Width,
    dst: Reg,
    lo: i64,
    hi: i64,
    k: i32,
    v: i64,
    offset: i16,
    op: JumpOp,
    taken: bool,
)
    requires
        width == Width::B64 || hi <= 0x7fff_ffff,
        s.wf(),
        dst.valid(),
        s.regs[dst.0 as int] == RegType::Scalar(Range::Interval { lo, hi }),
        0 <= lo <= hi,
        0 <= k,
        op == JumpOp::Lt || op == JumpOp::Le || op == JumpOp::Gt || op == JumpOp::Ge || op == JumpOp::Slt || op
            == JumpOp::Sle || op == JumpOp::Sgt || op == JumpOp::Sge,
    ensures
        ({
            let insn = Insn::Jump { width, op, dst, src: Operand::Imm(k), offset };
            let kind = if taken {
                EdgeKind::BranchTrue
            } else {
                EdgeKind::BranchFalse
            };
            let holds = if op == JumpOp::Lt || op == JumpOp::Slt {
                v < k
            } else if op == JumpOp::Le || op == JumpOp::Sle {
                v <= k
            } else if op == JumpOp::Gt || op == JumpOp::Sgt {
                v > k
            } else {
                v >= k
            };
            edge_state(s, kind, insn).regs[dst.0 as int] matches RegType::Scalar(r) && (r.has(v) <==> lo <= v <= hi
                && holds == taken)
        }),
{
}

/// Where two paths meet, a register counts as written only if it was on both,
/// and so does a stack byte. What both agree on stays.
pub proof fn merge_forgets_what_one_path_lacks(a: StateModel, b: StateModel, r: int, k: int)
    requires
        a.wf(),
        b.wf(),
        0 <= r < 11,
        0 <= k < 512,
    ensures
        a.joined(b).regs[r] == RegType::NotInit <==> a.regs[r] == RegType::NotInit || b.regs[r] == RegType::NotInit,
        a.widened(b).regs[r] == RegType::NotInit <==> a.regs[r] == RegType::NotInit || b.regs[r] == RegType::NotInit,
        a.joined(b).init[k] <==> a.init[k] && b.init[k],
        a.widened(b).init[k] <==> a.init[k] && b.init[k],
        a.regs[r] == b.regs[r] ==> a.joined(b).regs[r] == a.regs[r],
        a.regs[r] == b.regs[r] ==> a.widened(b).regs[r] == a.regs[r],
{
}

/// Where a program starts, only the frame pointer was written, and the
/// context pointer where there is a packet. No stack byte was.
pub proof fn entry_knows_nothing(task: Task, r: int, k: int)
    requires
        0 <= r < 11,
        0 <= k < 512,
    ensures
        ({
            let s = task.entry_state();
            &&& s.regs[r] == (if r == 10 {
                RegType::StackPtr { offset: 0 }
            } else if r == 1 && task.config.packet_len is Some {
                RegType::XdpMdPtr
            } else {
                RegType::NotInit
            })
            &&& !s.init[k]
            &&& s.packet_len == task.config.packet_len
        }),
{
}

proof fn lemma_first_desc(descs: Seq<DescModel>, fd: int, i: nat)
    ensures
        match first_desc(descs, fd, i) {
            Some(d) => exists|k: int|
                i <= k < descs.len() && #[trigger] descs[k] == d && d.fd == fd && forall|j: int|
                    i <= j < k ==> (#[trigger] descs[j]).fd != fd,
            None => forall|k: int| i <= k < descs.len() ==> (#[trigger] descs[k]).fd != fd,
        },
    decreases descs.len() - i,
{
    if i < descs.len() {
        lemma_first_desc(descs, fd, i + 1);
        if descs[i as int].fd == fd {
            assert(descs[i as int] == descs[i as int]);
        } else if let Some(d) = first_desc(descs, fd, i + 1) {
            let k = choose|k: int|
                i + 1 <= k < descs.len() && #[trigger] descs[k] == d && d.fd == fd && forall|j: int|
                    i + 1 <= j < k ==> (#[trigger] descs[j]).fd != fd;
            assert(descs[k] == d);
        }
    }
}

/// The maps that a program may name are those of the settings, by their
/// numbers from 1 up to the largest one allowed.
pub proof fn entry_knows_its_maps(task: Task, fd: i64)
    ensures
        ({
            let got = task.entry_state().desc(fd);
            let descs = task.config.maps;
            &&& got matches Some(d) ==> d.fd == fd && descs.contains(d) && 1 <= fd <= 0xffff
            &&& got is None && 1 <= fd <= 0xffff ==> forall|k: int|
                0 <= k < descs.len() ==> (#[trigger] descs[k]).fd != fd
        }),
{
    let descs = task.config.maps;
    lemma_first_desc(descs, fd as int, 0);
    if let Some(d) = first_desc(descs, fd as int, 0) {
        let k = choose|k: int|
            0 <= k < descs.len() && #[trigger] descs[k] == d && d.fd == fd && forall|j: int|
                0 <= j < k ==> (#[trigger] descs[j]).fd != fd;
        assert(descs.contains(d));
    }
    crate::vm::map_laws::lemma_largest(descs);
}

/// A block is rejected for the first instruction that is, in the state after
/// the ones before it.
proof fn lemma_block_cause(insns: Seq<Insn>, pc: int, end: int, s: StateModel) -> (r: (int, StateModel))
    requires
        0 <= pc,
        end <= insns.len() <= usize::MAX,
        block_exit(insns, pc, end, s) is Err,
    ensures
        pc <= r.0 < end,
        block_exit(insns, pc, r.0, s) == Verdict::Ok(r.1),
        transfer(r.0 as usize, insns[r.0], r.1) == block_exit(insns, pc, end, s),
    decreases end - pc,
{
    match transfer(pc as usize, insns[pc], s) {
        Err(_) => (pc, s),
        Ok(next) => {
            let (q, t) = lemma_block_cause(insns, pc + 1, end, next);
            assert(block_exit(insns, pc, q, s) == block_exit(insns, pc + 1, q, next));
            (q, t)
        },
    }
}

/// Whether an instruction of a block is rejected in the state that the
/// instructions before it lead to, from what is known at the block after `m`
/// steps.
pub open spec fn fails_at(task: Task, m: nat, b: usize, q: int, e: VerifyError) -> bool {
    &&& b < task.block_count()
    &&& blocks(task.insns)[b as int].start.0 <= q < blocks(task.insns)[b as int].end.0
    &&& task.after(m) matches Ok(w) && w.states[b as int] matches Some(s) && block_exit(
        task.insns,
        blocks(task.insns)[b as int].start.0 as int,
        q,
        s,
    ) matches Ok(t) && transfer(q as usize, task.insns[q], t) == Verdict::Err(e)
}

/// A program is rejected only for an instruction that is, in the state that
/// leads to it from what is known at the start of its block.
pub proof fn rejections_have_a_cause(task: Task, n: nat)
    requires
        0 < task.insns.len() <= usize::MAX,
        forall|i: int| 0 <= i < task.order.len() ==> #[trigger] task.order[i] < task.block_count(),
        forall|i: int| 0 <= i < edges(task.insns).len() ==> (#[trigger] edges(task.insns)[i]).1 < task.block_count(),
    ensures
        task.after(n) matches Err(e) ==> exists|m: nat, b: usize, q: int| m < n && #[trigger] fails_at(task, m, b, q, e),
        task.after(n) matches Ok(w) ==> forall|i: int| 0 <= i < w.queue.len() ==> #[trigger] w.queue[i] < task.block_count(),
    decreases n,
{
    if n > 0 {
        rejections_have_a_cause(task, (n - 1) as nat);
        if let Err(e) = task.after((n - 1) as nat) {
            let (m, b, q) = choose|m: nat, b: usize, q: int| m < n - 1 && #[trigger] fails_at(task, m, b, q, e);
            assert(fails_at(task, m, b, q, e));
        }
        if let Ok(w) = task.after((n - 1) as nat) {
            if w.queue.len() > 0 {
                let node = w.queue[0];
                crate::cfg::blocks_partition_program(task.insns);
                let start = blocks(task.insns)[node as int].start.0 as int;
                let end = blocks(task.insns)[node as int].end.0 as int;
                let popped = w.popped();
                assert forall|i: int| 0 <= i < popped.queue.len() implies #[trigger] popped.queue[i]
                    < task.block_count() by {
                    assert(popped.queue[i] == w.queue[i + 1]);
                }
                if let Some(s) = w.states[node as int] {
                    if let Err(e) = block_exit(task.insns, start, end, s) {
                        let (q, t) = lemma_block_cause(task.insns, start, end, s);
                        assert(fails_at(task, (n - 1) as nat, node, q, e));
                    }
                    if w.seen[node as int] != w.changes[node as int] {
                        let noted = WalkModel {
                            seen: w.seen.update(node as int, w.changes[node as int]),
                            ..popped
                        };
                        if let Ok(out) = block_exit(task.insns, start, end, s) {
                            let list = out_edges(edges(task.insns), node);
                            assert forall|i: int| 0 <= i < list.len() implies (#[trigger] list[i]).0 < task.block_count() by {
                                crate::graph::lemma_out_edges(edges(task.insns), node, i);
                                let e = edges(task.insns).index_of((node, list[i].0, list[i].1));
                                assert(edges(task.insns)[e].1 == list[i].0);
                            }
                            let before = WalkModel {
                                visited: Seq::new(
                                    noted.visited.len(),
                                    |i: int| noted.visited[i] || start <= i < end,
                                ),
                                trace: noted.trace + crate::verify::walk::block_trace(task.insns, start, end, s),
                                ..noted
                            };
                            lemma_flow_queues(
                                before,
                                list,
                                0,
                                out,
                                task.insns[end - 1],
                                task.config.threshold,
                                task.block_count(),
                            );
                        }
                    }
                }
            }
        }
    }
}

proof fn lemma_flow_queues(
    w: WalkModel,
    out: Seq<(usize, EdgeKind)>,
    i: nat,
    s: StateModel,
    last: Insn,
    threshold: usize,
    n: nat,
)
    requires
        forall|k: int| 0 <= k < w.queue.len() ==> #[trigger] w.queue[k] < n,
        forall|k: int| 0 <= k < out.len() ==> (#[trigger] out[k]).0 < n,
    ensures
        forall|k: int|
            0 <= k < w.flowed(out, i, s, last, threshold).queue.len() ==> #[trigger] w.flowed(
                out,
                i,
                s,
                last,
                threshold,
            ).queue[k] < n,
    decreases out.len() - i,
{
    if i < out.len() {
        let (target, kind) = out[i as int];
        let next = w.merged(target, edge_state(s, kind, last), threshold);
        assert forall|k: int| 0 <= k < next.queue.len() implies #[trigger] next.queue[k] < n by {
            if k < w.queue.len() {
                assert(next.queue[k] == w.queue[k]);
            }
        }
        lemma_flow_queues(next, out, i + 1, s, last, threshold, n);
        assert(w.flowed(out, i, s, last, threshold) == next.flowed(out, i + 1, s, last, threshold));
    }
}

proof fn lemma_flow_states(
    w: WalkModel,
    out: Seq<(usize, EdgeKind)>,
    i: nat,
    s: StateModel,
    last: Insn,
    threshold: usize,
    b: int,
)
    requires
        0 <= b < w.states.len(),
        w.states[b] is Some,
        forall|k: int| 0 <= k < out.len() ==> (#[trigger] out[k]).0 < w.states.len(),
    ensures
        w.flowed(out, i, s, last, threshold).states.len() == w.states.len(),
        w.flowed(out, i, s, last, threshold).states[b] is Some,
        w.flowed(out, i, s, last, threshold).visited == w.visited,
    decreases out.len() - i,
{
    if i < out.len() {
        let (target, kind) = out[i as int];
        let next = w.merged(target, edge_state(s, kind, last), threshold);
        assert(out[i as int].0 < w.states.len());
        lemma_flow_states(next, out, i + 1, s, last, threshold, b);
    }
}

/// Blocks are visited whole, and only where a state has come in.
pub proof fn blocks_are_visited_whole(task: Task, n: nat, i: int, j: int)
    requires
        0 < task.insns.len() <= usize::MAX,
        forall|k: int| 0 <= k < task.order.len() ==> #[trigger] task.order[k] < task.block_count(),
        forall|k: int| 0 <= k < edges(task.insns).len() ==> (#[trigger] edges(task.insns)[k]).1 < task.block_count(),
        0 <= i < task.insns.len(),
        0 <= j < task.insns.len(),
        block_index(task.insns, i) == block_index(task.insns, j),
    ensures
        task.after(n) matches Ok(w) ==> {
            &&& w.states.len() == task.block_count() && w.visited.len() == task.insns.len()
            &&& w.visited[i] ==> w.states[block_index(task.insns, i) as int] is Some
            &&& w.visited[i] == w.visited[j]
        },
    decreases n,
{
    if n > 0 {
        blocks_are_visited_whole(task, (n - 1) as nat, i, j);
        rejections_have_a_cause(task, (n - 1) as nat);
        crate::cfg::blocks_partition_program(task.insns);
        if let Ok(w) = task.after((n - 1) as nat) {
            if w.queue.len() > 0 {
                let node = w.queue[0];
                assert(node < task.block_count());
                let start = blocks(task.insns)[node as int].start.0 as int;
                let end = blocks(task.insns)[node as int].end.0 as int;
                let here = block_index(task.insns, i) as int;
                assert(start <= i < end <==> here == node);
                assert(start <= j < end <==> here == node);
                if let Some(s) = w.states[node as int] {
                    if w.seen[node as int] != w.changes[node as int] {
                        let noted = WalkModel {
                            seen: w.seen.update(node as int, w.changes[node as int]),
                            ..w.popped()
                        };
                        if let Ok(out) = block_exit(task.insns, start, end, s) {
                            let list = out_edges(edges(task.insns), node);
                            assert forall|k: int| 0 <= k < list.len() implies (#[trigger] list[k]).0 < task.block_count() by {
                                crate::graph::lemma_out_edges(edges(task.insns), node, k);
                                let e = edges(task.insns).index_of((node, list[k].0, list[k].1));
                                assert(edges(task.insns)[e].1 == list[k].0);
                            }
                            let before = WalkModel {
                                visited: Seq::new(
                                    noted.visited.len(),
                                    |k: int| noted.visited[k] || start <= k < end,
                                ),
                                trace: noted.trace + crate::verify::walk::block_trace(task.insns, start, end, s),
                                ..noted
                            };
                            let last = task.insns[end - 1];
                            let threshold = task.config.threshold;
                            lemma_flow_states(before, list, 0, out, last, threshold, node as int);
                            if w.states[here] is Some {
                                lemma_flow_states(before, list, 0, out, last, threshold, here);
                            }
                            assert(before.visited[i] == (w.visited[i] || here == node));
                            assert(before.visited[j] == (w.visited[j] || here == node));
                        }
                    }
                }
            }
        }
    }
}

/// The verdict on a program without jumps: it is that of its instructions,
/// one after another, from what is known at the start.
pub proof fn straight_line_verdict(task: Task)
    requires
        0 < task.insns.len() <= usize::MAX,
        task.block_count() == 1,
        task.order == seq![0usize],
        edges(task.insns).len() == 0,
    ensures
        match block_exit(task.insns, 0, task.insns.len() as int, task.entry_state()) {
            Err(e) => task.ends(Err(e)),
            Ok(_) => exists|w: WalkModel| #[trigger] task.ends(Ok(w)) && forall|i: int|
                0 <= i < task.insns.len() ==> #[trigger] w.visited[i],
        },
{
    crate::cfg::blocks_partition_program(task.insns);
    let w = task.start();
    assert(w.queue[0] == 0);
    assert(task.after(0) == Ok::<WalkModel, VerifyError>(w));
    let r = task.after(1);
    assert(r == task.step(w));
    assert(out_edges(edges(task.insns), 0).len() == 0);
    if let Ok(v) = r {
        assert(v.queue.len() == 0);
        assert(task.ends(Ok(v)));
    }
}

} // verus!
