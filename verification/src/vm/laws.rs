//! What a step of the machine does, instruction by instruction, and what
//! comparisons, memory and helpers are to each other.
use vstd::prelude::*;

use crate::bytes::{le_word, lemma_bytes_len, lemma_pow256_values, lemma_word_bound};
use crate::isa::alu_laws::{lemma_casts, lemma_word_casts, word32, word64};
use crate::isa::insn::{AluOp, Insn, JumpOp, MemSize, Operand, Reg, Width};
use crate::slots::{lemma_index_at, lemma_slot_bounds, slot_count, slot_of};
use crate::vm::exec::{loaded, lowered};
use crate::vm::memory::{region_of, MemError, MemModel, MemRegion};
use crate::vm::xdp::{frame_type, is_ipv4, load_note, xdp_machine, XdpAction};
use crate::vm::{jump_condition, tables_of, HelperFn, MapStore, RunOutcome, StepResult, VmError, VmModel};

verus! {

/// The low half of a register value as a signed number.
pub open spec fn signed32(v: i64) -> int {
    if word32(v) < 0x8000_0000 {
        word32(v)
    } else {
        word32(v) - 0x1_0000_0000
    }
}

/// What the comparisons of 64 bits are: of the numbers, of the numbers
/// without a sign, or of the common bits.
pub proof fn comparisons_of_words(a: i64, b: i64)
    ensures
        jump_condition(JumpOp::Always, a, b, Width::B64),
        jump_condition(JumpOp::Eq, a, b, Width::B64) <==> a == b,
        jump_condition(JumpOp::Ne, a, b, Width::B64) <==> a != b,
        jump_condition(JumpOp::Gt, a, b, Width::B64) <==> word64(a) > word64(b),
        jump_condition(JumpOp::Ge, a, b, Width::B64) <==> word64(a) >= word64(b),
        jump_condition(JumpOp::Lt, a, b, Width::B64) <==> word64(a) < word64(b),
        jump_condition(JumpOp::Le, a, b, Width::B64) <==> word64(a) <= word64(b),
        jump_condition(JumpOp::Sgt, a, b, Width::B64) <==> a > b,
        jump_condition(JumpOp::Sge, a, b, Width::B64) <==> a >= b,
        jump_condition(JumpOp::Slt, a, b, Width::B64) <==> a < b,
        jump_condition(JumpOp::Sle, a, b, Width::B64) <==> a <= b,
        jump_condition(JumpOp::Jset, a, b, Width::B64) <==> AluOp::And.result(a, b, Width::B64) != 0,
        !jump_condition(JumpOp::Call, a, b, Width::B64),
        !jump_condition(JumpOp::Exit, a, b, Width::B64),
{
    lemma_casts(a);
    lemma_casts(b);
    lemma_word_casts((a as u64) & (b as u64), 0);
}

/// What the comparisons of 32 bits are: those of the low halves.
pub proof fn comparisons_of_half_words(a: i64, b: i64)
    ensures
        jump_condition(JumpOp::Always, a, b, Width::B32),
        jump_condition(JumpOp::Eq, a, b, Width::B32) <==> word32(a) == word32(b),
        jump_condition(JumpOp::Ne, a, b, Width::B32) <==> word32(a) != word32(b),
        jump_condition(JumpOp::Gt, a, b, Width::B32) <==> word32(a) > word32(b),
        jump_condition(JumpOp::Ge, a, b, Width::B32) <==> word32(a) >= word32(b),
        jump_condition(JumpOp::Lt, a, b, Width::B32) <==> word32(a) < word32(b),
        jump_condition(JumpOp::Le, a, b, Width::B32) <==> word32(a) <= word32(b),
        jump_condition(JumpOp::Sgt, a, b, Width::B32) <==> signed32(a) > signed32(b),
        jump_condition(JumpOp::Sge, a, b, Width::B32) <==> signed32(a) >= signed32(b),
        jump_condition(JumpOp::Slt, a, b, Width::B32) <==> signed32(a) < signed32(b),
        jump_condition(JumpOp::Sle, a, b, Width::B32) <==> signed32(a) <= signed32(b),
        jump_condition(JumpOp::Jset, a, b, Width::B32) <==> AluOp::And.result(a, b, Width::B32) != 0,
        !jump_condition(JumpOp::Call, a, b, Width::B32),
        !jump_condition(JumpOp::Exit, a, b, Width::B32),
{
    lemma_casts(a);
    lemma_casts(b);
    let (x, y) = (a as u32, b as u32);
    lemma_word_casts(0, x & y);
    assert((x < 0x8000_0000 ==> x as i32 == x) && (x >= 0x8000_0000 ==> x as i32 == x - 0x1_0000_0000) && (y
        < 0x8000_0000 ==> y as i32 == y) && (y >= 0x8000_0000 ==> y as i32 == y - 0x1_0000_0000)) by (bit_vector);
}

impl VmModel {
    /// Whether the machine stands at an instruction of the program that it
    /// was given.
    pub open spec fn stands_at(self, insn: Insn) -> bool {
        &&& self.pc < self.insns.len()
        &&& self.insns[self.pc as int] == insn
        &&& self.code == loaded(self.insns)
        &&& self.regs.len() == 11
        &&& slot_count(self.insns) <= u32::MAX
    }

    /// The number that an operand is.
    pub open spec fn number(self, src: Operand) -> i64 {
        match src {
            Operand::Reg(r) => self.regs[r.0 as int],
            Operand::Imm(k) => k as i64,
        }
    }

    /// Whether a machine differs from another one by a register, and stands
    /// at the next instruction. The frame pointer is never written.
    pub open spec fn sets(self, next: VmModel, r: Reg, v: i64) -> bool {
        &&& next.pc == self.pc + 1
        &&& next.regs.len() == self.regs.len()
        &&& forall|k: int|
            0 <= k < 11 ==> #[trigger] next.regs[k] == (if k == r.0 && k != 10 {
                v
            } else {
                self.regs[k]
            })
        &&& next.mem == self.mem && next.maps == self.maps && next.helpers == self.helpers
        &&& next.insns == self.insns && next.code == self.code
    }

    /// Whether a machine differs from another one by where it stands.
    pub open spec fn moves(self, next: VmModel) -> bool {
        next == (VmModel { pc: next.pc, ..self })
    }
}

/// An operation sets its destination to the result on its operands, and
/// nothing else. A byte swap of another width than 16, 32 or 64, or of one
/// that a register gives, fails.
pub proof fn operation_step(m: VmModel, width: Width, op: AluOp, dst: Reg, src: Operand)
    requires
        m.stands_at(Insn::Alu { width, op, dst, src }),
        dst.valid(),
    ensures
        ({
            let (next, r) = m.step();
            if op is End && src is Reg {
                next == m && r == StepResult::Error(VmError::IllegalInstruction { pc: m.pc })
            } else if op is End && src->Imm_0 != 16 && src->Imm_0 != 32 && src->Imm_0 != 64 {
                next == m && r == StepResult::Error(
                    VmError::InvalidEndWidth { pc: m.pc, width: src->Imm_0 as i64 },
                )
            } else {
                r == StepResult::Continue && m.sets(next, dst, op.result(m.regs[dst.0 as int], m.number(src), width))
            }
        }),
{
    assert(m.code[m.pc as int] == lowered(m.insns, m.pc as int));
    lemma_slot_bounds(m.insns, m.insns.len());
}

/// A wide load sets its destination to its number.
pub proof fn wide_load_step(m: VmModel, dst: Reg, imm: i64)
    requires
        m.stands_at(Insn::LoadImm64 { dst, imm }),
        dst.valid(),
    ensures
        m.step().1 == StepResult::Continue,
        m.sets(m.step().0, dst, imm),
{
    assert(m.code[m.pc as int] == lowered(m.insns, m.pc as int));
    lemma_slot_bounds(m.insns, m.insns.len());
}

/// An exit ends the run with `r0`, and changes nothing.
pub proof fn exit_step(m: VmModel)
    requires
        m.stands_at(Insn::Exit),
    ensures
        m.step() == (m, StepResult::Exit(m.regs[0])),
{
    assert(m.code[m.pc as int] == lowered(m.insns, m.pc as int));
}

/// An unknown instruction fails, and changes nothing. So does a step from
/// behind the program.
pub proof fn failing_step(m: VmModel)
    ensures
        m.pc < m.insns.len() && m.insns[m.pc as int] is Unknown && m.stands_at(m.insns[m.pc as int]) ==> m.step() == (
            m,
            StepResult::Error(VmError::IllegalInstruction { pc: m.pc }),
        ),
        m.pc >= m.code.len() && m.pc <= i64::MAX ==> m.step() == (
            m,
            StepResult::Error(VmError::JumpOutOfBounds { pc: m.pc, target: m.pc as i64 }),
        ),
{
    if m.pc < m.insns.len() && m.code == loaded(m.insns) {
        assert(m.code[m.pc as int] == lowered(m.insns, m.pc as int));
    }
}

/// A jump goes to the instruction whose slot lies the offset behind the next
/// slot, if its condition holds, and else to the next instruction. It fails
/// where no instruction starts there, and changes nothing else.
pub proof fn jump_step(m: VmModel, width: Width, op: JumpOp, dst: Reg, src: Operand, offset: i16, t: int)
    requires
        m.stands_at(Insn::Jump { width, op, dst, src, offset }),
        0 <= t < m.insns.len(),
    ensures
        ({
            let (next, r) = m.step();
            let slot = slot_of(m.insns, m.pc as nat) + 1 + offset;
            let taken = op == JumpOp::Always || jump_condition(op, m.regs[dst.0 as int], m.number(src), width);
            &&& slot_of(m.insns, t as nat) == slot ==> {
                &&& r == StepResult::Continue
                &&& m.moves(next)
                &&& next.pc == (if taken {
                    t
                } else {
                    m.pc + 1
                })
            }
            &&& (forall|d: int| 0 <= d < m.insns.len() ==> #[trigger] slot_of(m.insns, d as nat) != slot) ==> next == m
                && r == StepResult::Error(VmError::JumpOutOfBounds { pc: m.pc, target: slot as i64 })
        }),
{
    assert(m.code[m.pc as int] == lowered(m.insns, m.pc as int));
    lemma_slot_bounds(m.insns, m.insns.len());
    lemma_index_at(m.insns, t);
}

/// A memory access takes the address at its offset from its base. A load sets
/// its destination to what memory gives; a store changes memory only; both
/// fail as memory does, and change nothing then.
pub proof fn access_step(m: VmModel, size: MemSize, dst: Reg, base: Reg, offset: i16, src: Operand)
    requires
        dst.valid(),
        base.valid(),
        i64::MIN <= m.regs[base.0 as int] + offset <= i64::MAX,
    ensures
        ({
            let addr = (m.regs[base.0 as int] + offset) as i64;
            let (next, r) = m.step();
            &&& m.stands_at(Insn::Load { size, dst, base, offset }) ==> match m.mem.load(addr, size) {
                Ok(v) => r == StepResult::Continue && m.sets(next, dst, v),
                Err(e) => next == m && r == StepResult::Error(VmError::Memory(e)),
            }
            &&& m.stands_at(Insn::Store { size, base, offset, src }) ==> match m.mem.store_fault(addr, size) {
                None => {
                    &&& r == StepResult::Continue
                    &&& next.mem == m.mem.stored(addr, size, m.number(src))
                    &&& next.pc == m.pc + 1
                    &&& next == (VmModel { mem: next.mem, pc: next.pc, ..m })
                },
                Some(e) => next == m && r == StepResult::Error(VmError::Memory(e)),
            }
        }),
{
    if m.pc < m.insns.len() && m.code == loaded(m.insns) {
        assert(m.code[m.pc as int] == lowered(m.insns, m.pc as int));
        lemma_slot_bounds(m.insns, m.insns.len());
    }
}

/// A call of a helper that is not there fails. A constant helper gives its
/// number in `r0`.
pub proof fn call_step(m: VmModel, func: u32)
    requires
        m.stands_at(Insn::Call { func }),
    ensures
        (m.helpers)(func) is None ==> m.step() == (m, StepResult::Error(VmError::UnknownHelper { func })),
        (m.helpers)(func) matches Some(HelperFn::Constant(v)) ==> m.step().1 == StepResult::Continue && m.sets(
            m.step().0,
            Reg(0),
            v,
        ),
{
    assert(m.code[m.pc as int] == lowered(m.insns, m.pc as int));
    lemma_slot_bounds(m.insns, m.insns.len());
}

/// What a lookup gives: the address of the value that the map has for the key
/// that `r2` points to, readable there, or zero where it has none. A key that
/// cannot be read is a fault.
pub proof fn lookup_step(m: VmModel, func: u32, k: int)
    requires
        m.stands_at(Insn::Call { func }),
        (m.helpers)(func) == Some(HelperFn::MapLookup),
    ensures
        ({
            let (next, r) = m.step();
            match m.map(m.regs[1]) {
                None => r == StepResult::Continue && m.sets(next, Reg(0), 0),
                Some((desc, store)) => match m.mem.load_bytes(m.regs[2], desc.key_size as nat) {
                    Err(e) => next == m && r == StepResult::Error(VmError::Memory(e)),
                    Ok(key) => {
                        &&& r == StepResult::Continue
                        &&& next.pc == m.pc + 1
                        &&& next.regs == m.regs.update(0, next.regs[0])
                        &&& next.maps.len() == m.maps.len()
                        &&& forall|fd: int|
                            0 <= fd < m.maps.len() && fd != m.regs[1] ==> #[trigger] next.maps[fd] == m.maps[fd]
                        &&& next.maps[m.regs[1] as int] == Some((desc, store.touched(desc, key)))
                        &&& match store.found(desc, key) {
                            Ok(Some(value)) => {
                                &&& next.regs[0] == 0x3_0000
                                &&& 0 <= k < value.len() && value.len() <= 0x1_0000 ==> next.mem.load(
                                    (next.regs[0] + k) as i64,
                                    MemSize::B,
                                ) == Ok::<i64, MemError>(value[k] as i64)
                                &&& next.mem == (MemModel { scratch: next.mem.scratch, ..m.mem })
                                &&& next.mem.scratch.len() == value.len()
                            },
                            _ => next.regs[0] == 0 && next.mem == m.mem,
                        }
                    },
                },
            }
        }),
{
    assert(m.code[m.pc as int] == lowered(m.insns, m.pc as int));
    lemma_slot_bounds(m.insns, m.insns.len());
    if let Some((desc, store)) = m.map(m.regs[1]) {
        if let Ok(key) = m.mem.load_bytes(m.regs[2], desc.key_size as nat) {
            if let Ok(Some(value)) = store.found(desc, key) {
                let next = m.step().0;
                assert(next.mem.scratch == value);
                if 0 <= k < value.len() && value.len() <= 0x1_0000 {
                    lemma_byte_word(value, k);
                }
            }
        }
    }
}

/// What an update and a deletion give: zero where the map takes the change,
/// and else minus one, with nothing changed. Other maps stay as they are.
pub proof fn change_step(m: VmModel, func: u32)
    requires
        m.stands_at(Insn::Call { func }),
    ensures
        ({
            let (next, r) = m.step();
            let (fd, flags) = (
                m.regs[1],
                if m.regs[4] < 0 {
                    u64::MAX
                } else {
                    m.regs[4] as u64
                },
            );
            let refused = r == StepResult::Continue && m.sets(next, Reg(0), (-1) as i64);
            let done = {
                &&& r == StepResult::Continue
                &&& next.pc == m.pc + 1
                &&& next.regs == m.regs.update(0, 0)
                &&& next.mem == m.mem
                &&& next.maps.len() == m.maps.len()
                &&& forall|k: int| 0 <= k < m.maps.len() && k != fd ==> #[trigger] next.maps[k] == m.maps[k]
            };
            &&& (m.helpers)(func) == Some(HelperFn::MapUpdate) ==> match m.map(fd) {
                None => refused,
                Some((desc, store)) => match (
                    m.mem.load_bytes(m.regs[2], desc.key_size as nat),
                    m.mem.load_bytes(m.regs[3], desc.value_size as nat),
                ) {
                    (Ok(key), Ok(value)) => if store.update_error(desc, key, value, flags) is Some {
                        refused
                    } else {
                        done && next.maps[fd as int] == Some((desc, store.updated(desc, key, value)))
                    },
                    _ => next == m && r is Error,
                },
            }
            &&& (m.helpers)(func) == Some(HelperFn::MapDelete) ==> match m.map(fd) {
                None => refused,
                Some((desc, store)) => match m.mem.load_bytes(m.regs[2], desc.key_size as nat) {
                    Ok(key) => if store.delete_error(desc, key) is Some {
                        refused
                    } else {
                        done && next.maps[fd as int] == Some((desc, store.deleted(desc, key)))
                    },
                    Err(_) => next == m && r is Error,
                },
            }
        }),
{
    assert(m.code[m.pc as int] == lowered(m.insns, m.pc as int));
    lemma_slot_bounds(m.insns, m.insns.len());
}

/// A machine starts at the first instruction, with all registers zero but
/// the frame pointer at the end of the stack, and nothing in memory to read.
pub proof fn machines_start_empty(
    insns: Seq<Insn>,
    helpers: spec_fn(u32) -> Option<HelperFn>,
    maps: Seq<Option<(crate::vm::maps::DescModel, crate::vm::maps::StoreModel)>>,
    k: int,
    addr: i64,
    packet: Seq<u8>,
)
    requires
        0 <= k < 11,
    ensures
        ({
            let m = VmModel::initial(insns, helpers, maps);
            let x = m.with_xdp_packet(packet);
            &&& m.pc == 0 && m.insns == insns && m.code.len() == insns.len()
            &&& m.maps == maps && m.helpers == helpers
            &&& m.regs.len() == 11 && m.regs[k] == (if k == 10 {
                0x1_0000int
            } else {
                0
            })
            &&& !(0x4_0000 <= addr < 0x4_0008) ==> m.mem.load(addr, MemSize::B) is Err
            &&& m.mem.align
            &&& x.regs[k] == (if k == 1 {
                0x4_0000int
            } else {
                m.regs[k] as int
            })
            &&& x.mem == m.mem.with_packet(packet)
            &&& x == (VmModel { regs: x.regs, mem: x.mem, ..m })
        }),
{
    let m = VmModel::initial(insns, helpers, maps);
    assert(m.mem.wf());
    byte_loads(m.mem, addr);
}

/// A run takes steps for as long as they continue, and ends with the first
/// one that does not, or when its budget is used up.
pub proof fn run_takes_steps(m: VmModel, fuel: nat, limit: usize)
    ensures
        m.run(0, limit) == (m, RunOutcome::Err(VmError::StepsExceeded { limit })),
        match m.step().1 {
            StepResult::Continue => m.run(fuel + 1, limit) == m.step().0.run(fuel, limit),
            StepResult::Exit(v) => m.run(fuel + 1, limit) == (m.step().0, RunOutcome::Ok(v)),
            StepResult::Error(e) => m.run(fuel + 1, limit) == (m.step().0, RunOutcome::Err(e)),
        },
{
}

/// A run that ends within its budget ends alike with any larger one.
pub proof fn budget_does_not_matter(m: VmModel, fuel: nat, more: nat, limit: usize, other: usize)
    requires
        !(m.run(fuel, limit).1 matches Err(VmError::StepsExceeded { .. })),
        fuel <= more,
    ensures
        m.run(more, other) == m.run(fuel, limit),
    decreases fuel,
{
    if fuel > 0 {
        if m.step().1 == StepResult::Continue {
            budget_does_not_matter(m.step().0, (fuel - 1) as nat, (more - 1) as nat, limit, other);
        }
    }
}

proof fn lemma_byte_word(s: Seq<u8>, k: int)
    requires
        0 <= k < s.len(),
    ensures
        crate::vm::memory::word_value(s.subrange(k, k + 1)) == s[k] as i64,
{
    let one = s.subrange(k, k + 1);
    assert(one.skip(1).len() == 0);
    assert(le_word(one.skip(1)) == 0);
    assert(le_word(one) == s[k] as nat);
    let x = s[k] as u64;
    lemma_word_casts(x, s[k] as u32);
}

/// Where single bytes can be read: in the stack what was written, in the
/// packet, in the context and in the latest map value what is there.
pub proof fn byte_loads(mem: MemModel, addr: i64)
    requires
        mem.wf(),
    ensures
        match mem.load(addr, MemSize::B) {
            Ok(v) => {
                ||| 0xfe00 <= addr < 0x1_0000 && mem.init[addr - 0xfe00] && v == mem.stack[addr - 0xfe00]
                ||| 0x2_0000 <= addr < 0x3_0000 && (mem.packet matches Some(p) && addr - 0x2_0000 < p.len() && v == p[
                    addr - 0x2_0000
                ])
                ||| 0x3_0000 <= addr < 0x4_0000 && addr - 0x3_0000 < mem.scratch.len() && v == mem.scratch[addr
                    - 0x3_0000]
                ||| 0x4_0000 <= addr < 0x4_0008 && v == mem.xdp_md[addr - 0x4_0000]
            },
            Err(e) => {
                &&& 0xfe00 <= addr < 0x1_0000 ==> !mem.init[addr - 0xfe00] && e == (MemError::UninitializedRead {
                    addr,
                    size: 1,
                })
                &&& 0x2_0000 <= addr < 0x3_0000 ==> match mem.packet {
                    Some(p) => addr - 0x2_0000 >= p.len() && e == (MemError::OutOfBounds { addr, size: 1 }),
                    None => e == MemError::NoPacket,
                }
                &&& 0x3_0000 <= addr < 0x4_0000 ==> addr - 0x3_0000 >= mem.scratch.len()
                &&& !(0x4_0000 <= addr < 0x4_0008)
            },
        },
{
    match region_of(addr) {
        MemRegion::Stack => {
            let off = addr - 0xfe00;
            if 0 <= off < 512 {
                lemma_byte_word(mem.stack, off);
                assert(mem.readable(off, 1) == mem.init[off]);
            }
        },
        MemRegion::Packet => {
            if let Some(p) = mem.packet {
                if addr - 0x2_0000 < p.len() {
                    lemma_byte_word(p, addr - 0x2_0000);
                }
            }
        },
        MemRegion::MapScratch => {
            if addr - 0x3_0000 < mem.scratch.len() {
                lemma_byte_word(mem.scratch, addr - 0x3_0000);
            }
        },
        MemRegion::XdpMd => {
            if addr - 0x4_0000 < 8 {
                lemma_byte_word(mem.xdp_md, addr - 0x4_0000);
            }
        },
        _ => {},
    }
}

/// The number that bytes hold, least significant one first.
pub open spec fn sum_of_bytes(s: Seq<u8>) -> int {
    if s.len() == 1 {
        s[0] as int
    } else if s.len() == 2 {
        s[0] + 0x100 * s[1]
    } else if s.len() == 4 {
        s[0] + 0x100 * s[1] + 0x1_0000 * s[2] + 0x100_0000 * s[3]
    } else {
        s[0] + 0x100 * s[1] + 0x1_0000 * s[2] + 0x100_0000 * s[3] + 0x1_0000_0000 * (s[4] + 0x100 * s[5]
            + 0x1_0000 * s[6] + 0x100_0000 * s[7])
    }
}

proof fn lemma_sum(s: Seq<u8>)
    requires
        s.len() == 1 || s.len() == 2 || s.len() == 4 || s.len() == 8,
    ensures
        word64(crate::vm::memory::word_value(s)) == sum_of_bytes(s),
{
    reveal_with_fuel(le_word, 9);
    lemma_word_bound(s);
    lemma_pow256_values();
    lemma_word_casts(le_word(s) as u64, 0);
    assert forall|n: int, k: int| 0 <= n && 0 <= k < s.len() - n && n <= s.len() implies (#[trigger] s.skip(n)[k]) == s[
        n + k] by {}
    let t1 = s.skip(1);
    if s.len() == 1 {
        assert(le_word(s) == s[0]);
    } else if s.len() == 2 {
        assert(t1.skip(1).len() == 0);
        assert(le_word(t1) == s[1]);
    } else {
        let t2 = t1.skip(1);
        let t3 = t2.skip(1);
        let t4 = t3.skip(1);
        assert(t2[0] == s[2] && t3[0] == s[3] && t1[0] == s[1]);
        if s.len() == 4 {
            assert(t4.len() == 0);
            assert(le_word(t3) == s[3]);
            assert(le_word(t2) == s[2] + 256 * s[3]);
        } else {
            let t5 = t4.skip(1);
            let t6 = t5.skip(1);
            let t7 = t6.skip(1);
            assert(t7.skip(1).len() == 0);
            assert(t4[0] == s[4] && t5[0] == s[5] && t6[0] == s[6] && t7[0] == s[7]);
            assert(le_word(t7) == s[7]);
            assert(le_word(t6) == s[6] + 256 * s[7]);
            assert(le_word(t5) == s[5] + 256 * le_word(t6));
            assert(le_word(t4) == s[4] + 256 * le_word(t5));
            assert(le_word(t3) == s[3] + 256 * le_word(t4));
            assert(le_word(t2) == s[2] + 256 * le_word(t3));
        }
    }
}

/// Whether a byte stands at an offset from an address.
spec fn byte_there(mem: MemModel, addr: i64, s: Seq<u8>, k: int) -> bool {
    let a = addr + k;
    match region_of(addr) {
        MemRegion::Stack => 0xfe00 <= a < 0x1_0000 && mem.init[a - 0xfe00] && s[k] == mem.stack[a - 0xfe00],
        MemRegion::Packet => 0x2_0000 <= a < 0x2_0000 + (mem.packet->0).len() && mem.packet is Some && s[k] == (
        mem.packet->0)[a - 0x2_0000],
        MemRegion::MapScratch => 0x3_0000 <= a < 0x3_0000 + mem.scratch.len() && s[k] == mem.scratch[a - 0x3_0000],
        MemRegion::XdpMd => 0x4_0000 <= a < 0x4_0008 && s[k] == mem.xdp_md[a - 0x4_0000],
        _ => false,
    }
}

proof fn lemma_bytes_there(mem: MemModel, addr: i64, s: Seq<u8>, all: Seq<u8>, base: int)
    requires
        mem.wf(),
        s.len() > 0,
        forall|k: int| 0 <= k < s.len() ==> #[trigger] byte_there(mem, addr, s, k),
        match region_of(addr) {
            MemRegion::Stack => all == mem.stack && base == 0xfe00,
            MemRegion::Packet => all == mem.packet->0 && base == 0x2_0000,
            MemRegion::MapScratch => all == mem.scratch && base == 0x3_0000,
            MemRegion::XdpMd => all == mem.xdp_md && base == 0x4_0000,
            _ => false,
        },
    ensures
        base <= addr && addr - base + s.len() <= all.len(),
        all.subrange(addr - base, addr - base + s.len()) == s,
{
    assert(byte_there(mem, addr, s, 0));
    assert(byte_there(mem, addr, s, s.len() - 1));
    let part = all.subrange(addr - base, addr - base + s.len());
    assert forall|k: int| 0 <= k < s.len() implies part[k] == s[k] by {
        assert(byte_there(mem, addr, s, k));
    }
    assert(part =~= s);
}

/// A load of several bytes gives the number that they hold, the least
/// significant one first, with no sign. It can be made where every one of
/// them can be read and the address is a multiple of their number, or need
/// not be.
pub proof fn loads_are_little_endian(mem: MemModel, addr: i64, size: MemSize, s: Seq<u8>)
    requires
        mem.wf(),
        addr < 0x4_0008,
        region_of((addr + size.len() - 1) as i64) == region_of(addr),
        s.len() == size.len(),
    ensures
        (forall|k: int|
            0 <= k < s.len() ==> mem.load((addr + k) as i64, MemSize::B) == Ok::<i64, MemError>((#[trigger] s[k]) as i64))
            ==> match mem.load(addr, size) {
            Ok(v) => word64(v) == sum_of_bytes(s),
            Err(e) => mem.align && addr as int % size.len() as int != 0 && e is Misaligned,
        },
        mem.load(addr, size) matches Ok(v) ==> {
            &&& mem.align ==> addr as int % size.len() as int == 0
            &&& forall|k: int|
                addr <= k < addr + size.len() ==> (#[trigger] mem.load(k as i64, MemSize::B)) is Ok
        },
{
    let n = size.len() as int;
    assert forall|k: int| 0 <= k < n implies #[trigger] region_of((addr + k) as i64) == region_of(addr) by {}
    if mem.load(addr, size) is Ok {
        assert forall|k: int| addr <= k < addr + n implies (#[trigger] mem.load(k as i64, MemSize::B)) is Ok by {
            assert(region_of((addr + (k - addr)) as i64) == region_of(addr));
            byte_loads(mem, k as i64);
        }
    }
    if forall|k: int|
        0 <= k < s.len() ==> mem.load((addr + k) as i64, MemSize::B) == Ok::<i64, MemError>((#[trigger] s[k]) as i64) {
        assert forall|k: int| 0 <= k < n implies #[trigger] byte_there(mem, addr, s, k) by {
            let a = (addr + k) as i64;
            assert(region_of(a) == region_of(addr));
            assert(mem.load(a, MemSize::B) == Ok::<i64, MemError>(s[k] as i64));
            assert(a == addr + k);
            byte_loads(mem, a);
        }
        assert(byte_there(mem, addr, s, n - 1));
        assert(byte_there(mem, addr, s, 0));
        match region_of(addr) {
            MemRegion::Stack => {
                let off = addr - 0xfe00;
                assert forall|j: int| off <= j < off + n implies #[trigger] mem.init[j] by {
                    assert(byte_there(mem, addr, s, j - off));
                }
                assert(mem.readable(off, size.len()));
                lemma_bytes_there(mem, addr, s, mem.stack, 0xfe00);
            },
            MemRegion::Packet => {
                lemma_bytes_there(mem, addr, s, mem.packet->0, 0x2_0000);
            },
            MemRegion::MapScratch => {
                lemma_bytes_there(mem, addr, s, mem.scratch, 0x3_0000);
            },
            MemRegion::XdpMd => {
                lemma_bytes_there(mem, addr, s, mem.xdp_md, 0x4_0000);
            },
            _ => {},
        }
        lemma_sum(s);
    }
}

/// Where stores are taken: in the stack and in the latest map value, inside
/// them and aligned, or not aligned where they need not be. The packet and its
/// context are not written.
pub proof fn stores_taken(mem: MemModel, addr: i64, size: MemSize)
    ensures
        mem.store_fault(addr, size) is None <==> {
            &&& !mem.align || addr as int % size.len() as int == 0
            &&& {
                ||| 0xfe00 <= addr && addr + size.len() <= 0x1_0000
                ||| 0x3_0000 <= addr < 0x4_0000 && addr + size.len() <= 0x3_0000 + mem.scratch.len()
            }
        },
        0xfe00 <= addr <= 0x1_0000 && addr + size.len() > 0x1_0000 ==> mem.store_fault(addr, size) == Some(
            MemError::StackOverflow { addr, size: size.len() as u8 },
        ),
        mem.store_fault(addr, size) matches Some(e) ==> e is StackOverflow || e is OutOfBounds || e is Misaligned,
        mem.store_fault(addr, size) matches Some(MemError::Misaligned { .. }) ==> addr as int % size.len() as int != 0,
{
}

proof fn lemma_bytewise(mem: MemModel, addr: i64, len: nat, k: int)
    requires
        addr + len <= i64::MAX,
        0 <= k < len,
        mem.wf(),
        mem.bytewise(addr, len) is Ok,
    ensures
        (mem.bytewise(addr, len)->Ok_0).len() == len,
        mem.load((addr + k) as i64, MemSize::B) == Ok::<i64, MemError>((mem.bytewise(addr, len)->Ok_0)[k] as i64),
    decreases len,
{
    byte_loads(mem, addr);
    let rest = mem.bytewise((addr + 1) as i64, (len - 1) as nat);
    if len > 1 {
        lemma_bytewise(
            mem,
            (addr + 1) as i64,
            (len - 1) as nat,
            if k > 0 {
                k - 1
            } else {
                0
            },
        );
    } else {
        assert((rest->Ok_0).len() == 0);
    }
}

proof fn lemma_bytewise_fails(mem: MemModel, addr: i64, len: nat)
    requires
        addr + len <= i64::MAX,
        mem.bytewise(addr, len) is Err,
    ensures
        exists|k: int| 0 <= k < len && (#[trigger] mem.load((addr + k) as i64, MemSize::B)) is Err,
    decreases len,
{
    if len > 0 {
        if mem.load(addr, MemSize::B) is Err {
            assert(mem.load((addr + 0) as i64, MemSize::B) is Err);
        } else {
            lemma_bytewise_fails(mem, (addr + 1) as i64, (len - 1) as nat);
            let k = choose|k: int|
                0 <= k < len - 1 && (#[trigger] mem.load((addr + 1 + k) as i64, MemSize::B)) is Err;
            assert(mem.load((addr + (k + 1)) as i64, MemSize::B) is Err);
        }
    }
}

/// A key or a value is read byte by byte: it is there where every byte can be
/// read, and consists of those bytes.
pub proof fn bytes_are_read_one_by_one(mem: MemModel, addr: i64, len: nat, k: int)
    requires
        mem.wf(),
        addr + len <= i64::MAX,
        0 <= k < len,
        region_of((addr + len - 1) as i64) == region_of(addr),
    ensures
        match mem.load_bytes(addr, len) {
            Ok(s) => s.len() == len && mem.load((addr + k) as i64, MemSize::B) == Ok::<i64, MemError>(s[k] as i64),
            Err(_) => exists|j: int| 0 <= j < len && (#[trigger] mem.load((addr + j) as i64, MemSize::B)) is Err,
        },
{
    match mem.bulk(addr, len) {
        Some(s) => {
            assert(region_of((addr + k) as i64) == region_of(addr));
            byte_loads(mem, (addr + k) as i64);
            if region_of(addr) == MemRegion::Stack {
                assert(mem.init[addr + k - 0xfe00]);
            }
        },
        None => {
            if mem.bytewise(addr, len) is Ok {
                lemma_bytewise(mem, addr, len, k);
            } else {
                lemma_bytewise_fails(mem, addr, len);
            }
        },
    }
}

/// A packet is read where it is, and its context gives its start and its end.
pub proof fn packet_and_context(mem: MemModel, packet: Seq<u8>)
    requires
        mem.wf(),
        packet.len() <= 0x1_0000,
    ensures
        ({
            let after = mem.with_packet(packet);
            &&& after == (MemModel { packet: Some(packet), xdp_md: after.xdp_md, ..mem })
            &&& after.load(0x4_0000, MemSize::W) == Ok::<i64, MemError>(0x2_0000)
            &&& after.load(0x4_0004, MemSize::W) == Ok::<i64, MemError>((0x2_0000 + packet.len()) as i64)
        }),
{
    let after = mem.with_packet(packet);
    let (a, b) = (0x2_0000nat, (0x2_0000 + packet.len()) as nat);
    lemma_bytes_len(a, 4);
    lemma_bytes_len(b, 4);
    crate::bytes::lemma_word_of_bytes(a, 4);
    crate::bytes::lemma_word_of_bytes(b, 4);
    lemma_pow256_values();
    assert(after.xdp_md.subrange(0, 4) =~= crate::bytes::le_bytes(a, 4));
    assert(after.xdp_md.subrange(4, 8) =~= crate::bytes::le_bytes(b, 4));
    lemma_word_casts(a as u64, a as u32);
    lemma_word_casts(b as u64, b as u32);
}

/// The actions of exit codes: one for each of the first five, in order, and
/// the code itself for every other one.
pub proof fn actions_of_codes(code: i64)
    ensures
        XdpAction::of_code(code) is Unknown <==> code < 0 || code > 4,
        XdpAction::of_code(code) matches XdpAction::Unknown(c) ==> c == code,
        0 <= code < 5 ==> XdpAction::of_code(code) == seq![
            XdpAction::Aborted,
            XdpAction::Drop,
            XdpAction::Pass,
            XdpAction::Tx,
            XdpAction::Redirect,
        ][code as int],
        XdpAction::of_code(code).number() == code,
{
}

/// Where the fields of packets are: the type of a frame in bytes 12 and 13, the
/// most significant one first, and the version and the length of an IPv4
/// header in its first byte.
pub proof fn packet_fields(bytes: Seq<u8>, t: u16)
    ensures
        frame_type(bytes) == Some(t) <==> bytes.len() >= 14 && t == 0x100 * bytes[12] + bytes[13],
        is_ipv4(bytes) <==> bytes.len() >= 20 && 0x45 <= bytes[0] <= 0x4f,
{
}

/// A machine for a packet can call helpers exactly where it has maps, and
/// finds the packet's context in `r1`.
pub proof fn packet_machines(insns: Seq<Insn>, packet: Seq<u8>, maps: Seq<Option<MapStore>>, func: u32, i: int)
    ensures
        ({
            let m = xdp_machine(insns, packet, maps);
            &&& m.pc == 0 && m.insns == insns && m.code == loaded(insns)
            &&& m.regs[1] == 0x4_0000 && m.regs[10] == 0x1_0000
            &&& m.mem.packet == Some(packet)
            &&& (m.helpers)(func) is Some ==> 1 <= func <= 3 && exists|k: int|
                0 <= k < maps.len() && (#[trigger] maps[k]) is Some
            &&& 0 <= i < maps.len() && maps[i] is Some ==> {
                &&& (m.helpers)(1) == Some(HelperFn::MapLookup)
                &&& (m.helpers)(2) == Some(HelperFn::MapUpdate)
                &&& (m.helpers)(3) == Some(HelperFn::MapDelete)
                &&& m.maps == tables_of(maps)
            }
        }),
{
}

/// Which loads are explained: those through a pointer into the packet, of the
/// type of the frame at offset 12, and of the protocol at offset 23 of an IPv4
/// frame.
pub proof fn known_fields_are_explained(m: VmModel, packet: Seq<u8>)
    requires
        m.pc < m.insns.len(),
        m.insns[m.pc as int] matches Insn::Load { base, offset, .. } && i64::MIN <= m.regs[base.0 as int] + offset - 0x2_0000
            && m.regs[base.0 as int] + offset <= i64::MAX,
        packet.len() <= 0x1_0000,
    ensures
        m.insns[m.pc as int] matches Insn::Load { base, offset, size, .. } && ({
            let at = m.regs[base.0 as int] as int;
            let field = at + offset - 0x2_0000;
            let inside = 0x2_0000 <= at <= 0x2_0000 + packet.len();
            let typed = size == MemSize::H && field == 12 && packet.len() >= 14;
            let protocol = size == MemSize::B && field == 23 && packet.len() >= 34 && 0x45 <= packet[14] <= 0x4f;
            load_note(m, packet) == (if inside && typed {
                if packet[12] == 8 && packet[13] == 0 {
                    " ; "@ + "ethertype=IPv4"@
                } else {
                    " ; "@ + "ethertype=non-IPv4"@
                }
            } else if inside && protocol {
                if packet[23] == 6 {
                    " ; "@ + "ip.proto=TCP"@
                } else if packet[23] == 17 {
                    " ; "@ + "ip.proto=UDP"@
                } else {
                    " ; "@ + "ip.proto=other"@
                }
            } else {
                Seq::empty()
            })
        }),
{
    if let Insn::Load { base, offset, size, .. } = m.insns[m.pc as int] {
        if packet.len() >= 14 {
            assert(packet.skip(14).len() == packet.len() - 14);
            if packet.len() >= 34 {
                assert(packet.skip(14)[0] == packet[14]);
            }
        }
    }
}

} // verus!
