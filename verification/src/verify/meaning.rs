//! What an abstract state says about a machine, and that one step of the
//! verifier covers one step of the machine.
use vstd::prelude::*;

use crate::bytes::{le_bytes, lemma_bytes_len, lemma_pow256_values, lemma_word_of_bytes};
use crate::cfg::{cfg_error, jump_target, lemma_target_exists, EdgeKind};
use crate::isa::insn::{AluOp, Insn, JumpOp, MemSize, Operand, Reg, Width};
use crate::verify::access::{
    argument_check, context_load, init_check, packet_check, stack_access, value_check,
};
use crate::verify::helpers::{built_in_outcome, pair_check, possible_check};
use crate::verify::lattice::{add_sound, bitwise_sound, low_sound, shift_sound};
use crate::verify::refine::{admitted, at_least, refine_sound, refined};
use crate::verify::state::{Range, RegType, StateModel};
use crate::verify::transfer::{
    alu_range, alu_step, amounts32, bound_checked, caps, comparable, edge_reg, edge_state, known_delta,
    load_step, moved, near, operand_check, operand_range, packet_applies, packet_offset, pointer_alu,
    by_sign, signed, store_step, swapped, target_check, transfer,
};
use crate::vm::exec::{loaded, lowered, targets_match_graph};
use crate::vm::maps::{has_key, index_of, without, DescModel, StoreModel};
use crate::vm::memory::{
    region_of, MemModel, MemRegion, MAP_SCRATCH_BASE, PACKET_BASE, STACK_BASE, XDP_MD_BASE,
};
use crate::vm::{jump_condition, map_helper, StepResult, VmModel};

verus! {

/// Whether the scratch area holds a value of a map.
pub open spec fn value_fits(maps: Seq<Option<DescModel>>, fd: i64, scratch: nat) -> bool {
    0 <= fd < maps.len() ==> (maps[fd as int] matches Some(d) ==> d.value_size <= scratch)
}

/// Whether a register with a value is what its type says.
pub open spec fn reg_holds(
    maps: Seq<Option<DescModel>>,
    t: RegType,
    v: i64,
    scratch: nat,
) -> bool {
    match t {
        RegType::NotInit => true,
        RegType::Scalar(r) => r.has(v),
        RegType::StackPtr { offset } => v == STACK_BASE + offset,
        RegType::MapPtr { fd } => v == MAP_SCRATCH_BASE && value_fits(maps, fd, scratch),
        RegType::MaybeMapPtr { fd } => v == 0 || (v == MAP_SCRATCH_BASE && value_fits(
            maps,
            fd,
            scratch,
        )),
        RegType::XdpMdPtr => v == XDP_MD_BASE,
        RegType::PacketPtr { offset } => offset.has(v.wrapping_sub(PACKET_BASE)),
    }
}

/// Whether every value of a map has the size of its descriptor.
pub open spec fn values_sized(desc: DescModel, store: StoreModel) -> bool {
    desc.max_entries > 0 && match store {
        StoreModel::Hash(m) => forall|key: Seq<u8>| #[trigger]
            m.contains_key(key) ==> m[key].len() == desc.value_size,
        StoreModel::Array(slots) => slots.len() == desc.max_entries && forall|i: int|
            0 <= i < slots.len() ==> (#[trigger] slots[i]).len() == desc.value_size,
        StoreModel::Lru(s) => forall|i: int|
            0 <= i < s.len() ==> (#[trigger] s[i]).1.len() == desc.value_size,
    }
}

/// Whether a machine has a map with the sizes of a descriptor.
pub open spec fn hosts_one(d: DescModel, m: Option<(DescModel, StoreModel)>) -> bool {
    m matches Some((own, store)) && own.key_size == d.key_size && own.value_size == d.value_size
        && values_sized(own, store)
}

/// Whether a machine has the maps of a descriptor table, and no others.
pub open spec fn hosts(
    table: Seq<Option<DescModel>>,
    maps: Seq<Option<(DescModel, StoreModel)>>,
) -> bool {
    &&& forall|fd: int|
        0 <= fd < table.len() && (#[trigger] table[fd]) is Some ==> fd < maps.len() && hosts_one(
            table[fd]->0,
            maps[fd],
        )
    &&& forall|fd: int|
        0 <= fd < maps.len() && (#[trigger] maps[fd]) is Some ==> fd < table.len() && table[fd] is Some
}

/// Whether a packet of a length is loaded and its context staged. Packet
/// addresses end where the addresses of map values begin.
pub open spec fn staged(mem: MemModel, len: usize) -> bool {
    &&& len <= MAP_SCRATCH_BASE - PACKET_BASE
    &&& mem.packet matches Some(p) && p.len() == len
    &&& mem.xdp_md == le_bytes(PACKET_BASE as nat, 4) + le_bytes((PACKET_BASE + len) as nat, 4)
}

impl StateModel {
    /// Whether every register of a machine is what its type says.
    pub open spec fn regs_hold(self, m: VmModel) -> bool {
        forall|i: int|
            0 <= i < 11 ==> reg_holds(
                self.maps,
                #[trigger] self.regs[i],
                m.regs[i],
                m.mem.scratch.len(),
            )
    }

    /// Whether the machine's memory is as the state says.
    pub open spec fn memory_holds(self, m: VmModel) -> bool {
        &&& m.mem.wf()
        &&& forall|j: int| 0 <= j < 512 && #[trigger] self.init[j] ==> m.mem.init[j]
        &&& self.packet_len matches Some(len) ==> staged(m.mem, len)
        &&& hosts(self.maps, m.maps)
    }

    /// Whether no register but `r0` points to a map value: a copy of such a
    /// pointer counts as a number.
    pub open spec fn lone(self) -> bool {
        forall|i: int| 1 <= i < 11 ==> !((#[trigger] self.regs[i]) is MapPtr) && !(self.regs[i] is MaybeMapPtr)
    }

    /// Whether a machine is one of those that the state stands for.
    pub open spec fn describes(self, m: VmModel) -> bool {
        self.wf() && self.lone() && m.regs.len() == 11 && self.regs_hold(m) && self.memory_holds(m)
    }
}

/// What holds on one of two paths holds where they meet.
pub proof fn merge_keeps(a: StateModel, b: StateModel, m: VmModel)
    requires
        a.wf(),
        b.wf(),
        a.maps == b.maps,
        a.packet_len == b.packet_len,
        a.describes(m) || b.describes(m),
    ensures
        a.joined(b).describes(m),
        a.widened(b).describes(m),
{
    crate::verify::lattice::join_maps_idempotent(a.maps);
    let j = a.joined(b);
    let w = a.widened(b);
    let scratch = m.mem.scratch.len();
    assert forall|i: int| 0 <= i < 11 implies reg_holds(
        j.maps,
        #[trigger] j.regs[i],
        m.regs[i],
        scratch,
    ) by {
        assert(reg_holds(a.maps, a.regs[i], m.regs[i], scratch) || reg_holds(
            b.maps,
            b.regs[i],
            m.regs[i],
            scratch,
        ));
    }
    assert forall|i: int| 0 <= i < 11 implies reg_holds(
        w.maps,
        #[trigger] w.regs[i],
        m.regs[i],
        scratch,
    ) by {
        assert(reg_holds(a.maps, a.regs[i], m.regs[i], scratch) || reg_holds(
            b.maps,
            b.regs[i],
            m.regs[i],
            scratch,
        ));
    }
    assert forall|k: int| 0 <= k < 512 && #[trigger] j.init[k] implies m.mem.init[k] by {
        assert(a.init[k] && b.init[k]);
    }
    assert forall|i: int| 1 <= i < 11 implies !((#[trigger] j.regs[i]) is MapPtr) && !(j.regs[i] is MaybeMapPtr) by {
        assert(j.regs[i] == a.regs[i].joined(b.regs[i]));
    }
    assert forall|i: int| 1 <= i < 11 implies !((#[trigger] w.regs[i]) is MapPtr) && !(w.regs[i] is MaybeMapPtr) by {
        assert(w.regs[i] == a.regs[i].widened(b.regs[i]));
    }
}

/// The value of an operand.
pub open spec fn operand_value(m: VmModel, src: Operand) -> i64 {
    match src {
        Operand::Reg(r) => m.regs[r.0 as int],
        Operand::Imm(v) => v as i64,
    }
}

proof fn lemma_cast(x: i64)
    ensures
        x >= 0 ==> x as u64 == x,
        x < 0 ==> x as u64 == x + 0x1_0000_0000_0000_0000,
{
    assert((x >= 0 ==> x as u64 == x) && (x < 0 ==> x as u64 == x + 0x1_0000_0000_0000_0000)) by (bit_vector);
}

proof fn lemma_back(z: u64)
    ensures
        z < 0x8000_0000_0000_0000 ==> z as i64 == z,
        z >= 0x8000_0000_0000_0000 ==> z as i64 == z - 0x1_0000_0000_0000_0000,
{
    assert((z < 0x8000_0000_0000_0000 ==> z as i64 == z) && (z >= 0x8000_0000_0000_0000 ==> z as i64 == z
        - 0x1_0000_0000_0000_0000)) by (bit_vector);
}

/// 64-bit moves, sums and differences as they are on signed numbers.
proof fn lemma_signed_results(x: i64, y: i64)
    ensures
        AluOp::Mov.result(x, y, Width::B64) == y,
        AluOp::Add.result(x, y, Width::B64) == x.wrapping_add(y),
        AluOp::Sub.result(x, y, Width::B64) == x.wrapping_sub(y),
{
    lemma_cast(x);
    lemma_cast(y);
    lemma_back(y as u64);
    lemma_back((x as u64).wrapping_add(y as u64));
    lemma_back((x as u64).wrapping_sub(y as u64));
}

/// A register is written with a value of its new type.
proof fn lemma_wrote(s: StateModel, m: VmModel, r: Reg, t: RegType, v: i64)
    requires
        s.describes(m),
        r.valid(),
        r.0 != 10 ==> reg_holds(s.maps, t, v, m.mem.scratch.len()),
        !(t is MapPtr) && !(t is MaybeMapPtr),
    ensures
        s.assigned(r.0, t).describes(m.wrote(r, v)),
{
    let next = s.assigned(r.0, t);
    let after = m.wrote(r, v);
    assert forall|i: int| 0 <= i < 11 implies reg_holds(
        next.maps,
        #[trigger] next.regs[i],
        after.regs[i],
        after.mem.scratch.len(),
    ) by {
        assert(reg_holds(s.maps, s.regs[i], m.regs[i], m.mem.scratch.len()));
    }
}

/// A pointer that moves by a known distance stays what it is.
proof fn lemma_moved(s: StateModel, m: VmModel, dst: Reg, src: Operand, sign: int)
    requires
        s.describes(m),
        dst.valid(),
        src.valid(),
        sign == 1 || sign == -1,
        moved(s, dst, src, sign) is Some,
    ensures
        ({
            let x = m.regs[dst.0 as int];
            let y = operand_value(m, src);
            let v = if sign == 1 {
                x.wrapping_add(y)
            } else {
                x.wrapping_sub(y)
            };
            reg_holds(s.maps, moved(s, dst, src, sign)->0, v, m.mem.scratch.len())
        }),
{
    let x = m.regs[dst.0 as int];
    let y = operand_value(m, src);
    let scratch = m.mem.scratch.len();
    assert(reg_holds(s.maps, s.regs[dst.0 as int], x, scratch));
    if let Operand::Reg(r) = src {
        assert(reg_holds(s.maps, s.regs[r.0 as int], y, scratch));
    }
    assert(known_delta(s, src) == Some(y));
}

proof fn lemma_alu(
    s: StateModel,
    m: VmModel,
    pc: usize,
    width: Width,
    op: AluOp,
    dst: Reg,
    src: Operand,
)
    requires
        s.describes(m),
        dst.valid(),
        src.valid(),
        pc == m.pc,
        alu_step(pc, s, width, op, dst, src) is Ok,
    ensures
        (alu_step(pc, s, width, op, dst, src)->Ok_0).describes(
            m.wrote(dst, op.result(m.regs[dst.0 as int], operand_value(m, src), width)),
        ),
{
    let x = m.regs[dst.0 as int];
    let y = operand_value(m, src);
    let v = op.result(x, y, width);
    if width == Width::B64 && pointer_alu(s, op, dst, src) is Some {
        lemma_signed_results(x, y);
        match op {
            AluOp::Mov => {
                let r = src->Reg_0;
                assert(reg_holds(s.maps, s.regs[r.0 as int], y, m.mem.scratch.len()));
                lemma_wrote(s, m, dst, s.regs[r.0 as int], v);
            },
            AluOp::Add => {
                lemma_moved(s, m, dst, src, 1);
                lemma_wrote(s, m, dst, moved(s, dst, src, 1)->0, v);
            },
            _ => {
                lemma_moved(s, m, dst, src, -1);
                lemma_wrote(s, m, dst, moved(s, dst, src, -1)->0, v);
            },
        }
    } else {
        let range = alu_range(op, width, s.regs[dst.0 as int].range(), operand_range(s, src));
        lemma_alu_holds(s, m, width, op, dst, src);
        lemma_wrote(s, m, dst, RegType::Scalar(range), v);
    }
}

/// An offset from an aligned address is aligned as the offset is.
proof fn lemma_aligned(base: int, off: int, size: MemSize)
    requires
        base % 8 == 0,
    ensures
        size.len() > 0,
        (base + off) % size.len() as int == off % size.len() as int,
        size == MemSize::B ==> off % size.len() as int == 0,
{
    match size {
        MemSize::B => {
            assert(size.len() == 1);
            assert((base + off) % 1 == 0);
            assert(off % 1 == 0);
        },
        MemSize::H => {
            assert(size.len() == 2);
            assert((base + off) % 2 == off % 2) by (nonlinear_arith)
                requires
                    base % 8 == 0,
            ;
        },
        MemSize::W => {
            assert(size.len() == 4);
            assert((base + off) % 4 == off % 4) by (nonlinear_arith)
                requires
                    base % 8 == 0,
            ;
        },
        MemSize::Dw => {
            assert(size.len() == 8);
            assert((base + off) % 8 == off % 8) by (nonlinear_arith)
                requires
                    base % 8 == 0,
            ;
        },
    }
}

/// A load through a map value pointer succeeds.
proof fn lemma_value_load(s: StateModel, m: VmModel, pc: usize, fd: i64, v: i64, offset: i16, size: MemSize)
    requires
        s.describes(m),
        v == MAP_SCRATCH_BASE,
        value_fits(s.maps, fd, m.mem.scratch.len()),
        value_check(s, fd, offset, size, pc) is Ok,
    ensures
        m.mem.load(v.wrapping_add(offset as i64), size) is Ok,
        m.mem.store_fault(v.wrapping_add(offset as i64), size) is None,
        region_of(v.wrapping_add(offset as i64)) == MemRegion::MapScratch,
{
    lemma_aligned(MAP_SCRATCH_BASE as int, offset as int, size);
}

/// What a load from the packet context gives.
proof fn lemma_context_load(s: StateModel, m: VmModel, pc: usize, offset: i16, size: MemSize)
    requires
        s.describes(m),
        context_load(s, offset, size, pc) is Ok,
    ensures
        m.mem.load(XDP_MD_BASE.wrapping_add(offset as i64), size) is Ok,
        reg_holds(
            s.maps,
            context_load(s, offset, size, pc)->Ok_0,
            m.mem.load(XDP_MD_BASE.wrapping_add(offset as i64), size)->Ok_0,
            m.mem.scratch.len(),
        ),
{
    let len = s.packet_len->0;
    let start = le_bytes(PACKET_BASE as nat, 4);
    let end = le_bytes((PACKET_BASE + len) as nat, 4);
    lemma_bytes_len(PACKET_BASE as nat, 4);
    lemma_bytes_len((PACKET_BASE + len) as nat, 4);
    lemma_aligned(XDP_MD_BASE as int, offset as int, size);
    match size {
        MemSize::W => {
            lemma_pow256_values();
            lemma_word_of_bytes(PACKET_BASE as nat, 4);
            lemma_word_of_bytes((PACKET_BASE + len) as nat, 4);
            assert(m.mem.xdp_md.subrange(0, 4) =~= start);
            assert(m.mem.xdp_md.subrange(4, 8) =~= end);
            lemma_back(PACKET_BASE as u64);
            lemma_back((PACKET_BASE + len) as u64);
        },
        _ => {},
    }
}

/// A load through a packet pointer succeeds.
proof fn lemma_packet_load(s: StateModel, m: VmModel, pc: usize, base: Range, v: i64, offset: i16, size: MemSize)
    requires
        s.describes(m),
        base.has(v.wrapping_sub(PACKET_BASE)),
        packet_check(s, base, offset, size, pc) is Ok,
    ensures
        m.mem.load(v.wrapping_add(offset as i64), size) is Ok,
{
    lemma_aligned(PACKET_BASE as int, v.wrapping_sub(PACKET_BASE) + offset, size);
}

/// A stack access that was checked is in bounds and aligned.
proof fn lemma_stack_access(s: StateModel, m: VmModel, pc: usize, base: Reg, offset: i16, size: MemSize)
    requires
        s.describes(m),
        base.valid(),
        stack_access(s, base, offset, size, pc) is Ok,
    ensures
        ({
            let addr = m.regs[base.0 as int].wrapping_add(offset as i64);
            let (_, lo, hi) = stack_access(s, base, offset, size, pc)->Ok_0;
            &&& region_of(addr) == MemRegion::Stack
            &&& m.mem.store_fault(addr, size) is None
            &&& addr - (STACK_BASE - 512) == lo
            &&& 0 <= lo
            &&& hi == lo + size.len() - 1
            &&& hi < 512
            &&& s.readable(lo, hi) ==> m.mem.load(addr, size) is Ok
        }),
{
    assert(reg_holds(
        s.maps,
        s.regs[base.0 as int],
        m.regs[base.0 as int],
        m.mem.scratch.len(),
    ));
    let addr = m.regs[base.0 as int].wrapping_add(offset as i64);
    let (_, lo, hi) = stack_access(s, base, offset, size, pc)->Ok_0;
    lemma_aligned(STACK_BASE as int, addr - STACK_BASE, size);
    if s.readable(lo, hi) {
        assert forall|j: int| lo <= j < lo + size.len() implies #[trigger] m.mem.init[j] by {
            assert(s.init[j]);
        }
        assert(m.mem.readable(lo, size.len()));
    }
}

proof fn lemma_load(
    s: StateModel,
    m: VmModel,
    pc: usize,
    size: MemSize,
    dst: Reg,
    base: Reg,
    offset: i16,
)
    requires
        s.describes(m),
        dst.valid(),
        base.valid(),
        load_step(pc, s, size, dst, base, offset) is Ok,
    ensures
        m.load(size, dst, base, offset).1 == StepResult::Continue,
        (load_step(pc, s, size, dst, base, offset)->Ok_0).describes(
            m.load(size, dst, base, offset).0,
        ),
{
    let v = m.regs[base.0 as int];
    let addr = v.wrapping_add(offset as i64);
    assert(reg_holds(s.maps, s.regs[base.0 as int], v, m.mem.scratch.len()));
    let unknown = RegType::Scalar(Range::Top);
    match s.regs[base.0 as int] {
        RegType::MapPtr { fd } => {
            lemma_value_load(s, m, pc, fd, v, offset, size);
            lemma_wrote(s, m, dst, unknown, m.mem.load(addr, size)->Ok_0);
        },
        RegType::XdpMdPtr => {
            lemma_context_load(s, m, pc, offset, size);
            lemma_wrote(
                s,
                m,
                dst,
                context_load(s, offset, size, pc)->Ok_0,
                m.mem.load(addr, size)->Ok_0,
            );
        },
        RegType::PacketPtr { offset: base_off } => {
            lemma_packet_load(s, m, pc, base_off, v, offset, size);
            lemma_wrote(s, m, dst, unknown, m.mem.load(addr, size)->Ok_0);
        },
        _ => {
            lemma_stack_access(s, m, pc, base, offset, size);
            lemma_wrote(s, m, dst, unknown, m.mem.load(addr, size)->Ok_0);
        },
    }
}

/// A machine whose memory changed within what the state says.
proof fn lemma_remembered(s: StateModel, m: VmModel, next: StateModel, after: VmModel)
    requires
        s.describes(m),
        next.regs == s.regs,
        next.maps == s.maps,
        next.packet_len == s.packet_len,
        next.stack == s.stack,
        after.regs == m.regs,
        after.maps == m.maps,
        after.mem.wf(),
        after.mem.packet == m.mem.packet,
        after.mem.xdp_md == m.mem.xdp_md,
        after.mem.scratch.len() == m.mem.scratch.len(),
        next.init.len() == 512,
        forall|j: int| 0 <= j < 512 && #[trigger] next.init[j] ==> after.mem.init[j],
    ensures
        next.describes(after),
{
    assert forall|i: int| 0 <= i < 11 implies reg_holds(
        next.maps,
        #[trigger] next.regs[i],
        after.regs[i],
        after.mem.scratch.len(),
    ) by {
        assert(reg_holds(s.maps, s.regs[i], m.regs[i], m.mem.scratch.len()));
    }
}

proof fn lemma_store(
    s: StateModel,
    m: VmModel,
    pc: usize,
    size: MemSize,
    base: Reg,
    offset: i16,
    src: Operand,
    value: i64,
)
    requires
        s.describes(m),
        base.valid(),
        store_step(pc, s, size, base, offset, src) is Ok,
    ensures
        m.store(size, base, offset, value).1 == StepResult::Continue,
        (store_step(pc, s, size, base, offset, src)->Ok_0).describes(
            m.store(size, base, offset, value).0,
        ),
{
    let v = m.regs[base.0 as int];
    let addr = v.wrapping_add(offset as i64);
    let next = store_step(pc, s, size, base, offset, src)->Ok_0;
    let after = m.store(size, base, offset, value).0;
    let piece = le_bytes((value as u64) as nat, size.len());
    lemma_bytes_len((value as u64) as nat, size.len());
    assert(reg_holds(s.maps, s.regs[base.0 as int], v, m.mem.scratch.len()));
    match s.regs[base.0 as int] {
        RegType::MapPtr { fd } => {
            lemma_value_load(s, m, pc, fd, v, offset, size);
            assert(after.mem.scratch.len() == m.mem.scratch.len());
            lemma_remembered(s, m, next, after);
        },
        _ => {
            lemma_stack_access(s, m, pc, base, offset, size);
            let (_, lo, hi) = stack_access(s, base, offset, size, pc)->Ok_0;
            assert(after.mem.stack.len() == 512);
            assert forall|j: int| 0 <= j < 512 && #[trigger] next.init[j] implies after.mem.init[j] by {
                assert(s.init[j] || lo <= j <= hi);
                assert(s.init[j] ==> m.mem.init[j]);
            }
            lemma_remembered(s, m, next, after);
        },
    }
}

/// A map key or value on the stack that was checked can be read.
proof fn lemma_argument(s: StateModel, m: VmModel, pc: usize, r: Reg, size: usize)
    requires
        s.describes(m),
        r.valid(),
        argument_check(s, r, size, pc) is Ok,
    ensures
        m.mem.load_bytes(m.regs[r.0 as int], size as nat) matches Ok(bytes) && bytes.len() == size,
{
    let v = m.regs[r.0 as int];
    assert(reg_holds(s.maps, s.regs[r.0 as int], v, m.mem.scratch.len()));
    let off = v - (STACK_BASE - 512);
    assert forall|j: int| off <= j < off + size implies #[trigger] m.mem.init[j] by {
        assert(s.init[j]);
    }
    assert(m.mem.readable(off, size as nat));
    reveal_with_fuel(MemModel::bytewise, 1);
}

/// What a lookup finds has the size of the map's values, and no operation
/// changes that.
proof fn lemma_sizes_kept(desc: DescModel, store: StoreModel, key: Seq<u8>)
    requires
        values_sized(desc, store),
    ensures
        values_sized(desc, store.touched(desc, key)),
        store.found(desc, key) matches Ok(Some(v)) ==> v.len() == desc.value_size,
        store.delete_error(desc, key) is None ==> values_sized(desc, store.deleted(desc, key)),
{
    if let StoreModel::Lru(s) = store {
        if has_key(s, key) {
            let i = index_of(s, key);
            assert(0 <= i < s.len() && s[i].0 == key);
            let rest = s.remove(i);
            assert forall|k: int| 0 <= k < rest.len() implies (#[trigger] rest[k]).1.len()
                == desc.value_size by {
                let j = if k < i {
                    k
                } else {
                    k + 1
                };
                assert(rest[k] == s[j]);
            }
        }
    }
}

proof fn lemma_update_sized(
    desc: DescModel,
    store: StoreModel,
    key: Seq<u8>,
    value: Seq<u8>,
    flags: u64,
)
    requires
        values_sized(desc, store),
        store.update_error(desc, key, value, flags) is None,
    ensures
        values_sized(desc, store.updated(desc, key, value)),
{
    lemma_sizes_kept(desc, store, key);
    if let StoreModel::Lru(s) = store {
        let room = if !has_key(s, key) && s.len() >= desc.max_entries {
            s.skip(1)
        } else {
            without(s, key)
        };
        assert forall|k: int| 0 <= k < room.len() implies (#[trigger] room[k]).1.len()
            == desc.value_size by {
            if !has_key(s, key) && s.len() >= desc.max_entries {
                assert(room[k] == s[k + 1]);
            } else if has_key(s, key) {
                let i = index_of(s, key);
                assert(0 <= i < s.len() && s[i].0 == key);
                let j = if k < i {
                    k
                } else {
                    k + 1
                };
                assert(room[k] == s[j]);
            }
        }
        let all = room.push((key, value));
        assert forall|k: int| 0 <= k < all.len() implies (#[trigger] all[k]).1.len()
            == desc.value_size by {
            if k < room.len() {
                assert(all[k] == room[k]);
            }
        }
    }
}

/// Whether the machine's helpers are the map helpers, or none.
pub open spec fn serves_maps(m: VmModel) -> bool {
    forall|func: u32| (#[trigger] (m.helpers)(func)) is Some ==> (m.helpers)(func) == map_helper(func)
}

/// Whether a call is an update or a deletion that fails.
pub open spec fn call_fails(m: VmModel, func: u32) -> bool {
    (m.helpers)(func) is Some && func != 1 && m.call(func).0.regs[0] != 0
}

/// A machine with the result of a successful update or deletion.
pub open spec fn eased(m: VmModel) -> VmModel {
    VmModel { regs: m.regs.update(0, 0), ..m }
}

proof fn lemma_hosts_update(
    table: Seq<Option<DescModel>>,
    maps: Seq<Option<(DescModel, StoreModel)>>,
    fd: int,
    own: DescModel,
    store: StoreModel,
    next: StoreModel,
)
    requires
        hosts(table, maps),
        0 <= fd < maps.len(),
        maps[fd] == Some((own, store)),
        values_sized(own, store) ==> values_sized(own, next),
    ensures
        hosts(table, maps.update(fd, Some((own, next)))),
{
    let after = maps.update(fd, Some((own, next)));
    assert forall|k: int| 0 <= k < table.len() && (#[trigger] table[k]) is Some implies k
        < after.len() && hosts_one(table[k]->0, after[k]) by {
        assert(hosts_one(table[k]->0, maps[k]));
    }
}

/// A machine after a map helper: `r0` has a value of its type, the maps keep
/// their sizes, and pointers to map values stay good.
proof fn lemma_returned(s: StateModel, m: VmModel, t: RegType, v: i64, after: VmModel)
    requires
        s.describes(m),
        after.regs == m.regs.update(0, v),
        after.mem.wf(),
        after.mem.init == m.mem.init,
        after.mem.packet == m.mem.packet,
        after.mem.xdp_md == m.mem.xdp_md,
        hosts(s.maps, after.maps),
        reg_holds(s.maps, t, v, after.mem.scratch.len()),
    ensures
        s.assigned(0, t).describes(after),
{
    let next = s.assigned(0, t);
    assert forall|i: int| 0 <= i < 11 implies reg_holds(
        next.maps,
        #[trigger] next.regs[i],
        after.regs[i],
        after.mem.scratch.len(),
    ) by {
        assert(reg_holds(s.maps, s.regs[i], m.regs[i], m.mem.scratch.len()));
        if i > 0 {
            assert(!(s.regs[i] is MapPtr) && !(s.regs[i] is MaybeMapPtr));
        }
    }
}

/// The arguments of a call that names its map by a number that is not known
/// fit the map that it names.
proof fn lemma_possible(s: StateModel, r: Range, fd: nat, takes_value: bool, pc: usize, k: int)
    requires
        possible_check(s, r, fd, takes_value, pc) is Ok,
        fd <= k < s.maps.len(),
        k <= i64::MAX,
        r.has(k as i64),
        s.maps[k] is Some,
    ensures
        pair_check(s, s.maps[k]->0, takes_value, pc) is Ok,
    decreases k - fd,
{
    if fd < k {
        lemma_possible(s, r, fd + 1, takes_value, pc, k);
    }
}

/// The map that a call names, if the machine has it, is one that was told
/// of, and the arguments fit it.
proof fn lemma_call_map(s: StateModel, m: VmModel, pc: usize, func: u32)
    requires
        s.describes(m),
        func == 1 || func == 2 || func == 3,
        built_in_outcome(func, s, pc) matches Some(Ok(_)),
        m.map(m.regs[1]) is Some,
    ensures
        s.desc(m.regs[1]) is Some,
        0 <= m.regs[1] < m.maps.len(),
        m.maps[m.regs[1] as int] is Some,
        hosts_one(s.desc(m.regs[1])->0, m.maps[m.regs[1] as int]),
        pair_check(s, s.desc(m.regs[1])->0, func == 2, pc) is Ok,
{
    let fd = m.regs[1];
    assert(reg_holds(s.maps, s.regs[1], fd, m.mem.scratch.len()));
    assert(m.maps[fd as int] is Some);
    assert(s.maps[fd as int] is Some);
    if let RegType::Scalar(r) = s.regs[1] {
        if r.single() is None {
            lemma_possible(s, r, 0, func == 2, pc, fd as int);
        }
    }
}

/// A call that named its map by a known number did not miss it.
proof fn lemma_call_known(s: StateModel, m: VmModel, pc: usize, func: u32)
    requires
        s.describes(m),
        func == 1 || func == 2 || func == 3,
        built_in_outcome(func, s, pc) matches Some(Ok(_)),
        m.map(m.regs[1]) is None,
    ensures
        (built_in_outcome(func, s, pc)->0)->Ok_0 == RegType::Scalar(Range::Top),
{
    let fd = m.regs[1];
    assert(reg_holds(s.maps, s.regs[1], fd, m.mem.scratch.len()));
    if let RegType::Scalar(r) = s.regs[1] {
        if r.single() is Some {
            assert(s.maps[fd as int] is Some);
            assert(hosts_one(s.maps[fd as int]->0, m.maps[fd as int]));
        }
    }
}

proof fn lemma_call(s: StateModel, m: VmModel, pc: usize, func: u32)
    requires
        s.describes(m),
        serves_maps(m),
        transfer(pc, Insn::Call { func }, s) is Ok,
    ensures
        match m.call(func).1 {
            StepResult::Error(e) => e !is Memory,
            StepResult::Continue => {
                let after = m.call(func).0;
                &&& (transfer(pc, Insn::Call { func }, s)->Ok_0).describes(
                    if call_fails(m, func) {
                        eased(after)
                    } else {
                        after
                    },
                )
                &&& after.pc == (m.pc + 1) as usize
                &&& after.code == m.code
                &&& after.helpers == m.helpers
            },
            _ => true,
        },
{
    if (m.helpers)(func) is Some {
        let after = m.call(func).0;
        let t = (built_in_outcome(func, s, pc)->0)->Ok_0;
        assert((m.helpers)(func) == map_helper(func));
        let fd = m.regs[1];
        if m.map(fd) is None {
            lemma_call_known(s, m, pc, func);
            if call_fails(m, func) {
                assert(eased(after).regs =~= m.regs.update(0, 0));
                lemma_returned(s, m, t, 0, eased(after));
            } else {
                lemma_returned(s, m, t, after.regs[0], after);
            }
        } else {
            lemma_call_map(s, m, pc, func);
            lemma_call_hit(s, m, pc, func);
        }
    }
}

proof fn lemma_call_hit(s: StateModel, m: VmModel, pc: usize, func: u32)
    requires
        s.describes(m),
        func == 1 || func == 2 || func == 3,
        (m.helpers)(func) == map_helper(func),
        built_in_outcome(func, s, pc) matches Some(Ok(_)),
        m.map(m.regs[1]) is Some,
        s.desc(m.regs[1]) is Some,
        0 <= m.regs[1] < m.maps.len(),
        m.maps[m.regs[1] as int] is Some,
        hosts_one(s.desc(m.regs[1])->0, m.maps[m.regs[1] as int]),
        pair_check(s, s.desc(m.regs[1])->0, func == 2, pc) is Ok,
    ensures
        m.call(func).1 == StepResult::Continue,
        s.assigned(0, (built_in_outcome(func, s, pc)->0)->Ok_0).describes(
            if call_fails(m, func) {
                eased(m.call(func).0)
            } else {
                m.call(func).0
            },
        ),
        m.call(func).0.pc == (m.pc + 1) as usize,
        m.call(func).0.code == m.code,
        m.call(func).0.helpers == m.helpers,
{
    let after = m.call(func).0;
    let t = (built_in_outcome(func, s, pc)->0)->Ok_0;
    let fd = m.regs[1];
    assert(reg_holds(s.maps, s.regs[1], fd, m.mem.scratch.len()));
    let d = s.desc(fd)->0;
    let (own, store) = m.maps[fd as int]->0;
    lemma_argument(s, m, pc, Reg(2), d.key_size);
    let key = m.mem.load_bytes(m.regs[2], own.key_size as nat)->Ok_0;
    lemma_sizes_kept(own, store, key);
    if func == 1 {
        lemma_hosts_update(s.maps, m.maps, fd as int, own, store, store.touched(own, key));
        match store.found(own, key) {
            Ok(Some(value)) => {
                lemma_returned(s, m, t, MAP_SCRATCH_BASE, after);
            },
            _ => {
                lemma_returned(s, m, t, 0, after);
            },
        }
    } else if func == 2 {
        lemma_argument(s, m, pc, Reg(3), d.value_size);
        let value = m.mem.load_bytes(m.regs[3], own.value_size as nat)->Ok_0;
        let flags = VmModel::flags_word(m.regs[4]);
        if store.update_error(own, key, value, flags) is None {
            lemma_update_sized(own, store, key, value, flags);
            lemma_hosts_update(s.maps, m.maps, fd as int, own, store, store.updated(own, key, value));
            lemma_returned(s, m, t, 0, after);
        } else {
            assert(eased(after).regs =~= m.regs.update(0, 0));
            lemma_returned(s, m, t, 0, eased(after));
        }
    } else {
        if store.delete_error(own, key) is None {
            lemma_hosts_update(s.maps, m.maps, fd as int, own, store, store.deleted(own, key));
            lemma_returned(s, m, t, 0, after);
        } else {
            assert(eased(after).regs =~= m.regs.update(0, 0));
            lemma_returned(s, m, t, 0, eased(after));
        }
    }
}

/// Comparing with zero tells whether a value is zero.
proof fn lemma_null_test(v: i64, width: Width)
    requires
        v == 0 || v == MAP_SCRATCH_BASE,
    ensures
        jump_condition(JumpOp::Eq, v, 0, width) == (v == 0),
        jump_condition(JumpOp::Ne, v, 0, width) == (v != 0),
{
    assert(0i64 as u64 == 0u64 && 0i64 as u32 == 0u32 && 0x3_0000i64 as u64 == 0x3_0000u64 && 0x3_0000i64 as u32
        == 0x3_0000u32) by (bit_vector);
}

proof fn lemma_branch(
    s: StateModel,
    m: VmModel,
    width: Width,
    op: JumpOp,
    dst: Reg,
    src: Operand,
    offset: i16,
    pc: usize,
)
    requires
        s.describes(m),
        dst.valid(),
        src.valid(),
        op != JumpOp::Always,
        init_check(s, dst, m.pc) is Ok,
        operand_check(s, src, m.pc) is Ok,
    ensures
        ({
            let taken = jump_condition(op, m.regs[dst.0 as int], operand_value(m, src), width);
            let kind = if taken {
                EdgeKind::BranchTrue
            } else {
                EdgeKind::BranchFalse
            };
            edge_state(s, kind, Insn::Jump { width, op, dst, src, offset }).describes(
                VmModel { pc, ..m },
            )
        }),
{
    let taken = jump_condition(op, m.regs[dst.0 as int], operand_value(m, src), width);
    let kind = if taken {
        EdgeKind::BranchTrue
    } else {
        EdgeKind::BranchFalse
    };
    let next = edge_state(s, kind, Insn::Jump { width, op, dst, src, offset });
    let after = VmModel { pc, ..m };
    let v = m.regs[dst.0 as int];
    assert(reg_holds(s.maps, s.regs[dst.0 as int], v, m.mem.scratch.len()));
    assert forall|i: int| 0 <= i < 11 implies reg_holds(
        next.maps,
        #[trigger] next.regs[i],
        after.regs[i],
        after.mem.scratch.len(),
    ) by {
        assert(reg_holds(s.maps, s.regs[i], m.regs[i], m.mem.scratch.len()));
        match src {
            Operand::Imm(k) => {
                if i == dst.0 {
                    lemma_edge_reg(s, m, width, op, dst, k);
                }
            },
            Operand::Reg(other) => {
                if packet_applies(s, width, op, dst, other) && (i == dst.0 || i == other.0) {
                    lemma_packet_edge(s, m, op, dst, other);
                }
            },
        }
    }
    assert forall|i: int| 1 <= i < 11 implies !((#[trigger] next.regs[i]) is MapPtr) && !(next.regs[i] is MaybeMapPtr) by {
        assert(!(s.regs[i] is MapPtr) && !(s.regs[i] is MaybeMapPtr));
    }
}

/// Whether an instruction makes an update or a deletion that fails.
pub open spec fn fails(m: VmModel, insn: Insn) -> bool {
    insn matches Insn::Call { func } && call_fails(m, func)
}

/// Whether an instruction that a run goes on from reads `r0`.
pub open spec fn reads_result(insn: Insn) -> bool {
    match insn {
        Insn::Alu { op, dst, src, .. } => src == Operand::Reg(Reg(0)) || (dst == Reg(0) && op != AluOp::Mov),
        Insn::Load { base, .. } => base == Reg(0),
        Insn::Store { base, src, .. } => base == Reg(0) || src == Operand::Reg(Reg(0)),
        Insn::Jump { op, dst, src, .. } => op != JumpOp::Always && (dst == Reg(0) || src == Operand::Reg(Reg(0))),
        _ => false,
    }
}

/// Whether an instruction writes `r0`.
pub open spec fn writes_result(insn: Insn) -> bool {
    match insn {
        Insn::Alu { dst, .. } => dst == Reg(0),
        Insn::LoadImm64 { dst, .. } => dst == Reg(0),
        Insn::Load { dst, .. } => dst == Reg(0),
        Insn::Call { .. } => true,
        _ => false,
    }
}

/// A step keeps the number of registers.
pub proof fn lemma_step_len(m: VmModel, insns: Seq<Insn>)
    requires
        m.regs.len() == 11,
        m.pc < insns.len(),
        m.code == loaded(insns),
        insns[m.pc as int].valid(),
    ensures
        m.step().0.regs.len() == 11,
{
    assert(m.code[m.pc as int] == lowered(insns, m.pc as int));
}

/// A call does the same whatever `r0` holds.
proof fn lemma_call_ignores_result(m: VmModel, func: u32)
    requires
        m.regs.len() == 11,
    ensures
        ({
            let n = eased(m);
            match (m.call(func).1, n.call(func).1) {
                (StepResult::Continue, StepResult::Continue) => m.call(func).0 == n.call(func).0,
                (StepResult::Error(e), StepResult::Error(f)) => e == f && m.call(func).0 == m && n.call(func).0 == n,
                _ => false,
            }
        }),
{
    let n = eased(m);
    assert forall|v: i64| #[trigger] n.returned(v) == m.returned(v) by {
        assert(n.regs.update(0, v) =~= m.regs.update(0, v));
    }
    let a = m.call(func).0;
    let b = n.call(func).0;
    if m.call(func).1 == StepResult::Continue {
        assert(a.regs =~= b.regs);
        assert(a =~= b);
    }
}

/// An instruction that does not read `r0` does the same whatever it holds.
pub proof fn step_ignores_result(m: VmModel, insns: Seq<Insn>)
    requires
        m.regs.len() == 11,
        m.pc < insns.len() <= u32::MAX,
        m.code == loaded(insns),
        insns[m.pc as int].valid(),
        !reads_result(insns[m.pc as int]),
    ensures
        ({
            let insn = insns[m.pc as int];
            let n = eased(m);
            &&& match (m.step().1, n.step().1) {
                (StepResult::Continue, StepResult::Continue) => if writes_result(insn) {
                    m.step().0 == n.step().0
                } else {
                    n.step().0 == eased(m.step().0)
                },
                (StepResult::Error(e), StepResult::Error(f)) => e == f,
                (StepResult::Exit(_), StepResult::Exit(_)) => true,
                _ => false,
            }
            &&& m.step().1 == StepResult::Continue ==> fails(m, insn) == fails(n, insn)
        }),
{
    let n = eased(m);
    let insn = insns[m.pc as int];
    assert(m.code[m.pc as int] == lowered(insns, m.pc as int));
    let (a, b) = (m.step().0, n.step().0);
    match insn {
        Insn::Call { func } => {
            lemma_call_ignores_result(m, func);
        },
        _ => {
            if m.step().1 == StepResult::Continue {
                if writes_result(insn) {
                    assert(a.regs =~= b.regs);
                } else {
                    assert(b.regs =~= eased(a).regs);
                }
            }
        },
    }
}

/// The way that control takes after an instruction.
pub open spec fn way_out(m: VmModel, insn: Insn) -> EdgeKind {
    match insn {
        Insn::Jump { width, op, dst, src, .. } => if op == JumpOp::Always {
            EdgeKind::Unconditional
        } else if jump_condition(op, m.regs[dst.0 as int], operand_value(m, src), width) {
            EdgeKind::BranchTrue
        } else {
            EdgeKind::BranchFalse
        },
        _ => EdgeKind::Fallthrough,
    }
}

/// A step of the verifier covers a step of the machine: where the verifier
/// accepts an instruction, the machine does not fault on memory, and the
/// state along the way that it takes describes the machine after it. An update
/// or a deletion that fails is taken for one that succeeds.
pub proof fn step_is_covered(s: StateModel, m: VmModel, insns: Seq<Insn>)
    requires
        s.describes(m),
        m.pc < insns.len() <= u32::MAX,
        m.code == loaded(insns),
        insns[m.pc as int].valid(),
        cfg_error(insns) is None,
        serves_maps(m),
        transfer(m.pc, insns[m.pc as int], s) is Ok,
    ensures
        match m.step().1 {
            StepResult::Error(e) => e !is Memory,
            StepResult::Exit(_) => true,
            StepResult::Continue => {
                let after = m.step().0;
                let insn = insns[m.pc as int];
                let kind = way_out(m, insn);
                let next = transfer(m.pc, insn, s)->Ok_0;
                &&& after.code == m.code
                &&& after.helpers == m.helpers
                &&& insn !is Exit
                &&& edge_state(next, kind, insn).describes(
                    if fails(m, insn) {
                        eased(after)
                    } else {
                        after
                    },
                )
                &&& after.pc == (if insn is Jump && kind != EdgeKind::BranchFalse {
                    jump_target(insns, m.pc as int)->0
                } else {
                    m.pc + 1
                })
            },
        },
{
    let pc = m.pc;
    let insn = insns[pc as int];
    match insn {
        Insn::Alu { width, op, dst, src } => {
            lemma_alu(s, m, pc, width, op, dst, src);
        },
        Insn::LoadImm64 { dst, imm } => {
            lemma_wrote(s, m, dst, RegType::Scalar(Range::only(imm)), imm);
        },
        Insn::Load { size, dst, base, offset } => {
            lemma_load(s, m, pc, size, dst, base, offset);
        },
        Insn::Store { size, base, offset, src } => {
            lemma_store(s, m, pc, size, base, offset, src, operand_value(m, src));
        },
        Insn::Call { func } => {
            lemma_call(s, m, pc, func);
        },
        Insn::Jump { width, op, dst, src, offset } => {
            lemma_target_exists(insns, pc as int);
            targets_match_graph(insns, pc as int, offset);
            let after = m.step().0;
            if op != JumpOp::Always {
                lemma_branch(s, m, width, op, dst, src, offset, after.pc);
                assert(after =~= VmModel { pc: after.pc, ..m });
            } else {
                lemma_remembered(s, m, s, after);
            }
        },
        _ => {},
    }
}

/// 32-bit moves, sums and bitwise operations through 64-bit ones.
proof fn lemma_low_results(x: i64, y: i64)
    ensures
        AluOp::Mov.result(x, y, Width::B32) == ((y as u64) & 0xffff_ffff) as i64,
        AluOp::Add.result(x, y, Width::B32) == ((x.wrapping_add(y) as u64) & 0xffff_ffff) as i64,
        AluOp::And.result(x, y, Width::B32) == ((((x as u64) & (y as u64)) as i64 as u64)
            & 0xffff_ffff) as i64,
        AluOp::Or.result(x, y, Width::B32) == ((((x as u64) | (y as u64)) as i64 as u64)
            & 0xffff_ffff) as i64,
{
    assert(((y as u32) as u64) as i64 == ((y as u64) & 0xffff_ffff) as i64) by (bit_vector);
    assert((((x as u32) & (y as u32)) as u64) as i64 == ((((x as u64) & (y as u64)) as i64 as u64)
        & 0xffff_ffff) as i64) by (bit_vector);
    assert((((x as u32) | (y as u32)) as u64) as i64 == ((((x as u64) | (y as u64)) as i64 as u64)
        & 0xffff_ffff) as i64) by (bit_vector);
    lemma_low_sum(x, y);
}

/// The low half of a sum is the sum of the low halves.
#[verifier::spinoff_prover]
proof fn lemma_low_sum(x: i64, y: i64)
    ensures
        (((x as u32).wrapping_add(y as u32)) as u64) as i64 == ((x.wrapping_add(y) as u64)
            & 0xffff_ffff) as i64,
{
    let sum = x.wrapping_add(y);
    lemma_cast(x);
    lemma_cast(y);
    lemma_cast(sum);
    lemma_low(x as u64);
    lemma_low(y as u64);
    lemma_low(sum as u64);
    assert(x as u32 == (x as u64) as u32 && y as u32 == (y as u64) as u32) by (bit_vector);
    let low = ((x as u32).wrapping_add(y as u32)) as u64;
    assert(low == (sum as u64) & 0xffff_ffff);
}

proof fn lemma_low(z: u64)
    ensures
        z & 0xffff_ffff == z % 0x1_0000_0000,
        (z as u32) == z % 0x1_0000_0000,
{
    assert(z & 0xffff_ffff == z % 0x1_0000_0000 && (z as u32) == z % 0x1_0000_0000) by (bit_vector);
}

/// A 32-bit shift by less than 32 through a 64-bit one.
proof fn lemma_low_shift(x: i64, y: i64)
    requires
        0 <= y <= 31,
    ensures
        AluOp::Lsh.result(x, y, Width::B32) == ((((x as u64) << (y as u64)) as i64 as u64) & 0xffff_ffff) as i64,
        AluOp::Lsh.result(x, y, Width::B64) == ((x as u64) << (y as u64)) as i64,
{
    assert((((x as u32) << ((y as u32) % 32)) as u64) as i64 == ((((x as u64) << (y as u64)) as i64 as u64)
        & 0xffff_ffff) as i64) by (bit_vector)
        requires
            0 <= y <= 31,
    ;
    lemma_cast(y);
    assert(y as u64 % 64 == y as u64);
}

/// The interval that an ALU operation computes holds the value that the
/// machine computes.
proof fn lemma_alu_holds(
    s: StateModel,
    m: VmModel,
    width: Width,
    op: AluOp,
    dst: Reg,
    src: Operand,
)
    requires
        s.describes(m),
        dst.valid(),
        src.valid(),
        operand_check(s, src, m.pc) is Ok,
        target_check(s, op, dst, m.pc) is Ok,
    ensures
        alu_range(op, width, s.regs[dst.0 as int].range(), operand_range(s, src)).has(
            op.result(m.regs[dst.0 as int], operand_value(m, src), width),
        ),
{
    let x = m.regs[dst.0 as int];
    let y = operand_value(m, src);
    let scratch = m.mem.scratch.len();
    let lhs = s.regs[dst.0 as int].range();
    let rhs = operand_range(s, src);
    assert(reg_holds(s.maps, s.regs[dst.0 as int], x, scratch));
    if let Operand::Reg(r) = src {
        assert(reg_holds(s.maps, s.regs[r.0 as int], y, scratch));
    }
    assert(rhs.has(y));
    lemma_signed_results(x, y);
    lemma_low_results(x, y);
    if op == AluOp::Mov {
        low_sound(rhs, y);
    } else {
        assert(lhs.has(x));
        add_sound(lhs, rhs, x, y);
        bitwise_sound(lhs, rhs, x, y);
        low_sound(lhs.plus(rhs), x.wrapping_add(y));
        low_sound(lhs.anded(rhs), ((x as u64) & (y as u64)) as i64);
        low_sound(lhs.ored(rhs), ((x as u64) | (y as u64)) as i64);
        if op == AluOp::Lsh {
            lemma_lsh_holds(lhs, rhs, x, y, width);
        }
    }
}

proof fn lemma_lsh_holds(lhs: Range, rhs: Range, x: i64, y: i64, width: Width)
    requires
        lhs.has(x),
        rhs.has(y),
    ensures
        alu_range(AluOp::Lsh, width, lhs, rhs).has(AluOp::Lsh.result(x, y, width)),
{
    match width {
        Width::B64 => {
            if 0 <= y <= 63 {
                shift_sound(lhs, rhs, x, y);
                lemma_cast(y);
                assert(y as u64 % 64 == y as u64);
            }
        },
        Width::B32 => {
            if amounts32(rhs) {
                shift_sound(lhs, rhs, x, y);
                lemma_low_shift(x, y);
                low_sound(lhs.shifted(rhs), ((x as u64) << (y as u64)) as i64);
            }
        },
    }
}

/// A packet pointer that is compared with an address.
proof fn lemma_near(offset: Range, r: Range, op: JumpOp, v: i64, addr: i64, taken: bool)
    requires
        near(op, offset, r),
        offset.has(v.wrapping_sub(PACKET_BASE)),
        r.single() == Some(addr),
        packet_offset(addr) is Some,
        jump_condition(op, v, addr, Width::B64) == taken,
    ensures
        refined(offset, op, packet_offset(addr)->0, taken).has(v.wrapping_sub(PACKET_BASE)),
{
    let k = packet_offset(addr)->0;
    let x = v.wrapping_sub(PACKET_BASE);
    lemma_cast(v);
    lemma_cast(addr);
    lemma_cast(x);
    assert(v as u64 == x + PACKET_BASE);
    assert(refined(offset, op, k, taken) == offset.met(admitted(op, k, taken)));
    assert(admitted(op, k, taken).has(x));
}

/// A comparison the other way round.
proof fn lemma_swapped(op: JumpOp, x: i64, y: i64)
    requires
        swapped(op) is Some,
    ensures
        jump_condition(swapped(op)->0, y, x, Width::B64) == jump_condition(op, x, y, Width::B64),
        signed(swapped(op)->0) == signed(op),
{
}

/// What a comparison of registers tells about a packet pointer holds.
proof fn lemma_packet_edge(s: StateModel, m: VmModel, op: JumpOp, dst: Reg, src: Reg)
    requires
        s.describes(m),
        dst.valid(),
        src.valid(),
        op != JumpOp::Always,
        packet_applies(s, Width::B64, op, dst, src),
    ensures
        ({
            let taken = jump_condition(op, m.regs[dst.0 as int], m.regs[src.0 as int], Width::B64);
            let next = bound_checked(s, op, dst, src, taken);
            &&& reg_holds(s.maps, next.regs[dst.0 as int], m.regs[dst.0 as int], m.mem.scratch.len())
            &&& reg_holds(s.maps, next.regs[src.0 as int], m.regs[src.0 as int], m.mem.scratch.len())
        }),
{
    let x = m.regs[dst.0 as int];
    let y = m.regs[src.0 as int];
    let scratch = m.mem.scratch.len();
    let taken = jump_condition(op, x, y, Width::B64);
    assert(reg_holds(s.maps, s.regs[dst.0 as int], x, scratch));
    assert(reg_holds(s.maps, s.regs[src.0 as int], y, scratch));
    match (s.regs[dst.0 as int], s.regs[src.0 as int]) {
        (RegType::PacketPtr { offset }, RegType::Scalar(range)) => {
            let addr = range.single()->0;
            if packet_offset(addr) is Some {
                lemma_near(offset, range, op, x, addr, taken);
            }
        },
        (RegType::Scalar(range), RegType::PacketPtr { offset }) => {
            let addr = range.single()->0;
            if packet_offset(addr) is Some && swapped(op) is Some {
                lemma_swapped(op, x, y);
                lemma_near(offset, range, swapped(op)->0, y, addr, taken);
            }
        },
        _ => {},
    }
}

/// A 32-bit comparison of small numbers is a 64-bit one.
proof fn lemma_small_compare(op: JumpOp, v: i64, k: i64)
    requires
        0 <= v <= 0xffff_ffff,
        v <= 0x7fff_ffff || (k >= 0 && !by_sign(op)),
        i32::MIN <= k <= i32::MAX,
        signed(op) || k >= 0,
        op != JumpOp::Jset,
    ensures
        jump_condition(op, v, k, Width::B32) == jump_condition(op, v, k, Width::B64),
{
    assert((v <= 0x7fff_ffff ==> (v as u32) as i32 == v) && v as u32 == v && v as u64 == v && (k as u32) as i32 == k && (k >= 0 ==> k as u32
        == k && k as u64 == k) && (k < 0 ==> k as u32 > 0x7fff_ffff && k as u64 > 0x7fff_ffff)) by (bit_vector)
        requires
            0 <= v <= 0xffff_ffff,
            -0x8000_0000 <= k <= 0x7fff_ffff,
    ;
}

/// What a comparison with a number tells about a register holds.
proof fn lemma_edge_reg(s: StateModel, m: VmModel, width: Width, op: JumpOp, dst: Reg, k: i32)
    requires
        s.describes(m),
        dst.valid(),
        op != JumpOp::Always,
        init_check(s, dst, m.pc) is Ok,
    ensures
        ({
            let taken = jump_condition(op, m.regs[dst.0 as int], k as i64, width);
            reg_holds(
                s.maps,
                edge_reg(s.regs[dst.0 as int], width, op, k as i64, taken),
                m.regs[dst.0 as int],
                m.mem.scratch.len(),
            )
        }),
{
    let v = m.regs[dst.0 as int];
    let t = s.regs[dst.0 as int];
    let r = t.range();
    let y = k as i64;
    let taken = jump_condition(op, v, y, width);
    assert(reg_holds(s.maps, t, v, m.mem.scratch.len()));
    if t is MapPtr || t is MaybeMapPtr {
        if k == 0 && t is MaybeMapPtr {
            lemma_null_test(v, width);
        }
    } else {
        assert(r.has(v));
        if comparable(r, width, op, y) {
            if op == JumpOp::Jset {
                assert(refined(r, op, y, taken) == r.met(Range::Top));
            } else {
                if width == Width::B32 {
                    lemma_small_compare(op, v, y);
                }
                refine_sound(r, op, v, y, taken);
            }
        } else if width == Width::B64 && y >= 0 && caps(op, taken) {
            lemma_cast(v);
            lemma_cast(y);
            let low = r.met(at_least(0));
            assert(low.has(v));
            refine_sound(low, op, v, y, taken);
        }
    }
}

} // verus!
