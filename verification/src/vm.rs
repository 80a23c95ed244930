//! Concrete interpreter.
//!
//! [`Vm`] executes a decoded program with real register, program-counter and
//! memory state. 32-bit results are zero-extended, shift amounts are masked,
//! and division by zero yields zero. Two behaviours are deliberate: a write
//! to the frame pointer `r10` is ignored, and deleting from an array map
//! zeroes the slot.
pub mod exec;
pub mod laws;
pub mod map_laws;
pub mod maps;
pub mod memory;
pub mod xdp;

use vstd::prelude::*;
use vstd::string::StringExecFns;

use crate::isa::decode::{decode_program, decoded, decoded_is_valid, head_of};
use crate::isa::insn::{DecodeError, Insn, JumpOp, MemSize, RawInsn, Reg, Width};
use crate::slots::{slot_count, slot_of, width_of};
use crate::text::{int_text, nat_text, push_int, push_nat};
use crate::vm::exec::{load, loaded, loaded_is_valid, ExecInsn};
use crate::vm::maps::{ascending, build_stores, descs_of, entry_matches, max_fd, stores_error, DescModel, StoreModel};
use crate::vm::memory::{MemModel, MAP_SCRATCH_BASE, STACK_BASE, XDP_MD_BASE};

pub use crate::vm::maps::{MapDesc, MapError, MapStore, MapType};
pub use crate::vm::memory::{MemError, MemRegion, MemoryView, PacketBuffer};

verus! {

/// Number of general-purpose registers.
pub const NUM_REGS: usize = 11;

/// Execution failure.
#[derive(Debug, Clone, Copy, PartialEq, Eq, Structural)]
#[non_exhaustive]
pub enum VmError {
    /// Unknown opcode word.
    IllegalInstruction {
        /// Index of the offending instruction.
        pc: usize,
    },
    /// Jump target outside the program.
    JumpOutOfBounds {
        /// Index of the jumping instruction.
        pc: usize,
        /// Computed target.
        target: i64,
    },
    /// Helper id with no registered implementation.
    UnknownHelper {
        /// Helper id.
        func: u32,
    },
    /// Byte-swap width other than 16, 32 or 64.
    InvalidEndWidth {
        /// Index of the instruction.
        pc: usize,
        /// Requested width.
        width: i64,
    },
    /// Step budget exhausted.
    StepsExceeded {
        /// Configured step budget.
        limit: usize,
    },
    /// Memory fault.
    Memory(MemError),
}

impl VmError {
    /// The message of the error.
    pub open spec fn display(self) -> Seq<char> {
        match self {
            VmError::IllegalInstruction { pc } => "illegal instruction at pc "@ + nat_text(
                pc as nat,
            ),
            VmError::JumpOutOfBounds { pc, target } => "jump at pc "@ + nat_text(pc as nat)
                + " targets out-of-bounds index "@ + int_text(target as int),
            VmError::UnknownHelper { func } => "unknown helper function "@ + nat_text(func as nat)
                + " (no helpers registered yet)"@,
            VmError::InvalidEndWidth { pc, width } => "invalid BPF_END width "@ + int_text(
                width as int,
            ) + " at pc "@ + nat_text(pc as nat),
            VmError::StepsExceeded { limit } => "instruction limit of "@ + nat_text(limit as nat)
                + " steps exceeded"@,
            VmError::Memory(e) => e.display(),
        }
    }

    /// Renders the message of the error.
    pub fn to_string(&self) -> (s: String)
        ensures
            s@ == self.display(),
    {
        match *self {
            VmError::IllegalInstruction { pc } => {
                let mut s = String::from_str("illegal instruction at pc ");
                push_nat(&mut s, pc as u64);
                s
            },
            VmError::JumpOutOfBounds { pc, target } => {
                let mut s = String::from_str("jump at pc ");
                push_nat(&mut s, pc as u64);
                s.append(" targets out-of-bounds index ");
                push_int(&mut s, target);
                s
            },
            VmError::UnknownHelper { func } => {
                let mut s = String::from_str("unknown helper function ");
                push_nat(&mut s, func as u64);
                s.append(" (no helpers registered yet)");
                s
            },
            VmError::InvalidEndWidth { pc, width } => {
                let mut s = String::from_str("invalid BPF_END width ");
                push_int(&mut s, width);
                s.append(" at pc ");
                push_nat(&mut s, pc as u64);
                s
            },
            VmError::StepsExceeded { limit } => {
                let mut s = String::from_str("instruction limit of ");
                push_nat(&mut s, limit as u64);
                s.append(" steps exceeded");
                s
            },
            VmError::Memory(e) => e.to_string(),
        }
    }
}

/// Why an instruction is invalid by itself.
#[derive(Debug, Clone, Copy, PartialEq, Eq, Structural)]
pub enum TrapKind {
    /// Jump target outside the program.
    OobJump {
        /// Computed target slot.
        target: i64,
    },
    /// Invalid byte-swap width.
    BadEndWidth {
        /// Requested width.
        width: i64,
    },
    /// Unknown opcode, or a byte swap with a register source.
    Illegal,
}

/// Outcome of one interpreter step.
#[derive(Debug, Clone, Copy, PartialEq, Eq, Structural)]
pub enum StepResult {
    /// Execution continues.
    Continue,
    /// Program exited with `r0`.
    Exit(i64),
    /// Execution failed.
    Error(VmError),
}

/// Terminal outcome of [`Vm::run`].
pub type RunOutcome = Result<i64, VmError>;

/// A helper implementation: it reads its arguments from `r1` to `r5`, writes
/// `r0`, and advances the program counter past the call on success.
#[derive(Debug, Clone, Copy, PartialEq, Eq, Structural)]
pub enum HelperFn {
    /// Map lookup: `r1` descriptor, `r2` key pointer.
    MapLookup,
    /// Map update: `r1` descriptor, `r2` key pointer, `r3` value pointer,
    /// `r4` flags.
    MapUpdate,
    /// Map deletion: `r1` descriptor, `r2` key pointer.
    MapDelete,
    /// A helper that returns a fixed value.
    Constant(i64),
}

/// Registry of helper implementations, keyed by helper id.
///
/// Ids below four live in dense slots; higher ids use a sorted list with
/// binary search.
#[derive(Debug)]
pub struct HelperRegistry {
    low: [Option<HelperFn>; 4],
    high: Vec<(u32, HelperFn)>,
}

/// Whether a list of helpers is sorted by strictly growing ids.
spec fn sorted_by_id(s: Seq<(u32, HelperFn)>) -> bool {
    forall|i: int, j: int| 0 <= i < j < s.len() ==> (#[trigger] s[i]).0 < (#[trigger] s[j]).0
}

impl HelperRegistry {
    /// Invariant: the ids of the list are sorted and at least four.
    pub closed spec fn wf(&self) -> bool {
        &&& sorted_by_id(self.high@)
        &&& forall|i: int| 0 <= i < self.high@.len() ==> (#[trigger] self.high@[i]).0 >= 4
    }

    /// The helper registered under an id.
    pub closed spec fn helper(&self, func: u32) -> Option<HelperFn> {
        if func < 4 {
            self.low@[func as int]
        } else if exists|i: int| 0 <= i < self.high@.len() && (#[trigger] self.high@[i]).0 == func {
            let i = choose|i: int|
                0 <= i < self.high@.len() && (#[trigger] self.high@[i]).0 == func;
            Some(self.high@[i].1)
        } else {
            None
        }
    }

    /// Empty registry.
    pub fn empty() -> (r: Self)
        ensures
            r.wf(),
            forall|func: u32| #[trigger] r.helper(func) is None,
    {
        HelperRegistry { low: [None, None, None, None], high: Vec::new() }
    }

    /// Registry with the map helpers: lookup 1, update 2, delete 3.
    pub fn with_map_helpers() -> (r: Self)
        ensures
            r.wf(),
            forall|func: u32| #[trigger] r.helper(func) == map_helper(func),
    {
        let mut r = HelperRegistry::empty();
        r.insert(1, HelperFn::MapLookup);
        r.insert(2, HelperFn::MapUpdate);
        r.insert(3, HelperFn::MapDelete);
        r
    }

    /// First position of the list whose id is at least `func`.
    fn position(&self, func: u32) -> (r: usize)
        requires
            self.wf(),
        ensures
            r <= self.high@.len(),
            forall|i: int| 0 <= i < r ==> (#[trigger] self.high@[i]).0 < func,
            forall|i: int| r <= i < self.high@.len() ==> (#[trigger] self.high@[i]).0 >= func,
    {
        let mut lo: usize = 0;
        let mut hi: usize = self.high.len();
        while lo < hi
            invariant
                lo <= hi <= self.high@.len(),
                sorted_by_id(self.high@),
                forall|i: int| 0 <= i < lo ==> (#[trigger] self.high@[i]).0 < func,
                forall|i: int| hi <= i < self.high@.len() ==> (#[trigger] self.high@[i]).0 >= func,
            decreases hi - lo,
        {
            let mid: usize = lo + (hi - lo) / 2;
            if self.high[mid].0 < func {
                lo = mid + 1;
            } else {
                hi = mid;
            }
        }
        lo
    }

    /// Looks up a helper implementation.
    pub fn get(&self, func: u32) -> (r: Option<HelperFn>)
        requires
            self.wf(),
        ensures
            r == self.helper(func),
    {
        if func < 4 {
            return self.low[func as usize];
        }
        let i: usize = self.position(func);
        if i < self.high.len() && self.high[i].0 == func {
            Some(self.high[i].1)
        } else {
            None
        }
    }

    /// Registers one helper implementation.
    pub fn insert(&mut self, func: u32, helper: HelperFn)
        requires
            old(self).wf(),
        ensures
            final(self).wf(),
            forall|f: u32| #[trigger]
                final(self).helper(f) == (if f == func {
                    Some(helper)
                } else {
                    old(self).helper(f)
                }),
    {
        let ghost before = self.high@;
        if func < 4 {
            self.low[func as usize] = Some(helper);
            return;
        }
        let i: usize = self.position(func);
        if i < self.high.len() && self.high[i].0 == func {
            self.high.set(i, (func, helper));
            proof {
                assert forall|f: u32| #[trigger] self.helper(f) == (if f == func {
                    Some(helper)
                } else {
                    old(self).helper(f)
                }) by {
                    if f >= 4 {
                        assert(self.high@[i as int].0 == func);
                        assert forall|k: int| 0 <= k < before.len() implies #[trigger] before[k].0
                            == self.high@[k].0 by {}
                        if exists|k: int| 0 <= k < before.len() && (#[trigger] before[k]).0 == f {
                            let k = choose|k: int|
                                0 <= k < before.len() && (#[trigger] before[k]).0 == f;
                            assert(self.high@[k].0 == f);
                        }
                    }
                }
            }
        } else {
            self.high.insert(i, (func, helper));
            proof {
                let after = self.high@;
                assert forall|k: int| 0 <= k < after.len() implies (#[trigger] after[k])
                    == (if k < i {
                    before[k]
                } else if k == i {
                    (func, helper)
                } else {
                    before[k - 1]
                }) by {}
                assert forall|f: u32| #[trigger] self.helper(f) == (if f == func {
                    Some(helper)
                } else {
                    old(self).helper(f)
                }) by {
                    if f >= 4 {
                        assert(after[i as int].0 == func);
                        if exists|k: int| 0 <= k < before.len() && (#[trigger] before[k]).0 == f {
                            let k = choose|k: int|
                                0 <= k < before.len() && (#[trigger] before[k]).0 == f;
                            let k2 = if k < i {
                                k
                            } else {
                                k + 1
                            };
                            assert(after[k2].0 == f);
                        }
                        if exists|k: int| 0 <= k < after.len() && (#[trigger] after[k]).0 == f {
                            let k = choose|k: int|
                                0 <= k < after.len() && (#[trigger] after[k]).0 == f;
                            if k < i {
                                assert(before[k].0 == f);
                            } else if k > i {
                                assert(before[k - 1].0 == f);
                            }
                        }
                    }
                }
            }
        }
    }
}

impl Default for HelperRegistry {
    /// Empty registry.
    fn default() -> (r: Self)
        ensures
            r.wf(),
            forall|func: u32| #[trigger] r.helper(func) is None,
    {
        HelperRegistry::empty()
    }
}

/// The helper that the map registry holds under an id.
pub open spec fn map_helper(func: u32) -> Option<HelperFn> {
    if func == 1 {
        Some(HelperFn::MapLookup)
    } else if func == 2 {
        Some(HelperFn::MapUpdate)
    } else if func == 3 {
        Some(HelperFn::MapDelete)
    } else {
        None
    }
}

/// Register file `r0` to `r10`.
#[derive(Debug, Clone, Copy)]
pub struct Regs([i64; 11]);

impl View for Regs {
    type V = Seq<i64>;

    closed spec fn view(&self) -> Seq<i64> {
        self.0@
    }
}

/// Registers at program start: zero, with the frame pointer in `r10`.
pub open spec fn initial_regs() -> Seq<i64> {
    Seq::new(
        11,
        |i: int|
            if i == 10 {
                STACK_BASE
            } else {
                0i64
            },
    )
}

impl Regs {
    /// Zeroed registers with the frame pointer installed at `r10`.
    fn zeroed_with_frame_pointer() -> (r: Self)
        ensures
            r@ == initial_regs(),
    {
        let mut regs: [i64; 11] = [0i64; 11];
        regs[10] = STACK_BASE;
        let r = Regs(regs);
        assert(r@ =~= initial_regs());
        r
    }

    /// The value of a register.
    pub fn get(&self, r: Reg) -> (v: i64)
        requires
            r.valid(),
        ensures
            v == self@[r.0 as int],
    {
        self.0[r.index()]
    }

    /// Sets a register.
    fn set(&mut self, r: Reg, v: i64)
        requires
            r.valid(),
        ensures
            final(self)@ == old(self)@.update(r.0 as int, v),
    {
        self.0[r.index()] = v;
        assert(self@ =~= old(self)@.update(r.0 as int, v));
    }

    /// Sets a register unless it is the read-only frame pointer.
    fn assign(&mut self, r: Reg, v: i64)
        requires
            r.valid(),
        ensures
            final(self)@ == assigned(old(self)@, r, v),
    {
        if !r.is_frame_ptr() {
            self.set(r, v);
        }
    }

    /// The registers as an array.
    pub fn as_array(&self) -> (r: &[i64; 11])
        ensures
            r@ == self@,
    {
        &self.0
    }

    /// Iterates over all eleven registers in order.
    pub fn iter(&self) -> (r: core::slice::Iter<'_, i64>)
        ensures
            vstd::std_specs::iter::IteratorSpec::remaining(&r).unref() == self@,
    {
        let s: &[i64] = self.0.as_slice();
        s.iter()
    }
}

/// Registers after a write; writes to the frame pointer are ignored.
pub open spec fn assigned(regs: Seq<i64>, r: Reg, v: i64) -> Seq<i64> {
    if r.0 == 10 {
        regs
    } else {
        regs.update(r.0 as int, v)
    }
}

/// Contents of a machine.
#[verifier::ext_equal]
pub struct VmModel {
    /// Registers.
    pub regs: Seq<i64>,
    /// Program counter (instruction index).
    pub pc: usize,
    /// The program.
    pub insns: Seq<Insn>,
    /// The program in execution form.
    pub code: Seq<ExecInsn>,
    /// Memory.
    pub mem: MemModel,
    /// Registered helpers.
    pub helpers: spec_fn(u32) -> Option<HelperFn>,
    /// Maps by descriptor number.
    pub maps: Seq<Option<(DescModel, StoreModel)>>,
}

/// Whether a conditional jump is taken on register values: 32-bit jumps
/// compare the low words, and the call and exit nibbles are never taken.
pub open spec fn jump_condition(op: JumpOp, lhs: i64, rhs: i64, width: Width) -> bool {
    match width {
        Width::B64 => {
            let (l, r) = (lhs as u64, rhs as u64);
            match op {
                JumpOp::Always => true,
                JumpOp::Eq => l == r,
                JumpOp::Ne => l != r,
                JumpOp::Gt => l > r,
                JumpOp::Ge => l >= r,
                JumpOp::Lt => l < r,
                JumpOp::Le => l <= r,
                JumpOp::Sgt => lhs > rhs,
                JumpOp::Sge => lhs >= rhs,
                JumpOp::Slt => lhs < rhs,
                JumpOp::Sle => lhs <= rhs,
                JumpOp::Jset => l & r != 0,
                JumpOp::Call => false,
                JumpOp::Exit => false,
            }
        },
        Width::B32 => {
            let (l, r) = (lhs as u32, rhs as u32);
            match op {
                JumpOp::Always => true,
                JumpOp::Eq => l == r,
                JumpOp::Ne => l != r,
                JumpOp::Gt => l > r,
                JumpOp::Ge => l >= r,
                JumpOp::Lt => l < r,
                JumpOp::Le => l <= r,
                JumpOp::Sgt => l as i32 > r as i32,
                JumpOp::Sge => l as i32 >= r as i32,
                JumpOp::Slt => (l as i32) < r as i32,
                JumpOp::Sle => l as i32 <= r as i32,
                JumpOp::Jset => l & r != 0,
                JumpOp::Call => false,
                JumpOp::Exit => false,
            }
        },
    }
}

impl VmModel {
    /// The machine after writing `r0` and moving past the current
    /// instruction.
    pub open spec fn returned(self, value: i64) -> VmModel {
        VmModel { regs: self.regs.update(0, value), pc: (self.pc + 1) as usize, ..self }
    }

    /// The machine after writing a register and moving past the current
    /// instruction.
    pub open spec fn wrote(self, r: Reg, value: i64) -> VmModel {
        VmModel { regs: assigned(self.regs, r, value), pc: (self.pc + 1) as usize, ..self }
    }

    /// The map with a descriptor number.
    pub open spec fn map(self, fd: i64) -> Option<(DescModel, StoreModel)> {
        if 0 <= fd < self.maps.len() {
            self.maps[fd as int]
        } else {
            None
        }
    }

    /// The machine with new contents of a map.
    pub open spec fn with_map(self, fd: i64, desc: DescModel, store: StoreModel) -> VmModel {
        VmModel { maps: self.maps.update(fd as int, Some((desc, store))), ..self }
    }

    /// Map lookup: a hit is copied to the scratch area whose address comes
    /// back; a miss or a bad descriptor gives zero; a bad pointer faults.
    pub open spec fn map_lookup(self) -> (VmModel, StepResult) {
        let fd = self.regs[1];
        match self.map(fd) {
            None => (self.returned(0), StepResult::Continue),
            Some((desc, store)) => match self.mem.load_bytes(self.regs[2], desc.key_size as nat) {
                Err(e) => (self, StepResult::Error(VmError::Memory(e))),
                Ok(key) => {
                    let after = self.with_map(fd, desc, store.touched(desc, key));
                    match store.found(desc, key) {
                        Ok(Some(value)) => (
                            VmModel {
                                mem: MemModel { scratch: value, ..self.mem },
                                ..after
                            }.returned(MAP_SCRATCH_BASE),
                            StepResult::Continue,
                        ),
                        _ => (after.returned(0), StepResult::Continue),
                    }
                },
            },
        }
    }

    /// The flags word of a register value.
    pub open spec fn flags_word(v: i64) -> u64 {
        if v < 0 {
            u64::MAX
        } else {
            v as u64
        }
    }

    /// Map update: zero on success, minus one on any failure; a bad pointer
    /// faults.
    pub open spec fn map_update(self) -> (VmModel, StepResult) {
        let fd = self.regs[1];
        match self.map(fd) {
            None => (self.returned(-1i64), StepResult::Continue),
            Some((desc, store)) => match self.mem.load_bytes(self.regs[2], desc.key_size as nat) {
                Err(e) => (self, StepResult::Error(VmError::Memory(e))),
                Ok(key) => match self.mem.load_bytes(self.regs[3], desc.value_size as nat) {
                    Err(e) => (self, StepResult::Error(VmError::Memory(e))),
                    Ok(value) => {
                        let flags = VmModel::flags_word(self.regs[4]);
                        if store.update_error(desc, key, value, flags) is None {
                            (
                                self.with_map(
                                    fd,
                                    desc,
                                    store.updated(desc, key, value),
                                ).returned(0),
                                StepResult::Continue,
                            )
                        } else {
                            (self.returned(-1i64), StepResult::Continue)
                        }
                    },
                },
            },
        }
    }

    /// Map deletion, with the results of an update.
    pub open spec fn map_delete(self) -> (VmModel, StepResult) {
        let fd = self.regs[1];
        match self.map(fd) {
            None => (self.returned(-1i64), StepResult::Continue),
            Some((desc, store)) => match self.mem.load_bytes(self.regs[2], desc.key_size as nat) {
                Err(e) => (self, StepResult::Error(VmError::Memory(e))),
                Ok(key) => if store.delete_error(desc, key) is None {
                    (
                        self.with_map(fd, desc, store.deleted(desc, key)).returned(0),
                        StepResult::Continue,
                    )
                } else {
                    (self.returned(-1i64), StepResult::Continue)
                },
            },
        }
    }

    /// A helper call.
    pub open spec fn call(self, func: u32) -> (VmModel, StepResult) {
        match (self.helpers)(func) {
            None => (self, StepResult::Error(VmError::UnknownHelper { func })),
            Some(HelperFn::MapLookup) => self.map_lookup(),
            Some(HelperFn::MapUpdate) => self.map_update(),
            Some(HelperFn::MapDelete) => self.map_delete(),
            Some(HelperFn::Constant(v)) => (self.returned(v), StepResult::Continue),
        }
    }

    /// A load of a register.
    pub open spec fn load(self, size: MemSize, dst: Reg, base: Reg, offset: i16) -> (
        VmModel,
        StepResult,
    ) {
        let addr = self.regs[base.0 as int].wrapping_add(offset as i64);
        match self.mem.load(addr, size) {
            Ok(v) => (self.wrote(dst, v), StepResult::Continue),
            Err(e) => (self, StepResult::Error(VmError::Memory(e))),
        }
    }

    /// A store of a value.
    pub open spec fn store(self, size: MemSize, base: Reg, offset: i16, value: i64) -> (
        VmModel,
        StepResult,
    ) {
        let addr = self.regs[base.0 as int].wrapping_add(offset as i64);
        match self.mem.store_fault(addr, size) {
            None => (
                VmModel {
                    mem: self.mem.stored(addr, size, value),
                    pc: (self.pc + 1) as usize,
                    ..self
                },
                StepResult::Continue,
            ),
            Some(e) => (self, StepResult::Error(VmError::Memory(e))),
        }
    }

    /// A conditional jump.
    pub open spec fn jump(self, taken: bool, target: u32) -> (VmModel, StepResult) {
        (
            VmModel {
                pc: if taken {
                    target as usize
                } else {
                    (self.pc + 1) as usize
                },
                ..self
            },
            StepResult::Continue,
        )
    }

    /// One step: the machine after it and its outcome.
    pub open spec fn step(self) -> (VmModel, StepResult) {
        if self.pc >= self.code.len() {
            (
                self,
                StepResult::Error(
                    VmError::JumpOutOfBounds {
                        pc: self.pc,
                        target: if self.pc <= i64::MAX {
                            self.pc as i64
                        } else {
                            i64::MAX
                        },
                    },
                ),
            )
        } else {
            match self.code[self.pc as int] {
                ExecInsn::AluReg { width, op, dst, src } => (
                    self.wrote(
                        dst,
                        op.result(self.regs[dst.0 as int], self.regs[src.0 as int], width),
                    ),
                    StepResult::Continue,
                ),
                ExecInsn::AluImm { width, op, dst, imm } => (
                    self.wrote(dst, op.result(self.regs[dst.0 as int], imm as i64, width)),
                    StepResult::Continue,
                ),
                ExecInsn::LoadImm64 { dst, imm } => (self.wrote(dst, imm), StepResult::Continue),
                ExecInsn::Load { size, dst, base, offset } => self.load(size, dst, base, offset),
                ExecInsn::StoreReg { size, base, offset, src } => self.store(
                    size,
                    base,
                    offset,
                    self.regs[src.0 as int],
                ),
                ExecInsn::StoreImm { size, base, offset, imm } => self.store(
                    size,
                    base,
                    offset,
                    imm as i64,
                ),
                ExecInsn::JumpReg { width, op, dst, src, target } => self.jump(
                    jump_condition(op, self.regs[dst.0 as int], self.regs[src.0 as int], width),
                    target,
                ),
                ExecInsn::JumpImm { width, op, dst, imm, target } => self.jump(
                    jump_condition(op, self.regs[dst.0 as int], imm as i64, width),
                    target,
                ),
                ExecInsn::JumpAlways { target } => self.jump(true, target),
                ExecInsn::Call { func } => self.call(func),
                ExecInsn::Exit => (self, StepResult::Exit(self.regs[0])),
                ExecInsn::Trap(kind) => (self, StepResult::Error(kind.error(self.pc))),
            }
        }
    }

    /// A run of at most `fuel` steps: the machine after it and its outcome.
    pub open spec fn run(self, fuel: nat, limit: usize) -> (VmModel, RunOutcome)
        decreases fuel,
    {
        if fuel == 0 {
            (self, Err(VmError::StepsExceeded { limit }))
        } else {
            let (next, outcome) = self.step();
            match outcome {
                StepResult::Continue => next.run((fuel - 1) as nat, limit),
                StepResult::Exit(code) => (next, Ok(code)),
                StepResult::Error(e) => (next, Err(e)),
            }
        }
    }

    /// The machine with a packet loaded and the context pointer in `r1`.
    pub open spec fn with_xdp_packet(self, packet: Seq<u8>) -> VmModel {
        VmModel {
            mem: self.mem.with_packet(packet),
            regs: self.regs.update(1, XDP_MD_BASE),
            ..self
        }
    }

    /// A machine at program start.
    pub open spec fn initial(
        insns: Seq<Insn>,
        helpers: spec_fn(u32) -> Option<HelperFn>,
        maps: Seq<Option<(DescModel, StoreModel)>>,
    ) -> VmModel {
        VmModel {
            regs: initial_regs(),
            pc: 0,
            insns,
            code: loaded(insns),
            mem: MemModel::fresh(),
            helpers,
            maps,
        }
    }
}

/// The contents of a map table.
pub open spec fn tables_of(maps: Seq<Option<MapStore>>) -> Seq<Option<(DescModel, StoreModel)>> {
    maps.map_values(
        |m: Option<MapStore>|
            match m {
                Some(s) => Some((s.descriptor()@, s@)),
                None => None,
            },
    )
}

/// Whether every store of a map table keeps its invariant.
pub open spec fn stores_wf(maps: Seq<Option<MapStore>>) -> bool {
    forall|i: int| 0 <= i < maps.len() ==> ((#[trigger] maps[i]) matches Some(s) ==> s.wf())
}

/// Whether a program can be given to a machine: its registers are valid and
/// its slots can be numbered.
pub open spec fn runnable(insns: Seq<Insn>) -> bool {
    &&& slot_count(insns) <= u32::MAX
    &&& forall|i: int| 0 <= i < insns.len() ==> (#[trigger] insns[i]).valid()
}

/// The interpreter: registers, program counter, memory and helpers.
#[derive(Debug)]
pub struct Vm {
    regs: Regs,
    pc: usize,
    insns: Vec<Insn>,
    code: Vec<ExecInsn>,
    memory: MemoryView,
    helpers: HelperRegistry,
    maps: Vec<Option<MapStore>>,
}

impl View for Vm {
    type V = VmModel;

    closed spec fn view(&self) -> VmModel {
        VmModel {
            regs: self.regs@,
            pc: self.pc,
            insns: self.insns@,
            code: self.code@,
            mem: self.memory@,
            helpers: |func: u32| self.helpers.helper(func),
            maps: tables_of(self.maps@),
        }
    }
}

impl Vm {
    /// Invariant: every instruction can be stepped and the helpers and maps
    /// keep their invariants.
    pub closed spec fn wf(&self) -> bool {
        &&& forall|i: int| 0 <= i < self.code@.len() ==> (#[trigger] self.code@[i]).valid()
        &&& self.helpers.wf()
        &&& stores_wf(self.maps@)
        &&& self.regs@.len() == 11
    }

    /// New machine: registers zeroed, `r10` at the stack base, no helpers.
    pub fn new(insns: Vec<Insn>) -> (r: Self)
        requires
            runnable(insns@),
        ensures
            r.wf(),
            r@ == VmModel::initial(insns@, |func: u32| None, Seq::empty()),
    {
        let code = load(insns.as_slice());
        proof {
            loaded_is_valid(insns@);
        }
        let r = Vm {
            regs: Regs::zeroed_with_frame_pointer(),
            pc: 0,
            insns,
            code,
            memory: MemoryView::default(),
            helpers: HelperRegistry::empty(),
            maps: Vec::new(),
        };
        assert(r@ =~= VmModel::initial(insns@, |func: u32| None, Seq::empty()));
        r
    }

    /// New machine with map helpers registered and maps built from `descs`.
    pub fn new_with_maps(insns: Vec<Insn>, descs: Vec<MapDesc>) -> (r: Result<Self, MapError>)
        requires
            runnable(insns@),
            forall|i: int| 0 <= i < descs@.len() ==> ascending((#[trigger] descs@[i])@.initial),
        ensures
            match r {
                Ok(vm) => {
                    &&& stores_error(descs_of(descs@)) is None
                    &&& vm.wf()
                    &&& exists|maps: Seq<Option<MapStore>>|
                        {
                            &&& maps.len() == (if descs@.len() == 0 {
                                0
                            } else {
                                max_fd(descs_of(descs@)) + 1
                            })
                            &&& forall|fd: int|
                                0 <= fd < maps.len() ==> entry_matches(
                                    #[trigger] maps[fd],
                                    fd,
                                    descs_of(descs@),
                                    descs@.len(),
                                )
                            &&& vm@ == VmModel::initial(
                                insns@,
                                |func: u32| map_helper(func),
                                #[trigger] tables_of(maps),
                            )
                        }
                },
                Err(e) => stores_error(descs_of(descs@)) == Some(e@),
            },
    {
        match build_stores(descs) {
            Ok(maps) => {
                proof {
                    assert forall|i: int| 0 <= i < maps@.len() implies ((#[trigger] maps@[i])
                        matches Some(s) ==> s.wf()) by {
                        assert(entry_matches(maps@[i], i, descs_of(descs@), descs@.len()));
                    }
                }
                Ok(Vm::new_with_stores(insns, maps))
            },
            Err(e) => Err(e),
        }
    }

    /// New machine with map stores installed and map helpers registered.
    pub fn new_with_stores(insns: Vec<Insn>, maps: Vec<Option<MapStore>>) -> (r: Self)
        requires
            runnable(insns@),
            stores_wf(maps@),
        ensures
            r.wf(),
            r@ == VmModel::initial(insns@, |func: u32| map_helper(func), tables_of(maps@)),
    {
        let code = load(insns.as_slice());
        proof {
            loaded_is_valid(insns@);
        }
        let r = Vm {
            regs: Regs::zeroed_with_frame_pointer(),
            pc: 0,
            insns,
            code,
            memory: MemoryView::default(),
            helpers: HelperRegistry::with_map_helpers(),
            maps,
        };
        assert(r@ =~= VmModel::initial(insns@, |func: u32| map_helper(func), tables_of(maps@)));
        r
    }

    /// Builds a machine from an instruction stream that was lowered before.
    pub fn from_exec(insns: Vec<Insn>, code: Vec<ExecInsn>) -> (r: Self)
        requires
            forall|i: int| 0 <= i < code@.len() ==> (#[trigger] code@[i]).valid(),
        ensures
            r.wf(),
            r@ == (VmModel {
                code: code@,
                ..VmModel::initial(insns@, |func: u32| None, Seq::empty())
            }),
    {
        let r = Vm {
            regs: Regs::zeroed_with_frame_pointer(),
            pc: 0,
            insns,
            code,
            memory: MemoryView::default(),
            helpers: HelperRegistry::empty(),
            maps: Vec::new(),
        };
        assert(r@ =~= (VmModel {
            code: code@,
            ..VmModel::initial(insns@, |func: u32| None, Seq::empty())
        }));
        r
    }

    /// Attaches a helper registry.
    pub fn with_helpers(self, helpers: HelperRegistry) -> (r: Self)
        requires
            self.wf(),
            helpers.wf(),
        ensures
            r.wf(),
            r@ == (VmModel { helpers: |func: u32| helpers.helper(func), ..self@ }),
    {
        let mut r = self;
        r.helpers = helpers;
        assert(r@ =~= (VmModel { helpers: |func: u32| helpers.helper(func), ..self@ }));
        r
    }

    /// Current register file.
    pub fn regs(&self) -> (r: &Regs)
        ensures
            r@ == self@.regs,
    {
        &self.regs
    }

    /// Installs a packet and points `r1` at its context.
    pub fn install_xdp_packet(&mut self, packet: PacketBuffer)
        requires
            old(self).wf(),
        ensures
            final(self).wf(),
            final(self)@ == old(self)@.with_xdp_packet(packet@),
    {
        self.memory.set_packet(packet);
        self.regs.set(Reg(1), XDP_MD_BASE);
        assert(self@ =~= old(self)@.with_xdp_packet(packet@));
    }

    /// Current program counter.
    pub fn pc(&self) -> (r: usize)
        ensures
            r == self@.pc,
    {
        self.pc
    }

    /// The program under execution.
    pub fn insns(&self) -> (r: &[Insn])
        ensures
            r@ == self@.insns,
    {
        self.insns.as_slice()
    }

    /// The store with a descriptor number.
    fn map_store(&self, fd: i64) -> (r: Option<&MapStore>)
        requires
            self.wf(),
        ensures
            match r {
                Some(s) => {
                    &&& s.wf()
                    &&& 0 <= fd < self.maps@.len() <= usize::MAX
                    &&& self.maps@[fd as int] == Some(*s)
                    &&& self@.map(fd) == Some((s.descriptor()@, s@))
                },
                None => self@.map(fd) is None,
            },
    {
        if fd < 0 || fd as u64 >= self.maps.len() as u64 {
            return None;
        }
        let i: usize = fd as usize;
        assert(tables_of(self.maps@)[i as int] == self@.maps[i as int]);
        match &self.maps[i] {
            Some(s) => Some(s),
            None => None,
        }
    }

    /// Reads `len` bytes of guest memory.
    fn read_guest_bytes(&self, addr: i64, len: usize) -> (r: Result<Vec<u8>, VmError>)
        ensures
            match r {
                Ok(bytes) => self@.mem.load_bytes(addr, len as nat) == Ok::<Seq<u8>, MemError>(
                    bytes@,
                ),
                Err(e) => exists|m: MemError|
                    e == VmError::Memory(m) && #[trigger] self@.mem.load_bytes(addr, len as nat)
                        == Err::<Seq<u8>, MemError>(m),
            },
    {
        match self.memory.load_bytes(addr, len) {
            Ok(bytes) => Ok(bytes),
            Err(e) => Err(VmError::Memory(e)),
        }
    }

    /// Writes `r0` and moves past the current instruction.
    fn finish_call(&mut self, value: i64)
        requires
            old(self).wf(),
            old(self)@.pc < usize::MAX,
        ensures
            final(self).wf(),
            final(self)@ == old(self)@.returned(value),
            final(self).maps == old(self).maps,
    {
        self.regs.set(Reg(0), value);
        self.pc = self.pc + 1;
        assert(self@ =~= old(self)@.returned(value));
    }

    /// Map lookup helper.
    fn helper_map_lookup(&mut self) -> (r: StepResult)
        requires
            old(self).wf(),
            old(self)@.pc < usize::MAX,
        ensures
            final(self).wf(),
            (final(self)@, r) == old(self)@.map_lookup(),
    {
        let fd: i64 = self.regs.get(Reg(1));
        let key_ptr: i64 = self.regs.get(Reg(2));
        let key_size: usize = match self.map_store(fd) {
            Some(s) => s.desc().key_size,
            None => {
                self.finish_call(0);
                return StepResult::Continue;
            },
        };
        let key = match self.read_guest_bytes(key_ptr, key_size) {
            Ok(key) => key,
            Err(e) => {
                return StepResult::Error(e);
            },
        };
        let ghost before = self.maps@;
        let i: usize = fd as usize;
        let hit: Option<Vec<u8>> = match &mut self.maps[i] {
            Some(store) => match store.lookup(key.as_slice()) {
                Ok(Some(v)) => Some(vstd::slice::slice_to_vec(v)),
                _ => None,
            },
            None => None,
        };
        proof {
            let (desc, store) = old(self)@.map(fd)->0;
            let after = old(self)@.with_map(fd, desc, store.touched(desc, key@));
            assert(self.maps@.len() == before.len());
            assert forall|k: int| 0 <= k < before.len() implies #[trigger] tables_of(self.maps@)[k]
                == after.maps[k] by {
                assert(old(self)@.maps[k] == tables_of(before)[k]);
                if k != i {
                    assert(self.maps@[k] == before[k]);
                }
            }
            assert(tables_of(self.maps@) =~= after.maps);
            assert(self@ =~= after);
        }
        match hit {
            Some(value) => {
                self.memory.set_map_scratch(value);
                proof {
                    let (desc, store) = old(self)@.map(fd)->0;
                    let after = old(self)@.with_map(fd, desc, store.touched(desc, key@));
                    assert(self@ =~= (VmModel {
                        mem: MemModel { scratch: value@, ..old(self)@.mem },
                        ..after
                    }));
                }
                self.finish_call(MAP_SCRATCH_BASE);
            },
            None => {
                self.finish_call(0);
            },
        }
        StepResult::Continue
    }

    /// Map update helper.
    fn helper_map_update(&mut self) -> (r: StepResult)
        requires
            old(self).wf(),
            old(self)@.pc < usize::MAX,
        ensures
            final(self).wf(),
            (final(self)@, r) == old(self)@.map_update(),
    {
        let fd: i64 = self.regs.get(Reg(1));
        let key_ptr: i64 = self.regs.get(Reg(2));
        let val_ptr: i64 = self.regs.get(Reg(3));
        let flags: i64 = self.regs.get(Reg(4));
        let (key_size, value_size) = match self.map_store(fd) {
            Some(s) => (s.desc().key_size, s.desc().value_size),
            None => {
                self.finish_call(-1);
                return StepResult::Continue;
            },
        };
        let key = match self.read_guest_bytes(key_ptr, key_size) {
            Ok(key) => key,
            Err(e) => {
                return StepResult::Error(e);
            },
        };
        let value = match self.read_guest_bytes(val_ptr, value_size) {
            Ok(value) => value,
            Err(e) => {
                return StepResult::Error(e);
            },
        };
        let word: u64 = if flags < 0 {
            u64::MAX
        } else {
            flags as u64
        };
        let ghost before = self.maps@;
        let i: usize = fd as usize;
        let ok: bool = match &mut self.maps[i] {
            Some(store) => store.update(key.as_slice(), value.as_slice(), word).is_ok(),
            None => false,
        };
        proof {
            let (desc, store) = old(self)@.map(fd)->0;
            if ok {
                let after = old(self)@.with_map(fd, desc, store.updated(desc, key@, value@));

                assert(self.maps@.len() == before.len());
            assert forall|k: int| 0 <= k < before.len() implies #[trigger] tables_of(self.maps@)[k]
                == after.maps[k] by {
                assert(old(self)@.maps[k] == tables_of(before)[k]);
                if k != i {
                    assert(self.maps@[k] == before[k]);
                }
            }
            assert(tables_of(self.maps@) =~= after.maps);
                assert(self@ =~= after);
            } else {
                assert(tables_of(self.maps@) =~= old(self)@.maps);
                assert(self@ =~= old(self)@);
            }
        }
        let code: i64 = if ok {
            0
        } else {
            -1
        };
        self.finish_call(code);
        StepResult::Continue
    }

    /// Map deletion helper.
    fn helper_map_delete(&mut self) -> (r: StepResult)
        requires
            old(self).wf(),
            old(self)@.pc < usize::MAX,
        ensures
            final(self).wf(),
            (final(self)@, r) == old(self)@.map_delete(),
    {
        let fd: i64 = self.regs.get(Reg(1));
        let key_ptr: i64 = self.regs.get(Reg(2));
        let key_size: usize = match self.map_store(fd) {
            Some(s) => s.desc().key_size,
            None => {
                self.finish_call(-1);
                return StepResult::Continue;
            },
        };
        let key = match self.read_guest_bytes(key_ptr, key_size) {
            Ok(key) => key,
            Err(e) => {
                return StepResult::Error(e);
            },
        };
        let ghost before = self.maps@;
        let i: usize = fd as usize;
        let ok: bool = match &mut self.maps[i] {
            Some(store) => store.delete(key.as_slice()).is_ok(),
            None => false,
        };
        proof {
            let (desc, store) = old(self)@.map(fd)->0;
            if ok {
                let after = old(self)@.with_map(fd, desc, store.deleted(desc, key@));
                assert(self.maps@.len() == before.len());
            assert forall|k: int| 0 <= k < before.len() implies #[trigger] tables_of(self.maps@)[k]
                == after.maps[k] by {
                assert(old(self)@.maps[k] == tables_of(before)[k]);
                if k != i {
                    assert(self.maps@[k] == before[k]);
                }
            }
            assert(tables_of(self.maps@) =~= after.maps);
                assert(self@ =~= after);
            } else {
                assert(tables_of(self.maps@) =~= old(self)@.maps);
                assert(self@ =~= old(self)@);
            }
        }
        let code: i64 = if ok {
            0
        } else {
            -1
        };
        self.finish_call(code);
        StepResult::Continue
    }

    fn dispatch_helper(&mut self, func: u32) -> (r: StepResult)
        requires
            old(self).wf(),
            old(self)@.pc < usize::MAX,
        ensures
            final(self).wf(),
            (final(self)@, r) == old(self)@.call(func),
    {
        match self.helpers.get(func) {
            None => StepResult::Error(VmError::UnknownHelper { func }),
            Some(HelperFn::MapLookup) => self.helper_map_lookup(),
            Some(HelperFn::MapUpdate) => self.helper_map_update(),
            Some(HelperFn::MapDelete) => self.helper_map_delete(),
            Some(HelperFn::Constant(v)) => {
                self.finish_call(v);
                StepResult::Continue
            },
        }
    }

    /// Writes a register and moves past the current instruction.
    fn finish_write(&mut self, dst: Reg, value: i64)
        requires
            old(self).wf(),
            old(self)@.pc < usize::MAX,
            dst.valid(),
        ensures
            final(self).wf(),
            final(self)@ == old(self)@.wrote(dst, value),
    {
        self.regs.assign(dst, value);
        self.pc = self.pc + 1;
        assert(self@ =~= old(self)@.wrote(dst, value));
    }

    fn step_load(&mut self, size: MemSize, dst: Reg, base: Reg, offset: i16) -> (r: StepResult)
        requires
            old(self).wf(),
            old(self)@.pc < usize::MAX,
            dst.valid(),
            base.valid(),
        ensures
            final(self).wf(),
            (final(self)@, r) == old(self)@.load(size, dst, base, offset),
    {
        let addr: i64 = self.regs.get(base).wrapping_add(offset as i64);
        match self.memory.load(addr, size) {
            Ok(v) => {
                self.finish_write(dst, v);
                StepResult::Continue
            },
            Err(e) => StepResult::Error(VmError::Memory(e)),
        }
    }

    fn step_store(&mut self, size: MemSize, base: Reg, offset: i16, value: i64) -> (r: StepResult)
        requires
            old(self).wf(),
            old(self)@.pc < usize::MAX,
            base.valid(),
        ensures
            final(self).wf(),
            (final(self)@, r) == old(self)@.store(size, base, offset, value),
    {
        let addr: i64 = self.regs.get(base).wrapping_add(offset as i64);
        match self.memory.store(addr, size, value) {
            Ok(()) => {
                self.pc = self.pc + 1;
                assert(self@ =~= old(self)@.store(size, base, offset, value).0);
                StepResult::Continue
            },
            Err(e) => {
                assert(self@ =~= old(self)@);
                StepResult::Error(VmError::Memory(e))
            },
        }
    }

    fn step_jump(&mut self, taken: bool, target: u32) -> (r: StepResult)
        requires
            old(self).wf(),
            old(self)@.pc < usize::MAX,
        ensures
            final(self).wf(),
            (final(self)@, r) == old(self)@.jump(taken, target),
    {
        if taken {
            self.pc = target as usize;
        } else {
            self.pc = self.pc + 1;
        }
        assert(self@ =~= old(self)@.jump(taken, target).0);
        StepResult::Continue
    }

    /// Executes one instruction.
    pub fn step(&mut self) -> (r: StepResult)
        requires
            old(self).wf(),
        ensures
            final(self).wf(),
            (final(self)@, r) == old(self)@.step(),
    {
        if self.pc >= self.code.len() {
            let target: i64 = if self.pc as u64 <= i64::MAX as u64 {
                self.pc as i64
            } else {
                i64::MAX
            };
            return StepResult::Error(VmError::JumpOutOfBounds { pc: self.pc, target });
        }
        let insn = self.code[self.pc];
        assert(self.code@[self.pc as int].valid());
        match insn {
            ExecInsn::AluReg { width, op, dst, src } => {
                let result: i64 = op.apply(self.regs.get(dst), self.regs.get(src), width);
                self.finish_write(dst, result);
                StepResult::Continue
            },
            ExecInsn::AluImm { width, op, dst, imm } => {
                let result: i64 = op.apply(self.regs.get(dst), imm as i64, width);
                self.finish_write(dst, result);
                StepResult::Continue
            },
            ExecInsn::LoadImm64 { dst, imm } => {
                self.finish_write(dst, imm);
                StepResult::Continue
            },
            ExecInsn::Load { size, dst, base, offset } => self.step_load(size, dst, base, offset),
            ExecInsn::StoreReg { size, base, offset, src } => {
                let value: i64 = self.regs.get(src);
                self.step_store(size, base, offset, value)
            },
            ExecInsn::StoreImm { size, base, offset, imm } => self.step_store(
                size,
                base,
                offset,
                imm as i64,
            ),
            ExecInsn::JumpReg { width, op, dst, src, target } => {
                let taken = jump_taken(op, self.regs.get(dst), self.regs.get(src), width);
                self.step_jump(taken, target)
            },
            ExecInsn::JumpImm { width, op, dst, imm, target } => {
                let taken = jump_taken(op, self.regs.get(dst), imm as i64, width);
                self.step_jump(taken, target)
            },
            ExecInsn::JumpAlways { target } => self.step_jump(true, target),
            ExecInsn::Call { func } => self.dispatch_helper(func),
            ExecInsn::Exit => StepResult::Exit(self.regs.get(Reg(0))),
            ExecInsn::Trap(kind) => StepResult::Error(kind.into_error(self.pc)),
        }
    }

    /// Runs to completion or error within a step budget.
    pub fn run(&mut self, max_steps: usize) -> (r: RunOutcome)
        requires
            old(self).wf(),
        ensures
            final(self).wf(),
            (final(self)@, r) == old(self)@.run(max_steps as nat, max_steps),
    {
        let mut left: usize = max_steps;
        while left > 0
            invariant
                left <= max_steps,
                self.wf(),
                self@.run(left as nat, max_steps) == old(self)@.run(max_steps as nat, max_steps),
            decreases left,
        {
            match self.step() {
                StepResult::Continue => {},
                StepResult::Exit(code) => {
                    return Ok(code);
                },
                StepResult::Error(e) => {
                    return Err(e);
                },
            }
            left = left - 1;
        }
        Err(VmError::StepsExceeded { limit: max_steps })
    }
}

/// Evaluates a conditional jump on register values.
pub fn jump_taken(op: JumpOp, lhs: i64, rhs: i64, width: Width) -> (r: bool)
    ensures
        r == jump_condition(op, lhs, rhs, width),
{
    match width {
        Width::B64 => jump_taken_64(op, lhs, rhs),
        Width::B32 => jump_taken_32(op, lhs, rhs),
    }
}

/// 64-bit comparisons.
fn jump_taken_64(op: JumpOp, lhs: i64, rhs: i64) -> (r: bool)
    ensures
        r == jump_condition(op, lhs, rhs, Width::B64),
{
    let l: u64 = lhs as u64;
    let r: u64 = rhs as u64;
    match op {
        JumpOp::Always => true,
        JumpOp::Eq => l == r,
        JumpOp::Ne => l != r,
        JumpOp::Gt => l > r,
        JumpOp::Ge => l >= r,
        JumpOp::Lt => l < r,
        JumpOp::Le => l <= r,
        JumpOp::Sgt => lhs > rhs,
        JumpOp::Sge => lhs >= rhs,
        JumpOp::Slt => lhs < rhs,
        JumpOp::Sle => lhs <= rhs,
        JumpOp::Jset => l & r != 0,
        JumpOp::Call | JumpOp::Exit => false,
    }
}

/// 32-bit comparisons over the low words.
fn jump_taken_32(op: JumpOp, lhs: i64, rhs: i64) -> (r: bool)
    ensures
        r == jump_condition(op, lhs, rhs, Width::B32),
{
    let l: u32 = lhs as u32;
    let r: u32 = rhs as u32;
    match op {
        JumpOp::Always => true,
        JumpOp::Eq => l == r,
        JumpOp::Ne => l != r,
        JumpOp::Gt => l > r,
        JumpOp::Ge => l >= r,
        JumpOp::Lt => l < r,
        JumpOp::Le => l <= r,
        JumpOp::Sgt => l as i32 > r as i32,
        JumpOp::Sge => l as i32 >= r as i32,
        JumpOp::Slt => (l as i32) < r as i32,
        JumpOp::Sle => l as i32 <= r as i32,
        JumpOp::Jset => l & r != 0,
        JumpOp::Call | JumpOp::Exit => false,
    }
}

/// Builds a machine over raw bytes and runs it.
pub fn run_bytes(bytes: &[u8], max_steps: usize) -> (r: Result<RunOutcome, DecodeError>)
    requires
        bytes@.len() <= 8 * u32::MAX,
    ensures
        match decoded(bytes@) {
            Ok(insns) => r == Ok::<RunOutcome, DecodeError>(
                VmModel::initial(insns, |func: u32| None, Seq::empty()).run(
                    max_steps as nat,
                    max_steps,
                ).1,
            ),
            Err(e) => r == Err::<RunOutcome, DecodeError>(e),
        },
{
    match decode_program(bytes) {
        Ok(insns) => {
            proof {
                decoded_is_valid(bytes@);
                lemma_decoded_slots(bytes@);
            }
            let mut vm = Vm::new(insns);
            Ok(vm.run(max_steps))
        },
        Err(e) => Err(e),
    }
}

/// A decoded program has one slot for every eight bytes.
proof fn lemma_decoded_slots(bytes: Seq<u8>)
    ensures
        decoded(bytes) matches Ok(insns) ==> 8 * slot_count(insns) == bytes.len(),
    decreases bytes.len(),
{
    if bytes.len() >= 8 {
        let raw = RawInsn::of_bytes(bytes.subrange(0, 8));
        if let Ok((insn, used)) = head_of(raw, bytes) {
            if used != 0 && used <= bytes.len() {
                lemma_decoded_slots(bytes.skip(used as int));
                if let Ok(rest) = decoded(bytes.skip(used as int)) {
                    lemma_slots_prepend(insn, rest, rest.len());
                }
            }
        }
    }
}

proof fn lemma_slots_prepend(insn: Insn, rest: Seq<Insn>, n: nat)
    requires
        n <= rest.len(),
    ensures
        slot_of(seq![insn] + rest, n + 1) == width_of(insn) + slot_of(rest, n),
    decreases n,
{
    let all = seq![insn] + rest;
    if n == 0 {
        reveal_with_fuel(slot_of, 2);
    } else {
        lemma_slots_prepend(insn, rest, (n - 1) as nat);
        assert(all[n as int] == rest[n - 1]);
    }
}

/// A step keeps the frame pointer, the program and the helpers.
pub proof fn step_keeps_frame_pointer(vm: VmModel)
    requires
        vm.regs.len() == 11,
        forall|i: int| 0 <= i < vm.code.len() ==> (#[trigger] vm.code[i]).valid(),
    ensures
        vm.step().0.regs.len() == 11,
        vm.step().0.regs[10] == vm.regs[10],
        vm.step().0.code == vm.code,
        vm.step().0.helpers == vm.helpers,
{
    if vm.pc < vm.code.len() {
        assert(vm.code[vm.pc as int].valid());
    }
}

/// A run keeps the frame pointer.
pub proof fn run_keeps_frame_pointer(vm: VmModel, fuel: nat, limit: usize)
    requires
        vm.regs.len() == 11,
        forall|i: int| 0 <= i < vm.code.len() ==> (#[trigger] vm.code[i]).valid(),
    ensures
        vm.run(fuel, limit).0.regs[10] == vm.regs[10],
    decreases fuel,
{
    if fuel > 0 {
        step_keeps_frame_pointer(vm);
        let (next, outcome) = vm.step();
        if outcome == StepResult::Continue {
            run_keeps_frame_pointer(next, (fuel - 1) as nat, limit);
        }
    }
}

} // verus!
