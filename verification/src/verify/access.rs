//! Checks of memory accesses against the abstract state: stack, map values,
//! packet and packet context. Bounds come before alignment.
use vstd::prelude::*;

use crate::isa::insn::{MemSize, Reg};
use crate::verify::state::{Range, RegType, StateModel, VerifierState, STACK_BYTES_I32};
use crate::verify::VerifyError;
use crate::vm::memory::{PACKET_BASE, XDP_MD_LEN};

verus! {

/// Whether a register was written.
pub open spec fn init_check(s: StateModel, r: Reg, pc: usize) -> Result<(), VerifyError> {
    if s.regs[r.0 as int] == RegType::NotInit {
        Err(VerifyError::UninitRegister { pc, reg: r.0 })
    } else {
        Ok(())
    }
}

/// The stack offset of a register that must be a stack pointer.
pub open spec fn stack_base(s: StateModel, r: Reg, pc: usize) -> Result<i32, VerifyError> {
    match s.regs[r.0 as int] {
        RegType::StackPtr { offset } => Ok(offset),
        RegType::NotInit => Err(VerifyError::UninitRegister { pc, reg: r.0 }),
        RegType::Scalar(_) => Err(mismatch(r, pc, "scalar")),
        RegType::MapPtr { .. } => Err(mismatch(r, pc, "map pointer")),
        RegType::MaybeMapPtr { .. } => Err(mismatch(r, pc, "nullable map pointer")),
        RegType::XdpMdPtr => Err(mismatch(r, pc, "xdp context pointer")),
        RegType::PacketPtr { .. } => Err(mismatch(r, pc, "packet pointer")),
    }
}

/// The error for a register that is no stack pointer.
pub open spec fn mismatch(r: Reg, pc: usize, found: &'static str) -> VerifyError {
    VerifyError::TypeMismatch { pc, register: r.0, expected: "stack pointer", found }
}

/// The stack bytes of an access: its offset from the frame pointer, and the
/// numbers of its first and last byte.
pub open spec fn span(base_off: i32, offset: i16, width: u8, pc: usize) -> Result<
    (i32, int, int),
    VerifyError,
> {
    let start = base_off + offset;
    let end = start + width;
    if start < -512 || end > 0 || end < -511 {
        Err(VerifyError::StackOverflow { pc })
    } else {
        Ok((start as i32, start + 512, end + 511))
    }
}

/// The stack bytes of a load or store.
pub open spec fn stack_access(
    s: StateModel,
    base: Reg,
    offset: i16,
    size: MemSize,
    pc: usize,
) -> Result<(i32, int, int), VerifyError> {
    let n = size.len() as u8;
    match stack_base(s, base, pc) {
        Err(e) => Err(e),
        Ok(base_off) => match span(base_off, offset, n, pc) {
            Err(e) => Err(e),
            Ok(bytes) => if (base_off + offset) % n as int != 0 {
                Err(VerifyError::MisalignedAccess { pc, offset: bytes.0, size: n })
            } else {
                Ok(bytes)
            },
        },
    }
}

/// Whether `size` bytes at a stack pointer can be read.
pub open spec fn argument_check(s: StateModel, r: Reg, size: usize, pc: usize) -> Result<
    (),
    VerifyError,
> {
    match stack_base(s, r, pc) {
        Err(e) => Err(e),
        Ok(base_off) => if size > 255 {
            Err(VerifyError::StackOverflow { pc })
        } else {
            match span(base_off, 0, size as u8, pc) {
                Err(e) => Err(e),
                Ok((start, lo, hi)) => if s.readable(lo, hi) {
                    Ok(())
                } else {
                    Err(VerifyError::UninitStackRead { pc, offset: start })
                },
            }
        },
    }
}

/// The map of a base register that points to a map value.
pub open spec fn value_map(s: StateModel, base: Reg, pc: usize) -> Result<
    Option<i64>,
    VerifyError,
> {
    match s.regs[base.0 as int] {
        RegType::MapPtr { fd } => Ok(Some(fd)),
        RegType::MaybeMapPtr { fd } => Err(
            VerifyError::NullMapPtrAccess { pc, register: base.0, fd },
        ),
        _ => Ok(None),
    }
}

/// Whether an access stays inside a map value and is aligned.
pub open spec fn value_check(s: StateModel, fd: i64, offset: i16, size: MemSize, pc: usize) -> Result<
    (),
    VerifyError,
> {
    let n = size.len() as u8;
    match s.desc(fd) {
        None => Err(VerifyError::BadMapFd { pc, fd }),
        Some(desc) => if offset < 0 || offset + n > desc.value_size {
            Err(
                VerifyError::MapValueOutOfBounds {
                    pc,
                    fd,
                    offset: offset as i32,
                    size: n,
                    value_size: desc.value_size,
                },
            )
        } else if offset as int % n as int != 0 {
            Err(VerifyError::MisalignedAccess { pc, offset: offset as i32, size: n })
        } else {
            Ok(())
        },
    }
}

/// What a load from the packet context gives: the packet start, the packet
/// end, or an unknown number.
pub open spec fn context_load(s: StateModel, offset: i16, size: MemSize, pc: usize) -> Result<
    RegType,
    VerifyError,
> {
    let n = size.len() as u8;
    match s.packet_len {
        None => Err(VerifyError::NoPacketContext { pc }),
        Some(packet_len) => if offset < 0 || offset + n > 8 {
            Err(VerifyError::PacketOutOfBounds { pc, offset: offset as i32, size: n, packet_len })
        } else if offset as int % n as int != 0 {
            Err(VerifyError::MisalignedAccess { pc, offset: offset as i32, size: n })
        } else if offset == 0 && size == MemSize::W {
            Ok(RegType::PacketPtr { offset: Range::only(0) })
        } else if offset == 4 && size == MemSize::W {
            Ok(RegType::Scalar(Range::only(packet_end(packet_len))))
        } else {
            Ok(RegType::Scalar(Range::Top))
        },
    }
}

/// The address of the packet end; addresses saturate.
pub open spec fn packet_end(packet_len: usize) -> i64 {
    if PACKET_BASE + packet_len <= i64::MAX {
        (PACKET_BASE + packet_len) as i64
    } else {
        i64::MAX
    }
}

/// Whether a load stays inside the packet for every offset of its base, and
/// is aligned: a multi-byte load needs one known offset.
pub open spec fn packet_check(s: StateModel, base_off: Range, offset: i16, size: MemSize, pc: usize) -> Result<
    (),
    VerifyError,
> {
    let n = size.len() as u8;
    match s.packet_len {
        None => Err(VerifyError::NoPacketContext { pc }),
        Some(packet_len) => {
            let oob = VerifyError::PacketOutOfBounds {
                pc,
                offset: offset as i32,
                size: n,
                packet_len,
            };
            match base_off {
                Range::Bottom => Ok(()),
                Range::Top => Err(oob),
                Range::Interval { lo, hi } => {
                    let first = lo + offset;
                    let last = hi + offset;
                    if first < 0 || first > i64::MAX || last < i64::MIN || last + n > i64::MAX || last
                        + n > packet_len || packet_len > i64::MAX {
                        Err(oob)
                    } else if n > 1 && (first != last || first % n as int != 0) {
                        Err(
                            VerifyError::MisalignedAccess {
                                pc,
                                offset: if first <= i32::MAX {
                                    first as i32
                                } else {
                                    i32::MAX
                                },
                                size: n,
                            },
                        )
                    } else {
                        Ok(())
                    }
                },
            }
        },
    }
}

/// The error for a store to the packet or its context.
pub open spec fn read_only(s: StateModel, offset: i16, size: MemSize, pc: usize) -> VerifyError {
    match s.packet_len {
        None => VerifyError::NoPacketContext { pc },
        Some(packet_len) => VerifyError::PacketOutOfBounds {
            pc,
            offset: offset as i32,
            size: size.len() as u8,
            packet_len,
        },
    }
}

/// Requires a register to be written.
pub fn ensure_init(state: &VerifierState, r: Reg, pc: usize) -> (res: Result<(), VerifyError>)
    requires
        r.valid(),
    ensures
        res == init_check(state@, r, pc),
{
    if let RegType::NotInit = state.regs[r.index()] {
        Err(VerifyError::UninitRegister { pc, reg: r.0 })
    } else {
        Ok(())
    }
}

/// Requires a register to be a stack pointer and gives its offset.
pub fn ensure_stack_ptr(state: &VerifierState, r: Reg, pc: usize) -> (res: Result<i32, VerifyError>)
    requires
        r.valid(),
    ensures
        res == stack_base(state@, r, pc),
{
    let found = match state.regs[r.index()] {
        RegType::StackPtr { offset } => {
            return Ok(offset);
        },
        RegType::NotInit => {
            return Err(VerifyError::UninitRegister { pc, reg: r.0 });
        },
        RegType::Scalar(_) => "scalar",
        RegType::MapPtr { .. } => "map pointer",
        RegType::MaybeMapPtr { .. } => "nullable map pointer",
        RegType::XdpMdPtr => "xdp context pointer",
        RegType::PacketPtr { .. } => "packet pointer",
    };
    Err(VerifyError::TypeMismatch { pc, register: r.0, expected: "stack pointer", found })
}

/// Resolves a stack access to its offset and its first and last byte.
pub fn byte_range(base_off: i32, offset: i16, width: u8, pc: usize) -> (r: Result<
    (i32, usize, usize),
    VerifyError,
>)
    ensures
        match r {
            Ok((start, lo, hi)) => span(base_off, offset, width, pc) == Ok::<
                (i32, int, int),
                VerifyError,
            >((start, lo as int, hi as int)) && hi < 512,
            Err(e) => span(base_off, offset, width, pc) == Err::<(i32, int, int), VerifyError>(e),
        },
{
    let start: i64 = base_off as i64 + offset as i64;
    let end: i64 = start + width as i64;
    let bytes: i64 = STACK_BYTES_I32 as i64;
    if start < -bytes || end > 0 || end - 1 + bytes < 0 {
        return Err(VerifyError::StackOverflow { pc });
    }
    Ok((start as i32, (start + bytes) as usize, (end - 1 + bytes) as usize))
}

/// Resolves the stack bytes of a load or store: bounds, then alignment.
pub fn check_mem_access(
    state: &VerifierState,
    base: Reg,
    offset: i16,
    size: MemSize,
    pc: usize,
) -> (r: Result<(i32, usize, usize), VerifyError>)
    requires
        base.valid(),
    ensures
        match r {
            Ok((start, lo, hi)) => stack_access(state@, base, offset, size, pc) == Ok::<
                (i32, int, int),
                VerifyError,
            >((start, lo as int, hi as int)) && hi < 512,
            Err(e) => stack_access(state@, base, offset, size, pc) == Err::<
                (i32, int, int),
                VerifyError,
            >(e),
        },
{
    let base_off: i32 = match ensure_stack_ptr(state, base, pc) {
        Ok(o) => o,
        Err(e) => {
            return Err(e);
        },
    };
    let width: u8 = size.bytes();
    let bytes = match byte_range(base_off, offset, width, pc) {
        Ok(b) => b,
        Err(e) => {
            return Err(e);
        },
    };
    if !aligned(base_off as i64 + offset as i64, width) {
        return Err(VerifyError::MisalignedAccess { pc, offset: bytes.0, size: width });
    }
    Ok(bytes)
}

/// Whether an offset is a multiple of an access width.
fn aligned(offset: i64, width: u8) -> (r: bool)
    requires
        width > 0,
        offset > i64::MIN,
    ensures
        r == (offset as int % width as int == 0),
{
    if offset >= 0 {
        offset as u64 % width as u64 == 0
    } else {
        let magnitude: u64 = (-offset) as u64;
        proof {
            lemma_mod_negated(magnitude as int, width as int);
        }
        magnitude % width as u64 == 0
    }
}

/// A number and its negation are multiples of the same numbers.
proof fn lemma_mod_negated(a: int, n: int)
    requires
        n > 0,
    ensures
        ((-a) % n == 0) == (a % n == 0),
{
    vstd::arithmetic::div_mod::lemma_fundamental_div_mod(a, n);
    vstd::arithmetic::div_mod::lemma_fundamental_div_mod(-a, n);
    let q = a / n;
    let p = (-a) / n;
    if a % n == 0 {
        assert(-a == n * (-q)) by (nonlinear_arith)
            requires
                a == n * q,
        ;
        vstd::arithmetic::div_mod::lemma_mod_multiples_basic(-q, n);
        assert((-q) * n == n * (-q)) by (nonlinear_arith);
    }
    if (-a) % n == 0 {
        assert(a == n * (-p)) by (nonlinear_arith)
            requires
                -a == n * p,
        ;
        vstd::arithmetic::div_mod::lemma_mod_multiples_basic(-p, n);
        assert((-p) * n == n * (-p)) by (nonlinear_arith);
    }
}

/// Requires a map key or value pointer: a stack pointer whose `size` bytes
/// were all written.
pub fn check_map_ptr(state: &VerifierState, r: Reg, size: usize, pc: usize) -> (res: Result<
    (),
    VerifyError,
>)
    requires
        r.valid(),
    ensures
        res == argument_check(state@, r, size, pc),
{
    let base_off: i32 = match ensure_stack_ptr(state, r, pc) {
        Ok(o) => o,
        Err(e) => {
            return Err(e);
        },
    };
    if size > 255 {
        return Err(VerifyError::StackOverflow { pc });
    }
    match byte_range(base_off, 0, size as u8, pc) {
        Ok((start, lo, hi)) => if state.stack_range_init(lo, hi) {
            Ok(())
        } else {
            Err(VerifyError::UninitStackRead { pc, offset: start })
        },
        Err(e) => Err(e),
    }
}

/// Resolves a base register that points to a map value. A pointer that may
/// be null is rejected.
pub fn map_value_fd(state: &VerifierState, base: Reg, pc: usize) -> (r: Result<
    Option<i64>,
    VerifyError,
>)
    requires
        base.valid(),
    ensures
        r == value_map(state@, base, pc),
{
    match state.regs[base.index()] {
        RegType::MapPtr { fd } => Ok(Some(fd)),
        RegType::MaybeMapPtr { fd } => Err(
            VerifyError::NullMapPtrAccess { pc, register: base.0, fd },
        ),
        _ => Ok(None),
    }
}

/// Checks an access to a map value against the size of the value.
pub fn check_map_value_bounds(
    state: &VerifierState,
    fd: i64,
    offset: i16,
    size: MemSize,
    pc: usize,
) -> (r: Result<(), VerifyError>)
    ensures
        r == value_check(state@, fd, offset, size, pc),
{
    let width: u8 = size.bytes();
    match state.map_desc(fd) {
        None => Err(VerifyError::BadMapFd { pc, fd }),
        Some(desc) => {
            if offset < 0 || (offset as u64 + width as u64) > desc.value_size as u64 {
                return Err(
                    VerifyError::MapValueOutOfBounds {
                        pc,
                        fd,
                        offset: offset as i32,
                        size: width,
                        value_size: desc.value_size,
                    },
                );
            }
            check_map_align(offset, size, pc)
        },
    }
}

/// Checks the alignment of an access to a map value.
fn check_map_align(offset: i16, size: MemSize, pc: usize) -> (r: Result<(), VerifyError>)
    ensures
        r == (if offset as int % size.len() as int != 0 {
            Err::<(), VerifyError>(
                VerifyError::MisalignedAccess {
                    pc,
                    offset: offset as i32,
                    size: size.len() as u8,
                },
            )
        } else {
            Ok(())
        }),
{
    let width: u8 = size.bytes();
    if !aligned(offset as i64, width) {
        return Err(VerifyError::MisalignedAccess { pc, offset: offset as i32, size: width });
    }
    Ok(())
}

/// Checks a load from the packet context and gives its result.
pub fn check_ctx_load(state: &VerifierState, offset: i16, size: MemSize, pc: usize) -> (r: Result<
    RegType,
    VerifyError,
>)
    ensures
        r == context_load(state@, offset, size, pc),
{
    let width: u8 = size.bytes();
    let packet_len: usize = match state.packet_len {
        None => {
            return Err(VerifyError::NoPacketContext { pc });
        },
        Some(len) => len,
    };
    if offset < 0 || offset as u64 + width as u64 > XDP_MD_LEN as u64 {
        return Err(
            VerifyError::PacketOutOfBounds { pc, offset: offset as i32, size: width, packet_len },
        );
    }
    if !aligned(offset as i64, width) {
        return Err(VerifyError::MisalignedAccess { pc, offset: offset as i32, size: width });
    }
    if offset == 0 && size == MemSize::W {
        return Ok(RegType::PacketPtr { offset: Range::exact(0) });
    }
    if offset == 4 && size == MemSize::W {
        let room: u64 = (i64::MAX - PACKET_BASE) as u64;
        let end: i64 = if packet_len as u64 <= room {
            PACKET_BASE + packet_len as i64
        } else {
            i64::MAX
        };
        return Ok(RegType::Scalar(Range::exact(end)));
    }
    Ok(RegType::Scalar(Range::Top))
}

/// Checks a load from the packet against its length.
pub fn check_packet_bounds(
    state: &VerifierState,
    base_off: Range,
    offset: i16,
    size: MemSize,
    pc: usize,
) -> (r: Result<(), VerifyError>)
    ensures
        r == packet_check(state@, base_off, offset, size, pc),
{
    let width: u8 = size.bytes();
    let packet_len: usize = match state.packet_len {
        None => {
            return Err(VerifyError::NoPacketContext { pc });
        },
        Some(len) => len,
    };
    let out_of_bounds = VerifyError::PacketOutOfBounds {
        pc,
        offset: offset as i32,
        size: width,
        packet_len,
    };
    let (lo, hi) = match base_off {
        Range::Bottom => {
            return Ok(());
        },
        Range::Top => {
            return Err(out_of_bounds);
        },
        Range::Interval { lo, hi } => (lo, hi),
    };
    let first: i64 = match lo.checked_add(offset as i64) {
        Some(v) => v,
        None => {
            return Err(out_of_bounds);
        },
    };
    let last: i64 = match hi.checked_add(offset as i64) {
        Some(v) => v,
        None => {
            return Err(out_of_bounds);
        },
    };
    let end: i64 = match last.checked_add(width as i64) {
        Some(v) => v,
        None => {
            return Err(out_of_bounds);
        },
    };
    if first < 0 || (end > 0 && end as u64 > packet_len as u64) || packet_len as u64
        > i64::MAX as u64 {
        return Err(out_of_bounds);
    }
    if width > 1 && (first != last || !aligned(first, width)) {
        let offset: i32 = if first <= i32::MAX as i64 {
            first as i32
        } else {
            i32::MAX
        };
        return Err(VerifyError::MisalignedAccess { pc, offset, size: width });
    }
    Ok(())
}

/// The error for a store through a packet or context pointer: that memory is
/// read-only.
pub fn packet_store_error(state: &VerifierState, offset: i16, size: MemSize, pc: usize) -> (r:
    VerifyError)
    ensures
        r == read_only(state@, offset, size, pc),
{
    match state.packet_len {
        None => VerifyError::NoPacketContext { pc },
        Some(packet_len) => VerifyError::PacketOutOfBounds {
            pc,
            offset: offset as i32,
            size: size.bytes(),
            packet_len,
        },
    }
}

} // verus!
