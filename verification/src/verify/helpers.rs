//! Types of the helper functions that programs may call.
use vstd::prelude::*;

use crate::isa::insn::Reg;
use crate::verify::access::{argument_check, check_map_ptr};
use crate::verify::state::{Range, RegType, StateModel, VerifierState};
use crate::verify::VerifyError;
use crate::vm::maps::{DescModel, MapDesc};

verus! {

/// How a helper transforms the abstract state: it gives a value for `r0`,
/// and may write memory.
pub trait HelperSignature {
    /// The value for `r0`, or why the call is rejected.
    spec fn outcome(&self, s: StateModel, pc: usize) -> Result<RegType, VerifyError>;

    /// Whether the helper may write memory.
    spec fn writes(&self) -> bool;

    /// Computes the value for `r0`.
    fn effect(&self, state: &VerifierState, pc: usize) -> (r: Result<RegType, VerifyError>)
        ensures
            r == self.outcome(state@, pc),
    ;

    /// Whether this helper may write memory. If so, the bytes of the stack
    /// count as unwritten after the call.
    fn may_write_memory(&self) -> (r: bool)
        ensures
            r == self.writes(),
    ;
}

/// `bpf_get_prandom_u32`: a number that fits 31 bits.
#[derive(Debug, Clone, Copy)]
pub struct PrandomU32;

impl HelperSignature for PrandomU32 {
    open spec fn outcome(&self, s: StateModel, pc: usize) -> Result<RegType, VerifyError> {
        Ok(RegType::Scalar(Range::Interval { lo: 0, hi: i32::MAX as i64 }))
    }

    open spec fn writes(&self) -> bool {
        false
    }

    fn effect(&self, state: &VerifierState, pc: usize) -> (r: Result<RegType, VerifyError>) {
        Ok(RegType::Scalar(Range::Interval { lo: 0, hi: i32::MAX as i64 }))
    }

    fn may_write_memory(&self) -> (r: bool) {
        false
    }
}

/// `bpf_ktime_get_ns`: a number that is not negative.
#[derive(Debug, Clone, Copy)]
pub struct KtimeNs;

impl HelperSignature for KtimeNs {
    open spec fn outcome(&self, s: StateModel, pc: usize) -> Result<RegType, VerifyError> {
        Ok(RegType::Scalar(Range::Interval { lo: 0, hi: i64::MAX }))
    }

    open spec fn writes(&self) -> bool {
        false
    }

    fn effect(&self, state: &VerifierState, pc: usize) -> (r: Result<RegType, VerifyError>) {
        Ok(RegType::Scalar(Range::Interval { lo: 0, hi: i64::MAX }))
    }

    fn may_write_memory(&self) -> (r: bool) {
        false
    }
}

/// `bpf_trace_printk`: an unknown number.
#[derive(Debug, Clone, Copy)]
pub struct TracePrintk;

impl HelperSignature for TracePrintk {
    open spec fn outcome(&self, s: StateModel, pc: usize) -> Result<RegType, VerifyError> {
        Ok(RegType::Scalar(Range::Top))
    }

    open spec fn writes(&self) -> bool {
        false
    }

    fn effect(&self, state: &VerifierState, pc: usize) -> (r: Result<RegType, VerifyError>) {
        Ok(RegType::Scalar(Range::Top))
    }

    fn may_write_memory(&self) -> (r: bool) {
        false
    }
}

/// The descriptor number in `r1`: one known number, or `None` for a number
/// that is not known.
pub open spec fn fd_argument(s: StateModel, pc: usize) -> Result<Option<i64>, VerifyError> {
    match s.regs[1] {
        RegType::Scalar(r) => Ok(r.single()),
        RegType::NotInit => Err(VerifyError::UninitRegister { pc, reg: 1 }),
        _ => Err(
            VerifyError::TypeMismatch {
                pc,
                register: 1,
                expected: "scalar file descriptor",
                found: "pointer",
            },
        ),
    }
}

/// Resolves `r1` to a descriptor number.
pub fn map_fd(state: &VerifierState, pc: usize) -> (r: Result<Option<i64>, VerifyError>)
    ensures
        r == fd_argument(state@, pc),
{
    match state.regs[1] {
        RegType::Scalar(Range::Interval { lo, hi }) => if lo == hi {
            Ok(Some(lo))
        } else {
            Ok(None)
        },
        RegType::Scalar(_) => Ok(None),
        RegType::NotInit => Err(VerifyError::UninitRegister { pc, reg: 1 }),
        _ => Err(
            VerifyError::TypeMismatch {
                pc,
                register: 1,
                expected: "scalar file descriptor",
                found: "pointer",
            },
        ),
    }
}

/// Whether a key and, where it takes one, a value of a map can be read.
pub open spec fn pair_check(s: StateModel, desc: DescModel, takes_value: bool, pc: usize) -> Result<
    (),
    VerifyError,
> {
    match argument_check(s, Reg(2), desc.key_size, pc) {
        Err(e) => Err(e),
        Ok(()) => if takes_value {
            argument_check(s, Reg(3), desc.value_size, pc)
        } else {
            Ok(())
        },
    }
}

/// Whether the arguments fit every map from descriptor number `fd` on that a
/// range of numbers allows.
pub open spec fn possible_check(s: StateModel, r: Range, fd: nat, takes_value: bool, pc: usize) -> Result<
    (),
    VerifyError,
>
    decreases s.maps.len() - fd,
{
    if fd >= s.maps.len() || fd > i64::MAX {
        Ok(())
    } else {
        let here = match s.maps[fd as int] {
            Some(desc) => if r.has(fd as i64) {
                pair_check(s, desc, takes_value, pc)
            } else {
                Ok(())
            },
            None => Ok(()),
        };
        match here {
            Err(e) => Err(e),
            Ok(()) => possible_check(s, r, fd + 1, takes_value, pc),
        }
    }
}

/// Checks the arguments of a map helper against a descriptor.
fn check_pair(state: &VerifierState, desc: &MapDesc, takes_value: bool, pc: usize) -> (r: Result<
    (),
    VerifyError,
>)
    ensures
        r == pair_check(state@, desc@, takes_value, pc),
{
    if let Err(e) = check_map_ptr(state, Reg(2), desc.key_size, pc) {
        return Err(e);
    }
    if takes_value {
        check_map_ptr(state, Reg(3), desc.value_size, pc)
    } else {
        Ok(())
    }
}

/// Checks the arguments of a map helper against every map that a descriptor
/// number which is not known may name.
fn check_possible(state: &VerifierState, takes_value: bool, pc: usize) -> (r: Result<(), VerifyError>)
    ensures
        r == possible_check(state@, state@.regs[1].range(), 0, takes_value, pc),
{
    let range = state.regs[1].scalar_range();
    let count: usize = state.maps.len();
    let mut fd: usize = 0;
    while fd < count && (fd as u64) <= i64::MAX as u64
        invariant
            count == state@.maps.len(),
            fd <= count,
            fd <= i64::MAX + 1,
            range == state@.regs[1].range(),
            possible_check(state@, range, 0, takes_value, pc) == possible_check(
                state@,
                range,
                fd as nat,
                takes_value,
                pc,
            ),
        decreases count - fd,
    {
        if range.contains(fd as i64) {
            if let Some(desc) = state.map_desc(fd as i64) {
                if let Err(e) = check_pair(state, desc, takes_value, pc) {
                    return Err(e);
                }
            }
        }
        fd = fd + 1;
    }
    Ok(())
}

/// The outcome of a map helper whose `r2` points to a key, and whose `r3`
/// points to a value where it takes one. A descriptor number that is not
/// known gives an unknown number, and the arguments must fit every map that
/// it may name.
pub open spec fn map_outcome(s: StateModel, pc: usize, takes_value: bool, found: spec_fn(i64) -> RegType) -> Result<
    RegType,
    VerifyError,
> {
    match fd_argument(s, pc) {
        Err(e) => Err(e),
        Ok(None) => match possible_check(s, s.regs[1].range(), 0, takes_value, pc) {
            Err(e) => Err(e),
            Ok(()) => Ok(RegType::Scalar(Range::Top)),
        },
        Ok(Some(fd)) => match s.desc(fd) {
            None => Err(VerifyError::BadMapFd { pc, fd }),
            Some(desc) => match pair_check(s, desc, takes_value, pc) {
                Err(e) => Err(e),
                Ok(()) => Ok(found(fd)),
            },
        },
    }
}

/// `bpf_map_lookup_elem`: `r1` is the map, `r2` points to the key. The result
/// may be null, so a program has to test it before it follows it.
#[derive(Debug, Clone, Copy)]
pub struct MapLookup;

impl HelperSignature for MapLookup {
    open spec fn outcome(&self, s: StateModel, pc: usize) -> Result<RegType, VerifyError> {
        map_outcome(s, pc, false, |fd: i64| RegType::MaybeMapPtr { fd })
    }

    open spec fn writes(&self) -> bool {
        false
    }

    fn effect(&self, state: &VerifierState, pc: usize) -> (r: Result<RegType, VerifyError>) {
        let fd: i64 = match map_fd(state, pc) {
            Err(e) => {
                return Err(e);
            },
            Ok(None) => {
                return match check_possible(state, false, pc) {
                    Err(e) => Err(e),
                    Ok(()) => Ok(RegType::Scalar(Range::Top)),
                };
            },
            Ok(Some(fd)) => fd,
        };
        let desc = match state.map_desc(fd) {
            None => {
                return Err(VerifyError::BadMapFd { pc, fd });
            },
            Some(desc) => desc,
        };
        if let Err(e) = check_pair(state, desc, false, pc) {
            return Err(e);
        }
        Ok(RegType::MaybeMapPtr { fd })
    }

    fn may_write_memory(&self) -> (r: bool) {
        false
    }
}

/// `bpf_map_update_elem`: `r1` is the map, `r2` points to the key, `r3` to
/// the value. The result is modelled as success.
#[derive(Debug, Clone, Copy)]
pub struct MapUpdate;

impl HelperSignature for MapUpdate {
    open spec fn outcome(&self, s: StateModel, pc: usize) -> Result<RegType, VerifyError> {
        map_outcome(s, pc, true, |fd: i64| RegType::Scalar(Range::only(0)))
    }

    open spec fn writes(&self) -> bool {
        false
    }

    fn effect(&self, state: &VerifierState, pc: usize) -> (r: Result<RegType, VerifyError>) {
        let fd: i64 = match map_fd(state, pc) {
            Err(e) => {
                return Err(e);
            },
            Ok(None) => {
                return match check_possible(state, true, pc) {
                    Err(e) => Err(e),
                    Ok(()) => Ok(RegType::Scalar(Range::Top)),
                };
            },
            Ok(Some(fd)) => fd,
        };
        let desc = match state.map_desc(fd) {
            None => {
                return Err(VerifyError::BadMapFd { pc, fd });
            },
            Some(desc) => desc,
        };
        if let Err(e) = check_pair(state, desc, true, pc) {
            return Err(e);
        }
        Ok(RegType::Scalar(Range::exact(0)))
    }

    fn may_write_memory(&self) -> (r: bool) {
        false
    }
}

/// `bpf_map_delete_elem`: `r1` is the map, `r2` points to the key. The result
/// is modelled as success.
#[derive(Debug, Clone, Copy)]
pub struct MapDelete;

impl HelperSignature for MapDelete {
    open spec fn outcome(&self, s: StateModel, pc: usize) -> Result<RegType, VerifyError> {
        map_outcome(s, pc, false, |fd: i64| RegType::Scalar(Range::only(0)))
    }

    open spec fn writes(&self) -> bool {
        false
    }

    fn effect(&self, state: &VerifierState, pc: usize) -> (r: Result<RegType, VerifyError>) {
        let fd: i64 = match map_fd(state, pc) {
            Err(e) => {
                return Err(e);
            },
            Ok(None) => {
                return match check_possible(state, false, pc) {
                    Err(e) => Err(e),
                    Ok(()) => Ok(RegType::Scalar(Range::Top)),
                };
            },
            Ok(Some(fd)) => fd,
        };
        let desc = match state.map_desc(fd) {
            None => {
                return Err(VerifyError::BadMapFd { pc, fd });
            },
            Some(desc) => desc,
        };
        if let Err(e) = check_pair(state, desc, false, pc) {
            return Err(e);
        }
        Ok(RegType::Scalar(Range::exact(0)))
    }

    fn may_write_memory(&self) -> (r: bool) {
        false
    }
}

/// The outcome of a call of a built-in helper, for the ids that are known.
pub open spec fn built_in_outcome(func: u32, s: StateModel, pc: usize) -> Option<
    Result<RegType, VerifyError>,
> {
    if func == 1 {
        Some(MapLookup.outcome(s, pc))
    } else if func == 2 {
        Some(MapUpdate.outcome(s, pc))
    } else if func == 3 {
        Some(MapDelete.outcome(s, pc))
    } else if func == 5 {
        Some(KtimeNs.outcome(s, pc))
    } else if func == 6 {
        Some(TracePrintk.outcome(s, pc))
    } else if func == 43 {
        Some(PrandomU32.outcome(s, pc))
    } else {
        None
    }
}

/// Whether a helper id is known.
pub open spec fn known_helper(func: u32) -> bool {
    func == 1 || func == 2 || func == 3 || func == 5 || func == 6 || func == 43
}

/// The helpers that are known, by id.
#[derive(Debug, Clone, Copy)]
pub struct HelperSignatureRegistry;

impl Default for HelperSignatureRegistry {
    /// The built-in helpers.
    fn default() -> (r: Self)
        ensures
            r == HelperSignatureRegistry,
    {
        HelperSignatureRegistry
    }
}

impl HelperSignatureRegistry {
    /// The built-in helpers: map lookup, update and delete, random number,
    /// clock and print.
    pub fn built_in() -> (r: Self)
        ensures
            r == HelperSignatureRegistry,
    {
        HelperSignatureRegistry
    }

    /// Looks up a helper by id.
    pub fn get(&self, func: u32) -> (r: Option<&dyn HelperSignature>)
        ensures
            r is Some <==> known_helper(func),
            r matches Some(h) ==> !h.writes() && forall|s: StateModel, pc: usize|
                #![trigger h.outcome(s, pc)]
                built_in_outcome(func, s, pc) == Some(h.outcome(s, pc)),
    {
        match func {
            1 => Some(&MapLookup),
            2 => Some(&MapUpdate),
            3 => Some(&MapDelete),
            43 => Some(&PrandomU32),
            5 => Some(&KtimeNs),
            6 => Some(&TracePrintk),
            _ => None,
        }
    }
}

proof fn lemma_possible_error(s: StateModel, r: Range, fd: nat, takes_value: bool, pc: usize)
    ensures
        possible_check(s, r, fd, takes_value, pc) matches Err(e) ==> e !is UnknownHelper,
    decreases s.maps.len() - fd,
{
    if fd < s.maps.len() && fd <= i64::MAX {
        lemma_possible_error(s, r, fd + 1, takes_value, pc);
    }
}

/// A helper that is known is not reported as unknown.
pub proof fn lemma_known_outcome(func: u32, s: StateModel, pc: usize)
    ensures
        built_in_outcome(func, s, pc) is Some <==> known_helper(func),
        built_in_outcome(func, s, pc) matches Some(Err(e)) ==> e !is UnknownHelper,
{
    if let RegType::Scalar(r) = s.regs[1] {
        lemma_possible_error(s, r, 0, false, pc);
        lemma_possible_error(s, r, 0, true, pc);
    }
}

} // verus!
