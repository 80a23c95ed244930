//! Memory model of the interpreter: stack, packet, context, map scratch.
//!
//! Every access goes through [`MemoryView::load`] and [`MemoryView::store`].
//! The stack tracks which bytes were written, the packet and the context are
//! read-only, and the scratch area holds the latest map value that a lookup
//! returned. Bounds are checked before alignment.
use vstd::prelude::*;
use vstd::string::StringExecFns;

use crate::bytes::{le_bytes, le_word, lemma_bytes_len, lemma_pow256_values, lemma_word_of_bytes, read_le};
use crate::isa::insn::MemSize;
use crate::text::{hex_text, nat_text, push_hex, push_nat};

verus! {

/// Size of the stack in bytes.
pub const STACK_SIZE: usize = 512;

/// Address held in `r10`; the stack lies below it.
pub const STACK_BASE: i64 = 0x1_0000;

/// Address of the first packet byte.
pub const PACKET_BASE: i64 = 0x2_0000;

/// Address of the map-value scratch area.
pub const MAP_SCRATCH_BASE: i64 = 0x3_0000;

/// Address of the packet context: `data` (32 bits) at `+0` and `data_end`
/// (32 bits) at `+4`.
pub const XDP_MD_BASE: i64 = 0x4_0000;

/// Length of the packet context in bytes.
pub const XDP_MD_LEN: usize = 8;

/// Memory access failure.
#[derive(Debug, Clone, Copy, PartialEq, Eq, Structural)]
#[non_exhaustive]
pub enum MemError {
    /// The access falls outside every known region.
    OutOfBounds {
        /// Faulting address.
        addr: i64,
        /// Access width in bytes.
        size: u8,
    },
    /// The address is stack-shaped but the access leaves the stack.
    StackOverflow {
        /// Faulting address.
        addr: i64,
        /// Access width in bytes.
        size: u8,
    },
    /// Stack read of a byte that was never written.
    UninitializedRead {
        /// Faulting address.
        addr: i64,
        /// Access width in bytes.
        size: u8,
    },
    /// Packet access with no packet loaded.
    NoPacket,
    /// Multi-byte access at an unaligned address.
    Misaligned {
        /// Faulting address.
        addr: i64,
        /// Access width in bytes.
        size: u8,
        /// Required alignment in bytes.
        align: u8,
    },
}

impl MemError {
    /// The message of the error.
    pub open spec fn display(self) -> Seq<char> {
        match self {
            MemError::OutOfBounds { addr, size } => "out-of-bounds "@ + nat_text(size as nat)
                + "-byte access at address 0x"@ + hex_text((addr as u64) as nat),
            MemError::StackOverflow { addr, size } => "stack overflow: "@ + nat_text(size as nat)
                + "-byte access at address 0x"@ + hex_text((addr as u64) as nat),
            MemError::UninitializedRead { addr, size } => "uninitialized "@ + nat_text(size as nat)
                + "-byte stack read at address 0x"@ + hex_text((addr as u64) as nat),
            MemError::NoPacket => "packet access with no packet loaded"@,
            MemError::Misaligned { addr, size, align } => "misaligned "@ + nat_text(size as nat)
                + "-byte access at address 0x"@ + hex_text((addr as u64) as nat) + " (needs "@
                + nat_text(align as nat) + "-byte alignment)"@,
        }
    }

    /// Renders the message of the error.
    pub fn to_string(&self) -> (s: String)
        ensures
            s@ == self.display(),
    {
        match *self {
            MemError::OutOfBounds { addr, size } => {
                let mut s = String::from_str("out-of-bounds ");
                push_nat(&mut s, size as u64);
                s.append("-byte access at address 0x");
                push_hex(&mut s, addr as u64);
                s
            },
            MemError::StackOverflow { addr, size } => {
                let mut s = String::from_str("stack overflow: ");
                push_nat(&mut s, size as u64);
                s.append("-byte access at address 0x");
                push_hex(&mut s, addr as u64);
                s
            },
            MemError::UninitializedRead { addr, size } => {
                let mut s = String::from_str("uninitialized ");
                push_nat(&mut s, size as u64);
                s.append("-byte stack read at address 0x");
                push_hex(&mut s, addr as u64);
                s
            },
            MemError::NoPacket => String::from_str("packet access with no packet loaded"),
            MemError::Misaligned { addr, size, align } => {
                let mut s = String::from_str("misaligned ");
                push_nat(&mut s, size as u64);
                s.append("-byte access at address 0x");
                push_hex(&mut s, addr as u64);
                s.append(" (needs ");
                push_nat(&mut s, align as u64);
                s.append("-byte alignment)");
                s
            },
        }
    }
}

/// Which region an address belongs to.
#[derive(Debug, Clone, Copy, PartialEq, Eq, Structural)]
pub enum MemRegion {
    /// The program stack, its end address included.
    Stack,
    /// The packet.
    Packet,
    /// The map-value scratch area.
    MapScratch,
    /// The packet context.
    XdpMd,
    /// Outside every known region.
    Unknown,
}

/// The region of an address: the stack with its end address, and above it
/// the regions by their base addresses.
pub open spec fn region_of(addr: i64) -> MemRegion {
    if STACK_BASE - 512 <= addr <= STACK_BASE {
        MemRegion::Stack
    } else if addr >= XDP_MD_BASE {
        MemRegion::XdpMd
    } else if addr >= MAP_SCRATCH_BASE {
        MemRegion::MapScratch
    } else if addr >= PACKET_BASE {
        MemRegion::Packet
    } else {
        MemRegion::Unknown
    }
}

/// Whether `width` bytes at `addr` lie inside `len` bytes at `base`.
pub open spec fn within(addr: i64, width: nat, base: int, len: nat) -> bool {
    base <= addr && addr + width <= base + len
}

/// Register value of a little-endian word.
pub open spec fn word_value(s: Seq<u8>) -> i64 {
    (le_word(s) as u64) as i64
}

/// `s` with the bytes of `piece` written at `off`.
pub open spec fn overwrite(s: Seq<u8>, off: int, piece: Seq<u8>) -> Seq<u8> {
    s.take(off) + piece + s.skip(off + piece.len())
}

/// `marks` with `n` marks set from `off` on.
pub open spec fn set_marks(marks: Seq<bool>, off: int, n: nat) -> Seq<bool> {
    Seq::new(marks.len(), |j: int| marks[j] || off <= j < off + n)
}

/// Contents of the memory.
#[verifier::ext_equal]
pub struct MemModel {
    /// Stack bytes, lowest address first.
    pub stack: Seq<u8>,
    /// Which stack bytes were written.
    pub init: Seq<bool>,
    /// The loaded packet.
    pub packet: Option<Seq<u8>>,
    /// The packet context.
    pub xdp_md: Seq<u8>,
    /// The latest map value.
    pub scratch: Seq<u8>,
    /// Whether multi-byte accesses must be aligned.
    pub align: bool,
}

impl MemModel {
    /// Memory at program start.
    pub open spec fn fresh() -> MemModel {
        MemModel {
            stack: Seq::new(512, |i: int| 0u8),
            init: Seq::new(512, |i: int| false),
            packet: None,
            xdp_md: Seq::new(8, |i: int| 0u8),
            scratch: Seq::empty(),
            align: true,
        }
    }

    /// Whether the fixed-size regions have their sizes.
    pub open spec fn wf(self) -> bool {
        self.stack.len() == 512 && self.init.len() == 512 && self.xdp_md.len() == 8
    }

    /// Whether an access breaks the alignment rule.
    pub open spec fn misaligned(self, addr: i64, size: MemSize) -> bool {
        self.align && addr as int % size.len() as int != 0
    }

    /// A load from `contents` placed at `base`.
    pub open spec fn load_window(
        self,
        contents: Seq<u8>,
        base: int,
        addr: i64,
        size: MemSize,
    ) -> Result<i64, MemError> {
        let n = size.len() as u8;
        if !within(addr, size.len(), base, contents.len()) {
            Err(MemError::OutOfBounds { addr, size: n })
        } else if self.misaligned(addr, size) {
            Err(MemError::Misaligned { addr, size: n, align: n })
        } else {
            Ok(word_value(contents.subrange(addr - base, addr - base + size.len())))
        }
    }

    /// Whether every stack byte of an access was written.
    pub open spec fn readable(self, off: int, n: nat) -> bool {
        forall|j: int| off <= j < off + n ==> #[trigger] self.init[j]
    }

    /// A load from the stack.
    pub open spec fn load_stack(self, addr: i64, size: MemSize) -> Result<i64, MemError> {
        let n = size.len() as u8;
        let off = addr - (STACK_BASE - 512);
        if !within(addr, size.len(), STACK_BASE - 512, 512) {
            Err(MemError::StackOverflow { addr, size: n })
        } else if self.misaligned(addr, size) {
            Err(MemError::Misaligned { addr, size: n, align: n })
        } else if !self.readable(off, size.len()) {
            Err(MemError::UninitializedRead { addr, size: n })
        } else {
            Ok(word_value(self.stack.subrange(off, off + size.len())))
        }
    }

    /// What a load gives.
    pub open spec fn load(self, addr: i64, size: MemSize) -> Result<i64, MemError> {
        match region_of(addr) {
            MemRegion::Stack => self.load_stack(addr, size),
            MemRegion::Packet => match self.packet {
                None => Err(MemError::NoPacket),
                Some(p) => self.load_window(p, PACKET_BASE as int, addr, size),
            },
            MemRegion::MapScratch => self.load_window(
                self.scratch,
                MAP_SCRATCH_BASE as int,
                addr,
                size,
            ),
            MemRegion::XdpMd => self.load_window(self.xdp_md, XDP_MD_BASE as int, addr, size),
            MemRegion::Unknown => Err(MemError::OutOfBounds { addr, size: size.len() as u8 }),
        }
    }

    /// Why a store is refused, if it is.
    pub open spec fn store_fault(self, addr: i64, size: MemSize) -> Option<MemError> {
        let n = size.len() as u8;
        match region_of(addr) {
            MemRegion::Stack => if !within(addr, size.len(), STACK_BASE - 512, 512) {
                Some(MemError::StackOverflow { addr, size: n })
            } else if self.misaligned(addr, size) {
                Some(MemError::Misaligned { addr, size: n, align: n })
            } else {
                None
            },
            MemRegion::MapScratch => if !within(
                addr,
                size.len(),
                MAP_SCRATCH_BASE as int,
                self.scratch.len(),
            ) {
                Some(MemError::OutOfBounds { addr, size: n })
            } else if self.misaligned(addr, size) {
                Some(MemError::Misaligned { addr, size: n, align: n })
            } else {
                None
            },
            _ => Some(MemError::OutOfBounds { addr, size: n }),
        }
    }

    /// The memory after a store that is not refused.
    pub open spec fn stored(self, addr: i64, size: MemSize, value: i64) -> MemModel {
        let piece = le_bytes((value as u64) as nat, size.len());
        if region_of(addr) == MemRegion::Stack {
            let off = addr - (STACK_BASE - 512);
            MemModel {
                stack: overwrite(self.stack, off, piece),
                init: set_marks(self.init, off, size.len()),
                ..self
            }
        } else {
            MemModel { scratch: overwrite(self.scratch, addr - MAP_SCRATCH_BASE, piece), ..self }
        }
    }

    /// The bytes at `addr` when a whole range of them can be copied at once.
    pub open spec fn bulk(self, addr: i64, len: nat) -> Option<Seq<u8>> {
        match region_of(addr) {
            MemRegion::Stack => {
                let off = addr - (STACK_BASE - 512);
                if off + len <= 512 && self.readable(off, len) {
                    Some(self.stack.subrange(off, off + len))
                } else {
                    None
                }
            },
            MemRegion::Packet => match self.packet {
                None => None,
                Some(p) => copied(p, addr - PACKET_BASE, len),
            },
            MemRegion::MapScratch => copied(self.scratch, addr - MAP_SCRATCH_BASE, len),
            MemRegion::XdpMd => copied(self.xdp_md, addr - XDP_MD_BASE, len),
            MemRegion::Unknown => None,
        }
    }

    /// The bytes that single-byte loads from `addr` on give, or the first
    /// fault among them.
    pub open spec fn bytewise(self, addr: i64, len: nat) -> Result<Seq<u8>, MemError>
        decreases len,
    {
        if len == 0 {
            Ok(Seq::empty())
        } else {
            match self.load(addr, MemSize::B) {
                Err(e) => Err(e),
                Ok(b) => match self.bytewise(addr.wrapping_add(1), (len - 1) as nat) {
                    Err(e) => Err(e),
                    Ok(rest) => Ok(seq![b as u8] + rest),
                },
            }
        }
    }

    /// What a read of `len` bytes for a map key or value gives.
    pub open spec fn load_bytes(self, addr: i64, len: nat) -> Result<Seq<u8>, MemError> {
        match self.bulk(addr, len) {
            Some(bytes) if len > 0 => Ok(bytes),
            _ => self.bytewise(addr, len),
        }
    }

    /// The memory with a packet loaded and its context staged. Addresses
    /// that do not fit 32 bits saturate.
    pub open spec fn with_packet(self, packet: Seq<u8>) -> MemModel {
        let end = if PACKET_BASE + packet.len() <= u32::MAX {
            (PACKET_BASE + packet.len()) as nat
        } else {
            u32::MAX as nat
        };
        MemModel {
            packet: Some(packet),
            xdp_md: le_bytes(PACKET_BASE as nat, 4) + le_bytes(end, 4),
            ..self
        }
    }

    /// The memory with no packet and a zeroed context.
    pub open spec fn without_packet(self) -> MemModel {
        MemModel { packet: None, xdp_md: Seq::new(8, |i: int| 0u8), ..self }
    }
}

/// The `len` bytes of `s` at `off`, if they are there.
pub open spec fn copied(s: Seq<u8>, off: int, len: nat) -> Option<Seq<u8>> {
    if off + len <= s.len() {
        Some(s.subrange(off, off + len))
    } else {
        None
    }
}

/// Requires natural alignment for multi-byte accesses.
fn check_alignment(addr: i64, size: MemSize) -> (r: Result<(), MemError>)
    requires
        addr >= 0,
    ensures
        r == (if addr as int % size.len() as int != 0 {
            Err::<(), MemError>(
                MemError::Misaligned { addr, size: size.len() as u8, align: size.len() as u8 },
            )
        } else {
            Ok(())
        }),
{
    let align: u8 = size.bytes();
    if (addr as u64) % (align as u64) != 0 {
        return Err(MemError::Misaligned { addr, size: align, align });
    }
    Ok(())
}

/// The offset of an access inside `len` bytes at `base`.
fn window_offset(addr: i64, size: MemSize, base: i64, len: usize) -> (r: Result<usize, MemError>)
    requires
        0 <= base <= addr,
    ensures
        match r {
            Ok(off) => within(addr, size.len(), base as int, len as nat) && off == addr - base,
            Err(e) => !within(addr, size.len(), base as int, len as nat) && e
                == (MemError::OutOfBounds { addr, size: size.len() as u8 }),
        },
{
    let width: usize = size.bytes() as usize;
    let off: u64 = (addr - base) as u64;
    if off <= len as u64 && width <= len - off as usize {
        Ok(off as usize)
    } else {
        Err(MemError::OutOfBounds { addr, size: size.bytes() })
    }
}

/// Loads from `contents` placed at `base`.
fn load_at(contents: &[u8], base: i64, addr: i64, size: MemSize, align_checks: bool) -> (r: Result<
    i64,
    MemError,
>)
    requires
        0 <= base <= addr,
    ensures
        forall|m: MemModel|
            m.align == align_checks ==> r == #[trigger] m.load_window(
                contents@,
                base as int,
                addr,
                size,
            ),
{
    let off = match window_offset(addr, size, base, contents.len()) {
        Ok(off) => off,
        Err(e) => {
            return Err(e);
        },
    };
    if align_checks {
        match check_alignment(addr, size) {
            Ok(()) => {},
            Err(e) => {
                return Err(e);
            },
        }
    }
    Ok(read_le(contents, off, size.bytes() as usize) as i64)
}

/// Read-only packet buffer.
#[derive(Debug, Clone)]
pub struct PacketBuffer {
    bytes: Vec<u8>,
}

impl View for PacketBuffer {
    type V = Seq<u8>;

    closed spec fn view(&self) -> Seq<u8> {
        self.bytes@
    }
}

impl Default for PacketBuffer {
    /// An empty packet.
    fn default() -> (r: Self)
        ensures
            r@ == Seq::<u8>::empty(),
    {
        PacketBuffer { bytes: Vec::new() }
    }
}

impl From<Vec<u8>> for PacketBuffer {
    /// Takes packet bytes into a buffer.
    fn from(bytes: Vec<u8>) -> (r: Self)
        ensures
            r@ == bytes@,
    {
        PacketBuffer { bytes }
    }
}

impl vstd::std_specs::convert::FromSpecImpl<Vec<u8>> for PacketBuffer {
    open spec fn obeys_from_spec() -> bool {
        false
    }

    closed spec fn from_spec(bytes: Vec<u8>) -> Self {
        PacketBuffer { bytes }
    }
}

impl From<&[u8]> for PacketBuffer {
    /// Copies packet bytes into a buffer.
    fn from(bytes: &[u8]) -> (r: Self)
        ensures
            r@ == bytes@,
    {
        let copy = vstd::slice::slice_to_vec(bytes);
        PacketBuffer { bytes: copy }
    }
}

impl vstd::std_specs::convert::FromSpecImpl<&[u8]> for PacketBuffer {
    open spec fn obeys_from_spec() -> bool {
        false
    }

    closed spec fn from_spec(bytes: &[u8]) -> Self {
        choose|r: PacketBuffer| r@ == bytes@
    }
}

impl PacketBuffer {
    /// Takes packet bytes into the buffer.
    pub fn new(bytes: Vec<u8>) -> (r: Self)
        ensures
            r@ == bytes@,
    {
        PacketBuffer { bytes }
    }

    /// Packet length in bytes.
    pub fn len(&self) -> (r: usize)
        ensures
            r == self@.len(),
    {
        self.bytes.len()
    }

    /// Whether the packet is empty.
    pub fn is_empty(&self) -> (r: bool)
        ensures
            r == (self@.len() == 0),
    {
        self.bytes.len() == 0
    }

    /// Raw packet bytes.
    pub fn as_slice(&self) -> (r: &[u8])
        ensures
            r@ == self@,
    {
        self.bytes.as_slice()
    }

    fn load(&self, addr: i64, size: MemSize, align_checks: bool) -> (r: Result<i64, MemError>)
        requires
            addr >= PACKET_BASE,
        ensures
            forall|m: MemModel|
                m.align == align_checks ==> r == #[trigger] m.load_window(
                    self@,
                    PACKET_BASE as int,
                    addr,
                    size,
                ),
    {
        load_at(self.bytes.as_slice(), PACKET_BASE, addr, size, align_checks)
    }
}

/// Whether bit `j` of a bitset over 64-bit words is set.
pub open spec fn bit_at(words: Seq<u64>, j: int) -> bool {
    (words[j / 64] >> ((j % 64) as u64)) & 1 == 1
}

/// The 512-byte program stack with one initialization bit per byte.
#[derive(Debug, Clone)]
pub struct StackMemory {
    bytes: [u8; 512],
    initialized: [u64; 8],
}

impl StackMemory {
    /// Lowest stack address.
    pub const LOW: i64 = STACK_BASE - 512;

    /// Stack length.
    pub const LEN: i64 = 512;

    /// Stack bytes, lowest address first.
    pub closed spec fn contents(&self) -> Seq<u8> {
        self.bytes@
    }

    /// Which stack bytes were written.
    pub closed spec fn marks(&self) -> Seq<bool> {
        Seq::new(512, |j: int| bit_at(self.initialized@, j))
    }

    fn index(addr: i64, size: MemSize) -> (r: Result<usize, MemError>)
        ensures
            match r {
                Ok(i) => within(addr, size.len(), STACK_BASE - 512, 512) && i == addr - (STACK_BASE
                    - 512),
                Err(e) => !within(addr, size.len(), STACK_BASE - 512, 512) && e
                    == (MemError::StackOverflow { addr, size: size.len() as u8 }),
            },
    {
        let width: i64 = size.bytes() as i64;
        if addr < Self::LOW || addr > STACK_BASE - width {
            return Err(MemError::StackOverflow { addr, size: size.bytes() });
        }
        Ok((addr - Self::LOW) as usize)
    }

    /// Whether every byte in `[i, i + width)` was written.
    fn is_init(&self, i: usize, width: usize) -> (r: bool)
        requires
            i + width <= 512,
        ensures
            r == (forall|j: int| i <= j < i + width ==> #[trigger] self.marks()[j]),
    {
        let mut k: usize = 0;
        while k < width
            invariant
                k <= width,
                i + width <= 512,
                forall|j: int| i <= j < i + k ==> #[trigger] self.marks()[j],
            decreases width - k,
        {
            let j: usize = i + k;
            let word: u64 = self.initialized[j / 64];
            let set: bool = (word >> ((j % 64) as u64)) & 1 == 1;
            if !set {
                assert(!self.marks()[j as int]);
                return false;
            }
            k = k + 1;
        }
        true
    }

    /// Marks every byte in `[i, i + width)` written.
    fn mark_init(&mut self, i: usize, width: usize)
        requires
            i + width <= 512,
        ensures
            final(self).contents() == old(self).contents(),
            final(self).marks() == set_marks(old(self).marks(), i as int, width as nat),
    {
        let mut k: usize = 0;
        assert(self.marks() =~= set_marks(old(self).marks(), i as int, 0));
        while k < width
            invariant
                k <= width,
                i + width <= 512,
                self.contents() == old(self).contents(),
                self.marks() == set_marks(old(self).marks(), i as int, k as nat),
            decreases width - k,
        {
            let j: usize = i + k;
            let ghost before = self.initialized@;
            let ghost marks = self.marks();
            let word: u64 = self.initialized[j / 64];
            let bit: u64 = (j % 64) as u64;
            self.initialized[j / 64] = word | (1u64 << bit);
            proof {
                assert forall|m: int| 0 <= m < 512 implies #[trigger] self.marks()[m] == (marks[m]
                    || m == j) by {
                    lemma_set_bit(word, bit, (m % 64) as u64);
                    if m / 64 != j as int / 64 {
                        assert(self.initialized@[m / 64] == before[m / 64]);
                    }
                }
                assert(self.marks() =~= set_marks(old(self).marks(), i as int, (k + 1) as nat));
            }
            k = k + 1;
        }
    }

    fn load(&self, addr: i64, size: MemSize, align_checks: bool) -> (r: Result<i64, MemError>)
        ensures
            forall|m: MemModel|
                m.align == align_checks && m.stack == self.contents() && m.init == self.marks()
                    ==> r == #[trigger] m.load_stack(addr, size),
    {
        let i: usize = match Self::index(addr, size) {
            Ok(i) => i,
            Err(e) => {
                return Err(e);
            },
        };
        if align_checks {
            match check_alignment(addr, size) {
                Ok(()) => {},
                Err(e) => {
                    return Err(e);
                },
            }
        }
        let width: usize = size.bytes() as usize;
        if !self.is_init(i, width) {
            return Err(MemError::UninitializedRead { addr, size: size.bytes() });
        }
        Ok(read_le(self.bytes.as_slice(), i, width) as i64)
    }

    fn store(&mut self, addr: i64, size: MemSize, value: i64, align_checks: bool) -> (r: Result<
        (),
        MemError,
    >)
        ensures
            match r {
                Err(e) => {
                    &&& *final(self) == *old(self)
                    &&& if !within(addr, size.len(), STACK_BASE - 512, 512) {
                        e == (MemError::StackOverflow { addr, size: size.len() as u8 })
                    } else {
                        &&& align_checks && addr as int % size.len() as int != 0
                        &&& e == (MemError::Misaligned {
                            addr,
                            size: size.len() as u8,
                            align: size.len() as u8,
                        })
                    }
                },
                Ok(()) => {
                    &&& within(addr, size.len(), STACK_BASE - 512, 512)
                    &&& !(align_checks && addr as int % size.len() as int != 0)
                    &&& final(self).contents() == overwrite(
                        old(self).contents(),
                        addr - (STACK_BASE - 512),
                        le_bytes((value as u64) as nat, size.len()),
                    )
                    &&& final(self).marks() == set_marks(
                        old(self).marks(),
                        addr - (STACK_BASE - 512),
                        size.len(),
                    )
                },
            },
    {
        let i: usize = match Self::index(addr, size) {
            Ok(i) => i,
            Err(e) => {
                return Err(e);
            },
        };
        if align_checks {
            match check_alignment(addr, size) {
                Ok(()) => {},
                Err(e) => {
                    return Err(e);
                },
            }
        }
        let width: usize = size.bytes() as usize;
        let mut rest: u64 = value as u64;
        let mut k: usize = 0;
        let ghost piece = le_bytes((value as u64) as nat, size.len());
        proof {
            lemma_bytes_len((value as u64) as nat, size.len());
            assert(piece.take(0) =~= Seq::<u8>::empty());
            assert(overwrite(self.contents(), i as int, piece.take(0)) =~= self.contents());
            assert(piece.skip(0) =~= piece);
        }
        while k < width
            invariant
                k <= width,
                i + width <= 512,
                width == size.len(),
                piece.len() == width,
                piece.skip(k as int) == le_bytes(rest as nat, (width - k) as nat),
                self.contents() == overwrite(old(self).contents(), i as int, piece.take(k as int)),
                self.marks() == old(self).marks(),
            decreases width - k,
        {
            let b: u8 = (rest % 256) as u8;
            let ghost marks = self.marks();
            self.bytes[i + k] = b;
            proof {
                assert(piece.skip(k as int)[0] == b);
                assert(piece[k as int] == b);
                assert(piece.take(k + 1) =~= piece.take(k as int).push(b));
                assert(self.contents() =~= overwrite(
                    old(self).contents(),
                    i as int,
                    piece.take(k + 1),
                ));
                assert(self.marks() =~= marks);
                assert(piece.skip(k + 1) =~= piece.skip(k as int).skip(1));
                assert(le_bytes(rest as nat, (width - k) as nat).skip(1) =~= le_bytes(
                    (rest / 256) as nat,
                    (width - k - 1) as nat,
                ));
            }
            rest = rest / 256;
            k = k + 1;
        }
        assert(piece.take(width as int) =~= piece);
        self.mark_init(i, width);
        Ok(())
    }
}

impl Default for StackMemory {
    /// A zeroed stack with no byte written.
    fn default() -> (r: Self)
        ensures
            r.contents() == MemModel::fresh().stack,
            r.marks() == MemModel::fresh().init,
    {
        let r = StackMemory { bytes: [0u8; 512], initialized: [0u64; 8] };
        proof {
            assert(r.contents() =~= MemModel::fresh().stack);
            assert forall|j: int| 0 <= j < 512 implies !(#[trigger] r.marks()[j]) by {
                lemma_zero_bit((j % 64) as u64);
            }
            assert(r.marks() =~= MemModel::fresh().init);
        }
        r
    }
}

pub proof fn lemma_set_bit(word: u64, bit: u64, other: u64)
    by (bit_vector)
    requires
        bit < 64,
        other < 64,
    ensures
        (((word | (1u64 << bit)) >> other) & 1 == 1) == ((word >> other) & 1 == 1 || other == bit),
{
}

pub proof fn lemma_zero_bit(bit: u64)
    by (bit_vector)
    ensures
        (0u64 >> bit) & 1 == 0,
{
}

/// The interpreter's view of memory.
#[derive(Debug, Clone)]
pub struct MemoryView {
    stack: StackMemory,
    packet: Option<PacketBuffer>,
    xdp_md: [u8; 8],
    map_scratch: Vec<u8>,
    align_checks: bool,
}

impl View for MemoryView {
    type V = MemModel;

    closed spec fn view(&self) -> MemModel {
        MemModel {
            stack: self.stack.contents(),
            init: self.stack.marks(),
            packet: match self.packet {
                Some(p) => Some(p@),
                None => None,
            },
            xdp_md: self.xdp_md@,
            scratch: self.map_scratch@,
            align: self.align_checks,
        }
    }
}

impl Default for MemoryView {
    /// Empty stack, no packet, zeroed context, empty scratch, alignment on.
    fn default() -> (r: Self)
        ensures
            r@ == MemModel::fresh(),
    {
        let r = MemoryView {
            stack: StackMemory::default(),
            packet: None,
            xdp_md: [0u8; 8],
            map_scratch: Vec::new(),
            align_checks: true,
        };
        assert(r@ =~= MemModel::fresh());
        r
    }
}

impl MemoryView {
    /// Classifies an address into its region.
    pub fn classify(addr: i64) -> (r: MemRegion)
        ensures
            r == region_of(addr),
    {
        if addr >= StackMemory::LOW && addr <= STACK_BASE {
            MemRegion::Stack
        } else if addr >= XDP_MD_BASE {
            MemRegion::XdpMd
        } else if addr >= MAP_SCRATCH_BASE {
            MemRegion::MapScratch
        } else if addr >= PACKET_BASE {
            MemRegion::Packet
        } else {
            MemRegion::Unknown
        }
    }

    /// Loads a packet and stages its context.
    pub fn set_packet(&mut self, packet: PacketBuffer)
        ensures
            final(self)@ == old(self)@.with_packet(packet@),
    {
        let len: usize = packet.len();
        let room: u64 = 0xffff_ffff - PACKET_BASE as u64;
        let end: u64 = if len as u64 <= room {
            PACKET_BASE as u64 + len as u64
        } else {
            0xffff_ffff
        };
        self.packet = Some(packet);
        let data: u64 = PACKET_BASE as u64;
        self.xdp_md = [
            (data % 256) as u8,
            (data / 256 % 256) as u8,
            (data / 256 / 256 % 256) as u8,
            (data / 256 / 256 / 256 % 256) as u8,
            (end % 256) as u8,
            (end / 256 % 256) as u8,
            (end / 256 / 256 % 256) as u8,
            (end / 256 / 256 / 256 % 256) as u8,
        ];
        proof {
            reveal_with_fuel(le_bytes, 5);
            let words = le_bytes(data as nat, 4) + le_bytes(end as nat, 4);
            assert(self.xdp_md@ =~= words);
            assert(self@ =~= old(self)@.with_packet(packet@));
        }
    }

    /// Drops the loaded packet and zeroes the context.
    pub fn clear_packet(&mut self)
        ensures
            final(self)@ == old(self)@.without_packet(),
    {
        self.packet = None;
        self.xdp_md = [0u8; 8];
        assert(self@ =~= old(self)@.without_packet());
    }

    /// Raw context bytes.
    pub fn xdp_md(&self) -> (r: &[u8; 8])
        ensures
            r@ == self@.xdp_md,
    {
        &self.xdp_md
    }

    /// Length of the loaded packet, or `None` when there is none.
    pub fn packet_len(&self) -> (r: Option<usize>)
        ensures
            match r {
                Some(n) => self@.packet is Some && n == self@.packet->0.len(),
                None => self@.packet is None,
            },
    {
        match &self.packet {
            Some(p) => Some(p.len()),
            None => None,
        }
    }

    /// Installs the scratch contents.
    pub fn set_map_scratch(&mut self, value: Vec<u8>)
        ensures
            final(self)@ == (MemModel { scratch: value@, ..old(self)@ }),
    {
        self.map_scratch = value;
        assert(self@ =~= (MemModel { scratch: value@, ..old(self)@ }));
    }

    /// Length of the current scratch value.
    pub fn map_scratch_len(&self) -> (r: usize)
        ensures
            r == self@.scratch.len(),
    {
        self.map_scratch.len()
    }

    /// Enables or disables alignment enforcement.
    pub fn set_align_checks(&mut self, enabled: bool)
        ensures
            final(self)@ == (MemModel { align: enabled, ..old(self)@ }),
    {
        self.align_checks = enabled;
        assert(self@ =~= (MemModel { align: enabled, ..old(self)@ }));
    }

    /// Whether alignment is enforced.
    pub fn align_checks(&self) -> (r: bool)
        ensures
            r == self@.align,
    {
        self.align_checks
    }

    /// Loads `size` bytes (little-endian, zero-extended) from `addr`.
    pub fn load(&self, addr: i64, size: MemSize) -> (r: Result<i64, MemError>)
        ensures
            r == self@.load(addr, size),
    {
        match Self::classify(addr) {
            MemRegion::Stack => self.stack.load(addr, size, self.align_checks),
            MemRegion::Packet => match &self.packet {
                None => Err(MemError::NoPacket),
                Some(packet) => packet.load(addr, size, self.align_checks),
            },
            MemRegion::MapScratch => self.scratch_load(addr, size),
            MemRegion::XdpMd => self.xdp_md_load(addr, size),
            MemRegion::Unknown => Err(MemError::OutOfBounds { addr, size: size.bytes() }),
        }
    }

    /// Reads `len` bytes for a map key or value. Bytes need no alignment; a
    /// range that cannot be copied at once is read byte by byte, so that the
    /// fault names the exact byte.
    pub fn load_bytes(&self, addr: i64, len: usize) -> (r: Result<Vec<u8>, MemError>)
        ensures
            match r {
                Ok(bytes) => self@.load_bytes(addr, len as nat) == Ok::<Seq<u8>, MemError>(bytes@),
                Err(e) => self@.load_bytes(addr, len as nat) == Err::<Seq<u8>, MemError>(e),
            },
    {
        if len == 0 {
            let empty: Vec<u8> = Vec::new();
            assert(empty@ =~= Seq::<u8>::empty());
            return Ok(empty);
        }
        match self.load_bytes_bulk(addr, len) {
            Some(bytes) => Ok(bytes),
            None => self.load_bytes_slow(addr, len),
        }
    }

    /// Whole-range attempt of [`MemoryView::load_bytes`].
    fn load_bytes_bulk(&self, addr: i64, len: usize) -> (r: Option<Vec<u8>>)
        ensures
            match r {
                Some(bytes) => self@.bulk(addr, len as nat) == Some(bytes@),
                None => self@.bulk(addr, len as nat) is None,
            },
    {
        match Self::classify(addr) {
            MemRegion::Stack => {
                let off: usize = (addr - StackMemory::LOW) as usize;
                if len > STACK_SIZE - off {
                    return None;
                }
                if !self.stack.is_init(off, len) {
                    assert(!self@.readable(off as int, len as nat)) by {
                        let j = choose|j: int|
                            off <= j < off + len && !(#[trigger] self.stack.marks()[j]);
                        assert(!self@.init[j]);
                    }
                    return None;
                }
                assert(self@.readable(off as int, len as nat));
                copy_range(self.stack.bytes.as_slice(), off as u64, len)
            },
            MemRegion::Packet => match &self.packet {
                None => None,
                Some(packet) => copy_range(packet.as_slice(), (addr - PACKET_BASE) as u64, len),
            },
            MemRegion::MapScratch => copy_range(
                self.map_scratch.as_slice(),
                (addr - MAP_SCRATCH_BASE) as u64,
                len,
            ),
            MemRegion::XdpMd => copy_range(
                self.xdp_md.as_slice(),
                (addr - XDP_MD_BASE) as u64,
                len,
            ),
            MemRegion::Unknown => None,
        }
    }

    /// Byte-wise part of [`MemoryView::load_bytes`]: the first fault names
    /// its exact address.
    fn load_bytes_slow(&self, addr: i64, len: usize) -> (r: Result<Vec<u8>, MemError>)
        ensures
            match r {
                Ok(bytes) => self@.bytewise(addr, len as nat) == Ok::<Seq<u8>, MemError>(bytes@),
                Err(e) => self@.bytewise(addr, len as nat) == Err::<Seq<u8>, MemError>(e),
            },
    {
        let mut out: Vec<u8> = Vec::new();
        let mut a: i64 = addr;
        let mut k: usize = 0;
        proof {
            if let Ok(rest) = self@.bytewise(addr, len as nat) {
                assert(out@ + rest =~= rest);
            }
        }
        while k < len
            invariant
                k <= len,
                match self@.bytewise(a, (len - k) as nat) {
                    Ok(rest) => self@.bytewise(addr, len as nat) == Ok::<Seq<u8>, MemError>(
                        out@ + rest,
                    ),
                    Err(e) => self@.bytewise(addr, len as nat) == Err::<Seq<u8>, MemError>(e),
                },
            decreases len - k,
        {
            match self.load(a, MemSize::B) {
                Err(e) => {
                    return Err(e);
                },
                Ok(b) => {
                    let ghost before = out@;
                    out.push(b as u8);
                    proof {
                        if let Ok(rest) = self@.bytewise(a.wrapping_add(1), (len - k - 1) as nat) {
                            assert(before + (seq![b as u8] + rest) =~= out@ + rest);
                        }
                    }
                },
            }
            a = a.wrapping_add(1);
            k = k + 1;
        }
        assert(out@ + Seq::<u8>::empty() =~= out@);
        Ok(out)
    }

    /// Context load: bounds, then alignment.
    fn xdp_md_load(&self, addr: i64, size: MemSize) -> (r: Result<i64, MemError>)
        requires
            addr >= XDP_MD_BASE,
        ensures
            r == self@.load_window(self@.xdp_md, XDP_MD_BASE as int, addr, size),
    {
        load_at(self.xdp_md.as_slice(), XDP_MD_BASE, addr, size, self.align_checks)
    }

    /// Scratch load: bounds, then alignment.
    fn scratch_load(&self, addr: i64, size: MemSize) -> (r: Result<i64, MemError>)
        requires
            addr >= MAP_SCRATCH_BASE,
        ensures
            r == self@.load_window(self@.scratch, MAP_SCRATCH_BASE as int, addr, size),
    {
        load_at(self.map_scratch.as_slice(), MAP_SCRATCH_BASE, addr, size, self.align_checks)
    }

    /// Stores the low `size` bytes of `value` at `addr`. Packet and context
    /// memory are read-only; a stack store marks its bytes written.
    pub fn store(&mut self, addr: i64, size: MemSize, value: i64) -> (r: Result<(), MemError>)
        ensures
            match r {
                Ok(()) => old(self)@.store_fault(addr, size) is None && final(self)@ == old(
                    self,
                )@.stored(addr, size, value),
                Err(e) => old(self)@.store_fault(addr, size) == Some(e) && final(self)@ == old(
                    self,
                )@,
            },
    {
        match Self::classify(addr) {
            MemRegion::Stack => {
                let align_checks = self.align_checks;
                let r = self.stack.store(addr, size, value, align_checks);
                proof {
                    if r is Ok {
                        assert(self@ =~= old(self)@.stored(addr, size, value));
                    } else {
                        assert(self@ =~= old(self)@);
                    }
                }
                r
            },
            MemRegion::MapScratch => self.scratch_store(addr, size, value),
            MemRegion::Packet | MemRegion::XdpMd | MemRegion::Unknown => Err(
                MemError::OutOfBounds { addr, size: size.bytes() },
            ),
        }
    }

    /// Scratch store: the same order of checks as the load path.
    fn scratch_store(&mut self, addr: i64, size: MemSize, value: i64) -> (r: Result<(), MemError>)
        requires
            region_of(addr) == MemRegion::MapScratch,
        ensures
            match r {
                Ok(()) => old(self)@.store_fault(addr, size) is None && final(self)@ == old(
                    self,
                )@.stored(addr, size, value),
                Err(e) => old(self)@.store_fault(addr, size) == Some(e) && final(self)@ == old(
                    self,
                )@,
            },
    {
        let off: usize = match window_offset(
            addr,
            size,
            MAP_SCRATCH_BASE,
            self.map_scratch.len(),
        ) {
            Ok(off) => off,
            Err(e) => {
                return Err(e);
            },
        };
        if self.align_checks {
            match check_alignment(addr, size) {
                Ok(()) => {},
                Err(e) => {
                    return Err(e);
                },
            }
        }
        let width: usize = size.bytes() as usize;
        let mut rest: u64 = value as u64;
        let mut k: usize = 0;
        let ghost piece = le_bytes((value as u64) as nat, size.len());
        let ghost before = self.map_scratch@;
        proof {
            lemma_bytes_len((value as u64) as nat, size.len());
            assert(piece.take(0) =~= Seq::<u8>::empty());
            assert(overwrite(before, off as int, piece.take(0)) =~= before);
            assert(piece.skip(0) =~= piece);
        }
        while k < width
            invariant
                k <= width,
                off + width <= before.len() <= usize::MAX,
                width == size.len(),
                piece.len() == width,
                piece.skip(k as int) == le_bytes(rest as nat, (width - k) as nat),
                self.map_scratch@ == overwrite(before, off as int, piece.take(k as int)),
                self.stack == old(self).stack,
                self.packet == old(self).packet,
                self.xdp_md == old(self).xdp_md,
                self.align_checks == old(self).align_checks,
            decreases width - k,
        {
            let b: u8 = (rest % 256) as u8;
            self.map_scratch.set(off + k, b);
            proof {
                assert(piece.skip(k as int)[0] == b);
                assert(piece[k as int] == b);
                assert(piece.take(k + 1) =~= piece.take(k as int).push(b));
                assert(self.map_scratch@ =~= overwrite(before, off as int, piece.take(k + 1)));
                assert(piece.skip(k + 1) =~= piece.skip(k as int).skip(1));
                assert(le_bytes(rest as nat, (width - k) as nat).skip(1) =~= le_bytes(
                    (rest / 256) as nat,
                    (width - k - 1) as nat,
                ));
            }
            rest = rest / 256;
            k = k + 1;
        }
        assert(piece.take(width as int) =~= piece);
        assert(self@ =~= old(self)@.stored(addr, size, value));
        Ok(())
    }
}

/// Copies `len` bytes at `off`, if they are there.
fn copy_range(s: &[u8], off: u64, len: usize) -> (r: Option<Vec<u8>>)
    ensures
        match r {
            Some(bytes) => copied(s@, off as int, len as nat) == Some(bytes@),
            None => copied(s@, off as int, len as nat) is None,
        },
{
    if off > s.len() as u64 || len > s.len() - off as usize {
        return None;
    }
    let start: usize = off as usize;
    let total: usize = s.len();
    let mut out: Vec<u8> = Vec::new();
    let mut k: usize = 0;
    assert(out@ =~= s@.subrange(start as int, start as int));
    while k < len
        invariant
            k <= len,
            start + len <= s@.len(),
            s@.len() == total,
            out@ == s@.subrange(start as int, start + k),
        decreases len - k,
    {
        out.push(s[start + k]);
        assert(s@.subrange(start as int, start + k + 1) =~= s@.subrange(
            start as int,
            start + k,
        ).push(s@[start + k]));
        k = k + 1;
    }
    Some(out)
}

/// The low bytes of a value, zero-extended.
pub open spec fn truncated(value: i64, size: MemSize) -> i64 {
    match size {
        MemSize::B => ((value as u64) % 0x100) as i64,
        MemSize::H => ((value as u64) % 0x1_0000) as i64,
        MemSize::W => ((value as u64) % 0x1_0000_0000) as i64,
        MemSize::Dw => value,
    }
}

/// A store that is not refused is read back by a load of the same address
/// and width, truncated to the width.
pub proof fn store_load_roundtrip(mem: MemModel, addr: i64, size: MemSize, value: i64)
    requires
        mem.wf(),
        mem.store_fault(addr, size) is None,
    ensures
        mem.stored(addr, size, value).load(addr, size) == Ok::<i64, MemError>(
            truncated(value, size),
        ),
{
    let v = (value as u64) as nat;
    let piece = le_bytes(v, size.len());
    lemma_bytes_len(v, size.len());
    lemma_word_of_bytes(v, size.len());
    lemma_pow256_values();
    assert((value as u64) as i64 == value) by (bit_vector);
    let after = mem.stored(addr, size, value);
    assert(word_value(piece) == truncated(value, size)) by {
        match size {
            MemSize::B => {
                assert(le_word(piece) == v % 0x100);
            },
            MemSize::H => {
                assert(le_word(piece) == v % 0x1_0000);
            },
            MemSize::W => {
                assert(le_word(piece) == v % 0x1_0000_0000);
            },
            MemSize::Dw => {
                assert(le_word(piece) == v % 0x1_0000_0000_0000_0000);
            },
        }
    }
    if region_of(addr) == MemRegion::Stack {
        let off = addr - (STACK_BASE - 512);
        assert(after.stack.subrange(off, off + size.len()) =~= piece);
        assert(after.readable(off, size.len()));
    } else {
        let off = addr - MAP_SCRATCH_BASE;
        assert(after.scratch.subrange(off, off + size.len()) =~= piece);
        assert(after.scratch.len() == mem.scratch.len());
    }
}

/// A store changes no byte outside its range: a load of bytes that the store
/// does not touch gives the same as before, in every region.
pub proof fn store_keeps_other_bytes(
    mem: MemModel,
    addr: i64,
    size: MemSize,
    value: i64,
    other: i64,
    other_size: MemSize,
)
    requires
        mem.wf(),
        mem.store_fault(addr, size) is None,
        other + other_size.len() <= addr || addr + size.len() <= other,
    ensures
        mem.stored(addr, size, value).load(other, other_size) == mem.load(other, other_size),
{
    let v = (value as u64) as nat;
    lemma_bytes_len(v, size.len());
    let after = mem.stored(addr, size, value);
    if region_of(addr) == MemRegion::Stack && region_of(other) == MemRegion::Stack {
        let off = other - (STACK_BASE - 512);
        if within(other, other_size.len(), STACK_BASE - 512, 512) {
            assert(after.stack.subrange(off, off + other_size.len()) =~= mem.stack.subrange(
                off,
                off + other_size.len(),
            ));
            assert forall|j: int|
                #![trigger after.init[j]]
                #![trigger mem.init[j]]
                off <= j < off + other_size.len() implies after.init[j] == mem.init[j] by {}
            if mem.readable(off, other_size.len()) {
                assert(after.readable(off, other_size.len()));
            }
            if after.readable(off, other_size.len()) {
                assert(mem.readable(off, other_size.len()));
            }
        }
    } else if region_of(other) == MemRegion::Stack {
        let off = other - (STACK_BASE - 512);
        assert(after.readable(off, other_size.len()) == mem.readable(off, other_size.len())) by {
            if mem.readable(off, other_size.len()) {
                assert forall|j: int| off <= j < off + other_size.len() implies #[trigger] after.init[j] by {
                    assert(mem.init[j]);
                }
            }
            if after.readable(off, other_size.len()) {
                assert forall|j: int| off <= j < off + other_size.len() implies #[trigger] mem.init[j] by {
                    assert(after.init[j]);
                }
            }
        }
    } else if region_of(other) == region_of(addr) {
        let off = other - MAP_SCRATCH_BASE;
        assert(after.scratch.len() == mem.scratch.len());
        if within(other, other_size.len(), MAP_SCRATCH_BASE as int, mem.scratch.len()) {
            assert(after.scratch.subrange(off, off + other_size.len()) =~= mem.scratch.subrange(
                off,
                off + other_size.len(),
            ));
        }
    }
}

/// On a fresh stack every aligned load inside the stack reports an
/// uninitialized read.
pub proof fn fresh_stack_never_readable(addr: i64, size: MemSize)
    requires
        within(addr, size.len(), STACK_BASE - 512, 512),
        addr as int % size.len() as int == 0,
    ensures
        MemModel::fresh().load(addr, size) == Err::<i64, MemError>(
            MemError::UninitializedRead { addr, size: size.len() as u8 },
        ),
{
    let off = addr - (STACK_BASE - 512);
    assert(!MemModel::fresh().init[off]);
}

/// Outside every region both loads and stores are out of bounds.
pub proof fn unknown_region_always_oob(mem: MemModel, addr: i64, size: MemSize)
    requires
        region_of(addr) == MemRegion::Unknown,
    ensures
        mem.load(addr, size) == Err::<i64, MemError>(
            MemError::OutOfBounds { addr, size: size.len() as u8 },
        ),
        mem.store_fault(addr, size) == Some(
            MemError::OutOfBounds { addr, size: size.len() as u8 },
        ),
{
}

} // verus!
