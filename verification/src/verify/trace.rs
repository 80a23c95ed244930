//! Verification trace: one snapshot of the abstract state per instruction
//! that was visited.
use vstd::prelude::*;
use vstd::string::StringExecFns;

use crate::verify::state::{Range, RegType, STACK_BYTES, STACK_BYTES_I32};
use crate::vm::memory::{bit_at, lemma_set_bit, lemma_zero_bit};

verus! {

/// Snapshot of the state after one instruction.
#[derive(Debug)]
pub struct TraceEntry {
    /// Instruction index.
    pub pc: usize,
    /// Disassembly of the instruction.
    pub insns: String,
    /// Registers `r0` to `r10`.
    pub regs: [RegSummary; 11],
    /// Stack slots that can be read.
    pub stack_init: Vec<StackSummary>,
    /// What the instruction does.
    pub action: String,
}

/// Summary of a register.
#[derive(Debug, Clone, Copy)]
pub struct RegSummary {
    /// Register number.
    pub r: usize,
    /// Name of the type.
    pub ty: &'static str,
    /// Bounds of a scalar or of a packet offset.
    pub range: Option<[i64; 2]>,
    /// Offset of a stack pointer.
    pub offset: Option<i32>,
}

/// Summary of a stack slot.
#[derive(Debug)]
pub struct StackSummary {
    /// Byte offset from the frame pointer.
    pub offset: i32,
    /// What is known of the value.
    pub value: String,
}

/// Contents of a [`RegSummary`].
#[verifier::ext_equal]
pub struct RegLine {
    /// Register number.
    pub r: int,
    /// Name of the type.
    pub ty: Seq<char>,
    /// Bounds.
    pub range: Option<Seq<i64>>,
    /// Stack offset.
    pub offset: Option<i32>,
}

impl View for RegSummary {
    type V = RegLine;

    open spec fn view(&self) -> RegLine {
        RegLine {
            r: self.r as int,
            ty: self.ty@,
            range: match self.range {
                Some(bounds) => Some(bounds@),
                None => None,
            },
            offset: self.offset,
        }
    }
}

/// Contents of a [`StackSummary`].
#[verifier::ext_equal]
pub struct StackLine {
    /// Byte offset from the frame pointer.
    pub offset: int,
    /// What is known of the value.
    pub value: Seq<char>,
}

impl View for StackSummary {
    type V = StackLine;

    open spec fn view(&self) -> StackLine {
        StackLine { offset: self.offset as int, value: self.value@ }
    }
}

/// Contents of a [`TraceEntry`].
#[verifier::ext_equal]
pub struct EntryModel {
    /// Instruction index.
    pub pc: int,
    /// Disassembly of the instruction.
    pub insns: Seq<char>,
    /// Registers.
    pub regs: Seq<RegLine>,
    /// Stack slots that can be read.
    pub stack_init: Seq<StackLine>,
    /// What the instruction does.
    pub action: Seq<char>,
}

/// Contents of stack summaries.
pub open spec fn stack_lines(s: Seq<StackSummary>) -> Seq<StackLine> {
    s.map_values(|l: StackSummary| l@)
}

/// Contents of register summaries.
pub open spec fn reg_lines(s: Seq<RegSummary>) -> Seq<RegLine> {
    s.map_values(|l: RegSummary| l@)
}

impl View for TraceEntry {
    type V = EntryModel;

    open spec fn view(&self) -> EntryModel {
        EntryModel {
            pc: self.pc as int,
            insns: self.insns@,
            regs: reg_lines(self.regs@),
            stack_init: stack_lines(self.stack_init@),
            action: self.action@,
        }
    }
}

/// Bounds of a range, as the two ends of an interval.
pub open spec fn bounds_of(r: Range) -> Option<Seq<i64>> {
    match r {
        Range::Interval { lo, hi } => Some(seq![lo, hi]),
        _ => None,
    }
}

/// The summary of a register.
pub open spec fn reg_line(index: int, reg: RegType) -> RegLine {
    match reg {
        RegType::NotInit => RegLine { r: index, ty: "not_init"@, range: None, offset: None },
        RegType::Scalar(r) => RegLine {
            r: index,
            ty: match r {
                Range::Bottom => "bottom"@,
                Range::Top => "unknown"@,
                Range::Interval { .. } => "scalar"@,
            },
            range: bounds_of(r),
            offset: None,
        },
        RegType::StackPtr { offset } => RegLine {
            r: index,
            ty: "stack_ptr"@,
            range: None,
            offset: Some(offset),
        },
        RegType::MapPtr { .. } => RegLine { r: index, ty: "map_ptr"@, range: None, offset: None },
        RegType::MaybeMapPtr { .. } => RegLine {
            r: index,
            ty: "maybe_map_ptr"@,
            range: None,
            offset: None,
        },
        RegType::XdpMdPtr => RegLine { r: index, ty: "xdp_md_ptr"@, range: None, offset: None },
        RegType::PacketPtr { offset } => RegLine {
            r: index,
            ty: "packet_ptr"@,
            range: bounds_of(offset),
            offset: None,
        },
    }
}

/// Summarizes a register.
pub fn format_reg(index: usize, reg: &RegType) -> (r: RegSummary)
    ensures
        r@ == reg_line(index as int, *reg),
{
    let r = match *reg {
        RegType::NotInit => RegSummary { r: index, ty: "not_init", range: None, offset: None },
        RegType::Scalar(Range::Bottom) => RegSummary {
            r: index,
            ty: "bottom",
            range: None,
            offset: None,
        },
        RegType::Scalar(Range::Top) => RegSummary {
            r: index,
            ty: "unknown",
            range: None,
            offset: None,
        },
        RegType::Scalar(Range::Interval { lo, hi }) => RegSummary {
            r: index,
            ty: "scalar",
            range: Some([lo, hi]),
            offset: None,
        },
        RegType::StackPtr { offset } => RegSummary {
            r: index,
            ty: "stack_ptr",
            range: None,
            offset: Some(offset),
        },
        RegType::MapPtr { .. } => RegSummary { r: index, ty: "map_ptr", range: None, offset: None },
        RegType::MaybeMapPtr { .. } => RegSummary {
            r: index,
            ty: "maybe_map_ptr",
            range: None,
            offset: None,
        },
        RegType::XdpMdPtr => RegSummary { r: index, ty: "xdp_md_ptr", range: None, offset: None },
        RegType::PacketPtr { offset: Range::Interval { lo, hi } } => RegSummary {
            r: index,
            ty: "packet_ptr",
            range: Some([lo, hi]),
            offset: None,
        },
        RegType::PacketPtr { .. } => RegSummary {
            r: index,
            ty: "packet_ptr",
            range: None,
            offset: None,
        },
    };
    assert(r@ =~= reg_line(index as int, *reg)) by {
        match r.range {
            Some(b) => {
                assert(b@ =~= bounds_of(
                    match *reg {
                        RegType::Scalar(x) => x,
                        RegType::PacketPtr { offset } => offset,
                        _ => Range::Top,
                    },
                )->0);
            },
            None => {},
        }
    }
    r
}

/// The marks that the bits of eight words hold.
pub open spec fn marks_of(words: Seq<u64>) -> Seq<bool> {
    Seq::new(512, |j: int| bit_at(words, j))
}

/// Whether all eight bytes of a stack slot were written.
pub open spec fn slot_full(marks: Seq<bool>, slot: int) -> bool {
    forall|j: int| slot * 8 <= j < slot * 8 + 8 ==> #[trigger] marks[j]
}

/// The summaries of the full slots below slot `n`.
pub open spec fn full_slots(marks: Seq<bool>, n: nat) -> Seq<StackLine>
    decreases n,
{
    if n == 0 {
        Seq::empty()
    } else {
        let rest = full_slots(marks, (n - 1) as nat);
        if slot_full(marks, n - 1) {
            rest.push(StackLine { offset: (n - 1) * 8 - 512, value: "unknown"@ })
        } else {
            rest
        }
    }
}

/// Summarizes the stack slots whose bytes were all written, from a bitmap of
/// the written bytes.
pub fn format_stack(init: &[u64; 8]) -> (r: Vec<StackSummary>)
    ensures
        stack_lines(r@) == full_slots(marks_of(init@), 64),
{
    let mut out: Vec<StackSummary> = Vec::new();
    let mut slot: usize = 0;
    assert(stack_lines(out@) =~= Seq::empty());
    while slot < 64
        invariant
            slot <= 64,
            init@.len() == 8,
            stack_lines(out@) == full_slots(marks_of(init@), slot as nat),
        decreases 64 - slot,
    {
        let mut full = true;
        let mut j: usize = 0;
        while j < 8
            invariant
                j <= 8,
                slot < 64,
                init@.len() == 8,
                full == forall|k: int|
                    slot * 8 <= k < slot * 8 + j ==> #[trigger] marks_of(init@)[k],
            decreases 8 - j,
        {
            let byte: usize = slot * 8 + j;
            let word: u64 = init[byte / 64];
            if (word >> ((byte % 64) as u64)) & 1 != 1 {
                full = false;
                assert(!marks_of(init@)[byte as int]);
            } else {
                assert(marks_of(init@)[byte as int]);
            }
            j = j + 1;
        }
        if full {
            let ghost before = stack_lines(out@);
            let line = StackSummary {
                offset: slot as i32 * 8 - STACK_BYTES_I32,
                value: String::from_str("unknown"),
            };
            let ghost l = line@;
            out.push(line);
            assert(stack_lines(out@) =~= before.push(l));
            assert(slot_full(marks_of(init@), slot as int));
        } else {
            assert(!slot_full(marks_of(init@), slot as int));
        }
        slot = slot + 1;
    }
    out
}

/// Packs marks into the bits of eight words.
pub fn pack_marks(marks: &[bool; STACK_BYTES]) -> (r: [u64; 8])
    ensures
        marks_of(r@) == marks@,
{
    let mut words: [u64; 8] = [0u64; 8];
    let mut j: usize = 0;
    proof {
        assert forall|k: int| 0 <= k < 512 implies !#[trigger] bit_at(words@, k) by {
            lemma_zero_bit((k % 64) as u64);
        }
    }
    while j < 512
        invariant
            j <= 512,
            marks@.len() == 512,
            words@.len() == 8,
            forall|k: int| 0 <= k < 512 ==> #[trigger] bit_at(words@, k) == (k < j && marks@[k]),
        decreases 512 - j,
    {
        if marks[j] {
            let ghost before = words@;
            let bit: u64 = (j % 64) as u64;
            let word: u64 = words[j / 64];
            words[j / 64] = word | (1u64 << bit);
            proof {
                assert forall|k: int| 0 <= k < 512 implies #[trigger] bit_at(words@, k) == (k < j + 1
                    && marks@[k]) by {
                    assert(bit_at(before, k) == (k < j && marks@[k]));
                    if k / 64 == j as int / 64 {
                        lemma_set_bit(word, bit, (k % 64) as u64);
                    }
                }
            }
        }
        j = j + 1;
    }
    assert(marks_of(words@) =~= marks@);
    words
}

/// The summaries of a register file.
pub open spec fn regs_lines(regs: Seq<RegType>) -> Seq<RegLine> {
    Seq::new(11, |i: int| reg_line(i, regs[i]))
}

/// Summarizes a register file.
pub fn format_regs(regs: &[RegType; 11]) -> (r: [RegSummary; 11])
    ensures
        reg_lines(r@) == regs_lines(regs@),
{
    let r = [
        format_reg(0, &regs[0]),
        format_reg(1, &regs[1]),
        format_reg(2, &regs[2]),
        format_reg(3, &regs[3]),
        format_reg(4, &regs[4]),
        format_reg(5, &regs[5]),
        format_reg(6, &regs[6]),
        format_reg(7, &regs[7]),
        format_reg(8, &regs[8]),
        format_reg(9, &regs[9]),
        format_reg(10, &regs[10]),
    ];
    assert(reg_lines(r@) =~= regs_lines(regs@));
    r
}

} // verus!
