//! Register allocation: a linear scan over live ranges, with pinned entry
//! pointers and coalescing.
//!
//! Homes are assigned in the order of definition. `r10` is the home of the
//! frame pointer only. `r1` is the home of the context pointer; otherwise it
//! is handed out only to a call argument, or to a value that is coalesced
//! with one that sits there. A value that is live across a call is never in
//! `r0`, which every call overwrites.
use vstd::prelude::*;

use crate::isa::alu::end_width;
use crate::isa::insn::{AluOp, Reg};
use crate::ssa::ranges::live_ranges;
use crate::ssa::{
    const_value, live_at, live_mask, Op, Prog, SsaError, SsaInsn, SsaOperand, SsaProgram, SsaValue,
};

verus! {

/// A home that is taken: the register, the end of the range that holds it,
/// and the value.
pub type Taken = (Reg, usize, usize);

/// The registers that are handed out in this order: `r0`, then `r2` to `r9`.
pub open spec fn pool(i: int) -> Reg {
    if i == 0 {
        Reg(0)
    } else {
        Reg((i + 1) as u8)
    }
}

/// The register at a position of the pool.
pub fn pool_reg(i: usize) -> (r: Reg)
    requires
        i < 9,
    ensures
        r == pool(i as int),
        r.valid(),
{
    if i == 0 {
        Reg(0)
    } else {
        Reg((i + 1) as u8)
    }
}

/// Whether an instruction is a byte swap that may trap.
pub open spec fn may_trap(prog: Prog, op: Op) -> bool {
    op matches Op::BinOp { op: AluOp::End(_), rhs, .. } && !(prog.const_of(rhs) matches Some(w)
        && end_width(w))
}

impl Prog {
    /// Whether a value occurs in a list of uses.
    pub open spec fn in_list(list: Seq<(usize, SsaValue)>, id: int) -> bool {
        exists|k: int| 0 <= k < list.len() && (#[trigger] list[k]).1.0 == id
    }

    /// Whether the instruction at `i` needs a register for the value that it
    /// defines although nothing reads it: a load, or a byte swap that may
    /// trap.
    pub open spec fn must_write(self, i: int, id: int) -> bool {
        let op = self.insns[i];
        (op is Load || may_trap(self, op)) && (op.def() matches Some(v) && v.0 == id)
    }

    /// Whether a value needs a register.
    pub open spec fn is_used(self, id: int) -> bool {
        ||| Prog::in_list(self.uses_from(0), id)
        ||| Prog::in_list(self.starts_from(0), id)
        ||| exists|i: int| 0 <= i < self.insns.len() && #[trigger] self.must_write(i, id)
    }

    /// The entry pointers below instruction `i` that are used, with their
    /// registers, in order.
    pub open spec fn pinned(self, i: nat) -> Seq<Taken>
        decreases i,
    {
        if i == 0 {
            Seq::empty()
        } else {
            let rest = self.pinned((i - 1) as nat);
            let pin = match self.insns[i - 1] {
                Op::FramePtr { dst } => Some((dst, Reg(10))),
                Op::EntryCtx { dst } => Some((dst, Reg(1))),
                _ => None,
            };
            match pin {
                Some((v, reg)) => if v.0 < self.sites.len() && self.is_used(v.0 as int) {
                    rest.push((reg, self.range_of(v.0 as int).1, v.0 as usize))
                } else {
                    rest
                },
                None => rest,
            }
        }
    }

    /// The argument registers into which calls below instruction `i` take a
    /// value, in order.
    pub open spec fn arg_regs(self, id: int, i: nat) -> Seq<Reg>
        decreases i,
    {
        if i == 0 {
            Seq::empty()
        } else {
            let rest = self.arg_regs(id, (i - 1) as nat);
            match self.insns[i - 1] {
                Op::Call { args, .. } => rest + arg_positions(args, id, 5),
                _ => rest,
            }
        }
    }

    /// Whether a range with no call strictly inside may sit in `r0`.
    pub open spec fn r0_free(self, start: usize, end: usize) -> bool {
        forall|i: int|
            start < i < end && 0 <= i < self.insns.len() && live_at(self.nodes, i) ==> !(
            #[trigger] self.insns[i] is Call)
    }
}

/// The registers of the first `n` arguments that are a value.
pub open spec fn arg_positions(args: Seq<SsaValue>, id: int, n: nat) -> Seq<Reg>
    decreases n,
{
    if n == 0 {
        Seq::empty()
    } else {
        let rest = arg_positions(args, id, (n - 1) as nat);
        if args[n - 1].0 == id {
            rest.push(Reg(n as u8))
        } else {
            rest
        }
    }
}

/// The homes that are still taken at a position.
pub open spec fn still_taken(active: Seq<Taken>, start: usize) -> Seq<Taken>
    decreases active.len(),
{
    if active.len() == 0 {
        Seq::empty()
    } else {
        let rest = still_taken(active.drop_last(), start);
        if active.last().1 > start {
            rest.push(active.last())
        } else {
            rest
        }
    }
}

/// Whether no value holds a register.
pub open spec fn is_free(active: Seq<Taken>, home: Reg) -> bool {
    forall|i: int| 0 <= i < active.len() ==> (#[trigger] active[i]).0 != home
}

impl Prog {
    /// The home of a value.
    pub open spec fn home_in(homes: Seq<Option<Reg>>, v: SsaValue) -> Option<Reg> {
        if v.0 < homes.len() {
            homes[v.0 as int]
        } else {
            None
        }
    }

    /// The home of the first input of a phi from input `k` on that is free.
    pub open spec fn phi_home(
        homes: Seq<Option<Reg>>,
        active: Seq<Taken>,
        inputs: Seq<(usize, SsaValue)>,
        k: nat,
    ) -> Option<Reg>
        decreases inputs.len() - k,
    {
        if k >= inputs.len() {
            None
        } else {
            match Prog::home_in(homes, inputs[k as int].1) {
                Some(home) => if home != Reg(10) && is_free(active, home) {
                    Some(home)
                } else {
                    Prog::phi_home(homes, active, inputs, k + 1)
                },
                None => Prog::phi_home(homes, active, inputs, k + 1),
            }
        }
    }

    /// The home of the left operand of an operation, if nothing but that
    /// operand holds it, and the operation is its last use.
    pub open spec fn lhs_home(
        self,
        homes: Seq<Option<Reg>>,
        active: Seq<Taken>,
        id: int,
    ) -> Option<Reg> {
        let start = self.range_of(id).0;
        match self.def_of(SsaValue(id as u32)) {
            Some(Op::BinOp { lhs: SsaOperand::Value(lhs), .. }) => match Prog::home_in(homes, lhs) {
                Some(home) => if home != Reg(10) && (forall|i: int|
                    0 <= i < active.len() ==> (#[trigger] active[i]).0 != home || (active[i].2 == lhs.0
                        && active[i].1 == start + 1 && self.range_of(lhs.0 as int).0 <= start)) {
                    Some(home)
                } else {
                    None
                },
                None => None,
            },
            _ => None,
        }
    }

    /// Whether a value may take a register.
    pub open spec fn may_take(self, active: Seq<Taken>, id: int, home: Reg) -> bool {
        let (start, end) = self.range_of(id);
        is_free(active, home) && (home != Reg(0) || self.r0_free(start, end))
    }

    /// The first of the preferred registers from `k` on that a value may
    /// take.
    pub open spec fn arg_home(self, active: Seq<Taken>, id: int, prefs: Seq<Reg>, k: nat) -> Option<
        Reg,
    >
        decreases prefs.len() - k,
    {
        if k >= prefs.len() {
            None
        } else if self.may_take(active, id, prefs[k as int]) {
            Some(prefs[k as int])
        } else {
            self.arg_home(active, id, prefs, k + 1)
        }
    }

    /// The first register of the pool from `k` on that a value may take.
    pub open spec fn pool_home(self, active: Seq<Taken>, id: int, k: nat) -> Option<Reg>
        decreases 9 - k,
    {
        if k >= 9 {
            None
        } else if self.may_take(active, id, pool(k as int)) {
            Some(pool(k as int))
        } else {
            self.pool_home(active, id, k + 1)
        }
    }

    /// A coalescing choice, unless it is `r0` and a call is inside the range.
    pub open spec fn unless_called(self, id: int, home: Option<Reg>) -> Option<Reg> {
        let (start, end) = self.range_of(id);
        if home == Some(Reg(0)) && !self.r0_free(start, end) {
            None
        } else {
            home
        }
    }

    /// The home for a value: that of a phi input, that of the left operand,
    /// an argument register, or the first free one of the pool.
    pub open spec fn choose_home(self, homes: Seq<Option<Reg>>, active: Seq<Taken>, id: int) -> Option<
        Reg,
    > {
        let by_phi = match self.def_of(SsaValue(id as u32)) {
            Some(Op::Phi { inputs, .. }) => self.unless_called(
                id,
                Prog::phi_home(homes, active, inputs, 0),
            ),
            _ => None,
        };
        if by_phi is Some {
            by_phi
        } else {
            let by_lhs = self.unless_called(id, self.lhs_home(homes, active, id));
            if by_lhs is Some {
                by_lhs
            } else {
                let by_arg = self.arg_home(active, id, self.arg_regs(id, self.insns.len()), 0);
                if by_arg is Some {
                    by_arg
                } else {
                    self.pool_home(active, id, 0)
                }
            }
        }
    }

    /// The homes after the values from `k` on of an order are placed, if
    /// there are enough registers.
    pub open spec fn place_from(
        self,
        order: Seq<usize>,
        k: nat,
        homes: Seq<Option<Reg>>,
        active: Seq<Taken>,
    ) -> Option<Seq<Option<Reg>>>
        decreases order.len() - k,
    {
        if k >= order.len() {
            Some(homes)
        } else {
            let id = order[k as int] as int;
            let (start, end) = self.range_of(id);
            let taken = still_taken(active, start);
            match self.choose_home(homes, taken, id) {
                None => None,
                Some(home) => self.place_from(
                    order,
                    k + 1,
                    homes.update(id, Some(home)),
                    taken.push((home, end, id as usize)),
                ),
            }
        }
    }

    /// The homes of the entry pointers.
    pub open spec fn pinned_homes(self) -> Seq<Option<Reg>> {
        home_pins(
            Seq::new(self.sites.len(), |i: int| None::<Reg>),
            self.pinned(self.insns.len()),
            0,
        )
    }

    /// Whether values are the ones to place, in the order of their ranges:
    /// by the start, and then by number.
    pub open spec fn is_order(self, order: Seq<usize>) -> bool {
        &&& forall|k: int|
            0 <= k < order.len() ==> (#[trigger] order[k]) < self.sites.len() && self.is_used(
                order[k] as int,
            ) && self.pinned_homes()[order[k] as int] is None
        &&& forall|id: usize|
            id < self.sites.len() && self.is_used(id as int) && self.pinned_homes()[id as int] is None
                ==> #[trigger] order.contains(id)
        &&& forall|i: int, j: int|
            0 <= i < j < order.len() ==> self.comes_before(#[trigger] order[i], #[trigger] order[j])
    }

    /// Whether a value is placed before another.
    pub open spec fn comes_before(self, a: usize, b: usize) -> bool {
        let (s, t) = (self.range_of(a as int).0, self.range_of(b as int).0);
        s < t || (s == t && a < b)
    }

    /// The homes of all values, if there are enough registers.
    pub open spec fn allocation(self, order: Seq<usize>) -> Option<Seq<Option<Reg>>> {
        self.place_from(order, 0, self.pinned_homes(), self.pinned(self.insns.len()))
    }
}

/// Homes with pins from `k` on entered.
pub open spec fn home_pins(homes: Seq<Option<Reg>>, pins: Seq<Taken>, k: nat) -> Seq<Option<Reg>>
    decreases pins.len() - k,
{
    if k >= pins.len() {
        homes
    } else {
        home_pins(homes.update(pins[k as int].2 as int, Some(pins[k as int].0)), pins, k + 1)
    }
}

/// The home register of every value that needs one.
#[derive(Debug)]
pub struct Allocation {
    /// Home by value.
    pub homes: Vec<Option<Reg>>,
}

impl Allocation {
    /// Home of a value.
    pub fn home(&self, value: SsaValue) -> (r: Option<Reg>)
        ensures
            r == Prog::home_in(self.homes@, value),
    {
        let id: usize = value.0 as usize;
        if id < self.homes.len() {
            self.homes[id]
        } else {
            None
        }
    }
}

/// Marks the values of a list.
fn mark_list(used: &mut Vec<bool>, list: &Vec<(usize, SsaValue)>)
    ensures
        final(used)@.len() == old(used)@.len(),
        forall|id: int|
            0 <= id < old(used)@.len() ==> #[trigger] final(used)@[id] == (old(used)@[id]
                || Prog::in_list(list@, id)),
{
    let ghost before = used@;
    let mut k: usize = 0;
    while k < list.len()
        invariant
            k <= list@.len(),
            used@.len() == before.len(),
            forall|id: int|
                0 <= id < before.len() ==> #[trigger] used@[id] == (before[id] || exists|j: int|
                    0 <= j < k && (#[trigger] list@[j]).1.0 == id),
        decreases list@.len() - k,
    {
        let ghost prev = used@;
        let id: usize = list[k].1.0 as usize;
        if id < used.len() {
            used.set(id, true);
        }
        assert forall|v: int| 0 <= v < before.len() implies #[trigger] used@[v] == (before[v]
            || exists|j: int| 0 <= j < k + 1 && (#[trigger] list@[j]).1.0 == v) by {
            assert(prev[v] == (before[v] || exists|j: int|
                0 <= j < k && (#[trigger] list@[j]).1.0 == v));
            if v == id {
                assert(list@[k as int].1.0 == v);
            }
        }
        k = k + 1;
    }
    assert forall|id: int| 0 <= id < before.len() implies #[trigger] used@[id] == (before[id]
        || Prog::in_list(list@, id)) by {}
}

/// The value for which an instruction needs a register although nothing
/// reads it.
fn forced_value(prog: &SsaProgram, insn: &SsaInsn) -> (r: Option<SsaValue>)
    ensures
        r == (if insn@ is Load || may_trap(prog@, insn@) {
            insn@.def()
        } else {
            None
        }),
{
    match insn {
        SsaInsn::Load { dst, .. } => *dst,
        SsaInsn::BinOp { dst, op: AluOp::End(_), rhs, .. } => {
            let valid = match const_value(prog, *rhs) {
                Some(w) => w == 16 || w == 32 || w == 64,
                None => false,
            };
            if valid {
                None
            } else {
                Some(*dst)
            }
        },
        _ => None,
    }
}

/// Which values need a register.
fn used_values(prog: &SsaProgram) -> (r: Vec<bool>)
    requires
        prog@.wf(),
    ensures
        r@.len() == prog@.sites.len(),
        forall|id: int| 0 <= id < r@.len() ==> #[trigger] r@[id] == prog@.is_used(id),
{
    let count: usize = prog.def_sites.len();
    let mut used: Vec<bool> = Vec::with_capacity(count);
    while used.len() < count
        invariant
            used@.len() <= count,
            forall|id: int| 0 <= id < used@.len() ==> !#[trigger] used@[id],
        decreases count - used@.len(),
    {
        used.push(false);
    }
    let uses = prog.reg_uses();
    let starts = prog.start_uses();
    mark_list(&mut used, &uses);
    mark_list(&mut used, &starts);
    let ghost listed = used@;
    let mut i: usize = 0;
    while i < prog.insns.len()
        invariant
            i <= prog@.insns.len(),
            used@.len() == listed.len(),
            forall|id: int|
                0 <= id < listed.len() ==> #[trigger] used@[id] == (listed[id] || exists|j: int|
                    0 <= j < i && #[trigger] prog@.must_write(j, id)),
        decreases prog@.insns.len() - i,
    {
        let ghost prev = used@;
        assert(prog@.insns[i as int] == prog.insns@[i as int]@);
        if let Some(v) = forced_value(prog, &prog.insns[i]) {
            let id: usize = v.0 as usize;
            if id < used.len() {
                used.set(id, true);
                assert(prog@.must_write(i as int, id as int));
            }
        }
        assert forall|id: int| 0 <= id < listed.len() implies #[trigger] used@[id] == (listed[id]
            || exists|j: int| 0 <= j < i + 1 && #[trigger] prog@.must_write(j, id)) by {
            assert(prev[id] == (listed[id] || exists|j: int|
                0 <= j < i && #[trigger] prog@.must_write(j, id)));
        }
        i = i + 1;
    }
    used
}

/// The entry pointers that are used, with their registers.
fn pinned_values(prog: &SsaProgram, used: &Vec<bool>, ranges: &Vec<(usize, usize)>) -> (r: Vec<Taken>)
    requires
        used@.len() == prog@.sites.len(),
        ranges@.len() == prog@.sites.len(),
        forall|id: int| 0 <= id < used@.len() ==> #[trigger] used@[id] == prog@.is_used(id),
        forall|id: int| 0 <= id < ranges@.len() ==> #[trigger] ranges@[id] == prog@.range_of(id),
    ensures
        r@ == prog@.pinned(prog@.insns.len()),
        forall|k: int| 0 <= k < r@.len() ==> (#[trigger] r@[k]).2 < prog@.sites.len(),
{
    let mut out: Vec<Taken> = Vec::new();
    let mut i: usize = 0;
    while i < prog.insns.len()
        invariant
            i <= prog@.insns.len(),
            used@.len() == prog@.sites.len(),
            ranges@.len() == prog@.sites.len(),
            forall|id: int| 0 <= id < used@.len() ==> #[trigger] used@[id] == prog@.is_used(id),
            forall|id: int| 0 <= id < ranges@.len() ==> #[trigger] ranges@[id] == prog@.range_of(id),
            out@ == prog@.pinned(i as nat),
            forall|k: int| 0 <= k < out@.len() ==> (#[trigger] out@[k]).2 < prog@.sites.len(),
        decreases prog@.insns.len() - i,
    {
        assert(prog@.insns[i as int] == prog.insns@[i as int]@);
        let pin: Option<(SsaValue, Reg)> = match &prog.insns[i] {
            SsaInsn::FramePtr { dst } => Some((*dst, Reg(10))),
            SsaInsn::EntryCtx { dst } => Some((*dst, Reg(1))),
            _ => None,
        };
        if let Some((v, reg)) = pin {
            let id: usize = v.0 as usize;
            if id < used.len() && used[id] {
                out.push((reg, ranges[id].1, id));
            }
        }
        i = i + 1;
    }
    out
}

/// Enters pins into a table of homes.
fn enter_pins(count: usize, pins: &Vec<Taken>) -> (r: Vec<Option<Reg>>)
    requires
        forall|k: int| 0 <= k < pins@.len() ==> (#[trigger] pins@[k]).2 < count,
    ensures
        r@ == home_pins(Seq::new(count as nat, |i: int| None::<Reg>), pins@, 0),
        r@.len() == count,
{
    let mut homes: Vec<Option<Reg>> = Vec::with_capacity(count);
    while homes.len() < count
        invariant
            homes@.len() <= count,
            forall|id: int| 0 <= id < homes@.len() ==> #[trigger] homes@[id] is None,
        decreases count - homes@.len(),
    {
        homes.push(None);
    }
    let ghost start = Seq::new(count as nat, |i: int| None::<Reg>);
    assert(homes@ =~= start);
    let mut k: usize = 0;
    while k < pins.len()
        invariant
            k <= pins@.len(),
            homes@.len() == count,
            forall|j: int| 0 <= j < pins@.len() ==> (#[trigger] pins@[j]).2 < count,
            home_pins(start, pins@, 0) == home_pins(homes@, pins@, k as nat),
        decreases pins@.len() - k,
    {
        let (reg, _, id) = pins[k];
        homes.set(id, Some(reg));
        k = k + 1;
    }
    homes
}

/// The argument registers into which calls take a value.
fn arg_prefs(prog: &SsaProgram, id: usize) -> (r: Vec<Reg>)
    ensures
        r@ == prog@.arg_regs(id as int, prog@.insns.len()),
{
    let mut out: Vec<Reg> = Vec::new();
    let mut i: usize = 0;
    while i < prog.insns.len()
        invariant
            i <= prog@.insns.len(),
            out@ == prog@.arg_regs(id as int, i as nat),
        decreases prog@.insns.len() - i,
    {
        assert(prog@.insns[i as int] == prog.insns@[i as int]@);
        if let SsaInsn::Call { args, .. } = &prog.insns[i] {
            let ghost before = out@;
            let mut k: usize = 0;
            assert(out@ =~= before + arg_positions(args@, id as int, 0));
            while k < 5
                invariant
                    k <= 5,
                    args@.len() == 5,
                    out@ == before + arg_positions(args@, id as int, k as nat),
                decreases 5 - k,
            {
                let ghost prev = arg_positions(args@, id as int, k as nat);
                if args[k].0 as usize == id {
                    out.push(Reg((k + 1) as u8));
                    assert(out@ =~= before + prev.push(Reg((k + 1) as u8)));
                }
                k = k + 1;
            }
        }
        i = i + 1;
    }
    out
}

/// The positions of live calls.
fn live_calls(prog: &SsaProgram) -> (r: Vec<usize>)
    requires
        prog@.wf(),
    ensures
        forall|i: usize|
            #[trigger] r@.contains(i) <==> i < prog@.insns.len() && live_at(prog@.nodes, i as int)
                && prog@.insns[i as int] is Call,
{
    let mask = live_mask(&prog.graph, prog.insns.len());
    let mut out: Vec<usize> = Vec::new();
    let mut i: usize = 0;
    while i < prog.insns.len()
        invariant
            i <= prog@.insns.len(),
            mask@.len() == prog@.insns.len(),
            forall|k: int| 0 <= k < mask@.len() ==> #[trigger] mask@[k] == live_at(prog@.nodes, k),
            forall|k: usize|
                #[trigger] out@.contains(k) <==> k < i && live_at(prog@.nodes, k as int)
                    && prog@.insns[k as int] is Call,
        decreases prog@.insns.len() - i,
    {
        assert(prog@.insns[i as int] == prog.insns@[i as int]@);
        let is_call = match &prog.insns[i] {
            SsaInsn::Call { .. } => true,
            _ => false,
        };
        if mask[i] && is_call {
            let ghost before = out@;
            out.push(i);
            assert forall|k: usize| #[trigger] out@.contains(k) == (before.contains(k) || k == i) by {
                if before.contains(k) {
                    let j = before.index_of(k);
                    assert(out@[j] == k);
                }
                if k == i {
                    assert(out@[before.len() as int] == k);
                }
            }
        }
        i = i + 1;
    }
    out
}

/// Whether no call sits strictly inside a range.
fn r0_available(calls: &Vec<usize>, start: usize, end: usize) -> (r: bool)
    ensures
        r == (forall|i: usize| #[trigger] calls@.contains(i) ==> !(start < i < end)),
{
    let mut k: usize = 0;
    while k < calls.len()
        invariant
            k <= calls@.len(),
            forall|j: int| 0 <= j < k ==> !(start < #[trigger] calls@[j] < end),
        decreases calls@.len() - k,
    {
        if start < calls[k] && calls[k] < end {
            assert(calls@.contains(calls@[k as int]));
            return false;
        }
        k = k + 1;
    }
    true
}

/// Drops the homes that are no longer taken.
fn retain_taken(active: &Vec<Taken>, start: usize) -> (r: Vec<Taken>)
    ensures
        r@ == still_taken(active@, start),
{
    let mut out: Vec<Taken> = Vec::new();
    let mut k: usize = 0;
    assert(active@.take(0) =~= Seq::empty());
    while k < active.len()
        invariant
            k <= active@.len(),
            out@ == still_taken(active@.take(k as int), start),
        decreases active@.len() - k,
    {
        proof {
            let part = active@.take(k + 1);
            assert(part.drop_last() =~= active@.take(k as int));
            assert(part.last() == active@[k as int]);
        }
        if active[k].1 > start {
            out.push(active[k]);
        }
        k = k + 1;
    }
    assert(active@.take(k as int) =~= active@);
    out
}

/// Whether no value holds a register.
fn check_free(active: &Vec<Taken>, home: Reg) -> (r: bool)
    ensures
        r == is_free(active@, home),
{
    let mut k: usize = 0;
    while k < active.len()
        invariant
            k <= active@.len(),
            forall|j: int| 0 <= j < k ==> (#[trigger] active@[j]).0 != home,
        decreases active@.len() - k,
    {
        if active[k].0 == home {
            return false;
        }
        k = k + 1;
    }
    true
}

/// The home of a value in a table.
fn home_of_version(homes: &Vec<Option<Reg>>, v: SsaValue) -> (r: Option<Reg>)
    ensures
        r == Prog::home_in(homes@, v),
{
    let id: usize = v.0 as usize;
    if id < homes.len() {
        homes[id]
    } else {
        None
    }
}

/// The home of the first phi input that is free.
fn coalesce_phi_home(prog: &SsaProgram, homes: &Vec<Option<Reg>>, active: &Vec<Taken>, value: SsaValue) -> (r:
    Option<Reg>)
    ensures
        r == (match prog@.def_of(value) {
            Some(Op::Phi { inputs, .. }) => Prog::phi_home(homes@, active@, inputs, 0),
            _ => None,
        }),
{
    if let Some(SsaInsn::Phi { inputs, .. }) = prog.def_of(value) {
        let mut k: usize = 0;
        while k < inputs.len()
            invariant
                k <= inputs@.len(),
                prog@.def_of(value) is Some,
                prog@.def_of(value)->0 is Phi,
                prog@.def_of(value)->0->Phi_inputs == inputs@,
                Prog::phi_home(homes@, active@, inputs@, 0) == Prog::phi_home(
                    homes@,
                    active@,
                    inputs@,
                    k as nat,
                ),
            decreases inputs@.len() - k,
        {
            if let Some(home) = home_of_version(homes, inputs[k].1) {
                if home != Reg(10) && check_free(active, home) {
                    return Some(home);
                }
            }
            k = k + 1;
        }
    }
    None
}

/// Whether nothing holds a register but a value whose range has a given end.
fn held_only_by(active: &Vec<Taken>, home: Reg, holder: usize, end: usize) -> (r: bool)
    ensures
        r == (forall|i: int|
            0 <= i < active@.len() ==> (#[trigger] active@[i]).0 != home || (active@[i].2 == holder
                && active@[i].1 == end)),
{
    let mut k: usize = 0;
    while k < active.len()
        invariant
            k <= active@.len(),
            forall|i: int|
                0 <= i < k ==> (#[trigger] active@[i]).0 != home || (active@[i].2 == holder
                    && active@[i].1 == end),
        decreases active@.len() - k,
    {
        if active[k].0 == home && !(active[k].2 == holder && active[k].1 == end) {
            return false;
        }
        k = k + 1;
    }
    true
}

/// The home of the left operand of an operation, if only that operand holds
/// it and the operation is its last use.
fn coalesce_binop_lhs(
    prog: &SsaProgram,
    homes: &Vec<Option<Reg>>,
    active: &Vec<Taken>,
    ranges: &Vec<(usize, usize)>,
    id: usize,
) -> (r: Option<Reg>)
    requires
        prog@.wf(),
        id < prog@.sites.len(),
        id <= u32::MAX,
        homes@.len() == prog@.sites.len(),
        ranges@.len() == prog@.sites.len(),
        forall|v: int| 0 <= v < ranges@.len() ==> #[trigger] ranges@[v] == prog@.range_of(v),
    ensures
        r == prog@.lhs_home(homes@, active@, id as int),
{
    let start: usize = ranges[id].0;
    if let Some(SsaInsn::BinOp { lhs: SsaOperand::Value(lhs), .. }) = prog.def_of(
        SsaValue(id as u32),
    ) {
        if let Some(home) = home_of_version(homes, *lhs) {
            if home == Reg(10) {
                return None;
            }
            let lhs_start: usize = ranges[lhs.0 as usize].0;
            if lhs_start <= start {
                if !held_only_by(active, home, lhs.0 as usize, start + 1) {
                    return None;
                }
            } else if !check_free(active, home) {
                return None;
            }
            return Some(home);
        }
    }
    None
}

/// The values to place, by the start of their ranges and then by number.
fn placing_order(
    prog: &SsaProgram,
    used: &Vec<bool>,
    homes: &Vec<Option<Reg>>,
    ranges: &Vec<(usize, usize)>,
) -> (r: Vec<usize>)
    requires
        used@.len() == prog@.sites.len(),
        homes@ == prog@.pinned_homes(),
        homes@.len() == prog@.sites.len(),
        ranges@.len() == prog@.sites.len(),
        forall|id: int| 0 <= id < used@.len() ==> #[trigger] used@[id] == prog@.is_used(id),
        forall|id: int| 0 <= id < ranges@.len() ==> #[trigger] ranges@[id] == prog@.range_of(id),
    ensures
        prog@.is_order(r@),
{
    let count: usize = used.len();
    let mut order: Vec<usize> = Vec::new();
    let mut id: usize = 0;
    while id < count
        invariant
            id <= count,
            count == prog@.sites.len(),
            used@.len() == count,
            homes@ == prog@.pinned_homes(),
            homes@.len() == count,
            ranges@.len() == count,
            forall|v: int| 0 <= v < count ==> #[trigger] used@[v] == prog@.is_used(v),
            forall|v: int| 0 <= v < count ==> #[trigger] ranges@[v] == prog@.range_of(v),
            forall|k: int|
                0 <= k < order@.len() ==> (#[trigger] order@[k]) < id && prog@.is_used(
                    order@[k] as int,
                ) && homes@[order@[k] as int] is None,
            forall|v: usize|
                v < id && prog@.is_used(v as int) && homes@[v as int] is None
                    ==> #[trigger] order@.contains(v),
            forall|i: int, j: int|
                0 <= i < j < order@.len() ==> prog@.comes_before(
                    #[trigger] order@[i],
                    #[trigger] order@[j],
                ),
        decreases count - id,
    {
        if used[id] && homes[id].is_none() {
            let start: usize = ranges[id].0;
            let mut at: usize = order.len();
            while at > 0 && ranges[order[at - 1]].0 > start
                invariant
                    at <= order@.len(),
                    id < count,
                    ranges@.len() == count,
                    start == prog@.range_of(id as int).0,
                    forall|v: int| 0 <= v < count ==> #[trigger] ranges@[v] == prog@.range_of(v),
                    forall|k: int| 0 <= k < order@.len() ==> (#[trigger] order@[k]) < id,
                    forall|k: int|
                        at <= k < order@.len() ==> prog@.range_of(#[trigger] order@[k] as int).0
                            > start,
                decreases at,
            {
                at = at - 1;
            }
            let ghost before = order@;
            proof {
                if at > 0 {
                    assert(ranges@[before[at - 1] as int] == prog@.range_of(before[at - 1] as int));
                    assert(prog@.comes_before(before[at - 1], id));
                }
            }
            order.insert(at, id);
            proof {
                let after = order@;
                assert(after =~= before.insert(at as int, id));
                assert forall|k: int| 0 <= k < after.len() implies (#[trigger] after[k]) < id + 1
                    && prog@.is_used(after[k] as int) && homes@[after[k] as int] is None by {
                    if k < at {
                        assert(after[k] == before[k]);
                    } else if k > at {
                        assert(after[k] == before[k - 1]);
                    }
                }
                assert forall|v: usize|
                    v < id + 1 && prog@.is_used(v as int) && homes@[v as int] is None implies
                    #[trigger] after.contains(v) by {
                    if v == id {
                        assert(after[at as int] == v);
                    } else {
                        assert(before.contains(v));
                        let k = before.index_of(v);
                        if k < at {
                            assert(after[k] == v);
                        } else {
                            assert(after[k + 1] == v);
                        }
                    }
                }
                assert forall|i: int, j: int| 0 <= i < j < after.len() implies prog@.comes_before(
                    #[trigger] after[i],
                    #[trigger] after[j],
                ) by {
                    let bi = if i < at {
                        i
                    } else {
                        i - 1
                    };
                    let bj = if j < at {
                        j
                    } else {
                        j - 1
                    };
                    if i != at && j != at {
                        assert(after[i] == before[bi]);
                        assert(after[j] == before[bj]);
                        assert(prog@.comes_before(before[bi], before[bj]));
                    } else if j == at {
                        assert(after[i] == before[i]);
                        if i < at - 1 {
                            assert(prog@.comes_before(before[i], before[at - 1]));
                        }
                        assert(prog@.range_of(before[at - 1] as int).0 <= start);
                        assert(before[i] < id);
                    } else {
                        assert(after[j] == before[j - 1]);
                        assert(prog@.range_of(before[j - 1] as int).0 > start);
                    }
                }
            }
        }
        id = id + 1;
    }
    order
}

/// Chooses the home of a value.
fn find_home(
    prog: &SsaProgram,
    homes: &Vec<Option<Reg>>,
    active: &Vec<Taken>,
    ranges: &Vec<(usize, usize)>,
    calls: &Vec<usize>,
    id: usize,
) -> (r: Option<Reg>)
    requires
        prog@.wf(),
        id < prog@.sites.len(),
        id <= u32::MAX,
        homes@.len() == prog@.sites.len(),
        ranges@.len() == prog@.sites.len(),
        forall|v: int| 0 <= v < ranges@.len() ==> #[trigger] ranges@[v] == prog@.range_of(v),
        forall|i: usize|
            #[trigger] calls@.contains(i) <==> i < prog@.insns.len() && live_at(
                prog@.nodes,
                i as int,
            ) && prog@.insns[i as int] is Call,
    ensures
        r == prog@.choose_home(homes@, active@, id as int),
{
    let (start, end) = ranges[id];
    let total: usize = prog.insns.len();
    let r0_ok = r0_available(calls, start, end);
    proof {
        if r0_ok {
            assert forall|i: int|
                start < i < end && 0 <= i < prog@.insns.len() && live_at(prog@.nodes, i) implies !(
            #[trigger] prog@.insns[i] is Call) by {
                let k = i as usize;
                if prog@.insns[k as int] is Call {
                    assert(calls@.contains(k));
                }
            }
        } else {
            let i = choose|i: usize| #[trigger] calls@.contains(i) && start < i < end;
            assert(prog@.insns[i as int] is Call);
        }
        assert(r0_ok == prog@.r0_free(start, end));
    }
    if let Some(home) = coalesce_phi_home(prog, homes, active, SsaValue(id as u32)) {
        if home != Reg(0) || r0_ok {
            return Some(home);
        }
    }
    if let Some(home) = coalesce_binop_lhs(prog, homes, active, ranges, id) {
        if home != Reg(0) || r0_ok {
            return Some(home);
        }
    }
    if let Some(home) = preferred_home(prog, active, id, r0_ok) {
        return Some(home);
    }
    pooled_home(prog, active, id, r0_ok)
}

/// The first argument register that a value may take.
fn preferred_home(prog: &SsaProgram, active: &Vec<Taken>, id: usize, r0_ok: bool) -> (r: Option<Reg>)
    requires
        r0_ok == prog@.r0_free(prog@.range_of(id as int).0, prog@.range_of(id as int).1),
    ensures
        r == prog@.arg_home(active@, id as int, prog@.arg_regs(id as int, prog@.insns.len()), 0),
{
    let prefs = arg_prefs(prog, id);
    let mut k: usize = 0;
    while k < prefs.len()
        invariant
            k <= prefs@.len(),
            prefs@ == prog@.arg_regs(id as int, prog@.insns.len()),
            r0_ok == prog@.r0_free(prog@.range_of(id as int).0, prog@.range_of(id as int).1),
            prog@.arg_home(active@, id as int, prefs@, 0) == prog@.arg_home(
                active@,
                id as int,
                prefs@,
                k as nat,
            ),
        decreases prefs@.len() - k,
    {
        let home = prefs[k];
        if check_free(active, home) && (home != Reg(0) || r0_ok) {
            return Some(home);
        }
        k = k + 1;
    }
    None
}

/// The first register of the pool that a value may take.
fn pooled_home(prog: &SsaProgram, active: &Vec<Taken>, id: usize, r0_ok: bool) -> (r: Option<Reg>)
    requires
        r0_ok == prog@.r0_free(prog@.range_of(id as int).0, prog@.range_of(id as int).1),
    ensures
        r == prog@.pool_home(active@, id as int, 0),
{
    let mut k: usize = 0;
    while k < 9
        invariant
            k <= 9,
            r0_ok == prog@.r0_free(prog@.range_of(id as int).0, prog@.range_of(id as int).1),
            prog@.pool_home(active@, id as int, 0) == prog@.pool_home(active@, id as int, k as nat),
        decreases 9 - k,
    {
        let home = pool_reg(k);
        if check_free(active, home) && (home != Reg(0) || r0_ok) {
            return Some(home);
        }
        k = k + 1;
    }
    None
}

/// A value that needs a register has a number of 32 bits.
pub proof fn lemma_used_small(prog: Prog, id: int)
    requires
        prog.is_used(id),
    ensures
        0 <= id <= u32::MAX,
{
    if Prog::in_list(prog.uses_from(0), id) {
        let k = choose|k: int|
            0 <= k < prog.uses_from(0).len() && (#[trigger] prog.uses_from(0)[k]).1.0 == id;
    } else if Prog::in_list(prog.starts_from(0), id) {
        let k = choose|k: int|
            0 <= k < prog.starts_from(0).len() && (#[trigger] prog.starts_from(0)[k]).1.0 == id;
    } else {
        let i = choose|i: int| 0 <= i < prog.insns.len() && #[trigger] prog.must_write(i, id);
    }
}

/// Assigns a home to every value that needs one.
pub fn allocate(prog: &SsaProgram) -> (r: Result<Allocation, SsaError>)
    requires
        prog@.wf(),
    ensures
        exists|order: Seq<usize>|
            {
                &&& #[trigger] prog@.is_order(order)
                &&& match r {
                    Ok(a) => prog@.allocation(order) == Some(a.homes@) && a.homes@.len()
                        == prog@.sites.len(),
                    Err(e) => e == SsaError::OutOfRegisters && prog@.allocation(order) is None,
                }
            },
{
    let ranges = live_ranges(prog);
    let used = used_values(prog);
    let mut active = pinned_values(prog, &used, &ranges);
    let mut homes = enter_pins(prog.def_sites.len(), &active);
    let order = placing_order(prog, &used, &homes, &ranges);
    let calls = live_calls(prog);
    let ghost all = prog@.allocation(order@);
    let mut k: usize = 0;
    while k < order.len()
        invariant
            k <= order@.len(),
            prog@.wf(),
            prog@.is_order(order@),
            homes@.len() == prog@.sites.len(),
            ranges@.len() == prog@.sites.len(),
            forall|v: int| 0 <= v < ranges@.len() ==> #[trigger] ranges@[v] == prog@.range_of(v),
            forall|i: usize|
                #[trigger] calls@.contains(i) <==> i < prog@.insns.len() && live_at(
                    prog@.nodes,
                    i as int,
                ) && prog@.insns[i as int] is Call,
            prog@.allocation(order@) == prog@.place_from(order@, k as nat, homes@, active@),
        decreases order@.len() - k,
    {
        let id: usize = order[k];
        proof {
            lemma_used_small(prog@, id as int);
        }
        let (start, end) = ranges[id];
        active = retain_taken(&active, start);
        match find_home(prog, &homes, &active, &ranges, &calls, id) {
            None => {
                return Err(SsaError::OutOfRegisters);
            },
            Some(home) => {
                homes.set(id, Some(home));
                active.push((home, end, id));
            },
        }
        k = k + 1;
    }
    Ok(Allocation { homes })
}

/// Whether one value may hold a register before another takes it: its range
/// has ended, or it ends with the operation that replaces it.
pub open spec fn hands_over(prog: Prog, a: int, b: int) -> bool {
    ||| prog.range_of(a).1 <= prog.range_of(b).0
    ||| {
        &&& prog.range_of(a).1 == prog.range_of(b).0 + 1
        &&& prog.def_of(SsaValue(b as u32)) matches Some(Op::BinOp {
            lhs: SsaOperand::Value(lhs),
            ..
        }) && lhs.0 == a
    }
}

/// Whether every home that was given out is still taken, or was given up by
/// a position.
spec fn accounted(prog: Prog, homes: Seq<Option<Reg>>, active: Seq<Taken>, at: int) -> bool {
    forall|a: int|
        0 <= a < homes.len() && (#[trigger] homes[a]) is Some ==> prog.range_of(a).1 <= at
            || active.contains((homes[a]->0, prog.range_of(a).1, a as usize))
}

proof fn lemma_still_taken(active: Seq<Taken>, start: usize, t: Taken)
    requires
        active.contains(t),
        t.1 > start,
    ensures
        still_taken(active, start).contains(t),
    decreases active.len(),
{
    let k = active.index_of(t);
    let rest = still_taken(active.drop_last(), start);
    let all = still_taken(active, start);
    if k == active.len() - 1 {
        assert(all == rest.push(t));
        assert(all[rest.len() as int] == t);
    } else {
        assert(active.drop_last()[k] == t);
        lemma_still_taken(active.drop_last(), start, t);
        let m = rest.index_of(t);
        assert(all[m] == t);
    }
}

proof fn lemma_phi_home(
    homes: Seq<Option<Reg>>,
    active: Seq<Taken>,
    inputs: Seq<(usize, SsaValue)>,
    k: nat,
)
    ensures
        Prog::phi_home(homes, active, inputs, k) matches Some(home) ==> home != Reg(10) && is_free(
            active,
            home,
        ),
    decreases inputs.len() - k,
{
    if k < inputs.len() {
        lemma_phi_home(homes, active, inputs, k + 1);
    }
}

proof fn lemma_arg_home(prog: Prog, active: Seq<Taken>, id: int, prefs: Seq<Reg>, k: nat)
    requires
        forall|i: int| 0 <= i < prefs.len() ==> (#[trigger] prefs[i]).0 < 10,
    ensures
        prog.arg_home(active, id, prefs, k) matches Some(home) ==> home.0 < 10 && prog.may_take(
            active,
            id,
            home,
        ),
    decreases prefs.len() - k,
{
    if k < prefs.len() {
        lemma_arg_home(prog, active, id, prefs, k + 1);
    }
}

proof fn lemma_pool_home(prog: Prog, active: Seq<Taken>, id: int, k: nat)
    ensures
        prog.pool_home(active, id, k) matches Some(home) ==> home.0 < 10 && prog.may_take(
            active,
            id,
            home,
        ),
    decreases 9 - k,
{
    if k < 9 {
        lemma_pool_home(prog, active, id, k + 1);
    }
}

proof fn lemma_arg_positions(args: Seq<SsaValue>, id: int, n: nat)
    requires
        n <= 5,
    ensures
        forall|i: int|
            0 <= i < arg_positions(args, id, n).len() ==> (#[trigger] arg_positions(
                args,
                id,
                n,
            )[i]).0 < 10,
    decreases n,
{
    if n > 0 {
        let rest = arg_positions(args, id, (n - 1) as nat);
        lemma_arg_positions(args, id, (n - 1) as nat);
        assert forall|i: int| 0 <= i < arg_positions(args, id, n).len() implies (#[trigger] arg_positions(
            args,
            id,
            n,
        )[i]).0 < 10 by {
            if i < rest.len() {
                assert(rest[i].0 < 10);
            }
        }
    }
}

proof fn lemma_arg_regs(prog: Prog, id: int, i: nat)
    ensures
        forall|k: int|
            0 <= k < prog.arg_regs(id, i).len() ==> (#[trigger] prog.arg_regs(id, i)[k]).0 < 10,
    decreases i,
{
    if i > 0 {
        lemma_arg_regs(prog, id, (i - 1) as nat);
        if let Op::Call { args, .. } = prog.insns[i - 1] {
            lemma_arg_positions(args, id, 5);
        }
        let rest = prog.arg_regs(id, (i - 1) as nat);
        assert forall|k: int| 0 <= k < prog.arg_regs(id, i).len() implies (#[trigger] prog.arg_regs(
            id,
            i,
        )[k]).0 < 10 by {
            if k < rest.len() {
                assert(rest[k].0 < 10);
            } else if let Op::Call { args, .. } = prog.insns[i - 1] {
                assert(arg_positions(args, id, 5)[k - rest.len()].0 < 10);
            }
        }
    }
}

/// What a chosen home is: not `r10`, not `r0` across a call, and held by
/// nothing but the operand that it replaces.
proof fn lemma_choice(prog: Prog, homes: Seq<Option<Reg>>, active: Seq<Taken>, id: int)
    ensures
        prog.choose_home(homes, active, id) matches Some(home) ==> {
            &&& home != Reg(10)
            &&& home == Reg(0) ==> prog.r0_free(prog.range_of(id).0, prog.range_of(id).1)
            &&& forall|t: Taken| #[trigger]
                active.contains(t) && t.0 == home ==> t.1 == prog.range_of(id).0 + 1 && (prog.def_of(
                    SsaValue(id as u32),
                ) matches Some(Op::BinOp { lhs: SsaOperand::Value(lhs), .. }) && lhs.0 == t.2)
        },
{
    if let Some(Op::Phi { inputs, .. }) = prog.def_of(SsaValue(id as u32)) {
        lemma_phi_home(homes, active, inputs, 0);
    }
    lemma_arg_regs(prog, id, prog.insns.len());
    lemma_arg_home(prog, active, id, prog.arg_regs(id, prog.insns.len()), 0);
    lemma_pool_home(prog, active, id, 0);
    if let Some(home) = prog.choose_home(homes, active, id) {
        assert forall|t: Taken| #[trigger] active.contains(t) && t.0 == home implies t.1
            == prog.range_of(id).0 + 1 && (prog.def_of(SsaValue(id as u32)) matches Some(
            Op::BinOp { lhs: SsaOperand::Value(lhs), .. },
        ) && lhs.0 == t.2) by {
            let k = active.index_of(t);
            assert(active[k].0 == home);
        }
    }
}

/// What placing the values from `k` on keeps and establishes.
proof fn lemma_place(
    prog: Prog,
    order: Seq<usize>,
    k: nat,
    homes: Seq<Option<Reg>>,
    active: Seq<Taken>,
    at: int,
    done: Seq<Option<Reg>>,
)
    requires
        prog.is_order(order),
        homes.len() == prog.sites.len(),
        prog.sites.len() <= usize::MAX,
        accounted(prog, homes, active, at),
        k < order.len() ==> at <= prog.range_of(order[k as int] as int).0,
        forall|j: int| k <= j < order.len() ==> homes[(#[trigger] order[j]) as int] is None,
        prog.place_from(order, k, homes, active) == Some(done),
    ensures
        done.len() == homes.len(),
        forall|a: int| 0 <= a < homes.len() && (#[trigger] homes[a]) is Some ==> done[a] == homes[a],
        forall|j: int| k <= j < order.len() ==> done[(#[trigger] order[j]) as int] is Some,
        forall|j: int|
            k <= j < order.len() ==> done[(#[trigger] order[j]) as int] != Some(Reg(10)) && (
            done[order[j] as int] == Some(Reg(0)) ==> prog.r0_free(
                prog.range_of(order[j] as int).0,
                prog.range_of(order[j] as int).1,
            )),
        forall|a: int, j: int|
            k <= j < order.len() && 0 <= a < homes.len() && (#[trigger] homes[a]) is Some && homes[a]
                == done[(#[trigger] order[j]) as int] ==> hands_over(prog, a, order[j] as int),
        forall|i: int, j: int|
            k <= i < j < order.len() && done[(#[trigger] order[i]) as int]
                == done[(#[trigger] order[j]) as int] ==> hands_over(
                prog,
                order[i] as int,
                order[j] as int,
            ),
    decreases order.len() - k,
{
    if k < order.len() {
        let id = order[k as int] as int;
        let (start, end) = prog.range_of(id);
        let taken = still_taken(active, start);
        let home = prog.choose_home(homes, taken, id)->0;
        let homes2 = homes.update(id, Some(home));
        let active2 = taken.push((home, end, id as usize));
        lemma_choice(prog, homes, taken, id);
        assert forall|a: int| 0 <= a < homes2.len() && (#[trigger] homes2[a]) is Some implies
            prog.range_of(a).1 <= start || active2.contains(
            (homes2[a]->0, prog.range_of(a).1, a as usize),
        ) by {
            let t = (homes2[a]->0, prog.range_of(a).1, a as usize);
            if a == id {
                assert(active2[taken.len() as int] == t);
            } else {
                assert(homes[a] is Some);
                if prog.range_of(a).1 > start {
                    lemma_still_taken(active, start, t);
                    let m = taken.index_of(t);
                    assert(active2[m] == t);
                }
            }
        }
        if k + 1 < order.len() {
            assert(prog.comes_before(order[k as int], order[k as int + 1]));
        }
        assert forall|j: int| k + 1 <= j < order.len() implies homes2[(#[trigger] order[j]) as int] is None by {
            assert(prog.comes_before(order[k as int], order[j]));
        }
        lemma_place(prog, order, k + 1, homes2, active2, start as int, done);
        assert(homes2[id] is Some);
        assert(done[id] == Some(home));
        assert forall|a: int| 0 <= a < homes.len() && (#[trigger] homes[a]) is Some implies done[a]
            == homes[a] by {
            assert(homes2[a] == homes[a]);
        }
        assert forall|a: int, j: int|
            k <= j < order.len() && 0 <= a < homes.len() && (#[trigger] homes[a]) is Some && homes[a]
                == done[(#[trigger] order[j]) as int] implies hands_over(prog, a, order[j] as int) by {
            if j == k {
                if prog.range_of(a).1 > start {
                    let t = (home, prog.range_of(a).1, a as usize);
                    lemma_still_taken(active, start, t);
                    assert(taken.contains(t));
                }
            } else {
                assert(homes2[a] == homes[a]);
            }
        }
        assert forall|i: int, j: int|
            k <= i < j < order.len() && done[(#[trigger] order[i]) as int]
                == done[(#[trigger] order[j]) as int] implies hands_over(
            prog,
            order[i] as int,
            order[j] as int,
        ) by {
            if i == k {
                assert(homes2[id] is Some);
            }
        }
    }
}

/// The entry pointers below an instruction have numbers within the program.
proof fn lemma_pinned(prog: Prog, i: nat)
    requires
        i <= prog.insns.len(),
    ensures
        forall|k: int|
            0 <= k < prog.pinned(i).len() ==> (#[trigger] prog.pinned(i)[k]).2 < prog.sites.len()
                && prog.pinned(i)[k].1 == prog.range_of(prog.pinned(i)[k].2 as int).1,
    decreases i,
{
    if i > 0 {
        lemma_pinned(prog, (i - 1) as nat);
        let rest = prog.pinned((i - 1) as nat);
        assert forall|k: int| 0 <= k < prog.pinned(i).len() implies (#[trigger] prog.pinned(i)[k]).2
            < prog.sites.len() && prog.pinned(i)[k].1 == prog.range_of(prog.pinned(i)[k].2 as int).1 by {
            if k < rest.len() {
                assert(rest[k].2 < prog.sites.len());
            }
        }
    }
}

proof fn lemma_home_pins(prog: Prog, homes: Seq<Option<Reg>>, pins: Seq<Taken>, k: nat)
    requires
        forall|i: int|
            0 <= i < pins.len() ==> (#[trigger] pins[i]).2 < homes.len() && pins[i].1
                == prog.range_of(pins[i].2 as int).1,
        homes.len() <= usize::MAX,
        forall|a: int|
            0 <= a < homes.len() && (#[trigger] homes[a]) is Some ==> pins.contains(
                (homes[a]->0, prog.range_of(a).1, a as usize),
            ),
    ensures
        home_pins(homes, pins, k).len() == homes.len(),
        forall|a: int|
            0 <= a < homes.len() && (#[trigger] home_pins(homes, pins, k)[a]) is Some
                ==> pins.contains((home_pins(homes, pins, k)[a]->0, prog.range_of(a).1, a as usize)),
    decreases pins.len() - k,
{
    if k < pins.len() {
        let homes2 = homes.update(pins[k as int].2 as int, Some(pins[k as int].0));
        assert forall|a: int| 0 <= a < homes2.len() && (#[trigger] homes2[a]) is Some implies pins.contains(
            (homes2[a]->0, prog.range_of(a).1, a as usize),
        ) by {
            if a == pins[k as int].2 {
                assert(pins[k as int] == (homes2[a]->0, prog.range_of(a).1, a as usize));
            } else {
                assert(homes[a] is Some);
            }
        }
        lemma_home_pins(prog, homes2, pins, k + 1);
    }
}

/// The entry pointers leave a home, or none, for every value.
pub proof fn lemma_pinned_len(prog: Prog)
    requires
        prog.sites.len() <= usize::MAX,
    ensures
        prog.pinned_homes().len() == prog.sites.len(),
{
    lemma_pinned(prog, prog.insns.len());
    lemma_home_pins(
        prog,
        Seq::new(prog.sites.len(), |i: int| None::<Reg>),
        prog.pinned(prog.insns.len()),
        0,
    );
}

/// A pin is an entry pointer that is used, in the register that it has.
pub open spec fn is_pin(prog: Prog, j: int, pin: Taken) -> bool {
    &&& 0 <= j < prog.insns.len()
    &&& prog.is_used(pin.2 as int)
    &&& match prog.insns[j] {
        Op::FramePtr { dst } => dst.0 == pin.2 && pin.0 == Reg(10),
        Op::EntryCtx { dst } => dst.0 == pin.2 && pin.0 == Reg(1),
        _ => false,
    }
}

/// Whether a pin is that of some entry pointer.
pub open spec fn some_pin(prog: Prog, pin: Taken) -> bool {
    exists|j: int| #[trigger] is_pin(prog, j, pin)
}

/// The pins below an instruction are those of the entry pointers there.
pub proof fn lemma_pins(prog: Prog, i: nat)
    requires
        i <= prog.insns.len(),
    ensures
        forall|k: int|
            0 <= k < prog.pinned(i).len() ==> some_pin(prog, #[trigger] prog.pinned(i)[k]),
        forall|j: int, v: SsaValue|
            0 <= j < i && (#[trigger] prog.insns[j] == (Op::FramePtr { dst: v }) || prog.insns[j] == (Op::EntryCtx {
                dst: v,
            })) && v.0 < prog.sites.len() && #[trigger] prog.is_used(v.0 as int) ==> exists|k: int|
                0 <= k < prog.pinned(i).len() && (#[trigger] prog.pinned(i)[k]).2 == v.0,
    decreases i,
{
    if i > 0 {
        lemma_pins(prog, (i - 1) as nat);
        let rest = prog.pinned((i - 1) as nat);
        let all = prog.pinned(i);
        assert forall|k: int| 0 <= k < all.len() implies some_pin(prog, #[trigger] all[k]) by {
            if k < rest.len() {
                assert(all[k] == rest[k]);
            } else {
                assert(is_pin(prog, i - 1, all[k]));
            }
        }
        assert forall|j: int, v: SsaValue|
            0 <= j < i && (#[trigger] prog.insns[j] == (Op::FramePtr { dst: v }) || prog.insns[j] == (Op::EntryCtx {
                dst: v,
            })) && v.0 < prog.sites.len() && #[trigger] prog.is_used(v.0 as int) implies exists|k: int|
            0 <= k < all.len() && (#[trigger] all[k]).2 == v.0 by {
            if j < i - 1 {
                let k = choose|k: int| 0 <= k < rest.len() && (#[trigger] rest[k]).2 == v.0;
                assert(all[k] == rest[k]);
            } else {
                assert(all[all.len() - 1].2 == v.0);
            }
        }
    }
}

/// Every pin is entered.
proof fn lemma_pins_entered(homes: Seq<Option<Reg>>, pins: Seq<Taken>, k: nat)
    requires
        forall|i: int| 0 <= i < pins.len() ==> (#[trigger] pins[i]).2 < homes.len(),
    ensures
        home_pins(homes, pins, k).len() == homes.len(),
        forall|a: int| 0 <= a < homes.len() && (#[trigger] homes[a]) is Some ==> home_pins(homes, pins, k)[a] is Some,
        forall|i: int| k <= i < pins.len() ==> home_pins(homes, pins, k)[(#[trigger] pins[i]).2 as int] is Some,
    decreases pins.len() - k,
{
    if k < pins.len() {
        let homes2 = homes.update(pins[k as int].2 as int, Some(pins[k as int].0));
        lemma_pins_entered(homes2, pins, k + 1);
        assert(homes2[pins[k as int].2 as int] is Some);
        assert forall|a: int| 0 <= a < homes.len() && (#[trigger] homes[a]) is Some implies home_pins(
            homes,
            pins,
            k,
        )[a] is Some by {
            assert(homes2[a] is Some);
        }
    }
}

/// Only the values of an order are placed.
proof fn lemma_only_placed(
    prog: Prog,
    order: Seq<usize>,
    k: nat,
    homes: Seq<Option<Reg>>,
    active: Seq<Taken>,
    done: Seq<Option<Reg>>,
)
    requires
        homes.len() == prog.sites.len(),
        forall|j: int| 0 <= j < order.len() ==> (#[trigger] order[j]) < prog.sites.len(),
        prog.place_from(order, k, homes, active) == Some(done),
    ensures
        done.len() == homes.len(),
        forall|a: usize|
            a < done.len() && (#[trigger] done[a as int]) is Some ==> homes[a as int] is Some || order.contains(a),
    decreases order.len() - k,
{
    if k < order.len() {
        let id = order[k as int] as int;
        let (start, end) = prog.range_of(id);
        let taken = still_taken(active, start);
        let home = prog.choose_home(homes, taken, id)->0;
        let homes2 = homes.update(id, Some(home));
        lemma_only_placed(prog, order, k + 1, homes2, taken.push((home, end, id as usize)), done);
        assert forall|a: usize| a < done.len() && (#[trigger] done[a as int]) is Some implies homes[a as int] is Some
            || order.contains(a) by {
            if a != order[k as int] {
                assert(homes2[a as int] == homes[a as int]);
            }
        }
    }
}

/// What an allocation is over all: see the laws below.
pub proof fn lemma_allocation(prog: Prog, order: Seq<usize>, homes: Seq<Option<Reg>>)
    requires
        prog.wf(),
        prog.sites.len() <= usize::MAX,
        prog.is_order(order),
        prog.allocation(order) == Some(homes),
    ensures
        homes.len() == prog.sites.len(),
        prog.pinned_homes().len() == prog.sites.len(),
        forall|a: int|
            0 <= a < homes.len() && (#[trigger] prog.pinned_homes()[a]) is Some ==> homes[a]
                == prog.pinned_homes()[a],
        forall|j: int| 0 <= j < order.len() ==> homes[(#[trigger] order[j]) as int] is Some,
        forall|j: int|
            0 <= j < order.len() ==> homes[(#[trigger] order[j]) as int] != Some(Reg(10)) && (
            homes[order[j] as int] == Some(Reg(0)) ==> prog.r0_free(
                prog.range_of(order[j] as int).0,
                prog.range_of(order[j] as int).1,
            )),
        forall|a: int, j: int|
            0 <= j < order.len() && 0 <= a < homes.len() && (#[trigger] prog.pinned_homes()[a]) is Some
                && homes[a] == homes[(#[trigger] order[j]) as int] ==> hands_over(
                prog,
                a,
                order[j] as int,
            ),
        forall|i: int, j: int|
            0 <= i < j < order.len() && homes[(#[trigger] order[i]) as int]
                == homes[(#[trigger] order[j]) as int] ==> hands_over(
                prog,
                order[i] as int,
                order[j] as int,
            ),
{
    let pins = prog.pinned(prog.insns.len());
    let none = Seq::new(prog.sites.len(), |i: int| None::<Reg>);
    lemma_pinned(prog, prog.insns.len());
    lemma_home_pins(prog, none, pins, 0);
    lemma_place(prog, order, 0, prog.pinned_homes(), pins, 0, homes);
}

/// Every value that needs a register has one.
pub proof fn used_values_are_homed(prog: Prog, order: Seq<usize>, homes: Seq<Option<Reg>>, id: usize)
    requires
        prog.wf(),
        prog.sites.len() <= usize::MAX,
        prog.is_order(order),
        prog.allocation(order) == Some(homes),
        id < prog.sites.len(),
        prog.is_used(id as int),
    ensures
        homes.len() == prog.sites.len(),
        homes[id as int] is Some,
{
    lemma_allocation(prog, order, homes);
    if prog.pinned_homes()[id as int] is None {
        assert(order.contains(id));
        let j = order.index_of(id);
        assert(homes[order[j] as int] is Some);
    }
}

/// Only values that need a register have one. The entry pointers that need
/// one are in `r10` and `r1`.
pub proof fn homed_values_are_used(prog: Prog, order: Seq<usize>, homes: Seq<Option<Reg>>, id: usize)
    requires
        prog.wf(),
        prog.sites.len() <= usize::MAX,
        prog.is_order(order),
        prog.allocation(order) == Some(homes),
        id < homes.len(),
        homes[id as int] is Some,
    ensures
        homes.len() == prog.sites.len(),
        prog.is_used(id as int),
        prog.pinned_homes()[id as int] is Some ==> some_pin(
            prog,
            (homes[id as int]->0, prog.range_of(id as int).1, id),
        ),
        prog.pinned_homes()[id as int] is None ==> forall|pin: Taken| #[trigger]
            some_pin(prog, pin) ==> pin.2 != id,
{
    lemma_allocation(prog, order, homes);
    let pins = prog.pinned(prog.insns.len());
    let none = Seq::new(prog.sites.len(), |i: int| None::<Reg>);
    lemma_pinned(prog, prog.insns.len());
    lemma_pins(prog, prog.insns.len());
    lemma_home_pins(prog, none, pins, 0);
    lemma_pins_entered(none, pins, 0);
    lemma_only_placed(prog, order, 0, prog.pinned_homes(), pins, homes);
    if prog.pinned_homes()[id as int] is Some {
        let pin = (prog.pinned_homes()[id as int]->0, prog.range_of(id as int).1, id);
        assert(pins.contains(pin));
        let k = pins.index_of(pin);
        assert(some_pin(prog, pins[k]));
    } else {
        assert(order.contains(id));
        let k = order.index_of(id);
        assert(prog.is_used(order[k] as int));
        assert forall|pin: Taken| #[trigger] some_pin(prog, pin) implies pin.2 != id by {
            let j = choose|j: int| #[trigger] is_pin(prog, j, pin);
            let v = SsaValue(pin.2 as u32);
            if pin.2 == id {
                assert(prog.insns[j] == (Op::FramePtr { dst: v }) || prog.insns[j] == (Op::EntryCtx { dst: v }));
                let m = choose|m: int| 0 <= m < pins.len() && (#[trigger] pins[m]).2 == v.0;
                assert(prog.pinned_homes()[pins[m].2 as int] is Some);
            }
        }
    }
}

/// Two values in one register do not clash: of two values that are placed in
/// turn, and of an entry pointer and any other value, the range of the first
/// has ended where that of the second starts, or the second is an operation
/// that overwrites the first as its left operand, at its last use.
pub proof fn homes_do_not_clash(
    prog: Prog,
    order: Seq<usize>,
    homes: Seq<Option<Reg>>,
    a: usize,
    b: usize,
)
    requires
        prog.wf(),
        prog.sites.len() <= usize::MAX,
        prog.is_order(order),
        prog.allocation(order) == Some(homes),
        a < homes.len(),
        b < homes.len(),
        a != b,
        homes[a as int] is Some,
        homes[a as int] == homes[b as int],
        prog.is_used(a as int),
        prog.is_used(b as int),
        prog.pinned_homes()[a as int] is None || prog.pinned_homes()[b as int] is None,
    ensures
        hands_over(prog, a as int, b as int) || hands_over(prog, b as int, a as int),
{
    lemma_allocation(prog, order, homes);
    if prog.pinned_homes()[a as int] is Some {
        assert(order.contains(b));
        let j = order.index_of(b);
        assert(order[j] == b);
    } else if prog.pinned_homes()[b as int] is Some {
        assert(order.contains(a));
        let i = order.index_of(a);
        assert(order[i] == a);
    } else {
        assert(order.contains(a));
        assert(order.contains(b));
        let i = order.index_of(a);
        let j = order.index_of(b);
        assert(order[i] == a);
        assert(order[j] == b);
        assert(i < j || j < i);
    }
}

/// `r10` is the home of the frame pointer only, and a value in `r0` that is
/// no entry pointer has no call strictly inside its range.
pub proof fn reserved_registers_are_kept(
    prog: Prog,
    order: Seq<usize>,
    homes: Seq<Option<Reg>>,
    id: usize,
)
    requires
        prog.wf(),
        prog.sites.len() <= usize::MAX,
        prog.is_order(order),
        prog.allocation(order) == Some(homes),
        id < prog.sites.len(),
        prog.is_used(id as int),
        prog.pinned_homes()[id as int] is None,
    ensures
        homes[id as int] != Some(Reg(10)),
        homes[id as int] == Some(Reg(0)) ==> prog.r0_free(
            prog.range_of(id as int).0,
            prog.range_of(id as int).1,
        ),
{
    lemma_allocation(prog, order, homes);
    assert(order.contains(id));
    let j = order.index_of(id);
    assert(order[j] == id);
}

/// Whether homes are registers.
spec fn all_valid(homes: Seq<Option<Reg>>) -> bool {
    forall|i: int| 0 <= i < homes.len() ==> ((#[trigger] homes[i]) matches Some(r) ==> r.valid())
}

proof fn lemma_phi_home_valid(
    homes: Seq<Option<Reg>>,
    active: Seq<Taken>,
    inputs: Seq<(usize, SsaValue)>,
    k: nat,
)
    requires
        all_valid(homes),
    ensures
        Prog::phi_home(homes, active, inputs, k) matches Some(home) ==> home.valid(),
    decreases inputs.len() - k,
{
    if k < inputs.len() {
        lemma_phi_home_valid(homes, active, inputs, k + 1);
    }
}

proof fn lemma_arg_home_valid(prog: Prog, active: Seq<Taken>, id: int, prefs: Seq<Reg>, k: nat)
    requires
        forall|i: int| 0 <= i < prefs.len() ==> (#[trigger] prefs[i]).0 < 10,
    ensures
        prog.arg_home(active, id, prefs, k) matches Some(home) ==> home.valid(),
    decreases prefs.len() - k,
{
    if k < prefs.len() {
        lemma_arg_home_valid(prog, active, id, prefs, k + 1);
    }
}

proof fn lemma_pool_home_valid(prog: Prog, active: Seq<Taken>, id: int, k: nat)
    ensures
        prog.pool_home(active, id, k) matches Some(home) ==> home.valid(),
    decreases 9 - k,
{
    if k < 9 {
        lemma_pool_home_valid(prog, active, id, k + 1);
    }
}

proof fn lemma_place_valid(
    prog: Prog,
    order: Seq<usize>,
    k: nat,
    homes: Seq<Option<Reg>>,
    active: Seq<Taken>,
    done: Seq<Option<Reg>>,
)
    requires
        all_valid(homes),
        homes.len() == prog.sites.len(),
        forall|j: int| 0 <= j < order.len() ==> (#[trigger] order[j]) < prog.sites.len(),
        prog.place_from(order, k, homes, active) == Some(done),
    ensures
        all_valid(done),
    decreases order.len() - k,
{
    if k < order.len() {
        let id = order[k as int] as int;
        let (start, end) = prog.range_of(id);
        let taken = still_taken(active, start);
        let home = prog.choose_home(homes, taken, id)->0;
        if let Some(Op::Phi { inputs, .. }) = prog.def_of(SsaValue(id as u32)) {
            lemma_phi_home_valid(homes, taken, inputs, 0);
        }
        lemma_arg_regs(prog, id, prog.insns.len());
        lemma_arg_home_valid(prog, taken, id, prog.arg_regs(id, prog.insns.len()), 0);
        lemma_pool_home_valid(prog, taken, id, 0);
        let homes2 = homes.update(id, Some(home));
        assert forall|i: int| 0 <= i < homes2.len() implies ((#[trigger] homes2[i]) matches Some(r) ==> r.valid()) by {
            if i != id {
                assert(homes2[i] == homes[i]);
            }
        }
        lemma_place_valid(prog, order, k + 1, homes2, taken.push((home, end, id as usize)), done);
    }
}

/// The homes of values are registers.
pub proof fn homes_are_registers(prog: Prog, order: Seq<usize>, homes: Seq<Option<Reg>>, id: int)
    requires
        prog.wf(),
        prog.sites.len() <= usize::MAX,
        prog.is_order(order),
        prog.allocation(order) == Some(homes),
        0 <= id < homes.len(),
    ensures
        homes[id] matches Some(r) ==> r.valid(),
{
    let pins = prog.pinned(prog.insns.len());
    let none = Seq::new(prog.sites.len(), |i: int| None::<Reg>);
    lemma_pinned(prog, prog.insns.len());
    lemma_pins(prog, prog.insns.len());
    lemma_home_pins(prog, none, pins, 0);
    assert forall|i: int| 0 <= i < prog.pinned_homes().len() implies ((#[trigger] prog.pinned_homes()[i]) matches Some(
        r,
    ) ==> r.valid()) by {
        if let Some(r) = prog.pinned_homes()[i] {
            let pin = (r, prog.range_of(i).1, i as usize);
            assert(pins.contains(pin));
            let k = pins.index_of(pin);
            assert(some_pin(prog, pins[k]));
        }
    }
    lemma_place_valid(prog, order, 0, prog.pinned_homes(), pins, homes);
}

} // verus!
