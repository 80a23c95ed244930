//! Checks what the code of a plan writes against a table.
use vstd::prelude::*;

use crate::graph::ssa_block;
use crate::isa::insn::{AluOp, Reg};
use crate::ssa::dead::uses_of;
use crate::ssa::emit::{homes_valid, moves_at_end, tramp_moves, Placement, Plan};
use crate::ssa::flow::{lemma_successors_below, live_successors, terminator};
use crate::ssa::lower::settle::{below, input_from, lemma_in_block};
use crate::ssa::lower::Lower;
use crate::ssa::moves::{agreeing, writes, PlacedMove};
use crate::ssa::scope::lemma_reached_block;
use crate::ssa::tables::{cell, Table};
use crate::ssa::{Op, SsaInsn, SsaOperand, SsaValue, START_PRED};

verus! {

/// Whether moves write a register.
fn is_written(moves: &Vec<PlacedMove>, r: Reg) -> (b: bool)
    ensures
        b == writes(moves@, r),
{
    let mut i: usize = 0;
    while i < moves.len()
        invariant
            i <= moves@.len(),
            forall|k: int| 0 <= k < i ==> (#[trigger] moves@[k]).dst != r,
        decreases moves@.len() - i,
    {
        if moves[i].dst == r {
            assert(moves@[i as int].dst == r);
            return true;
        }
        i = i + 1;
    }
    false
}

/// Whether moves to the same register come from the same source.
fn do_agree(moves: &Vec<PlacedMove>) -> (b: bool)
    ensures
        b == agreeing(moves@),
{
    let mut i: usize = 0;
    while i < moves.len()
        invariant
            i <= moves@.len(),
            forall|k: int, j: int|
                0 <= k < i && k < j < moves@.len() && (#[trigger] moves@[k]).dst == (#[trigger] moves@[j]).dst
                    ==> moves@[k].src == moves@[j].src,
        decreases moves@.len() - i,
    {
        let mut j: usize = i + 1;
        while j < moves.len()
            invariant
                i < j,
                j <= moves@.len(),
                forall|k: int|
                    i < k < j && moves@[i as int].dst == (#[trigger] moves@[k]).dst ==> moves@[i as int].src
                        == moves@[k].src,
            decreases moves@.len() - j,
        {
            if moves[i].dst == moves[j].dst && moves[i].src != moves[j].src {
                assert(moves@[i as int].dst == moves@[j as int].dst);
                return false;
            }
            j = j + 1;
        }
        i = i + 1;
    }
    true
}

proof fn lemma_next_reg(r: Reg, n: u8)
    requires
        r.0 < n + 1,
        n < 11,
    ensures
        r.0 < n || r == Reg(n),
{
}

/// What nothing writes against a table, nothing writes against one with fewer
/// entries.
proof fn lemma_clear_below(plan: Plan, list: Seq<Placement>, t: Table, s: Table)
    requires
        plan.prog.wf(),
        t.len() == plan.cells(),
        homes_valid(plan),
        below(t, s),
        plan.clear(list, s),
    ensures
        plan.clear(list, t),
{
    let prog = plan.prog;
    let b = prog.entry;
    let start = prog.nodes[b as int].start as int;
    assert(prog.nodes[b as int].start <= prog.nodes[b as int].end);
    lemma_in_block(plan, b, start);
    assert forall|r: Reg| r.0 < 11 implies ((#[trigger] t[cell(b, start, r)]) matches Some(v) ==> plan.starts_with(v, r)) by {
        if t[cell(b, start, r)] is Some {
            assert(s[cell(b, start, r)] == t[cell(b, start, r)]);
        }
    }
    assert forall|p: usize| #[trigger] prog.reaches(p) implies plan.clear_block(list, t, p) by {
        assert(plan.clear_block(list, s, p));
        lemma_reached_block(prog, p);
        assert forall|i: int| #[trigger] prog.within(p, i) implies plan.clear_insn(t, p, i) by {
            lemma_in_block(plan, p, i + 1);
            assert forall|r: Reg| r.0 < 11 && (#[trigger] t[cell(p, i + 1, r)]) is Some implies s[cell(p, i + 1, r)]
                == t[cell(p, i + 1, r)] by {}
            lemma_clear_insn(plan, t, s, p, i);
        }
        assert forall|b: usize| #[trigger] prog.successors(p).contains(b) implies plan.clear_edge(list, t, p, b) by {
            lemma_successors_below(prog, p);
            let k = choose|k: int| 0 <= k < prog.successors(p).len() && prog.successors(p)[k] == b;
            assert(prog.successors(p)[k] < prog.nodes.len());
            let start = prog.nodes[b as int].start as int;
            assert(prog.nodes[b as int].start <= prog.nodes[b as int].end);
            lemma_in_block(plan, b, start);
            assert(plan.clear_edge(list, s, p, b));
            assert forall|r: Reg| r.0 < 11 implies ((#[trigger] t[cell(b, start, r)]) matches Some(v) ==> prog.phi_for(
                b,
                v,
            ) is Some || !plan.overwritten(list, p, b, r)) by {
                if t[cell(b, start, r)] is Some {
                    assert(s[cell(b, start, r)] == t[cell(b, start, r)]);
                }
            }
        }
    }
}

proof fn lemma_clear_insn(plan: Plan, t: Table, s: Table, b: usize, i: int)
    requires
        homes_valid(plan),
        plan.clear_insn(s, b, i),
        forall|r: Reg|
            r.0 < 11 && (#[trigger] t[cell(b, i + 1, r)]) is Some ==> s[cell(b, i + 1, r)] == t[cell(b, i + 1, r)],
    ensures
        plan.clear_insn(t, b, i),
{
    let op = plan.prog.insns[i];
    if let Some(d) = op.def() {
        if let Some(r) = plan.home(d) {
            assert(plan.homes[d.0 as int] == Some(r));
            if plan.open_for(s, b, i, r, d) {
                assert(plan.open_for(t, b, i, r, d)) by {
                    if t[cell(b, i + 1, r)] is Some {
                        assert(s[cell(b, i + 1, r)] == t[cell(b, i + 1, r)]);
                    }
                }
            }
        }
    }
    if let Op::Call { dst, args, .. } = op {
        let moves = plan.shuffle(args, 5);
        if let Some(saves) = plan.saves(moves, i, moves.len()) {
            assert forall|r: Reg| r.0 < 11 implies ((#[trigger] t[cell(b, i + 1, r)]) matches Some(v) ==> v == dst
                || plan.survives(i, args, dst, saves, r)) by {
                if t[cell(b, i + 1, r)] is Some {
                    assert(s[cell(b, i + 1, r)] == t[cell(b, i + 1, r)]);
                }
            }
        }
    }
}

impl<'p> Lower<'p> {
    /// Whether a register must hold nothing but a value behind an
    /// instruction.
    fn is_open(&self, t: &Vec<Option<SsaValue>>, b: usize, i: usize, r: Reg, d: SsaValue) -> (o: bool)
        requires
            self.checking(),
            t@.len() == self.plan().cells(),
            self.prog@.within(b, i as int),
            r.valid(),
        ensures
            o == self.plan().open_for(t@, b, i as int, r, d),
    {
        proof {
            lemma_in_block(self.plan(), b, i as int + 1);
        }
        let c: usize = (i + 1 + b) * 11 + r.0 as usize;
        assert(c == cell(b, i as int + 1, r));
        match t[c] {
            Some(v) => v == d,
            None => true,
        }
    }

    /// Whether a value that an instruction computes may be written.
    fn may_define(&self, t: &Vec<Option<SsaValue>>, b: usize, i: usize, d: SsaValue) -> (o: bool)
        requires
            self.checking(),
            t@.len() == self.plan().cells(),
            self.prog@.within(b, i as int),
        ensures
            o == (self.plan().home(d) matches Some(r) ==> self.plan().open_for(t@, b, i as int, r, d)),
    {
        match self.home_of(d) {
            None => true,
            Some(r) => {
                assert(self.plan().homes[d.0 as int] == Some(r));
                self.is_open(t, b, i, r, d)
            },
        }
    }

    /// Whether a value is in a register.
    fn is_home(&self, v: SsaValue, r: Reg) -> (o: bool)
        ensures
            o == (self.plan().home(v) == Some(r)),
    {
        match self.home_of(v) {
            Some(home) => home == r,
            None => false,
        }
    }

    /// Whether an operation that is written over its right operand is a move,
    /// or written over its left operand too.
    fn are_sides_ok(&self, op: AluOp, lhs: SsaOperand, rhs: SsaOperand, r: Reg) -> (o: bool)
        ensures
            o == self.plan().sides_ok(op, lhs, rhs, r),
    {
        match rhs {
            SsaOperand::Imm(_) => true,
            SsaOperand::Value(u) => {
                if !self.is_home(u, r) || op == AluOp::Mov {
                    return true;
                }
                match lhs {
                    SsaOperand::Imm(_) => false,
                    SsaOperand::Value(x) => self.is_home(x, r),
                }
            },
        }
    }

    /// Whether a register may hold a saved value during a call.
    fn is_save_ok(&self, moves: &Vec<PlacedMove>, args: &[SsaValue; 5], d: SsaValue, save: (Reg, Reg)) -> (o: bool)
        requires
            moves@ == self.plan().shuffle(args@, 5),
        ensures
            o == self.plan().save_ok(args@, d, save),
    {
        if is_written(moves, save.1) || self.is_home(d, save.0) || self.is_home(d, save.1) {
            return false;
        }
        let mut j: usize = 0;
        while j < 5
            invariant
                j <= 5,
                forall|k: int| 0 <= k < j ==> self.plan().home(#[trigger] args@[k]) != Some(save.1),
            decreases 5 - j,
        {
            if self.is_home(args[j], save.1) {
                assert(self.plan().home(args@[j as int]) == Some(save.1));
                return false;
            }
            j = j + 1;
        }
        true
    }

    /// Whether a register that must hold a value behind a call does.
    fn does_survive(
        &self,
        i: usize,
        moves: &Vec<PlacedMove>,
        args: &[SsaValue; 5],
        d: SsaValue,
        saves: &Vec<(Reg, Reg)>,
        r: Reg,
    ) -> (o: bool)
        requires
            self.ready(),
            moves@ == self.plan().shuffle(args@, 5),
        ensures
            o == self.plan().survives(i as int, args@, d, saves@, r),
    {
        if r == Reg(0) || self.is_home(d, r) {
            return false;
        }
        let mut k: usize = 0;
        while k < saves.len()
            invariant
                k <= saves@.len(),
                forall|j: int| 0 <= j < k ==> (#[trigger] saves@[j]).1 != r,
            decreases saves@.len() - k,
        {
            let (_from, temp) = saves[k];
            if temp == r {
                assert(saves@[k as int].1 == r);
                return false;
            }
            k = k + 1;
        }
        !is_written(moves, r) || self.crosses(r, i)
    }

    /// Whether a call writes no register against a table, or puts back what
    /// it held.
    fn check_call(&self, t: &Vec<Option<SsaValue>>, b: usize, i: usize, d: SsaValue, args: &[SsaValue; 5]) -> (o: bool)
        requires
            self.checking(),
            t@.len() == self.plan().cells(),
            self.prog@.within(b, i as int),
        ensures
            o == self.plan().clear_call(t@, b, i as int, d, args@),
    {
        let ghost plan = self.plan();
        proof {
            lemma_in_block(plan, b, i as int + 1);
        }
        let moves = match self.shuffle(args) {
            None => {
                return false;
            },
            Some(moves) => moves,
        };
        let saves = match self.find_saves(&moves, i) {
            None => {
                return true;
            },
            Some(saves) => saves,
        };
        let mut k: usize = 0;
        while k < saves.len()
            invariant
                self.checking(),
                plan == self.plan(),
                moves@ == plan.shuffle(args@, 5),
                plan.saves(moves@, i as int, moves@.len()) == Some(saves@),
                k <= saves@.len(),
                forall|j: int| 0 <= j < k ==> plan.save_ok(args@, d, #[trigger] saves@[j]),
            decreases saves@.len() - k,
        {
            if !self.is_save_ok(&moves, args, d, saves[k]) {
                proof {
                    let all = plan.saves(plan.shuffle(args@, 5), i as int, plan.shuffle(args@, 5).len())->0;
                    assert(!plan.save_ok(args@, d, all[k as int]));
                }
                return false;
            }
            k = k + 1;
        }
        let mut n: u8 = 0;
        while n < 11
            invariant
                self.checking(),
                plan == self.plan(),
                t@.len() == plan.cells(),
                self.prog@.within(b, i as int),
                i < self.prog@.insns.len(),
                moves@ == plan.shuffle(args@, 5),
                plan.saves(moves@, i as int, moves@.len()) == Some(saves@),
                n <= 11,
                forall|r: Reg|
                    r.0 < n ==> ((#[trigger] t@[cell(b, i + 1, r)]) matches Some(v) ==> v == d || plan.survives(
                        i as int,
                        args@,
                        d,
                        saves@,
                        r,
                    )),
            decreases 11 - n,
        {
            let c: usize = (i + 1 + b) * 11 + n as usize;
            assert(c == cell(b, i as int + 1, Reg(n)));
            if let Some(v) = t[c] {
                if v != d && !self.does_survive(i, &moves, args, d, &saves, Reg(n)) {
                    assert(t@[cell(b, i + 1, Reg(n))] == Some(v));
                    return false;
                }
            }
            proof {
                assert forall|r: Reg| r.0 < n + 1 implies ((#[trigger] t@[cell(b, i + 1, r)]) matches Some(v) ==> v == d
                    || plan.survives(i as int, args@, d, saves@, r)) by {
                    lemma_next_reg(r, n);
                }
            }
            n = n + 1;
        }
        true
    }

    /// Whether an instruction writes no register against a table.
    fn check_insn(&self, t: &Vec<Option<SsaValue>>, b: usize, i: usize) -> (o: bool)
        requires
            self.checking(),
            t@.len() == self.plan().cells(),
            self.prog@.within(b, i as int),
        ensures
            o == self.plan().clear_insn(t@, b, i as int),
    {
        proof {
            lemma_in_block(self.plan(), b, i as int + 1);
            assert(self.prog@.insns[i as int] == self.prog.insns@[i as int]@);
        }
        match &self.prog.insns[i] {
            SsaInsn::Const { dst, .. } => self.may_define(t, b, i, *dst),
            SsaInsn::LoadImm64 { dst, .. } => self.may_define(t, b, i, *dst),
            SsaInsn::Copy { dst, .. } => self.may_define(t, b, i, *dst),
            SsaInsn::Load { dst: Some(dst), .. } => self.may_define(t, b, i, *dst),
            SsaInsn::BinOp { dst, op, lhs, rhs, .. } => match self.home_of(*dst) {
                Some(r) => self.may_define(t, b, i, *dst) && self.are_sides_ok(*op, *lhs, *rhs, r),
                None => match op {
                    AluOp::End(_) => match rhs {
                        SsaOperand::Imm(k) => *k == 16 || *k == 32 || *k == 64,
                        SsaOperand::Value(_) => false,
                    },
                    _ => true,
                },
            },
            SsaInsn::Call { dst, args, .. } => self.check_call(t, b, i, *dst, args),
            _ => true,
        }
    }

    /// Whether the moves at the end of a block leave its control instruction
    /// alone.
    fn check_end(&self, p: usize) -> (o: bool)
        requires
            self.checking(),
            p < self.prog@.nodes.len(),
        ensures
            o == self.plan().spares_end(self.list@, p),
    {
        let ghost plan = self.plan();
        let first = &self.end_moves[p];
        assert(first@ == moves_at_end(plan, self.list@, p));
        if !do_agree(first) {
            return false;
        }
        let insn = match terminator(self.prog, p) {
            None => {
                return true;
            },
            Some(insn) => insn,
        };
        let uses = uses_of(insn);
        let mut k: usize = 0;
        while k < uses.len()
            invariant
                plan == self.plan(),
                first@ == moves_at_end(plan, self.list@, p),
                plan.prog.terminator(p) == Some(insn@),
                uses@ == insn@.uses(),
                k <= uses@.len(),
                forall|j: int| 0 <= j < k ==> (plan.home(#[trigger] uses@[j]) matches Some(r) ==> !writes(first@, r)),
            decreases uses@.len() - k,
        {
            if let Some(r) = self.home_of(uses[k]) {
                if is_written(first, r) {
                    assert(plan.home(insn@.uses()[k as int]) == Some(r));
                    return false;
                }
            }
            k = k + 1;
        }
        true
    }

    /// Whether an entry pointer or a zero is in a register at the start.
    fn is_set(&self, v: SsaValue, r: Reg) -> (o: bool)
        ensures
            o == self.plan().set_at_start(v, r),
    {
        match self.prog.def_of(v) {
            Some(SsaInsn::FramePtr { .. }) => r == Reg(10),
            Some(SsaInsn::EntryCtx { .. }) => r == Reg(1),
            Some(SsaInsn::Const { value, .. }) => *value == 0 && r.0 < 10 && r.0 != 1,
            _ => false,
        }
    }

    /// Whether a register that must hold a value at the start does.
    fn does_start(&self, v: SsaValue, r: Reg) -> (o: bool)
        requires
            self.ready(),
        ensures
            o == self.plan().starts_with(v, r),
    {
        if !self.has_phi(self.prog.entry, v) {
            return self.is_set(v, r);
        }
        match self.prog.def_of(v) {
            Some(SsaInsn::Phi { inputs, .. }) => match input_from(inputs, START_PRED) {
                Some(x) => self.is_set(x, r),
                None => false,
            },
            _ => false,
        }
    }

    /// Whether the registers at the start of the program are as a table says.
    fn check_start(&self, t: &Vec<Option<SsaValue>>) -> (o: bool)
        requires
            self.checking(),
            t@.len() == self.plan().cells(),
        ensures
            o == self.plan().clear_start(t@),
    {
        let ghost plan = self.plan();
        let b: usize = self.prog.entry;
        let at: usize = ssa_block(&self.prog.graph, b).start;
        proof {
            assert(plan.prog.nodes[b as int].start <= plan.prog.nodes[b as int].end);
            lemma_in_block(plan, b, at as int);
        }
        let mut n: u8 = 0;
        while n < 11
            invariant
                self.checking(),
                plan == self.plan(),
                t@.len() == plan.cells(),
                b == plan.prog.entry,
                at == plan.prog.nodes[b as int].start,
                at <= plan.prog.insns.len(),
                n <= 11,
                forall|r: Reg|
                    r.0 < n ==> ((#[trigger] t@[cell(b, at as int, r)]) matches Some(v) ==> plan.starts_with(v, r)),
            decreases 11 - n,
        {
            let c: usize = (at + b) * 11 + n as usize;
            assert(c == cell(b, at as int, Reg(n)));
            if let Some(v) = t[c] {
                if !self.does_start(v, Reg(n)) {
                    assert(t@[cell(b, at as int, Reg(n))] == Some(v));
                    return false;
                }
            }
            proof {
                assert forall|r: Reg| r.0 < n + 1 implies ((#[trigger] t@[cell(b, at as int, r)]) matches Some(v)
                    ==> plan.starts_with(v, r)) by {
                    lemma_next_reg(r, n);
                }
            }
            n = n + 1;
        }
        true
    }

    /// Whether the entry pointers are where the machine puts them.
    fn check_entry(&self) -> (o: bool)
        requires
            self.checking(),
        ensures
            o == self.plan().entry_homes(),
    {
        let ghost plan = self.plan();
        let mut id: usize = 0;
        while id < self.prog.def_sites.len() && id < self.alloc.homes.len()
            invariant
                self.checking(),
                plan == self.plan(),
                id <= plan.prog.sites.len(),
                forall|v: SsaValue|
                    v.0 < id && plan.prog.defined(v) ==> (#[trigger] plan.home(v) matches Some(r) ==> {
                        &&& r == Reg(10) <==> plan.prog.def_of(v)->0 is FramePtr
                        &&& plan.prog.def_of(v)->0 is EntryCtx ==> r == Reg(1)
                    }),
            decreases plan.prog.sites.len() - id,
        {
            if id > u32::MAX as usize {
                proof {
                    assert forall|v: SsaValue| plan.prog.defined(v) implies (#[trigger] plan.home(v) matches Some(r) ==> {
                        &&& r == Reg(10) <==> plan.prog.def_of(v)->0 is FramePtr
                        &&& plan.prog.def_of(v)->0 is EntryCtx ==> r == Reg(1)
                    }) by {
                        assert(v.0 < id);
                    }
                }
                return true;
            }
            let v = SsaValue(id as u32);
            if let Some(r) = self.home_of(v) {
                if let Some(insn) = self.prog.def_of(v) {
                    if let Some(d) = insn.def_dst() {
                        if d == v {
                            assert(plan.prog.defined(v));
                            assert(plan.home(v) == Some(r));
                            let ok = match insn {
                                SsaInsn::FramePtr { .. } => r == Reg(10),
                                SsaInsn::EntryCtx { .. } => r == Reg(1),
                                _ => r != Reg(10),
                            };
                            if !ok {
                                return false;
                            }
                        }
                    }
                }
            }
            proof {
                assert forall|w: SsaValue| w.0 < id + 1 && plan.prog.defined(w) implies (#[trigger] plan.home(w) matches Some(
                    r,
                ) ==> {
                    &&& r == Reg(10) <==> plan.prog.def_of(w)->0 is FramePtr
                    &&& plan.prog.def_of(w)->0 is EntryCtx ==> r == Reg(1)
                }) by {
                    if w.0 == id {
                        assert(w == v);
                    }
                }
            }
            id = id + 1;
        }
        true
    }

    /// Whether the moves on an edge write a register.
    fn is_overwritten(&self, p: usize, b: usize, r: Reg) -> (o: bool)
        requires
            self.checking(),
            p < self.prog@.nodes.len(),
        ensures
            o == self.plan().overwritten(self.list@, p, b, r),
    {
        assert(self.end_moves@[p as int]@ == moves_at_end(self.plan(), self.list@, p));
        if is_written(&self.end_moves[p], r) {
            return true;
        }
        match self.find_key(p, b) {
            None => false,
            Some(k) => {
                assert(self.keys@.contains(self.keys@[k as int]));
                assert(self.tramps@[k as int]@ == tramp_moves(self.list@, self.keys@[k as int]));
                is_written(&self.tramps[k], r)
            },
        }
    }

    /// Whether the inputs of the phis of a block stay in their registers
    /// until a trampoline reads them.
    fn check_reads(&self, p: usize, b: usize) -> (o: bool)
        requires
            self.checking(),
            p < self.prog@.nodes.len(),
            b < self.prog@.nodes.len(),
        ensures
            o == (forall|j: int| self.prog@.within(b, j) ==> #[trigger] self.plan().reads_ok(self.list@, p, j)),
    {
        let ghost plan = self.plan();
        let ghost list = self.list@;
        let bb = ssa_block(&self.prog.graph, b);
        let first = &self.end_moves[p];
        proof {
            assert(plan.prog.nodes[b as int].start <= plan.prog.nodes[b as int].end);
            lemma_in_block(plan, b, bb.end as int);
            assert(first@ == moves_at_end(plan, list, p));
        }
        let mut j: usize = bb.start;
        while j < bb.end
            invariant
                self.checking(),
                plan == self.plan(),
                list == self.list@,
                first@ == moves_at_end(plan, list, p),
                b < plan.prog.nodes.len(),
                bb == plan.prog.nodes[b as int],
                bb.end <= plan.prog.insns.len(),
                bb.start <= j <= bb.end,
                forall|k: int| bb.start <= k < j ==> #[trigger] plan.reads_ok(list, p, k),
            decreases bb.end - j,
        {
            assert(self.prog@.insns[j as int] == self.prog.insns@[j as int]@);
            if let SsaInsn::Phi { inputs, .. } = &self.prog.insns[j] {
                if let Some(x) = input_from(inputs, p) {
                    if let Some(r) = self.home_of(x) {
                        if is_written(first, r) {
                            assert(plan.prog.within(b, j as int));
                            assert(!plan.reads_ok(list, p, j as int));
                            return false;
                        }
                    }
                }
            }
            j = j + 1;
        }
        true
    }

    /// Whether the moves on an edge write no register against a table.
    fn check_edge(&self, t: &Vec<Option<SsaValue>>, p: usize, b: usize) -> (o: bool)
        requires
            self.checking(),
            t@.len() == self.plan().cells(),
            p < self.prog@.nodes.len(),
            b < self.prog@.nodes.len(),
        ensures
            o == self.plan().clear_edge(self.list@, t@, p, b),
    {
        let ghost plan = self.plan();
        let ghost list = self.list@;
        let at: usize = ssa_block(&self.prog.graph, b).start;
        proof {
            assert(plan.prog.nodes[b as int].start <= plan.prog.nodes[b as int].end);
            lemma_in_block(plan, b, at as int);
        }
        if let Some(k) = self.find_key(p, b) {
            assert(self.keys@.contains(self.keys@[k as int]));
            assert(self.tramps@[k as int]@ == tramp_moves(list, self.keys@[k as int]));
            if !do_agree(&self.tramps[k]) || !self.check_reads(p, b) {
                return false;
            }
        }
        let mut n: u8 = 0;
        while n < 11
            invariant
                self.checking(),
                plan == self.plan(),
                list == self.list@,
                t@.len() == plan.cells(),
                p < plan.prog.nodes.len(),
                b < plan.prog.nodes.len(),
                at == plan.prog.nodes[b as int].start,
                at <= plan.prog.insns.len(),
                n <= 11,
                forall|r: Reg|
                    r.0 < n ==> ((#[trigger] t@[cell(b, at as int, r)]) matches Some(v) ==> plan.prog.phi_for(b, v)
                        is Some || !plan.overwritten(list, p, b, r)),
            decreases 11 - n,
        {
            let c: usize = (at + b) * 11 + n as usize;
            assert(c == cell(b, at as int, Reg(n)));
            if let Some(v) = t[c] {
                if !self.has_phi(b, v) && self.is_overwritten(p, b, Reg(n)) {
                    assert(t@[cell(b, at as int, Reg(n))] == Some(v));
                    return false;
                }
            }
            proof {
                assert forall|r: Reg| r.0 < n + 1 implies ((#[trigger] t@[cell(b, at as int, r)]) matches Some(v)
                    ==> plan.prog.phi_for(b, v) is Some || !plan.overwritten(list, p, b, r)) by {
                    lemma_next_reg(r, n);
                }
            }
            n = n + 1;
        }
        true
    }

    /// Whether nothing in a block or on its edges writes a register against a
    /// table.
    fn check_block(&self, t: &Vec<Option<SsaValue>>, p: usize) -> (o: bool)
        requires
            self.checking(),
            t@.len() == self.plan().cells(),
            p < self.prog@.nodes.len(),
        ensures
            o == self.plan().clear_block(self.list@, t@, p),
    {
        let ghost plan = self.plan();
        let ghost list = self.list@;
        if !self.check_end(p) {
            return false;
        }
        let bb = ssa_block(&self.prog.graph, p);
        assert(plan.prog.nodes[p as int].start <= plan.prog.nodes[p as int].end);
        let mut i: usize = bb.start;
        while i < bb.end
            invariant
                self.checking(),
                plan == self.plan(),
                list == self.list@,
                t@.len() == plan.cells(),
                p < plan.prog.nodes.len(),
                bb == plan.prog.nodes[p as int],
                bb.start <= i <= bb.end,
                forall|k: int| bb.start <= k < i ==> #[trigger] plan.clear_insn(t@, p, k),
            decreases bb.end - i,
        {
            assert(plan.prog.within(p, i as int));
            if !self.check_insn(t, p, i) {
                return false;
            }
            i = i + 1;
        }
        let to = live_successors(self.prog, p);
        proof {
            lemma_successors_below(plan.prog, p);
        }
        let mut k: usize = 0;
        while k < to.len()
            invariant
                self.checking(),
                plan == self.plan(),
                list == self.list@,
                t@.len() == plan.cells(),
                p < plan.prog.nodes.len(),
                to@ == plan.prog.successors(p),
                forall|i: int| 0 <= i < to@.len() ==> #[trigger] to@[i] < plan.prog.nodes.len(),
                k <= to@.len(),
                forall|i: int| 0 <= i < k ==> plan.clear_edge(list, t@, p, #[trigger] to@[i]),
            decreases to@.len() - k,
        {
            if !self.check_edge(t, p, to[k]) {
                assert(plan.prog.successors(p).contains(to@[k as int]));
                return false;
            }
            k = k + 1;
        }
        proof {
            assert forall|b: usize| #[trigger] plan.prog.successors(p).contains(b) implies plan.clear_edge(
                list,
                t@,
                p,
                b,
            ) by {
                let i = choose|i: int| 0 <= i < to@.len() && to@[i] == b;
                assert(plan.clear_edge(list, t@, p, to@[i]));
            }
        }
        true
    }

    /// Whether nothing writes a register against a table.
    fn check_all(&self, t: &Vec<Option<SsaValue>>) -> (o: bool)
        requires
            self.checking(),
            t@.len() == self.plan().cells(),
        ensures
            o == self.plan().clear(self.list@, t@),
    {
        let ghost plan = self.plan();
        let ghost list = self.list@;
        if !self.check_entry() || !self.check_start(t) {
            return false;
        }
        let mut p: usize = 0;
        while p < self.live.len()
            invariant
                self.checking(),
                plan == self.plan(),
                list == self.list@,
                t@.len() == plan.cells(),
                p <= self.live@.len(),
                forall|b: usize| b < p && #[trigger] plan.prog.reaches(b) ==> plan.clear_block(list, t@, b),
            decreases self.live@.len() - p,
        {
            assert(plan.live[p as int] == plan.prog.reaches(p));
            if self.live[p] {
                if !self.check_block(t, p) {
                    return false;
                }
            }
            p = p + 1;
        }
        proof {
            assert forall|b: usize| #[trigger] plan.prog.reaches(b) implies plan.clear_block(list, t@, b) by {
                lemma_reached_block(plan.prog, b);
            }
        }
        true
    }

    /// Whether some table shows that the registers are sound.
    pub(super) fn is_sound(&self) -> (o: bool)
        requires
            self.checking(),
        ensures
            o == (exists|t: Table| #[trigger] self.plan().settles(self.list@, t)),
    {
        let ghost plan = self.plan();
        let ghost list = self.list@;
        let t = match self.fill() {
            None => {
                return false;
            },
            Some(t) => t,
        };
        let clear = self.check_all(&t);
        proof {
            reveal(Plan::settles);
            if clear {
                assert(plan.settles(list, t@));
            } else {
                assert forall|s: Table| !#[trigger] plan.settles(list, s) by {
                    if plan.settles(list, s) {
                        assert(below(t@, s));
                        lemma_clear_below(plan, list, t@, s);
                    }
                }
            }
        }
        clear
    }
}

} // verus!
