//! Checks the registers of a plan.
//!
//! What the registers must hold is found from the uses: entries of the table
//! are asked for until none is missing. Every table that shows the registers
//! to be sound has these entries, so the plan is refused only if none does.
use vstd::prelude::*;

use crate::graph::ssa_block;
use crate::isa::insn::Reg;
use crate::ssa::dead::uses_of;
use crate::ssa::emit::{homes_valid, Placement, Plan};
use crate::ssa::flow::{lemma_successors_below, live_successors};
use crate::ssa::lower::Lower;
use crate::ssa::run::taken_from;
use crate::ssa::scope::lemma_reached_block;
use crate::ssa::tables::{cell, Table};
use crate::ssa::{SsaInsn, SsaValue};

verus! {

/// What asking for entries did to a table.
enum Asked {
    /// They were there.
    Same,
    /// Some are new.
    New,
    /// A register would have to hold two values.
    Clash,
}

/// What asking twice did.
fn joined(a: Asked, b: Asked) -> (r: Asked)
    ensures
        r == both(a, b),
{
    match (a, b) {
        (Asked::Clash, _) => Asked::Clash,
        (_, Asked::Clash) => Asked::Clash,
        (Asked::Same, Asked::Same) => Asked::Same,
        _ => Asked::New,
    }
}

spec fn both(a: Asked, b: Asked) -> Asked {
    match (a, b) {
        (Asked::Clash, _) => Asked::Clash,
        (_, Asked::Clash) => Asked::Clash,
        (Asked::Same, Asked::Same) => Asked::Same,
        _ => Asked::New,
    }
}

/// Whether a table has the entries of another.
pub(super) open spec fn below(a: Table, b: Table) -> bool {
    a.len() == b.len() && forall|c: int| 0 <= c < a.len() && (#[trigger] a[c]) is Some ==> b[c] == a[c]
}

/// The number of missing entries among the first `n`.
spec fn blanks(t: Table, n: nat) -> nat
    decreases n,
{
    if n == 0 {
        0
    } else {
        blanks(t, (n - 1) as nat) + (if t[n - 1] is None {
            1nat
        } else {
            0nat
        })
    }
}

proof fn lemma_blanks(t: Table, c: int, v: Option<SsaValue>, n: nat)
    requires
        0 <= c < t.len(),
        t[c] is None,
        v is Some,
        n <= t.len(),
    ensures
        blanks(t.update(c, v), n) == blanks(t, n) - (if c < n {
            1int
        } else {
            0int
        }),
    decreases n,
{
    if n > 0 {
        lemma_blanks(t, c, v, (n - 1) as nat);
    }
}

/// Whether a table comes from another by asking for entries that every table
/// must have.
spec fn stepped(plan: Plan, list: Seq<Placement>, a: Table, b: Table, r: Asked) -> bool {
    &&& b.len() == a.len()
    &&& plan.homed(b)
    &&& forall|t: Table| #[trigger] plan.settles(list, t) && below(a, t) ==> below(b, t) && !(r is Clash)
    &&& r is Same ==> b == a
    &&& r is New ==> blanks(b, b.len()) < blanks(a, a.len())
}

/// Whether every table that has the entries of a table has a value in its
/// register.
spec fn demanded(plan: Plan, list: Seq<Placement>, a: Table, b: usize, i: int, v: SsaValue) -> bool {
    forall|t: Table| #[trigger] plan.settles(list, t) && below(a, t) ==> plan.sits(t, b, i, v)
}

proof fn lemma_steps(plan: Plan, list: Seq<Placement>, a: Table, b: Table, c: Table, r: Asked, s: Asked)
    requires
        stepped(plan, list, a, b, r),
        stepped(plan, list, b, c, s),
    ensures
        stepped(plan, list, a, c, both(r, s)),
{
}

/// Different points and registers have different entries.
proof fn lemma_cells(b: usize, i: int, r: Reg, c: usize, j: int, s: Reg)
    requires
        r.0 < 11,
        s.0 < 11,
        cell(b, i, r) == cell(c, j, s),
    ensures
        r == s,
        i + b == j + c,
{
}

pub(super) proof fn lemma_in_block(plan: Plan, b: usize, i: int)
    requires
        plan.prog.wf(),
        b < plan.prog.nodes.len(),
        plan.prog.nodes[b as int].start <= i <= plan.prog.nodes[b as int].end,
    ensures
        i <= plan.prog.insns.len(),
{
    let nodes = plan.prog.nodes;
    if b < nodes.len() - 1 {
        assert(nodes[b as int].end <= nodes[nodes.len() - 1].start);
    }
}

/// The input of a phi from a predecessor.
pub(super) fn input_from(inputs: &Vec<(usize, SsaValue)>, p: usize) -> (r: Option<SsaValue>)
    ensures
        r == taken_from(inputs@, p, 0),
{
    let mut k: usize = 0;
    while k < inputs.len()
        invariant
            k <= inputs@.len(),
            taken_from(inputs@, p, 0) == taken_from(inputs@, p, k as nat),
        decreases inputs@.len() - k,
    {
        let (from, v) = inputs[k];
        if from == p {
            return Some(v);
        }
        k = k + 1;
    }
    None
}

impl<'p> Lower<'p> {
    /// What holds while registers are checked.
    pub(super) open spec fn checking(&self) -> bool {
        &&& self.wf()
        &&& self.plan() == self.prog@.plan(self.alloc.homes@)
        &&& homes_valid(self.plan())
        &&& self.plan().cells() <= usize::MAX
    }

    /// Whether tables fit in memory.
    pub(super) fn tables_fit(&self) -> (r: bool)
        requires
            self.ready(),
        ensures
            r == (self.plan().cells() <= usize::MAX),
    {
        match self.prog.insns.len().checked_add(self.live.len()) {
            None => false,
            Some(points) => points.checked_mul(11).is_some(),
        }
    }

    /// Asks for a value in its register.
    fn ask(&self, t: &mut Vec<Option<SsaValue>>, b: usize, i: usize, v: SsaValue) -> (r: Asked)
        requires
            self.checking(),
            b < self.prog@.nodes.len(),
            i <= self.prog@.insns.len(),
            old(t)@.len() == self.plan().cells(),
            self.plan().homed(old(t)@),
            demanded(self.plan(), self.list@, old(t)@, b, i as int, v),
        ensures
            stepped(self.plan(), self.list@, old(t)@, final(t)@, r),
            r is Same ==> self.plan().sits(old(t)@, b, i as int, v),
    {
        let ghost plan = self.plan();
        let ghost list = self.list@;
        match self.home_of(v) {
            None => Asked::Same,
            Some(home) => {
                assert(plan.homes[v.0 as int] == Some(home));
                let c: usize = (i + b) * 11 + home.0 as usize;
                assert(c == cell(b, i as int, home));
                assert(forall|s: Table| #[trigger]
                    plan.settles(list, s) && below(t@, s) ==> plan.sits(s, b, i as int, v));
                match t[c] {
                    Some(w) => if w == v {
                        Asked::Same
                    } else {
                        assert forall|s: Table| #[trigger]
                            plan.settles(list, s) && below(t@, s) implies false by {
                            assert(plan.sits(s, b, i as int, v));
                            assert(t@[c as int] is Some);
                        }
                        Asked::Clash
                    },
                    None => {
                        let ghost before = t@;
                        t.set(c, Some(v));
                        proof {
                            lemma_blanks(before, c as int, Some(v), before.len());
                            assert(plan.homed(t@)) by {
                                assert forall|d: usize, j: int, s: Reg|
                                    s.0 < 11 && 0 <= cell(d, j, s) < t@.len() implies ((#[trigger] t@[cell(
                                    d,
                                    j,
                                    s,
                                )]) matches Some(u) ==> plan.home(u) == Some(s)) by {
                                    if cell(d, j, s) == c {
                                        lemma_cells(b, i as int, home, d, j, s);
                                    } else {
                                        assert(before[cell(d, j, s)] == t@[cell(d, j, s)]);
                                    }
                                }
                            }
                            assert forall|s: Table| #[trigger]
                                plan.settles(list, s) && below(before, s) implies below(t@, s) by {
                                assert(plan.sits(s, b, i as int, v));
                                assert forall|d: int| 0 <= d < t@.len() && (#[trigger] t@[d]) is Some implies s[d]
                                    == t@[d] by {
                                    if d != c {
                                        assert(before[d] == t@[d]);
                                    }
                                }
                            }
                        }
                        Asked::New
                    },
                }
            },
        }
    }

    /// Whether an instruction only computes a value that has no register.
    fn is_idle(&self, insn: &SsaInsn) -> (r: bool)
        ensures
            r == self.plan().idle(insn@),
    {
        match insn {
            SsaInsn::Const { dst, .. } => self.home_of(*dst).is_none(),
            SsaInsn::LoadImm64 { dst, .. } => self.home_of(*dst).is_none(),
            SsaInsn::Copy { dst, .. } => self.home_of(*dst).is_none(),
            SsaInsn::BinOp { dst, .. } => self.home_of(*dst).is_none(),
            _ => false,
        }
    }

    /// Whether an instruction gives a value its number when it runs.
    fn does_bring(&self, i: usize, v: SsaValue) -> (r: bool)
        requires
            i < self.prog@.insns.len(),
        ensures
            r == self.plan().brings(i as int, v),
    {
        assert(self.prog@.insns[i as int] == self.prog.insns@[i as int]@);
        let insn = &self.prog.insns[i];
        match insn {
            SsaInsn::Phi { .. } => false,
            SsaInsn::FramePtr { .. } => false,
            SsaInsn::EntryCtx { .. } => false,
            _ => match insn.def_dst() {
                Some(d) => d == v,
                None => false,
            },
        }
    }

    /// Asks for what an instruction uses.
    fn ask_uses(&self, t: &mut Vec<Option<SsaValue>>, b: usize, i: usize) -> (r: Asked)
        requires
            self.checking(),
            self.prog@.within(b, i as int),
            self.prog@.reaches(b),
            old(t)@.len() == self.plan().cells(),
            self.plan().homed(old(t)@),
        ensures
            stepped(self.plan(), self.list@, old(t)@, final(t)@, r),
            r is Same ==> self.plan().rule_uses(old(t)@, b, i as int),
    {
        let ghost plan = self.plan();
        let ghost list = self.list@;
        let ghost start = t@;
        proof {
            lemma_in_block(plan, b, i as int + 1);
        }
        assert(self.prog@.insns[i as int] == self.prog.insns@[i as int]@);
        let insn = &self.prog.insns[i];
        if let SsaInsn::Phi { .. } = insn {
            return Asked::Same;
        }
        if self.is_idle(insn) {
            return Asked::Same;
        }
        let uses = uses_of(insn);
        let mut acc = Asked::Same;
        let mut k: usize = 0;
        while k < uses.len()
            invariant
                self.checking(),
                plan == self.plan(),
                list == self.list@,
                self.prog@.within(b, i as int),
                self.prog@.reaches(b),
                i < self.prog@.insns.len(),
                !(plan.prog.insns[i as int] is Phi),
                !plan.idle(plan.prog.insns[i as int]),
                uses@ == plan.prog.insns[i as int].uses(),
                k <= uses@.len(),
                start == old(t)@,
                start.len() == plan.cells(),
                stepped(plan, list, start, t@, acc),
                !(acc is Clash),
                acc is Same ==> forall|j: int| 0 <= j < k ==> plan.sits(start, b, i as int, #[trigger] uses@[j]),
            decreases uses@.len() - k,
        {
            let ghost before = t@;
            assert(demanded(plan, list, t@, b, i as int, uses@[k as int])) by {
                assert forall|s: Table| #[trigger] plan.settles(list, s) && below(t@, s) implies plan.sits(
                    s,
                    b,
                    i as int,
                    uses@[k as int],
                ) by {
                    reveal(Plan::settles);
                    assert(plan.rule_insn(s, b, i as int));
                }
            }
            let r = self.ask(t, b, i, uses[k]);
            proof {
                lemma_steps(plan, list, start, before, t@, acc, r);
            }
            acc = joined(acc, r);
            if let Asked::Clash = acc {
                return Asked::Clash;
            }
            k = k + 1;
        }
        acc
    }

    /// Asks for what an instruction uses, and for what is held behind it.
    fn ask_insn(&self, t: &mut Vec<Option<SsaValue>>, b: usize, i: usize) -> (r: Asked)
        requires
            self.checking(),
            self.prog@.within(b, i as int),
            self.prog@.reaches(b),
            old(t)@.len() == self.plan().cells(),
            self.plan().homed(old(t)@),
        ensures
            stepped(self.plan(), self.list@, old(t)@, final(t)@, r),
            r is Same ==> self.plan().rule_insn(old(t)@, b, i as int),
    {
        let ghost plan = self.plan();
        let ghost list = self.list@;
        let ghost start = t@;
        proof {
            lemma_in_block(plan, b, i as int + 1);
        }
        let mut acc = self.ask_uses(t, b, i);
        if let Asked::Clash = acc {
            return Asked::Clash;
        }
        let mut n: u8 = 0;
        while n < 11
            invariant
                self.checking(),
                plan == self.plan(),
                list == self.list@,
                self.prog@.within(b, i as int),
                self.prog@.reaches(b),
                i < self.prog@.insns.len(),
                n <= 11,
                start == old(t)@,
                start.len() == plan.cells(),
                stepped(plan, list, start, t@, acc),
                !(acc is Clash),
                acc is Same ==> plan.rule_uses(start, b, i as int),
                acc is Same ==> forall|r: Reg| r.0 < n ==> #[trigger] plan.rule_back(start, b, i as int, r),
            decreases 11 - n,
        {
            let ghost before = t@;
            let c: usize = (i + 1 + b) * 11 + n as usize;
            assert(c == cell(b, i as int + 1, Reg(n)));
            if let Some(v) = t[c] {
                if !self.does_bring(i, v) {
                    assert(t@[cell(b, i as int + 1, Reg(n))] == Some(v));
                    assert(plan.home(v) == Some(Reg(n)));
                    assert(demanded(plan, list, t@, b, i as int, v)) by {
                        assert forall|s: Table| #[trigger] plan.settles(list, s) && below(t@, s) implies plan.sits(
                            s,
                            b,
                            i as int,
                            v,
                        ) by {
                            reveal(Plan::settles);
                            assert(plan.rule_insn(s, b, i as int));
                            assert(plan.rule_back(s, b, i as int, Reg(n)));
                        }
                    }
                    let r = self.ask(t, b, i, v);
                    proof {
                        lemma_steps(plan, list, start, before, t@, acc, r);
                    }
                    acc = joined(acc, r);
                    if let Asked::Clash = acc {
                        return Asked::Clash;
                    }
                }
            }
            proof {
                if acc is Same {
                    assert forall|r: Reg| r.0 < n + 1 implies #[trigger] plan.rule_back(start, b, i as int, r) by {
                        if r.0 == n {
                            assert(r == Reg(n));
                        }
                    }
                }
            }
            n = n + 1;
        }
        acc
    }

    /// Whether a phi of a block defines a value.
    pub(super) fn has_phi(&self, b: usize, v: SsaValue) -> (r: bool)
        requires
            self.ready(),
            b < self.prog@.nodes.len(),
        ensures
            r == (self.prog@.phi_for(b, v) is Some),
    {
        match self.prog.def_of(v) {
            Some(SsaInsn::Phi { dst, .. }) => {
                let bb = ssa_block(&self.prog.graph, b);
                let site: usize = self.prog.def_sites[v.0 as usize];
                *dst == v && bb.start <= site && site < bb.end
            },
            _ => false,
        }
    }

    /// Asks for what the registers hold at the start of a block, at the end
    /// of a predecessor.
    fn ask_across(&self, t: &mut Vec<Option<SsaValue>>, p: usize, b: usize) -> (r: Asked)
        requires
            self.checking(),
            self.prog@.reaches(p),
            p < self.prog@.nodes.len(),
            b < self.prog@.nodes.len(),
            self.prog@.successors(p).contains(b),
            old(t)@.len() == self.plan().cells(),
            self.plan().homed(old(t)@),
        ensures
            stepped(self.plan(), self.list@, old(t)@, final(t)@, r),
            r is Same ==> forall|g: Reg| g.0 < 11 ==> #[trigger] self.plan().rule_across(old(t)@, p, b, g),
    {
        let ghost plan = self.plan();
        let ghost list = self.list@;
        let ghost start = t@;
        let from: usize = ssa_block(&self.prog.graph, p).end;
        let at: usize = ssa_block(&self.prog.graph, b).start;
        proof {
            assert(plan.prog.nodes[p as int].start <= plan.prog.nodes[p as int].end);
            assert(plan.prog.nodes[b as int].start <= plan.prog.nodes[b as int].end);
            lemma_in_block(plan, p, from as int);
            lemma_in_block(plan, b, at as int);
        }
        let mut acc = Asked::Same;
        let mut n: u8 = 0;
        while n < 11
            invariant
                self.checking(),
                plan == self.plan(),
                list == self.list@,
                self.prog@.reaches(p),
                p < self.prog@.nodes.len(),
                b < self.prog@.nodes.len(),
                self.prog@.successors(p).contains(b),
                from == plan.prog.nodes[p as int].end,
                at == plan.prog.nodes[b as int].start,
                from <= self.prog@.insns.len(),
                at <= self.prog@.insns.len(),
                n <= 11,
                start == old(t)@,
                start.len() == plan.cells(),
                stepped(plan, list, start, t@, acc),
                !(acc is Clash),
                acc is Same ==> forall|r: Reg| r.0 < n ==> #[trigger] plan.rule_across(start, p, b, r),
            decreases 11 - n,
        {
            let ghost before = t@;
            let c: usize = (at + b) * 11 + n as usize;
            assert(c == cell(b, at as int, Reg(n)));
            if let Some(v) = t[c] {
                if !self.has_phi(b, v) {
                    assert(t@[cell(b, at as int, Reg(n))] == Some(v));
                    assert(plan.home(v) == Some(Reg(n)));
                    assert(demanded(plan, list, t@, p, from as int, v)) by {
                        assert forall|s: Table| #[trigger] plan.settles(list, s) && below(t@, s) implies plan.sits(
                            s,
                            p,
                            from as int,
                            v,
                        ) by {
                            reveal(Plan::settles);
                            assert(plan.rule_edge(s, p, b));
                            assert(plan.rule_across(s, p, b, Reg(n)));
                        }
                    }
                    let r = self.ask(t, p, from, v);
                    proof {
                        lemma_steps(plan, list, start, before, t@, acc, r);
                    }
                    acc = joined(acc, r);
                    if let Asked::Clash = acc {
                        return Asked::Clash;
                    }
                }
            }
            proof {
                if acc is Same {
                    assert forall|r: Reg| r.0 < n + 1 implies #[trigger] plan.rule_across(start, p, b, r) by {
                        if r.0 == n {
                            assert(r == Reg(n));
                        }
                    }
                }
            }
            n = n + 1;
        }
        acc
    }

    /// Asks for the inputs of the phis of a block, at the end of a
    /// predecessor.
    fn ask_inputs(&self, t: &mut Vec<Option<SsaValue>>, p: usize, b: usize) -> (r: Asked)
        requires
            self.checking(),
            self.prog@.reaches(p),
            p < self.prog@.nodes.len(),
            b < self.prog@.nodes.len(),
            self.prog@.successors(p).contains(b),
            old(t)@.len() == self.plan().cells(),
            self.plan().homed(old(t)@),
        ensures
            stepped(self.plan(), self.list@, old(t)@, final(t)@, r),
            r is Same ==> forall|j: int|
                self.prog@.within(b, j) ==> #[trigger] self.plan().rule_phi(old(t)@, p, j),
    {
        let ghost plan = self.plan();
        let ghost list = self.list@;
        let ghost start = t@;
        let from: usize = ssa_block(&self.prog.graph, p).end;
        let bb = ssa_block(&self.prog.graph, b);
        proof {
            assert(plan.prog.nodes[p as int].start <= plan.prog.nodes[p as int].end);
            assert(plan.prog.nodes[b as int].start <= plan.prog.nodes[b as int].end);
            lemma_in_block(plan, p, from as int);
            lemma_in_block(plan, b, bb.end as int);
        }
        let mut acc = Asked::Same;
        let mut j: usize = bb.start;
        while j < bb.end
            invariant
                self.checking(),
                plan == self.plan(),
                list == self.list@,
                self.prog@.reaches(p),
                p < self.prog@.nodes.len(),
                b < self.prog@.nodes.len(),
                self.prog@.successors(p).contains(b),
                from == plan.prog.nodes[p as int].end,
                bb == plan.prog.nodes[b as int],
                from <= self.prog@.insns.len(),
                bb.end <= self.prog@.insns.len(),
                bb.start <= j <= bb.end,
                start == old(t)@,
                start.len() == plan.cells(),
                stepped(plan, list, start, t@, acc),
                !(acc is Clash),
                acc is Same ==> forall|k: int| bb.start <= k < j ==> #[trigger] plan.rule_phi(start, p, k),
            decreases bb.end - j,
        {
            let ghost before = t@;
            assert(self.prog@.insns[j as int] == self.prog.insns@[j as int]@);
            assert(plan.prog.within(b, j as int));
            if let SsaInsn::Phi { dst, inputs } = &self.prog.insns[j] {
                if self.home_of(*dst).is_some() {
                    if let Some(x) = input_from(inputs, p) {
                        assert(demanded(plan, list, t@, p, from as int, x)) by {
                            assert forall|s: Table| #[trigger]
                                plan.settles(list, s) && below(t@, s) implies plan.sits(s, p, from as int, x) by {
                                reveal(Plan::settles);
                                assert(plan.rule_edge(s, p, b));
                                assert(plan.rule_phi(s, p, j as int));
                            }
                        }
                        let r = self.ask(t, p, from, x);
                        proof {
                            lemma_steps(plan, list, start, before, t@, acc, r);
                        }
                        acc = joined(acc, r);
                        if let Asked::Clash = acc {
                            return Asked::Clash;
                        }
                    }
                }
            }
            j = j + 1;
        }
        acc
    }

    /// Asks along the edges that leave a block.
    fn ask_edges(&self, t: &mut Vec<Option<SsaValue>>, p: usize) -> (r: Asked)
        requires
            self.checking(),
            self.prog@.reaches(p),
            p < self.prog@.nodes.len(),
            old(t)@.len() == self.plan().cells(),
            self.plan().homed(old(t)@),
        ensures
            stepped(self.plan(), self.list@, old(t)@, final(t)@, r),
            r is Same ==> forall|b: usize| #[trigger]
                self.prog@.successors(p).contains(b) ==> self.plan().rule_edge(old(t)@, p, b),
    {
        let ghost plan = self.plan();
        let ghost list = self.list@;
        let ghost start = t@;
        let to = live_successors(self.prog, p);
        proof {
            lemma_successors_below(plan.prog, p);
        }
        let mut acc = Asked::Same;
        let mut k: usize = 0;
        while k < to.len()
            invariant
                self.checking(),
                plan == self.plan(),
                list == self.list@,
                self.prog@.reaches(p),
                p < self.prog@.nodes.len(),
                to@ == plan.prog.successors(p),
                forall|i: int| 0 <= i < to@.len() ==> #[trigger] to@[i] < plan.prog.nodes.len(),
                k <= to@.len(),
                start == old(t)@,
                start.len() == plan.cells(),
                stepped(plan, list, start, t@, acc),
                !(acc is Clash),
                acc is Same ==> forall|i: int| 0 <= i < k ==> plan.rule_edge(start, p, #[trigger] to@[i]),
            decreases to@.len() - k,
        {
            let ghost before = t@;
            assert(plan.prog.successors(p).contains(to@[k as int]));
            let r = self.ask_across(t, p, to[k]);
            if let Asked::Clash = r {
                proof {
                    lemma_steps(plan, list, start, before, t@, acc, r);
                }
                return Asked::Clash;
            }
            let ghost mid = t@;
            let s = self.ask_inputs(t, p, to[k]);
            proof {
                lemma_steps(plan, list, before, mid, t@, r, s);
                lemma_steps(plan, list, start, before, t@, acc, both(r, s));
            }
            acc = joined(acc, joined(r, s));
            if let Asked::Clash = acc {
                return Asked::Clash;
            }
            k = k + 1;
        }
        proof {
            if acc is Same {
                assert forall|b: usize| #[trigger] plan.prog.successors(p).contains(b) implies plan.rule_edge(
                    start,
                    p,
                    b,
                ) by {
                    let i = choose|i: int| 0 <= i < to@.len() && to@[i] == b;
                    assert(plan.rule_edge(start, p, to@[i]));
                }
            }
        }
        acc
    }

    /// Asks along the instructions of a block, from the last to the first.
    fn ask_block(&self, t: &mut Vec<Option<SsaValue>>, b: usize) -> (r: Asked)
        requires
            self.checking(),
            self.prog@.reaches(b),
            b < self.prog@.nodes.len(),
            old(t)@.len() == self.plan().cells(),
            self.plan().homed(old(t)@),
        ensures
            stepped(self.plan(), self.list@, old(t)@, final(t)@, r),
            r is Same ==> forall|i: int| #[trigger]
                self.prog@.within(b, i) ==> self.plan().rule_insn(old(t)@, b, i),
    {
        let ghost plan = self.plan();
        let ghost list = self.list@;
        let ghost start = t@;
        let bb = ssa_block(&self.prog.graph, b);
        let mut acc = Asked::Same;
        let mut i: usize = bb.end;
        assert(plan.prog.nodes[b as int].start <= plan.prog.nodes[b as int].end);
        while i > bb.start
            invariant
                self.checking(),
                plan == self.plan(),
                list == self.list@,
                self.prog@.reaches(b),
                b < self.prog@.nodes.len(),
                bb == plan.prog.nodes[b as int],
                bb.start <= i <= bb.end,
                start == old(t)@,
                start.len() == plan.cells(),
                stepped(plan, list, start, t@, acc),
                !(acc is Clash),
                acc is Same ==> forall|k: int| i <= k < bb.end ==> #[trigger] plan.rule_insn(start, b, k),
            decreases i,
        {
            let ghost before = t@;
            i = i - 1;
            assert(plan.prog.within(b, i as int));
            let r = self.ask_insn(t, b, i);
            proof {
                lemma_steps(plan, list, start, before, t@, acc, r);
            }
            acc = joined(acc, r);
            if let Asked::Clash = acc {
                return Asked::Clash;
            }
        }
        acc
    }

    /// Asks along all reached instructions and edges once.
    fn ask_all(&self, t: &mut Vec<Option<SsaValue>>) -> (r: Asked)
        requires
            self.checking(),
            old(t)@.len() == self.plan().cells(),
            self.plan().homed(old(t)@),
        ensures
            stepped(self.plan(), self.list@, old(t)@, final(t)@, r),
            r is Same ==> self.plan().rules(old(t)@),
    {
        let ghost plan = self.plan();
        let ghost list = self.list@;
        let ghost start = t@;
        let mut acc = Asked::Same;
        let mut b: usize = self.live.len();
        while b > 0
            invariant
                self.checking(),
                plan == self.plan(),
                list == self.list@,
                b <= self.live@.len(),
                start == old(t)@,
                start.len() == plan.cells(),
                stepped(plan, list, start, t@, acc),
                !(acc is Clash),
                acc is Same ==> forall|c: usize, i: int|
                    b <= c && #[trigger] plan.prog.within(c, i) && plan.prog.reaches(c) ==> plan.rule_insn(start, c, i),
                acc is Same ==> forall|p: usize, c: usize|
                    b <= p < plan.prog.nodes.len() && plan.prog.reaches(p) && #[trigger] plan.prog.successors(
                        p,
                    ).contains(c) ==> plan.rule_edge(start, p, c),
            decreases b,
        {
            let ghost before = t@;
            b = b - 1;
            assert(plan.live[b as int] == plan.prog.reaches(b));
            if self.live[b] {
                let r = self.ask_edges(t, b);
                if let Asked::Clash = r {
                    proof {
                        lemma_steps(plan, list, start, before, t@, acc, r);
                    }
                    return Asked::Clash;
                }
                let ghost mid = t@;
                let s = self.ask_block(t, b);
                proof {
                    lemma_steps(plan, list, before, mid, t@, r, s);
                    lemma_steps(plan, list, start, before, t@, acc, both(r, s));
                }
                acc = joined(acc, joined(r, s));
                if let Asked::Clash = acc {
                    return Asked::Clash;
                }
            }
        }
        proof {
            assert forall|p: usize, c: usize|
                plan.prog.reaches(p) && #[trigger] plan.prog.successors(p).contains(c) && acc is Same implies plan.rule_edge(
                start,
                p,
                c,
            ) by {
                lemma_reached_block(plan.prog, p);
            }
        }
        acc
    }

    /// Finds the table with no more entries than the uses ask for.
    pub(super) fn fill(&self) -> (r: Option<Vec<Option<SsaValue>>>)
        requires
            self.checking(),
        ensures
            match r {
                Some(t) => {
                    &&& t@.len() == self.plan().cells()
                    &&& self.plan().homed(t@)
                    &&& self.plan().rules(t@)
                    &&& forall|s: Table| #[trigger] self.plan().settles(self.list@, s) ==> below(t@, s)
                },
                None => forall|s: Table| !#[trigger] self.plan().settles(self.list@, s),
            },
    {
        let ghost plan = self.plan();
        let ghost list = self.list@;
        let mut t: Vec<Option<SsaValue>> = Vec::new();
        let n: usize = (self.prog.insns.len() + self.live.len()) * 11;
        while t.len() < n
            invariant
                t@.len() <= n,
                forall|c: int| 0 <= c < t@.len() ==> (#[trigger] t@[c]) is None,
            decreases n - t@.len(),
        {
            t.push(None);
        }
        proof {
            assert(t@.len() == plan.cells());
            assert forall|s: Table| #[trigger] plan.settles(list, s) implies below(t@, s) by {
                reveal(Plan::settles);
            }
        }
        loop
            invariant
                self.checking(),
                plan == self.plan(),
                list == self.list@,
                t@.len() == plan.cells(),
                plan.homed(t@),
                forall|s: Table| #[trigger] plan.settles(list, s) ==> below(t@, s),
            decreases blanks(t@, t@.len()),
        {
            match self.ask_all(&mut t) {
                Asked::Same => {
                    return Some(t);
                },
                Asked::Clash => {
                    return None;
                },
                Asked::New => {},
            }
        }
    }
}

} // verus!
