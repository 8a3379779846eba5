//! Integer constraints over finite domains as a theory of the search: which of them hold is
//! decided by the search, whether they hold together by a solver outside.
use crate::cnf::clause_true;
use crate::cnf::flip;
use crate::cnf::lit_true;
use crate::cnf::neg;
use crate::cnf::pos;
use crate::cnf::Assignment;
use crate::cnf::Lit;
use crate::cnf::Var;
use crate::maps::map_get;
use crate::maps::map_insert;
use crate::maps::map_new;
use crate::small::LitList;
use crate::verdict::SolverResult;
use rustc_hash::FxHashMap;
use vstd::prelude::*;

verus! {

/// What the last complete check found.
#[derive(Clone, Copy, Debug, PartialEq, Eq, Structural)]
pub enum FdVerdict {
    /// Nothing was there to decide.
    Trivial,
    /// The constraints have no integer solution.
    Unsat,
    /// The constraints have an integer solution.
    Sat,
    /// Neither was found.
    Open,
}

/// What the solver for integer constraints answers.
#[derive(Clone, Copy, Debug, PartialEq, Eq, Structural)]
pub enum FdDecision {
    Unsat,
    Sat,
    Open,
}

/// How a polynomial compares to zero.
#[derive(Clone, Copy, Debug, PartialEq, Eq, Structural)]
pub enum FdCmp {
    Lt,
    Le,
    Eq,
    Ne,
    Ge,
    Gt,
}

/// The opposite comparison.
pub open spec fn contrary(c: FdCmp) -> FdCmp {
    match c {
        FdCmp::Lt => FdCmp::Ge,
        FdCmp::Le => FdCmp::Gt,
        FdCmp::Eq => FdCmp::Ne,
        FdCmp::Ne => FdCmp::Eq,
        FdCmp::Ge => FdCmp::Lt,
        FdCmp::Gt => FdCmp::Le,
    }
}

/// The number compares to zero as said.
pub open spec fn against_zero(c: FdCmp, x: int) -> bool {
    match c {
        FdCmp::Lt => x < 0,
        FdCmp::Le => x <= 0,
        FdCmp::Eq => x == 0,
        FdCmp::Ne => x != 0,
        FdCmp::Ge => x >= 0,
        FdCmp::Gt => x > 0,
    }
}

impl FdCmp {
    /// The opposite comparison.
    pub fn negate(self) -> (r: FdCmp)
        ensures
            r == contrary(self),
            forall|x: int| #[trigger] against_zero(r, x) == !against_zero(self, x),
    {
        match self {
            FdCmp::Lt => FdCmp::Ge,
            FdCmp::Le => FdCmp::Gt,
            FdCmp::Eq => FdCmp::Ne,
            FdCmp::Ne => FdCmp::Eq,
            FdCmp::Ge => FdCmp::Lt,
            FdCmp::Gt => FdCmp::Le,
        }
    }
}

/// A coefficient and the variables of a monomial with their exponents.
#[derive(Debug)]
pub struct Monomial {
    pub coeff: i64,
    pub powers: Vec<(u32, u32)>,
}

/// The comparison of a polynomial to zero.
#[derive(Debug)]
pub struct FdAtom {
    pub poly: Vec<Monomial>,
    pub op: FdCmp,
}

/// A power.
pub open spec fn power(x: int, k: nat) -> int
    decreases k,
{
    if k == 0 {
        1
    } else {
        x * power(x, (k - 1) as nat)
    }
}

/// The product of the first `k` powers.
pub open spec fn powers_value(p: Seq<(u32, u32)>, x: spec_fn(u32) -> int, k: int) -> int
    decreases k,
{
    if k <= 0 {
        1
    } else {
        powers_value(p, x, k - 1) * power(x(p[k - 1].0), p[k - 1].1 as nat)
    }
}

/// The sum of the first `k` monomials.
pub open spec fn poly_value(p: Seq<Monomial>, x: spec_fn(u32) -> int, k: int) -> int
    decreases k,
{
    if k <= 0 {
        0
    } else {
        poly_value(p, x, k - 1) + p[k - 1].coeff * powers_value(p[k - 1].powers@, x, p[k - 1].powers@.len() as int)
    }
}

/// The atom holds for given values of the variables.
pub open spec fn atom_holds(a: FdAtom, x: spec_fn(u32) -> int) -> bool {
    against_zero(a.op, poly_value(a.poly@, x, a.poly@.len() as int))
}

/// What a theory asks of the search.
#[derive(Debug)]
pub enum TheoryStep {
    /// Nothing.
    Proceed,
    /// To assign a literal, for the reason that the negations of the explanation hold.
    Propagate { lit: Lit, explanation: LitList },
    /// To take back an assignment that falsifies the explanation.
    Conflict { explanation: LitList },
}

/// Integer constraints of which the search decides which hold.
#[derive(Debug)]
pub struct FdPropagator {
    pub atoms: Vec<FdAtom>,
    pub var_to_atom: FxHashMap<usize, usize>,
    pub atom_vars: Vec<Var>,
    /// The literals assigned to atoms, in order, each with the atom and whether it holds.
    pub asserted: Vec<(Lit, usize, bool)>,
    pub frame_marks: Vec<usize>,
    pub verdict: FdVerdict,
}

/// The negations of the assigned literals.
pub open spec fn negations(asserted: Seq<(Lit, usize, bool)>) -> Seq<Lit> {
    asserted.map_values(|e: (Lit, usize, bool)| flip(e.0))
}

/// The atom is assigned.
pub open spec fn is_asserted(asserted: Seq<(Lit, usize, bool)>, i: usize) -> bool {
    exists|k: int| 0 <= k < asserted.len() && (#[trigger] asserted[k]).1 == i
}

/// A list without the last occurrence of a literal.
pub open spec fn without_last(asserted: Seq<(Lit, usize, bool)>, lit: Lit, k: int) -> Seq<(Lit, usize, bool)>
    decreases k,
{
    if k <= 0 {
        asserted
    } else if asserted[k - 1].0 == lit {
        asserted.remove(k - 1)
    } else {
        without_last(asserted, lit, k - 1)
    }
}

impl FdPropagator {
    /// Variables lead to their atoms, and assigned literals to the atoms of their variables.
    pub open spec fn wf(&self) -> bool {
        &&& self.atom_vars@.len() == self.atoms@.len()
        &&& forall|v: usize| #[trigger] self.var_to_atom@.contains_key(v) ==> self.var_to_atom@[v] < self.atoms@.len()
            && self.atom_vars@[self.var_to_atom@[v] as int] == v
        &&& forall|k: int| 0 <= k < self.asserted@.len() ==> self.entry_ok(#[trigger] self.asserted@[k])
    }

    /// An assigned literal is recorded with the atom of its variable and with its sign.
    pub open spec fn entry_ok(&self, e: (Lit, usize, bool)) -> bool {
        e.1 < self.atoms@.len() && self.atom_vars@[e.1 as int] == e.0.var && e.2 == !e.0.negative
    }

    /// A propagator for atoms, each with the variable that stands for it.
    pub fn new(atoms: Vec<(FdAtom, Var)>) -> (p: FdPropagator)
        ensures
            p.wf(),
            p.atoms@.len() == atoms@.len(),
            forall|i: int| 0 <= i < atoms@.len() ==> #[trigger] p.atoms@[i] == atoms@[i].0,
            forall|i: int| 0 <= i < atoms@.len() ==> #[trigger] p.atom_vars@[i] == atoms@[i].1,
            forall|i: int| 0 <= i < atoms@.len() ==> p.var_to_atom@.contains_key(#[trigger] p.atom_vars@[i]) && i <= p.var_to_atom@[p.atom_vars@[i]],
            p.asserted@.len() == 0,
            p.frame_marks@.len() == 0,
            p.verdict == FdVerdict::Trivial,
    {
        let ghost given = atoms@;
        let mut rest = atoms;
        let mut polys: Vec<FdAtom> = Vec::new();
        let mut vars: Vec<Var> = Vec::new();
        let mut table: FxHashMap<usize, usize> = map_new();
        while rest.len() > 0
            invariant
                rest@ == given.subrange(polys@.len() as int, given.len() as int),
                polys@.len() + rest@.len() == given.len(),
                vars@.len() == polys@.len(),
                forall|i: int| 0 <= i < polys@.len() ==> #[trigger] polys@[i] == given[i].0,
                forall|i: int| 0 <= i < vars@.len() ==> #[trigger] vars@[i] == given[i].1,
                forall|v: usize| #[trigger] table@.contains_key(v) ==> table@[v] < polys@.len() && vars@[table@[v] as int] == v,
                forall|i: int| 0 <= i < vars@.len() ==> table@.contains_key(#[trigger] vars@[i]) && i <= table@[vars@[i]],
            decreases rest@.len(),
        {
            let ghost k = polys@.len() as int;
            let (atom, var) = rest.remove(0);
            proof {
                assert((atom, var) == given[k]);
                assert(rest@ =~= given.subrange(k + 1, given.len() as int));
            }
            map_insert(&mut table, var, polys.len());
            polys.push(atom);
            vars.push(var);
        }
        FdPropagator {
            atoms: polys,
            var_to_atom: table,
            atom_vars: vars,
            asserted: Vec::new(),
            frame_marks: Vec::new(),
            verdict: FdVerdict::Trivial,
        }
    }

    /// What the last complete check found.
    pub fn verdict(&self) -> (r: FdVerdict)
        ensures
            r == self.verdict,
    {
        self.verdict
    }

    /// The assigned atoms, each with the comparison that its truth value makes hold.
    pub fn active_atoms(&self) -> (r: Vec<(usize, FdCmp)>)
        requires
            self.wf(),
        ensures
            r@.len() == self.asserted@.len(),
            forall|k: int|
                0 <= k < r@.len() ==> (#[trigger] r@[k]).0 == self.asserted@[k].1 && r@[k].1 == if self.asserted@[k].2 {
                    self.atoms@[self.asserted@[k].1 as int].op
                } else {
                    contrary(self.atoms@[self.asserted@[k].1 as int].op)
                },
    {
        let mut out: Vec<(usize, FdCmp)> = Vec::new();
        let mut i: usize = 0;
        while i < self.asserted.len()
            invariant
                i <= self.asserted.len(),
                self.wf(),
                out@.len() == i,
                forall|k: int|
                    0 <= k < i ==> (#[trigger] out@[k]).0 == self.asserted@[k].1 && out@[k].1 == if self.asserted@[k].2 {
                        self.atoms@[self.asserted@[k].1 as int].op
                    } else {
                        contrary(self.atoms@[self.asserted@[k].1 as int].op)
                    },
            decreases self.asserted.len() - i,
        {
            assert(self.entry_ok(self.asserted@[i as int]));
            let (_, idx, holds) = self.asserted[i];
            let op = self.atoms[idx].op;
            out.push(
                (
                    idx,
                    if holds {
                        op
                    } else {
                        op.negate()
                    },
                ),
            );
            i = i + 1;
        }
        out
    }

    /// The clause that an inconsistent assignment falsifies: the negations of all assigned
    /// literals.
    pub fn explanation(&self) -> (r: LitList)
        ensures
            r@ == negations(self.asserted@),
    {
        let mut out = LitList::new();
        let mut i: usize = 0;
        while i < self.asserted.len()
            invariant
                i <= self.asserted.len(),
                out@ == negations(self.asserted@).take(i as int),
            decreases self.asserted.len() - i,
        {
            out.push(self.asserted[i].0.negate());
            assert(out@ =~= negations(self.asserted@).take(i + 1));
            i = i + 1;
        }
        assert(out@ =~= negations(self.asserted@));
        out
    }

    /// Records an assigned literal, if its variable stands for an atom.
    pub fn assign_hook(&mut self, lit: Lit) -> (r: TheoryStep)
        requires
            old(self).wf(),
        ensures
            final(self).wf(),
            r is Proceed,
            final(self).asserted@ == if old(self).var_to_atom@.contains_key(lit.var) {
                old(self).asserted@.push((lit, old(self).var_to_atom@[lit.var], !lit.negative))
            } else {
                old(self).asserted@
            },
            final(self).frame_marks@ == old(self).frame_marks@,
            final(self).atoms@ == old(self).atoms@,
            final(self).atom_vars@ == old(self).atom_vars@,
            final(self).var_to_atom@ == old(self).var_to_atom@,
            final(self).verdict == old(self).verdict,
    {
        if let Some(idx) = map_get(&self.var_to_atom, lit.var) {
            let idx: usize = *idx;
            self.asserted.push((lit, idx, !lit.negative));
            proof {
                assert forall|k: int| 0 <= k < self.asserted@.len() implies self.entry_ok(#[trigger] self.asserted@[k]) by {
                    if k < old(self).asserted@.len() {
                        assert(old(self).entry_ok(old(self).asserted@[k]));
                    }
                }
            }
        }
        TheoryStep::Proceed
    }

    /// Takes back the latest assignment of a literal.
    pub fn unassign_hook(&mut self, lit: Lit)
        requires
            old(self).wf(),
        ensures
            final(self).wf(),
            final(self).asserted@ == without_last(old(self).asserted@, lit, old(self).asserted@.len() as int),
            final(self).frame_marks@ == old(self).frame_marks@,
            final(self).atoms@ == old(self).atoms@,
            final(self).atom_vars@ == old(self).atom_vars@,
            final(self).var_to_atom@ == old(self).var_to_atom@,
            final(self).verdict == old(self).verdict,
    {
        let ghost n = self.asserted@.len() as int;
        let mut i: usize = self.asserted.len();
        while i > 0
            invariant
                i <= self.asserted.len(),
                old(self).wf(),
                *self == *old(self),
                n == old(self).asserted@.len(),
                without_last(old(self).asserted@, lit, n) == without_last(old(self).asserted@, lit, i as int),
            decreases i,
        {
            let found = self.asserted[i - 1].0;
            if found == lit {
                let _ = self.asserted.remove(i - 1);
                proof {
                    assert forall|k: int| 0 <= k < self.asserted@.len() implies self.entry_ok(#[trigger] self.asserted@[k]) by {
                        let j = if k < i - 1 {
                            k
                        } else {
                            k + 1
                        };
                        assert(self.asserted@[k] == old(self).asserted@[j]);
                        assert(old(self).entry_ok(old(self).asserted@[j]));
                    }
                }
                return ;
            }
            i = i - 1;
        }
    }

    /// Marks the present assignment.
    pub fn push_frame(&mut self)
        requires
            old(self).wf(),
        ensures
            final(self).wf(),
            final(self).frame_marks@ == old(self).frame_marks@.push(old(self).asserted@.len() as usize),
            final(self).asserted@ == old(self).asserted@,
            final(self).atoms@ == old(self).atoms@,
            final(self).atom_vars@ == old(self).atom_vars@,
            final(self).var_to_atom@ == old(self).var_to_atom@,
            final(self).verdict == old(self).verdict,
    {
        self.frame_marks.push(self.asserted.len());
    }

    /// Goes back to the latest mark.
    pub fn pop_frame(&mut self)
        requires
            old(self).wf(),
        ensures
            final(self).wf(),
            final(self).frame_marks@ == if old(self).frame_marks@.len() == 0 {
                old(self).frame_marks@
            } else {
                old(self).frame_marks@.drop_last()
            },
            final(self).asserted@ == if old(self).frame_marks@.len() == 0 || old(self).frame_marks@.last()
                >= old(self).asserted@.len() {
                old(self).asserted@
            } else {
                old(self).asserted@.take(old(self).frame_marks@.last() as int)
            },
            final(self).atoms@ == old(self).atoms@,
            final(self).atom_vars@ == old(self).atom_vars@,
            final(self).var_to_atom@ == old(self).var_to_atom@,
            final(self).verdict == old(self).verdict,
    {
        if let Some(mark) = self.frame_marks.pop() {
            if mark < self.asserted.len() {
                self.asserted.truncate(mark);
                proof {
                    assert(self.asserted@ =~= old(self).asserted@.take(mark as int));
                    assert forall|k: int| 0 <= k < self.asserted@.len() implies self.entry_ok(#[trigger] self.asserted@[k]) by {
                        assert(self.asserted@[k] == old(self).asserted@[k]);
                        assert(old(self).entry_ok(old(self).asserted@[k]));
                    }
                }
            }
        }
    }

    /// The atoms that are not assigned.
    pub fn candidates(&self) -> (r: Vec<usize>)
        ensures
            forall|k: int| 0 <= k < r@.len() ==> (#[trigger] r@[k]) < self.atoms@.len() && !is_asserted(self.asserted@, r@[k]),
            forall|i: usize| i < self.atoms@.len() && !#[trigger] is_asserted(self.asserted@, i) ==> r@.contains(i),
            forall|a: int, b: int| 0 <= a < b < r@.len() ==> r@[a] < r@[b],
    {
        let mut out: Vec<usize> = Vec::new();
        let mut i: usize = 0;
        while i < self.atoms.len()
            invariant
                i <= self.atoms.len(),
                forall|k: int| 0 <= k < out@.len() ==> (#[trigger] out@[k]) < i && !is_asserted(self.asserted@, out@[k]),
                forall|j: usize| j < i && !#[trigger] is_asserted(self.asserted@, j) ==> out@.contains(j),
                forall|a: int, b: int| 0 <= a < b < out@.len() ==> out@[a] < out@[b],
            decreases self.atoms.len() - i,
        {
            let mut found = false;
            let mut k: usize = 0;
            while k < self.asserted.len()
                invariant
                    k <= self.asserted.len(),
                    found == exists|j: int| 0 <= j < k && (#[trigger] self.asserted@[j]).1 == i,
                decreases self.asserted.len() - k,
            {
                if self.asserted[k].1 == i {
                    found = true;
                }
                k = k + 1;
            }
            let ghost before = out@;
            if !found {
                out.push(i);
            }
            proof {
                assert forall|j: usize| j < i + 1 && !#[trigger] is_asserted(self.asserted@, j) implies out@.contains(j) by {
                    if j < i {
                        assert(before.contains(j));
                        let b = choose|b: int| 0 <= b < before.len() && before[b] == j;
                        assert(out@[b] == j);
                    } else {
                        assert(out@[before.len() as int] == j);
                    }
                }
            }
            i = i + 1;
        }
        out
    }

    /// The step after a fixpoint of the search, given what the solver found of the active atoms:
    /// whether it refuted them, and if not, which of the candidates they force, by its position
    /// among the candidates, to which truth value.
    pub fn final_check(&self, refuted: bool, forced: Option<(usize, bool)>, cand: &Vec<usize>) -> (r: TheoryStep)
        requires
            self.wf(),
            forall|k: int| 0 <= k < cand@.len() ==> (#[trigger] cand@[k]) < self.atoms@.len(),
            forced matches Some(f) ==> f.0 < cand@.len(),
        ensures
            self.asserted@.len() == 0 ==> r is Proceed,
            self.asserted@.len() > 0 && refuted ==> (r matches TheoryStep::Conflict { explanation } && explanation@ == negations(
                self.asserted@,
            )),
            self.asserted@.len() > 0 && !refuted ==> match forced {
                Some((c, holds)) => r matches TheoryStep::Propagate { lit, explanation } && lit == (Lit {
                    var: self.atom_vars@[cand@[c as int] as int],
                    negative: !holds,
                }) && explanation@ == negations(self.asserted@),
                None => r is Proceed,
            },
    {
        if self.asserted.len() == 0 {
            return TheoryStep::Proceed;
        }
        if refuted {
            return TheoryStep::Conflict { explanation: self.explanation() };
        }
        match forced {
            Some((c, holds)) => {
                assert(cand@[c as int] < self.atoms@.len());
                let var: usize = self.atom_vars[cand[c]];
                let lit = if holds {
                    Lit::pos(var)
                } else {
                    Lit::neg(var)
                };
                TheoryStep::Propagate { lit, explanation: self.explanation() }
            },
            None => TheoryStep::Proceed,
        }
    }

    /// The step after a complete assignment, given what the solver decided of the active atoms.
    pub fn final_check_complete(&mut self, decision: FdDecision) -> (r: TheoryStep)
        requires
            old(self).wf(),
        ensures
            final(self).wf(),
            final(self).verdict == if old(self).asserted@.len() == 0 {
                FdVerdict::Trivial
            } else {
                match decision {
                    FdDecision::Unsat => FdVerdict::Unsat,
                    FdDecision::Sat => FdVerdict::Sat,
                    FdDecision::Open => FdVerdict::Open,
                }
            },
            old(self).asserted@.len() > 0 && decision is Unsat ==> (r matches TheoryStep::Conflict { explanation } && explanation@
                == negations(old(self).asserted@)),
            !(old(self).asserted@.len() > 0 && decision is Unsat) ==> r is Proceed,
            final(self).asserted@ == old(self).asserted@,
            final(self).frame_marks@ == old(self).frame_marks@,
            final(self).atoms@ == old(self).atoms@,
            final(self).atom_vars@ == old(self).atom_vars@,
            final(self).var_to_atom@ == old(self).var_to_atom@,
    {
        if self.asserted.len() == 0 {
            self.verdict = FdVerdict::Trivial;
            return TheoryStep::Proceed;
        }
        match decision {
            FdDecision::Unsat => {
                self.verdict = FdVerdict::Unsat;
                TheoryStep::Conflict { explanation: self.explanation() }
            },
            FdDecision::Sat => {
                self.verdict = FdVerdict::Sat;
                TheoryStep::Proceed
            },
            FdDecision::Open => {
                self.verdict = FdVerdict::Open;
                TheoryStep::Proceed
            },
        }
    }

    /// The truth value that the theory itself gives a variable: none.
    pub fn eval(&self, atom: Var) -> (r: Option<bool>)
        ensures
            r is None,
    {
        None
    }
}

/// The answer of a search with this theory: an assignment that the theory could neither confirm
/// nor refute is no answer.
pub fn settle(result: SolverResult, verdict: FdVerdict) -> (r: SolverResult)
    ensures
        r == if result is Sat && verdict is Open {
            SolverResult::Unknown
        } else {
            result
        },
{
    match (result, verdict) {
        (SolverResult::Sat, FdVerdict::Open) => SolverResult::Unknown,
        _ => result,
    }
}

/// The assigned atoms have the truth values that were assigned to them.
pub open spec fn active_hold(p: &FdPropagator, x: spec_fn(u32) -> int) -> bool {
    forall|k: int|
        0 <= k < p.asserted@.len() ==> atom_holds(p.atoms@[(#[trigger] p.asserted@[k]).1 as int], x) == p.asserted@[k].2
}

/// The search assigns to each atom's variable the truth value of the atom.
pub open spec fn reflects(p: &FdPropagator, a: Assignment, x: spec_fn(u32) -> int) -> bool {
    forall|i: int| 0 <= i < p.atoms@.len() ==> a(#[trigger] p.atom_vars@[i]) == atom_holds(p.atoms@[i], x)
}

/// A conflict is explained by a valid clause: if the assigned atoms have no common integer
/// solution, the explanation holds for all integers, the atoms being read as they are.
pub proof fn law_conflict_clause_is_valid(p: &FdPropagator, a: Assignment, x: spec_fn(u32) -> int)
    requires
        p.wf(),
        forall|y: spec_fn(u32) -> int| !active_hold(p, y),
        reflects(p, a, x),
    ensures
        clause_true(a, negations(p.asserted@)),
{
    lemma_explained(p, a, x);
}

/// Where the assigned atoms do not all hold, one of the negated literals does.
proof fn lemma_explained(p: &FdPropagator, a: Assignment, x: spec_fn(u32) -> int)
    requires
        p.wf(),
        !active_hold(p, x),
        reflects(p, a, x),
    ensures
        clause_true(a, negations(p.asserted@)),
{
    let k = choose|k: int|
        0 <= k < p.asserted@.len() && atom_holds(p.atoms@[(#[trigger] p.asserted@[k]).1 as int], x) != p.asserted@[k].2;
    let e = p.asserted@[k];
    assert(p.entry_ok(e));
    assert(a(p.atom_vars@[e.1 as int]) == atom_holds(p.atoms@[e.1 as int], x));
    assert(negations(p.asserted@)[k] == flip(e.0));
    assert(lit_true(a, negations(p.asserted@)[k]));
}

/// A propagated literal follows: if every integer solution of the assigned atoms gives an atom the
/// truth value, the clause of the literal and the explanation holds for all integers.
pub proof fn law_propagation_is_valid(p: &FdPropagator, a: Assignment, x: spec_fn(u32) -> int, i: int, holds: bool)
    requires
        p.wf(),
        0 <= i < p.atoms@.len(),
        forall|y: spec_fn(u32) -> int| active_hold(p, y) ==> atom_holds(p.atoms@[i], y) == holds,
        reflects(p, a, x),
    ensures
        lit_true(a, Lit { var: p.atom_vars@[i], negative: !holds }) || clause_true(a, negations(p.asserted@)),
{
    if active_hold(p, x) {
        assert(a(p.atom_vars@[i]) == atom_holds(p.atoms@[i], x));
    } else {
        lemma_explained(p, a, x);
    }
}

/// Going back to a mark undoes what was assigned since: with the mark set at `before` and only
/// assignments added on top, the assignment is again that of `before`.
pub proof fn law_pop_undoes_push(before: &FdPropagator, marked: &FdPropagator, later: &FdPropagator)
    requires
        before.asserted@.len() <= usize::MAX,
        marked.frame_marks@ == before.frame_marks@.push(before.asserted@.len() as usize),
        later.frame_marks@ == marked.frame_marks@,
        later.asserted@.len() >= before.asserted@.len(),
        later.asserted@.take(before.asserted@.len() as int) == before.asserted@,
    ensures
        later.frame_marks@.drop_last() == before.frame_marks@,
        (if later.frame_marks@.last() >= later.asserted@.len() {
            later.asserted@
        } else {
            later.asserted@.take(later.frame_marks@.last() as int)
        }) == before.asserted@,
{
    assert(later.frame_marks@.drop_last() =~= before.frame_marks@);
    assert(later.asserted@.take(later.asserted@.len() as int) =~= later.asserted@);
}

/// Taking back a literal drops its latest entry, and leaves the others in their order; nothing where
/// there is none.
pub proof fn law_latest_entry_is_dropped(asserted: Seq<(Lit, usize, bool)>, lit: Lit, k: int)
    requires
        0 <= k <= asserted.len(),
    ensures
        (forall|j: int| 0 <= j < k ==> (#[trigger] asserted[j]).0 != lit) ==> without_last(asserted, lit, k) == asserted,
        (exists|j: int| 0 <= j < k && (#[trigger] asserted[j]).0 == lit) ==> exists|p: int|
            0 <= p < k && without_last(asserted, lit, k) == #[trigger] asserted.remove(p) && asserted[p].0 == lit && forall|j: int|
                p < j < k ==> (#[trigger] asserted[j]).0 != lit,
    decreases k,
{
    if k > 0 {
        if asserted[k - 1].0 == lit {
            assert(without_last(asserted, lit, k) == asserted.remove(k - 1));
        } else {
            law_latest_entry_is_dropped(asserted, lit, k - 1);
            if exists|j: int| 0 <= j < k && (#[trigger] asserted[j]).0 == lit {
                let j = choose|j: int| 0 <= j < k && (#[trigger] asserted[j]).0 == lit;
                assert(asserted[j].0 == lit && j < k - 1);
                let p = choose|p: int|
                    0 <= p < k - 1 && without_last(asserted, lit, k - 1) == #[trigger] asserted.remove(p) && asserted[p].0 == lit && forall|
                        j: int,
                    | p < j < k - 1 ==> (#[trigger] asserted[j]).0 != lit;
                assert(without_last(asserted, lit, k) == asserted.remove(p));
            }
        }
    }
}

/// An atom that is assigned false holds the other way round: what is not below zero is at least
/// zero, and so on for each comparison.
pub proof fn law_contrary_denies(c: FdCmp, x: int)
    ensures
        c is Lt ==> (against_zero(contrary(c), x) <==> x >= 0),
        c is Le ==> (against_zero(contrary(c), x) <==> x > 0),
        c is Eq ==> (against_zero(contrary(c), x) <==> x != 0),
        c is Ne ==> (against_zero(contrary(c), x) <==> x == 0),
        c is Ge ==> (against_zero(contrary(c), x) <==> x < 0),
        c is Gt ==> (against_zero(contrary(c), x) <==> x <= 0),
        against_zero(contrary(c), x) == !against_zero(c, x),
{
}

} // verus!
