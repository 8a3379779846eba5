//! The link between the search and the theories: what an assigned literal tells each of them, and
//! what their answers tell the search.
use crate::blast::bv_width_of;
use crate::blast::equality_fact;
use crate::blast::keeps;
use crate::blast::keeps_given;
use crate::blast::sound;
use crate::blast::states;
use crate::blast::width_of;
use crate::blast::BvCmd;
use crate::blast::BvPlan;
use crate::cnf::flip;
use crate::cnf::neg;
use crate::cnf::pos;
use crate::cnf::Lit;
use crate::cnf::Var;
use crate::config::Statistics;
use crate::config::TheoryMode;
use crate::encoder::Constraint;
use crate::euf::carries;
use crate::euf::same_literal;
use crate::euf::EufNode;
use crate::euf::EufPlan;
use crate::fd::TheoryStep;
use crate::linear::coefficients_wf;
use crate::linear::ArithConstraintType;
use crate::linear::ParsedArithConstraint;
use crate::maps::map_get;
use crate::maps::map_insert;
use crate::maps::map_remove;
use crate::maps::map_new;
use crate::maps::pair_set_insert;
use crate::maps::pair_set_new;
use crate::maps::set_contains;
use crate::rational::Rat;
use crate::small::LitList;
use crate::term::BvRel;
use crate::term::Op;
use crate::term::TermId;
use crate::term::TermManager;
use crate::term::INT_SORT;
use crate::term::REAL_SORT;
use crate::walk::occurs;
use rustc_hash::FxHashMap;
use rustc_hash::FxHashSet;
use vstd::prelude::*;

verus! {

/// How a sum of scaled terms compares to a constant.
#[derive(Clone, Copy, Debug, PartialEq, Eq, Structural)]
pub enum ArithRel {
    Eq,
    Lt,
    Le,
    Gt,
    Ge,
}

/// What is asserted to the theory of equality.
#[derive(Clone, Copy, Debug, PartialEq, Eq, Structural)]
pub struct EufFact {
    pub a: EufNode,
    pub b: EufNode,
    pub equal: bool,
    pub reason: TermId,
}

/// What is asserted to arithmetic: how the parsed form of a variable compares to its constant.
#[derive(Clone, Copy, Debug, PartialEq, Eq, Structural)]
pub struct ArithFact {
    pub var: Var,
    pub rel: ArithRel,
    pub reason: TermId,
}

/// What one assigned literal tells the theories. Terms are introduced by the instructions of the
/// plans for equality and bit vectors.
#[derive(Debug)]
pub struct Plan {
    pub euf: Option<EufFact>,
    pub arith: Option<ArithFact>,
    /// The sorts of the terms of the parsed form: whether they are integers.
    pub sorts: Vec<(TermId, bool)>,
    /// Ask the theory of bit vectors, for the reason given.
    pub bits: Option<TermId>,
}

/// The relation of a comparison that holds, or of one that does not.
pub open spec fn rel_of(c: ArithConstraintType, positive: bool) -> ArithRel {
    match (c, positive) {
        (ArithConstraintType::Lt, true) | (ArithConstraintType::Ge, false) => ArithRel::Lt,
        (ArithConstraintType::Le, true) | (ArithConstraintType::Gt, false) => ArithRel::Le,
        (ArithConstraintType::Gt, true) | (ArithConstraintType::Le, false) => ArithRel::Gt,
        (ArithConstraintType::Ge, true) | (ArithConstraintType::Lt, false) => ArithRel::Ge,
    }
}

/// The relation of a comparison that holds, or of one that does not.
fn rel_for(c: ArithConstraintType, positive: bool) -> (r: ArithRel)
    ensures
        r == rel_of(c, positive),
{
    match (c, positive) {
        (ArithConstraintType::Lt, true) | (ArithConstraintType::Ge, false) => ArithRel::Lt,
        (ArithConstraintType::Le, true) | (ArithConstraintType::Gt, false) => ArithRel::Le,
        (ArithConstraintType::Gt, true) | (ArithConstraintType::Le, false) => ArithRel::Gt,
        (ArithConstraintType::Ge, true) | (ArithConstraintType::Lt, false) => ArithRel::Ge,
    }
}

/// Whether arithmetic has to treat a term as an integer: integers and bit vectors are, real
/// numbers are not, of other terms nothing is said.
pub open spec fn arith_sort(m: &TermManager, t: TermId) -> Option<bool> {
    if !m.has(t) {
        None
    } else if m.sort_of(t) == INT_SORT || width_of(m, t) is Some {
        Some(true)
    } else if m.sort_of(t) == REAL_SORT {
        Some(false)
    } else {
        None
    }
}

/// The sorts of the first `k` terms, as far as something is said of them.
pub open spec fn arith_sorts(m: &TermManager, terms: Seq<(TermId, Rat)>, k: int) -> Seq<(TermId, bool)>
    decreases k,
{
    if k <= 0 {
        Seq::empty()
    } else {
        match arith_sort(m, terms[k - 1].0) {
            Some(b) => arith_sorts(m, terms, k - 1).push((terms[k - 1].0, b)),
            None => arith_sorts(m, terms, k - 1),
        }
    }
}

/// The sorts of terms, as far as something is said of them.
pub fn declare_arith_sorts(m: &TermManager, terms: &Vec<(TermId, Rat)>) -> (r: Vec<(TermId, bool)>)
    ensures
        r@ == arith_sorts(m, terms@, terms@.len() as int),
{
    let mut out: Vec<(TermId, bool)> = Vec::new();
    let mut i: usize = 0;
    while i < terms.len()
        invariant
            i <= terms.len(),
            out@ == arith_sorts(m, terms@, i as int),
        decreases terms.len() - i,
    {
        let t: usize = terms[i].0;
        if t < m.terms.len() {
            let sort: usize = m.terms[t].sort;
            if sort == INT_SORT || bv_width_of(m, t).is_some() {
                out.push((t, true));
            } else if sort == REAL_SORT {
                out.push((t, false));
            }
        }
        i = i + 1;
    }
    out
}

/// The state of the link.
#[derive(Debug)]
pub struct TheoryManager {
    pub euf: EufPlan,
    pub bv: BvPlan,
    pub bv_terms: FxHashSet<usize>,
    pub var_to_constraint: FxHashMap<usize, Constraint>,
    pub var_to_parsed_arith: FxHashMap<usize, ParsedArithConstraint>,
    pub term_to_var: FxHashMap<usize, Var>,
    pub var_to_term: Vec<TermId>,
    pub theory_mode: TheoryMode,
    /// Take no conflict of arithmetic for one that rests on a bound of an earlier assignment.
    pub suppress_stale_bounds: bool,
    pub pending_assignments: Vec<(Lit, bool)>,
    pub pending_theory_propagations: Vec<(Lit, LitList)>,
    /// How many nodes and bit vectors there were at each level.
    pub levels: Vec<(usize, usize)>,
    pub statistics: Statistics,
    pub max_conflicts: u64,
    pub assigned_phase: FxHashMap<usize, bool>,
    pub last_check_unconfirmed: bool,
    /// Equalities that theories told each other of, and that were not passed on yet.
    pub pending_equalities: Vec<EqualityNotification>,
    pub processed_equalities: FxHashSet<(usize, usize)>,
    /// Why arithmetic fixed the values that the present combination rests on.
    pub pending_arith_eq_reasons: Vec<TermId>,
}

/// What outlives one solving.
#[derive(Debug)]
pub struct TheoryParts {
    pub euf: EufPlan,
    pub bv: BvPlan,
    pub bv_terms: FxHashSet<usize>,
    pub var_to_constraint: FxHashMap<usize, Constraint>,
    pub var_to_parsed_arith: FxHashMap<usize, ParsedArithConstraint>,
    pub term_to_var: FxHashMap<usize, Var>,
    pub var_to_term: Vec<TermId>,
    pub statistics: Statistics,
}

/// An equality that one theory tells another of.
#[derive(Clone, Copy, Debug, PartialEq, Eq, Structural)]
pub struct EqualityNotification {
    pub lhs: TermId,
    pub rhs: TermId,
    pub reason: Option<TermId>,
}

/// A proposal which variable to decide next.
#[derive(Clone, Copy, Debug, PartialEq, Eq, Structural)]
pub struct TheoryDecision {
    pub var: Var,
    pub value: bool,
    pub priority: i32,
}

/// The literal that an assignment falsifies: the negation of the variable's phase.
pub open spec fn falsified(phase: Map<usize, bool>, var: Var) -> Lit {
    if phase.contains_key(var) && !phase[var] {
        pos(var)
    } else {
        neg(var)
    }
}

/// The clause that a conflict between the first `k` terms makes: for each that has a variable, the
/// literal that the assignment falsifies.
pub open spec fn conflict_clause(vars: Map<usize, Var>, phase: Map<usize, bool>, terms: Seq<TermId>, k: int) -> Seq<Lit>
    decreases k,
{
    if k <= 0 {
        Seq::empty()
    } else if vars.contains_key(terms[k - 1]) {
        conflict_clause(vars, phase, terms, k - 1).push(falsified(phase, vars[terms[k - 1]]))
    } else {
        conflict_clause(vars, phase, terms, k - 1)
    }
}

/// The term that a variable stands for; the term `true` where it stands for none.
pub open spec fn term_of_var(vars: Seq<TermId>, var: Var) -> TermId {
    if var < vars.len() {
        vars[var as int]
    } else {
        0
    }
}

/// The node that stands for a term: itself, or for a literal one of its value.
pub open spec fn stands_for(m: &TermManager, n: EufNode, t: TermId) -> bool {
    n matches EufNode::Term(x) && (x == t || same_literal(m, t, x))
}

/// What an assigned literal says to the theory of equality.
pub open spec fn euf_told(m: &TermManager, c: Constraint, positive: bool, reason: TermId, f: Option<EufFact>) -> bool {
    match c {
        Constraint::Eq(a, b) => f matches Some(x) && stands_for(m, x.a, a) && stands_for(m, x.b, b) && x.equal == positive && x.reason
            == reason,
        Constraint::Diseq(a, b) => f matches Some(x) && stands_for(m, x.a, a) && stands_for(m, x.b, b) && x.equal != positive
            && x.reason == reason,
        Constraint::Lt(a, b) | Constraint::Le(a, b) | Constraint::Gt(a, b) | Constraint::Ge(a, b) => f is None,
        Constraint::BoolApp(t) => f matches Some(x) && stands_for(m, x.a, t) && x.b == if positive {
            EufNode::True
        } else {
            EufNode::False
        } && x.equal && x.reason == reason,
        Constraint::BoolValue { term, negated } => f matches Some(x) && stands_for(m, x.a, term) && x.b == if positive != negated {
            EufNode::True
        } else {
            EufNode::False
        } && x.equal && x.reason == reason,
    }
}

/// What an assigned literal says to arithmetic.
pub open spec fn arith_told(parsed: Map<usize, ParsedArithConstraint>, var: Var, c: Constraint, positive: bool) -> Option<ArithFact> {
    if !parsed.contains_key(var) {
        None
    } else {
        let p = parsed[var];
        match c {
            Constraint::Eq(a, b) => if positive {
                Some(ArithFact { var, rel: ArithRel::Eq, reason: p.reason_term })
            } else {
                None
            },
            Constraint::Lt(a, b) | Constraint::Le(a, b) | Constraint::Gt(a, b) | Constraint::Ge(a, b) => Some(
                ArithFact { var, rel: rel_of(p.constraint_type, positive), reason: p.reason_term },
            ),
            _ => None,
        }
    }
}

/// The term is a signed comparison of bit vectors.
pub open spec fn is_signed(m: &TermManager, t: TermId) -> bool {
    m.has(t) && (m.op(t) == Op::BvCompare(BvRel::Slt) || m.op(t) == Op::BvCompare(BvRel::Sle))
}

/// What an assigned comparison says of bit vectors.
pub open spec fn below_told(c: Constraint, positive: bool, signed: bool) -> Option<BvCmd> {
    match c {
        Constraint::Lt(a, b) => if positive {
            Some(BvCmd::Below { a, b, signed, strict: true })
        } else {
            Some(BvCmd::Below { a: b, b: a, signed, strict: false })
        },
        Constraint::Le(a, b) => if positive {
            Some(BvCmd::Below { a, b, signed, strict: false })
        } else {
            Some(BvCmd::Below { a: b, b: a, signed, strict: true })
        },
        _ => None,
    }
}

/// The constraint speaks of the term.
pub open spec fn speaks_of(c: Constraint, t: TermId) -> bool {
    match c {
        Constraint::Eq(a, b) | Constraint::Diseq(a, b) | Constraint::Lt(a, b) | Constraint::Le(a, b) | Constraint::Gt(a, b)
        | Constraint::Ge(a, b) => t == a || t == b,
        Constraint::BoolApp(x) => t == x,
        Constraint::BoolValue { term, negated } => t == term,
    }
}

/// The term occurs in one that the constraint speaks of.
pub open spec fn occurs_among(m: &TermManager, c: Constraint, x: TermId) -> bool {
    exists|t: TermId| #[trigger] speaks_of(c, t) && occurs(m, t, x)
}

/// A term that the constraint speaks of carries the term.
pub open spec fn carried(m: &TermManager, c: Constraint, x: TermId) -> bool {
    exists|t: TermId| #[trigger] speaks_of(c, t) && carries(m, t, x)
}

impl TheoryManager {
    /// The marks rise, up to the present state.
    pub open spec fn rising(&self) -> bool {
        &&& forall|i: int, j: int|
            0 <= i < j < self.levels@.len() ==> (#[trigger] self.levels@[i]).0 <= (#[trigger] self.levels@[j]).0 && self.levels@[i].1
                <= self.levels@[j].1
        &&& forall|i: int|
            0 <= i < self.levels@.len() ==> (#[trigger] self.levels@[i]).0 <= self.euf.nodes@.len() && self.levels@[i].1
                <= self.bv.given@.len()
    }

    /// The plans are well formed, and so are the parsed forms; the marks rise.
    pub open spec fn wf(&self, m: &TermManager) -> bool {
        &&& self.euf.wf(m)
        &&& self.bv.wf()
        &&& forall|v: usize| #[trigger] self.var_to_parsed_arith@.contains_key(v) ==> self.var_to_parsed_arith@[v].constant.wf()
            && coefficients_wf(self.var_to_parsed_arith@[v].terms@)
        &&& self.rising()
    }

    /// Everything but the plans for equality and bit vectors is as before.
    pub open spec fn same_but_plans(&self, other: &TheoryManager) -> bool {
        &&& self.bv_terms == other.bv_terms
        &&& self.var_to_constraint == other.var_to_constraint
        &&& self.var_to_parsed_arith == other.var_to_parsed_arith
        &&& self.term_to_var == other.term_to_var
        &&& self.var_to_term == other.var_to_term
        &&& self.theory_mode == other.theory_mode
        &&& self.suppress_stale_bounds == other.suppress_stale_bounds
        &&& self.pending_assignments == other.pending_assignments
        &&& self.pending_theory_propagations == other.pending_theory_propagations
        &&& self.levels == other.levels
        &&& self.statistics == other.statistics
        &&& self.max_conflicts == other.max_conflicts
        &&& self.assigned_phase == other.assigned_phase
        &&& self.last_check_unconfirmed == other.last_check_unconfirmed
        &&& self.pending_equalities == other.pending_equalities
        &&& self.processed_equalities == other.processed_equalities
        &&& self.pending_arith_eq_reasons == other.pending_arith_eq_reasons
    }

    /// What an assigned literal says of bit vectors, and whether the theory is asked.
    pub open spec fn bits_told(&self, m: &TermManager, var: Var, c: Constraint, positive: bool, later: &TheoryManager, asked: bool) -> bool {
        match c {
            Constraint::Eq(a, b) => if positive {
                &&& asked == equality_fact(m, self.bv_terms@, a, b) is Some
                &&& equality_fact(m, self.bv_terms@, a, b) matches Some(fact) ==> states(m, &self.bv, &later.bv, fact)
                &&& equality_fact(m, self.bv_terms@, a, b) is None ==> sound(
                    m,
                    self.bv.known@,
                    self.bv.cmds@.len() as int,
                    &later.bv,
                )
            } else {
                &&& asked == (width_of(m, a) is Some && width_of(m, a) == width_of(m, b))
                &&& asked ==> states(m, &self.bv, &later.bv, BvCmd::Differ { a, b })
                &&& !asked ==> later.bv == self.bv
            },
            Constraint::Diseq(a, b) => {
                &&& asked == (width_of(m, a) is Some && width_of(m, a) == width_of(m, b))
                &&& asked ==> states(
                    m,
                    &self.bv,
                    &later.bv,
                    if positive {
                        BvCmd::Differ { a, b }
                    } else {
                        BvCmd::Equal { a, b }
                    },
                )
                &&& !asked ==> later.bv == self.bv
            },
            Constraint::Lt(a, b) | Constraint::Le(a, b) | Constraint::Gt(a, b) | Constraint::Ge(a, b) => {
                let signed = is_signed(m, term_of_var(self.var_to_term@, var));
                &&& asked == ((self.bv_terms@.contains(a) || self.bv_terms@.contains(b)) && width_of(m, a) is Some)
                &&& asked ==> later.bv.known@ == self.bv.known@.insert(a).insert(b)
                &&& asked ==> later.bv.cmds@ == match below_told(c, positive, signed) {
                    Some(f) => self.bv.cmds@.push(crate::blast::side_cmd(m, a, width_of(m, a)->0)).push(
                        crate::blast::side_cmd(m, b, width_of(m, a)->0),
                    ).push(f),
                    None => self.bv.cmds@.push(crate::blast::side_cmd(m, a, width_of(m, a)->0)).push(
                        crate::blast::side_cmd(m, b, width_of(m, a)->0),
                    ),
                }
                &&& !asked ==> later.bv == self.bv
            },
            _ => !asked && later.bv == self.bv,
        }
    }

    /// What an assigned literal tells the theories: the plan says it, and the instructions introduce
    /// the terms that it speaks of with what they apply functions to, and no other term.
    pub open spec fn planned(&self, m: &TermManager, var: Var, c: Constraint, positive: bool, later: &TheoryManager, p: Plan) -> bool {
        &&& self.euf.leads_to(&later.euf, m)
        &&& forall|t: TermId| #[trigger] speaks_of(c, t) ==> later.euf.interned@.contains(t)
        &&& forall|x: TermId| #[trigger] later.euf.interned@.contains(x) ==> self.euf.interned@.contains(x) || carried(m, c, x)
        &&& euf_told(m, c, positive, term_of_var(self.var_to_term@, var), p.euf)
        &&& p.euf matches Some(f) ==> (f.a matches EufNode::Term(x) ==> later.euf.interned@.contains(x)) && (
        f.b matches EufNode::Term(x) ==> later.euf.interned@.contains(x)) && (!(f.b is Term) ==> later.euf.truths)
        &&& p.arith == arith_told(self.var_to_parsed_arith@, var, c, positive)
        &&& p.arith is Some ==> p.sorts@ == arith_sorts(
            m,
            self.var_to_parsed_arith@[var].terms@,
            self.var_to_parsed_arith@[var].terms@.len() as int,
        )
        &&& p.arith is None ==> p.sorts@.len() == 0
        &&& p.bits matches Some(t) ==> t == term_of_var(self.var_to_term@, var)
        &&& self.bits_told(m, var, c, positive, later, p.bits is Some)
        &&& keeps(self.bv.cmds@, later.bv.cmds@)
        &&& keeps_given(self.bv.given@, later.bv.given@)
        &&& forall|x: TermId| #[trigger] later.bv.known@.contains(x) ==> self.bv.known@.contains(x) || occurs_among(m, c, x)
    }

    /// The term that a variable stands for.
    fn term_for_var(&self, var: Var) -> (t: TermId)
        ensures
            t == term_of_var(self.var_to_term@, var),
    {
        if var < self.var_to_term.len() {
            self.var_to_term[var]
        } else {
            0
        }
    }

    /// The clause that a conflict between terms makes.
    pub fn terms_to_conflict_clause(&self, terms: &Vec<TermId>) -> (r: LitList)
        ensures
            r@ == conflict_clause(self.term_to_var@, self.assigned_phase@, terms@, terms@.len() as int),
    {
        let mut out = LitList::new();
        let mut i: usize = 0;
        while i < terms.len()
            invariant
                i <= terms.len(),
                out@ == conflict_clause(self.term_to_var@, self.assigned_phase@, terms@, i as int),
            decreases terms.len() - i,
        {
            if let Some(v) = map_get(&self.term_to_var, terms[i]) {
                let var: usize = *v;
                let positive = match map_get(&self.assigned_phase, var) {
                    Some(p) => *p,
                    None => true,
                };
                out.push(
                    if positive {
                        Lit::neg(var)
                    } else {
                        Lit::pos(var)
                    },
                );
            }
            i = i + 1;
        }
        out
    }

    /// What arithmetic is told, and the sorts of the terms that it is told of.
    fn arith_part(&self, m: &TermManager, var: Var, c: Constraint, positive: bool) -> (r: (Option<ArithFact>, Vec<(TermId, bool)>))
        ensures
            r.0 == arith_told(self.var_to_parsed_arith@, var, c, positive),
            r.0 is Some ==> r.1@ == arith_sorts(
                m,
                self.var_to_parsed_arith@[var].terms@,
                self.var_to_parsed_arith@[var].terms@.len() as int,
            ),
            r.0 is None ==> r.1@.len() == 0,
    {
        match map_get(&self.var_to_parsed_arith, var) {
            Some(p) => {
                let rel = match c {
                    Constraint::Eq(_, _) => if positive {
                        ArithRel::Eq
                    } else {
                        return (None, Vec::new());
                    },
                    Constraint::Lt(_, _) | Constraint::Le(_, _) | Constraint::Gt(_, _) | Constraint::Ge(_, _) => rel_for(
                        p.constraint_type,
                        positive,
                    ),
                    _ => {
                        return (None, Vec::new());
                    },
                };
                (Some(ArithFact { var, rel, reason: p.reason_term }), declare_arith_sorts(m, &p.terms))
            },
            None => (None, Vec::new()),
        }
    }

    /// What an assigned literal tells the theories.
    #[verifier::spinoff_prover]
    #[verifier::rlimit(60)]
    pub fn process_constraint(&mut self, m: &TermManager, var: Var, c: Constraint, positive: bool) -> (r: Plan)
        requires
            m.wf(),
            old(self).wf(m),
        ensures
            final(self).wf(m),
            final(self).same_but_plans(old(self)),
            old(self).planned(m, var, c, positive, final(self), r),
    {
        let reason: usize = self.term_for_var(var);
        let (arith, sorts) = self.arith_part(m, var, c, positive);
        proof {
            crate::blast::lemma_keeps_self(&self.bv);
        }
        match c {
            Constraint::Eq(a, b) => {
                let (x, y) = self.introduce_pair(m, a, b);
                assert(speaks_of(c, a) && speaks_of(c, b));
                let fact = EufFact { a: EufNode::Term(x), b: EufNode::Term(y), equal: positive, reason };
                let asked = if positive {
                    self.bv.assert_equality(m, &self.bv_terms, a, b)
                } else {
                    self.bv.assert_pair(m, a, b, false)
                };
                Plan {
                    euf: Some(fact),
                    arith,
                    sorts,
                    bits: if asked {
                        Some(reason)
                    } else {
                        None
                    },
                }
            },
            Constraint::Diseq(a, b) => {
                let (x, y) = self.introduce_pair(m, a, b);
                assert(speaks_of(c, a) && speaks_of(c, b));
                let fact = EufFact { a: EufNode::Term(x), b: EufNode::Term(y), equal: !positive, reason };
                let asked = self.bv.assert_pair(m, a, b, !positive);
                Plan {
                    euf: Some(fact),
                    arith,
                    sorts,
                    bits: if asked {
                        Some(reason)
                    } else {
                        None
                    },
                }
            },
            Constraint::Lt(a, b) | Constraint::Le(a, b) | Constraint::Gt(a, b) | Constraint::Ge(a, b) => {
                let _ = self.introduce_pair(m, a, b);
                assert(speaks_of(c, a) && speaks_of(c, b));
                let mut bits: Option<TermId> = None;
                if set_contains(&self.bv_terms, a) || set_contains(&self.bv_terms, b) {
                    if let Some(width) = bv_width_of(m, a) {
                        let signed = reason < m.terms.len() && match m.terms[reason].op {
                            Op::BvCompare(BvRel::Slt) | Op::BvCompare(BvRel::Sle) => true,
                            _ => false,
                        };
                        let fact = match c {
                            Constraint::Lt(_, _) => if positive {
                                Some(BvCmd::Below { a, b, signed, strict: true })
                            } else {
                                Some(BvCmd::Below { a: b, b: a, signed, strict: false })
                            },
                            Constraint::Le(_, _) => if positive {
                                Some(BvCmd::Below { a, b, signed, strict: false })
                            } else {
                                Some(BvCmd::Below { a: b, b: a, signed, strict: true })
                            },
                            _ => None,
                        };
                        self.bv.assert_below(m, a, b, width, fact);
                        bits = Some(reason);
                        proof {
                            crate::blast::lemma_keeps_pushes(old(self).bv.cmds@, self.bv.cmds@);
                        }
                    }
                }
                Plan { euf: None, arith, sorts, bits }
            },
            Constraint::BoolApp(t) => {
                let fact = self.introduce_truth(m, t, positive, reason);
                assert(speaks_of(c, t));
                Plan { euf: Some(fact), arith, sorts, bits: None }
            },
            Constraint::BoolValue { term, negated } => {
                let fact = self.introduce_truth(m, term, positive != negated, reason);
                assert(speaks_of(c, term));
                Plan { euf: Some(fact), arith, sorts, bits: None }
            },
        }
    }

    /// Introduces two terms to the theory of equality.
    fn introduce_pair(&mut self, m: &TermManager, a: TermId, b: TermId) -> (r: (TermId, TermId))
        requires
            m.wf(),
            old(self).wf(m),
        ensures
            final(self).wf(m),
            final(self).same_but_plans(old(self)),
            final(self).bv == old(self).bv,
            old(self).euf.leads_to(&final(self).euf, m),
            stands_for(m, EufNode::Term(r.0), a),
            stands_for(m, EufNode::Term(r.1), b),
            final(self).euf.interned@.contains(r.0),
            final(self).euf.interned@.contains(r.1),
            final(self).euf.interned@.contains(a),
            final(self).euf.interned@.contains(b),
            forall|x: TermId| #[trigger] final(self).euf.interned@.contains(x) ==> old(self).euf.interned@.contains(x) || carries(m, a, x)
                || carries(m, b, x),
    {
        let x: usize = self.euf.intern_term_for_congruence(m, a);
        let ghost mid = self.euf;
        let y: usize = self.euf.intern_term_for_congruence(m, b);
        proof {
            crate::euf::lemma_leads(&old(self).euf, &mid, &self.euf, m);
            crate::euf::lemma_interned_stays(&mid, &self.euf, m, x);
            crate::euf::lemma_interned_stays(&mid, &self.euf, m, a);
        }
        (x, y)
    }

    /// Introduces a term to the theory of equality, together with the truth values.
    fn introduce_truth(&mut self, m: &TermManager, t: TermId, value: bool, reason: TermId) -> (r: EufFact)
        requires
            m.wf(),
            old(self).wf(m),
        ensures
            final(self).wf(m),
            final(self).same_but_plans(old(self)),
            final(self).bv == old(self).bv,
            old(self).euf.leads_to(&final(self).euf, m),
            stands_for(m, r.a, t),
            r.a matches EufNode::Term(x) ==> final(self).euf.interned@.contains(x),
            final(self).euf.interned@.contains(t),
            r.b == if value { EufNode::True } else { EufNode::False },
            r.equal,
            r.reason == reason,
            final(self).euf.truths,
            forall|x: TermId| #[trigger] final(self).euf.interned@.contains(x) ==> old(self).euf.interned@.contains(x) || carries(m, t, x),
    {
        let x: usize = self.euf.intern_term_for_congruence(m, t);
        let ghost mid = self.euf;
        self.euf.ensure_bool_nodes(m);
        proof {
            crate::euf::lemma_leads(&old(self).euf, &mid, &self.euf, m);
            crate::euf::lemma_interned_stays(&mid, &self.euf, m, x);
            crate::euf::lemma_interned_stays(&mid, &self.euf, m, t);
        }
        EufFact {
            a: EufNode::Term(x),
            b: if value {
                EufNode::True
            } else {
                EufNode::False
            },
            equal: true,
            reason,
        }
    }
}

/// What a consultation of the theories found.
#[derive(Debug)]
pub enum TheoryReply {
    /// No conflict.
    Consistent,
    /// The assignment falsifies the clause.
    Conflict(LitList),
}

/// What the answers of single theories settle.
#[derive(Debug)]
pub enum Battery {
    /// The answer of all of them.
    Told(TheoryReply),
    /// The combination of the theories has to be asked.
    Combine,
}

/// What arithmetic answers to a consistency check.
#[derive(Debug)]
pub enum ArithReply {
    Sat,
    /// The constraints of the terms contradict each other.
    Unsat(Vec<TermId>),
    /// Something follows from the constraints.
    Propagate,
    Unknown,
    Failed,
}

/// The position of the last entry among the first `k` whose variable is not assigned, or -1.
pub open spec fn last_open(list: Seq<(Lit, LitList)>, phase: Map<usize, bool>, k: int) -> int
    decreases k,
{
    if k <= 0 {
        -1
    } else if !phase.contains_key(list[k - 1].0.var) {
        k - 1
    } else {
        last_open(list, phase, k - 1)
    }
}

/// A list of pending assignments without the last one of a literal.
pub open spec fn without_latest(list: Seq<(Lit, bool)>, lit: Lit, k: int) -> Seq<(Lit, bool)>
    decreases k,
{
    if k <= 0 {
        list
    } else if list[k - 1].0 == lit {
        list.remove(k - 1)
    } else {
        without_latest(list, lit, k - 1)
    }
}

/// The opposites of literals.
pub open spec fn opposites(lits: Seq<Lit>) -> Seq<Lit> {
    lits.map_values(|l: Lit| flip(l))
}

/// The explanation of a propagation: the opposites of the literals that justify it.
pub fn theory_reason_from_clause(reason_lits: &LitList) -> (r: LitList)
    ensures
        r@ == opposites(reason_lits@),
{
    let mut out = LitList::new();
    let n: usize = reason_lits.len();
    let mut i: usize = 0;
    while i < n
        invariant
            i <= n,
            n == reason_lits@.len(),
            out@ == opposites(reason_lits@).take(i as int),
        decreases n - i,
    {
        out.push(reason_lits.get(i).negate());
        assert(out@ =~= opposites(reason_lits@).take(i + 1));
        i = i + 1;
    }
    assert(out@ =~= opposites(reason_lits@));
    out
}

/// The counters of the state with a conflict counted.
pub open spec fn one_conflict(s: Statistics) -> Statistics {
    Statistics { theory_conflicts: (s.theory_conflicts + 1) as u64, conflicts: (s.conflicts + 1) as u64, ..s }
}

/// The limit on conflicts is reached.
pub open spec fn exhausted(s: Statistics, limit: u64) -> bool {
    limit > 0 && s.conflicts >= limit
}

/// Equalities in a fixed order of their sides.
pub open spec fn equality_key(e: EqualityNotification) -> (usize, usize) {
    if e.lhs < e.rhs {
        (e.lhs, e.rhs)
    } else {
        (e.rhs, e.lhs)
    }
}

impl TheoryParts {
    /// The plans are well formed, and so are the parsed forms.
    pub open spec fn wf(&self, m: &TermManager) -> bool {
        &&& self.euf.wf(m)
        &&& self.bv.wf()
        &&& forall|v: usize| #[trigger] self.var_to_parsed_arith@.contains_key(v) ==> self.var_to_parsed_arith@[v].constant.wf()
            && coefficients_wf(self.var_to_parsed_arith@[v].terms@)
    }
}

impl TheoryManager {
    /// What outlives the solving.
    pub open spec fn parts(&self) -> TheoryParts {
        TheoryParts {
            euf: self.euf,
            bv: self.bv,
            bv_terms: self.bv_terms,
            var_to_constraint: self.var_to_constraint,
            var_to_parsed_arith: self.var_to_parsed_arith,
            term_to_var: self.term_to_var,
            var_to_term: self.var_to_term,
            statistics: self.statistics,
        }
    }

    /// The link at the start of a solving: nothing is assigned and nothing waits.
    pub fn new(parts: TheoryParts, theory_mode: TheoryMode, max_conflicts: u64, suppress_stale_bounds: bool) -> (r: TheoryManager)
        ensures
            r.parts() == parts,
            forall|m: &TermManager| parts.wf(m) ==> #[trigger] r.wf(m),
            r.theory_mode == theory_mode,
            r.max_conflicts == max_conflicts,
            r.suppress_stale_bounds == suppress_stale_bounds,
            r.pending_assignments@.len() == 0,
            r.pending_theory_propagations@.len() == 0,
            r.levels@.len() == 0,
            (r.assigned_phase@ == Map::<usize, bool>::empty()),
            !r.last_check_unconfirmed,
            r.pending_equalities@.len() == 0,
            r.processed_equalities@ == Set::<(usize, usize)>::empty(),
            r.pending_arith_eq_reasons@.len() == 0,
    {
        TheoryManager {
            euf: parts.euf,
            bv: parts.bv,
            bv_terms: parts.bv_terms,
            var_to_constraint: parts.var_to_constraint,
            var_to_parsed_arith: parts.var_to_parsed_arith,
            term_to_var: parts.term_to_var,
            var_to_term: parts.var_to_term,
            theory_mode,
            suppress_stale_bounds,
            pending_assignments: Vec::new(),
            pending_theory_propagations: Vec::new(),
            levels: Vec::new(),
            statistics: parts.statistics,
            max_conflicts,
            assigned_phase: map_new(),
            last_check_unconfirmed: false,
            pending_equalities: Vec::new(),
            processed_equalities: pair_set_new(),
            pending_arith_eq_reasons: Vec::new(),
        }
    }

    /// Gives back what outlives the solving.
    pub fn into_parts(self) -> (r: TheoryParts)
        ensures
            r == self.parts(),
    {
        TheoryParts {
            euf: self.euf,
            bv: self.bv,
            bv_terms: self.bv_terms,
            var_to_constraint: self.var_to_constraint,
            var_to_parsed_arith: self.var_to_parsed_arith,
            term_to_var: self.term_to_var,
            var_to_term: self.var_to_term,
            statistics: self.statistics,
        }
    }

    /// A counter that is about to grow has room.
    pub open spec fn has_room(&self) -> bool {
        &&& self.statistics.propagations < u64::MAX
        &&& self.statistics.theory_propagations < u64::MAX
        &&& self.statistics.theory_conflicts < u64::MAX
        &&& self.statistics.conflicts < u64::MAX
    }

    /// Counts a conflict, and says whether the limit on conflicts is reached.
    pub fn count_conflict(&mut self) -> (r: bool)
        requires
            old(self).has_room(),
        ensures
            final(self).statistics == one_conflict(old(self).statistics),
            r == exhausted(final(self).statistics, old(self).max_conflicts),
            (TheoryManager { statistics: old(self).statistics, ..*final(self) }) == *old(self),
    {
        self.statistics.theory_conflicts = self.statistics.theory_conflicts + 1;
        self.statistics.conflicts = self.statistics.conflicts + 1;
        self.max_conflicts > 0 && self.statistics.conflicts >= self.max_conflicts
    }

    /// An assigned literal, where theories are consulted at once: what it tells them. Where they
    /// are consulted later, it is kept for then.
    pub fn on_assignment(&mut self, m: &TermManager, lit: Lit) -> (r: Option<Plan>)
        requires
            m.wf(),
            old(self).wf(m),
            old(self).has_room(),
        ensures
            final(self).wf(m),
            final(self).assigned_phase@ == old(self).assigned_phase@.insert(lit.var, !lit.negative),
            final(self).statistics == (Statistics {
                propagations: (old(self).statistics.propagations + 1) as u64,
                theory_propagations: final(self).statistics.theory_propagations,
                ..old(self).statistics
            }),
            r is Some <==> old(self).theory_mode is Eager && old(self).var_to_constraint@.contains_key(lit.var),
            final(self).pending_assignments@ == if old(self).theory_mode is Lazy && old(self).var_to_constraint@.contains_key(
                lit.var,
            ) {
                old(self).pending_assignments@.push((lit, !lit.negative))
            } else {
                old(self).pending_assignments@
            },
            final(self).statistics.theory_propagations == old(self).statistics.theory_propagations + if r is Some {
                1int
            } else {
                0int
            },
            r matches Some(p) ==> old(self).planned(
                m,
                lit.var,
                old(self).var_to_constraint@[lit.var],
                !lit.negative,
                final(self),
                p,
            ),
            r is None ==> final(self).euf == old(self).euf && final(self).bv == old(self).bv,
            *final(self) == (TheoryManager { assigned_phase: final(self).assigned_phase, statistics: final(self).statistics, pending_assignments: final(self).pending_assignments, euf: final(self).euf, bv: final(self).bv, ..*old(self) }),
    {
        let positive = !lit.negative;
        map_insert(&mut self.assigned_phase, lit.var, positive);
        self.statistics.propagations = self.statistics.propagations + 1;
        let c = match map_get(&self.var_to_constraint, lit.var) {
            Some(c) => *c,
            None => {
                return None;
            },
        };
        match self.theory_mode {
            TheoryMode::Lazy => {
                self.pending_assignments.push((lit, positive));
                None
            },
            TheoryMode::Eager => {
                self.statistics.theory_propagations = self.statistics.theory_propagations + 1;
                Some(self.process_constraint(m, lit.var, c, positive))
            },
        }
    }

    /// An assigned literal, where theories are consulted at the fixpoints of the search: it is kept
    /// for then.
    pub fn assign_hook(&mut self, lit: Lit)
        requires
            old(self).has_room(),
        ensures
            final(self).assigned_phase@ == old(self).assigned_phase@.insert(lit.var, !lit.negative),
            final(self).pending_assignments@ == if old(self).var_to_constraint@.contains_key(lit.var) {
                old(self).pending_assignments@.push((lit, !lit.negative))
            } else {
                old(self).pending_assignments@
            },
            final(self).statistics == (Statistics {
                propagations: (old(self).statistics.propagations + 1) as u64,
                ..old(self).statistics
            }),
            *final(self) == (TheoryManager { assigned_phase: final(self).assigned_phase, statistics: final(self).statistics, pending_assignments: final(self).pending_assignments, ..*old(self) }),
    {
        map_insert(&mut self.assigned_phase, lit.var, !lit.negative);
        self.statistics.propagations = self.statistics.propagations + 1;
        if map_get(&self.var_to_constraint, lit.var).is_some() {
            self.pending_assignments.push((lit, !lit.negative));
        }
    }

    /// Takes back the assignment of a literal.
    pub fn unassign_hook(&mut self, lit: Lit)
        ensures
            final(self).assigned_phase@ == old(self).assigned_phase@.remove(lit.var),
            final(self).pending_assignments@ == without_latest(
                old(self).pending_assignments@,
                lit,
                old(self).pending_assignments@.len() as int,
            ),
            *final(self) == (TheoryManager { assigned_phase: final(self).assigned_phase, pending_assignments: final(self).pending_assignments, ..*old(self) }),
    {
        let _ = map_remove(&mut self.assigned_phase, lit.var);
        let ghost n = self.pending_assignments@.len() as int;
        let ghost list = self.pending_assignments@;
        let ghost mid = *self;
        let mut i: usize = self.pending_assignments.len();
        while i > 0
            invariant
                i <= self.pending_assignments.len(),
                *self == mid,
                list == self.pending_assignments@,
                list == old(self).pending_assignments@,
                mid.assigned_phase@ == old(self).assigned_phase@.remove(lit.var),
                mid == (TheoryManager { assigned_phase: mid.assigned_phase, pending_assignments: mid.pending_assignments, ..*old(self) }),
                n == list.len(),
                without_latest(list, lit, n) == without_latest(list, lit, i as int),
            decreases i,
        {
            let found = self.pending_assignments[i - 1].0;
            if found == lit {
                let _ = self.pending_assignments.remove(i - 1);
                return ;
            }
            i = i - 1;
        }
    }

    /// Marks the present state of the plans.
    pub fn push_frame(&mut self)
        ensures
            final(self).levels@ == old(self).levels@.push((old(self).euf.nodes.len(), old(self).bv.given.len())),
            old(self).rising() ==> final(self).rising(),
            *final(self) == (TheoryManager { levels: final(self).levels, ..*old(self) }),
    {
        self.levels.push((self.euf.nodes.len(), self.bv.given.len()));
    }

    /// Goes back to the latest mark, and forgets the propagations that wait.
    pub fn pop_frame(&mut self, m: &TermManager)
        requires
            old(self).wf(m),
        ensures
            final(self).wf(m),
            final(self).pending_theory_propagations@.len() == 0,
            final(self).euf.cmds@ == old(self).euf.cmds@,
            final(self).bv.cmds@ == old(self).bv.cmds@,
            *final(self) == (TheoryManager { levels: final(self).levels, euf: final(self).euf, bv: final(self).bv, pending_theory_propagations: final(self).pending_theory_propagations, ..*old(self) }),
            old(self).levels@.len() == 0 ==> final(self).levels@ == old(self).levels@ && final(self).euf == old(self).euf
                && final(self).bv == old(self).bv,
            old(self).levels@.len() > 0 ==> {
                let mark = old(self).levels@.last();
                &&& final(self).levels@ == old(self).levels@.drop_last()
                &&& final(self).euf.nodes@ == if mark.0 < old(self).euf.nodes@.len() {
                    old(self).euf.nodes@.take(mark.0 as int)
                } else {
                    old(self).euf.nodes@
                }
                &&& final(self).bv.given@ == if mark.1 < old(self).bv.given@.len() {
                    old(self).bv.given@.take(mark.1 as int)
                } else {
                    old(self).bv.given@
                }
            },
    {
        let ghost before = *self;
        if let Some((nodes, given)) = self.levels.pop() {
            self.euf.backtrack(nodes);
            self.bv.backtrack(given);
            proof {
                let k = self.levels@.len() as int;
                assert(before.levels@[k] == (nodes, given));
                assert forall|i: int| 0 <= i < k implies (#[trigger] self.levels@[i]).0 <= nodes && self.levels@[i].1 <= given by {
                    assert(before.levels@[i] == self.levels@[i]);
                }
                assert forall|i: int, j: int| 0 <= i < j < k implies (#[trigger] self.levels@[i]).0 <= (#[trigger] self.levels@[j]).0
                    && self.levels@[i].1 <= self.levels@[j].1 by {
                    assert(before.levels@[i] == self.levels@[i] && before.levels@[j] == self.levels@[j]);
                }
            }
        }
        self.pending_theory_propagations = Vec::new();
    }

    /// Marks the state until there is one mark for each level up to the given one.
    pub fn on_new_level(&mut self, level: u32)
        ensures
            final(self).levels@.len() == if old(self).levels@.len() < level {
                level as nat
            } else {
                old(self).levels@.len()
            },
            final(self).levels@.take(old(self).levels@.len() as int) == old(self).levels@,
            forall|i: int|
                old(self).levels@.len() <= i < final(self).levels@.len() ==> #[trigger] final(self).levels@[i] == (
                    old(self).euf.nodes.len(),
                    old(self).bv.given.len(),
                ),
            old(self).rising() ==> final(self).rising(),
            *final(self) == (TheoryManager { levels: final(self).levels, ..*old(self) }),
    {
        assert(self.levels@.take(self.levels@.len() as int) =~= self.levels@);
        while self.levels.len() < level as usize
            invariant
                self.levels@.len() >= old(self).levels@.len(),
                self.levels@.len() <= level || self.levels@.len() == old(self).levels@.len(),
                self.levels@.take(old(self).levels@.len() as int) == old(self).levels@,
                forall|i: int|
                    old(self).levels@.len() <= i < self.levels@.len() ==> #[trigger] self.levels@[i] == (
                        old(self).euf.nodes.len(),
                        old(self).bv.given.len(),
                    ),
                *self == (TheoryManager { levels: self.levels, ..*old(self) }),
                old(self).rising() ==> self.rising(),
            decreases level - self.levels@.len(),
        {
            let ghost before = self.levels@;
            self.push_frame();
            proof {
                assert(self.levels@.take(old(self).levels@.len() as int) =~= before.take(old(self).levels@.len() as int));
            }
        }
    }

    /// Goes back until there is one mark for each level up to the given one.
    pub fn on_backtrack(&mut self, m: &TermManager, level: u32)
        requires
            old(self).wf(m),
        ensures
            final(self).wf(m),
            final(self).levels@ == if old(self).levels@.len() > level {
                old(self).levels@.take(level as int)
            } else {
                old(self).levels@
            },
            old(self).theory_mode is Lazy ==> final(self).pending_assignments@.len() == 0,
            old(self).theory_mode is Eager ==> final(self).pending_assignments@ == old(self).pending_assignments@,
            old(self).levels@.len() > level ==> final(self).euf.nodes@ == old(self).euf.nodes@.take(
                old(self).levels@[level as int].0 as int,
            ) && final(self).bv.given@ == old(self).bv.given@.take(old(self).levels@[level as int].1 as int),
            old(self).levels@.len() <= level ==> final(self).euf == old(self).euf && final(self).bv == old(self).bv,
            final(self).euf.cmds@ == old(self).euf.cmds@,
            final(self).bv.cmds@ == old(self).bv.cmds@,
            *final(self) == (TheoryManager { levels: final(self).levels, euf: final(self).euf, bv: final(self).bv, pending_assignments: final(self).pending_assignments, ..*old(self) }),
    {
        let ghost nodes0 = self.euf.nodes@;
        let ghost given0 = self.bv.given@;
        let ghost levels0 = self.levels@;
        proof {
            assert(nodes0.take(nodes0.len() as int) =~= nodes0);
            assert(given0.take(given0.len() as int) =~= given0);
            assert(levels0.take(levels0.len() as int) =~= levels0);
        }
        while self.levels.len() > level as usize
            invariant
                self.wf(m),
                self.levels@.len() <= levels0.len(),
                self.levels@ == levels0.take(self.levels@.len() as int),
                self.levels@.len() >= level || self.levels@.len() == levels0.len(),
                *self == (TheoryManager { levels: self.levels, euf: self.euf, bv: self.bv, ..*old(self) }),
                levels0 == old(self).levels@,
                nodes0 == old(self).euf.nodes@,
                given0 == old(self).bv.given@,
                self.euf.cmds@ == old(self).euf.cmds@,
                self.bv.cmds@ == old(self).bv.cmds@,
                self.euf.nodes@.len() <= nodes0.len() && self.euf.nodes@ == nodes0.take(self.euf.nodes@.len() as int),
                self.bv.given@.len() <= given0.len() && self.bv.given@ == given0.take(self.bv.given@.len() as int),
                self.levels@.len() < levels0.len() ==> self.euf.nodes@.len() == levels0[self.levels@.len() as int].0
                    && self.bv.given@.len() == levels0[self.levels@.len() as int].1,
                self.levels@.len() == levels0.len() ==> self.euf == old(self).euf && self.bv == old(self).bv,
            decreases self.levels@.len(),
        {
            let ghost before = *self;
            let ghost k = self.levels@.len() - 1;
            let mode = self.theory_mode;
            if let Some((nodes, given)) = self.levels.pop() {
                self.euf.backtrack(nodes);
                self.bv.backtrack(given);
                proof {
                    assert(self.levels@ =~= levels0.take(k));
                    assert((nodes, given) == levels0[k]);
                    assert(before.levels@[k] == levels0[k]);
                    assert(nodes <= before.euf.nodes@.len() && given <= before.bv.given@.len());
                    assert(self.euf.nodes@ =~= nodes0.take(nodes as int));
                    assert(self.bv.given@ =~= given0.take(given as int));
                    assert forall|i: int| 0 <= i < k implies (#[trigger] self.levels@[i]).0 <= nodes && self.levels@[i].1 <= given by {
                        assert(before.levels@[i] == self.levels@[i]);
                    }
                    assert forall|i: int, j: int| 0 <= i < j < k implies (#[trigger] self.levels@[i]).0 <= (#[trigger] self.levels@[j]).0
                        && self.levels@[i].1 <= self.levels@[j].1 by {
                        assert(before.levels@[i] == self.levels@[i] && before.levels@[j] == self.levels@[j]);
                    }
                }
            }
        }
        if let TheoryMode::Lazy = self.theory_mode {
            self.pending_assignments = Vec::new();
        }
    }

    /// The latest waiting propagation whose literal is not assigned; later ones are dropped.
    pub fn next_emittable_propagation(&mut self) -> (r: Option<(Lit, LitList)>)
        ensures
            ({
                let list = old(self).pending_theory_propagations@;
                let i = last_open(list, old(self).assigned_phase@, list.len() as int);
                &&& r is Some <==> i >= 0
                &&& r matches Some(e) ==> e == list[i] && final(self).pending_theory_propagations@ == list.take(i)
                &&& r is None ==> final(self).pending_theory_propagations@.len() == 0
            }),
            *final(self) == (TheoryManager { pending_theory_propagations: final(self).pending_theory_propagations, ..*old(self) }),
    {
        let ghost list = self.pending_theory_propagations@;
        let ghost n = list.len() as int;
        assert(list.take(n) =~= list);
        loop
            invariant
                list == old(self).pending_theory_propagations@,
                n == list.len(),
                self.pending_theory_propagations@.len() <= n,
                self.pending_theory_propagations@ == list.take(self.pending_theory_propagations@.len() as int),
                last_open(list, old(self).assigned_phase@, n) == last_open(
                    list,
                    old(self).assigned_phase@,
                    self.pending_theory_propagations@.len() as int,
                ),
                *self == (TheoryManager { pending_theory_propagations: self.pending_theory_propagations, ..*old(self) }),
            ensures
                self.pending_theory_propagations@.len() == 0,
                last_open(list, old(self).assigned_phase@, n) == -1,
                *self == (TheoryManager { pending_theory_propagations: self.pending_theory_propagations, ..*old(self) }),
            decreases self.pending_theory_propagations@.len(),
        {
            let ghost k = self.pending_theory_propagations@.len() as int;
            match self.pending_theory_propagations.pop() {
                Some(entry) => {
                    proof {
                        assert(entry == list[k - 1]);
                        assert(self.pending_theory_propagations@ =~= list.take(k - 1));
                    }
                    if map_get(&self.assigned_phase, entry.0.var).is_none() {
                        return Some(entry);
                    }
                },
                None => {
                    break;
                },
            }
        }
        None
    }

    /// The pending assignments that theories have to be told of, in order.
    pub fn queued(&self) -> (r: Vec<(Var, Constraint, bool)>)
        ensures
            r@ == drained(self.pending_assignments@, self.var_to_constraint@, self.pending_assignments@.len() as int),
    {
        let mut out: Vec<(Var, Constraint, bool)> = Vec::new();
        let mut i: usize = 0;
        while i < self.pending_assignments.len()
            invariant
                i <= self.pending_assignments.len(),
                out@ == drained(self.pending_assignments@, self.var_to_constraint@, i as int),
            decreases self.pending_assignments.len() - i,
        {
            let (lit, positive) = self.pending_assignments[i];
            if let Some(c) = map_get(&self.var_to_constraint, lit.var) {
                out.push((lit.var, *c, positive));
            }
            i = i + 1;
        }
        out
    }

    /// The pending assignments that theories have to be told of, in order; none is pending
    /// afterwards.
    pub fn drain_queue(&mut self) -> (r: Vec<(Var, Constraint, bool)>)
        ensures
            final(self).pending_assignments@.len() == 0,
            r@ == drained(old(self).pending_assignments@, old(self).var_to_constraint@, old(self).pending_assignments@.len() as int),
            *final(self) == (TheoryManager { pending_assignments: final(self).pending_assignments, ..*old(self) }),
    {
        let out = self.queued();
        self.pending_assignments = Vec::new();
        out
    }

    /// What one drained assignment tells the theories; it is counted.
    pub fn drain_step(&mut self, m: &TermManager, var: Var, c: Constraint, positive: bool) -> (r: Plan)
        requires
            m.wf(),
            old(self).wf(m),
            old(self).has_room(),
        ensures
            final(self).wf(m),
            final(self).statistics == (Statistics {
                theory_propagations: (old(self).statistics.theory_propagations + 1) as u64,
                ..old(self).statistics
            }),
            old(self).planned(m, var, c, positive, final(self), r),
            *final(self) == (TheoryManager { statistics: final(self).statistics, euf: final(self).euf, bv: final(self).bv, ..*old(self) }),
    {
        self.statistics.theory_propagations = self.statistics.theory_propagations + 1;
        self.process_constraint(m, var, c, positive)
    }

    /// What the search is told of an assignment that was handed to the theories at once: their
    /// conflict, unless the limit on conflicts is reached.
    pub fn report(&mut self, conflict: Option<LitList>) -> (r: TheoryReply)
        requires
            old(self).has_room(),
        ensures
            conflict is None ==> r is Consistent && *final(self) == *old(self),
            conflict matches Some(c) ==> {
                &&& final(self).statistics == one_conflict(old(self).statistics)
                &&& (TheoryManager { statistics: old(self).statistics, ..*final(self) }) == *old(self)
                &&& r == if exhausted(final(self).statistics, old(self).max_conflicts) {
                    TheoryReply::Consistent
                } else {
                    TheoryReply::Conflict(c)
                }
            },
    {
        match conflict {
            Some(c) => if self.count_conflict() {
                TheoryReply::Consistent
            } else {
                TheoryReply::Conflict(c)
            },
            None => TheoryReply::Consistent,
        }
    }

    /// Keeps propagations of the theories for the search.
    pub fn buffer_propagations(&mut self, mut props: Vec<(Lit, LitList)>)
        ensures
            final(self).pending_theory_propagations@ == old(self).pending_theory_propagations@ + props@,
            (TheoryManager { pending_theory_propagations: old(self).pending_theory_propagations, ..*final(self) }) == *old(self),
    {
        self.pending_theory_propagations.append(&mut props);
    }

    /// The step at a fixpoint of the search once the pending assignments were handed out: the
    /// conflict that they led to, else the latest open propagation, else nothing.
    pub fn after_drain(&mut self, conflict: Option<LitList>) -> (r: TheoryStep)
        requires
            old(self).has_room(),
        ensures
            conflict matches Some(c) ==> (r matches TheoryStep::Conflict { explanation } && explanation@ == c@)
                && final(self).pending_theory_propagations@.len() == 0 && final(self).statistics == one_conflict(
                old(self).statistics,
            ),
            conflict is None ==> {
                let list = old(self).pending_theory_propagations@;
                let i = last_open(list, old(self).assigned_phase@, list.len() as int);
                &&& i >= 0 ==> (r matches TheoryStep::Propagate { lit, explanation } && lit == list[i].0 && explanation@ == opposites(
                    list[i].1@,
                ))
                &&& i >= 0 ==> final(self).pending_theory_propagations@ == list.take(i)
                &&& i < 0 ==> r is Proceed && final(self).pending_theory_propagations@.len() == 0
                &&& final(self).statistics == old(self).statistics
            },
            *final(self) == (TheoryManager { pending_theory_propagations: final(self).pending_theory_propagations, statistics: final(self).statistics, ..*old(self) }),
    {
        match conflict {
            Some(explanation) => {
                let _ = self.count_conflict();
                self.pending_theory_propagations = Vec::new();
                TheoryStep::Conflict { explanation }
            },
            None => match self.next_emittable_propagation() {
                Some((lit, reason_lits)) => TheoryStep::Propagate { lit, explanation: theory_reason_from_clause(&reason_lits) },
                None => TheoryStep::Proceed,
            },
        }
    }

    /// What the theories say of the whole assignment, given their answers: a conflict of the theory
    /// of equality, one that its equalities make in arithmetic, and the answer of arithmetic with
    /// whether a conflict of it rests on an outdated bound. Where neither has a conflict, their
    /// combination decides. Where arithmetic could not tell, the assignment stands unconfirmed.
    pub fn theory_consistency_check(
        &mut self,
        euf: Option<Vec<TermId>>,
        equalities: Option<LitList>,
        arith: ArithReply,
        stale: bool,
    ) -> (r: Battery)
        requires
            old(self).has_room(),
        ensures
            *final(self) == (TheoryManager { last_check_unconfirmed: final(self).last_check_unconfirmed, statistics: final(self).statistics, ..*old(self) }),
            final(self).last_check_unconfirmed == (euf is None && equalities is None && (arith is Unknown || arith is Failed)),
            euf matches Some(terms) ==> {
                &&& final(self).statistics == one_conflict(old(self).statistics)
                &&& if exhausted(final(self).statistics, old(self).max_conflicts) {
                    r == Battery::Told(TheoryReply::Consistent)
                } else {
                    r matches Battery::Told(TheoryReply::Conflict(c)) && c@ == conflict_clause(
                        old(self).term_to_var@,
                        old(self).assigned_phase@,
                        terms@,
                        terms@.len() as int,
                    )
                }
            },
            euf is None && equalities is Some ==> {
                &&& final(self).statistics == one_conflict(old(self).statistics)
                &&& r matches Battery::Told(TheoryReply::Conflict(c)) && c@ == equalities->0@
            },
            euf is None && equalities is None ==> match arith {
                ArithReply::Sat | ArithReply::Propagate => r is Combine && final(self).statistics == old(self).statistics,
                ArithReply::Unknown | ArithReply::Failed => r == Battery::Told(TheoryReply::Consistent) && final(self).statistics == old(self).statistics,
                ArithReply::Unsat(terms) => if old(self).suppress_stale_bounds && stale {
                    r is Combine && final(self).statistics == old(self).statistics
                } else {
                    &&& final(self).statistics == one_conflict(old(self).statistics)
                    &&& if exhausted(final(self).statistics, old(self).max_conflicts) {
                        r == Battery::Told(TheoryReply::Consistent)
                    } else {
                        r matches Battery::Told(TheoryReply::Conflict(c)) && c@ == conflict_clause(
                            old(self).term_to_var@,
                            old(self).assigned_phase@,
                            terms@,
                            terms@.len() as int,
                        )
                    }
                },
            },
    {
        self.last_check_unconfirmed = false;
        if let Some(terms) = euf {
            let lits = self.terms_to_conflict_clause(&terms);
            if self.count_conflict() {
                return Battery::Told(TheoryReply::Consistent);
            }
            return Battery::Told(TheoryReply::Conflict(lits));
        }
        if let Some(lits) = equalities {
            let _ = self.count_conflict();
            return Battery::Told(TheoryReply::Conflict(lits));
        }
        match arith {
            ArithReply::Sat | ArithReply::Propagate => Battery::Combine,
            ArithReply::Unsat(terms) => {
                if self.suppress_stale_bounds && stale {
                    return Battery::Combine;
                }
                let lits = self.terms_to_conflict_clause(&terms);
                if self.count_conflict() {
                    return Battery::Told(TheoryReply::Consistent);
                }
                Battery::Told(TheoryReply::Conflict(lits))
            },
            ArithReply::Unknown | ArithReply::Failed => {
                self.last_check_unconfirmed = true;
                Battery::Told(TheoryReply::Consistent)
            },
        }
    }

    /// The step once every variable is assigned: the conflict that the drained assignments led to,
    /// else that of the consultation of the theories, else nothing.
    pub fn final_check_complete(&mut self, drained: Option<LitList>, reply: TheoryReply) -> (r: TheoryStep)
        requires
            old(self).has_room(),
        ensures
            drained matches Some(c) ==> (r matches TheoryStep::Conflict { explanation } && explanation@ == c@)
                && final(self).pending_theory_propagations@.len() == 0 && final(self).statistics == one_conflict(
                old(self).statistics,
            ),
            *final(self) == (TheoryManager { pending_theory_propagations: final(self).pending_theory_propagations, statistics: final(self).statistics, ..*old(self) }),
            drained is None ==> *final(self) == *old(self) && match reply {
                TheoryReply::Consistent => r is Proceed,
                TheoryReply::Conflict(c) => r == (TheoryStep::Conflict { explanation: c }),
            },
    {
        match drained {
            Some(explanation) => {
                let _ = self.count_conflict();
                self.pending_theory_propagations = Vec::new();
                TheoryStep::Conflict { explanation }
            },
            None => match reply {
                TheoryReply::Consistent => TheoryStep::Proceed,
                TheoryReply::Conflict(explanation) => TheoryStep::Conflict { explanation },
            },
        }
    }

    /// Whether the last answer let an assignment stand that no theory confirmed.
    pub fn last_check_unconfirmed(&self) -> (r: bool)
        ensures
            r == self.last_check_unconfirmed,
    {
        self.last_check_unconfirmed
    }

    /// Keeps an equality to pass on.
    pub fn add_shared_equality(&mut self, lhs: TermId, rhs: TermId, reason: Option<TermId>)
        ensures
            final(self).pending_equalities@ == old(self).pending_equalities@.push(EqualityNotification { lhs, rhs, reason }),
            *final(self) == (TheoryManager { pending_equalities: final(self).pending_equalities, ..*old(self) }),
    {
        self.pending_equalities.push(EqualityNotification { lhs, rhs, reason });
    }

    /// The latest kept equality that was not passed on before, in either order of its sides.
    pub fn next_equality(&mut self) -> (r: Option<EqualityNotification>)
        ensures
            ({
                let list = old(self).pending_equalities@;
                let done = old(self).processed_equalities@;
                let i = last_fresh(list, done, list.len() as int);
                &&& r is Some <==> i >= 0
                &&& r matches Some(e) ==> e == list[i] && final(self).pending_equalities@ == list.take(i)
                    && final(self).processed_equalities@ == done.insert(equality_key(e))
                &&& r is None ==> final(self).pending_equalities@.len() == 0 && final(self).processed_equalities@ == done
            }),
            *final(self) == (TheoryManager { pending_equalities: final(self).pending_equalities, processed_equalities: final(self).processed_equalities, ..*old(self) }),
    {
        let ghost list = self.pending_equalities@;
        let ghost done = self.processed_equalities@;
        let ghost n = list.len() as int;
        assert(list.take(n) =~= list);
        loop
            invariant
                list == old(self).pending_equalities@,
                done == old(self).processed_equalities@,
                self.processed_equalities@ == done,
                n == list.len(),
                self.pending_equalities@.len() <= n,
                self.pending_equalities@ == list.take(self.pending_equalities@.len() as int),
                last_fresh(list, done, n) == last_fresh(list, done, self.pending_equalities@.len() as int),
                *self == (TheoryManager { pending_equalities: self.pending_equalities, processed_equalities: self.processed_equalities, ..*old(self) }),
            ensures
                *self == (TheoryManager { pending_equalities: self.pending_equalities, processed_equalities: self.processed_equalities, ..*old(self) }),
                self.processed_equalities@ == done,
                self.pending_equalities@.len() == 0,
                last_fresh(list, done, n) == -1,
            decreases self.pending_equalities@.len(),
        {
            let ghost k = self.pending_equalities@.len() as int;
            match self.pending_equalities.pop() {
                Some(e) => {
                    proof {
                        assert(e == list[k - 1]);
                        assert(self.pending_equalities@ =~= list.take(k - 1));
                    }
                    let key = if e.lhs < e.rhs {
                        (e.lhs, e.rhs)
                    } else {
                        (e.rhs, e.lhs)
                    };
                    if pair_set_insert(&mut self.processed_equalities, key) {
                        return Some(e);
                    }
                    assert(self.processed_equalities@ =~= done);
                },
                None => {
                    break;
                },
            }
        }
        None
    }

    /// The proposals which variable to decide next: none.
    pub fn get_decision_hints(&self) -> (r: Vec<TheoryDecision>)
        ensures
            r@.len() == 0,
    {
        Vec::new()
    }

    /// The first introduced integer literal that a fixed value of a term equals, if the value is an
    /// integer of 64 bits that occurs.
    pub fn entailed_constant(&self, m: &TermManager, value: Rat) -> (r: Option<TermId>)
        requires
            self.wf(m),
            value.wf(),
        ensures
            r == constant_of(self.euf.ints@, value),
            r matches Some(t) ==> self.euf.interned@.contains(t) && crate::euf::int_value(m, t) is Some && crate::euf::int_value(m, t)->0
                == value.numer as int / value.denom as int,
    {
        let rest: i128 = value.numer % value.denom;
        proof {
            lemma_remainder(value.numer, value.denom);
        }
        if rest != 0 {
            assert(forall|i: int| !#[trigger] is_place(self.euf.ints@, value, i));
            return None;
        }
        let whole: i128 = value.numer / value.denom;
        let mut i: usize = 0;
        while i < self.euf.ints.len()
            invariant
                i <= self.euf.ints.len(),
                self.wf(m),
                whole == value.numer as int / value.denom as int,
                value.numer as int % value.denom as int == 0,
                forall|k: int| 0 <= k < i ==> (#[trigger] self.euf.ints@[k]).0 != whole,
            decreases self.euf.ints.len() - i,
        {
            if self.euf.ints[i].0 as i128 == whole {
                assert(is_place(self.euf.ints@, value, i as int));
                proof {
                    let k = choose|k: int| is_place(self.euf.ints@, value, k);
                    assert(is_place(self.euf.ints@, value, k));
                    assert(self.euf.ints@[i as int].0 == self.euf.ints@[k].0);
                }
                return Some(self.euf.ints[i].1);
            }
            i = i + 1;
        }
        assert(forall|k: int| !#[trigger] is_place(self.euf.ints@, value, k));
        None
    }
}

/// The literal at position `i` has the given value.
pub open spec fn is_place(ints: Seq<(i64, TermId)>, value: Rat, i: int) -> bool {
    &&& 0 <= i < ints.len()
    &&& value.numer as int % value.denom as int == 0
    &&& ints[i].0 == value.numer as int / value.denom as int
}

/// The integer literal with the given value, if one was introduced.
pub open spec fn constant_of(ints: Seq<(i64, TermId)>, value: Rat) -> Option<TermId> {
    if exists|i: int| is_place(ints, value, i) {
        Some(ints[choose|i: int| is_place(ints, value, i)].1)
    } else {
        None
    }
}

/// A remainder is zero however division rounds.
proof fn lemma_remainder(n: i128, d: i128)
    requires
        d > 0,
    ensures
        n < 0 ==> ((-n) % d as int == 0 <==> n as int % d as int == 0),
        n < 0 && n as int % d as int == 0 ==> -((-n) / d as int) == n as int / d as int,
{
    let a: int = n as int;
    let b: int = d as int;
    if n < 0 {
        let q: int = (-a) / b;
        let p: int = a / b;
        assert(-a == b * q + (-a) % b) by (nonlinear_arith)
            requires
                b > 0,
                q == (-a) / b,
        ;
        assert(a == b * p + a % b) by (nonlinear_arith)
            requires
                b > 0,
                p == a / b,
        ;
        if (-a) % b == 0 {
            assert(a == b * (-q)) by (nonlinear_arith)
                requires
                    -a == b * q,
            ;
            assert(a % b == 0 && a / b == -q) by (nonlinear_arith)
                requires
                    a == b * (-q),
                    b > 0,
            ;
        }
        if a % b == 0 {
            assert(-a == b * (-p)) by (nonlinear_arith)
                requires
                    a == b * p,
            ;
            assert((-a) % b == 0 && (-a) / b == -p) by (nonlinear_arith)
                requires
                    -a == b * (-p),
                    b > 0,
            ;
        }
    }
}

/// The pending assignments with a constraint, among the first `k`.
pub open spec fn drained(list: Seq<(Lit, bool)>, constraints: Map<usize, Constraint>, k: int) -> Seq<(Var, Constraint, bool)>
    decreases k,
{
    if k <= 0 {
        Seq::empty()
    } else if constraints.contains_key(list[k - 1].0.var) {
        drained(list, constraints, k - 1).push((list[k - 1].0.var, constraints[list[k - 1].0.var], list[k - 1].1))
    } else {
        drained(list, constraints, k - 1)
    }
}

/// The position of the last equality among the first `k` that was not passed on, or -1.
pub open spec fn last_fresh(list: Seq<EqualityNotification>, done: Set<(usize, usize)>, k: int) -> int
    decreases k,
{
    if k <= 0 {
        -1
    } else if !done.contains(equality_key(list[k - 1])) {
        k - 1
    } else {
        last_fresh(list, done, k - 1)
    }
}

/// What outlives the solving is all that the theories were told and know of variables: two managers
/// with the same parts have the same of it.
pub proof fn law_parts_are_what_is_known(a: &TheoryManager, b: &TheoryManager)
    requires
        a.parts() == b.parts(),
    ensures
        a.euf == b.euf,
        a.bv == b.bv,
        a.bv_terms == b.bv_terms,
        a.var_to_constraint == b.var_to_constraint,
        a.var_to_parsed_arith == b.var_to_parsed_arith,
        a.term_to_var == b.term_to_var,
        a.var_to_term == b.var_to_term,
        a.statistics == b.statistics,
{
}

} // verus!
