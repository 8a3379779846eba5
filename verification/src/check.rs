//! The decisions of a check. A check goes in steps: the solver says what to ask of a search or an
//! engine next, is told the answer, and in the end gives its verdict.
use crate::assertion::binds_in;
use crate::assertion::lemma_occurs_stays;
use crate::assertion::lemma_reductions_stay;
use crate::axioms::Axiom;
use crate::axioms::enriched;
use crate::axioms::field_stated;
use crate::axioms::lemma_enriched;
use crate::axioms::lemma_extended_twice;
use crate::axioms::lemma_stated_stays;
use crate::axioms::stated;
use crate::axioms::takes;
use crate::axioms::test_stated;
use crate::axioms::tests;
use crate::context::Mark;
use crate::context::RecordsView;
use crate::context::lemma_reverts;
use crate::context::lemma_reverts_self;
use crate::dt_axioms::field_quantified;
use crate::dt_check::asserted_facts;
use crate::dt_check::check_dt_constraints;
use crate::dt_check::collect_var_ctor_bindings;
use crate::dt_check::dt_verdict;
use crate::dt_check::is_closing;
use crate::dt_check::is_closure;
use crate::dt_closure::DtEqualityClosure;
use crate::dt_closure::is_primary;
use crate::emission::quantified;
use crate::encode::lemma_linked_extends;
use crate::encoder::lemma_advances_self;
use crate::euf::lemma_plan_extends;
use crate::maps::map_keys;
use crate::semantics::is_bool;
use crate::session::law_verdict_is_no_part_of_a_context;
use crate::solver::Solver;
use crate::solver::lemma_clauses_kept;
use crate::spine::NlPlan;
use crate::spine::bridge_plan;
use crate::spine::dispatch_nl_solver;
use crate::spine::route;
use crate::squares::asserted_atoms;
use crate::squares::check_nonlinear_constraints;
use crate::squares::contradictory;
use crate::squares::nonlinear_logic;
use crate::term::TermId;
use crate::term::TermManager;
use crate::term::copy_ids;
use crate::track::lemma_extended_self;
use crate::unsat::UnsatCore;
use crate::unsat::all_indices;
use crate::unsat::all_names;
use crate::unsat::build_unsat_core;
use crate::unsat::build_unsat_core_trivial_false;
use crate::unsat::false_positions;
use crate::unsat::names_at;
use crate::verdict::SolverResult;
use crate::walk::occurs;
use crate::walk::occurs_in;
use rustc_hash::FxHashMap;
use vstd::prelude::*;

verus! {

/// Selector applications and tests of the assertions that bindings of variables decide have been
/// decided by clauses, as far as that had not been done before.
pub open spec fn reduces(m: &TermManager, before: &Solver, binds: Map<usize, TermId>, later: &TermManager, after: &Solver) -> bool {
    let roots = before.records.assertions@;
    let n = roots.len() as int;
    &&& enriched(binds, m, &before.encoder, later, &after.encoder)
    &&& after.records@ == (RecordsView { selected: after.records@.selected, tested: after.records@.tested, ..before.records@ })
    &&& forall|x: usize| #[trigger]
        after.records@.selected.contains(x) <==> before.records@.selected.contains(x) || (occurs_in(m, roots, n, x) && takes(m, binds, x) is Some)
    &&& forall|x: usize| #[trigger]
        after.records@.tested.contains(x) <==> before.records@.tested.contains(x) || (occurs_in(m, roots, n, x) && tests(m, binds, x) is Some)
    &&& forall|x: usize| #[trigger]
        after.records@.selected.contains(x) && !before.records@.selected.contains(x) ==> is_selected_under(later, after, binds, x)
    &&& forall|x: usize| #[trigger]
        after.records@.tested.contains(x) && !before.records@.tested.contains(x) ==> is_tested_under(later, after, binds, x)
    &&& after.encoder.has_quantifiers == (before.encoder.has_quantifiers || reduction_quantified(m, before, binds))
}

/// A selector application of the assertions, itself a formula, comes to a field that brings a
/// quantified formula, and has not been equated with it before.
pub open spec fn reduction_quantified(m: &TermManager, s: &Solver, binds: Map<usize, TermId>) -> bool {
    let roots = s.records.assertions@;
    exists|x: usize| #[trigger]
        occurs_in(m, roots, roots.len() as int, x) && takes(m, binds, x) is Some && !s.records@.selected.contains(x) && is_bool(m, x)
            && quantified(m, takes(m, binds, x)->0)
}

/// That a selector application equals its field has been stated, under bindings of variables.
pub open spec fn is_selected_under(m: &TermManager, s: &Solver, binds: Map<usize, TermId>, t: TermId) -> bool {
    exists|start: TermManager| #[trigger] field_stated(&start, binds, m, &s.encoder, t)
}

/// The outcome of a test has been stated, under bindings of variables.
pub open spec fn is_tested_under(m: &TermManager, s: &Solver, binds: Map<usize, TermId>, t: TermId) -> bool {
    exists|start: TermManager| #[trigger] test_stated(&start, binds, m, &s.encoder, t)
}

/// A statement stays.
proof fn lemma_selected_stays(binds: Map<usize, TermId>, m1: &TermManager, s1: &Solver, m2: &TermManager, s2: &Solver, t: TermId)
    requires
        enriched(binds, m1, &s1.encoder, m2, &s2.encoder),
        m1.wf(),
        s1.encoder.wf(),
        is_selected_under(m1, s1, binds, t),
    ensures
        is_selected_under(m2, s2, binds, t),
{
    let start = choose|start: TermManager| #[trigger] field_stated(&start, binds, m1, &s1.encoder, t);
    let eq = choose|eq: TermId| #[trigger]
        stated(
            &start,
            binds,
            m1,
            &s1.encoder,
            Axiom::Field { term: t, value: takes(&start, binds, t)->0, eq },
        );
    lemma_stated_stays(
        &start,
        binds,
        m1,
        m2,
        &s1.encoder,
        &s2.encoder,
        Axiom::Field { term: t, value: takes(&start, binds, t)->0, eq },
    );
    assert(field_stated(&start, binds, m2, &s2.encoder, t));
}

impl Solver {
    /// Decides selector applications and tests of all assertions by bindings of variables: a
    /// variable may be bound by one assertion and selected from in another.
    pub fn add_dt_indirect_var_reduction_axioms(&mut self, binds: &FxHashMap<usize, TermId>, m: &mut TermManager)
        requires
            old(self).wf(old(m)),
            binds_in(old(m), binds@),
        ensures
            final(self).wf(final(m)),
            old(self).reverts(final(self)),
            (Solver { records: old(self).records, encoder: old(self).encoder, ..*final(self) }) == *old(self),
            (binds@ == Map::<usize, TermId>::empty() ==> *final(self) == *old(self) && *final(m) == *old(m)),
            (binds@ != Map::<usize, TermId>::empty() ==> reduces(old(m), old(self), binds@, final(m), final(self))),
    {
        let ghost m0 = *m;
        let ghost s0 = *self;
        let keys = map_keys(binds);
        if keys.len() == 0 {
            proof {
                assert forall|k: usize| !(#[trigger] binds@.contains_key(k)) by {
                    assert(!keys@.contains(k));
                }
                assert(binds@ =~= Map::<usize, TermId>::empty());
                lemma_reverts_self(&self.records);
                lemma_advances_self(&self.encoder);
                lemma_clauses_kept(self, self);
            }
            return;
        }
        assert(keys@.contains(keys@[0]));
        let roots = copy_ids(&self.records.assertions);
        let fields = self.encoder.add_dt_selector_reduction_axioms_over(&roots, binds, m, &mut self.records.dt_selector_reduced);
        self.records.note_marks(&fields, Mark::Select, Ghost(s0.records));
        let ghost m1 = *m;
        let ghost s1 = *self;
        let decided = self.encoder.add_dt_tester_reduction_axioms_over(&roots, binds, m, &mut self.records.dt_tester_reduced);
        self.records.note_marks(&decided, Mark::Test, Ghost(s1.records));
        proof {
            let n = roots@.len() as int;
            if field_quantified(&m0, binds@, fields@) {
                let x = choose|x: TermId| #[trigger]
                    fields@.contains(x) && is_bool(&m0, x) && quantified(&m0, takes(&m0, binds@, x)->0);
                assert(occurs_in(&m0, roots@, n, x));
            }
            if reduction_quantified(&m0, &s0, binds@) {
                let x = choose|x: usize| #[trigger]
                    occurs_in(&m0, roots@, n, x) && takes(&m0, binds@, x) is Some && !s0.records@.selected.contains(x) && is_bool(&m0, x)
                        && quantified(&m0, takes(&m0, binds@, x)->0);
                assert(fields@.contains(x));
            }
            lemma_reverts(&s0.records, &s1.records, &self.records);
            lemma_enriched(binds@, &m0, &s0.encoder, &m1, &s1.encoder, m, &self.encoder);
            lemma_plan_extends(&m0, m, &s0.euf);
            lemma_clauses_kept(&s0, self);
            assert forall|x: usize| #[trigger] self.records@.tested.contains(x) <==> s0.records@.tested.contains(x) || (occurs_in(
                &m0,
                roots@,
                n,
                x,
            ) && tests(&m0, binds@, x) is Some) by {
                lemma_occurs_in_stays(&m0, &m1, roots@, n, x);
                if occurs_in(&m0, roots@, n, x) {
                    lemma_reductions_stay(&m0, &m1, binds@, x);
                }
            }
            assert forall|x: usize| #[trigger]
                self.records@.selected.contains(x) && !s0.records@.selected.contains(x) implies is_selected_under(m, self, binds@, x) by {
                assert(fields@.contains(x));
                assert(field_stated(&m0, binds@, &m1, &s1.encoder, x));
                lemma_selected_stays(binds@, &m1, &s1, m, self, x);
            }
            assert forall|x: usize| #[trigger]
                self.records@.tested.contains(x) && !s0.records@.tested.contains(x) implies is_tested_under(m, self, binds@, x) by {
                assert(decided@.contains(x));
                assert(test_stated(&m1, binds@, m, &self.encoder, x));
            }
            assert forall|i: int| 0 <= i < self.records.assertions@.len() implies m.has(#[trigger] self.records.assertions@[i]) by {
                assert(m0.has(s0.records.assertions@[i]));
            }
        }
    }
}

/// What stands under terms does not change when the store grows.
proof fn lemma_occurs_in_stays(m: &TermManager, later: &TermManager, roots: Seq<TermId>, n: int, x: TermId)
    requires
        m.wf(),
        m.extended_by(later),
        n <= roots.len(),
        forall|i: int| 0 <= i < roots.len() ==> m.has(#[trigger] roots[i]),
    ensures
        occurs_in(later, roots, n, x) == occurs_in(m, roots, n, x),
        occurs_in(m, roots, n, x) ==> m.has(x),
{
    assert forall|i: int| 0 <= i < n implies occurs(later, #[trigger] roots[i], x) == occurs(m, roots[i], x) && (occurs(m, roots[i], x)
        ==> m.has(x)) by {
        lemma_occurs_stays(m, later, roots[i], x);
    }
    if occurs_in(m, roots, n, x) {
        let i = choose|i: int| 0 <= i < n && occurs(m, #[trigger] roots[i], x);
        assert(occurs(later, roots[i], x));
    }
    if occurs_in(later, roots, n, x) {
        let i = choose|i: int| 0 <= i < n && occurs(later, #[trigger] roots[i], x);
        assert(occurs(m, roots[i], x));
    }
}

/// Conflicts that other checks of the assertions found.
#[derive(Clone, Copy, Debug, PartialEq, Eq, Structural)]
pub struct EarlyConflicts {
    pub strings: bool,
    pub floats: bool,
    pub arrays: bool,
    pub bits: bool,
}

/// How a check goes on.
#[derive(Debug)]
pub enum CheckStep {
    /// The check has ended.
    Done(SolverResult),
    /// Ask a solver for polynomial constraints.
    AskNonlinear(NlPlan),
    /// Search for an assignment.
    Search,
}

/// A limit has been reached; zero is none.
pub open spec fn is_spent(limit: u64, count: u64) -> bool {
    limit > 0 && count >= limit
}

/// How a check goes on once a solver for polynomial constraints has been asked or none is to be.
pub open spec fn next_step(m: &TermManager, s: &Solver, found: Option<SolverResult>) -> CheckStep {
    let assertions = s.records.assertions@;
    if found == Some(SolverResult::Sat) {
        CheckStep::Done(SolverResult::Sat)
    } else if found == Some(SolverResult::Unsat) {
        CheckStep::Done(SolverResult::Unsat)
    } else if nonlinear_logic(s.logic) && contradictory(asserted_atoms(m, assertions, assertions.len() as int)) {
        CheckStep::Done(SolverResult::Unsat)
    } else if is_spent(s.config.max_conflicts, s.statistics.conflicts) || is_spent(s.config.max_decisions, s.statistics.decisions) {
        CheckStep::Done(SolverResult::Unknown)
    } else {
        CheckStep::Search
    }
}

/// What to ask a solver for polynomial constraints about the assertions.
pub open spec fn asks(m: &TermManager, s: &Solver, later: &TermManager, plan: NlPlan) -> bool {
    let assertions = s.records.assertions@;
    &&& s.logic is None ==> bridge_plan(m, later, assertions, plan)
    &&& s.logic matches Some(l) ==> *later == *m && match route(m, assertions, l@) {
        Some(e) => plan matches NlPlan::Ask { engine, atoms, focused } && engine == e && atoms@ == assertions && !focused,
        None => plan is Skip,
    }
}

/// The set of assertions that are the term `false`, if sets are to be produced.
pub open spec fn is_trivial_core(s: &Solver, core: Option<UnsatCore>) -> bool {
    let assertions = s.records.assertions@;
    &&& core is Some <==> s.produce_unsat_cores
    &&& core matches Some(c) ==> c.indices@ == false_positions(assertions, assertions.len() as int) && c.names@ == names_at(
        s.records.named_assertions@,
        c.indices@,
        c.indices@.len() as int,
    )
}

/// The set of all named assertions, if sets are to be produced.
pub open spec fn is_full_core(s: &Solver, core: Option<UnsatCore>) -> bool {
    let named = s.records.named_assertions@;
    &&& core is Some <==> s.produce_unsat_cores
    &&& core matches Some(c) ==> c.indices@ == all_indices(named, named.len() as int) && c.names@ == all_names(
        named,
        named.len() as int,
    )
}

/// A check has ended with the verdict that the assertions are unsatisfiable: there is no model, and
/// all named assertions are the set of unsatisfiable ones.
pub open spec fn ends_unsat(s: &Solver, after: &Solver) -> bool {
    *after == (Solver { model: None, unsat_core: after.unsat_core, refuted: true, ..*s }) && is_full_core(s, after.unsat_core)
}

/// The solver without what an earlier check found.
pub open spec fn forgotten(s: &Solver) -> Solver {
    Solver { model: None, unsat_core: None, refuted: false, ..*s }
}

/// How a check goes on once a solver for polynomial constraints has been asked or none is to be,
/// and what it leaves.
pub open spec fn goes_on(m: &TermManager, s: &Solver, found: Option<SolverResult>, after: &Solver, r: CheckStep) -> bool {
    &&& r == next_step(m, s, found)
    &&& r == CheckStep::Done(SolverResult::Unsat) ==> ends_unsat(s, after)
    &&& r == CheckStep::Done(SolverResult::Unknown) ==> *after == (Solver { model: None, ..*s })
    &&& r == CheckStep::Done(SolverResult::Sat) || r is Search ==> *after == *s
}

/// How a check begins: without what an earlier one found, with what is false or empty, with the conflicts that other checks found of
/// strings and floating-point numbers, and with the check of datatypes.
pub open spec fn begins(
    m: &TermManager,
    before: &Solver,
    early: EarlyConflicts,
    later: &TermManager,
    after: &Solver,
    r: CheckStep,
) -> bool {
    let s = &forgotten(before);
    if s.records.has_false_assertion {
        &&& r == CheckStep::Done(SolverResult::Unsat)
        &&& *later == *m
        &&& *after == (Solver { unsat_core: after.unsat_core, refuted: true, ..*s })
        &&& is_trivial_core(s, after.unsat_core)
    } else if s.records.assertions@.len() == 0 {
        r == CheckStep::Done(SolverResult::Sat) && *later == *m && *after == *s
    } else if early.strings || early.floats {
        r == CheckStep::Done(SolverResult::Unsat) && *later == *m && ends_unsat(s, after)
    } else {
        ||| dt_verdict(m, s.records.assertions@, true) && r == CheckStep::Done(SolverResult::Unsat) && *later == *m && ends_unsat(s, after)
        ||| dt_verdict(m, s.records.assertions@, false) && reduces_and_asks(m, s, early, later, after, r)
    }
}

/// How a check goes on after the check of datatypes: selectors and tests are decided by what the
/// assertions bind variables to, the conflicts that other checks found of arrays and bit vectors
/// count, and a solver for polynomial constraints may be asked.
pub open spec fn reduces_and_asks(
    m: &TermManager,
    s: &Solver,
    early: EarlyConflicts,
    later: &TermManager,
    after: &Solver,
    r: CheckStep,
) -> bool {
    exists|c: DtEqualityClosure, mid: TermManager, reduced: Solver| #[trigger]
        is_reduction(m, s, c, &mid, &reduced) && if early.arrays || early.bits {
            r == CheckStep::Done(SolverResult::Unsat) && *later == mid && ends_unsat(&reduced, after)
        } else {
            exists|plan: NlPlan| #[trigger]
                asks(&mid, &reduced, later, plan) && match plan {
                    NlPlan::Ask { .. } => r == CheckStep::AskNonlinear(plan) && *after == reduced,
                    NlPlan::Skip => goes_on(later, &reduced, None, after, r),
                }
        }
}

/// Selectors and tests have been decided by what the assertions bind variables to.
pub open spec fn is_reduction(m: &TermManager, s: &Solver, c: DtEqualityClosure, mid: &TermManager, after: &Solver) -> bool {
    let binds = c.primary_bindings@;
    &&& is_closure(m, asserted_facts(m, s.records.assertions@), c.closed_eqs@)
    &&& is_closing(m, asserted_facts(m, s.records.assertions@), c.state())
    &&& c.bindings_ok(m)
    &&& (binds == Map::<usize, TermId>::empty() ==> *after == *s && *mid == *m)
    &&& (binds != Map::<usize, TermId>::empty() ==> reduces(m, s, binds, mid, after))
    &&& *after == (Solver { records: after.records, encoder: after.encoder, ..*s })
}

impl Solver {
    /// Begins a check, given the conflicts that other checks of the assertions found.
    pub fn check(&mut self, m: &mut TermManager, early: EarlyConflicts) -> (r: CheckStep)
        requires
            old(self).wf(old(m)),
        ensures
            final(self).wf(final(m)),
            old(m).extended_by(final(m)),
            old(self).reverts(final(self)),
            begins(old(m), old(self), early, final(m), final(self), r),
            r == CheckStep::Done(SolverResult::Unsat) ==> final(self).model is None && (final(self).unsat_core is Some
                <==> old(self).produce_unsat_cores),
            r matches CheckStep::Done(_) ==> final(self).model is None,
            r == CheckStep::Done(SolverResult::Unsat) <==> final(self).refuted,
    {
        self.model = None;
        self.unsat_core = None;
        self.refuted = false;
        let ghost m0 = *m;
        let ghost s0 = *self;
        proof {
            lemma_extended_self(m);
            lemma_reverts_self(&self.records);
            lemma_advances_self(&self.encoder);
            lemma_clauses_kept(self, self);
        }
        if self.records.has_false_assertion {
            self.refuted = true;
            self.unsat_core = build_unsat_core_trivial_false(
                &self.records.assertions,
                &self.records.named_assertions,
                self.produce_unsat_cores,
            );
            return CheckStep::Done(SolverResult::Unsat);
        }
        if self.records.assertions.len() == 0 {
            return CheckStep::Done(SolverResult::Sat);
        }
        if early.strings || early.floats {
            self.end_unsat();
            return CheckStep::Done(SolverResult::Unsat);
        }
        if check_dt_constraints(m, &self.records.assertions) {
            self.end_unsat();
            return CheckStep::Done(SolverResult::Unsat);
        }
        let c = collect_var_ctor_bindings(m, &self.records.assertions);
        proof {
            assert forall|v: usize| #[trigger] c.primary_bindings@.contains_key(v) implies m.has(c.primary_bindings@[v]) by {
                assert(is_primary(m, c.closed_eqs@, v, c.primary_bindings@[v]));
            }
        }
        self.add_dt_indirect_var_reduction_axioms(&c.primary_bindings, m);
        let ghost m1 = *m;
        let ghost s1 = *self;
        assert(is_reduction(&m0, &s0, c, &m1, &s1));
        if early.arrays || early.bits {
            self.end_unsat();
            return CheckStep::Done(SolverResult::Unsat);
        }
        let plan = dispatch_nl_solver(m, &self.records.assertions, &self.logic);
        proof {
            lemma_extended_twice(&m0, &m1, m);
            lemma_linked_extends(&m1, m, &self.encoder);
            lemma_plan_extends(&m1, m, &self.euf);
            assert forall|i: int| 0 <= i < self.records.assertions@.len() implies m.has(#[trigger] self.records.assertions@[i]) by {
                assert(m1.has(self.records.assertions@[i]));
            }
            assert(asks(&m1, &s1, m, plan));
        }
        match plan {
            NlPlan::Skip => self.after_nonlinear(m, None),
            _ => CheckStep::AskNonlinear(plan),
        }
    }

    /// How a check goes on, given the answer of a solver for polynomial constraints.
    pub fn after_nonlinear(&mut self, m: &TermManager, found: Option<SolverResult>) -> (r: CheckStep)
        requires
            old(self).wf(m),
        ensures
            final(self).wf(m),
            old(self).reverts(final(self)),
            goes_on(m, old(self), found, final(self), r),
    {
        proof {
            law_verdict_is_no_part_of_a_context(self, self);
        }
        match found {
            Some(SolverResult::Sat) => {
                return CheckStep::Done(SolverResult::Sat);
            },
            Some(SolverResult::Unsat) => {
                self.end_unsat();
                return CheckStep::Done(SolverResult::Unsat);
            },
            _ => {},
        }
        if check_nonlinear_constraints(m, &self.records.assertions, &self.logic) {
            self.end_unsat();
            return CheckStep::Done(SolverResult::Unsat);
        }
        if self.config.max_conflicts > 0 && self.statistics.conflicts >= self.config.max_conflicts {
            return CheckStep::Done(self.give_up());
        }
        if self.config.max_decisions > 0 && self.statistics.decisions >= self.config.max_decisions {
            return CheckStep::Done(self.give_up());
        }
        CheckStep::Search
    }

    /// Ends a check that found the assertions unsatisfiable.
    pub(crate) fn end_unsat(&mut self)
        ensures
            ends_unsat(old(self), final(self)),
            old(self).reverts(final(self)),
    {
        self.model = None;
        self.refuted = true;
        self.unsat_core = build_unsat_core(&self.records.named_assertions, self.produce_unsat_cores);
        proof {
            law_verdict_is_no_part_of_a_context(old(self), self);
        }
    }

    /// Ends a check without a verdict, such as when its time is over.
    pub fn give_up(&mut self) -> (r: SolverResult)
        ensures
            r == SolverResult::Unknown,
            *final(self) == (Solver { model: None, ..*old(self) }),
            old(self).reverts(final(self)),
    {
        self.model = None;
        proof {
            law_verdict_is_no_part_of_a_context(old(self), self);
        }
        SolverResult::Unknown
    }
}

} // verus!
