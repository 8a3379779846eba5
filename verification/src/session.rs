//! What a caller sets and asks of a solver, the limits of a check, and the state that the link to
//! the theories takes along.
use crate::axioms::lemma_extended_twice;
use crate::blast::BvPlan;
use crate::check::CheckStep;
use crate::check::EarlyConflicts;
use crate::check::begins;
use crate::cnf::Var;
use crate::config::SolverConfig;
use crate::config::Statistics;
use crate::config::balanced_config;
use crate::config::no_counts;
use crate::context::lemma_reverts_self;
use crate::encode::linked;
use crate::encoder::Constraint;
use crate::encoder::Encoder;
use crate::encoder::lemma_advances_self;
use crate::euf::EufPlan;
use crate::linear::ParsedArithConstraint;
use crate::maps::map_len;
use crate::maps::map_new;
use crate::maps::set_new;
use crate::model::Model;
use crate::resolution::Proof;
use crate::solver::Solver;
use crate::solver::asserted_in_turn;
use crate::solver::began;
use crate::solver::law_pop_undoes_push;
use crate::solver::left;
use crate::solver::lemma_clauses_kept;
use crate::solver::lemma_solver_reverts;
use crate::term::TermId;
use crate::term::TermManager;
use crate::theory::TheoryManager;
use crate::theory::TheoryParts;
use crate::unsat::UnsatCore;
use crate::verdict::SolverResult;
use rustc_hash::FxHashMap;
use rustc_hash::FxHashSet;
use vstd::prelude::*;

verus! {

/// The most conflicts and decisions that a check may take; nothing is no limit.
#[derive(Clone, Copy, Debug, PartialEq, Eq, Structural)]
pub struct ResourceLimits {
    pub max_conflicts: Option<u64>,
    pub max_decisions: Option<u64>,
}

/// What checks have taken.
#[derive(Clone, Copy, Debug, PartialEq, Eq, Structural)]
pub struct ResourceUsage {
    pub conflicts: u64,
    pub decisions: u64,
    pub restarts: u64,
    pub theory_checks: u64,
}

/// The tighter of two limits, where zero is none.
pub open spec fn tighter(current: u64, limit: Option<u64>) -> u64 {
    match limit {
        Some(l) => if current == 0 || l < current {
            l
        } else {
            current
        },
        None => current,
    }
}

/// The tighter of two limits, where zero is none.
fn tighter_of(current: u64, limit: Option<u64>) -> (r: u64)
    ensures
        r == tighter(current, limit),
{
    match limit {
        Some(l) => if current == 0 || l < current {
            l
        } else {
            current
        },
        None => current,
    }
}

/// The settings under limits.
pub open spec fn limited(c: SolverConfig, limits: ResourceLimits) -> SolverConfig {
    SolverConfig {
        max_conflicts: tighter(c.max_conflicts, limits.max_conflicts),
        max_decisions: tighter(c.max_decisions, limits.max_decisions),
        ..c
    }
}

impl Solver {
    /// The proof, if proofs are generated and the last check found the assertions unsatisfiable.
    pub fn get_proof(&self) -> (r: Option<&Proof>)
        ensures
            r == match self.proof_steps {
                Some(p) => if self.refuted {
                    Some(&p)
                } else {
                    None::<&Proof>
                },
                None => None::<&Proof>,
            },
    {
        if !self.refuted {
            return None;
        }
        match &self.proof_steps {
            Some(p) => Some(p),
            None => None,
        }
    }

    /// The counters.
    pub fn get_statistics(&self) -> (r: &Statistics)
        ensures
            *r == self.statistics,
    {
        &self.statistics
    }

    /// Sets the counters to zero.
    pub fn reset_statistics(&mut self)
        ensures
            *final(self) == (Solver { statistics: no_counts(), ..*old(self) }),
    {
        self.statistics.reset();
    }

    /// Says whether theories propose what to decide.
    pub fn set_theory_aware_branching(&mut self, enabled: bool)
        ensures
            *final(self) == (Solver { theory_aware_branching: enabled, ..*old(self) }),
    {
        self.theory_aware_branching = enabled;
    }

    /// Whether theories propose what to decide.
    pub fn theory_aware_branching(&self) -> (r: bool)
        ensures
            r == self.theory_aware_branching,
    {
        self.theory_aware_branching
    }

    /// Says whether sets of unsatisfiable assertions are produced.
    pub fn set_produce_unsat_cores(&mut self, produce: bool)
        ensures
            *final(self) == (Solver { produce_unsat_cores: produce, ..*old(self) }),
    {
        self.produce_unsat_cores = produce;
    }

    /// Lets sets of unsatisfiable assertions be produced.
    pub fn enable_assumption_based_cores(&mut self)
        ensures
            *final(self) == (Solver { produce_unsat_cores: true, ..*old(self) }),
    {
        self.produce_unsat_cores = true;
    }

    /// The set of unsatisfiable assertions of the last check, if there is one.
    pub fn get_unsat_core(&self) -> (r: Option<&UnsatCore>)
        ensures
            r == match self.unsat_core {
                Some(c) => Some(&c),
                None => None::<&UnsatCore>,
            },
    {
        match &self.unsat_core {
            Some(c) => Some(c),
            None => None,
        }
    }

    /// The model of the last check, if there is one.
    pub fn model(&self) -> (r: Option<&Model>)
        ensures
            r == match self.model {
                Some(md) => Some(&md),
                None => None::<&Model>,
            },
    {
        match &self.model {
            Some(md) => Some(md),
            None => None,
        }
    }

    /// Sets the logic.
    pub fn set_logic(&mut self, logic: String)
        ensures
            *final(self) == (Solver { logic: Some(logic), ..*old(self) }),
    {
        self.logic = Some(logic);
    }

    /// Sets the time that a check may take, in milliseconds; what does not fit is cut off.
    #[verifier::spinoff_prover]
    pub fn set_timeout(&mut self, timeout_ms: u128)
        ensures
            *final(self) == (Solver { config: SolverConfig { timeout_ms: timeout_ms as u64, ..old(self).config }, ..*old(self) }),
    {
        self.config.timeout_ms = #[verifier::truncate] (timeout_ms as u64);
    }

    /// Sets the most conflicts that a check may take.
    #[verifier::spinoff_prover]
    pub fn set_conflict_limit(&mut self, max_conflicts: u64)
        ensures
            *final(self) == (Solver { config: SolverConfig { max_conflicts, ..old(self).config }, ..*old(self) }),
    {
        self.config.max_conflicts = max_conflicts;
    }

    /// Sets the most decisions that a check may take.
    #[verifier::spinoff_prover]
    pub fn set_decision_limit(&mut self, max_decisions: u64)
        ensures
            *final(self) == (Solver { config: SolverConfig { max_decisions, ..old(self).config }, ..*old(self) }),
    {
        self.config.max_decisions = max_decisions;
    }

    /// The number of assertions.
    pub fn num_assertions(&self) -> (n: usize)
        ensures
            n == self.records.assertions@.len(),
    {
        self.records.assertions.len()
    }

    /// The number of terms that have a variable.
    pub fn num_variables(&self) -> (n: usize)
        ensures
            n == self.encoder.term_to_var@.dom().len(),
    {
        map_len(&self.encoder.term_to_var)
    }

    /// Whether anything is asserted.
    pub fn has_assertions(&self) -> (r: bool)
        ensures
            r == (self.records.assertions@.len() > 0),
    {
        self.records.assertions.len() > 0
    }

    /// How many contexts have begun and not been left.
    pub fn context_level(&self) -> (n: usize)
        ensures
            n == self.context_stack@.len(),
    {
        self.context_stack.len()
    }

    /// The settings.
    pub fn config(&self) -> (r: &SolverConfig)
        ensures
            *r == self.config,
    {
        &self.config
    }

    /// Sets the settings.
    pub fn set_config(&mut self, config: SolverConfig)
        ensures
            *final(self) == (Solver { config, ..*old(self) }),
    {
        self.config = config;
    }

    /// A blank solver with these settings and this logic that instantiates no quantifier; without a
    /// logic it takes all.
    pub fn ground_solver(&self) -> (r: Solver)
        ensures
            r.config == (SolverConfig { clean_mbqi: false, ..self.config }),
            r.logic matches Some(l) && l@ == match self.logic {
                Some(own) => own@,
                None => "ALL"@,
            },
            r.knows_nothing(),
            r.is_unused(),
    {
        let mut config = self.config;
        config.clean_mbqi = false;
        let mut r = Solver::with_config(config);
        let ghost blank = r;
        let logic = match &self.logic {
            Some(l) => l.clone(),
            None => "ALL".to_string(),
        };
        r.set_logic(logic);
        proof {
            lemma_logic_apart(&blank, &r);
        }
        r
    }

    /// Begins a check under assumptions: a context begins, the assumptions are asserted in it, given
    /// what the simplifier makes of each, and the check begins. The context is to be left when the
    /// check has ended.
    pub fn check_with_assumptions(
        &mut self,
        m: &mut TermManager,
        assumptions: &Vec<TermId>,
        simplified: &Vec<TermId>,
        early: EarlyConflicts,
    ) -> (r: CheckStep)
        requires
            old(self).wf(old(m)),
            assumptions@.len() == simplified@.len(),
            forall|i: int| 0 <= i < assumptions@.len() ==> old(m).has(#[trigger] assumptions@[i]),
            forall|i: int| 0 <= i < simplified@.len() ==> old(m).has(#[trigger] simplified@[i]),
            old(self).records.assertions@.len() + assumptions@.len() <= u32::MAX,
        ensures
            final(self).wf(final(m)),
            old(m).extended_by(final(m)),
            assumed(old(m), old(self), assumptions@, simplified@, early, final(m), final(self), r),
    {
        let ghost m0 = *m;
        let ghost s0 = *self;
        self.push();
        let ghost s1 = *self;
        assert(s1.wf(&m0));
        self.assert_many(m, assumptions, simplified);
        let ghost m2 = *m;
        let ghost s2 = *self;
        let r = self.check(m, early);
        proof {
            lemma_extended_twice(&m0, &m2, m);
            lemma_solver_reverts(&s1, &s2, self);
            assert(assumed_from(&m0, &s0, &s1, assumptions@, simplified@, early, &m2, &s2, m, self, r));
        }
        r
    }

    /// Begins a check under limits, and says what the limits were before.
    pub fn check_with_limits(&mut self, m: &mut TermManager, limits: ResourceLimits, early: EarlyConflicts) -> (r: (
        (u64, u64),
        CheckStep,
    ))
        requires
            old(self).wf(old(m)),
        ensures
            final(self).wf(final(m)),
            old(m).extended_by(final(m)),
            r.0 == (old(self).config.max_conflicts, old(self).config.max_decisions),
            begins_limited(old(m), old(self), limits, early, final(m), final(self), r.1),
    {
        let ghost s0 = *self;
        let before = self.tighten(limits);
        proof {
            lemma_config_apart(m, &s0, self);
        }
        let r = self.check(m, early);
        (before, r)
    }

    /// Tightens the limits, and says what they were before.
    fn tighten(&mut self, limits: ResourceLimits) -> (r: (u64, u64))
        ensures
            r == (old(self).config.max_conflicts, old(self).config.max_decisions),
            *final(self) == (Solver { config: limited(old(self).config, limits), ..*old(self) }),
    {
        let before: (u64, u64) = (self.config.max_conflicts, self.config.max_decisions);
        self.config.max_conflicts = tighter_of(self.config.max_conflicts, limits.max_conflicts);
        self.config.max_decisions = tighter_of(self.config.max_decisions, limits.max_decisions);
        before
    }

    /// Ends a check under limits: sets the limits back, and says what checks have taken.
    pub fn end_limits(&mut self, before: (u64, u64)) -> (r: ResourceUsage)
        requires
            old(self).statistics.theory_propagations + old(self).statistics.theory_conflicts <= u64::MAX,
        ensures
            *final(self) == (Solver {
                config: SolverConfig { max_conflicts: before.0, max_decisions: before.1, ..old(self).config },
                ..*old(self)
            }),
            r == (ResourceUsage {
                conflicts: old(self).statistics.conflicts,
                decisions: old(self).statistics.decisions,
                restarts: old(self).statistics.restarts,
                theory_checks: (old(self).statistics.theory_propagations + old(self).statistics.theory_conflicts) as u64,
            }),
    {
        self.config.max_conflicts = before.0;
        self.config.max_decisions = before.1;
        ResourceUsage {
            conflicts: self.statistics.conflicts,
            decisions: self.statistics.decisions,
            restarts: self.statistics.restarts,
            theory_checks: self.statistics.theory_propagations + self.statistics.theory_conflicts,
        }
    }

    /// Hands the state that theories need to their link for one search; this solver holds none of
    /// it until it is given back.
    pub fn take_theory_manager(&mut self) -> (r: TheoryManager)
        ensures
            taken(old(self), final(self), r.parts()),
            r.theory_mode == old(self).config.theory_mode,
            r.max_conflicts == old(self).config.max_conflicts,
            r.suppress_stale_bounds,
            r.pending_assignments@.len() == 0,
            r.pending_theory_propagations@.len() == 0,
            r.levels@.len() == 0,
            (r.assigned_phase@ == Map::<usize, bool>::empty()),
            !r.last_check_unconfirmed,
            r.pending_equalities@.len() == 0,
            r.processed_equalities@ == Set::<(usize, usize)>::empty(),
            r.pending_arith_eq_reasons@.len() == 0,
            forall|m: &TermManager| old(self).wf(m) ==> #[trigger] r.wf(m),
    {
        let mut euf = EufPlan::new();
        let mut bv = BvPlan::new();
        let mut bv_terms: FxHashSet<usize> = set_new();
        let mut constraints: FxHashMap<usize, Constraint> = map_new();
        let mut parsed: FxHashMap<usize, ParsedArithConstraint> = map_new();
        let mut term_to_var: FxHashMap<usize, Var> = map_new();
        let mut var_to_term: Vec<TermId> = Vec::new();
        std::mem::swap(&mut self.euf, &mut euf);
        std::mem::swap(&mut self.bv, &mut bv);
        std::mem::swap(&mut self.encoder.bv_terms, &mut bv_terms);
        std::mem::swap(&mut self.encoder.constraints, &mut constraints);
        std::mem::swap(&mut self.encoder.parsed, &mut parsed);
        std::mem::swap(&mut self.encoder.term_to_var, &mut term_to_var);
        std::mem::swap(&mut self.encoder.var_to_term, &mut var_to_term);
        let statistics = self.statistics;
        self.statistics = Statistics::new();
        let parts = TheoryParts {
            euf,
            bv,
            bv_terms,
            var_to_constraint: constraints,
            var_to_parsed_arith: parsed,
            term_to_var,
            var_to_term,
            statistics,
        };
        proof {
            assert forall|m: &TermManager| old(self).wf(m) implies #[trigger] parts.wf(m) by {
                assert(linked(m, &old(self).encoder));
            }
        }
        TheoryManager::new(parts, self.config.theory_mode, self.config.max_conflicts, true)
    }

    /// Takes back the state that a link to the theories was handed.
    pub fn restore_theory_manager(&mut self, tm: TheoryManager)
        ensures
            *final(self) == restored(*old(self), tm.parts()),
    {
        let parts = tm.into_parts();
        self.euf = parts.euf;
        self.bv = parts.bv;
        self.encoder.bv_terms = parts.bv_terms;
        self.encoder.constraints = parts.var_to_constraint;
        self.encoder.parsed = parts.var_to_parsed_arith;
        self.encoder.term_to_var = parts.term_to_var;
        self.encoder.var_to_term = parts.var_to_term;
        self.statistics = parts.statistics;
    }
}

impl Default for Solver {
    fn default() -> (s: Solver)
        ensures
            s.config == balanced_config(),
            s.is_fresh(),
    {
        Solver::new()
    }
}

/// A check has begun under limits.
pub open spec fn begins_limited(
    m: &TermManager,
    s: &Solver,
    limits: ResourceLimits,
    early: EarlyConflicts,
    later: &TermManager,
    after: &Solver,
    r: CheckStep,
) -> bool {
    begins(m, &(Solver { config: limited(s.config, limits), ..*s }), early, later, after, r)
}

/// Settings do not matter to whether a solver belongs to a store.
proof fn lemma_config_apart(m: &TermManager, a: &Solver, b: &Solver)
    requires
        a.wf(m),
        b.encoder == a.encoder,
        b.records == a.records,
        b.euf == a.euf,
        b.bv == a.bv,
    ensures
        b.wf(m),
{
}

/// The logic does not matter to what a solver knows.
proof fn lemma_logic_apart(a: &Solver, b: &Solver)
    requires
        a.is_fresh(),
        *b == (Solver { logic: b.logic, ..*a }),
    ensures
        b.knows_nothing(),
        b.is_unused(),
{
    assert forall|m: &TermManager| m.wf() implies #[trigger] b.wf(m) by {
        assert(a.wf(m));
    }
}

/// A check has begun under assumptions, in a context of its own.
pub open spec fn assumed(
    m: &TermManager,
    s: &Solver,
    assumptions: Seq<TermId>,
    simplified: Seq<TermId>,
    early: EarlyConflicts,
    later: &TermManager,
    after: &Solver,
    r: CheckStep,
) -> bool {
    exists|pushed: Solver, mid: TermManager, all: Solver| #[trigger]
        assumed_from(m, s, &pushed, assumptions, simplified, early, &mid, &all, later, after, r)
}

/// The steps of a check under assumptions: a context begins, the assumptions are asserted, and the
/// check begins.
pub open spec fn assumed_from(
    m: &TermManager,
    s: &Solver,
    pushed: &Solver,
    assumptions: Seq<TermId>,
    simplified: Seq<TermId>,
    early: EarlyConflicts,
    mid: &TermManager,
    all: &Solver,
    later: &TermManager,
    after: &Solver,
    r: CheckStep,
) -> bool {
    &&& began(s, pushed)
    &&& pushed.reverts(all)
    &&& pushed.reverts(after)
    &&& all.records.assertions@ == s.records.assertions@ + assumptions
    &&& asserted_in_turn(m, pushed, assumptions, simplified, assumptions.len() as int, mid, all)
    &&& begins(mid, all, early, later, after, r)
}

/// What a check finds, a model or a set of unsatisfiable assertions, is no part of a context.
pub proof fn law_verdict_is_no_part_of_a_context(before: &Solver, after: &Solver)
    requires
        *after == (Solver { model: after.model, unsat_core: after.unsat_core, refuted: after.refuted, ..*before }),
    ensures
        before.reverts(after),
{
    lemma_reverts_self(&before.records);
    lemma_advances_self(&before.encoder);
    lemma_clauses_kept(before, after);
}

/// A check under assumptions leaves nothing behind: whatever it came to, once its context is left
/// the assertions, their names, the encoding and the contexts are those that there were before.
pub proof fn law_assumptions_are_left(
    m: &TermManager,
    before: &Solver,
    assumptions: Seq<TermId>,
    simplified: Seq<TermId>,
    early: EarlyConflicts,
    begun_m: &TermManager,
    begun: &Solver,
    step: CheckStep,
    later_m: &TermManager,
    later: &Solver,
    popped: &Solver,
)
    requires
        before.wf(m),
        assumed(m, before, assumptions, simplified, early, begun_m, begun, step),
        begun.reverts(later),
        m.extended_by(later_m),
        later.wf(later_m),
        left(later, popped),
    ensures
        popped.records@ == before.records@,
        popped.records.trail@ == before.records.trail@,
        popped.encoder.tables() == before.encoder.tables(),
        popped.encoder.trail@ == before.encoder.trail@,
        popped.encoder.clauses@ == before.encoder.clauses@,
        popped.euf.nodes@ == before.euf.nodes@,
        popped.context_stack@ == before.context_stack@,
        popped.wf(later_m),
{
    let (pushed, mid, all) = choose|pushed: Solver, mid: TermManager, all: Solver| #[trigger]
        assumed_from(m, before, &pushed, assumptions, simplified, early, &mid, &all, begun_m, begun, step);
    lemma_solver_reverts(&pushed, begun, later);
    law_pop_undoes_push(m, before, &pushed, later_m, later, popped);
}

/// The solver handed over the state that theories need, and has none of it.
pub open spec fn taken(before: &Solver, after: &Solver, parts: TheoryParts) -> bool {
    &&& parts.euf == before.euf
    &&& parts.bv == before.bv
    &&& parts.bv_terms == before.encoder.bv_terms
    &&& parts.var_to_constraint == before.encoder.constraints
    &&& parts.var_to_parsed_arith == before.encoder.parsed
    &&& parts.term_to_var == before.encoder.term_to_var
    &&& parts.var_to_term == before.encoder.var_to_term
    &&& parts.statistics == before.statistics
    &&& after.euf.is_blank()
    &&& after.bv.is_blank()
    &&& after.encoder.bv_terms@ == Set::<usize>::empty()
    &&& (after.encoder.constraints@ == Map::<usize, Constraint>::empty())
    &&& (after.encoder.parsed@ == Map::<usize, ParsedArithConstraint>::empty())
    &&& (after.encoder.term_to_var@ == Map::<usize, Var>::empty())
    &&& after.encoder.var_to_term@.len() == 0
    &&& *after == (Solver {
        euf: after.euf,
        bv: after.bv,
        encoder: Encoder {
            bv_terms: after.encoder.bv_terms,
            constraints: after.encoder.constraints,
            parsed: after.encoder.parsed,
            term_to_var: after.encoder.term_to_var,
            var_to_term: after.encoder.var_to_term,
            ..before.encoder
        },
        statistics: no_counts(),
        ..*before
    })
}

/// The solver with the state that theories need.
pub open spec fn restored(s: Solver, parts: TheoryParts) -> Solver {
    Solver {
        euf: parts.euf,
        bv: parts.bv,
        encoder: Encoder {
            bv_terms: parts.bv_terms,
            constraints: parts.var_to_constraint,
            parsed: parts.var_to_parsed_arith,
            term_to_var: parts.term_to_var,
            var_to_term: parts.var_to_term,
            ..s.encoder
        },
        statistics: parts.statistics,
        ..s
    }
}

/// Giving back what was handed over gives the solver that there was before.
pub proof fn law_restore_undoes_take(before: &Solver, between: &Solver, parts: TheoryParts)
    requires
        taken(before, between, parts),
    ensures
        restored(*between, parts) == *before,
{
}

/// A search that leaves the tables alone leaves a solver that belongs to the store, once what it was
/// handed is given back; and if it has kept the nodes of the theory of equality, leaving the context
/// undoes it.
pub proof fn law_restored_solver_is_well_formed(m: &TermManager, before: &Solver, between: &Solver, parts: TheoryParts, later: TheoryParts)
    requires
        before.wf(m),
        taken(before, between, parts),
        later.wf(m),
        later.euf.within(m),
        later.bv_terms == parts.bv_terms,
        later.var_to_constraint == parts.var_to_constraint,
        later.var_to_parsed_arith == parts.var_to_parsed_arith,
        later.term_to_var == parts.term_to_var,
        later.var_to_term == parts.var_to_term,
    ensures
        restored(*between, later).wf(m),
        before.euf.begins(&later.euf) ==> before.reverts(&restored(*between, later)),
{
    let after = restored(*between, later);
    assert(after.encoder == before.encoder);
    lemma_reverts_self(&before.records);
    lemma_advances_self(&before.encoder);
    assert(before.encoder.clauses@.take(before.encoder.clauses@.len() as int) =~= before.encoder.clauses@);
}

/// The verdict of a check under limits: what could not be decided because a resource is exhausted is
/// an error that says which.
pub fn limited_verdict<R>(result: SolverResult, exhausted: Option<R>) -> (r: Result<SolverResult, R>)
    ensures
        r == match exhausted {
            Some(reason) => if result == SolverResult::Unknown {
                Err::<SolverResult, R>(reason)
            } else {
                Ok::<SolverResult, R>(result)
            },
            None => Ok::<SolverResult, R>(result),
        },
{
    match exhausted {
        Some(reason) => {
            if let SolverResult::Unknown = result {
                return Err(reason);
            }
            Ok(result)
        },
        None => Ok(result),
    }
}

/// A limit never loosens another: where there are two, the lower one counts, where there is one, that
/// one.
pub proof fn law_limits_only_tighten(current: u64, limit: Option<u64>)
    ensures
        tighter(current, None) == current,
        limit matches Some(l) ==> (current > 0 ==> tighter(current, limit) <= current && tighter(current, limit) <= l),
        limit matches Some(l) ==> (tighter(current, limit) == l || tighter(current, limit) == current),
        limit matches Some(l) ==> (current == 0 ==> tighter(current, limit) == l),
{
}

/// Limits concern conflicts and decisions, each its own: no limit that is given or set is passed,
/// and the other settings stay.
pub proof fn law_limits_reach_the_settings(c: SolverConfig, limits: ResourceLimits)
    ensures
        limited(c, limits) == (SolverConfig {
            max_conflicts: limited(c, limits).max_conflicts,
            max_decisions: limited(c, limits).max_decisions,
            ..c
        }),
        limits.max_conflicts is None ==> limited(c, limits).max_conflicts == c.max_conflicts,
        limits.max_decisions is None ==> limited(c, limits).max_decisions == c.max_decisions,
        limits.max_conflicts matches Some(l) ==> {
            &&& limited(c, limits).max_conflicts <= l
            &&& c.max_conflicts > 0 ==> limited(c, limits).max_conflicts <= c.max_conflicts
            &&& limited(c, limits).max_conflicts == l || limited(c, limits).max_conflicts == c.max_conflicts > 0
        },
        limits.max_decisions matches Some(l) ==> {
            &&& limited(c, limits).max_decisions <= l
            &&& c.max_decisions > 0 ==> limited(c, limits).max_decisions <= c.max_decisions
            &&& limited(c, limits).max_decisions == l || limited(c, limits).max_decisions == c.max_decisions > 0
        },
{
}

/// A check under limits begins as a check does whose settings have no looser limits, and are the same
/// otherwise.
pub proof fn law_limited_check_obeys_the_limits(
    m: &TermManager,
    s: &Solver,
    limits: ResourceLimits,
    early: EarlyConflicts,
    later: &TermManager,
    after: &Solver,
    r: CheckStep,
)
    requires
        begins_limited(m, s, limits, early, later, after, r),
    ensures
        exists|c: SolverConfig|
            begins(m, &(Solver { config: c, ..*s }), early, later, after, r) && c == (SolverConfig {
                max_conflicts: c.max_conflicts,
                max_decisions: c.max_decisions,
                ..s.config
            }) && (limits.max_conflicts matches Some(l) ==> c.max_conflicts <= l) && (limits.max_decisions matches Some(l) ==> c.max_decisions <= l),
{
    law_limits_reach_the_settings(s.config, limits);
    let c = limited(s.config, limits);
    assert(begins(m, &(Solver { config: c, ..*s }), early, later, after, r));
}

} // verus!
