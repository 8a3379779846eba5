//! Verdicts are earned: which answers make a check report which verdict.
use crate::build_laws::is_model_of;
use crate::builder::Answers;
use crate::check::begins;
use crate::check::goes_on;
use crate::check::CheckStep;
use crate::check::EarlyConflicts;
use crate::dt_check::dt_verdict;
use crate::instances::bodies;
use crate::rounds::concluded;
use crate::rounds::ground_formulas_of;
use crate::rounds::searched;
use crate::rounds::RoundStep;
use crate::rounds::RoundVerdict;
use crate::rounds::SearchStep;
use crate::solver::Solver;
use crate::squares::asserted_atoms;
use crate::squares::contradictory;
use crate::term::TermId;
use crate::term::TermManager;
use crate::verdict::SolverResult;
use vstd::prelude::*;

verus! {

/// A check that ends at its beginning reports satisfiability only where nothing is asserted, and
/// unsatisfiability only where an assertion is false by itself, another check found a conflict, or
/// the check of datatypes or that of squares did. It reports it wherever an assertion is false by
/// itself, and wherever another check found a conflict in assertions of which there is one.
pub proof fn law_early_verdict_is_earned(
    m: &TermManager,
    before: &Solver,
    early: EarlyConflicts,
    later: &TermManager,
    after: &Solver,
    r: CheckStep,
)
    requires
        begins(m, before, early, later, after, r),
    ensures
        r == CheckStep::Done(SolverResult::Sat) ==> before.records.assertions@.len() == 0 && !before.records.has_false_assertion,
        r == CheckStep::Done(SolverResult::Unsat) ==> before.records.has_false_assertion || early.strings || early.floats || early.arrays
            || early.bits || dt_verdict(m, before.records.assertions@, true) || contradictory(
            asserted_atoms(later, after.records.assertions@, after.records.assertions@.len() as int),
        ),
        before.records.has_false_assertion ==> r == CheckStep::Done(SolverResult::Unsat),
        before.records.assertions@.len() > 0 && (early.strings || early.floats || early.arrays || early.bits) ==> r == CheckStep::Done(
            SolverResult::Unsat,
        ),
        before.records.assertions@.len() == 0 && !before.records.has_false_assertion ==> r == CheckStep::Done(SolverResult::Sat),
{
}

/// After a solver for polynomial constraints has been asked, its verdicts count; without one, the
/// check ends by a contradiction between squares, without a verdict where a limit is reached, and else
/// searches.
pub proof fn law_answer_about_polynomials_counts(m: &TermManager, s: &Solver, found: Option<SolverResult>, after: &Solver, r: CheckStep)
    requires
        goes_on(m, s, found, after, r),
    ensures
        r == CheckStep::Done(SolverResult::Sat) <==> found == Some(SolverResult::Sat),
        found == Some(SolverResult::Unsat) ==> r == CheckStep::Done(SolverResult::Unsat),
        r == CheckStep::Done(SolverResult::Unsat) && found != Some(SolverResult::Unsat) ==> s.logic is Some && contradictory(
            asserted_atoms(m, s.records.assertions@, s.records.assertions@.len() as int),
        ),
        r == CheckStep::Done(SolverResult::Unknown) ==> 0 < s.config.max_conflicts <= s.statistics.conflicts || 0 < s.config.max_decisions
            <= s.statistics.decisions,
        found is None && s.logic is None ==> (r == CheckStep::Done(SolverResult::Unknown) <==> 0 < s.config.max_conflicts
            <= s.statistics.conflicts || 0 < s.config.max_decisions <= s.statistics.decisions),
        found is None && s.logic is None && !(r == CheckStep::Done(SolverResult::Unknown)) ==> r is Search,
{
}

/// After a search, satisfiability is reported exactly of an assignment that the theories confirmed,
/// where there are no quantifiers, and then there is a model of it and no set of unsatisfiable
/// assertions; unsatisfiability exactly of a refutation that rests on no instances, or that needs no
/// confirmation; and nothing of a search without an answer.
pub proof fn law_verdict_of_a_search_is_earned(
    m: &TermManager,
    s: &Solver,
    found: SolverResult,
    unconfirmed: bool,
    a: &Answers,
    instances: Seq<TermId>,
    round: u32,
    later: &TermManager,
    after: &Solver,
    r: SearchStep,
)
    requires
        searched(m, s, found, unconfirmed, a, instances, round, later, after, r),
    ensures
        r == SearchStep::Done(SolverResult::Sat) <==> found is Sat && !unconfirmed && !s.encoder.has_quantifiers,
        r == SearchStep::Done(SolverResult::Sat) ==> after.unsat_core is None && (after.model matches Some(model) && is_model_of(
            m,
            later,
            &s.encoder,
            a,
            model@,
        )),
        r == SearchStep::Done(SolverResult::Unsat) <==> found is Unsat && !(s.config.clean_mbqi && instances.len() > 0),
        r == SearchStep::Done(SolverResult::Unsat) ==> after.model is None && after.refuted,
        found is Unsat && s.config.clean_mbqi && instances.len() > 0 ==> r is ConfirmUnsat,
        found is Unknown ==> r == SearchStep::Done(SolverResult::Unknown),
        r == SearchStep::Done(SolverResult::Unknown) ==> after.model is None,
        found is Sat && s.encoder.has_quantifiers && s.config.clean_mbqi ==> r is Instantiate,
        r is Again ==> round < 99,
        found is Sat && s.encoder.has_quantifiers && !s.config.clean_mbqi && round < 99 ==> r is Again,
{
}

/// After a round of instantiation, satisfiability is reported exactly where the model satisfies every
/// quantified formula, the theories confirmed it and no instance has to be taken into account; new
/// instances are searched again, as long as there have been less than a hundred searches; and what
/// came to nothing gives no verdict. The instances of a round join those before it.
pub proof fn law_verdict_of_a_round_is_earned(
    m: &TermManager,
    s: &Solver,
    verdict: RoundVerdict,
    unconfirmed: bool,
    instances: Seq<TermId>,
    round: u32,
    later: &TermManager,
    after: &Solver,
    more: Seq<TermId>,
    r: RoundStep,
)
    requires
        concluded(m, s, verdict, unconfirmed, instances, round, later, after, more, r),
    ensures
        r == RoundStep::Done(SolverResult::Sat) <==> verdict is Saturated && !unconfirmed && !(s.config.clean_mbqi && instances.len() > 0),
        r != RoundStep::Done(SolverResult::Unsat),
        r is Again <==> verdict is NewLemmas && round < 99,
        r is ConfirmSat <==> verdict is Saturated && s.config.clean_mbqi && instances.len() > 0,
        verdict is Inconclusive || verdict is BudgetExhausted ==> r == RoundStep::Done(SolverResult::Unknown),
        r == RoundStep::Done(SolverResult::Unknown) ==> after.model is None,
        r == RoundStep::Done(SolverResult::Sat) ==> after.unsat_core is None && after.model == s.model,
        verdict matches RoundVerdict::NewLemmas(lemmas) ==> more == instances + bodies(m, lemmas@, lemmas@.len() as int),
        !(verdict is NewLemmas) ==> more == instances,
{
}

/// What a list without some members holds.
proof fn lemma_filtered(s: Seq<TermId>, f: spec_fn(TermId) -> bool, t: TermId)
    ensures
        s.filter(f).contains(t) <==> s.contains(t) && f(t),
    decreases s.len(),
{
    reveal(Seq::filter);
    if s.len() > 0 {
        let rest = s.drop_last();
        lemma_filtered(rest, f, t);
        let before = rest.filter(f);
        let now = s.filter(f);
        assert(now == if f(s.last()) {
            before.push(s.last())
        } else {
            before
        });
        if before.contains(t) {
            let i = choose|i: int| 0 <= i < before.len() && before[i] == t;
            assert(now[i] == t);
            let j = choose|j: int| 0 <= j < rest.len() && rest[j] == t;
            assert(s[j] == t);
        }
        if s.contains(t) && f(t) {
            let j = choose|j: int| 0 <= j < s.len() && s[j] == t;
            if j < rest.len() {
                assert(rest[j] == t);
            } else {
                assert(now[now.len() - 1] == t);
            }
        }
        if now.contains(t) && !before.contains(t) {
            let i = choose|i: int| 0 <= i < now.len() && now[i] == t;
            if i < before.len() {
                assert(before[i] == t);
            }
            assert(s[s.len() - 1] == t);
        }
    }
}

/// What is confirmed are the assertions that are not quantified and the instances, and nothing else.
pub proof fn law_ground_formulas(m: &TermManager, assertions: Seq<TermId>, instances: Seq<TermId>, t: TermId)
    requires
        forall|i: int| 0 <= i < assertions.len() ==> m.has(#[trigger] assertions[i]),
    ensures
        ground_formulas_of(m, assertions, instances).contains(t) <==> (assertions.contains(t) && !(m.op(t) is Forall) && !(m.op(t) is Exists))
            || instances.contains(t),
{
    let f = |t: TermId| !crate::walk::is_binder(m, t);
    let kept = assertions.filter(f);
    assert(ground_formulas_of(m, assertions, instances) =~= kept + instances) by {
        assert(assertions.filter(|t: TermId| !crate::walk::is_binder(m, t)) =~= kept);
    }
    lemma_filtered(assertions, f, t);
    let all = kept + instances;
    if kept.contains(t) {
        let i = choose|i: int| 0 <= i < kept.len() && kept[i] == t;
        assert(all[i] == t);
    }
    if instances.contains(t) {
        let i = choose|i: int| 0 <= i < instances.len() && instances[i] == t;
        assert(all[kept.len() + i] == t);
    }
    if all.contains(t) {
        let i = choose|i: int| 0 <= i < all.len() && all[i] == t;
        if i < kept.len() {
            assert(kept[i] == t);
        } else {
            assert(instances[i - kept.len()] == t);
        }
    }
}

} // verus!
