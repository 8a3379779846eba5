//! The rounds of a check: what follows from the answer of a search, from a round of instantiation,
//! and from the confirmation of a verdict.
use crate::builder::build_model;
use crate::builder::has_value;
use crate::builder::is_value;
use crate::builder::Answers;
use crate::check::ends_unsat;
use crate::context::lemma_reverts_self;
use crate::encode::lemma_linked_extends;
use crate::euf::lemma_plan_extends;
use crate::encoder::lemma_advances_self;
use crate::instances::bodies;
use crate::instances::instantiates;
use crate::model::in_store;
use crate::model::Model;
use crate::session::law_verdict_is_no_part_of_a_context;
use crate::solver::lemma_clauses_kept;
use crate::solver::Solver;
use crate::term::copy_ids;
use crate::term::Op;
use crate::term::TermId;
use crate::term::TermManager;
use crate::track::lemma_extended_self;
use crate::verdict::SolverResult;
use crate::walk::is_binder;
use vstd::prelude::*;

verus! {

/// The number of searches after which a check with quantifiers gives up.
pub const MAX_ROUNDS: u32 = 100;

/// How a check goes on after a search.
#[derive(Clone, Copy, Debug, PartialEq, Eq, Structural)]
pub enum SearchStep {
    /// The check has ended.
    Done(SolverResult),
    /// Confirm that the ground formulas are unsatisfiable.
    ConfirmUnsat,
    /// Instantiate quantifiers.
    Instantiate,
    /// Search once more.
    Again,
}

/// What a round of instantiation came to.
#[derive(Debug)]
pub enum RoundVerdict {
    NewLemmas(Vec<TermId>),
    /// The model satisfies every quantified formula.
    Saturated,
    Inconclusive,
    BudgetExhausted,
}

/// How a check goes on after a round of instantiation.
#[derive(Clone, Copy, Debug, PartialEq, Eq, Structural)]
pub enum RoundStep {
    /// The check has ended.
    Done(SolverResult),
    /// Confirm that the ground formulas are satisfiable.
    ConfirmSat,
    /// Search once more.
    Again,
}

/// The model has the value of each term that the answers give one, and no other.
pub open spec fn is_built(m: &TermManager, s: &Solver, a: &Answers, later: &TermManager, model: Model) -> bool {
    &&& in_store(later, model@)
    &&& forall|t: usize| #[trigger] model@.contains_key(t) <==> has_value(m, &s.encoder, a, t)
    &&& forall|t: usize| #[trigger] model@.contains_key(t) ==> is_value(m, later, &s.encoder, a, t, model@[t])
}

/// How a check goes on after a search that found an assignment, where `round` searches have been
/// made before it. An assignment that the theories could not confirm is no verdict.
pub open spec fn step_after_sat(s: &Solver, unconfirmed: bool, round: u32) -> SearchStep {
    if !s.encoder.has_quantifiers {
        SearchStep::Done(
            if unconfirmed {
                SolverResult::Unknown
            } else {
                SolverResult::Sat
            },
        )
    } else if s.config.clean_mbqi {
        SearchStep::Instantiate
    } else if round + 1 >= MAX_ROUNDS {
        SearchStep::Done(SolverResult::Unknown)
    } else {
        SearchStep::Again
    }
}

/// What the answer of a search comes to.
pub open spec fn searched(
    m: &TermManager,
    s: &Solver,
    found: SolverResult,
    unconfirmed: bool,
    a: &Answers,
    instances: Seq<TermId>,
    round: u32,
    later: &TermManager,
    after: &Solver,
    r: SearchStep,
) -> bool {
    match found {
        SolverResult::Unsat => *later == *m && if s.config.clean_mbqi && instances.len() > 0 {
            r == SearchStep::ConfirmUnsat && *after == *s
        } else {
            r == SearchStep::Done(SolverResult::Unsat) && ends_unsat(s, after)
        },
        SolverResult::Unknown => r == SearchStep::Done(SolverResult::Unknown) && *later == *m && *after == (Solver { model: None, ..*s }),
        SolverResult::Sat => {
            &&& r == step_after_sat(s, unconfirmed, round)
            &&& *after == (Solver { model: after.model, unsat_core: after.unsat_core, ..*s })
            &&& if r == SearchStep::Done(SolverResult::Unknown) {
                after.model is None && *later == *m
            } else {
                after.model matches Some(model) && is_built(m, s, a, later, model)
            }
            &&& after.unsat_core == if r == SearchStep::Done(SolverResult::Sat) {
                None
            } else {
                s.unsat_core
            }
        },
    }
}

/// What a round of instantiation comes to, where `round` searches have been made before the last
/// one.
pub open spec fn concluded(
    m: &TermManager,
    s: &Solver,
    verdict: RoundVerdict,
    unconfirmed: bool,
    instances: Seq<TermId>,
    round: u32,
    later: &TermManager,
    after: &Solver,
    more: Seq<TermId>,
    r: RoundStep,
) -> bool {
    match verdict {
        RoundVerdict::NewLemmas(lemmas) => {
            &&& instantiates(m, &s.encoder, later, &after.encoder, lemmas@, lemmas@.len() as int)
            &&& *after == (Solver {
                encoder: after.encoder,
                model: if r is Done {
                    None
                } else {
                    s.model
                },
                ..*s
            })
            &&& more == instances + bodies(m, lemmas@, lemmas@.len() as int)
            &&& r == if round + 1 >= MAX_ROUNDS {
                RoundStep::Done(SolverResult::Unknown)
            } else {
                RoundStep::Again
            }
        },
        RoundVerdict::Saturated => *later == *m && more == instances && if s.config.clean_mbqi && instances.len() > 0 {
            r == RoundStep::ConfirmSat && *after == *s
        } else if unconfirmed {
            r == RoundStep::Done(SolverResult::Unknown) && *after == (Solver { model: None, ..*s })
        } else {
            r == RoundStep::Done(SolverResult::Sat) && *after == (Solver { unsat_core: None, ..*s })
        },
        _ => r == RoundStep::Done(SolverResult::Unknown) && *later == *m && *after == (Solver { model: None, ..*s }) && more == instances,
    }
}

/// The assertions that are not quantified, and the instances.
pub open spec fn ground_formulas_of(m: &TermManager, assertions: Seq<TermId>, instances: Seq<TermId>) -> Seq<TermId> {
    assertions.filter(|t: TermId| !is_binder(m, t)) + instances
}

impl Solver {
    /// How a check goes on after a search, given its answer; whether the theories could not confirm
    /// it; the values that go with it; the instances so far; and the number of searches before.
    pub fn after_search(
        &mut self,
        m: &mut TermManager,
        found: SolverResult,
        unconfirmed: bool,
        a: &Answers,
        instances: &Vec<TermId>,
        round: u32,
    ) -> (r: SearchStep)
        requires
            old(self).wf(old(m)),
            a.wf(),
            round < MAX_ROUNDS,
        ensures
            final(self).wf(final(m)),
            old(m).extended_by(final(m)),
            old(self).reverts(final(self)),
            searched(old(m), old(self), found, unconfirmed, a, instances@, round, final(m), final(self), r),
    {
        let ghost m0 = *m;
        let ghost s0 = *self;
        proof {
            lemma_extended_self(m);
            lemma_reverts_self(&self.records);
            lemma_advances_self(&self.encoder);
            lemma_clauses_kept(self, self);
        }
        match found {
            SolverResult::Unsat => {
                if self.config.clean_mbqi && instances.len() > 0 {
                    return SearchStep::ConfirmUnsat;
                }
                self.end_unsat();
                SearchStep::Done(SolverResult::Unsat)
            },
            SolverResult::Unknown => SearchStep::Done(self.give_up()),
            SolverResult::Sat => {
                let ends = if self.encoder.has_quantifiers {
                    !self.config.clean_mbqi && round + 1 >= MAX_ROUNDS
                } else {
                    unconfirmed
                };
                if ends {
                    return SearchStep::Done(self.give_up());
                }
                let model = build_model(m, &self.encoder, a);
                self.model = Some(model);
                proof {
                    lemma_kept(&m0, m, &s0, self);
                }
                if !self.encoder.has_quantifiers {
                    self.unsat_core = None;
                    return SearchStep::Done(SolverResult::Sat);
                }
                if self.config.clean_mbqi {
                    return SearchStep::Instantiate;
                }
                SearchStep::Again
            },
        }
    }

    /// How a check goes on after a round of instantiation. Instances that are taken join the list.
    pub fn after_round(
        &mut self,
        m: &mut TermManager,
        verdict: &RoundVerdict,
        unconfirmed: bool,
        instances: &mut Vec<TermId>,
        round: u32,
    ) -> (r: RoundStep)
        requires
            old(self).wf(old(m)),
            round < MAX_ROUNDS,
            *verdict matches RoundVerdict::NewLemmas(lemmas) ==> forall|k: int|
                0 <= k < lemmas@.len() ==> old(m).has(#[trigger] lemmas@[k]),
        ensures
            final(self).wf(final(m)),
            old(m).extended_by(final(m)),
            old(self).reverts(final(self)),
            concluded(old(m), old(self), *verdict, unconfirmed, old(instances)@, round, final(m), final(self), final(instances)@, r),
    {
        let ghost m0 = *m;
        let ghost s0 = *self;
        proof {
            lemma_extended_self(m);
            lemma_reverts_self(&self.records);
            lemma_advances_self(&self.encoder);
            lemma_clauses_kept(self, self);
        }
        match verdict {
            RoundVerdict::NewLemmas(lemmas) => {
                self.encoder.add_lemmas(m, lemmas, instances);
                proof {
                    lemma_clauses_kept(&s0, self);
                    lemma_plan_extends(&m0, m, &s0.euf);
                    assert forall|i: int| 0 <= i < self.records.assertions@.len() implies m.has(#[trigger] self.records.assertions@[i]) by {
                        assert(m0.has(s0.records.assertions@[i]));
                    }
                }
                if round + 1 >= MAX_ROUNDS {
                    return RoundStep::Done(self.give_up());
                }
                RoundStep::Again
            },
            RoundVerdict::Saturated => {
                if self.config.clean_mbqi && instances.len() > 0 {
                    return RoundStep::ConfirmSat;
                }
                if unconfirmed {
                    return RoundStep::Done(self.give_up());
                }
                self.unsat_core = None;
                RoundStep::Done(SolverResult::Sat)
            },
            _ => RoundStep::Done(self.give_up()),
        }
    }

    /// The verdict that a search found unsatisfiable, given what a fresh solver says of the ground
    /// formulas: only a confirmed one counts.
    pub fn verify_clean_unsat(&mut self, fresh: SolverResult) -> (r: SolverResult)
        ensures
            r == if fresh == SolverResult::Unsat {
                SolverResult::Unsat
            } else {
                SolverResult::Unknown
            },
            fresh == SolverResult::Unsat ==> ends_unsat(old(self), final(self)),
            fresh != SolverResult::Unsat ==> *final(self) == (Solver { model: None, ..*old(self) }),
            old(self).reverts(final(self)),
    {
        match fresh {
            SolverResult::Unsat => {
                self.end_unsat();
                SolverResult::Unsat
            },
            _ => self.give_up(),
        }
    }

    /// The verdict where every quantified formula is satisfied, given what a fresh solver says of
    /// the ground formulas: its verdict counts.
    pub fn verify_clean_saturated(&mut self, fresh: SolverResult) -> (r: SolverResult)
        ensures
            r == fresh,
            fresh == SolverResult::Unsat ==> ends_unsat(old(self), final(self)),
            fresh == SolverResult::Sat ==> *final(self) == (Solver { unsat_core: None, ..*old(self) }),
            fresh == SolverResult::Unknown ==> *final(self) == (Solver { model: None, ..*old(self) }),
            old(self).reverts(final(self)),
    {
        match fresh {
            SolverResult::Unsat => {
                self.end_unsat();
                SolverResult::Unsat
            },
            SolverResult::Sat => {
                self.unsat_core = None;
                proof {
                    law_verdict_is_no_part_of_a_context(old(self), self);
                }
                SolverResult::Sat
            },
            SolverResult::Unknown => self.give_up(),
        }
    }

    /// The formulas that stand for the assertions where quantified ones are given by their
    /// instances.
    pub fn ground_formulas(&self, m: &TermManager, instances: &Vec<TermId>) -> (r: Vec<TermId>)
        requires
            self.wf(m),
        ensures
            r@ == ground_formulas_of(m, self.records.assertions@, instances@),
    {
        let ghost keep = |t: TermId| !is_binder(m, t);
        let assertions = &self.records.assertions;
        let mut r: Vec<TermId> = Vec::new();
        let mut i: usize = 0;
        assert(assertions@.take(0).filter(keep) =~= Seq::<TermId>::empty()) by {
            reveal(Seq::filter);
        }
        while i < assertions.len()
            invariant
                i <= assertions.len(),
                forall|k: int| 0 <= k < assertions@.len() ==> m.has(#[trigger] assertions@[k]),
                keep == |t: TermId| !is_binder(m, t),
                r@ == assertions@.take(i as int).filter(keep),
            decreases assertions.len() - i,
        {
            let t: usize = assertions[i];
            let quantified = match m.terms[t].op {
                Op::Forall | Op::Exists => true,
                _ => false,
            };
            proof {
                assert(assertions@.take(i + 1).drop_last() =~= assertions@.take(i as int));
                reveal(Seq::filter);
            }
            if !quantified {
                r.push(t);
            }
            i = i + 1;
        }
        assert(assertions@.take(i as int) =~= assertions@);
        let mut rest = copy_ids(instances);
        r.append(&mut rest);
        r
    }

    /// A check of the clauses alone, theories aside: an assertion of `false`, which has no clause,
    /// makes them unsatisfiable whatever a search finds.
    pub fn check_sat_only(&mut self, m: &mut TermManager, found: SolverResult, a: &Answers) -> (r: SolverResult)
        requires
            old(self).wf(old(m)),
            a.wf(),
        ensures
            final(self).wf(final(m)),
            old(m).extended_by(final(m)),
            r == if old(self).records.has_false_assertion {
                SolverResult::Unsat
            } else if old(self).records.assertions@.len() == 0 {
                SolverResult::Sat
            } else {
                found
            },
            *final(self) == (Solver { model: final(self).model, refuted: r == SolverResult::Unsat, ..*old(self) }),
            if r == SolverResult::Sat && old(self).records.assertions@.len() > 0 {
                final(self).model matches Some(model) && is_built(old(m), old(self), a, final(m), model)
            } else {
                final(self).model is None && *final(m) == *old(m)
            },
    {
        let ghost m0 = *m;
        let ghost s0 = *self;
        proof {
            lemma_extended_self(m);
        }
        self.model = None;
        self.refuted = false;
        if self.records.has_false_assertion {
            self.refuted = true;
            return SolverResult::Unsat;
        }
        if self.records.assertions.len() == 0 {
            return SolverResult::Sat;
        }
        match found {
            SolverResult::Sat => {
                let model = build_model(m, &self.encoder, a);
                self.model = Some(model);
                proof {
                    lemma_kept(&m0, m, &s0, self);
                }
            },
            SolverResult::Unsat => {
                self.refuted = true;
            },
            SolverResult::Unknown => {},
        }
        found
    }
}

/// A solver still belongs to a store that has grown.
proof fn lemma_kept(m: &TermManager, later: &TermManager, s: &Solver, t: &Solver)
    requires
        s.wf(m),
        later.wf(),
        m.extended_by(later),
        t.encoder == s.encoder,
        t.records == s.records,
        t.euf == s.euf,
        t.bv == s.bv,
    ensures
        t.wf(later),
{
    lemma_linked_extends(m, later, &s.encoder);
    lemma_plan_extends(m, later, &s.euf);
    assert forall|i: int| 0 <= i < t.records.assertions@.len() implies later.has(#[trigger] t.records.assertions@[i]) by {
        assert(m.has(s.records.assertions@[i]));
    }
}

} // verus!
