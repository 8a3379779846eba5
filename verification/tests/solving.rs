use oxiz_solver::builder::Answers;
use oxiz_solver::check::CheckStep;
use oxiz_solver::check::EarlyConflicts;
use oxiz_solver::cnf::Lit;
use oxiz_solver::config::SolverConfig;
use oxiz_solver::context::Records;
use oxiz_solver::context::TrailOp;
use oxiz_solver::minimize::MinimizeStep;
use oxiz_solver::numeral::digits_of;
use oxiz_solver::rounds::RoundStep;
use oxiz_solver::rounds::RoundVerdict;
use oxiz_solver::rounds::SearchStep;
use oxiz_solver::rounds::MAX_ROUNDS;
use oxiz_solver::session::limited_verdict;
use oxiz_solver::session::ResourceLimits;
use oxiz_solver::solver::Asserted;
use oxiz_solver::solver::Solver;
use oxiz_solver::spine::NlPlan;
use oxiz_solver::term::Op;
use oxiz_solver::term::Rel;
use oxiz_solver::term::SortId;
use oxiz_solver::term::Term;
use oxiz_solver::term::TermId;
use oxiz_solver::term::TermManager;
use oxiz_solver::term::BOOL_SORT;
use oxiz_solver::term::FALSE_TERM;
use oxiz_solver::term::INT_SORT;
use oxiz_solver::term::TRUE_TERM;
use oxiz_solver::unsat::build_unsat_core;
use oxiz_solver::unsat::build_unsat_core_trivial_false;
use oxiz_solver::unsat::NamedAssertion;
use oxiz_solver::unsat::UnsatCore;
use oxiz_solver::verdict::SolverResult;
use rustc_hash::FxHashMap;

fn var(m: &mut TermManager, name: &str, sort: SortId) -> TermId {
    let s = m.intern(name.to_string());
    m.mk_app(Op::Var(s), vec![], sort)
}

fn num(m: &mut TermManager, n: i64) -> TermId {
    m.mk(Term {
        op: Op::IntConst { negative: n < 0 },
        args: vec![],
        digits: digits_of(n.unsigned_abs() as u128),
        binders: vec![],
        sort: INT_SORT,
    })
}

fn quantified(m: &mut TermManager, name: &str, body: TermId) -> TermId {
    let s = m.intern(name.to_string());
    m.mk(Term { op: Op::Forall, args: vec![body], digits: vec![], binders: vec![(s, INT_SORT)], sort: BOOL_SORT })
}

fn quiet() -> EarlyConflicts {
    EarlyConflicts { strings: false, floats: false, arrays: false, bits: false }
}

fn truths(s: &Solver, all: bool) -> Answers {
    Answers {
        truths: vec![Some(all); s.encoder.var_to_term.len()],
        ints: FxHashMap::default(),
        reals: FxHashMap::default(),
        bits: FxHashMap::default(),
        nums: FxHashMap::default(),
    }
}

fn done(step: &CheckStep) -> SolverResult {
    match step {
        CheckStep::Done(r) => *r,
        _ => panic!("the check goes on"),
    }
}

#[test]
fn an_empty_solver_is_satisfiable() {
    let mut m = TermManager::new();
    let mut s = Solver::default();
    assert!(!s.has_assertions());
    assert_eq!((s.num_assertions(), s.num_variables(), s.context_level()), (0, 0, 0));
    assert_eq!(done(&s.check(&mut m, quiet())), SolverResult::Sat);
    assert!(s.model().is_none() && s.get_unsat_core().is_none() && s.get_proof().is_none());
    let mut proving = Solver::with_config(SolverConfig::balanced().with_proof());
    assert!(proving.get_proof().is_none());
    let _ = proving.assert_formula(&mut m, FALSE_TERM, FALSE_TERM);
    assert_eq!(done(&proving.check(&mut m, quiet())), SolverResult::Unsat);
    assert!(proving.get_proof().unwrap().steps().is_empty());
    assert_eq!(*s.config(), SolverConfig::balanced());
}

#[test]
fn truth_values_are_asserted_at_once() {
    let mut m = TermManager::new();
    let mut s = Solver::new();
    s.set_produce_unsat_cores(true);
    assert_eq!(s.assert_formula(&mut m, TRUE_TERM, TRUE_TERM), Asserted::True);
    assert_eq!(s.assert_named(&mut m, FALSE_TERM, "bad".to_string()), Asserted::False);
    assert!(s.encoder.clauses.is_empty());
    assert_eq!(done(&s.check(&mut m, quiet())), SolverResult::Unsat);
    let c = s.get_unsat_core().unwrap();
    assert_eq!(c.indices, vec![1]);
    assert_eq!(c.names, vec!["bad".to_string()]);
    s.reset();
    assert_eq!(done(&s.check(&mut m, quiet())), SolverResult::Sat);
    assert!(s.get_unsat_core().is_none());
}

#[test]
fn simplification_counts() {
    let mut m = TermManager::new();
    let p = var(&mut m, "p", BOOL_SORT);
    let t = m.mk_app(Op::Or, vec![p, TRUE_TERM], BOOL_SORT);
    let f = m.mk_app(Op::And, vec![p, FALSE_TERM], BOOL_SORT);
    let mut s = Solver::new();
    assert_eq!(s.assert_formula(&mut m, t, TRUE_TERM), Asserted::SimplifiedTrue);
    assert!(!s.records.has_false_assertion);
    assert_eq!(s.assert_formula(&mut m, f, FALSE_TERM), Asserted::SimplifiedFalse);
    assert!(s.records.has_false_assertion);
    assert_eq!(s.records.assertions, vec![t, f]);
    assert!(s.encoder.clauses.is_empty());
}

#[test]
fn contexts_take_everything_back() {
    let mut m = TermManager::new();
    let x = var(&mut m, "x", INT_SORT);
    let y = var(&mut m, "y", INT_SORT);
    let p = var(&mut m, "p", BOOL_SORT);
    let lt = m.mk_app(Op::Compare(Rel::Lt), vec![x, y], BOOL_SORT);
    let c = m.mk_app(Op::Ite, vec![p, x, y], INT_SORT);
    let q = m.mk_eq(c, x);
    let nq = m.mk_app(Op::Not, vec![q], BOOL_SORT);
    let mut s = Solver::new();
    s.set_produce_unsat_cores(true);
    let _ = s.assert_formula(&mut m, lt, lt);
    let before = (
        s.records.assertions.clone(),
        s.records.named_assertions.len(),
        s.records.trail.len(),
        s.encoder.clauses.clone(),
        s.encoder.var_to_term.clone(),
        s.encoder.trail.len(),
        s.num_variables(),
        s.encoder.constraints.len(),
        s.encoder.parsed.len(),
    );
    s.push();
    assert_eq!(s.context_level(), 1);
    let _ = s.assert_named(&mut m, nq, "n".to_string());
    let _ = s.assert_formula(&mut m, FALSE_TERM, FALSE_TERM);
    assert!(s.encoder.clauses.len() > before.3.len() && s.records.has_false_assertion);
    s.pop();
    let after = (
        s.records.assertions.clone(),
        s.records.named_assertions.len(),
        s.records.trail.len(),
        s.encoder.clauses.clone(),
        s.encoder.var_to_term.clone(),
        s.encoder.trail.len(),
        s.num_variables(),
        s.encoder.constraints.len(),
        s.encoder.parsed.len(),
    );
    assert_eq!(before, after);
    assert!(!s.records.has_false_assertion);
    assert_eq!(s.context_level(), 0);
    // Outside contexts there is nothing to leave.
    s.pop();
    assert_eq!(s.num_assertions(), 1);
}

#[test]
fn records_are_taken_back_by_their_trail() {
    let mut r = Records::new();
    r.add_assertion(4);
    let mark = r.trail.len();
    r.add_assertion(5);
    r.set_false();
    r.set_false();
    r.add_named(NamedAssertion { term: 5, name: None, index: 1 });
    assert_eq!(r.add_constructor(7, 2), None);
    assert_eq!(r.add_constructor(7, 3), Some(2));
    assert_eq!(r.trail.len(), mark + 4);
    assert_eq!(r.trail.last(), Some(&TrailOp::DtVarConstructorAdded { var: 7 }));
    r.undo(mark);
    assert_eq!(r.assertions, vec![4]);
    assert!(!r.has_false_assertion && r.named_assertions.is_empty() && r.dt_var_constructors.is_empty());
}

#[test]
fn many_assertions_come_in_order() {
    let mut m = TermManager::new();
    let p = var(&mut m, "p", BOOL_SORT);
    let q = var(&mut m, "q", BOOL_SORT);
    let mut s = Solver::new();
    s.assert_many(&mut m, &vec![p, q], &vec![p, q]);
    assert_eq!(s.records.assertions, vec![p, q]);
    assert!(s.encoder.clauses.contains(&vec![Lit::pos(s.encoder.term_to_var[&p])]));
    assert!(s.encoder.clauses.contains(&vec![Lit::pos(s.encoder.term_to_var[&q])]));
    assert_eq!(s.num_variables(), 2);
}

#[test]
fn early_conflicts_decide() {
    let mut m = TermManager::new();
    let p = var(&mut m, "p", BOOL_SORT);
    let mut s = Solver::new();
    let _ = s.assert_formula(&mut m, p, p);
    assert!(matches!(s.check(&mut m, quiet()), CheckStep::Search));
    let strings = EarlyConflicts { strings: true, ..quiet() };
    let floats = EarlyConflicts { floats: true, ..quiet() };
    let arrays = EarlyConflicts { arrays: true, ..quiet() };
    let bits = EarlyConflicts { bits: true, ..quiet() };
    for e in [strings, floats, arrays, bits] {
        assert_eq!(done(&s.check(&mut m, e)), SolverResult::Unsat);
    }
}

#[test]
fn nonlinear_problems_are_handed_over() {
    let mut m = TermManager::new();
    let x = var(&mut m, "x", INT_SORT);
    let sq = m.mk_app(Op::Mul, vec![x, x], INT_SORT);
    let four = num(&mut m, 4);
    let eq = m.mk_eq(sq, four);
    let mut s = Solver::new();
    s.set_logic("QF_NIA".to_string());
    let _ = s.assert_formula(&mut m, eq, eq);
    match s.check(&mut m, quiet()) {
        CheckStep::AskNonlinear(NlPlan::Ask { atoms, .. }) => assert_eq!(atoms, vec![eq]),
        _ => panic!("the polynomial solver was to be asked"),
    }
    assert_eq!(done(&s.after_nonlinear(&m, Some(SolverResult::Sat))), SolverResult::Sat);
    assert_eq!(done(&s.after_nonlinear(&m, Some(SolverResult::Unsat))), SolverResult::Unsat);
    assert!(matches!(s.after_nonlinear(&m, None), CheckStep::Search));
    assert!(matches!(s.after_nonlinear(&m, Some(SolverResult::Unknown)), CheckStep::Search));
    let three = num(&mut m, 3);
    let no_root = m.mk_eq(sq, three);
    let _ = s.assert_formula(&mut m, no_root, no_root);
    assert_eq!(done(&s.after_nonlinear(&m, None)), SolverResult::Unsat);
}

#[test]
fn limits_stop_a_check_before_it_searches() {
    let mut m = TermManager::new();
    let p = var(&mut m, "p", BOOL_SORT);
    let mut s = Solver::new();
    let _ = s.assert_formula(&mut m, p, p);
    s.statistics.conflicts = 5;
    s.statistics.theory_conflicts = 2;
    s.statistics.theory_propagations = 3;
    s.set_conflict_limit(5);
    assert_eq!(done(&s.check(&mut m, quiet())), SolverResult::Unknown);
    s.set_conflict_limit(6);
    assert!(matches!(s.check(&mut m, quiet()), CheckStep::Search));
    let tight = ResourceLimits { max_conflicts: Some(4), max_decisions: Some(9) };
    let (before, step) = s.check_with_limits(&mut m, tight, quiet());
    assert_eq!(before, (6, 0));
    assert_eq!(done(&step), SolverResult::Unknown);
    assert_eq!((s.config.max_conflicts, s.config.max_decisions), (4, 9));
    let usage = s.end_limits(before);
    assert_eq!((s.config.max_conflicts, s.config.max_decisions), (6, 0));
    assert_eq!((usage.conflicts, usage.theory_checks), (5, 5));
    assert_eq!(limited_verdict(SolverResult::Unknown, Some("conflicts")), Err("conflicts"));
    assert_eq!(limited_verdict(SolverResult::Sat, Some("conflicts")), Ok(SolverResult::Sat));
    assert_eq!(limited_verdict::<u8>(SolverResult::Unknown, None), Ok(SolverResult::Unknown));
    s.set_decision_limit(1);
    s.statistics.decisions = 1;
    assert_eq!(done(&s.check(&mut m, quiet())), SolverResult::Unknown);
    s.reset_statistics();
    assert_eq!(s.get_statistics().decisions, 0);
    s.set_timeout(2_500);
    assert_eq!(s.config().timeout_ms, 2_500);
}

#[test]
fn a_found_assignment_becomes_a_model() {
    let mut m = TermManager::new();
    let p = var(&mut m, "p", BOOL_SORT);
    let mut s = Solver::new();
    let _ = s.assert_formula(&mut m, p, p);
    let a = truths(&s, true);
    let step = s.after_search(&mut m, SolverResult::Sat, false, &a, &vec![], 0);
    assert_eq!(step, SearchStep::Done(SolverResult::Sat));
    assert_eq!(s.model().unwrap().get(p), Some(TRUE_TERM));
    // One that no theory confirmed is no verdict.
    let step = s.after_search(&mut m, SolverResult::Sat, true, &a, &vec![], 0);
    assert_eq!(step, SearchStep::Done(SolverResult::Unknown));
    let step = s.after_search(&mut m, SolverResult::Unknown, false, &a, &vec![], 0);
    assert_eq!(step, SearchStep::Done(SolverResult::Unknown));
}

#[test]
fn a_failed_search_gives_a_core() {
    let mut m = TermManager::new();
    let p = var(&mut m, "p", BOOL_SORT);
    let np = m.mk_app(Op::Not, vec![p], BOOL_SORT);
    let mut s = Solver::new();
    s.enable_assumption_based_cores();
    let _ = s.assert_named(&mut m, p, "yes".to_string());
    let _ = s.assert_named(&mut m, np, "no".to_string());
    let a = truths(&s, true);
    let step = s.after_search(&mut m, SolverResult::Unsat, false, &a, &vec![], 0);
    assert_eq!(step, SearchStep::Done(SolverResult::Unsat));
    let c = s.get_unsat_core().unwrap();
    assert_eq!(c.indices, vec![0, 1]);
    assert_eq!(c.names, vec!["yes".to_string(), "no".to_string()]);
}

#[test]
fn quantifiers_are_instantiated_in_rounds() {
    let mut m = TermManager::new();
    let x = var(&mut m, "x", INT_SORT);
    let c = var(&mut m, "c", INT_SORT);
    let body = m.mk_eq(x, c);
    let all = quantified(&mut m, "x", body);
    let cc = m.mk_eq(c, c);
    let lemma = m.mk_app(Op::Implies, vec![all, cc], BOOL_SORT);
    let mut s = Solver::new();
    let _ = s.assert_formula(&mut m, all, all);
    let _ = s.assert_formula(&mut m, cc, cc);
    let a = truths(&s, true);
    let mut instances: Vec<TermId> = vec![];
    assert_eq!(s.after_search(&mut m, SolverResult::Sat, false, &a, &instances, 0), SearchStep::Instantiate);
    let step = s.after_round(&mut m, &RoundVerdict::NewLemmas(vec![lemma]), false, &mut instances, 0);
    assert_eq!(step, RoundStep::Again);
    assert_eq!(instances, vec![cc]);
    assert_eq!(s.ground_formulas(&m, &instances), vec![cc, cc]);
    // With instances, verdicts have to be confirmed.
    assert_eq!(s.after_search(&mut m, SolverResult::Unsat, false, &a, &instances, 1), SearchStep::ConfirmUnsat);
    assert_eq!(s.verify_clean_unsat(SolverResult::Sat), SolverResult::Unknown);
    assert_eq!(s.verify_clean_unsat(SolverResult::Unsat), SolverResult::Unsat);
    assert_eq!(s.after_round(&mut m, &RoundVerdict::Saturated, false, &mut instances, 1), RoundStep::ConfirmSat);
    assert_eq!(s.verify_clean_saturated(SolverResult::Sat), SolverResult::Sat);
    assert_eq!(s.verify_clean_saturated(SolverResult::Unsat), SolverResult::Unsat);
    assert_eq!(s.verify_clean_saturated(SolverResult::Unknown), SolverResult::Unknown);
    let none = RoundVerdict::NewLemmas(vec![]);
    let last = s.after_round(&mut m, &none, false, &mut instances, MAX_ROUNDS - 1);
    assert_eq!(last, RoundStep::Done(SolverResult::Unknown));
    let open = s.after_round(&mut m, &RoundVerdict::Inconclusive, false, &mut instances, 0);
    assert_eq!(open, RoundStep::Done(SolverResult::Unknown));
    let spent = s.after_round(&mut m, &RoundVerdict::BudgetExhausted, false, &mut instances, 0);
    assert_eq!(spent, RoundStep::Done(SolverResult::Unknown));
    let mut fresh: Vec<TermId> = vec![];
    let full = s.after_round(&mut m, &RoundVerdict::Saturated, false, &mut fresh, 0);
    assert_eq!(full, RoundStep::Done(SolverResult::Sat));
    let unsure = s.after_round(&mut m, &RoundVerdict::Saturated, true, &mut fresh, 0);
    assert_eq!(unsure, RoundStep::Done(SolverResult::Unknown));
}

#[test]
fn without_instantiation_rounds_only_count() {
    let mut m = TermManager::new();
    let x = var(&mut m, "x", INT_SORT);
    let body = m.mk_eq(x, x);
    let all = quantified(&mut m, "x", body);
    let mut s = Solver::new();
    s.config.clean_mbqi = false;
    let _ = s.assert_formula(&mut m, all, all);
    let a = truths(&s, true);
    assert_eq!(s.after_search(&mut m, SolverResult::Sat, false, &a, &vec![], 0), SearchStep::Again);
    let last = s.after_search(&mut m, SolverResult::Sat, false, &a, &vec![], MAX_ROUNDS - 1);
    assert_eq!(last, SearchStep::Done(SolverResult::Unknown));
}

#[test]
fn a_fresh_solver_takes_no_quantifier() {
    let mut s = Solver::new();
    let g = s.ground_solver();
    assert!(!g.config().clean_mbqi);
    assert_eq!(g.logic.as_deref(), Some("ALL"));
    s.set_logic("UFLIA".to_string());
    assert_eq!(s.ground_solver().logic.as_deref(), Some("UFLIA"));
    assert_eq!(s.ground_solver().num_assertions(), 0);
}

#[test]
fn assumptions_are_temporary() {
    let mut m = TermManager::new();
    let p = var(&mut m, "p", BOOL_SORT);
    let q = var(&mut m, "q", BOOL_SORT);
    let mut s = Solver::new();
    let _ = s.assert_formula(&mut m, p, p);
    let clauses = s.encoder.clauses.clone();
    let step = s.check_with_assumptions(&mut m, &vec![q, FALSE_TERM], &vec![q, FALSE_TERM], quiet());
    assert_eq!(done(&step), SolverResult::Unsat);
    assert_eq!((s.num_assertions(), s.context_level()), (3, 1));
    s.pop();
    assert_eq!((s.num_assertions(), s.context_level()), (1, 0));
    assert_eq!(s.encoder.clauses, clauses);
    assert!(matches!(s.check(&mut m, quiet()), CheckStep::Search));
}

#[test]
fn the_clauses_alone_can_be_checked() {
    let mut m = TermManager::new();
    let p = var(&mut m, "p", BOOL_SORT);
    let mut s = Solver::new();
    let nothing = truths(&s, true);
    assert_eq!(s.check_sat_only(&mut m, SolverResult::Unsat, &nothing), SolverResult::Sat);
    let _ = s.assert_formula(&mut m, p, p);
    let a = truths(&s, true);
    assert_eq!(s.check_sat_only(&mut m, SolverResult::Unsat, &a), SolverResult::Unsat);
    assert!(s.model().is_none());
    assert_eq!(s.check_sat_only(&mut m, SolverResult::Sat, &a), SolverResult::Sat);
    assert_eq!(s.model().unwrap().get(p), Some(TRUE_TERM));
    let _ = s.assert_formula(&mut m, FALSE_TERM, FALSE_TERM);
    assert_eq!(s.check_sat_only(&mut m, SolverResult::Sat, &a), SolverResult::Unsat);
    assert!(s.model().is_none());
}

#[test]
fn a_check_forgets_what_an_earlier_one_found() {
    let mut m = TermManager::new();
    let p = var(&mut m, "p", BOOL_SORT);
    let mut s = Solver::new();
    s.set_produce_unsat_cores(true);
    let _ = s.assert_named(&mut m, p, "p".to_string());
    assert!(matches!(s.check(&mut m, quiet()), CheckStep::Search));
    let a = truths(&s, true);
    let none: Vec<TermId> = vec![];
    let step = s.after_search(&mut m, SolverResult::Sat, false, &a, &none, 0);
    assert!(matches!(step, SearchStep::Done(SolverResult::Sat)));
    assert!(s.model().is_some() && s.get_unsat_core().is_none());
    let _ = s.assert_formula(&mut m, FALSE_TERM, FALSE_TERM);
    assert_eq!(done(&s.check(&mut m, quiet())), SolverResult::Unsat);
    assert!(s.model().is_none());
    assert_eq!(s.get_unsat_core().unwrap().indices, vec![1]);
    assert_eq!(s.give_up(), SolverResult::Unknown);
    assert!(s.model().is_none());
}

#[test]
fn early_conflicts_leave_a_core() {
    let mut m = TermManager::new();
    let p = var(&mut m, "p", BOOL_SORT);
    let mut s = Solver::new();
    s.set_produce_unsat_cores(true);
    let _ = s.assert_named(&mut m, p, "only".to_string());
    let early = EarlyConflicts { strings: true, floats: false, arrays: false, bits: false };
    assert_eq!(done(&s.check(&mut m, early)), SolverResult::Unsat);
    let core = s.get_unsat_core().unwrap();
    assert_eq!(core.indices, vec![0]);
    assert_eq!(core.names, vec!["only".to_string()]);
    let early = EarlyConflicts { strings: false, floats: false, arrays: true, bits: false };
    assert_eq!(done(&s.check(&mut m, early)), SolverResult::Unsat);
    assert_eq!(s.get_unsat_core().unwrap().indices, vec![0]);
    assert_eq!(done(&s.after_nonlinear(&m, Some(SolverResult::Unsat))), SolverResult::Unsat);
    assert_eq!(s.get_unsat_core().unwrap().names, vec!["only".to_string()]);
}

#[test]
fn a_check_under_assumptions_leaves_nothing_behind() {
    let mut m = TermManager::new();
    let p = var(&mut m, "p", BOOL_SORT);
    let q = var(&mut m, "q", BOOL_SORT);
    let mut s = Solver::new();
    s.set_produce_unsat_cores(true);
    let _ = s.assert_named(&mut m, p, "p".to_string());
    let (clauses, vars) = (s.encoder.clauses.len(), s.num_variables());
    let step = s.check_with_assumptions(&mut m, &vec![q, FALSE_TERM], &vec![q, FALSE_TERM], quiet());
    assert_eq!(done(&step), SolverResult::Unsat);
    assert_eq!((s.num_assertions(), s.context_level()), (3, 1));
    s.pop();
    assert_eq!((s.num_assertions(), s.context_level()), (1, 0));
    assert_eq!(s.records.named_assertions.len(), 1);
    assert_eq!((s.encoder.clauses.len(), s.num_variables()), (clauses, vars));
    assert!(matches!(s.check(&mut m, quiet()), CheckStep::Search));
}

#[test]
fn cores_are_minimized() {
    let mut m = TermManager::new();
    let p = var(&mut m, "p", BOOL_SORT);
    let q = var(&mut m, "q", BOOL_SORT);
    let r = var(&mut m, "r", BOOL_SORT);
    let np = m.mk_app(Op::Not, vec![p], BOOL_SORT);
    let mut s = Solver::new();
    assert!(matches!(s.minimize_unsat_core(), MinimizeStep::Nothing));
    s.set_produce_unsat_cores(true);
    assert!(matches!(s.minimize_unsat_core(), MinimizeStep::Nothing));
    for (t, n) in [(q, "a"), (p, "b"), (r, "c"), (np, "d")] {
        let _ = s.assert_named(&mut m, t, n.to_string());
    }
    s.unsat_core = build_unsat_core(&s.records.named_assertions, true);
    let mut search = match s.minimize_unsat_core() {
        MinimizeStep::Search(c) => c,
        _ => panic!("there is a core to minimize"),
    };
    let mut asked = 0;
    while let Some(query) = search.query() {
        search.answer(query.contains(&p) && query.contains(&np));
        asked += 1;
    }
    assert_eq!(asked, 4);
    let core = search.finish(&s.records.named_assertions);
    assert_eq!(core.indices, vec![1, 3]);
    assert_eq!(core.names, vec!["b".to_string(), "d".to_string()]);
    s.unsat_core = Some(UnsatCore::new());
    assert!(matches!(s.minimize_unsat_core(), MinimizeStep::Done(_)));
}

#[test]
fn cores_name_false_assertions() {
    let named = vec![
        NamedAssertion { term: 9, name: Some("x".to_string()), index: 0 },
        NamedAssertion { term: FALSE_TERM, name: None, index: 1 },
        NamedAssertion { term: FALSE_TERM, name: Some("y".to_string()), index: 2 },
    ];
    let c = build_unsat_core_trivial_false(&vec![9, FALSE_TERM, FALSE_TERM], &named, true).unwrap();
    assert_eq!(c.indices, vec![1, 2]);
    assert_eq!(c.names, vec!["y".to_string()]);
    assert_eq!(c.len(), 2);
    assert!(!c.is_empty() && UnsatCore::default().is_empty());
    assert!(build_unsat_core_trivial_false(&vec![FALSE_TERM], &named, false).is_none());
    assert!(build_unsat_core(&named, false).is_none());
    assert_eq!(build_unsat_core(&named, true).unwrap().names.len(), 2);
}

#[test]
fn theories_borrow_the_state_of_the_solver() {
    let mut m = TermManager::new();
    let x = var(&mut m, "x", INT_SORT);
    let y = var(&mut m, "y", INT_SORT);
    let lt = m.mk_app(Op::Compare(Rel::Lt), vec![x, y], BOOL_SORT);
    let mut s = Solver::new();
    let _ = s.assert_formula(&mut m, lt, lt);
    s.statistics.conflicts = 3;
    let vars = s.encoder.var_to_term.clone();
    let mut tm = s.take_theory_manager();
    assert!(s.encoder.var_to_term.is_empty() && s.encoder.constraints.is_empty());
    assert_eq!(tm.var_to_term, vars);
    assert_eq!(tm.statistics.conflicts, 3);
    assert!(tm.suppress_stale_bounds);
    tm.statistics.conflicts = 4;
    s.restore_theory_manager(tm);
    assert_eq!(s.encoder.var_to_term, vars);
    assert_eq!(s.encoder.constraints.len(), 1);
    assert_eq!(s.get_statistics().conflicts, 4);
    s.set_theory_aware_branching(false);
    assert!(!s.theory_aware_branching());
}

#[test]
fn the_plan_for_equality_outlives_a_search() {
    let mut m = TermManager::new();
    let x = var(&mut m, "x", INT_SORT);
    let y = var(&mut m, "y", INT_SORT);
    let z = var(&mut m, "z", INT_SORT);
    let xy = m.mk_eq(x, y);
    let yz = m.mk_eq(y, z);
    let mut s = Solver::new();
    let _ = s.assert_formula(&mut m, xy, xy);
    let l = Lit::pos(s.encoder.term_to_var[&xy]);
    let mut tm = s.take_theory_manager();
    assert!(tm.euf.nodes.is_empty() && s.euf.nodes.is_empty());
    let _ = tm.on_assignment(&m, l);
    s.restore_theory_manager(tm);
    assert_eq!(s.euf.nodes.len(), 2);
    let told = s.euf.cmds.len();
    s.push();
    let _ = s.assert_formula(&mut m, yz, yz);
    let r = Lit::pos(s.encoder.term_to_var[&yz]);
    let mut tm = s.take_theory_manager();
    assert!(tm.euf.interned.contains(&x) && tm.euf.interned.contains(&y));
    let _ = tm.on_assignment(&m, r);
    assert_eq!(tm.euf.nodes.len(), 3);
    assert_eq!(tm.euf.cmds.len(), told + 1);
    s.restore_theory_manager(tm);
    s.pop();
    assert_eq!(s.euf.nodes.len(), 2);
    assert!(!s.euf.interned.contains(&z));
    assert_eq!(s.num_assertions(), 1);
}

#[test]
fn a_reset_leaves_nothing_behind() {
    let mut m = TermManager::new();
    let x = var(&mut m, "x", INT_SORT);
    let y = var(&mut m, "y", INT_SORT);
    let lt = m.mk_app(Op::Compare(Rel::Lt), vec![x, y], BOOL_SORT);
    let all = quantified(&mut m, "i", lt);
    let mut s = Solver::new();
    s.set_produce_unsat_cores(true);
    s.push();
    let _ = s.assert_formula(&mut m, lt, lt);
    let _ = s.assert_formula(&mut m, all, all);
    assert!(s.encoder.has_quantifiers && s.encoder.arith_terms.contains(&x));
    s.reset();
    assert!(!s.encoder.has_quantifiers && s.encoder.arith_terms.is_empty() && s.encoder.walked.is_empty());
    assert!(s.encoder.term_to_var.is_empty() && s.encoder.constraints.is_empty() && s.encoder.parsed.is_empty());
    assert!(s.encoder.clauses.is_empty() && s.encoder.trail.is_empty());
    assert!(s.records.named_assertions.is_empty() && s.records.dt_cover_done.is_empty());
    assert!(s.bv.known.is_empty() && s.euf.interned.is_empty() && s.context_stack.is_empty());
    assert!(s.produce_unsat_cores);
}

#[test]
fn only_a_quantified_formula_makes_the_solver_quantified() {
    let mut m = TermManager::new();
    let x = var(&mut m, "x", INT_SORT);
    let y = var(&mut m, "y", INT_SORT);
    let p = var(&mut m, "p", BOOL_SORT);
    let q = m.mk_eq(x, y);
    let nq = m.mk_app(Op::Not, vec![q], BOOL_SORT);
    let both = m.mk_app(Op::Or, vec![p, nq], BOOL_SORT);
    let mut s = Solver::new();
    assert!(matches!(s.assert_formula(&mut m, both, both), Asserted::Encoded(_)));
    assert!(!s.encoder.has_quantifiers);
    let all = quantified(&mut m, "i", q);
    let under = m.mk_app(Op::Implies, vec![p, all], BOOL_SORT);
    assert!(matches!(s.assert_named(&mut m, under, "u".to_string()), Asserted::Encoded(_)));
    assert!(s.encoder.has_quantifiers);
}

#[test]
fn conditionals_are_replaced_on_both_paths() {
    let mut m = TermManager::new();
    let c = var(&mut m, "c", BOOL_SORT);
    let x = var(&mut m, "x", INT_SORT);
    let y = var(&mut m, "y", INT_SORT);
    let ite = m.mk_app(Op::Ite, vec![c, x, y], INT_SORT);
    let one = num(&mut m, 1);
    let q = m.mk_eq(ite, one);
    let mut s = Solver::new();
    let first = s.assert_formula(&mut m, q, q);
    assert_eq!(s.term_ite_counter, 1);
    let second = s.assert_named(&mut m, q, "again".to_string());
    assert_eq!(s.term_ite_counter, 2);
    for r in vec![first, second] {
        match r {
            Asserted::Encoded(f) => {
                let mut open = vec![f];
                while let Some(t) = open.pop() {
                    assert!(m.terms[t].op != Op::Ite || m.terms[t].sort == BOOL_SORT);
                    open.extend(m.terms[t].args.iter().copied());
                }
            }
            _ => panic!("not encoded"),
        }
    }
    assert_eq!(s.assert_formula(&mut m, TRUE_TERM, TRUE_TERM), Asserted::True);
    assert_eq!(s.term_ite_counter, 2);
}

#[test]
fn a_ground_solver_starts_from_nothing() {
    let mut m = TermManager::new();
    let p = var(&mut m, "p", BOOL_SORT);
    let mut s = Solver::new();
    s.set_produce_unsat_cores(true);
    s.statistics.conflicts = 7;
    let _ = s.assert_named(&mut m, p, "p".to_string());
    let g = s.ground_solver();
    assert!(!g.produce_unsat_cores && g.theory_aware_branching);
    assert_eq!((g.statistics.conflicts, g.term_ite_counter), (0, 0));
    assert!(g.records.assertions.is_empty() && g.records.named_assertions.is_empty() && g.encoder.var_to_term.is_empty());
    assert!(g.model.is_none() && g.unsat_core.is_none() && g.proof_steps.is_none());
}
