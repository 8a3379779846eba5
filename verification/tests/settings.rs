use oxiz_solver::cnf::Lit;
use oxiz_solver::config::RestartStrategy;
use oxiz_solver::config::SolverConfig;
use oxiz_solver::config::Statistics;
use oxiz_solver::config::TheoryMode;
use oxiz_solver::fp::FpConstraintData;
use oxiz_solver::fp::RoundingMode;
use oxiz_solver::resolution::Proof;
use oxiz_solver::resolution::ProofStep;
use oxiz_solver::resolution::StepText;
use oxiz_solver::solver::Solver;

#[test]
fn presets_differ_as_said() {
    let fast = SolverConfig::fast();
    let balanced = SolverConfig::balanced();
    let thorough = SolverConfig::thorough();
    let minimal = SolverConfig::minimal();
    assert_eq!(SolverConfig::default(), balanced);
    assert_eq!(fast.theory_mode, TheoryMode::Eager);
    assert_eq!(minimal.theory_mode, TheoryMode::Lazy);
    assert_eq!(balanced.variable_elimination_limit, 1000);
    assert_eq!(thorough.variable_elimination_limit, 5000);
    assert!(thorough.enable_symmetry_breaking && !balanced.enable_symmetry_breaking);
    assert!(!minimal.simplify && fast.simplify);
}

#[test]
fn settings_are_changed_one_by_one() {
    let c = SolverConfig::minimal()
        .with_proof()
        .with_timeout(10)
        .with_max_conflicts(20)
        .with_max_decisions(30)
        .with_parallel(6)
        .with_restart_strategy(RestartStrategy::Glucose)
        .with_theory_mode(TheoryMode::Eager);
    assert!(c.proof && c.parallel);
    assert_eq!((c.timeout_ms, c.max_conflicts, c.max_decisions, c.num_threads), (10, 20, 30, 6));
    assert_eq!(c.restart_strategy, RestartStrategy::Glucose);
    assert_eq!(c.theory_mode, TheoryMode::Eager);
}

#[test]
fn settings_are_replaced() {
    let mut s = Solver::new();
    s.set_config(SolverConfig::minimal());
    assert_eq!(*s.config(), SolverConfig::minimal());
}

#[test]
fn counters_start_over() {
    let mut s = Statistics::new();
    s.conflicts = 3;
    s.restarts = 1;
    s.reset();
    assert_eq!(s, Statistics::default());
}

#[test]
fn proofs_are_written() {
    let mut p = Proof::new();
    assert!(p.is_empty() && !p.is_complete());
    p.add_step(ProofStep::Input { index: 0, clause: vec![Lit::pos(1)] });
    p.add_step(ProofStep::TheoryLemma { index: 1, theory: "EUF".to_string(), clause: vec![Lit::neg(1)], explanation: vec![] });
    p.add_step(ProofStep::Resolution { index: 12, left: 0, right: 1, pivot: 1, clause: vec![] });
    p.set_empty_clause(12);
    assert!(p.is_complete());
    assert_eq!((p.len(), p.steps().len()), (3, 3));
    let text = |pivot: &str, clause: &str| StepText { pivot: pivot.to_string(), clause: clause.to_string() };
    let shown = p.format(&vec![text("", "[1]"), text("", "[-1]"), text("v1", "[]")]);
    assert_eq!(
        shown,
        "(proof\n  (input 0 [1])\n  (theory-lemma 1 EUF [-1])\n  (resolution 12 0 1 v1 [])\n  (empty-clause 12)\n)\n"
    );
    assert_eq!(Proof::default().format(&vec![]), "(proof\n)\n");
}

#[test]
fn facts_about_floats_are_merged() {
    let mut a = FpConstraintData::new();
    assert!(a.is_empty());
    let mut b = FpConstraintData::default();
    b.additions.push((1, 2, 3, 4, RoundingMode::TowardZero));
    b.literals.insert(5, 6);
    b.rounding_add_results.insert((1, 2, RoundingMode::NearestAway.number()), 9);
    b.is_zero.insert(7);
    a.literals.insert(5, 1);
    a.merge(&b);
    assert!(!a.is_empty());
    assert_eq!(a.additions, vec![(1, 2, 3, 4, RoundingMode::TowardZero)]);
    assert_eq!(a.literals.get(&5), Some(&6));
    assert_eq!(a.rounding_add_results.get(&(1, 2, 1)), Some(&9));
    assert!(a.is_zero.contains(&7));
    assert_eq!(RoundingMode::TowardZero.number(), 4);
}
