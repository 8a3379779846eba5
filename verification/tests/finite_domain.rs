use oxiz_solver::cnf::Lit;
use oxiz_solver::fd::settle;
use oxiz_solver::fd::FdAtom;
use oxiz_solver::fd::FdCmp;
use oxiz_solver::fd::FdDecision;
use oxiz_solver::fd::FdPropagator;
use oxiz_solver::fd::FdVerdict;
use oxiz_solver::fd::Monomial;
use oxiz_solver::fd::TheoryStep;
use oxiz_solver::verdict::SolverResult;

fn poly(coeffs: &[(i64, &[(u32, u32)])]) -> Vec<Monomial> {
    coeffs.iter().map(|(c, p)| Monomial { coeff: *c, powers: p.to_vec() }).collect()
}

fn atom(coeffs: &[(i64, &[(u32, u32)])], op: FdCmp) -> FdAtom {
    FdAtom { poly: poly(coeffs), op }
}

fn explained(step: &TheoryStep) -> Vec<Lit> {
    match step {
        TheoryStep::Conflict { explanation } => explanation.to_vec(),
        _ => panic!("no conflict"),
    }
}

#[test]
fn fd_conjunction_unsat_is_solver_unsat() {
    let mut theory = FdPropagator::new(vec![
        (atom(&[(1, &[(0, 1)])], FdCmp::Gt), 0),
        (atom(&[(1, &[(0, 1)]), (-1, &[])], FdCmp::Lt), 1),
    ]);
    let _ = theory.assign_hook(Lit::pos(0));
    let _ = theory.assign_hook(Lit::pos(1));
    assert_eq!(theory.active_atoms(), vec![(0, FdCmp::Gt), (1, FdCmp::Lt)]);
    let step = theory.final_check_complete(FdDecision::Unsat);
    assert_eq!(explained(&step), vec![Lit::neg(0), Lit::neg(1)]);
    assert_ne!(theory.verdict(), FdVerdict::Sat);
    assert_eq!(settle(SolverResult::Unsat, theory.verdict()), SolverResult::Unsat);
}

#[test]
fn fd_bounded_box_is_sat() {
    let mut theory = FdPropagator::new(vec![
        (atom(&[(1, &[(0, 1)])], FdCmp::Ge), 0),
        (atom(&[(1, &[(0, 1)]), (-2, &[])], FdCmp::Le), 1),
        (atom(&[(1, &[(1, 1)]), (-1, &[])], FdCmp::Eq), 2),
        (atom(&[(1, &[(0, 1)]), (-1, &[(1, 1)])], FdCmp::Ge), 3),
    ]);
    for a in 0..4 {
        let _ = theory.assign_hook(Lit::pos(a));
    }
    let step = theory.final_check_complete(FdDecision::Sat);
    assert!(matches!(step, TheoryStep::Proceed));
    assert_eq!(theory.verdict(), FdVerdict::Sat);
    assert_eq!(settle(SolverResult::Sat, theory.verdict()), SolverResult::Sat);
}

#[test]
fn fd_open_axis_is_not_false_unsat() {
    let mut theory = FdPropagator::new(vec![(atom(&[(1, &[(0, 1)])], FdCmp::Gt), 0)]);
    let _ = theory.assign_hook(Lit::pos(0));
    let step = theory.final_check_complete(FdDecision::Open);
    assert!(matches!(step, TheoryStep::Proceed));
    assert_eq!(theory.verdict(), FdVerdict::Open);
    assert_ne!(settle(SolverResult::Sat, theory.verdict()), SolverResult::Unsat);
    assert_eq!(settle(SolverResult::Sat, theory.verdict()), SolverResult::Unknown);
}

#[test]
fn fd_false_asserted_atom_negates() {
    let mut theory = FdPropagator::new(vec![
        (atom(&[(1, &[(0, 1)])], FdCmp::Le), 0),
        (atom(&[(1, &[(0, 1)]), (-1, &[])], FdCmp::Lt), 1),
    ]);
    let _ = theory.assign_hook(Lit::neg(0));
    let _ = theory.assign_hook(Lit::pos(1));
    assert_eq!(theory.active_atoms(), vec![(0, FdCmp::Gt), (1, FdCmp::Lt)]);
    let step = theory.final_check_complete(FdDecision::Unsat);
    assert_eq!(explained(&step), vec![Lit::pos(0), Lit::neg(1)]);
    assert_eq!(settle(SolverResult::Unsat, theory.verdict()), SolverResult::Unsat);
}

#[test]
fn fd_propagates_forced_true_literal() {
    let mut theory = FdPropagator::new(vec![
        (atom(&[(1, &[(0, 1)]), (-5, &[])], FdCmp::Ge), 0),
        (atom(&[(1, &[(0, 1)]), (-3, &[])], FdCmp::Ge), 1),
    ]);
    let _ = theory.assign_hook(Lit::pos(0));
    let cand = theory.candidates();
    assert_eq!(cand, vec![1]);
    match theory.final_check(false, Some((0, true)), &cand) {
        TheoryStep::Propagate { lit, explanation } => {
            assert_eq!(lit, Lit::pos(1));
            assert_eq!(explanation.to_vec(), vec![Lit::neg(0)]);
        }
        TheoryStep::Conflict { .. } => panic!("expected a propagation, got a conflict"),
        TheoryStep::Proceed => panic!("expected a propagation"),
    }
}

#[test]
fn fd_propagates_forced_false_literal() {
    let mut theory = FdPropagator::new(vec![
        (atom(&[(1, &[(0, 1)])], FdCmp::Le), 0),
        (atom(&[(1, &[(0, 1)]), (-3, &[])], FdCmp::Ge), 1),
    ]);
    let _ = theory.assign_hook(Lit::pos(0));
    let cand = theory.candidates();
    match theory.final_check(false, Some((0, false)), &cand) {
        TheoryStep::Propagate { lit, .. } => assert_eq!(lit, Lit::neg(1)),
        TheoryStep::Conflict { .. } => panic!("expected a propagation, got a conflict"),
        TheoryStep::Proceed => panic!("expected a propagation"),
    }
}

#[test]
fn fd_frames_and_single_literals_are_taken_back() {
    let mut theory = FdPropagator::new(vec![
        (atom(&[(1, &[(0, 1)])], FdCmp::Gt), 4),
        (atom(&[(1, &[(1, 1)])], FdCmp::Gt), 9),
    ]);
    let _ = theory.assign_hook(Lit::pos(4));
    theory.push_frame();
    let _ = theory.assign_hook(Lit::neg(9));
    assert_eq!(theory.active_atoms().len(), 2);
    theory.unassign_hook(Lit::neg(9));
    assert_eq!(theory.active_atoms(), vec![(0, FdCmp::Gt)]);
    let _ = theory.assign_hook(Lit::pos(9));
    theory.pop_frame();
    assert_eq!(theory.active_atoms(), vec![(0, FdCmp::Gt)]);
    assert_eq!(theory.candidates(), vec![1]);
    assert_eq!(theory.eval(4), None);
    // A variable that stands for no atom is none of the theory's business.
    let _ = theory.assign_hook(Lit::pos(7));
    assert_eq!(theory.active_atoms().len(), 1);
}

#[test]
fn fd_cheap_refutation_explains_itself() {
    let mut theory = FdPropagator::new(vec![(atom(&[(1, &[])], FdCmp::Lt), 0)]);
    assert!(matches!(theory.final_check(true, None, &theory.candidates()), TheoryStep::Proceed));
    let _ = theory.assign_hook(Lit::pos(0));
    let step = theory.final_check(true, None, &theory.candidates());
    assert_eq!(explained(&step), vec![Lit::neg(0)]);
    assert_eq!(theory.explanation().to_vec(), vec![Lit::neg(0)]);
}

#[test]
fn fd_comparisons_negate() {
    assert_eq!(FdCmp::Lt.negate(), FdCmp::Ge);
    assert_eq!(FdCmp::Le.negate(), FdCmp::Gt);
    assert_eq!(FdCmp::Eq.negate(), FdCmp::Ne);
    assert_eq!(FdCmp::Ne.negate().negate(), FdCmp::Ne);
}

#[test]
fn the_last_atom_of_a_variable_counts() {
    let mut theory = FdPropagator::new(vec![
        (atom(&[(1, &[(0, 1)])], FdCmp::Gt), 7),
        (atom(&[(1, &[(0, 1)])], FdCmp::Lt), 7),
    ]);
    let _ = theory.assign_hook(Lit::pos(7));
    assert_eq!(theory.active_atoms(), vec![(1, FdCmp::Lt)]);
}
