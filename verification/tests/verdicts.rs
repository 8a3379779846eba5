use oxiz_solver::verdict::OutputMode;
use oxiz_solver::verdict::SatLevel;
use oxiz_solver::verdict::SolverResult;

const DEFINITE_SAT: SatLevel = SatLevel::DefiniteSat;
const DEFINITE_UNSAT: SatLevel = SatLevel::DefiniteUnsat;
const POSSIBLY_SAT: SatLevel = SatLevel::PossiblySat;
const POSSIBLY_UNSAT: SatLevel = SatLevel::PossiblyUnsat;
const UNKNOWN: SatLevel = SatLevel::Unknown;

#[test]
fn collapse_only_definite_poles_surface() {
    assert_eq!(DEFINITE_SAT.collapse(), SolverResult::Sat);
    assert_eq!(DEFINITE_UNSAT.collapse(), SolverResult::Unsat);
    assert_eq!(POSSIBLY_SAT.collapse(), SolverResult::Unknown);
    assert_eq!(POSSIBLY_UNSAT.collapse(), SolverResult::Unknown);
    assert_eq!(UNKNOWN.collapse(), SolverResult::Unknown);
}

#[test]
fn full_str_is_uncollapsed() {
    assert_eq!(DEFINITE_SAT.as_full_str(), "definite-sat");
    assert_eq!(POSSIBLY_SAT.as_full_str(), "possibly-sat");
    assert_eq!(UNKNOWN.as_full_str(), "unknown");
    assert_eq!(POSSIBLY_UNSAT.as_full_str(), "possibly-unsat");
    assert_eq!(DEFINITE_UNSAT.as_full_str(), "definite-unsat");
}

#[test]
fn meet_unknown_is_identity() {
    for x in [DEFINITE_SAT, POSSIBLY_SAT, UNKNOWN, POSSIBLY_UNSAT, DEFINITE_UNSAT] {
        assert_eq!(UNKNOWN.meet(x), x);
        assert_eq!(x.meet(UNKNOWN), x);
    }
}

#[test]
fn meet_is_commutative_and_idempotent() {
    let all = [DEFINITE_SAT, POSSIBLY_SAT, UNKNOWN, POSSIBLY_UNSAT, DEFINITE_UNSAT];
    for a in all {
        assert_eq!(a.meet(a), a);
        for b in all {
            assert_eq!(a.meet(b), b.meet(a), "meet not commutative for {a:?},{b:?}");
        }
    }
}

#[test]
fn meet_confirmed_pole_dominates_any_guess() {
    assert_eq!(DEFINITE_SAT.meet(POSSIBLY_SAT), DEFINITE_SAT);
    assert_eq!(DEFINITE_SAT.meet(POSSIBLY_UNSAT), DEFINITE_SAT);
    assert_eq!(DEFINITE_UNSAT.meet(POSSIBLY_UNSAT), DEFINITE_UNSAT);
    assert_eq!(DEFINITE_UNSAT.meet(POSSIBLY_SAT), DEFINITE_UNSAT);
}

#[test]
fn meet_never_upgrades_two_guesses() {
    assert_eq!(POSSIBLY_SAT.meet(POSSIBLY_UNSAT), UNKNOWN);
    assert!(!POSSIBLY_SAT.meet(POSSIBLY_SAT).is_definite());
    assert!(!POSSIBLY_UNSAT.meet(POSSIBLY_UNSAT).is_definite());
    assert_eq!(POSSIBLY_SAT.meet(POSSIBLY_SAT), POSSIBLY_SAT);
    assert_eq!(POSSIBLY_UNSAT.meet(POSSIBLY_UNSAT), POSSIBLY_UNSAT);
}

#[test]
fn opposite_confirmed_poles_meet_in_unknown() {
    assert_eq!(DEFINITE_SAT.meet(DEFINITE_UNSAT), UNKNOWN);
}

#[test]
fn definite_results_come_back_from_collapse() {
    assert_eq!(SatLevel::from_definite(SolverResult::Sat), DEFINITE_SAT);
    assert_eq!(SatLevel::from_definite(SolverResult::Unsat), DEFINITE_UNSAT);
    assert_eq!(SatLevel::from_definite(SolverResult::Unknown), UNKNOWN);
    assert_eq!(SolverResult::from(DEFINITE_SAT), SolverResult::Sat);
    assert_eq!(SolverResult::from(POSSIBLY_SAT), SolverResult::Unknown);
}

#[test]
fn output_modes_render_levels() {
    assert_eq!(OutputMode::default().render(POSSIBLY_SAT), "unknown");
    assert_eq!(OutputMode::Full.render(POSSIBLY_SAT), "possibly-sat");
    assert_eq!(OutputMode::default().render(DEFINITE_UNSAT), "unsat");
}
