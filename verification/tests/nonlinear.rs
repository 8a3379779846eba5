use oxiz_solver::numeral::digits_of;
use oxiz_solver::spine::assertion_is_bridge_axiom;
use oxiz_solver::spine::dispatch_nl_solver;
use oxiz_solver::spine::nl_verdict;
use oxiz_solver::spine::rewrite_spine;
use oxiz_solver::spine::spine_native_op;
use oxiz_solver::spine::term_children;
use oxiz_solver::spine::term_mentions_real_sort;
use oxiz_solver::spine::NativeArith;
use oxiz_solver::spine::NlDispatchResult;
use oxiz_solver::spine::NlEngine;
use oxiz_solver::spine::NlPlan;
use oxiz_solver::spine::SpineRewrite;
use oxiz_solver::squares::check_nonlinear_constraints;
use oxiz_solver::squares::extract_linear_var;
use oxiz_solver::squares::extract_pure_square;
use oxiz_solver::term::Op;
use oxiz_solver::term::Rel;
use oxiz_solver::term::SortId;
use oxiz_solver::term::Term;
use oxiz_solver::term::TermId;
use oxiz_solver::term::TermManager;
use oxiz_solver::term::BOOL_SORT;
use oxiz_solver::term::INT_SORT;
use oxiz_solver::term::REAL_SORT;
use oxiz_solver::verdict::SolverResult;

fn var(m: &mut TermManager, name: &str, sort: SortId) -> TermId {
    let s = m.intern(name.to_string());
    m.mk_app(Op::Var(s), vec![], sort)
}

fn num(m: &mut TermManager, n: i64) -> TermId {
    m.mk(Term {
        op: Op::IntConst { negative: n < 0 },
        args: vec![],
        digits: digits_of(n.unsigned_abs() as u128),
        binders: vec![],
        sort: INT_SORT,
    })
}

fn apply(m: &mut TermManager, name: &str, args: Vec<TermId>, sort: SortId) -> TermId {
    let s = m.intern(name.to_string());
    m.mk_app(Op::Apply(s), args, sort)
}

fn compare(m: &mut TermManager, rel: Rel, a: TermId, b: TermId) -> TermId {
    m.mk_app(Op::Compare(rel), vec![a, b], BOOL_SORT)
}

fn bridge(m: &mut TermManager, name: &str, op: Op, sort: SortId) -> TermId {
    let x = var(m, "x", sort);
    let y = var(m, "y", sort);
    let app = apply(m, name, vec![x, y], sort);
    let native = m.mk_app(op, vec![x, y], sort);
    let body = m.mk_eq(app, native);
    let sx = m.intern("x".to_string());
    let sy = m.intern("y".to_string());
    m.mk(Term {
        op: Op::Forall,
        args: vec![body],
        digits: vec![],
        binders: vec![(sx, sort), (sy, sort)],
        sort: BOOL_SORT,
    })
}

fn negated_goal(m: &mut TermManager, cmp: TermId) -> TermId {
    let label = var(m, "loclabel", BOOL_SORT);
    let imp = m.mk_app(Op::Implies, vec![label, cmp], BOOL_SORT);
    m.mk_app(Op::Not, vec![imp], BOOL_SORT)
}

fn asked(plan: &NlPlan) -> (NlEngine, Vec<TermId>, bool) {
    match plan {
        NlPlan::Ask { engine, atoms, focused } => (*engine, atoms.clone(), *focused),
        NlPlan::Skip => panic!("nothing is asked"),
    }
}

#[test]
fn nl_provable_mul_square_reaches_nlsat_and_decides_unsat() {
    let mut m = TermManager::new();
    let xv = var(&mut m, "x!", INT_SORT);
    let law = bridge(&mut m, "Mul", Op::Mul, INT_SORT);
    let mul = apply(&mut m, "Mul", vec![xv, xv], INT_SORT);
    let zero = num(&mut m, 0);
    let ge = compare(&mut m, Rel::Ge, mul, zero);
    let goal = negated_goal(&mut m, ge);

    let plan = dispatch_nl_solver(&mut m, &vec![law, goal], &None);
    let (engine, atoms, focused) = asked(&plan);
    let square = m.mk_app(Op::Mul, vec![xv, xv], INT_SORT);
    let below = compare(&mut m, Rel::Lt, square, zero);
    assert_eq!(engine, NlEngine::Integer);
    assert_eq!(atoms, vec![below]);
    assert!(focused);
    let r = nl_verdict(focused, Some(NlDispatchResult::Unsat));
    assert_eq!(r, Some(SolverResult::Unsat));
}

#[test]
fn nl_invalid_mul_product_is_not_false_unsat() {
    let mut m = TermManager::new();
    let xv = var(&mut m, "x!", INT_SORT);
    let yv = var(&mut m, "y!", INT_SORT);
    let law = bridge(&mut m, "Mul", Op::Mul, INT_SORT);
    let mul = apply(&mut m, "Mul", vec![xv, yv], INT_SORT);
    let zero = num(&mut m, 0);
    let ge = compare(&mut m, Rel::Ge, mul, zero);
    let goal = negated_goal(&mut m, ge);

    let plan = dispatch_nl_solver(&mut m, &vec![law, goal], &None);
    let (_, atoms, focused) = asked(&plan);
    let product = m.mk_app(Op::Mul, vec![xv, yv], INT_SORT);
    let below = compare(&mut m, Rel::Lt, product, zero);
    assert_eq!(atoms, vec![below]);
    // The atom is satisfiable, and so is no verdict on the assertions.
    let r = nl_verdict(focused, Some(NlDispatchResult::Sat));
    assert_ne!(r, Some(SolverResult::Unsat));
    assert_eq!(r, None);
    assert_eq!(nl_verdict(focused, None), None);
}

#[test]
fn mul_without_bridge_axiom_is_not_rewritten() {
    let mut m = TermManager::new();
    let xv = var(&mut m, "x!", INT_SORT);
    let mul = apply(&mut m, "Mul", vec![xv, xv], INT_SORT);
    let zero = num(&mut m, 0);
    let ge = compare(&mut m, Rel::Ge, mul, zero);
    let goal = negated_goal(&mut m, ge);
    assert!(matches!(dispatch_nl_solver(&mut m, &vec![goal], &None), NlPlan::Skip));
}

#[test]
fn rmul_real_square_routes_to_nra_not_nia() {
    let mut m = TermManager::new();
    let rx = var(&mut m, "rx!", REAL_SORT);
    let law = bridge(&mut m, "RMul", Op::Mul, REAL_SORT);
    let mul = apply(&mut m, "RMul", vec![rx, rx], REAL_SORT);
    let zero = m.mk_app(Op::RealConst { numer: 0, denom: 1 }, vec![], REAL_SORT);
    let ge = compare(&mut m, Rel::Ge, mul, zero);
    let goal = negated_goal(&mut m, ge);

    let plan = dispatch_nl_solver(&mut m, &vec![law, goal], &None);
    let (engine, atoms, focused) = asked(&plan);
    let square = m.mk_app(Op::Mul, vec![rx, rx], REAL_SORT);
    let below = compare(&mut m, Rel::Lt, square, zero);
    assert_eq!(engine, NlEngine::Real);
    assert_eq!(atoms, vec![below]);
    let r = nl_verdict(focused, Some(NlDispatchResult::Unsat));
    assert_eq!(r, Some(SolverResult::Unsat));
}

fn perfect_square(m: &mut TermManager, xv: TermId) -> TermId {
    let xx = apply(m, "Mul", vec![xv, xv], INT_SORT);
    let two = num(m, 2);
    let two_x = apply(m, "Mul", vec![two, xv], INT_SORT);
    let rest = apply(m, "Sub", vec![xx, two_x], INT_SORT);
    let one = num(m, 1);
    apply(m, "Add", vec![rest, one], INT_SORT)
}

#[test]
fn nl_perfect_square_additive_spine_reaches_kb_and_decides_unsat() {
    let mut m = TermManager::new();
    let xv = var(&mut m, "x!", INT_SORT);
    let mb = bridge(&mut m, "Mul", Op::Mul, INT_SORT);
    let ab = bridge(&mut m, "Add", Op::Add, INT_SORT);
    let sb = bridge(&mut m, "Sub", Op::Sub, INT_SORT);
    let f = perfect_square(&mut m, xv);
    let zero = num(&mut m, 0);
    let ge = compare(&mut m, Rel::Ge, f, zero);
    let goal = negated_goal(&mut m, ge);

    let plan = dispatch_nl_solver(&mut m, &vec![mb, ab, sb, goal], &None);
    let (_, atoms, focused) = asked(&plan);
    let two = num(&mut m, 2);
    let one = num(&mut m, 1);
    let xx = m.mk_app(Op::Mul, vec![xv, xv], INT_SORT);
    let two_x = m.mk_app(Op::Mul, vec![two, xv], INT_SORT);
    let rest = m.mk_app(Op::Sub, vec![xx, two_x], INT_SORT);
    let whole = m.mk_app(Op::Add, vec![rest, one], INT_SORT);
    let below = compare(&mut m, Rel::Lt, whole, zero);
    assert_eq!(atoms, vec![below]);
    let r = nl_verdict(focused, Some(NlDispatchResult::Unsat));
    assert_eq!(r, Some(SolverResult::Unsat));
}

#[test]
fn additive_spine_without_add_bridge_is_not_rewritten() {
    let mut m = TermManager::new();
    let xv = var(&mut m, "x!", INT_SORT);
    let mb = bridge(&mut m, "Mul", Op::Mul, INT_SORT);
    let sb = bridge(&mut m, "Sub", Op::Sub, INT_SORT);
    let f = perfect_square(&mut m, xv);
    let zero = num(&mut m, 0);
    let ge = compare(&mut m, Rel::Ge, f, zero);
    let goal = negated_goal(&mut m, ge);

    let plan = dispatch_nl_solver(&mut m, &vec![mb, sb, goal], &None);
    // The sum stays what it is: a polynomial solver has nothing to say of it.
    let found = match &plan {
        NlPlan::Skip => None,
        NlPlan::Ask { atoms, .. } => {
            let spine = SpineRewrite { mul: true, rmul: false, add: false, sub: true, radd: false, rsub: false };
            let kept = rewrite_spine(&mut m, f, &spine).unwrap_or(f);
            assert!(matches!(m.terms[kept].op, Op::Apply(_)));
            assert_eq!(atoms.len(), 1);
            assert_eq!(m.terms[atoms[0]].args[0], kept);
            nl_verdict(true, None)
        }
    };
    assert_ne!(found, Some(SolverResult::Unsat));
}

#[test]
fn nl_invalid_indefinite_quadratic_additive_spine_not_false_unsat() {
    let mut m = TermManager::new();
    let xv = var(&mut m, "x!", INT_SORT);
    let mb = bridge(&mut m, "Mul", Op::Mul, INT_SORT);
    let sb = bridge(&mut m, "Sub", Op::Sub, INT_SORT);
    let xx = apply(&mut m, "Mul", vec![xv, xv], INT_SORT);
    let one = num(&mut m, 1);
    let body = apply(&mut m, "Sub", vec![xx, one], INT_SORT);
    let zero = num(&mut m, 0);
    let ge = compare(&mut m, Rel::Ge, body, zero);
    let goal = negated_goal(&mut m, ge);

    let plan = dispatch_nl_solver(&mut m, &vec![mb, sb, goal], &None);
    let (_, atoms, focused) = asked(&plan);
    let square = m.mk_app(Op::Mul, vec![xv, xv], INT_SORT);
    let rest = m.mk_app(Op::Sub, vec![square, one], INT_SORT);
    let below = compare(&mut m, Rel::Lt, rest, zero);
    assert_eq!(atoms, vec![below]);
    let r = nl_verdict(focused, Some(NlDispatchResult::Sat));
    assert_ne!(r, Some(SolverResult::Unsat));
}

#[test]
fn nl_multivariate_sos_form_reaches_kb_and_decides_unsat() {
    let mut m = TermManager::new();
    let xv = var(&mut m, "x!", INT_SORT);
    let yv = var(&mut m, "y!", INT_SORT);
    let mb = bridge(&mut m, "Mul", Op::Mul, INT_SORT);
    let ab = bridge(&mut m, "Add", Op::Add, INT_SORT);
    let sb = bridge(&mut m, "Sub", Op::Sub, INT_SORT);
    let xx = apply(&mut m, "Mul", vec![xv, xv], INT_SORT);
    let yy = apply(&mut m, "Mul", vec![yv, yv], INT_SORT);
    let xy = apply(&mut m, "Mul", vec![xv, yv], INT_SORT);
    let two = num(&mut m, 2);
    let two_xy = apply(&mut m, "Mul", vec![two, xy], INT_SORT);
    let rest = apply(&mut m, "Sub", vec![xx, two_xy], INT_SORT);
    let f = apply(&mut m, "Add", vec![rest, yy], INT_SORT);
    let zero = num(&mut m, 0);
    let ge = compare(&mut m, Rel::Ge, f, zero);
    let goal = negated_goal(&mut m, ge);

    let plan = dispatch_nl_solver(&mut m, &vec![mb, ab, sb, goal], &None);
    let (_, atoms, focused) = asked(&plan);
    let nxx = m.mk_app(Op::Mul, vec![xv, xv], INT_SORT);
    let nyy = m.mk_app(Op::Mul, vec![yv, yv], INT_SORT);
    let nxy = m.mk_app(Op::Mul, vec![xv, yv], INT_SORT);
    let n2xy = m.mk_app(Op::Mul, vec![two, nxy], INT_SORT);
    let nrest = m.mk_app(Op::Sub, vec![nxx, n2xy], INT_SORT);
    let whole = m.mk_app(Op::Add, vec![nrest, nyy], INT_SORT);
    let below = compare(&mut m, Rel::Lt, whole, zero);
    assert_eq!(atoms, vec![below]);
    let r = nl_verdict(focused, Some(NlDispatchResult::Unsat));
    assert_eq!(r, Some(SolverResult::Unsat));
}

#[test]
fn explicit_qf_nia_logic_path_unchanged() {
    let mut m = TermManager::new();
    let xv = var(&mut m, "x", INT_SORT);
    let sq = m.mk_app(Op::Mul, vec![xv, xv], INT_SORT);
    let neg1 = num(&mut m, -1);
    let eq = m.mk_eq(sq, neg1);

    let plan = dispatch_nl_solver(&mut m, &vec![eq], &Some("QF_NIA".to_string()));
    let (engine, atoms, focused) = asked(&plan);
    assert_eq!(engine, NlEngine::Integer);
    assert_eq!(atoms, vec![eq]);
    assert!(!focused);
    let r = nl_verdict(focused, Some(NlDispatchResult::Unsat));
    assert_eq!(r, Some(SolverResult::Unsat));
    // A square is not negative: no solver is needed for this one.
    assert!(check_nonlinear_constraints(&m, &vec![eq], &Some("QF_NIA".to_string())));
}

#[test]
fn fd_core_addon_decides_nonperfect_square_unsat() {
    let mut m = TermManager::new();
    let xv = var(&mut m, "x", INT_SORT);
    let sq = m.mk_app(Op::Mul, vec![xv, xv], INT_SORT);
    let three = num(&mut m, 3);
    let eq = m.mk_eq(sq, three);
    let lo = num(&mut m, -3);
    let hi = num(&mut m, 3);
    let lob = compare(&mut m, Rel::Ge, xv, lo);
    let hib = compare(&mut m, Rel::Le, xv, hi);

    let assertions = vec![eq, lob, hib];
    let logic = Some("QF_NIA".to_string());
    let plan = dispatch_nl_solver(&mut m, &assertions, &logic);
    let (engine, atoms, focused) = asked(&plan);
    assert_eq!(engine, NlEngine::Integer);
    assert_eq!(atoms, assertions);
    let r = nl_verdict(focused, Some(NlDispatchResult::Unsat));
    assert_eq!(r, Some(SolverResult::Unsat));
    // Three is no square of an integer: that is seen without a solver too.
    assert!(check_nonlinear_constraints(&m, &assertions, &logic));
}

#[test]
fn fd_core_addon_zero_absorbing_disequality_unsat() {
    let mut m = TermManager::new();
    let xv = var(&mut m, "x", INT_SORT);
    let zero = num(&mut m, 0);
    let xeq0 = m.mk_eq(xv, zero);
    let sq = m.mk_app(Op::Mul, vec![xv, xv], INT_SORT);
    let sq_ne_0 = m.mk_app(Op::Distinct, vec![sq, zero], BOOL_SORT);
    let conj = m.mk_app(Op::And, vec![xeq0, sq_ne_0], BOOL_SORT);

    let plan = dispatch_nl_solver(&mut m, &vec![conj], &Some("QF_NIA".to_string()));
    let (engine, atoms, focused) = asked(&plan);
    assert_eq!(engine, NlEngine::Integer);
    assert_eq!(atoms, vec![conj]);
    let r = nl_verdict(focused, Some(NlDispatchResult::Unsat));
    assert_eq!(r, Some(SolverResult::Unsat));
}

#[test]
fn logic_chooses_the_polynomial_solver() {
    let mut m = TermManager::new();
    let x = var(&mut m, "x", INT_SORT);
    let r = var(&mut m, "r", REAL_SORT);
    let same = m.mk_eq(x, x);
    let real_same = m.mk_eq(r, r);
    let logic = |l: &str| Some(l.to_string());
    assert_eq!(asked(&dispatch_nl_solver(&mut m, &vec![same], &logic("QF_NRA"))).0, NlEngine::Real);
    assert_eq!(asked(&dispatch_nl_solver(&mut m, &vec![same], &logic("QF_NIRA"))).0, NlEngine::Integer);
    assert!(matches!(dispatch_nl_solver(&mut m, &vec![real_same], &logic("QF_NIRA")), NlPlan::Skip));
    assert!(matches!(dispatch_nl_solver(&mut m, &vec![same], &logic("QF_LIA")), NlPlan::Skip));
    assert_eq!(nl_verdict(false, Some(NlDispatchResult::Sat)), Some(SolverResult::Sat));
    assert!(term_mentions_real_sort(&m, real_same, 8));
    assert!(!term_mentions_real_sort(&m, same, 8));
    assert_eq!(term_children(&m, same), vec![x, x]);
}

#[test]
fn wrappers_have_native_operators() {
    assert!(matches!(spine_native_op("Mul"), Some(NativeArith::Mul)));
    assert!(matches!(spine_native_op("RAdd"), Some(NativeArith::Add)));
    assert!(matches!(spine_native_op("Sub"), Some(NativeArith::Sub)));
    assert!(spine_native_op("Div").is_none());
    let mut m = TermManager::new();
    let law = bridge(&mut m, "Mul", Op::Mul, INT_SORT);
    assert!(assertion_is_bridge_axiom(&m, law, "Mul"));
    assert!(!assertion_is_bridge_axiom(&m, law, "Add"));
    let wrong = bridge(&mut m, "Sub", Op::Add, INT_SORT);
    assert!(!assertion_is_bridge_axiom(&m, wrong, "Sub"));
}

#[test]
fn a_bridge_speaks_of_all_pairs() {
    let mut m = TermManager::new();
    let x = var(&mut m, "x", INT_SORT);
    let b = var(&mut m, "b", INT_SORT);
    let sx = m.intern("x".to_string());
    let sy = m.intern("y".to_string());
    let close = |m: &mut TermManager, body: TermId, binders: Vec<(usize, SortId)>| {
        m.mk(Term { op: Op::Forall, args: vec![body], digits: vec![], binders, sort: BOOL_SORT })
    };
    let app = apply(&mut m, "Mul", vec![x, b], INT_SORT);
    let native = m.mk_app(Op::Mul, vec![x, b], INT_SORT);
    let body = m.mk_eq(app, native);
    let half = close(&mut m, body, vec![(sx, INT_SORT)]);
    assert!(!assertion_is_bridge_axiom(&m, half, "Mul"));
    let beside = close(&mut m, body, vec![(sx, INT_SORT), (sy, INT_SORT)]);
    assert!(!assertion_is_bridge_axiom(&m, beside, "Mul"));
    let twice = apply(&mut m, "Mul", vec![x, x], INT_SORT);
    let square = m.mk_app(Op::Mul, vec![x, x], INT_SORT);
    let diagonal = m.mk_eq(twice, square);
    let only = close(&mut m, diagonal, vec![(sx, INT_SORT), (sy, INT_SORT)]);
    assert!(!assertion_is_bridge_axiom(&m, only, "Mul"));
}

#[test]
fn negative_multiples_of_squares_are_left_alone() {
    let mut m = TermManager::new();
    let x = var(&mut m, "x", REAL_SORT);
    let y = var(&mut m, "y", REAL_SORT);
    let zero = m.mk_app(Op::RealConst { numer: 0, denom: 1 }, vec![], REAL_SORT);
    let sq = m.mk_app(Op::Mul, vec![x, x], REAL_SORT);
    let positive = compare(&mut m, Rel::Gt, sq, zero);
    let sum = m.mk_app(Op::Add, vec![sq, y], REAL_SORT);
    let balanced = m.mk_eq(sum, zero);
    let neg = m.mk_app(Op::Neg, vec![y], REAL_SORT);
    let opposite = compare(&mut m, Rel::Gt, neg, zero);
    let logic = Some("QF_NRA".to_string());
    assert!(!check_nonlinear_constraints(&m, &vec![positive, balanced, opposite], &logic));
}

#[test]
fn squares_and_linear_variables_are_read_off() {
    let mut m = TermManager::new();
    let x = var(&mut m, "x", INT_SORT);
    let sq = m.mk_app(Op::Mul, vec![x, x], INT_SORT);
    let (base, coeff, integer) = extract_pure_square(&m, sq).unwrap();
    assert_eq!((base, coeff.numer, coeff.denom, integer), (x, 1, 1, true));
    assert!(extract_pure_square(&m, x).is_none());
    let three = num(&mut m, 3);
    let scaled = m.mk_app(Op::Mul, vec![three, x], INT_SORT);
    let (v, c) = extract_linear_var(&m, scaled).unwrap();
    assert_eq!((v, c.numer, c.denom), (x, 3, 1));
}

#[test]
fn static_patterns_need_a_nonlinear_logic() {
    let mut m = TermManager::new();
    let x = var(&mut m, "x", INT_SORT);
    let sq = m.mk_app(Op::Mul, vec![x, x], INT_SORT);
    let neg = num(&mut m, -4);
    let four = num(&mut m, 4);
    let bad = m.mk_eq(sq, neg);
    let good = m.mk_eq(sq, four);
    assert!(check_nonlinear_constraints(&m, &vec![bad], &Some("QF_NRA".to_string())));
    assert!(!check_nonlinear_constraints(&m, &vec![bad], &Some("QF_LIA".to_string())));
    assert!(!check_nonlinear_constraints(&m, &vec![bad], &None));
    assert!(!check_nonlinear_constraints(&m, &vec![good], &Some("QF_NIA".to_string())));
}
