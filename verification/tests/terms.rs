use oxiz_solver::bounds::check_term_bound_infeasible;
use oxiz_solver::bounds::extract_rational_const;
use oxiz_solver::bounds::TermBounds;
use oxiz_solver::builder::narrow_arith_to_real64;
use oxiz_solver::linear::constant_value;
use oxiz_solver::linear::extract_linear_terms;
use oxiz_solver::linear::parse_arith_comparison;
use oxiz_solver::linear::ArithConstraintType;
use oxiz_solver::linear::Linear;
use oxiz_solver::numeral::digits_of;
use oxiz_solver::numeral::is_zero_digits;
use oxiz_solver::numeral::magnitude;
use oxiz_solver::numeral::to_i128;
use oxiz_solver::rational::difference;
use oxiz_solver::rational::negation;
use oxiz_solver::rational::product;
use oxiz_solver::rational::quotient;
use oxiz_solver::rational::sum;
use oxiz_solver::rational::Rat;
use oxiz_solver::term::Op;
use oxiz_solver::term::Rel;
use oxiz_solver::term::Sort;
use oxiz_solver::term::SortId;
use oxiz_solver::term::Term;
use oxiz_solver::term::TermId;
use oxiz_solver::term::TermManager;
use oxiz_solver::term::BOOL_SORT;
use oxiz_solver::term::FALSE_TERM;
use oxiz_solver::term::INT_SORT;
use oxiz_solver::term::REAL_SORT;
use oxiz_solver::term::TRUE_TERM;
use oxiz_solver::walk::subterms;

fn var(m: &mut TermManager, name: &str, sort: SortId) -> TermId {
    let s = m.intern(name.to_string());
    m.mk_app(Op::Var(s), vec![], sort)
}

fn num(m: &mut TermManager, n: i64) -> TermId {
    m.mk(Term {
        op: Op::IntConst { negative: n < 0 },
        args: vec![],
        digits: digits_of(n.unsigned_abs() as u128),
        binders: vec![],
        sort: INT_SORT,
    })
}

fn frac(n: i128, d: i128) -> Rat {
    Rat { numer: n, denom: d }
}

fn parts(q: Option<Rat>) -> Option<(i128, i128)> {
    q.map(|r| (r.numer, r.denom))
}

#[test]
fn equal_nodes_are_one_node() {
    let mut m = TermManager::new();
    let x = var(&mut m, "x", INT_SORT);
    let y = var(&mut m, "y", INT_SORT);
    assert_ne!(x, y);
    assert_eq!(var(&mut m, "x", INT_SORT), x);
    assert_ne!(var(&mut m, "x", REAL_SORT), x);
    let q = m.mk_eq(x, y);
    assert_eq!(m.mk_eq(x, y), q);
    assert_ne!(m.mk_eq(y, x), q);
    assert_eq!(m.terms[q].sort, BOOL_SORT);
    assert_eq!(m.terms[TRUE_TERM].op, Op::True);
    assert_eq!(m.terms[FALSE_TERM].op, Op::False);
    assert!(m.get(q).is_some());
    assert!(m.get(10_000).is_none());
    let s = m.add_sort(Sort::BitVec(8));
    assert!(matches!(m.sorts[s], Sort::BitVec(8)));
}

#[test]
fn numerals_have_their_values() {
    assert_eq!(digits_of(0), Vec::<u64>::new());
    assert_eq!(digits_of(7), vec![7]);
    assert_eq!(digits_of(1 << 64), vec![0, 1]);
    assert_eq!(magnitude(&vec![0, 1]), Some(1 << 64));
    assert_eq!(magnitude(&vec![5, 0, 0]), Some(5));
    assert_eq!(magnitude(&vec![0, 0, 1]), None);
    assert!(is_zero_digits(&vec![0, 0]));
    assert!(!is_zero_digits(&vec![0, 2]));
    assert_eq!(to_i128(true, &vec![9]), Some(-9));
    assert_eq!(to_i128(true, &vec![0, 1 << 63]), Some(i128::MIN));
    assert_eq!(to_i128(false, &vec![0, 1 << 63]), None);
}

#[test]
fn fractions_are_added_and_multiplied_exactly() {
    assert_eq!(parts(sum(frac(1, 2), frac(1, 3))), Some((5, 6)));
    assert_eq!(parts(difference(frac(1, 2), frac(1, 3))), Some((1, 6)));
    assert_eq!(parts(product(frac(2, 3), frac(3, 4))), Some((1, 2)));
    assert_eq!(parts(quotient(frac(1, 2), frac(3, 4))), Some((2, 3)));
    assert_eq!(parts(quotient(frac(1, 2), frac(0, 1))), None);
    assert_eq!(parts(negation(frac(3, 7))), Some((-3, 7)));
    assert_eq!(parts(negation(frac(i128::MIN, 1))), None);
    assert_eq!(parts(sum(frac(i128::MAX, 1), frac(1, 1))), None);
    assert_eq!(parts(product(frac(i128::MAX, 1), frac(2, 1))), None);
    assert!(Rat::from_integer(0).is_zero());
    assert!(!frac(1, 9).is_zero());
}

#[test]
fn values_are_narrowed_to_lowest_terms() {
    assert_eq!(narrow_arith_to_real64(frac(6, 4)), (3, 2));
    assert_eq!(narrow_arith_to_real64(frac(-6, 4)), (-3, 2));
}

#[test]
fn linear_forms_are_read_off() {
    let mut m = TermManager::new();
    let x = var(&mut m, "x", INT_SORT);
    let y = var(&mut m, "y", INT_SORT);
    let two = num(&mut m, 2);
    let five = num(&mut m, 5);
    let scaled = m.mk_app(Op::Mul, vec![two, x], INT_SORT);
    let whole = m.mk_app(Op::Add, vec![scaled, y, five], INT_SORT);
    let start = Linear { terms: vec![], constant: frac(0, 1) };
    let f = extract_linear_terms(&m, whole, frac(3, 1), start).unwrap();
    let terms: Vec<(TermId, i128, i128)> = f.terms.iter().map(|(t, q)| (*t, q.numer, q.denom)).collect();
    assert!(terms.contains(&(x, 6, 1)));
    assert!(terms.contains(&(y, 3, 1)));
    assert_eq!((f.constant.numer, f.constant.denom), (15, 1));
    let square = m.mk_app(Op::Mul, vec![x, x], INT_SORT);
    let start = Linear { terms: vec![], constant: frac(0, 1) };
    let opaque = extract_linear_terms(&m, square, frac(1, 1), start);
    assert!(opaque.is_none() || opaque.unwrap().terms[0].0 == square);
    assert_eq!(parts(constant_value(&m, five)), Some((5, 1)));
    assert_eq!(parts(constant_value(&m, x)), None);
}

#[test]
fn comparisons_are_parsed() {
    let mut m = TermManager::new();
    let x = var(&mut m, "x", INT_SORT);
    let y = var(&mut m, "y", INT_SORT);
    let three = num(&mut m, 3);
    let left = m.mk_app(Op::Add, vec![x, three], INT_SORT);
    let t = m.mk_app(Op::Compare(Rel::Lt), vec![left, y], BOOL_SORT);
    let p = parse_arith_comparison(&m, left, y, ArithConstraintType::Lt, t).unwrap();
    let terms: Vec<(TermId, i128)> = p.terms.iter().map(|(t, q)| (*t, q.numer)).collect();
    assert!(terms.contains(&(x, 1)));
    assert!(terms.contains(&(y, -1)));
    assert_eq!((p.constant.numer, p.constant.denom), (-3, 1));
    assert_eq!(p.constraint_type, ArithConstraintType::Lt);
    assert_eq!(p.reason_term, t);
    // What cancels is no unknown of the comparison.
    let same = parse_arith_comparison(&m, x, x, ArithConstraintType::Le, t).unwrap();
    assert!(same.terms.is_empty());
    assert!(same.constant.is_zero());
}

#[test]
fn bounds_tighten_and_clash() {
    let mut b = TermBounds::new();
    assert!(!b.is_infeasible());
    b.add_lo(frac(1, 1), false);
    b.add_lo(frac(0, 1), true);
    b.add_hi(frac(1, 1), false);
    assert!(!b.is_infeasible());
    b.add_hi(frac(1, 1), true);
    assert!(b.is_infeasible());
    let mut e = TermBounds::new();
    e.add_eq(frac(1, 2));
    e.add_eq(frac(2, 4));
    assert!(!e.is_infeasible());
    e.add_eq(frac(1, 3));
    assert!(e.is_infeasible());
    let mut o = TermBounds::new();
    o.add_eq(frac(5, 1));
    o.add_hi(frac(5, 1), true);
    assert!(o.is_infeasible());
}

#[test]
fn asserted_bounds_of_products_are_compared() {
    let mut m = TermManager::new();
    let x = var(&mut m, "x", INT_SORT);
    let y = var(&mut m, "y", INT_SORT);
    let p = m.mk_app(Op::Mul, vec![x, y], INT_SORT);
    let one = num(&mut m, 1);
    let two = num(&mut m, 2);
    let above = m.mk_app(Op::Compare(Rel::Gt), vec![p, two], BOOL_SORT);
    let below = m.mk_app(Op::Compare(Rel::Lt), vec![p, one], BOOL_SORT);
    assert!(check_term_bound_infeasible(&m, &vec![above, below]));
    assert!(!check_term_bound_infeasible(&m, &vec![above]));
    let neg = m.mk_app(Op::Neg, vec![two], INT_SORT);
    assert_eq!(parts(extract_rational_const(&m, neg)), Some((-2, 1)));
    assert_eq!(parts(extract_rational_const(&m, x)), None);
}

#[test]
fn parts_stop_at_binders() {
    let mut m = TermManager::new();
    let x = var(&mut m, "x", INT_SORT);
    let q = m.mk_eq(x, x);
    let s = m.intern("x".to_string());
    let all = m.mk(Term { op: Op::Forall, args: vec![q], digits: vec![], binders: vec![(s, INT_SORT)], sort: BOOL_SORT });
    let n = m.mk_app(Op::Not, vec![all], BOOL_SORT);
    let found = subterms(&m, &vec![n]);
    assert!(found.contains(&n) && found.contains(&all));
    assert!(!found.contains(&q) && !found.contains(&x));
    assert_eq!(found.len(), 2);
}
