use oxiz_solver::assertion::encode_assertion;
use oxiz_solver::cnf::Lit;
use oxiz_solver::context::Records;
use oxiz_solver::encoder::Constraint;
use oxiz_solver::encoder::Encoder;
use oxiz_solver::instances::retains_bound;
use oxiz_solver::ites::eliminate_term_ites;
use oxiz_solver::linear::ArithConstraintType;
use oxiz_solver::numeral::digits_of;
use oxiz_solver::term::BvOp;
use oxiz_solver::term::Op;
use oxiz_solver::term::Rel;
use oxiz_solver::term::Sort;
use oxiz_solver::term::SortId;
use oxiz_solver::term::Term;
use oxiz_solver::term::TermId;
use oxiz_solver::term::TermManager;
use oxiz_solver::term::BOOL_SORT;
use oxiz_solver::term::FALSE_TERM;
use oxiz_solver::term::INT_SORT;
use oxiz_solver::term::TRUE_TERM;

fn var(m: &mut TermManager, name: &str, sort: SortId) -> TermId {
    let s = m.intern(name.to_string());
    m.mk_app(Op::Var(s), vec![], sort)
}

fn num(m: &mut TermManager, n: i64) -> TermId {
    m.mk(Term {
        op: Op::IntConst { negative: n < 0 },
        args: vec![],
        digits: digits_of(n.unsigned_abs() as u128),
        binders: vec![],
        sort: INT_SORT,
    })
}

fn formula(m: &mut TermManager, op: Op, args: Vec<TermId>) -> TermId {
    m.mk_app(op, args, BOOL_SORT)
}

fn holds(clauses: &Vec<Vec<Lit>>, bits: u32) -> bool {
    clauses.iter().all(|c| c.iter().any(|l| is_true(*l, bits)))
}

fn is_true(l: Lit, bits: u32) -> bool {
    (((bits >> l.var) & 1) == 1) != l.negative
}

fn truth(m: &TermManager, e: &Encoder, t: TermId, bits: u32) -> bool {
    let args = &m.terms[t].args;
    let sub = |i: usize| truth(m, e, args[i], bits);
    match m.terms[t].op {
        Op::True => true,
        Op::False => false,
        Op::Not => !sub(0),
        Op::And => (0..args.len()).all(|i| sub(i)),
        Op::Or => (0..args.len()).any(|i| sub(i)),
        Op::Xor => sub(0) != sub(1),
        Op::Implies => !sub(0) || sub(1),
        Op::Ite => {
            if sub(0) {
                sub(1)
            } else {
                sub(2)
            }
        }
        Op::Eq => sub(0) == sub(1),
        _ => is_true(Lit::pos(e.term_to_var[&t]), bits),
    }
}

// Over all assignments that satisfy the clauses, the literal has the truth value of the formula,
// and every choice of the atoms can be completed to such an assignment.
fn is_exact(m: &TermManager, e: &Encoder, t: TermId, l: Lit, atoms: &[TermId]) {
    let n = e.var_to_term.len() as u32;
    let mut choices = std::collections::BTreeSet::new();
    for bits in 0..(1u32 << n) {
        if holds(&e.clauses, bits) {
            assert_eq!(is_true(l, bits), truth(m, e, t, bits));
            let choice: Vec<bool> = atoms.iter().map(|a| is_true(Lit::pos(e.term_to_var[a]), bits)).collect();
            choices.insert(choice);
        }
    }
    assert_eq!(choices.len(), 1 << atoms.len());
}

#[test]
fn connectives_are_defined_exactly() {
    let ops: Vec<(Op, usize)> = vec![
        (Op::Not, 1),
        (Op::And, 3),
        (Op::Or, 3),
        (Op::Xor, 2),
        (Op::Implies, 2),
        (Op::Ite, 3),
        (Op::Eq, 2),
    ];
    for (op, n) in ops {
        let mut m = TermManager::new();
        let atoms: Vec<TermId> = (0..n).map(|i| var(&mut m, &format!("p{i}"), BOOL_SORT)).collect();
        let t = formula(&mut m, op, atoms.clone());
        let mut e = Encoder::new();
        let l = e.encode(t, &mut m);
        is_exact(&m, &e, t, l, &atoms);
    }
}

#[test]
fn nested_formulas_are_defined_exactly() {
    let mut m = TermManager::new();
    let p = var(&mut m, "p", BOOL_SORT);
    let q = var(&mut m, "q", BOOL_SORT);
    let r = var(&mut m, "r", BOOL_SORT);
    let x = formula(&mut m, Op::Xor, vec![p, q]);
    let n = formula(&mut m, Op::Not, vec![x]);
    let i = formula(&mut m, Op::Implies, vec![n, r]);
    let t = formula(&mut m, Op::And, vec![i, p, TRUE_TERM]);
    let mut e = Encoder::new();
    let l = e.encode(t, &mut m);
    is_exact(&m, &e, t, l, &[p, q, r]);
    // Encoding once more adds nothing.
    let clauses = e.clauses.len();
    let vars = e.var_to_term.len();
    assert_eq!(e.encode(t, &mut m), l);
    assert_eq!(e.var_to_term.len(), vars);
    assert!(e.clauses.len() >= clauses);
}

#[test]
fn constants_are_pinned() {
    let mut m = TermManager::new();
    let mut e = Encoder::new();
    let t = e.encode(TRUE_TERM, &mut m);
    let f = e.encode(FALSE_TERM, &mut m);
    for bits in 0..(1u32 << e.var_to_term.len()) {
        if holds(&e.clauses, bits) {
            assert!(is_true(t, bits));
            assert!(!is_true(f, bits));
        }
    }
}

#[test]
fn distinct_terms_differ_pairwise() {
    let mut m = TermManager::new();
    let a = var(&mut m, "a", INT_SORT);
    let b = var(&mut m, "b", INT_SORT);
    let c = var(&mut m, "c", INT_SORT);
    let t = formula(&mut m, Op::Distinct, vec![a, b, c]);
    let mut e = Encoder::new();
    let l = e.encode(t, &mut m);
    let ab = m.mk_eq(a, b);
    let ac = m.mk_eq(a, c);
    let bc = m.mk_eq(b, c);
    for bits in 0..(1u32 << e.var_to_term.len()) {
        if holds(&e.clauses, bits) {
            let equal = [ab, ac, bc].iter().any(|q| is_true(Lit::pos(e.term_to_var[q]), bits));
            assert_eq!(is_true(l, bits), !equal);
        }
    }
    let single = formula(&mut m, Op::Distinct, vec![a]);
    let mut f = Encoder::new();
    let always = f.encode(single, &mut m);
    for bits in 0..(1u32 << f.var_to_term.len()) {
        if holds(&f.clauses, bits) {
            assert!(is_true(always, bits));
        }
    }
}

#[test]
fn atoms_tell_the_theories() {
    let mut m = TermManager::new();
    let x = var(&mut m, "x", INT_SORT);
    let three = num(&mut m, 3);
    let t = formula(&mut m, Op::Compare(Rel::Lt), vec![x, three]);
    let mut e = Encoder::new();
    let l = e.encode(t, &mut m);
    assert_eq!(e.constraints[&l.var], Constraint::Lt(x, three));
    assert_eq!(e.parsed[&l.var].constraint_type, ArithConstraintType::Lt);
    assert_eq!(e.parsed[&l.var].reason_term, t);
    assert!(e.arith_terms.contains(&x));
    let bits = m.add_sort(Sort::BitVec(8));
    let u = var(&mut m, "u", bits);
    let w = var(&mut m, "w", bits);
    let d = m.mk_app(Op::Bv(BvOp::Udiv), vec![u, w], bits);
    let q = m.mk_eq(d, w);
    assert!(!e.has_bv_arith_ops);
    let _ = e.encode(q, &mut m);
    assert!(e.bv_terms.contains(&u) && e.bv_terms.contains(&w));
    assert!(e.has_bv_arith_ops);
}

#[test]
fn what_was_recorded_is_taken_back() {
    let mut m = TermManager::new();
    let x = var(&mut m, "x", INT_SORT);
    let y = var(&mut m, "y", INT_SORT);
    let p = var(&mut m, "p", BOOL_SORT);
    let mut e = Encoder::new();
    let _ = e.encode(p, &mut m);
    let mark = e.trail.len();
    let t = formula(&mut m, Op::Compare(Rel::Le), vec![x, y]);
    let both = formula(&mut m, Op::And, vec![p, t]);
    let _ = e.encode(both, &mut m);
    assert!(e.var_to_term.len() > 1 && !e.constraints.is_empty() && !e.parsed.is_empty());
    e.undo(mark);
    assert_eq!(e.var_to_term, vec![p]);
    assert_eq!(e.term_to_var.len(), 1);
    assert!(e.constraints.is_empty() && e.parsed.is_empty());
    assert!(e.arith_terms.is_empty() && e.walked.is_empty());
}

#[test]
fn denied_equalities_of_numbers_are_split() {
    let mut m = TermManager::new();
    let x = var(&mut m, "x", INT_SORT);
    let y = var(&mut m, "y", INT_SORT);
    let q = m.mk_eq(x, y);
    let t = formula(&mut m, Op::Not, vec![q]);
    let mut e = Encoder::new();
    e.add_arith_diseq_split(t, &mut m);
    let lt = formula(&mut m, Op::Compare(Rel::Lt), vec![x, y]);
    let gt = formula(&mut m, Op::Compare(Rel::Gt), vec![x, y]);
    let want = vec![Lit::pos(e.term_to_var[&q]), Lit::pos(e.term_to_var[&lt]), Lit::pos(e.term_to_var[&gt])];
    assert!(e.clauses.contains(&want));
    let mut f = Encoder::new();
    f.add_arith_diseq_split(q, &mut m);
    assert!(f.clauses.is_empty());
}

#[test]
fn an_assertion_forces_its_formula() {
    let mut m = TermManager::new();
    let p = var(&mut m, "p", BOOL_SORT);
    let q = var(&mut m, "q", BOOL_SORT);
    let t = formula(&mut m, Op::Or, vec![p, q]);
    let mut e = Encoder::new();
    let mut rec = Records::new();
    encode_assertion(&mut e, &mut rec, &mut m, t, t);
    let mut seen = 0;
    for bits in 0..(1u32 << e.var_to_term.len()) {
        if holds(&e.clauses, bits) {
            assert!(truth(&m, &e, t, bits));
            seen += 1;
        }
    }
    assert_eq!(seen, 3);
    assert!(rec.trail.is_empty());
}

#[test]
fn term_conditionals_get_constants() {
    let mut m = TermManager::new();
    let c = var(&mut m, "c", BOOL_SORT);
    let x = var(&mut m, "x", INT_SORT);
    let y = var(&mut m, "y", INT_SORT);
    let ite = m.mk_app(Op::Ite, vec![c, x, y], INT_SORT);
    let three = num(&mut m, 3);
    let t = formula(&mut m, Op::Compare(Rel::Lt), vec![ite, three]);
    let mut counter: u64 = 5;
    let r = eliminate_term_ites(&mut m, t, &mut counter);
    assert_eq!(counter, 6);
    assert_eq!(r.steps.len(), 1);
    assert_eq!(r.steps[0].ite, ite);
    let k = r.steps[0].constant;
    assert!(matches!(m.terms[k].op, Op::Var(_)));
    assert_eq!(m.terms[k].sort, INT_SORT);
    if let Op::Var(name) = m.terms[k].op {
        assert_eq!(m.names[name], "%%termite!5");
    }
    let bare = formula(&mut m, Op::Compare(Rel::Lt), vec![k, three]);
    assert_eq!(m.terms[r.formula].op, Op::And);
    assert_eq!(m.terms[r.formula].args, vec![r.steps[0].definition, bare]);
    // Nothing to replace.
    let plain = eliminate_term_ites(&mut m, bare, &mut counter);
    assert_eq!(plain.formula, bare);
    assert_eq!(counter, 6);
}

fn quantified(m: &mut TermManager, name: &str, body: TermId) -> TermId {
    let s = m.intern(name.to_string());
    m.mk(Term { op: Op::Forall, args: vec![body], digits: vec![], binders: vec![(s, INT_SORT)], sort: BOOL_SORT })
}

#[test]
fn free_variables_respect_binders() {
    let mut m = TermManager::new();
    let x = var(&mut m, "x", INT_SORT);
    let y = var(&mut m, "y", INT_SORT);
    let t = m.mk_eq(x, y);
    let sx = m.intern("x".to_string());
    let sy = m.intern("y".to_string());
    assert!(retains_bound(&m, t, &vec![sx]));
    let all = quantified(&mut m, "x", t);
    assert!(!retains_bound(&m, all, &vec![sx]));
    assert!(retains_bound(&m, all, &vec![sx, sy]));
    assert!(!retains_bound(&m, t, &vec![]));
}

#[test]
fn instances_are_guarded_and_incomplete_ones_dropped() {
    let mut m = TermManager::new();
    let x = var(&mut m, "x", INT_SORT);
    let c = var(&mut m, "c", INT_SORT);
    let body = m.mk_eq(x, c);
    let all = quantified(&mut m, "x", body);
    let ground = m.mk_eq(c, c);
    let good = formula(&mut m, Op::Implies, vec![all, ground]);
    let bad = formula(&mut m, Op::Implies, vec![all, body]);
    let refuting = formula(&mut m, Op::Implies, vec![all, FALSE_TERM]);
    let bare = var(&mut m, "p", BOOL_SORT);
    let mut e = Encoder::new();
    let g = e.encode(all, &mut m);
    assert!(e.has_quantifiers);
    let mut instances: Vec<TermId> = vec![];
    e.add_lemmas(&mut m, &vec![good, bad, refuting, bare], &mut instances);
    assert_eq!(instances, vec![ground, FALSE_TERM]);
    let phi = Lit::pos(e.term_to_var[&ground]);
    assert!(e.clauses.contains(&vec![g.negate(), phi]));
    assert!(e.clauses.contains(&vec![g.negate()]));
    assert!(e.clauses.contains(&vec![Lit::pos(e.term_to_var[&bare])]));
    assert!(!e.term_to_var.contains_key(&body));
}

#[test]
fn definitions_are_emitted_in_order_and_nothing_else() {
    let mut m = TermManager::new();
    let p = var(&mut m, "p", BOOL_SORT);
    let q = var(&mut m, "q", BOOL_SORT);
    let mut e = Encoder::new();
    let f = e.encode(FALSE_TERM, &mut m);
    assert_eq!(e.clauses, vec![vec![f.negate()]]);
    let t = e.encode(TRUE_TERM, &mut m);
    assert_eq!(e.clauses, vec![vec![f.negate()], vec![t]]);
    let x = e.encode(p, &mut m);
    let y = e.encode(q, &mut m);
    assert_eq!(e.clauses.len(), 2);
    let imp = formula(&mut m, Op::Implies, vec![p, q]);
    let not = formula(&mut m, Op::Not, vec![imp]);
    let nr = e.encode(not, &mut m);
    let r = nr.negate();
    let own = vec![vec![nr, x.negate(), y], vec![x, r], vec![y.negate(), r]];
    assert_eq!(e.clauses[2..].to_vec(), own);
    assert!(!e.has_quantifiers);
    let apart = formula(&mut m, Op::Distinct, vec![p, q]);
    let d = e.encode(apart, &mut m);
    let same = m.mk_eq(p, q);
    let s = Lit::pos(e.term_to_var[&same]);
    assert_eq!(
        e.clauses[5..].to_vec(),
        vec![
            vec![s.negate(), x.negate(), y],
            vec![s.negate(), y.negate(), x],
            vec![x, y, s],
            vec![x.negate(), y.negate(), s],
            vec![d.negate(), s.negate()],
            vec![s, d],
        ]
    );
}

#[test]
fn equalities_that_an_assignment_denies_are_split() {
    let mut m = TermManager::new();
    let x = var(&mut m, "x", INT_SORT);
    let y = var(&mut m, "y", INT_SORT);
    let q = m.mk_eq(x, y);
    let mut e = Encoder::new();
    let l = e.encode(q, &mut m);
    e.add_arith_diseq_splits_for_sat_model(&mut m, &vec![Some(true)]);
    assert!(e.clauses.is_empty());
    e.add_arith_diseq_splits_for_sat_model(&mut m, &vec![Some(false)]);
    let lt = formula(&mut m, Op::Compare(Rel::Lt), vec![x, y]);
    let gt = formula(&mut m, Op::Compare(Rel::Gt), vec![x, y]);
    let want = vec![l, Lit::pos(e.term_to_var[&lt]), Lit::pos(e.term_to_var[&gt])];
    assert_eq!(e.clauses, vec![want]);
}

#[test]
fn a_disjunction_is_defined_by_its_long_clause_first() {
    let mut m = TermManager::new();
    let p = var(&mut m, "p", BOOL_SORT);
    let q = var(&mut m, "q", BOOL_SORT);
    let t = formula(&mut m, Op::Or, vec![p, q]);
    let mut e = Encoder::new();
    let r = e.encode(t, &mut m);
    let x = Lit::pos(e.term_to_var[&p]);
    let y = Lit::pos(e.term_to_var[&q]);
    assert_eq!(e.clauses, vec![vec![r.negate(), x, y], vec![x.negate(), r], vec![y.negate(), r]]);
}

#[test]
fn only_unknowns_under_comparisons_are_registered() {
    let mut m = TermManager::new();
    let byte = m.add_sort(Sort::BitVec(8));
    let x = var(&mut m, "x", INT_SORT);
    let y = var(&mut m, "y", INT_SORT);
    let a = var(&mut m, "a", byte);
    let b = var(&mut m, "b", byte);
    let p = var(&mut m, "p", BOOL_SORT);
    let lt = formula(&mut m, Op::Compare(Rel::Lt), vec![x, x]);
    let ab = m.mk_eq(a, a);
    let t = formula(&mut m, Op::And, vec![p, lt, ab]);
    let mut e = Encoder::new();
    let _ = e.encode(t, &mut m);
    assert!(e.arith_terms.contains(&x) && !e.arith_terms.contains(&y) && !e.arith_terms.contains(&p));
    assert!(e.bv_terms.contains(&a) && !e.bv_terms.contains(&b));
    assert!(!e.has_bv_arith_ops && !e.has_quantifiers);
    let d = m.mk_app(Op::Bv(BvOp::Udiv), vec![a, b], byte);
    let q = m.mk_eq(d, a);
    let _ = e.encode(q, &mut m);
    assert!(e.has_bv_arith_ops && e.bv_terms.contains(&b) && !e.has_quantifiers);
}
