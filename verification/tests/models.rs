use oxiz_solver::builder::build_model;
use oxiz_solver::builder::Answers;
use oxiz_solver::encoder::Encoder;
use oxiz_solver::model::format_sort;
use oxiz_solver::model::LineText;
use oxiz_solver::model::Model;
use oxiz_solver::model::ModelCache;
use oxiz_solver::numeral::digits_of;
use oxiz_solver::rational::Rat;
use oxiz_solver::term::Op;
use oxiz_solver::term::Rel;
use oxiz_solver::term::Sort;
use oxiz_solver::term::SortId;
use oxiz_solver::term::Term;
use oxiz_solver::term::TermId;
use oxiz_solver::term::TermManager;
use oxiz_solver::term::BOOL_SORT;
use oxiz_solver::term::FALSE_TERM;
use oxiz_solver::term::INT_SORT;
use oxiz_solver::term::REAL_SORT;
use oxiz_solver::term::TRUE_TERM;
use rustc_hash::FxHashMap;

fn var(m: &mut TermManager, name: &str, sort: SortId) -> TermId {
    let s = m.intern(name.to_string());
    m.mk_app(Op::Var(s), vec![], sort)
}

fn num(m: &mut TermManager, n: i64) -> TermId {
    m.mk(Term {
        op: Op::IntConst { negative: n < 0 },
        args: vec![],
        digits: digits_of(n.unsigned_abs() as u128),
        binders: vec![],
        sort: INT_SORT,
    })
}

fn no_answers(truths: Vec<Option<bool>>) -> Answers {
    Answers {
        truths,
        ints: FxHashMap::default(),
        reals: FxHashMap::default(),
        bits: FxHashMap::default(),
        nums: FxHashMap::default(),
    }
}

#[test]
fn models_hold_values() {
    let mut md = Model::new();
    assert_eq!(md.size(), 0);
    assert_eq!(md.get(7), None);
    md.set(7, TRUE_TERM);
    md.set(8, FALSE_TERM);
    md.set(7, FALSE_TERM);
    assert_eq!(md.get(7), Some(FALSE_TERM));
    assert_eq!(md.size(), 2);
    assert_eq!(md.assignments().len(), 2);
    let small = md.minimize(&vec![8, 9]);
    assert_eq!(small.size(), 1);
    assert_eq!(small.get(8), Some(FALSE_TERM));
    assert_eq!(small.get(7), None);
    assert!(small.size() <= md.size());
    let again = small.minimize(&vec![8, 9]);
    assert_eq!((again.size(), again.get(8)), (1, Some(FALSE_TERM)));
}

#[test]
fn terms_are_evaluated() {
    let mut m = TermManager::new();
    let x = var(&mut m, "x", INT_SORT);
    let y = var(&mut m, "y", INT_SORT);
    let p = var(&mut m, "p", BOOL_SORT);
    let three = num(&mut m, 3);
    let four = num(&mut m, 4);
    let mut md = Model::new();
    md.set(x, three);
    md.set(p, TRUE_TERM);
    let q = m.mk_eq(x, three);
    assert_eq!(md.eval(q, &mut m), TRUE_TERM);
    let np = m.mk_app(Op::Not, vec![p], BOOL_SORT);
    assert_eq!(md.eval(np, &mut m), FALSE_TERM);
    let both = m.mk_app(Op::And, vec![p, np], BOOL_SORT);
    assert_eq!(md.eval(both, &mut m), FALSE_TERM);
    let either = m.mk_app(Op::Or, vec![np, p], BOOL_SORT);
    assert_eq!(md.eval(either, &mut m), TRUE_TERM);
    let ite = m.mk_app(Op::Ite, vec![p, x, y], INT_SORT);
    assert_eq!(md.eval(ite, &mut m), three);
    let imp = m.mk_app(Op::Implies, vec![np, both], BOOL_SORT);
    assert_eq!(md.eval(imp, &mut m), TRUE_TERM);
    // What the model leaves open stays.
    assert_eq!(md.eval(y, &mut m), y);
    let open = m.mk_app(Op::Add, vec![x, y], INT_SORT);
    let left = m.mk_app(Op::Add, vec![three, y], INT_SORT);
    assert_eq!(md.eval(open, &mut m), left);
    let lt = m.mk_app(Op::Compare(Rel::Lt), vec![x, four], BOOL_SORT);
    assert_eq!(md.eval(lt, &mut m), lt);
    let neg = m.mk_app(Op::Neg, vec![x], INT_SORT);
    let minus = num(&mut m, -3);
    assert_eq!(md.eval(neg, &mut m), minus);
}

#[test]
fn cached_evaluation_agrees_and_counts() {
    let mut m = TermManager::new();
    let x = var(&mut m, "x", INT_SORT);
    let three = num(&mut m, 3);
    let q = m.mk_eq(x, three);
    let mut md = Model::new();
    md.set(x, three);
    let mut c = ModelCache::new(md);
    assert_eq!(c.get_direct(x), Some(three));
    assert_eq!(c.get_direct(q), None);
    assert_eq!(c.eval_lazy(q, &mut m), TRUE_TERM);
    assert_eq!(c.cache_stats(), (0, 1));
    assert_eq!(c.eval_lazy(q, &mut m), TRUE_TERM);
    assert_eq!(c.cache_stats(), (1, 1));
    assert!(c.is_cached(q) && c.cache_size() >= 1 && c.model_size() == 1);
    let all = c.eval_batch(&vec![q, x], &mut m);
    assert_eq!(all.to_vec(), vec![TRUE_TERM, three]);
    c.invalidate_term(q);
    assert!(!c.is_cached(q));
    let _ = c.eval_lazy(q, &mut m);
    c.invalidate();
    assert_eq!(c.cache_size(), 0);
    assert_eq!(c.model().size(), 1);
    assert_eq!(c.into_model().get(x), Some(three));
}

#[test]
fn sorts_are_written() {
    let mut m = TermManager::new();
    let bits = m.add_sort(Sort::BitVec(32));
    let s = m.intern("S".to_string());
    let other = m.add_sort(Sort::Other(s));
    assert_eq!(format_sort(&m, BOOL_SORT), "Bool");
    assert_eq!(format_sort(&m, INT_SORT), "Int");
    assert_eq!(format_sort(&m, REAL_SORT), "Real");
    assert_eq!(format_sort(&m, bits), "(_ BitVec 32)");
    assert_eq!(format_sort(&m, other), "Unknown");
}

#[test]
fn definitions_list_variables_only() {
    let mut m = TermManager::new();
    let x = var(&mut m, "x", INT_SORT);
    let three = num(&mut m, 3);
    let q = m.mk_eq(x, three);
    let mut md = Model::new();
    md.set(x, three);
    md.set(q, TRUE_TERM);
    let (lines, vars) = md.definitions(&m);
    assert_eq!(vars, vec![x]);
    assert_eq!(lines.len(), 1);
    assert_eq!(m.names[lines[0].name], "x");
    assert_eq!(lines[0].sort, "Int");
    assert_eq!(lines[0].value, three);
    let texts = vec![LineText { name: "x".to_string(), value: "3".to_string() }];
    assert_eq!(md.pretty_print(&lines, &texts), "(model\n  (define-fun x () Int 3)\n)");
    assert_eq!(Model::new().pretty_print(&vec![], &vec![]), "(model)");
}

#[test]
fn models_are_built_from_answers() {
    let mut m = TermManager::new();
    let x = var(&mut m, "x", INT_SORT);
    let r = var(&mut m, "r", REAL_SORT);
    let byte = m.add_sort(Sort::BitVec(8));
    let u = var(&mut m, "u", byte);
    let w = var(&mut m, "w", byte);
    let p = var(&mut m, "p", BOOL_SORT);
    let zero = num(&mut m, 0);
    let pos = m.mk_app(Op::Compare(Rel::Gt), vec![x, zero], BOOL_SORT);
    let rr = m.mk_app(Op::Compare(Rel::Le), vec![r, r], BOOL_SORT);
    let uw = m.mk_eq(u, w);
    let mut e = Encoder::new();
    let lp = e.encode(p, &mut m);
    let lpos = e.encode(pos, &mut m);
    let _ = e.encode(rr, &mut m);
    let luw = e.encode(uw, &mut m);
    let mut truths: Vec<Option<bool>> = vec![None; e.var_to_term.len()];
    truths[lp.var] = Some(false);
    truths[lpos.var] = Some(true);
    truths[luw.var] = Some(false);
    let mut a = no_answers(truths);
    a.ints.insert(x, 42);
    a.reals.insert(r, Rat { numer: 6, denom: 4 });
    a.bits.insert(u, 5);
    a.nums.insert(w, 9);
    let md = build_model(&mut m, &e, &a);
    assert_eq!(md.get(p), Some(FALSE_TERM));
    assert_eq!(md.get(pos), Some(TRUE_TERM));
    let forty_two = num(&mut m, 42);
    assert_eq!(md.get(x), Some(forty_two));
    let rv = md.get(r).unwrap();
    assert_eq!(m.terms[rv].op, Op::RealConst { numer: 3, denom: 2 });
    let uv = md.get(u).unwrap();
    assert_eq!(m.terms[uv].op, Op::BitVecConst { width: 8 });
    assert_eq!(m.terms[uv].digits, vec![5]);
    let wv = md.get(w).unwrap();
    assert_eq!(m.terms[wv].digits, vec![9]);
}

#[test]
fn asserted_equalities_pin_values() {
    let mut m = TermManager::new();
    let x = var(&mut m, "x", INT_SORT);
    let seven = num(&mut m, 7);
    let q = m.mk_eq(x, seven);
    let mut e = Encoder::new();
    let l = e.encode(q, &mut m);
    let mut truths: Vec<Option<bool>> = vec![None; e.var_to_term.len()];
    truths[l.var] = Some(true);
    let mut a = no_answers(truths);
    a.ints.insert(x, 1);
    let md = build_model(&mut m, &e, &a);
    assert_eq!(md.get(x), Some(seven));
}

#[test]
fn unknown_terms_evaluate_to_themselves_and_are_not_kept() {
    let mut m = TermManager::new();
    let x = var(&mut m, "x", INT_SORT);
    let three = num(&mut m, 3);
    let mut md = Model::new();
    md.set(x, three);
    let mut c = ModelCache::new(md);
    let unknown = m.terms.len() + 10;
    assert_eq!(c.eval_lazy(unknown, &mut m), unknown);
    assert!(!c.is_cached(unknown));
    assert_eq!(c.cache_stats(), (0, 1));
    let all = c.eval_batch(&vec![x, unknown, x], &mut m);
    assert_eq!(all.to_vec(), vec![three, unknown, three]);
    assert_eq!(c.cache_stats(), (1, 3));
    assert_eq!(c.cache_size(), 1);
}
