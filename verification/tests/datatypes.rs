use oxiz_solver::check::CheckStep;
use oxiz_solver::check::EarlyConflicts;
use oxiz_solver::classes::classes_of;
use oxiz_solver::cnf::Lit;
use oxiz_solver::dt_check::check_dt_constraints;
use oxiz_solver::dt_check::check_dt_or_case_split_conflict;
use oxiz_solver::dt_check::collect_var_ctor_bindings;
use oxiz_solver::dt_check::find_exhausted;
use oxiz_solver::dt_check::find_kinds_clash;
use oxiz_solver::dt_closure::compute_dt_equality_closure;
use oxiz_solver::dt_cycle::build_dt_ctor_terms;
use oxiz_solver::dt_cycle::cycle_exists_given;
use oxiz_solver::dt_cycle::has_datatype_sort;
use oxiz_solver::dt_facts::collect_all;
use oxiz_solver::dt_facts::constructor_of;
use oxiz_solver::dt_facts::find_layout;
use oxiz_solver::dt_resolve::find_field;
use oxiz_solver::dt_resolve::resolve_dt_normal_form;
use oxiz_solver::encoder::Encoder;
use oxiz_solver::solver::Asserted;
use oxiz_solver::solver::Solver;
use oxiz_solver::term::CtorLayout;
use oxiz_solver::term::Op;
use oxiz_solver::term::Sort;
use oxiz_solver::term::SortId;
use oxiz_solver::term::Symbol;
use oxiz_solver::term::TermId;
use oxiz_solver::term::TermManager;
use oxiz_solver::term::BOOL_SORT;
use oxiz_solver::term::INT_SORT;
use oxiz_solver::verdict::SolverResult;
use rustc_hash::FxHashMap;
use rustc_hash::FxHashSet;

struct Lists {
    m: TermManager,
    sort: SortId,
    nil: Symbol,
    cons: Symbol,
    head: Symbol,
    tail: Symbol,
}

fn lists() -> Lists {
    let mut m = TermManager::new();
    let nil = m.intern("nil".to_string());
    let cons = m.intern("cons".to_string());
    let head = m.intern("head".to_string());
    let tail = m.intern("tail".to_string());
    let own = m.sorts.len();
    let sort = m.add_sort(Sort::Datatype(vec![
        CtorLayout { name: nil, fields: vec![] },
        CtorLayout { name: cons, fields: vec![(head, INT_SORT), (tail, own)] },
    ]));
    assert_eq!(sort, own);
    Lists { m, sort, nil, cons, head, tail }
}

impl Lists {
    fn var(&mut self, name: &str, sort: SortId) -> TermId {
        let s = self.m.intern(name.to_string());
        self.m.mk_app(Op::Var(s), vec![], sort)
    }

    fn list(&mut self, name: &str) -> TermId {
        let s = self.sort;
        self.var(name, s)
    }

    fn empty(&mut self) -> TermId {
        self.m.mk_app(Op::DtConstructor(self.nil), vec![], self.sort)
    }

    fn link(&mut self, h: TermId, t: TermId) -> TermId {
        self.m.mk_app(Op::DtConstructor(self.cons), vec![h, t], self.sort)
    }

    fn test(&mut self, ctor: Symbol, t: TermId) -> TermId {
        self.m.mk_app(Op::DtTester(ctor), vec![t], BOOL_SORT)
    }

    fn not(&mut self, t: TermId) -> TermId {
        self.m.mk_app(Op::Not, vec![t], BOOL_SORT)
    }

    fn head_of(&mut self, t: TermId) -> TermId {
        self.m.mk_app(Op::DtSelector(self.head), vec![t], INT_SORT)
    }

    fn tail_of(&mut self, t: TermId) -> TermId {
        self.m.mk_app(Op::DtSelector(self.tail), vec![t], self.sort)
    }
}

fn quiet() -> EarlyConflicts {
    EarlyConflicts { strings: false, floats: false, arrays: false, bits: false }
}

#[test]
fn two_constructors_clash() {
    let mut l = lists();
    let x = l.list("x");
    let (nil, cons) = (l.nil, l.cons);
    let a = l.test(nil, x);
    let b = l.test(cons, x);
    assert!(check_dt_constraints(&l.m, &vec![a, b]));
    assert!(!check_dt_constraints(&l.m, &vec![a]));
    let f = collect_all(&l.m, &vec![a, b]);
    assert_eq!(f.testers, vec![(x, nil), (x, cons)]);
    assert!(find_kinds_clash(&f));
    let nb = l.not(b);
    assert!(!find_kinds_clash(&collect_all(&l.m, &vec![a, nb])));
    assert!(!check_dt_constraints(&l.m, &vec![a, nb]));
}

#[test]
fn every_value_has_a_constructor() {
    let mut l = lists();
    let x = l.list("x");
    let (nil, cons) = (l.nil, l.cons);
    let a = l.test(nil, x);
    let b = l.test(cons, x);
    let na = l.not(a);
    let nb = l.not(b);
    assert!(check_dt_constraints(&l.m, &vec![na, nb]));
    assert!(find_exhausted(&l.m, &collect_all(&l.m, &vec![na, nb])));
    assert!(!find_exhausted(&l.m, &collect_all(&l.m, &vec![na])));
}

#[test]
fn no_value_is_its_own_part() {
    let mut l = lists();
    let x = l.list("x");
    let y = l.list("y");
    let h = l.var("h", INT_SORT);
    let c = l.link(h, x);
    let loop_now = l.m.mk_eq(x, c);
    assert!(check_dt_constraints(&l.m, &vec![loop_now]));
    let d = l.link(h, y);
    let first = l.m.mk_eq(x, d);
    let second = l.m.mk_eq(y, c);
    assert!(check_dt_constraints(&l.m, &vec![first, second]));
    assert!(!check_dt_constraints(&l.m, &vec![first]));
    let ctors = build_dt_ctor_terms(&l.m, &vec![first, second]);
    assert!(ctors.contains(&c) && ctors.contains(&d));
    assert!(cycle_exists_given(&l.m, &vec![(x, d), (y, c)], &ctors));
    assert!(!cycle_exists_given(&l.m, &vec![(x, d)], &ctors));
    assert!(has_datatype_sort(&l.m, x));
    assert!(!has_datatype_sort(&l.m, h));
}

#[test]
fn constructors_are_injective() {
    let mut l = lists();
    let x = l.list("x");
    let (y, z) = (l.list("y"), l.list("z"));
    let h = l.var("h", INT_SORT);
    let (c, d) = (l.link(h, y), l.link(h, z));
    let one = l.m.mk_eq(x, c);
    let two = l.m.mk_eq(x, d);
    let same = l.m.mk_eq(y, z);
    let differ = l.not(same);
    assert!(check_dt_constraints(&l.m, &vec![one, two, differ]));
    assert!(!check_dt_constraints(&l.m, &vec![one, two]));
}

#[test]
fn alternatives_are_tried() {
    let mut l = lists();
    let (x, y) = (l.list("x"), l.list("y"));
    let nil = l.nil;
    let h = l.var("h", INT_SORT);
    let c = l.link(h, x);
    let d = l.link(h, y);
    let one = l.m.mk_eq(x, c);
    let two = l.m.mk_eq(y, d);
    let either = l.m.mk_app(Op::Or, vec![one, two], BOOL_SORT);
    assert!(check_dt_constraints(&l.m, &vec![either]));
    let mut budget: u32 = 1000;
    assert!(check_dt_or_case_split_conflict(&l.m, &vec![either], &vec![c, d], &mut budget));
    assert!(budget > 0);
    let mut scarce: u32 = 1;
    assert!(!check_dt_or_case_split_conflict(&l.m, &vec![either], &vec![c, d], &mut scarce));
    assert_eq!(scarce, 0);
    let is_nil = l.test(nil, x);
    let open = l.m.mk_app(Op::Or, vec![one, is_nil], BOOL_SORT);
    assert!(!check_dt_constraints(&l.m, &vec![open]));
}

#[test]
fn selectors_come_to_fields() {
    let mut l = lists();
    let y = l.list("y");
    let h = l.var("h", INT_SORT);
    let inner = l.link(h, y);
    let outer = l.link(h, inner);
    let t = l.tail_of(outer);
    let tt = l.tail_of(t);
    let none: FxHashMap<usize, TermId> = FxHashMap::default();
    let mut memo: FxHashMap<usize, Option<TermId>> = FxHashMap::default();
    assert_eq!(resolve_dt_normal_form(&l.m, t, &none, &mut memo), Some(inner));
    assert_eq!(resolve_dt_normal_form(&l.m, tt, &none, &mut memo), None);
    let mut binds: FxHashMap<usize, TermId> = FxHashMap::default();
    binds.insert(y, inner);
    let mut memo: FxHashMap<usize, Option<TermId>> = FxHashMap::default();
    assert_eq!(resolve_dt_normal_form(&l.m, tt, &binds, &mut memo), Some(inner));
    // A variable that is bound to its own tail comes to nothing.
    let ty = l.tail_of(y);
    let mut circle: FxHashMap<usize, TermId> = FxHashMap::default();
    circle.insert(y, ty);
    let mut memo: FxHashMap<usize, Option<TermId>> = FxHashMap::default();
    assert_eq!(resolve_dt_normal_form(&l.m, ty, &circle, &mut memo), None);
    assert_eq!(find_field(&l.m, outer, l.head), Some(h));
    assert_eq!(find_field(&l.m, outer, l.nil), None);
    assert_eq!(constructor_of(&l.m, outer), Some(l.cons));
    assert_eq!(constructor_of(&l.m, y), None);
    assert_eq!(find_layout(&l.m, l.sort, l.cons).unwrap().fields.len(), 2);
    assert!(find_layout(&l.m, l.sort, l.head).is_none());
}

#[test]
fn bindings_are_collected_over_all_assertions() {
    let mut l = lists();
    let (x, y) = (l.list("x"), l.list("y"));
    let h = l.var("h", INT_SORT);
    let e = l.empty();
    let c = l.link(h, e);
    let bind = l.m.mk_eq(y, c);
    let same = l.m.mk_eq(x, y);
    let r = collect_var_ctor_bindings(&l.m, &vec![bind, same]);
    assert_eq!(r.primary_bindings.get(&x), Some(&c));
    assert_eq!(r.primary_bindings.get(&y), Some(&c));
}

#[test]
fn one_class_keeps_terms_of_one_constructor() {
    let mut l = lists();
    let (x, y) = (l.list("x"), l.list("y"));
    let a = l.var("a", INT_SORT);
    let e = l.empty();
    let c = l.link(a, y);
    let first = l.m.mk_eq(x, e);
    let second = l.m.mk_eq(x, c);
    let r = collect_var_ctor_bindings(&l.m, &vec![first, second]);
    assert_eq!(r.primary_bindings.get(&x), Some(&e));
    assert!(r.extra_by_class.is_empty());
    assert!(r.derived_ctor_eqs.is_empty());
}

#[test]
fn a_datatype_conflict_leaves_a_core() {
    let mut l = lists();
    let x = l.var("x", INT_SORT);
    let y = l.list("y");
    let c = l.link(x, y);
    let cyc = l.m.mk_eq(y, c);
    let mut s = Solver::new();
    s.set_produce_unsat_cores(true);
    let _ = s.assert_named(&mut l.m, cyc, "cyc".to_string());
    assert!(matches!(s.check(&mut l.m, quiet()), CheckStep::Done(SolverResult::Unsat)));
    let core = s.get_unsat_core().unwrap();
    assert_eq!(core.indices, vec![0]);
    assert_eq!(core.names, vec!["cyc".to_string()]);
}

#[test]
fn covers_say_that_one_constructor_built_a_term() {
    let mut l = lists();
    let x = l.list("x");
    let cons = l.cons;
    let t = l.test(cons, x);
    let mut e = Encoder::new();
    let mut done: FxHashSet<usize> = FxHashSet::default();
    let open = e.add_dt_cover_axioms(t, &mut l.m, &mut done);
    assert_eq!(open, vec![x]);
    assert!(done.contains(&x));
    let empty = l.empty();
    let (head, tail, sort) = (l.head, l.tail, l.sort);
    let h = l.m.mk_app(Op::Apply(head), vec![x], INT_SORT);
    let tl = l.m.mk_app(Op::Apply(tail), vec![x], sort);
    let rebuilt = l.link(h, tl);
    let a = l.m.mk_eq(x, empty);
    let b = l.m.mk_eq(x, rebuilt);
    let (pa, pb) = (Lit::pos(e.term_to_var[&a]), Lit::pos(e.term_to_var[&b]));
    assert!(e.clauses.contains(&vec![pa, pb]));
    assert!(e.clauses.contains(&vec![pa.negate(), pb.negate()]));
    let count = e.clauses.len();
    assert!(e.add_dt_cover_axioms(t, &mut l.m, &mut done).is_empty());
    assert_eq!(e.clauses.len(), count);
}

#[test]
fn selectors_are_reduced_when_they_are_asserted() {
    let mut l = lists();
    let y = l.list("y");
    let (h, k) = (l.var("h", INT_SORT), l.var("k", INT_SORT));
    let c = l.link(h, y);
    let hd = l.head_of(c);
    let q = l.m.mk_eq(hd, k);
    let mut s = Solver::new();
    assert_eq!(s.assert_formula(&mut l.m, q, q), Asserted::Encoded(q));
    let field = l.m.mk_eq(hd, h);
    let lit = Lit::pos(s.encoder.term_to_var[&field]);
    assert!(s.encoder.clauses.contains(&vec![lit]));
    assert!(s.records.dt_selector_reduced.contains(&hd));
}

#[test]
fn selectors_of_variables_are_reduced_when_checked() {
    let mut l = lists();
    let (y, z) = (l.list("y"), l.list("z"));
    let x = l.var("x", INT_SORT);
    let hd = l.head_of(z);
    let same = l.m.mk_eq(hd, x);
    let c = l.link(x, y);
    let bind = l.m.mk_eq(z, c);
    let cons = l.cons;
    let is_cons = l.test(cons, z);
    let loose = l.m.mk_app(Op::Or, vec![is_cons, same], BOOL_SORT);
    let mut s = Solver::new();
    for t in [bind, loose] {
        assert!(matches!(s.assert_formula(&mut l.m, t, t), Asserted::Encoded(_)));
    }
    assert!(!s.records.dt_selector_reduced.contains(&hd));
    let step = s.check(&mut l.m, quiet());
    assert!(matches!(step, CheckStep::Search));
    assert!(s.records.dt_selector_reduced.contains(&hd));
    assert!(s.records.dt_tester_reduced.contains(&is_cons));
    let field = Lit::pos(s.encoder.term_to_var[&same]);
    assert!(s.encoder.clauses.contains(&vec![field]));
    assert!(s.encoder.clauses.contains(&vec![Lit::pos(s.encoder.term_to_var[&is_cons])]));
    // A second check finds nothing left to reduce.
    let count = s.encoder.clauses.len();
    let _ = s.check(&mut l.m, quiet());
    assert_eq!(s.encoder.clauses.len(), count);
}

#[test]
fn a_variable_with_two_constructors_is_seen_at_once() {
    let mut l = lists();
    let (x, y) = (l.list("x"), l.list("y"));
    let h = l.var("h", INT_SORT);
    let e = l.empty();
    let c = l.link(h, y);
    let one = l.m.mk_eq(x, e);
    let two = l.m.mk_eq(c, x);
    let mut s = Solver::new();
    assert_eq!(s.assert_formula(&mut l.m, one, one), Asserted::Encoded(one));
    s.push();
    assert_eq!(s.assert_formula(&mut l.m, two, two), Asserted::ConstructorClash);
    assert!(s.records.has_false_assertion);
    assert!(matches!(s.check(&mut l.m, quiet()), CheckStep::Done(SolverResult::Unsat)));
    s.pop();
    assert!(!s.records.has_false_assertion);
    assert!(!matches!(s.check(&mut l.m, quiet()), CheckStep::Done(SolverResult::Unsat)));
    assert!(check_dt_constraints(&l.m, &vec![one, two]));
}

#[test]
fn classes_join_what_is_equal() {
    let c = classes_of(&vec![(1, 2), (2, 3), (7, 8)]);
    assert_eq!(c.find(1), c.find(3));
    assert_eq!(c.find(7), c.find(8));
    assert_ne!(c.find(1), c.find(7));
    assert_eq!(c.find(5), 5);
}

#[test]
fn a_closure_takes_rounds_until_nothing_is_added() {
    let mut l = lists();
    let x = l.list("x");
    let y = l.list("y");
    let a = l.var("a", INT_SORT);
    let b = l.var("b", INT_SORT);
    let c = l.link(a, y);
    let d = l.link(b, y);
    let binds = vec![(x, c), (x, d)];
    let mut budget: u32 = 10;
    let r = compute_dt_equality_closure(&l.m, &vec![], &binds, &vec![], &mut budget);
    assert_eq!(r.closed_eqs, vec![(x, c), (x, d), (c, d), (a, b)]);
    assert_eq!(r.derived_ctor_eqs, vec![(c, d)]);
    assert_eq!(budget, 8);
    let mut none: u32 = 0;
    let r = compute_dt_equality_closure(&l.m, &vec![], &binds, &vec![], &mut none);
    assert_eq!(r.closed_eqs, binds);
    assert!(r.derived_ctor_eqs.is_empty());
    assert_eq!(none, 0);
}

#[test]
fn a_selector_equation_gives_its_field() {
    let mut l = lists();
    let x = l.list("x");
    let y = l.list("y");
    let a = l.var("a", INT_SORT);
    let b = l.var("b", INT_SORT);
    let c = l.link(a, y);
    let h = l.head_of(x);
    let mut budget: u32 = 10;
    let r = compute_dt_equality_closure(&l.m, &vec![], &vec![(x, c)], &vec![(h, b)], &mut budget);
    assert_eq!(r.closed_eqs, vec![(x, c), (a, b)]);
    assert!(r.derived_ctor_eqs.is_empty());
    assert_eq!(budget, 8);
}
