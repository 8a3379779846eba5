use oxiz_solver::blast::bv_width_of;
use oxiz_solver::blast::BvCmd;
use oxiz_solver::blast::BvPlan;
use oxiz_solver::bits::bitvec_const_pow2_shift;
use oxiz_solver::cnf::Lit;
use oxiz_solver::combination::CombineReply;
use oxiz_solver::combination::CombineStep;
use oxiz_solver::combine::equalities;
use oxiz_solver::combine::share;
use oxiz_solver::combine::Passing;
use oxiz_solver::combine::PassingStep;
use oxiz_solver::combine::SharedTerm;
use oxiz_solver::config::Statistics;
use oxiz_solver::config::TheoryMode;
use oxiz_solver::drain::DrainStep;
use oxiz_solver::drain::Fixpoint;
use oxiz_solver::drain::Taken;
use oxiz_solver::encoder::Constraint;
use oxiz_solver::encoder::Encoder;
use oxiz_solver::euf::EufCmd;
use oxiz_solver::euf::EufNode;
use oxiz_solver::euf::EufPlan;
use oxiz_solver::euf::FuncId;
use oxiz_solver::fd::TheoryStep;
use oxiz_solver::numeral::digits_of;
use oxiz_solver::parallel::check_domain_contradictions;
use oxiz_solver::parallel::ParallelTheoryChecker;
use oxiz_solver::parallel::ParallelTheoryResult;
use oxiz_solver::rational::Rat;
use oxiz_solver::small::LitList;
use oxiz_solver::term::BvOp;
use oxiz_solver::term::BvRel;
use oxiz_solver::term::Op;
use oxiz_solver::term::Rel;
use oxiz_solver::term::Sort;
use oxiz_solver::term::SortId;
use oxiz_solver::term::Term;
use oxiz_solver::term::TermId;
use oxiz_solver::term::TermManager;
use oxiz_solver::term::BOOL_SORT;
use oxiz_solver::term::FALSE_TERM;
use oxiz_solver::term::INT_SORT;
use oxiz_solver::term::REAL_SORT;
use oxiz_solver::term::TRUE_TERM;
use oxiz_solver::theory::declare_arith_sorts;
use oxiz_solver::theory::theory_reason_from_clause;
use oxiz_solver::theory::ArithRel;
use oxiz_solver::theory::ArithReply;
use oxiz_solver::theory::Battery;
use oxiz_solver::theory::TheoryManager;
use oxiz_solver::theory::TheoryParts;
use oxiz_solver::theory::TheoryReply;

fn var(m: &mut TermManager, name: &str, sort: SortId) -> TermId {
    let s = m.intern(name.to_string());
    m.mk_app(Op::Var(s), vec![], sort)
}

fn num(m: &mut TermManager, n: i64) -> TermId {
    m.mk(Term {
        op: Op::IntConst { negative: n < 0 },
        args: vec![],
        digits: digits_of(n.unsigned_abs() as u128),
        binders: vec![],
        sort: INT_SORT,
    })
}

fn word(m: &mut TermManager, n: u64, width: u32, sort: SortId) -> TermId {
    m.mk(Term {
        op: Op::BitVecConst { width },
        args: vec![],
        digits: digits_of(n as u128),
        binders: vec![],
        sort,
    })
}

// The link for formulas that have been encoded.
fn link(e: Encoder, mode: TheoryMode, max_conflicts: u64) -> TheoryManager {
    let parts = TheoryParts {
        euf: EufPlan::new(),
        bv: BvPlan::new(),
        bv_terms: e.bv_terms,
        var_to_constraint: e.constraints,
        var_to_parsed_arith: e.parsed,
        term_to_var: e.term_to_var,
        var_to_term: e.var_to_term,
        statistics: Statistics::new(),
    };
    TheoryManager::new(parts, mode, max_conflicts, true)
}

fn clause(r: &TheoryReply) -> Vec<Lit> {
    match r {
        TheoryReply::Conflict(c) => c.to_vec(),
        TheoryReply::Consistent => panic!("no conflict"),
    }
}

fn literals(m: &TheoryManager, terms: Vec<TermId>) -> LitList {
    m.terms_to_conflict_clause(&terms)
}

#[test]
fn applications_are_introduced_with_their_arguments() {
    let mut m = TermManager::new();
    let a = var(&mut m, "a", INT_SORT);
    let f = m.intern("f".to_string());
    let fa = m.mk_app(Op::Apply(f), vec![a], INT_SORT);
    let sel = m.mk_app(Op::Select, vec![fa, a], INT_SORT);
    let mut p = EufPlan::new();
    assert_eq!(p.intern_term_for_congruence(&m, sel), sel);
    assert!(p.interned.contains(&a) && p.interned.contains(&fa) && p.interned.contains(&sel));
    let named = p.cmds.iter().any(|c| matches!(c, EufCmd::App { term, func, args }
        if *term == fa && *func == FuncId::Named(f) && *args == vec![a]));
    let selected = p.cmds.iter().any(|c| matches!(c, EufCmd::App { term, func, args }
        if *term == sel && *func == FuncId::Select && *args == vec![fa, a]));
    assert!(named && selected);
    let n = p.cmds.len();
    let _ = p.intern_term_for_congruence(&m, sel);
    assert_eq!(p.cmds.len(), n);
}

#[test]
fn different_literals_are_told_apart() {
    let mut m = TermManager::new();
    let one = num(&mut m, 1);
    let two = num(&mut m, 2);
    let mut p = EufPlan::new();
    let _ = p.intern_term_for_congruence(&m, one);
    assert!(!p.cmds.iter().any(|c| matches!(c, EufCmd::Differ { .. })));
    let _ = p.intern_term_for_congruence(&m, two);
    let apart = p.cmds.iter().any(|c| match c {
        EufCmd::Differ { a, b, .. } => {
            let pair = (*a, *b);
            pair == (EufNode::Term(one), EufNode::Term(two)) || pair == (EufNode::Term(two), EufNode::Term(one))
        }
        _ => false,
    });
    assert!(apart);
    p.ensure_bool_nodes(&m);
    assert!(p.truths && matches!(p.cmds.last(), Some(EufCmd::Truths)));
    let live = p.nodes.len();
    let three = num(&mut m, 3);
    let _ = p.intern_term_for_congruence(&m, three);
    p.backtrack(live);
    assert_eq!(p.nodes.len(), live);
    assert!(!p.interned.contains(&three) && p.interned.contains(&two));
}

#[test]
fn bit_vectors_are_taken_apart() {
    let mut m = TermManager::new();
    let byte = m.add_sort(Sort::BitVec(8));
    let x = var(&mut m, "x", byte);
    let y = var(&mut m, "y", byte);
    let s = m.mk_app(Op::Bv(BvOp::Add), vec![x, y], byte);
    let n = m.mk_app(Op::BvNot, vec![s], byte);
    assert_eq!(bv_width_of(&m, x), Some(8));
    let i = var(&mut m, "i", INT_SORT);
    assert_eq!(bv_width_of(&m, i), None);
    let mut p = BvPlan::new();
    assert!(p.encode_bv_term_recursive(&m, n));
    assert!(p.cmds.contains(&BvCmd::New { term: x, width: 8 }));
    assert!(p.cmds.contains(&BvCmd::Binary { term: s, op: BvOp::Add, a: x, b: y }));
    assert_eq!(p.cmds.last(), Some(&BvCmd::Not { term: n, arg: s }));
    let count = p.cmds.len();
    assert!(p.encode_bv_term_recursive(&m, n));
    assert_eq!(p.cmds.len(), count);
    assert!(!p.encode_bv_term_recursive(&m, i));
    let f = m.intern("f".to_string());
    let opaque = m.mk_app(Op::Apply(f), vec![x], byte);
    assert!(!p.encode_bv_term_recursive(&m, opaque));
    assert_eq!(p.cmds.len(), count);
    assert!(p.assert_pair(&m, x, n, true));
    assert_eq!(p.cmds.last(), Some(&BvCmd::Equal { a: x, b: n }));
    assert!(p.assert_pair(&m, x, y, false));
    assert_eq!(p.cmds.last(), Some(&BvCmd::Differ { a: x, b: y }));
}

#[test]
fn powers_of_two_shift() {
    let mut m = TermManager::new();
    let byte = m.add_sort(Sort::BitVec(8));
    let x = var(&mut m, "x", byte);
    let eight = word(&mut m, 8, 8, byte);
    let six = word(&mut m, 6, 8, byte);
    let zero = word(&mut m, 0, 8, byte);
    assert_eq!(bitvec_const_pow2_shift(&m, eight), Some(3));
    assert_eq!(bitvec_const_pow2_shift(&m, six), None);
    assert_eq!(bitvec_const_pow2_shift(&m, zero), None);
    assert_eq!(bitvec_const_pow2_shift(&m, x), None);
    let p = m.mk_app(Op::Bv(BvOp::Mul), vec![x, eight], byte);
    let mut plan = BvPlan::new();
    assert!(plan.encode_bv_term_recursive(&m, p));
    assert!(plan.cmds.contains(&BvCmd::ShiftLeft { term: p, arg: x, shift: 3, width: 8 }));
}

#[test]
fn an_assigned_equality_is_told_to_every_theory() {
    let mut m = TermManager::new();
    let x = var(&mut m, "x", INT_SORT);
    let y = var(&mut m, "y", INT_SORT);
    let q = m.mk_eq(x, y);
    let mut e = Encoder::new();
    let l = e.encode(q, &mut m);
    let mut tm = link(e, TheoryMode::Eager, 0);
    let plan = tm.on_assignment(&m, l).unwrap();
    let fact = plan.euf.unwrap();
    assert_eq!((fact.a, fact.b, fact.equal, fact.reason), (EufNode::Term(x), EufNode::Term(y), true, q));
    let arith = plan.arith.unwrap();
    assert_eq!((arith.var, arith.rel, arith.reason), (l.var, ArithRel::Eq, q));
    assert_eq!(plan.sorts.len(), 2);
    assert!(plan.sorts.contains(&(x, true)) && plan.sorts.contains(&(y, true)));
    assert_eq!(plan.bits, None);
    assert_eq!(tm.statistics.propagations, 1);
    assert_eq!(tm.statistics.theory_propagations, 1);
    // Its denial says nothing to arithmetic.
    let denied = tm.on_assignment(&m, l.negate()).unwrap();
    assert!(!denied.euf.unwrap().equal);
    assert!(denied.arith.is_none() && denied.sorts.is_empty());
}

#[test]
fn a_denied_comparison_is_turned_round() {
    let mut m = TermManager::new();
    let x = var(&mut m, "x", INT_SORT);
    let y = var(&mut m, "y", INT_SORT);
    let t = m.mk_app(Op::Compare(Rel::Lt), vec![x, y], BOOL_SORT);
    let mut e = Encoder::new();
    let l = e.encode(t, &mut m);
    let mut tm = link(e, TheoryMode::Eager, 0);
    assert_eq!(tm.on_assignment(&m, l).unwrap().arith.unwrap().rel, ArithRel::Lt);
    let plan = tm.on_assignment(&m, l.negate()).unwrap();
    assert_eq!(plan.arith.unwrap().rel, ArithRel::Ge);
    assert!(plan.euf.is_none());
}

#[test]
fn signed_comparisons_of_bit_vectors_stay_signed() {
    let mut m = TermManager::new();
    let byte = m.add_sort(Sort::BitVec(8));
    let x = var(&mut m, "x", byte);
    let y = var(&mut m, "y", byte);
    let t = m.mk_app(Op::BvCompare(BvRel::Slt), vec![x, y], BOOL_SORT);
    let mut e = Encoder::new();
    let l = e.encode(t, &mut m);
    let mut tm = link(e, TheoryMode::Eager, 0);
    let plan = tm.on_assignment(&m, l).unwrap();
    assert_eq!(plan.bits, Some(t));
    assert_eq!(tm.bv.cmds.last(), Some(&BvCmd::Below { a: x, b: y, signed: true, strict: true }));
    let _ = tm.on_assignment(&m, l.negate());
    assert_eq!(tm.bv.cmds.last(), Some(&BvCmd::Below { a: y, b: x, signed: true, strict: false }));
}

#[test]
fn predicates_equal_truth_values() {
    let mut m = TermManager::new();
    let a = var(&mut m, "a", INT_SORT);
    let p = m.intern("p".to_string());
    let pa = m.mk_app(Op::Apply(p), vec![a], BOOL_SORT);
    let mut e = Encoder::new();
    let l = e.encode(pa, &mut m);
    assert_eq!(e.constraints[&l.var], Constraint::BoolApp(pa));
    let mut tm = link(e, TheoryMode::Eager, 0);
    let fact = tm.on_assignment(&m, l.negate()).unwrap().euf.unwrap();
    assert_eq!((fact.a, fact.b, fact.equal), (EufNode::Term(pa), EufNode::False, true));
}

#[test]
fn lazy_assignments_wait() {
    let mut m = TermManager::new();
    let x = var(&mut m, "x", INT_SORT);
    let y = var(&mut m, "y", INT_SORT);
    let q = m.mk_eq(x, y);
    let mut e = Encoder::new();
    let l = e.encode(q, &mut m);
    let mut tm = link(e, TheoryMode::Lazy, 0);
    assert!(tm.on_assignment(&m, l).is_none());
    assert_eq!(tm.queued(), vec![(l.var, Constraint::Eq(x, y), true)]);
    tm.unassign_hook(l);
    assert!(tm.queued().is_empty() && tm.assigned_phase.is_empty());
    tm.assign_hook(l.negate());
    let out = tm.drain_queue();
    assert_eq!(out, vec![(l.var, Constraint::Eq(x, y), false)]);
    assert!(tm.queued().is_empty());
    let plan = tm.drain_step(&m, out[0].0, out[0].1, out[0].2);
    assert!(!plan.euf.unwrap().equal);
    assert_eq!(tm.statistics.theory_propagations, 1);
    tm.assign_hook(l);
    tm.on_backtrack(&m, 0);
    assert!(tm.queued().is_empty());
}

#[test]
fn levels_are_marked_and_left() {
    let mut m = TermManager::new();
    let x = var(&mut m, "x", INT_SORT);
    let y = var(&mut m, "y", INT_SORT);
    let q = m.mk_eq(x, y);
    let mut e = Encoder::new();
    let l = e.encode(q, &mut m);
    let mut tm = link(e, TheoryMode::Eager, 0);
    tm.on_new_level(3);
    assert_eq!(tm.levels.len(), 3);
    let _ = tm.on_assignment(&m, l);
    assert!(tm.euf.nodes.len() > 0);
    tm.on_backtrack(&m, 1);
    assert_eq!(tm.levels.len(), 1);
    assert_eq!(tm.euf.nodes.len(), 0);
    tm.push_frame();
    let _ = tm.on_assignment(&m, l);
    tm.pop_frame(&m);
    assert_eq!(tm.levels.len(), 1);
    assert_eq!(tm.euf.nodes.len(), 0);
}

#[test]
fn conflicts_become_false_clauses() {
    let mut m = TermManager::new();
    let x = var(&mut m, "x", INT_SORT);
    let y = var(&mut m, "y", INT_SORT);
    let q = m.mk_eq(x, y);
    let t = m.mk_app(Op::Compare(Rel::Lt), vec![x, y], BOOL_SORT);
    let mut e = Encoder::new();
    let lq = e.encode(q, &mut m);
    let lt = e.encode(t, &mut m);
    let mut tm = link(e, TheoryMode::Lazy, 2);
    tm.assign_hook(lq);
    tm.assign_hook(lt.negate());
    assert_eq!(literals(&tm, vec![q, t, 10_000]).to_vec(), vec![lq.negate(), lt]);
    let told = tm.theory_consistency_check(Some(vec![q, t]), None, ArithReply::Sat, false);
    match told {
        Battery::Told(r) => assert_eq!(clause(&r), vec![lq.negate(), lt]),
        Battery::Combine => panic!("a conflict is settled"),
    }
    assert_eq!((tm.statistics.conflicts, tm.statistics.theory_conflicts), (1, 1));
    // The limit lets the next one pass.
    let told = tm.theory_consistency_check(Some(vec![q]), None, ArithReply::Sat, false);
    assert!(matches!(told, Battery::Told(TheoryReply::Consistent)));
}

#[test]
fn arithmetic_decides_after_equality() {
    let mut m = TermManager::new();
    let x = var(&mut m, "x", INT_SORT);
    let y = var(&mut m, "y", INT_SORT);
    let t = m.mk_app(Op::Compare(Rel::Lt), vec![x, y], BOOL_SORT);
    let mut e = Encoder::new();
    let l = e.encode(t, &mut m);
    let mut tm = link(e, TheoryMode::Lazy, 0);
    tm.assign_hook(l);
    let unsat = tm.theory_consistency_check(None, None, ArithReply::Unsat(vec![t]), false);
    match unsat {
        Battery::Told(r) => assert_eq!(clause(&r), vec![l.negate()]),
        Battery::Combine => panic!("a conflict is settled"),
    }
    let stale = tm.theory_consistency_check(None, None, ArithReply::Unsat(vec![t]), true);
    assert!(matches!(stale, Battery::Combine));
    assert!(matches!(tm.theory_consistency_check(None, None, ArithReply::Propagate, false), Battery::Combine));
    assert!(!tm.last_check_unconfirmed());
    let open = tm.theory_consistency_check(None, None, ArithReply::Unknown, false);
    assert!(matches!(open, Battery::Told(TheoryReply::Consistent)));
    assert!(tm.last_check_unconfirmed());
    let failed = tm.theory_consistency_check(None, None, ArithReply::Failed, false);
    assert!(matches!(failed, Battery::Told(TheoryReply::Consistent)) && tm.last_check_unconfirmed());
    let shared = literals(&tm, vec![t]);
    let told = tm.theory_consistency_check(None, Some(shared), ArithReply::Unknown, false);
    assert!(matches!(told, Battery::Told(TheoryReply::Conflict(_))) && !tm.last_check_unconfirmed());
}

#[test]
fn propagations_wait_for_open_literals() {
    let mut m = TermManager::new();
    let x = var(&mut m, "x", INT_SORT);
    let y = var(&mut m, "y", INT_SORT);
    let q = m.mk_eq(x, y);
    let t = m.mk_app(Op::Compare(Rel::Lt), vec![x, y], BOOL_SORT);
    let mut e = Encoder::new();
    let lq = e.encode(q, &mut m);
    let lt = e.encode(t, &mut m);
    let mut tm = link(e, TheoryMode::Lazy, 0);
    tm.assign_hook(lq);
    let why = literals(&tm, vec![q]);
    let again = literals(&tm, vec![q]);
    assert_eq!(theory_reason_from_clause(&why).to_vec(), vec![lq]);
    tm.buffer_propagations(vec![(lt.negate(), why), (lq, again)]);
    match tm.after_drain(None) {
        TheoryStep::Propagate { lit, explanation } => {
            assert_eq!(lit, lt.negate());
            assert_eq!(explanation.to_vec(), vec![lq]);
        }
        _ => panic!("a propagation was due"),
    }
    assert!(matches!(tm.after_drain(None), TheoryStep::Proceed));
    let c = literals(&tm, vec![q]);
    assert!(matches!(tm.after_drain(Some(c)), TheoryStep::Conflict { .. }));
    assert_eq!(tm.statistics.conflicts, 1);
    assert!(tm.next_emittable_propagation().is_none());
    assert!(matches!(tm.final_check_complete(None, TheoryReply::Consistent), TheoryStep::Proceed));
    let d = literals(&tm, vec![q]);
    assert!(matches!(tm.final_check_complete(Some(d), TheoryReply::Consistent), TheoryStep::Conflict { .. }));
    let f = literals(&tm, vec![q]);
    assert!(matches!(tm.report(Some(f)), TheoryReply::Conflict(_)));
    assert!(matches!(tm.report(None), TheoryReply::Consistent));
    assert!(tm.get_decision_hints().is_empty());
}

#[test]
fn waiting_propagations_come_before_pending_assignments() {
    let mut m = TermManager::new();
    let x = var(&mut m, "x", INT_SORT);
    let y = var(&mut m, "y", INT_SORT);
    let z = var(&mut m, "z", INT_SORT);
    let q = m.mk_eq(x, y);
    let p = m.mk_eq(y, z);
    let t = m.mk_app(Op::Compare(Rel::Lt), vec![x, y], BOOL_SORT);
    let mut e = Encoder::new();
    let lq = e.encode(q, &mut m);
    let lp = e.encode(p, &mut m);
    let lt = e.encode(t, &mut m);
    let mut tm = link(e, TheoryMode::Lazy, 0);
    tm.assign_hook(lq);
    tm.assign_hook(lp);
    let why = literals(&tm, vec![q]);
    tm.buffer_propagations(vec![(lt.negate(), why)]);
    match tm.final_check() {
        Fixpoint::Told(TheoryStep::Propagate { lit, .. }) => assert_eq!(lit, lt.negate()),
        _ => panic!("a propagation was due"),
    }
    assert_eq!(tm.queued().len(), 2);
    let mut d = match tm.final_check() {
        Fixpoint::Drain(d) => d,
        _ => panic!("assignments are pending"),
    };
    assert!(tm.queued().is_empty());
    assert_eq!(d.queue, vec![(lq.var, Constraint::Eq(x, y), true), (lp.var, Constraint::Eq(y, z), true)]);
    assert!(matches!(tm.drain_next(&m, &mut d, Taken::Consistent), DrainStep::Carry(_)));
    let why = literals(&tm, vec![q]);
    let step = tm.drain_next(&m, &mut d, Taken::Propagated(vec![(lt.negate(), why)]));
    assert!(matches!(step, DrainStep::Carry(_)));
    assert_eq!(tm.statistics.theory_propagations, 2);
    assert_eq!(tm.pending_theory_propagations.len(), 1);
    assert!(matches!(tm.drain_next(&m, &mut d, Taken::Consistent), DrainStep::Done(None)));
    let c = literals(&tm, vec![q, p]);
    match tm.drain_next(&m, &mut d, Taken::Conflict(c)) {
        DrainStep::Done(Some(c)) => {
            assert_eq!(c.to_vec(), vec![lq.negate(), lp.negate()]);
            assert!(matches!(tm.after_drain(Some(c)), TheoryStep::Conflict { .. }));
        }
        _ => panic!("the conflict was lost"),
    }
    assert!(tm.pending_theory_propagations.is_empty());
}

#[test]
fn fixed_terms_are_joined_with_their_values() {
    let mut m = TermManager::new();
    let x = var(&mut m, "x", INT_SORT);
    let five = num(&mut m, 5);
    let q = m.mk_eq(x, five);
    let mut e = Encoder::new();
    let lq = e.encode(q, &mut m);
    let mut tm = link(e, TheoryMode::Eager, 0);
    let _ = tm.on_assignment(&m, lq);
    let _ = tm.euf.intern_term_for_congruence(&m, five);
    let _ = tm.euf.intern_term_for_congruence(&m, x);
    tm.note_merge(vec![7]);
    let (mut st, mut step) = tm.combine_begin();
    assert!(tm.pending_arith_eq_reasons.is_empty());
    assert!(st.terms.contains(&x) && st.terms.contains(&five) && st.shared.contains(&q));
    let mut merged: Vec<(TermId, TermId)> = vec![];
    let mut asked = 0;
    loop {
        let value = Rat { numer: 5, denom: 1 };
        let reply = match step {
            CombineStep::AskFixed(t) => {
                asked += 1;
                CombineReply::Fixed(if t == x || t == five { Some((value, vec![q])) } else { None })
            }
            CombineStep::AskJoined { .. } => CombineReply::Joined(!merged.is_empty()),
            CombineStep::Merge { term, constant } => {
                merged.push((term, constant));
                CombineReply::Merged
            }
            CombineStep::AskConflict => CombineReply::Conflict(None),
            CombineStep::AskSums => CombineReply::Sums(None),
            _ => break,
        };
        step = tm.combine_step(&m, &mut st, reply);
    }
    assert_eq!(merged, vec![(x, five)]);
    assert_eq!(asked, 2 * st.terms.len());
    assert_eq!(tm.pending_arith_eq_reasons, vec![q]);
    assert!(matches!(step, CombineStep::AskValues) && st.propagated && st.round == 1);
    let one_class: Vec<SharedTerm> = st
        .shared
        .iter()
        .enumerate()
        .map(|(i, &term)| SharedTerm { term, class: Some(1), value: Some(Rat { numer: i as i128, denom: 1 }) })
        .collect();
    let last = tm.combine_step(&m, &mut st, CombineReply::Values(one_class));
    assert_eq!(matches!(last, CombineStep::Done(Some(_))), st.shared.len() > 1);
}

#[test]
fn conflicts_of_a_combination_name_the_reasons() {
    let mut m = TermManager::new();
    let x = var(&mut m, "x", INT_SORT);
    let y = var(&mut m, "y", INT_SORT);
    let five = num(&mut m, 5);
    let q = m.mk_eq(x, five);
    let p = m.mk_eq(y, five);
    let mut e = Encoder::new();
    let lq = e.encode(q, &mut m);
    let lp = e.encode(p, &mut m);
    let mut tm = link(e, TheoryMode::Eager, 0);
    let _ = tm.on_assignment(&m, lq);
    let _ = tm.on_assignment(&m, lp);
    let _ = tm.euf.intern_term_for_congruence(&m, five);
    for sums in [false, true] {
        let (mut st, mut step) = tm.combine_begin();
        let found = loop {
            let value = Rat { numer: 5, denom: 1 };
            let reply = match step {
                CombineStep::AskFixed(t) => CombineReply::Fixed(if t == x { Some((value, vec![q])) } else { None }),
                CombineStep::AskJoined { .. } => CombineReply::Joined(st.round > 0),
                CombineStep::Merge { .. } => CombineReply::Merged,
                CombineStep::AskConflict => CombineReply::Conflict(if sums { None } else { Some(vec![p]) }),
                CombineStep::AskSums => CombineReply::Sums(Some(literals(&tm, vec![p]))),
                CombineStep::AskValues => panic!("a conflict was due"),
                CombineStep::Done(found) => break found,
            };
            step = tm.combine_step(&m, &mut st, reply);
        };
        assert_eq!(found.unwrap().to_vec(), vec![lp.negate(), lq.negate()]);
    }
}

#[test]
fn shared_equalities_are_passed_on_once() {
    let m = TermManager::new();
    let mut tm = link(Encoder::new(), TheoryMode::Lazy, 0);
    tm.add_shared_equality(3, 4, None);
    tm.add_shared_equality(4, 3, Some(9));
    let first = tm.next_equality().unwrap();
    assert_eq!((first.lhs, first.rhs, first.reason), (4, 3, Some(9)));
    assert!(tm.next_equality().is_none());
    assert_eq!(tm.entailed_constant(&m, Rat { numer: 1, denom: 1 }), None);
}

#[test]
fn fixed_values_meet_literals() {
    let mut m = TermManager::new();
    let five = num(&mut m, 5);
    let mut tm = link(Encoder::new(), TheoryMode::Lazy, 0);
    let _ = tm.euf.intern_term_for_congruence(&m, five);
    assert_eq!(tm.entailed_constant(&m, Rat { numer: 10, denom: 2 }), Some(five));
    assert_eq!(tm.entailed_constant(&m, Rat { numer: 11, denom: 2 }), None);
    assert_eq!(tm.entailed_constant(&m, Rat { numer: 6, denom: 1 }), None);
}

#[test]
fn equalities_are_shared_between_theories() {
    let mut m = TermManager::new();
    let x = var(&mut m, "x", INT_SORT);
    let r = var(&mut m, "r", REAL_SORT);
    let s = share(&m, x, r);
    let terms: Vec<(TermId, i128)> = s.terms.iter().map(|(t, q)| (*t, q.numer)).collect();
    assert_eq!(terms, vec![(x, 1), (r, -1)]);
    assert_eq!(declare_arith_sorts(&m, &s.terms), vec![(x, true), (r, false)]);
    let found = equalities(&vec![5, 6, 7], &vec![Some(1), Some(2), Some(1)]);
    assert_eq!(found, vec![(5, 7)]);
    assert!(equalities(&vec![5, 6], &vec![None, None]).is_empty());
}

#[test]
fn equalities_are_passed_on_up_to_a_conflict() {
    let mut m = TermManager::new();
    let x = var(&mut m, "x", INT_SORT);
    let y = var(&mut m, "y", INT_SORT);
    let q = m.mk_eq(x, y);
    let mut e = Encoder::new();
    let l = e.encode(q, &mut m);
    let mut tm = link(e, TheoryMode::Lazy, 0);
    tm.assign_hook(l);
    let mut p = Passing { pairs: vec![(x, y), (y, x)], next: 0 };
    match tm.pass_on(&m, &mut p, None) {
        PassingStep::Tell(e) => assert_eq!((e.reason, e.terms.len()), (x, 2)),
        PassingStep::Done(_) => panic!("an equality was due"),
    }
    match tm.pass_on(&m, &mut p, Some((vec![q], true))) {
        PassingStep::Tell(e) => assert_eq!(e.reason, y),
        PassingStep::Done(_) => panic!("an outdated bound makes no conflict"),
    }
    match tm.pass_on(&m, &mut p, Some((vec![q], false))) {
        PassingStep::Done(Some(c)) => assert_eq!(c.to_vec(), vec![l.negate()]),
        _ => panic!("the conflict was lost"),
    }
    assert!(matches!(tm.pass_on(&m, &mut p, None), PassingStep::Done(None)));
}

#[test]
fn values_of_one_class_agree() {
    let tm = link(Encoder::new(), TheoryMode::Lazy, 0);
    let at = |term: usize, class: usize, n: i128| SharedTerm {
        term,
        class: Some(class),
        value: Some(Rat { numer: n, denom: 1 }),
    };
    assert!(tm.disagreement(&vec![at(3, 1, 4), at(5, 1, 4)]).is_none());
    assert!(tm.disagreement(&vec![at(3, 1, 4), at(5, 2, 9)]).is_none());
    assert!(tm.disagreement(&vec![at(3, 1, 4), at(5, 1, 9)]).is_some());
}

#[test]
fn opposite_constraints_are_found_in_parallel() {
    let eq = Constraint::Eq(4, 5);
    let differ = Constraint::Diseq(4, 5);
    let other = Constraint::Lt(4, 5);
    let found = ParallelTheoryChecker::check_parallel(&vec![(0, eq, true), (1, other, true), (2, eq, false)]);
    match found {
        ParallelTheoryResult::Conflict(c) => assert_eq!(c.to_vec(), vec![Lit::neg(0), Lit::neg(2)]),
        ParallelTheoryResult::AllSat => panic!("a contradiction was missed"),
    }
    let fine = ParallelTheoryChecker::check_parallel(&vec![(0, eq, true), (1, differ, false), (2, other, true)]);
    assert!(matches!(fine, ParallelTheoryResult::AllSat));
    let both = check_domain_contradictions(&vec![(7, eq, true), (8, differ, true)]);
    assert_eq!(both.unwrap().to_vec(), vec![Lit::neg(7), Lit::neg(8)]);
    assert!(check_domain_contradictions(&vec![]).is_none());
}

#[test]
fn a_link_gives_back_what_it_was_given() {
    let mut m = TermManager::new();
    let x = var(&mut m, "x", INT_SORT);
    let q = m.mk_eq(x, x);
    let mut e = Encoder::new();
    let l = e.encode(q, &mut m);
    let tm = link(e, TheoryMode::Lazy, 0);
    let parts = tm.into_parts();
    assert_eq!(parts.var_to_term.get(l.var), Some(&q));
    assert_eq!(parts.term_to_var.get(&q), Some(&l.var));
    assert_eq!(parts.statistics, Statistics::new());
}

#[test]
fn unknowns_are_introduced_and_fixed_values_explained() {
    let mut m = TermManager::new();
    let x = var(&mut m, "x", INT_SORT);
    let f = m.intern("f".to_string());
    let fx = m.mk_app(Op::Apply(f), vec![x], INT_SORT);
    let t = m.mk_app(Op::Compare(Rel::Lt), vec![fx, x], BOOL_SORT);
    let q = m.mk_eq(x, fx);
    let mut e = Encoder::new();
    let lt = e.encode(t, &mut m);
    let lq = e.encode(q, &mut m);
    let mut tm = link(e, TheoryMode::Lazy, 0);
    let mut unknowns = tm.introduce_unknowns(&m);
    unknowns.sort();
    let mut want = vec![x, fx];
    want.sort();
    assert_eq!(unknowns, want);
    assert!(tm.euf.interned.contains(&fx));
    tm.assign_hook(lt);
    tm.assign_hook(lq);
    assert_eq!(tm.equality_conflict(&vec![t], false).unwrap().to_vec(), vec![lt.negate()]);
    assert!(tm.equality_conflict(&vec![t], true).is_none());
    tm.note_merge(vec![q, t]);
    assert_eq!(tm.fixed_values_conflict(vec![t]).to_vec(), vec![lt.negate(), lq.negate()]);
    let only = literals(&tm, vec![q]);
    assert_eq!(tm.fixed_sums_conflict(only).to_vec(), vec![lq.negate(), lt.negate()]);
    let shared = tm.shared_terms();
    assert!(shared.contains(&t) && shared.contains(&q));
    assert_eq!(tm.fixed_values_conflict(vec![t]).to_vec(), vec![lt.negate()]);
}

#[test]
fn truth_values_among_terms_are_those_of_the_solver() {
    let m = TermManager::new();
    let mut p = EufPlan::new();
    assert_eq!(p.intern_term_for_congruence(&m, TRUE_TERM), TRUE_TERM);
    assert_eq!(p.intern_term_for_congruence(&m, FALSE_TERM), FALSE_TERM);
    assert!(p.truths);
    assert_eq!(p.cmds.len(), 5);
    assert!(matches!(p.cmds[0], EufCmd::Intern { term: TRUE_TERM }));
    assert!(matches!(p.cmds[1], EufCmd::Truths));
    assert!(matches!(p.cmds[2], EufCmd::Merge { a: EufNode::Term(TRUE_TERM), b: EufNode::True, reason: TRUE_TERM }));
    assert!(matches!(p.cmds[3], EufCmd::Intern { term: FALSE_TERM }));
    assert!(matches!(p.cmds[4], EufCmd::Merge { a: EufNode::Term(FALSE_TERM), b: EufNode::False, reason: FALSE_TERM }));
}

#[test]
fn congruent_applications_are_handed_over_with_their_arguments_first() {
    let mut m = TermManager::new();
    let p = var(&mut m, "p", INT_SORT);
    let q = var(&mut m, "q", INT_SORT);
    let k = m.intern("k".to_string());
    let kp = m.mk_app(Op::Apply(k), vec![p], INT_SORT);
    let kq = m.mk_app(Op::Apply(k), vec![q], INT_SORT);
    let apart = m.mk_eq(kp, kq);
    let mut e = Encoder::new();
    let l = e.encode(apart, &mut m);
    let mut tm = link(e, TheoryMode::Eager, 0);
    let fact = tm.on_assignment(&m, l.negate()).unwrap().euf.unwrap();
    assert_eq!((fact.a, fact.b, fact.equal), (EufNode::Term(kp), EufNode::Term(kq), false));
    let at = |c: &dyn Fn(&EufCmd) -> bool| tm.euf.cmds.iter().position(|x| c(x)).unwrap();
    let ip = at(&|c| matches!(c, EufCmd::Intern { term } if *term == p));
    let iq = at(&|c| matches!(c, EufCmd::Intern { term } if *term == q));
    let ap = at(&|c| matches!(c, EufCmd::App { term, func, args } if *term == kp && *func == FuncId::Named(k) && *args == vec![p]));
    let aq = at(&|c| matches!(c, EufCmd::App { term, func, args } if *term == kq && *func == FuncId::Named(k) && *args == vec![q]));
    assert!(ip < ap && iq < aq);
    let introduced = tm.euf.cmds.iter().filter(|c| matches!(c, EufCmd::Intern { .. } | EufCmd::App { .. })).count();
    assert_eq!(introduced, 4);
    assert_eq!(tm.euf.nodes.len(), 4);
}

#[test]
fn going_back_to_a_level_above_changes_nothing() {
    let mut m = TermManager::new();
    let x = var(&mut m, "x", INT_SORT);
    let y = var(&mut m, "y", INT_SORT);
    let q = m.mk_eq(x, y);
    let mut e = Encoder::new();
    let l = e.encode(q, &mut m);
    let mut tm = link(e, TheoryMode::Eager, 0);
    tm.on_new_level(1);
    let _ = tm.on_assignment(&m, l);
    let nodes = tm.euf.nodes.clone();
    let cmds = tm.euf.cmds.len();
    tm.on_backtrack(&m, 5);
    assert_eq!(tm.levels.len(), 1);
    assert_eq!(tm.euf.nodes, nodes);
    tm.on_backtrack(&m, 0);
    assert!(tm.levels.is_empty() && tm.euf.nodes.is_empty() && tm.euf.interned.is_empty());
    assert_eq!(tm.euf.cmds.len(), cmds);
}

#[test]
fn parts_of_a_bit_vector_are_defined_before_it() {
    let mut m = TermManager::new();
    let byte = m.add_sort(Sort::BitVec(8));
    let x = var(&mut m, "x", byte);
    let y = var(&mut m, "y", byte);
    let s = m.mk_app(Op::Bv(BvOp::Add), vec![x, y], byte);
    let n = m.mk_app(Op::BvNot, vec![s], byte);
    let t = m.mk_app(Op::Bv(BvOp::Mul), vec![n, x], byte);
    let mut p = BvPlan::new();
    assert!(p.encode_bv_term_recursive(&m, t));
    let at = |c: BvCmd| p.cmds.iter().position(|x| *x == c).unwrap();
    let sum = at(BvCmd::Binary { term: s, op: BvOp::Add, a: x, b: y });
    let not = at(BvCmd::Not { term: n, arg: s });
    let product = at(BvCmd::Binary { term: t, op: BvOp::Mul, a: n, b: x });
    assert!(at(BvCmd::New { term: x, width: 8 }) < sum && at(BvCmd::New { term: y, width: 8 }) < sum);
    assert!(sum < not && not < product);
}
