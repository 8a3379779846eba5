//! What the link between the search and the theories passes on.
use crate::cnf::lit_true;
use crate::cnf::Assignment;
use crate::cnf::Lit;
use crate::cnf::Var;
use crate::combine::joined;
use crate::combine::row;
use crate::combine::rows;
use crate::encoder::Constraint;
use crate::rational::Rat;
use crate::small::LitList;
use crate::term::TermId;
use crate::term::TermManager;
use crate::term::INT_SORT;
use crate::term::REAL_SORT;
use crate::theory::arith_sorts;
use crate::theory::conflict_clause;
use crate::theory::constant_of;
use crate::theory::drained;
use crate::theory::equality_key;
use crate::theory::exhausted;
use crate::theory::is_place;
use crate::theory::last_fresh;
use crate::theory::last_open;
use crate::theory::one_conflict;
use crate::theory::opposites;
use crate::theory::without_latest;
use crate::theory::EqualityNotification;
use crate::config::Statistics;
use vstd::prelude::*;

verus! {

/// A list with one more member holds it, and what it held.
proof fn lemma_push_holds<E>(s: Seq<E>, e: E, x: E)
    ensures
        s.push(e).contains(x) <==> s.contains(x) || x == e,
{
    let p = s.push(e);
    if s.contains(x) {
        let i = choose|i: int| 0 <= i < s.len() && s[i] == x;
        assert(p[i] == x);
    }
    if x == e {
        assert(p[s.len() as int] == x);
    }
    if p.contains(x) {
        let i = choose|i: int| 0 <= i < p.len() && p[i] == x;
        if i < s.len() {
            assert(s[i] == x);
        }
    }
}

/// Arithmetic is told of an unknown that it is integral exactly if it is an integer or a bit vector,
/// and that it is not exactly if it is a real number; of other unknowns it is told nothing.
pub proof fn law_sorts_of_unknowns_are_told(m: &TermManager, terms: Seq<(TermId, Rat)>, k: int, t: TermId, integral: bool)
    requires
        0 <= k <= terms.len(),
    ensures
        arith_sorts(m, terms, k).contains((t, integral)) <==> m.has(t) && (exists|i: int| 0 <= i < k && (#[trigger] terms[i]).0 == t) && if integral {
            m.sort_of(t) == INT_SORT || (m.sort_of(t) < m.sorts@.len() && m.sorts@[m.sort_of(t) as int] is BitVec)
        } else {
            m.sort_of(t) == REAL_SORT && !(m.sort_of(t) < m.sorts@.len() && m.sorts@[m.sort_of(t) as int] is BitVec)
        },
    decreases k,
{
    if k > 0 {
        law_sorts_of_unknowns_are_told(m, terms, k - 1, t, integral);
        let before = arith_sorts(m, terms, k - 1);
        let u = terms[k - 1].0;
        lemma_push_holds(before, (u, true), (t, integral));
        lemma_push_holds(before, (u, false), (t, integral));
        if exists|i: int| 0 <= i < k - 1 && (#[trigger] terms[i]).0 == t {
            let i = choose|i: int| 0 <= i < k - 1 && (#[trigger] terms[i]).0 == t;
            assert(terms[i].0 == t);
        }
    }
}

/// A conflict clause has for every term that has a variable a literal of it, which the recorded phase
/// falsifies, and no other literal.
pub proof fn law_conflict_clause_names_every_reason(vars: Map<usize, Var>, phase: Map<usize, bool>, terms: Seq<TermId>, k: int, l: Lit)
    requires
        0 <= k <= terms.len(),
    ensures
        conflict_clause(vars, phase, terms, k).contains(l) <==> exists|i: int|
            0 <= i < k && vars.contains_key(#[trigger] terms[i]) && l.var == vars[terms[i]] && l.negative == !(phase.contains_key(l.var)
                && !phase[l.var]),
    decreases k,
{
    if k > 0 {
        law_conflict_clause_names_every_reason(vars, phase, terms, k - 1, l);
        let before = conflict_clause(vars, phase, terms, k - 1);
        if vars.contains_key(terms[k - 1]) {
            lemma_push_holds(before, crate::theory::falsified(phase, vars[terms[k - 1]]), l);
        }
        if exists|i: int|
            0 <= i < k - 1 && vars.contains_key(#[trigger] terms[i]) && l.var == vars[terms[i]] && l.negative == !(phase.contains_key(l.var)
                && !phase[l.var]) {
            let i = choose|i: int|
                0 <= i < k - 1 && vars.contains_key(#[trigger] terms[i]) && l.var == vars[terms[i]] && l.negative == !(phase.contains_key(
                    l.var,
                ) && !phase[l.var]);
            assert(vars.contains_key(terms[i]));
        }
    }
}

/// The propagation that is passed on next is the latest one whose variable is not assigned.
pub proof fn law_latest_open_propagation_is_next(list: Seq<(Lit, LitList)>, phase: Map<usize, bool>, k: int)
    requires
        0 <= k <= list.len(),
    ensures
        -1 <= last_open(list, phase, k) < k,
        last_open(list, phase, k) >= 0 ==> !phase.contains_key(list[last_open(list, phase, k)].0.var),
        forall|j: int| last_open(list, phase, k) < j < k ==> phase.contains_key((#[trigger] list[j]).0.var),
    decreases k,
{
    if k > 0 {
        law_latest_open_propagation_is_next(list, phase, k - 1);
    }
}

/// Taking back an assignment drops its latest entry among the pending ones, and leaves the others in
/// their order; nothing where there is none.
pub proof fn law_latest_pending_assignment_is_dropped(list: Seq<(Lit, bool)>, lit: Lit, k: int)
    requires
        0 <= k <= list.len(),
    ensures
        (forall|j: int| 0 <= j < k ==> (#[trigger] list[j]).0 != lit) ==> without_latest(list, lit, k) == list,
        (exists|j: int| 0 <= j < k && (#[trigger] list[j]).0 == lit) ==> exists|p: int|
            0 <= p < k && without_latest(list, lit, k) == #[trigger] list.remove(p) && list[p].0 == lit && forall|j: int|
                p < j < k ==> (#[trigger] list[j]).0 != lit,
    decreases k,
{
    if k > 0 {
        if list[k - 1].0 == lit {
            assert(without_latest(list, lit, k) == list.remove(k - 1));
        } else {
            law_latest_pending_assignment_is_dropped(list, lit, k - 1);
            if exists|j: int| 0 <= j < k && (#[trigger] list[j]).0 == lit {
                let j = choose|j: int| 0 <= j < k && (#[trigger] list[j]).0 == lit;
                assert(list[j].0 == lit && j < k - 1);
                let p = choose|p: int|
                    0 <= p < k - 1 && without_latest(list, lit, k - 1) == #[trigger] list.remove(p) && list[p].0 == lit && forall|j: int|
                        p < j < k - 1 ==> (#[trigger] list[j]).0 != lit;
                assert(without_latest(list, lit, k) == list.remove(p));
            }
        }
    }
}

/// The explanation of a propagation is false under every assignment that makes the literals true that
/// justify it, literal by literal.
pub proof fn law_explanation_is_false_where_justified(lits: Seq<Lit>, a: Assignment, i: int)
    requires
        0 <= i < lits.len(),
    ensures
        opposites(lits).len() == lits.len(),
        opposites(lits)[i].var == lits[i].var,
        lit_true(a, opposites(lits)[i]) == !lit_true(a, lits[i]),
{
}

/// A conflict counts once, as one of the theories and as one of the search; and conflicts are used up
/// exactly if there is a limit and it is reached.
pub proof fn law_conflicts_are_counted(s: Statistics, limit: u64)
    requires
        s.conflicts < u64::MAX,
        s.theory_conflicts < u64::MAX,
    ensures
        one_conflict(s).conflicts == s.conflicts + 1,
        one_conflict(s).theory_conflicts == s.theory_conflicts + 1,
        one_conflict(s) == (Statistics {
            conflicts: one_conflict(s).conflicts,
            theory_conflicts: one_conflict(s).theory_conflicts,
            ..s
        }),
        !exhausted(s, 0),
        limit > 0 ==> (exhausted(s, limit) <==> s.conflicts >= limit),
{
}

/// Two equalities are the same to the theories exactly if they equate the same terms, in whatever
/// order.
pub proof fn law_equalities_have_no_order(x: EqualityNotification, y: EqualityNotification)
    ensures
        equality_key(x) == equality_key(y) <==> (x.lhs == y.lhs && x.rhs == y.rhs) || (x.lhs == y.rhs && x.rhs == y.lhs),
{
}

/// The equality that is passed on next is the latest one that was not passed on before.
pub proof fn law_latest_fresh_equality_is_next(list: Seq<EqualityNotification>, done: Set<(usize, usize)>, k: int)
    requires
        0 <= k <= list.len(),
    ensures
        -1 <= last_fresh(list, done, k) < k,
        last_fresh(list, done, k) >= 0 ==> !done.contains(equality_key(list[last_fresh(list, done, k)])),
        forall|j: int| last_fresh(list, done, k) < j < k ==> done.contains(equality_key(#[trigger] list[j])),
    decreases k,
{
    if k > 0 {
        law_latest_fresh_equality_is_next(list, done, k - 1);
    }
}

/// The theories are told of every pending assignment of a variable that has a constraint, with its
/// phase, and of nothing else.
pub proof fn law_pending_constraints_are_passed_on(
    list: Seq<(Lit, bool)>,
    constraints: Map<usize, Constraint>,
    k: int,
    x: (Var, Constraint, bool),
)
    requires
        0 <= k <= list.len(),
    ensures
        drained(list, constraints, k).contains(x) <==> exists|i: int|
            0 <= i < k && (#[trigger] list[i]).0.var == x.0 && list[i].1 == x.2 && constraints.contains_key(x.0) && constraints[x.0] == x.1,
    decreases k,
{
    if k > 0 {
        law_pending_constraints_are_passed_on(list, constraints, k - 1, x);
        let before = drained(list, constraints, k - 1);
        let v = list[k - 1].0.var;
        lemma_push_holds(before, (v, constraints[v], list[k - 1].1), x);
        if exists|i: int|
            0 <= i < k - 1 && (#[trigger] list[i]).0.var == x.0 && list[i].1 == x.2 && constraints.contains_key(x.0) && constraints[x.0]
                == x.1 {
            let i = choose|i: int|
                0 <= i < k - 1 && (#[trigger] list[i]).0.var == x.0 && list[i].1 == x.2 && constraints.contains_key(x.0) && constraints[x.0]
                    == x.1;
            assert(list[i].0.var == x.0);
        }
    }
}

/// The pending assignments are passed on in their order: what is passed on of a part comes before what
/// is passed on of the rest.
pub proof fn law_pending_constraints_keep_their_order(list: Seq<(Lit, bool)>, constraints: Map<usize, Constraint>, j: int, k: int)
    requires
        0 <= j <= k <= list.len(),
    ensures
        drained(list, constraints, j).len() <= drained(list, constraints, k).len(),
        drained(list, constraints, k).take(drained(list, constraints, j).len() as int) == drained(list, constraints, j),
    decreases k,
{
    let part = drained(list, constraints, j);
    let whole = drained(list, constraints, k);
    if j < k {
        law_pending_constraints_keep_their_order(list, constraints, j, k - 1);
        let before = drained(list, constraints, k - 1);
        assert(whole.take(part.len() as int) =~= before.take(part.len() as int));
    } else {
        assert(whole.take(part.len() as int) =~= part);
    }
}

/// The literal that stands for a number has its value, and is found wherever one was introduced.
pub proof fn law_literal_of_a_number_has_its_value(ints: Seq<(i64, TermId)>, value: Rat)
    requires
        value.wf(),
    ensures
        constant_of(ints, value) matches Some(t) ==> exists|i: int|
            0 <= i < ints.len() && (#[trigger] ints[i]).1 == t && ints[i].0 * value.denom == value.numer,
        constant_of(ints, value) is None ==> forall|i: int| 0 <= i < ints.len() ==> (#[trigger] ints[i]).0 * value.denom != value.numer,
{
    let n = value.numer as int;
    let d = value.denom as int;
    vstd::arithmetic::div_mod::lemma_fundamental_div_mod(n, d);
    if exists|i: int| is_place(ints, value, i) {
        let i = choose|i: int| is_place(ints, value, i);
        let x = ints[i].0 as int;
        assert(x * d == d * x) by (nonlinear_arith);
        assert(ints[i].0 * value.denom == value.numer);
    } else {
        assert forall|i: int| 0 <= i < ints.len() implies (#[trigger] ints[i]).0 * value.denom != value.numer by {
            let x = ints[i].0 as int;
            if x * d == n {
                vstd::arithmetic::div_mod::lemma_fundamental_div_mod_converse(n, d, x, 0);
                assert(is_place(ints, value, i));
            }
        }
    }
}

/// Of a term all later ones of its class are paired with it.
proof fn lemma_row(terms: Seq<TermId>, classes: Seq<Option<usize>>, i: int, k: int, x: (TermId, TermId))
    requires
        0 <= i < terms.len(),
        k <= terms.len(),
        classes.len() == terms.len(),
    ensures
        row(terms, classes, i, k).contains(x) <==> exists|j: int|
            i < j < k && joined(classes, i, j) && x == (terms[i], #[trigger] terms[j]),
    decreases k - i,
{
    if k > i + 1 {
        lemma_row(terms, classes, i, k - 1, x);
        let before = row(terms, classes, i, k - 1);
        lemma_push_holds(before, (terms[i], terms[k - 1]), x);
        if exists|j: int| i < j < k - 1 && joined(classes, i, j) && x == (terms[i], #[trigger] terms[j]) {
            let j = choose|j: int| i < j < k - 1 && joined(classes, i, j) && x == (terms[i], #[trigger] terms[j]);
            assert(x == (terms[i], terms[j]));
        }
    }
}

/// Arithmetic is told of every two terms that are known to be in one class, the earlier one first, and
/// of no others.
pub proof fn law_terms_of_a_class_are_paired(terms: Seq<TermId>, classes: Seq<Option<usize>>, k: int, x: (TermId, TermId))
    requires
        0 <= k <= terms.len(),
        classes.len() == terms.len(),
    ensures
        rows(terms, classes, k).contains(x) <==> exists|i: int, j: int|
            0 <= i < k && i < j < terms.len() && x == (#[trigger] terms[i], #[trigger] terms[j]) && classes[i] is Some && classes[i]
                == classes[j],
    decreases k,
{
    if k > 0 {
        law_terms_of_a_class_are_paired(terms, classes, k - 1, x);
        let before = rows(terms, classes, k - 1);
        let more = row(terms, classes, k - 1, terms.len() as int);
        lemma_row(terms, classes, k - 1, terms.len() as int, x);
        let all = before + more;
        if before.contains(x) {
            let i = choose|i: int| 0 <= i < before.len() && before[i] == x;
            assert(all[i] == x);
            let (a, b) = choose|a: int, b: int|
                0 <= a < k - 1 && a < b < terms.len() && x == (#[trigger] terms[a], #[trigger] terms[b]) && classes[a] is Some && classes[a]
                    == classes[b];
            assert(x == (terms[a], terms[b]));
        }
        if more.contains(x) {
            let i = choose|i: int| 0 <= i < more.len() && more[i] == x;
            assert(all[before.len() + i] == x);
            let j = choose|j: int|
                k - 1 < j < terms.len() && joined(classes, k - 1, j) && x == (terms[k - 1], #[trigger] terms[j]);
            assert(x == (terms[k - 1], terms[j]));
        }
        if all.contains(x) {
            let i = choose|i: int| 0 <= i < all.len() && all[i] == x;
            if i < before.len() {
                assert(before[i] == x);
            } else {
                assert(more[i - before.len()] == x);
            }
        }
        if exists|i: int, j: int|
            0 <= i < k && i < j < terms.len() && x == (#[trigger] terms[i], #[trigger] terms[j]) && classes[i] is Some && classes[i]
                == classes[j] {
            let (i, j) = choose|i: int, j: int|
                0 <= i < k && i < j < terms.len() && x == (#[trigger] terms[i], #[trigger] terms[j]) && classes[i] is Some && classes[i]
                    == classes[j];
            if i == k - 1 {
                assert(joined(classes, k - 1, j));
                assert(more.contains(x));
            } else {
                assert(before.contains(x));
            }
        }
    }
}

} // verus!
