//! What the check of datatypes is bound to find.
use crate::classes::joined;
use crate::classes::respects;
use crate::dt_check::asserted_facts;
use crate::dt_check::base_eqs;
use crate::dt_check::closed_verdict;
use crate::dt_check::contradict;
use crate::dt_check::disagree;
use crate::dt_check::dt_verdict;
use crate::dt_check::excluded;
use crate::dt_check::exhausted;
use crate::dt_check::is_case;
use crate::dt_check::kinds_clash;
use crate::dt_check::none_left;
use crate::dt_check::refuted;
use crate::dt_check::said;
use crate::dt_check::same_variable;
use crate::dt_check::searched;
use crate::dt_check::searched_each;
use crate::dt_check::splits_all;
use crate::dt_check::splits_some;
use crate::dt_check::under;
use crate::dt_check::within;
use crate::dt_check::Items;
use crate::dt_check::DT_CLOSURE_STEP_BUDGET;
use crate::dt_closure::are_twins;
use crate::dt_closure::closes;
use crate::dt_closure::has_pair;
use crate::dt_closure::in_play;
use crate::dt_closure::injected;
use crate::dt_closure::is_round;
use crate::dt_closure::underived;
use crate::dt_closure::Closing;
use crate::dt_closure::Pairs;
use crate::dt_cycle::acyclic;
use crate::dt_cycle::ranks;
use crate::dt_facts::facts_of_all;
use crate::dt_facts::facts_of_args;
use crate::dt_facts::facts_under;
use crate::dt_facts::is_ctor;
use crate::dt_facts::FactsView;
use crate::term::Op;
use crate::term::Sort;
use crate::term::Symbol;
use crate::term::TermId;
use crate::term::TermManager;
use crate::walk::occurs;
use vstd::prelude::*;

verus! {

/// Where the formula `s` has the truth value `p`, the formula `t` has to have the truth value `q`:
/// it is met on the way down through conjunctions that hold, disjunctions that do not, and negations.
pub open spec fn forces(m: &TermManager, s: TermId, p: bool, t: TermId, q: bool) -> bool
    decreases s,
{
    ||| s == t && p == q
    ||| m.has(s) && (m.op(s) == Op::And && p || m.op(s) == Op::Or && !p) && exists|i: int|
        0 <= i < m.args(s).len() && #[trigger] m.args(s)[i] < s && forces(m, m.args(s)[i], p, t, q)
    ||| m.has(s) && m.op(s) == Op::Not && m.args(s)[0] < s && forces(m, m.args(s)[0], !p, t, q)
}

/// The assertions force the formula to have the truth value.
pub open spec fn forced(m: &TermManager, assertions: Seq<TermId>, t: TermId, q: bool) -> bool {
    m.has(t) && exists|i: int| 0 <= i < assertions.len() && #[trigger] forces(m, assertions[i], true, t, q)
}

/// The formula is the equality of the two terms, in either order.
pub open spec fn equals(m: &TermManager, t: TermId, x: TermId, y: TermId) -> bool {
    m.op(t) == Op::Eq && (m.args(t) == seq![x, y] || m.args(t) == seq![y, x])
}

/// The assertions say that the term is built by the constructor: by a test, or by an equality of a
/// variable with one of its applications.
pub open spec fn says_built(m: &TermManager, assertions: Seq<TermId>, x: TermId, k: Symbol) -> bool {
    exists|t: TermId| #[trigger]
        forced(m, assertions, t, true) && (m.op(t) == Op::DtTester(k) && m.arg(t, 0) == x || exists|c: TermId| #[trigger]
            equals(m, t, x, c) && m.has(x) && m.op(x) is Var && m.has(c) && m.op(c) == Op::DtConstructor(k))
}

/// The assertions say that the term is not built by the constructor.
pub open spec fn says_not_built(m: &TermManager, assertions: Seq<TermId>, x: TermId, k: Symbol) -> bool {
    exists|t: TermId| #[trigger] forced(m, assertions, t, false) && m.op(t) == Op::DtTester(k) && m.arg(t, 0) == x
}

/// The two terms are one, or variables that the assertions say are equal.
pub open spec fn says_same(m: &TermManager, assertions: Seq<TermId>, x: TermId, y: TermId) -> bool {
    x == y || exists|t: TermId| #[trigger]
        forced(m, assertions, t, true) && equals(m, t, x, y) && m.has(x) && m.has(y) && m.op(x) is Var && m.op(y) is Var
}

/// The one collection holds all facts of the other.
pub open spec fn holds_facts(a: FactsView, b: FactsView) -> bool {
    &&& forall|x: (TermId, Symbol)| #[trigger] a.testers.contains(x) ==> b.testers.contains(x)
    &&& forall|x: (TermId, Symbol)| #[trigger] a.neg_testers.contains(x) ==> b.neg_testers.contains(x)
    &&& forall|x: (TermId, Symbol)| #[trigger] a.ctor_eqs.contains(x) ==> b.ctor_eqs.contains(x)
    &&& forall|x: (TermId, TermId)| #[trigger] a.var_eqs.contains(x) ==> b.var_eqs.contains(x)
    &&& forall|x: (TermId, TermId)| #[trigger] a.ctor_binds.contains(x) ==> b.ctor_binds.contains(x)
    &&& forall|x: (TermId, TermId)| #[trigger] a.diseqs.contains(x) ==> b.diseqs.contains(x)
    &&& forall|x: (TermId, Symbol)| #[trigger] a.neg_ctor_eqs.contains(x) ==> b.neg_ctor_eqs.contains(x)
    &&& forall|x: (TermId, TermId)| #[trigger] a.sel_eqs.contains(x) ==> b.sel_eqs.contains(x)
    &&& forall|x: (TermId, TermId)| #[trigger] a.ctor_ctor_eqs.contains(x) ==> b.ctor_ctor_eqs.contains(x)
}

/// A list put together of two holds what they hold.
proof fn lemma_sum_holds<E>(a: Seq<E>, b: Seq<E>, x: E)
    ensures
        a.contains(x) || b.contains(x) <==> (a + b).contains(x),
{
    let s = a + b;
    if a.contains(x) {
        let i = choose|i: int| 0 <= i < a.len() && a[i] == x;
        assert(s[i] == x);
    }
    if b.contains(x) {
        let i = choose|i: int| 0 <= i < b.len() && b[i] == x;
        assert(s[a.len() + i] == x);
    }
    if s.contains(x) {
        let i = choose|i: int| 0 <= i < s.len() && s[i] == x;
        if i < a.len() {
            assert(a[i] == x);
        } else {
            assert(b[i - a.len()] == x);
        }
    }
}

/// Facts put together hold both.
proof fn lemma_plus_holds_both(a: FactsView, b: FactsView)
    ensures
        holds_facts(a, a.plus(b)),
        holds_facts(b, a.plus(b)),
{
    let s = a.plus(b);
    assert forall|x: (TermId, Symbol)| a.testers.contains(x) || b.testers.contains(x) implies #[trigger] s.testers.contains(x) by {
        lemma_sum_holds(a.testers, b.testers, x);
    }
    assert forall|x: (TermId, Symbol)| a.neg_testers.contains(x) || b.neg_testers.contains(x) implies #[trigger] s.neg_testers.contains(x) by {
        lemma_sum_holds(a.neg_testers, b.neg_testers, x);
    }
    assert forall|x: (TermId, Symbol)| a.ctor_eqs.contains(x) || b.ctor_eqs.contains(x) implies #[trigger] s.ctor_eqs.contains(x) by {
        lemma_sum_holds(a.ctor_eqs, b.ctor_eqs, x);
    }
    assert forall|x: (TermId, TermId)| a.var_eqs.contains(x) || b.var_eqs.contains(x) implies #[trigger] s.var_eqs.contains(x) by {
        lemma_sum_holds(a.var_eqs, b.var_eqs, x);
    }
    assert forall|x: (TermId, TermId)| a.ctor_binds.contains(x) || b.ctor_binds.contains(x) implies #[trigger] s.ctor_binds.contains(x) by {
        lemma_sum_holds(a.ctor_binds, b.ctor_binds, x);
    }
    assert forall|x: (TermId, TermId)| a.diseqs.contains(x) || b.diseqs.contains(x) implies #[trigger] s.diseqs.contains(x) by {
        lemma_sum_holds(a.diseqs, b.diseqs, x);
    }
    assert forall|x: (TermId, Symbol)| a.neg_ctor_eqs.contains(x) || b.neg_ctor_eqs.contains(x) implies #[trigger] s.neg_ctor_eqs.contains(x) by {
        lemma_sum_holds(a.neg_ctor_eqs, b.neg_ctor_eqs, x);
    }
    assert forall|x: (TermId, TermId)| a.sel_eqs.contains(x) || b.sel_eqs.contains(x) implies #[trigger] s.sel_eqs.contains(x) by {
        lemma_sum_holds(a.sel_eqs, b.sel_eqs, x);
    }
    assert forall|x: (TermId, TermId)| a.ctor_ctor_eqs.contains(x) || b.ctor_ctor_eqs.contains(x) implies #[trigger] s.ctor_ctor_eqs.contains(x) by {
        lemma_sum_holds(a.ctor_ctor_eqs, b.ctor_ctor_eqs, x);
    }
}

/// What the arguments say holds what one of them says.
proof fn lemma_args_hold(m: &TermManager, t: TermId, k: int, p: bool, i: int)
    requires
        m.wf(),
        m.has(t),
        0 <= i < k <= m.args(t).len(),
    ensures
        holds_facts(facts_under(m, m.args(t)[i], p), facts_of_args(m, t, k, p)),
    decreases k,
{
    assert(m.terms@[t as int].fits(t as int));
    assert(m.args(t)[k - 1] < t);
    lemma_plus_holds_both(facts_of_args(m, t, k - 1, p), facts_under(m, m.args(t)[k - 1], p));
    if i < k - 1 {
        lemma_args_hold(m, t, k - 1, p, i);
    }
}

/// What a formula says holds what a formula says that it forces.
proof fn lemma_forced_facts(m: &TermManager, s: TermId, p: bool, t: TermId, q: bool)
    requires
        m.wf(),
        forces(m, s, p, t, q),
    ensures
        holds_facts(facts_under(m, t, q), facts_under(m, s, p)),
    decreases s,
{
    if !(s == t && p == q) {
        assert(m.terms@[s as int].fits(s as int));
        if m.op(s) == Op::Not {
            lemma_forced_facts(m, m.args(s)[0], !p, t, q);
        } else {
            let i = choose|i: int| 0 <= i < m.args(s).len() && #[trigger] m.args(s)[i] < s && forces(m, m.args(s)[i], p, t, q);
            lemma_forced_facts(m, m.args(s)[i], p, t, q);
            lemma_args_hold(m, s, m.args(s).len() as int, p, i);
        }
    }
}

/// What the assertions say holds what one of them says.
proof fn lemma_all_hold_one(m: &TermManager, assertions: Seq<TermId>, k: int, i: int)
    requires
        0 <= i < k <= assertions.len(),
    ensures
        holds_facts(facts_under(m, assertions[i], true), facts_of_all(m, assertions, k)),
    decreases k,
{
    lemma_plus_holds_both(facts_of_all(m, assertions, k - 1), facts_under(m, assertions[k - 1], true));
    if i < k - 1 {
        lemma_all_hold_one(m, assertions, k - 1, i);
    }
}

/// What the assertions say holds what a forced formula says.
proof fn lemma_asserted_facts(m: &TermManager, assertions: Seq<TermId>, t: TermId, q: bool)
    requires
        m.wf(),
        forced(m, assertions, t, q),
    ensures
        holds_facts(facts_under(m, t, q), asserted_facts(m, assertions)),
{
    let i = choose|i: int| 0 <= i < assertions.len() && #[trigger] forces(m, assertions[i], true, t, q);
    lemma_forced_facts(m, assertions[i], true, t, q);
    lemma_all_hold_one(m, assertions, assertions.len() as int, i);
}

/// What is said of a constructor is among the facts.
proof fn lemma_built(m: &TermManager, assertions: Seq<TermId>, x: TermId, k: Symbol)
    requires
        m.wf(),
        says_built(m, assertions, x, k),
    ensures
        said(asserted_facts(m, assertions)).contains((x, k)),
{
    let f = asserted_facts(m, assertions);
    let t = choose|t: TermId| #[trigger]
        forced(m, assertions, t, true) && (m.op(t) == Op::DtTester(k) && m.arg(t, 0) == x || exists|c: TermId| #[trigger]
            equals(m, t, x, c) && m.has(x) && m.op(x) is Var && m.has(c) && m.op(c) == Op::DtConstructor(k));
    lemma_asserted_facts(m, assertions, t, true);
    lemma_sum_holds(f.testers, f.ctor_eqs, (x, k));
    let g = facts_under(m, t, true);
    if m.op(t) == Op::DtTester(k) && m.arg(t, 0) == x {
        assert(g.testers[0] == (x, k));
        assert(g.testers.contains((x, k)));
    } else {
        let c = choose|c: TermId| #[trigger]
            equals(m, t, x, c) && m.has(x) && m.op(x) is Var && m.has(c) && m.op(c) == Op::DtConstructor(k);
        assert(m.args(t)[0] == x && m.args(t)[1] == c || m.args(t)[0] == c && m.args(t)[1] == x);
        assert(g.ctor_eqs.len() == 1 && g.ctor_eqs[0] == (x, k));
        assert(g.ctor_eqs.contains((x, k)));
    }
}

/// What is said not to be of a constructor is among the facts.
proof fn lemma_not_built(m: &TermManager, assertions: Seq<TermId>, x: TermId, k: Symbol)
    requires
        m.wf(),
        says_not_built(m, assertions, x, k),
    ensures
        asserted_facts(m, assertions).neg_testers.contains((x, k)),
{
    let t = choose|t: TermId| #[trigger] forced(m, assertions, t, false) && m.op(t) == Op::DtTester(k) && m.arg(t, 0) == x;
    lemma_asserted_facts(m, assertions, t, false);
    let g = facts_under(m, t, false);
    assert(g.neg_testers[0] == (x, k));
    assert(g.neg_testers.contains((x, k)));
}

/// Variables that are said to be equal are among the facts.
proof fn lemma_same(m: &TermManager, assertions: Seq<TermId>, x: TermId, y: TermId)
    requires
        m.wf(),
        says_same(m, assertions, x, y),
    ensures
        same_variable(asserted_facts(m, assertions), x, y),
{
    if x != y {
        let t = choose|t: TermId| #[trigger]
            forced(m, assertions, t, true) && equals(m, t, x, y) && m.has(x) && m.has(y) && m.op(x) is Var && m.op(y) is Var;
        lemma_asserted_facts(m, assertions, t, true);
        let g = facts_under(m, t, true);
        assert(m.args(t)[0] == x && m.args(t)[1] == y || m.args(t)[0] == y && m.args(t)[1] == x);
        assert(g.var_eqs.len() == 1 && (g.var_eqs[0] == (x, y) || g.var_eqs[0] == (y, x)));
        assert(g.var_eqs.contains((x, y)) || g.var_eqs.contains((y, x)));
    }
}

/// Assertions that say of one term, or of two equal variables, that different constructors build it,
/// are refuted.
pub proof fn law_two_constructors_are_refuted(
    m: &TermManager,
    assertions: Seq<TermId>,
    r: bool,
    x: TermId,
    y: TermId,
    k: Symbol,
    l: Symbol,
)
    requires
        m.wf(),
        dt_verdict(m, assertions, r),
        says_same(m, assertions, x, y),
        says_built(m, assertions, x, k),
        says_built(m, assertions, y, l),
        k != l,
    ensures
        r,
{
    let f = asserted_facts(m, assertions);
    lemma_same(m, assertions, x, y);
    lemma_built(m, assertions, x, k);
    lemma_built(m, assertions, y, l);
    let p = said(f);
    let i = choose|i: int| 0 <= i < p.len() && p[i] == (x, k);
    let j = choose|j: int| 0 <= j < p.len() && p[j] == (y, l);
    assert(p[i].0 == x && p[j].0 == y && p[i].1 != p[j].1);
    assert(disagree(p, x, y));
    assert(kinds_clash(f));
}

/// Assertions that say of one term, or of two equal variables, that a constructor builds it and that
/// it does not, are refuted.
pub proof fn law_denied_constructor_is_refuted(m: &TermManager, assertions: Seq<TermId>, r: bool, x: TermId, y: TermId, k: Symbol)
    requires
        m.wf(),
        dt_verdict(m, assertions, r),
        says_same(m, assertions, x, y),
        says_built(m, assertions, x, k),
        says_not_built(m, assertions, y, k),
    ensures
        r,
{
    let f = asserted_facts(m, assertions);
    lemma_same(m, assertions, x, y);
    lemma_built(m, assertions, x, k);
    lemma_not_built(m, assertions, y, k);
    let p = said(f);
    let i = choose|i: int| 0 <= i < p.len() && p[i] == (x, k);
    let j = choose|j: int| 0 <= j < f.neg_testers.len() && f.neg_testers[j] == (y, k);
    assert(p[i].0 == x && f.neg_testers[j].0 == y && p[i].1 == f.neg_testers[j].1);
    assert(contradict(p, f.neg_testers, x, y));
    assert(kinds_clash(f));
}

/// Assertions that deny a term every constructor of its sort are refuted.
pub proof fn law_denied_constructors_are_refuted(m: &TermManager, assertions: Seq<TermId>, r: bool, x: TermId)
    requires
        m.wf(),
        dt_verdict(m, assertions, r),
        m.has(x),
        m.sort_of(x) < m.sorts@.len(),
        m.sorts@[m.sort_of(x) as int] matches Sort::Datatype(l) && l@.len() > 0 && forall|i: int|
            0 <= i < l@.len() ==> says_not_built(m, assertions, x, (#[trigger] l@[i]).name),
    ensures
        r,
{
    let f = asserted_facts(m, assertions);
    let l = crate::dt_facts::layouts_of(m, m.sort_of(x))->Some_0;
    assert forall|i: int| 0 <= i < l.len() implies excluded(f, x, #[trigger] l[i]) by {
        lemma_not_built(m, assertions, x, l[i].name);
    }
    assert(none_left(m, f, x));
    assert(exhausted(m, f));
}

/// The equalities of the facts are among those of a closure.
proof fn lemma_closure_holds(f: FactsView, eqs: Pairs, x: (TermId, TermId))
    requires
        crate::dt_closure::appended(base_eqs(f), eqs),
        f.var_eqs.contains(x) || f.ctor_binds.contains(x) || f.ctor_ctor_eqs.contains(x),
    ensures
        eqs.contains(x),
{
    lemma_sum_holds(f.ctor_binds, f.ctor_ctor_eqs, x);
    lemma_sum_holds(f.var_eqs, f.ctor_binds + f.ctor_ctor_eqs, x);
    let b = base_eqs(f);
    let i = choose|i: int| 0 <= i < b.len() && b[i] == x;
    assert(eqs.take(b.len() as int)[i] == eqs[i]);
}

/// A formula that another one forces occurs in it.
proof fn lemma_forced_occurs(m: &TermManager, s: TermId, p: bool, t: TermId, q: bool, x: TermId)
    requires
        m.wf(),
        forces(m, s, p, t, q),
        occurs(m, t, x),
    ensures
        occurs(m, s, x),
    decreases s,
{
    if !(s == t && p == q) {
        if m.op(s) == Op::Not && m.args(s)[0] < s && forces(m, m.args(s)[0], !p, t, q) {
            lemma_forced_occurs(m, m.args(s)[0], !p, t, q, x);
            assert(m.terms@[s as int].fits(s as int));
            assert(m.args(s)[0] < s && occurs(m, m.args(s)[0], x));
        } else {
            let i = choose|i: int| 0 <= i < m.args(s).len() && #[trigger] m.args(s)[i] < s && forces(m, m.args(s)[i], p, t, q);
            lemma_forced_occurs(m, m.args(s)[i], p, t, q, x);
            assert(m.args(s)[i] < s && occurs(m, m.args(s)[i], x));
        }
    }
}

/// Assertions that make a variable equal to a constructor application of which it is an argument are
/// refuted: no value is part of itself.
pub proof fn law_self_containing_value_is_refuted(m: &TermManager, assertions: Seq<TermId>, r: bool, t: TermId, x: TermId, c: TermId)
    requires
        m.wf(),
        dt_verdict(m, assertions, r),
        forced(m, assertions, t, true),
        equals(m, t, x, c),
        m.has(x) && m.op(x) is Var,
        m.sort_of(x) < m.sorts@.len() && m.sorts@[m.sort_of(x) as int] is Datatype,
        m.has(c) && m.op(c) is DtConstructor,
        m.args(c).contains(x),
    ensures
        r,
{
    let f = asserted_facts(m, assertions);
    if !r {
        let (ctors, cl) = choose|ctors: Seq<TermId>, cl: Closing| #[trigger] closed_verdict(m, assertions, ctors, cl, r);
        lemma_asserted_facts(m, assertions, t, true);
        let g = facts_under(m, t, true);
        assert(m.args(t)[0] == x && m.args(t)[1] == c || m.args(t)[0] == c && m.args(t)[1] == x);
        assert(g.ctor_binds.len() == 1 && g.ctor_binds[0] == (x, c));
        assert(g.ctor_binds.contains((x, c)));
        lemma_closure_holds(f, cl.eqs, (x, c));
        assert(m.terms@[t as int].fits(t as int));
        let a = choose|a: int| 0 <= a < assertions.len() && #[trigger] forces(m, assertions[a], true, t, true);
        assert(occurs(m, c, c));
        let n = if m.args(t)[0] == c {
            0int
        } else {
            1int
        };
        assert(m.args(t)[n] < t && occurs(m, m.args(t)[n], c));
        assert(occurs(m, t, c));
        lemma_forced_occurs(m, assertions[a], true, t, true, c);
        assert(occurs(m, assertions[a], c));
        assert(is_ctor(m, c));
        assert(ctors.contains(c));
        if acyclic(m, cl.eqs, ctors) {
            let rank = choose|rank: spec_fn(TermId) -> int| ranks(m, cl.eqs, ctors, rank);
            let i = choose|i: int| 0 <= i < cl.eqs.len() && cl.eqs[i] == (x, c);
            assert(rank(cl.eqs[i].0) == rank(cl.eqs[i].1));
            let k = choose|k: int| 0 <= k < ctors.len() && ctors[k] == c;
            let j = choose|j: int| 0 <= j < m.args(c).len() && m.args(c)[j] == x;
            assert(rank(m.args(ctors[k])[j]) < rank(ctors[k]));
        }
        assert(refuted(m, f, cl.eqs, ctors));
    }
}

/// Assertions that say of two variables that they are equal and that they differ are refuted.
pub proof fn law_denied_equality_is_refuted(m: &TermManager, assertions: Seq<TermId>, r: bool, t: TermId, u: TermId, x: TermId, y: TermId)
    requires
        m.wf(),
        dt_verdict(m, assertions, r),
        forced(m, assertions, t, true),
        equals(m, t, x, y),
        forced(m, assertions, u, false),
        equals(m, u, x, y),
        m.has(x) && m.op(x) is Var,
        m.has(y) && m.op(y) is Var,
    ensures
        r,
{
    let f = asserted_facts(m, assertions);
    if !r {
        let (ctors, cl) = choose|ctors: Seq<TermId>, cl: Closing| #[trigger] closed_verdict(m, assertions, ctors, cl, r);
        lemma_asserted_facts(m, assertions, t, true);
        lemma_asserted_facts(m, assertions, u, false);
        let g = facts_under(m, t, true);
        let h = facts_under(m, u, false);
        assert(m.args(t)[0] == x && m.args(t)[1] == y || m.args(t)[0] == y && m.args(t)[1] == x);
        assert(m.args(u)[0] == x && m.args(u)[1] == y || m.args(u)[0] == y && m.args(u)[1] == x);
        let e = g.var_eqs[0];
        assert(g.var_eqs.len() == 1 && g.var_eqs.contains(e));
        let d = h.diseqs.last();
        assert(h.diseqs.len() == 1 && h.diseqs[0] == d);
        assert(h.diseqs.contains(d));
        lemma_closure_holds(f, cl.eqs, e);
        let i = choose|i: int| 0 <= i < f.diseqs.len() && f.diseqs[i] == d;
        assert(joined(cl.eqs, f.diseqs[i].0, f.diseqs[i].1)) by {
            assert forall|l: spec_fn(TermId) -> int| #[trigger] respects(l, cl.eqs) implies l(d.0) == l(d.1) by {
                let j = choose|j: int| 0 <= j < cl.eqs.len() && cl.eqs[j] == e;
                assert(l(cl.eqs[j].0) == l(cl.eqs[j].1));
            }
        }
        assert(refuted(m, f, cl.eqs, ctors));
    }
}

/// That two terms are distinct says what the denial of their equality says, and the other way round.
pub proof fn law_distinct_terms_are_not_equal(m: &TermManager, t: TermId, u: TermId, p: bool)
    requires
        m.has(t),
        m.has(u),
        m.op(t) == Op::Distinct,
        m.op(u) == Op::Eq,
        m.args(t).len() == 2,
        m.args(u) == m.args(t),
    ensures
        facts_under(m, t, p) == facts_under(m, u, !p),
{
}

/// Assertions that say that a variable is none of the constants of its sort, which has nothing but
/// constants, are refuted.
pub proof fn law_denied_constants_are_refuted(m: &TermManager, assertions: Seq<TermId>, r: bool, x: TermId)
    requires
        m.wf(),
        dt_verdict(m, assertions, r),
        m.has(x) && m.op(x) is Var,
        m.sort_of(x) < m.sorts@.len(),
        m.sorts@[m.sort_of(x) as int] matches Sort::Datatype(l) && l@.len() > 0 && forall|i: int|
            0 <= i < l@.len() ==> (#[trigger] l@[i]).fields@.len() == 0 && is_no_constant(m, assertions, x, l@[i].name),
    ensures
        r,
{
    let f = asserted_facts(m, assertions);
    let l = crate::dt_facts::layouts_of(m, m.sort_of(x))->Some_0;
    assert forall|i: int| 0 <= i < l.len() implies excluded(f, x, #[trigger] l[i]) by {
        let k = l[i].name;
        assert(is_no_constant(m, assertions, x, k));
        let (u, c) = choose|u: TermId, c: TermId| #[trigger]
            forced(m, assertions, u, false) && #[trigger] equals(m, u, x, c) && m.has(c) && m.op(c) == Op::DtConstructor(k) && m.args(c).len() == 0;
        lemma_asserted_facts(m, assertions, u, false);
        let g = facts_under(m, u, false);
        assert(m.args(u)[0] == x && m.args(u)[1] == c || m.args(u)[0] == c && m.args(u)[1] == x);
        assert(g.neg_ctor_eqs.len() == 1 && g.neg_ctor_eqs[0] == (x, k));
        assert(g.neg_ctor_eqs.contains((x, k)));
    }
    assert(none_left(m, f, x));
    assert(exhausted(m, f));
}

/// The assertions say that the variable is not the constant.
pub open spec fn is_no_constant(m: &TermManager, assertions: Seq<TermId>, x: TermId, k: Symbol) -> bool {
    exists|u: TermId, c: TermId| #[trigger]
        forced(m, assertions, u, false) && #[trigger] equals(m, u, x, c) && m.has(c) && m.op(c) == Op::DtConstructor(k) && m.args(c).len() == 0
}

/// A closure makes the terms of a pair equal that it holds.
proof fn lemma_pair_joins(eqs: Pairs, x: TermId, y: TermId)
    requires
        eqs.contains((x, y)) || eqs.contains((y, x)),
    ensures
        joined(eqs, x, y),
{
    assert forall|l: spec_fn(TermId) -> int| #[trigger] respects(l, eqs) implies l(x) == l(y) by {
        let j = choose|j: int| 0 <= j < eqs.len() && (eqs[j] == (x, y) || eqs[j] == (y, x));
        assert(l(eqs[j].0) == l(eqs[j].1));
    }
}

/// A denied equality is among the facts.
proof fn lemma_denied(m: &TermManager, assertions: Seq<TermId>, u: TermId, x: TermId, y: TermId) -> (i: int)
    requires
        m.wf(),
        forced(m, assertions, u, false),
        equals(m, u, x, y),
    ensures
        0 <= i < asserted_facts(m, assertions).diseqs.len(),
        asserted_facts(m, assertions).diseqs[i] == (x, y) || asserted_facts(m, assertions).diseqs[i] == (y, x),
{
    let f = asserted_facts(m, assertions);
    lemma_asserted_facts(m, assertions, u, false);
    let h = facts_under(m, u, false);
    assert(m.args(u)[0] == x && m.args(u)[1] == y || m.args(u)[0] == y && m.args(u)[1] == x);
    let d = h.diseqs.last();
    assert(h.diseqs.len() == 1 && h.diseqs[0] == d);
    assert(h.diseqs.contains(d));
    choose|i: int| 0 <= i < f.diseqs.len() && f.diseqs[i] == d
}

/// Assertions that say of a variable, or of a constructor application, that it equals a constructor
/// application and that it does not, are refuted.
pub proof fn law_denied_application_is_refuted(m: &TermManager, assertions: Seq<TermId>, r: bool, t: TermId, u: TermId, x: TermId, c: TermId)
    requires
        m.wf(),
        dt_verdict(m, assertions, r),
        forced(m, assertions, t, true),
        equals(m, t, x, c),
        forced(m, assertions, u, false),
        equals(m, u, x, c),
        m.has(x) && (m.op(x) is Var || m.op(x) is DtConstructor),
        m.has(c) && m.op(c) is DtConstructor,
    ensures
        r,
{
    let f = asserted_facts(m, assertions);
    if !r {
        let (ctors, cl) = choose|ctors: Seq<TermId>, cl: Closing| #[trigger] closed_verdict(m, assertions, ctors, cl, r);
        lemma_asserted_facts(m, assertions, t, true);
        let g = facts_under(m, t, true);
        assert(m.args(t)[0] == x && m.args(t)[1] == c || m.args(t)[0] == c && m.args(t)[1] == x);
        if m.op(x) is Var {
            assert(g.ctor_binds.len() == 1 && g.ctor_binds[0] == (x, c));
            assert(g.ctor_binds.contains((x, c)));
            lemma_closure_holds(f, cl.eqs, (x, c));
        } else {
            let e = g.ctor_ctor_eqs[0];
            assert(g.ctor_ctor_eqs.len() == 1 && g.ctor_ctor_eqs.contains(e));
            assert(e == (x, c) || e == (c, x));
            lemma_closure_holds(f, cl.eqs, e);
        }
        lemma_pair_joins(cl.eqs, x, c);
        lemma_pair_joins(cl.eqs, c, x);
        let i = lemma_denied(m, assertions, u, x, c);
        assert(joined(cl.eqs, f.diseqs[i].0, f.diseqs[i].1));
        assert(refuted(m, f, cl.eqs, ctors));
    }
}

/// What a closing starts from, it keeps.
proof fn lemma_closing_keeps(m: &TermManager, sel: Pairs, s: Closing, budget: nat, left: nat, later: Closing, x: (TermId, TermId))
    requires
        closes(m, sel, s, budget, left, later),
        s.eqs.contains(x),
    ensures
        later.eqs.contains(x),
    decreases budget,
{
    if budget > 0 {
        let mid = choose|mid: Closing| #[trigger]
            is_round(m, sel, s, mid) && if mid == s {
                left == budget - 1 && later == s
            } else {
                closes(m, sel, mid, (budget - 1) as nat, left, later)
            };
        if mid != s {
            let i = choose|i: int| 0 <= i < s.eqs.len() && s.eqs[i] == x;
            assert(mid.eqs.take(s.eqs.len() as int)[i] == mid.eqs[i]);
            lemma_closing_keeps(m, sel, mid, (budget - 1) as nat, left, later, x);
        }
    }
}

/// Assertions that equate two applications of one constructor, and deny that their arguments at a
/// position are equal, are refuted.
pub proof fn law_equal_applications_have_equal_arguments(
    m: &TermManager,
    assertions: Seq<TermId>,
    r: bool,
    t: TermId,
    u: TermId,
    c: TermId,
    d: TermId,
    i: int,
)
    requires
        m.wf(),
        dt_verdict(m, assertions, r),
        forced(m, assertions, t, true),
        equals(m, t, c, d),
        m.has(c) && m.op(c) is DtConstructor,
        m.has(d) && m.op(d) == m.op(c),
        c != d,
        0 <= i < m.args(c).len(),
        i < m.args(d).len(),
        forced(m, assertions, u, false),
        equals(m, u, m.args(c)[i], m.args(d)[i]),
    ensures
        r,
{
    let f = asserted_facts(m, assertions);
    if !r {
        let (ctors, cl) = choose|ctors: Seq<TermId>, cl: Closing| #[trigger] closed_verdict(m, assertions, ctors, cl, r);
        lemma_asserted_facts(m, assertions, t, true);
        let g = facts_under(m, t, true);
        assert(m.args(t)[0] == c && m.args(t)[1] == d || m.args(t)[0] == d && m.args(t)[1] == c);
        let e = g.ctor_ctor_eqs[0];
        assert(g.ctor_ctor_eqs.len() == 1 && g.ctor_ctor_eqs.contains(e));
        assert(e == (c, d) || e == (d, c));
        let base = base_eqs(f);
        assert(base.take(base.len() as int) =~= base);
        lemma_closure_holds(f, base, e);
        let left = choose|left: nat| #[trigger]
            closes(m, f.sel_eqs, underived(base), DT_CLOSURE_STEP_BUDGET as nat, left, cl);
        let budget = DT_CLOSURE_STEP_BUDGET as nat;
        let start = underived(base);
        let mid = choose|mid: Closing| #[trigger]
            is_round(m, f.sel_eqs, start, mid) && if mid == start {
                left == budget - 1 && cl == start
            } else {
                closes(m, f.sel_eqs, mid, (budget - 1) as nat, left, cl)
            };
        lemma_pair_joins(base, c, d);
        let j = choose|j: int| 0 <= j < base.len() && base[j] == e;
        assert(in_play(base, c)) by {
            assert(base[j].0 == c || base[j].1 == c);
        }
        assert(in_play(base, d)) by {
            assert(base[j].0 == d || base[j].1 == d);
        }
        assert(are_twins(m, start.eqs, c, d));
        assert(injected(m, mid.eqs, c, d));
        let x = m.args(c)[i];
        let y = m.args(d)[i];
        if x != y {
            assert(has_pair(mid.eqs, x, y));
            let pair = if mid.eqs.contains((x, y)) {
                (x, y)
            } else {
                (y, x)
            };
            if mid != start {
                lemma_closing_keeps(m, f.sel_eqs, mid, (budget - 1) as nat, left, cl, pair);
            }
            lemma_pair_joins(cl.eqs, x, y);
            lemma_pair_joins(cl.eqs, y, x);
        }
        let n = lemma_denied(m, assertions, u, x, y);
        assert(joined(cl.eqs, f.diseqs[n].0, f.diseqs[n].1));
        assert(refuted(m, f, cl.eqs, ctors));
    }
}

/// The item has been searched within some budget, with the verdict.
pub open spec fn is_searched(m: &TermManager, items: Items, f: FactsView, ctors: Seq<TermId>, r: bool) -> bool {
    exists|b: nat, left: nat| #[trigger] searched(m, items, f, ctors, b, left, r)
}

/// Cases that are searched one after the other: all of them refute, or one does not.
proof fn lemma_searched_each(
    m: &TermManager,
    t: TermId,
    p: bool,
    i: nat,
    rest: Items,
    f: FactsView,
    ctors: Seq<TermId>,
    budget: nat,
    left: nat,
    r: bool,
)
    requires
        searched_each(m, t, p, i, rest, f, ctors, budget, left, r),
    ensures
        r ==> forall|k: int| i <= k < m.args(t).len() ==> is_searched(m, rest.push((#[trigger] m.args(t)[k], p)), f, ctors, true),
        !r ==> exists|k: int| i <= k < m.args(t).len() && is_searched(m, rest.push((#[trigger] m.args(t)[k], p)), f, ctors, false),
    decreases m.args(t).len() - i,
{
    if i < m.args(t).len() {
        let items = rest.push((m.args(t)[i as int], p));
        let b = choose|b: nat| #[trigger]
            within(b, budget) && {
                ||| searched(m, items, f, ctors, budget, b, true) && searched_each(m, t, p, i + 1, rest, f, ctors, b, left, r)
                ||| searched(m, items, f, ctors, budget, b, false) && left == b && !r
            };
        if searched(m, items, f, ctors, budget, b, true) && searched_each(m, t, p, i + 1, rest, f, ctors, b, left, r) {
            lemma_searched_each(m, t, p, i + 1, rest, f, ctors, b, left, r);
        } else {
            assert(is_searched(m, rest.push((m.args(t)[i as int], p)), f, ctors, false));
        }
    }
}

/// A disjunction that holds, or a conjunction that does not, is refuted exactly by the refutation of
/// each of its cases.
pub proof fn law_cases_are_searched_one_by_one(
    m: &TermManager,
    rest: Items,
    t: TermId,
    p: bool,
    f: FactsView,
    ctors: Seq<TermId>,
    budget: nat,
    left: nat,
    r: bool,
)
    requires
        searched(m, rest.push((t, p)), f, ctors, budget, left, r),
        budget > 0,
        m.has(t),
        (m.op(t) == Op::Or && p) || (m.op(t) == Op::And && !p),
    ensures
        r ==> forall|k: int| 0 <= k < m.args(t).len() ==> is_searched(m, rest.push((#[trigger] m.args(t)[k], p)), f, ctors, true),
        !r ==> exists|k: int| 0 <= k < m.args(t).len() && is_searched(m, rest.push((#[trigger] m.args(t)[k], p)), f, ctors, false),
{
    assert(rest.push((t, p)).last() == (t, p));
    assert(rest.push((t, p)).drop_last() =~= rest);
    lemma_searched_each(m, t, p, 0, rest, f, ctors, (budget - 1) as nat, left, r);
}

/// Conjunctions that hold and disjunctions that do not are taken apart, all of their parts joining the
/// items; a negation gives way to what it denies; and any other formula adds its facts.
pub proof fn law_formulas_are_taken_apart(
    m: &TermManager,
    rest: Items,
    t: TermId,
    p: bool,
    f: FactsView,
    ctors: Seq<TermId>,
    budget: nat,
    left: nat,
    r: bool,
)
    requires
        searched(m, rest.push((t, p)), f, ctors, budget, left, r),
        budget > 0,
        m.has(t),
    ensures
        m.op(t) == Op::Not ==> is_searched(m, rest.push((m.arg(t, 0), !p)), f, ctors, r),
        (m.op(t) == Op::And && p) || (m.op(t) == Op::Or && !p) ==> exists|more: Items| #[trigger]
            is_searched(m, rest + more, f, ctors, r) && forall|k: int| 0 <= k < m.args(t).len() ==> more.contains((#[trigger] m.args(t)[k], p)),
        !(m.op(t) == Op::Not) && !(m.op(t) == Op::And) && !(m.op(t) == Op::Or) ==> is_searched(m, rest, f.plus(facts_under(m, t, p)), ctors, r),
{
    assert(rest.push((t, p)).last() == (t, p));
    assert(rest.push((t, p)).drop_last() =~= rest);
    let b = (budget - 1) as nat;
    if m.op(t) == Op::Not {
        assert(searched(m, rest.push((m.arg(t, 0), !p)), f, ctors, b, left, r));
    } else if (m.op(t) == Op::And && p) || (m.op(t) == Op::Or && !p) {
        let more = under(m, t, p);
        assert(searched(m, rest + more, f, ctors, b, left, r));
        assert(is_searched(m, rest + more, f, ctors, r));
        assert forall|k: int| 0 <= k < m.args(t).len() implies more.contains((#[trigger] m.args(t)[k], p)) by {
            assert(more[m.args(t).len() - 1 - k] == (m.args(t)[k], p));
        }
    } else if !(m.op(t) == Op::And) && !(m.op(t) == Op::Or) {
        assert(searched(m, rest, f.plus(facts_under(m, t, p)), ctors, b, left, r));
    }
}

/// A case without items left is refuted exactly if the closure of its facts is: by a value that is part
/// of itself, or by an equality that is denied.
pub proof fn law_facts_of_a_case_decide(m: &TermManager, f: FactsView, ctors: Seq<TermId>, budget: nat, left: nat, r: bool)
    requires
        searched(m, Seq::empty(), f, ctors, budget, left, r),
        budget > 0,
    ensures
        exists|c: Closing| #[trigger]
            closes(m, f.sel_eqs, underived(base_eqs(f)), (budget - 1) as nat, left, c) && (r <==> !acyclic(m, c.eqs, ctors) || exists|i: int|
                0 <= i < f.diseqs.len() && joined(c.eqs, (#[trigger] f.diseqs[i]).0, f.diseqs[i].1)),
{
}

/// The cases of a search are made of formulas that are neither negations nor conjunctions nor
/// disjunctions.
pub proof fn law_cases_are_literals(m: &TermManager, items: Items, lits: Items, n: nat, i: int)
    requires
        is_case(m, items, lits, n),
        0 <= i < lits.len(),
    ensures
        m.has(lits[i].0),
        !(m.op(lits[i].0) == Op::Not) && !(m.op(lits[i].0) == Op::And) && !(m.op(lits[i].0) == Op::Or),
    decreases n,
{
    if items.len() > 0 {
        let (t, p) = items.last();
        let rest = items.drop_last();
        let k = (n - 1) as nat;
        if !m.has(t) {
            law_cases_are_literals(m, rest, lits, k, i);
        } else if m.op(t) is Not {
            law_cases_are_literals(m, rest.push((m.arg(t, 0), !p)), lits, k, i);
        } else if splits_all(m.op(t), p) {
            law_cases_are_literals(m, rest + under(m, t, p), lits, k, i);
        } else if splits_some(m.op(t), p) {
            let j = choose|j: int| 0 <= j < m.args(t).len() && is_case(m, rest.push((#[trigger] m.args(t)[j], p)), lits, k);
            law_cases_are_literals(m, rest.push((m.args(t)[j], p)), lits, k, i);
        } else if i > 0 {
            law_cases_are_literals(m, rest, lits.drop_first(), k, i - 1);
        }
    }
}

} // verus!
