//! What the theories add to an encoding holds under every reading that obeys their laws.
use crate::axioms::all_shapes;
use crate::axioms::clause_of;
use crate::axioms::covered;
use crate::axioms::covered_by;
use crate::axioms::enriched;
use crate::axioms::field_stated;
use crate::axioms::fits;
use crate::axioms::followed;
use crate::axioms::from_axiom;
use crate::axioms::in_place;
use crate::axioms::is_access;
use crate::axioms::is_denied;
use crate::axioms::is_diseq;
use crate::axioms::is_open;
use crate::axioms::leads;
use crate::axioms::says_shape;
use crate::axioms::split_stated;
use crate::axioms::stated;
use crate::axioms::takes;
use crate::axioms::test_stated;
use crate::axioms::tests;
use crate::axioms::Axiom;
use crate::cnf::clause_true;
use crate::cnf::flip;
use crate::cnf::lit_true;
use crate::cnf::Assignment;
use crate::cnf::Lit;
use crate::dt_facts::ctor_index;
use crate::dt_facts::ctor_of;
use crate::dt_facts::is_ctor;
use crate::dt_facts::layout_of;
use crate::dt_facts::layouts_of;
use crate::dt_facts::rebuilds;
use crate::dt_facts::rebuilds_field;
use crate::dt_model::ctor_value;
use crate::dt_model::is_datatype_term;
use crate::dt_model::is_model;
use crate::dt_model::lemma_equality_truth;
use crate::dt_model::lemma_rebuilt;
use crate::dt_model::reads;
use crate::dt_model::well_typed;
use crate::dt_model::DtModel;
use crate::dt_resolve::law_normal_form_keeps_value;
use crate::dt_resolve::lemma_field_value;
use crate::dt_resolve::lemma_normal_form;
use crate::dt_resolve::normal_form;
use crate::dt_resolve::resolved;
use crate::encode::lemma_lit_truth;
use crate::encode::linked;
use crate::encode::lit_of;
use crate::encode::sigma;
use crate::encode::valid;
use crate::encoder::Constraint;
use crate::encoder::Encoder;
use crate::linear::is_numeric;
use crate::linear::Valuation;
use crate::semantics::equal_under;
use crate::semantics::is_bool;
use crate::semantics::truth;
use crate::semantics::Reading;
use crate::term::Op;
use crate::term::Rel;
use crate::term::Sort;
use crate::term::SortId;
use crate::term::Symbol;
use crate::term::TermId;
use crate::term::TermManager;
use crate::term::INT_SORT;
use crate::term::REAL_SORT;
use vstd::prelude::*;

verus! {

/// The reading takes equalities and comparisons of numbers as those of their values.
pub open spec fn orders(m: &TermManager, r: Reading, v: Valuation) -> bool {
    &&& forall|a: TermId, b: TermId| m.has(a) && is_numeric(m, a) ==> #[trigger] (r.same)(a, b) == (v(a) == v(b))
    &&& forall|t: TermId| #[trigger] m.has(t) && m.op(t) == Op::Compare(Rel::Lt) ==> (r.atom)(t) == (v(m.arg(t, 0)) < v(m.arg(t, 1)))
    &&& forall|t: TermId| #[trigger] m.has(t) && m.op(t) == Op::Compare(Rel::Gt) ==> (r.atom)(t) == (v(m.arg(t, 0)) > v(m.arg(t, 1)))
}

/// No sort has two constructors of one name.
pub open spec fn constructors_distinct(m: &TermManager) -> bool {
    forall|s: SortId, i: int, j: int|
        #![trigger layouts_of(m, s)->0[i], layouts_of(m, s)->0[j]]
        layouts_of(m, s) is Some && 0 <= i < j < layouts_of(m, s)->0.len() ==> layouts_of(m, s)->0[i].name != layouts_of(m, s)->0[j].name
}

/// Numbers and datatypes obey their laws, and variables have the values that they are bound to.
pub open spec fn obeys(m: &TermManager, binds: Map<usize, TermId>, r: Reading, d: DtModel, v: Valuation) -> bool {
    &&& well_typed(m)
    &&& constructors_distinct(m)
    &&& orders(m, r, v)
    &&& is_model(m, d)
    &&& reads(m, r, d)
    &&& forall|x: usize| #[trigger] binds.contains_key(x) ==> (d.val)(x) == (d.val)(binds[x])
}

/// Values that obey the laws of datatypes on a store obey them on what it grew from.
proof fn lemma_model_shrinks(start: &TermManager, m: &TermManager, d: DtModel)
    requires
        start.wf(),
        start.extended_by(m),
        is_model(m, d),
    ensures
        is_model(start, d),
{
    assert forall|t: TermId| start.has(t) implies #[trigger] m.terms@[t as int] == start.terms@[t as int] by {}
    assert forall|c: TermId| #[trigger] is_ctor(start, c) implies ctor_value(start, d, c) by {
        assert(m.terms@[c as int] == start.terms@[c as int]);
        assert(is_ctor(m, c));
        assert(ctor_value(m, d, c));
        assert forall|i: int| 0 <= i < start.args(c).len() implies #[trigger] (d.field)((d.val)(c), i) == (d.val)(start.arg(c, i)) by {
            assert(m.arg(c, i) == start.arg(c, i));
            assert((d.field)((d.val)(c), i) == (d.val)(m.arg(c, i)));
        }
    }
    assert forall|c: TermId, x: int|
        #![trigger is_ctor(start, c), (d.kind)(x)]
        is_ctor(start, c) && (d.kind)(x) == ctor_of(start, c) && (forall|i: int|
            0 <= i < start.args(c).len() ==> #[trigger] (d.field)(x, i) == (d.val)(start.arg(c, i))) implies x == (d.val)(c) by {
        assert(m.terms@[c as int] == start.terms@[c as int]);
        assert(is_ctor(m, c));
        assert forall|i: int| 0 <= i < m.args(c).len() implies #[trigger] (d.field)(x, i) == (d.val)(m.arg(c, i)) by {
            assert((d.field)(x, i) == (d.val)(start.arg(c, i)));
        }
        assert((d.kind)(x) == ctor_of(m, c));
    }
    assert forall|t: TermId, sel: Symbol, s: SortId, ctor: Symbol|
        #![trigger crate::dt_model::applies_selector(start, t, sel), crate::dt_model::field_index(start, s, ctor, sel)]
        crate::dt_model::applies_selector(start, t, sel) && (d.kind)((d.val)(start.arg(t, 0))) == ctor && crate::dt_model::field_index(
            start,
            s,
            ctor,
            sel,
        ) is Some implies (d.val)(t) == (d.field)(
        (d.val)(start.arg(t, 0)),
        crate::dt_model::field_index(start, s, ctor, sel)->Some_0,
    ) by {
        assert(m.terms@[t as int] == start.terms@[t as int]);
        assert(crate::dt_model::applies_selector(m, t, sel));
        assert(layouts_of(m, s) == layouts_of(start, s));
        assert(layout_of(m, s, ctor) == layout_of(start, s, ctor));
        assert(crate::dt_model::field_index(m, s, ctor, sel) == crate::dt_model::field_index(start, s, ctor, sel));
    }
    assert forall|t: TermId| #[trigger] is_datatype_term(start, t) && layouts_of(start, start.sort_of(t))->Some_0.len() > 0 implies exists|i: int|
        0 <= i < layouts_of(start, start.sort_of(t))->Some_0.len() && (#[trigger] layouts_of(start, start.sort_of(t))->Some_0[i]).name == (
        d.kind)((d.val)(t)) by {
        assert(m.terms@[t as int] == start.terms@[t as int]);
        assert(layouts_of(m, m.sort_of(t)) == layouts_of(start, start.sort_of(t)));
        assert(is_datatype_term(m, t));
        let ls = layouts_of(m, m.sort_of(t))->Some_0;
        let i = choose|i: int| 0 <= i < ls.len() && (#[trigger] ls[i]).name == (d.kind)((d.val)(t));
        assert(ls[i].name == (d.kind)((d.val)(t)));
    }
    assert forall|c: TermId, i: int| is_ctor(start, c) && 0 <= i < start.args(c).len() && is_datatype_term(start, start.arg(c, i)) implies (
    d.rank)((d.val)(#[trigger] start.arg(c, i))) < (d.rank)((d.val)(c)) by {
        assert(start.terms@[c as int].fits(c as int));
        let a = start.arg(c, i);
        assert(m.terms@[c as int] == start.terms@[c as int]);
        assert(m.terms@[a as int] == start.terms@[a as int]);
        assert(layouts_of(m, m.sort_of(a)) == layouts_of(start, start.sort_of(a)));
        assert(is_ctor(m, c) && is_datatype_term(m, m.arg(c, i)));
    }
}

/// A datatype term equals what one of its constructors rebuilds from it exactly if that constructor
/// built its value.
proof fn lemma_shape_truth(m: &TermManager, r: Reading, d: DtModel, t: TermId, shapes: Seq<TermId>, i: int)
    requires
        m.wf(),
        well_typed(m),
        constructors_distinct(m),
        is_model(m, d),
        reads(m, r, d),
        all_shapes(m, t, shapes),
        0 <= i < shapes.len(),
    ensures
        truth(m, r, shapes[i]) == ((d.kind)((d.val)(t)) == layouts_of(m, m.sort_of(t))->0[i].name),
{
    let s = m.sort_of(t);
    let ls = layouts_of(m, s)->0;
    let q = shapes[i];
    let l = ls[i];
    assert(says_shape(m, q, t, l));
    let c = m.arg(q, 1);
    assert(m.arg(q, 0) == t);
    assert(m.terms@[q as int].fits(q as int));
    assert(!is_bool(m, t));
    assert(m.args(q)[0] == t && m.args(q)[1] == c);
    assert(truth(m, r, q) == equal_under(m, r, q, t, c));
    assert(equal_under(m, r, q, t, c) == (r.same)(t, c));
    assert((r.same)(t, c) == ((d.val)(t) == (d.val)(c)));
    assert(is_ctor(m, c));
    assert(ctor_value(m, d, c));
    if (d.kind)((d.val)(t)) == l.name {
        lemma_ctor_index(m, s, i);
        assert(layout_of(m, s, l.name) == Some(l));
        assert forall|k: int| 0 <= k < m.args(c).len() implies #[trigger] rebuilds_field(m, c, t, l, k) by {
            assert(is_access(m, m.args(c)[k], t, l.fields@[k]));
        }
        assert(rebuilds(m, c, t));
        lemma_rebuilt(m, d, t, c);
    }
}

/// The first constructor of a name is the only one.
proof fn lemma_ctor_index(m: &TermManager, s: SortId, i: int)
    requires
        constructors_distinct(m),
        layouts_of(m, s) is Some,
        0 <= i < layouts_of(m, s)->0.len(),
    ensures
        layout_of(m, s, layouts_of(m, s)->0[i].name) == Some(layouts_of(m, s)->0[i]),
{
    let ls = layouts_of(m, s)->0;
    lemma_ctor_index_from(m, s, i, 0);
}

proof fn lemma_ctor_index_from(m: &TermManager, s: SortId, i: int, from: int)
    requires
        constructors_distinct(m),
        layouts_of(m, s) is Some,
        0 <= from <= i < layouts_of(m, s)->0.len(),
    ensures
        ctor_index(layouts_of(m, s)->0, layouts_of(m, s)->0[i].name, from) == Some(i),
    decreases i - from,
{
    let ls = layouts_of(m, s)->0;
    if from < i {
        assert(ls[from].name != ls[i].name);
        lemma_ctor_index_from(m, s, i, from + 1);
    }
}

/// A clause is true if one of its literals is.
proof fn lemma_one_true(a: crate::cnf::Assignment, c: Seq<Lit>, i: int)
    requires
        0 <= i < c.len(),
        lit_true(a, c[i]),
    ensures
        clause_true(a, c),
{
}

/// Every axiom that is added to an encoding is true under each reading that obeys the laws of
/// numbers and datatypes, when variables are read as their formulas.
pub proof fn law_axiom_holds(
    start: &TermManager,
    binds: Map<usize, TermId>,
    m: &TermManager,
    e: &Encoder,
    x: Axiom,
    r: Reading,
    d: DtModel,
    v: Valuation,
)
    requires
        linked(m, e),
        start.wf(),
        start.extended_by(m),
        fits(start, binds, m, x),
        in_place(m, e, x),
        obeys(m, binds, r, d, v),
    ensures
        clause_true(sigma(m, e, r), clause_of(m, e, x)),
{
    let a = sigma(m, e, r);
    let c = clause_of(m, e, x);
    match x {
        Axiom::Split { eq, lt, gt } => {
            lemma_lit_truth(m, e, r, eq);
            lemma_lit_truth(m, e, r, lt);
            lemma_lit_truth(m, e, r, gt);
            assert(m.terms@[eq as int].fits(eq as int));
            let p = m.arg(eq, 0);
            let q = m.arg(eq, 1);
            assert(!is_bool(m, p));
            assert(truth(m, r, eq) == equal_under(m, r, eq, p, q));
            assert(equal_under(m, r, eq, p, q) == (r.same)(p, q));
            assert(m.arg(lt, 0) == p && m.arg(lt, 1) == q && m.arg(gt, 0) == p && m.arg(gt, 1) == q);
            if v(p) == v(q) {
                lemma_one_true(a, c, 0);
            } else if v(p) < v(q) {
                lemma_one_true(a, c, 1);
            } else {
                lemma_one_true(a, c, 2);
            }
        },
        Axiom::Cover { term, shapes } => {
            let ls = layouts_of(m, m.sort_of(term))->0;
            assert(is_datatype_term(m, term));
            let i = choose|i: int| 0 <= i < ls.len() && (#[trigger] ls[i]).name == (d.kind)((d.val)(term));
            lemma_shape_truth(m, r, d, term, shapes, i);
            assert(says_shape(m, shapes[i], term, ls[i]));
            lemma_lit_truth(m, e, r, shapes[i]);
            lemma_one_true(a, c, i);
        },
        Axiom::Exclusion { term, shapes, i, j } => {
            let ls = layouts_of(m, m.sort_of(term))->0;
            lemma_shape_truth(m, r, d, term, shapes, i);
            lemma_shape_truth(m, r, d, term, shapes, j);
            assert(ls[i].name != ls[j].name);
            assert(says_shape(m, shapes[i], term, ls[i]) && says_shape(m, shapes[j], term, ls[j]));
            lemma_lit_truth(m, e, r, shapes[i]);
            lemma_lit_truth(m, e, r, shapes[j]);
            if !truth(m, r, shapes[i]) {
                lemma_one_true(a, c, 0);
            } else {
                lemma_one_true(a, c, 1);
            }
        },
        Axiom::Field { term, value, eq } => {
            lemma_model_shrinks(start, m, d);
            let n = normal_form(start, binds, start.arg(term, 0))->0;
            law_normal_form_keeps_value(start, binds, d, start.arg(term, 0));
            lemma_field_value(start, d, term, start.op(term)->DtSelector_0, n);
            assert((d.val)(term) == (d.val)(value));
            assert(m.arg(eq, 0) == term && m.arg(eq, 1) == value);
            assert(m.terms@[eq as int].fits(eq as int));
            lemma_equality_truth(m, r, d, eq, term, value);
            assert(truth(m, r, eq) == equal_under(m, r, eq, term, value));
            lemma_lit_truth(m, e, r, eq);
            lemma_one_true(a, c, 0);
        },
        Axiom::Test { term, verdict } => {
            lemma_model_shrinks(start, m, d);
            let p = start.arg(term, 0);
            let n = normal_form(start, binds, p)->0;
            law_normal_form_keeps_value(start, binds, d, p);
            assert(m.terms@[term as int] == start.terms@[term as int]);
            assert(ctor_value(start, d, n));
            assert(truth(m, r, term) == (r.atom)(term));
            lemma_lit_truth(m, e, r, term);
            lemma_one_true(a, c, 0);
        },
    }
}

/// Every clause that an enrichment adds is true under each reading that obeys the laws of numbers
/// and datatypes, when variables are read as their formulas: the axioms restrict nothing but
/// readings that break those laws.
pub proof fn law_enrichment_is_conservative(
    binds: Map<usize, TermId>,
    m: &TermManager,
    e: &Encoder,
    later: &TermManager,
    f: &Encoder,
    r: Reading,
    d: DtModel,
    v: Valuation,
    i: int,
)
    requires
        enriched(binds, m, e, later, f),
        obeys(later, binds, r, d, v),
        e.clauses@.len() <= i < f.clauses@.len(),
    ensures
        clause_true(sigma(later, f, r), f.clauses@[i]@),
{
    let c = f.clauses@[i]@;
    if valid(later, f, c) {
        assert(clause_true(sigma(later, f, r), c));
    } else {
        assert(from_axiom(binds, later, f, c));
        let (start, x) = choose|start: TermManager, x: Axiom| #[trigger]
            fits(&start, binds, later, x) && start.wf() && start.extended_by(later) && in_place(later, f, x) && c == clause_of(later, f, x);
        law_axiom_holds(&start, binds, later, f, x, r, d, v);
    }
}

/// The formula denies an equality of integers or of reals.
pub open spec fn denies_numbers(m: &TermManager, x: TermId) -> bool {
    &&& m.has(x)
    &&& m.op(x) == Op::Not
    &&& m.op(m.arg(x, 0)) == Op::Eq
    &&& m.sort_of(m.arg(m.arg(x, 0), 0)) == INT_SORT || m.sort_of(m.arg(m.arg(x, 0), 0)) == REAL_SORT
}

/// A formula that denies an equality of numbers is found below conjunctions, disjunctions, negations,
/// conclusions and branches, at any depth: the search comes to it, and knows it.
pub proof fn law_denied_equalities_are_found(m: &TermManager, t: TermId, s: TermId, x: TermId)
    requires
        m.wf(),
        m.has(t),
        leads(m, s, x),
        denies_numbers(m, x),
        match m.op(t) {
            Op::Not | Op::And | Op::Or => m.args(t).contains(s),
            Op::Implies => s == m.arg(t, 1),
            Op::Ite => s == m.arg(t, 1) || s == m.arg(t, 2),
            _ => false,
        },
    ensures
        leads(m, x, x),
        leads(m, t, x),
        is_diseq(m, x),
{
    assert(m.terms@[t as int].fits(t as int));
    let next = followed(m, t);
    assert(exists|i: int| 0 <= i < next.len() && next[i] == s) by {
        match m.op(t) {
            Op::Not | Op::And | Op::Or => {},
            Op::Implies => {
                assert(next[0] == s);
            },
            _ => {
                assert(next[0] == m.arg(t, 1) && next[1] == m.arg(t, 2));
            },
        }
    }
    let i = choose|i: int| 0 <= i < next.len() && next[i] == s;
    assert(s < t) by {
        match m.op(t) {
            Op::Not | Op::And | Op::Or => {
                assert(m.args(t)[i] < t);
            },
            Op::Implies => {
                assert(m.args(t)[1] < t);
            },
            _ => {
                assert(m.args(t)[1] < t && m.args(t)[2] < t);
            },
        }
    }
    assert(followed(m, t)[i] < t && leads(m, followed(m, t)[i], x));
}

/// Where the ways in which two numbers compare have been stated, an assignment that satisfies the
/// clauses and denies the equality makes one of the two comparisons true, each with the sides of the
/// equality in their order.
pub proof fn law_split_leaves_an_order(start: &TermManager, binds: Map<usize, TermId>, m: &TermManager, e: &Encoder, q: TermId, a: Assignment)
    requires
        split_stated(start, binds, m, e, q),
        forall|i: int| 0 <= i < e.clauses@.len() ==> clause_true(a, (#[trigger] e.clauses@[i])@),
        !lit_true(a, lit_of(m, e, q)),
    ensures
        exists|o: TermId|
            lit_true(a, #[trigger] lit_of(m, e, o)) && m.has(o) && m.args(o) == m.args(q) && (m.op(o) == Op::Compare(Rel::Lt) || m.op(o)
                == Op::Compare(Rel::Gt)),
{
    let (lt, gt) = choose|lt: TermId, gt: TermId| #[trigger] stated(start, binds, m, e, Axiom::Split { eq: q, lt, gt });
    let c = clause_of(m, e, Axiom::Split { eq: q, lt, gt });
    assert(e.has_clause(c));
    let i = choose|i: int| 0 <= i < e.clauses@.len() && (#[trigger] e.clauses@[i])@ == c;
    assert(clause_true(a, e.clauses@[i]@));
    let j = choose|j: int| 0 <= j < c.len() && lit_true(a, #[trigger] c[j]);
    if j == 1 {
        assert(lit_true(a, lit_of(m, e, lt)));
    } else {
        assert(lit_true(a, lit_of(m, e, gt)));
    }
}

/// A term of a datatype with constructors is open to all of them, unless it applies one itself or is
/// quantified.
pub proof fn law_values_without_constructor_are_open(m: &TermManager, t: TermId)
    requires
        m.has(t),
        m.sort_of(t) < m.sorts@.len(),
        m.sorts@[m.sort_of(t) as int] matches Sort::Datatype(l) && l@.len() > 0,
        !(m.op(t) is DtConstructor) && !(m.op(t) is Forall) && !(m.op(t) is Exists),
    ensures
        is_open(m, t),
{
}

/// A test of a constructor application is true exactly if the constructor is the one tested for; and
/// so it is with a variable that is bound to one.
pub proof fn law_tests_of_applications_are_decided(m: &TermManager, binds: Map<usize, TermId>, t: TermId, c: TermId, k: Symbol, l: Symbol)
    requires
        m.wf(),
        m.has(t),
        m.op(t) == Op::DtTester(k),
        m.has(c),
        m.op(c) == Op::DtConstructor(l),
        m.arg(t, 0) == c || (m.op(m.arg(t, 0)) is Var && binds.contains_key(m.arg(t, 0)) && binds[m.arg(t, 0)] == c),
    ensures
        tests(m, binds, t) == Some(k == l),
{
    assert(m.terms@[t as int].fits(t as int));
    let a = m.args(t)[0];
    assert(a < t);
    assert(resolved(m, binds, c, 1) == Some(c));
    if a == c {
        lemma_normal_form(m, binds, a, 1);
    } else {
        assert(resolved(m, binds, a, 2) == resolved(m, binds, c, 1));
        lemma_normal_form(m, binds, a, 2);
    }
}

/// A selector of a constructor takes from an application of the constructor the argument at its own
/// position; and so it is with a variable that is bound to one.
pub proof fn law_selections_from_applications_are_decided(
    m: &TermManager,
    binds: Map<usize, TermId>,
    t: TermId,
    c: TermId,
    sel: Symbol,
    i: int,
    j: int,
)
    requires
        m.wf(),
        m.has(t),
        m.op(t) == Op::DtSelector(sel),
        m.has(c),
        m.op(c) is DtConstructor,
        m.arg(t, 0) == c || (m.op(m.arg(t, 0)) is Var && binds.contains_key(m.arg(t, 0)) && binds[m.arg(t, 0)] == c),
        m.sort_of(c) < m.sorts@.len(),
        m.sorts@[m.sort_of(c) as int] matches Sort::Datatype(l) && 0 <= i < l@.len() && m.op(c) == Op::DtConstructor(l@[i].name) && 0 <= j
            < l@[i].fields@.len() && l@[i].fields@[j].0 == sel && (forall|x: int| 0 <= x < i ==> (#[trigger] l@[x]).name != l@[i].name) && (
        forall|y: int| 0 <= y < j ==> (#[trigger] l@[i].fields@[y]).0 != sel),
        j < m.args(c).len(),
    ensures
        takes(m, binds, t) == Some(m.arg(c, j)),
{
    assert(m.terms@[t as int].fits(t as int));
    let a = m.args(t)[0];
    assert(a < t);
    assert(resolved(m, binds, c, 1) == Some(c));
    if a == c {
        lemma_normal_form(m, binds, a, 1);
    } else {
        assert(resolved(m, binds, a, 2) == resolved(m, binds, c, 1));
        lemma_normal_form(m, binds, a, 2);
    }
    let l = crate::dt_facts::layouts_of(m, m.sort_of(c))->0;
    lemma_ctor_position(l, l[i].name, 0, i);
    lemma_field_position(l[i].fields@, sel, 0, j);
}

/// The first constructor of a name is found.
proof fn lemma_ctor_position(l: Seq<crate::term::CtorLayout>, name: Symbol, from: int, i: int)
    requires
        0 <= from <= i < l.len(),
        l[i].name == name,
        forall|x: int| from <= x < i ==> (#[trigger] l[x]).name != name,
    ensures
        crate::dt_facts::ctor_index(l, name, from) == Some(i),
    decreases i - from,
{
    if from < i {
        lemma_ctor_position(l, name, from + 1, i);
    }
}

/// The first selector of a name is found.
proof fn lemma_field_position(fields: Seq<(Symbol, SortId)>, name: Symbol, from: int, j: int)
    requires
        0 <= from <= j < fields.len(),
        fields[j].0 == name,
        forall|y: int| from <= y < j ==> (#[trigger] fields[y]).0 != name,
    ensures
        crate::dt_model::selector_index(fields, name, from) == Some(j),
    decreases j - from,
{
    if from < j {
        lemma_field_position(fields, name, from + 1, j);
    }
}

/// An equality of numbers that an assignment makes false is split, whatever its sides are.
pub proof fn law_equalities_made_false_are_split(m: &TermManager, e: &Encoder, truths: Seq<Option<bool>>, v: usize, a: TermId, b: TermId)
    requires
        v < truths.len(),
        truths[v as int] == Some(false),
        e.constraints@.contains_key(v),
        e.constraints@[v] == Constraint::Eq(a, b),
        m.sort_of(a) == INT_SORT || m.sort_of(a) == REAL_SORT,
    ensures
        is_denied(m, e, truths, v),
{
}

/// A clause that has been stated has a true literal where the clauses are satisfied.
proof fn lemma_stated(start: &TermManager, binds: Map<usize, TermId>, m: &TermManager, e: &Encoder, x: Axiom, a: Assignment) -> (j: int)
    requires
        stated(start, binds, m, e, x),
        forall|i: int| 0 <= i < e.clauses@.len() ==> clause_true(a, (#[trigger] e.clauses@[i])@),
    ensures
        0 <= j < clause_of(m, e, x).len(),
        lit_true(a, clause_of(m, e, x)[j]),
{
    let c = clause_of(m, e, x);
    assert(e.has_clause(c));
    let i = choose|i: int| 0 <= i < e.clauses@.len() && (#[trigger] e.clauses@[i])@ == c;
    assert(clause_true(a, e.clauses@[i]@));
    choose|j: int| 0 <= j < c.len() && lit_true(a, #[trigger] c[j])
}

/// Where it has been stated which constructors can have built a term, an assignment that satisfies the
/// clauses makes exactly one of the equalities true that say so, one for each constructor of the sort:
/// of the term with the constructor's application to the fields of the term.
pub proof fn law_cover_leaves_one_constructor(start: &TermManager, binds: Map<usize, TermId>, m: &TermManager, e: &Encoder, t: TermId, a: Assignment)
    requires
        covered(start, binds, m, e, t),
        forall|i: int| 0 <= i < e.clauses@.len() ==> clause_true(a, (#[trigger] e.clauses@[i])@),
    ensures
        exists|shapes: Seq<TermId>| #[trigger]
            says_all(m, t, shapes) && (exists|i: int| 0 <= i < shapes.len() && lit_true(a, lit_of(m, e, #[trigger] shapes[i]))) && forall|
                i: int,
                j: int,
            |
                0 <= i < j < shapes.len() ==> !(lit_true(a, lit_of(m, e, #[trigger] shapes[i])) && lit_true(a, lit_of(m, e, #[trigger] shapes[j]))),
{
    let shapes = choose|shapes: Seq<TermId>| #[trigger] covered_by(start, binds, m, e, t, shapes);
    let n = lemma_stated(start, binds, m, e, Axiom::Cover { term: t, shapes }, a);
    assert(lit_true(a, lit_of(m, e, shapes[n])));
    assert forall|i: int, j: int| 0 <= i < j < shapes.len() implies !(lit_true(a, lit_of(m, e, #[trigger] shapes[i])) && lit_true(
        a,
        lit_of(m, e, #[trigger] shapes[j]),
    )) by {
        let x = Axiom::Exclusion { term: t, shapes, i, j };
        assert(stated(start, binds, m, e, x));
        let k = lemma_stated(start, binds, m, e, x, a);
        assert(clause_of(m, e, x)[0] == flip(lit_of(m, e, shapes[i])));
        assert(clause_of(m, e, x)[1] == flip(lit_of(m, e, shapes[j])));
    }
    assert forall|i: int| 0 <= i < shapes.len() implies says_one(m, t, #[trigger] shapes[i], i) by {
        assert(says_shape(m, shapes[i], t, layouts_of(m, m.sort_of(t))->0[i]));
    }
    assert(says_all(m, t, shapes));
}

/// The formulas say of the term, one for each constructor of its sort, that the constructor built it.
pub open spec fn says_all(m: &TermManager, t: TermId, shapes: Seq<TermId>) -> bool {
    &&& m.sort_of(t) < m.sorts@.len()
    &&& m.sorts@[m.sort_of(t) as int] matches Sort::Datatype(l) && shapes.len() == l@.len()
    &&& forall|i: int| 0 <= i < shapes.len() ==> says_one(m, t, #[trigger] shapes[i], i)
}

/// The formula equates the term with the application of a constructor of its sort to what its selectors
/// take from the term.
pub open spec fn says_one(m: &TermManager, t: TermId, q: TermId, i: int) -> bool {
    m.sorts@[m.sort_of(t) as int] matches Sort::Datatype(l) && {
        let c = m.arg(q, 1);
        &&& m.op(q) == Op::Eq
        &&& m.arg(q, 0) == t
        &&& m.op(c) == Op::DtConstructor(l@[i].name)
        &&& m.args(c).len() == l@[i].fields@.len()
        &&& forall|k: int|
            0 <= k < l@[i].fields@.len() ==> m.op(#[trigger] m.args(c)[k]) == Op::Apply(l@[i].fields@[k].0) && m.args(m.args(c)[k]) == seq![t]
    }
}

/// Where the outcome of a test has been stated, an assignment that satisfies the clauses gives the test
/// this truth value.
pub proof fn law_stated_tests_have_their_outcome(
    start: &TermManager,
    binds: Map<usize, TermId>,
    m: &TermManager,
    e: &Encoder,
    t: TermId,
    a: Assignment,
    b: bool,
)
    requires
        test_stated(start, binds, m, e, t),
        tests(start, binds, t) == Some(b),
        forall|i: int| 0 <= i < e.clauses@.len() ==> clause_true(a, (#[trigger] e.clauses@[i])@),
    ensures
        lit_true(a, lit_of(m, e, t)) == b,
{
    let j = lemma_stated(start, binds, m, e, Axiom::Test { term: t, verdict: b }, a);
}

/// Where the field that a selector takes has been stated, an assignment that satisfies the clauses makes
/// the equality of the two true.
pub proof fn law_stated_fields_are_equal(
    start: &TermManager,
    binds: Map<usize, TermId>,
    m: &TermManager,
    e: &Encoder,
    t: TermId,
    a: Assignment,
    x: TermId,
)
    requires
        field_stated(start, binds, m, e, t),
        takes(start, binds, t) == Some(x),
        forall|i: int| 0 <= i < e.clauses@.len() ==> clause_true(a, (#[trigger] e.clauses@[i])@),
    ensures
        exists|q: TermId| m.has(q) && m.op(q) == Op::Eq && m.args(q) == seq![t, x] && lit_true(a, #[trigger] lit_of(m, e, q)),
{
    let q = choose|q: TermId| #[trigger] stated(start, binds, m, e, Axiom::Field { term: t, value: x, eq: q });
    let j = lemma_stated(start, binds, m, e, Axiom::Field { term: t, value: x, eq: q }, a);
    assert(lit_true(a, lit_of(m, e, q)));
}

} // verus!
