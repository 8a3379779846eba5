//! Clauses that the theories add to an encoding: how two numbers can compare, which constructor
//! built a value, and what selectors and tests of constructor applications come to.
use crate::cnf::flip;
use crate::cnf::Lit;
use crate::dt_facts::constructor_of;
use crate::dt_facts::ctor_of;
use crate::dt_facts::is_ctor;
use crate::dt_facts::layouts_of;
use crate::dt_resolve::field_of;
use crate::dt_resolve::find_field;
use crate::dt_resolve::memo_ok;
use crate::dt_resolve::normal_form;
use crate::dt_resolve::resolve_dt_normal_form;
use crate::dt_resolve::resolved;
use crate::encode::clause2;
use crate::encode::clause3;
use crate::encode::copy_clause;
use crate::encode::encoded;
use crate::encode::lemma_clause_extends;
use crate::encode::lemma_encoded_extends;
use crate::encode::lemma_linked_extends;
use crate::encode::lemma_linked_tables;
use crate::encode::lemma_step_self;
use crate::encode::lemma_valid_extends;
use crate::emission::lemma_quantifier;
use crate::emission::quantified;
use crate::encode::linked;
use crate::encode::lit_of;
use crate::encode::step;
use crate::encode::valid;
use crate::encoder::constraint_of;
use crate::encoder::lemma_advances;
use crate::encoder::Constraint;
use crate::encoder::Encoder;
use crate::linear::is_numeric;
use crate::maps::map_get;
use crate::maps::map_keys;
use crate::maps::map_new;
use crate::maps::set_contains;
use crate::maps::set_insert;
use crate::maps::set_new;
use crate::term::is_node;
use crate::term::CtorLayout;
use crate::term::Op;
use crate::term::Rel;
use crate::term::Sort;
use crate::term::SortId;
use crate::term::copy_ids;
use crate::term::TermId;
use crate::term::TermManager;
use crate::term::BOOL_SORT;
use crate::term::INT_SORT;
use crate::term::REAL_SORT;
use crate::track::lemma_extended_self;
use crate::walk::is_binder;
use rustc_hash::FxHashMap;
use rustc_hash::FxHashSet;
use vstd::prelude::*;

verus! {

/// A clause that holds by the laws of a theory.
pub enum Axiom {
    /// Two numbers are equal, or one is less than the other.
    Split { eq: TermId, lt: TermId, gt: TermId },
    /// A value was built by one of its constructors: one of the equalities holds.
    Cover { term: TermId, shapes: Seq<TermId> },
    /// A value was built by one constructor only: two of the equalities do not both hold.
    Exclusion { term: TermId, shapes: Seq<TermId>, i: int, j: int },
    /// A selector takes a field of a constructor application.
    Field { term: TermId, value: TermId, eq: TermId },
    /// A test of a constructor application is decided.
    Test { term: TermId, verdict: bool },
}

/// The term applies a selector to its only argument.
pub open spec fn is_access(m: &TermManager, a: TermId, t: TermId, field: (usize, SortId)) -> bool {
    is_node(m, a, Op::Apply(field.0), seq![t], field.1)
}

/// `c` applies the constructor of the layout to its selectors, each applied to `t`.
pub open spec fn is_shape(m: &TermManager, c: TermId, t: TermId, l: CtorLayout) -> bool {
    &&& is_node(m, c, Op::DtConstructor(l.name), m.args(c), m.sort_of(t))
    &&& m.args(c).len() == l.fields@.len()
    &&& forall|k: int| 0 <= k < l.fields@.len() ==> is_access(m, #[trigger] m.args(c)[k], t, l.fields@[k])
}

/// `q` says that `t` was built by the constructor of the layout.
pub open spec fn says_shape(m: &TermManager, q: TermId, t: TermId, l: CtorLayout) -> bool {
    &&& m.has(q)
    &&& m.args(q).len() == 2
    &&& is_node(m, q, Op::Eq, seq![t, m.arg(q, 1)], BOOL_SORT)
    &&& is_shape(m, m.arg(q, 1), t, l)
}

/// The equalities say, of each constructor of the sort of `t`, that it built `t`.
pub open spec fn all_shapes(m: &TermManager, t: TermId, shapes: Seq<TermId>) -> bool {
    &&& m.has(t)
    &&& layouts_of(m, m.sort_of(t)) is Some
    &&& shapes.len() == layouts_of(m, m.sort_of(t))->0.len()
    &&& forall|i: int|
        0 <= i < shapes.len() ==> says_shape(m, #[trigger] shapes[i], t, layouts_of(m, m.sort_of(t))->0[i])
}

/// The field that a selector application comes to, under bindings of variables.
pub open spec fn takes(m: &TermManager, binds: Map<usize, TermId>, t: TermId) -> Option<TermId> {
    if m.has(t) && m.op(t) is DtSelector {
        match normal_form(m, binds, m.arg(t, 0)) {
            Some(c) => field_of(m, c, m.op(t)->DtSelector_0),
            None => None,
        }
    } else {
        None
    }
}

/// The truth value that a test comes to, under bindings of variables.
pub open spec fn tests(m: &TermManager, binds: Map<usize, TermId>, t: TermId) -> Option<bool> {
    if m.has(t) && m.op(t) is DtTester {
        match normal_form(m, binds, m.arg(t, 0)) {
            Some(c) => Some(ctor_of(m, c) == m.op(t)->DtTester_0),
            None => None,
        }
    } else {
        None
    }
}

/// The axiom speaks of the terms of the store; what selectors and tests come to is read off an
/// earlier store.
pub open spec fn fits(start: &TermManager, binds: Map<usize, TermId>, m: &TermManager, x: Axiom) -> bool {
    match x {
        Axiom::Split { eq, lt, gt } => {
            &&& m.has(eq)
            &&& m.op(eq) == Op::Eq
            &&& is_numeric(m, m.arg(eq, 0))
            &&& is_node(m, lt, Op::Compare(Rel::Lt), m.args(eq), BOOL_SORT)
            &&& is_node(m, gt, Op::Compare(Rel::Gt), m.args(eq), BOOL_SORT)
        },
        Axiom::Cover { term, shapes } => all_shapes(m, term, shapes) && shapes.len() > 0,
        Axiom::Exclusion { term, shapes, i, j } => all_shapes(m, term, shapes) && 0 <= i < j < shapes.len(),
        Axiom::Field { term, value, eq } => takes(start, binds, term) == Some(value) && is_node(
            m,
            eq,
            Op::Eq,
            seq![term, value],
            BOOL_SORT,
        ),
        Axiom::Test { term, verdict } => tests(start, binds, term) == Some(verdict) && m.has(term),
    }
}

/// The formulas of the axiom are encoded.
pub open spec fn in_place(m: &TermManager, e: &Encoder, x: Axiom) -> bool {
    match x {
        Axiom::Split { eq, lt, gt } => encoded(m, e, eq) && encoded(m, e, lt) && encoded(m, e, gt),
        Axiom::Cover { term, shapes } => forall|i: int| 0 <= i < shapes.len() ==> encoded(m, e, #[trigger] shapes[i]),
        Axiom::Exclusion { term, shapes, i, j } => forall|k: int| 0 <= k < shapes.len() ==> encoded(m, e, #[trigger] shapes[k]),
        Axiom::Field { term, value, eq } => encoded(m, e, eq),
        Axiom::Test { term, verdict } => encoded(m, e, term),
    }
}

/// The clause of the axiom.
pub open spec fn clause_of(m: &TermManager, e: &Encoder, x: Axiom) -> Seq<Lit> {
    match x {
        Axiom::Split { eq, lt, gt } => seq![lit_of(m, e, eq), lit_of(m, e, lt), lit_of(m, e, gt)],
        Axiom::Cover { term, shapes } => Seq::new(shapes.len(), |i: int| lit_of(m, e, shapes[i])),
        Axiom::Exclusion { term, shapes, i, j } => seq![flip(lit_of(m, e, shapes[i])), flip(lit_of(m, e, shapes[j]))],
        Axiom::Field { term, value, eq } => seq![lit_of(m, e, eq)],
        Axiom::Test { term, verdict } => seq![
            if verdict {
                lit_of(m, e, term)
            } else {
                flip(lit_of(m, e, term))
            },
        ],
    }
}

/// The clause is that of an axiom.
pub open spec fn from_axiom(binds: Map<usize, TermId>, m: &TermManager, e: &Encoder, c: Seq<Lit>) -> bool {
    exists|start: TermManager, x: Axiom| #[trigger]
        fits(&start, binds, m, x) && start.wf() && start.extended_by(m) && in_place(m, e, x) && c == clause_of(m, e, x)
}

/// The second pair of store and tables is the first with definitions and axioms added.
pub open spec fn enriched(
    binds: Map<usize, TermId>,
    m: &TermManager,
    e: &Encoder,
    later: &TermManager,
    f: &Encoder,
) -> bool {
    &&& linked(later, f)
    &&& m.extended_by(later)
    &&& e.advances(f)
    &&& forall|i: int|
        e.clauses@.len() <= i < f.clauses@.len() ==> valid(later, f, (#[trigger] f.clauses@[i])@) || from_axiom(
            binds,
            later,
            f,
            f.clauses@[i]@,
        )
}

/// A node stays when the store grows.
pub proof fn lemma_node_stays(m: &TermManager, later: &TermManager, t: TermId, op: Op, args: Seq<TermId>, sort: SortId)
    requires
        m.extended_by(later),
        is_node(m, t, op, args, sort),
    ensures
        is_node(later, t, op, args, sort),
        later.args(t) == m.args(t),
{
    assert(later.terms@[t as int] == m.terms@[t as int]);
}

/// Shapes stay when the store grows.
proof fn lemma_shapes_stay(m: &TermManager, later: &TermManager, t: TermId, shapes: Seq<TermId>)
    requires
        m.extended_by(later),
        m.wf(),
        all_shapes(m, t, shapes),
    ensures
        all_shapes(later, t, shapes),
{
    assert(later.terms@[t as int] == m.terms@[t as int]);
    assert(layouts_of(later, later.sort_of(t)) == layouts_of(m, m.sort_of(t)));
    lemma_some_shapes_stay(m, later, t, layouts_of(m, m.sort_of(t))->0, shapes);
}

/// The formulas of an axiom are terms of the store.
proof fn lemma_axiom_terms(start: &TermManager, binds: Map<usize, TermId>, m: &TermManager, x: Axiom)
    requires
        fits(start, binds, m, x),
    ensures
        match x {
            Axiom::Split { eq, lt, gt } => m.has(eq) && m.has(lt) && m.has(gt),
            Axiom::Cover { term, shapes } => forall|i: int| 0 <= i < shapes.len() ==> m.has(#[trigger] shapes[i]),
            Axiom::Exclusion { term, shapes, i, j } => forall|k: int| 0 <= k < shapes.len() ==> m.has(#[trigger] shapes[k]),
            Axiom::Field { term, value, eq } => m.has(eq),
            Axiom::Test { term, verdict } => m.has(term),
        },
{
    match x {
        Axiom::Cover { term, shapes } => {
            assert forall|i: int| 0 <= i < shapes.len() implies m.has(#[trigger] shapes[i]) by {
                assert(says_shape(m, shapes[i], term, layouts_of(m, m.sort_of(term))->0[i]));
            }
        },
        Axiom::Exclusion { term, shapes, i, j } => {
            assert forall|k: int| 0 <= k < shapes.len() implies m.has(#[trigger] shapes[k]) by {
                assert(says_shape(m, shapes[k], term, layouts_of(m, m.sort_of(term))->0[k]));
            }
        },
        _ => {},
    }
}

/// An axiom and its clause stay.
pub proof fn lemma_axiom_stays(
    start: &TermManager,
    binds: Map<usize, TermId>,
    m: &TermManager,
    later: &TermManager,
    e: &Encoder,
    f: &Encoder,
    x: Axiom,
)
    requires
        m.wf(),
        later.wf(),
        m.extended_by(later),
        e.grows(f),
        fits(start, binds, m, x),
        in_place(m, e, x),
    ensures
        fits(start, binds, later, x),
        in_place(later, f, x),
        clause_of(later, f, x) == clause_of(m, e, x),
{
    lemma_axiom_terms(start, binds, m, x);
    match x {
        Axiom::Split { eq, lt, gt } => {
            lemma_encoded_extends(m, later, e, f, eq);
            lemma_encoded_extends(m, later, e, f, lt);
            lemma_encoded_extends(m, later, e, f, gt);
            assert(later.terms@[eq as int] == m.terms@[eq as int]);
            assert(m.terms@[eq as int].fits(eq as int));
            let a = m.arg(eq, 0);
            assert(later.terms@[a as int] == m.terms@[a as int]);
            lemma_node_stays(m, later, lt, Op::Compare(Rel::Lt), m.args(eq), BOOL_SORT);
            lemma_node_stays(m, later, gt, Op::Compare(Rel::Gt), m.args(eq), BOOL_SORT);
        },
        Axiom::Cover { term, shapes } => {
            lemma_shapes_stay(m, later, term, shapes);
            assert forall|i: int| 0 <= i < shapes.len() implies encoded(later, f, #[trigger] shapes[i]) && lit_of(later, f, shapes[i])
                == lit_of(m, e, shapes[i]) by {
                lemma_encoded_extends(m, later, e, f, shapes[i]);
            }
            assert(clause_of(later, f, x) =~= clause_of(m, e, x));
        },
        Axiom::Exclusion { term, shapes, i, j } => {
            lemma_shapes_stay(m, later, term, shapes);
            assert forall|k: int| 0 <= k < shapes.len() implies encoded(later, f, #[trigger] shapes[k]) && lit_of(later, f, shapes[k])
                == lit_of(m, e, shapes[k]) by {
                lemma_encoded_extends(m, later, e, f, shapes[k]);
            }
        },
        Axiom::Field { term, value, eq } => {
            lemma_encoded_extends(m, later, e, f, eq);
            lemma_node_stays(m, later, eq, Op::Eq, seq![term, value], BOOL_SORT);
        },
        Axiom::Test { term, verdict } => {
            lemma_encoded_extends(m, later, e, f, term);
        },
    }
}

/// Definitions alone are an enrichment.
pub proof fn lemma_step_enriches(binds: Map<usize, TermId>, m: &TermManager, e: &Encoder, later: &TermManager, f: &Encoder)
    requires
        step(m, e, later, f),
    ensures
        enriched(binds, m, e, later, f),
{
}

/// A store that grows twice grows.
pub proof fn lemma_extended_twice(a: &TermManager, b: &TermManager, c: &TermManager)
    requires
        a.extended_by(b),
        b.extended_by(c),
    ensures
        a.extended_by(c),
{
    assert forall|t: int| 0 <= t < a.terms@.len() implies #[trigger] c.terms@[t] == a.terms@[t] by {
        assert(b.terms@[t] == a.terms@[t]);
    }
    assert forall|i: int| 0 <= i < a.names@.len() implies #[trigger] c.names@[i] == a.names@[i] by {
        assert(b.names@[i] == a.names@[i]);
    }
}

/// Enrichments on top of each other.
pub proof fn lemma_enriched(
    binds: Map<usize, TermId>,
    m0: &TermManager,
    e0: &Encoder,
    m1: &TermManager,
    e1: &Encoder,
    m2: &TermManager,
    e2: &Encoder,
)
    requires
        m0.wf(),
        enriched(binds, m0, e0, m1, e1),
        enriched(binds, m1, e1, m2, e2),
    ensures
        enriched(binds, m0, e0, m2, e2),
{
    lemma_advances(e0, e1, e2);
    lemma_extended_twice(m0, m1, m2);
    assert forall|i: int| e0.clauses@.len() <= i < e2.clauses@.len() implies valid(m2, e2, (#[trigger] e2.clauses@[i])@)
        || from_axiom(binds, m2, e2, e2.clauses@[i]@) by {
        if i < e1.clauses@.len() {
            assert(e2.clauses@[i] == e1.clauses@[i]);
            let c = e1.clauses@[i]@;
            if valid(m1, e1, c) {
                lemma_valid_extends(m1, m2, e1, e2, c);
            } else {
                let (start, x) = choose|start: TermManager, x: Axiom| #[trigger]
                    fits(&start, binds, m1, x) && start.wf() && start.extended_by(m1) && in_place(m1, e1, x) && c == clause_of(m1, e1, x);
                lemma_axiom_stays(&start, binds, m1, m2, e1, e2, x);
                lemma_extended_twice(&start, m1, m2);
            }
        }
    }
}

/// The clause of the axiom has been emitted.
pub open spec fn stated(start: &TermManager, binds: Map<usize, TermId>, m: &TermManager, e: &Encoder, x: Axiom) -> bool {
    fits(start, binds, m, x) && in_place(m, e, x) && e.has_clause(clause_of(m, e, x))
}

/// What has been stated stays so.
pub proof fn lemma_stated_stays(
    start: &TermManager,
    binds: Map<usize, TermId>,
    m: &TermManager,
    later: &TermManager,
    e: &Encoder,
    f: &Encoder,
    x: Axiom,
)
    requires
        m.wf(),
        later.wf(),
        m.extended_by(later),
        e.grows(f),
        stated(start, binds, m, e, x),
    ensures
        stated(start, binds, later, f, x),
{
    lemma_axiom_stays(start, binds, m, later, e, f, x);
    lemma_clause_extends(e, f, clause_of(m, e, x));
}

impl Encoder {
    /// Emits the clause of an axiom.
    pub(crate) fn state(
        &mut self,
        c: Vec<Lit>,
        m: &TermManager,
        Ghost(start): Ghost<TermManager>,
        Ghost(binds): Ghost<Map<usize, TermId>>,
        Ghost(x): Ghost<Axiom>,
    )
        requires
            linked(m, old(self)),
            start.wf(),
            start.extended_by(m),
            fits(&start, binds, m, x),
            in_place(m, old(self), x),
            c@ == clause_of(m, old(self), x),
        ensures
            enriched(binds, m, old(self), m, final(self)),
            stated(&start, binds, m, final(self), x),
            final(self).tables() == old(self).tables(),
            final(self).clauses@ == old(self).clauses@.push(c),
            final(self).has_quantifiers == old(self).has_quantifiers,
    {
        self.add_clause(c);
        proof {
            lemma_extended_self(m);
            lemma_linked_tables(m, old(self), self);
            lemma_axiom_stays(&start, binds, m, m, old(self), self, x);
            assert forall|i: int| old(self).clauses@.len() <= i < self.clauses@.len() implies valid(m, self, (#[trigger] self.clauses@[i])@)
                || from_axiom(binds, m, self, self.clauses@[i]@) by {
                assert(self.clauses@[i] == c);
            }
        }
    }
}

/// The terms that the search for disequalities goes on to from a term.
pub open spec fn followed(m: &TermManager, t: TermId) -> Seq<TermId> {
    let args = m.args(t);
    match m.op(t) {
        Op::Not | Op::And | Op::Or => args,
        Op::Implies => seq![args[1]],
        Op::Ite => seq![args[1], args[2]],
        _ => Seq::empty(),
    }
}

/// The search for disequalities comes from `t` to `x`.
pub open spec fn leads(m: &TermManager, t: TermId, x: TermId) -> bool
    decreases t,
{
    t == x || (m.has(t) && exists|i: int| 0 <= i < followed(m, t).len() && #[trigger] followed(m, t)[i] < t && leads(m, followed(m, t)[i], x))
}

/// The term denies an equality of numbers.
pub open spec fn is_diseq(m: &TermManager, x: TermId) -> bool {
    m.has(x) && m.op(x) == Op::Not && m.op(m.arg(x, 0)) == Op::Eq && is_numeric(m, m.arg(m.arg(x, 0), 0))
}

/// The ways in which the two sides of an equality compare have been stated.
pub open spec fn split_stated(start: &TermManager, binds: Map<usize, TermId>, m: &TermManager, e: &Encoder, eq: TermId) -> bool {
    exists|lt: TermId, gt: TermId| #[trigger] stated(start, binds, m, e, Axiom::Split { eq, lt, gt })
}

/// Every member of the set has been searched.
spec fn searched(start: &TermManager, binds: Map<usize, TermId>, m: &TermManager, e: &Encoder, seen: Set<usize>) -> bool {
    &&& forall|x: usize, y: usize| seen.contains(x) && #[trigger] leads(start, x, y) ==> seen.contains(y)
    &&& forall|x: usize| #[trigger] seen.contains(x) && is_diseq(start, x) ==> split_stated(start, binds, m, e, start.arg(x, 0))
}

/// What has been searched stays so.
proof fn lemma_searched_stays(
    start: &TermManager,
    binds: Map<usize, TermId>,
    m: &TermManager,
    later: &TermManager,
    e: &Encoder,
    f: &Encoder,
    seen: Set<usize>,
)
    requires
        m.wf(),
        later.wf(),
        m.extended_by(later),
        e.grows(f),
        searched(start, binds, m, e, seen),
    ensures
        searched(start, binds, later, f, seen),
{
    assert forall|x: usize| #[trigger] seen.contains(x) && is_diseq(start, x) implies split_stated(
        start,
        binds,
        later,
        f,
        start.arg(x, 0),
    ) by {
        let eq = start.arg(x, 0);
        let (lt, gt) = choose|lt: TermId, gt: TermId| #[trigger] stated(start, binds, m, e, Axiom::Split { eq, lt, gt });
        lemma_stated_stays(start, binds, m, later, e, f, Axiom::Split { eq, lt, gt });
    }
}

/// A comparison of two terms.
fn mk_compare(m: &mut TermManager, rel: Rel, a: TermId, b: TermId) -> (t: TermId)
    requires
        old(m).wf(),
        old(m).has(a),
        old(m).has(b),
    ensures
        final(m).wf(),
        old(m).extended_by(final(m)),
        is_node(final(m), t, Op::Compare(rel), seq![a, b], BOOL_SORT),
{
    let mut args: Vec<TermId> = Vec::new();
    args.push(a);
    args.push(b);
    assert(args@ =~= seq![a, b]);
    m.mk_app(Op::Compare(rel), args, BOOL_SORT)
}

impl Encoder {
    /// States how the two sides of an equality of numbers compare.
    fn split(&mut self, q: TermId, m: &mut TermManager, Ghost(start): Ghost<TermManager>, Ghost(binds): Ghost<Map<usize, TermId>>)
        requires
            linked(old(m), old(self)),
            start.wf(),
            start.extended_by(old(m)),
            old(m).has(q),
            old(m).op(q) == Op::Eq,
            is_numeric(old(m), old(m).arg(q, 0)),
        ensures
            enriched(binds, old(m), old(self), final(m), final(self)),
            split_stated(&start, binds, final(m), final(self), q),
            final(self).has_quantifiers == old(self).has_quantifiers,
    {
        let ghost m0 = *m;
        let ghost e0 = *self;
        assert(m.terms@[q as int].fits(q as int));
        let a: usize = m.terms[q].args[0];
        let b: usize = m.terms[q].args[1];
        assert(m0.args(q) =~= seq![a, b]);
        let eq_lit = self.encode(q, m);
        let ghost m1 = *m;
        let ghost e1 = *self;
        proof {
            lemma_step_enriches(binds, &m0, &e0, &m1, &e1);
            lemma_quantifier(&e0, &e1, &m0, q);
            assert(m1.terms@[q as int] == m0.terms@[q as int]);
            assert(m1.terms@[a as int] == m0.terms@[a as int]);
        }
        let lt: usize = mk_compare(m, Rel::Lt, a, b);
        let ghost m2 = *m;
        let gt: usize = mk_compare(m, Rel::Gt, a, b);
        let ghost m3 = *m;
        proof {
            lemma_node_stays(&m2, &m3, lt, Op::Compare(Rel::Lt), seq![a, b], BOOL_SORT);
            lemma_extended_twice(&m1, &m2, &m3);
            lemma_linked_extends(&m1, &m3, &e1);
            lemma_step_enriches(binds, &m1, &e1, &m3, &e1);
            lemma_enriched(binds, &m0, &e0, &m1, &e1, &m3, &e1);
            lemma_encoded_extends(&m1, &m3, &e1, &e1, q);
        }
        let lt_lit = self.encode(lt, m);
        let ghost m4 = *m;
        let ghost e4 = *self;
        proof {
            lemma_step_enriches(binds, &m3, &e1, &m4, &e4);
            lemma_quantifier(&e1, &e4, &m3, lt);
            lemma_enriched(binds, &m0, &e0, &m3, &e1, &m4, &e4);
            lemma_encoded_extends(&m3, &m4, &e1, &e4, q);
            assert(m4.terms@[gt as int] == m3.terms@[gt as int]);
        }
        let gt_lit = self.encode(gt, m);
        let ghost x = Axiom::Split { eq: q, lt, gt };
        proof {
            lemma_step_enriches(binds, &m4, &e4, m, self);
            lemma_quantifier(&e4, self, &m4, gt);
            lemma_enriched(binds, &m0, &e0, &m4, &e4, m, self);
            lemma_encoded_extends(&m4, m, &e4, self, q);
            lemma_encoded_extends(&m4, m, &e4, self, lt);
            lemma_extended_twice(&start, &m0, m);
            assert(m.terms@[q as int] == m4.terms@[q as int]);
            assert(m.terms@[a as int] == m4.terms@[a as int]);
            assert(m4.terms@[lt as int] == m3.terms@[lt as int]);
            assert(m.terms@[lt as int] == m4.terms@[lt as int]);
            assert(m.terms@[gt as int] == m4.terms@[gt as int]);
            assert(fits(&start, binds, m, x));
        }
        let ghost e5 = *self;
        let c = clause3(eq_lit, lt_lit, gt_lit);
        assert(c@ =~= clause_of(m, self, x));
        self.state(c, m, Ghost(start), Ghost(binds), Ghost(x));
        proof {
            lemma_enriched(binds, &m0, &e0, m, &e5, m, self);
            assert(stated(&start, binds, m, self, Axiom::Split { eq: q, lt, gt }));
        }
    }

    /// States how the sides of the denied equalities under `t` compare.
    fn add_arith_diseq_split_recursive(
        &mut self,
        t: TermId,
        m: &mut TermManager,
        seen: &mut FxHashSet<usize>,
        Ghost(start): Ghost<TermManager>,
        Ghost(binds): Ghost<Map<usize, TermId>>,
    )
        requires
            linked(old(m), old(self)),
            start.wf(),
            start.extended_by(old(m)),
            start.has(t),
            searched(&start, binds, old(m), old(self), old(seen)@),
        ensures
            enriched(binds, old(m), old(self), final(m), final(self)),
            searched(&start, binds, final(m), final(self), final(seen)@),
            forall|x: usize| #[trigger] final(seen)@.contains(x) <==> old(seen)@.contains(x) || leads(&start, t, x),
            final(self).has_quantifiers == old(self).has_quantifiers,
        decreases t, 1nat,
    {
        let ghost m0 = *m;
        let ghost e0 = *self;
        proof {
            lemma_step_self(m, self);
            lemma_step_enriches(binds, m, self, m, self);
        }
        if set_contains(seen, t) {
            return ;
        }
        assert(start.terms@[t as int].fits(t as int));
        assert(m.terms@[t as int] == start.terms@[t as int]);
        let mut next: Vec<TermId> = Vec::new();
        match m.terms[t].op {
            Op::Not => {
                let q: usize = m.terms[t].args[0];
                assert(m.terms@[q as int] == start.terms@[q as int]);
                assert(start.terms@[q as int].fits(q as int));
                next.push(q);
                let denied = match m.terms[q].op {
                    Op::Eq => {
                        let a: usize = m.terms[q].args[0];
                        assert(m.terms@[a as int] == start.terms@[a as int]);
                        m.terms[a].sort == INT_SORT || m.terms[a].sort == REAL_SORT
                    },
                    _ => false,
                };
                assert(denied == is_diseq(&start, t));
                if denied {
                    self.split(q, m, Ghost(start), Ghost(binds));
                    proof {
                        lemma_searched_stays(&start, binds, &m0, m, &e0, self, seen@);
                    }
                }
                assert(next@ =~= followed(&start, t));
            },
            Op::And => {
                next = copy_ids(&m.terms[t].args);
            },
            Op::Or => {
                next = copy_ids(&m.terms[t].args);
            },
            Op::Implies => {
                next.push(m.terms[t].args[1]);
                assert(next@ =~= followed(&start, t));
            },
            Op::Ite => {
                next.push(m.terms[t].args[1]);
                next.push(m.terms[t].args[2]);
                assert(next@ =~= followed(&start, t));
            },
            _ => {},
        }
        assert(next@ =~= followed(&start, t));
        assert(is_diseq(&start, t) ==> split_stated(&start, binds, m, self, start.arg(t, 0)));
        proof {
            lemma_extended_twice(&start, &m0, m);
        }
        let ghost first = seen@;
        let mut i: usize = 0;
        while i < next.len()
            invariant
                i <= next.len(),
                m0.wf(),
                linked(m, self),
                start.wf(),
                start.has(t),
                start.extended_by(m),
                next@ == followed(&start, t),
                enriched(binds, &m0, &e0, m, self),
                searched(&start, binds, m, self, seen@),
                is_diseq(&start, t) ==> split_stated(&start, binds, m, self, start.arg(t, 0)),
                forall|x: usize| #[trigger] seen@.contains(x) <==> first.contains(x) || found(&start, t, i as int, x),
                self.has_quantifiers == e0.has_quantifiers,
            decreases t, 0nat, next.len() - i,
        {
            let c: usize = next[i];
            let ghost m1 = *m;
            let ghost e1 = *self;
            let ghost before = seen@;
            assert(start.terms@[t as int].fits(t as int));
            assert(c == followed(&start, t)[i as int]);
            self.add_arith_diseq_split_recursive(c, m, seen, Ghost(start), Ghost(binds));
            proof {
                lemma_enriched(binds, &m0, &e0, &m1, &e1, m, self);
                lemma_extended_twice(&start, &m1, m);
                if is_diseq(&start, t) {
                    let eq = start.arg(t, 0);
                    let (lt, gt) = choose|lt: TermId, gt: TermId| #[trigger]
                        stated(&start, binds, &m1, &e1, Axiom::Split { eq, lt, gt });
                    lemma_stated_stays(&start, binds, &m1, m, &e1, self, Axiom::Split { eq, lt, gt });
                }
                assert forall|x: usize| #[trigger] seen@.contains(x) <==> first.contains(x) || found(&start, t, i + 1, x) by {
                    if found(&start, t, i + 1, x) && !found(&start, t, i as int, x) {
                        let k = choose|k: int|
                            0 <= k < i + 1 && #[trigger] followed(&start, t)[k] < t && leads(&start, followed(&start, t)[k], x);
                        assert(k == i);
                    }
                    if leads(&start, c, x) {
                        assert(followed(&start, t)[i as int] < t);
                        assert(found(&start, t, i + 1, x));
                    }
                    if found(&start, t, i as int, x) {
                        let k = choose|k: int|
                            0 <= k < i && #[trigger] followed(&start, t)[k] < t && leads(&start, followed(&start, t)[k], x);
                        assert(found(&start, t, i + 1, x));
                    }
                    assert(seen@.contains(x) <==> before.contains(x) || leads(&start, c, x));
                }
            }
            i = i + 1;
        }
        let ghost before = seen@;
        let _ = set_insert(seen, t);
        proof {
            assert forall|x: usize, y: usize| seen@.contains(x) && #[trigger] leads(&start, x, y) implies seen@.contains(y) by {
                if before.contains(x) {
                    assert(before.contains(y));
                } else if y != t {
                    assert(found(&start, t, followed(&start, t).len() as int, y));
                }
            }
            assert forall|x: usize| #[trigger] seen@.contains(x) <==> first.contains(x) || leads(&start, t, x) by {
                if leads(&start, t, x) && x != t {
                    assert(found(&start, t, followed(&start, t).len() as int, x));
                }
                if found(&start, t, followed(&start, t).len() as int, x) {
                    assert(leads(&start, t, x));
                }
            }
        }
    }

    /// States of every equality of numbers that is denied in a formula how its sides compare: they
    /// are equal, or one is less than the other. The disequalities are looked for under negations,
    /// conjunctions, disjunctions, consequents and branches.
    pub fn add_arith_diseq_split(&mut self, t: TermId, m: &mut TermManager)
        requires
            linked(old(m), old(self)),
            old(m).has(t),
        ensures
            (enriched(Map::<usize, TermId>::empty(), old(m), old(self), final(m), final(self))),
            forall|x: usize| #[trigger]
                leads(old(m), t, x) && is_diseq(old(m), x) ==> (split_stated(
                    old(m),
                    Map::<usize, TermId>::empty(),
                    final(m),
                    final(self),
                    old(m).arg(x, 0),
                )),
            final(self).has_quantifiers == old(self).has_quantifiers,
    {
        let mut seen = set_new();
        let ghost start = *m;
        let ghost none: Map<usize, TermId> = Map::empty();
        proof {
            lemma_extended_self(m);
        }
        self.add_arith_diseq_split_recursive(t, m, &mut seen, Ghost(start), Ghost(none));
        proof {
            assert forall|x: usize| #[trigger] leads(&start, t, x) && is_diseq(&start, x) implies split_stated(
                &start,
                none,
                m,
                self,
                start.arg(x, 0),
            ) by {
                assert(seen@.contains(x));
            }
        }
    }
}

/// The variable stands for an equality of numbers, and the assignment makes it false.
pub open spec fn is_denied(m: &TermManager, e: &Encoder, truths: Seq<Option<bool>>, v: usize) -> bool {
    &&& e.constraints@.contains_key(v)
    &&& e.constraints@[v] matches Constraint::Eq(a, b) && is_numeric(m, a)
    &&& v < truths.len()
    &&& truths[v as int] == Some(false)
}

/// The equalities of numbers that the assignment makes false.
fn denied_equalities(m: &TermManager, e: &Encoder, truths: &Vec<Option<bool>>) -> (r: Vec<TermId>)
    requires
        linked(m, e),
    ensures
        forall|v: usize| #[trigger] is_denied(m, e, truths@, v) ==> r@.contains(e.var_to_term@[v as int]),
        forall|i: int| 0 <= i < r@.len() ==> m.has(#[trigger] r@[i]) && m.op(r@[i]) == Op::Eq && is_numeric(m, m.arg(r@[i], 0)),
{
    let keys = map_keys(&e.constraints);
    let mut r: Vec<TermId> = Vec::new();
    let mut k: usize = 0;
    while k < keys.len()
        invariant
            k <= keys.len(),
            linked(m, e),
            forall|v: usize| keys@.contains(v) <==> e.constraints@.contains_key(v),
            forall|j: int| 0 <= j < k && is_denied(m, e, truths@, #[trigger] keys@[j]) ==> r@.contains(e.var_to_term@[keys@[j] as int]),
            forall|i: int| 0 <= i < r@.len() ==> m.has(#[trigger] r@[i]) && m.op(r@[i]) == Op::Eq && is_numeric(m, m.arg(r@[i], 0)),
        decreases keys.len() - k,
    {
        let v: usize = keys[k];
        assert(keys@.contains(v));
        assert(constraint_of(m, e.var_to_term@[v as int]) == Some(e.constraints@[v]));
        if let Some(Constraint::Eq(a, _)) = map_get(&e.constraints, v) {
            assert(m.terms@[e.var_to_term@[v as int] as int].fits(e.var_to_term@[v as int] as int));
            let q: usize = e.var_to_term[v];
            let numeric = m.terms[*a].sort == INT_SORT || m.terms[*a].sort == REAL_SORT;
            if numeric && v < truths.len() && truths[v] == Some(false) {
                let ghost before = r@;
                r.push(q);
                proof {
                    assert(r@[before.len() as int] == q);
                    assert forall|t: usize| before.contains(t) implies #[trigger] r@.contains(t) by {
                        let i = choose|i: int| 0 <= i < before.len() && before[i] == t;
                        assert(r@[i] == t);
                    }
                }
            }
        }
        k = k + 1;
    }
    proof {
        assert forall|v: usize| #[trigger] is_denied(m, e, truths@, v) implies r@.contains(e.var_to_term@[v as int]) by {
            assert(keys@.contains(v));
            let j = choose|j: int| 0 <= j < keys@.len() && keys@[j] == v;
            assert(is_denied(m, e, truths@, keys@[j]));
        }
    }
    r
}

impl Encoder {
    /// States of every equality of numbers that an assignment makes false how its sides compare:
    /// they are equal, or one is less than the other.
    pub fn add_arith_diseq_splits_for_sat_model(&mut self, m: &mut TermManager, truths: &Vec<Option<bool>>)
        requires
            linked(old(m), old(self)),
        ensures
            (enriched(Map::<usize, TermId>::empty(), old(m), old(self), final(m), final(self))),
            forall|v: usize| #[trigger]
                is_denied(old(m), old(self), truths@, v) ==> (split_stated(
                    old(m),
                    Map::<usize, TermId>::empty(),
                    final(m),
                    final(self),
                    old(self).var_to_term@[v as int],
                )),
            final(self).has_quantifiers == old(self).has_quantifiers,
    {
        let ghost m0 = *m;
        let ghost e0 = *self;
        let ghost none: Map<usize, TermId> = Map::empty();
        proof {
            lemma_extended_self(m);
            lemma_step_self(m, self);
            lemma_step_enriches(none, m, self, m, self);
        }
        let qs = denied_equalities(m, self, truths);
        let mut k: usize = 0;
        while k < qs.len()
            invariant
                k <= qs.len(),
                m0.wf(),
                m0.extended_by(m),
                linked(m, self),
                enriched(none, &m0, &e0, m, self),
                forall|i: int|
                    0 <= i < qs@.len() ==> m0.has(#[trigger] qs@[i]) && m0.op(qs@[i]) == Op::Eq && is_numeric(&m0, m0.arg(qs@[i], 0)),
                forall|i: int| 0 <= i < k ==> split_stated(&m0, none, m, self, #[trigger] qs@[i]),
                self.has_quantifiers == e0.has_quantifiers,
            decreases qs.len() - k,
        {
            let ghost m1 = *m;
            let ghost e1 = *self;
            let q: usize = qs[k];
            proof {
                let a = m0.arg(q, 0);
                assert(m0.has(qs@[k as int]));
                assert(m0.terms@[q as int].fits(q as int));
                assert(m1.terms@[q as int] == m0.terms@[q as int]);
                assert(m1.terms@[a as int] == m0.terms@[a as int]);
            }
            self.split(q, m, Ghost(m0), Ghost(none));
            proof {
                lemma_enriched(none, &m0, &e0, &m1, &e1, m, self);
                lemma_extended_twice(&m0, &m1, m);
                assert forall|i: int| 0 <= i < k + 1 implies split_stated(&m0, none, m, self, #[trigger] qs@[i]) by {
                    if i < k {
                        let eq = qs@[i];
                        let (lt, gt) = choose|lt: TermId, gt: TermId| #[trigger]
                            stated(&m0, none, &m1, &e1, Axiom::Split { eq, lt, gt });
                        lemma_stated_stays(&m0, none, &m1, m, &e1, self, Axiom::Split { eq, lt, gt });
                    }
                }
            }
            k = k + 1;
        }
        proof {
            assert forall|v: usize| #[trigger] is_denied(&m0, &e0, truths@, v) implies split_stated(
                &m0,
                none,
                m,
                self,
                e0.var_to_term@[v as int],
            ) by {
                let t = e0.var_to_term@[v as int];
                assert(qs@.contains(t));
                let i = choose|i: int| 0 <= i < qs@.len() && qs@[i] == t;
                assert(split_stated(&m0, none, m, self, qs@[i]));
            }
        }
    }
}

/// One of the first `k` terms that the search goes on to leads to `x`.
spec fn found(m: &TermManager, t: TermId, k: int, x: TermId) -> bool {
    exists|i: int| 0 <= i < k && #[trigger] followed(m, t)[i] < t && leads(m, followed(m, t)[i], x)
}

/// A list with the same fields.
fn copy_fields(v: &Vec<(usize, SortId)>) -> (r: Vec<(usize, SortId)>)
    ensures
        r@ == v@,
{
    let mut r: Vec<(usize, SortId)> = Vec::new();
    let mut i: usize = 0;
    while i < v.len()
        invariant
            i <= v.len(),
            r@ == v@.take(i as int),
        decreases v.len() - i,
    {
        r.push(v[i]);
        assert(r@ =~= v@.take(i + 1));
        i = i + 1;
    }
    assert(v@.take(i as int) =~= v@);
    r
}

/// The equality that says that `t` was built by a constructor.
fn mk_shape(m: &mut TermManager, t: TermId, ctor: usize, fields: &Vec<(usize, SortId)>, Ghost(l): Ghost<CtorLayout>) -> (q: TermId)
    requires
        old(m).wf(),
        old(m).has(t),
        l.name == ctor,
        l.fields@ == fields@,
    ensures
        final(m).wf(),
        old(m).extended_by(final(m)),
        says_shape(final(m), q, t, l),
{
    let ghost m0 = *m;
    let sort: usize = m.terms[t].sort;
    let mut args: Vec<TermId> = Vec::new();
    let mut i: usize = 0;
    proof {
        lemma_extended_self(m);
    }
    while i < fields.len()
        invariant
            i <= fields.len(),
            m0.wf(),
            m.wf(),
            m0.has(t),
            m0.extended_by(m),
            args@.len() == i,
            forall|k: int| 0 <= k < i ==> is_access(m, #[trigger] args@[k], t, fields@[k]),
        decreases fields.len() - i,
    {
        let ghost m1 = *m;
        let (sel, fsort) = fields[i];
        let mut one: Vec<TermId> = Vec::new();
        one.push(t);
        assert(one@ =~= seq![t]);
        let a: usize = m.mk_app(Op::Apply(sel), one, fsort);
        proof {
            lemma_extended_twice(&m0, &m1, m);
            assert forall|k: int| 0 <= k < i implies is_access(m, #[trigger] args@[k], t, fields@[k]) by {
                lemma_node_stays(&m1, m, args@[k], Op::Apply(fields@[k].0), seq![t], fields@[k].1);
            }
        }
        args.push(a);
        i = i + 1;
    }
    let ghost m1 = *m;
    let ghost accesses = args@;
    let c: usize = m.mk_app(Op::DtConstructor(ctor), args, sort);
    let ghost m2 = *m;
    proof {
        lemma_extended_twice(&m0, &m1, &m2);
        assert(m2.terms@[t as int] == m0.terms@[t as int]);
        assert forall|k: int| 0 <= k < l.fields@.len() implies is_access(&m2, #[trigger] m2.args(c)[k], t, l.fields@[k]) by {
            assert(is_access(&m1, accesses[k], t, fields@[k]));
            lemma_node_stays(&m1, &m2, accesses[k], Op::Apply(fields@[k].0), seq![t], fields@[k].1);
        }
        assert(is_shape(&m2, c, t, l));
    }
    let q: usize = m.mk_eq(t, c);
    proof {
        lemma_extended_twice(&m0, &m2, m);
        lemma_node_stays(&m2, m, c, Op::DtConstructor(ctor), m2.args(c), m2.sort_of(t));
        assert(m.terms@[t as int] == m2.terms@[t as int]);
        assert forall|k: int| 0 <= k < l.fields@.len() implies is_access(m, #[trigger] m.args(c)[k], t, l.fields@[k]) by {
            assert(is_access(&m2, m2.args(c)[k], t, l.fields@[k]));
            lemma_node_stays(&m2, m, m2.args(c)[k], Op::Apply(l.fields@[k].0), seq![t], l.fields@[k].1);
        }
        assert(m.arg(q, 1) == c);
    }
    q
}

/// The first equalities say of the first constructors that they built `t`.
spec fn some_shapes(m: &TermManager, t: TermId, ls: Seq<CtorLayout>, shapes: Seq<TermId>) -> bool {
    forall|i: int| 0 <= i < shapes.len() ==> says_shape(m, #[trigger] shapes[i], t, ls[i])
}

/// Such equalities stay.
proof fn lemma_some_shapes_stay(m: &TermManager, later: &TermManager, t: TermId, ls: Seq<CtorLayout>, shapes: Seq<TermId>)
    requires
        m.extended_by(later),
        m.wf(),
        m.has(t),
        shapes.len() <= ls.len(),
        some_shapes(m, t, ls, shapes),
    ensures
        some_shapes(later, t, ls, shapes),
{
    assert(later.terms@[t as int] == m.terms@[t as int]);
    assert forall|i: int| 0 <= i < shapes.len() implies says_shape(later, #[trigger] shapes[i], t, ls[i]) by {
        let q = shapes[i];
        assert(says_shape(m, q, t, ls[i]));
        let c = m.arg(q, 1);
        lemma_node_stays(m, later, q, Op::Eq, seq![t, c], BOOL_SORT);
        assert(later.arg(q, 1) == c);
        lemma_node_stays(m, later, c, Op::DtConstructor(ls[i].name), m.args(c), m.sort_of(t));
        assert forall|k: int| 0 <= k < ls[i].fields@.len() implies is_access(later, #[trigger] later.args(c)[k], t, ls[i].fields@[k]) by {
            let a = m.args(c)[k];
            assert(is_access(m, a, t, ls[i].fields@[k]));
            lemma_node_stays(m, later, a, Op::Apply(ls[i].fields@[k].0), seq![t], ls[i].fields@[k].1);
        }
    }
}

/// Everything that the constructors of its sort say of `t` has been stated.
pub open spec fn covered(start: &TermManager, binds: Map<usize, TermId>, m: &TermManager, e: &Encoder, t: TermId) -> bool {
    exists|shapes: Seq<TermId>| #[trigger] covered_by(start, binds, m, e, t, shapes)
}

/// The same with the equalities named.
pub open spec fn covered_by(
    start: &TermManager,
    binds: Map<usize, TermId>,
    m: &TermManager,
    e: &Encoder,
    t: TermId,
    shapes: Seq<TermId>,
) -> bool {
    &&& stated(start, binds, m, e, Axiom::Cover { term: t, shapes })
    &&& forall|i: int, j: int|
        0 <= i < j < shapes.len() ==> #[trigger] stated(start, binds, m, e, Axiom::Exclusion { term: t, shapes, i, j })
}

/// What is covered stays so.
pub proof fn lemma_covered_stays(
    start: &TermManager,
    binds: Map<usize, TermId>,
    m: &TermManager,
    later: &TermManager,
    e: &Encoder,
    f: &Encoder,
    t: TermId,
)
    requires
        m.wf(),
        later.wf(),
        m.extended_by(later),
        e.grows(f),
        covered(start, binds, m, e, t),
    ensures
        covered(start, binds, later, f, t),
{
    let shapes = choose|shapes: Seq<TermId>| #[trigger] covered_by(start, binds, m, e, t, shapes);
    lemma_stated_stays(start, binds, m, later, e, f, Axiom::Cover { term: t, shapes });
    assert forall|i: int, j: int| 0 <= i < j < shapes.len() implies #[trigger] stated(
        start,
        binds,
        later,
        f,
        Axiom::Exclusion { term: t, shapes, i, j },
    ) by {
        lemma_stated_stays(start, binds, m, later, e, f, Axiom::Exclusion { term: t, shapes, i, j });
    }
    assert(covered_by(start, binds, later, f, t, shapes));
}

/// The literals are those of the formulas.
spec fn literals_of(m: &TermManager, e: &Encoder, lits: Seq<Lit>, shapes: Seq<TermId>) -> bool {
    &&& lits.len() == shapes.len()
    &&& forall|i: int| 0 <= i < shapes.len() ==> m.has(#[trigger] shapes[i]) && encoded(m, e, shapes[i]) && lits[i] == lit_of(m, e, shapes[i])
}

/// They stay so.
proof fn lemma_literals_stay(m: &TermManager, later: &TermManager, e: &Encoder, f: &Encoder, lits: Seq<Lit>, shapes: Seq<TermId>)
    requires
        m.wf(),
        later.wf(),
        m.extended_by(later),
        e.grows(f),
        literals_of(m, e, lits, shapes),
    ensures
        literals_of(later, f, lits, shapes),
{
    assert forall|i: int| 0 <= i < shapes.len() implies later.has(#[trigger] shapes[i]) && encoded(later, f, shapes[i]) && lits[i]
        == lit_of(later, f, shapes[i]) by {
        lemma_encoded_extends(m, later, e, f, shapes[i]);
    }
}

impl Encoder {
    /// Encodes of each constructor of the sort of `t` that it built `t`.
    fn encode_shapes(&mut self, t: TermId, m: &mut TermManager, Ghost(binds): Ghost<Map<usize, TermId>>) -> (r: (
        Vec<Lit>,
        Ghost<Seq<TermId>>,
    ))
        requires
            linked(old(m), old(self)),
            old(m).has(t),
            layouts_of(old(m), old(m).sort_of(t)) is Some,
        ensures
            enriched(binds, old(m), old(self), final(m), final(self)),
            all_shapes(final(m), t, r.1@),
            literals_of(final(m), final(self), r.0@, r.1@),
            final(self).has_quantifiers == old(self).has_quantifiers,
    {
        let ghost m0 = *m;
        let ghost e0 = *self;
        let sort: usize = m.terms[t].sort;
        let ghost ls = layouts_of(m, m.sort_of(t))->0;
        let mut lits: Vec<Lit> = Vec::new();
        let ghost mut shapes: Seq<TermId> = Seq::empty();
        let n: usize = match &m.sorts[sort] {
            Sort::Datatype(l) => l.len(),
            _ => 0,
        };
        proof {
            lemma_step_self(m, self);
            lemma_step_enriches(binds, m, self, m, self);
        }
        let mut i: usize = 0;
        while i < n
            invariant
                i <= n,
                n == ls.len(),
                m0.wf(),
                m0.has(t),
                m0.sort_of(t) == sort,
                layouts_of(&m0, sort) == Some(ls),
                linked(m, self),
                enriched(binds, &m0, &e0, m, self),
                shapes.len() == i,
                some_shapes(m, t, ls, shapes),
                literals_of(m, self, lits@, shapes),
                self.has_quantifiers == e0.has_quantifiers,
            decreases n - i,
        {
            let ghost m1 = *m;
            let ghost e1 = *self;
            assert(m.sorts@ == m0.sorts@);
            assert(sort < m.sorts@.len());
            let (ctor, fields) = match &m.sorts[sort] {
                Sort::Datatype(l) => (l[i].name, copy_fields(&l[i].fields)),
                _ => (0, Vec::new()),
            };
            assert(ls[i as int].name == ctor && ls[i as int].fields@ == fields@);
            let q: usize = mk_shape(m, t, ctor, &fields, Ghost(ls[i as int]));
            let ghost m2 = *m;
            proof {
                lemma_linked_extends(&m1, &m2, &e1);
                lemma_step_enriches(binds, &m1, &e1, &m2, &e1);
                lemma_enriched(binds, &m0, &e0, &m1, &e1, &m2, &e1);
                lemma_some_shapes_stay(&m1, &m2, t, ls, shapes);
                lemma_literals_stay(&m1, &m2, &e1, &e1, lits@, shapes);
            }
            let l = self.encode(q, m);
            proof {
                lemma_quantifier(&e1, self, &m2, q);
                assert(m2.terms@[t as int] == m0.terms@[t as int]);
                assert(!quantified(&m2, q));
                lemma_step_enriches(binds, &m2, &e1, m, self);
                lemma_enriched(binds, &m0, &e0, &m2, &e1, m, self);
                lemma_literals_stay(&m2, m, &e1, self, lits@, shapes);
                let more = shapes.push(q);
                assert forall|k: int| 0 <= k < more.len() implies says_shape(&m2, #[trigger] more[k], t, ls[k]) by {
                    if k < i {
                        assert(says_shape(&m2, shapes[k], t, ls[k]));
                    }
                }
                assert(some_shapes(&m2, t, ls, more));
                assert(m2.terms@[t as int] == m1.terms@[t as int]);
                lemma_some_shapes_stay(&m2, m, t, ls, more);
                assert forall|k: int| 0 <= k < more.len() implies m.has(#[trigger] more[k]) && encoded(m, self, more[k]) && lits@.push(l)[k]
                    == lit_of(m, self, more[k]) by {
                    if k < i {
                        assert(m.has(shapes[k]));
                    }
                }
                shapes = more;
            }
            lits.push(l);
            i = i + 1;
        }
        proof {
            assert(m.terms@[t as int] == m0.terms@[t as int]);
            assert(layouts_of(m, sort) == layouts_of(&m0, sort));
            assert(all_shapes(m, t, shapes));
        }
        (lits, Ghost(shapes))
    }

    /// States that `t` was built by one of the constructors of its sort, and by one only.
    pub(crate) fn cover(&mut self, t: TermId, m: &mut TermManager, Ghost(start): Ghost<TermManager>, Ghost(binds): Ghost<Map<usize, TermId>>)
        requires
            linked(old(m), old(self)),
            start.wf(),
            start.extended_by(old(m)),
            old(m).has(t),
            layouts_of(old(m), old(m).sort_of(t)) is Some,
            layouts_of(old(m), old(m).sort_of(t))->0.len() > 0,
        ensures
            enriched(binds, old(m), old(self), final(m), final(self)),
            covered(&start, binds, final(m), final(self), t),
            final(self).has_quantifiers == old(self).has_quantifiers,
    {
        let ghost m0 = *m;
        let ghost e0 = *self;
        let (lits, Ghost(shapes)) = self.encode_shapes(t, m, Ghost(binds));
        let ghost m1 = *m;
        let ghost e1 = *self;
        let ghost whole = Axiom::Cover { term: t, shapes };
        proof {
            lemma_extended_twice(&start, &m0, &m1);
            lemma_extended_self(m);
            assert(m1.terms@[t as int] == m0.terms@[t as int]);
            assert(layouts_of(&m1, m1.sort_of(t)) == layouts_of(&m0, m0.sort_of(t)));
            assert forall|k: int| 0 <= k < shapes.len() implies encoded(m, self, #[trigger] shapes[k]) by {
                assert(m.has(shapes[k]));
            }
            assert(lits@ =~= clause_of(m, self, whole)) by {
                assert forall|k: int| 0 <= k < lits@.len() implies lits@[k] == clause_of(m, self, whole)[k] by {
                    assert(m.has(shapes[k]));
                }
            }
        }
        let cover = copy_clause(&lits);
        self.state(cover, m, Ghost(start), Ghost(binds), Ghost(whole));
        proof {
            lemma_enriched(binds, &m0, &e0, &m1, &e1, m, self);
            lemma_literals_stay(&m1, m, &e1, self, lits@, shapes);
        }
        let n: usize = lits.len();
        let mut i: usize = 0;
        while i < n
            invariant
                i <= n,
                n == lits@.len(),
                m0.wf(),
                start.wf(),
                start.extended_by(m),
                linked(m, self),
                whole == (Axiom::Cover { term: t, shapes }),
                enriched(binds, &m0, &e0, m, self),
                self.has_quantifiers == e0.has_quantifiers,
                all_shapes(m, t, shapes),
                literals_of(m, self, lits@, shapes),
                stated(&start, binds, m, self, whole),
                forall|p: int, q: int|
                    0 <= p < q < shapes.len() && p < i ==> #[trigger] stated(
                        &start,
                        binds,
                        m,
                        self,
                        Axiom::Exclusion { term: t, shapes, i: p, j: q },
                    ),
            decreases n - i,
        {
            let mut j: usize = i + 1;
            while j < n
                invariant
                    i < j <= n,
                    n == lits@.len(),
                    m0.wf(),
                    start.wf(),
                    start.extended_by(m),
                    linked(m, self),
                    whole == (Axiom::Cover { term: t, shapes }),
                    enriched(binds, &m0, &e0, m, self),
                    self.has_quantifiers == e0.has_quantifiers,
                    all_shapes(m, t, shapes),
                    literals_of(m, self, lits@, shapes),
                    stated(&start, binds, m, self, whole),
                    forall|p: int, q: int|
                        0 <= p < q < shapes.len() && (p < i || (p == i && q < j)) ==> #[trigger] stated(
                            &start,
                            binds,
                            m,
                            self,
                            Axiom::Exclusion { term: t, shapes, i: p, j: q },
                        ),
                decreases n - j,
            {
                let ghost e2 = *self;
                let ghost x = Axiom::Exclusion { term: t, shapes, i: i as int, j: j as int };
                let c = clause2(lits[i].negate(), lits[j].negate());
                proof {
                    assert(m.has(shapes[i as int]) && m.has(shapes[j as int]));
                    assert forall|k: int| 0 <= k < shapes.len() implies encoded(m, self, #[trigger] shapes[k]) by {
                        assert(m.has(shapes[k]));
                    }
                    assert(c@ =~= clause_of(m, self, x));
                    lemma_extended_self(m);
                }
                self.state(c, m, Ghost(start), Ghost(binds), Ghost(x));
                proof {
                    lemma_enriched(binds, &m0, &e0, m, &e2, m, self);
                    lemma_literals_stay(m, m, &e2, self, lits@, shapes);
                    lemma_stated_stays(&start, binds, m, m, &e2, self, whole);
                    assert forall|p: int, q: int| 0 <= p < q < shapes.len() && (p < i || (p == i && q < j + 1)) implies #[trigger] stated(
                        &start,
                        binds,
                        m,
                        self,
                        Axiom::Exclusion { term: t, shapes, i: p, j: q },
                    ) by {
                        if p < i || q < j {
                            lemma_stated_stays(&start, binds, m, m, &e2, self, Axiom::Exclusion { term: t, shapes, i: p, j: q });
                        }
                    }
                }
                j = j + 1;
            }
            i = i + 1;
        }
        proof {
            assert(covered_by(&start, binds, m, self, t, shapes));
        }
    }
}

/// The term is of a datatype, and its constructor is not written down.
pub open spec fn is_open(m: &TermManager, t: TermId) -> bool {
    m.has(t) && !is_binder(m, t) && !is_ctor(m, t) && layouts_of(m, m.sort_of(t)) is Some && layouts_of(m, m.sort_of(t))->0.len() > 0
}

/// Whether a term is of a datatype and its constructor is not written down.
pub(crate) fn check_open(m: &TermManager, t: TermId) -> (r: bool)
    ensures
        r == is_open(m, t),
{
    if t >= m.terms.len() {
        return false;
    }
    match m.terms[t].op {
        Op::Forall | Op::Exists | Op::DtConstructor(_) => {
            return false;
        },
        _ => {},
    }
    let s: usize = m.terms[t].sort;
    if s >= m.sorts.len() {
        return false;
    }
    match &m.sorts[s] {
        Sort::Datatype(l) => l.len() > 0,
        _ => false,
    }
}

/// What the selector and test applications among the terms come to, under bindings of variables;
/// those that were dealt with are left out.
pub open spec fn field_targets(m: &TermManager, binds: Map<usize, TermId>, done: Set<usize>, parts: Seq<TermId>, k: int) -> Seq<(
    TermId,
    TermId,
)>
    decreases k,
{
    if k <= 0 {
        Seq::empty()
    } else {
        let rest = field_targets(m, binds, done, parts, k - 1);
        let t = parts[k - 1];
        if !done.contains(t) && takes(m, binds, t) is Some {
            rest.push((t, takes(m, binds, t)->0))
        } else {
            rest
        }
    }
}

/// The same for tests.
pub open spec fn test_targets(m: &TermManager, binds: Map<usize, TermId>, done: Set<usize>, parts: Seq<TermId>, k: int) -> Seq<(
    TermId,
    bool,
)>
    decreases k,
{
    if k <= 0 {
        Seq::empty()
    } else {
        let rest = test_targets(m, binds, done, parts, k - 1);
        let t = parts[k - 1];
        if !done.contains(t) && tests(m, binds, t) is Some {
            rest.push((t, tests(m, binds, t)->0))
        } else {
            rest
        }
    }
}

/// The targets are exactly the terms with a field that are not dealt with, each once.
pub proof fn lemma_field_targets(m: &TermManager, binds: Map<usize, TermId>, done: Set<usize>, parts: Seq<TermId>, k: int)
    requires
        0 <= k <= parts.len(),
        parts.no_duplicates(),
    ensures
        forall|x: usize| #[trigger]
            parts.take(k).contains(x) && !done.contains(x) && takes(m, binds, x) is Some ==> exists|i: int|
                0 <= i < field_targets(m, binds, done, parts, k).len() && (#[trigger] field_targets(m, binds, done, parts, k)[i]).0 == x,
        forall|i: int|
            0 <= i < field_targets(m, binds, done, parts, k).len() ==> {
                let p = #[trigger] field_targets(m, binds, done, parts, k)[i];
                parts.take(k).contains(p.0) && !done.contains(p.0) && takes(m, binds, p.0) == Some(p.1)
            },
    decreases k,
{
    if k > 0 {
        lemma_field_targets(m, binds, done, parts, k - 1);
        let rest = field_targets(m, binds, done, parts, k - 1);
        let all = field_targets(m, binds, done, parts, k);
        let t = parts[k - 1];
        assert(parts.take(k) =~= parts.take(k - 1).push(t));
        assert forall|x: usize| #[trigger] parts.take(k).contains(x) && !done.contains(x) && takes(m, binds, x) is Some implies exists|i: int|
            0 <= i < all.len() && (#[trigger] all[i]).0 == x by {
            let j = choose|j: int| 0 <= j < k && parts.take(k)[j] == x;
            if j < k - 1 {
                assert(parts.take(k - 1)[j] == x);
                assert(parts.take(k - 1).contains(x));
                let i = choose|i: int| 0 <= i < rest.len() && (#[trigger] rest[i]).0 == x;
                assert(all[i] == rest[i]);
            } else {
                assert(all[all.len() - 1].0 == x);
            }
        }
        assert forall|i: int| 0 <= i < all.len() implies {
            let p = #[trigger] all[i];
            parts.take(k).contains(p.0) && !done.contains(p.0) && takes(m, binds, p.0) == Some(p.1)
        } by {
            if i < rest.len() {
                assert(all[i] == rest[i]);
                let p = rest[i];
                let prior = parts.take(k - 1);
                let j = choose|j: int| 0 <= j < prior.len() && prior[j] == p.0;
                assert(parts.take(k)[j] == p.0);
            } else {
                assert(parts.take(k)[k - 1] == t);
            }
        }
    }
}

/// The targets are exactly the decided tests that are not dealt with.
pub proof fn lemma_test_targets(m: &TermManager, binds: Map<usize, TermId>, done: Set<usize>, parts: Seq<TermId>, k: int)
    requires
        0 <= k <= parts.len(),
        parts.no_duplicates(),
    ensures
        forall|x: usize| #[trigger]
            parts.take(k).contains(x) && !done.contains(x) && tests(m, binds, x) is Some ==> exists|i: int|
                0 <= i < test_targets(m, binds, done, parts, k).len() && (#[trigger] test_targets(m, binds, done, parts, k)[i]).0 == x,
        forall|i: int|
            0 <= i < test_targets(m, binds, done, parts, k).len() ==> {
                let p = #[trigger] test_targets(m, binds, done, parts, k)[i];
                parts.take(k).contains(p.0) && !done.contains(p.0) && tests(m, binds, p.0) == Some(p.1)
            },
    decreases k,
{
    if k > 0 {
        lemma_test_targets(m, binds, done, parts, k - 1);
        let rest = test_targets(m, binds, done, parts, k - 1);
        let all = test_targets(m, binds, done, parts, k);
        let t = parts[k - 1];
        assert(parts.take(k) =~= parts.take(k - 1).push(t));
        assert forall|x: usize| #[trigger] parts.take(k).contains(x) && !done.contains(x) && tests(m, binds, x) is Some implies exists|i: int|
            0 <= i < all.len() && (#[trigger] all[i]).0 == x by {
            let j = choose|j: int| 0 <= j < k && parts.take(k)[j] == x;
            if j < k - 1 {
                assert(parts.take(k - 1)[j] == x);
                assert(parts.take(k - 1).contains(x));
                let i = choose|i: int| 0 <= i < rest.len() && (#[trigger] rest[i]).0 == x;
                assert(all[i] == rest[i]);
            } else {
                assert(all[all.len() - 1].0 == x);
            }
        }
        assert forall|i: int| 0 <= i < all.len() implies {
            let p = #[trigger] all[i];
            parts.take(k).contains(p.0) && !done.contains(p.0) && tests(m, binds, p.0) == Some(p.1)
        } by {
            if i < rest.len() {
                assert(all[i] == rest[i]);
                let p = rest[i];
                let prior = parts.take(k - 1);
                let j = choose|j: int| 0 <= j < prior.len() && prior[j] == p.0;
                assert(parts.take(k)[j] == p.0);
            } else {
                assert(parts.take(k)[k - 1] == t);
            }
        }
    }
}

/// What the selector applications among the terms come to.
pub(crate) fn collect_fields(m: &TermManager, parts: &Vec<TermId>, binds: &FxHashMap<usize, TermId>, done: &FxHashSet<usize>) -> (r: Vec<(
    TermId,
    TermId,
)>)
    requires
        m.wf(),
    ensures
        r@ == field_targets(m, binds@, done@, parts@, parts@.len() as int),
{
    let mut memo: FxHashMap<usize, Option<TermId>> = map_new();
    let mut out: Vec<(TermId, TermId)> = Vec::new();
    let mut i: usize = 0;
    while i < parts.len()
        invariant
            i <= parts.len(),
            m.wf(),
            memo_ok(m, binds@, memo@),
            out@ == field_targets(m, binds@, done@, parts@, i as int),
        decreases parts.len() - i,
    {
        let t: usize = parts[i];
        if t < m.terms.len() && !set_contains(done, t) {
            if let Op::DtSelector(sel) = m.terms[t].op {
                assert(m.terms@[t as int].fits(t as int));
                let arg: usize = m.terms[t].args[0];
                if let Some(c) = resolve_dt_normal_form(m, arg, binds, &mut memo) {
                    if let Some(f) = find_field(m, c, sel) {
                        out.push((t, f));
                    }
                }
            }
        }
        i = i + 1;
    }
    out
}

/// What the tests among the terms come to.
pub(crate) fn collect_tests(m: &TermManager, parts: &Vec<TermId>, binds: &FxHashMap<usize, TermId>, done: &FxHashSet<usize>) -> (r: Vec<(
    TermId,
    bool,
)>)
    requires
        m.wf(),
    ensures
        r@ == test_targets(m, binds@, done@, parts@, parts@.len() as int),
{
    let mut memo: FxHashMap<usize, Option<TermId>> = map_new();
    let mut out: Vec<(TermId, bool)> = Vec::new();
    let mut i: usize = 0;
    while i < parts.len()
        invariant
            i <= parts.len(),
            m.wf(),
            memo_ok(m, binds@, memo@),
            out@ == test_targets(m, binds@, done@, parts@, i as int),
        decreases parts.len() - i,
    {
        let t: usize = parts[i];
        if t < m.terms.len() && !set_contains(done, t) {
            if let Op::DtTester(k) = m.terms[t].op {
                assert(m.terms@[t as int].fits(t as int));
                let arg: usize = m.terms[t].args[0];
                if let Some(c) = resolve_dt_normal_form(m, arg, binds, &mut memo) {
                    proof {
                        lemma_normal_form_is_ctor(m, binds@, arg);
                    }
                    if let Some(name) = constructor_of(m, c) {
                        out.push((t, name == k));
                    }
                }
            }
        }
        i = i + 1;
    }
    out
}

/// A term comes down to a constructor application only.
pub proof fn lemma_normal_form_is_ctor(m: &TermManager, binds: Map<usize, TermId>, t: TermId)
    requires
        normal_form(m, binds, t) is Some,
    ensures
        is_ctor(m, normal_form(m, binds, t)->0),
{
    let n = choose|n: nat| #[trigger] resolved(m, binds, t, n) is Some;
    lemma_resolved_is_ctor(m, binds, t, n);
}

proof fn lemma_resolved_is_ctor(m: &TermManager, binds: Map<usize, TermId>, t: TermId, n: nat)
    requires
        resolved(m, binds, t, n) is Some,
    ensures
        is_ctor(m, resolved(m, binds, t, n)->0),
    decreases n,
{
    match m.op(t) {
        Op::Var(_) => {
            lemma_resolved_is_ctor(m, binds, binds[t], (n - 1) as nat);
        },
        Op::DtSelector(sel) => {
            let c = resolved(m, binds, m.arg(t, 0), (n - 1) as nat)->0;
            lemma_resolved_is_ctor(m, binds, field_of(m, c, sel)->0, (n - 1) as nat);
        },
        _ => {},
    }
}

/// That a selector application equals its field has been stated.
pub open spec fn field_stated(start: &TermManager, binds: Map<usize, TermId>, m: &TermManager, e: &Encoder, t: TermId) -> bool {
    exists|eq: TermId| #[trigger] stated(start, binds, m, e, Axiom::Field { term: t, value: takes(start, binds, t)->0, eq })
}

/// The truth value of a test has been stated.
pub open spec fn test_stated(start: &TermManager, binds: Map<usize, TermId>, m: &TermManager, e: &Encoder, t: TermId) -> bool {
    stated(start, binds, m, e, Axiom::Test { term: t, verdict: tests(start, binds, t)->0 })
}

} // verus!
