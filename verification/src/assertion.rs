//! The clauses of one assertion.
use crate::axioms::covered;
use crate::axioms::enriched;
use crate::axioms::field_stated;
use crate::axioms::from_axiom;
use crate::axioms::is_diseq;
use crate::axioms::is_open;
use crate::axioms::leads;
use crate::axioms::lemma_axiom_stays;
use crate::axioms::lemma_covered_stays;
use crate::axioms::lemma_extended_twice;
use crate::axioms::lemma_stated_stays;
use crate::axioms::split_stated;
use crate::axioms::stated;
use crate::axioms::takes;
use crate::axioms::test_stated;
use crate::axioms::tests;
use crate::axioms::Axiom;
use crate::context::lemma_reverts;
use crate::context::marks;
use crate::context::Mark;
use crate::context::Records;
use crate::context::RecordsView;
use crate::dt_axioms::field_quantified;
use crate::dt_axioms::lemma_takes_in_store;
use crate::dt_facts::layouts_of;
use crate::dt_resolve::field_of;
use crate::dt_resolve::lemma_field_in_store;
use crate::dt_resolve::lemma_normal_form;
use crate::dt_resolve::normal_form;
use crate::dt_resolve::resolved;
use crate::emission::lemma_finds_extends;
use crate::emission::lemma_quantifier;
use crate::emission::quantified;
use crate::emission::Find;
use crate::encode::clause1;
use crate::encode::encoded;
use crate::encode::lemma_clause_extends;
use crate::encode::lemma_encoded_extends;
use crate::encode::lemma_linked_tables;
use crate::encode::lemma_valid_extends;
use crate::encode::linked;
use crate::encode::lit_of;
use crate::encode::step;
use crate::encode::valid;
use crate::encoder::lemma_advances;
use crate::encoder::Encoder;
use crate::maps::map_new;
use crate::semantics::is_bool;
use crate::term::Op;
use crate::term::TermId;
use crate::term::TermManager;
use crate::track::lemma_extended_self;
use crate::walk::occurs;
use crate::walk::occurs_in;
use rustc_hash::FxHashMap;
use vstd::prelude::*;

verus! {

/// No variable is bound.
pub open spec fn unbound() -> Map<usize, TermId> {
    Map::empty()
}

/// The second pair of store and tables is the first with a formula asserted: every clause that is
/// new is a definition, an axiom, or the formula's literal by itself.
pub open spec fn asserts(m: &TermManager, e: &Encoder, later: &TermManager, f: &Encoder, t: TermId) -> bool {
    &&& linked(later, f)
    &&& m.extended_by(later)
    &&& e.advances(f)
    &&& later.has(t)
    &&& encoded(later, f, t)
    &&& f.has_clause(seq![lit_of(later, f, t)])
    &&& forall|i: int|
        e.clauses@.len() <= i < f.clauses@.len() ==> valid(later, f, (#[trigger] f.clauses@[i])@) || from_axiom(
            unbound(),
            later,
            f,
            f.clauses@[i]@,
        ) || f.clauses@[i]@ == seq![lit_of(later, f, t)]
}

/// The ways in which the two sides of an equality compare have been stated.
pub open spec fn is_split(m: &TermManager, e: &Encoder, q: TermId) -> bool {
    exists|start: TermManager| #[trigger] split_stated(&start, unbound(), m, e, q)
}

/// What the constructors of its sort say of a term has been stated.
pub open spec fn is_covered(m: &TermManager, e: &Encoder, t: TermId) -> bool {
    exists|start: TermManager| #[trigger] covered(&start, unbound(), m, e, t)
}

/// That a selector application equals its field has been stated.
pub open spec fn is_selected(m: &TermManager, e: &Encoder, t: TermId) -> bool {
    exists|start: TermManager| #[trigger] field_stated(&start, unbound(), m, e, t)
}

/// The outcome of a test has been stated.
pub open spec fn is_tested(m: &TermManager, e: &Encoder, t: TermId) -> bool {
    exists|start: TermManager| #[trigger] test_stated(&start, unbound(), m, e, t)
}

/// What stands under a term does not change when the store grows.
pub proof fn lemma_occurs_stays(m: &TermManager, later: &TermManager, t: TermId, x: TermId)
    requires
        m.wf(),
        m.extended_by(later),
        m.has(t),
    ensures
        occurs(later, t, x) == occurs(m, t, x),
        occurs(m, t, x) ==> m.has(x),
    decreases t,
{
    assert(later.terms@[t as int] == m.terms@[t as int]);
    assert(m.terms@[t as int].fits(t as int));
    if t != x {
        if occurs(later, t, x) {
            let i = choose|i: int|
                0 <= i < later.args(t).len() && #[trigger] later.args(t)[i] < t && occurs(later, later.args(t)[i], x);
            lemma_occurs_stays(m, later, m.args(t)[i], x);
            assert(m.args(t)[i] < t && occurs(m, m.args(t)[i], x));
        }
        if occurs(m, t, x) {
            let i = choose|i: int| 0 <= i < m.args(t).len() && #[trigger] m.args(t)[i] < t && occurs(m, m.args(t)[i], x);
            lemma_occurs_stays(m, later, m.args(t)[i], x);
            assert(later.args(t)[i] < t && occurs(later, later.args(t)[i], x));
        }
    }
}

/// What variables are bound to are terms of the store.
pub open spec fn binds_in(m: &TermManager, binds: Map<usize, TermId>) -> bool {
    forall|v: usize| #[trigger] binds.contains_key(v) ==> m.has(binds[v])
}

/// What a term comes down to does not change when the store grows.
proof fn lemma_resolved_stays(m: &TermManager, later: &TermManager, binds: Map<usize, TermId>, t: TermId, n: nat)
    requires
        binds_in(m, binds),
        m.wf(),
        m.extended_by(later),
        m.has(t),
    ensures
        resolved(later, binds, t, n) == resolved(m, binds, t, n),
        resolved(m, binds, t, n) matches Some(c) ==> m.has(c),
    decreases n,
{
    assert(later.terms@[t as int] == m.terms@[t as int]);
    assert(m.terms@[t as int].fits(t as int));
    if n > 0 {
        if m.op(t) is Var && binds.contains_key(t) {
            lemma_resolved_stays(m, later, binds, binds[t], (n - 1) as nat);
        }
        if let Op::DtSelector(sel) = m.op(t) {
            lemma_resolved_stays(m, later, binds, m.arg(t, 0), (n - 1) as nat);
            if let Some(c) = resolved(m, binds, m.arg(t, 0), (n - 1) as nat) {
                assert(later.terms@[c as int] == m.terms@[c as int]);
                assert(layouts_of(later, m.sort_of(c)) == layouts_of(m, m.sort_of(c)));
                assert(field_of(later, c, sel) == field_of(m, c, sel));
                if field_of(m, c, sel) is Some {
                    lemma_field_in_store(m, c, sel);
                    lemma_resolved_stays(m, later, binds, field_of(m, c, sel)->0, (n - 1) as nat);
                }
            }
        }
    }
}

/// What selectors and tests come to does not change when the store grows.
pub proof fn lemma_reductions_stay(m: &TermManager, later: &TermManager, binds: Map<usize, TermId>, t: TermId)
    requires
        binds_in(m, binds),
        m.wf(),
        m.extended_by(later),
        m.has(t),
    ensures
        takes(later, binds, t) == takes(m, binds, t),
        tests(later, binds, t) == tests(m, binds, t),
{
    assert(later.terms@[t as int] == m.terms@[t as int]);
    assert(m.terms@[t as int].fits(t as int));
    if m.op(t) is DtSelector || m.op(t) is DtTester {
        let a = m.arg(t, 0);
        assert forall|n: nat| #[trigger] resolved(later, binds, a, n) == resolved(m, binds, a, n) by {
            lemma_resolved_stays(m, later, binds, a, n);
        }
        if exists|n: nat| #[trigger] resolved(m, binds, a, n) is Some {
            let n = choose|n: nat| #[trigger] resolved(m, binds, a, n) is Some;
            lemma_normal_form(m, binds, a, n);
            assert(resolved(later, binds, a, n) is Some);
            lemma_normal_form(later, binds, a, n);
            lemma_resolved_stays(m, later, binds, a, n);
            let c = normal_form(m, binds, a)->0;
            assert(later.terms@[c as int] == m.terms@[c as int]);
            assert(layouts_of(later, m.sort_of(c)) == layouts_of(m, m.sort_of(c)));
        } else {
            assert(normal_form(later, binds, a) is None) by {
                if exists|n: nat| #[trigger] resolved(later, binds, a, n) is Some {
                    let n = choose|n: nat| #[trigger] resolved(later, binds, a, n) is Some;
                    assert(resolved(m, binds, a, n) is Some);
                }
            }
        }
    }
}

/// An open term stays one when the store grows.
proof fn lemma_open_stays(m: &TermManager, later: &TermManager, t: TermId)
    requires
        m.extended_by(later),
        m.has(t),
    ensures
        is_open(later, t) == is_open(m, t),
{
    assert(later.terms@[t as int] == m.terms@[t as int]);
    assert(layouts_of(later, m.sort_of(t)) == layouts_of(m, m.sort_of(t)));
}

/// What the search for disequalities comes to does not change when the store grows.
proof fn lemma_leads_stays(m: &TermManager, later: &TermManager, t: TermId, x: TermId)
    requires
        m.wf(),
        m.extended_by(later),
        m.has(t),
    ensures
        leads(later, t, x) == leads(m, t, x),
        leads(m, t, x) ==> m.has(x),
    decreases t,
{
    assert(later.terms@[t as int] == m.terms@[t as int]);
    assert(m.terms@[t as int].fits(t as int));
    let next = crate::axioms::followed(m, t);
    assert(crate::axioms::followed(later, t) == next);
    if t != x {
        if leads(later, t, x) {
            let i = choose|i: int|
                0 <= i < crate::axioms::followed(later, t).len() && #[trigger] crate::axioms::followed(later, t)[i] < t && leads(
                    later,
                    crate::axioms::followed(later, t)[i],
                    x,
                );
            lemma_leads_stays(m, later, next[i], x);
            assert(crate::axioms::followed(m, t)[i] < t && leads(m, crate::axioms::followed(m, t)[i], x));
        }
        if leads(m, t, x) {
            let i = choose|i: int|
                0 <= i < crate::axioms::followed(m, t).len() && #[trigger] crate::axioms::followed(m, t)[i] < t && leads(
                    m,
                    crate::axioms::followed(m, t)[i],
                    x,
                );
            lemma_leads_stays(m, later, next[i], x);
            assert(crate::axioms::followed(later, t)[i] < t && leads(later, crate::axioms::followed(later, t)[i], x));
        }
    }
}

/// A denied equality stays one when the store grows.
proof fn lemma_diseq_stays(m: &TermManager, later: &TermManager, x: TermId)
    requires
        m.wf(),
        m.extended_by(later),
        m.has(x),
    ensures
        is_diseq(later, x) == is_diseq(m, x),
        is_diseq(m, x) ==> later.arg(x, 0) == m.arg(x, 0),
{
    assert(later.terms@[x as int] == m.terms@[x as int]);
    assert(m.terms@[x as int].fits(x as int));
    if m.op(x) == Op::Not {
        let q = m.arg(x, 0);
        assert(later.terms@[q as int] == m.terms@[q as int]);
        assert(m.terms@[q as int].fits(q as int));
        if m.op(q) == Op::Eq {
            let a = m.arg(q, 0);
            assert(later.terms@[a as int] == m.terms@[a as int]);
        }
    }
}

/// The literal of a formula, emitted by itself, asserts it.
proof fn lemma_asserts(m: &TermManager, e: &Encoder, m1: &TermManager, e1: &Encoder, e2: &Encoder, t: TermId)
    requires
        step(m, e, m1, e1),
        m1.has(t),
        encoded(m1, e1, t),
        e1.advances(e2),
        linked(m1, e2),
        e2.clauses@.len() == e1.clauses@.len() + 1,
        e2.clauses@.last()@ == seq![lit_of(m1, e1, t)],
    ensures
        asserts(m, e, m1, e2, t),
{
    lemma_advances(e, e1, e2);
    lemma_extended_self(m1);
    lemma_encoded_extends(m1, m1, e1, e2, t);
    let n = e1.clauses@.len() as int;
    assert(e2.clauses@[n]@ == seq![lit_of(m1, e2, t)]);
    assert forall|i: int| e.clauses@.len() <= i < e2.clauses@.len() implies valid(m1, e2, (#[trigger] e2.clauses@[i])@) || from_axiom(
        unbound(),
        m1,
        e2,
        e2.clauses@[i]@,
    ) || e2.clauses@[i]@ == seq![lit_of(m1, e2, t)] by {
        if i < n {
            assert(e2.clauses@[i] == e1.clauses@[i]);
            assert(valid(m1, e1, e1.clauses@[i]@));
            lemma_valid_extends(m1, m1, e1, e2, e1.clauses@[i]@);
        }
    }
}

/// Axioms on top of an assertion.
proof fn lemma_asserts_enriched(m: &TermManager, e: &Encoder, m1: &TermManager, e1: &Encoder, m2: &TermManager, e2: &Encoder, t: TermId)
    requires
        m.wf(),
        asserts(m, e, m1, e1, t),
        enriched(unbound(), m1, e1, m2, e2),
    ensures
        asserts(m, e, m2, e2, t),
{
    lemma_advances(e, e1, e2);
    lemma_extended_twice(m, m1, m2);
    lemma_encoded_extends(m1, m2, e1, e2, t);
    lemma_clause_extends(e1, e2, seq![lit_of(m1, e1, t)]);
    assert forall|i: int| e.clauses@.len() <= i < e2.clauses@.len() implies valid(m2, e2, (#[trigger] e2.clauses@[i])@) || from_axiom(
        unbound(),
        m2,
        e2,
        e2.clauses@[i]@,
    ) || e2.clauses@[i]@ == seq![lit_of(m2, e2, t)] by {
        if i < e1.clauses@.len() {
            assert(e2.clauses@[i] == e1.clauses@[i]);
            let c = e1.clauses@[i]@;
            if valid(m1, e1, c) {
                lemma_valid_extends(m1, m2, e1, e2, c);
            } else if from_axiom(unbound(), m1, e1, c) {
                let (start, x) = choose|start: TermManager, x: Axiom| #[trigger]
                    crate::axioms::fits(&start, unbound(), m1, x) && start.wf() && start.extended_by(m1) && crate::axioms::in_place(m1, e1, x)
                        && c == crate::axioms::clause_of(m1, e1, x);
                lemma_axiom_stays(&start, unbound(), m1, m2, e1, e2, x);
                lemma_extended_twice(&start, m1, m2);
            }
        }
    }
}

/// What has been stated of a term stays so.
proof fn lemma_statements_stay(m: &TermManager, later: &TermManager, e: &Encoder, f: &Encoder, t: TermId)
    requires
        m.wf(),
        later.wf(),
        m.extended_by(later),
        e.grows(f),
    ensures
        is_split(m, e, t) ==> is_split(later, f, t),
        is_covered(m, e, t) ==> is_covered(later, f, t),
        is_selected(m, e, t) ==> is_selected(later, f, t),
        is_tested(m, e, t) ==> is_tested(later, f, t),
{
    if is_split(m, e, t) {
        let start = choose|start: TermManager| #[trigger] split_stated(&start, unbound(), m, e, t);
        let (lt, gt) = choose|lt: TermId, gt: TermId| #[trigger] stated(&start, unbound(), m, e, Axiom::Split { eq: t, lt, gt });
        lemma_stated_stays(&start, unbound(), m, later, e, f, Axiom::Split { eq: t, lt, gt });
        assert(split_stated(&start, unbound(), later, f, t));
    }
    if is_covered(m, e, t) {
        let start = choose|start: TermManager| #[trigger] covered(&start, unbound(), m, e, t);
        lemma_covered_stays(&start, unbound(), m, later, e, f, t);
    }
    if is_selected(m, e, t) {
        let start = choose|start: TermManager| #[trigger] field_stated(&start, unbound(), m, e, t);
        let v = takes(&start, unbound(), t)->0;
        let eq = choose|eq: TermId| #[trigger] stated(&start, unbound(), m, e, Axiom::Field { term: t, value: v, eq });
        lemma_stated_stays(&start, unbound(), m, later, e, f, Axiom::Field { term: t, value: v, eq });
        assert(field_stated(&start, unbound(), later, f, t));
    }
    if is_tested(m, e, t) {
        let start = choose|start: TermManager| #[trigger] test_stated(&start, unbound(), m, e, t);
        lemma_stated_stays(&start, unbound(), m, later, e, f, Axiom::Test { term: t, verdict: tests(&start, unbound(), t)->0 });
        assert(test_stated(&start, unbound(), later, f, t));
    }
}

/// The terms that get marks when a formula is asserted.
pub open spec fn wants(m: &TermManager, t: TermId, kind: Mark, x: TermId) -> bool {
    occurs(m, t, x) && match kind {
        Mark::Cover => is_open(m, x),
        Mark::Select => takes(m, unbound(), x) is Some,
        Mark::Test => tests(m, unbound(), x) is Some,
    }
}

/// Asserting a formula brings a quantified one: it is among the parts of the formula, or in a field
/// that a selector application of the formula, itself a formula, comes to and has not been equated
/// with before.
pub open spec fn assertion_quantified(m: &TermManager, t: TermId, before: RecordsView) -> bool {
    quantified(m, t) || exists|x: usize| #[trigger] brings_field(m, t, before, x)
}

/// The term is a selector application of the formula that has not been equated with its field
/// before; it is a formula, and its field brings a quantified one.
pub open spec fn brings_field(m: &TermManager, t: TermId, before: RecordsView, x: TermId) -> bool {
    &&& wants(m, t, Mark::Select, x)
    &&& !marks(before, Mark::Select).contains(x)
    &&& is_bool(m, x)
    &&& quantified(m, takes(m, unbound(), x)->0)
}

/// The fields of a later store bring what those of the store bring.
proof fn lemma_fields_quantified(m: &TermManager, later: &TermManager, t: TermId, before: RecordsView, fields: Seq<TermId>)
    requires
        m.wf(),
        later.wf(),
        m.extended_by(later),
        m.has(t),
        forall|x: usize| #[trigger]
            fields.contains(x) <==> occurs(later, t, x) && takes(later, unbound(), x) is Some && !marks(before, Mark::Select).contains(x),
    ensures
        field_quantified(later, unbound(), fields) == exists|x: usize| #[trigger] brings_field(m, t, before, x),
{
    assert forall|x: usize| #[trigger] brings_field(m, t, before, x) == (fields.contains(x) && is_bool(later, x) && quantified(
        later,
        takes(later, unbound(), x)->0,
    )) by {
        lemma_occurs_stays(m, later, t, x);
        if occurs(m, t, x) {
            lemma_reductions_stay(m, later, unbound(), x);
            assert(later.terms@[x as int] == m.terms@[x as int]);
            if takes(m, unbound(), x) is Some {
                lemma_takes_in_store(m, unbound(), x);
                lemma_finds_extends(m, later, takes(m, unbound(), x)->0, Find::Quantifier);
            }
        }
    }
    if field_quantified(later, unbound(), fields) {
        let x = choose|x: TermId| #[trigger] fields.contains(x) && is_bool(later, x) && quantified(later, takes(later, unbound(), x)->0);
        assert(brings_field(m, t, before, x));
    }
    if exists|x: usize| #[trigger] brings_field(m, t, before, x) {
        let x = choose|x: usize| #[trigger] brings_field(m, t, before, x);
        assert(fields.contains(x));
    }
}

/// The statement that a mark stands for.
pub open spec fn has_statement(m: &TermManager, e: &Encoder, kind: Mark, x: TermId) -> bool {
    match kind {
        Mark::Cover => is_covered(m, e, x),
        Mark::Select => is_selected(m, e, x),
        Mark::Test => is_tested(m, e, x),
    }
}

/// The marks have grown by what asserting a formula wants.
pub open spec fn marked(m: &TermManager, t: TermId, kind: Mark, before: RecordsView, after: RecordsView) -> bool {
    forall|x: usize| #[trigger] marks(after, kind).contains(x) <==> marks(before, kind).contains(x) || wants(m, t, kind, x)
}

/// Every mark that is new stands for a statement.
pub open spec fn backed(m: &TermManager, e: &Encoder, kind: Mark, before: RecordsView, after: RecordsView) -> bool {
    forall|x: usize| #[trigger] marks(after, kind).contains(x) && !marks(before, kind).contains(x) ==> has_statement(m, e, kind, x)
}

/// It still does when more is emitted.
proof fn lemma_backed_stays(
    m: &TermManager,
    later: &TermManager,
    e: &Encoder,
    f: &Encoder,
    kind: Mark,
    before: RecordsView,
    after: RecordsView,
)
    requires
        m.wf(),
        later.wf(),
        m.extended_by(later),
        e.grows(f),
        backed(m, e, kind, before, after),
    ensures
        backed(later, f, kind, before, after),
{
    assert forall|x: usize| #[trigger] marks(after, kind).contains(x) && !marks(before, kind).contains(x) implies has_statement(
        later,
        f,
        kind,
        x,
    ) by {
        lemma_statements_stay(m, later, e, f, x);
    }
}

/// Both depend on the marks only.
pub proof fn lemma_same_marks(
    start: &TermManager,
    m: &TermManager,
    e: &Encoder,
    t: TermId,
    kind: Mark,
    before: RecordsView,
    after: RecordsView,
    last: RecordsView,
)
    requires
        marked(start, t, kind, before, after),
        backed(m, e, kind, before, after),
        marks(last, kind) == marks(after, kind),
    ensures
        marked(start, t, kind, before, last),
        backed(m, e, kind, before, last),
{
    assert forall|x: usize| #[trigger] marks(last, kind).contains(x) <==> marks(before, kind).contains(x) || wants(start, t, kind, x) by {
        assert(marks(after, kind).contains(x) <==> marks(before, kind).contains(x) || wants(start, t, kind, x));
    }
    assert forall|x: usize| #[trigger] marks(last, kind).contains(x) && !marks(before, kind).contains(x) implies has_statement(m, e, kind, x) by {
        assert(marks(after, kind).contains(x));
    }
}

/// Emits the clauses of an assertion: the definitions of the formula, its literal by itself, how the
/// sides of the equalities that `s` denies compare, and what the laws of datatypes say of its terms.
pub fn encode_assertion(e: &mut Encoder, rec: &mut Records, m: &mut TermManager, t: TermId, s: TermId)
    requires
        linked(old(m), old(e)),
        old(m).has(t),
        old(m).has(s),
    ensures
        asserts(old(m), old(e), final(m), final(e), t),
        old(rec).reverts(final(rec)),
        final(rec)@ == (RecordsView {
            covered: final(rec)@.covered,
            selected: final(rec)@.selected,
            tested: final(rec)@.tested,
            ..old(rec)@
        }),
        marked(old(m), t, Mark::Cover, old(rec)@, final(rec)@),
        marked(old(m), t, Mark::Select, old(rec)@, final(rec)@),
        marked(old(m), t, Mark::Test, old(rec)@, final(rec)@),
        backed(final(m), final(e), Mark::Cover, old(rec)@, final(rec)@),
        backed(final(m), final(e), Mark::Select, old(rec)@, final(rec)@),
        backed(final(m), final(e), Mark::Test, old(rec)@, final(rec)@),
        forall|x: usize| #[trigger] leads(old(m), s, x) && is_diseq(old(m), x) ==> is_split(final(m), final(e), old(m).arg(x, 0)),
        final(e).has_quantifiers == (old(e).has_quantifiers || assertion_quantified(old(m), t, old(rec)@)),
{
    let ghost m0 = *m;
    let ghost e0 = *e;
    let ghost r0 = *rec;
    let l = e.encode(t, m);
    let ghost m1 = *m;
    let ghost e1 = *e;
    let c = clause1(l);
    e.add_clause(c);
    let ghost e2 = *e;
    proof {
        lemma_quantifier(&e0, &e1, &m0, t);
        lemma_extended_self(&m1);
        lemma_linked_tables(&m1, &e1, &e2);
        lemma_asserts(&m0, &e0, &m1, &e1, &e2, t);
    }
    e.add_arith_diseq_split(s, m);
    let ghost m3 = *m;
    let ghost e3 = *e;
    proof {
        lemma_asserts_enriched(&m0, &e0, &m1, &e2, &m3, &e3, t);
        assert forall|x: usize| #[trigger] leads(&m0, s, x) && is_diseq(&m0, x) implies is_split(&m3, &e3, m0.arg(x, 0)) by {
            lemma_leads_stays(&m0, &m1, s, x);
            lemma_diseq_stays(&m0, &m1, x);
            assert(leads(&m1, s, x) && is_diseq(&m1, x));
            assert(split_stated(&m1, unbound(), &m3, &e3, m1.arg(x, 0)));
        }
    }
    let open = e.add_dt_cover_axioms(t, m, &mut rec.dt_cover_done);
    let ghost m4 = *m;
    let ghost e4 = *e;
    rec.note_marks(&open, Mark::Cover, Ghost(r0));
    let ghost r4 = *rec;
    proof {
        lemma_asserts_enriched(&m0, &e0, &m3, &e3, &m4, &e4, t);
        assert forall|x: usize| #[trigger] marks(r4@, Mark::Cover).contains(x) <==> marks(r0@, Mark::Cover).contains(x) || wants(
            &m0,
            t,
            Mark::Cover,
            x,
        ) by {
            lemma_occurs_stays(&m0, &m3, t, x);
            if occurs(&m0, t, x) {
                lemma_open_stays(&m0, &m3, x);
            }
        }
        assert forall|x: usize| #[trigger] marks(r4@, Mark::Cover).contains(x) && !marks(r0@, Mark::Cover).contains(x) implies has_statement(
            &m4,
            &e4,
            Mark::Cover,
            x,
        ) by {
            assert(open@.contains(x));
            assert(covered(&m3, unbound(), &m4, &e4, x));
        }
    }
    let mut roots: Vec<TermId> = Vec::new();
    roots.push(t);
    let none: FxHashMap<usize, TermId> = map_new();
    let fields = e.add_dt_selector_reduction_axioms_over(&roots, &none, m, &mut rec.dt_selector_reduced);
    let ghost m5 = *m;
    let ghost e5 = *e;
    rec.note_marks(&fields, Mark::Select, Ghost(r4));
    let ghost r5 = *rec;
    proof {
        assert(none@ =~= unbound());
        lemma_asserts_enriched(&m0, &e0, &m4, &e4, &m5, &e5, t);
        lemma_reverts(&r0, &r4, &r5);
        assert forall|x: usize| #[trigger] marks(r5@, Mark::Select).contains(x) <==> marks(r0@, Mark::Select).contains(x) || wants(
            &m0,
            t,
            Mark::Select,
            x,
        ) by {
            lemma_occurs_stays(&m0, &m4, t, x);
            lemma_one_root(&m4, roots@, t, x);
            if occurs(&m0, t, x) {
                lemma_reductions_stay(&m0, &m4, unbound(), x);
            }
        }
        assert forall|x: usize| #[trigger] marks(r5@, Mark::Select).contains(x) && !marks(r0@, Mark::Select).contains(x) implies has_statement(
            &m5,
            &e5,
            Mark::Select,
            x,
        ) by {
            assert(fields@.contains(x));
            assert(field_stated(&m4, unbound(), &m5, &e5, x));
        }
        lemma_backed_stays(&m4, &m5, &e4, &e5, Mark::Cover, r0@, r4@);
        assert forall|x: usize| #[trigger] fields@.contains(x) <==> occurs(&m4, t, x) && takes(&m4, unbound(), x) is Some && !marks(
            r0@,
            Mark::Select,
        ).contains(x) by {
            lemma_one_root(&m4, roots@, t, x);
        }
        lemma_fields_quantified(&m0, &m4, t, r0@, fields@);
    }
    let outcomes = e.add_dt_tester_reduction_axioms_over(&roots, &none, m, &mut rec.dt_tester_reduced);
    let ghost r6 = *rec;
    rec.note_marks(&outcomes, Mark::Test, Ghost(r5));
    proof {
        lemma_asserts_enriched(&m0, &e0, &m5, &e5, m, e, t);
        lemma_reverts(&r0, &r5, rec);
        assert forall|x: usize| #[trigger] marks(rec@, Mark::Test).contains(x) <==> marks(r0@, Mark::Test).contains(x) || wants(
            &m0,
            t,
            Mark::Test,
            x,
        ) by {
            lemma_occurs_stays(&m0, &m5, t, x);
            lemma_one_root(&m5, roots@, t, x);
            if occurs(&m0, t, x) {
                lemma_reductions_stay(&m0, &m5, unbound(), x);
            }
        }
        assert forall|x: usize| #[trigger] marks(rec@, Mark::Test).contains(x) && !marks(r0@, Mark::Test).contains(x) implies has_statement(
            m,
            e,
            Mark::Test,
            x,
        ) by {
            assert(outcomes@.contains(x));
            assert(test_stated(&m5, unbound(), m, e, x));
        }
        lemma_backed_stays(&m5, m, &e5, e, Mark::Cover, r0@, r4@);
        lemma_backed_stays(&m5, m, &e5, e, Mark::Select, r0@, r5@);
        lemma_same_marks(&m0, m, e, t, Mark::Cover, r0@, r4@, rec@);
        lemma_same_marks(&m0, m, e, t, Mark::Select, r0@, r5@, rec@);
        lemma_advances(&e3, &e4, &e5);
        lemma_advances(&e3, &e5, e);
        lemma_extended_twice(&m3, &m4, &m5);
        lemma_extended_twice(&m3, &m5, m);
        assert forall|x: usize| #[trigger] leads(&m0, s, x) && is_diseq(&m0, x) implies is_split(m, e, m0.arg(x, 0)) by {
            lemma_statements_stay(&m3, m, &e3, e, m0.arg(x, 0));
        }
    }
}

/// What occurs in the only formula of a list.
proof fn lemma_one_root(m: &TermManager, roots: Seq<TermId>, t: TermId, x: TermId)
    requires
        roots == seq![t],
    ensures
        occurs_in(m, roots, roots.len() as int, x) == occurs(m, t, x),
{
    if occurs(m, t, x) {
        assert(occurs(m, roots[0], x));
    }
    if occurs_in(m, roots, roots.len() as int, x) {
        let i = choose|i: int| 0 <= i < roots.len() && occurs(m, #[trigger] roots[i], x);
    }
}

} // verus!
