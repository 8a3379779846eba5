//! What assertions and checks promise.
use crate::assertion::asserts;
use crate::assertion::unbound;
use crate::axiom_laws::law_axiom_holds;
use crate::axiom_laws::obeys;
use crate::axioms::Axiom;
use crate::axioms::clause_of;
use crate::axioms::fits;
use crate::axioms::from_axiom;
use crate::axioms::in_place;
use crate::axioms::lemma_axiom_stays;
use crate::axioms::lemma_extended_twice;
use crate::check::reduces;
use crate::cnf::Assignment;
use crate::cnf::Lit;
use crate::cnf::clause_true;
use crate::cnf::lit_true;
use crate::context::RecordsView;
use crate::dt_facts::ctor_of;
use crate::dt_facts::is_ctor;
use crate::dt_model::DtModel;
use crate::dt_model::all_true;
use crate::dt_model::is_model;
use crate::dt_model::lemma_equality_truth;
use crate::dt_model::reads;
use crate::dt_model::well_typed;
use crate::encode::encoded;
use crate::encode::lemma_encoded_extends;
use crate::encode::lemma_lit_truth;
use crate::encode::lemma_valid_extends;
use crate::encode::linked;
use crate::encode::lit_of;
use crate::encode::sigma;
use crate::encode::valid;
use crate::encode_laws::agrees;
use crate::encode_laws::law_encoding_is_exact;
use crate::encode_laws::satisfies;
use crate::encoder::Encoder;
use crate::linear::Valuation;
use crate::semantics::Reading;
use crate::semantics::is_bool;
use crate::semantics::truth;
use crate::solver::Solver;
use crate::solver::clashes;
use crate::solver::given_constructor;
use crate::solver::with_constructor;
use crate::term::Op;
use crate::term::Symbol;
use crate::term::TermId;
use crate::term::TermManager;
use vstd::prelude::*;

verus! {

/// An assignment that satisfies the clauses makes the asserted formula true.
pub proof fn law_asserted_formula_is_true(
    m: &TermManager,
    e: &Encoder,
    later: &TermManager,
    f: &Encoder,
    t: TermId,
    a: Assignment,
    r: Reading,
)
    requires
        asserts(m, e, later, f, t),
        satisfies(a, f),
        agrees(later, f, a, r),
    ensures
        truth(later, r, t),
{
    law_encoding_is_exact(later, f, a, r, t);
    let l = lit_of(later, f, t);
    let i = choose|i: int| 0 <= i < f.clauses@.len() && (#[trigger] f.clauses@[i])@ == seq![l];
    assert(clause_true(a, f.clauses@[i]@));
    let k = choose|k: int| 0 <= k < f.clauses@[i]@.len() && lit_true(a, #[trigger] f.clauses@[i]@[k]);
    assert(f.clauses@[i]@[k] == l);
}

/// Asserting a formula rules out nothing else: a reading under which it is true, and which obeys
/// the laws of numbers and datatypes, makes every new clause true when variables are read as their
/// formulas.
pub proof fn law_assertion_is_conservative(
    m: &TermManager,
    e: &Encoder,
    later: &TermManager,
    f: &Encoder,
    t: TermId,
    r: Reading,
    d: DtModel,
    v: Valuation,
    i: int,
)
    requires
        asserts(m, e, later, f, t),
        obeys(later, unbound(), r, d, v),
        truth(later, r, t),
        e.clauses@.len() <= i < f.clauses@.len(),
    ensures
        clause_true(sigma(later, f, r), f.clauses@[i]@),
{
    let c = f.clauses@[i]@;
    if valid(later, f, c) {
    } else if from_axiom(unbound(), later, f, c) {
        lemma_axiom_true(later, f, unbound(), r, d, v, c);
    } else {
        lemma_lit_truth(later, f, r, t);
        assert(lit_true(sigma(later, f, r), c[0]));
    }
}

/// Formulas that give one variable different constructors are not true together.
pub proof fn law_clash_is_unsatisfiable(
    m: &TermManager,
    r: Reading,
    d: DtModel,
    f: TermId,
    g: TermId,
    x: TermId,
    one: Symbol,
    other: Symbol,
)
    requires
        m.wf(),
        m.has(f),
        m.has(g),
        well_typed(m),
        is_model(m, d),
        reads(m, r, d),
        given_constructor(m, f) == Some((x, one)),
        given_constructor(m, g) == Some((x, other)),
        one != other,
    ensures
        !(truth(m, r, f) && truth(m, r, g)),
{
    if truth(m, r, f) && truth(m, r, g) {
        lemma_given(m, r, d, f, x, one);
        lemma_given(m, r, d, g, x, other);
    }
}

/// A variable has the constructor that a true formula gives it.
proof fn lemma_given(m: &TermManager, r: Reading, d: DtModel, f: TermId, x: TermId, ctor: Symbol)
    requires
        m.wf(),
        m.has(f),
        well_typed(m),
        is_model(m, d),
        reads(m, r, d),
        given_constructor(m, f) == Some((x, ctor)),
        truth(m, r, f),
    ensures
        (d.kind)((d.val)(x)) == ctor,
{
    assert(m.terms@[f as int].fits(f as int));
    let a = m.arg(f, 0);
    let b = m.arg(f, 1);
    assert(is_bool(m, a) ==> is_bool(m, b));
    lemma_equality_truth(m, r, d, f, a, b);
    assert((d.val)(a) == (d.val)(b));
    if is_ctor(m, a) {
        assert((d.kind)((d.val)(a)) == ctor_of(m, a));
    }
    if is_ctor(m, b) {
        assert((d.kind)((d.val)(b)) == ctor_of(m, b));
    }
}

/// The clause says that one of the formulas is true.
pub open spec fn is_stated(m: &TermManager, e: &Encoder, formulas: Seq<TermId>, c: Seq<Lit>) -> bool {
    exists|k: int|
        0 <= k < formulas.len() && m.has(#[trigger] formulas[k]) && encoded(m, e, formulas[k]) && c == seq![lit_of(m, e, formulas[k])]
}

/// The clause is an axiom under one of the given bindings of variables.
pub open spec fn is_axiom_under(m: &TermManager, e: &Encoder, sources: Seq<Map<usize, TermId>>, c: Seq<Lit>) -> bool {
    exists|j: int| 0 <= j < sources.len() && from_axiom(#[trigger] sources[j], m, e, c)
}

/// Every clause is a definition, says that one of the formulas is true, or is an axiom, if not
/// outright then under one of the given bindings of variables.
pub open spec fn is_explained(m: &TermManager, e: &Encoder, formulas: Seq<TermId>, sources: Seq<Map<usize, TermId>>) -> bool {
    forall|i: int| 0 <= i < e.clauses@.len() ==> is_explained_clause(m, e, formulas, sources, (#[trigger] e.clauses@[i])@)
}

/// What a clause comes from.
pub open spec fn is_explained_clause(
    m: &TermManager,
    e: &Encoder,
    formulas: Seq<TermId>,
    sources: Seq<Map<usize, TermId>>,
    c: Seq<Lit>,
) -> bool {
    ||| valid(m, e, c)
    ||| is_stated(m, e, formulas, c)
    ||| from_axiom(unbound(), m, e, c)
    ||| is_axiom_under(m, e, sources, c)
}

/// A clause that comes from an axiom keeps doing so.
proof fn lemma_from_axiom_stays(
    binds: Map<usize, TermId>,
    m: &TermManager,
    later: &TermManager,
    e: &Encoder,
    f: &Encoder,
    c: Seq<Lit>,
)
    requires
        m.wf(),
        later.wf(),
        m.extended_by(later),
        e.grows(f),
        from_axiom(binds, m, e, c),
    ensures
        from_axiom(binds, later, f, c),
{
    let (start, x) = choose|start: TermManager, x: Axiom| #[trigger]
        fits(&start, binds, m, x) && start.wf() && start.extended_by(m) && in_place(m, e, x) && c == clause_of(m, e, x);
    lemma_axiom_stays(&start, binds, m, later, e, f, x);
    lemma_extended_twice(&start, m, later);
    assert(fits(&start, binds, later, x));
}

/// What a clause comes from, it keeps coming from; more formulas and bindings do no harm.
proof fn lemma_explained_stays(
    m: &TermManager,
    e: &Encoder,
    later: &TermManager,
    f: &Encoder,
    formulas: Seq<TermId>,
    more: Seq<TermId>,
    sources: Seq<Map<usize, TermId>>,
    others: Seq<Map<usize, TermId>>,
    c: Seq<Lit>,
)
    requires
        m.wf(),
        later.wf(),
        m.extended_by(later),
        e.grows(f),
        is_explained_clause(m, e, formulas, sources, c),
        formulas.len() <= more.len(),
        forall|k: int| 0 <= k < formulas.len() ==> #[trigger] more[k] == formulas[k],
        sources.len() <= others.len(),
        forall|j: int| 0 <= j < sources.len() ==> #[trigger] others[j] == sources[j],
    ensures
        is_explained_clause(later, f, more, others, c),
{
    if valid(m, e, c) {
        lemma_valid_extends(m, later, e, f, c);
    } else if is_stated(m, e, formulas, c) {
        let k = choose|k: int|
            0 <= k < formulas.len() && m.has(#[trigger] formulas[k]) && encoded(m, e, formulas[k]) && c == seq![lit_of(m, e, formulas[k])];
        lemma_encoded_extends(m, later, e, f, formulas[k]);
        assert(more[k] == formulas[k]);
        assert(is_stated(later, f, more, c));
    } else if from_axiom(unbound(), m, e, c) {
        lemma_from_axiom_stays(unbound(), m, later, e, f, c);
    } else {
        let j = choose|j: int| 0 <= j < sources.len() && from_axiom(#[trigger] sources[j], m, e, c);
        lemma_from_axiom_stays(sources[j], m, later, e, f, c);
        assert(others[j] == sources[j]);
        assert(is_axiom_under(later, f, others, c));
    }
}

/// Asserting a formula leaves every clause explained: by what explained it before, or by the
/// formula.
pub proof fn law_assertion_is_explained(
    m: &TermManager,
    e: &Encoder,
    later: &TermManager,
    f: &Encoder,
    formulas: Seq<TermId>,
    sources: Seq<Map<usize, TermId>>,
    t: TermId,
)
    requires
        linked(m, e),
        is_explained(m, e, formulas, sources),
        asserts(m, e, later, f, t),
    ensures
        is_explained(later, f, formulas.push(t), sources),
{
    let more = formulas.push(t);
    assert forall|i: int| 0 <= i < f.clauses@.len() implies is_explained_clause(later, f, more, sources, (#[trigger] f.clauses@[i])@) by {
        let c = f.clauses@[i]@;
        if i < e.clauses@.len() {
            assert(f.clauses@[i] == e.clauses@[i]);
            lemma_explained_stays(m, e, later, f, formulas, more, sources, sources, c);
        } else if !valid(later, f, c) && !from_axiom(unbound(), later, f, c) {
            assert(more[formulas.len() as int] == t);
            assert(is_stated(later, f, more, c));
        }
    }
}

/// Deciding selectors and tests by bindings of variables leaves every clause explained: by what
/// explained it before, or by the bindings.
pub proof fn law_reduction_is_explained(
    m: &TermManager,
    s: &Solver,
    binds: Map<usize, TermId>,
    later: &TermManager,
    after: &Solver,
    formulas: Seq<TermId>,
    sources: Seq<Map<usize, TermId>>,
)
    requires
        s.wf(m),
        is_explained(m, &s.encoder, formulas, sources),
        reduces(m, s, binds, later, after),
    ensures
        is_explained(later, &after.encoder, formulas, sources.push(binds)),
{
    let e = &s.encoder;
    let f = &after.encoder;
    let others = sources.push(binds);
    assert forall|i: int| 0 <= i < f.clauses@.len() implies is_explained_clause(later, f, formulas, others, (#[trigger] f.clauses@[i])@) by {
        let c = f.clauses@[i]@;
        if i < e.clauses@.len() {
            assert(f.clauses@[i] == e.clauses@[i]);
            lemma_explained_stays(m, e, later, f, formulas, formulas, sources, others, c);
        } else if !valid(later, f, c) {
            assert(others[sources.len() as int] == binds);
            assert(is_axiom_under(later, f, others, c));
        }
    }
}

/// Clauses that are not satisfiable refute the formulas: a reading under which they are all true,
/// which obeys the laws of numbers and datatypes and under which variables have the values that
/// they are bound to, satisfies every clause when variables are read as their formulas.
pub proof fn law_true_formulas_satisfy_the_clauses(
    m: &TermManager,
    e: &Encoder,
    formulas: Seq<TermId>,
    sources: Seq<Map<usize, TermId>>,
    r: Reading,
    d: DtModel,
    v: Valuation,
)
    requires
        linked(m, e),
        is_explained(m, e, formulas, sources),
        all_true(m, r, formulas),
        obeys(m, unbound(), r, d, v),
        forall|j: int| 0 <= j < sources.len() ==> obeys(m, #[trigger] sources[j], r, d, v),
    ensures
        satisfies(sigma(m, e, r), e),
{
    let a = sigma(m, e, r);
    assert forall|i: int| 0 <= i < e.clauses@.len() implies clause_true(a, (#[trigger] e.clauses@[i])@) by {
        let c = e.clauses@[i]@;
        assert(is_explained_clause(m, e, formulas, sources, c));
        if valid(m, e, c) {
            assert(clause_true(sigma(m, e, r), c));
        } else if is_stated(m, e, formulas, c) {
            let k = choose|k: int|
                0 <= k < formulas.len() && m.has(#[trigger] formulas[k]) && encoded(m, e, formulas[k]) && c == seq![lit_of(m, e, formulas[k])];
            lemma_lit_truth(m, e, r, formulas[k]);
            assert(truth(m, r, formulas[k]));
            assert(lit_true(a, c[0]));
        } else if from_axiom(unbound(), m, e, c) {
            lemma_axiom_true(m, e, unbound(), r, d, v, c);
        } else {
            let j = choose|j: int| 0 <= j < sources.len() && from_axiom(#[trigger] sources[j], m, e, c);
            lemma_axiom_true(m, e, sources[j], r, d, v, c);
        }
    }
}

/// A clause that comes from an axiom is true.
proof fn lemma_axiom_true(
    m: &TermManager,
    e: &Encoder,
    binds: Map<usize, TermId>,
    r: Reading,
    d: DtModel,
    v: Valuation,
    c: Seq<Lit>,
)
    requires
        linked(m, e),
        obeys(m, binds, r, d, v),
        from_axiom(binds, m, e, c),
    ensures
        clause_true(sigma(m, e, r), c),
{
    let (start, x) = choose|start: TermManager, x: Axiom| #[trigger]
        fits(&start, binds, m, x) && start.wf() && start.extended_by(m) && in_place(m, e, x) && c == clause_of(m, e, x);
    law_axiom_holds(&start, binds, m, e, x, r, d, v);
}

/// An equality between a variable and a constructor application, either way round, gives the variable
/// its constructor: the first is kept, and another one clashes with it.
pub proof fn law_constructors_of_variables_are_kept(m: &TermManager, c: RecordsView, f: TermId, x: TermId, k: TermId, ctor: Symbol)
    requires
        m.has(f),
        m.op(f) == Op::Eq,
        m.has(x),
        m.op(x) is Var,
        m.has(k),
        m.op(k) == Op::DtConstructor(ctor),
        (m.arg(f, 0) == x && m.arg(f, 1) == k) || (m.arg(f, 0) == k && m.arg(f, 1) == x),
    ensures
        with_constructor(m, c, f).constructors.contains_key(x),
        c.constructors.contains_key(x) ==> with_constructor(m, c, f).constructors == c.constructors,
        !c.constructors.contains_key(x) ==> with_constructor(m, c, f).constructors == c.constructors.insert(x, ctor),
        clashes(m, c, f) <==> c.constructors.contains_key(x) && c.constructors[x] != ctor,
{
}

} // verus!
