//! Instances of quantified formulas: which are taken, and the clauses that guard them.
use crate::assertion::lemma_occurs_stays;
use crate::axioms::lemma_extended_twice;
use crate::cnf::clause_true;
use crate::cnf::flip;
use crate::cnf::lemma_flip;
use crate::cnf::lit_true;
use crate::cnf::pos;
use crate::cnf::Assignment;
use crate::cnf::Lit;
use crate::emission::lemma_finds_extends;
use crate::emission::lemma_quantifier;
use crate::emission::quantified;
use crate::emission::Find;
use crate::encode::clause1;
use crate::encode::clause2;
use crate::encode::encoded;
use crate::encode::lemma_clause2;
use crate::encode::lemma_encoded_extends;
use crate::encode::lemma_linked_tables;
use crate::encode::lemma_lit_truth;
use crate::encode::lemma_step;
use crate::encode::lemma_step_self;
use crate::encode::lemma_valid_extends;
use crate::encode::linked;
use crate::encode::lit_of;
use crate::encode::sigma;
use crate::encode::step;
use crate::encode::valid;
use crate::encoder::lemma_advances;
use crate::encoder::Encoder;
use crate::maps::map_get;
use crate::semantics::truth;
use crate::semantics::Reading;
use crate::term::Op;
use crate::term::Symbol;
use crate::term::TermId;
use crate::term::TermManager;
use crate::track::lemma_extended_self;
use crate::walk::is_binder;
use crate::walk::occurs;
use crate::walk::subterms;
use vstd::prelude::*;

verus! {

/// `x` is `t` or stands under it outside binders.
pub open spec fn is_part(m: &TermManager, t: TermId, x: TermId) -> bool {
    occurs(m, t, x)
}

/// The name is one that a quantifier binds.
pub open spec fn binds_name(m: &TermManager, q: TermId, n: Symbol) -> bool {
    is_binder(m, q) && exists|i: int| 0 <= i < m.terms@[q as int].binders@.len() && (#[trigger] m.terms@[q as int].binders@[i]).0 == n
}

/// A variable with one of the names occurs free in `t`.
pub open spec fn retains(m: &TermManager, t: TermId, names: Seq<Symbol>) -> bool
    decreases t,
{
    exists|x: TermId| #[trigger]
        is_part(m, t, x) && m.has(x) && x <= t && match m.op(x) {
            Op::Var(n) => names.contains(n),
            Op::Forall | Op::Exists => m.arg(x, 0) < x && retains(m, m.arg(x, 0), names.filter(|n: Symbol| !binds_name(m, x, n))),
            _ => false,
        }
}

/// The names that a quantifier binds.
pub open spec fn bound_names(m: &TermManager, q: TermId) -> Seq<Symbol> {
    if is_binder(m, q) {
        m.terms@[q as int].binders@.map_values(|b: (Symbol, usize)| b.0)
    } else {
        Seq::empty()
    }
}

/// The names that the quantifier does not bind.
fn unbound_names(m: &TermManager, q: TermId, names: &Vec<Symbol>) -> (r: Vec<Symbol>)
    requires
        m.has(q),
        is_binder(m, q),
    ensures
        r@ == names@.filter(|n: Symbol| !binds_name(m, q, n)),
{
    let ghost keep = |n: Symbol| !binds_name(m, q, n);
    let mut r: Vec<Symbol> = Vec::new();
    let mut i: usize = 0;
    assert(names@.take(0).filter(keep) =~= Seq::<Symbol>::empty()) by {
        reveal(Seq::filter);
    }
    while i < names.len()
        invariant
            i <= names.len(),
            m.has(q),
            is_binder(m, q),
            keep == |n: Symbol| !binds_name(m, q, n),
            r@ == names@.take(i as int).filter(keep),
        decreases names.len() - i,
    {
        let n: usize = names[i];
        let mut j: usize = 0;
        let mut bound = false;
        while j < m.terms[q].binders.len()
            invariant
                j <= m.terms@[q as int].binders@.len(),
                m.has(q),
                bound <==> exists|k: int| 0 <= k < j && (#[trigger] m.terms@[q as int].binders@[k]).0 == n,
            decreases m.terms@[q as int].binders@.len() - j,
        {
            if m.terms[q].binders[j].0 == n {
                bound = true;
            }
            j = j + 1;
        }
        proof {
            assert(bound == binds_name(m, q, n));
            assert(names@.take(i + 1).drop_last() =~= names@.take(i as int));
            reveal(Seq::filter);
        }
        if !bound {
            r.push(n);
        }
        i = i + 1;
    }
    assert(names@.take(i as int) =~= names@);
    r
}

/// Whether a variable with one of the names occurs free in `t`.
pub fn retains_bound(m: &TermManager, t: TermId, names: &Vec<Symbol>) -> (r: bool)
    requires
        m.wf(),
        m.has(t),
    ensures
        r == retains(m, t, names@),
    decreases t,
{
    let mut roots: Vec<TermId> = Vec::new();
    roots.push(t);
    let parts = subterms(m, &roots);
    assert forall|x: TermId| #[trigger] parts@.contains(x) <==> is_part(m, t, x) by {
        if is_part(m, t, x) {
            assert(occurs(m, roots@[0], x));
        }
    }
    let mut i: usize = 0;
    while i < parts.len()
        invariant
            i <= parts.len(),
            m.wf(),
            m.has(t),
            forall|x: TermId| #[trigger] parts@.contains(x) <==> is_part(m, t, x),
            forall|k: int|
                0 <= k < i ==> m.has(#[trigger] parts@[k]) && parts@[k] <= t && !(match m.op(parts@[k]) {
                    Op::Var(n) => names@.contains(n),
                    Op::Forall | Op::Exists => m.arg(parts@[k], 0) < parts@[k] && retains(
                        m,
                        m.arg(parts@[k], 0),
                        names@.filter(|n: Symbol| !binds_name(m, parts@[k], n)),
                    ),
                    _ => false,
                }),
        decreases parts.len() - i,
    {
        let x: usize = parts[i];
        proof {
            assert(parts@.contains(x));
            crate::walk::lemma_occurs_below(m, t, x);
            assert(m.terms@[x as int].fits(x as int));
        }
        match m.terms[x].op {
            Op::Var(n) => {
                let mut j: usize = 0;
                while j < names.len()
                    invariant
                        j <= names.len(),
                        forall|k: int| 0 <= k < j ==> names@[k] != n,
                        is_part(m, t, x) && m.has(x) && x <= t && m.op(x) == Op::Var(n),
                    decreases names.len() - j,
                {
                    if names[j] == n {
                        assert(names@.contains(n));
                        return true;
                    }
                    j = j + 1;
                }
                assert(!names@.contains(n));
            },
            Op::Forall | Op::Exists => {
                let rest = unbound_names(m, x, names);
                let body: usize = m.terms[x].args[0];
                if retains_bound(m, body, &rest) {
                    return true;
                }
            },
            _ => {},
        }
        i = i + 1;
    }
    assert(!retains(m, t, names@)) by {
        if retains(m, t, names@) {
            let x = choose|x: TermId| #[trigger]
                is_part(m, t, x) && m.has(x) && x <= t && match m.op(x) {
                    Op::Var(n) => names@.contains(n),
                    Op::Forall | Op::Exists => m.arg(x, 0) < x && retains(
                        m,
                        m.arg(x, 0),
                        names@.filter(|n: Symbol| !binds_name(m, x, n)),
                    ),
                    _ => false,
                };
            assert(parts@.contains(x));
            let k = choose|k: int| 0 <= k < parts@.len() && parts@[k] == x;
            assert(m.has(parts@[k]));
        }
    }
    false
}

/// The literal stands for `t`.
pub open spec fn is_guard(m: &TermManager, e: &Encoder, t: TermId, l: Lit) -> bool {
    &&& m.has(t)
    &&& (e.term_to_var@.contains_key(t) && l == pos(e.var(t))) || (encoded(m, e, t) && l == lit_of(m, e, t))
}

/// The lemma is dropped: it is an instance in which a variable of its quantifier is left.
pub open spec fn is_dropped(m: &TermManager, l: TermId) -> bool {
    m.op(l) == Op::Implies && retains(m, m.arg(l, 1), bound_names(m, m.arg(l, 0)))
}

/// The clause says that `phi` is true unless the literal `g`, which stands for `q`, is false.
pub open spec fn is_guarded(m: &TermManager, e: &Encoder, q: TermId, phi: TermId, g: Lit, c: Seq<Lit>) -> bool {
    &&& is_guard(m, e, q, g)
    &&& m.op(phi) == Op::False ==> c == seq![flip(g)]
    &&& m.op(phi) != Op::False ==> encoded(m, e, phi) && c == seq![flip(g), lit_of(m, e, phi)]
}

/// The clause says what the lemma says: an instance holds if its quantifier does, and any other
/// formula holds.
pub open spec fn is_lemma_clause(m: &TermManager, e: &Encoder, l: TermId, c: Seq<Lit>) -> bool {
    if m.op(l) == Op::Implies {
        exists|g: Lit| #[trigger] is_guarded(m, e, m.arg(l, 0), m.arg(l, 1), g, c)
    } else {
        encoded(m, e, l) && c == seq![lit_of(m, e, l)]
    }
}

/// The clause of a lemma is there.
pub open spec fn has_lemma(m: &TermManager, e: &Encoder, l: TermId) -> bool {
    exists|i: int| 0 <= i < e.clauses@.len() && is_lemma_clause(m, e, l, (#[trigger] e.clauses@[i])@)
}

/// The clause comes from one of the first `n` lemmas.
pub open spec fn from_lemma(m: &TermManager, e: &Encoder, lemmas: Seq<TermId>, n: int, c: Seq<Lit>) -> bool {
    exists|k: int| 0 <= k < n && !is_dropped(m, lemmas[k]) && is_lemma_clause(m, e, #[trigger] lemmas[k], c)
}

/// The bodies of the instances among the first `n` lemmas.
pub open spec fn bodies(m: &TermManager, lemmas: Seq<TermId>, n: int) -> Seq<TermId>
    decreases n,
{
    if n <= 0 {
        Seq::empty()
    } else {
        let l = lemmas[n - 1];
        let before = bodies(m, lemmas, n - 1);
        if m.op(l) == Op::Implies && !is_dropped(m, l) {
            before.push(m.arg(l, 1))
        } else {
            before
        }
    }
}

/// A lemma that is not dropped brings a quantified formula: by what it says or, if `guards`, by what
/// guards it.
pub open spec fn lemma_quantified(m: &TermManager, l: TermId, guards: bool) -> bool {
    !is_dropped(m, l) && if m.op(l) == Op::Implies {
        quantified(m, m.arg(l, 1)) || (guards && quantified(m, m.arg(l, 0)))
    } else {
        quantified(m, l)
    }
}

/// One of the first `n` lemmas brings a quantified formula.
pub open spec fn lemmas_quantified(m: &TermManager, lemmas: Seq<TermId>, n: int, guards: bool) -> bool {
    exists|k: int| 0 <= k < n && lemma_quantified(m, #[trigger] lemmas[k], guards)
}

/// The second pair of store and tables is the first with the clauses of the first `n` lemmas that
/// are not dropped; every other new clause is a definition. There are quantified formulas where
/// there were some or a lemma says one, and only there or where one guards a lemma.
pub open spec fn instantiates(
    m: &TermManager,
    e: &Encoder,
    later: &TermManager,
    f: &Encoder,
    lemmas: Seq<TermId>,
    n: int,
) -> bool {
    &&& linked(later, f)
    &&& m.extended_by(later)
    &&& e.advances(f)
    &&& forall|k: int| 0 <= k < n && !is_dropped(m, #[trigger] lemmas[k]) ==> has_lemma(later, f, lemmas[k])
    &&& forall|i: int|
        e.clauses@.len() <= i < f.clauses@.len() ==> valid(later, f, (#[trigger] f.clauses@[i])@) || from_lemma(
            later,
            f,
            lemmas,
            n,
            f.clauses@[i]@,
        )
    &&& f.has_quantifiers ==> e.has_quantifiers || lemmas_quantified(m, lemmas, n, true)
    &&& lemmas_quantified(m, lemmas, n, false) ==> f.has_quantifiers
}

/// What a variable occurs free in does not change when the store grows.
proof fn lemma_retains_stays(m: &TermManager, later: &TermManager, t: TermId, names: Seq<Symbol>)
    requires
        m.wf(),
        later.wf(),
        m.extended_by(later),
        m.has(t),
    ensures
        retains(later, t, names) == retains(m, t, names),
    decreases t,
{
    if retains(m, t, names) {
        let x = choose|x: TermId| #[trigger]
            is_part(m, t, x) && m.has(x) && x <= t && match m.op(x) {
                Op::Var(n) => names.contains(n),
                Op::Forall | Op::Exists => m.arg(x, 0) < x && retains(m, m.arg(x, 0), names.filter(|n: Symbol| !binds_name(m, x, n))),
                _ => false,
            };
        lemma_occurs_stays(m, later, t, x);
        assert(later.terms@[x as int] == m.terms@[x as int]);
        if is_binder(m, x) {
            lemma_names_stay(m, later, x, names);
            lemma_retains_stays(m, later, m.arg(x, 0), names.filter(|n: Symbol| !binds_name(m, x, n)));
        }
        assert(is_part(later, t, x));
    }
    if retains(later, t, names) {
        let x = choose|x: TermId| #[trigger]
            is_part(later, t, x) && later.has(x) && x <= t && match later.op(x) {
                Op::Var(n) => names.contains(n),
                Op::Forall | Op::Exists => later.arg(x, 0) < x && retains(
                    later,
                    later.arg(x, 0),
                    names.filter(|n: Symbol| !binds_name(later, x, n)),
                ),
                _ => false,
            };
        lemma_occurs_stays(m, later, t, x);
        assert(later.terms@[x as int] == m.terms@[x as int]);
        if is_binder(m, x) {
            lemma_names_stay(m, later, x, names);
            lemma_retains_stays(m, later, m.arg(x, 0), names.filter(|n: Symbol| !binds_name(m, x, n)));
        }
        assert(is_part(m, t, x));
    }
}

/// The names that a quantifier does not bind stay the same when the store grows.
proof fn lemma_names_stay(m: &TermManager, later: &TermManager, q: TermId, names: Seq<Symbol>)
    requires
        m.extended_by(later),
        m.has(q),
    ensures
        names.filter(|n: Symbol| !binds_name(later, q, n)) == names.filter(|n: Symbol| !binds_name(m, q, n)),
{
    assert(later.terms@[q as int] == m.terms@[q as int]);
    let f = |n: Symbol| !binds_name(later, q, n);
    let g = |n: Symbol| !binds_name(m, q, n);
    assert forall|n: Symbol| #[trigger] f(n) == g(n) by {
        assert(is_binder(later, q) == is_binder(m, q));
    }
    assert(f =~= g);
}

/// Which lemmas are dropped does not change when the store grows.
proof fn lemma_dropped_stays(m: &TermManager, later: &TermManager, l: TermId)
    requires
        m.wf(),
        later.wf(),
        m.extended_by(later),
        m.has(l),
    ensures
        is_dropped(later, l) == is_dropped(m, l),
        later.terms@[l as int] == m.terms@[l as int],
{
    assert(later.terms@[l as int] == m.terms@[l as int]);
    assert(m.terms@[l as int].fits(l as int));
    if m.op(l) == Op::Implies {
        let q = m.arg(l, 0);
        assert(later.terms@[q as int] == m.terms@[q as int]);
        assert(bound_names(later, q) == bound_names(m, q));
        lemma_retains_stays(m, later, m.arg(l, 1), bound_names(m, q));
    }
}

/// What a clause says of a lemma, it keeps saying.
proof fn lemma_clause_stays(m: &TermManager, later: &TermManager, e: &Encoder, f: &Encoder, l: TermId, c: Seq<Lit>)
    requires
        m.wf(),
        later.wf(),
        m.extended_by(later),
        e.grows(f),
        m.has(l),
        is_lemma_clause(m, e, l, c),
    ensures
        is_lemma_clause(later, f, l, c),
{
    assert(later.terms@[l as int] == m.terms@[l as int]);
    assert(m.terms@[l as int].fits(l as int));
    if m.op(l) == Op::Implies {
        let q = m.arg(l, 0);
        let phi = m.arg(l, 1);
        assert(later.terms@[phi as int] == m.terms@[phi as int]);
        let g = choose|g: Lit| #[trigger] is_guarded(m, e, q, phi, g, c);
        if e.term_to_var@.contains_key(q) && g == pos(e.var(q)) {
            assert(f.term_to_var@.contains_key(q) && f.term_to_var@[q] == e.term_to_var@[q]);
        } else {
            lemma_encoded_extends(m, later, e, f, q);
        }
        assert(is_guard(later, f, q, g));
        if m.op(phi) != Op::False {
            lemma_encoded_extends(m, later, e, f, phi);
        }
        assert(is_guarded(later, f, later.arg(l, 0), later.arg(l, 1), g, c));
    } else {
        lemma_encoded_extends(m, later, e, f, l);
    }
}

/// What a lemma brings does not change when the store grows.
proof fn lemma_quantified_stays(m: &TermManager, later: &TermManager, l: TermId, guards: bool)
    requires
        m.wf(),
        later.wf(),
        m.extended_by(later),
        m.has(l),
    ensures
        lemma_quantified(later, l, guards) == lemma_quantified(m, l, guards),
{
    assert(later.terms@[l as int] == m.terms@[l as int]);
    assert(m.terms@[l as int].fits(l as int));
    lemma_dropped_stays(m, later, l);
    if m.op(l) == Op::Implies {
        lemma_finds_extends(m, later, m.arg(l, 0), Find::Quantifier);
        lemma_finds_extends(m, later, m.arg(l, 1), Find::Quantifier);
    } else {
        lemma_finds_extends(m, later, l, Find::Quantifier);
    }
}

/// Clauses of one more lemma on top.
proof fn lemma_instantiates(
    m0: &TermManager,
    e0: &Encoder,
    m1: &TermManager,
    e1: &Encoder,
    m2: &TermManager,
    e2: &Encoder,
    lemmas: Seq<TermId>,
    n: int,
)
    requires
        m0.wf(),
        0 <= n < lemmas.len(),
        forall|k: int| 0 <= k < lemmas.len() ==> m0.has(#[trigger] lemmas[k]),
        instantiates(m0, e0, m1, e1, lemmas, n),
        linked(m2, e2),
        m1.extended_by(m2),
        e1.advances(e2),
        is_dropped(m0, lemmas[n]) || has_lemma(m2, e2, lemmas[n]),
        forall|i: int|
            e1.clauses@.len() <= i < e2.clauses@.len() ==> valid(m2, e2, (#[trigger] e2.clauses@[i])@) || (!is_dropped(m2, lemmas[n])
                && is_lemma_clause(m2, e2, lemmas[n], e2.clauses@[i]@)),
        e2.has_quantifiers ==> e1.has_quantifiers || lemma_quantified(m0, lemmas[n], true),
        lemma_quantified(m0, lemmas[n], false) ==> e2.has_quantifiers,
    ensures
        instantiates(m0, e0, m2, e2, lemmas, n + 1),
{
    if lemmas_quantified(m0, lemmas, n, true) {
        let k = choose|k: int| 0 <= k < n && lemma_quantified(m0, #[trigger] lemmas[k], true);
        assert(lemma_quantified(m0, lemmas[k], true));
    }
    if lemmas_quantified(m0, lemmas, n + 1, false) {
        let k = choose|k: int| 0 <= k < n + 1 && lemma_quantified(m0, #[trigger] lemmas[k], false);
        if k < n {
            assert(lemma_quantified(m0, lemmas[k], false));
        }
    }
    lemma_extended_twice(m0, m1, m2);
    lemma_advances(e0, e1, e2);
    assert forall|k: int| 0 <= k < n + 1 && !is_dropped(m0, #[trigger] lemmas[k]) implies has_lemma(m2, e2, lemmas[k]) by {
        if k < n {
            assert(has_lemma(m1, e1, lemmas[k]));
            let i = choose|i: int| 0 <= i < e1.clauses@.len() && is_lemma_clause(m1, e1, lemmas[k], (#[trigger] e1.clauses@[i])@);
            assert(e2.clauses@[i] == e1.clauses@[i]);
            lemma_clause_stays(m1, m2, e1, e2, lemmas[k], e1.clauses@[i]@);
        }
    }
    assert forall|i: int| e0.clauses@.len() <= i < e2.clauses@.len() implies valid(m2, e2, (#[trigger] e2.clauses@[i])@) || from_lemma(
        m2,
        e2,
        lemmas,
        n + 1,
        e2.clauses@[i]@,
    ) by {
        let c = e2.clauses@[i]@;
        if i < e1.clauses@.len() {
            assert(e2.clauses@[i] == e1.clauses@[i]);
            if valid(m1, e1, c) {
                lemma_valid_extends(m1, m2, e1, e2, c);
            } else {
                let k = choose|k: int| 0 <= k < n && !is_dropped(m1, lemmas[k]) && is_lemma_clause(m1, e1, #[trigger] lemmas[k], c);
                lemma_dropped_stays(m1, m2, lemmas[k]);
                lemma_clause_stays(m1, m2, e1, e2, lemmas[k], c);
            }
        } else if !valid(m2, e2, c) {
            assert(is_lemma_clause(m2, e2, lemmas[n], c));
        }
    }
}

impl Encoder {
    /// Adds the clause of a lemma, unless it is dropped; an instance joins the list.
    fn add_lemma(&mut self, m: &mut TermManager, l: TermId, instances: &mut Vec<TermId>)
        requires
            linked(old(m), old(self)),
            old(m).has(l),
        ensures
            linked(final(m), final(self)),
            old(m).extended_by(final(m)),
            old(self).advances(final(self)),
            final(instances)@ == if old(m).op(l) == Op::Implies && !is_dropped(old(m), l) {
                old(instances)@.push(old(m).arg(l, 1))
            } else {
                old(instances)@
            },
            is_dropped(old(m), l) || has_lemma(final(m), final(self), l),
            forall|i: int|
                old(self).clauses@.len() <= i < final(self).clauses@.len() ==> valid(
                    final(m),
                    final(self),
                    (#[trigger] final(self).clauses@[i])@,
                ) || (!is_dropped(final(m), l) && is_lemma_clause(final(m), final(self), l, final(self).clauses@[i]@)),
            is_dropped(old(m), l) ==> *final(m) == *old(m) && *final(self) == *old(self),
            final(self).has_quantifiers ==> old(self).has_quantifiers || lemma_quantified(old(m), l, true),
            lemma_quantified(old(m), l, false) ==> final(self).has_quantifiers,
    {
        let ghost m0 = *m;
        let ghost e0 = *self;
        proof {
            lemma_step_self(m, self);
            assert(m.terms@[l as int].fits(l as int));
        }
        match m.terms[l].op {
            Op::Implies => {
                let q: usize = m.terms[l].args[0];
                let phi: usize = m.terms[l].args[1];
                let names = names_of(m, q);
                if retains_bound(m, phi, &names) {
                    return;
                }
                instances.push(phi);
                let g = match map_get(&self.term_to_var, q) {
                    Some(v) => Lit::pos(*v),
                    None => self.encode(q, m),
                };
                let ghost m1 = *m;
                let ghost e1 = *self;
                proof {
                    if e1 != e0 {
                        lemma_quantifier(&e0, &e1, &m0, q);
                    }
                    lemma_finds_extends(&m0, &m1, phi, Find::Quantifier);
                }
                assert(is_guard(&m1, &e1, q, g));
                assert(m1.terms@[l as int] == m0.terms@[l as int]);
                assert(m1.terms@[phi as int] == m0.terms@[phi as int]);
                let is_false = match m.terms[phi].op {
                    Op::False => true,
                    _ => false,
                };
                if is_false {
                    let c = clause1(g.negate());
                    self.add_clause(c);
                    proof {
                        assert(is_guarded(&m1, &e1, m1.arg(l, 0), m1.arg(l, 1), g, c@));
                        lemma_added(&m0, &e0, &m1, &e1, self, l, c);
                    }
                } else {
                    let p = self.encode(phi, m);
                    let ghost m2 = *m;
                    let ghost e2 = *self;
                    proof {
                        lemma_quantifier(&e1, &e2, &m1, phi);
                        lemma_guard_stays(&m1, &m2, &e1, &e2, q, g);
                        lemma_step(&m0, &e0, &m1, &e1, &m2, &e2);
                        assert(m2.terms@[l as int] == m0.terms@[l as int]);
                        assert(m2.terms@[phi as int] == m0.terms@[phi as int]);
                    }
                    let c = clause2(g.negate(), p);
                    self.add_clause(c);
                    proof {
                        assert(is_guarded(&m2, &e2, m2.arg(l, 0), m2.arg(l, 1), g, c@));
                        lemma_added(&m0, &e0, &m2, &e2, self, l, c);
                    }
                }
            },
            _ => {
                let p = self.encode(l, m);
                let ghost m1 = *m;
                let ghost e1 = *self;
                let c = clause1(p);
                self.add_clause(c);
                proof {
                    lemma_quantifier(&e0, &e1, &m0, l);
                    assert(m1.terms@[l as int] == m0.terms@[l as int]);
                    lemma_added(&m0, &e0, &m1, &e1, self, l, c);
                }
            },
        }
    }

    /// Adds the clauses of lemmas; instances that are not dropped join the list.
    pub fn add_lemmas(&mut self, m: &mut TermManager, lemmas: &Vec<TermId>, instances: &mut Vec<TermId>)
        requires
            linked(old(m), old(self)),
            forall|k: int| 0 <= k < lemmas@.len() ==> old(m).has(#[trigger] lemmas@[k]),
        ensures
            instantiates(old(m), old(self), final(m), final(self), lemmas@, lemmas@.len() as int),
            final(instances)@ == old(instances)@ + bodies(old(m), lemmas@, lemmas@.len() as int),
    {
        let ghost m0 = *m;
        let ghost e0 = *self;
        let ghost given = instances@;
        let mut i: usize = 0;
        proof {
            lemma_step_self(m, self);
            assert(given + bodies(&m0, lemmas@, 0) =~= given);
        }
        while i < lemmas.len()
            invariant
                i <= lemmas.len(),
                m0.wf(),
                forall|k: int| 0 <= k < lemmas@.len() ==> m0.has(#[trigger] lemmas@[k]),
                instantiates(&m0, &e0, m, self, lemmas@, i as int),
                instances@ == given + bodies(&m0, lemmas@, i as int),
            decreases lemmas.len() - i,
        {
            let ghost m1 = *m;
            let ghost e1 = *self;
            assert(m0.has(lemmas@[i as int]));
            self.add_lemma(m, lemmas[i], instances);
            proof {
                lemma_dropped_stays(&m0, &m1, lemmas@[i as int]);
                lemma_quantified_stays(&m0, &m1, lemmas@[i as int], true);
                lemma_quantified_stays(&m0, &m1, lemmas@[i as int], false);
                lemma_instantiates(&m0, &e0, &m1, &e1, m, self, lemmas@, i as int);
                assert(instances@ =~= given + bodies(&m0, lemmas@, i + 1));
            }
            i = i + 1;
        }
    }
}

/// The names that a quantifier binds.
fn names_of(m: &TermManager, q: TermId) -> (r: Vec<Symbol>)
    requires
        m.has(q),
    ensures
        r@ == bound_names(m, q),
{
    let mut r: Vec<Symbol> = Vec::new();
    let binder = match m.terms[q].op {
        Op::Forall | Op::Exists => true,
        _ => false,
    };
    if !binder {
        return r;
    }
    let mut i: usize = 0;
    while i < m.terms[q].binders.len()
        invariant
            i <= m.terms@[q as int].binders@.len(),
            m.has(q),
            r@.len() == i,
            forall|k: int| 0 <= k < i ==> r@[k] == (#[trigger] m.terms@[q as int].binders@[k]).0,
        decreases m.terms@[q as int].binders@.len() - i,
    {
        r.push(m.terms[q].binders[i].0);
        i = i + 1;
    }
    assert(r@ =~= bound_names(m, q));
    r
}

/// A literal keeps standing for its formula.
proof fn lemma_guard_stays(m: &TermManager, later: &TermManager, e: &Encoder, f: &Encoder, t: TermId, l: Lit)
    requires
        m.wf(),
        later.wf(),
        m.extended_by(later),
        e.grows(f),
        is_guard(m, e, t, l),
    ensures
        is_guard(later, f, t, l),
{
    if e.term_to_var@.contains_key(t) && l == pos(e.var(t)) {
        assert(f.term_to_var@.contains_key(t) && f.term_to_var@[t] == e.term_to_var@[t]);
    } else {
        lemma_encoded_extends(m, later, e, f, t);
    }
}

/// The clause of a lemma on top of definitions.
proof fn lemma_added(m0: &TermManager, e0: &Encoder, m1: &TermManager, e1: &Encoder, e2: &Encoder, l: TermId, c: Vec<Lit>)
    requires
        linked(m0, e0),
        m0.has(l),
        !is_dropped(m0, l),
        step(m0, e0, m1, e1),
        is_lemma_clause(m1, e1, l, c@),
        e2.wf(),
        e1.advances(e2),
        e2.clauses@ == e1.clauses@.push(c),
        e2.tables() == e1.tables(),
        e2.has_bv_arith_ops == e1.has_bv_arith_ops,
    ensures
        linked(m1, e2),
        e0.advances(e2),
        has_lemma(m1, e2, l),
        !is_dropped(m1, l),
        forall|i: int|
            e0.clauses@.len() <= i < e2.clauses@.len() ==> valid(m1, e2, (#[trigger] e2.clauses@[i])@) || is_lemma_clause(
                m1,
                e2,
                l,
                e2.clauses@[i]@,
            ),
{
    lemma_extended_self(m1);
    assert(e2.constraints@ == e1.tables().constraints);
    assert(e2.parsed@ == e1.tables().parsed);
    assert(e2.walked@ == e1.tables().walked);
    assert(e2.bv_terms@ == e1.tables().bv_terms);
    lemma_linked_tables(m1, e1, e2);
    lemma_advances(e0, e1, e2);
    lemma_dropped_stays(m0, m1, l);
    lemma_clause_stays(m1, m1, e1, e2, l, c@);
    let last = e1.clauses@.len() as int;
    assert(e2.clauses@[last]@ == c@);
    assert forall|i: int| e0.clauses@.len() <= i < e2.clauses@.len() implies valid(m1, e2, (#[trigger] e2.clauses@[i])@) || is_lemma_clause(
        m1,
        e2,
        l,
        e2.clauses@[i]@,
    ) by {
        if i < last {
            assert(e2.clauses@[i] == e1.clauses@[i]);
            assert(valid(m1, e1, e1.clauses@[i]@));
            lemma_valid_extends(m1, m1, e1, e2, e1.clauses@[i]@);
        }
    }
}

/// Instances are conservative: a reading under which every lemma is true makes every clause true
/// that is added for them, when variables are read as their formulas.
pub proof fn law_instances_are_conservative(
    m: &TermManager,
    e: &Encoder,
    later: &TermManager,
    f: &Encoder,
    lemmas: Seq<TermId>,
    r: Reading,
    i: int,
)
    requires
        instantiates(m, e, later, f, lemmas, lemmas.len() as int),
        forall|k: int| 0 <= k < lemmas.len() ==> m.has(#[trigger] lemmas[k]) && truth(later, r, lemmas[k]),
        e.clauses@.len() <= i < f.clauses@.len(),
    ensures
        clause_true(sigma(later, f, r), f.clauses@[i]@),
{
    let c = f.clauses@[i]@;
    let a = sigma(later, f, r);
    if !valid(later, f, c) {
        let k = choose|k: int|
            0 <= k < lemmas.len() && !is_dropped(later, lemmas[k]) && is_lemma_clause(later, f, #[trigger] lemmas[k], c);
        let l = lemmas[k];
        assert(later.terms@[l as int] == m.terms@[l as int]);
        assert(later.terms@[l as int].fits(l as int));
        if later.op(l) == Op::Implies {
            let q = later.arg(l, 0);
            let phi = later.arg(l, 1);
            let g = choose|g: Lit| #[trigger] is_guarded(later, f, q, phi, g, c);
            lemma_guard_truth(later, f, r, q, g);
            lemma_flip(a, g);
            if later.op(phi) == Op::False {
                assert(!truth(later, r, phi));
                assert(c[0] == flip(g));
            } else {
                lemma_lit_truth(later, f, r, phi);
                lemma_clause2(a, flip(g), lit_of(later, f, phi));
            }
        } else {
            lemma_lit_truth(later, f, r, l);
            assert(c[0] == lit_of(later, f, l));
        }
    }
}

/// A literal has the truth value of the formula that it stands for.
proof fn lemma_guard_truth(m: &TermManager, e: &Encoder, r: Reading, t: TermId, l: Lit)
    requires
        linked(m, e),
        is_guard(m, e, t, l),
    ensures
        crate::cnf::lit_true(sigma(m, e, r), l) == truth(m, r, t),
{
    if e.term_to_var@.contains_key(t) && l == pos(e.var(t)) {
        assert(e.var_to_term@[e.var(t) as int] == t);
    } else {
        lemma_lit_truth(m, e, r, t);
    }
}

/// An instance that is taken is enforced: under every assignment that satisfies the clauses, it holds
/// where its quantifier does, and one that is false denies its quantifier.
pub proof fn law_instances_are_enforced(
    m: &TermManager,
    e: &Encoder,
    later: &TermManager,
    f: &Encoder,
    lemmas: Seq<TermId>,
    k: int,
    a: Assignment,
)
    requires
        instantiates(m, e, later, f, lemmas, lemmas.len() as int),
        0 <= k < lemmas.len(),
        m.has(lemmas[k]),
        m.op(lemmas[k]) == Op::Implies,
        !is_dropped(m, lemmas[k]),
        forall|i: int| 0 <= i < f.clauses@.len() ==> clause_true(a, (#[trigger] f.clauses@[i])@),
    ensures
        exists|g: Lit| #[trigger]
            is_guard(later, f, m.arg(lemmas[k], 0), g) && (lit_true(a, g) ==> later.op(m.arg(lemmas[k], 1)) != Op::False && lit_true(
                a,
                lit_of(later, f, m.arg(lemmas[k], 1)),
            )),
{
    let l = lemmas[k];
    assert(has_lemma(later, f, l));
    assert(later.terms@[l as int] == m.terms@[l as int]);
    let i = choose|i: int| 0 <= i < f.clauses@.len() && is_lemma_clause(later, f, l, (#[trigger] f.clauses@[i])@);
    let c = f.clauses@[i]@;
    let g = choose|g: Lit| #[trigger] is_guarded(later, f, later.arg(l, 0), later.arg(l, 1), g, c);
    assert(clause_true(a, c));
    let j = choose|j: int| 0 <= j < c.len() && lit_true(a, #[trigger] c[j]);
    lemma_flip(a, g);
    assert(is_guard(later, f, m.arg(l, 0), g));
}

/// The bodies of the instances that are taken are listed, in their order, and nothing else.
pub proof fn law_bodies_of_instances_are_listed(m: &TermManager, lemmas: Seq<TermId>, n: int, x: TermId)
    requires
        0 <= n <= lemmas.len(),
    ensures
        bodies(m, lemmas, n).contains(x) <==> exists|k: int|
            0 <= k < n && m.op(#[trigger] lemmas[k]) == Op::Implies && !is_dropped(m, lemmas[k]) && m.arg(lemmas[k], 1) == x,
    decreases n,
{
    if n > 0 {
        law_bodies_of_instances_are_listed(m, lemmas, n - 1, x);
        let before = bodies(m, lemmas, n - 1);
        let now = bodies(m, lemmas, n);
        let l = lemmas[n - 1];
        if before.contains(x) {
            let i = choose|i: int| 0 <= i < before.len() && before[i] == x;
            assert(now[i] == x);
            let k = choose|k: int|
                0 <= k < n - 1 && m.op(#[trigger] lemmas[k]) == Op::Implies && !is_dropped(m, lemmas[k]) && m.arg(lemmas[k], 1) == x;
            assert(m.op(lemmas[k]) == Op::Implies);
        }
        if m.op(l) == Op::Implies && !is_dropped(m, l) && m.arg(l, 1) == x {
            assert(now[now.len() - 1] == x);
        }
        if now.contains(x) && !before.contains(x) {
            let i = choose|i: int| 0 <= i < now.len() && now[i] == x;
            if i < before.len() {
                assert(before[i] == x);
            }
        }
        if exists|k: int|
            0 <= k < n && m.op(#[trigger] lemmas[k]) == Op::Implies && !is_dropped(m, lemmas[k]) && m.arg(lemmas[k], 1) == x {
            let k = choose|k: int|
                0 <= k < n && m.op(#[trigger] lemmas[k]) == Op::Implies && !is_dropped(m, lemmas[k]) && m.arg(lemmas[k], 1) == x;
            if k < n - 1 {
                assert(before.contains(x));
            }
        }
    }
}

/// An instance is dropped where a variable of its quantifier is left in it outside binders; and it is
/// taken where no term of the store up to its body is a variable of that name.
pub proof fn law_unfinished_instances_are_dropped(m: &TermManager, l: TermId, x: TermId, i: int)
    requires
        m.wf(),
        m.has(l),
        m.op(l) == Op::Implies,
        m.op(m.arg(l, 0)) is Forall || m.op(m.arg(l, 0)) is Exists,
    ensures
        0 <= i < m.terms@[m.arg(l, 0) as int].binders@.len() && occurs(m, m.arg(l, 1), x) && m.has(x) && x <= m.arg(l, 1) && m.op(x) == Op::Var(
            m.terms@[m.arg(l, 0) as int].binders@[i].0,
        ) ==> is_dropped(m, l),
        (forall|y: TermId, j: int|
            m.has(y) && y <= m.arg(l, 1) && 0 <= j < m.terms@[m.arg(l, 0) as int].binders@.len() ==> #[trigger] m.op(y) != Op::Var(
                (#[trigger] m.terms@[m.arg(l, 0) as int].binders@[j]).0,
            )) ==> !is_dropped(m, l),
{
    assert(m.terms@[l as int].fits(l as int));
    let q = m.args(l)[0];
    let phi = m.args(l)[1];
    assert(q < l && phi < l);
    let names = bound_names(m, q);
    let b = m.terms@[q as int].binders@;
    if 0 <= i < b.len() && occurs(m, phi, x) && m.has(x) && x <= phi && m.op(x) == Op::Var(b[i].0) {
        assert(names[i] == b[i].0);
        assert(names.contains(b[i].0));
        assert(is_part(m, phi, x));
        assert(retains(m, phi, names));
    }
    if is_dropped(m, l) {
        let (y, n) = lemma_retained(m, phi, names);
        let j = choose|j: int| 0 <= j < names.len() && names[j] == n;
        assert(b[j].0 == n);
        assert(m.op(y) == Op::Var(b[j].0));
    }
}

/// Where a variable of the names is left, there is a term that is one.
proof fn lemma_retained(m: &TermManager, t: TermId, names: Seq<Symbol>) -> (r: (TermId, Symbol))
    requires
        retains(m, t, names),
    ensures
        m.has(r.0),
        r.0 <= t,
        names.contains(r.1),
        m.op(r.0) == Op::Var(r.1),
    decreases t,
{
    let x = choose|x: TermId| #[trigger]
        is_part(m, t, x) && m.has(x) && x <= t && match m.op(x) {
            Op::Var(n) => names.contains(n),
            Op::Forall | Op::Exists => m.arg(x, 0) < x && retains(m, m.arg(x, 0), names.filter(|n: Symbol| !binds_name(m, x, n))),
            _ => false,
        };
    match m.op(x) {
        Op::Var(n) => (x, n),
        _ => {
            let f = |n: Symbol| !binds_name(m, x, n);
            assert(names.filter(|n: Symbol| !binds_name(m, x, n)) =~= names.filter(f));
            let r = lemma_retained(m, m.arg(x, 0), names.filter(f));
            lemma_filter_part(names, f, r.1);
            r
        },
    }
}

/// A list without some members holds no others.
proof fn lemma_filter_part(s: Seq<Symbol>, f: spec_fn(Symbol) -> bool, n: Symbol)
    requires
        s.filter(f).contains(n),
    ensures
        s.contains(n),
    decreases s.len(),
{
    reveal(Seq::filter);
    if s.len() > 0 {
        let rest = s.drop_last();
        let before = rest.filter(f);
        let now = s.filter(f);
        let i = choose|i: int| 0 <= i < now.len() && now[i] == n;
        if i < before.len() {
            assert(before[i] == n);
            lemma_filter_part(rest, f, n);
            let j = choose|j: int| 0 <= j < rest.len() && rest[j] == n;
            assert(s[j] == n);
        } else {
            assert(s[s.len() - 1] == n);
        }
    }
}

/// A lemma that is no implication is enforced as it stands.
pub proof fn law_plain_lemmas_are_enforced(
    m: &TermManager,
    e: &Encoder,
    later: &TermManager,
    f: &Encoder,
    lemmas: Seq<TermId>,
    k: int,
    a: Assignment,
)
    requires
        instantiates(m, e, later, f, lemmas, lemmas.len() as int),
        0 <= k < lemmas.len(),
        m.has(lemmas[k]),
        m.op(lemmas[k]) != Op::Implies,
        forall|i: int| 0 <= i < f.clauses@.len() ==> clause_true(a, (#[trigger] f.clauses@[i])@),
    ensures
        encoded(later, f, lemmas[k]),
        lit_true(a, lit_of(later, f, lemmas[k])),
{
    let l = lemmas[k];
    assert(has_lemma(later, f, l));
    assert(later.terms@[l as int] == m.terms@[l as int]);
    let i = choose|i: int| 0 <= i < f.clauses@.len() && is_lemma_clause(later, f, l, (#[trigger] f.clauses@[i])@);
    let c = f.clauses@[i]@;
    assert(clause_true(a, c));
    let j = choose|j: int| 0 <= j < c.len() && lit_true(a, #[trigger] c[j]);
}

/// Quantifiers in the bodies of instances that are taken, or in other lemmas, are noted.
pub proof fn law_quantifiers_of_lemmas_are_noted(
    m: &TermManager,
    e: &Encoder,
    later: &TermManager,
    f: &Encoder,
    lemmas: Seq<TermId>,
    k: int,
)
    requires
        instantiates(m, e, later, f, lemmas, lemmas.len() as int),
        0 <= k < lemmas.len(),
        (m.op(lemmas[k]) != Op::Implies && quantified(m, lemmas[k])) || (m.op(lemmas[k]) == Op::Implies && !is_dropped(m, lemmas[k])
            && quantified(m, m.arg(lemmas[k], 1))),
    ensures
        f.has_quantifiers,
{
    assert(lemma_quantified(m, lemmas[k], false));
}

} // verus!
