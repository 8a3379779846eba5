//! Axioms of datatypes for the terms of a formula.
use crate::axioms::check_open;
use crate::axioms::collect_fields;
use crate::axioms::collect_tests;
use crate::axioms::covered;
use crate::axioms::enriched;
use crate::axioms::field_stated;
use crate::axioms::field_targets;
use crate::axioms::is_open;
use crate::axioms::lemma_covered_stays;
use crate::axioms::lemma_enriched;
use crate::axioms::lemma_extended_twice;
use crate::axioms::lemma_field_targets;
use crate::axioms::lemma_node_stays;
use crate::axioms::lemma_stated_stays;
use crate::axioms::lemma_step_enriches;
use crate::axioms::lemma_test_targets;
use crate::axioms::stated;
use crate::axioms::takes;
use crate::axioms::test_stated;
use crate::axioms::test_targets;
use crate::axioms::tests;
use crate::axioms::Axiom;
use crate::emission::lemma_finds_extends;
use crate::emission::lemma_quantifier;
use crate::emission::quantified;
use crate::emission::Find;
use crate::encode::clause1;
use crate::encode::lemma_linked_extends;
use crate::encode::lemma_step_self;
use crate::encode::linked;
use crate::encoder::Encoder;
use crate::maps::set_contains;
use crate::maps::set_insert;
use crate::semantics::is_bool;
use crate::term::is_node;
use crate::term::Op;
use crate::term::TermId;
use crate::term::TermManager;
use crate::term::BOOL_SORT;
use crate::track::lemma_extended_self;
use crate::walk::occurs;
use crate::walk::occurs_in;
use crate::walk::subterms;
use rustc_hash::FxHashMap;
use rustc_hash::FxHashSet;
use vstd::prelude::*;

verus! {

/// The set has grown by the members of the list.
pub open spec fn grown_by(before: Set<usize>, after: Set<usize>, list: Seq<TermId>) -> bool {
    forall|x: usize| #[trigger] after.contains(x) <==> before.contains(x) || list.contains(x)
}

/// What a list holds with one more element.
proof fn lemma_pushed(s: Seq<TermId>, x: TermId)
    ensures
        forall|y: TermId| #[trigger] s.push(x).contains(y) <==> s.contains(y) || x == y,
        s.no_duplicates() && !s.contains(x) ==> s.push(x).no_duplicates(),
{
    assert forall|y: TermId| #[trigger] s.push(x).contains(y) <==> s.contains(y) || x == y by {
        if s.contains(y) {
            let i = choose|i: int| 0 <= i < s.len() && s[i] == y;
            assert(s.push(x)[i] == y);
        }
        if x == y {
            assert(s.push(x)[s.len() as int] == y);
        }
        if s.push(x).contains(y) {
            let i = choose|i: int| 0 <= i < s.push(x).len() && s.push(x)[i] == y;
            if i < s.len() {
                assert(s[i] == y);
            }
        }
    }
    if s.no_duplicates() && !s.contains(x) {
        assert forall|i: int, j: int| 0 <= i < s.push(x).len() && 0 <= j < s.push(x).len() && i != j implies s.push(x)[i]
            != s.push(x)[j] by {
            if i < s.len() {
                assert(s.contains(s[i]));
            }
            if j < s.len() {
                assert(s.contains(s[j]));
            }
        }
    }
}

/// The open terms of the list that are not in the set, each once.
fn collect_open(m: &TermManager, parts: &Vec<TermId>, done: &FxHashSet<usize>) -> (r: Vec<TermId>)
    requires
        parts@.no_duplicates(),
    ensures
        r@.no_duplicates(),
        forall|x: usize| #[trigger] r@.contains(x) <==> parts@.contains(x) && is_open(m, x) && !done@.contains(x),
{
    let mut out: Vec<TermId> = Vec::new();
    let mut i: usize = 0;
    while i < parts.len()
        invariant
            i <= parts.len(),
            parts@.no_duplicates(),
            out@.no_duplicates(),
            forall|x: usize| #[trigger] out@.contains(x) <==> parts@.take(i as int).contains(x) && is_open(m, x) && !done@.contains(x),
        decreases parts.len() - i,
    {
        let t: usize = parts[i];
        proof {
            assert(parts@.take(i + 1) =~= parts@.take(i as int).push(t));
            lemma_pushed(parts@.take(i as int), t);
            lemma_pushed(out@, t);
            if parts@.take(i as int).contains(t) {
                let j = choose|j: int| 0 <= j < i && parts@.take(i as int)[j] == t;
                assert(parts@[j] == parts@[i as int]);
            }
        }
        if check_open(m, t) && !set_contains(done, t) {
            out.push(t);
        }
        i = i + 1;
    }
    assert(parts@.take(i as int) =~= parts@);
    out
}

/// The parts of one formula.
fn parts_of(m: &TermManager, root: TermId) -> (r: Vec<TermId>)
    requires
        m.wf(),
    ensures
        r@.no_duplicates(),
        forall|x: usize| #[trigger] r@.contains(x) <==> occurs(m, root, x),
{
    let mut roots: Vec<TermId> = Vec::new();
    roots.push(root);
    let parts = subterms(m, &roots);
    proof {
        assert forall|x: usize| #[trigger] parts@.contains(x) <==> occurs(m, root, x) by {
            if occurs(m, root, x) {
                assert(occurs(m, roots@[0], x));
            }
            if parts@.contains(x) {
                let i = choose|i: int| 0 <= i < 1 && occurs(m, #[trigger] roots@[i], x);
            }
        }
    }
    parts
}

impl Encoder {
    /// States of each open datatype term of a formula that one of its constructors built it, and
    /// one only. Terms of `done` are left out; the others join it and are the result.
    pub fn add_dt_cover_axioms(&mut self, root: TermId, m: &mut TermManager, done: &mut FxHashSet<usize>) -> (r: Vec<TermId>)
        requires
            linked(old(m), old(self)),
        ensures
            (enriched(Map::<usize, TermId>::empty(), old(m), old(self), final(m), final(self))),
            r@.no_duplicates(),
            forall|x: usize| #[trigger]
                r@.contains(x) <==> occurs(old(m), root, x) && is_open(old(m), x) && !old(done)@.contains(x),
            grown_by(old(done)@, final(done)@, r@),
            forall|x: usize| #[trigger]
                r@.contains(x) ==> (covered(old(m), Map::<usize, TermId>::empty(), final(m), final(self), x)),
            final(self).has_quantifiers == old(self).has_quantifiers,
    {
        let ghost m0 = *m;
        let ghost e0 = *self;
        let ghost none: Map<usize, TermId> = Map::empty();
        let ghost before = done@;
        let parts = parts_of(m, root);
        let targets = collect_open(m, &parts, done);
        proof {
            lemma_step_self(m, self);
            lemma_step_enriches(none, m, self, m, self);
            lemma_extended_self(m);
        }
        let mut i: usize = 0;
        while i < targets.len()
            invariant
                i <= targets.len(),
                m0.wf(),
                linked(m, self),
                enriched(none, &m0, &e0, m, self),
                forall|x: usize| #[trigger] targets@.contains(x) ==> is_open(&m0, x),
                grown_by(before, done@, targets@.take(i as int)),
                forall|k: int| 0 <= k < i ==> covered(&m0, none, m, self, #[trigger] targets@[k]),
                self.has_quantifiers == e0.has_quantifiers,
            decreases targets.len() - i,
        {
            let t: usize = targets[i];
            let ghost m1 = *m;
            let ghost e1 = *self;
            proof {
                assert(targets@.contains(t));
                assert(m.terms@[t as int] == m0.terms@[t as int]);
                assert(targets@.take(i + 1) =~= targets@.take(i as int).push(t));
                lemma_pushed(targets@.take(i as int), t);
            }
            self.cover(t, m, Ghost(m0), Ghost(none));
            let _ = set_insert(done, t);
            proof {
                lemma_enriched(none, &m0, &e0, &m1, &e1, m, self);
                assert forall|k: int| 0 <= k < i + 1 implies covered(&m0, none, m, self, #[trigger] targets@[k]) by {
                    if k < i {
                        lemma_covered_stays(&m0, none, &m1, m, &e1, self, targets@[k]);
                    }
                }
            }
            i = i + 1;
        }
        proof {
            assert(targets@.take(i as int) =~= targets@);
            assert forall|x: usize| #[trigger] targets@.contains(x) implies covered(&m0, none, m, self, x) by {
                let k = choose|k: int| 0 <= k < targets@.len() && targets@[k] == x;
                assert(covered(&m0, none, m, self, targets@[k]));
            }
        }
        targets
    }

    /// States of each selector application in the formulas that comes to a field of a constructor
    /// application, under bindings of variables, that it equals that field. Terms of `done` are
    /// left out; the others join it and are the result.
    pub fn add_dt_selector_reduction_axioms_over(
        &mut self,
        roots: &Vec<TermId>,
        binds: &FxHashMap<usize, TermId>,
        m: &mut TermManager,
        done: &mut FxHashSet<usize>,
    ) -> (r: Vec<TermId>)
        requires
            linked(old(m), old(self)),
        ensures
            enriched(binds@, old(m), old(self), final(m), final(self)),
            forall|x: usize| #[trigger]
                r@.contains(x) <==> occurs_in(old(m), roots@, roots@.len() as int, x) && takes(old(m), binds@, x) is Some
                    && !old(done)@.contains(x),
            grown_by(old(done)@, final(done)@, r@),
            forall|x: usize| #[trigger] r@.contains(x) ==> field_stated(old(m), binds@, final(m), final(self), x),
            final(self).has_quantifiers == (old(self).has_quantifiers || field_quantified(old(m), binds@, r@)),
    {
        let ghost m0 = *m;
        let ghost e0 = *self;
        let ghost b = binds@;
        let ghost before = done@;
        let parts = subterms(m, roots);
        let targets = collect_fields(m, &parts, binds, done);
        proof {
            lemma_step_self(m, self);
            lemma_step_enriches(b, m, self, m, self);
            lemma_extended_self(m);
            lemma_field_targets(&m0, b, before, parts@, parts@.len() as int);
            assert(parts@.take(parts@.len() as int) =~= parts@);
        }
        let mut out: Vec<TermId> = Vec::new();
        let mut i: usize = 0;
        while i < targets.len()
            invariant
                i <= targets.len(),
                m0.wf(),
                b == binds@,
                linked(m, self),
                enriched(b, &m0, &e0, m, self),
                targets@ == field_targets(&m0, b, before, parts@, parts@.len() as int),
                forall|k: int|
                    0 <= k < targets@.len() ==> takes(&m0, b, (#[trigger] targets@[k]).0) == Some(targets@[k].1),
                out@.len() == i,
                forall|k: int| 0 <= k < i ==> #[trigger] out@[k] == targets@[k].0,
                grown_by(before, done@, out@),
                forall|k: int| 0 <= k < i ==> field_stated(&m0, b, m, self, #[trigger] out@[k]),
                self.has_quantifiers == (e0.has_quantifiers || field_quantified(&m0, b, out@)),
            decreases targets.len() - i,
        {
            let (t, f) = targets[i];
            let ghost m1 = *m;
            let ghost e1 = *self;
            proof {
                assert(takes(&m0, b, targets@[i as int].0) == Some(targets@[i as int].1));
                lemma_takes_in_store(&m0, b, t);
                lemma_pushed(out@, t);
            }
            let q: usize = m.mk_eq(t, f);
            let ghost m2 = *m;
            proof {
                lemma_linked_extends(&m1, &m2, &e1);
                lemma_step_enriches(b, &m1, &e1, &m2, &e1);
                lemma_enriched(b, &m0, &e0, &m1, &e1, &m2, &e1);
            }
            let l = self.encode(q, m);
            let ghost e3 = *self;
            let ghost x = Axiom::Field { term: t, value: f, eq: q };
            proof {
                lemma_quantifier(&e1, self, &m2, q);
                lemma_field_quantified(&m0, &m2, b, out@, t, q);
                lemma_step_enriches(b, &m2, &e1, m, self);
                lemma_enriched(b, &m0, &e0, &m2, &e1, m, self);
                lemma_node_stays(&m2, m, q, Op::Eq, seq![t, f], BOOL_SORT);
            }
            let c = clause1(l);
            self.state(c, m, Ghost(m0), Ghost(b), Ghost(x));
            proof {
                lemma_enriched(b, &m0, &e0, m, &e3, m, self);
                lemma_extended_twice(&m1, &m2, m);
                assert forall|k: int| 0 <= k < i implies field_stated(&m0, b, m, self, #[trigger] out@[k]) by {
                    let y = out@[k];
                    let eq = choose|eq: TermId| #[trigger]
                        stated(&m0, b, &m1, &e1, Axiom::Field { term: y, value: takes(&m0, b, y)->0, eq });
                    crate::encoder::lemma_advances(&e1, &e3, self);
                    lemma_stated_stays(&m0, b, &m1, m, &e1, self, Axiom::Field { term: y, value: takes(&m0, b, y)->0, eq });
                }
                assert(stated(&m0, b, m, self, Axiom::Field { term: t, value: takes(&m0, b, t)->0, eq: q }));
                assert(field_stated(&m0, b, m, self, t));
            }
            out.push(t);
            let _ = set_insert(done, t);
            i = i + 1;
        }
        proof {
            assert forall|x: usize| #[trigger] out@.contains(x) <==> occurs_in(&m0, roots@, roots@.len() as int, x) && takes(&m0, b, x) is Some
                && !before.contains(x) by {
                if out@.contains(x) {
                    let k = choose|k: int| 0 <= k < out@.len() && out@[k] == x;
                    assert(targets@[k].0 == x);
                    assert(parts@.contains(x));
                }
                if occurs_in(&m0, roots@, roots@.len() as int, x) && takes(&m0, b, x) is Some && !before.contains(x) {
                    assert(parts@.contains(x));
                    let k = choose|k: int| 0 <= k < targets@.len() && (#[trigger] targets@[k]).0 == x;
                    assert(out@[k] == x);
                }
            }
            assert forall|x: usize| #[trigger] out@.contains(x) implies field_stated(&m0, b, m, self, x) by {
                let k = choose|k: int| 0 <= k < out@.len() && out@[k] == x;
                assert(field_stated(&m0, b, m, self, out@[k]));
            }
        }
        out
    }

    /// States of each test in the formulas that is decided by a constructor application, under
    /// bindings of variables, how it is decided. Terms of `done` are left out; the others join it
    /// and are the result.
    pub fn add_dt_tester_reduction_axioms_over(
        &mut self,
        roots: &Vec<TermId>,
        binds: &FxHashMap<usize, TermId>,
        m: &mut TermManager,
        done: &mut FxHashSet<usize>,
    ) -> (r: Vec<TermId>)
        requires
            linked(old(m), old(self)),
        ensures
            enriched(binds@, old(m), old(self), final(m), final(self)),
            forall|x: usize| #[trigger]
                r@.contains(x) <==> occurs_in(old(m), roots@, roots@.len() as int, x) && tests(old(m), binds@, x) is Some
                    && !old(done)@.contains(x),
            grown_by(old(done)@, final(done)@, r@),
            forall|x: usize| #[trigger] r@.contains(x) ==> test_stated(old(m), binds@, final(m), final(self), x),
            final(self).has_quantifiers == old(self).has_quantifiers,
    {
        let ghost m0 = *m;
        let ghost e0 = *self;
        let ghost b = binds@;
        let ghost before = done@;
        let parts = subterms(m, roots);
        let targets = collect_tests(m, &parts, binds, done);
        proof {
            lemma_step_self(m, self);
            lemma_step_enriches(b, m, self, m, self);
            lemma_extended_self(m);
            lemma_test_targets(&m0, b, before, parts@, parts@.len() as int);
            assert(parts@.take(parts@.len() as int) =~= parts@);
        }
        let mut out: Vec<TermId> = Vec::new();
        let mut i: usize = 0;
        while i < targets.len()
            invariant
                i <= targets.len(),
                m0.wf(),
                b == binds@,
                linked(m, self),
                enriched(b, &m0, &e0, m, self),
                targets@ == test_targets(&m0, b, before, parts@, parts@.len() as int),
                forall|k: int|
                    0 <= k < targets@.len() ==> tests(&m0, b, (#[trigger] targets@[k]).0) == Some(targets@[k].1),
                out@.len() == i,
                forall|k: int| 0 <= k < i ==> #[trigger] out@[k] == targets@[k].0,
                grown_by(before, done@, out@),
                forall|k: int| 0 <= k < i ==> test_stated(&m0, b, m, self, #[trigger] out@[k]),
                self.has_quantifiers == e0.has_quantifiers,
            decreases targets.len() - i,
        {
            let (t, verdict) = targets[i];
            let ghost m1 = *m;
            let ghost e1 = *self;
            proof {
                assert(tests(&m0, b, targets@[i as int].0) == Some(targets@[i as int].1));
                lemma_pushed(out@, t);
            }
            let l = self.encode(t, m);
            let ghost e3 = *self;
            let ghost x = Axiom::Test { term: t, verdict };
            proof {
                lemma_quantifier(&e1, self, &m1, t);
                assert(m1.terms@[t as int] == m0.terms@[t as int]);
                assert(!quantified(&m1, t));
                lemma_step_enriches(b, &m1, &e1, m, self);
                lemma_enriched(b, &m0, &e0, &m1, &e1, m, self);
            }
            let c = clause1(
                if verdict {
                    l
                } else {
                    l.negate()
                },
            );
            self.state(c, m, Ghost(m0), Ghost(b), Ghost(x));
            proof {
                lemma_enriched(b, &m0, &e0, m, &e3, m, self);
                assert forall|k: int| 0 <= k < i implies test_stated(&m0, b, m, self, #[trigger] out@[k]) by {
                    let y = out@[k];
                    crate::encoder::lemma_advances(&e1, &e3, self);
                    lemma_stated_stays(&m0, b, &m1, m, &e1, self, Axiom::Test { term: y, verdict: tests(&m0, b, y)->0 });
                }
                assert(test_stated(&m0, b, m, self, t));
            }
            out.push(t);
            let _ = set_insert(done, t);
            i = i + 1;
        }
        proof {
            assert forall|x: usize| #[trigger] out@.contains(x) <==> occurs_in(&m0, roots@, roots@.len() as int, x) && tests(&m0, b, x) is Some
                && !before.contains(x) by {
                if out@.contains(x) {
                    let k = choose|k: int| 0 <= k < out@.len() && out@[k] == x;
                    assert(targets@[k].0 == x);
                    assert(parts@.contains(x));
                }
                if occurs_in(&m0, roots@, roots@.len() as int, x) && tests(&m0, b, x) is Some && !before.contains(x) {
                    assert(parts@.contains(x));
                    let k = choose|k: int| 0 <= k < targets@.len() && (#[trigger] targets@[k]).0 == x;
                    assert(out@[k] == x);
                }
            }
            assert forall|x: usize| #[trigger] out@.contains(x) implies test_stated(&m0, b, m, self, x) by {
                let k = choose|k: int| 0 <= k < out@.len() && out@[k] == x;
                assert(test_stated(&m0, b, m, self, out@[k]));
            }
        }
        out
    }
}

/// One of the selector applications is a formula, and the field that it comes to brings a quantified
/// formula.
pub open spec fn field_quantified(m: &TermManager, binds: Map<usize, TermId>, xs: Seq<TermId>) -> bool {
    exists|x: TermId| #[trigger] xs.contains(x) && is_bool(m, x) && quantified(m, takes(m, binds, x)->0)
}

/// What the equality of one more selector application with its field brings.
proof fn lemma_field_quantified(
    m: &TermManager,
    later: &TermManager,
    binds: Map<usize, TermId>,
    xs: Seq<TermId>,
    t: TermId,
    q: TermId,
)
    requires
        m.wf(),
        later.wf(),
        m.extended_by(later),
        takes(m, binds, t) is Some,
        is_node(later, q, Op::Eq, seq![t, takes(m, binds, t)->0], BOOL_SORT),
    ensures
        field_quantified(m, binds, xs.push(t)) == (field_quantified(m, binds, xs) || quantified(later, q)),
{
    let f = takes(m, binds, t)->0;
    lemma_takes_in_store(m, binds, t);
    assert(later.terms@[q as int].fits(q as int));
    assert(later.args(q)[0] == t && later.args(q)[1] == f);
    assert(later.terms@[t as int] == m.terms@[t as int]);
    lemma_finds_extends(m, later, f, Find::Quantifier);
    assert(!quantified(later, t));
    assert(quantified(later, q) == (is_bool(m, t) && quantified(m, f)));
    lemma_pushed(xs, t);
    if field_quantified(m, binds, xs) {
        let x = choose|x: TermId| #[trigger] xs.contains(x) && is_bool(m, x) && quantified(m, takes(m, binds, x)->0);
        assert(xs.push(t).contains(x));
    }
    if quantified(later, q) {
        assert(xs.push(t).contains(t));
    }
}

/// The field that a selector application comes to is a term of the store.
pub(crate) proof fn lemma_takes_in_store(m: &TermManager, binds: Map<usize, TermId>, t: TermId)
    requires
        m.wf(),
        takes(m, binds, t) is Some,
    ensures
        m.has(t),
        m.has(takes(m, binds, t)->0),
{
    let c = crate::dt_resolve::normal_form(m, binds, m.arg(t, 0))->0;
    assert(m.terms@[c as int].fits(c as int));
    crate::dt_resolve::lemma_field_in_store(m, c, m.op(t)->DtSelector_0);
}

} // verus!
