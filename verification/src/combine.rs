//! Combination of the theories: equalities that one theory finds and another one has to know.
use crate::cnf::lit_true;
use crate::cnf::Assignment;
use crate::cnf::Lit;
use crate::cnf::Var;
use crate::euf::carries;
use crate::euf::lemma_interned_stays;
use crate::euf::lemma_leads;
use crate::euf::lemma_leads_self;
use crate::linear::terms_value;
use crate::linear::ParsedArithConstraint;
use crate::linear::Valuation;
use crate::maps::map_get;
use crate::maps::map_keys;
use crate::maps::set_contains;
use crate::rational::less;
use crate::rational::Rat;
use crate::small::LitList;
use crate::term::Op;
use crate::term::TermId;
use crate::term::TermManager;
use crate::theory::arith_sorts;
use crate::theory::conflict_clause;
use crate::theory::declare_arith_sorts;
use crate::theory::TheoryManager;
use vstd::prelude::*;

verus! {

/// The term occurs in one of the parsed forms.
pub open spec fn occurs_in(parsed: Map<usize, ParsedArithConstraint>, t: TermId) -> bool {
    exists|v: usize| #[trigger] parsed.contains_key(v) && occurs_among(parsed[v].terms@, parsed[v].terms@.len() as int, t)
}

/// The term is the unknown of one of the first `k` products.
pub open spec fn occurs_among(terms: Seq<(TermId, Rat)>, k: int, t: TermId) -> bool {
    exists|i: int| 0 <= i < k && (#[trigger] terms[i]).0 == t
}

/// The term applies a function whose values congruence relates.
pub open spec fn applies(m: &TermManager, t: TermId) -> bool {
    m.has(t) && (m.op(t) is Apply || m.op(t) is Select || m.op(t) is DtSelector)
}

/// Two terms are known and in one class.
pub open spec fn joined(classes: Seq<Option<usize>>, i: int, j: int) -> bool {
    classes[i] is Some && classes[i] == classes[j]
}

/// The pairs of the term at `i` with a later one among the first `k`, where both are in one class.
pub open spec fn row(terms: Seq<TermId>, classes: Seq<Option<usize>>, i: int, k: int) -> Seq<(TermId, TermId)>
    decreases k - i,
{
    if k <= i + 1 {
        Seq::empty()
    } else if joined(classes, i, k - 1) {
        row(terms, classes, i, k - 1).push((terms[i], terms[k - 1]))
    } else {
        row(terms, classes, i, k - 1)
    }
}

/// The pairs of terms in one class whose first one is among the first `k`.
pub open spec fn rows(terms: Seq<TermId>, classes: Seq<Option<usize>>, k: int) -> Seq<(TermId, TermId)>
    decreases k,
{
    if k <= 0 {
        Seq::empty()
    } else {
        rows(terms, classes, k - 1) + row(terms, classes, k - 1, terms.len() as int)
    }
}

/// An equality as arithmetic takes it: the sum of the products is zero.
#[derive(Debug)]
pub struct SharedEquality {
    pub terms: Vec<(TermId, Rat)>,
    pub sorts: Vec<(TermId, bool)>,
    pub reason: TermId,
}

/// A term that both theories know, with its class and its value.
#[derive(Clone, Copy, Debug)]
pub struct SharedTerm {
    pub term: TermId,
    pub class: Option<usize>,
    pub value: Option<Rat>,
}

/// Equalities that are being passed on to arithmetic, and the position of the next one.
#[derive(Debug)]
pub struct Passing {
    pub pairs: Vec<(TermId, TermId)>,
    pub next: usize,
}

/// What happens next to equalities that are being passed on.
#[derive(Debug)]
pub enum PassingStep {
    /// Tell arithmetic this, ask it, and hand back its conflict.
    Tell(SharedEquality),
    /// It is over, with a conflict or without.
    Done(Option<LitList>),
}

/// Two terms are in one class, but have different values.
pub open spec fn disagree(a: SharedTerm, b: SharedTerm) -> bool {
    a.class is Some && a.class == b.class && a.value is Some && b.value is Some && a.value->0.val() != b.value->0.val()
}

/// No earlier pair disagrees.
pub open spec fn first_dispute(shared: Seq<SharedTerm>, i: int, j: int) -> bool {
    &&& 0 <= i < j < shared.len()
    &&& disagree(shared[i], shared[j])
    &&& forall|p: int, q: int| 0 <= p < q < shared.len() && (p < i || (p == i && q < j)) ==> !#[trigger] disagree(shared[p], shared[q])
}

/// A list with those of the first `k` further elements that it lacks, each once.
pub open spec fn with_missing<E>(list: Seq<E>, more: Seq<E>, k: int) -> Seq<E>
    decreases k,
{
    if k <= 0 {
        list
    } else {
        let r = with_missing(list, more, k - 1);
        if r.contains(more[k - 1]) {
            r
        } else {
            r.push(more[k - 1])
        }
    }
}

/// The list holds the term.
fn holds_term(list: &Vec<TermId>, t: TermId) -> (r: bool)
    ensures
        r == list@.contains(t),
{
    let mut i: usize = 0;
    while i < list.len()
        invariant
            i <= list.len(),
            forall|k: int| 0 <= k < i ==> list@[k] != t,
        decreases list.len() - i,
    {
        if list[i] == t {
            assert(list@[i as int] == t);
            return true;
        }
        i = i + 1;
    }
    false
}

/// The list holds the literal.
fn holds_literal(list: &LitList, l: Lit) -> (r: bool)
    ensures
        r == list@.contains(l),
{
    let n: usize = list.len();
    let mut i: usize = 0;
    while i < n
        invariant
            i <= n,
            n == list@.len(),
            forall|k: int| 0 <= k < i ==> list@[k] != l,
        decreases n - i,
    {
        if list.get(i) == l {
            assert(list@[i as int] == l);
            return true;
        }
        i = i + 1;
    }
    false
}

/// The equality of two terms as arithmetic takes it, with the first one as its reason.
pub fn share(m: &TermManager, a: TermId, b: TermId) -> (r: SharedEquality)
    ensures
        r.terms@ == seq![(a, Rat { numer: 1, denom: 1 }), (b, Rat { numer: -1i128, denom: 1 })],
        r.sorts@ == arith_sorts(m, r.terms@, 2),
        r.reason == a,
        forall|v: Valuation| #[trigger] terms_value(v, r.terms@, 2) == v(a) - v(b),
{
    let mut terms: Vec<(TermId, Rat)> = Vec::new();
    terms.push((a, Rat { numer: 1, denom: 1 }));
    terms.push((b, Rat { numer: -1, denom: 1 }));
    let sorts = declare_arith_sorts(m, &terms);
    proof {
        assert forall|v: Valuation| #[trigger] terms_value(v, terms@, 2) == v(a) - v(b) by {
            reveal_with_fuel(terms_value, 3);
            let x: real = v(a);
            let y: real = v(b);
            assert(1int as real * x == x) by (nonlinear_arith);
            assert((-1int) as real * y == -y) by (nonlinear_arith);
            assert(1int as real / 1int as real == 1int as real) by (nonlinear_arith);
            assert((-1int) as real / 1int as real == (-1int) as real) by (nonlinear_arith);
        }
    }
    SharedEquality { terms, sorts, reason: a }
}

/// One of the first `n` terms applies a function and carries the term.
pub open spec fn carried_before(m: &TermManager, terms: Seq<TermId>, n: int, x: TermId) -> bool {
    exists|i: int| 0 <= i < n && applies(m, #[trigger] terms[i]) && carries(m, terms[i], x)
}

impl TheoryManager {
    /// The unknowns of the parsed forms, each once.
    pub fn arith_unknowns(&self) -> (r: Vec<TermId>)
        ensures
            r@.no_duplicates(),
            forall|t: usize| #[trigger] r@.contains(t) <==> occurs_in(self.var_to_parsed_arith@, t),
    {
        let keys = map_keys(&self.var_to_parsed_arith);
        let mut out: Vec<TermId> = Vec::new();
        let mut k: usize = 0;
        while k < keys.len()
            invariant
                k <= keys.len(),
                forall|v: usize| keys@.contains(v) <==> self.var_to_parsed_arith@.contains_key(v),
                out@.no_duplicates(),
                forall|t: usize| #[trigger] out@.contains(t) ==> occurs_in(self.var_to_parsed_arith@, t),
                forall|j: int, t: usize|
                    0 <= j < k && #[trigger] occurs_among(
                        self.var_to_parsed_arith@[keys@[j]].terms@,
                        self.var_to_parsed_arith@[keys@[j]].terms@.len() as int,
                        t,
                    ) ==> out@.contains(t),
            decreases keys.len() - k,
        {
            let v: usize = keys[k];
            assert(keys@.contains(v));
            if let Some(p) = map_get(&self.var_to_parsed_arith, v) {
                let ghost before = out@;
                let mut i: usize = 0;
                while i < p.terms.len()
                    invariant
                        i <= p.terms.len(),
                        self.var_to_parsed_arith@.contains_key(v),
                        p.terms@ == self.var_to_parsed_arith@[v].terms@,
                        out@.no_duplicates(),
                        forall|t: usize| #[trigger] out@.contains(t) ==> occurs_in(self.var_to_parsed_arith@, t),
                        forall|t: usize| before.contains(t) ==> #[trigger] out@.contains(t),
                        forall|t: usize| occurs_among(p.terms@, i as int, t) ==> #[trigger] out@.contains(t),
                    decreases p.terms.len() - i,
                {
                    let t: usize = p.terms[i].0;
                    let ghost prior = out@;
                    if !holds_term(&out, t) {
                        out.push(t);
                        proof {
                            assert(out@.last() == t);
                            assert(occurs_among(p.terms@, p.terms@.len() as int, t));
                            assert forall|x: usize| #[trigger] out@.contains(x) implies x == t || prior.contains(x) by {
                                let j = choose|j: int| 0 <= j < out@.len() && out@[j] == x;
                                if j < prior.len() {
                                    assert(prior[j] == x);
                                }
                            }
                            assert forall|x: usize| prior.contains(x) implies #[trigger] out@.contains(x) by {
                                let j = choose|j: int| 0 <= j < prior.len() && prior[j] == x;
                                assert(out@[j] == x);
                            }
                            assert(out@.no_duplicates()) by {
                                assert forall|x: int, y: int| 0 <= x < out@.len() && 0 <= y < out@.len() && x != y implies out@[x]
                                    != out@[y] by {
                                    if x < prior.len() {
                                        assert(prior.contains(prior[x]));
                                    }
                                    if y < prior.len() {
                                        assert(prior.contains(prior[y]));
                                    }
                                }
                            }
                        }
                    }
                    assert(out@.contains(t));
                    assert forall|x: usize| occurs_among(p.terms@, i + 1, x) implies #[trigger] out@.contains(x) by {
                        let j = choose|j: int| 0 <= j < i + 1 && (#[trigger] p.terms@[j]).0 == x;
                        if j < i {
                            assert(occurs_among(p.terms@, i as int, x));
                            assert(prior.contains(x));
                        }
                    }
                    i = i + 1;
                }
            }
            k = k + 1;
        }
        assert forall|t: usize| #[trigger] out@.contains(t) <==> occurs_in(self.var_to_parsed_arith@, t) by {
            if occurs_in(self.var_to_parsed_arith@, t) {
                let v = choose|v: usize| #[trigger]
                    self.var_to_parsed_arith@.contains_key(v) && occurs_among(
                        self.var_to_parsed_arith@[v].terms@,
                        self.var_to_parsed_arith@[v].terms@.len() as int,
                        t,
                    );
                assert(keys@.contains(v));
                let j = choose|j: int| 0 <= j < keys@.len() && keys@[j] == v;
                assert(occurs_among(
                    self.var_to_parsed_arith@[keys@[j]].terms@,
                    self.var_to_parsed_arith@[keys@[j]].terms@.len() as int,
                    t,
                ));
            }
        }
        out
    }

    /// Introduces an unknown to the theory of equality, if it applies a function.
    fn introduce_unknown(&mut self, m: &TermManager, t: TermId)
        requires
            m.wf(),
            old(self).wf(m),
        ensures
            final(self).wf(m),
            applies(m, t) ==> final(self).euf.interned@.contains(t),
            forall|x: TermId| #[trigger] final(self).euf.interned@.contains(x) ==> old(self).euf.interned@.contains(x) || (applies(m, t)
                && carries(m, t, x)),
            old(self).euf.leads_to(&final(self).euf, m),
            (TheoryManager { euf: old(self).euf, ..*final(self) }) == *old(self),
    {
        proof {
            lemma_leads_self(&self.euf, m);
        }
        if t < m.terms.len() {
            let fits = match m.terms[t].op {
                Op::Apply(_) | Op::Select | Op::DtSelector(_) => true,
                _ => false,
            };
            if fits && !set_contains(&self.euf.interned, t) {
                let _ = self.euf.intern_term_for_congruence(m, t);
            }
        }
    }

    /// Introduces to the theory of equality the unknowns of the parsed forms that apply functions;
    /// the result are all unknowns, each once.
    #[verifier::spinoff_prover]
    #[verifier::rlimit(60)]
    pub fn introduce_unknowns(&mut self, m: &TermManager) -> (r: Vec<TermId>)
        requires
            m.wf(),
            old(self).wf(m),
        ensures
            final(self).wf(m),
            r@.no_duplicates(),
            forall|t: usize| #[trigger] r@.contains(t) <==> occurs_in(old(self).var_to_parsed_arith@, t),
            forall|i: int| 0 <= i < r@.len() && applies(m, #[trigger] r@[i]) ==> final(self).euf.interned@.contains(r@[i]),
            forall|x: TermId| #[trigger]
                final(self).euf.interned@.contains(x) ==> old(self).euf.interned@.contains(x) || carried_before(m, r@, r@.len() as int, x),
            old(self).euf.leads_to(&final(self).euf, m),
            (TheoryManager { euf: old(self).euf, ..*final(self) }) == *old(self),
    {
        let terms = self.arith_unknowns();
        proof {
            lemma_leads_self(&self.euf, m);
        }
        let mut k: usize = 0;
        while k < terms.len()
            invariant
                k <= terms.len(),
                m.wf(),
                self.wf(m),
                old(self).wf(m),
                old(self).euf.leads_to(&self.euf, m),
                (TheoryManager { euf: old(self).euf, ..*self }) == *old(self),
                forall|i: int| 0 <= i < k && applies(m, #[trigger] terms@[i]) ==> self.euf.interned@.contains(terms@[i]),
                forall|x: TermId| #[trigger]
                    self.euf.interned@.contains(x) ==> old(self).euf.interned@.contains(x) || carried_before(m, terms@, k as int, x),
            decreases terms.len() - k,
        {
            let ghost before = self.euf;
            self.introduce_unknown(m, terms[k]);
            proof {
                lemma_leads(&old(self).euf, &before, &self.euf, m);
                assert forall|x: TermId| #[trigger] self.euf.interned@.contains(x) implies old(self).euf.interned@.contains(x)
                    || carried_before(m, terms@, k + 1, x) by {
                    if before.interned@.contains(x) {
                        if !old(self).euf.interned@.contains(x) {
                            let i = choose|i: int| 0 <= i < k && applies(m, #[trigger] terms@[i]) && carries(m, terms@[i], x);
                            assert(applies(m, terms@[i]));
                        }
                    } else {
                        assert(applies(m, terms@[k as int]) && carries(m, terms@[k as int], x));
                    }
                }
                assert forall|i: int| 0 <= i < k && applies(m, #[trigger] terms@[i]) implies self.euf.interned@.contains(terms@[i]) by {
                    lemma_interned_stays(&before, &self.euf, m, terms@[i]);
                }
            }
            k = k + 1;
        }
        terms
    }

    /// The conflict that an equality made in arithmetic, unless it rests on an outdated bound.
    pub fn equality_conflict(&self, conflict: &Vec<TermId>, stale: bool) -> (r: Option<LitList>)
        ensures
            r is Some <==> !(self.suppress_stale_bounds && stale),
            r matches Some(c) ==> c@ == conflict_clause(self.term_to_var@, self.assigned_phase@, conflict@, conflict@.len() as int),
    {
        if self.suppress_stale_bounds && stale {
            None
        } else {
            Some(self.terms_to_conflict_clause(conflict))
        }
    }

    /// The next step with equalities that are passed on, given the conflict that the last one made
    /// in arithmetic, and whether it rests on an outdated bound: a conflict that counts ends it, and
    /// the next equality is told.
    pub fn pass_on(&self, m: &TermManager, p: &mut Passing, conflict: Option<(Vec<TermId>, bool)>) -> (r: PassingStep)
        ensures
            final(p).pairs == old(p).pairs,
            ({
                let counts = conflict matches Some((terms, stale)) && !(self.suppress_stale_bounds && stale);
                if counts {
                    let terms = (conflict->0).0@;
                    &&& final(p).next == old(p).next
                    &&& r matches PassingStep::Done(Some(c)) && c@ == conflict_clause(
                        self.term_to_var@,
                        self.assigned_phase@,
                        terms,
                        terms.len() as int,
                    )
                } else if old(p).next >= old(p).pairs@.len() {
                    r == PassingStep::Done(None) && final(p).next == old(p).next
                } else {
                    let (a, b) = old(p).pairs@[old(p).next as int];
                    &&& final(p).next == old(p).next + 1
                    &&& r matches PassingStep::Tell(e) && e.reason == a && e.terms@ == seq![
                        (a, Rat { numer: 1, denom: 1 }),
                        (b, Rat { numer: -1i128, denom: 1 }),
                    ] && e.sorts@ == arith_sorts(m, e.terms@, 2)
                }
            }),
    {
        if let Some((terms, stale)) = conflict {
            if let Some(c) = self.equality_conflict(&terms, stale) {
                return PassingStep::Done(Some(c));
            }
        }
        if p.next >= p.pairs.len() {
            return PassingStep::Done(None);
        }
        let (a, b) = p.pairs[p.next];
        p.next = p.next + 1;
        PassingStep::Tell(share(m, a, b))
    }

    /// Keeps why arithmetic fixed the value of a term that was joined with its constant.
    pub fn note_merge(&mut self, mut reasons: Vec<TermId>)
        ensures
            final(self).pending_arith_eq_reasons@ == old(self).pending_arith_eq_reasons@ + reasons@,
            (TheoryManager { pending_arith_eq_reasons: old(self).pending_arith_eq_reasons, ..*final(self) }) == *old(self),
    {
        self.pending_arith_eq_reasons.append(&mut reasons);
    }

    /// The terms that both theories may know, each once. A combination starts with no reasons.
    pub fn shared_terms(&mut self) -> (r: Vec<TermId>)
        ensures
            r@.no_duplicates(),
            forall|t: usize| #[trigger] r@.contains(t) <==> old(self).term_to_var@.contains_key(t),
            final(self).pending_arith_eq_reasons@.len() == 0,
            (TheoryManager { pending_arith_eq_reasons: old(self).pending_arith_eq_reasons, ..*final(self) }) == *old(self),
    {
        self.pending_arith_eq_reasons = Vec::new();
        map_keys(&self.term_to_var)
    }

    /// The clause of a conflict of the theory of equality that rests on fixed values: it names the
    /// reasons of those too.
    pub fn fixed_values_conflict(&self, conflict: Vec<TermId>) -> (r: LitList)
        ensures
            ({
                let terms = with_missing(
                    conflict@,
                    self.pending_arith_eq_reasons@,
                    self.pending_arith_eq_reasons@.len() as int,
                );
                r@ == conflict_clause(self.term_to_var@, self.assigned_phase@, terms, terms.len() as int)
            }),
    {
        let mut terms = conflict;
        let mut i: usize = 0;
        while i < self.pending_arith_eq_reasons.len()
            invariant
                i <= self.pending_arith_eq_reasons.len(),
                terms@ == with_missing(conflict@, self.pending_arith_eq_reasons@, i as int),
            decreases self.pending_arith_eq_reasons.len() - i,
        {
            let t: usize = self.pending_arith_eq_reasons[i];
            if !holds_term(&terms, t) {
                terms.push(t);
            }
            i = i + 1;
        }
        self.terms_to_conflict_clause(&terms)
    }

    /// The clause of a conflict of arithmetic that rests on fixed values: it names the reasons of
    /// those too.
    pub fn fixed_sums_conflict(&self, lits: LitList) -> (r: LitList)
        ensures
            ({
                let fixed = conflict_clause(
                    self.term_to_var@,
                    self.assigned_phase@,
                    self.pending_arith_eq_reasons@,
                    self.pending_arith_eq_reasons@.len() as int,
                );
                r@ == with_missing(lits@, fixed, fixed.len() as int)
            }),
    {
        let fixed = self.terms_to_conflict_clause(&self.pending_arith_eq_reasons);
        let n: usize = fixed.len();
        let mut out = lits;
        let mut i: usize = 0;
        while i < n
            invariant
                i <= n,
                n == fixed@.len(),
                out@ == with_missing(lits@, fixed@, i as int),
            decreases n - i,
        {
            let l = fixed.get(i);
            if !holds_literal(&out, l) {
                out.push(l);
            }
            i = i + 1;
        }
        out
    }

    /// The conflict of the first two terms that are in one class but have different values.
    pub fn disagreement(&self, shared: &Vec<SharedTerm>) -> (r: Option<LitList>)
        requires
            forall|i: int| 0 <= i < shared@.len() ==> ((#[trigger] shared@[i]).value matches Some(q) ==> q.wf()),
        ensures
            r is None ==> forall|i: int, j: int| 0 <= i < j < shared@.len() ==> !#[trigger] disagree(shared@[i], shared@[j]),
            r matches Some(c) ==> exists|i: int, j: int| #[trigger]
                first_dispute(shared@, i, j) && c@ == conflict_clause(
                    self.term_to_var@,
                    self.assigned_phase@,
                    seq![shared@[i].term, shared@[j].term],
                    2,
                ),
    {
        let mut i: usize = 0;
        while i < shared.len()
            invariant
                i <= shared.len(),
                forall|k: int| 0 <= k < shared@.len() ==> ((#[trigger] shared@[k]).value matches Some(q) ==> q.wf()),
                forall|p: int, q: int| 0 <= p < q < shared@.len() && p < i ==> !#[trigger] disagree(shared@[p], shared@[q]),
            decreases shared.len() - i,
        {
            let mut j: usize = i + 1;
            while j < shared.len()
                invariant
                    i < j <= shared.len(),
                    forall|k: int| 0 <= k < shared@.len() ==> ((#[trigger] shared@[k]).value matches Some(q) ==> q.wf()),
                    forall|p: int, q: int|
                        0 <= p < q < shared@.len() && (p < i || (p == i && q < j)) ==> !#[trigger] disagree(shared@[p], shared@[q]),
                decreases shared.len() - j,
            {
                let a = shared[i];
                let b = shared[j];
                assert(a == shared@[i as int] && b == shared@[j as int]);
                if a.class.is_some() && a.class == b.class {
                    if let (Some(x), Some(y)) = (a.value, b.value) {
                        if less(x, y) || less(y, x) {
                            let mut terms: Vec<TermId> = Vec::new();
                            terms.push(a.term);
                            terms.push(b.term);
                            assert(terms@ =~= seq![a.term, b.term]);
                            assert(first_dispute(shared@, i as int, j as int));
                            return Some(self.terms_to_conflict_clause(&terms));
                        }
                    }
                }
                j = j + 1;
            }
            i = i + 1;
        }
        None
    }
}

/// The pairs of terms that are in one class, in the order of the terms.
pub fn equalities(terms: &Vec<TermId>, classes: &Vec<Option<usize>>) -> (r: Vec<(TermId, TermId)>)
    requires
        terms@.len() == classes@.len(),
    ensures
        r@ == rows(terms@, classes@, terms@.len() as int),
{
    let mut out: Vec<(TermId, TermId)> = Vec::new();
    let mut i: usize = 0;
    while i < terms.len()
        invariant
            i <= terms.len(),
            terms@.len() == classes@.len(),
            out@ == rows(terms@, classes@, i as int),
        decreases terms.len() - i,
    {
        let ghost done = out@;
        let mut j: usize = i + 1;
        assert(done + row(terms@, classes@, i as int, j as int) =~= done);
        while j < terms.len()
            invariant
                i < j <= terms.len(),
                terms@.len() == classes@.len(),
                out@ == done + row(terms@, classes@, i as int, j as int),
            decreases terms.len() - j,
        {
            if classes[i].is_some() && classes[i] == classes[j] {
                out.push((terms[i], terms[j]));
            }
            assert(out@ =~= done + row(terms@, classes@, i as int, j + 1));
            j = j + 1;
        }
        i = i + 1;
    }
    out
}

/// The assignment gives a variable the phase that was recorded for it.
pub open spec fn follows_phase(a: Assignment, phase: Map<usize, bool>) -> bool {
    forall|v: usize| #[trigger] phase.contains_key(v) ==> a(v) == phase[v]
}

/// A conflict clause between terms whose variables are all assigned has only false literals: the
/// search has to backtrack.
pub proof fn law_conflict_clause_is_false(a: Assignment, vars: Map<usize, Var>, phase: Map<usize, bool>, terms: Seq<TermId>, k: int, i: int)
    requires
        follows_phase(a, phase),
        0 <= k <= terms.len(),
        forall|j: int| 0 <= j < k && vars.contains_key(#[trigger] terms[j]) ==> phase.contains_key(vars[terms[j]]),
        0 <= i < conflict_clause(vars, phase, terms, k).len(),
    ensures
        !lit_true(a, conflict_clause(vars, phase, terms, k)[i]),
    decreases k,
{
    if k > 0 {
        let rest = conflict_clause(vars, phase, terms, k - 1);
        if i < rest.len() {
            law_conflict_clause_is_false(a, vars, phase, terms, k - 1, i);
        } else {
            assert(vars.contains_key(terms[k - 1]));
            assert(phase.contains_key(vars[terms[k - 1]]));
        }
    }
}

/// Adding the reasons of fixed values to a list loses nothing, and adds nothing else.
pub proof fn law_with_missing_is_union<E>(list: Seq<E>, more: Seq<E>, k: int, e: E)
    requires
        0 <= k <= more.len(),
    ensures
        with_missing(list, more, k).contains(e) <==> list.contains(e) || more.take(k).contains(e),
    decreases k,
{
    if k > 0 {
        law_with_missing_is_union(list, more, k - 1, e);
        let r = with_missing(list, more, k - 1);
        let x = more[k - 1];
        assert(more.take(k) =~= more.take(k - 1).push(x));
        lemma_push_contains(more.take(k - 1), x, e);
        lemma_push_contains(r, x, e);
    }
}

/// What a list holds with one more element.
proof fn lemma_push_contains<E>(s: Seq<E>, x: E, e: E)
    ensures
        s.push(x).contains(e) <==> s.contains(e) || x == e,
{
    if s.contains(e) {
        let i = choose|i: int| 0 <= i < s.len() && s[i] == e;
        assert(s.push(x)[i] == e);
    }
    if x == e {
        assert(s.push(x)[s.len() as int] == e);
    }
    if s.push(x).contains(e) {
        let i = choose|i: int| 0 <= i < s.push(x).len() && s.push(x)[i] == e;
        if i < s.len() {
            assert(s[i] == e);
        }
    }
}

/// Of all pairs of terms in one class with different values, the earliest makes the conflict.
pub proof fn law_earliest_dispute_counts(shared: Seq<SharedTerm>, i: int, j: int, p: int, q: int)
    requires
        first_dispute(shared, i, j),
        0 <= p < q < shared.len(),
        shared[p].class is Some,
        shared[p].class == shared[q].class,
        shared[p].value is Some,
        shared[q].value is Some,
        shared[p].value->0.val() != shared[q].value->0.val(),
    ensures
        i < p || (i == p && j <= q),
        shared[i].class is Some,
        shared[i].class == shared[j].class,
        shared[i].value is Some,
        shared[j].value is Some,
        shared[i].value->0.val() != shared[j].value->0.val(),
{
    assert(disagree(shared[p], shared[q]));
}

} // verus!
