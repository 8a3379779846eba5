//! Refutes assertions by the laws of datatypes.
use crate::classes::joined;
use crate::classes::respects;
use crate::dt_closure::appended;
use crate::dt_closure::closes;
use crate::dt_closure::compute_dt_equality_closure;
use crate::dt_closure::ctor_closed;
use crate::dt_closure::follows;
use crate::dt_closure::lemma_joined_value;
use crate::dt_closure::selector_closed;
use crate::dt_closure::underived;
use crate::dt_closure::Closing;
use crate::dt_closure::DtEqualityClosure;
use crate::dt_closure::Pairs;
use crate::dt_cycle::acyclic;
use crate::dt_cycle::build_dt_ctor_terms;
use crate::dt_cycle::cycle_exists_given;
use crate::dt_cycle::ranks;
use crate::dt_facts::collect_all;
use crate::dt_facts::facts_of_all;
use crate::dt_facts::facts_under;
use crate::dt_facts::is_ctor;
use crate::dt_facts::layouts_of;
use crate::dt_facts::no_facts;
use crate::dt_facts::DtFacts;
use crate::dt_facts::FactsView;
use crate::dt_model::all_equal;
use crate::dt_model::all_true;
use crate::dt_model::facts_hold;
use crate::dt_model::is_datatype_term;
use crate::dt_model::is_model;
use crate::dt_model::lemma_all_facts_hold;
use crate::dt_model::lemma_facts_hold;
use crate::dt_model::lemma_pairs_plus;
use crate::dt_model::lemma_plus_holds;
use crate::dt_model::reads;
use crate::dt_model::well_typed;
use crate::dt_model::DtModel;
use crate::semantics::truth;
use crate::semantics::Reading;
use crate::term::CtorLayout;
use crate::term::Op;
use crate::term::Sort;
use crate::term::Symbol;
use crate::term::TermId;
use crate::term::TermManager;
use vstd::prelude::*;

verus! {

/// How many steps the search through the cases of disjunctions may take.
pub const DT_OR_CASE_SPLIT_BUDGET: u32 = 200_000;

/// How many rounds the closure of the asserted equalities may take.
pub const DT_CLOSURE_STEP_BUDGET: u32 = 20_000;

/// A list of terms, each with a constructor.
pub type Kinds = Seq<(TermId, Symbol)>;

/// The constructors that the terms are said to be built by.
pub open spec fn said(f: FactsView) -> Kinds {
    f.testers + f.ctor_eqs
}

/// The two terms are one, or variables that are said to be equal.
pub open spec fn same_variable(f: FactsView, v: TermId, w: TermId) -> bool {
    v == w || f.var_eqs.contains((v, w)) || f.var_eqs.contains((w, v))
}

/// `v` and `w` are said to be built by different constructors.
pub open spec fn disagree(p: Kinds, v: TermId, w: TermId) -> bool {
    exists|i: int, j: int|
        0 <= i < p.len() && 0 <= j < p.len() && (#[trigger] p[i]).0 == v && (#[trigger] p[j]).0 == w && p[i].1 != p[j].1
}

/// `v` is said to be built by a constructor that `w` is said not to be built by.
pub open spec fn contradict(p: Kinds, n: Kinds, v: TermId, w: TermId) -> bool {
    exists|i: int, j: int|
        0 <= i < p.len() && 0 <= j < n.len() && (#[trigger] p[i]).0 == v && (#[trigger] n[j]).0 == w && p[i].1 == n[j].1
}

/// What is said of the constructors of a term, or of two equal variables, does not fit together.
pub open spec fn kinds_clash(f: FactsView) -> bool {
    exists|v: TermId, w: TermId| #[trigger]
        same_variable(f, v, w) && (disagree(said(f), v, w) || contradict(said(f), f.neg_testers, v, w))
}

/// The term is said not to be built by the constructor.
pub open spec fn excluded(f: FactsView, v: TermId, c: CtorLayout) -> bool {
    f.neg_testers.contains((v, c.name)) || (c.fields@.len() == 0 && f.neg_ctor_eqs.contains((v, c.name)))
}

/// The term is said to be built by none of the constructors of its sort.
pub open spec fn none_left(m: &TermManager, f: FactsView, v: TermId) -> bool {
    &&& is_datatype_term(m, v)
    &&& layouts_of(m, m.sort_of(v))->Some_0.len() > 0
    &&& forall|i: int| 0 <= i < layouts_of(m, m.sort_of(v))->Some_0.len() ==> excluded(f, v, #[trigger] layouts_of(m, m.sort_of(v))->Some_0[i])
}

/// Some term is said to be built by none of the constructors of its sort.
pub open spec fn exhausted(m: &TermManager, f: FactsView) -> bool {
    exists|v: TermId| #[trigger] none_left(m, f, v)
}

/// The equalities that the facts give.
pub open spec fn base_eqs(f: FactsView) -> Pairs {
    f.var_eqs + (f.ctor_binds + f.ctor_ctor_eqs)
}

/// The list follows from the facts and holds their equalities.
pub open spec fn is_closure(m: &TermManager, f: FactsView, eqs: Pairs) -> bool {
    appended(base_eqs(f), eqs) && follows(m, base_eqs(f), f.sel_eqs, eqs)
}

/// The equalities force a value to be part of itself, or terms to be equal that must differ.
pub open spec fn refuted(m: &TermManager, f: FactsView, eqs: Pairs, ctors: Seq<TermId>) -> bool {
    ||| !acyclic(m, eqs, ctors)
    ||| exists|i: int| 0 <= i < f.diseqs.len() && joined(eqs, (#[trigger] f.diseqs[i]).0, f.diseqs[i].1)
}

/// A closure of the facts under which nothing is wrong.
pub open spec fn open_case(m: &TermManager, f: FactsView, ctors: Seq<TermId>) -> bool {
    exists|eqs: Pairs| #[trigger]
        is_closure(m, f, eqs) && ctor_closed(m, eqs) && selector_closed(m, eqs, f.sel_eqs) && !refuted(m, f, eqs, ctors)
}

/// Two terms that are said to be built by different constructors.
fn find_disagreement(p: &Vec<(TermId, Symbol)>, v: TermId, w: TermId) -> (r: bool)
    ensures
        r == disagree(p@, v, w),
{
    let mut i: usize = 0;
    while i < p.len()
        invariant
            i <= p.len(),
            forall|a: int, b: int|
                0 <= a < i && 0 <= b < p@.len() && (#[trigger] p@[a]).0 == v && (#[trigger] p@[b]).0 == w ==> p@[a].1 == p@[b].1,
        decreases p.len() - i,
    {
        if p[i].0 == v {
            let mut j: usize = 0;
            while j < p.len()
                invariant
                    i < p.len(),
                    j <= p.len(),
                    p@[i as int].0 == v,
                    forall|b: int| 0 <= b < j && (#[trigger] p@[b]).0 == w ==> p@[i as int].1 == p@[b].1,
                decreases p.len() - j,
            {
                if p[j].0 == w && p[i].1 != p[j].1 {
                    assert(p@[i as int].1 != p@[j as int].1);
                    return true;
                }
                j = j + 1;
            }
        }
        i = i + 1;
    }
    false
}

/// A constructor that `v` is said to be built by and `w` not.
fn find_contradiction(p: &Vec<(TermId, Symbol)>, n: &Vec<(TermId, Symbol)>, v: TermId, w: TermId) -> (r: bool)
    ensures
        r == contradict(p@, n@, v, w),
{
    let mut i: usize = 0;
    while i < p.len()
        invariant
            i <= p.len(),
            forall|a: int, b: int|
                0 <= a < i && 0 <= b < n@.len() && (#[trigger] p@[a]).0 == v && (#[trigger] n@[b]).0 == w ==> p@[a].1 != n@[b].1,
        decreases p.len() - i,
    {
        if p[i].0 == v {
            let mut j: usize = 0;
            while j < n.len()
                invariant
                    i < p.len(),
                    j <= n.len(),
                    p@[i as int].0 == v,
                    forall|b: int| 0 <= b < j && (#[trigger] n@[b]).0 == w ==> p@[i as int].1 != n@[b].1,
                decreases n.len() - j,
            {
                if n[j].0 == w && p[i].1 == n[j].1 {
                    assert(p@[i as int].1 == n@[j as int].1);
                    return true;
                }
                j = j + 1;
            }
        }
        i = i + 1;
    }
    false
}

/// The two lists, one after the other.
fn concat_kinds(a: &Vec<(TermId, Symbol)>, b: &Vec<(TermId, Symbol)>) -> (r: Vec<(TermId, Symbol)>)
    ensures
        r@ == a@ + b@,
{
    let mut r: Vec<(TermId, Symbol)> = Vec::new();
    let mut i: usize = 0;
    while i < a.len()
        invariant
            i <= a.len(),
            r@ == a@.take(i as int),
        decreases a.len() - i,
    {
        r.push(a[i]);
        assert(a@.take(i + 1) =~= a@.take(i as int).push(a@[i as int]));
        i = i + 1;
    }
    let mut j: usize = 0;
    assert(r@ =~= a@ + b@.take(0));
    while j < b.len()
        invariant
            j <= b.len(),
            r@ == a@ + b@.take(j as int),
        decreases b.len() - j,
    {
        r.push(b[j]);
        assert(a@ + b@.take(j + 1) =~= (a@ + b@.take(j as int)).push(b@[j as int]));
        j = j + 1;
    }
    assert(b@.take(b@.len() as int) =~= b@);
    r
}

/// What is said of constructors does not fit together.
pub fn find_kinds_clash(f: &DtFacts) -> (r: bool)
    ensures
        r == kinds_clash(f@),
{
    let p = concat_kinds(&f.testers, &f.ctor_eqs);
    let mut i: usize = 0;
    while i < p.len()
        invariant
            i <= p.len(),
            p@ == said(f@),
            forall|a: int| 0 <= a < i ==> !disagree(p@, (#[trigger] p@[a]).0, p@[a].0) && !contradict(
                p@,
                f.neg_testers@,
                p@[a].0,
                p@[a].0,
            ),
        decreases p.len() - i,
    {
        let v: usize = p[i].0;
        if find_disagreement(&p, v, v) || find_contradiction(&p, &f.neg_testers, v, v) {
            assert(same_variable(f@, v, v));
            return true;
        }
        i = i + 1;
    }
    let mut k: usize = 0;
    while k < f.var_eqs.len()
        invariant
            k <= f.var_eqs.len(),
            p@ == said(f@),
            forall|e: int| 0 <= e < k ==> pair_fits(f@, #[trigger] f.var_eqs@[e]),
        decreases f.var_eqs.len() - k,
    {
        let (v, w) = f.var_eqs[k];
        assert(f.var_eqs@[k as int] == (v, w));
        if find_disagreement(&p, v, w) || find_contradiction(&p, &f.neg_testers, v, w) {
            assert(f@.var_eqs.contains((v, w)));
            assert(same_variable(f@, v, w));
            return true;
        }
        if find_disagreement(&p, w, v) || find_contradiction(&p, &f.neg_testers, w, v) {
            assert(f@.var_eqs.contains((v, w)));
            assert(same_variable(f@, w, v));
            return true;
        }
        k = k + 1;
    }
    proof {
        assert forall|v: TermId, w: TermId| #[trigger] same_variable(f@, v, w) implies !disagree(said(f@), v, w) && !contradict(
            said(f@),
            f@.neg_testers,
            v,
            w,
        ) by {
            if v == w {
                if disagree(p@, v, v) {
                    let (a, b) = choose|a: int, b: int|
                        0 <= a < p@.len() && 0 <= b < p@.len() && (#[trigger] p@[a]).0 == v && (#[trigger] p@[b]).0 == v && p@[a].1
                            != p@[b].1;
                    assert(!disagree(p@, p@[a].0, p@[a].0));
                }
                if contradict(p@, f.neg_testers@, v, v) {
                    let (a, b) = choose|a: int, b: int|
                        0 <= a < p@.len() && 0 <= b < f.neg_testers@.len() && (#[trigger] p@[a]).0 == v && (
                        #[trigger] f.neg_testers@[b]).0 == v && p@[a].1 == f.neg_testers@[b].1;
                    assert(!contradict(p@, f.neg_testers@, p@[a].0, p@[a].0));
                }
            } else {
                let q = if f@.var_eqs.contains((v, w)) { (v, w) } else { (w, v) };
                let e = choose|e: int| 0 <= e < f.var_eqs@.len() && f.var_eqs@[e] == q;
                assert(pair_fits(f@, f.var_eqs@[e]));
            }
        }
    }
    false
}

/// What is said of two equal variables fits together.
spec fn pair_fits(f: FactsView, e: (TermId, TermId)) -> bool {
    &&& !disagree(said(f), e.0, e.1)
    &&& !contradict(said(f), f.neg_testers, e.0, e.1)
    &&& !disagree(said(f), e.1, e.0)
    &&& !contradict(said(f), f.neg_testers, e.1, e.0)
}

/// The list holds the pair.
fn holds(list: &Vec<(TermId, Symbol)>, v: TermId, k: Symbol) -> (r: bool)
    ensures
        r == list@.contains((v, k)),
{
    let mut i: usize = 0;
    while i < list.len()
        invariant
            i <= list.len(),
            forall|j: int| 0 <= j < i ==> list@[j] != (v, k),
        decreases list.len() - i,
    {
        if list[i].0 == v && list[i].1 == k {
            assert(list@[i as int] == (v, k));
            return true;
        }
        i = i + 1;
    }
    false
}

/// The term is said to be built by none of the constructors of its sort.
fn find_none_left(m: &TermManager, f: &DtFacts, v: TermId) -> (r: bool)
    ensures
        r == none_left(m, f@, v),
{
    if v >= m.terms.len() || m.terms[v].sort >= m.sorts.len() {
        return false;
    }
    match &m.sorts[m.terms[v].sort] {
        Sort::Datatype(l) => {
            if l.len() == 0 {
                return false;
            }
            let mut i: usize = 0;
            while i < l.len()
                invariant
                    i <= l.len(),
                    layouts_of(m, m.sort_of(v)) == Some(l@),
                    forall|j: int| 0 <= j < i ==> excluded(f@, v, #[trigger] l@[j]),
                decreases l.len() - i,
            {
                let k: usize = l[i].name;
                let out = holds(&f.neg_testers, v, k) || (l[i].fields.len() == 0 && holds(&f.neg_ctor_eqs, v, k));
                if !out {
                    assert(!excluded(f@, v, l@[i as int]));
                    return false;
                }
                i = i + 1;
            }
            true
        },
        _ => false,
    }
}

/// Some term is said to be built by none of the constructors of its sort.
pub fn find_exhausted(m: &TermManager, f: &DtFacts) -> (r: bool)
    ensures
        r == exhausted(m, f@),
{
    let list = concat_kinds(&f.neg_testers, &f.neg_ctor_eqs);
    let mut i: usize = 0;
    while i < list.len()
        invariant
            i <= list.len(),
            list@ == f@.neg_testers + f@.neg_ctor_eqs,
            forall|j: int| 0 <= j < i ==> !none_left(m, f@, (#[trigger] list@[j]).0),
        decreases list.len() - i,
    {
        if find_none_left(m, f, list[i].0) {
            return true;
        }
        i = i + 1;
    }
    proof {
        assert forall|v: TermId| !#[trigger] none_left(m, f@, v) by {
            if none_left(m, f@, v) {
                let c = layouts_of(m, m.sort_of(v))->Some_0[0];
                assert(excluded(f@, v, c));
                if f@.neg_testers.contains((v, c.name)) {
                    let j = choose|j: int| 0 <= j < f@.neg_testers.len() && f@.neg_testers[j] == (v, c.name);
                    assert(list@[j] == (v, c.name));
                } else {
                    let j = choose|j: int| 0 <= j < f@.neg_ctor_eqs.len() && f@.neg_ctor_eqs[j] == (v, c.name);
                    assert(list@[f@.neg_testers.len() + j] == (v, c.name));
                }
            }
        }
    }
    false
}

/// The two lists, one after the other.
fn concat_pairs(a: &Vec<(TermId, TermId)>, b: &Vec<(TermId, TermId)>) -> (r: Vec<(TermId, TermId)>)
    ensures
        r@ == a@ + b@,
{
    concat_kinds(a, b)
}

/// Closes the equalities that the facts give.
pub fn close_facts(m: &TermManager, f: &DtFacts, budget: &mut u32) -> (r: DtEqualityClosure)
    requires
        m.wf(),
    ensures
        *final(budget) <= *old(budget),
        is_closure(m, f@, r.closed_eqs@),
        follows(m, base_eqs(f@), f@.sel_eqs, r.derived_ctor_eqs@),
        *final(budget) > 0 ==> ctor_closed(m, r.closed_eqs@) && selector_closed(m, r.closed_eqs@, f@.sel_eqs),
        closes(m, f@.sel_eqs, underived(base_eqs(f@)), *old(budget) as nat, *final(budget) as nat, r.state()),
        r.bindings_ok(m),
{
    let binds = concat_pairs(&f.ctor_binds, &f.ctor_ctor_eqs);
    compute_dt_equality_closure(m, &f.var_eqs, &binds, &f.sel_eqs, budget)
}

/// The equalities force a value to be part of itself, or terms to be equal that must differ.
fn find_refutation(m: &TermManager, f: &DtFacts, c: &DtEqualityClosure, ctors: &Vec<TermId>) -> (r: bool)
    requires
        m.wf(),
    ensures
        r == refuted(m, f@, c.closed_eqs@, ctors@),
{
    if cycle_exists_given(m, &c.closed_eqs, ctors) {
        return true;
    }
    let conflict = c.forces_disequality_conflict(&f.diseqs);
    proof {
        let eqs = c.closed_eqs@;
        let ds = f@.diseqs;
        assert(ds == f.diseqs@);
        if conflict {
            let i = choose|i: int| 0 <= i < f.diseqs@.len() && joined(eqs, (#[trigger] f.diseqs@[i]).0, f.diseqs@[i].1);
            assert(joined(eqs, ds[i].0, ds[i].1));
        }
    }
    conflict
}

/// Values that obey the laws of datatypes give terms depths.
proof fn lemma_model_ranks(m: &TermManager, d: DtModel, eqs: Pairs, ctors: Seq<TermId>)
    requires
        is_model(m, d),
        all_equal(d, eqs),
    ensures
        acyclic(m, eqs, ctors),
{
    let rank = |t: TermId| (d.rank)((d.val)(t)) as int;
    assert(respects(rank, eqs));
    assert forall|k: int, i: int|
        0 <= k < ctors.len() && is_ctor(m, ctors[k]) && 0 <= i < m.args(ctors[k]).len() && is_datatype_term(
            m,
            m.args(ctors[k])[i],
        ) implies rank(#[trigger] m.args(#[trigger] ctors[k])[i]) < rank(ctors[k]) by {
        assert(m.arg(ctors[k], i) == m.args(ctors[k])[i]);
    }
    assert(ranks(m, eqs, ctors, rank));
}

/// Facts that hold are not refuted.
pub proof fn lemma_not_refuted(m: &TermManager, d: DtModel, f: FactsView, eqs: Pairs, ctors: Seq<TermId>)
    requires
        is_model(m, d),
        facts_hold(d, f),
        is_closure(m, f, eqs),
    ensures
        !refuted(m, f, eqs, ctors),
{
    lemma_pairs_plus(d, f.ctor_binds, f.ctor_ctor_eqs);
    lemma_pairs_plus(d, f.var_eqs, f.ctor_binds + f.ctor_ctor_eqs);
    assert(all_equal(d, eqs));
    lemma_model_ranks(m, d, eqs, ctors);
    assert forall|i: int| 0 <= i < f.diseqs.len() implies !joined(eqs, (#[trigger] f.diseqs[i]).0, f.diseqs[i].1) by {
        if joined(eqs, f.diseqs[i].0, f.diseqs[i].1) {
            lemma_joined_value(d, eqs, f.diseqs[i].0, f.diseqs[i].1);
        }
    }
}

/// Facts that hold do not clash.
pub proof fn lemma_no_clash(m: &TermManager, d: DtModel, f: FactsView)
    requires
        is_model(m, d),
        facts_hold(d, f),
    ensures
        !kinds_clash(f),
        !exhausted(m, f),
{
    let p = said(f);
    assert forall|i: int| 0 <= i < p.len() implies (d.kind)((d.val)((#[trigger] p[i]).0)) == p[i].1 by {
        if i < f.testers.len() {
            assert(p[i] == f.testers[i]);
        } else {
            assert(p[i] == f.ctor_eqs[i - f.testers.len()]);
        }
    }
    assert forall|v: TermId, w: TermId| #[trigger] same_variable(f, v, w) implies !disagree(p, v, w) && !contradict(
        p,
        f.neg_testers,
        v,
        w,
    ) by {
        assert((d.val)(v) == (d.val)(w)) by {
            if v != w {
                let q = if f.var_eqs.contains((v, w)) { (v, w) } else { (w, v) };
                let e = choose|e: int| 0 <= e < f.var_eqs.len() && f.var_eqs[e] == q;
                assert((d.val)(f.var_eqs[e].0) == (d.val)(f.var_eqs[e].1));
            }
        }
    }
    assert forall|v: TermId| !#[trigger] none_left(m, f, v) by {
        if none_left(m, f, v) {
            let l = layouts_of(m, m.sort_of(v))->Some_0;
            let i = choose|i: int| 0 <= i < l.len() && (#[trigger] l[i]).name == (d.kind)((d.val)(v));
            assert(excluded(f, v, l[i]));
            if f.neg_testers.contains((v, l[i].name)) {
                let j = choose|j: int| 0 <= j < f.neg_testers.len() && f.neg_testers[j] == (v, l[i].name);
                assert((d.kind)((d.val)(f.neg_testers[j].0)) != f.neg_testers[j].1);
            } else {
                let j = choose|j: int| 0 <= j < f.neg_ctor_eqs.len() && f.neg_ctor_eqs[j] == (v, l[i].name);
                assert((d.kind)((d.val)(f.neg_ctor_eqs[j].0)) != f.neg_ctor_eqs[j].1);
            }
        }
    }
}

/// Formulas with the truth values that they are to have; the last is looked at first.
pub type Items = Seq<(TermId, bool)>;

/// The items under `t` that all have to have the truth value `p`, the first last.
pub open spec fn under(m: &TermManager, t: TermId, p: bool) -> Items {
    Seq::new(m.args(t).len(), |i: int| (m.args(t)[m.args(t).len() - 1 - i], p))
}

/// The formula has the truth value `p` exactly if all its arguments have.
pub open spec fn splits_all(op: Op, p: bool) -> bool {
    (op is And && p) || (op is Or && !p)
}

/// The formula has the truth value `p` exactly if some argument has.
pub open spec fn splits_some(op: Op, p: bool) -> bool {
    (op is Or && p) || (op is And && !p)
}

/// The literals are one way of making the items have their truth values, found in `n` steps.
pub open spec fn is_case(m: &TermManager, items: Items, lits: Items, n: nat) -> bool
    decreases n,
{
    if n == 0 {
        false
    } else if items.len() == 0 {
        lits.len() == 0
    } else {
        let (t, p) = items.last();
        let rest = items.drop_last();
        let k = (n - 1) as nat;
        if !m.has(t) {
            is_case(m, rest, lits, k)
        } else if m.op(t) is Not {
            is_case(m, rest.push((m.arg(t, 0), !p)), lits, k)
        } else if splits_all(m.op(t), p) {
            is_case(m, rest + under(m, t, p), lits, k)
        } else if splits_some(m.op(t), p) {
            exists|i: int| 0 <= i < m.args(t).len() && is_case(m, rest.push((#[trigger] m.args(t)[i], p)), lits, k)
        } else {
            lits.len() > 0 && lits[0] == (t, p) && is_case(m, rest, lits.drop_first(), k)
        }
    }
}

/// The facts together with what the literals say.
pub open spec fn facts_along(m: &TermManager, f: FactsView, lits: Items) -> FactsView
    decreases lits.len(),
{
    if lits.len() == 0 {
        f
    } else {
        facts_along(m, f.plus(facts_under(m, lits[0].0, lits[0].1)), lits.drop_first())
    }
}

/// Some case leaves nothing wrong.
pub open spec fn case_left(m: &TermManager, items: Items, f: FactsView, ctors: Seq<TermId>) -> bool {
    exists|lits: Items, n: nat| #[trigger] is_case(m, items, lits, n) && open_case(m, facts_along(m, f, lits), ctors)
}

/// The answer of the search through the cases of the items, in at most `budget` steps, of which
/// `left` are left. An item takes a step, and so does a case that is complete; the closure of what
/// a case says draws on the same budget. A case is refuted by its closure.
pub open spec fn searched(m: &TermManager, items: Items, f: FactsView, ctors: Seq<TermId>, budget: nat, left: nat, r: bool) -> bool
    decreases budget, 0nat,
{
    if budget == 0 {
        left == 0 && !r
    } else if items.len() == 0 {
        exists|c: Closing| #[trigger]
            closes(m, f.sel_eqs, underived(base_eqs(f)), (budget - 1) as nat, left, c) && r == refuted(m, f, c.eqs, ctors)
    } else {
        let (t, p) = items.last();
        let rest = items.drop_last();
        let b = (budget - 1) as nat;
        if !m.has(t) {
            searched(m, rest, f, ctors, b, left, r)
        } else if m.op(t) is Not {
            searched(m, rest.push((m.arg(t, 0), !p)), f, ctors, b, left, r)
        } else if splits_all(m.op(t), p) {
            searched(m, rest + under(m, t, p), f, ctors, b, left, r)
        } else if splits_some(m.op(t), p) {
            searched_each(m, t, p, 0, rest, f, ctors, b, left, r)
        } else {
            searched(m, rest, f.plus(facts_under(m, t, p)), ctors, b, left, r)
        }
    }
}

/// What is left of a budget.
pub open spec fn within(left: nat, budget: nat) -> bool {
    left <= budget
}

/// The answer of the search through the arguments of `t` from position `i` on, up to the first that
/// is not refuted.
pub open spec fn searched_each(
    m: &TermManager,
    t: TermId,
    p: bool,
    i: nat,
    rest: Items,
    f: FactsView,
    ctors: Seq<TermId>,
    budget: nat,
    left: nat,
    r: bool,
) -> bool
    decreases budget, 1 + m.args(t).len() - i,
{
    if i >= m.args(t).len() {
        left == budget && r
    } else {
        let items = rest.push((m.args(t)[i as int], p));
        exists|b: nat| #[trigger]
            within(b, budget) && {
                ||| searched(m, items, f, ctors, budget, b, true) && searched_each(m, t, p, i + 1, rest, f, ctors, b, left, r)
                ||| searched(m, items, f, ctors, budget, b, false) && left == b && !r
            }
    }
}

/// The search through the arguments goes on behind one that is refuted, and ends with one that is
/// not.
proof fn lemma_searched_each(
    m: &TermManager,
    t: TermId,
    p: bool,
    i: nat,
    rest: Items,
    f: FactsView,
    ctors: Seq<TermId>,
    budget: nat,
    b: nat,
    q: bool,
)
    requires
        i < m.args(t).len(),
        b <= budget,
        searched(m, rest.push((m.args(t)[i as int], p)), f, ctors, budget, b, q),
    ensures
        q ==> forall|left: nat, r: bool|
            #[trigger] searched_each(m, t, p, i + 1, rest, f, ctors, b, left, r) ==> searched_each(
                m,
                t,
                p,
                i,
                rest,
                f,
                ctors,
                budget,
                left,
                r,
            ),
        !q ==> searched_each(m, t, p, i, rest, f, ctors, budget, b, false),
{
    assert(within(b, budget));
}

/// The items have their truth values.
pub open spec fn items_true(m: &TermManager, r: Reading, items: Items) -> bool {
    forall|i: int| 0 <= i < items.len() ==> truth(m, r, (#[trigger] items[i]).0) == items[i].1
}

/// Nothing satisfies the items and the facts.
pub open spec fn impossible(m: &TermManager, items: Items, f: FactsView) -> bool {
    forall|r: Reading, d: DtModel| !(is_model(m, d) && #[trigger] reads(m, r, d) && items_true(m, r, items) && facts_hold(d, f))
}

impl DtFacts {
    /// The lengths of the lists.
    fn mark(&self) -> (k: (usize, usize, usize, usize, usize, usize, usize, usize, usize))
        ensures
            k.0 == self@.testers.len(),
            k.1 == self@.neg_testers.len(),
            k.2 == self@.ctor_eqs.len(),
            k.3 == self@.neg_ctor_eqs.len(),
            k.4 == self@.var_eqs.len(),
            k.5 == self@.ctor_binds.len(),
            k.6 == self@.sel_eqs.len(),
            k.7 == self@.ctor_ctor_eqs.len(),
            k.8 == self@.diseqs.len(),
    {
        (
            self.testers.len(),
            self.neg_testers.len(),
            self.ctor_eqs.len(),
            self.neg_ctor_eqs.len(),
            self.var_eqs.len(),
            self.ctor_binds.len(),
            self.sel_eqs.len(),
            self.ctor_ctor_eqs.len(),
            self.diseqs.len(),
        )
    }

    /// Drops what was recorded after the mark.
    fn drop_to(&mut self, k: (usize, usize, usize, usize, usize, usize, usize, usize, usize), Ghost(f): Ghost<FactsView>, Ghost(g): Ghost<FactsView>)
        requires
            old(self)@ == f.plus(g),
            k.0 == f.testers.len(),
            k.1 == f.neg_testers.len(),
            k.2 == f.ctor_eqs.len(),
            k.3 == f.neg_ctor_eqs.len(),
            k.4 == f.var_eqs.len(),
            k.5 == f.ctor_binds.len(),
            k.6 == f.sel_eqs.len(),
            k.7 == f.ctor_ctor_eqs.len(),
            k.8 == f.diseqs.len(),
        ensures
            final(self)@ == f,
    {
        self.testers.truncate(k.0);
        self.neg_testers.truncate(k.1);
        self.ctor_eqs.truncate(k.2);
        self.neg_ctor_eqs.truncate(k.3);
        self.var_eqs.truncate(k.4);
        self.ctor_binds.truncate(k.5);
        self.sel_eqs.truncate(k.6);
        self.ctor_ctor_eqs.truncate(k.7);
        self.diseqs.truncate(k.8);
        assert(self@ =~= f);
    }
}

/// Every way of giving the items their truth values is refuted, as far as `budget` steps show.
/// The budget that is left is positive only if the search came to its end.
pub fn dt_items_force_conflict(
    m: &TermManager,
    items: &mut Vec<(TermId, bool)>,
    f: &mut DtFacts,
    ctors: &Vec<TermId>,
    budget: &mut u32,
) -> (r: bool)
    requires
        m.wf(),
    ensures
        final(items)@ == old(items)@,
        final(f)@ == old(f)@,
        *final(budget) <= *old(budget),
        r && well_typed(m) ==> impossible(m, old(items)@, old(f)@),
        !r && *final(budget) > 0 ==> case_left(m, old(items)@, old(f)@, ctors@),
        searched(m, old(items)@, old(f)@, ctors@, *old(budget) as nat, *final(budget) as nat, r),
    decreases *old(budget),
{
    if *budget == 0 {
        return false;
    }
    *budget = *budget - 1;
    let ghost all = items@;
    let top = items.pop();
    let (t, p) = match top {
        None => {
            assert(items@ =~= all);
            let c = close_facts(m, f, budget);
            let r = find_refutation(m, f, &c, ctors);
            proof {
                let b = (*old(budget) - 1) as nat;
                assert(closes(m, f@.sel_eqs, underived(base_eqs(f@)), b, *budget as nat, c.state()));
                if r {
                    assert forall|rd: Reading, d: DtModel| !(is_model(m, d) && #[trigger] reads(m, rd, d) && items_true(m, rd, all)
                        && facts_hold(d, f@)) by {
                        if is_model(m, d) && facts_hold(d, f@) {
                            lemma_not_refuted(m, d, f@, c.closed_eqs@, ctors@);
                        }
                    }
                } else if *budget > 0 {
                    let none = Seq::<(TermId, bool)>::empty();
                    assert(is_case(m, all, none, 1));
                    assert(facts_along(m, f@, none) == f@);
                    assert(is_closure(m, f@, c.closed_eqs@));
                    assert(open_case(m, f@, ctors@));
                }
            }
            return r;
        },
        Some(top) => top,
    };
    let ghost rest = items@;
    assert(rest =~= all.drop_last() && all.last() == (t, p));
    if t >= m.terms.len() {
        let r = dt_items_force_conflict(m, items, f, ctors, budget);
        items.push((t, p));
        proof {
            assert(items@ =~= all);
            lemma_fewer_items(m, all, rest, f@);
            if !r && *budget > 0 {
                let (lits, n) = choose|lits: Items, n: nat| #[trigger]
                    is_case(m, rest, lits, n) && open_case(m, facts_along(m, f@, lits), ctors@);
                assert(is_case(m, all, lits, (n + 1) as nat));
            }
        }
        return r;
    }
    assert(m.terms@[t as int].fits(t as int));
    match m.terms[t].op {
        Op::Not => {
            let a: usize = m.terms[t].args[0];
            items.push((a, !p));
            let ghost next = items@;
            let r = dt_items_force_conflict(m, items, f, ctors, budget);
            let dropped = items.pop();
            items.push((t, p));
            proof {
                assert(items@ =~= all);
                if r && well_typed(m) {
                    assert forall|rd: Reading, d: DtModel| !(is_model(m, d) && #[trigger] reads(m, rd, d) && items_true(m, rd, all)
                        && facts_hold(d, f@)) by {
                        if items_true(m, rd, all) {
                            assert(truth(m, rd, all[all.len() - 1].0) == all[all.len() - 1].1);
                            lemma_items_push(m, rd, all, rest, (a, !p));
                        }
                    }
                }
                if !r && *budget > 0 {
                    let (lits, n) = choose|lits: Items, n: nat| #[trigger]
                        is_case(m, next, lits, n) && open_case(m, facts_along(m, f@, lits), ctors@);
                    assert(is_case(m, all, lits, (n + 1) as nat));
                }
            }
            r
        },
        Op::And | Op::Or => {
            let conjunctive = match m.terms[t].op {
                Op::And => p,
                _ => !p,
            };
            let n: usize = m.terms[t].args.len();
            let base: usize = items.len();
            if conjunctive {
                let mut i: usize = n;
                while i > 0
                    invariant
                        i <= n,
                        m.wf(),
                        m.has(t),
                        n == m.args(t).len(),
                        base == rest.len(),
                        items@ == rest + under(m, t, p).take(n - i),
                    decreases i,
                {
                    i = i - 1;
                    items.push((m.terms[t].args[i], p));
                    assert(under(m, t, p).take(n - i) =~= under(m, t, p).take(n - i - 1).push((m.args(t)[i as int], p)));
                    assert(items@ =~= rest + under(m, t, p).take(n - i));
                }
                assert(under(m, t, p).take(n as int) =~= under(m, t, p));
                let ghost next = items@;
                let r = dt_items_force_conflict(m, items, f, ctors, budget);
                items.truncate(base);
                items.push((t, p));
                proof {
                    assert(items@ =~= all);
                    if r && well_typed(m) {
                        assert forall|rd: Reading, d: DtModel| !(is_model(m, d) && #[trigger] reads(m, rd, d) && items_true(m, rd, all)
                            && facts_hold(d, f@)) by {
                            if items_true(m, rd, all) {
                                lemma_items_all(m, rd, all, t, p);
                            }
                        }
                    }
                    if !r && *budget > 0 {
                        let (lits, k) = choose|lits: Items, k: nat| #[trigger]
                            is_case(m, next, lits, k) && open_case(m, facts_along(m, f@, lits), ctors@);
                        assert(is_case(m, all, lits, (k + 1) as nat));
                    }
                }
                r
            } else {
                let mut i: usize = 0;
                let mut all_refuted = true;
                let ghost whole = *budget as nat;
                while all_refuted && i < n
                    invariant
                        whole == *old(budget) - 1,
                        all_refuted ==> forall|left: nat, q: bool|
                            searched_each(m, t, p, i as nat, rest, f@, ctors@, *budget as nat, left, q) ==> #[trigger] searched_each(
                                m,
                                t,
                                p,
                                0,
                                rest,
                                f@,
                                ctors@,
                                whole,
                                left,
                                q,
                            ),
                        !all_refuted ==> searched_each(m, t, p, 0, rest, f@, ctors@, whole, *budget as nat, false),
                        i <= n,
                        m.wf(),
                        m.has(t),
                        m.terms@[t as int].fits(t as int),
                        n == m.args(t).len(),
                        items@ == rest,
                        rest == all.drop_last(),
                        all.len() > 0,
                        all.last() == (t, p),
                        splits_some(m.op(t), p),
                        f@ == old(f)@,
                        *budget < *old(budget),
                        all_refuted && well_typed(m) ==> forall|j: int|
                            0 <= j < i ==> impossible(m, rest.push((#[trigger] m.args(t)[j], p)), f@),
                        !all_refuted && *budget > 0 ==> case_left(m, all, f@, ctors@),
                    decreases n - i,
                {
                    let a: usize = m.terms[t].args[i];
                    items.push((a, p));
                    let ghost next = items@;
                    let ghost steps = *budget as nat;
                    assert(a == m.args(t)[i as int]);
                    all_refuted = dt_items_force_conflict(m, items, f, ctors, budget);
                    let dropped = items.pop();
                    assert(items@ =~= rest);
                    proof {
                        lemma_searched_each(m, t, p, i as nat, rest, f@, ctors@, steps, *budget as nat, all_refuted);
                        if all_refuted {
                            assert forall|left: nat, q: bool|
                                searched_each(m, t, p, (i + 1) as nat, rest, f@, ctors@, *budget as nat, left, q) implies #[trigger] searched_each(
                                m,
                                t,
                                p,
                                0,
                                rest,
                                f@,
                                ctors@,
                                whole,
                                left,
                                q,
                            ) by {
                                assert(searched_each(m, t, p, i as nat, rest, f@, ctors@, steps, left, q));
                            }
                        }
                        if !all_refuted && *budget > 0 {
                            let (lits, k) = choose|lits: Items, k: nat| #[trigger]
                                is_case(m, next, lits, k) && open_case(m, facts_along(m, f@, lits), ctors@);
                            assert(is_case(m, rest.push((m.args(t)[i as int], p)), lits, k));
                            assert(is_case(m, all, lits, (k + 1) as nat));
                        }
                    }
                    i = i + 1;
                }
                items.push((t, p));
                proof {
                    assert(items@ =~= all);
                    if all_refuted {
                        assert(searched_each(m, t, p, n as nat, rest, f@, ctors@, *budget as nat, *budget as nat, true));
                    }
                    assert(searched_each(m, t, p, 0, rest, f@, ctors@, whole, *budget as nat, all_refuted));
                    if all_refuted && well_typed(m) {
                        assert forall|rd: Reading, d: DtModel| !(is_model(m, d) && #[trigger] reads(m, rd, d) && items_true(m, rd, all)
                            && facts_hold(d, f@)) by {
                            if is_model(m, d) && reads(m, rd, d) && items_true(m, rd, all) && facts_hold(d, f@) {
                                lemma_items_some(m, rd, all, t, p);
                                let j = choose|j: int|
                                    0 <= j < m.args(t).len() && items_true(m, rd, rest.push((#[trigger] m.args(t)[j], p)));
                                assert(impossible(m, rest.push((m.args(t)[j], p)), f@));
                            }
                        }
                    }
                }
                all_refuted
            }
        },
        _ => {
            let k = f.mark();
            let ghost before = f@;
            let ghost new = facts_under(m, t, p);
            f.collect_dt_constraints(m, t, p);
            let r = dt_items_force_conflict(m, items, f, ctors, budget);
            let ghost with_new = f@;
            f.drop_to(k, Ghost(before), Ghost(new));
            items.push((t, p));
            proof {
                assert(items@ =~= all);
                if r && well_typed(m) {
                    assert forall|rd: Reading, d: DtModel| !(is_model(m, d) && #[trigger] reads(m, rd, d) && items_true(m, rd, all)
                        && facts_hold(d, f@)) by {
                        if is_model(m, d) && reads(m, rd, d) && items_true(m, rd, all) && facts_hold(d, f@) {
                            assert(truth(m, rd, all[all.len() - 1].0) == all[all.len() - 1].1);
                            lemma_facts_hold(m, rd, d, t, p);
                            lemma_plus_holds(d, before, new);
                            assert forall|i: int| 0 <= i < rest.len() implies truth(m, rd, (#[trigger] rest[i]).0) == rest[i].1 by {
                                assert(all[i] == rest[i]);
                            }
                            assert(items_true(m, rd, rest) && facts_hold(d, with_new));
                        }
                    }
                }
                if !r && *budget > 0 {
                    let (lits, n) = choose|lits: Items, n: nat| #[trigger]
                        is_case(m, rest, lits, n) && open_case(m, facts_along(m, with_new, lits), ctors@);
                    let more = seq![(t, p)] + lits;
                    assert(more.drop_first() =~= lits);
                    assert(facts_along(m, before, more) == facts_along(m, with_new, lits));
                    assert(is_case(m, all, more, (n + 1) as nat));
                }
            }
            r
        },
    }
}

/// What is impossible with fewer items is impossible with more.
proof fn lemma_fewer_items(m: &TermManager, all: Items, rest: Items, f: FactsView)
    requires
        all.len() > 0,
        rest == all.drop_last(),
    ensures
        impossible(m, rest, f) ==> impossible(m, all, f),
{
    assert forall|r: Reading, d: DtModel|
        impossible(m, rest, f) implies !(is_model(m, d) && #[trigger] reads(m, r, d) && items_true(m, r, all) && facts_hold(d, f)) by {
        if items_true(m, r, all) {
            assert forall|i: int| 0 <= i < rest.len() implies truth(m, r, (#[trigger] rest[i]).0) == rest[i].1 by {
                assert(all[i] == rest[i]);
            }
        }
    }
}

/// The item in place of the last one.
proof fn lemma_items_push(m: &TermManager, r: Reading, all: Items, rest: Items, e: (TermId, bool))
    requires
        all.len() > 0,
        rest == all.drop_last(),
        items_true(m, r, all),
        truth(m, r, e.0) == e.1,
    ensures
        items_true(m, r, rest.push(e)),
{
    let next = rest.push(e);
    assert forall|i: int| 0 <= i < next.len() implies truth(m, r, (#[trigger] next[i]).0) == next[i].1 by {
        if i < rest.len() {
            assert(all[i] == next[i]);
        }
    }
}

/// All arguments in place of the last item.
proof fn lemma_items_all(m: &TermManager, r: Reading, all: Items, t: TermId, p: bool)
    requires
        m.wf(),
        m.has(t),
        all.len() > 0,
        all.last() == (t, p),
        splits_all(m.op(t), p),
        items_true(m, r, all),
    ensures
        items_true(m, r, all.drop_last() + under(m, t, p)),
{
    let rest = all.drop_last();
    let u = under(m, t, p);
    let next = rest + u;
    let args = m.args(t);
    assert(m.terms@[t as int].fits(t as int));
    assert(truth(m, r, all[all.len() - 1].0) == all[all.len() - 1].1);
    assert(truth(m, r, t) == p);
    assert forall|i: int| 0 <= i < next.len() implies truth(m, r, (#[trigger] next[i]).0) == next[i].1 by {
        if i < rest.len() {
            assert(all[i] == next[i]);
        } else {
            let j = args.len() - 1 - (i - rest.len());
            assert(next[i] == (args[j], p));
            assert(args[j] < t);
        }
    }
}

/// Some argument in place of the last item.
proof fn lemma_items_some(m: &TermManager, r: Reading, all: Items, t: TermId, p: bool)
    requires
        m.wf(),
        m.has(t),
        all.len() > 0,
        all.last() == (t, p),
        splits_some(m.op(t), p),
        items_true(m, r, all),
    ensures
        exists|j: int| 0 <= j < m.args(t).len() && items_true(m, r, all.drop_last().push((#[trigger] m.args(t)[j], p))),
{
    let args = m.args(t);
    assert(m.terms@[t as int].fits(t as int));
    assert(truth(m, r, all[all.len() - 1].0) == all[all.len() - 1].1);
    assert(truth(m, r, t) == p);
    let j = if p {
        choose|j: int| 0 <= j < args.len() && (#[trigger] args[j] < t && truth(m, r, args[j]))
    } else {
        choose|j: int| 0 <= j < args.len() && !(#[trigger] args[j] < t && truth(m, r, args[j]))
    };
    assert(args[j] < t);
    assert(truth(m, r, args[j]) == p);
    lemma_items_push(m, r, all, all.drop_last(), (args[j], p));
}

/// What the assertions say.
pub open spec fn asserted_facts(m: &TermManager, assertions: Seq<TermId>) -> FactsView {
    facts_of_all(m, assertions, assertions.len() as int)
}

/// The assertions as items, the first last.
pub open spec fn asserted_items(assertions: Seq<TermId>) -> Items {
    Seq::new(assertions.len(), |i: int| (assertions[assertions.len() - 1 - i], true))
}

/// The list holds exactly the constructor applications of the assertions.
pub open spec fn are_ctors_of(m: &TermManager, assertions: Seq<TermId>, ctors: Seq<TermId>) -> bool {
    forall|x: usize| #[trigger] ctors.contains(x) <==> is_ctor(m, x) && crate::walk::occurs_in(
        m,
        assertions,
        assertions.len() as int,
        x,
    )
}

/// Every case of the disjunctions in the assertions is refuted, as far as `budget` steps show. The
/// budget that is left is positive only if the search came to its end.
pub fn check_dt_or_case_split_conflict(m: &TermManager, assertions: &Vec<TermId>, ctors: &Vec<TermId>, budget: &mut u32) -> (r: bool)
    requires
        m.wf(),
    ensures
        *final(budget) <= *old(budget),
        r && well_typed(m) ==> impossible(m, asserted_items(assertions@), no_facts()),
        !r && *final(budget) > 0 ==> case_left(m, asserted_items(assertions@), no_facts(), ctors@),
        searched(m, asserted_items(assertions@), no_facts(), ctors@, *old(budget) as nat, *final(budget) as nat, r),
{
    let mut items: Vec<(TermId, bool)> = Vec::new();
    let n: usize = assertions.len();
    let mut i: usize = n;
    let ghost want = asserted_items(assertions@);
    while i > 0
        invariant
            i <= n,
            n == assertions@.len(),
            want == asserted_items(assertions@),
            items@ == want.take(n - i),
        decreases i,
    {
        i = i - 1;
        items.push((assertions[i], true));
        assert(want.take(n - i) =~= want.take(n - i - 1).push((assertions@[i as int], true)));
    }
    assert(want.take(n as int) =~= want);
    let mut f = DtFacts::new();
    dt_items_force_conflict(m, &mut items, &mut f, ctors, budget)
}

/// The closure of what the assertions say refutes them, or the search through their cases does.
pub open spec fn closed_verdict(m: &TermManager, assertions: Seq<TermId>, ctors: Seq<TermId>, c: Closing, r: bool) -> bool {
    &&& are_ctors_of(m, assertions, ctors)
    &&& is_closure(m, asserted_facts(m, assertions), c.eqs)
    &&& is_closing(m, asserted_facts(m, assertions), c)
    &&& if refuted(m, asserted_facts(m, assertions), c.eqs, ctors) {
        r
    } else {
        exists|left: nat| #[trigger]
            searched(m, asserted_items(assertions), no_facts(), ctors, DT_OR_CASE_SPLIT_BUDGET as nat, left, r)
    }
}

/// The equalities that the closure of the facts leads to.
pub open spec fn is_closing(m: &TermManager, f: FactsView, c: Closing) -> bool {
    exists|left: nat| #[trigger] closes(m, f.sel_eqs, underived(base_eqs(f)), DT_CLOSURE_STEP_BUDGET as nat, left, c)
}

/// The answer of the check of datatypes: a conflict is one under all values that obey the laws of
/// datatypes; a variable of two constructors and one that no constructor can have built are found;
/// and otherwise the closure of the equalities decides, or the search through the cases.
pub open spec fn dt_verdict(m: &TermManager, assertions: Seq<TermId>, r: bool) -> bool {
    let f = asserted_facts(m, assertions);
    &&& r && well_typed(m) ==> forall|rd: Reading, d: DtModel|
        !(is_model(m, d) && #[trigger] reads(m, rd, d) && all_true(m, rd, assertions))
    &&& kinds_clash(f) ==> r
    &&& exhausted(m, f) ==> r
    &&& !kinds_clash(f) && !exhausted(m, f) ==> exists|ctors: Seq<TermId>, c: Closing| #[trigger]
        closed_verdict(m, assertions, ctors, c, r)
}

/// The assertions contradict the laws of datatypes: by what they say of constructors, by leaving
/// a term no constructor, by forcing a value to be part of itself or terms to be equal that must
/// differ, or by doing so in every case of their disjunctions.
pub fn check_dt_constraints(m: &TermManager, assertions: &Vec<TermId>) -> (r: bool)
    requires
        m.wf(),
    ensures
        dt_verdict(m, assertions@, r),
{
    let f = collect_all(m, assertions);
    let ghost n = assertions@.len() as int;
    proof {
        if well_typed(m) {
            assert forall|rd: Reading, d: DtModel| is_model(m, d) && #[trigger] reads(m, rd, d) && all_true(m, rd, assertions@) implies facts_hold(
                d,
                f@,
            ) by {
                lemma_all_facts_hold(m, rd, d, assertions@, n);
            }
        }
    }
    if find_kinds_clash(&f) || find_exhausted(m, &f) {
        proof {
            assert forall|rd: Reading, d: DtModel|
                well_typed(m) implies !(is_model(m, d) && #[trigger] reads(m, rd, d) && all_true(m, rd, assertions@)) by {
                if is_model(m, d) && reads(m, rd, d) && all_true(m, rd, assertions@) {
                    lemma_no_clash(m, d, f@);
                }
            }
        }
        return true;
    }
    let ctors = build_dt_ctor_terms(m, assertions);
    let mut budget: u32 = DT_CLOSURE_STEP_BUDGET;
    let c = close_facts(m, &f, &mut budget);
    assert(is_closing(m, f@, c.state()));
    if find_refutation(m, &f, &c, &ctors) {
        proof {
            assert(closed_verdict(m, assertions@, ctors@, c.state(), true));
            assert forall|rd: Reading, d: DtModel|
                well_typed(m) implies !(is_model(m, d) && #[trigger] reads(m, rd, d) && all_true(m, rd, assertions@)) by {
                if is_model(m, d) && reads(m, rd, d) && all_true(m, rd, assertions@) {
                    lemma_not_refuted(m, d, f@, c.closed_eqs@, ctors@);
                }
            }
        }
        return true;
    }
    let mut steps: u32 = DT_OR_CASE_SPLIT_BUDGET;
    let r = check_dt_or_case_split_conflict(m, assertions, &ctors, &mut steps);
    proof {
        if r && well_typed(m) {
            assert forall|rd: Reading, d: DtModel| !(is_model(m, d) && #[trigger] reads(m, rd, d) && all_true(m, rd, assertions@)) by {
                if is_model(m, d) && reads(m, rd, d) && all_true(m, rd, assertions@) {
                    let items = asserted_items(assertions@);
                    assert forall|i: int| 0 <= i < items.len() implies truth(m, rd, (#[trigger] items[i]).0) == items[i].1 by {
                        assert(truth(m, rd, assertions@[assertions@.len() - 1 - i]));
                    }
                    assert(items_true(m, rd, items));
                    assert(facts_hold(d, no_facts()));
                }
            }
        }
        assert(closed_verdict(m, assertions@, ctors@, c.state(), r));
    }
    r
}

/// The constructor applications that the assertions force variables to equal.
pub fn collect_var_ctor_bindings(m: &TermManager, assertions: &Vec<TermId>) -> (r: DtEqualityClosure)
    requires
        m.wf(),
    ensures
        is_closure(m, asserted_facts(m, assertions@), r.closed_eqs@),
        is_closing(m, asserted_facts(m, assertions@), r.state()),
        r.bindings_ok(m),
{
    let f = collect_all(m, assertions);
    let mut budget: u32 = DT_CLOSURE_STEP_BUDGET;
    close_facts(m, &f, &mut budget)
}

/// A variable that is bound to a constructor application has its value under all values that obey
/// the laws of datatypes and make the assertions true.
pub proof fn law_bindings_are_forced(m: &TermManager, assertions: Seq<TermId>, c: &DtEqualityClosure, r: Reading, d: DtModel, v: TermId)
    requires
        m.wf(),
        well_typed(m),
        is_closure(m, asserted_facts(m, assertions), c.closed_eqs@),
        c.bindings_ok(m),
        is_model(m, d),
        reads(m, r, d),
        all_true(m, r, assertions),
        c.primary_bindings@.contains_key(v),
    ensures
        (d.val)(v) == (d.val)(c.primary_bindings@[v]),
{
    let f = asserted_facts(m, assertions);
    lemma_all_facts_hold(m, r, d, assertions, assertions.len() as int);
    lemma_pairs_plus(d, f.ctor_binds, f.ctor_ctor_eqs);
    lemma_pairs_plus(d, f.var_eqs, f.ctor_binds + f.ctor_ctor_eqs);
    assert(all_equal(d, c.closed_eqs@));
    lemma_joined_value(d, c.closed_eqs@, v, c.primary_bindings@[v]);
}

} // verus!
