//! The equalities that follow from given ones by the laws of datatypes.
use crate::classes::classes_of;
use crate::classes::joined;
use crate::classes::respects;
use crate::classes::Classes;
use crate::dt_cycle::lemma_contains_push;
use crate::dt_facts::constructor_of;
use crate::dt_facts::ctor_of;
use crate::dt_facts::is_ctor;
use crate::dt_facts::is_dt_variable;
use crate::dt_facts::is_selector;
use crate::dt_facts::is_variable;
use crate::dt_model::all_equal;
use crate::dt_model::ctor_value;
use crate::dt_model::is_model;
use crate::dt_model::DtModel;
use crate::dt_resolve::field_of;
use crate::dt_resolve::find_field;
use crate::dt_resolve::law_normal_form_keeps_value;
use crate::dt_resolve::lemma_field_value;
use crate::dt_resolve::memo_ok;
use crate::dt_resolve::normal_form;
use crate::dt_resolve::resolve_dt_normal_form;
use crate::maps::map_insert;
use crate::maps::map_new;
use crate::maps::pair_set_insert;
use crate::maps::pair_set_new;
use crate::maps::set_insert;
use crate::maps::set_new;
use crate::term::Op;
use crate::term::Symbol;
use crate::term::TermId;
use crate::term::TermManager;
use rustc_hash::FxHashMap;
use rustc_hash::FxHashSet;
use vstd::prelude::*;

verus! {

/// A list of pairs that are known to be equal.
pub type Pairs = Seq<(TermId, TermId)>;

/// The list holds the pair, in one order or the other.
pub open spec fn has_pair(eqs: Pairs, a: TermId, b: TermId) -> bool {
    eqs.contains((a, b)) || eqs.contains((b, a))
}

/// The term is a member of some pair.
pub open spec fn in_play(eqs: Pairs, t: TermId) -> bool {
    exists|i: int| 0 <= i < eqs.len() && ((#[trigger] eqs[i]).0 == t || eqs[i].1 == t)
}

/// Equal applications of one constructor are on the list, and so are their arguments.
pub open spec fn injected(m: &TermManager, eqs: Pairs, c: TermId, d: TermId) -> bool {
    &&& has_pair(eqs, c, d)
    &&& forall|i: int| 0 <= i < m.args(c).len() && i < m.args(d).len() ==> #[trigger] m.args(c)[i] == m.args(d)[i] || has_pair(
        eqs,
        m.args(c)[i],
        m.args(d)[i],
    )
}

/// The list is closed under the injectivity of constructors.
pub open spec fn ctor_closed(m: &TermManager, eqs: Pairs) -> bool {
    forall|c: TermId, d: TermId|
        #![trigger is_ctor(m, c), is_ctor(m, d)]
        is_ctor(m, c) && is_ctor(m, d) && c != d && in_play(eqs, c) && in_play(eqs, d) && joined(eqs, c, d) && ctor_of(m, c) == ctor_of(
            m,
            d,
        ) ==> injected(m, eqs, c, d)
}

/// Every term in play whose class holds a constructor application is bound to one, but for the
/// applications that the others are bound to.
pub open spec fn hints_ok(m: &TermManager, eqs: Pairs, h: Map<usize, TermId>) -> bool {
    &&& forall|t: usize| #[trigger] h.contains_key(t) ==> in_play(eqs, t) && is_ctor(m, h[t]) && in_play(eqs, h[t]) && joined(
        eqs,
        t,
        h[t],
    ) && t != h[t]
    &&& forall|t: usize, c: usize|
        #![trigger in_play(eqs, t), is_ctor(m, c)]
        in_play(eqs, t) && is_ctor(m, c) && in_play(eqs, c) && joined(eqs, t, c) && !h.contains_key(t) ==> is_ctor(m, t)
}

/// The field that a selector equation selects equals what the equation says.
pub open spec fn selected(m: &TermManager, eqs: Pairs, h: Map<usize, TermId>, e: (TermId, TermId)) -> bool {
    is_selector(m, e.0) ==> match normal_form(m, h, m.arg(e.0, 0)) {
        None => true,
        Some(c) => match field_of(m, c, m.op(e.0)->DtSelector_0) {
            None => true,
            Some(f) => f == e.1 || has_pair(eqs, f, e.1),
        },
    }
}

/// The list is closed under the selector equations, as far as the bindings resolve their
/// arguments.
pub open spec fn selector_closed(m: &TermManager, eqs: Pairs, sel: Pairs) -> bool {
    exists|h: Map<usize, TermId>| #[trigger] hints_ok(m, eqs, h) && forall|i: int|
        0 <= i < sel.len() ==> selected(m, eqs, h, #[trigger] sel[i])
}

/// The second list follows from the first and the selector equations.
pub open spec fn follows(m: &TermManager, base: Pairs, sel: Pairs, eqs: Pairs) -> bool {
    forall|d: DtModel| #[trigger] is_model(m, d) && all_equal(d, base) && all_equal(d, sel) ==> all_equal(d, eqs)
}

/// The pair in ascending order.
pub open spec fn ordered(a: TermId, b: TermId) -> (TermId, TermId) {
    if a <= b {
        (a, b)
    } else {
        (b, a)
    }
}

/// Two applications of one constructor that the list forces to be equal.
pub open spec fn are_twins(m: &TermManager, eqs: Pairs, c: TermId, d: TermId) -> bool {
    is_ctor(m, c) && is_ctor(m, d) && c != d && in_play(eqs, c) && in_play(eqs, d) && joined(eqs, c, d) && ctor_of(m, c) == ctor_of(m, d)
}

/// The pair holds the arguments of twins at one place.
pub open spec fn is_field_pair(m: &TermManager, eqs: Pairs, p: (TermId, TermId)) -> bool {
    exists|c: TermId, d: TermId, k: int|
        #![trigger are_twins(m, eqs, c, d), m.args(c)[k]]
        are_twins(m, eqs, c, d) && 0 <= k < m.args(c).len() && k < m.args(d).len() && p == ordered(m.args(c)[k], m.args(d)[k])
}

/// The pair is what the selector equation gives.
pub open spec fn gives(m: &TermManager, h: Map<usize, TermId>, e: (TermId, TermId), p: (TermId, TermId)) -> bool {
    &&& is_selector(m, e.0)
    &&& normal_form(m, h, m.arg(e.0, 0)) matches Some(c)
    &&& field_of(m, c, m.op(e.0)->DtSelector_0) matches Some(f)
    &&& p == ordered(f, e.1)
}

/// A list of equalities, and those among them that were derived for twins.
pub ghost struct Closing {
    pub eqs: Pairs,
    pub derived: Pairs,
}

/// What is on the list `later` after the equalities `s` was not there before, and is derived for
/// twins, or a pair of their arguments, or what a selector equation gives.
pub open spec fn grows(m: &TermManager, sel: Pairs, h: Map<usize, TermId>, s: Closing, later: Closing) -> bool {
    &&& appended(s.eqs, later.eqs)
    &&& forall|i: int| s.eqs.len() <= i < later.eqs.len() ==> !has_pair(later.eqs.take(i), (#[trigger] later.eqs[i]).0, later.eqs[i].1)
    &&& forall|i: int|
        s.eqs.len() <= i < later.eqs.len() ==> {
            ||| later.derived.contains(#[trigger] later.eqs[i]) && are_twins(m, s.eqs, later.eqs[i].0, later.eqs[i].1)
            ||| is_field_pair(m, s.eqs, later.eqs[i])
            ||| exists|j: int| 0 <= j < sel.len() && gives(m, h, #[trigger] sel[j], later.eqs[i])
        }
    &&& appended(s.derived, later.derived)
    &&& forall|i: int, j: int|
        s.derived.len() <= i < j < later.derived.len() ==> #[trigger] later.derived[i] != #[trigger] later.derived[j]
    &&& forall|i: int|
        s.derived.len() <= i < later.derived.len() ==> later.eqs.contains(#[trigger] later.derived[i]) && !has_pair(
            s.eqs,
            later.derived[i].0,
            later.derived[i].1,
        ) && are_twins(m, s.eqs, later.derived[i].0, later.derived[i].1)
}

/// One round of the closure: twins and their arguments are on the list, and what the selector
/// equations give.
pub open spec fn is_round(m: &TermManager, sel: Pairs, s: Closing, later: Closing) -> bool {
    exists|h: Map<usize, TermId>|
        {
            &&& #[trigger] hints_ok(m, s.eqs, h)
            &&& grows(m, sel, h, s, later)
            &&& forall|c: TermId, d: TermId| #[trigger] are_twins(m, s.eqs, c, d) ==> injected(m, later.eqs, c, d)
            &&& forall|i: int| 0 <= i < sel.len() ==> selected(m, later.eqs, h, #[trigger] sel[i])
        }
}

/// Rounds lead from `s` to `later`, and leave `left` of a budget of `budget` rounds: they end with
/// the budget, or with a round that adds nothing.
pub open spec fn closes(m: &TermManager, sel: Pairs, s: Closing, budget: nat, left: nat, later: Closing) -> bool
    decreases budget,
{
    if budget == 0 {
        left == 0 && later == s
    } else {
        exists|mid: Closing| #[trigger]
            is_round(m, sel, s, mid) && if mid == s {
                left == budget - 1 && later == s
            } else {
                closes(m, sel, mid, (budget - 1) as nat, left, later)
            }
    }
}

/// The list with nothing derived yet.
pub open spec fn underived(eqs: Pairs) -> Closing {
    Closing { eqs, derived: Seq::empty() }
}

/// The set holds the pairs of the list, each in ascending order.
spec fn seen_ok(eqs: Pairs, seen: Set<(usize, usize)>) -> bool {
    forall|a: usize, b: usize| #[trigger] has_pair(eqs, a, b) <==> seen.contains(ordered(a, b))
}

/// `later` is the list with pairs appended.
pub open spec fn appended(eqs: Pairs, later: Pairs) -> bool {
    eqs.len() <= later.len() && later.take(eqs.len() as int) == eqs
}

proof fn lemma_appended_trans(a: Pairs, b: Pairs, c: Pairs)
    requires
        appended(a, b),
        appended(b, c),
    ensures
        appended(a, c),
{
    assert(c.take(a.len() as int) =~= b.take(a.len() as int)) by {
        assert forall|i: int| 0 <= i < a.len() implies c[i] == b[i] by {
            assert(c.take(b.len() as int)[i] == b[i]);
        }
    }
}

proof fn lemma_has_pair_grows(a: Pairs, b: Pairs, x: TermId, y: TermId)
    requires
        appended(a, b),
        has_pair(a, x, y),
    ensures
        has_pair(b, x, y),
{
    let p = if a.contains((x, y)) { (x, y) } else { (y, x) };
    let i = choose|i: int| 0 <= i < a.len() && a[i] == p;
    assert(b.take(a.len() as int)[i] == b[i]);
    assert(b[i] == p);
}

/// The list with one more pair, which may be derived for twins.
proof fn lemma_grows_push(
    m: &TermManager,
    sel: Pairs,
    h: Map<usize, TermId>,
    s: Closing,
    a: Closing,
    p: (TermId, TermId),
    derived: Pairs,
)
    requires
        grows(m, sel, h, s, a),
        !has_pair(a.eqs, p.0, p.1),
        ({
            ||| derived == a.derived && is_field_pair(m, s.eqs, p)
            ||| derived == a.derived && exists|j: int| 0 <= j < sel.len() && gives(m, h, #[trigger] sel[j], p)
            ||| derived == a.derived.push(p) && are_twins(m, s.eqs, p.0, p.1)
        }),
    ensures
        grows(m, sel, h, s, (Closing { eqs: a.eqs.push(p), derived })),
{
    let b = Closing { eqs: a.eqs.push(p), derived };
    assert(b.eqs.take(s.eqs.len() as int) =~= a.eqs.take(s.eqs.len() as int));
    assert(b.derived.take(s.derived.len() as int) =~= a.derived.take(s.derived.len() as int));
    lemma_contains_push(a.eqs, p);
    lemma_contains_push(a.derived, p);
    assert forall|i: int| s.eqs.len() <= i < b.eqs.len() implies !has_pair(b.eqs.take(i), (#[trigger] b.eqs[i]).0, b.eqs[i].1) by {
        assert(b.eqs.take(i) =~= a.eqs.take(i));
        if i < a.eqs.len() {
            assert(b.eqs[i] == a.eqs[i]);
        } else {
            assert(a.eqs.take(i) =~= a.eqs);
        }
    }
    assert forall|i: int| s.eqs.len() <= i < b.eqs.len() implies {
        ||| b.derived.contains(#[trigger] b.eqs[i]) && are_twins(m, s.eqs, b.eqs[i].0, b.eqs[i].1)
        ||| is_field_pair(m, s.eqs, b.eqs[i])
        ||| exists|j: int| 0 <= j < sel.len() && gives(m, h, #[trigger] sel[j], b.eqs[i])
    } by {
        if i < a.eqs.len() {
            assert(b.eqs[i] == a.eqs[i]);
        } else {
            assert(b.eqs[i] == p);
        }
    }
    assert(!has_pair(s.eqs, p.0, p.1)) by {
        if has_pair(s.eqs, p.0, p.1) {
            lemma_has_pair_grows(s.eqs, a.eqs, p.0, p.1);
        }
    }
    assert forall|i: int, j: int| s.derived.len() <= i < j < b.derived.len() implies #[trigger] b.derived[i] != #[trigger] b.derived[j] by {
        assert(b.derived[i] == a.derived[i]);
        if j < a.derived.len() {
            assert(b.derived[j] == a.derived[j]);
        } else {
            assert(b.derived[j] == p);
            assert(a.eqs.contains(a.derived[i]));
        }
    }
    assert forall|i: int| s.derived.len() <= i < b.derived.len() implies b.eqs.contains(#[trigger] b.derived[i]) && !has_pair(
        s.eqs,
        b.derived[i].0,
        b.derived[i].1,
    ) && are_twins(m, s.eqs, b.derived[i].0, b.derived[i].1) by {
        if i < a.derived.len() {
            assert(b.derived[i] == a.derived[i]);
        } else {
            assert(b.derived[i] == p);
        }
    }
}

/// What the pairs of a list force to be equal has equal values.
pub proof fn lemma_joined_value(d: DtModel, eqs: Pairs, x: TermId, y: TermId)
    requires
        all_equal(d, eqs),
        joined(eqs, x, y),
    ensures
        (d.val)(x) == (d.val)(y),
{
    let f = |t: TermId| (d.val)(t);
    assert(respects(f, eqs));
    assert(f(x) == f(y));
}

/// Appends a pair in ascending order, unless it is on the list.
fn add_pair(eqs: &mut Vec<(TermId, TermId)>, seen: &mut FxHashSet<(usize, usize)>, a: TermId, b: TermId) -> (fresh: bool)
    requires
        seen_ok(old(eqs)@, old(seen)@),
    ensures
        seen_ok(final(eqs)@, final(seen)@),
        appended(old(eqs)@, final(eqs)@),
        has_pair(final(eqs)@, a, b),
        !fresh ==> final(eqs)@ == old(eqs)@,
        fresh ==> final(eqs)@ == old(eqs)@.push(ordered(a, b)) && !has_pair(old(eqs)@, a, b),
{
    let p: (usize, usize) = if a <= b {
        (a, b)
    } else {
        (b, a)
    };
    let fresh = pair_set_insert(seen, p);
    if fresh {
        eqs.push(p);
    }
    proof {
        let before = old(eqs)@;
        assert(has_pair(before, a, b) <==> old(seen)@.contains(p));
        assert(eqs@.take(before.len() as int) =~= before);
        if fresh {
            lemma_contains_push(before, p);
            assert forall|x: usize, y: usize| #[trigger] has_pair(eqs@, x, y) <==> seen@.contains(ordered(x, y)) by {
                assert(has_pair(before, x, y) <==> old(seen)@.contains(ordered(x, y)));
            }
        } else {
            assert(seen@ =~= old(seen)@);
        }
    }
    fresh
}

/// The members of the pairs, each once.
fn terms_in_play(eqs: &Vec<(TermId, TermId)>) -> (r: Vec<TermId>)
    ensures
        r@.no_duplicates(),
        forall|t: usize| #[trigger] r@.contains(t) <==> in_play(eqs@, t),
{
    let mut seen = set_new();
    let mut r: Vec<TermId> = Vec::new();
    let mut i: usize = 0;
    while i < eqs.len()
        invariant
            i <= eqs.len(),
            r@.no_duplicates(),
            forall|t: usize| #[trigger] r@.contains(t) <==> seen@.contains(t),
            forall|t: usize| #[trigger] seen@.contains(t) <==> in_play(eqs@.take(i as int), t),
        decreases eqs.len() - i,
    {
        let (a, b) = eqs[i];
        let ghost before = seen@;
        enter(&mut seen, &mut r, a);
        enter(&mut seen, &mut r, b);
        proof {
            let head = eqs@.take(i as int);
            let next = eqs@.take(i + 1);
            assert forall|t: usize| #[trigger] seen@.contains(t) <==> in_play(next, t) by {
                if in_play(head, t) {
                    let k = choose|k: int| 0 <= k < head.len() && ((#[trigger] head[k]).0 == t || head[k].1 == t);
                    assert(next[k] == head[k]);
                    assert(in_play(next, t));
                }
                if t == a || t == b {
                    assert(next[i as int] == (a, b));
                }
                if in_play(next, t) {
                    let k = choose|k: int| 0 <= k < next.len() && ((#[trigger] next[k]).0 == t || next[k].1 == t);
                    if k < i {
                        assert(head[k] == next[k]);
                        assert(in_play(head, t));
                    }
                }
                assert(before.contains(t) <==> in_play(head, t));
            }
        }
        i = i + 1;
    }
    assert(eqs@.take(eqs@.len() as int) =~= eqs@);
    r
}

/// Puts a term on the list, unless it is there.
fn enter(seen: &mut FxHashSet<usize>, r: &mut Vec<TermId>, t: TermId)
    requires
        old(r)@.no_duplicates(),
        forall|x: usize| #[trigger] old(r)@.contains(x) <==> old(seen)@.contains(x),
    ensures
        final(r)@.no_duplicates(),
        forall|x: usize| #[trigger] final(r)@.contains(x) <==> final(seen)@.contains(x),
        final(seen)@ == old(seen)@.insert(t),
{
    if set_insert(seen, t) {
        r.push(t);
        proof {
            lemma_contains_push(old(r)@, t);
            assert(!old(r)@.contains(t));
            assert forall|i: int, j: int| 0 <= i < r@.len() && 0 <= j < r@.len() && i != j implies r@[i] != r@[j] by {
                let k = old(r)@;
                if i < k.len() {
                    assert(k.contains(k[i]));
                }
                if j < k.len() {
                    assert(k.contains(k[j]));
                }
            }
        }
    } else {
        assert(seen@ =~= old(seen)@);
    }
}

/// The constructor applications on a list, each once.
fn ctors_among(m: &TermManager, terms: &Vec<TermId>) -> (r: Vec<TermId>)
    requires
        terms@.no_duplicates(),
    ensures
        r@.no_duplicates(),
        forall|t: usize| #[trigger] r@.contains(t) <==> terms@.contains(t) && is_ctor(m, t),
{
    let mut r: Vec<TermId> = Vec::new();
    let mut i: usize = 0;
    while i < terms.len()
        invariant
            i <= terms.len(),
            terms@.no_duplicates(),
            r@.no_duplicates(),
            forall|t: usize| #[trigger] r@.contains(t) <==> terms@.take(i as int).contains(t) && is_ctor(m, t),
        decreases terms.len() - i,
    {
        let t: usize = terms[i];
        let ghost before = r@;
        let ghost head = terms@.take(i as int);
        if constructor_of(m, t).is_some() {
            r.push(t);
        }
        proof {
            assert(terms@.take(i + 1) =~= head.push(t));
            lemma_contains_push(head, t);
            lemma_contains_push(before, t);
            if is_ctor(m, t) {
                assert(!head.contains(t)) by {
                    if head.contains(t) {
                        let k = choose|k: int| 0 <= k < head.len() && head[k] == t;
                        assert(terms@[k] == terms@[i as int]);
                    }
                }
                assert(!before.contains(t));
                assert forall|a: int, b: int| 0 <= a < r@.len() && 0 <= b < r@.len() && a != b implies r@[a] != r@[b] by {
                    if a < before.len() {
                        assert(before.contains(before[a]));
                    }
                    if b < before.len() {
                        assert(before.contains(before[b]));
                    }
                }
            }
        }
        i = i + 1;
    }
    assert(terms@.take(terms@.len() as int) =~= terms@);
    r
}

/// One more pair that follows.
proof fn lemma_follows_push(m: &TermManager, base: Pairs, sel: Pairs, eqs: Pairs, a: TermId, b: TermId)
    requires
        follows(m, base, sel, eqs),
        forall|d: DtModel|
            #[trigger] is_model(m, d) && all_equal(d, base) && all_equal(d, sel) ==> (d.val)(a) == (d.val)(b),
    ensures
        follows(m, base, sel, eqs.push(ordered(a, b))),
{
    assert forall|d: DtModel| #[trigger] is_model(m, d) && all_equal(d, base) && all_equal(d, sel) implies all_equal(
        d,
        eqs.push(ordered(a, b)),
    ) by {
        assert(all_equal(d, eqs));
        assert((d.val)(a) == (d.val)(b));
        let e = eqs.push(ordered(a, b));
        assert forall|i: int| 0 <= i < e.len() implies (d.val)((#[trigger] e[i]).0) == (d.val)(e[i].1) by {
            if i < eqs.len() {
                assert(e[i] == eqs[i]);
            }
        }
    }
}

/// What is on the list stays there.
proof fn lemma_injected_grows(m: &TermManager, a: Pairs, b: Pairs, c: TermId, d: TermId)
    requires
        appended(a, b),
        injected(m, a, c, d),
    ensures
        injected(m, b, c, d),
{
    lemma_has_pair_grows(a, b, c, d);
    assert forall|i: int| 0 <= i < m.args(c).len() && i < m.args(d).len() implies #[trigger] m.args(c)[i] == m.args(d)[i] || has_pair(
        b,
        m.args(c)[i],
        m.args(d)[i],
    ) by {
        if m.args(c)[i] != m.args(d)[i] {
            lemma_has_pair_grows(a, b, m.args(c)[i], m.args(d)[i]);
        }
    }
}

/// Equal applications of one constructor have equal arguments.
proof fn lemma_injective(m: &TermManager, base: Pairs, sel: Pairs, eqs: Pairs, c: TermId, d: TermId)
    requires
        follows(m, base, sel, eqs),
        is_ctor(m, c),
        is_ctor(m, d),
        ctor_of(m, c) == ctor_of(m, d),
        joined(eqs, c, d),
    ensures
        forall|v: DtModel| #[trigger] is_model(m, v) && all_equal(v, base) && all_equal(v, sel) ==> (v.val)(c) == (v.val)(d),
        forall|v: DtModel, i: int|
            #[trigger] is_model(m, v) && all_equal(v, base) && all_equal(v, sel) && 0 <= i < m.args(c).len() && i < m.args(d).len()
                ==> (v.val)(#[trigger] m.args(c)[i]) == (v.val)(m.args(d)[i]),
{
    assert forall|v: DtModel| #[trigger] is_model(m, v) && all_equal(v, base) && all_equal(v, sel) implies (v.val)(c) == (v.val)(d) by {
        lemma_joined_value(v, eqs, c, d);
    }
    assert forall|v: DtModel, i: int|
        #[trigger] is_model(m, v) && all_equal(v, base) && all_equal(v, sel) && 0 <= i < m.args(c).len() && i < m.args(d).len() implies (
    v.val)(#[trigger] m.args(c)[i]) == (v.val)(m.args(d)[i]) by {
        assert((v.val)(c) == (v.val)(d));
        assert(ctor_value(m, v, c) && ctor_value(m, v, d));
        assert((v.field)((v.val)(c), i) == (v.val)(m.arg(c, i)));
        assert((v.field)((v.val)(d), i) == (v.val)(m.arg(d, i)));
    }
}

/// Puts on the list that two applications of one constructor are equal, and their arguments.
fn inject(
    m: &TermManager,
    c: TermId,
    d: TermId,
    eqs: &mut Vec<(TermId, TermId)>,
    seen: &mut FxHashSet<(usize, usize)>,
    derived: &mut Vec<(TermId, TermId)>,
    Ghost(s): Ghost<Closing>,
    Ghost(h): Ghost<Map<usize, TermId>>,
    Ghost(base): Ghost<Pairs>,
    Ghost(sel): Ghost<Pairs>,
) -> (changed: bool)
    requires
        m.wf(),
        are_twins(m, s.eqs, c, d),
        grows(m, sel, h, s, (Closing { eqs: old(eqs)@, derived: old(derived)@ })),
        follows(m, base, sel, s.eqs),
        seen_ok(old(eqs)@, old(seen)@),
        follows(m, base, sel, old(eqs)@),
        follows(m, base, sel, old(derived)@),
    ensures
        seen_ok(final(eqs)@, final(seen)@),
        follows(m, base, sel, final(eqs)@),
        follows(m, base, sel, final(derived)@),
        appended(old(eqs)@, final(eqs)@),
        grows(m, sel, h, s, (Closing { eqs: final(eqs)@, derived: final(derived)@ })),
        injected(m, final(eqs)@, c, d),
        !changed ==> final(eqs)@ == old(eqs)@ && final(derived)@ == old(derived)@,
        changed ==> final(eqs)@.len() > old(eqs)@.len(),
{
    proof {
        assert(joined(s.eqs, d, c));
        lemma_injective(m, base, sel, s.eqs, c, d);
        lemma_follows_push(m, base, sel, eqs@, c, d);
        lemma_follows_push(m, base, sel, derived@, c, d);
    }
    let mut changed = add_pair(eqs, seen, c, d);
    if changed {
        derived.push(if c <= d {
            (c, d)
        } else {
            (d, c)
        });
    }
    proof {
        if changed {
            let a = Closing { eqs: old(eqs)@, derived: old(derived)@ };
            assert(has_pair(a.eqs, c, d) == has_pair(a.eqs, d, c));
            lemma_grows_push(m, sel, h, s, a, ordered(c, d), derived@);
        }
    }
    let n: usize = if m.terms[c].args.len() < m.terms[d].args.len() {
        m.terms[c].args.len()
    } else {
        m.terms[d].args.len()
    };
    let mut i: usize = 0;
    while i < n
        invariant
            i <= n,
            n <= m.args(c).len(),
            n <= m.args(d).len(),
            m.has(c),
            m.has(d),
            seen_ok(eqs@, seen@),
            follows(m, base, sel, eqs@),
            follows(m, base, sel, derived@),
            appended(old(eqs)@, eqs@),
            are_twins(m, s.eqs, c, d),
            grows(m, sel, h, s, (Closing { eqs: eqs@, derived: derived@ })),
            has_pair(eqs@, c, d),
            !changed ==> eqs@ == old(eqs)@ && derived@ == old(derived)@,
            changed ==> eqs@.len() > old(eqs)@.len(),
            forall|v: DtModel, i: int|
                #[trigger] is_model(m, v) && all_equal(v, base) && all_equal(v, sel) && 0 <= i < m.args(c).len() && i < m.args(
                    d,
                ).len() ==> (v.val)(#[trigger] m.args(c)[i]) == (v.val)(m.args(d)[i]),
            forall|j: int| 0 <= j < i ==> #[trigger] m.args(c)[j] == m.args(d)[j] || has_pair(eqs@, m.args(c)[j], m.args(d)[j]),
        decreases n - i,
    {
        let a: usize = m.terms[c].args[i];
        let b: usize = m.terms[d].args[i];
        assert(a == m.args(c)[i as int] && b == m.args(d)[i as int]);
        if a != b {
            let ghost before = eqs@;
            proof {
                lemma_follows_push(m, base, sel, before, a, b);
            }
            if add_pair(eqs, seen, a, b) {
                changed = true;
                proof {
                    let at = Closing { eqs: before, derived: derived@ };
                    assert(has_pair(before, a, b) == has_pair(before, b, a));
                    assert(ordered(m.args(c)[i as int], m.args(d)[i as int]) == ordered(a, b));
                    assert(is_field_pair(m, s.eqs, ordered(a, b)));
                    lemma_grows_push(m, sel, h, s, at, ordered(a, b), derived@);
                }
            }
            proof {
                lemma_appended_trans(old(eqs)@, before, eqs@);
                lemma_has_pair_grows(before, eqs@, c, d);
                assert forall|j: int| 0 <= j < i implies #[trigger] m.args(c)[j] == m.args(d)[j] || has_pair(
                    eqs@,
                    m.args(c)[j],
                    m.args(d)[j],
                ) by {
                    if m.args(c)[j] != m.args(d)[j] {
                        lemma_has_pair_grows(before, eqs@, m.args(c)[j], m.args(d)[j]);
                    }
                }
            }
        }
        i = i + 1;
    }
    changed
}

/// Puts on the list what the injectivity of constructors gives for the applications `ctors`.
fn inject_all(
    m: &TermManager,
    ctors: &Vec<TermId>,
    cl: &Classes,
    eqs: &mut Vec<(TermId, TermId)>,
    seen: &mut FxHashSet<(usize, usize)>,
    derived: &mut Vec<(TermId, TermId)>,
    Ghost(h): Ghost<Map<usize, TermId>>,
    Ghost(base): Ghost<Pairs>,
    Ghost(sel): Ghost<Pairs>,
) -> (changed: bool)
    requires
        m.wf(),
        cl.of(old(eqs)@),
        ctors@.no_duplicates(),
        forall|i: int| 0 <= i < ctors@.len() ==> is_ctor(m, #[trigger] ctors@[i]) && in_play(old(eqs)@, ctors@[i]),
        seen_ok(old(eqs)@, old(seen)@),
        follows(m, base, sel, old(eqs)@),
        follows(m, base, sel, old(derived)@),
    ensures
        seen_ok(final(eqs)@, final(seen)@),
        follows(m, base, sel, final(eqs)@),
        follows(m, base, sel, final(derived)@),
        appended(old(eqs)@, final(eqs)@),
        grows(
            m,
            sel,
            h,
            (Closing { eqs: old(eqs)@, derived: old(derived)@ }),
            (Closing { eqs: final(eqs)@, derived: final(derived)@ }),
        ),
        !changed ==> final(eqs)@ == old(eqs)@ && final(derived)@ == old(derived)@,
        changed ==> final(eqs)@.len() > old(eqs)@.len(),
        forall|i: int, j: int|
            0 <= i < j < ctors@.len() && cl.label(ctors@[i]) == cl.label(ctors@[j]) && ctor_of(m, ctors@[i]) == ctor_of(m, ctors@[j])
                ==> injected(m, final(eqs)@, #[trigger] ctors@[i], #[trigger] ctors@[j]),
{
    let ghost start = eqs@;
    let ghost s = Closing { eqs: eqs@, derived: derived@ };
    let mut changed = false;
    let mut i: usize = 0;
    assert(start.take(start.len() as int) =~= start);
    assert(s.derived.take(s.derived.len() as int) =~= s.derived);
    while i < ctors.len()
        invariant
            i <= ctors.len(),
            m.wf(),
            start == old(eqs)@,
            s == (Closing { eqs: start, derived: old(derived)@ }),
            cl.of(start),
            ctors@.no_duplicates(),
            forall|i: int| 0 <= i < ctors@.len() ==> is_ctor(m, #[trigger] ctors@[i]) && in_play(start, ctors@[i]),
            grows(m, sel, h, s, (Closing { eqs: eqs@, derived: derived@ })),
            changed ==> eqs@.len() > start.len(),
            seen_ok(eqs@, seen@),
            follows(m, base, sel, start),
            follows(m, base, sel, eqs@),
            follows(m, base, sel, derived@),
            appended(start, eqs@),
            !changed ==> eqs@ == start && derived@ == old(derived)@,
            forall|a: int, b: int|
                0 <= a < i && a < b < ctors@.len() && cl.label(ctors@[a]) == cl.label(ctors@[b]) && ctor_of(m, ctors@[a]) == ctor_of(
                    m,
                    ctors@[b],
                ) ==> injected(m, eqs@, #[trigger] ctors@[a], #[trigger] ctors@[b]),
        decreases ctors.len() - i,
    {
        let mut j: usize = i + 1;
        while j < ctors.len()
            invariant
                i < j <= ctors.len(),
                m.wf(),
                start == old(eqs)@,
                s == (Closing { eqs: start, derived: old(derived)@ }),
                cl.of(start),
                ctors@.no_duplicates(),
                forall|i: int| 0 <= i < ctors@.len() ==> is_ctor(m, #[trigger] ctors@[i]) && in_play(start, ctors@[i]),
                grows(m, sel, h, s, (Closing { eqs: eqs@, derived: derived@ })),
                changed ==> eqs@.len() > start.len(),
                seen_ok(eqs@, seen@),
                follows(m, base, sel, start),
                follows(m, base, sel, eqs@),
                follows(m, base, sel, derived@),
                appended(start, eqs@),
                !changed ==> eqs@ == start && derived@ == old(derived)@,
                forall|a: int, b: int|
                    (0 <= a < i && a < b < ctors@.len() || a == i && i < b < j) && cl.label(ctors@[a]) == cl.label(ctors@[b])
                        && ctor_of(m, ctors@[a]) == ctor_of(m, ctors@[b]) ==> injected(
                        m,
                        eqs@,
                        #[trigger] ctors@[a],
                        #[trigger] ctors@[b],
                    ),
            decreases ctors.len() - j,
        {
            let c: usize = ctors[i];
            let d: usize = ctors[j];
            assert(is_ctor(m, ctors@[i as int]) && is_ctor(m, ctors@[j as int]));
            let same = match (constructor_of(m, c), constructor_of(m, d)) {
                (Some(k), Some(l)) => k == l,
                _ => false,
            };
            if same && cl.find(c) == cl.find(d) {
                let ghost before = eqs@;
                assert(joined(start, c, d));
                assert(are_twins(m, start, c, d));
                let new = inject(m, c, d, eqs, seen, derived, Ghost(s), Ghost(h), Ghost(base), Ghost(sel));
                if new {
                    changed = true;
                }
                proof {
                    lemma_appended_trans(start, before, eqs@);
                    assert forall|a: int, b: int|
                        (0 <= a < i && a < b < ctors@.len() || a == i && i < b < j) && cl.label(ctors@[a]) == cl.label(ctors@[b])
                            && ctor_of(m, ctors@[a]) == ctor_of(m, ctors@[b]) implies injected(
                        m,
                        eqs@,
                        #[trigger] ctors@[a],
                        #[trigger] ctors@[b],
                    ) by {
                        lemma_injected_grows(m, before, eqs@, ctors@[a], ctors@[b]);
                    }
                }
            }
            j = j + 1;
        }
        i = i + 1;
    }
    changed
}

/// Binds every term in play to a constructor application of its class.
fn build_hints(m: &TermManager, terms: &Vec<TermId>, ctors: &Vec<TermId>, cl: &Classes, Ghost(eqs): Ghost<Pairs>) -> (h: FxHashMap<usize, TermId>)
    requires
        cl.of(eqs),
        forall|t: usize| #[trigger] terms@.contains(t) <==> in_play(eqs, t),
        forall|t: usize| #[trigger] ctors@.contains(t) <==> terms@.contains(t) && is_ctor(m, t),
    ensures
        hints_ok(m, eqs, h@),
{
    let mut h: FxHashMap<usize, TermId> = map_new();
    let mut i: usize = 0;
    while i < terms.len()
        invariant
            i <= terms.len(),
            cl.of(eqs),
            forall|t: usize| #[trigger] terms@.contains(t) <==> in_play(eqs, t),
            forall|t: usize| #[trigger] ctors@.contains(t) <==> terms@.contains(t) && is_ctor(m, t),
            forall|t: usize| #[trigger] h@.contains_key(t) ==> in_play(eqs, t) && is_ctor(m, h@[t]) && in_play(eqs, h@[t]) && joined(
                eqs,
                t,
                h@[t],
            ) && t != h@[t],
            forall|k: int, c: usize|
                0 <= k < i && is_ctor(m, c) && in_play(eqs, c) && joined(eqs, #[trigger] terms@[k], c) && !h@.contains_key(terms@[k])
                    && #[trigger] ctors@.contains(c) ==> is_ctor(m, terms@[k]),
        decreases terms.len() - i,
    {
        let t: usize = terms[i];
        let ghost before = h@;
        assert(terms@.contains(terms@[i as int]));
        let mut k: usize = 0;
        while k < ctors.len() && cl.find(ctors[k]) != cl.find(t)
            invariant
                k <= ctors.len(),
                forall|j: int| 0 <= j < k ==> cl.label(#[trigger] ctors@[j]) != cl.label(t),
            decreases ctors.len() - k,
        {
            k = k + 1;
        }
        if k < ctors.len() && ctors[k] != t {
            let c: usize = ctors[k];
            assert(ctors@.contains(ctors@[k as int]));
            assert(cl.label(t) == cl.label(c));
            map_insert(&mut h, t, c);
        }
        proof {
            assert forall|j: int, c: usize|
                0 <= j < i + 1 && is_ctor(m, c) && in_play(eqs, c) && joined(eqs, #[trigger] terms@[j], c) && !h@.contains_key(
                    terms@[j],
                ) && #[trigger] ctors@.contains(c) implies is_ctor(m, terms@[j]) by {
                if j < i {
                    assert(!before.contains_key(terms@[j]));
                } else {
                    let p = choose|p: int| 0 <= p < ctors@.len() && ctors@[p] == c;
                    assert(cl.label(t) == cl.label(c));
                    if k < ctors@.len() {
                        assert(ctors@.contains(ctors@[k as int]));
                    } else {
                        assert(cl.label(ctors@[p]) != cl.label(t));
                    }
                }
            }
        }
        i = i + 1;
    }
    proof {
        assert forall|t: usize, c: usize|
            #![trigger in_play(eqs, t), is_ctor(m, c)]
            in_play(eqs, t) && is_ctor(m, c) && in_play(eqs, c) && joined(eqs, t, c) && !h@.contains_key(t) implies is_ctor(m, t) by {
            assert(terms@.contains(t));
            assert(terms@.contains(c));
            assert(ctors@.contains(c));
            let k = choose|k: int| 0 <= k < terms@.len() && terms@[k] == t;
            assert(joined(eqs, terms@[k], c));
        }
    }
    h
}

/// Puts on the list what the selector equations give.
fn select_all(
    m: &TermManager,
    sel: &Vec<(TermId, TermId)>,
    h: &FxHashMap<usize, TermId>,
    eqs: &mut Vec<(TermId, TermId)>,
    seen: &mut FxHashSet<(usize, usize)>,
    Ghost(s): Ghost<Closing>,
    Ghost(derived): Ghost<Pairs>,
    Ghost(base): Ghost<Pairs>,
) -> (changed: bool)
    requires
        m.wf(),
        hints_ok(m, s.eqs, h@),
        grows(m, sel@, h@, s, (Closing { eqs: old(eqs)@, derived })),
        follows(m, base, sel@, s.eqs),
        seen_ok(old(eqs)@, old(seen)@),
        follows(m, base, sel@, old(eqs)@),
    ensures
        seen_ok(final(eqs)@, final(seen)@),
        follows(m, base, sel@, final(eqs)@),
        appended(old(eqs)@, final(eqs)@),
        grows(m, sel@, h@, s, (Closing { eqs: final(eqs)@, derived })),
        !changed ==> final(eqs)@ == old(eqs)@,
        changed ==> final(eqs)@.len() > old(eqs)@.len(),
        forall|i: int| 0 <= i < sel@.len() ==> selected(m, final(eqs)@, h@, #[trigger] sel@[i]),
{
    let mut memo: FxHashMap<usize, Option<TermId>> = map_new();
    let mut changed = false;
    let mut i: usize = 0;
    assert(appended(eqs@, eqs@)) by {
        assert(eqs@.take(eqs@.len() as int) =~= eqs@);
    }
    while i < sel.len()
        invariant
            i <= sel.len(),
            m.wf(),
            memo_ok(m, h@, memo@),
            hints_ok(m, s.eqs, h@),
            grows(m, sel@, h@, s, (Closing { eqs: eqs@, derived })),
            follows(m, base, sel@, s.eqs),
            seen_ok(eqs@, seen@),
            follows(m, base, sel@, eqs@),
            appended(old(eqs)@, eqs@),
            !changed ==> eqs@ == old(eqs)@,
            changed ==> eqs@.len() > old(eqs)@.len(),
            forall|j: int| 0 <= j < i ==> selected(m, eqs@, h@, #[trigger] sel@[j]),
        decreases sel.len() - i,
    {
        let (x, other) = sel[i];
        let ghost before = eqs@;
        assert(sel@[i as int] == (x, other));
        if x < m.terms.len() {
            if let Op::DtSelector(name) = m.terms[x].op {
                assert(m.terms@[x as int].fits(x as int));
                let a: usize = m.terms[x].args[0];
                if let Some(c) = resolve_dt_normal_form(m, a, h, &mut memo) {
                    if let Some(f) = find_field(m, c, name) {
                        if f != other {
                            proof {
                                assert forall|d: DtModel| #[trigger]
                                    is_model(m, d) && all_equal(d, base) && all_equal(d, sel@) implies (d.val)(f) == (d.val)(other) by {
                                    assert(all_equal(d, s.eqs));
                                    assert forall|y: usize| #[trigger] h@.contains_key(y) implies (d.val)(y) == (d.val)(h@[y]) by {
                                        lemma_joined_value(d, s.eqs, y, h@[y]);
                                    }
                                    law_normal_form_keeps_value(m, h@, d, a);
                                    lemma_field_value(m, d, x, name, c);
                                    assert((d.val)(sel@[i as int].0) == (d.val)(sel@[i as int].1));
                                }
                                lemma_follows_push(m, base, sel@, before, f, other);
                            }
                            if add_pair(eqs, seen, f, other) {
                                changed = true;
                                proof {
                                    let at = Closing { eqs: before, derived };
                                    assert(has_pair(before, f, other) == has_pair(before, other, f));
                                    assert(gives(m, h@, sel@[i as int], ordered(f, other)));
                                    lemma_grows_push(m, sel@, h@, s, at, ordered(f, other), derived);
                                }
                            }
                        }
                    }
                }
            }
        }
        proof {
            assert(appended(before, eqs@)) by {
                if eqs@ == before {
                    assert(before.take(before.len() as int) =~= before);
                }
            }
            lemma_appended_trans(old(eqs)@, before, eqs@);
            assert forall|j: int| 0 <= j < i + 1 implies selected(m, eqs@, h@, #[trigger] sel@[j]) by {
                if j < i {
                    lemma_selected_grows(m, before, eqs@, h@, sel@[j]);
                }
            }
        }
        i = i + 1;
    }
    changed
}

/// What a selector equation gives stays on the list.
proof fn lemma_selected_grows(m: &TermManager, a: Pairs, b: Pairs, h: Map<usize, TermId>, e: (TermId, TermId))
    requires
        appended(a, b),
        selected(m, a, h, e),
    ensures
        selected(m, b, h, e),
{
    if is_selector(m, e.0) {
        match normal_form(m, h, m.arg(e.0, 0)) {
            None => {},
            Some(c) => match field_of(m, c, m.op(e.0)->DtSelector_0) {
                None => {},
                Some(f) => {
                    if f != e.1 {
                        lemma_has_pair_grows(a, b, f, e.1);
                    }
                },
            },
        }
    }
}

/// One round of the closure; the result says whether the list has grown.
fn closure_round(
    m: &TermManager,
    sel: &Vec<(TermId, TermId)>,
    eqs: &mut Vec<(TermId, TermId)>,
    seen: &mut FxHashSet<(usize, usize)>,
    derived: &mut Vec<(TermId, TermId)>,
    Ghost(base): Ghost<Pairs>,
) -> (changed: bool)
    requires
        m.wf(),
        seen_ok(old(eqs)@, old(seen)@),
        follows(m, base, sel@, old(eqs)@),
        follows(m, base, sel@, old(derived)@),
    ensures
        seen_ok(final(eqs)@, final(seen)@),
        follows(m, base, sel@, final(eqs)@),
        follows(m, base, sel@, final(derived)@),
        appended(old(eqs)@, final(eqs)@),
        is_round(
            m,
            sel@,
            (Closing { eqs: old(eqs)@, derived: old(derived)@ }),
            (Closing { eqs: final(eqs)@, derived: final(derived)@ }),
        ),
        changed ==> final(eqs)@.len() > old(eqs)@.len(),
        !changed ==> final(eqs)@ == old(eqs)@ && final(derived)@ == old(derived)@ && ctor_closed(m, final(eqs)@) && selector_closed(
            m,
            final(eqs)@,
            sel@,
        ),
{
    let ghost start = eqs@;
    let ghost s = Closing { eqs: eqs@, derived: derived@ };
    let cl = classes_of(eqs);
    let terms = terms_in_play(eqs);
    let ctors = ctors_among(m, &terms);
    assert forall|i: int| 0 <= i < ctors@.len() implies is_ctor(m, #[trigger] ctors@[i]) && in_play(start, ctors@[i]) by {
        assert(ctors@.contains(ctors@[i]));
        assert(terms@.contains(ctors@[i]));
    }
    let h = build_hints(m, &terms, &ctors, &cl, Ghost(start));
    let grown = inject_all(m, &ctors, &cl, eqs, seen, derived, Ghost(h@), Ghost(base), Ghost(sel@));
    let ghost mid = eqs@;
    let more = select_all(m, sel, &h, eqs, seen, Ghost(s), Ghost(derived@), Ghost(base));
    proof {
        lemma_appended_trans(start, mid, eqs@);
        assert forall|c: TermId, d: TermId| #[trigger] are_twins(m, start, c, d) implies injected(m, eqs@, c, d) by {
            assert(terms@.contains(c) && terms@.contains(d));
            assert(ctors@.contains(c) && ctors@.contains(d));
            let i = choose|i: int| 0 <= i < ctors@.len() && ctors@[i] == c;
            let j = choose|j: int| 0 <= j < ctors@.len() && ctors@[j] == d;
            assert(cl.label(c) == cl.label(d));
            if i < j {
                assert(injected(m, mid, ctors@[i], ctors@[j]));
            } else {
                assert(injected(m, mid, ctors@[j], ctors@[i]));
                assert forall|k: int| 0 <= k < m.args(c).len() && k < m.args(d).len() implies #[trigger] m.args(c)[k] == m.args(d)[k]
                    || has_pair(mid, m.args(c)[k], m.args(d)[k]) by {
                    assert(m.args(d)[k] == m.args(c)[k] || has_pair(mid, m.args(d)[k], m.args(c)[k]));
                }
            }
            lemma_injected_grows(m, mid, eqs@, c, d);
        }
        assert(hints_ok(m, s.eqs, h@));
        if !grown && !more {
            assert(eqs@ == start);
            assert(selector_closed(m, eqs@, sel@)) by {
                assert(hints_ok(m, eqs@, h@));
            }
            assert forall|c: TermId, d: TermId|
                #![trigger is_ctor(m, c), is_ctor(m, d)]
                is_ctor(m, c) && is_ctor(m, d) && c != d && in_play(start, c) && in_play(start, d) && joined(start, c, d) && ctor_of(
                    m,
                    c,
                ) == ctor_of(m, d) implies injected(m, start, c, d) by {
                assert(are_twins(m, start, c, d));
            }
        }
    }
    grown || more
}

/// The elements ascend.
pub open spec fn ascending(s: Seq<TermId>) -> bool {
    forall|i: int, j: int| 0 <= i < j < s.len() ==> s[i] < s[j]
}

/// Inserts an element into an ascending list that does not hold it.
fn insert_ascending(v: &mut Vec<TermId>, x: TermId)
    requires
        ascending(old(v)@),
        !old(v)@.contains(x),
    ensures
        ascending(final(v)@),
        forall|y: usize| #[trigger] final(v)@.contains(y) <==> old(v)@.contains(y) || y == x,
{
    let mut k: usize = 0;
    while k < v.len() && v[k] < x
        invariant
            k <= v@.len(),
            v@ == old(v)@,
            forall|j: int| 0 <= j < k ==> v@[j] < x,
        decreases v.len() - k,
    {
        k = k + 1;
    }
    let ghost before = v@;
    v.insert(k, x);
    proof {
        let w = v@;
        assert(w[k as int] == x);
        assert forall|j: int| k <= j < before.len() implies before[j] > x by {
            assert(before.contains(before[j]));
            if j > k {
                assert(before[k as int] < before[j]);
            }
        }
        assert forall|i: int, j: int| 0 <= i < j < w.len() implies w[i] < w[j] by {
            let a = if i < k { i } else { i - 1 };
            let b = if j < k { j } else { j - 1 };
            if i != k {
                assert(w[i] == before[a]);
            }
            if j != k {
                assert(w[j] == before[b]);
            }
        }
        assert forall|y: usize| #[trigger] w.contains(y) <==> before.contains(y) || y == x by {
            if w.contains(y) {
                let i = choose|i: int| 0 <= i < w.len() && w[i] == y;
                if i < k {
                    assert(before[i] == y);
                } else if i > k {
                    assert(before[i - 1] == y);
                }
            }
            if before.contains(y) {
                let i = choose|i: int| 0 <= i < before.len() && before[i] == y;
                if i < k {
                    assert(w[i] == y);
                } else {
                    assert(w[i + 1] == y);
                }
            }
        }
    }
}

/// The elements of a list in ascending order.
fn sorted(v: &Vec<TermId>) -> (r: Vec<TermId>)
    requires
        v@.no_duplicates(),
    ensures
        ascending(r@),
        forall|y: usize| #[trigger] r@.contains(y) <==> v@.contains(y),
{
    let mut r: Vec<TermId> = Vec::new();
    let mut i: usize = 0;
    while i < v.len()
        invariant
            i <= v.len(),
            v@.no_duplicates(),
            ascending(r@),
            forall|y: usize| #[trigger] r@.contains(y) <==> v@.take(i as int).contains(y),
        decreases v.len() - i,
    {
        let ghost head = v@.take(i as int);
        assert(!head.contains(v@[i as int])) by {
            if head.contains(v@[i as int]) {
                let k = choose|k: int| 0 <= k < head.len() && head[k] == v@[i as int];
                assert(v@[k] == v@[i as int]);
            }
        }
        insert_ascending(&mut r, v[i]);
        proof {
            assert(v@.take(i + 1) =~= head.push(v@[i as int]));
            lemma_contains_push(head, v@[i as int]);
        }
        i = i + 1;
    }
    assert(v@.take(v@.len() as int) =~= v@);
    r
}

/// `c` is a constructor application in play that is forced to equal `t`.
pub open spec fn ctor_in_class(m: &TermManager, eqs: Pairs, t: TermId, c: TermId) -> bool {
    is_ctor(m, c) && in_play(eqs, c) && joined(eqs, t, c)
}

/// `p` is the first constructor application that `t` is forced to equal.
pub open spec fn is_primary(m: &TermManager, eqs: Pairs, t: TermId, p: TermId) -> bool {
    ctor_in_class(m, eqs, t, p) && forall|c: usize| #[trigger] ctor_in_class(m, eqs, t, c) ==> p <= c
}

/// `x` is another application of the constructor of `p` that is forced to equal it.
pub open spec fn is_further(m: &TermManager, eqs: Pairs, p: TermId, x: TermId) -> bool {
    ctor_in_class(m, eqs, p, x) && x != p && ctor_of(m, x) == ctor_of(m, p)
}

/// The variables of the class of `p`, and the further applications of its constructor.
pub open spec fn class_entry(m: &TermManager, eqs: Pairs, p: TermId, vs: Seq<TermId>, xs: Seq<TermId>) -> bool {
    &&& is_primary(m, eqs, p, p)
    &&& ascending(xs)
    &&& forall|x: usize| #[trigger] xs.contains(x) <==> is_further(m, eqs, p, x)
    &&& forall|v: usize| #[trigger] vs.contains(v) <==> is_dt_variable(m, v) && in_play(eqs, v) && joined(eqs, p, v)
}

/// Equalities closed under the laws of datatypes, and the constructor applications that variables
/// are forced to equal.
#[derive(Debug)]
pub struct DtEqualityClosure {
    pub closed_eqs: Vec<(TermId, TermId)>,
    /// Each variable that is forced to equal a constructor application, with the first such.
    pub primary_bindings: FxHashMap<usize, TermId>,
    /// For every class with variables that has more than one application of the constructor of the
    /// first: the variables, and the applications of that constructor but for the first.
    pub extra_by_class: Vec<(Vec<TermId>, Vec<TermId>)>,
    /// The equalities of applications of one constructor that were derived.
    pub derived_ctor_eqs: Vec<(TermId, TermId)>,
}

impl DtEqualityClosure {
    /// The equalities, and those derived for twins.
    pub open spec fn state(&self) -> Closing {
        Closing { eqs: self.closed_eqs@, derived: self.derived_ctor_eqs@ }
    }

    /// The bindings are right for the closed equalities.
    pub open spec fn bindings_ok(&self, m: &TermManager) -> bool {
        let eqs = self.closed_eqs@;
        &&& forall|t: usize| #[trigger]
            self.primary_bindings@.contains_key(t) <==> is_dt_variable(m, t) && in_play(eqs, t) && exists|c: usize| #[trigger]
                ctor_in_class(m, eqs, t, c)
        &&& forall|t: usize| #[trigger] self.primary_bindings@.contains_key(t) ==> is_primary(m, eqs, t, self.primary_bindings@[t])
        &&& forall|i: int| 0 <= i < self.extra_by_class@.len() ==> (#[trigger] self.extra_by_class@[i]).0@.len() > 0
            && self.extra_by_class@[i].1@.len() > 0 && exists|p: usize| #[trigger]
            class_entry(m, eqs, p, self.extra_by_class@[i].0@, self.extra_by_class@[i].1@)
        &&& forall|p: usize, x: usize, v: usize|
            #![trigger is_further(m, eqs, p, x), is_dt_variable(m, v)]
            is_primary(m, eqs, p, p) && is_further(m, eqs, p, x) && is_dt_variable(m, v) && in_play(eqs, v) && joined(
                eqs,
                p,
                v,
            ) ==> exists|i: int| 0 <= i < self.extra_by_class@.len() && (#[trigger] self.extra_by_class@[i]).1@.contains(x)
    }
}

/// The variables of the class with the label `l`.
fn variables_of_class(m: &TermManager, terms: &Vec<TermId>, cl: &Classes, l: TermId) -> (vs: Vec<TermId>)
    ensures
        forall|v: usize| #[trigger] vs@.contains(v) <==> terms@.contains(v) && is_dt_variable(m, v) && cl.label(v) == l,
{
    let mut vs: Vec<TermId> = Vec::new();
    let mut i: usize = 0;
    while i < terms.len()
        invariant
            i <= terms.len(),
            forall|v: usize| #[trigger] vs@.contains(v) <==> terms@.take(i as int).contains(v) && is_dt_variable(m, v) && cl.label(v)
                == l,
        decreases terms.len() - i,
    {
        let t: usize = terms[i];
        let ghost head = terms@.take(i as int);
        let ghost before = vs@;
        if is_variable(m, t) && cl.find(t) == l {
            vs.push(t);
        }
        proof {
            assert(terms@.take(i + 1) =~= head.push(t));
            lemma_contains_push(head, t);
            lemma_contains_push(before, t);
        }
        i = i + 1;
    }
    assert(terms@.take(terms@.len() as int) =~= terms@);
    vs
}

/// The elements after position `i` of an ascending list that are of the class with the label `l`,
/// and apply the constructor `ctor`.
fn rest_of_class(m: &TermManager, sc: &Vec<TermId>, cl: &Classes, i: usize, l: TermId, ctor: Symbol) -> (xs: Vec<TermId>)
    requires
        i < sc@.len(),
        ascending(sc@),
        forall|j: int| 0 <= j < sc@.len() ==> is_ctor(m, #[trigger] sc@[j]),
    ensures
        ascending(xs@),
        forall|x: usize| #[trigger] xs@.contains(x) <==> sc@.contains(x) && x > sc@[i as int] && cl.label(x) == l && ctor_of(m, x) == ctor,
{
    let mut xs: Vec<TermId> = Vec::new();
    let n: usize = sc.len();
    let mut k: usize = i + 1;
    while k < n
        invariant
            n == sc@.len(),
            i < k <= n,
            ascending(sc@),
            forall|j: int| 0 <= j < sc@.len() ==> is_ctor(m, #[trigger] sc@[j]),
            ascending(xs@),
            forall|x: usize| #[trigger] xs@.contains(x) <==> exists|j: int| i < j < k && sc@[j] == x && cl.label(x) == l && ctor_of(m, x) == ctor,
        decreases n - k,
    {
        let t: usize = sc[k];
        let ghost before = xs@;
        let same = match constructor_of(m, t) {
            Some(k) => k == ctor,
            None => false,
        };
        assert(is_ctor(m, sc@[k as int]));
        if same && cl.find(t) == l {
            xs.push(t);
            proof {
                assert forall|a: int, b: int| 0 <= a < b < xs@.len() implies xs@[a] < xs@[b] by {
                    if b == before.len() {
                        assert(before.contains(before[a]));
                        let j = choose|j: int| i < j < k && sc@[j] == before[a] && cl.label(before[a]) == l && ctor_of(m, before[a]) == ctor;
                        assert(sc@[j] < sc@[k as int]);
                    }
                }
            }
        }
        proof {
            lemma_contains_push(before, t);
            assert forall|x: usize| #[trigger] xs@.contains(x) <==> exists|j: int| i < j < k + 1 && sc@[j] == x && cl.label(x) == l && ctor_of(m, x) == ctor by {
                if before.contains(x) {
                    let j = choose|j: int| i < j < k && sc@[j] == x && cl.label(x) == l && ctor_of(m, x) == ctor;
                    assert(i < j < k + 1 && sc@[j] == x);
                }
                if exists|j: int| i < j < k + 1 && sc@[j] == x && cl.label(x) == l && ctor_of(m, x) == ctor {
                    let j = choose|j: int| i < j < k + 1 && sc@[j] == x && cl.label(x) == l && ctor_of(m, x) == ctor;
                    if j < k {
                        assert(i < j < k && sc@[j] == x);
                    }
                }
                if x == t {
                    assert(sc@[k as int] == x);
                }
            }
        }
        k = k + 1;
    }
    proof {
        assert forall|x: usize| #[trigger] xs@.contains(x) <==> sc@.contains(x) && x > sc@[i as int] && cl.label(x) == l && ctor_of(m, x) == ctor by {
            if xs@.contains(x) {
                let j = choose|j: int| i < j < k && sc@[j] == x && cl.label(x) == l && ctor_of(m, x) == ctor;
                assert(sc@[i as int] < sc@[j]);
            }
            if sc@.contains(x) && x > sc@[i as int] && cl.label(x) == l && ctor_of(m, x) == ctor {
                let j = choose|j: int| 0 <= j < sc@.len() && sc@[j] == x;
                if j < i {
                    assert(sc@[j] < sc@[i as int]);
                }
                assert(i < j < k && sc@[j] == x);
            }
        }
    }
    xs
}

/// The constructor applications that variables are forced to equal.
fn bind_classes(m: &TermManager, eqs: Vec<(TermId, TermId)>, derived: Vec<(TermId, TermId)>) -> (r: DtEqualityClosure)
    ensures
        r.closed_eqs@ == eqs@,
        r.derived_ctor_eqs@ == derived@,
        r.bindings_ok(m),
{
    let cl = classes_of(&eqs);
    let terms = terms_in_play(&eqs);
    let ctors = ctors_among(m, &terms);
    let sc = sorted(&ctors);
    assert forall|j: int| 0 <= j < sc@.len() implies is_ctor(m, #[trigger] sc@[j]) by {
        assert(sc@.contains(sc@[j]));
        assert(ctors@.contains(sc@[j]));
    }
    let mut primary: FxHashMap<usize, TermId> = map_new();
    let mut extra: Vec<(Vec<TermId>, Vec<TermId>)> = Vec::new();
    let mut i: usize = 0;
    while i < sc.len()
        invariant
            i <= sc.len(),
            cl.of(eqs@),
            ascending(sc@),
            forall|j: int| 0 <= j < sc@.len() ==> is_ctor(m, #[trigger] sc@[j]),
            forall|t: usize| #[trigger] terms@.contains(t) <==> in_play(eqs@, t),
            forall|t: usize| #[trigger] ctors@.contains(t) <==> terms@.contains(t) && is_ctor(m, t),
            forall|t: usize| #[trigger] sc@.contains(t) <==> ctors@.contains(t),
            forall|t: usize| #[trigger] primary@.contains_key(t) <==> is_dt_variable(m, t) && in_play(eqs@, t) && exists|j: int|
                0 <= j < i && cl.label(#[trigger] sc@[j]) == cl.label(t),
            forall|t: usize| #[trigger] primary@.contains_key(t) ==> is_primary(m, eqs@, t, primary@[t]),
            forall|k: int| 0 <= k < extra@.len() ==> (#[trigger] extra@[k]).0@.len() > 0 && extra@[k].1@.len() > 0 && exists|p: usize| #[trigger]
                class_entry(m, eqs@, p, extra@[k].0@, extra@[k].1@),
            forall|j: int, x: usize, v: usize|
                #![trigger sc@[j], is_further(m, eqs@, sc@[j], x), is_dt_variable(m, v)]
                0 <= j < i && is_primary(m, eqs@, sc@[j], sc@[j]) && is_further(m, eqs@, sc@[j], x) && is_dt_variable(
                    m,
                    v,
                ) && in_play(eqs@, v) && joined(eqs@, sc@[j], v) ==> exists|k: int|
                    0 <= k < extra@.len() && (#[trigger] extra@[k]).1@.contains(x),
        decreases sc.len() - i,
    {
        let p: usize = sc[i];
        let l: usize = cl.find(p);
        assert(sc@.contains(sc@[i as int]));
        let mut j: usize = 0;
        while j < i && cl.find(sc[j]) != l
            invariant
                j <= i,
                i < sc@.len(),
                forall|h: int| 0 <= h < j ==> cl.label(#[trigger] sc@[h]) != l,
            decreases i - j,
        {
            j = j + 1;
        }
        let ghost before = primary@;
        let ghost listed = extra@;
        if j == i {
            assert(is_primary(m, eqs@, p, p)) by {
                assert(cl.label(p) == cl.label(p));
                assert forall|c: usize| #[trigger] ctor_in_class(m, eqs@, p, c) implies p <= c by {
                    assert(terms@.contains(c));
                    assert(ctors@.contains(c));
                    assert(sc@.contains(c));
                    let h = choose|h: int| 0 <= h < sc@.len() && sc@[h] == c;
                    assert(cl.label(p) == cl.label(c));
                    if h < i {
                        assert(cl.label(sc@[h]) != l);
                    }
                    if h > i {
                        assert(sc@[i as int] < sc@[h]);
                    }
                }
            }
            let vs = variables_of_class(m, &terms, &cl, l);
            let ctor = match constructor_of(m, p) {
                Some(k) => k,
                None => 0,
            };
            assert(is_ctor(m, p));
            let xs = rest_of_class(m, &sc, &cl, i, l, ctor);
            let mut k: usize = 0;
            while k < vs.len()
                invariant
                    k <= vs.len(),
                    forall|t: usize| #[trigger] primary@.contains_key(t) <==> before.contains_key(t) || vs@.take(k as int).contains(t),
                    forall|t: usize| #[trigger] primary@.contains_key(t) ==> primary@[t] == if vs@.take(k as int).contains(t) {
                        p
                    } else {
                        before[t]
                    },
                decreases vs.len() - k,
            {
                map_insert(&mut primary, vs[k], p);
                proof {
                    assert(vs@.take(k + 1) =~= vs@.take(k as int).push(vs@[k as int]));
                    lemma_contains_push(vs@.take(k as int), vs@[k as int]);
                }
                k = k + 1;
            }
            proof {
                assert(vs@.take(vs@.len() as int) =~= vs@);
                assert forall|t: usize| #[trigger] vs@.contains(t) implies is_primary(m, eqs@, t, p) by {
                    assert(cl.label(t) == cl.label(p));
                    assert forall|c: usize| #[trigger] ctor_in_class(m, eqs@, t, c) implies p <= c by {
                        assert(cl.label(t) == cl.label(c));
                        assert(cl.label(p) == cl.label(c));
                        assert(ctor_in_class(m, eqs@, p, c));
                    }
                }
                assert(class_entry(m, eqs@, p, vs@, xs@)) by {
                    assert forall|x: usize| #[trigger] xs@.contains(x) <==> is_further(m, eqs@, p, x) by {
                        assert(cl.label(p) == cl.label(x) <==> joined(eqs@, p, x));
                        assert(sc@.contains(x) <==> ctors@.contains(x));
                        assert(ctors@.contains(x) <==> terms@.contains(x) && is_ctor(m, x));
                        if ctor_in_class(m, eqs@, p, x) {
                            assert(p <= x);
                        }
                    }
                    assert forall|v: usize| #[trigger] vs@.contains(v) <==> is_dt_variable(m, v) && in_play(eqs@, v) && joined(
                        eqs@,
                        p,
                        v,
                    ) by {
                        assert(cl.label(p) == cl.label(v) <==> joined(eqs@, p, v));
                        assert(terms@.contains(v) <==> in_play(eqs@, v));
                    }
                }
            }
            let ghost vars = vs@;
            let ghost rest = xs@;
            if vs.len() > 0 && xs.len() > 0 {
                extra.push((vs, xs));
            }
            proof {
                assert forall|q: int| 0 <= q < extra@.len() implies (#[trigger] extra@[q]).0@.len() > 0 && extra@[q].1@.len() > 0 && exists|p: usize| #[trigger]
                    class_entry(m, eqs@, p, extra@[q].0@, extra@[q].1@) by {
                    if q < listed.len() {
                        assert(extra@[q] == listed[q]);
                    } else {
                        assert(class_entry(m, eqs@, p, extra@[q].0@, extra@[q].1@));
                    }
                }
                assert forall|h: int, x: usize, v: usize|
                    #![trigger sc@[h], is_further(m, eqs@, sc@[h], x), is_dt_variable(m, v)]
                    0 <= h < i + 1 && is_primary(m, eqs@, sc@[h], sc@[h]) && is_further(m, eqs@, sc@[h], x) && is_dt_variable(m, v) && in_play(eqs@, v) && joined(eqs@, sc@[h], v) implies exists|k: int|
                    0 <= k < extra@.len() && (#[trigger] extra@[k]).1@.contains(x) by {
                    if h < i {
                        let k = choose|k: int| 0 <= k < listed.len() && (#[trigger] listed[k]).1@.contains(x);
                        assert(extra@[k] == listed[k]);
                    } else {
                        assert(rest.contains(x));
                        assert(vars.contains(v));
                        assert(extra@[listed.len() as int].1@.contains(x));
                    }
                }
            }
        } else {
            proof {
                assert(!is_primary(m, eqs@, p, p)) by {
                    let c = sc@[j as int];
                    assert(sc@.contains(c));
                    assert(cl.label(p) == cl.label(c));
                    assert(ctor_in_class(m, eqs@, p, c));
                    assert(sc@[j as int] < sc@[i as int]);
                }
            }
        }
        proof {
            assert forall|t: usize| #[trigger] primary@.contains_key(t) <==> is_dt_variable(m, t) && in_play(eqs@, t) && exists|h: int|
                0 <= h < i + 1 && cl.label(#[trigger] sc@[h]) == cl.label(t) by {
                assert(terms@.contains(t) <==> in_play(eqs@, t));
                if before.contains_key(t) {
                    let h = choose|h: int| 0 <= h < i && cl.label(#[trigger] sc@[h]) == cl.label(t);
                    assert(cl.label(sc@[h]) == cl.label(t));
                }
                if exists|h: int| 0 <= h < i + 1 && cl.label(#[trigger] sc@[h]) == cl.label(t) {
                    let h = choose|h: int| 0 <= h < i + 1 && cl.label(#[trigger] sc@[h]) == cl.label(t);
                    if h == i && j < i {
                        assert(cl.label(sc@[j as int]) == cl.label(t));
                    }
                }
                if j == i && cl.label(t) == l {
                    assert(cl.label(sc@[i as int]) == cl.label(t));
                }
            }
        }
        i = i + 1;
    }
    let r = DtEqualityClosure {
        closed_eqs: eqs,
        primary_bindings: primary,
        extra_by_class: extra,
        derived_ctor_eqs: derived,
    };
    proof {
        assert forall|t: usize| #[trigger]
            r.primary_bindings@.contains_key(t) <==> is_dt_variable(m, t) && in_play(eqs@, t) && exists|c: usize| #[trigger]
                ctor_in_class(m, eqs@, t, c) by {
            if primary@.contains_key(t) {
                assert(ctor_in_class(m, eqs@, t, primary@[t]));
            }
            if exists|c: usize| #[trigger] ctor_in_class(m, eqs@, t, c) {
                let c = choose|c: usize| #[trigger] ctor_in_class(m, eqs@, t, c);
                assert(terms@.contains(c));
                assert(ctors@.contains(c));
                assert(sc@.contains(c));
                let h = choose|h: int| 0 <= h < sc@.len() && sc@[h] == c;
                assert(cl.label(t) == cl.label(c));
                assert(cl.label(sc@[h]) == cl.label(t));
            }
        }
        assert forall|p: usize, x: usize, v: usize|
            #![trigger is_further(m, eqs@, p, x), is_dt_variable(m, v)]
            is_primary(m, eqs@, p, p) && is_further(m, eqs@, p, x) && is_dt_variable(m, v) && in_play(eqs@, v) && joined(
                eqs@,
                p,
                v,
            ) implies exists|i: int| 0 <= i < r.extra_by_class@.len() && (#[trigger] r.extra_by_class@[i]).1@.contains(x) by {
            assert(terms@.contains(p));
            assert(ctors@.contains(p));
            assert(sc@.contains(p));
            let h = choose|h: int| 0 <= h < sc@.len() && sc@[h] == p;
            assert(is_further(m, eqs@, sc@[h], x));
            assert(is_primary(m, eqs@, sc@[h], sc@[h]));
            let k = choose|k: int| 0 <= k < extra@.len() && (#[trigger] extra@[k]).1@.contains(x);
            assert(r.extra_by_class@[k].1@.contains(x));
        }
    }
    r
}

/// Closes the given equalities under the laws of datatypes, in at most `budget` rounds: equal
/// applications of one constructor have equal arguments, and a selector equation gives the field
/// that it selects. The budget that is left is positive only if nothing more follows.
pub fn compute_dt_equality_closure(
    m: &TermManager,
    base_var_eqs: &Vec<(TermId, TermId)>,
    base_ctor_bindings: &Vec<(TermId, TermId)>,
    base_sel_eqs: &Vec<(TermId, TermId)>,
    budget: &mut u32,
) -> (r: DtEqualityClosure)
    requires
        m.wf(),
    ensures
        *final(budget) <= *old(budget),
        appended(base_var_eqs@ + base_ctor_bindings@, r.closed_eqs@),
        follows(m, base_var_eqs@ + base_ctor_bindings@, base_sel_eqs@, r.closed_eqs@),
        follows(m, base_var_eqs@ + base_ctor_bindings@, base_sel_eqs@, r.derived_ctor_eqs@),
        *final(budget) > 0 ==> ctor_closed(m, r.closed_eqs@) && selector_closed(m, r.closed_eqs@, base_sel_eqs@),
        closes(
            m,
            base_sel_eqs@,
            underived(base_var_eqs@ + base_ctor_bindings@),
            *old(budget) as nat,
            *final(budget) as nat,
            r.state(),
        ),
        r.derived_ctor_eqs@.no_duplicates(),
        r.bindings_ok(m),
{
    let ghost base = base_var_eqs@ + base_ctor_bindings@;
    let mut eqs: Vec<(TermId, TermId)> = Vec::new();
    let mut seen = pair_set_new();
    append_pairs(&mut eqs, &mut seen, base_var_eqs);
    append_pairs(&mut eqs, &mut seen, base_ctor_bindings);
    assert(eqs@ =~= base);
    let mut derived: Vec<(TermId, TermId)> = Vec::new();
    proof {
        assert(base.take(base.len() as int) =~= base);
        assert(follows(m, base, base_sel_eqs@, derived@));
    }
    let mut open = true;
    let ghost first = underived(base);
    let ghost whole = *budget as nat;
    while open && *budget > 0
        invariant
            m.wf(),
            *budget <= *old(budget),
            whole == *old(budget),
            seen_ok(eqs@, seen@),
            appended(base, eqs@),
            follows(m, base, base_sel_eqs@, eqs@),
            follows(m, base, base_sel_eqs@, derived@),
            derived@.no_duplicates(),
            forall|i: int| 0 <= i < derived@.len() ==> eqs@.contains(#[trigger] derived@[i]),
            open ==> forall|left: nat, later: Closing|
                closes(m, base_sel_eqs@, (Closing { eqs: eqs@, derived: derived@ }), *budget as nat, left, later) ==> #[trigger] closes(
                    m,
                    base_sel_eqs@,
                    first,
                    whole,
                    left,
                    later,
                ),
            !open ==> ctor_closed(m, eqs@) && selector_closed(m, eqs@, base_sel_eqs@),
            !open ==> closes(m, base_sel_eqs@, first, whole, *budget as nat, (Closing { eqs: eqs@, derived: derived@ })),
        decreases *budget,
    {
        let ghost before = Closing { eqs: eqs@, derived: derived@ };
        let ghost steps = *budget as nat;
        *budget = *budget - 1;
        open = closure_round(m, base_sel_eqs, &mut eqs, &mut seen, &mut derived, Ghost(base));
        proof {
            let now = Closing { eqs: eqs@, derived: derived@ };
            lemma_appended_trans(base, before.eqs, eqs@);
            assert(is_round(m, base_sel_eqs@, before, now));
            lemma_derived_once(m, base_sel_eqs@, before, now);
            if open {
                assert forall|left: nat, later: Closing| closes(m, base_sel_eqs@, now, *budget as nat, left, later) implies #[trigger] closes(
                    m,
                    base_sel_eqs@,
                    first,
                    whole,
                    left,
                    later,
                ) by {
                    assert(closes(m, base_sel_eqs@, before, steps, left, later));
                }
            } else {
                assert(closes(m, base_sel_eqs@, before, steps, *budget as nat, now));
            }
        }
    }
    proof {
        if open {
            let now = Closing { eqs: eqs@, derived: derived@ };
            assert(closes(m, base_sel_eqs@, now, 0, 0, now));
        }
    }
    bind_classes(m, eqs, derived)
}

/// What is derived in a round was not derived before.
proof fn lemma_derived_once(m: &TermManager, sel: Pairs, a: Closing, b: Closing)
    requires
        is_round(m, sel, a, b),
        a.derived.no_duplicates(),
        forall|i: int| 0 <= i < a.derived.len() ==> a.eqs.contains(#[trigger] a.derived[i]),
    ensures
        b.derived.no_duplicates(),
        forall|i: int| 0 <= i < b.derived.len() ==> b.eqs.contains(#[trigger] b.derived[i]),
{
    let h = choose|h: Map<usize, TermId>| #[trigger] hints_ok(m, a.eqs, h) && grows(m, sel, h, a, b);
    let n = a.derived.len() as int;
    assert forall|i: int| 0 <= i < n implies b.derived[i] == #[trigger] a.derived[i] by {
        assert(b.derived.take(n)[i] == b.derived[i]);
    }
    assert forall|i: int| 0 <= i < b.derived.len() implies b.eqs.contains(#[trigger] b.derived[i]) by {
        if i < n {
            let k = choose|k: int| 0 <= k < a.eqs.len() && a.eqs[k] == a.derived[i];
            assert(b.eqs.take(a.eqs.len() as int)[k] == b.eqs[k]);
        }
    }
    assert forall|i: int, j: int| 0 <= i < b.derived.len() && 0 <= j < b.derived.len() && i != j implies b.derived[i] != b.derived[j] by {
        let x = if i < j { i } else { j };
        let y = if i < j { j } else { i };
        if y < n {
            assert(a.derived[x] != a.derived[y]);
            assert(b.derived[x] == a.derived[x] && b.derived[y] == a.derived[y]);
        } else if x < n {
            assert(b.derived[x] == a.derived[x]);
            assert(a.eqs.contains(a.derived[x]));
            assert(!has_pair(a.eqs, b.derived[y].0, b.derived[y].1));
        } else {
            assert(b.derived[x] != b.derived[y]);
        }
    }
}

/// Appends pairs as they are.
fn append_pairs(eqs: &mut Vec<(TermId, TermId)>, seen: &mut FxHashSet<(usize, usize)>, more: &Vec<(TermId, TermId)>)
    requires
        seen_ok(old(eqs)@, old(seen)@),
    ensures
        seen_ok(final(eqs)@, final(seen)@),
        final(eqs)@ == old(eqs)@ + more@,
{
    let mut i: usize = 0;
    assert(eqs@ =~= old(eqs)@ + more@.take(0));
    while i < more.len()
        invariant
            i <= more.len(),
            seen_ok(eqs@, seen@),
            eqs@ == old(eqs)@ + more@.take(i as int),
        decreases more.len() - i,
    {
        let (a, b) = more[i];
        let ghost before = eqs@;
        let ghost set = seen@;
        eqs.push((a, b));
        pair_set_insert(
            seen,
            if a <= b {
                (a, b)
            } else {
                (b, a)
            },
        );
        proof {
            lemma_contains_push(before, (a, b));
            assert forall|x: usize, y: usize| #[trigger] has_pair(eqs@, x, y) <==> seen@.contains(ordered(x, y)) by {
                assert(has_pair(before, x, y) <==> set.contains(ordered(x, y)));
            }
            assert(more@.take(i + 1) =~= more@.take(i as int).push((a, b)));
            assert(eqs@ =~= old(eqs)@ + more@.take(i + 1));
        }
        i = i + 1;
    }
    assert(more@.take(more@.len() as int) =~= more@);
}

impl DtEqualityClosure {
    /// Two terms that must differ are forced to be equal.
    pub fn forces_disequality_conflict(&self, diseqs: &Vec<(TermId, TermId)>) -> (r: bool)
        ensures
            r == exists|i: int| 0 <= i < diseqs@.len() && joined(self.closed_eqs@, (#[trigger] diseqs@[i]).0, diseqs@[i].1),
    {
        let cl = classes_of(&self.closed_eqs);
        let mut i: usize = 0;
        while i < diseqs.len()
            invariant
                i <= diseqs.len(),
                cl.of(self.closed_eqs@),
                forall|j: int| 0 <= j < i ==> !joined(self.closed_eqs@, (#[trigger] diseqs@[j]).0, diseqs@[j].1),
            decreases diseqs.len() - i,
        {
            let (a, b) = diseqs[i];
            assert(diseqs@[i as int] == (a, b));
            if cl.find(a) == cl.find(b) {
                return true;
            }
            i = i + 1;
        }
        false
    }
}

} // verus!
