//! Conditionals that are no formulas, replaced by fresh constants with definitions.
use crate::axioms::lemma_extended_twice;
use crate::maps::map_get;
use crate::maps::map_insert;
use crate::maps::map_new;
use crate::term::is_node;
use crate::term::Op;
use crate::term::Sort;
use crate::term::SortId;
use crate::term::Symbol;
use crate::term::Term;
use crate::term::TermId;
use crate::term::TermManager;
use crate::term::BOOL_SORT;
use crate::term::FALSE_TERM;
use crate::term::TRUE_TERM;
use crate::text::decimal;
use crate::text::decimal_text;
use crate::text::join_text;
use crate::track::lemma_extended_self;
use crate::walk::is_binder;
use crate::walk::occurs;
use rustc_hash::FxHashMap;
use vstd::prelude::*;

verus! {

/// The sort is that of truth values or of bit vectors.
pub open spec fn is_bitwise(m: &TermManager, s: SortId) -> bool {
    s == BOOL_SORT || (s < m.sorts@.len() && m.sorts@[s as int] is BitVec)
}

/// The term is a conditional that is neither a formula nor a bit vector.
pub open spec fn is_term_ite(m: &TermManager, t: TermId) -> bool {
    m.has(t) && m.op(t) == Op::Ite && !is_bitwise(m, m.sort_of(t))
}

/// The first such conditional under `t` outside binders, parts before the whole.
pub open spec fn innermost(m: &TermManager, t: TermId) -> Option<TermId>
    decreases t, 1nat, 0nat,
{
    if !m.has(t) || is_binder(m, t) {
        None
    } else {
        match innermost_in(m, t, m.args(t).len()) {
            Some(x) => Some(x),
            None => if is_term_ite(m, t) {
                Some(t)
            } else {
                None
            },
        }
    }
}

/// The first such conditional under the first `k` arguments of `t`.
pub open spec fn innermost_in(m: &TermManager, t: TermId, k: nat) -> Option<TermId>
    decreases t, 0nat, k,
{
    if k == 0 {
        None
    } else {
        match innermost_in(m, t, (k - 1) as nat) {
            Some(x) => Some(x),
            None => if m.arg(t, k - 1) < t {
                innermost(m, m.arg(t, k - 1))
            } else {
                None
            },
        }
    }
}

/// How often such a conditional stands under `t` outside binders.
pub open spec fn ites(m: &TermManager, t: TermId) -> nat
    decreases t, 1nat, 0nat,
{
    if !m.has(t) || is_binder(m, t) {
        0
    } else {
        ites_in(m, t, m.args(t).len()) + if is_term_ite(m, t) {
            1nat
        } else {
            0nat
        }
    }
}

/// How often such a conditional stands under the first `k` arguments of `t`.
pub open spec fn ites_in(m: &TermManager, t: TermId, k: nat) -> nat
    decreases t, 0nat, k,
{
    if k == 0 {
        0
    } else {
        ites_in(m, t, (k - 1) as nat) + if m.arg(t, k - 1) < t {
            ites(m, m.arg(t, k - 1))
        } else {
            0
        }
    }
}

/// `u` is `t` with every occurrence of `from` replaced by `to`.
pub open spec fn replaced(m: &TermManager, from: TermId, to: TermId, t: TermId, u: TermId) -> bool
    decreases t,
{
    if t == from {
        u == to
    } else if !m.has(t) {
        u == t
    } else {
        &&& m.has(u)
        &&& m.op(u) == m.op(t)
        &&& m.terms@[u as int].digits@ == m.terms@[t as int].digits@
        &&& m.terms@[u as int].binders@ == m.terms@[t as int].binders@
        &&& m.sort_of(u) == m.sort_of(t)
        &&& m.args(u).len() == m.args(t).len()
        &&& forall|i: int|
            0 <= i < m.args(t).len() ==> #[trigger] m.args(t)[i] < t && replaced(m, from, to, m.args(t)[i], m.args(u)[i])
    }
}

/// `d` says that `k` has the value of the conditional.
pub open spec fn is_definition(m: &TermManager, d: TermId, k: TermId, ite: TermId) -> bool {
    &&& m.has(ite)
    &&& m.op(ite) == Op::Ite
    &&& m.has(d)
    &&& m.args(d).len() == 3
    &&& is_node(m, d, Op::Ite, seq![m.arg(ite, 0), m.arg(d, 1), m.arg(d, 2)], BOOL_SORT)
    &&& is_node(m, m.arg(d, 1), Op::Eq, seq![k, m.arg(ite, 1)], BOOL_SORT)
    &&& is_node(m, m.arg(d, 2), Op::Eq, seq![k, m.arg(ite, 2)], BOOL_SORT)
}

/// The name of the `n`-th fresh constant.
pub open spec fn fresh_name(n: nat) -> Seq<char> {
    "%%termite!"@ + decimal(n)
}

/// `k` is the `n`-th fresh constant, of the sort of the conditional.
pub open spec fn is_fresh(m: &TermManager, k: TermId, ite: TermId, n: nat) -> bool {
    &&& m.has(k)
    &&& m.op(k) is Var
    &&& m.args(k).len() == 0
    &&& m.op(k)->Var_0 < m.names@.len()
    &&& m.names@[m.op(k)->Var_0 as int]@ == fresh_name(n)
    &&& m.has(ite)
    &&& m.sort_of(k) == m.sort_of(ite)
}

/// One replacement: the constant, the conditional that it stands for, its definition, and the
/// formula before and after.
#[derive(Clone, Copy, Debug, PartialEq, Eq, Structural)]
pub struct Lowering {
    pub constant: TermId,
    pub ite: TermId,
    pub definition: TermId,
    pub before: TermId,
    pub after: TermId,
}

/// The replacement is right: it takes the innermost conditional, and the constant is the `n`-th.
pub open spec fn is_lowering(m: &TermManager, s: Lowering, n: nat) -> bool {
    &&& m.has(s.before)
    &&& m.has(s.after)
    &&& innermost(m, s.before) == Some(s.ite)
    &&& is_definition(m, s.definition, s.constant, s.ite)
    &&& is_fresh(m, s.constant, s.ite, n)
    &&& replaced(m, s.ite, s.constant, s.before, s.after)
}

/// The steps lead from `t` to `root`, and the constants are numbered from `first` on.
pub open spec fn lowered(m: &TermManager, t: TermId, steps: Seq<Lowering>, first: nat, root: TermId) -> bool {
    &&& forall|i: int| 0 <= i < steps.len() ==> is_lowering(m, #[trigger] steps[i], (first + i) as nat)
    &&& forall|i: int, j: int| 0 <= i && j == i + 1 && j < steps.len() ==> (#[trigger] steps[j]).before == (#[trigger] steps[i]).after
    &&& steps.len() == 0 ==> root == t
    &&& steps.len() > 0 ==> steps[0].before == t && steps.last().after == root
}

/// The definitions of the steps.
pub open spec fn definitions(steps: Seq<Lowering>) -> Seq<TermId> {
    steps.map_values(|s: Lowering| s.definition)
}

/// The first conditional is one, and contains no other.
proof fn lemma_innermost(m: &TermManager, t: TermId)
    requires
        m.wf(),
        innermost(m, t) is Some,
    ensures
        is_term_ite(m, innermost(m, t)->0),
        innermost(m, t)->0 <= t,
    decreases t, 1nat, 0nat,
{
    match innermost_in(m, t, m.args(t).len()) {
        Some(x) => {
            lemma_innermost_in(m, t, m.args(t).len());
        },
        None => {},
    }
}

proof fn lemma_innermost_in(m: &TermManager, t: TermId, k: nat)
    requires
        m.wf(),
        m.has(t),
        k <= m.args(t).len(),
        innermost_in(m, t, k) is Some,
    ensures
        is_term_ite(m, innermost_in(m, t, k)->0),
        innermost_in(m, t, k)->0 < t,
    decreases t, 0nat, k,
{
    if innermost_in(m, t, (k - 1) as nat) is Some {
        lemma_innermost_in(m, t, (k - 1) as nat);
    } else {
        lemma_innermost(m, m.arg(t, k - 1));
    }
}

/// A formula has no such conditional exactly if none is first.
proof fn lemma_none(m: &TermManager, t: TermId)
    ensures
        innermost(m, t) is None <==> ites(m, t) == 0,
    decreases t, 1nat, 0nat,
{
    if m.has(t) && !is_binder(m, t) {
        lemma_none_in(m, t, m.args(t).len());
    }
}

proof fn lemma_none_in(m: &TermManager, t: TermId, k: nat)
    ensures
        innermost_in(m, t, k) is None <==> ites_in(m, t, k) == 0,
    decreases t, 0nat, k,
{
    if k > 0 {
        lemma_none_in(m, t, (k - 1) as nat);
        if m.arg(t, k - 1) < t {
            lemma_none(m, m.arg(t, k - 1));
        }
    }
}

/// Replacing a conditional by a constant leaves fewer of them, if it is there.
proof fn lemma_fewer(m: &TermManager, from: TermId, to: TermId, t: TermId, u: TermId)
    requires
        m.wf(),
        is_term_ite(m, from),
        m.has(to),
        m.op(to) is Var,
        replaced(m, from, to, t, u),
    ensures
        ites(m, u) <= ites(m, t),
        innermost(m, t) == Some(from) ==> ites(m, u) < ites(m, t),
    decreases t, 1nat, 0nat,
{
    if m.has(t) {
        assert(m.terms@[t as int].fits(t as int));
    }
    if t == from {
        assert(m.terms@[to as int].fits(to as int));
        assert(m.args(to).len() == 0);
        assert(ites_in(m, to, 0) == 0);
        assert(ites(m, to) == 0);
        assert(ites(m, t) >= 1);
    } else if m.has(t) && !is_binder(m, t) {
        assert(m.terms@[u as int].fits(u as int));
        lemma_fewer_in(m, from, to, t, u, m.args(t).len());
    }
}

proof fn lemma_fewer_in(m: &TermManager, from: TermId, to: TermId, t: TermId, u: TermId, k: nat)
    requires
        m.wf(),
        is_term_ite(m, from),
        m.has(to),
        m.op(to) is Var,
        m.has(t),
        t != from,
        replaced(m, from, to, t, u),
        k <= m.args(t).len(),
    ensures
        ites_in(m, u, k) <= ites_in(m, t, k),
        innermost_in(m, t, k) == Some(from) ==> ites_in(m, u, k) < ites_in(m, t, k),
    decreases t, 0nat, k,
{
    if k > 0 {
        lemma_fewer_in(m, from, to, t, u, (k - 1) as nat);
        assert(m.terms@[t as int].fits(t as int));
        assert(m.terms@[u as int].fits(u as int));
        let a = m.args(t)[k - 1];
        let b = m.args(u)[k - 1];
        assert(a < t && replaced(m, from, to, a, b));
        lemma_fewer(m, from, to, a, b);
    }
}

/// What stands under a term does not change when the store grows.
proof fn lemma_ites_stay(m: &TermManager, later: &TermManager, t: TermId)
    requires
        m.wf(),
        m.extended_by(later),
        m.has(t),
    ensures
        ites(later, t) == ites(m, t),
        innermost(later, t) == innermost(m, t),
    decreases t, 1nat, 0nat,
{
    assert(later.terms@[t as int] == m.terms@[t as int]);
    if !is_binder(m, t) {
        lemma_ites_stay_in(m, later, t, m.args(t).len());
    }
}

proof fn lemma_ites_stay_in(m: &TermManager, later: &TermManager, t: TermId, k: nat)
    requires
        m.wf(),
        m.extended_by(later),
        m.has(t),
        k <= m.args(t).len(),
    ensures
        ites_in(later, t, k) == ites_in(m, t, k),
        innermost_in(later, t, k) == innermost_in(m, t, k),
    decreases t, 0nat, k,
{
    assert(later.terms@[t as int] == m.terms@[t as int]);
    if k > 0 {
        assert(m.terms@[t as int].fits(t as int));
        lemma_ites_stay_in(m, later, t, (k - 1) as nat);
        lemma_ites_stay(m, later, m.arg(t, k - 1));
    }
}

/// A replacement stays one when the store grows.
proof fn lemma_replaced_stays(m: &TermManager, later: &TermManager, from: TermId, to: TermId, t: TermId, u: TermId)
    requires
        m.wf(),
        m.extended_by(later),
        m.has(t),
        replaced(m, from, to, t, u),
    ensures
        replaced(later, from, to, t, u),
    decreases t,
{
    if t != from {
        assert(later.terms@[t as int] == m.terms@[t as int]);
        assert(later.terms@[u as int] == m.terms@[u as int]);
        assert(m.terms@[t as int].fits(t as int));
        assert forall|i: int| 0 <= i < later.args(t).len() implies #[trigger] later.args(t)[i] < t && replaced(
            later,
            from,
            to,
            later.args(t)[i],
            later.args(u)[i],
        ) by {
            lemma_replaced_stays(m, later, from, to, m.args(t)[i], m.args(u)[i]);
        }
    }
}

/// The steps of a lowering stay when the store grows.
proof fn lemma_lowered_stays(m: &TermManager, later: &TermManager, t: TermId, steps: Seq<Lowering>, first: nat, root: TermId)
    requires
        m.wf(),
        m.extended_by(later),
        lowered(m, t, steps, first, root),
    ensures
        lowered(later, t, steps, first, root),
{
    assert forall|i: int| 0 <= i < steps.len() implies is_lowering(later, #[trigger] steps[i], (first + i) as nat) by {
        let s = steps[i];
        let d = s.definition;
        assert(is_lowering(m, s, (first + i) as nat));
        assert(later.terms@[d as int] == m.terms@[d as int]);
        assert(later.terms@[s.ite as int] == m.terms@[s.ite as int]);
        assert(m.terms@[d as int].fits(d as int));
        assert(later.terms@[m.arg(d, 1) as int] == m.terms@[m.arg(d, 1) as int]);
        assert(later.terms@[m.arg(d, 2) as int] == m.terms@[m.arg(d, 2) as int]);
        assert(later.terms@[s.constant as int] == m.terms@[s.constant as int]);
        lemma_ites_stay(m, later, s.before);
        lemma_replaced_stays(m, later, s.ite, s.constant, s.before, s.after);
    }
}

/// The first conditional that is neither a formula nor a bit vector, outside binders.
fn find_innermost(m: &TermManager, t: TermId) -> (r: Option<TermId>)
    requires
        m.wf(),
    ensures
        r == innermost(m, t),
    decreases t,
{
    if t >= m.terms.len() {
        return None;
    }
    match m.terms[t].op {
        Op::Forall | Op::Exists => {
            return None;
        },
        _ => {},
    }
    let n: usize = m.terms[t].args.len();
    let mut i: usize = 0;
    while i < n
        invariant
            i <= n,
            m.wf(),
            m.has(t),
            n == m.args(t).len(),
            innermost_in(m, t, i as nat) is None,
            !is_binder(m, t),
        decreases n - i,
    {
        assert(m.terms@[t as int].fits(t as int));
        let a: usize = m.terms[t].args[i];
        let found = find_innermost(m, a);
        if found.is_some() {
            proof {
                lemma_first_found(m, t, (i + 1) as nat, n as nat);
            }
            return found;
        }
        i = i + 1;
    }
    let conditional = match m.terms[t].op {
        Op::Ite => true,
        _ => false,
    };
    let s: usize = m.terms[t].sort;
    let bitwise = s == BOOL_SORT || (s < m.sorts.len() && (match &m.sorts[s] {
        Sort::BitVec(_) => true,
        _ => false,
    }));
    if conditional && !bitwise {
        Some(t)
    } else {
        None
    }
}

/// A conditional that is first among the first arguments is first among all.
proof fn lemma_first_found(m: &TermManager, t: TermId, j: nat, k: nat)
    requires
        j <= k,
        innermost_in(m, t, j) is Some,
    ensures
        innermost_in(m, t, k) == innermost_in(m, t, j),
    decreases k,
{
    if j < k {
        lemma_first_found(m, t, j, (k - 1) as nat);
    }
}

/// What has been noted of a replacement is right.
spec fn notes_ok(m: &TermManager, from: TermId, to: TermId, memo: Map<usize, TermId>) -> bool {
    forall|x: usize| #[trigger] memo.contains_key(x) ==> m.has(x) && m.has(memo[x]) && replaced(m, from, to, x, memo[x])
}

/// It stays so when the store grows.
proof fn lemma_notes_stay(m: &TermManager, later: &TermManager, from: TermId, to: TermId, memo: Map<usize, TermId>)
    requires
        m.wf(),
        m.extended_by(later),
        notes_ok(m, from, to, memo),
    ensures
        notes_ok(later, from, to, memo),
{
    assert forall|x: usize| #[trigger] memo.contains_key(x) implies later.has(x) && later.has(memo[x]) && replaced(
        later,
        from,
        to,
        x,
        memo[x],
    ) by {
        lemma_replaced_stays(m, later, from, to, x, memo[x]);
    }
}

/// Replaces every occurrence of a term by another one.
fn substitute_in(m: &mut TermManager, t: TermId, from: TermId, to: TermId, memo: &mut FxHashMap<usize, TermId>) -> (u: TermId)
    requires
        old(m).wf(),
        old(m).has(t),
        old(m).has(to),
        notes_ok(old(m), from, to, old(memo)@),
    ensures
        final(m).wf(),
        old(m).extended_by(final(m)),
        final(m).names@ == old(m).names@,
        final(m).has(u),
        replaced(final(m), from, to, t, u),
        notes_ok(final(m), from, to, final(memo)@),
    decreases t,
{
    let ghost m0 = *m;
    proof {
        lemma_extended_self(m);
    }
    if t == from {
        return to;
    }
    if let Some(u) = map_get(memo, t) {
        return *u;
    }
    assert(m.terms@[t as int].fits(t as int));
    let n: usize = m.terms[t].args.len();
    let mut args: Vec<TermId> = Vec::new();
    let mut i: usize = 0;
    while i < n
        invariant
            i <= n,
            m0.wf(),
            m.wf(),
            m0.has(t),
            m0.has(to),
            n == m0.args(t).len(),
            m0.extended_by(m),
            m.names@ == m0.names@,
            args@.len() == i,
            notes_ok(m, from, to, memo@),
            forall|k: int| 0 <= k < i ==> m.has(#[trigger] args@[k]) && replaced(m, from, to, m0.args(t)[k], args@[k]),
        decreases n - i,
    {
        let ghost m1 = *m;
        assert(m.terms@[t as int] == m0.terms@[t as int]);
        assert(m0.terms@[t as int].fits(t as int));
        let a: usize = m.terms[t].args[i];
        let b: usize = substitute_in(m, a, from, to, memo);
        proof {
            lemma_extended_twice(&m0, &m1, m);
            assert forall|k: int| 0 <= k < i implies m.has(#[trigger] args@[k]) && replaced(m, from, to, m0.args(t)[k], args@[k]) by {
                assert(m0.terms@[t as int].fits(t as int));
                lemma_replaced_stays(&m1, m, from, to, m0.args(t)[k], args@[k]);
            }
        }
        args.push(b);
        i = i + 1;
    }
    let ghost m1 = *m;
    let ghost fresh = args@;
    assert(m.terms@[t as int] == m0.terms@[t as int]);
    let digits = copy_digits(&m.terms[t].digits);
    let binders = copy_binders(&m.terms[t].binders);
    let op = m.terms[t].op;
    let sort: usize = m.terms[t].sort;
    let u: usize = m.mk(Term { op, args, digits, binders, sort });
    proof {
        lemma_extended_twice(&m0, &m1, m);
        lemma_notes_stay(&m1, m, from, to, memo@);
        assert(m.terms@[t as int] == m0.terms@[t as int]);
        assert(m0.terms@[t as int].fits(t as int));
        assert forall|k: int| 0 <= k < m.args(t).len() implies #[trigger] m.args(t)[k] < t && replaced(
            m,
            from,
            to,
            m.args(t)[k],
            m.args(u)[k],
        ) by {
            assert(m1.has(fresh[k]));
            lemma_replaced_stays(&m1, m, from, to, m0.args(t)[k], fresh[k]);
        }
        assert(replaced(m, from, to, t, u));
    }
    map_insert(memo, t, u);
    u
}

/// A list with the same digits.
fn copy_digits(v: &Vec<u64>) -> (r: Vec<u64>)
    ensures
        r@ == v@,
{
    let mut r: Vec<u64> = Vec::new();
    let mut i: usize = 0;
    while i < v.len()
        invariant
            i <= v.len(),
            r@ == v@.take(i as int),
        decreases v.len() - i,
    {
        r.push(v[i]);
        assert(r@ =~= v@.take(i + 1));
        i = i + 1;
    }
    assert(v@.take(i as int) =~= v@);
    r
}

/// A list with the same bound variables.
fn copy_binders(v: &Vec<(Symbol, SortId)>) -> (r: Vec<(Symbol, SortId)>)
    ensures
        r@ == v@,
{
    let mut r: Vec<(Symbol, SortId)> = Vec::new();
    let mut i: usize = 0;
    while i < v.len()
        invariant
            i <= v.len(),
            r@ == v@.take(i as int),
        decreases v.len() - i,
    {
        r.push(v[i]);
        assert(r@ =~= v@.take(i + 1));
        i = i + 1;
    }
    assert(v@.take(i as int) =~= v@);
    r
}

/// A formula without such conditionals, and how it came about.
#[derive(Debug)]
pub struct Lowered {
    pub formula: TermId,
    pub steps: Vec<Lowering>,
}

/// The formula is `t` itself if there was nothing to replace, else the conjunction of the
/// definitions and of what is left of `t`.
pub open spec fn is_lowered(m: &TermManager, t: TermId, first: nat, r: Lowered, root: TermId) -> bool {
    &&& lowered(m, t, r.steps@, first, root)
    &&& m.has(root)
    &&& if r.steps@.len() == 0 {
        r.formula == t
    } else {
        is_node(m, r.formula, Op::And, definitions(r.steps@).push(root), BOOL_SORT)
    }
}

/// The `n`-th fresh constant of a sort.
fn mk_fresh(m: &mut TermManager, n: u64, sort: SortId) -> (k: TermId)
    requires
        old(m).wf(),
    ensures
        final(m).wf(),
        old(m).extended_by(final(m)),
        final(m).has(k),
        final(m).op(k) is Var,
        final(m).args(k).len() == 0,
        final(m).op(k)->Var_0 < final(m).names@.len(),
        final(m).names@[final(m).op(k)->Var_0 as int]@ == fresh_name(n as nat),
        final(m).sort_of(k) == sort,
{
    let name = join_text("%%termite!", &decimal_text(n));
    let ghost m0 = *m;
    let s: usize = m.intern(name);
    let ghost m1 = *m;
    let args: Vec<TermId> = Vec::new();
    let k: usize = m.mk_app(Op::Var(s), args, sort);
    proof {
        lemma_extended_twice(&m0, &m1, m);
    }
    k
}

/// The definition of a constant that stands for a conditional.
fn mk_definition(m: &mut TermManager, k: TermId, ite: TermId) -> (d: TermId)
    requires
        old(m).wf(),
        old(m).has(k),
        is_term_ite(old(m), ite),
    ensures
        final(m).wf(),
        old(m).extended_by(final(m)),
        final(m).names@ == old(m).names@,
        is_definition(final(m), d, k, ite),
{
    let ghost m0 = *m;
    assert(m.terms@[ite as int].fits(ite as int));
    let c: usize = m.terms[ite].args[0];
    let t: usize = m.terms[ite].args[1];
    let e: usize = m.terms[ite].args[2];
    let p: usize = m.mk_eq(k, t);
    let ghost m1 = *m;
    let q: usize = m.mk_eq(k, e);
    let ghost m2 = *m;
    proof {
        lemma_extended_twice(&m0, &m1, &m2);
        assert(m2.terms@[p as int] == m1.terms@[p as int]);
    }
    let mut args: Vec<TermId> = Vec::new();
    args.push(c);
    args.push(p);
    args.push(q);
    assert(args@ =~= seq![c, p, q]);
    let d: usize = m.mk_app(Op::Ite, args, BOOL_SORT);
    proof {
        lemma_extended_twice(&m0, &m2, m);
        assert(m.terms@[p as int] == m2.terms@[p as int]);
        assert(m.terms@[q as int] == m2.terms@[q as int]);
        assert(m.terms@[ite as int] == m0.terms@[ite as int]);
        assert(m.args(d)[0] == c && m.args(d)[1] == p && m.args(d)[2] == q);
        assert(m.args(d) =~= seq![m.arg(ite, 0), m.arg(d, 1), m.arg(d, 2)]);
    }
    d
}

/// Replaces the conditionals of a formula that are neither formulas nor bit vectors and stand
/// outside binders by fresh constants, and conjoins the definitions of these. The constants are
/// numbered by the counter; where it runs out of numbers, the rest stays as it is.
pub fn eliminate_term_ites(m: &mut TermManager, t: TermId, counter: &mut u64) -> (r: Lowered)
    requires
        old(m).wf(),
        old(m).has(t),
    ensures
        final(m).wf(),
        old(m).extended_by(final(m)),
        final(m).has(r.formula),
        exists|root: TermId| #[trigger]
            is_lowered(final(m), t, *old(counter) as nat, r, root) && (innermost(final(m), root) is None || *final(counter) == u64::MAX),
        *final(counter) == *old(counter) + r.steps@.len(),
{
    let ghost m0 = *m;
    let ghost first = *counter as nat;
    let mut root: usize = t;
    let mut steps: Vec<Lowering> = Vec::new();
    let mut defs: Vec<TermId> = Vec::new();
    proof {
        lemma_extended_self(m);
    }
    loop
        invariant
            m0.wf(),
            m0.has(t),
            m.wf(),
            m0.extended_by(m),
            m.has(root),
            lowered(m, t, steps@, first, root),
            defs@ == definitions(steps@),
            forall|i: int| 0 <= i < defs@.len() ==> m.has(#[trigger] defs@[i]),
            *counter == first + steps@.len(),
        ensures
            innermost(m, root) is None || *counter == u64::MAX,
        decreases ites(m, root),
    {
        let ite: usize = match find_innermost(m, root) {
            Some(ite) => ite,
            None => {
                break;
            },
        };
        let ghost m1 = *m;
        proof {
            lemma_innermost(m, root);
            lemma_none(m, root);
        }
        let n: u64 = *counter;
        if n == u64::MAX {
            break;
        }
        let sort: usize = m.terms[ite].sort;
        let k: usize = mk_fresh(m, n, sort);
        let ghost m2 = *m;
        *counter = n + 1;
        assert(m2.terms@[ite as int] == m1.terms@[ite as int]);
        let d: usize = mk_definition(m, k, ite);
        let ghost m3 = *m;
        let mut memo: FxHashMap<usize, TermId> = map_new();
        proof {
            lemma_extended_twice(&m1, &m2, &m3);
            assert(m3.terms@[k as int] == m2.terms@[k as int]);
        }
        let after: usize = substitute_in(m, root, ite, k, &mut memo);
        let s = Lowering { constant: k, ite, definition: d, before: root, after };
        proof {
            lemma_extended_twice(&m1, &m3, m);
            lemma_extended_twice(&m0, &m1, m);
            lemma_lowered_stays(&m1, m, t, steps@, first, root);
            lemma_ites_stay(&m1, m, root);
            assert(m.terms@[k as int] == m3.terms@[k as int]);
            assert(m.terms@[ite as int] == m1.terms@[ite as int]);
            assert(m.terms@[d as int] == m3.terms@[d as int]);
            assert(m3.terms@[d as int].fits(d as int));
            assert(m.terms@[m3.arg(d, 1) as int] == m3.terms@[m3.arg(d, 1) as int]);
            assert(m.terms@[m3.arg(d, 2) as int] == m3.terms@[m3.arg(d, 2) as int]);
            assert(is_definition(m, d, k, ite));
            assert(is_lowering(m, s, n as nat));
            lemma_fewer(m, ite, k, root, after);
            let more = steps@.push(s);
            assert forall|i: int| 0 <= i < more.len() implies is_lowering(m, #[trigger] more[i], (first + i) as nat) by {
                if i < steps@.len() {
                    assert(is_lowering(m, steps@[i], (first + i) as nat));
                }
            }
            assert forall|i: int, j: int| 0 <= i && j == i + 1 && j < more.len() implies (#[trigger] more[j]).before == (
            #[trigger] more[i]).after by {
                if j < steps@.len() {
                    assert(steps@[j].before == steps@[i].after);
                }
            }
            assert(definitions(more) =~= definitions(steps@).push(d));
        }
        steps.push(s);
        defs.push(d);
        root = after;
    }
    if steps.len() == 0 {
        proof {
            assert(is_lowered(m, t, first, Lowered { formula: t, steps }, root));
        }
        return Lowered { formula: t, steps };
    }
    let ghost m1 = *m;
    let ghost listed = defs@;
    defs.push(root);
    let f: usize = m.mk_app(Op::And, defs, BOOL_SORT);
    proof {
        lemma_extended_twice(&m0, &m1, m);
        lemma_lowered_stays(&m1, m, t, steps@, first, root);
        lemma_ites_stay(&m1, m, root);
        assert(is_lowered(m, t, first, Lowered { formula: f, steps }, root));
    }
    Lowered { formula: f, steps }
}

/// What terms denote. Formulas denote what `true` or what `false` denotes; an equality, a
/// conditional and a conjunction denote what their parts make them denote; and terms that are
/// written alike over parts that denote the same denote the same.
pub open spec fn denotes(m: &TermManager, v: spec_fn(TermId) -> int) -> bool {
    &&& v(TRUE_TERM) != v(FALSE_TERM)
    &&& forall|t: TermId, u: TermId| #[trigger] alike(m, v, t, u) ==> v(t) == v(u)
    &&& forall|t: TermId|
        m.has(t) && m.op(t) == Op::Eq ==> #[trigger] v(t) == if v(m.arg(t, 0)) == v(m.arg(t, 1)) {
            v(TRUE_TERM)
        } else {
            v(FALSE_TERM)
        }
    &&& forall|t: TermId|
        m.has(t) && m.op(t) == Op::Ite ==> if v(m.arg(t, 0)) == v(TRUE_TERM) {
            #[trigger] v(t) == v(m.arg(t, 1))
        } else {
            v(m.arg(t, 0)) == v(FALSE_TERM) && v(t) == v(m.arg(t, 2))
        }
    &&& forall|t: TermId|
        m.has(t) && m.op(t) == Op::And ==> (#[trigger] v(t) == v(TRUE_TERM) <==> forall|i: int|
            0 <= i < m.args(t).len() ==> v(#[trigger] m.args(t)[i]) == v(TRUE_TERM))
}

/// Two terms are written alike over parts that denote the same.
pub open spec fn alike(m: &TermManager, v: spec_fn(TermId) -> int, t: TermId, u: TermId) -> bool {
    &&& m.has(t)
    &&& m.has(u)
    &&& m.op(u) == m.op(t)
    &&& m.terms@[u as int].digits@ == m.terms@[t as int].digits@
    &&& m.terms@[u as int].binders@ == m.terms@[t as int].binders@
    &&& m.sort_of(u) == m.sort_of(t)
    &&& m.args(u).len() == m.args(t).len()
    &&& forall|i: int| 0 <= i < m.args(t).len() ==> v(#[trigger] m.args(t)[i]) == v(m.args(u)[i])
}

/// Replacing a term by one that denotes the same changes nothing.
proof fn lemma_replaced_denotes(m: &TermManager, v: spec_fn(TermId) -> int, from: TermId, to: TermId, t: TermId, u: TermId)
    requires
        m.wf(),
        denotes(m, v),
        v(from) == v(to),
        replaced(m, from, to, t, u),
    ensures
        v(t) == v(u),
    decreases t,
{
    if t != from && m.has(t) {
        assert forall|i: int| 0 <= i < m.args(t).len() implies v(#[trigger] m.args(t)[i]) == v(m.args(u)[i]) by {
            lemma_replaced_denotes(m, v, from, to, m.args(t)[i], m.args(u)[i]);
        }
        assert(alike(m, v, t, u));
    }
}

/// A definition is true exactly if the constant denotes what the conditional denotes.
proof fn lemma_definition(m: &TermManager, v: spec_fn(TermId) -> int, d: TermId, k: TermId, ite: TermId)
    requires
        m.wf(),
        denotes(m, v),
        is_definition(m, d, k, ite),
    ensures
        v(d) == v(TRUE_TERM) <==> v(k) == v(ite),
{
    let p = m.arg(d, 1);
    let q = m.arg(d, 2);
    assert(m.args(d)[0] == m.arg(ite, 0));
    assert(m.args(p)[0] == k && m.args(p)[1] == m.arg(ite, 1));
    assert(m.args(q)[0] == k && m.args(q)[1] == m.arg(ite, 2));
    assert(v(d) == v(d) && v(p) == v(p) && v(q) == v(q) && v(ite) == v(ite));
}

/// What is left of a formula denotes the same as long as every constant denotes what its
/// conditional denotes.
proof fn lemma_steps_denote(m: &TermManager, v: spec_fn(TermId) -> int, t: TermId, steps: Seq<Lowering>, first: nat, root: TermId)
    requires
        m.wf(),
        denotes(m, v),
        lowered(m, t, steps, first, root),
        forall|i: int| 0 <= i < steps.len() ==> v((#[trigger] steps[i]).constant) == v(steps[i].ite),
    ensures
        v(root) == v(t),
    decreases steps.len(),
{
    if steps.len() > 0 {
        let n = steps.len() - 1;
        let s = steps[n];
        assert(is_lowering(m, s, (first + n) as nat));
        lemma_replaced_denotes(m, v, s.ite, s.constant, s.before, s.after);
        let fewer = steps.drop_last();
        assert forall|i: int| 0 <= i < fewer.len() implies is_lowering(m, #[trigger] fewer[i], (first + i) as nat) by {
            assert(is_lowering(m, steps[i], (first + i) as nat));
        }
        assert forall|i: int, j: int| 0 <= i && j == i + 1 && j < fewer.len() implies (#[trigger] fewer[j]).before == (
        #[trigger] fewer[i]).after by {
            assert(steps[j].before == steps[i].after);
        }
        if n > 0 {
            assert(steps[n].before == steps[n - 1].after);
        }
        assert(lowered(m, t, fewer, first, s.before));
        lemma_steps_denote(m, v, t, fewer, first, s.before);
    }
}

/// A formula without term conditionals is true only if the formula that it came from is, whatever
/// the fresh constants denote.
pub proof fn law_lowering_is_sound(m: &TermManager, v: spec_fn(TermId) -> int, t: TermId, first: nat, r: Lowered, root: TermId)
    requires
        m.wf(),
        denotes(m, v),
        is_lowered(m, t, first, r, root),
        v(r.formula) == v(TRUE_TERM),
    ensures
        v(t) == v(TRUE_TERM),
{
    let steps = r.steps@;
    if steps.len() > 0 {
        let parts = definitions(steps).push(root);
        assert(m.args(r.formula) == parts);
        assert forall|i: int| 0 <= i < steps.len() implies v((#[trigger] steps[i]).constant) == v(steps[i].ite) by {
            assert(is_lowering(m, steps[i], (first + i) as nat));
            assert(m.args(r.formula)[i] == steps[i].definition);
            assert(v(m.args(r.formula)[i]) == v(TRUE_TERM));
            lemma_definition(m, v, steps[i].definition, steps[i].constant, steps[i].ite);
        }
        assert(m.args(r.formula)[steps.len() as int] == root);
        assert(v(m.args(r.formula)[steps.len() as int]) == v(TRUE_TERM));
        lemma_steps_denote(m, v, t, steps, first, root);
    }
}

/// A formula without term conditionals is true exactly if the formula that it came from is, once
/// every fresh constant denotes what its conditional denotes.
pub proof fn law_lowering_is_conservative(m: &TermManager, v: spec_fn(TermId) -> int, t: TermId, first: nat, r: Lowered, root: TermId)
    requires
        m.wf(),
        denotes(m, v),
        is_lowered(m, t, first, r, root),
        forall|i: int| 0 <= i < r.steps@.len() ==> v((#[trigger] r.steps@[i]).constant) == v(r.steps@[i].ite),
    ensures
        v(r.formula) == v(TRUE_TERM) <==> v(t) == v(TRUE_TERM),
{
    let steps = r.steps@;
    if steps.len() > 0 {
        lemma_steps_denote(m, v, t, steps, first, root);
        let parts = definitions(steps).push(root);
        assert(m.args(r.formula) == parts);
        if v(t) == v(TRUE_TERM) {
            assert forall|i: int| 0 <= i < m.args(r.formula).len() implies v(#[trigger] m.args(r.formula)[i]) == v(TRUE_TERM) by {
                if i < steps.len() {
                    assert(is_lowering(m, steps[i], (first + i) as nat));
                    assert(m.args(r.formula)[i] == steps[i].definition);
                    lemma_definition(m, v, steps[i].definition, steps[i].constant, steps[i].ite);
                }
            }
        } else {
            assert(m.args(r.formula)[steps.len() as int] == root);
        }
        assert(v(r.formula) == v(r.formula));
    }
}

/// Nothing under a term without a first conditional is one.
proof fn lemma_none_occurs(m: &TermManager, t: TermId, x: TermId)
    requires
        m.wf(),
        m.has(t),
        innermost(m, t) is None,
        occurs(m, t, x),
    ensures
        !is_term_ite(m, x),
    decreases t,
{
    assert(m.terms@[t as int].fits(t as int));
    if t != x {
        let i = choose|i: int| 0 <= i < m.args(t).len() && #[trigger] m.args(t)[i] < t && occurs(m, m.args(t)[i], x);
        lemma_none_arg(m, t, m.args(t).len(), i);
        lemma_none_occurs(m, m.args(t)[i], x);
    }
}

/// No argument has a first conditional where none of the first ones has.
proof fn lemma_none_arg(m: &TermManager, t: TermId, k: nat, i: int)
    requires
        0 <= i < k <= m.args(t).len(),
        innermost_in(m, t, k) is None,
        m.args(t)[i] < t,
    ensures
        innermost(m, m.args(t)[i]) is None,
    decreases k,
{
    if i < k - 1 {
        lemma_none_arg(m, t, (k - 1) as nat, i);
    }
}

/// Where the replacement has come to its end, what is left of the formula has no conditional outside
/// binders but formulas and bit vectors.
pub proof fn law_no_term_conditional_is_left(m: &TermManager, t: TermId, first: nat, r: Lowered, root: TermId, x: TermId)
    requires
        m.wf(),
        is_lowered(m, t, first, r, root),
        innermost(m, root) is None,
        occurs(m, root, x),
        m.has(x),
        m.op(x) == Op::Ite,
    ensures
        m.sort_of(x) == BOOL_SORT || (m.sort_of(x) < m.sorts@.len() && m.sorts@[m.sort_of(x) as int] is BitVec),
{
    lemma_none_occurs(m, root, x);
}

} // verus!
