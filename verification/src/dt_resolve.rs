//! The constructor application that a term of a datatype is known to equal.
use crate::dt_facts::constructor_of;
use crate::dt_facts::ctor_of;
use crate::dt_facts::find_layout;
use crate::dt_facts::is_ctor;
use crate::dt_facts::layout_of;
use crate::dt_model::applies_selector;
use crate::dt_model::ctor_value;
use crate::dt_model::field_index;
use crate::dt_model::is_model;
use crate::dt_model::selector_index;
use crate::dt_model::DtModel;
use crate::maps::map_get;
use crate::maps::map_insert;
use crate::maps::set_contains;
use crate::maps::set_insert;
use crate::maps::set_new;
use crate::maps::set_remove;
use crate::term::Op;
use crate::term::Symbol;
use crate::term::TermId;
use crate::term::TermManager;
use rustc_hash::FxHashMap;
use rustc_hash::FxHashSet;
use vstd::prelude::*;

verus! {

/// The argument that a selector takes from a constructor application, if the selector is one of
/// that constructor's.
pub open spec fn field_of(m: &TermManager, c: TermId, sel: Symbol) -> Option<TermId> {
    if !is_ctor(m, c) {
        None
    } else {
        match field_index(m, m.sort_of(c), ctor_of(m, c), sel) {
            Some(i) => if i < m.args(c).len() {
                Some(m.arg(c, i))
            } else {
                None
            },
            None => None,
        }
    }
}

/// The constructor application that `t` comes down to in less than `n` levels: itself, what a
/// variable is bound to, or the field that a selector takes.
pub open spec fn resolved(m: &TermManager, binds: Map<usize, TermId>, t: TermId, n: nat) -> Option<TermId>
    decreases n,
{
    if n == 0 || !m.has(t) {
        None
    } else {
        match m.op(t) {
            Op::DtConstructor(_) => Some(t),
            Op::Var(_) => if binds.contains_key(t) {
                resolved(m, binds, binds[t], (n - 1) as nat)
            } else {
                None
            },
            Op::DtSelector(sel) => match resolved(m, binds, m.arg(t, 0), (n - 1) as nat) {
                None => None,
                Some(c) => match field_of(m, c, sel) {
                    None => None,
                    Some(f) => resolved(m, binds, f, (n - 1) as nat),
                },
            },
            _ => None,
        }
    }
}

/// The constructor application that `t` comes down to, if it comes down to one.
pub open spec fn normal_form(m: &TermManager, binds: Map<usize, TermId>, t: TermId) -> Option<TermId> {
    if exists|n: nat| #[trigger] resolved(m, binds, t, n) is Some {
        resolved(m, binds, t, choose|n: nat| #[trigger] resolved(m, binds, t, n) is Some)
    } else {
        None
    }
}

/// More levels change nothing.
proof fn lemma_more_levels(m: &TermManager, binds: Map<usize, TermId>, t: TermId, n: nat, k: nat)
    requires
        resolved(m, binds, t, n) is Some,
        n <= k,
    ensures
        resolved(m, binds, t, k) == resolved(m, binds, t, n),
    decreases n,
{
    match m.op(t) {
        Op::Var(_) => {
            lemma_more_levels(m, binds, binds[t], (n - 1) as nat, (k - 1) as nat);
        },
        Op::DtSelector(sel) => {
            lemma_more_levels(m, binds, m.arg(t, 0), (n - 1) as nat, (k - 1) as nat);
            let c = resolved(m, binds, m.arg(t, 0), (n - 1) as nat)->Some_0;
            let f = field_of(m, c, sel)->Some_0;
            lemma_more_levels(m, binds, f, (n - 1) as nat, (k - 1) as nat);
        },
        _ => {},
    }
}

/// The normal form is what any sufficient number of levels gives.
pub proof fn lemma_normal_form(m: &TermManager, binds: Map<usize, TermId>, t: TermId, n: nat)
    requires
        resolved(m, binds, t, n) is Some,
    ensures
        normal_form(m, binds, t) == resolved(m, binds, t, n),
{
    let k = choose|k: nat| #[trigger] resolved(m, binds, t, k) is Some;
    if k <= n {
        lemma_more_levels(m, binds, t, k, n);
    } else {
        lemma_more_levels(m, binds, t, n, k);
    }
}

/// What `x` comes down to needs what `y` comes down to, one level below.
spec fn demands(m: &TermManager, binds: Map<usize, TermId>, x: TermId, y: TermId) -> bool {
    forall|n: nat| #[trigger] resolved(m, binds, x, n) is Some ==> n > 0 && resolved(m, binds, y, (n - 1) as nat) is Some
}

/// Along a chain of needs, each at its level.
proof fn lemma_chain(m: &TermManager, binds: Map<usize, TermId>, path: Seq<usize>, i: int, j: int, n: nat)
    requires
        0 <= i <= j < path.len(),
        forall|k: int| 0 <= k < path.len() - 1 ==> demands(m, binds, #[trigger] path[k], path[k + 1]),
        resolved(m, binds, path[i], n) is Some,
    ensures
        n >= j - i,
        resolved(m, binds, path[j], (n - (j - i)) as nat) is Some,
    decreases j - i,
{
    if i < j {
        assert(demands(m, binds, path[i], path[i + 1]));
        lemma_chain(m, binds, path, i + 1, j, (n - 1) as nat);
    }
}

/// A need that leads back to itself is never met.
proof fn lemma_circular(m: &TermManager, binds: Map<usize, TermId>, path: Seq<usize>, i: int, t: TermId, n: nat)
    requires
        0 <= i < path.len(),
        path[i] == t,
        forall|k: int| 0 <= k < path.len() - 1 ==> demands(m, binds, #[trigger] path[k], path[k + 1]),
        demands(m, binds, path.last(), t),
    ensures
        resolved(m, binds, t, n) is None,
    decreases n,
{
    if resolved(m, binds, t, n) is Some {
        lemma_chain(m, binds, path, i, path.len() - 1, n);
        let k = (n - (path.len() - 1 - i)) as nat;
        assert(resolved(m, binds, path.last(), k) is Some);
        lemma_circular(m, binds, path, i, t, (k - 1) as nat);
    }
}

/// Different indices below a bound are no more than it.
proof fn lemma_bounded(s: Seq<usize>, n: nat)
    requires
        s.no_duplicates(),
        forall|i: int| 0 <= i < s.len() ==> (#[trigger] s[i]) < n,
    ensures
        s.len() <= n,
    decreases n,
{
    if s.len() > 0 {
        if n == 0 {
            assert(s[0] < n);
        } else if s.contains((n - 1) as usize) {
            let k = choose|k: int| 0 <= k < s.len() && s[k] == (n - 1) as usize;
            let r = s.remove(k);
            assert forall|i: int| 0 <= i < r.len() implies (#[trigger] r[i]) < n - 1 by {
                let j = if i < k { i } else { i + 1 };
                assert(r[i] == s[j]);
                assert(s[j] != s[k]);
                assert(s[k] < n);
            }
            assert(r.no_duplicates()) by {
                assert forall|i: int, j: int| 0 <= i < r.len() && 0 <= j < r.len() && i != j implies r[i] != r[j] by {
                    let a = if i < k { i } else { i + 1 };
                    let b = if j < k { j } else { j + 1 };
                    assert(r[i] == s[a] && r[j] == s[b]);
                }
            }
            lemma_bounded(r, (n - 1) as nat);
        } else {
            assert forall|i: int| 0 <= i < s.len() implies (#[trigger] s[i]) < n - 1 by {
                assert(s[i] < n);
                assert(s.contains(s[i]));
                if s[i] == n - 1 {
                    assert(s[i] == (n - 1) as usize);
                }
            }
            lemma_bounded(s, (n - 1) as nat);
        }
    }
}

/// What has been noted is right.
pub open spec fn memo_ok(m: &TermManager, binds: Map<usize, TermId>, memo: Map<usize, Option<TermId>>) -> bool {
    forall|x: usize| #[trigger] memo.contains_key(x) ==> memo[x] == normal_form(m, binds, x)
}

/// The terms being resolved are those of the chain `path`.
spec fn chain_ok(m: &TermManager, binds: Map<usize, TermId>, pending: Set<usize>, path: Seq<usize>, t: TermId) -> bool {
    &&& path.no_duplicates()
    &&& forall|x: usize| #[trigger] pending.contains(x) <==> path.contains(x)
    &&& forall|i: int| 0 <= i < path.len() ==> m.has(#[trigger] path[i])
    &&& forall|k: int| 0 <= k < path.len() - 1 ==> demands(m, binds, #[trigger] path[k], path[k + 1])
    &&& path.len() > 0 ==> demands(m, binds, path.last(), t)
}

/// The argument that a selector takes from a constructor application.
pub fn find_field(m: &TermManager, c: TermId, sel: Symbol) -> (r: Option<TermId>)
    ensures
        r == field_of(m, c, sel),
{
    let k: usize = match constructor_of(m, c) {
        Some(k) => k,
        None => {
            return None;
        },
    };
    match find_layout(m, m.terms[c].sort, k) {
        None => None,
        Some(layout) => {
            let mut i: usize = 0;
            while i < layout.fields.len()
                invariant
                    i <= layout.fields.len(),
                    is_ctor(m, c),
                    k == ctor_of(m, c),
                    layout_of(m, m.sort_of(c), k) == Some(*layout),
                    selector_index(layout.fields@, sel, 0) == selector_index(layout.fields@, sel, i as int),
                decreases layout.fields.len() - i,
            {
                if layout.fields[i].0 == sel {
                    if i < m.terms[c].args.len() {
                        return Some(m.terms[c].args[i]);
                    } else {
                        return None;
                    }
                }
                i = i + 1;
            }
            None
        },
    }
}

/// Resolves `t`, given the chain of terms whose resolution needs it.
fn resolve_in(
    m: &TermManager,
    t: TermId,
    binds: &FxHashMap<usize, TermId>,
    memo: &mut FxHashMap<usize, Option<TermId>>,
    pending: &mut FxHashSet<usize>,
    Ghost(path): Ghost<Seq<usize>>,
) -> (r: Option<TermId>)
    requires
        m.wf(),
        memo_ok(m, binds@, old(memo)@),
        chain_ok(m, binds@, old(pending)@, path, t),
    ensures
        memo_ok(m, binds@, final(memo)@),
        final(pending)@ == old(pending)@,
        r == normal_form(m, binds@, t),
    decreases m.terms@.len() - path.len(),
{
    if t >= m.terms.len() {
        assert(forall|n: nat| #[trigger] resolved(m, binds@, t, n) is None);
        return None;
    }
    if let Some(known) = map_get(memo, t) {
        return *known;
    }
    if set_contains(pending, t) {
        proof {
            assert(path.contains(t));
            let i = choose|i: int| 0 <= i < path.len() && path[i] == t;
            assert forall|n: nat| #[trigger] resolved(m, binds@, t, n) is None by {
                lemma_circular(m, binds@, path, i, t, n);
            }
        }
        return None;
    }
    set_insert(pending, t);
    let ghost here = path.push(t);
    proof {
        assert(here.no_duplicates()) by {
            assert(!path.contains(t));
            assert forall|i: int, j: int| 0 <= i < here.len() && 0 <= j < here.len() && i != j implies here[i] != here[j] by {
                if i < path.len() {
                    assert(path.contains(path[i]));
                }
                if j < path.len() {
                    assert(path.contains(path[j]));
                }
            }
        }
        lemma_bounded(here, m.terms@.len());
        crate::dt_cycle::lemma_contains_push(path, t);
        assert forall|k: int| 0 <= k < here.len() - 1 implies demands(m, binds@, #[trigger] here[k], here[k + 1]) by {
            if k < path.len() - 1 {
                assert(demands(m, binds@, path[k], path[k + 1]));
            }
        }
        assert(m.terms@[t as int].fits(t as int));
    }
    let r: Option<TermId> = match m.terms[t].op {
        Op::DtConstructor(_) => {
            proof {
                assert(resolved(m, binds@, t, 1) == Some(t));
                lemma_normal_form(m, binds@, t, 1);
            }
            Some(t)
        },
        Op::Var(_) => {
            match map_get(binds, t) {
                Some(b) => {
                    let b: usize = *b;
                    assert(demands(m, binds@, t, b));
                    let r = resolve_in(m, b, binds, memo, pending, Ghost(here));
                    proof {
                        lemma_step_to(m, binds@, t, b);
                    }
                    r
                },
                None => {
                    assert(forall|n: nat| #[trigger] resolved(m, binds@, t, n) is None);
                    None
                },
            }
        },
        Op::DtSelector(sel) => {
            let a: usize = m.terms[t].args[0];
            assert(demands(m, binds@, t, a));
            match resolve_in(m, a, binds, memo, pending, Ghost(here)) {
                None => {
                    assert forall|n: nat| #[trigger] resolved(m, binds@, t, n) is None by {
                        if resolved(m, binds@, t, n) is Some {
                            lemma_normal_form(m, binds@, a, (n - 1) as nat);
                        }
                    }
                    None
                },
                Some(c) => match find_field(m, c, sel) {
                    None => {
                        assert forall|n: nat| #[trigger] resolved(m, binds@, t, n) is None by {
                            if resolved(m, binds@, t, n) is Some {
                                lemma_normal_form(m, binds@, a, (n - 1) as nat);
                            }
                        }
                        None
                    },
                    Some(f) => {
                        assert(demands(m, binds@, t, f)) by {
                            assert forall|n: nat| #[trigger] resolved(m, binds@, t, n) is Some implies n > 0 && resolved(
                                m,
                                binds@,
                                f,
                                (n - 1) as nat,
                            ) is Some by {
                                lemma_normal_form(m, binds@, a, (n - 1) as nat);
                            }
                        }
                        let r = resolve_in(m, f, binds, memo, pending, Ghost(here));
                        proof {
                            lemma_select_to(m, binds@, t, sel, c, f);
                        }
                        r
                    },
                },
            }
        },
        _ => {
            assert(forall|n: nat| #[trigger] resolved(m, binds@, t, n) is None);
            None
        },
    };
    set_remove(pending, t);
    assert(pending@ =~= old(pending)@);
    map_insert(memo, t, r);
    r
}

/// A variable comes down to what it is bound to comes down to.
proof fn lemma_step_to(m: &TermManager, binds: Map<usize, TermId>, t: TermId, b: TermId)
    requires
        m.has(t),
        m.op(t) is Var,
        binds.contains_key(t),
        binds[t] == b,
    ensures
        normal_form(m, binds, t) == normal_form(m, binds, b),
{
    if exists|n: nat| #[trigger] resolved(m, binds, b, n) is Some {
        let n = choose|n: nat| #[trigger] resolved(m, binds, b, n) is Some;
        assert(resolved(m, binds, t, (n + 1) as nat) == resolved(m, binds, b, n));
        lemma_normal_form(m, binds, t, (n + 1) as nat);
    } else if exists|n: nat| #[trigger] resolved(m, binds, t, n) is Some {
        let n = choose|n: nat| #[trigger] resolved(m, binds, t, n) is Some;
        assert(resolved(m, binds, b, (n - 1) as nat) is Some);
    }
}

/// A selector application comes down to what the selected field comes down to.
proof fn lemma_select_to(m: &TermManager, binds: Map<usize, TermId>, t: TermId, sel: Symbol, c: TermId, f: TermId)
    requires
        m.has(t),
        m.op(t) == Op::DtSelector(sel),
        normal_form(m, binds, m.arg(t, 0)) == Some(c),
        field_of(m, c, sel) == Some(f),
    ensures
        normal_form(m, binds, t) == normal_form(m, binds, f),
{
    let a = m.arg(t, 0);
    let k = choose|k: nat| #[trigger] resolved(m, binds, a, k) is Some;
    if exists|n: nat| #[trigger] resolved(m, binds, f, n) is Some {
        let n = choose|n: nat| #[trigger] resolved(m, binds, f, n) is Some;
        let l = if n <= k { k } else { n };
        lemma_more_levels(m, binds, f, n, l);
        lemma_more_levels(m, binds, a, k, l);
        assert(resolved(m, binds, t, (l + 1) as nat) == resolved(m, binds, f, l));
        lemma_normal_form(m, binds, t, (l + 1) as nat);
    } else if exists|n: nat| #[trigger] resolved(m, binds, t, n) is Some {
        let n = choose|n: nat| #[trigger] resolved(m, binds, t, n) is Some;
        lemma_normal_form(m, binds, a, (n - 1) as nat);
        assert(resolved(m, binds, f, (n - 1) as nat) is Some);
    }
}

/// The constructor application that a term comes down to under the bindings of variables, if it
/// comes down to one. `memo` notes what has been found out under the same bindings.
pub fn resolve_dt_normal_form(
    m: &TermManager,
    t: TermId,
    binds: &FxHashMap<usize, TermId>,
    memo: &mut FxHashMap<usize, Option<TermId>>,
) -> (r: Option<TermId>)
    requires
        m.wf(),
        memo_ok(m, binds@, old(memo)@),
    ensures
        memo_ok(m, binds@, final(memo)@),
        r == normal_form(m, binds@, t),
{
    let mut pending = set_new();
    resolve_in(m, t, binds, memo, &mut pending, Ghost(Seq::empty()))
}

/// A term has the value of the constructor application that it comes down to, under all values
/// that obey the laws of datatypes and agree with the bindings.
pub proof fn law_normal_form_keeps_value(m: &TermManager, binds: Map<usize, TermId>, d: DtModel, t: TermId)
    requires
        m.wf(),
        is_model(m, d),
        forall|x: usize| #[trigger] binds.contains_key(x) ==> (d.val)(x) == (d.val)(binds[x]),
        normal_form(m, binds, t) is Some,
    ensures
        is_ctor(m, normal_form(m, binds, t)->Some_0),
        (d.val)(t) == (d.val)(normal_form(m, binds, t)->Some_0),
{
    let n = choose|n: nat| #[trigger] resolved(m, binds, t, n) is Some;
    lemma_resolved_value(m, binds, d, t, n);
}

proof fn lemma_resolved_value(m: &TermManager, binds: Map<usize, TermId>, d: DtModel, t: TermId, n: nat)
    requires
        m.wf(),
        is_model(m, d),
        forall|x: usize| #[trigger] binds.contains_key(x) ==> (d.val)(x) == (d.val)(binds[x]),
        resolved(m, binds, t, n) is Some,
    ensures
        is_ctor(m, resolved(m, binds, t, n)->Some_0),
        (d.val)(t) == (d.val)(resolved(m, binds, t, n)->Some_0),
    decreases n,
{
    match m.op(t) {
        Op::Var(_) => {
            lemma_resolved_value(m, binds, d, binds[t], (n - 1) as nat);
        },
        Op::DtSelector(sel) => {
            let a = m.arg(t, 0);
            lemma_resolved_value(m, binds, d, a, (n - 1) as nat);
            let c = resolved(m, binds, a, (n - 1) as nat)->Some_0;
            let f = field_of(m, c, sel)->Some_0;
            lemma_resolved_value(m, binds, d, f, (n - 1) as nat);
            lemma_field_value(m, d, t, sel, c);
        },
        _ => {},
    }
}

/// A selector application has the value of the field that it takes.
pub proof fn lemma_field_value(m: &TermManager, d: DtModel, t: TermId, sel: Symbol, c: TermId)
    requires
        m.wf(),
        is_model(m, d),
        m.has(t),
        m.op(t) == Op::DtSelector(sel),
        (d.val)(m.arg(t, 0)) == (d.val)(c),
        field_of(m, c, sel) is Some,
    ensures
        (d.val)(t) == (d.val)(field_of(m, c, sel)->Some_0),
{
    assert(m.terms@[t as int].fits(t as int));
    assert(applies_selector(m, t, sel));
    assert(is_ctor(m, c));
    assert(ctor_value(m, d, c));
    let s = m.sort_of(c);
    let i = field_index(m, s, ctor_of(m, c), sel)->Some_0;
    lemma_selector_index_bound(layout_of(m, s, ctor_of(m, c))->Some_0.fields@, sel, 0);
    assert((d.field)((d.val)(c), i) == (d.val)(m.arg(c, i)));
}

/// The field that a selector takes from a constructor application is a term of the store.
pub proof fn lemma_field_in_store(m: &TermManager, c: TermId, sel: Symbol)
    requires
        m.wf(),
        field_of(m, c, sel) is Some,
    ensures
        m.has(field_of(m, c, sel)->Some_0),
{
    assert(m.terms@[c as int].fits(c as int));
    lemma_selector_index_bound(layout_of(m, m.sort_of(c), ctor_of(m, c))->Some_0.fields@, sel, 0);
}

proof fn lemma_selector_index_bound(fields: Seq<(Symbol, crate::term::SortId)>, name: Symbol, i: int)
    requires
        0 <= i,
        selector_index(fields, name, i) is Some,
    ensures
        i <= selector_index(fields, name, i)->Some_0 < fields.len(),
    decreases fields.len() - i,
{
    if i < fields.len() && fields[i].0 != name {
        lemma_selector_index_bound(fields, name, i + 1);
    }
}

/// A term comes down to a constructor application by following bindings of variables and fields of
/// what selectors are applied to, as far as there are any.
pub proof fn law_bindings_and_fields_are_followed(m: &TermManager, binds: Map<usize, TermId>, t: TermId, k: TermId, f: TermId, c: TermId)
    requires
        m.has(t),
    ensures
        m.op(t) is DtConstructor ==> normal_form(m, binds, t) == Some(t),
        m.op(t) is Var && binds.contains_key(t) && normal_form(m, binds, binds[t]) == Some(c) ==> normal_form(m, binds, t) == Some(c),
        m.op(t) is DtSelector && normal_form(m, binds, m.arg(t, 0)) == Some(k) && field_of(m, k, m.op(t)->DtSelector_0) == Some(f)
            && normal_form(m, binds, f) == Some(c) ==> normal_form(m, binds, t) == Some(c),
{
    if m.op(t) is DtConstructor {
        assert(resolved(m, binds, t, 1) == Some(t));
        lemma_normal_form(m, binds, t, 1);
    }
    if m.op(t) is Var && binds.contains_key(t) && normal_form(m, binds, binds[t]) == Some(c) {
        let n = choose|n: nat| #[trigger] resolved(m, binds, binds[t], n) is Some;
        assert(resolved(m, binds, t, n + 1) == Some(c));
        lemma_normal_form(m, binds, t, n + 1);
    }
    if m.op(t) is DtSelector && normal_form(m, binds, m.arg(t, 0)) == Some(k) && field_of(m, k, m.op(t)->DtSelector_0) == Some(f) && normal_form(
        m,
        binds,
        f,
    ) == Some(c) {
        let i = choose|i: nat| #[trigger] resolved(m, binds, m.arg(t, 0), i) is Some;
        let j = choose|j: nat| #[trigger] resolved(m, binds, f, j) is Some;
        let n = i + j;
        lemma_more_levels(m, binds, m.arg(t, 0), i, n);
        lemma_more_levels(m, binds, f, j, n);
        assert(resolved(m, binds, t, n + 1) == Some(c));
        lemma_normal_form(m, binds, t, n + 1);
    }
}

} // verus!
