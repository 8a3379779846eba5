//! Wrapped operators and the statements that say what they are.
use crate::arith_laws::rel_between;
use crate::dt_laws::forced;
use crate::dt_laws::forces;
use crate::linear::number;
use crate::linear::product_value;
use crate::linear::sum_value;
use crate::linear::Valuation;
use crate::spine::all_targets;
use crate::spine::applies;
use crate::spine::binds_args;
use crate::spine::bridge_plan;
use crate::spine::bridged;
use crate::spine::children_of;
use crate::spine::congruent;
use crate::spine::faithful;
use crate::spine::in_focus;
use crate::spine::is_bound;
use crate::spine::is_bridge;
use crate::spine::is_bridge_side;
use crate::spine::lemma_focused_atoms_follow;
use crate::spine::mentions_real;
use crate::spine::native_of;
use crate::spine::native_value;
use crate::spine::opposite;
use crate::spine::qualifies;
use crate::spine::route;
use crate::spine::sense;
use crate::spine::sides_match;
use crate::spine::spine_of;
use crate::spine::targets;
use crate::spine::targets_below;
use crate::spine::unwraps;
use crate::spine::NlEngine;
use crate::spine::NlPlan;
use crate::spine::SpineRewrite;
use crate::spine::SCAN_DEPTH;
use crate::term::Op;
use crate::term::Rel;
use crate::term::SortId;
use crate::term::Symbol;
use crate::term::TermId;
use crate::term::TermManager;
use crate::term::INT_SORT;
use crate::term::REAL_SORT;
use crate::text::holds_text;
use vstd::prelude::*;

verus! {

/// What functions of two arguments are, by their names.
pub type Functions = spec_fn(Symbol, real, real) -> real;

/// The number is the integer.
pub open spec fn is_integer(x: real, n: int) -> bool {
    x == n as real
}

/// The number is a value of the sort, as far as numbers go: integers have whole values.
pub open spec fn in_sort(sort: SortId, x: real) -> bool {
    sort == INT_SORT ==> exists|n: int| #[trigger] is_integer(x, n)
}

/// The term applies a function to two arguments.
pub open spec fn applies_two(m: &TermManager, t: TermId) -> bool {
    m.has(t) && m.op(t) is Apply && m.args(t).len() == 2
}

/// Applications have the values that the functions give them.
pub open spec fn interprets(m: &TermManager, f: Functions, v: Valuation) -> bool {
    forall|t: TermId| #[trigger]
        applies_two(m, t) ==> v(t) == f(m.op(t)->Apply_0, number(m, v, m.arg(t, 0)), number(m, v, m.arg(t, 1)))
}

/// Terms have values of their sorts, and a function has arguments of the same sorts wherever it is
/// applied.
pub open spec fn well_sorted(m: &TermManager, v: Valuation) -> bool {
    &&& forall|t: TermId| m.has(t) ==> in_sort(m.sort_of(t), #[trigger] number(m, v, t))
    &&& forall|s: TermId, t: TermId| #[trigger]
        applies_two(m, s) && #[trigger] applies_two(m, t) && m.op(s) == m.op(t) ==> m.sort_of(m.arg(s, 0)) == m.sort_of(m.arg(t, 0))
            && m.sort_of(m.arg(s, 1)) == m.sort_of(m.arg(t, 1))
}

/// The term is one of the variables that the statement binds.
pub open spec fn binds_it(m: &TermManager, t: TermId, x: TermId) -> bool {
    exists|i: int| 0 <= i < m.terms@[t as int].binders@.len() && #[trigger] is_bound(m, t, i, x)
}

/// `w` gives the variables that the statement binds any values of their sorts, other variables the
/// values that `v` gives them, and applications the values that the functions give them.
pub open spec fn is_variant(m: &TermManager, f: Functions, v: Valuation, t: TermId, w: Valuation) -> bool {
    &&& interprets(m, f, w)
    &&& forall|x: TermId| #[trigger] binds_it(m, t, x) ==> in_sort(m.sort_of(x), w(x))
    &&& forall|x: TermId| m.has(x) && #[trigger] m.op(x) is Var && !binds_it(m, t, x) ==> w(x) == v(x)
}

/// The universal statement holds: its body does for all values of the bound variables.
pub open spec fn holds_for_all(m: &TermManager, f: Functions, v: Valuation, open: spec_fn(TermId) -> bool, t: TermId) -> bool {
    forall|w: Valuation| #[trigger] is_variant(m, f, v, t, w) ==> sense(m, w, open, m.arg(t, 0))
}

/// The values of variables and of what is no arithmetic, with two variables changed.
pub open spec fn changed(v: Valuation, x: TermId, a: real, y: TermId, b: real) -> Valuation {
    |t: TermId|
        if t == x {
            a
        } else if t == y {
            b
        } else {
            v(t)
        }
}

/// The number that a term denotes, functions being given.
pub open spec fn value(m: &TermManager, f: Functions, u: Valuation, t: TermId) -> real
    decreases t, m.args(t).len() + 1,
{
    match m.op(t) {
        Op::IntConst { .. } | Op::RealConst { .. } | Op::BitVecConst { .. } => number(m, u, t),
        Op::Add => value_of_sum(m, f, u, t, m.args(t).len() as int),
        Op::Mul => value_of_product(m, f, u, t, m.args(t).len() as int),
        Op::Sub => if m.arg(t, 0) < t && m.arg(t, 1) < t {
            value(m, f, u, m.arg(t, 0)) - value(m, f, u, m.arg(t, 1))
        } else {
            u(t)
        },
        Op::Neg => if m.arg(t, 0) < t {
            -value(m, f, u, m.arg(t, 0))
        } else {
            u(t)
        },
        Op::Apply(g) => if m.has(t) && m.args(t).len() == 2 && m.arg(t, 0) < t && m.arg(t, 1) < t {
            f(g, value(m, f, u, m.arg(t, 0)), value(m, f, u, m.arg(t, 1)))
        } else {
            u(t)
        },
        _ => u(t),
    }
}

/// The sum of what the first `k` arguments denote.
pub open spec fn value_of_sum(m: &TermManager, f: Functions, u: Valuation, t: TermId, k: int) -> real
    decreases t, k,
{
    if k <= 0 || m.arg(t, k - 1) >= t {
        0real
    } else {
        value_of_sum(m, f, u, t, k - 1) + value(m, f, u, m.arg(t, k - 1))
    }
}

/// The product of what the first `k` arguments denote.
pub open spec fn value_of_product(m: &TermManager, f: Functions, u: Valuation, t: TermId, k: int) -> real
    decreases t, k,
{
    if k <= 0 || m.arg(t, k - 1) >= t {
        1real
    } else {
        value_of_product(m, f, u, t, k - 1) * value(m, f, u, m.arg(t, k - 1))
    }
}

/// The valuation in which every term has its value, functions being given.
pub open spec fn valued(m: &TermManager, f: Functions, u: Valuation) -> Valuation {
    |t: TermId| value(m, f, u, t)
}

/// Every term denotes its value.
proof fn lemma_number_is_value(m: &TermManager, f: Functions, u: Valuation, t: TermId)
    ensures
        number(m, valued(m, f, u), t) == value(m, f, u, t),
    decreases t, m.args(t).len() + 1,
{
    let w = valued(m, f, u);
    match m.op(t) {
        Op::Add => lemma_sums_agree(m, f, u, t, m.args(t).len() as int),
        Op::Mul => lemma_sums_agree(m, f, u, t, m.args(t).len() as int),
        Op::Sub => {
            if m.arg(t, 0) < t && m.arg(t, 1) < t {
                lemma_number_is_value(m, f, u, m.arg(t, 0));
                lemma_number_is_value(m, f, u, m.arg(t, 1));
            }
        },
        Op::Neg => {
            if m.arg(t, 0) < t {
                lemma_number_is_value(m, f, u, m.arg(t, 0));
            }
        },
        _ => {},
    }
}

/// Sums and products of arguments denote their values.
proof fn lemma_sums_agree(m: &TermManager, f: Functions, u: Valuation, t: TermId, k: int)
    ensures
        sum_value(m, valued(m, f, u), t, k) == value_of_sum(m, f, u, t, k),
        product_value(m, valued(m, f, u), t, k) == value_of_product(m, f, u, t, k),
    decreases t, k,
{
    if k > 0 && m.arg(t, k - 1) < t {
        lemma_sums_agree(m, f, u, t, k - 1);
        lemma_number_is_value(m, f, u, m.arg(t, k - 1));
    }
}

/// An asserted bridge gives its wrapper the values of its operator.
proof fn lemma_bridge_gives_values(
    m: &TermManager,
    f: Functions,
    v: Valuation,
    open: spec_fn(TermId) -> bool,
    bridge: TermId,
    name: Seq<char>,
    t: TermId,
)
    requires
        m.wf(),
        interprets(m, f, v),
        well_sorted(m, v),
        is_bridge(m, bridge, name),
        holds_for_all(m, f, v, open, bridge),
        applies_two(m, t),
        m.op(t)->Apply_0 < m.names@.len(),
        m.names@[m.op(t)->Apply_0 as int]@ == name,
    ensures
        native_of(name) matches Some(n) && v(t) == native_value(n, number(m, v, m.arg(t, 0)), number(m, v, m.arg(t, 1))),
{
    let body = m.arg(bridge, 0);
    let (wrapped, native) = if is_bridge_side(m, bridge, m.arg(body, 0), m.arg(body, 1), name) {
        (m.arg(body, 0), m.arg(body, 1))
    } else {
        (m.arg(body, 1), m.arg(body, 0))
    };
    assert(is_bridge_side(m, bridge, wrapped, native, name));
    let x = m.arg(wrapped, 0);
    let y = m.arg(wrapped, 1);
    let a = number(m, v, m.arg(t, 0));
    let b = number(m, v, m.arg(t, 1));
    let u = changed(v, x, a, y, b);
    let w = valued(m, f, u);
    let n = native_of(name)->0;
    let g = m.op(wrapped)->Apply_0;
    assert(g == m.op(t)->Apply_0) by {
        if g < m.op(t)->Apply_0 {
            assert(m.names@[g as int]@ != m.names@[m.op(t)->Apply_0 as int]@);
        } else if m.op(t)->Apply_0 < g {
            assert(m.names@[m.op(t)->Apply_0 as int]@ != m.names@[g as int]@);
        }
    }
    assert(applies_two(m, wrapped));
    assert(m.terms@[t as int].fits(t as int));
    assert(m.terms@[wrapped as int].fits(wrapped as int));
    assert(m.terms@[native as int].fits(native as int));
    assert(m.terms@[bridge as int].fits(bridge as int));
    assert(m.terms@[body as int].fits(body as int));
    assert(m.args(t)[0] < t && m.args(t)[1] < t);
    assert(m.args(wrapped)[0] < wrapped && m.args(wrapped)[1] < wrapped);
    assert(m.args(native)[0] < native && m.args(native)[1] < native);
    assert(x != y);
    assert(w(x) == a && w(y) == b);
    assert(interprets(m, f, w)) by {
        assert forall|s: TermId| #[trigger] applies_two(m, s) implies w(s) == f(
            m.op(s)->Apply_0,
            number(m, w, m.arg(s, 0)),
            number(m, w, m.arg(s, 1)),
        ) by {
            assert(m.terms@[s as int].fits(s as int));
            assert(m.args(s)[0] < s && m.args(s)[1] < s);
            lemma_number_is_value(m, f, u, m.arg(s, 0));
            lemma_number_is_value(m, f, u, m.arg(s, 1));
        }
    }
    assert(is_variant(m, f, v, bridge, w)) by {
        assert forall|z: TermId| #[trigger] binds_it(m, bridge, z) implies in_sort(m.sort_of(z), w(z)) by {
            let i = choose|i: int| 0 <= i < m.terms@[bridge as int].binders@.len() && #[trigger] is_bound(m, bridge, i, z);
            assert(in_sort(m.sort_of(z), number(m, v, z)));
            assert(in_sort(m.sort_of(m.arg(t, 0)), a));
            assert(in_sort(m.sort_of(m.arg(t, 1)), b));
            assert(m.sort_of(m.arg(wrapped, 0)) == m.sort_of(m.arg(t, 0)));
        }
        assert(is_bound(m, bridge, 0, x) || is_bound(m, bridge, 1, x));
        assert(is_bound(m, bridge, 0, y) || is_bound(m, bridge, 1, y));
        assert(binds_it(m, bridge, x) && binds_it(m, bridge, y));
    }
    assert(sense(m, w, open, body));
    assert(number(m, w, wrapped) == number(m, w, native));
    lemma_number_is_value(m, f, u, x);
    lemma_number_is_value(m, f, u, y);
    assert(number(m, w, wrapped) == f(g, a, b));
    assert(v(t) == f(g, a, b));
    lemma_two_arguments(m, w, native);
}

/// Sums and products of two arguments.
proof fn lemma_two_arguments(m: &TermManager, v: Valuation, t: TermId)
    requires
        m.args(t).len() == 2,
        m.args(t)[0] < t,
        m.args(t)[1] < t,
    ensures
        m.op(t) == Op::Add ==> number(m, v, t) == number(m, v, m.arg(t, 0)) + number(m, v, m.arg(t, 1)),
        m.op(t) == Op::Mul ==> number(m, v, t) == number(m, v, m.arg(t, 0)) * number(m, v, m.arg(t, 1)),
{
    assert(sum_value(m, v, t, 1) == sum_value(m, v, t, 0) + number(m, v, m.arg(t, 0)));
    assert(sum_value(m, v, t, 2) == sum_value(m, v, t, 1) + number(m, v, m.arg(t, 1)));
    assert(product_value(m, v, t, 1) == product_value(m, v, t, 0) * number(m, v, m.arg(t, 0)));
    assert(product_value(m, v, t, 2) == product_value(m, v, t, 1) * number(m, v, m.arg(t, 1)));
}

/// Asserted bridges make wrappers faithful: in every valuation that gives applications the values of
/// functions and terms values of their sorts, and under which all universal statements among the
/// assertions hold, a wrapper whose bridge is asserted has the values of its operator.
pub proof fn law_bridges_make_faithful(
    m: &TermManager,
    f: Functions,
    v: Valuation,
    open: spec_fn(TermId) -> bool,
    assertions: Seq<TermId>,
)
    requires
        m.wf(),
        interprets(m, f, v),
        well_sorted(m, v),
        forall|i: int|
            0 <= i < assertions.len() && m.has(#[trigger] assertions[i]) && m.op(assertions[i]) == Op::Forall ==> holds_for_all(
                m,
                f,
                v,
                open,
                assertions[i],
            ),
    ensures
        faithful(m, spine_of(m, assertions), v),
{
    let spine = spine_of(m, assertions);
    assert forall|t: TermId|
        m.has(t) && m.args(t).len() == 2 implies (#[trigger] m.op(t) matches Op::Apply(g) ==> g < m.names@.len() ==> spine.enables(
        m.names@[g as int]@,
    ) ==> (native_of(m.names@[g as int]@) matches Some(n) ==> v(t) == native_value(
        n,
        number(m, v, m.arg(t, 0)),
        number(m, v, m.arg(t, 1)),
    ))) by {
        if m.op(t) is Apply && m.op(t)->Apply_0 < m.names@.len() && spine.enables(m.names@[m.op(t)->Apply_0 as int]@) {
            let name = m.names@[m.op(t)->Apply_0 as int]@;
            assert(bridged(m, assertions, name));
            let i = choose|i: int| 0 <= i < assertions.len() && is_bridge(m, #[trigger] assertions[i], name);
            assert(applies_two(m, t));
            lemma_bridge_gives_values(m, f, v, open, assertions[i], name, t);
        }
    }
}

/// What is a bridge stays one.
proof fn lemma_bridge_stays(before: &TermManager, m: &TermManager, t: TermId, name: Seq<char>)
    requires
        before.wf(),
        m.wf(),
        before.extended_by(m),
        before.names@ == m.names@,
        is_bridge(before, t, name),
    ensures
        is_bridge(m, t, name),
{
    let body = before.arg(t, 0);
    let l = before.arg(body, 0);
    let r = before.arg(body, 1);
    assert(before.terms@[t as int].fits(t as int));
    assert(before.terms@[body as int].fits(body as int));
    assert(before.args(t)[0] < t);
    assert(before.args(body)[0] < body && before.args(body)[1] < body);
    assert(before.terms@[l as int].fits(l as int));
    assert(before.terms@[r as int].fits(r as int));
    assert(m.terms@[t as int] == before.terms@[t as int]);
    assert(m.terms@[body as int] == before.terms@[body as int]);
    assert(m.terms@[l as int] == before.terms@[l as int]);
    assert(m.terms@[r as int] == before.terms@[r as int]);
    assert forall|a: TermId, i: int| before.has(a) && is_bound(before, t, i, a) implies #[trigger] is_bound(m, t, i, a) by {
        assert(m.terms@[a as int] == before.terms@[a as int]);
    }
    assert forall|a: TermId, b: TermId|
        (a == l || a == r) && (b == l || b == r) && #[trigger] is_bridge_side(before, t, a, b, name) implies is_bridge_side(m, t, a, b, name) by {
        let x = before.arg(a, 0);
        let y = before.arg(a, 1);
        assert(m.terms@[x as int] == before.terms@[x as int] || !before.has(x));
        assert(binds_args(before, t, a));
        assert(sides_match(m, a, b, name));
    }
}

/// The comparisons between unwrapped sides that are picked out of the assertions follow from them:
/// in every valuation that gives applications the values of functions and terms values of their
/// sorts, and under which the assertions hold, the universal ones for all values of what they bind,
/// each of the comparisons holds. So what refutes the comparisons refutes the assertions.
pub proof fn law_focused_atoms_follow(
    before: &TermManager,
    m: &TermManager,
    f: Functions,
    v: Valuation,
    open: spec_fn(TermId) -> bool,
    assertions: Seq<TermId>,
    atoms: Seq<TermId>,
)
    requires
        before.wf(),
        m.wf(),
        before.extended_by(m),
        before.names@ == m.names@,
        forall|i: int| 0 <= i < assertions.len() ==> before.has(#[trigger] assertions[i]),
        interprets(m, f, v),
        well_sorted(m, v),
        forall|i: int| 0 <= i < assertions.len() ==> sense(m, v, open, #[trigger] assertions[i]),
        forall|i: int|
            0 <= i < assertions.len() && m.op(#[trigger] assertions[i]) == Op::Forall ==> holds_for_all(m, f, v, open, assertions[i]),
        ({
            let spine = spine_of(before, assertions);
            in_focus(m, spine, all_targets(before, spine, assertions, assertions.len() as int), atoms, 0)
        }),
    ensures
        forall|i: int| 0 <= i < atoms.len() ==> sense(m, v, open, #[trigger] atoms[i]),
{
    let spine = spine_of(before, assertions);
    assert(faithful(m, spine, v)) by {
        assert forall|name: Seq<char>| bridged(before, assertions, name) implies #[trigger] bridged(m, assertions, name) by {
            let i = choose|i: int| 0 <= i < assertions.len() && is_bridge(before, #[trigger] assertions[i], name);
            lemma_bridge_stays(before, m, assertions[i], name);
            assert(is_bridge(m, assertions[i], name));
        }
        assert forall|t: TermId|
            m.has(t) && m.args(t).len() == 2 implies (#[trigger] m.op(t) matches Op::Apply(g) ==> g < m.names@.len() ==> spine.enables(
            m.names@[g as int]@,
        ) ==> (native_of(m.names@[g as int]@) matches Some(n) ==> v(t) == native_value(
            n,
            number(m, v, m.arg(t, 0)),
            number(m, v, m.arg(t, 1)),
        ))) by {
            if m.op(t) is Apply && m.op(t)->Apply_0 < m.names@.len() && spine.enables(m.names@[m.op(t)->Apply_0 as int]@) {
                let name = m.names@[m.op(t)->Apply_0 as int]@;
                assert(bridged(before, assertions, name));
                assert(bridged(m, assertions, name));
                let i = choose|i: int| 0 <= i < assertions.len() && is_bridge(m, #[trigger] assertions[i], name);
                assert(applies_two(m, t));
                lemma_bridge_gives_values(m, f, v, open, assertions[i], name, t);
            }
        }
    }
    assert(congruent(m, v)) by {
        assert forall|s: TermId, t: TermId|
            m.has(s) && m.has(t) && #[trigger] m.op(s) == #[trigger] m.op(t) && m.op(s) is Apply && m.args(s).len() == 2 && m.args(
                t,
            ).len() == 2 && number(m, v, m.arg(s, 0)) == number(m, v, m.arg(t, 0)) && number(m, v, m.arg(s, 1)) == number(
                m,
                v,
                m.arg(t, 1),
            ) implies v(s) == v(t) by {
            assert(applies_two(m, s) && applies_two(m, t));
        }
    }
    lemma_focused_atoms_follow(before, m, spine, v, open, assertions, atoms);
}

/// A comparison that the assertions force is among those that are picked out, with the truth value
/// that it has to have, if a wrapped product stands on one of its sides that may be unwrapped; a denied
/// equality is not.
pub proof fn law_forced_products_are_picked_out(
    m: &TermManager,
    spine: SpineRewrite,
    assertions: Seq<TermId>,
    t: TermId,
    q: bool,
    a: TermId,
)
    requires
        m.wf(),
        forced(m, assertions, t, q),
        m.op(t) is Compare || (m.op(t) == Op::Eq && q),
        m.args(t).contains(a),
        m.op(a) matches Op::Apply(f) && m.args(a).len() == 2 && f < m.names@.len() && ((m.names@[f as int]@ == "Mul"@ && spine.mul)
            || (m.names@[f as int]@ == "RMul"@ && spine.rmul)),
    ensures
        all_targets(m, spine, assertions, assertions.len() as int).contains((t, q)),
{
    let i = choose|i: int| 0 <= i < assertions.len() && #[trigger] forces(m, assertions[i], true, t, q);
    assert(m.terms@[t as int].fits(t as int));
    let k = choose|k: int| 0 <= k < m.args(t).len() && m.args(t)[k] == a;
    assert(m.args(t)[k] < t);
    let name = m.names@[m.op(a)->Apply_0 as int]@;
    let below = (SCAN_DEPTH - 1) as nat;
    assert(applies(m, a, name, below));
    assert(applies(m, m.args(t)[k], name, below));
    assert(applies(m, t, name, SCAN_DEPTH as nat));
    assert(qualifies(m, spine, t, q));
    assert(targets(m, spine, t, q) == seq![(t, q)]);
    assert(targets(m, spine, t, q)[0] == (t, q));
    lemma_forced_targets(m, spine, assertions[i], true, t, q);
    lemma_all_targets_hold(m, spine, assertions, assertions.len() as int, i, (t, q));
}

/// What is picked out of a formula is picked out of one that forces it.
proof fn lemma_forced_targets(m: &TermManager, spine: SpineRewrite, s: TermId, p: bool, t: TermId, q: bool)
    requires
        m.wf(),
        m.has(t),
        forces(m, s, p, t, q),
        targets(m, spine, t, q).contains((t, q)),
    ensures
        targets(m, spine, s, p).contains((t, q)),
    decreases s,
{
    if !(s == t && p == q) {
        assert(m.terms@[s as int].fits(s as int));
        if m.op(s) == Op::Not {
            lemma_forced_targets(m, spine, m.args(s)[0], !p, t, q);
        } else {
            let i = choose|i: int| 0 <= i < m.args(s).len() && #[trigger] m.args(s)[i] < s && forces(m, m.args(s)[i], p, t, q);
            lemma_forced_targets(m, spine, m.args(s)[i], p, t, q);
            lemma_targets_below_hold(m, spine, s, p, m.args(s).len() as int, i, (t, q));
        }
    }
}

/// What is picked out of an argument is picked out of the first arguments.
proof fn lemma_targets_below_hold(m: &TermManager, spine: SpineRewrite, t: TermId, p: bool, k: int, i: int, x: (TermId, bool))
    requires
        m.wf(),
        m.has(t),
        0 <= i < k <= m.args(t).len(),
        targets(m, spine, m.args(t)[i], p).contains(x),
    ensures
        targets_below(m, spine, t, p, k).contains(x),
    decreases k,
{
    assert(m.terms@[t as int].fits(t as int));
    assert(m.args(t)[k - 1] < t);
    let a = targets_below(m, spine, t, p, k - 1);
    let b = targets(m, spine, m.args(t)[k - 1], p);
    if i < k - 1 {
        lemma_targets_below_hold(m, spine, t, p, k - 1, i, x);
        let j = choose|j: int| 0 <= j < a.len() && a[j] == x;
        assert((a + b)[j] == x);
    } else {
        let j = choose|j: int| 0 <= j < b.len() && b[j] == x;
        assert((a + b)[a.len() + j] == x);
    }
}

/// What is picked out of an assertion is picked out of all.
proof fn lemma_all_targets_hold(m: &TermManager, spine: SpineRewrite, assertions: Seq<TermId>, k: int, i: int, x: (TermId, bool))
    requires
        0 <= i < k <= assertions.len(),
        targets(m, spine, assertions[i], true).contains(x),
    ensures
        all_targets(m, spine, assertions, k).contains(x),
    decreases k,
{
    let a = all_targets(m, spine, assertions, k - 1);
    let b = targets(m, spine, assertions[k - 1], true);
    if i < k - 1 {
        lemma_all_targets_hold(m, spine, assertions, k - 1, i, x);
        let j = choose|j: int| 0 <= j < a.len() && a[j] == x;
        assert((a + b)[j] == x);
    } else {
        let j = choose|j: int| 0 <= j < b.len() && b[j] == x;
        assert((a + b)[a.len() + j] == x);
    }
}

/// A wrapper that may be unwrapped is: sums become sums, differences differences and products products,
/// of integers as of reals.
pub proof fn law_wrappers_are_unwrapped(m: &TermManager, spine: SpineRewrite, t: TermId, r: TermId, f: Symbol)
    requires
        unwraps(m, spine, t, r),
        m.op(t) == Op::Apply(f),
        m.args(t).len() == 2,
        f < m.names@.len(),
    ensures
        (m.names@[f as int]@ == "Add"@ && spine.add) || (m.names@[f as int]@ == "RAdd"@ && spine.radd) ==> m.op(r) == Op::Add,
        (m.names@[f as int]@ == "Sub"@ && spine.sub) || (m.names@[f as int]@ == "RSub"@ && spine.rsub) ==> m.op(r) == Op::Sub,
        (m.names@[f as int]@ == "Mul"@ && spine.mul) || (m.names@[f as int]@ == "RMul"@ && spine.rmul) ==> m.op(r) == Op::Mul,
        m.args(r).len() == 2 || r == t,
{
    reveal_strlit("Add");
    reveal_strlit("RAdd");
    reveal_strlit("Sub");
    reveal_strlit("RSub");
    reveal_strlit("Mul");
    reveal_strlit("RMul");
    assert("Add"@ != "Sub"@) by {
        assert("Add"@[0] != "Sub"@[0]);
    }
    assert("Add"@ != "Mul"@) by {
        assert("Add"@[0] != "Mul"@[0]);
    }
    assert("Sub"@ != "Mul"@) by {
        assert("Sub"@[0] != "Mul"@[0]);
    }
    assert("RAdd"@ != "RSub"@) by {
        assert("RAdd"@[1] != "RSub"@[1]);
    }
    assert("RAdd"@ != "RMul"@) by {
        assert("RAdd"@[1] != "RMul"@[1]);
    }
    assert("RSub"@ != "RMul"@) by {
        assert("RSub"@[1] != "RMul"@[1]);
    }
    assert("Add"@.len() == 3 && "Sub"@.len() == 3 && "Mul"@.len() == 3);
    assert("RAdd"@.len() == 4 && "RSub"@.len() == 4 && "RMul"@.len() == 4);
}

/// A logic of integer polynomials is put to the solver for integers, one of real polynomials to that for
/// reals; a mixed one to that for integers, unless it names the reals or a real number occurs; and any
/// other logic to none.
pub proof fn law_logics_are_routed(m: &TermManager, assertions: Seq<TermId>, logic: Seq<char>)
    ensures
        holds_text(logic, "NIA"@) && !holds_text(logic, "NIRA"@) ==> route(m, assertions, logic) == Some(NlEngine::Integer),
        holds_text(logic, "NRA"@) && !holds_text(logic, "NIA"@) ==> route(m, assertions, logic) == Some(NlEngine::Real),
        holds_text(logic, "NIRA"@) && !holds_text(logic, "NRA"@) && (forall|i: int|
            0 <= i < assertions.len() ==> !mentions_real(m, #[trigger] assertions[i], SCAN_DEPTH as nat)) ==> route(m, assertions, logic)
            == Some(NlEngine::Integer),
        !holds_text(logic, "NIA"@) && !holds_text(logic, "NRA"@) && !holds_text(logic, "NIRA"@) ==> route(m, assertions, logic) is None,
{
}

/// The opposite of an order holds exactly where the order does not.
pub proof fn law_opposite_order_denies(rel: Rel, x: real, y: real)
    ensures
        rel_between(opposite(rel), x, y) == !rel_between(rel, x, y),
{
}

/// Formulas, sums, products, comparisons, conditionals and function applications are looked into, and
/// so are the bodies of binders: all that stands directly under them is a child.
pub proof fn law_formulas_are_looked_into(m: &TermManager, t: TermId, x: TermId)
    requires
        m.has(t),
        m.args(t).contains(x),
        match m.op(t) {
            Op::Not | Op::And | Op::Or | Op::Xor | Op::Implies | Op::Eq | Op::Distinct | Op::Ite | Op::Forall | Op::Exists => true,
            Op::Neg | Op::Add | Op::Sub | Op::Mul | Op::Div | Op::Mod | Op::Compare(_) | Op::Apply(_) => true,
            _ => false,
        },
    ensures
        children_of(m, t).contains(x),
{
}

/// The six wrappers have different names.
proof fn lemma_wrapper_names()
    ensures
        "Add"@.len() == 3 && "Sub"@.len() == 3 && "Mul"@.len() == 3,
        "RAdd"@.len() == 4 && "RSub"@.len() == 4 && "RMul"@.len() == 4,
        "Add"@ != "Sub"@ && "Add"@ != "Mul"@ && "Sub"@ != "Mul"@,
        "RAdd"@ != "RSub"@ && "RAdd"@ != "RMul"@ && "RSub"@ != "RMul"@,
{
    reveal_strlit("Add");
    reveal_strlit("RAdd");
    reveal_strlit("Sub");
    reveal_strlit("RSub");
    reveal_strlit("Mul");
    reveal_strlit("RMul");
    assert("Add"@[0] != "Sub"@[0]);
    assert("Add"@[0] != "Mul"@[0]);
    assert("Sub"@[0] != "Mul"@[0]);
    assert("RAdd"@[1] != "RSub"@[1]);
    assert("RAdd"@[1] != "RMul"@[1]);
    assert("RSub"@[1] != "RMul"@[1]);
}

/// The assertion says of all values of two variables that a wrapper of them is the operation on them,
/// either way round.
pub open spec fn says_wrapped(m: &TermManager, q: TermId, name: Seq<char>, op: Op) -> bool {
    &&& m.has(q)
    &&& m.op(q) == Op::Forall
    &&& m.has(m.arg(q, 0))
    &&& m.op(m.arg(q, 0)) == Op::Eq
    &&& wraps(m, q, m.arg(m.arg(q, 0), 0), m.arg(m.arg(q, 0), 1), name, op) || wraps(
        m,
        q,
        m.arg(m.arg(q, 0), 1),
        m.arg(m.arg(q, 0), 0),
        name,
        op,
    )
}

/// The one side applies the wrapper to the two bound variables, and the other the operation.
pub open spec fn wraps(m: &TermManager, q: TermId, w: TermId, n: TermId, name: Seq<char>, op: Op) -> bool {
    let b = m.terms@[q as int].binders@;
    let x = m.arg(w, 0);
    let y = m.arg(w, 1);
    &&& m.has(w) && m.has(n) && m.has(x) && m.has(y)
    &&& m.op(w) matches Op::Apply(f) && f < m.names@.len() && m.names@[f as int]@ == name
    &&& m.args(w).len() == 2
    &&& m.op(n) == op
    &&& m.args(n) == m.args(w)
    &&& b.len() == 2 && b[0].0 != b[1].0
    &&& ({
        ||| m.op(x) == Op::Var(b[0].0) && m.sort_of(x) == b[0].1 && m.op(y) == Op::Var(b[1].0) && m.sort_of(y) == b[1].1
        ||| m.op(x) == Op::Var(b[1].0) && m.sort_of(x) == b[1].1 && m.op(y) == Op::Var(b[0].0) && m.sort_of(y) == b[0].1
    })
}

/// A wrapper of which an assertion says that it is the operation may be unwrapped; of products only
/// where one is wrapped in an assertion.
pub proof fn law_asserted_wrappers_may_be_unwrapped(m: &TermManager, assertions: Seq<TermId>, i: int)
    requires
        0 <= i < assertions.len(),
    ensures
        says_wrapped(m, assertions[i], "Add"@, Op::Add) ==> spine_of(m, assertions).add,
        says_wrapped(m, assertions[i], "RAdd"@, Op::Add) ==> spine_of(m, assertions).radd,
        says_wrapped(m, assertions[i], "Sub"@, Op::Sub) ==> spine_of(m, assertions).sub,
        says_wrapped(m, assertions[i], "RSub"@, Op::Sub) ==> spine_of(m, assertions).rsub,
        forall|j: int|
            says_wrapped(m, assertions[i], "Mul"@, Op::Mul) && 0 <= j < assertions.len() && applies(
                m,
                #[trigger] assertions[j],
                "Mul"@,
                SCAN_DEPTH as nat,
            ) ==> spine_of(m, assertions).mul,
        forall|j: int|
            says_wrapped(m, assertions[i], "RMul"@, Op::Mul) && 0 <= j < assertions.len() && applies(
                m,
                #[trigger] assertions[j],
                "RMul"@,
                SCAN_DEPTH as nat,
            ) ==> spine_of(m, assertions).rmul,
{
    lemma_wrapper_names();
    let q = assertions[i];
    assert(says_wrapped(m, q, "Add"@, Op::Add) ==> is_bridge(m, q, "Add"@));
    assert(says_wrapped(m, q, "RAdd"@, Op::Add) ==> is_bridge(m, q, "RAdd"@));
    assert(says_wrapped(m, q, "Sub"@, Op::Sub) ==> is_bridge(m, q, "Sub"@));
    assert(says_wrapped(m, q, "RSub"@, Op::Sub) ==> is_bridge(m, q, "RSub"@));
    assert(says_wrapped(m, q, "Mul"@, Op::Mul) ==> is_bridge(m, q, "Mul"@));
    assert(says_wrapped(m, q, "RMul"@, Op::Mul) ==> is_bridge(m, q, "RMul"@));
}

/// Scans come to wrappers and to real numbers wherever they stand, one step further for each step
/// down.
pub proof fn law_scans_reach_down(m: &TermManager, t: TermId, s: TermId, name: Seq<char>, depth: nat)
    requires
        m.has(t),
    ensures
        depth > 0 && m.sort_of(t) == REAL_SORT ==> mentions_real(m, t, depth),
        depth > 0 && m.args(t).len() == 2 && (m.op(t) matches Op::Apply(f) && f < m.names@.len() && m.names@[f as int]@ == name) ==> applies(
            m,
            t,
            name,
            depth,
        ),
        children_of(m, t).contains(s) && !(m.op(t) is Forall) && !(m.op(t) is Exists) && mentions_real(m, s, depth) ==> mentions_real(
            m,
            t,
            depth + 1,
        ),
        children_of(m, t).contains(s) && !(m.op(t) is Forall) && !(m.op(t) is Exists) && applies(m, s, name, depth) ==> applies(
            m,
            t,
            name,
            depth + 1,
        ),
        0 < SCAN_DEPTH,
{
    if children_of(m, t).contains(s) && !(m.op(t) is Forall) && !(m.op(t) is Exists) {
        let i = choose|i: int| 0 <= i < children_of(m, t).len() && children_of(m, t)[i] == s;
        assert(m.args(t)[i] == s);
    }
}

/// A real number in an assertion keeps a mixed logic from the solver for integers.
pub proof fn law_real_numbers_rule_out_integers(m: &TermManager, assertions: Seq<TermId>, logic: Seq<char>, i: int)
    requires
        holds_text(logic, "NIRA"@),
        0 <= i < assertions.len(),
        mentions_real(m, assertions[i], SCAN_DEPTH as nat),
    ensures
        route(m, assertions, logic) != Some(NlEngine::Integer),
        holds_text(logic, "NRA"@) ==> route(m, assertions, logic) == Some(NlEngine::Real),
{
}

/// The comparisons that are picked out are put to a solver, that for reals where products of reals are
/// unwrapped and else that for integers; without such products or comparisons none is asked.
pub proof fn law_unwrapped_products_are_asked_about(
    before: &TermManager,
    after: &TermManager,
    assertions: Seq<TermId>,
    plan: NlPlan,
    t: TermId,
    q: bool,
)
    requires
        bridge_plan(before, after, assertions, plan),
    ensures
        !spine_of(before, assertions).mul && !spine_of(before, assertions).rmul ==> plan is Skip,
        (spine_of(before, assertions).mul || spine_of(before, assertions).rmul) && all_targets(
            before,
            spine_of(before, assertions),
            assertions,
            assertions.len() as int,
        ).contains((t, q)) ==> {
            &&& plan matches NlPlan::Ask { engine, atoms, focused } && focused && (engine is Real <==> spine_of(before, assertions).rmul)
                && exists|k: int|
                0 <= k < atoms@.len() && is_denied_or_kept(after, t, q, #[trigger] atoms@[k])
        },
{
    let spine = spine_of(before, assertions);
    let goals = all_targets(before, spine, assertions, assertions.len() as int);
    if (spine.mul || spine.rmul) && goals.contains((t, q)) {
        let k = choose|k: int| 0 <= k < goals.len() && goals[k] == (t, q);
        assert(plan is Ask);
        assert(is_denied_or_kept(after, t, q, plan->atoms@[0 + k]));
    }
}

/// The comparison is that of `t`, or the opposite one where `t` is denied.
pub open spec fn is_denied_or_kept(m: &TermManager, t: TermId, q: bool, r: TermId) -> bool {
    match m.op(t) {
        Op::Compare(Rel::Lt) => m.op(r) == Op::Compare(if q {
            Rel::Lt
        } else {
            Rel::Ge
        }),
        Op::Compare(Rel::Le) => m.op(r) == Op::Compare(if q {
            Rel::Le
        } else {
            Rel::Gt
        }),
        Op::Compare(Rel::Gt) => m.op(r) == Op::Compare(if q {
            Rel::Gt
        } else {
            Rel::Le
        }),
        Op::Compare(Rel::Ge) => m.op(r) == Op::Compare(if q {
            Rel::Ge
        } else {
            Rel::Lt
        }),
        _ => m.op(r) == m.op(t),
    }
}

} // verus!
