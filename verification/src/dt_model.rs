//! Values of datatypes, and what the recorded facts say of them.
use crate::dt_facts::constant_for;
use crate::dt_facts::constant_from;
use crate::dt_facts::ctor_of;
use crate::dt_facts::difference_facts;
use crate::dt_facts::equality_facts;
use crate::dt_facts::facts_of_all;
use crate::dt_facts::facts_of_args;
use crate::dt_facts::facts_under;
use crate::dt_facts::is_constant_ctor;
use crate::dt_facts::is_ctor;
use crate::dt_facts::layout_of;
use crate::dt_facts::layouts_of;
use crate::dt_facts::no_facts;
use crate::dt_facts::rebuilds;
use crate::dt_facts::rebuilds_field;
use crate::dt_facts::tester_facts;
use crate::dt_facts::variable_differs_facts;
use crate::dt_facts::FactsView;
use crate::semantics::is_bool;
use crate::semantics::truth;
use crate::semantics::Reading;
use crate::term::Op;
use crate::term::SortId;
use crate::term::Symbol;
use crate::term::TermId;
use crate::term::TermManager;
use vstd::prelude::*;

verus! {

/// Values for terms: the value of each term, the constructor that built a value, the fields that
/// it was built from, and its depth.
pub struct DtModel {
    pub val: spec_fn(TermId) -> int,
    pub kind: spec_fn(int) -> Symbol,
    pub field: spec_fn(int, int) -> int,
    pub rank: spec_fn(int) -> nat,
}

/// The position of the first selector of that name from `i` on.
pub open spec fn selector_index(fields: Seq<(Symbol, SortId)>, name: Symbol, i: int) -> Option<int>
    decreases fields.len() - i,
{
    if i < 0 || i >= fields.len() {
        None
    } else if fields[i].0 == name {
        Some(i)
    } else {
        selector_index(fields, name, i + 1)
    }
}

/// The field that a selector takes from a value built by a constructor of a sort.
pub open spec fn field_index(m: &TermManager, s: SortId, ctor: Symbol, sel: Symbol) -> Option<int> {
    match layout_of(m, s, ctor) {
        None => None,
        Some(layout) => selector_index(layout.fields@, sel, 0),
    }
}

/// The term applies the selector to its only argument.
pub open spec fn applies_selector(m: &TermManager, t: TermId, sel: Symbol) -> bool {
    m.has(t) && m.args(t).len() == 1 && (m.op(t) == Op::DtSelector(sel) || m.op(t) == Op::Apply(sel))
}

/// The term is of a datatype sort.
pub open spec fn is_datatype_term(m: &TermManager, t: TermId) -> bool {
    m.has(t) && layouts_of(m, m.sort_of(t)) is Some
}

/// A constructor application has the value that its constructor builds from its arguments.
pub open spec fn ctor_value(m: &TermManager, d: DtModel, c: TermId) -> bool {
    &&& (d.kind)((d.val)(c)) == ctor_of(m, c)
    &&& forall|i: int| 0 <= i < m.args(c).len() ==> #[trigger] (d.field)((d.val)(c), i) == (d.val)(m.arg(c, i))
}

/// The values obey the laws of datatypes: constructor applications have the constructor and the
/// fields that they are written with, a value is determined by those, selectors take fields,
/// every value of a datatype is built by one of its constructors, and a value is deeper than its
/// fields. Constructors and selectors of different datatypes have different names.
pub open spec fn is_model(m: &TermManager, d: DtModel) -> bool {
    &&& forall|c: TermId| #[trigger] is_ctor(m, c) ==> ctor_value(m, d, c)
    &&& forall|c: TermId, x: int|
        #![trigger is_ctor(m, c), (d.kind)(x)]
        is_ctor(m, c) && (d.kind)(x) == ctor_of(m, c) && (forall|i: int|
            0 <= i < m.args(c).len() ==> #[trigger] (d.field)(x, i) == (d.val)(m.arg(c, i))) ==> x == (d.val)(c)
    &&& forall|t: TermId, sel: Symbol, s: SortId, ctor: Symbol|
        #![trigger applies_selector(m, t, sel), field_index(m, s, ctor, sel)]
        applies_selector(m, t, sel) && (d.kind)((d.val)(m.arg(t, 0))) == ctor && field_index(m, s, ctor, sel) is Some
            ==> (d.val)(t) == (d.field)((d.val)(m.arg(t, 0)), field_index(m, s, ctor, sel)->Some_0)
    &&& forall|t: TermId| #[trigger]
        is_datatype_term(m, t) && layouts_of(m, m.sort_of(t))->Some_0.len() > 0 ==> exists|i: int|
            0 <= i < layouts_of(m, m.sort_of(t))->Some_0.len() && (#[trigger] layouts_of(m, m.sort_of(t))->Some_0[i]).name == (
            d.kind)((d.val)(t))
    &&& forall|c: TermId, i: int|
        is_ctor(m, c) && 0 <= i < m.args(c).len() && is_datatype_term(m, m.arg(c, i)) ==> (d.rank)(
            (d.val)(#[trigger] m.arg(c, i)),
        ) < (d.rank)((d.val)(c))
}

/// The reading of formulas is that of the values: equality is equality of values, formulas
/// included, and a constructor test asks for the constructor.
pub open spec fn reads(m: &TermManager, r: Reading, d: DtModel) -> bool {
    &&& forall|a: TermId, b: TermId| #[trigger] (r.same)(a, b) == ((d.val)(a) == (d.val)(b))
    &&& forall|a: TermId, b: TermId|
        #![trigger truth(m, r, a), truth(m, r, b)]
        is_bool(m, a) && is_bool(m, b) ==> (truth(m, r, a) == truth(m, r, b)) == ((d.val)(a) == (d.val)(b))
    &&& forall|t: TermId| #[trigger]
        m.has(t) && m.op(t) is DtTester ==> (r.atom)(t) == ((d.kind)((d.val)(m.arg(t, 0))) == m.op(t)->DtTester_0)
}

/// Every pair of the list has equal values.
pub open spec fn all_equal(d: DtModel, ps: Seq<(TermId, TermId)>) -> bool {
    forall|i: int| 0 <= i < ps.len() ==> (d.val)((#[trigger] ps[i]).0) == (d.val)(ps[i].1)
}

/// Every pair of the list has different values.
pub open spec fn all_differ(d: DtModel, ps: Seq<(TermId, TermId)>) -> bool {
    forall|i: int| 0 <= i < ps.len() ==> (d.val)((#[trigger] ps[i]).0) != (d.val)(ps[i].1)
}

/// Every term of the list is built by its constructor.
pub open spec fn all_built(d: DtModel, ps: Seq<(TermId, Symbol)>) -> bool {
    forall|i: int| 0 <= i < ps.len() ==> (d.kind)((d.val)((#[trigger] ps[i]).0)) == ps[i].1
}

/// No term of the list is built by its constructor.
pub open spec fn none_built(d: DtModel, ps: Seq<(TermId, Symbol)>) -> bool {
    forall|i: int| 0 <= i < ps.len() ==> (d.kind)((d.val)((#[trigger] ps[i]).0)) != ps[i].1
}

/// The facts hold of the values.
pub open spec fn facts_hold(d: DtModel, f: FactsView) -> bool {
    &&& all_built(d, f.testers)
    &&& none_built(d, f.neg_testers)
    &&& all_built(d, f.ctor_eqs)
    &&& none_built(d, f.neg_ctor_eqs)
    &&& all_equal(d, f.var_eqs)
    &&& all_equal(d, f.ctor_binds)
    &&& all_equal(d, f.sel_eqs)
    &&& all_equal(d, f.ctor_ctor_eqs)
    &&& all_differ(d, f.diseqs)
}

/// Facts hold together if each part holds.
pub proof fn lemma_plus_holds(d: DtModel, f: FactsView, g: FactsView)
    ensures
        facts_hold(d, f) && facts_hold(d, g) <==> facts_hold(d, f.plus(g)),
{
    lemma_built_plus(d, f.testers, g.testers);
    lemma_built_plus(d, f.ctor_eqs, g.ctor_eqs);
    lemma_built_plus(d, f.neg_testers, g.neg_testers);
    lemma_built_plus(d, f.neg_ctor_eqs, g.neg_ctor_eqs);
    lemma_pairs_plus(d, f.var_eqs, g.var_eqs);
    lemma_pairs_plus(d, f.ctor_binds, g.ctor_binds);
    lemma_pairs_plus(d, f.sel_eqs, g.sel_eqs);
    lemma_pairs_plus(d, f.ctor_ctor_eqs, g.ctor_ctor_eqs);
    lemma_pairs_plus(d, f.diseqs, g.diseqs);
}

proof fn lemma_built_plus(d: DtModel, a: Seq<(TermId, Symbol)>, b: Seq<(TermId, Symbol)>)
    ensures
        all_built(d, a) && all_built(d, b) <==> all_built(d, a + b),
        none_built(d, a) && none_built(d, b) <==> none_built(d, a + b),
{
    let c = a + b;
    assert(forall|i: int| 0 <= i < a.len() ==> c[i] == #[trigger] a[i]);
    assert(forall|i: int| 0 <= i < b.len() ==> c[a.len() + i] == #[trigger] b[i]);
    assert(forall|i: int| 0 <= i < c.len() ==> #[trigger] c[i] == if i < a.len() { a[i] } else { b[i - a.len()] });
}

pub proof fn lemma_pairs_plus(d: DtModel, a: Seq<(TermId, TermId)>, b: Seq<(TermId, TermId)>)
    ensures
        all_equal(d, a) && all_equal(d, b) <==> all_equal(d, a + b),
        all_differ(d, a) && all_differ(d, b) <==> all_differ(d, a + b),
{
    let c = a + b;
    assert(forall|i: int| 0 <= i < a.len() ==> c[i] == #[trigger] a[i]);
    assert(forall|i: int| 0 <= i < b.len() ==> c[a.len() + i] == #[trigger] b[i]);
    assert(forall|i: int| 0 <= i < c.len() ==> #[trigger] c[i] == if i < a.len() { a[i] } else { b[i - a.len()] });
}

/// A value of a constructor without arguments is the value of its application.
proof fn lemma_constant(m: &TermManager, d: DtModel, ctor: Symbol, arg: TermId)
    requires
        m.wf(),
        is_model(m, d),
        constant_for(m, ctor, arg) is Some,
    ensures
        (d.kind)((d.val)(arg)) == ctor <==> (d.val)(arg) == (d.val)(constant_for(m, ctor, arg)->Some_0),
{
    let c = constant_for(m, ctor, arg)->Some_0;
    assert(m.terms.len() == m.terms@.len());
    lemma_constant_from(m, ctor, 0);
    assert(is_ctor(m, c));
    assert(ctor_value(m, d, c));
}

proof fn lemma_constant_from(m: &TermManager, ctor: Symbol, i: int)
    requires
        0 <= i,
        constant_from(m, ctor, i) is Some,
        m.terms@.len() <= usize::MAX,
    ensures
        is_constant_ctor(m, constant_from(m, ctor, i)->Some_0 as int, ctor),
    decreases m.terms@.len() - i,
{
    if i < m.terms@.len() && !is_constant_ctor(m, i, ctor) {
        lemma_constant_from(m, ctor, i + 1);
    }
}

/// What an equality says holds of equal values.
proof fn lemma_equality_holds(m: &TermManager, d: DtModel, a: TermId, b: TermId)
    requires
        is_model(m, d),
        (d.val)(a) == (d.val)(b),
    ensures
        facts_hold(d, equality_facts(m, a, b)),
{
    if is_ctor(m, b) {
        assert(ctor_value(m, d, b));
    }
    if is_ctor(m, a) {
        assert(ctor_value(m, d, a));
    }
}

/// A value that a constructor built is rebuilt from its own fields.
pub proof fn lemma_rebuilt(m: &TermManager, d: DtModel, v: TermId, c: TermId)
    requires
        m.wf(),
        is_model(m, d),
        m.has(v),
        is_ctor(m, c),
        rebuilds(m, c, v),
        (d.kind)((d.val)(v)) == ctor_of(m, c),
        forall|i: int, j: int|
            0 <= i < j < layout_of(m, m.sort_of(v), ctor_of(m, c))->Some_0.fields@.len() ==> (#[trigger] layout_of(
                m,
                m.sort_of(v),
                ctor_of(m, c),
            )->Some_0.fields@[i]).0 != (#[trigger] layout_of(m, m.sort_of(v), ctor_of(m, c))->Some_0.fields@[j]).0,
    ensures
        (d.val)(v) == (d.val)(c),
{
    let s = m.sort_of(v);
    let k = ctor_of(m, c);
    let layout = layout_of(m, s, k)->Some_0;
    assert(m.terms@[c as int].fits(c as int));
    assert forall|i: int| 0 <= i < m.args(c).len() implies #[trigger] (d.field)((d.val)(v), i) == (d.val)(m.arg(c, i)) by {
        assert(rebuilds_field(m, c, v, layout, i));
        let a = m.arg(c, i);
        let sel = layout.fields@[i].0;
        assert(m.has(a));
        assert(m.terms@[a as int].fits(a as int));
        assert(applies_selector(m, a, sel));
        lemma_selector_index(layout.fields@, sel, 0, i);
        assert(field_index(m, s, k, sel) == Some(i));
    }
}

/// A selector whose name occurs once is found where it is.
proof fn lemma_selector_index(fields: Seq<(Symbol, SortId)>, name: Symbol, i: int, j: int)
    requires
        0 <= i <= j < fields.len(),
        fields[j].0 == name,
        forall|h: int, k: int| 0 <= h < k < fields.len() ==> (#[trigger] fields[h]).0 != (#[trigger] fields[k]).0,
    ensures
        selector_index(fields, name, i) == Some(j),
    decreases j - i,
{
    if i < j {
        assert(fields[i].0 != fields[j].0);
        lemma_selector_index(fields, name, i + 1, j);
    }
}

/// No constructor has two selectors of one name, and no formula is compared with another term.
pub open spec fn well_typed(m: &TermManager) -> bool {
    &&& forall|s: SortId, ctor: Symbol, i: int, j: int|
        #![trigger layout_of(m, s, ctor)->Some_0.fields@[i], layout_of(m, s, ctor)->Some_0.fields@[j]]
        layout_of(m, s, ctor) is Some && 0 <= i < j < layout_of(m, s, ctor)->Some_0.fields@.len() ==> layout_of(
            m,
            s,
            ctor,
        )->Some_0.fields@[i].0 != layout_of(m, s, ctor)->Some_0.fields@[j].0
    &&& forall|t: TermId, i: int, j: int|
        #![trigger m.arg(t, i), m.arg(t, j)]
        m.has(t) && (m.op(t) is Eq || m.op(t) is Distinct) && 0 <= i < m.args(t).len() && 0 <= j < m.args(t).len() && is_bool(
            m,
            m.arg(t, i),
        ) ==> is_bool(m, m.arg(t, j))
}

/// What the difference of a variable and a constructor application says holds of different
/// values.
proof fn lemma_variable_differs_holds(m: &TermManager, d: DtModel, v: TermId, c: TermId)
    requires
        m.wf(),
        well_typed(m),
        is_model(m, d),
        (d.val)(v) != (d.val)(c),
    ensures
        facts_hold(d, variable_differs_facts(m, v, c)),
{
    let f = variable_differs_facts(m, v, c);
    if m.has(v) && is_ctor(m, c) {
        if m.args(c).len() == 0 {
            if (d.kind)((d.val)(v)) == ctor_of(m, c) {
                assert((d.val)(v) == (d.val)(c));
            }
        } else if rebuilds(m, c, v) && (d.kind)((d.val)(v)) == ctor_of(m, c) {
            lemma_rebuilt(m, d, v, c);
        }
    }
    assert(facts_hold(d, f));
}

/// What the difference of two terms says holds of different values.
proof fn lemma_difference_holds(m: &TermManager, d: DtModel, a: TermId, b: TermId)
    requires
        m.wf(),
        well_typed(m),
        is_model(m, d),
        (d.val)(a) != (d.val)(b),
    ensures
        facts_hold(d, difference_facts(m, a, b)),
{
    lemma_variable_differs_holds(m, d, a, b);
    lemma_variable_differs_holds(m, d, b, a);
    let x = FactsView { diseqs: seq![(a, b)], ..no_facts() };
    assert(facts_hold(d, x));
    lemma_plus_holds(d, variable_differs_facts(m, a, b), variable_differs_facts(m, b, a));
    lemma_plus_holds(d, variable_differs_facts(m, a, b).plus(variable_differs_facts(m, b, a)), x);
}

/// What a constructor test says holds of the values that it reads.
proof fn lemma_tester_holds(m: &TermManager, d: DtModel, ctor: Symbol, arg: TermId, positive: bool)
    requires
        m.wf(),
        is_model(m, d),
        ((d.kind)((d.val)(arg)) == ctor) == positive,
    ensures
        facts_hold(d, tester_facts(m, ctor, arg, positive)),
{
    if constant_for(m, ctor, arg) is Some {
        lemma_constant(m, d, ctor, arg);
    }
}

/// Whatever is recorded of a formula holds of every values under which the formula has the truth
/// value that it was recorded for.
pub proof fn lemma_facts_hold(m: &TermManager, r: Reading, d: DtModel, t: TermId, positive: bool)
    requires
        m.wf(),
        well_typed(m),
        is_model(m, d),
        reads(m, r, d),
        truth(m, r, t) == positive,
    ensures
        facts_hold(d, facts_under(m, t, positive)),
    decreases t, m.args(t).len() + 1,
{
    if m.has(t) {
        let args = m.args(t);
        assert(m.terms@[t as int].fits(t as int));
        match m.op(t) {
            Op::DtTester(k) => {
                lemma_tester_holds(m, d, k, args[0], positive);
            },
            Op::Eq => {
                assert(is_bool(m, m.arg(t, 0)) ==> is_bool(m, m.arg(t, 1)));
                lemma_equality_truth(m, r, d, t, args[0], args[1]);
                assert(truth(m, r, t) == crate::semantics::equal_under(m, r, t, args[0], args[1]));
                if positive {
                    lemma_equality_holds(m, d, args[0], args[1]);
                } else {
                    lemma_difference_holds(m, d, args[0], args[1]);
                }
            },
            Op::Distinct => {
                if args.len() == 2 {
                    assert(is_bool(m, m.arg(t, 0)) ==> is_bool(m, m.arg(t, 1)));
                    lemma_equality_truth(m, r, d, t, args[0], args[1]);
                    assert(truth(m, r, t) == !crate::semantics::equal_under(m, r, t, args[0], args[1])) by {
                        if !crate::semantics::equal_under(m, r, t, args[0], args[1]) {
                            assert forall|i: int, j: int| 0 <= i < j < args.len() implies !crate::semantics::equal_under(
                                m,
                                r,
                                t,
                                #[trigger] args[i],
                                #[trigger] args[j],
                            ) by {
                                assert(i == 0 && j == 1);
                            }
                        }
                    }
                    if positive {
                        lemma_difference_holds(m, d, args[0], args[1]);
                    } else {
                        lemma_equality_holds(m, d, args[0], args[1]);
                    }
                }
            },
            Op::And => {
                if positive {
                    lemma_args_hold(m, r, d, t, args.len() as int, positive);
                }
            },
            Op::Or => {
                if !positive {
                    lemma_args_hold(m, r, d, t, args.len() as int, positive);
                }
            },
            Op::Not => {
                lemma_facts_hold(m, r, d, args[0], !positive);
            },
            _ => {},
        }
    }
}

/// An equality is true exactly if the values are equal.
pub proof fn lemma_equality_truth(m: &TermManager, r: Reading, d: DtModel, t: TermId, a: TermId, b: TermId)
    requires
        reads(m, r, d),
        is_bool(m, a) ==> is_bool(m, b),
    ensures
        crate::semantics::equal_under(m, r, t, a, b) == ((d.val)(a) == (d.val)(b)),
{
    if is_bool(m, a) && a < t && b < t {
        assert((truth(m, r, a) == truth(m, r, b)) == ((d.val)(a) == (d.val)(b)));
    } else {
        assert((r.same)(a, b) == ((d.val)(a) == (d.val)(b)));
    }
}

/// The same for the first arguments of a conjunction that is asserted or a disjunction that is
/// denied.
proof fn lemma_args_hold(m: &TermManager, r: Reading, d: DtModel, t: TermId, k: int, positive: bool)
    requires
        m.wf(),
        well_typed(m),
        is_model(m, d),
        reads(m, r, d),
        m.has(t),
        0 <= k <= m.args(t).len(),
        truth(m, r, t) == positive,
        m.op(t) == if positive { Op::And } else { Op::Or },
    ensures
        facts_hold(d, facts_of_args(m, t, k, positive)),
    decreases t, k,
{
    if k > 0 {
        let args = m.args(t);
        assert(m.terms@[t as int].fits(t as int));
        assert(args[k - 1] < t);
        lemma_args_hold(m, r, d, t, k - 1, positive);
        assert(truth(m, r, args[k - 1]) == positive);
        lemma_facts_hold(m, r, d, args[k - 1], positive);
        lemma_plus_holds(d, facts_of_args(m, t, k - 1, positive), facts_under(m, m.arg(t, k - 1), positive));
    }
}

/// All assertions are true.
pub open spec fn all_true(m: &TermManager, r: Reading, assertions: Seq<TermId>) -> bool {
    forall|i: int| 0 <= i < assertions.len() ==> truth(m, r, #[trigger] assertions[i])
}

/// Whatever is recorded of the assertions holds of every values under which they are true.
pub proof fn lemma_all_facts_hold(m: &TermManager, r: Reading, d: DtModel, assertions: Seq<TermId>, k: int)
    requires
        m.wf(),
        well_typed(m),
        is_model(m, d),
        reads(m, r, d),
        all_true(m, r, assertions),
        0 <= k <= assertions.len(),
    ensures
        facts_hold(d, facts_of_all(m, assertions, k)),
    decreases k,
{
    if k > 0 {
        lemma_all_facts_hold(m, r, d, assertions, k - 1);
        assert(truth(m, r, assertions[k - 1]));
        lemma_facts_hold(m, r, d, assertions[k - 1], true);
        lemma_plus_holds(d, facts_of_all(m, assertions, k - 1), facts_under(m, assertions[k - 1], true));
    }
}

} // verus!
