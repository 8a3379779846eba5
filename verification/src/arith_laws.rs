//! What arithmetic is told of a literal is what the formula that it stands for says of numbers.
use crate::cnf::Var;
use crate::encode::atom_done;
use crate::encode::linked;
use crate::encoder::constraint_of;
use crate::encoder::Constraint;
use crate::encoder::Encoder;
use crate::linear::add_scaled;
use crate::linear::append_scaled;
use crate::linear::is_numeric;
use crate::linear::lemma_measures;
use crate::linear::linear_of;
use crate::linear::linear_product;
use crate::linear::linear_sum;
use crate::linear::number;
use crate::linear::one;
use crate::linear::terms_value;
use crate::linear::zero;
use crate::linear::ArithConstraintType;
use crate::linear::LinearView;
use crate::linear::ParsedArithConstraint;
use crate::linear::Valuation;
use crate::numeral::digits_value;
use crate::numeral::signed;
use crate::rational::negation_of;
use crate::rational::product_of;
use crate::rational::sum_of;
use crate::rational::Rat;
use crate::semantics::equal_under;
use crate::semantics::is_bool;
use crate::semantics::truth;
use crate::semantics::Reading;
use crate::term::BvRel;
use crate::term::Op;
use crate::term::Rel;
use crate::term::TermId;
use crate::term::TermManager;
use crate::term::INT_SORT;
use crate::term::REAL_SORT;
use crate::theory::Plan;
use crate::theory::TheoryManager;
use crate::theory_laws::rel_holds;
use vstd::prelude::*;

verus! {

/// The relation between two numbers holds.
pub open spec fn rel_between(rel: Rel, x: real, y: real) -> bool {
    match rel {
        Rel::Lt => x < y,
        Rel::Le => x <= y,
        Rel::Gt => x > y,
        Rel::Ge => x >= y,
    }
}

/// The two numbers compare as a parsed form says.
pub open spec fn type_between(ty: ArithConstraintType, x: real, y: real) -> bool {
    match ty {
        ArithConstraintType::Lt => x < y,
        ArithConstraintType::Le => x <= y,
        ArithConstraintType::Gt => x > y,
        ArithConstraintType::Ge => x >= y,
    }
}

/// The scaled unknowns of a parsed form, added up.
pub open spec fn left_side(v: Valuation, p: ParsedArithConstraint) -> real {
    terms_value(v, p.terms@, p.terms@.len() as int)
}

/// How formulas are read where unknowns have the given numbers, and atoms of other theories the
/// given truth values. Bit vectors are unsigned numbers here; their signed relations are left open.
pub open spec fn num_reading(m: &TermManager, v: Valuation, p: spec_fn(TermId) -> bool) -> Reading {
    Reading {
        atom: |t: TermId|
            match m.op(t) {
                Op::Compare(rel) => rel_between(rel, number(m, v, m.arg(t, 0)), number(m, v, m.arg(t, 1))),
                Op::BvCompare(BvRel::Ult) => number(m, v, m.arg(t, 0)) < number(m, v, m.arg(t, 1)),
                Op::BvCompare(BvRel::Ule) => number(m, v, m.arg(t, 0)) <= number(m, v, m.arg(t, 1)),
                _ => p(t),
            },
        same: |a: TermId, b: TermId| number(m, v, a) == number(m, v, b),
    }
}

/// The term relates two numbers: an order, an equality, or an unsigned order of bit vectors.
pub open spec fn relates_numbers(m: &TermManager, t: TermId) -> bool {
    match m.op(t) {
        Op::Compare(_) | Op::BvCompare(BvRel::Ult) | Op::BvCompare(BvRel::Ule) => true,
        Op::Eq => !is_bool(m, m.arg(t, 0)),
        _ => false,
    }
}

/// What a constraint says of numbers.
pub open spec fn says_of_numbers(m: &TermManager, v: Valuation, c: Constraint) -> bool {
    match c {
        Constraint::Eq(a, b) => number(m, v, a) == number(m, v, b),
        Constraint::Diseq(a, b) => number(m, v, a) != number(m, v, b),
        Constraint::Lt(a, b) => number(m, v, a) < number(m, v, b),
        Constraint::Le(a, b) => number(m, v, a) <= number(m, v, b),
        Constraint::Gt(a, b) => number(m, v, a) > number(m, v, b),
        Constraint::Ge(a, b) => number(m, v, a) >= number(m, v, b),
        _ => false,
    }
}

/// The truth of an equality of terms that are no formulas.
pub(crate) proof fn lemma_equality_truth(m: &TermManager, r: Reading, t: TermId)
    requires
        m.wf(),
        m.has(t),
        m.op(t) == Op::Eq,
        !is_bool(m, m.arg(t, 0)),
    ensures
        truth(m, r, t) == (r.same)(m.arg(t, 0), m.arg(t, 1)),
{
    assert(truth(m, r, t) == equal_under(m, r, t, m.arg(t, 0), m.arg(t, 1)));
    assert(equal_under(m, r, t, m.arg(t, 0), m.arg(t, 1)) == (r.same)(m.arg(t, 0), m.arg(t, 1)));
}

/// A formula that relates two terms of a theory stands for a constraint.
pub proof fn law_comparisons_are_constraints(m: &TermManager, t: TermId)
    requires
        m.has(t),
        relates_numbers(m, t) || m.op(t) is BvCompare,
    ensures
        constraint_of(m, t) is Some,
{
}

/// The constraint that a formula stands for says of numbers what the formula says.
pub proof fn law_constraint_says_what_the_formula_says(m: &TermManager, v: Valuation, p: spec_fn(TermId) -> bool, t: TermId, c: Constraint)
    requires
        m.wf(),
        m.has(t),
        relates_numbers(m, t),
        constraint_of(m, t) == Some(c),
    ensures
        says_of_numbers(m, v, c) <==> truth(m, num_reading(m, v, p), t),
{
    if m.op(t) == Op::Eq {
        lemma_equality_truth(m, num_reading(m, v, p), t);
    }
}

/// The theories know an encoded formula that relates two terms; arithmetic knows its linear form,
/// where the two sides have one.
pub proof fn law_encoded_comparisons_are_known(m: &TermManager, e: &Encoder, t: TermId)
    requires
        m.wf(),
        m.has(t),
        atom_done(m, e, t),
    ensures
        relates_numbers(m, t) || m.op(t) is BvCompare ==> e.constraints@.contains_key(e.var(t)),
        (m.op(t) is Compare || m.op(t) is BvCompare || (m.op(t) == Op::Eq && is_numeric(m, m.arg(t, 0))))
            && crate::linear::comparison_of(m, m.arg(t, 0), m.arg(t, 1)) is Some ==> e.parsed@.contains_key(e.var(t)),
{
    assert(m.terms@[t as int].fits(t as int));
    if relates_numbers(m, t) || m.op(t) is BvCompare {
        law_comparisons_are_constraints(m, t);
    }
}

/// The parsed form of a formula says of numbers what the formula says: for an order its relation
/// between the unknowns and the constant holds exactly where the relation of the formula's operator
/// holds between the two sides, and for an equality the two agree exactly where the sides do.
pub proof fn law_parsed_form_says_what_the_formula_says(m: &TermManager, e: &Encoder, v: Valuation, p: spec_fn(TermId) -> bool, var: Var)
    requires
        linked(m, e),
        e.parsed@.contains_key(var),
    ensures
        ({
            let t = e.var_to_term@[var as int];
            let form = e.parsed@[var];
            let x = number(m, v, m.arg(t, 0));
            let y = number(m, v, m.arg(t, 1));
            &&& m.has(t)
            &&& form.reason_term == t
            &&& match m.op(t) {
                Op::Compare(rel) => type_between(form.constraint_type, left_side(v, form), form.constant.val()) <==> rel_between(rel, x, y),
                Op::Eq => left_side(v, form) == form.constant.val() <==> x == y,
                Op::BvCompare(BvRel::Ult) => type_between(form.constraint_type, left_side(v, form), form.constant.val()) <==> x < y,
                Op::BvCompare(BvRel::Ule) => type_between(form.constraint_type, left_side(v, form), form.constant.val()) <==> x <= y,
                Op::BvCompare(_) => true,
                _ => false,
            }
            &&& relates_numbers(m, t) && m.op(t) != Op::Eq ==> (type_between(form.constraint_type, left_side(v, form), form.constant.val())
                <==> truth(m, num_reading(m, v, p), t))
        }),
{
    let t = e.var_to_term@[var as int];
    let form = e.parsed@[var];
    lemma_measures(m, v, m.arg(t, 0), m.arg(t, 1), form.terms@, form.constant);
}

/// What arithmetic is told of an assigned literal holds exactly where the formula that the literal
/// stands for has the assigned truth value. It is told whenever the formula has a linear form, but
/// that of an equality it is told only where it is true.
pub proof fn law_arithmetic_is_told_the_formula(
    m: &TermManager,
    e: &Encoder,
    v: Valuation,
    p: spec_fn(TermId) -> bool,
    before: &TheoryManager,
    var: Var,
    positive: bool,
    after: &TheoryManager,
    plan: Plan,
)
    requires
        linked(m, e),
        e.constraints@.contains_key(var),
        e.parsed@.contains_key(var),
        before.var_to_parsed_arith@ == e.parsed@,
        before.planned(m, var, e.constraints@[var], positive, after, plan),
        relates_numbers(m, e.var_to_term@[var as int]),
    ensures
        ({
            let t = e.var_to_term@[var as int];
            let form = e.parsed@[var];
            &&& plan.arith is Some <==> m.op(t) != Op::Eq || positive
            &&& plan.arith matches Some(f) ==> f.var == var && f.reason == t && (rel_holds(f.rel, left_side(v, form), form.constant.val())
                <==> truth(m, num_reading(m, v, p), t) == positive)
        }),
{
    let t = e.var_to_term@[var as int];
    let form = e.parsed@[var];
    lemma_measures(m, v, m.arg(t, 0), m.arg(t, 1), form.terms@, form.constant);
    assert(constraint_of(m, t) == Some(e.constraints@[var]));
    if m.op(t) == Op::Eq {
        lemma_equality_truth(m, num_reading(m, v, p), t);
    }
}

/// Unknowns and numbers have linear forms: a variable, and what a function or an array gives as a
/// number, stand for themselves, and numerals add to the constant, as far as that can be computed.
pub proof fn law_unknowns_and_numbers_are_linear(m: &TermManager, t: TermId, scale: Rat, acc: LinearView, k: Rat, p: Rat, s: Rat)
    requires
        m.has(t),
    ensures
        m.op(t) is Var || ((m.op(t) is Apply || m.op(t) is Select) && (m.sort_of(t) == INT_SORT || m.sort_of(t) == REAL_SORT)) ==> linear_of(
            m,
            t,
            scale,
            acc,
        ) == Some(LinearView { terms: acc.terms.push((t, scale)), constant: acc.constant }),
        has_numeral(m, t, k) && product_of(scale, k) == Some(p) && sum_of(acc.constant, p) == Some(s) ==> linear_of(m, t, scale, acc) == Some(
            LinearView { terms: acc.terms, constant: s },
        ),
{
}

/// The term is a numeral of the value.
pub open spec fn has_numeral(m: &TermManager, t: TermId, k: Rat) -> bool {
    match m.op(t) {
        Op::IntConst { negative } => i128::MIN <= signed(negative, m.terms@[t as int].digits@) <= i128::MAX && k == Rat::whole(
            signed(negative, m.terms@[t as int].digits@) as i128,
        ),
        Op::BitVecConst { width } => 0 <= digits_value(m.terms@[t as int].digits@) <= i128::MAX && k == Rat::whole(
            digits_value(m.terms@[t as int].digits@) as i128,
        ),
        Op::RealConst { numer, denom } => k == (Rat { numer: numer as i128, denom: denom as i128 }),
        _ => false,
    }
}

/// Sums, differences and negatives of linear terms are linear: the form goes through the parts one
/// after the other, with the opposite factor for what is taken away.
pub proof fn law_sums_of_linear_terms_are_linear(m: &TermManager, t: TermId, scale: Rat, acc: LinearView, x: LinearView, n: Rat)
    requires
        m.wf(),
        m.has(t),
    ensures
        m.op(t) == Op::Add && m.args(t).len() == 2 && linear_of(m, m.arg(t, 0), scale, acc) == Some(x) ==> linear_of(m, t, scale, acc)
            == linear_of(m, m.arg(t, 1), scale, x),
        m.op(t) == Op::Sub && linear_of(m, m.arg(t, 0), scale, acc) == Some(x) && negation_of(scale) == Some(n) ==> linear_of(m, t, scale, acc)
            == linear_of(m, m.arg(t, 1), n, x),
        m.op(t) == Op::Neg && negation_of(scale) == Some(n) ==> linear_of(m, t, scale, acc) == linear_of(m, m.arg(t, 0), n, acc),
{
    assert(m.terms@[t as int].fits(t as int));
    if m.op(t) == Op::Add && m.args(t).len() == 2 {
        assert(m.args(t)[0] < t && m.args(t)[1] < t);
        assert(linear_sum(m, t, 0, scale, acc) == Some(acc));
        assert(linear_sum(m, t, 1, scale, acc) == linear_of(m, m.arg(t, 0), scale, acc));
        if linear_of(m, m.arg(t, 0), scale, acc) == Some(x) {
            assert(linear_sum(m, t, 2, scale, acc) == linear_of(m, m.arg(t, 1), scale, x));
        }
        assert(linear_of(m, t, scale, acc) == linear_sum(m, t, m.args(t).len() as int, scale, acc));
    }
    if m.op(t) == Op::Sub {
        assert(m.args(t)[0] < t && m.args(t)[1] < t);
    }
    if m.op(t) == Op::Neg {
        assert(m.args(t)[0] < t);
    }
}

/// The product of a number and a linear term is linear, in either order: each coefficient, and the
/// constant, is multiplied.
pub proof fn law_multiples_of_linear_terms_are_linear(
    m: &TermManager,
    t: TermId,
    scale: Rat,
    acc: LinearView,
    f: LinearView,
    g: LinearView,
    c: Rat,
    s: Rat,
    x: LinearView,
)
    requires
        m.wf(),
        m.has(t),
        m.op(t) == Op::Mul,
        m.args(t).len() == 2,
        f.terms.len() == 0,
        g.terms.len() > 0,
        product_of(one(), f.constant) == Some(c),
        product_of(scale, c) == Some(s),
        append_scaled(acc, g.terms, s, g.terms.len() as int) == Some(x),
    ensures
        linear_of(m, m.arg(t, 0), one(), LinearView::just(zero())) == Some(f) && linear_of(m, m.arg(t, 1), one(), LinearView::just(zero()))
            == Some(g) ==> linear_of(m, t, scale, acc) == add_scaled(x, s, g.constant),
        linear_of(m, m.arg(t, 0), one(), LinearView::just(zero())) == Some(g) && linear_of(m, m.arg(t, 1), one(), LinearView::just(zero()))
            == Some(f) ==> linear_of(m, t, scale, acc) == add_scaled(x, s, g.constant),
{
    assert(m.terms@[t as int].fits(t as int));
    assert(m.args(t)[0] < t && m.args(t)[1] < t);
    let a = linear_of(m, m.arg(t, 0), one(), LinearView::just(zero()));
    let b = linear_of(m, m.arg(t, 1), one(), LinearView::just(zero()));
    assert(linear_product(m, t, 0) == Some((one(), None::<LinearView>)));
    if a == Some(f) && b == Some(g) {
        assert(linear_product(m, t, 1) == Some((c, None::<LinearView>)));
        assert(linear_product(m, t, 2) == Some((c, Some(g))));
    }
    if a == Some(g) && b == Some(f) {
        assert(linear_product(m, t, 1) == Some((one(), Some(g))));
        assert(linear_product(m, t, 2) == Some((c, Some(g))));
    }
}

} // verus!
