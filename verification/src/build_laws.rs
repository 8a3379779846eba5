//! The values of a built model are those that the search and the theories have.
use crate::arith_laws::left_side;
use crate::arith_laws::num_reading;
use crate::arith_laws::relates_numbers;
use crate::builder::has_value;
use crate::builder::is_literal;
use crate::builder::is_narrow;
use crate::builder::is_pinned;
use crate::builder::is_value;
use crate::builder::narrows;
use crate::builder::pinned_to;
use crate::builder::pins;
use crate::builder::Answers;
use crate::cnf::Var;
use crate::encode::linked;
use crate::encoder::Constraint;
use crate::encoder::Encoder;
use crate::linear::is_unknown;
use crate::linear::number;
use crate::linear::terms_value;
use crate::linear::Valuation;
use crate::numeral::digits_value;
use crate::numeral::signed;
use crate::rational::Rat;
use crate::semantics::truth;
use crate::term::Op;
use crate::term::TermId;
use crate::term::TermManager;
use crate::term::FALSE_TERM;
use crate::term::INT_SORT;
use crate::term::REAL_SORT;
use crate::term::TRUE_TERM;
use crate::theory::ArithRel;
use crate::theory_laws::rel_holds;
use vstd::prelude::*;

verus! {

/// The assignment is the model of the answers.
pub open spec fn is_model_of(start: &TermManager, m: &TermManager, e: &Encoder, a: &Answers, asg: Map<usize, TermId>) -> bool {
    &&& forall|t: usize| #[trigger] asg.contains_key(t) <==> has_value(start, e, a, t)
    &&& forall|t: usize| #[trigger] asg.contains_key(t) ==> is_value(start, m, e, a, t, asg[t])
}

/// An equality between the two terms has been made true.
pub open spec fn made_equal(e: &Encoder, a: &Answers, x: TermId, y: TermId) -> bool {
    exists|v: usize| #[trigger]
        e.constraints@.contains_key(v) && v < a.truths@.len() && a.truths@[v as int] == Some(true) && (e.constraints@[v] == Constraint::Eq(x, y)
            || e.constraints@[v] == Constraint::Eq(y, x))
}

/// No equality of the term with another one has been made true.
pub open spec fn is_free(e: &Encoder, a: &Answers, t: TermId) -> bool {
    forall|x: TermId| !#[trigger] made_equal(e, a, t, x)
}

/// The search has no truth value for the term.
pub open spec fn is_undecided(e: &Encoder, a: &Answers, t: TermId) -> bool {
    e.term_to_var@.contains_key(t) ==> e.term_to_var@[t] >= a.truths@.len() || a.truths@[e.term_to_var@[t] as int] is None
}

/// What a free term is not pinned to.
proof fn lemma_free(m: &TermManager, e: &Encoder, a: &Answers, t: TermId)
    requires
        is_free(e, a, t),
    ensures
        !is_pinned(m, e, a, t),
{
    if is_pinned(m, e, a, t) {
        let c = choose|c: TermId| #[trigger] pinned_to(m, e, a, t, c);
        let v = choose|v: usize| #[trigger] pins(m, e, a, v, t, c);
        assert(made_equal(e, a, t, c));
    }
}

/// A term that an equality gives its value has a literal that it has been made equal to.
pub proof fn law_pinned_value_is_an_equal_literal(
    start: &TermManager,
    m: &TermManager,
    e: &Encoder,
    a: &Answers,
    asg: Map<usize, TermId>,
    t: TermId,
    c: TermId,
)
    requires
        is_model_of(start, m, e, a, asg),
        made_equal(e, a, t, c),
        e.arith_terms@.contains(t) || e.bv_terms@.contains(t) || (start.has(t) && start.op(t) is Apply),
        !e.arith_terms@.contains(c) && !e.bv_terms@.contains(c),
        start.has(c),
        match start.op(c) {
            Op::IntConst { negative } => i64::MIN <= signed(negative, start.terms@[c as int].digits@) <= i64::MAX,
            Op::RealConst { .. } => true,
            Op::BitVecConst { .. } => digits_value(start.terms@[c as int].digits@) <= u64::MAX,
            _ => false,
        },
    ensures
        asg.contains_key(t),
        made_equal(e, a, t, asg[t]),
        is_literal(start, asg[t]),
{
    let v = choose|v: usize| #[trigger]
        e.constraints@.contains_key(v) && v < a.truths@.len() && a.truths@[v as int] == Some(true) && (e.constraints@[v] == Constraint::Eq(t, c)
            || e.constraints@[v] == Constraint::Eq(c, t));
    assert(pins(start, e, a, v, t, c));
    assert(pinned_to(start, e, a, t, c));
    assert(asg.contains_key(t));
    lemma_pinned(start, e, a, t, asg[t]);
}

/// A literal that a term is pinned to is one that it has been made equal to.
proof fn lemma_pinned(m: &TermManager, e: &Encoder, a: &Answers, t: TermId, c: TermId)
    requires
        pinned_to(m, e, a, t, c),
    ensures
        made_equal(e, a, t, c),
        is_literal(m, c),
{
    let v = choose|v: usize| #[trigger] pins(m, e, a, v, t, c);
    assert(e.constraints@.contains_key(v));
}

/// A formula that the search has a truth value for has it in the model, unless an equality gives it
/// another value.
pub proof fn law_formula_has_its_truth_value(
    start: &TermManager,
    m: &TermManager,
    e: &Encoder,
    a: &Answers,
    asg: Map<usize, TermId>,
    t: TermId,
    b: bool,
)
    requires
        is_model_of(start, m, e, a, asg),
        is_free(e, a, t),
        e.term_to_var@.contains_key(t),
        e.term_to_var@[t] < a.truths@.len(),
        a.truths@[e.term_to_var@[t] as int] == Some(b),
    ensures
        asg.contains_key(t),
        asg[t] == if b {
            TRUE_TERM
        } else {
            FALSE_TERM
        },
{
    lemma_free(start, e, a, t);
    assert(has_value(start, e, a, t));
    assert(asg.contains_key(t));
}

/// An integer term whose value no equality gives has in the model the number that arithmetic has for
/// it, of whatever sign, and zero where arithmetic has none.
pub proof fn law_integer_has_the_number_of_arithmetic(
    start: &TermManager,
    m: &TermManager,
    e: &Encoder,
    a: &Answers,
    asg: Map<usize, TermId>,
    v: Valuation,
    t: TermId,
)
    requires
        is_model_of(start, m, e, a, asg),
        is_free(e, a, t),
        is_undecided(e, a, t),
        e.arith_terms@.contains(t),
        start.has(t),
        start.sort_of(t) == INT_SORT,
    ensures
        asg.contains_key(t),
        m.has(asg[t]) && m.sort_of(asg[t]) == INT_SORT && m.op(asg[t]) is IntConst,
        a.ints@.contains_key(t) ==> number(m, v, asg[t]) == a.ints@[t] as real,
        !a.ints@.contains_key(t) ==> number(m, v, asg[t]) == 0real,
{
    lemma_free(start, e, a, t);
    assert(has_value(start, e, a, t));
    assert(asg.contains_key(t));
    assert(is_value(start, m, e, a, t, asg[t]));
}

/// Fractions that are equal crosswise stand for one number.
proof fn lemma_crosswise(n: int, d: int, p: int, q: int)
    requires
        d > 0,
        q > 0,
        n * q == p * d,
    ensures
        n as real / d as real == p as real / q as real,
{
    let a: real = n as real;
    let b: real = d as real;
    let x: real = p as real;
    let y: real = q as real;
    assert(a * y == x * b) by {
        assert((n * q) as real == a * y) by (nonlinear_arith)
            requires
                a == n as real,
                y == q as real,
        ;
        assert((p * d) as real == x * b) by (nonlinear_arith)
            requires
                x == p as real,
                b == d as real,
        ;
    }
    assert(a / b == x / y) by (nonlinear_arith)
        requires
            b > 0real,
            y > 0real,
            a * y == x * b,
    ;
}

/// A real term whose value no equality gives has in the model the number that arithmetic has for it,
/// where its fraction has 64 bits, and zero where arithmetic has none.
pub proof fn law_real_has_the_number_of_arithmetic(
    start: &TermManager,
    m: &TermManager,
    e: &Encoder,
    a: &Answers,
    asg: Map<usize, TermId>,
    v: Valuation,
    t: TermId,
)
    requires
        is_model_of(start, m, e, a, asg),
        a.wf(),
        is_free(e, a, t),
        is_undecided(e, a, t),
        e.arith_terms@.contains(t),
        start.has(t),
        start.sort_of(t) == REAL_SORT,
    ensures
        asg.contains_key(t),
        m.has(asg[t]) && m.sort_of(asg[t]) == REAL_SORT && m.op(asg[t]) is RealConst,
        a.reals@.contains_key(t) && i64::MIN <= a.reals@[t].numer <= i64::MAX && a.reals@[t].denom <= i64::MAX ==> number(m, v, asg[t])
            == a.reals@[t].val(),
        !a.reals@.contains_key(t) ==> number(m, v, asg[t]) == 0real,
{
    lemma_free(start, e, a, t);
    assert(has_value(start, e, a, t));
    assert(asg.contains_key(t));
    assert(is_value(start, m, e, a, t, asg[t]));
    if let Op::RealConst { numer, denom } = m.op(asg[t]) {
        if a.reals@.contains_key(t) {
            let q = a.reals@[t];
            assert(q.wf());
            if is_narrow(q) {
                lemma_crosswise(numer as int, denom as int, q.numer as int, q.denom as int);
            }
        } else {
            assert(0real / 1real == 0real) by (nonlinear_arith);
        }
    }
}

/// A fraction that does not fit 64 bits is rounded towards zero, and then to the nearest number that
/// fits: the result is whole, no larger in size, of no other sign, and less than one away, unless it
/// is the least or the greatest number of 64 bits.
pub proof fn law_narrowing_rounds_towards_zero(q: Rat, r: (i64, i64))
    requires
        q.wf(),
        narrows(q, r),
        !(i64::MIN <= q.numer <= i64::MAX && q.denom <= i64::MAX),
    ensures
        r.1 == 1,
        q.numer >= 0 ==> 0 <= r.0 && r.0 * q.denom <= q.numer,
        q.numer <= 0 ==> r.0 <= 0 && q.numer <= r.0 * q.denom,
        r.0 != i64::MIN && r.0 != i64::MAX ==> -q.denom < q.numer - r.0 * q.denom < q.denom,
        r.0 == i64::MAX ==> q.numer >= i64::MAX * q.denom,
        r.0 == i64::MIN ==> q.numer <= i64::MIN * q.denom,
{
    let n = q.numer as int;
    let d = q.denom as int;
    let size = if n >= 0 {
        n
    } else {
        -n
    };
    let w = size / d;
    vstd::arithmetic::div_mod::lemma_fundamental_div_mod(size, d);
    vstd::arithmetic::div_mod::lemma_mod_bound(size, d);
    vstd::arithmetic::div_mod::lemma_div_pos_is_pos(size, d);
    assert(d * w == w * d) by (nonlinear_arith);
    let x = r.0 as int;
    if n >= 0 {
        assert(0 <= x <= w);
        assert(x * d <= w * d) by (nonlinear_arith)
            requires
                0 <= x <= w,
                d > 0,
        ;
    } else {
        assert(-w <= x <= 0);
        assert((-w) * d == -(w * d)) by (nonlinear_arith);
        assert((-w) * d <= x * d) by (nonlinear_arith)
            requires
                -w <= x,
                d > 0,
        ;
    }
}

/// A bit vector whose value no equality gives, and that arithmetic does not know, has in the model
/// its bits, else the number that arithmetic has for it, else zero; and it has its own sort.
pub proof fn law_bit_vector_has_its_number(
    start: &TermManager,
    m: &TermManager,
    e: &Encoder,
    a: &Answers,
    asg: Map<usize, TermId>,
    v: Valuation,
    t: TermId,
    w: u32,
)
    requires
        is_model_of(start, m, e, a, asg),
        is_free(e, a, t),
        is_undecided(e, a, t),
        !e.arith_terms@.contains(t),
        e.bv_terms@.contains(t),
        crate::blast::width_of(start, t) == Some(w),
    ensures
        asg.contains_key(t),
        m.has(asg[t]) && m.sort_of(asg[t]) == start.sort_of(t) && m.op(asg[t]) == (Op::BitVecConst { width: w }),
        a.bits@.contains_key(t) ==> number(m, v, asg[t]) == a.bits@[t] as int as real,
        !a.bits@.contains_key(t) && a.nums@.contains_key(t) ==> number(m, v, asg[t]) == a.nums@[t] as int as real,
        !a.bits@.contains_key(t) && !a.nums@.contains_key(t) ==> number(m, v, asg[t]) == 0real,
{
    lemma_free(start, e, a, t);
    assert(has_value(start, e, a, t));
    assert(asg.contains_key(t));
    assert(is_value(start, m, e, a, t, asg[t]));
}

/// The number that the answers have for a term.
pub open spec fn answered(start: &TermManager, e: &Encoder, a: &Answers) -> Valuation {
    |t: TermId|
        if e.arith_terms@.contains(t) {
            if start.sort_of(t) == INT_SORT {
                if a.ints@.contains_key(t) {
                    a.ints@[t] as real
                } else {
                    0real
                }
            } else if a.reals@.contains_key(t) {
                a.reals@[t].val()
            } else {
                0real
            }
        } else if a.bits@.contains_key(t) {
            a.bits@[t] as int as real
        } else if a.nums@.contains_key(t) {
            a.nums@[t] as int as real
        } else {
            0real
        }
}

/// The number that a model has for a term.
pub open spec fn modelled(m: &TermManager, asg: Map<usize, TermId>) -> Valuation {
    |t: TermId| number(m, |x: TermId| 0real, asg[t])
}

/// The answers satisfy the equalities that the search made true.
pub open spec fn satisfies_equalities(start: &TermManager, e: &Encoder, a: &Answers) -> bool {
    forall|x: TermId, y: TermId| #[trigger]
        made_equal(e, a, x, y) ==> number(start, answered(start, e, a), x) == number(start, answered(start, e, a), y)
}

/// The term is an unknown that theories have a number for, and whose number 64 bits hold.
pub open spec fn is_answered(start: &TermManager, e: &Encoder, a: &Answers, t: TermId) -> bool {
    &&& start.has(t)
    &&& is_unknown(start, t)
    &&& is_undecided(e, a, t)
    &&& if e.arith_terms@.contains(t) {
        start.sort_of(t) == INT_SORT || (start.sort_of(t) == REAL_SORT && (a.reals@.contains_key(t) ==> i64::MIN <= a.reals@[t].numer
            <= i64::MAX && a.reals@[t].denom <= i64::MAX))
    } else {
        e.bv_terms@.contains(t) && crate::blast::width_of(start, t) is Some
    }
}

/// A model has for an unknown the number that the answers have, if these satisfy the equalities that
/// were made true.
pub proof fn law_model_has_the_answers(
    start: &TermManager,
    m: &TermManager,
    e: &Encoder,
    a: &Answers,
    asg: Map<usize, TermId>,
    t: TermId,
)
    requires
        start.extended_by(m),
        a.wf(),
        is_model_of(start, m, e, a, asg),
        satisfies_equalities(start, e, a),
        is_answered(start, e, a, t),
    ensures
        asg.contains_key(t),
        modelled(m, asg)(t) == answered(start, e, a)(t),
{
    let v = |x: TermId| 0real;
    if is_free(e, a, t) {
        if e.arith_terms@.contains(t) {
            if start.sort_of(t) == INT_SORT {
                law_integer_has_the_number_of_arithmetic(start, m, e, a, asg, v, t);
            } else {
                law_real_has_the_number_of_arithmetic(start, m, e, a, asg, v, t);
            }
        } else {
            law_bit_vector_has_its_number(start, m, e, a, asg, v, t, crate::blast::width_of(start, t)->0);
        }
    } else if is_pinned(start, e, a, t) {
        let c = choose|c: TermId| #[trigger] pinned_to(start, e, a, t, c);
        assert(has_value(start, e, a, t));
        assert(asg.contains_key(t));
        assert(is_value(start, m, e, a, t, asg[t]));
        lemma_pinned(start, e, a, t, asg[t]);
        assert(m.terms@[asg[t] as int] == start.terms@[asg[t] as int]);
    } else {
        lemma_unpinned_value(start, m, e, a, asg, v, t);
    }
}

/// A term that no equality gives its value has the number that the answers have.
proof fn lemma_unpinned_value(
    start: &TermManager,
    m: &TermManager,
    e: &Encoder,
    a: &Answers,
    asg: Map<usize, TermId>,
    v: Valuation,
    t: TermId,
)
    requires
        a.wf(),
        is_model_of(start, m, e, a, asg),
        !is_pinned(start, e, a, t),
        is_answered(start, e, a, t),
    ensures
        asg.contains_key(t),
        number(m, v, asg[t]) == answered(start, e, a)(t),
{
    assert(has_value(start, e, a, t));
    assert(asg.contains_key(t));
    assert(is_value(start, m, e, a, t, asg[t]));
    if e.arith_terms@.contains(t) && start.sort_of(t) != INT_SORT {
        if let Op::RealConst { numer, denom } = m.op(asg[t]) {
            if a.reals@.contains_key(t) {
                let q = a.reals@[t];
                assert(q.wf());
                lemma_crosswise(numer as int, denom as int, q.numer as int, q.denom as int);
            } else {
                assert(0real / 1real == 0real) by (nonlinear_arith);
            }
        }
    }
}

/// Valuations that agree on the unknowns of a sum agree on the sum.
proof fn lemma_same_sum(u: Valuation, v: Valuation, terms: Seq<(TermId, Rat)>, k: int)
    requires
        k <= terms.len(),
        forall|i: int| 0 <= i < terms.len() ==> u((#[trigger] terms[i]).0) == v(terms[i].0),
    ensures
        terms_value(u, terms, k) == terms_value(v, terms, k),
    decreases k,
{
    if k > 0 {
        lemma_same_sum(u, v, terms, k - 1);
        assert(u(terms[k - 1].0) == v(terms[k - 1].0));
    }
}

/// A model satisfies every parsed comparison that the answers satisfy, and no other one: if the
/// answers satisfy the comparisons and the equalities that the search made true, so do the values of
/// the model. And so it is with the formulas that were parsed.
pub proof fn law_model_satisfies_what_the_answers_satisfy(
    start: &TermManager,
    m: &TermManager,
    e: &Encoder,
    a: &Answers,
    asg: Map<usize, TermId>,
    p: spec_fn(TermId) -> bool,
    var: Var,
)
    requires
        linked(start, e),
        start.extended_by(m),
        a.wf(),
        is_model_of(start, m, e, a, asg),
        satisfies_equalities(start, e, a),
        e.parsed@.contains_key(var),
        forall|i: int| 0 <= i < e.parsed@[var].terms@.len() ==> is_answered(start, e, a, (#[trigger] e.parsed@[var].terms@[i]).0),
    ensures
        forall|rel: ArithRel| #[trigger]
            rel_holds(rel, left_side(modelled(m, asg), e.parsed@[var]), e.parsed@[var].constant.val()) <==> rel_holds(
                rel,
                left_side(answered(start, e, a), e.parsed@[var]),
                e.parsed@[var].constant.val(),
            ),
        relates_numbers(start, e.var_to_term@[var as int]) ==> truth(
            start,
            num_reading(start, modelled(m, asg), p),
            e.var_to_term@[var as int],
        ) == truth(start, num_reading(start, answered(start, e, a), p), e.var_to_term@[var as int]),
{
    let form = e.parsed@[var];
    let t = e.var_to_term@[var as int];
    let u = modelled(m, asg);
    let v = answered(start, e, a);
    assert forall|i: int| 0 <= i < form.terms@.len() implies u((#[trigger] form.terms@[i]).0) == v(form.terms@[i].0) by {
        law_model_has_the_answers(start, m, e, a, asg, form.terms@[i].0);
    }
    lemma_same_sum(u, v, form.terms@, form.terms@.len() as int);
    crate::linear::lemma_measures(start, u, start.arg(t, 0), start.arg(t, 1), form.terms@, form.constant);
    crate::linear::lemma_measures(start, v, start.arg(t, 0), start.arg(t, 1), form.terms@, form.constant);
    if relates_numbers(start, t) && start.op(t) == Op::Eq {
        crate::arith_laws::lemma_equality_truth(start, num_reading(start, u, p), t);
        crate::arith_laws::lemma_equality_truth(start, num_reading(start, v, p), t);
    }
}

} // verus!
