//! What the theories are told follows from what the search assigned.
use crate::blast::BvCmd;
use crate::cnf::Var;
use crate::encode::linked;
use crate::encoder::constraint_of;
use crate::encoder::Constraint;
use crate::encoder::Encoder;
use crate::euf::carries;
use crate::euf::lemma_carries;
use crate::euf::literal_reading;
use crate::euf::node_value;
use crate::euf::same_literal;
use crate::euf::short_words;
use crate::euf::EufNode;
use crate::linear::terms_value;
use crate::linear::ArithConstraintType;
use crate::linear::ParsedArithConstraint;
use crate::linear::Valuation;
use crate::semantics::equal_under;
use crate::semantics::is_bool;
use crate::semantics::truth;
use crate::semantics::Reading;
use crate::term::BvRel;
use crate::term::Op;
use crate::term::TermId;
use crate::term::TermManager;
use crate::theory::below_told;
use crate::theory::euf_told;
use crate::theory::is_signed;
use crate::theory::rel_of;
use crate::theory::speaks_of;
use crate::theory::stands_for;
use crate::theory::ArithRel;
use crate::theory::EufFact;
use crate::theory::Plan;
use crate::theory::TheoryManager;
use vstd::prelude::*;

verus! {

/// Values for terms, and the strict orders of bit vectors: unsigned and signed.
pub struct TheoryReading {
    pub val: Valuation,
    pub below: spec_fn(bool, real, real) -> bool,
}

/// Both orders of bit vectors are total, and the unsigned one is that of the numbers.
pub open spec fn ordered(rd: TheoryReading) -> bool {
    &&& forall|s: bool, x: real, y: real| #[trigger] (rd.below)(s, x, y) ==> x != y && !(rd.below)(s, y, x)
    &&& forall|s: bool, x: real, y: real| x != y ==> #[trigger] (rd.below)(s, x, y) || (rd.below)(s, y, x)
    &&& forall|x: real, y: real| #[trigger] (rd.below)(false, x, y) == (x < y)
}

/// The term compares bit vectors.
pub open spec fn compares_bits(m: &TermManager, t: TermId) -> bool {
    m.has(t) && m.op(t) is BvCompare
}

/// A strict comparison, as the operator of the term that stands for it reads it.
pub open spec fn less_in(m: &TermManager, rd: TheoryReading, t: TermId, x: real, y: real) -> bool {
    if compares_bits(m, t) {
        match m.op(t) {
            Op::BvCompare(BvRel::Slt) | Op::BvCompare(BvRel::Sle) => (rd.below)(true, x, y),
            _ => (rd.below)(false, x, y),
        }
    } else {
        x < y
    }
}

/// The constraint that the term `t` stands for has the truth value.
pub open spec fn constraint_is(m: &TermManager, rd: TheoryReading, t: TermId, c: Constraint, truth: bool) -> bool {
    let v = rd.val;
    match c {
        Constraint::Eq(a, b) => (v(a) == v(b)) == truth,
        Constraint::Diseq(a, b) => (v(a) != v(b)) == truth,
        Constraint::Lt(a, b) => less_in(m, rd, t, v(a), v(b)) == truth,
        Constraint::Le(a, b) => !less_in(m, rd, t, v(b), v(a)) == truth,
        Constraint::Gt(a, b) => less_in(m, rd, t, v(b), v(a)) == truth,
        Constraint::Ge(a, b) => !less_in(m, rd, t, v(a), v(b)) == truth,
        Constraint::BoolApp(x) => v(x) == if truth {
            1real
        } else {
            0real
        },
        Constraint::BoolValue { term, negated } => v(term) == if truth != negated {
            1real
        } else {
            0real
        },
    }
}

/// A representative has the value of what it stands for.
proof fn lemma_stands(m: &TermManager, rd: TheoryReading, n: EufNode, t: TermId)
    requires
        literal_reading(m, rd.val),
        short_words(m),
        stands_for(m, n, t),
    ensures
        node_value(rd.val, n) == (rd.val)(t),
{
    if let EufNode::Term(x) = n {
        if x != t {
            assert(same_literal(m, t, x));
            assert(m.has(t) && m.has(x));
        }
    }
}

/// What the theory of equality is told holds wherever the assigned literal does.
pub proof fn law_euf_fact_follows(m: &TermManager, rd: TheoryReading, c: Constraint, positive: bool, reason: TermId, f: EufFact)
    requires
        m.wf(),
        literal_reading(m, rd.val),
        short_words(m),
        constraint_is(m, rd, reason, c, positive),
        euf_told(m, c, positive, reason, Some(f)),
    ensures
        (node_value(rd.val, f.a) == node_value(rd.val, f.b)) == f.equal,
{
    match c {
        Constraint::Eq(a, b) | Constraint::Diseq(a, b) => {
            lemma_stands(m, rd, f.a, a);
            lemma_stands(m, rd, f.b, b);
        },
        Constraint::BoolApp(t) => {
            lemma_stands(m, rd, f.a, t);
        },
        Constraint::BoolValue { term, negated } => {
            lemma_stands(m, rd, f.a, term);
        },
        _ => {},
    }
}

/// How formulas are read where terms have the given values, `true` being 1 and `false` being 0, and
/// other atoms the given truth values.
pub open spec fn value_reading(m: &TermManager, v: Valuation, p: spec_fn(TermId) -> bool) -> Reading {
    Reading {
        atom: |t: TermId|
            if m.op(t) is Apply {
                v(t) == 1real
            } else {
                p(t)
            },
        same: |a: TermId, b: TermId| v(a) == v(b),
    }
}

/// What the theory of equality is told of an assigned equality, or of an assigned application of a
/// predicate, holds exactly where the formula has the assigned truth value.
pub proof fn law_equality_theory_is_told_the_formula(
    m: &TermManager,
    e: &Encoder,
    v: Valuation,
    p: spec_fn(TermId) -> bool,
    before: &TheoryManager,
    var: Var,
    positive: bool,
    after: &TheoryManager,
    plan: Plan,
)
    requires
        linked(m, e),
        literal_reading(m, v),
        short_words(m),
        e.constraints@.contains_key(var),
        before.var_to_term@ == e.var_to_term@,
        before.planned(m, var, e.constraints@[var], positive, after, plan),
        m.op(e.var_to_term@[var as int]) == Op::Eq || m.op(e.var_to_term@[var as int]) is Apply,
        m.op(e.var_to_term@[var as int]) is Apply ==> v(e.var_to_term@[var as int]) == 0real || v(e.var_to_term@[var as int]) == 1real,
    ensures
        plan.euf matches Some(f) && f.reason == e.var_to_term@[var as int] && ((node_value(v, f.a) == node_value(v, f.b)) == f.equal
            <==> truth(m, value_reading(m, v, p), e.var_to_term@[var as int]) == positive),
{
    let t = e.var_to_term@[var as int];
    let r = value_reading(m, v, p);
    let rd = TheoryReading { val: v, below: |s: bool, x: real, y: real| x < y };
    assert(constraint_of(m, t) == Some(e.constraints@[var]));
    assert(var < e.var_to_term@.len());
    let f = plan.euf->0;
    if m.op(t) == Op::Eq {
        let a = m.arg(t, 0);
        let b = m.arg(t, 1);
        assert(!is_bool(m, a));
        assert(truth(m, r, t) == equal_under(m, r, t, a, b));
        assert(equal_under(m, r, t, a, b) == (r.same)(a, b));
        lemma_stands(m, rd, f.a, a);
        lemma_stands(m, rd, f.b, b);
    } else {
        lemma_stands(m, rd, f.a, t);
    }
}

/// A sum compares to a constant as said.
pub open spec fn rel_holds(rel: ArithRel, x: real, y: real) -> bool {
    match rel {
        ArithRel::Eq => x == y,
        ArithRel::Lt => x < y,
        ArithRel::Le => x <= y,
        ArithRel::Gt => x > y,
        ArithRel::Ge => x >= y,
    }
}

/// The parsed form says of the two sides what the comparison says.
pub open spec fn parsed_means(p: ParsedArithConstraint, v: Valuation, a: TermId, b: TermId) -> bool {
    terms_value(v, p.terms@, p.terms@.len() as int) - p.constant.val() == v(a) - v(b)
}

/// The parsed form is that of the constraint.
pub open spec fn parsed_fits(p: ParsedArithConstraint, v: Valuation, c: Constraint) -> bool {
    match c {
        Constraint::Eq(a, b) => parsed_means(p, v, a, b),
        Constraint::Lt(a, b) => parsed_means(p, v, a, b) && p.constraint_type == ArithConstraintType::Lt,
        Constraint::Le(a, b) => parsed_means(p, v, a, b) && p.constraint_type == ArithConstraintType::Le,
        Constraint::Gt(a, b) => parsed_means(p, v, a, b) && p.constraint_type == ArithConstraintType::Gt,
        Constraint::Ge(a, b) => parsed_means(p, v, a, b) && p.constraint_type == ArithConstraintType::Ge,
        _ => false,
    }
}

/// What arithmetic is told holds wherever the assigned literal does; left out are signed
/// comparisons of bit vectors, whose order is not that of the numbers.
pub proof fn law_arith_fact_follows(
    m: &TermManager,
    rd: TheoryReading,
    c: Constraint,
    positive: bool,
    reason: TermId,
    p: ParsedArithConstraint,
)
    requires
        m.wf(),
        ordered(rd),
        constraint_is(m, rd, reason, c, positive),
        parsed_fits(p, rd.val, c),
        !(m.has(reason) && (m.op(reason) == Op::BvCompare(BvRel::Slt) || m.op(reason) == Op::BvCompare(BvRel::Sle))),
    ensures
        c is Eq && positive ==> rel_holds(ArithRel::Eq, terms_value(rd.val, p.terms@, p.terms@.len() as int), p.constant.val()),
        !(c is Eq) ==> rel_holds(
            rel_of(p.constraint_type, positive),
            terms_value(rd.val, p.terms@, p.terms@.len() as int),
            p.constant.val(),
        ),
{
    match c {
        Constraint::Lt(a, b) | Constraint::Le(a, b) | Constraint::Gt(a, b) | Constraint::Ge(a, b) => {
            let x = (rd.val)(a);
            let y = (rd.val)(b);
            assert((rd.below)(false, x, y) == (x < y));
            assert((rd.below)(false, y, x) == (y < x));
        },
        _ => {},
    }
}

/// The statement about bit vectors holds.
pub open spec fn bits_hold(rd: TheoryReading, c: BvCmd) -> bool {
    match c {
        BvCmd::Equal { a, b } => (rd.val)(a) == (rd.val)(b),
        BvCmd::Differ { a, b } => (rd.val)(a) != (rd.val)(b),
        BvCmd::Below { a, b, signed, strict } => if strict {
            (rd.below)(signed, (rd.val)(a), (rd.val)(b))
        } else {
            !(rd.below)(signed, (rd.val)(b), (rd.val)(a))
        },
        BvCmd::Const { term, value, width } => (rd.val)(term) == value as real,
        _ => true,
    }
}

/// What the theory of bit vectors is told of an assigned comparison holds wherever the comparison
/// has the assigned truth value.
pub proof fn law_order_of_bits_follows(m: &TermManager, rd: TheoryReading, c: Constraint, positive: bool, reason: TermId)
    requires
        ordered(rd),
        compares_bits(m, reason),
        constraint_is(m, rd, reason, c, positive),
    ensures
        below_told(c, positive, is_signed(m, reason)) matches Some(f) ==> bits_hold(rd, f),
{
}

/// What the theory of bit vectors is told of an assigned equality holds wherever the two sides are
/// equal.
pub proof fn law_equality_of_bits_follows(m: &TermManager, rd: TheoryReading, vars: Set<usize>, a: TermId, b: TermId)
    requires
        literal_reading(m, rd.val),
        short_words(m),
        (rd.val)(a) == (rd.val)(b),
    ensures
        crate::blast::equality_fact(m, vars, a, b) matches Some(f) ==> bits_hold(rd, f),
{
    assert(m.has(a) ==> (m.op(a) is BitVecConst ==> (rd.val)(a) == crate::blast::low_digit(m, a) as real));
    assert(m.has(b) ==> (m.op(b) is BitVecConst ==> (rd.val)(b) == crate::blast::low_digit(m, b) as real));
}

/// What the tables say of variables speaks of terms of the store.
pub proof fn law_constraints_speak_of_the_store(m: &TermManager, e: &Encoder, v: Var, t: TermId)
    requires
        linked(m, e),
        e.constraints@.contains_key(v),
        speaks_of(e.constraints@[v], t),
    ensures
        m.has(t),
{
    let a = e.var_to_term@[v as int];
    assert(constraint_of(m, a) == Some(e.constraints@[v]));
    assert(m.terms@[a as int].fits(a as int));
}

/// The theory of equality is told of terms of the store only, as long as constraints speak of no
/// others.
pub proof fn law_plans_stay_within_the_store(
    m: &TermManager,
    before: &TheoryManager,
    var: Var,
    c: Constraint,
    positive: bool,
    after: &TheoryManager,
    p: Plan,
)
    requires
        before.euf.within(m),
        before.planned(m, var, c, positive, after, p),
        forall|t: TermId| #[trigger] speaks_of(c, t) ==> m.has(t),
    ensures
        after.euf.within(m),
{
    assert forall|x: usize| #[trigger] after.euf.interned@.contains(x) implies m.has(x) by {
        if !before.euf.interned@.contains(x) {
            let t = choose|t: TermId| #[trigger] speaks_of(c, t) && carries(m, t, x);
            lemma_carries(m, t, x);
        }
    }
}

} // verus!
