//! Linear forms of arithmetic terms.
use crate::numeral::signed;
use crate::numeral::to_i128;
use crate::rational::negation;
use crate::rational::negation_of;
use crate::rational::product;
use crate::rational::product_of;
use crate::rational::sum;
use crate::rational::sum_of;
use crate::rational::Rat;
use crate::term::Op;
use crate::term::TermId;
use crate::term::TermManager;
use crate::term::INT_SORT;
use crate::term::REAL_SORT;
use vstd::prelude::*;

verus! {

/// A sum of scaled terms and a constant.
#[derive(Debug)]
pub struct Linear {
    pub terms: Vec<(TermId, Rat)>,
    pub constant: Rat,
}

/// The mathematical content of a linear form.
#[verifier::ext_equal]
pub struct LinearView {
    pub terms: Seq<(TermId, Rat)>,
    pub constant: Rat,
}

impl View for Linear {
    type V = LinearView;

    open spec fn view(&self) -> LinearView {
        LinearView { terms: self.terms@, constant: self.constant }
    }
}

impl LinearView {
    /// Every coefficient and the constant have positive denominators.
    pub open spec fn wf(self) -> bool {
        &&& self.constant.wf()
        &&& forall|i: int| 0 <= i < self.terms.len() ==> (#[trigger] self.terms[i]).1.wf()
    }

    /// The form without terms whose constant is `c`.
    pub open spec fn just(c: Rat) -> LinearView {
        LinearView { terms: Seq::empty(), constant: c }
    }

    /// The form with one more term.
    pub open spec fn plus_term(self, t: TermId, coef: Rat) -> LinearView {
        LinearView { terms: self.terms.push((t, coef)), constant: self.constant }
    }
}

/// The constant 0.
pub open spec fn zero() -> Rat {
    Rat { numer: 0, denom: 1 }
}

/// The constant 1.
pub open spec fn one() -> Rat {
    Rat { numer: 1, denom: 1 }
}

/// A term whose sort is that of the integers or of the reals.
pub open spec fn is_numeric(m: &TermManager, t: TermId) -> bool {
    m.sort_of(t) == INT_SORT || m.sort_of(t) == REAL_SORT
}

/// The value of a numeric constant of 128 bits.
pub open spec fn constant_of(m: &TermManager, t: TermId) -> Option<Rat> {
    match m.op(t) {
        Op::IntConst { negative } => {
            let v = signed(negative, m.terms@[t as int].digits@);
            if i128::MIN <= v <= i128::MAX {
                Some(Rat::whole(v as i128))
            } else {
                None
            }
        },
        Op::RealConst { numer, denom } => Some(Rat { numer: numer as i128, denom: denom as i128 }),
        Op::BitVecConst { width } => {
            let v = signed(false, m.terms@[t as int].digits@);
            if i128::MIN <= v <= i128::MAX {
                Some(Rat::whole(v as i128))
            } else {
                None
            }
        },
        _ => None,
    }
}

/// A term that a linear form treats as an unknown of its own.
pub open spec fn is_unknown(m: &TermManager, t: TermId) -> bool {
    match m.op(t) {
        Op::Var(_) => true,
        Op::Apply(_) | Op::Select => is_numeric(m, t),
        _ => false,
    }
}

/// `acc` with `scale * c` added to its constant.
pub open spec fn add_scaled(acc: LinearView, scale: Rat, c: Rat) -> Option<LinearView> {
    match product_of(scale, c) {
        None => None,
        Some(p) => match sum_of(acc.constant, p) {
            None => None,
            Some(s) => Some(LinearView { terms: acc.terms, constant: s }),
        },
    }
}

/// `acc` with `scale` times each of the first `k` terms of `f` appended.
pub open spec fn append_scaled(acc: LinearView, f: Seq<(TermId, Rat)>, scale: Rat, k: int) -> Option<LinearView>
    decreases k,
{
    if k <= 0 {
        Some(acc)
    } else {
        match append_scaled(acc, f, scale, k - 1) {
            None => None,
            Some(a) => match product_of(scale, f[k - 1].1) {
                None => None,
                Some(c) => Some(a.plus_term(f[k - 1].0, c)),
            },
        }
    }
}

/// `acc + scale * t` as a linear form, or nothing where `t` is not linear or a coefficient
/// leaves the range of the rationals.
pub open spec fn linear_of(m: &TermManager, t: TermId, scale: Rat, acc: LinearView) -> Option<LinearView>
    decreases t, m.args(t).len() + 1,
{
    if !m.has(t) {
        None
    } else {
        match m.op(t) {
            Op::IntConst { .. } | Op::RealConst { .. } | Op::BitVecConst { .. } => match constant_of(m, t) {
                Some(c) => add_scaled(acc, scale, c),
                None => None,
            },
            Op::Var(_) | Op::Apply(_) | Op::Select => if is_unknown(m, t) {
                Some(acc.plus_term(t, scale))
            } else {
                None
            },
            Op::Add => linear_sum(m, t, m.args(t).len() as int, scale, acc),
            Op::Sub => if m.args(t).len() == 2 && m.arg(t, 0) < t && m.arg(t, 1) < t {
                match linear_of(m, m.arg(t, 0), scale, acc) {
                    None => None,
                    Some(a) => match negation_of(scale) {
                        None => None,
                        Some(n) => linear_of(m, m.arg(t, 1), n, a),
                    },
                }
            } else {
                None
            },
            Op::Neg => if m.args(t).len() == 1 && m.arg(t, 0) < t {
                match negation_of(scale) {
                    None => None,
                    Some(n) => linear_of(m, m.arg(t, 0), n, acc),
                }
            } else {
                None
            },
            Op::Mul => match linear_product(m, t, m.args(t).len() as int) {
                None => None,
                Some((c, factor)) => match product_of(scale, c) {
                    None => None,
                    Some(s) => match factor {
                        Some(f) => match append_scaled(acc, f.terms, s, f.terms.len() as int) {
                            None => None,
                            Some(a) => add_scaled(a, s, f.constant),
                        },
                        None => match sum_of(acc.constant, s) {
                            None => None,
                            Some(k) => Some(LinearView { terms: acc.terms, constant: k }),
                        },
                    },
                },
            },
            _ => None,
        }
    }
}

/// `acc + scale * (a_0 + ... + a_(k-1))` over the first arguments of `t`.
pub open spec fn linear_sum(m: &TermManager, t: TermId, k: int, scale: Rat, acc: LinearView) -> Option<LinearView>
    decreases t, k,
{
    if k <= 0 {
        Some(acc)
    } else if m.arg(t, k - 1) >= t {
        None
    } else {
        match linear_sum(m, t, k - 1, scale, acc) {
            None => None,
            Some(a) => linear_of(m, m.arg(t, k - 1), scale, a),
        }
    }
}

/// The product of the first `k` arguments of `t` as a constant and at most one linear factor
/// that is not constant.
pub open spec fn linear_product(m: &TermManager, t: TermId, k: int) -> Option<(Rat, Option<LinearView>)>
    decreases t, k,
{
    if k <= 0 {
        Some((one(), None))
    } else if m.arg(t, k - 1) >= t {
        None
    } else {
        match linear_product(m, t, k - 1) {
            None => None,
            Some((c, factor)) => match linear_of(m, m.arg(t, k - 1), one(), LinearView::just(zero())) {
                None => None,
                Some(f) => if f.terms.len() == 0 {
                    match product_of(c, f.constant) {
                        None => None,
                        Some(p) => Some((p, factor)),
                    }
                } else {
                    match factor {
                        None => Some((c, Some(f))),
                        Some(_) => None,
                    }
                },
            },
        }
    }
}

/// An assignment of numbers to the terms that linear forms treat as unknowns.
pub type Valuation = spec_fn(TermId) -> real;

/// The number that an arithmetic term denotes.
pub open spec fn number(m: &TermManager, v: Valuation, t: TermId) -> real
    decreases t, m.args(t).len() + 1,
{
    match m.op(t) {
        Op::IntConst { negative } => signed(negative, m.terms@[t as int].digits@) as real,
        Op::RealConst { numer, denom } => numer as real / denom as real,
        Op::BitVecConst { width } => signed(false, m.terms@[t as int].digits@) as real,
        Op::Add => sum_value(m, v, t, m.args(t).len() as int),
        Op::Mul => product_value(m, v, t, m.args(t).len() as int),
        Op::Sub => if m.arg(t, 0) < t && m.arg(t, 1) < t {
            number(m, v, m.arg(t, 0)) - number(m, v, m.arg(t, 1))
        } else {
            v(t)
        },
        Op::Neg => if m.arg(t, 0) < t {
            -number(m, v, m.arg(t, 0))
        } else {
            v(t)
        },
        _ => v(t),
    }
}

/// The sum of what the first `k` arguments denote.
pub open spec fn sum_value(m: &TermManager, v: Valuation, t: TermId, k: int) -> real
    decreases t, k,
{
    if k <= 0 || m.arg(t, k - 1) >= t {
        0real
    } else {
        sum_value(m, v, t, k - 1) + number(m, v, m.arg(t, k - 1))
    }
}

/// The product of what the first `k` arguments denote.
pub open spec fn product_value(m: &TermManager, v: Valuation, t: TermId, k: int) -> real
    decreases t, k,
{
    if k <= 0 || m.arg(t, k - 1) >= t {
        1real
    } else {
        product_value(m, v, t, k - 1) * number(m, v, m.arg(t, k - 1))
    }
}

/// The sum of the first `k` scaled terms.
pub open spec fn terms_value(v: Valuation, terms: Seq<(TermId, Rat)>, k: int) -> real
    decreases k,
{
    if k <= 0 {
        0real
    } else {
        terms_value(v, terms, k - 1) + terms[k - 1].1.val() * v(terms[k - 1].0)
    }
}

/// The number that a linear form denotes.
pub open spec fn linear_value(v: Valuation, f: LinearView) -> real {
    terms_value(v, f.terms, f.terms.len() as int) + f.constant.val()
}

/// The value of a numeric constant of 128 bits.
pub fn constant_value(m: &TermManager, t: TermId) -> (r: Option<Rat>)
    requires
        m.wf(),
        m.has(t),
    ensures
        r == constant_of(m, t),
        r matches Some(q) ==> q.wf(),
        r matches Some(q) ==> forall|v: Valuation| q.val() == #[trigger] number(m, v, t),
{
    match m.terms[t].op {
        Op::IntConst { negative } => match to_i128(negative, &m.terms[t].digits) {
            Some(v) => Some(Rat::from_integer(v)),
            None => None,
        },
        Op::RealConst { numer, denom } => Some(Rat { numer: numer as i128, denom: denom as i128 }),
        Op::BitVecConst { width: _ } => match to_i128(false, &m.terms[t].digits) {
            Some(v) => Some(Rat::from_integer(v)),
            None => None,
        },
        _ => None,
    }
}

/// Adds `scale * t` to `acc`; nothing where `t` is not linear or a coefficient leaves the range
/// of the rationals.
pub fn extract_linear_terms(m: &TermManager, t: TermId, scale: Rat, acc: Linear) -> (r: Option<Linear>)
    requires
        m.wf(),
        scale.wf(),
        acc@.wf(),
    ensures
        r is Some <==> linear_of(m, t, scale, acc@) is Some,
        r matches Some(f) ==> f@.wf() && linear_of(m, t, scale, acc@) == Some(f@),
        r matches Some(f) ==> forall|v: Valuation| #[trigger] linear_value(v, f@) == linear_value(v, acc@) + scale.val() * number(m, v, t),
    decreases t,
{
    if t >= m.terms.len() {
        return None;
    }
    assert(m.terms@[t as int].fits(t as int));
    match m.terms[t].op {
        Op::IntConst { negative: _ } | Op::RealConst { numer: _, denom: _ } | Op::BitVecConst { width: _ } => {
            match constant_value(m, t) {
                Some(c) => extend_constant(acc, scale, c),
                None => None,
            }
        },
        Op::Var(_) | Op::Apply(_) | Op::Select => {
            let sort: usize = m.terms[t].sort;
            let variable = match m.terms[t].op {
                Op::Var(_) => true,
                _ => false,
            };
            if variable || sort == INT_SORT || sort == REAL_SORT {
                let mut out = acc;
                out.terms.push((t, scale));
                proof {
                    assert forall|v: Valuation| #[trigger] linear_value(v, out@) == linear_value(v, acc@) + scale.val() * number(
                        m,
                        v,
                        t,
                    ) by {
                        lemma_push_value(v, acc@, t, scale);
                    }
                }
                Some(out)
            } else {
                None
            }
        },
        Op::Add => {
            let mut out = acc;
            let n: usize = m.terms[t].args.len();
            let mut i: usize = 0;
            while i < n
                invariant
                    i <= n,
                    m.wf(),
                    m.has(t),
                    scale.wf(),
                    out@.wf(),
                    n == m.args(t).len(),
                    m.op(t) == Op::Add,
                    m.terms@[t as int].fits(t as int),
                    linear_sum(m, t, i as int, scale, acc@) == Some(out@),
                    forall|v: Valuation| #[trigger] linear_value(v, out@) == linear_value(v, acc@) + scale.val() * sum_value(m, v, t, i as int),
                decreases n - i,
            {
                let a: usize = m.terms[t].args[i];
                match extract_linear_terms(m, a, scale, out) {
                    Some(f) => {
                        proof {
                            let k: real = scale.val();
                            assert forall|v: Valuation| #[trigger] linear_value(v, f@) == linear_value(v, acc@) + k * sum_value(
                                m,
                                v,
                                t,
                                i + 1,
                            ) by {
                                let s: real = sum_value(m, v, t, i as int);
                                let x: real = number(m, v, a);
                                assert(linear_value(v, out@) == linear_value(v, acc@) + k * s);
                                assert(k * (s + x) == k * s + k * x) by (nonlinear_arith);
                            }
                        }
                        out = f;
                    },
                    None => {
                        proof {
                            lemma_sum_fails(m, t, i + 1, n as int, scale, acc@);
                        }
                        return None;
                    },
                }
                i = i + 1;
            }
            Some(out)
        },
        Op::Sub => {
            let a: usize = m.terms[t].args[0];
            let b: usize = m.terms[t].args[1];
            match extract_linear_terms(m, a, scale, acc) {
                Some(f) => match negation(scale) {
                    Some(n) => {
                        let r = extract_linear_terms(m, b, n, f);
                        proof {
                            let k: real = scale.val();
                            assert forall|v: Valuation| r is Some implies #[trigger] linear_value(v, r->Some_0@) == linear_value(
                                v,
                                acc@,
                            ) + k * number(m, v, t) by {
                                let x: real = number(m, v, a);
                                let y: real = number(m, v, b);
                                assert(linear_value(v, f@) == linear_value(v, acc@) + k * x);
                                assert(k * x + (-k) * y == k * (x - y)) by (nonlinear_arith);
                            }
                        }
                        r
                    },
                    None => None,
                },
                None => None,
            }
        },
        Op::Neg => {
            let a: usize = m.terms[t].args[0];
            match negation(scale) {
                Some(n) => {
                    let r = extract_linear_terms(m, a, n, acc);
                    proof {
                        let k: real = scale.val();
                        assert forall|v: Valuation| r is Some implies #[trigger] linear_value(v, r->Some_0@) == linear_value(
                            v,
                            acc@,
                        ) + k * number(m, v, t) by {
                            let x: real = number(m, v, a);
                            assert((-k) * x == k * (-x)) by (nonlinear_arith);
                        }
                    }
                    r
                },
                None => None,
            }
        },
        Op::Mul => {
            let n: usize = m.terms[t].args.len();
            let mut c: Rat = Rat::from_integer(1);
            let mut factor: Option<Linear> = None;
            assert forall|v: Valuation| #[trigger] product_value(m, v, t, 0) == c.val() * factor_value(v, opt_linear(factor)) by {
                assert(1real * 1real == 1real) by (nonlinear_arith);
            }
            let mut i: usize = 0;
            while i < n
                invariant
                    i <= n,
                    m.wf(),
                    m.has(t),
                    c.wf(),
                    n == m.args(t).len(),
                    m.op(t) == Op::Mul,
                    m.terms@[t as int].fits(t as int),
                    factor matches Some(f) ==> f@.wf(),
                    linear_product(m, t, i as int) == Some((c, opt_linear(factor))),
                    forall|v: Valuation| #[trigger] product_value(m, v, t, i as int) == c.val() * factor_value(v, opt_linear(factor)),
                decreases n - i,
            {
                let a: usize = m.terms[t].args[i];
                let start = Linear { terms: Vec::new(), constant: Rat::from_integer(0) };
                assert(start@ =~= LinearView::just(zero()));
                match extract_linear_terms(m, a, Rat::from_integer(1), start) {
                    Some(f) => {
                        proof {
                            assert forall|v: Valuation| #[trigger] product_value(m, v, t, i + 1) == c.val() * factor_value(
                                v,
                                opt_linear(factor),
                            ) * linear_value(v, f@) by {
                                let x: real = number(m, v, a);
                                assert(linear_value(v, f@) == linear_value(v, LinearView::just(zero())) + 1real * x);
                                crate::rational::lemma_zero(zero());
                                assert(1real * x == x) by (nonlinear_arith);
                                assert(product_value(m, v, t, i as int) == c.val() * factor_value(v, opt_linear(factor)));
                            }
                        }
                        if f.terms.len() == 0 {
                            match product(c, f.constant) {
                                Some(p) => {
                                    proof {
                                        let k: real = c.val();
                                        let q: real = f.constant.val();
                                        assert forall|v: Valuation| #[trigger] product_value(m, v, t, i + 1) == p.val()
                                            * factor_value(v, opt_linear(factor)) by {
                                            let y: real = factor_value(v, opt_linear(factor));
                                            assert(linear_value(v, f@) == q);
                                            assert(k * y * q == (k * q) * y) by (nonlinear_arith);
                                        }
                                    }
                                    c = p;
                                },
                                None => {
                                    proof {
                                        lemma_product_fails(m, t, i + 1, n as int);
                                    }
                                    return None;
                                },
                            }
                        } else if factor.is_none() {
                            proof {
                                let k: real = c.val();
                                assert forall|v: Valuation| #[trigger] product_value(m, v, t, i + 1) == k * factor_value(v, Some(f@)) by {
                                    let x: real = linear_value(v, f@);
                                    assert(k * 1real * x == k * x) by (nonlinear_arith);
                                }
                            }
                            factor = Some(f);
                        } else {
                            proof {
                                lemma_product_fails(m, t, i + 1, n as int);
                            }
                            return None;
                        }
                    },
                    None => {
                        proof {
                            lemma_product_fails(m, t, i + 1, n as int);
                        }
                        return None;
                    },
                }
                i = i + 1;
            }
            match product(scale, c) {
                Some(s) => match factor {
                    Some(f) => match append_terms(acc, &f.terms, s) {
                        Some(a) => {
                            let r = extend_constant(a, s, f.constant);
                            proof {
                                let k: real = scale.val();
                                let q: real = c.val();
                                assert forall|v: Valuation| r is Some implies #[trigger] linear_value(v, r->Some_0@) == linear_value(
                                    v,
                                    acc@,
                                ) + k * number(m, v, t) by {
                                    let x: real = terms_value(v, f.terms@, f.terms@.len() as int);
                                    let y: real = f.constant.val();
                                    assert(linear_value(v, a@) == linear_value(v, acc@) + (k * q) * x);
                                    assert(product_value(m, v, t, n as int) == q * (x + y));
                                    assert((k * q) * x + (k * q) * y == k * (q * (x + y))) by (nonlinear_arith);
                                }
                            }
                            r
                        },
                        None => None,
                    },
                    None => match sum(acc.constant, s) {
                        Some(k) => {
                            let r = Linear { terms: acc.terms, constant: k };
                            proof {
                                assert forall|v: Valuation| #[trigger] linear_value(v, r@) == linear_value(v, acc@) + scale.val()
                                    * number(m, v, t) by {
                                    let q: real = c.val();
                                    assert(product_value(m, v, t, n as int) == q * 1real);
                                    assert(q * 1real == q) by (nonlinear_arith);
                                }
                            }
                            Some(r)
                        },
                        None => None,
                    },
                },
                None => None,
            }
        },
        _ => None,
    }
}

/// The number that an optional factor contributes to a product.
pub open spec fn factor_value(v: Valuation, f: Option<LinearView>) -> real {
    match f {
        Some(l) => linear_value(v, l),
        None => 1real,
    }
}

/// What one more term adds to a linear form.
proof fn lemma_push_value(v: Valuation, f: LinearView, t: TermId, coef: Rat)
    ensures
        linear_value(v, f.plus_term(t, coef)) == linear_value(v, f) + coef.val() * v(t),
{
    let g = f.plus_term(t, coef);
    lemma_terms_prefix(v, f.terms, g.terms, f.terms.len() as int);
}

/// A sum of scaled terms depends only on the terms that it runs over.
proof fn lemma_terms_prefix(v: Valuation, a: Seq<(TermId, Rat)>, b: Seq<(TermId, Rat)>, k: int)
    requires
        forall|i: int| 0 <= i < k ==> a[i] == b[i],
    ensures
        terms_value(v, a, k) == terms_value(v, b, k),
    decreases k,
{
    if k > 0 {
        lemma_terms_prefix(v, a, b, k - 1);
    }
}

/// The content of an optional linear form.
pub open spec fn opt_linear(f: Option<Linear>) -> Option<LinearView> {
    match f {
        Some(l) => Some(l@),
        None => None,
    }
}

/// Adds `scale * c` to the constant of `acc`.
fn extend_constant(acc: Linear, scale: Rat, c: Rat) -> (r: Option<Linear>)
    requires
        acc@.wf(),
        scale.wf(),
        c.wf(),
    ensures
        opt_linear(r) == add_scaled(acc@, scale, c),
        r matches Some(f) ==> f@.wf(),
        r matches Some(f) ==> forall|v: Valuation| #[trigger] linear_value(v, f@) == linear_value(v, acc@) + scale.val() * c.val(),
{
    match product(scale, c) {
        Some(p) => match sum(acc.constant, p) {
            Some(s) => Some(Linear { terms: acc.terms, constant: s }),
            None => None,
        },
        None => None,
    }
}

/// Appends `scale` times each term to `acc`.
fn append_terms(acc: Linear, terms: &Vec<(TermId, Rat)>, scale: Rat) -> (r: Option<Linear>)
    requires
        acc@.wf(),
        scale.wf(),
        forall|i: int| 0 <= i < terms@.len() ==> (#[trigger] terms@[i]).1.wf(),
    ensures
        opt_linear(r) == append_scaled(acc@, terms@, scale, terms@.len() as int),
        r matches Some(f) ==> f@.wf(),
        r matches Some(f) ==> forall|v: Valuation| #[trigger] linear_value(v, f@) == linear_value(v, acc@) + scale.val() * terms_value(v, terms@, terms@.len() as int),
{
    let mut out = acc;
    let mut i: usize = 0;
    while i < terms.len()
        invariant
            i <= terms.len(),
            out@.wf(),
            scale.wf(),
            forall|i: int| 0 <= i < terms@.len() ==> (#[trigger] terms@[i]).1.wf(),
            append_scaled(acc@, terms@, scale, i as int) == Some(out@),
            forall|v: Valuation| #[trigger] linear_value(v, out@) == linear_value(v, acc@) + scale.val() * terms_value(v, terms@, i as int),
        decreases terms.len() - i,
    {
        assert(terms@[i as int].1.wf());
        match product(scale, terms[i].1) {
            Some(c) => {
                let ghost before = out@;
                out.terms.push((terms[i].0, c));
                proof {
                    let k: real = scale.val();
                    let q: real = terms@[i as int].1.val();
                    assert forall|v: Valuation| #[trigger] linear_value(v, out@) == linear_value(v, acc@) + k * terms_value(
                        v,
                        terms@,
                        i + 1,
                    ) by {
                        let s: real = terms_value(v, terms@, i as int);
                        let x: real = v(terms@[i as int].0);
                        lemma_push_value(v, before, terms@[i as int].0, c);
                        assert(linear_value(v, before) == linear_value(v, acc@) + k * s);
                        assert(k * (s + q * x) == k * s + (k * q) * x) by (nonlinear_arith);
                    }
                }
            },
            None => {
                proof {
                    lemma_append_fails(acc@, terms@, scale, i + 1, terms@.len() as int);
                }
                return None;
            },
        }
        i = i + 1;
    }
    Some(out)
}

/// A sum that fails on a prefix of the arguments fails.
proof fn lemma_sum_fails(m: &TermManager, t: TermId, i: int, n: int, scale: Rat, acc: LinearView)
    requires
        i <= n,
        linear_sum(m, t, i, scale, acc) is None,
    ensures
        linear_sum(m, t, n, scale, acc) is None,
    decreases n - i,
{
    if i < n {
        lemma_sum_fails(m, t, i, n - 1, scale, acc);
    }
}

/// A product that fails on a prefix of the arguments fails.
proof fn lemma_product_fails(m: &TermManager, t: TermId, i: int, n: int)
    requires
        i <= n,
        linear_product(m, t, i) is None,
    ensures
        linear_product(m, t, n) is None,
    decreases n - i,
{
    if i < n {
        lemma_product_fails(m, t, i, n - 1);
    }
}

/// An expansion that fails on a prefix of the terms fails.
proof fn lemma_append_fails(acc: LinearView, f: Seq<(TermId, Rat)>, scale: Rat, i: int, n: int)
    requires
        i <= n,
        append_scaled(acc, f, scale, i) is None,
    ensures
        append_scaled(acc, f, scale, n) is None,
    decreases n - i,
{
    if i < n {
        lemma_append_fails(acc, f, scale, i, n - 1);
    }
}


/// How the two sides of a parsed comparison relate.
#[derive(Clone, Copy, Debug, PartialEq, Eq, Structural)]
pub enum ArithConstraintType {
    Lt,
    Le,
    Gt,
    Ge,
}

/// A comparison `c_1 * t_1 + ... + c_n * t_n OP constant`.
#[derive(Debug)]
pub struct ParsedArithConstraint {
    pub terms: Vec<(TermId, Rat)>,
    pub constant: Rat,
    pub constraint_type: ArithConstraintType,
    pub reason_term: TermId,
}

/// `acc` with `coef * t` added: to the entry of `t` if it has one, else as a new entry.
pub open spec fn merge_term(acc: Seq<(TermId, Rat)>, t: TermId, coef: Rat, i: int) -> Option<Seq<(TermId, Rat)>>
    decreases acc.len() - i,
{
    if i >= acc.len() {
        Some(acc.push((t, coef)))
    } else if acc[i].0 == t {
        match sum_of(acc[i].1, coef) {
            Some(c) => Some(acc.update(i, (t, c))),
            None => None,
        }
    } else {
        merge_term(acc, t, coef, i + 1)
    }
}

/// The first `k` terms with like terms combined.
pub open spec fn combine(terms: Seq<(TermId, Rat)>, k: int) -> Option<Seq<(TermId, Rat)>>
    decreases k,
{
    if k <= 0 {
        Some(Seq::empty())
    } else {
        match combine(terms, k - 1) {
            Some(acc) => merge_term(acc, terms[k - 1].0, terms[k - 1].1, 0),
            None => None,
        }
    }
}

/// The first `k` terms without those whose coefficient is zero.
pub open spec fn nonzero(terms: Seq<(TermId, Rat)>, k: int) -> Seq<(TermId, Rat)>
    decreases k,
{
    if k <= 0 {
        Seq::empty()
    } else if terms[k - 1].1.numer == 0 {
        nonzero(terms, k - 1)
    } else {
        nonzero(terms, k - 1).push(terms[k - 1])
    }
}

/// The difference `lhs - rhs` as a linear form.
pub open spec fn difference_form(m: &TermManager, lhs: TermId, rhs: TermId) -> Option<LinearView> {
    match linear_of(m, lhs, one(), LinearView::just(zero())) {
        Some(f) => linear_of(m, rhs, Rat { numer: -1i128, denom: 1 }, f),
        None => None,
    }
}

/// The terms and the constant of the comparison of `lhs` with `rhs`.
pub open spec fn comparison_of(m: &TermManager, lhs: TermId, rhs: TermId) -> Option<(Seq<(TermId, Rat)>, Rat)> {
    match difference_form(m, lhs, rhs) {
        None => None,
        Some(f) => match combine(f.terms, f.terms.len() as int) {
            None => None,
            Some(c) => match negation_of(f.constant) {
                None => None,
                Some(k) => Some((nonzero(c, c.len() as int), k)),
            },
        },
    }
}

/// The scaled terms without the constant say by how much the one term exceeds the other, whatever
/// the unknowns are.
#[verifier::opaque]
pub open spec fn measures(m: &TermManager, lhs: TermId, rhs: TermId, terms: Seq<(TermId, Rat)>, constant: Rat) -> bool {
    forall|v: Valuation| #[trigger]
        terms_value(v, terms, terms.len() as int) - constant.val() == number(m, v, lhs) - number(m, v, rhs)
}

/// What is measured under one valuation.
pub proof fn lemma_measures(m: &TermManager, v: Valuation, lhs: TermId, rhs: TermId, terms: Seq<(TermId, Rat)>, constant: Rat)
    requires
        measures(m, lhs, rhs, terms, constant),
    ensures
        terms_value(v, terms, terms.len() as int) - constant.val() == number(m, v, lhs) - number(m, v, rhs),
{
    reveal(measures);
}

/// No unknown occurs twice.
pub open spec fn distinct_unknowns(terms: Seq<(TermId, Rat)>) -> bool {
    forall|i: int, j: int| 0 <= i < j < terms.len() ==> (#[trigger] terms[i]).0 != (#[trigger] terms[j]).0
}

/// Every coefficient has a positive denominator.
pub open spec fn coefficients_wf(terms: Seq<(TermId, Rat)>) -> bool {
    forall|i: int| 0 <= i < terms.len() ==> (#[trigger] terms[i]).1.wf()
}

/// One entry of a sum of scaled terms changed by `d * v(t)` changes the sum by it.
proof fn lemma_update_value(v: Valuation, a: Seq<(TermId, Rat)>, i: int, e: (TermId, Rat), k: int)
    requires
        0 <= i < a.len(),
        k <= a.len(),
    ensures
        terms_value(v, a.update(i, e), k) == terms_value(v, a, k) + if i < k {
            e.1.val() * v(e.0) - a[i].1.val() * v(a[i].0)
        } else {
            0real
        },
    decreases k,
{
    if k > 0 {
        lemma_update_value(v, a, i, e, k - 1);
    }
}

/// Adds `coef * t` to a list of scaled terms: to the entry of `t` if it has one.
fn merge(acc: &mut Vec<(TermId, Rat)>, t: TermId, coef: Rat) -> (ok: bool)
    requires
        coef.wf(),
        coefficients_wf(old(acc)@),
        distinct_unknowns(old(acc)@),
    ensures
        ok <==> merge_term(old(acc)@, t, coef, 0) is Some,
        ok ==> merge_term(old(acc)@, t, coef, 0) == Some(final(acc)@),
        ok ==> coefficients_wf(final(acc)@) && distinct_unknowns(final(acc)@),
        ok ==> forall|v: Valuation| #[trigger] terms_value(v, final(acc)@, final(acc)@.len() as int) == terms_value(v, old(acc)@, old(acc)@.len() as int) + coef.val() * v(t),
{
    let mut i: usize = 0;
    while i < acc.len()
        invariant
            i <= acc.len(),
            acc@ == old(acc)@,
            coef.wf(),
            coefficients_wf(acc@),
            distinct_unknowns(acc@),
            forall|k: int| 0 <= k < i ==> (#[trigger] acc@[k]).0 != t,
            merge_term(old(acc)@, t, coef, 0) == merge_term(acc@, t, coef, i as int),
        decreases acc.len() - i,
    {
        if acc[i].0 == t {
            assert(acc@[i as int].1.wf());
            match sum(acc[i].1, coef) {
                Some(c) => {
                    acc.set(i, (t, c));
                    proof {
                        assert forall|v: Valuation| #[trigger] terms_value(v, acc@, acc@.len() as int) == terms_value(
                            v,
                            old(acc)@,
                            old(acc)@.len() as int,
                        ) + coef.val() * v(t) by {
                            lemma_update_value(v, old(acc)@, i as int, (t, c), acc@.len() as int);
                            let p: real = old(acc)@[i as int].1.val();
                            let q: real = coef.val();
                            let x: real = v(t);
                            assert((p + q) * x - p * x == q * x) by (nonlinear_arith);
                        }
                    }
                    return true;
                },
                None => {
                    return false;
                },
            }
        }
        i = i + 1;
    }
    acc.push((t, coef));
    proof {
        assert forall|v: Valuation| #[trigger] terms_value(v, acc@, acc@.len() as int) == terms_value(
            v,
            old(acc)@,
            old(acc)@.len() as int,
        ) + coef.val() * v(t) by {
            lemma_terms_prefix(v, old(acc)@, acc@, old(acc)@.len() as int);
        }
    }
    true
}

/// A combination that fails on a prefix fails.
proof fn lemma_combine_fails(terms: Seq<(TermId, Rat)>, i: int, n: int)
    requires
        i <= n,
        combine(terms, i) is None,
    ensures
        combine(terms, n) is None,
    decreases n - i,
{
    if i < n {
        lemma_combine_fails(terms, i, n - 1);
    }
}

/// The entries that survive are among the given ones, in their order.
proof fn lemma_nonzero(v: Valuation, terms: Seq<(TermId, Rat)>, k: int)
    requires
        0 <= k <= terms.len(),
        coefficients_wf(terms),
        distinct_unknowns(terms),
    ensures
        terms_value(v, nonzero(terms, k), nonzero(terms, k).len() as int) == terms_value(v, terms, k),
        coefficients_wf(nonzero(terms, k)),
        distinct_unknowns(nonzero(terms, k)),
        forall|i: int| 0 <= i < nonzero(terms, k).len() ==> (#[trigger] nonzero(terms, k)[i]).1.numer != 0,
        forall|i: int| 0 <= i < nonzero(terms, k).len() ==> exists|j: int| 0 <= j < k && terms[j] == #[trigger] nonzero(terms, k)[i],
    decreases k,
{
    if k > 0 {
        lemma_nonzero(v, terms, k - 1);
        let before = nonzero(terms, k - 1);
        if terms[k - 1].1.numer == 0 {
            crate::rational::lemma_zero(terms[k - 1].1);
            let x: real = v(terms[k - 1].0);
            assert(0real * x == 0real) by (nonlinear_arith);
        } else {
            let after = before.push(terms[k - 1]);
            lemma_terms_prefix(v, before, after, before.len() as int);
            assert forall|i: int| 0 <= i < after.len() implies exists|j: int| 0 <= j < k && terms[j] == #[trigger] after[i] by {
                if i < before.len() {
                    let j = choose|j: int| 0 <= j < k - 1 && terms[j] == before[i];
                    assert(terms[j] == after[i]);
                } else {
                    assert(terms[k - 1] == after[i]);
                }
            }
            assert forall|i: int, j: int| 0 <= i < j < after.len() implies (#[trigger] after[i]).0 != (#[trigger] after[j]).0 by {
                if j == before.len() {
                    let h = choose|h: int| 0 <= h < k - 1 && terms[h] == before[i];
                    assert(terms[h].0 != terms[k - 1].0);
                }
            }
        }
    }
}

/// Parses the comparison of two terms into linear form, with the unknowns on the left and the
/// constant on the right; nothing where a side is not linear or a number leaves the range of the
/// rationals.
pub fn parse_arith_comparison(
    m: &TermManager,
    lhs: TermId,
    rhs: TermId,
    constraint_type: ArithConstraintType,
    reason: TermId,
) -> (r: Option<ParsedArithConstraint>)
    requires
        m.wf(),
    ensures
        r is Some <==> comparison_of(m, lhs, rhs) is Some,
        r matches Some(p) ==> comparison_of(m, lhs, rhs) == Some((p.terms@, p.constant)),
        r matches Some(p) ==> p.constraint_type == constraint_type && p.reason_term == reason,
        r matches Some(p) ==> coefficients_wf(p.terms@) && p.constant.wf() && distinct_unknowns(p.terms@),
        r matches Some(p) ==> forall|i: int| 0 <= i < p.terms@.len() ==> (#[trigger] p.terms@[i]).1.numer != 0,
        r matches Some(p) ==> forall|v: Valuation| #[trigger] terms_value(v, p.terms@, p.terms@.len() as int) - p.constant.val() == number(m, v, lhs) - number(m, v, rhs),
        r matches Some(p) ==> measures(m, lhs, rhs, p.terms@, p.constant),
{
    let start = Linear { terms: Vec::new(), constant: Rat::from_integer(0) };
    assert(start@ =~= LinearView::just(zero()));
    let left = match extract_linear_terms(m, lhs, Rat::from_integer(1), start) {
        Some(f) => f,
        None => {
            return None;
        },
    };
    let whole = match extract_linear_terms(m, rhs, Rat::from_integer(-1), left) {
        Some(f) => f,
        None => {
            return None;
        },
    };
    assert forall|v: Valuation| #[trigger] linear_value(v, whole@) == number(m, v, lhs) - number(m, v, rhs) by {
        let x: real = number(m, v, lhs);
        let y: real = number(m, v, rhs);
        crate::rational::lemma_zero(zero());
        assert(linear_value(v, left@) == 0real + 1real * x);
        assert(1real * x + (-1real) * y == x - y) by (nonlinear_arith);
        assert((-1int) as real == -1real);
    }
    let mut combined: Vec<(TermId, Rat)> = Vec::new();
    let mut i: usize = 0;
    while i < whole.terms.len()
        invariant
            i <= whole.terms.len(),
            whole@.wf(),
            difference_form(m, lhs, rhs) == Some(whole@),
            coefficients_wf(combined@),
            distinct_unknowns(combined@),
            combine(whole.terms@, i as int) == Some(combined@),
            forall|v: Valuation| #[trigger] terms_value(v, combined@, combined@.len() as int) == terms_value(v, whole.terms@, i as int),
        decreases whole.terms.len() - i,
    {
        assert(whole@.terms[i as int].1.wf());
        let ghost before = combined@;
        if !merge(&mut combined, whole.terms[i].0, whole.terms[i].1) {
            proof {
                lemma_combine_fails(whole.terms@, i + 1, whole.terms@.len() as int);
            }
            return None;
        }
        proof {
            assert forall|v: Valuation| #[trigger] terms_value(v, combined@, combined@.len() as int) == terms_value(
                v,
                whole.terms@,
                i + 1,
            ) by {
                assert(terms_value(v, before, before.len() as int) == terms_value(v, whole.terms@, i as int));
            }
        }
        i = i + 1;
    }
    let mut terms: Vec<(TermId, Rat)> = Vec::new();
    let mut j: usize = 0;
    while j < combined.len()
        invariant
            j <= combined.len(),
            terms@ == nonzero(combined@, j as int),
        decreases combined.len() - j,
    {
        if combined[j].1.numer != 0 {
            terms.push(combined[j]);
        }
        j = j + 1;
    }
    let constant = match negation(whole.constant) {
        Some(c) => c,
        None => {
            return None;
        },
    };
    proof {
        lemma_nonzero(|t: TermId| 0real, combined@, combined@.len() as int);
        assert forall|v: Valuation| #[trigger] terms_value(v, terms@, terms@.len() as int) - constant.val() == number(m, v, lhs)
            - number(m, v, rhs) by {
            lemma_nonzero(v, combined@, combined@.len() as int);
            assert(terms_value(v, combined@, combined@.len() as int) == terms_value(v, whole.terms@, whole.terms@.len() as int));
            assert(linear_value(v, whole@) == number(m, v, lhs) - number(m, v, rhs));
        }
        reveal(measures);
    }
    Some(ParsedArithConstraint { terms, constant, constraint_type, reason_term: reason })
}

/// The linear form of a term does not change when its store grows.
pub proof fn lemma_linear_extends(m: &TermManager, later: &TermManager, t: TermId, scale: Rat, acc: LinearView)
    requires
        m.wf(),
        later.wf(),
        m.extended_by(later),
        m.has(t),
    ensures
        linear_of(m, t, scale, acc) == linear_of(later, t, scale, acc),
    decreases t, m.args(t).len() + 1,
{
    assert(later.terms@[t as int] == m.terms@[t as int]);
    assert(m.terms@[t as int].fits(t as int));
    assert(later.args(t) == m.args(t));
    match m.op(t) {
        Op::Add => {
            lemma_linear_sum_extends(m, later, t, m.args(t).len() as int, scale, acc);
        },
        Op::Mul => {
            lemma_linear_product_extends(m, later, t, m.args(t).len() as int);
        },
        Op::Sub => {
            lemma_linear_extends(m, later, m.arg(t, 0), scale, acc);
            match linear_of(m, m.arg(t, 0), scale, acc) {
                None => {},
                Some(a) => match negation_of(scale) {
                    None => {},
                    Some(n) => {
                        lemma_linear_extends(m, later, m.arg(t, 1), n, a);
                    },
                },
            }
        },
        Op::Neg => match negation_of(scale) {
            None => {},
            Some(n) => {
                lemma_linear_extends(m, later, m.arg(t, 0), n, acc);
            },
        },
        _ => {},
    }
}

proof fn lemma_linear_sum_extends(m: &TermManager, later: &TermManager, t: TermId, k: int, scale: Rat, acc: LinearView)
    requires
        m.wf(),
        later.wf(),
        m.extended_by(later),
        m.has(t),
        k <= m.args(t).len(),
    ensures
        linear_sum(m, t, k, scale, acc) == linear_sum(later, t, k, scale, acc),
    decreases t, k,
{
    assert(later.terms@[t as int] == m.terms@[t as int]);
    assert(m.terms@[t as int].fits(t as int));
    if k > 0 {
        lemma_linear_sum_extends(m, later, t, k - 1, scale, acc);
        assert(m.arg(t, k - 1) < t);
        match linear_sum(m, t, k - 1, scale, acc) {
            None => {},
            Some(a) => {
                lemma_linear_extends(m, later, m.arg(t, k - 1), scale, a);
            },
        }
    }
}

proof fn lemma_linear_product_extends(m: &TermManager, later: &TermManager, t: TermId, k: int)
    requires
        m.wf(),
        later.wf(),
        m.extended_by(later),
        m.has(t),
        k <= m.args(t).len(),
    ensures
        linear_product(m, t, k) == linear_product(later, t, k),
    decreases t, k,
{
    assert(later.terms@[t as int] == m.terms@[t as int]);
    assert(m.terms@[t as int].fits(t as int));
    if k > 0 {
        lemma_linear_product_extends(m, later, t, k - 1);
        assert(m.arg(t, k - 1) < t);
        lemma_linear_extends(m, later, m.arg(t, k - 1), one(), LinearView::just(zero()));
    }
}

/// The parsed form of a comparison does not change when its store grows.
pub proof fn lemma_comparison_extends(m: &TermManager, later: &TermManager, lhs: TermId, rhs: TermId)
    requires
        m.wf(),
        later.wf(),
        m.extended_by(later),
        m.has(lhs),
        m.has(rhs),
    ensures
        comparison_of(m, lhs, rhs) == comparison_of(later, lhs, rhs),
{
    lemma_linear_extends(m, later, lhs, one(), LinearView::just(zero()));
    match linear_of(m, lhs, one(), LinearView::just(zero())) {
        Some(f) => {
            lemma_linear_extends(m, later, rhs, Rat { numer: -1i128, denom: 1 }, f);
        },
        None => {},
    }
}

/// What a term denotes does not change when its store grows.
pub proof fn lemma_number_extends(m: &TermManager, later: &TermManager, v: Valuation, t: TermId)
    requires
        m.wf(),
        m.extended_by(later),
        m.has(t),
    ensures
        number(m, v, t) == number(later, v, t),
    decreases t, m.args(t).len() + 1,
{
    assert(later.terms@[t as int] == m.terms@[t as int]);
    assert(m.terms@[t as int].fits(t as int));
    match m.op(t) {
        Op::Add | Op::Mul => {
            lemma_sum_extends(m, later, v, t, m.args(t).len() as int);
        },
        Op::Sub => {
            lemma_number_extends(m, later, v, m.arg(t, 0));
            lemma_number_extends(m, later, v, m.arg(t, 1));
        },
        Op::Neg => {
            lemma_number_extends(m, later, v, m.arg(t, 0));
        },
        _ => {},
    }
}

/// Sums and products do not change when the store grows.
proof fn lemma_sum_extends(m: &TermManager, later: &TermManager, v: Valuation, t: TermId, k: int)
    requires
        m.wf(),
        m.extended_by(later),
        m.has(t),
        k <= m.args(t).len(),
    ensures
        sum_value(m, v, t, k) == sum_value(later, v, t, k),
        product_value(m, v, t, k) == product_value(later, v, t, k),
    decreases t, k,
{
    assert(later.terms@[t as int] == m.terms@[t as int]);
    assert(m.terms@[t as int].fits(t as int));
    if k > 0 {
        lemma_sum_extends(m, later, v, t, k - 1);
        assert(m.arg(t, k - 1) < t);
        lemma_number_extends(m, later, v, m.arg(t, k - 1));
    }
}

/// What is measured stays so when the store grows.
pub proof fn lemma_measures_extends(
    m: &TermManager,
    later: &TermManager,
    lhs: TermId,
    rhs: TermId,
    terms: Seq<(TermId, Rat)>,
    constant: Rat,
)
    requires
        m.wf(),
        m.extended_by(later),
        m.has(lhs),
        m.has(rhs),
        measures(m, lhs, rhs, terms, constant),
    ensures
        measures(later, lhs, rhs, terms, constant),
{
    reveal(measures);
    assert forall|v: Valuation| #[trigger] terms_value(v, terms, terms.len() as int) - constant.val() == number(later, v, lhs) - number(
        later,
        v,
        rhs,
    ) by {
        lemma_number_extends(m, later, v, lhs);
        lemma_number_extends(m, later, v, rhs);
    }
}

} // verus!
