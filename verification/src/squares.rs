//! Refutation of conjunctions that speak of the square of one variable.
use crate::bounds::conjuncts_hold;
use crate::bounds::extract_rational_const;
use crate::bounds::literal_of;
use crate::linear::number;
use crate::linear::one;
use crate::linear::product_value;
use crate::linear::sum_value;
use crate::linear::Valuation;
use crate::numeral::signed;
use crate::numeral::to_i128;
use crate::rational::less;
use crate::rational::negation;
use crate::rational::negation_of;
use crate::rational::product;
use crate::rational::product_of;
use crate::rational::quotient;
use crate::rational::quotient_of;
use crate::rational::Rat;
use crate::term::Op;
use crate::term::Rel;
use crate::term::TermId;
use crate::term::TermManager;
use crate::term::INT_SORT;
use crate::text::contains_text;
use crate::text::holds_text;
use vstd::prelude::*;

verus! {

/// A conjunct about the square of a variable, or about a variable.
#[derive(Clone, Copy, Debug)]
pub enum NlAtom {
    /// The square equals the number.
    SqEq { sq_term: TermId, val: Rat, is_integer_sort: bool },
    /// The square is positive.
    SqGtZero { sq_term: TermId },
    /// The square is not negative.
    SqGeZero { sq_term: TermId },
    /// `sq_coeff` times the square plus `linear_coeff` times a variable equals the number.
    SqPlusLinearEq { sq_term: TermId, sq_coeff: Rat, linear_var: TermId, linear_coeff: Rat, rhs: Rat },
    /// The variable is at least the bound.
    LinearGe { var: TermId, bound: Rat },
    /// The variable is above the bound.
    LinearGt { var: TermId, bound: Rat },
}

/// A comparison, strict or not.
#[derive(Clone, Copy, Debug, PartialEq, Eq, Structural)]
pub enum CompOp {
    Gt,
    Ge,
}

/// The number is the square of another.
pub open spec fn is_square(n: int) -> bool {
    exists|k: int| k >= 0 && #[trigger] (k * k) == n
}

/// Whether the number is the square of another.
pub fn is_perfect_square(n: u64) -> (r: bool)
    ensures
        r == is_square(n as int),
{
    let target: u128 = n as u128;
    let mut lo: u128 = 0;
    let mut hi: u128 = 0x1_0000_0000;
    assert(0x1_0000_0000int * 0x1_0000_0000int > u64::MAX);
    assert(0int * 0int == 0);
    while lo + 1 < hi
        invariant
            lo < hi <= 0x1_0000_0000,
            target == n as u128,
            lo * lo <= n < hi * hi,
        decreases hi - lo,
    {
        let mid: u128 = lo + (hi - lo) / 2;
        assert(mid * mid <= 0x1_0000_0000 * 0x1_0000_0000) by (nonlinear_arith)
            requires
                0 <= mid <= 0x1_0000_0000,
        ;
        if mid * mid <= target {
            lo = mid;
        } else {
            hi = mid;
        }
    }
    assert(lo * lo <= 0x1_0000_0000 * 0x1_0000_0000) by (nonlinear_arith)
        requires
            0 <= lo <= 0x1_0000_0000,
    ;
    proof {
        let l: int = lo as int;
        if l * l == n {
            assert(is_square(n as int));
        }
        if is_square(n as int) {
            let k = choose|k: int| k >= 0 && #[trigger] (k * k) == n as int;
            let h: int = hi as int;
            assert(k < h) by (nonlinear_arith)
                requires
                    k * k < h * h,
                    k >= 0,
                    h >= 0,
            ;
            assert(k >= l) by (nonlinear_arith)
                requires
                    l * l <= k * k,
                    k >= 0,
                    l >= 0,
            ;
        }
    }
    lo * lo == target
}

/// The value of a literal of 64 bits.
pub open spec fn plain_literal(m: &TermManager, t: TermId) -> Option<Rat> {
    match m.op(t) {
        Op::IntConst { negative } => {
            let v = signed(negative, m.terms@[t as int].digits@);
            if i64::MIN <= v <= i64::MAX {
                Some(Rat::whole(v as i128))
            } else {
                None
            }
        },
        Op::RealConst { numer, denom } => Some(Rat { numer: numer as i128, denom: denom as i128 }),
        _ => None,
    }
}

/// The first `k` factors of a product as a coefficient and a list of variables, if every factor is
/// a literal or a variable.
pub open spec fn factors_of(m: &TermManager, t: TermId, k: int) -> Option<(Rat, Seq<TermId>)>
    decreases k,
{
    if k <= 0 {
        Some((one(), Seq::empty()))
    } else {
        let a = m.arg(t, k - 1);
        match factors_of(m, t, k - 1) {
            None => None,
            Some((c, vars)) => match m.op(a) {
                Op::Var(_) => Some((c, vars.push(a))),
                _ => match plain_literal(m, a) {
                    Some(q) => match product_of(c, q) {
                        Some(p) => Some((p, vars)),
                        None => None,
                    },
                    None => None,
                },
            },
        }
    }
}

/// A list of factors that fails stays failed.
proof fn lemma_factors_fail(m: &TermManager, t: TermId, i: int, n: int)
    requires
        0 <= i <= n,
        factors_of(m, t, i) is None,
    ensures
        factors_of(m, t, n) is None,
    decreases n - i,
{
    if i < n {
        lemma_factors_fail(m, t, i + 1, n);
    }
}

/// The product of the values of the first `k` variables.
pub open spec fn vars_value(v: Valuation, vars: Seq<TermId>, k: int) -> real
    decreases k,
{
    if k <= 0 {
        1real
    } else {
        vars_value(v, vars, k - 1) * v(vars[k - 1])
    }
}

/// A product of values depends only on the variables that it runs over.
proof fn lemma_vars_prefix(v: Valuation, a: Seq<TermId>, b: Seq<TermId>, k: int)
    requires
        forall|i: int| 0 <= i < k ==> a[i] == b[i],
    ensures
        vars_value(v, a, k) == vars_value(v, b, k),
    decreases k,
{
    if k > 0 {
        lemma_vars_prefix(v, a, b, k - 1);
    }
}

/// The value of a literal of 64 bits.
fn literal_factor(m: &TermManager, t: TermId) -> (r: Option<Rat>)
    requires
        m.wf(),
        m.has(t),
    ensures
        r == plain_literal(m, t),
        r matches Some(q) ==> q.wf(),
        r matches Some(q) ==> forall|v: Valuation| q.val() == #[trigger] number(m, v, t),
{
    assert(m.terms@[t as int].fits(t as int));
    match m.terms[t].op {
        Op::IntConst { negative } => match to_i128(negative, &m.terms[t].digits) {
            Some(v) => if -0x8000_0000_0000_0000 <= v && v <= 0x7fff_ffff_ffff_ffff {
                Some(Rat::from_integer(v))
            } else {
                None
            },
            None => None,
        },
        Op::RealConst { numer, denom } => Some(Rat { numer: numer as i128, denom: denom as i128 }),
        _ => None,
    }
}

/// The factors of a product as a coefficient and a list of variables.
fn factors(m: &TermManager, t: TermId) -> (r: Option<(Rat, Vec<TermId>)>)
    requires
        m.wf(),
        m.has(t),
        m.op(t) == Op::Mul,
    ensures
        r is Some <==> factors_of(m, t, m.args(t).len() as int) is Some,
        r matches Some(f) ==> f.0.wf() && factors_of(m, t, m.args(t).len() as int) == Some((f.0, f.1@)),
        r matches Some(f) ==> forall|i: int| 0 <= i < f.1@.len() ==> m.has(#[trigger] f.1@[i]) && m.op(f.1@[i]) is Var,
        r matches Some(f) ==> forall|v: Valuation| #[trigger] number(m, v, t) == f.0.val() * vars_value(v, f.1@, f.1@.len() as int),
{
    assert(m.terms@[t as int].fits(t as int));
    let n: usize = m.terms[t].args.len();
    let mut c = Rat::from_integer(1);
    let mut vars: Vec<TermId> = Vec::new();
    let mut i: usize = 0;
    while i < n
        invariant
            i <= n,
            m.wf(),
            m.has(t),
            n == m.args(t).len(),
            m.op(t) == Op::Mul,
            m.terms@[t as int].fits(t as int),
            c.wf(),
            factors_of(m, t, i as int) == Some((c, vars@)),
            forall|i: int| 0 <= i < vars@.len() ==> m.has(#[trigger] vars@[i]) && m.op(vars@[i]) is Var,
            forall|v: Valuation| #[trigger] product_value(m, v, t, i as int) == c.val() * vars_value(v, vars@, vars@.len() as int),
        decreases n - i,
    {
        let a: usize = m.terms[t].args[i];
        assert(m.terms@[a as int].fits(a as int));
        let variable = match m.terms[a].op {
            Op::Var(_) => true,
            _ => false,
        };
        if variable {
            let ghost before = vars@;
            vars.push(a);
            proof {
                let k: real = c.val();
                assert forall|v: Valuation| #[trigger] product_value(m, v, t, i + 1) == k * vars_value(
                    v,
                    vars@,
                    vars@.len() as int,
                ) by {
                    lemma_vars_prefix(v, before, vars@, before.len() as int);
                    let s: real = vars_value(v, before, before.len() as int);
                    let x: real = v(a);
                    assert(product_value(m, v, t, i as int) == k * s);
                    assert(number(m, v, a) == x);
                    assert((k * s) * x == k * (s * x)) by (nonlinear_arith);
                }
            }
        } else {
            let q = match literal_factor(m, a) {
                Some(q) => q,
                None => {
                    proof {
                        lemma_factors_fail(m, t, i + 1, n as int);
                    }
                    return None;
                },
            };
            match product(c, q) {
                Some(p) => {
                    proof {
                        let k: real = c.val();
                        let x: real = q.val();
                        assert forall|v: Valuation| #[trigger] product_value(m, v, t, i + 1) == p.val() * vars_value(
                            v,
                            vars@,
                            vars@.len() as int,
                        ) by {
                            let s: real = vars_value(v, vars@, vars@.len() as int);
                            assert(product_value(m, v, t, i as int) == k * s);
                            assert(number(m, v, a) == x);
                            assert((k * s) * x == (k * x) * s) by (nonlinear_arith);
                        }
                    }
                    c = p;
                },
                None => {
                    proof {
                        lemma_factors_fail(m, t, i + 1, n as int);
                    }
                    return None;
                },
            }
        }
        i = i + 1;
    }
    proof {
        assert forall|v: Valuation| #[trigger] number(m, v, t) == c.val() * vars_value(v, vars@, vars@.len() as int) by {
            assert(product_value(m, v, t, n as int) == c.val() * vars_value(v, vars@, vars@.len() as int));
        }
    }
    Some((c, vars))
}

/// A product of literals and of one variable twice: the variable, the coefficient, and whether the
/// variable is an integer.
pub open spec fn pure_square_of(m: &TermManager, t: TermId) -> Option<(TermId, Rat, bool)> {
    if m.has(t) && m.op(t) == Op::Mul {
        match factors_of(m, t, m.args(t).len() as int) {
            Some((c, vars)) => if vars.len() == 2 && vars[0] == vars[1] {
                Some((vars[0], c, m.sort_of(vars[0]) == INT_SORT))
            } else {
                None
            },
            None => None,
        }
    } else {
        None
    }
}

/// A product of literals and of one variable twice.
pub fn extract_pure_square(m: &TermManager, t: TermId) -> (r: Option<(TermId, Rat, bool)>)
    requires
        m.wf(),
    ensures
        r == pure_square_of(m, t),
        r matches Some(s) ==> s.1.wf() && m.has(s.0) && m.op(s.0) is Var,
        r matches Some(s) ==> forall|v: Valuation| #[trigger] number(m, v, t) == s.1.val() * (v(s.0) * v(s.0)),
{
    if t >= m.terms.len() {
        return None;
    }
    match m.terms[t].op {
        Op::Mul => {},
        _ => {
            return None;
        },
    }
    match factors(m, t) {
        Some((c, vars)) => {
            if vars.len() == 2 && vars[0] == vars[1] {
                let x: usize = vars[0];
                proof {
                    assert(vars@[0] == x);
                    let k: real = c.val();
                    assert forall|v: Valuation| #[trigger] number(m, v, t) == k * (v(x) * v(x)) by {
                        let y: real = v(x);
                        assert(vars_value(v, vars@, 0) == 1real);
                        assert(vars_value(v, vars@, 1) == vars_value(v, vars@, 0) * v(vars@[0]));
                        assert(vars_value(v, vars@, 2) == vars_value(v, vars@, 1) * v(vars@[1]));
                        assert(k * ((1real * y) * y) == k * (y * y)) by (nonlinear_arith);
                    }
                }
                Some((x, c, m.terms[x].sort == INT_SORT))
            } else {
                None
            }
        },
        None => None,
    }
}

/// A variable with a literal coefficient, possibly negated.
pub open spec fn linear_var_of(m: &TermManager, t: TermId) -> Option<(TermId, Rat)>
    decreases t,
{
    if !m.has(t) {
        None
    } else {
        match m.op(t) {
            Op::Var(_) => Some((t, one())),
            Op::Mul => match factors_of(m, t, m.args(t).len() as int) {
                Some((c, vars)) => if vars.len() == 1 {
                    Some((vars[0], c))
                } else {
                    None
                },
                None => None,
            },
            Op::Neg => if m.arg(t, 0) < t {
                match linear_var_of(m, m.arg(t, 0)) {
                    Some((x, c)) => match negation_of(c) {
                        Some(n) => Some((x, n)),
                        None => None,
                    },
                    None => None,
                }
            } else {
                None
            },
            _ => None,
        }
    }
}

/// A variable with a literal coefficient, possibly negated.
pub fn extract_linear_var(m: &TermManager, t: TermId) -> (r: Option<(TermId, Rat)>)
    requires
        m.wf(),
    ensures
        r == linear_var_of(m, t),
        r matches Some(s) ==> s.1.wf(),
        r matches Some(s) ==> forall|v: Valuation| #[trigger] number(m, v, t) == s.1.val() * v(s.0),
    decreases t,
{
    if t >= m.terms.len() {
        return None;
    }
    assert(m.terms@[t as int].fits(t as int));
    match m.terms[t].op {
        Op::Var(_) => {
            let c = Rat::from_integer(1);
            proof {
                assert forall|v: Valuation| #[trigger] number(m, v, t) == c.val() * v(t) by {
                    let y: real = v(t);
                    assert(1real * y == y) by (nonlinear_arith);
                }
            }
            Some((t, c))
        },
        Op::Mul => match factors(m, t) {
            Some((c, vars)) => {
                if vars.len() == 1 {
                    let x: usize = vars[0];
                    proof {
                        let k: real = c.val();
                        assert forall|v: Valuation| #[trigger] number(m, v, t) == k * v(x) by {
                            let y: real = v(x);
                            assert(vars_value(v, vars@, 0) == 1real);
                            assert(vars_value(v, vars@, 1) == vars_value(v, vars@, 0) * v(vars@[0]));
                            assert(k * (1real * y) == k * y) by (nonlinear_arith);
                        }
                    }
                    Some((x, c))
                } else {
                    None
                }
            },
            None => None,
        },
        Op::Neg => {
            let a: usize = m.terms[t].args[0];
            match extract_linear_var(m, a) {
                Some((x, c)) => match negation(c) {
                    Some(n) => {
                        proof {
                            let k: real = c.val();
                            assert forall|v: Valuation| #[trigger] number(m, v, t) == n.val() * v(x) by {
                                let y: real = v(x);
                                assert(number(m, v, a) == k * y);
                                assert(-(k * y) == (-k) * y) by (nonlinear_arith);
                            }
                        }
                        Some((x, n))
                    },
                    None => None,
                },
                None => None,
            }
        },
        _ => None,
    }
}

impl NlAtom {
    /// Every number is a fraction with a positive denominator.
    pub open spec fn wf(self) -> bool {
        match self {
            NlAtom::SqEq { val, .. } => val.wf(),
            NlAtom::SqGtZero { .. } | NlAtom::SqGeZero { .. } => true,
            NlAtom::SqPlusLinearEq { sq_coeff, linear_coeff, rhs, .. } => sq_coeff.wf() && linear_coeff.wf() && rhs.wf(),
            NlAtom::LinearGe { bound, .. } | NlAtom::LinearGt { bound, .. } => bound.wf(),
        }
    }

    /// What the atom says of the values of the variables.
    pub open spec fn holds(self, m: &TermManager, v: Valuation) -> bool {
        match self {
            NlAtom::SqEq { sq_term, val, is_integer_sort } => v(sq_term) * v(sq_term) == val.val() && (is_integer_sort
                ==> m.has(sq_term) && m.op(sq_term) is Var && m.sort_of(sq_term) == INT_SORT),
            NlAtom::SqGtZero { sq_term } => v(sq_term) * v(sq_term) > 0real,
            NlAtom::SqGeZero { sq_term } => v(sq_term) * v(sq_term) >= 0real,
            NlAtom::SqPlusLinearEq { sq_term, sq_coeff, linear_var, linear_coeff, rhs } => sq_coeff.val() * (v(sq_term) * v(
                sq_term,
            )) + linear_coeff.val() * v(linear_var) == rhs.val(),
            NlAtom::LinearGe { var, bound } => v(var) >= bound.val(),
            NlAtom::LinearGt { var, bound } => v(var) > bound.val(),
        }
    }
}

/// The atom of an equality between a pure square and a literal.
pub open spec fn square_eq_atom(m: &TermManager, square: TermId, literal: TermId) -> Option<NlAtom> {
    match (pure_square_of(m, square), literal_of(m, literal)) {
        (Some((x, c, is_int)), Some(k)) => if c.numer != 0 {
            match quotient_of(k, c) {
                Some(val) => Some(NlAtom::SqEq { sq_term: x, val, is_integer_sort: is_int }),
                None => None,
            }
        } else {
            None
        },
        _ => None,
    }
}

/// The square and the variable among the first `k` summands, if every summand is one of them and
/// neither occurs twice.
pub open spec fn summands_of(m: &TermManager, t: TermId, k: int) -> Option<(Option<(TermId, Rat)>, Option<(TermId, Rat)>)>
    decreases k,
{
    if k <= 0 {
        Some((None, None))
    } else {
        let a = m.arg(t, k - 1);
        match summands_of(m, t, k - 1) {
            None => None,
            Some((square, linear)) => match pure_square_of(m, a) {
                Some((x, c, _)) => if square is None {
                    Some((Some((x, c)), linear))
                } else {
                    None
                },
                None => match linear_var_of(m, a) {
                    Some(l) => if linear is None {
                        Some((square, Some(l)))
                    } else {
                        None
                    },
                    None => None,
                },
            },
        }
    }
}

/// The atom of an equality between a square plus a variable and a literal.
pub open spec fn sum_eq_atoms(m: &TermManager, sum: TermId, literal: TermId) -> Seq<NlAtom> {
    if m.has(sum) && m.op(sum) == Op::Add {
        match (literal_of(m, literal), summands_of(m, sum, m.args(sum).len() as int)) {
            (Some(k), Some((Some((x, a)), Some((y, b))))) => seq![
                NlAtom::SqPlusLinearEq { sq_term: x, sq_coeff: a, linear_var: y, linear_coeff: b, rhs: k },
            ],
            _ => Seq::empty(),
        }
    } else {
        Seq::empty()
    }
}

/// The atoms of an equality.
pub open spec fn eq_atoms(m: &TermManager, lhs: TermId, rhs: TermId) -> Seq<NlAtom> {
    match square_eq_atom(m, lhs, rhs) {
        Some(a) => seq![a],
        None => match square_eq_atom(m, rhs, lhs) {
            Some(a) => seq![a],
            None => sum_eq_atoms(m, lhs, rhs) + sum_eq_atoms(m, rhs, lhs),
        },
    }
}

/// The atoms of a comparison with a literal on the right. A negative coefficient makes it an upper
/// bound, of which there is no atom.
pub open spec fn comparison_atoms(m: &TermManager, lhs: TermId, rhs: TermId, op: CompOp) -> Seq<NlAtom> {
    match literal_of(m, rhs) {
        None => Seq::empty(),
        Some(k) => match pure_square_of(m, lhs) {
            Some((x, c, _)) => match quotient_of(k, c) {
                Some(q) => match op {
                    CompOp::Gt => if c.numer > 0 && q.val() == 0real {
                        seq![NlAtom::SqGtZero { sq_term: x }]
                    } else {
                        Seq::empty()
                    },
                    CompOp::Ge => if c.numer > 0 && q.val() <= 0real {
                        seq![NlAtom::SqGeZero { sq_term: x }]
                    } else {
                        Seq::empty()
                    },
                },
                None => Seq::empty(),
            },
            None => match linear_var_of(m, lhs) {
                Some((x, c)) => match quotient_of(k, c) {
                    Some(q) => if c.numer > 0 {
                        match op {
                            CompOp::Gt => seq![NlAtom::LinearGt { var: x, bound: q }],
                            CompOp::Ge => seq![NlAtom::LinearGe { var: x, bound: q }],
                        }
                    } else {
                        Seq::empty()
                    },
                    None => Seq::empty(),
                },
                None => Seq::empty(),
            },
        },
    }
}

/// The atoms among the conjuncts of a formula.
pub open spec fn atoms_of(m: &TermManager, t: TermId) -> Seq<NlAtom>
    decreases t, m.args(t).len() + 1,
{
    if !m.has(t) {
        Seq::empty()
    } else {
        let a = m.arg(t, 0);
        let b = m.arg(t, 1);
        match m.op(t) {
            Op::Eq => eq_atoms(m, a, b),
            Op::Compare(Rel::Gt) => comparison_atoms(m, a, b, CompOp::Gt),
            Op::Compare(Rel::Ge) => comparison_atoms(m, a, b, CompOp::Ge),
            Op::Compare(Rel::Lt) => comparison_atoms(m, b, a, CompOp::Gt),
            Op::Compare(Rel::Le) => comparison_atoms(m, b, a, CompOp::Ge),
            Op::And => conjunct_atoms(m, t, m.args(t).len() as int),
            _ => Seq::empty(),
        }
    }
}

/// The atoms among the first `k` conjuncts.
pub open spec fn conjunct_atoms(m: &TermManager, t: TermId, k: int) -> Seq<NlAtom>
    decreases t, k,
{
    if k <= 0 || m.arg(t, k - 1) >= t {
        Seq::empty()
    } else {
        conjunct_atoms(m, t, k - 1) + atoms_of(m, m.arg(t, k - 1))
    }
}

/// The atoms among the conjuncts of the first `k` formulas.
pub open spec fn asserted_atoms(m: &TermManager, assertions: Seq<TermId>, k: int) -> Seq<NlAtom>
    decreases k,
{
    if k <= 0 {
        Seq::empty()
    } else {
        asserted_atoms(m, assertions, k - 1) + atoms_of(m, assertions[k - 1])
    }
}

/// The values of all terms, given those of the unknowns.
pub open spec fn numbers(m: &TermManager, v: Valuation) -> Valuation {
    |t: TermId| number(m, v, t)
}

/// Every atom is well formed and holds.
pub open spec fn all_hold(m: &TermManager, atoms: Seq<NlAtom>, v: Valuation) -> bool {
    forall|i: int| 0 <= i < atoms.len() ==> (#[trigger] atoms[i]).holds(m, v)
}

/// Every atom is well formed.
pub open spec fn all_wf(atoms: Seq<NlAtom>) -> bool {
    forall|i: int| 0 <= i < atoms.len() ==> (#[trigger] atoms[i]).wf()
}

/// Records the atom of an equality between a pure square and a literal.
fn square_equation(m: &TermManager, square: TermId, literal: TermId) -> (r: Option<NlAtom>)
    requires
        m.wf(),
    ensures
        r == square_eq_atom(m, square, literal),
        r matches Some(a) ==> a.wf(),
        r matches Some(a) ==> forall|v: Valuation|
            #[trigger] number(m, v, square) == number(m, v, literal) ==> a.holds(m, v),
{
    match extract_pure_square(m, square) {
        Some((x, c, is_int)) => match extract_rational_const(m, literal) {
            Some(k) => {
                if c.is_zero() {
                    return None;
                }
                match quotient(k, c) {
                    Some(val) => {
                        let atom = NlAtom::SqEq { sq_term: x, val, is_integer_sort: is_int };
                        proof {
                            assert forall|v: Valuation| #[trigger] number(m, v, square) == number(m, v, literal) implies atom.holds(
                                m,
                                v,
                            ) by {
                                let y: real = v(x) * v(x);
                                let cv: real = c.val();
                                let q: real = val.val();
                                assert(number(m, v, literal) == k.val());
                                assert(y == q) by (nonlinear_arith)
                                    requires
                                        cv * y == q * cv,
                                        cv != 0real,
                                ;
                            }
                        }
                        Some(atom)
                    },
                    None => None,
                }
            },
            None => None,
        },
        None => None,
    }
}

/// A list of summands that fails stays failed.
proof fn lemma_summands_fail(m: &TermManager, t: TermId, i: int, n: int)
    requires
        0 <= i <= n,
        summands_of(m, t, i) is None,
    ensures
        summands_of(m, t, n) is None,
    decreases n - i,
{
    if i < n {
        lemma_summands_fail(m, t, i + 1, n);
    }
}

/// What an optional square contributes to a sum.
pub open spec fn square_part(v: Valuation, s: Option<(TermId, Rat)>) -> real {
    match s {
        Some((x, c)) => c.val() * (v(x) * v(x)),
        None => 0real,
    }
}

/// What an optional variable contributes to a sum.
pub open spec fn linear_part(v: Valuation, s: Option<(TermId, Rat)>) -> real {
    match s {
        Some((x, c)) => c.val() * v(x),
        None => 0real,
    }
}

/// Appends the atom of an equality between a square plus a variable and a literal.
fn extract_nl_sum_eq(m: &TermManager, sum: TermId, literal: TermId, atoms: &mut Vec<NlAtom>)
    requires
        m.wf(),
        all_wf(old(atoms)@),
    ensures
        final(atoms)@ == old(atoms)@ + sum_eq_atoms(m, sum, literal),
        all_wf(final(atoms)@),
        forall|v: Valuation|
            #[trigger] number(m, v, sum) == number(m, v, literal) ==> all_hold(m, sum_eq_atoms(m, sum, literal), v),
{
    let ghost out = sum_eq_atoms(m, sum, literal);
    assert(atoms@ + Seq::<NlAtom>::empty() =~= atoms@);
    if sum >= m.terms.len() {
        return ;
    }
    assert(m.terms@[sum as int].fits(sum as int));
    match m.terms[sum].op {
        Op::Add => {},
        _ => {
            return ;
        },
    }
    let k = match extract_rational_const(m, literal) {
        Some(k) => k,
        None => {
            return ;
        },
    };
    let n: usize = m.terms[sum].args.len();
    let mut square: Option<(TermId, Rat)> = None;
    let mut linear: Option<(TermId, Rat)> = None;
    let mut i: usize = 0;
    while i < n
        invariant
            i <= n,
            m.wf(),
            m.has(sum),
            n == m.args(sum).len(),
            m.op(sum) == Op::Add,
            m.terms@[sum as int].fits(sum as int),
            summands_of(m, sum, i as int) == Some((square, linear)),
            square matches Some(s) ==> s.1.wf(),
            linear matches Some(s) ==> s.1.wf(),
            out == sum_eq_atoms(m, sum, literal),
            *atoms == *old(atoms),
            all_wf(atoms@),
            literal_of(m, literal) is Some,
            forall|v: Valuation| #[trigger] sum_value(m, v, sum, i as int) == square_part(v, square) + linear_part(v, linear),
        decreases n - i,
    {
        let a: usize = m.terms[sum].args[i];
        let ghost sq0 = square;
        let ghost lin0 = linear;
        if let Some((x, c, _)) = extract_pure_square(m, a) {
            if square.is_some() {
                proof {
                    lemma_summands_fail(m, sum, i + 1, n as int);
                    assert(out =~= Seq::empty());
                    assert(atoms@ + out =~= atoms@);
                }
                return ;
            }
            square = Some((x, c));
        } else if let Some(l) = extract_linear_var(m, a) {
            if linear.is_some() {
                proof {
                    lemma_summands_fail(m, sum, i + 1, n as int);
                    assert(out =~= Seq::empty());
                    assert(atoms@ + out =~= atoms@);
                }
                return ;
            }
            linear = Some(l);
        } else {
            proof {
                lemma_summands_fail(m, sum, i + 1, n as int);
                assert(out =~= Seq::empty());
                assert(atoms@ + out =~= atoms@);
            }
            return ;
        }
        proof {
            assert forall|v: Valuation| #[trigger] sum_value(m, v, sum, i + 1) == square_part(v, square) + linear_part(
                v,
                linear,
            ) by {
                assert(sum_value(m, v, sum, i as int) == square_part(v, sq0) + linear_part(v, lin0));
                assert(sum_value(m, v, sum, i + 1) == sum_value(m, v, sum, i as int) + number(m, v, a));
            }
        }
        i = i + 1;
    }
    if let Some((x, a)) = square {
        if let Some((y, b)) = linear {
            let atom = NlAtom::SqPlusLinearEq { sq_term: x, sq_coeff: a, linear_var: y, linear_coeff: b, rhs: k };
            atoms.push(atom);
            proof {
                assert(out =~= seq![atom]);
                assert(atoms@ =~= old(atoms)@ + out);
                assert forall|v: Valuation| #[trigger] number(m, v, sum) == number(m, v, literal) implies all_hold(m, out, v) by {
                    assert(sum_value(m, v, sum, n as int) == square_part(v, square) + linear_part(v, linear));
                    assert(number(m, v, literal) == k.val());
                    assert(atom.holds(m, v));
                }
            }
            return ;
        }
    }
    assert(out =~= Seq::empty());
    assert(atoms@ + out =~= atoms@);
}

/// Appends the atoms of an equality.
fn extract_nl_eq(m: &TermManager, lhs: TermId, rhs: TermId, atoms: &mut Vec<NlAtom>)
    requires
        m.wf(),
        all_wf(old(atoms)@),
    ensures
        final(atoms)@ == old(atoms)@ + eq_atoms(m, lhs, rhs),
        all_wf(final(atoms)@),
        forall|v: Valuation| #[trigger] number(m, v, lhs) == number(m, v, rhs) ==> all_hold(m, eq_atoms(m, lhs, rhs), v),
{
    if let Some(a) = square_equation(m, lhs, rhs) {
        atoms.push(a);
        assert(atoms@ =~= old(atoms)@ + seq![a]);
        return ;
    }
    if let Some(a) = square_equation(m, rhs, lhs) {
        atoms.push(a);
        assert(atoms@ =~= old(atoms)@ + seq![a]);
        proof {
            assert forall|v: Valuation| #[trigger] number(m, v, lhs) == number(m, v, rhs) implies all_hold(
                m,
                eq_atoms(m, lhs, rhs),
                v,
            ) by {
                assert(number(m, v, rhs) == number(m, v, lhs));
            }
        }
        return ;
    }
    extract_nl_sum_eq(m, lhs, rhs, atoms);
    extract_nl_sum_eq(m, rhs, lhs, atoms);
    proof {
        let a = sum_eq_atoms(m, lhs, rhs);
        let b = sum_eq_atoms(m, rhs, lhs);
        assert(atoms@ =~= old(atoms)@ + (a + b));
        assert forall|v: Valuation| #[trigger] number(m, v, lhs) == number(m, v, rhs) implies all_hold(m, a + b, v) by {
            assert(number(m, v, rhs) == number(m, v, lhs));
            assert(all_hold(m, a, v) && all_hold(m, b, v));
        }
    }
}

/// A comparison of two numbers.
pub open spec fn compares(op: CompOp, a: real, b: real) -> bool {
    match op {
        CompOp::Gt => a > b,
        CompOp::Ge => a >= b,
    }
}

/// Appends the atoms of a comparison with a literal on the right.
fn extract_nl_comparison(m: &TermManager, lhs: TermId, rhs: TermId, op: CompOp, atoms: &mut Vec<NlAtom>)
    requires
        m.wf(),
        all_wf(old(atoms)@),
    ensures
        final(atoms)@ == old(atoms)@ + comparison_atoms(m, lhs, rhs, op),
        all_wf(final(atoms)@),
        forall|v: Valuation|
            compares(op, #[trigger] number(m, v, lhs), number(m, v, rhs)) ==> all_hold(m, comparison_atoms(m, lhs, rhs, op), v),
{
    assert(atoms@ + Seq::<NlAtom>::empty() =~= atoms@);
    let ghost out = comparison_atoms(m, lhs, rhs, op);
    let k = match extract_rational_const(m, rhs) {
        Some(k) => k,
        None => {
            return ;
        },
    };
    let nil = Rat::from_integer(0);
    if let Some((x, c, _)) = extract_pure_square(m, lhs) {
        if c.numer <= 0 {
            return ;
        }
        let q = match quotient(k, c) {
            Some(q) => q,
            None => {
                return ;
            },
        };
        proof {
            lemma_sign(c);
        }
        let ghost cv: real = c.val();
        let ghost qv: real = q.val();
        match op {
            CompOp::Gt => {
                if q.is_zero() {
                    atoms.push(NlAtom::SqGtZero { sq_term: x });
                    proof {
                        assert(atoms@ =~= old(atoms)@ + out);
                        assert forall|v: Valuation|
                            compares(op, #[trigger] number(m, v, lhs), number(m, v, rhs)) implies all_hold(m, out, v) by {
                            let y: real = v(x) * v(x);
                            assert(number(m, v, rhs) == k.val());
                            assert(y > 0real) by (nonlinear_arith)
                                requires
                                    cv > 0real,
                                    cv * y > qv * cv,
                                    qv == 0real,
                            ;
                        }
                    }
                }
            },
            CompOp::Ge => {
                if !less(nil, q) {
                    atoms.push(NlAtom::SqGeZero { sq_term: x });
                    proof {
                        assert(atoms@ =~= old(atoms)@ + out);
                        assert forall|v: Valuation|
                            compares(op, #[trigger] number(m, v, lhs), number(m, v, rhs)) implies all_hold(m, out, v) by {
                            let z: real = v(x);
                            assert(z * z >= 0real) by (nonlinear_arith);
                        }
                    }
                }
            },
        }
        return ;
    }
    if let Some((x, c)) = extract_linear_var(m, lhs) {
        if c.numer <= 0 {
            return ;
        }
        let q = match quotient(k, c) {
            Some(q) => q,
            None => {
                return ;
            },
        };
        proof {
            lemma_sign(c);
        }
        let ghost cv: real = c.val();
        let ghost qv: real = q.val();
        match op {
            CompOp::Gt => {
                atoms.push(NlAtom::LinearGt { var: x, bound: q });
            },
            CompOp::Ge => {
                atoms.push(NlAtom::LinearGe { var: x, bound: q });
            },
        }
        proof {
            assert(atoms@ =~= old(atoms)@ + out);
            assert forall|v: Valuation|
                compares(op, #[trigger] number(m, v, lhs), number(m, v, rhs)) implies all_hold(m, out, v) by {
                let y: real = v(x);
                assert(number(m, v, rhs) == k.val());
                assert(cv * y > qv * cv ==> y > qv) by (nonlinear_arith)
                    requires
                        cv > 0real,
                ;
                assert(cv * y >= qv * cv ==> y >= qv) by (nonlinear_arith)
                    requires
                        cv > 0real,
                ;
            }
        }
    }
}

/// Appends the atoms among the conjuncts of a formula.
fn collect_nl_atoms(m: &TermManager, t: TermId, atoms: &mut Vec<NlAtom>)
    requires
        m.wf(),
        all_wf(old(atoms)@),
    ensures
        final(atoms)@ == old(atoms)@ + atoms_of(m, t),
        all_wf(final(atoms)@),
        forall|v: Valuation| #[trigger] conjuncts_hold(m, numbers(m, v), t) ==> all_hold(m, atoms_of(m, t), v),
    decreases t,
{
    assert(atoms@ + Seq::<NlAtom>::empty() =~= atoms@);
    if t >= m.terms.len() {
        return ;
    }
    assert(m.terms@[t as int].fits(t as int));
    match m.terms[t].op {
        Op::Eq => {
            let a: usize = m.terms[t].args[0];
            let b: usize = m.terms[t].args[1];
            extract_nl_eq(m, a, b, atoms);
            proof {
                assert forall|v: Valuation| #[trigger] conjuncts_hold(m, numbers(m, v), t) implies all_hold(m, atoms_of(m, t), v) by {
                    assert(number(m, v, a) == number(m, v, b));
                }
            }
        },
        Op::Compare(rel) => {
            let a: usize = m.terms[t].args[0];
            let b: usize = m.terms[t].args[1];
            match rel {
                Rel::Gt => extract_nl_comparison(m, a, b, CompOp::Gt, atoms),
                Rel::Ge => extract_nl_comparison(m, a, b, CompOp::Ge, atoms),
                Rel::Lt => extract_nl_comparison(m, b, a, CompOp::Gt, atoms),
                Rel::Le => extract_nl_comparison(m, b, a, CompOp::Ge, atoms),
            }
            proof {
                assert forall|v: Valuation| #[trigger] conjuncts_hold(m, numbers(m, v), t) implies all_hold(m, atoms_of(m, t), v) by {
                    let x = number(m, v, a);
                    let y = number(m, v, b);
                    match rel {
                        Rel::Gt => {
                            assert(compares(CompOp::Gt, x, y));
                        },
                        Rel::Ge => {
                            assert(compares(CompOp::Ge, x, y));
                        },
                        Rel::Lt => {
                            assert(compares(CompOp::Gt, y, x));
                        },
                        Rel::Le => {
                            assert(compares(CompOp::Ge, y, x));
                        },
                    }
                }
            }
        },
        Op::And => {
            let n: usize = m.terms[t].args.len();
            let mut i: usize = 0;
            assert(atoms@ + conjunct_atoms(m, t, 0) =~= atoms@);
            while i < n
                invariant
                    i <= n,
                    m.wf(),
                    m.has(t),
                    n == m.args(t).len(),
                    m.op(t) == Op::And,
                    m.terms@[t as int].fits(t as int),
                    atoms@ == old(atoms)@ + conjunct_atoms(m, t, i as int),
                    all_wf(atoms@),
                    forall|v: Valuation|
                        #[trigger] conjuncts_hold(m, numbers(m, v), t) ==> all_hold(m, conjunct_atoms(m, t, i as int), v),
                decreases n - i,
            {
                let a: usize = m.terms[t].args[i];
                collect_nl_atoms(m, a, atoms);
                proof {
                    let x = conjunct_atoms(m, t, i as int);
                    let y = atoms_of(m, a);
                    assert(m.args(t)[i as int] == a);
                    assert(conjunct_atoms(m, t, i + 1) == x + y);
                    assert(atoms@ =~= old(atoms)@ + (x + y));
                    assert forall|v: Valuation| #[trigger] conjuncts_hold(m, numbers(m, v), t) implies all_hold(
                        m,
                        conjunct_atoms(m, t, i + 1),
                        v,
                    ) by {
                        assert(conjuncts_hold(m, numbers(m, v), a));
                        assert(all_hold(m, x, v) && all_hold(m, y, v));
                    }
                }
                i = i + 1;
            }
        },
        _ => {},
    }
}

/// The integer part of a fraction that is not negative.
pub open spec fn whole_part(q: Rat) -> int {
    q.numer as int / q.denom as int
}

/// The atom gives a square a value that no square has: a negative number, or for an integer, a
/// number of 64 bits that is no square.
pub open spec fn rootless(a: NlAtom) -> bool {
    match a {
        NlAtom::SqEq { val, is_integer_sort, .. } => val.val() < 0real || (is_integer_sort && whole_part(val) <= i64::MAX
            && !is_square(whole_part(val))),
        _ => false,
    }
}

/// The atom bounds the variable from below, and the bound is no less than `q`.
pub open spec fn bounds_above(a: NlAtom, var: TermId, q: Rat) -> bool {
    match a {
        NlAtom::LinearGe { var: y, bound } => y == var && q.val() <= bound.val(),
        NlAtom::LinearGt { var: y, bound } => y == var && q.val() <= bound.val(),
        _ => false,
    }
}

/// The list holds the atom that the square is positive.
pub open spec fn says_positive(atoms: Seq<NlAtom>, x: TermId) -> bool {
    exists|i: int| 0 <= i < atoms.len() && #[trigger] atoms[i] == (NlAtom::SqGtZero { sq_term: x })
}

/// The list bounds the variable from below by no less than `q`.
pub open spec fn says_above(atoms: Seq<NlAtom>, var: TermId, q: Rat) -> bool {
    exists|i: int| 0 <= i < atoms.len() && bounds_above(#[trigger] atoms[i], var, q)
}

/// The two fractions are both positive or both negative.
pub open spec fn same_sign(a: Rat, b: Rat) -> bool {
    (a.numer > 0 && b.numer > 0) || (a.numer < 0 && b.numer < 0)
}

/// The atom takes a positive square off a variable that the list bounds from below by what is
/// left without it.
pub open spec fn overdrawn(atoms: Seq<NlAtom>, a: NlAtom) -> bool {
    match a {
        NlAtom::SqPlusLinearEq { sq_term, sq_coeff, linear_var, linear_coeff, rhs } => same_sign(sq_coeff, linear_coeff)
            && says_positive(atoms, sq_term) && (quotient_of(rhs, linear_coeff) matches Some(q) && says_above(
            atoms,
            linear_var,
            q,
        )),
        _ => false,
    }
}

/// The list holds an atom that no square satisfies, or a square that is taken off too little.
pub open spec fn contradictory(atoms: Seq<NlAtom>) -> bool {
    exists|i: int| 0 <= i < atoms.len() && (rootless(#[trigger] atoms[i]) || overdrawn(atoms, atoms[i]))
}

/// An integer as a real number.
pub open spec fn real_of(n: int) -> real {
    n as real
}

/// The number is an integer.
pub open spec fn is_whole(x: real) -> bool {
    exists|n: int| x == #[trigger] real_of(n)
}

/// Variables of integer sort have integers as their values.
pub open spec fn integral(m: &TermManager, v: Valuation) -> bool {
    forall|t: TermId| m.has(t) && m.op(t) is Var && m.sort_of(t) == INT_SORT ==> is_whole(#[trigger] v(t))
}

/// The product of two integers, read as real numbers.
proof fn lemma_product_real(a: int, b: int)
    requires
        a >= 0,
    ensures
        (a * b) as real == (a as real) * (b as real),
    decreases a,
{
    if a == 0 {
        let y: real = b as real;
        assert(0int * b == 0);
        assert(0real * y == 0real) by (nonlinear_arith);
    } else {
        lemma_product_real(a - 1, b);
        let x: real = (a - 1) as real;
        let y: real = b as real;
        assert(a * b == (a - 1) * b + b) by (nonlinear_arith);
        assert((x + 1real) * y == x * y + y) by (nonlinear_arith);
        assert(a as real == x + 1real);
    }
}

/// The square of an integer is a square.
proof fn lemma_square_root(n: int, q: Rat)
    requires
        q.wf(),
        (n as real) * (n as real) == q.val(),
    ensures
        is_square(whole_part(q)),
        q.numer >= 0,
{
    let k: int = if n >= 0 {
        n
    } else {
        -n
    };
    let x: real = n as real;
    let y: real = k as real;
    assert(x * x == y * y) by (nonlinear_arith)
        requires
            x == y || x == -y,
    ;
    lemma_product_real(k, k);
    let s: int = k * k;
    assert(s >= 0) by (nonlinear_arith)
        requires
            s == k * k,
    ;
    let d: real = q.denom as real;
    let p: real = q.numer as real;
    lemma_product_real(s, q.denom as int);
    assert((s as real) * d == p) by (nonlinear_arith)
        requires
            (s as real) == p / d,
            d > 0real,
    ;
    let e: int = q.denom as int;
    let u: int = q.numer as int;
    assert(s * e == u);
    assert(u / e == s) by (nonlinear_arith)
        requires
            s * e == u,
            e > 0,
    ;
    assert(u >= 0) by (nonlinear_arith)
        requires
            s * e == u,
            e > 0,
            s >= 0,
    ;
    assert(k >= 0 && k * k == whole_part(q));
}

/// No values of the variables satisfy an atom that gives a square a value that no square has.
proof fn lemma_rootless(m: &TermManager, a: NlAtom, v: Valuation)
    requires
        a.wf(),
        rootless(a),
        integral(m, v),
    ensures
        !a.holds(m, v),
{
    if a.holds(m, v) {
        if let NlAtom::SqEq { sq_term, val, is_integer_sort } = a {
            let x: real = v(sq_term);
            assert(x * x >= 0real) by (nonlinear_arith);
            if is_integer_sort {
                assert(is_whole(v(sq_term)));
                let n = choose|n: int| x == #[trigger] real_of(n);
                lemma_square_root(n, val);
            }
        }
    }
}

/// The sign of a fraction is that of its numerator.
proof fn lemma_sign(a: Rat)
    requires
        a.wf(),
    ensures
        a.numer > 0 <==> a.val() > 0real,
        a.numer < 0 <==> a.val() < 0real,
{
    let p: real = a.numer as real;
    let d: real = a.denom as real;
    assert((p > 0real <==> p / d > 0real) && (p < 0real <==> p / d < 0real)) by (nonlinear_arith)
        requires
            d > 0real,
    ;
}

/// A variable that a positive multiple of a square is taken off stays below what is left
/// without it.
proof fn lemma_overdrawn(a: real, s: real, b: real, y: real, k: real, q: real)
    requires
        (a > 0real && b > 0real) || (a < 0real && b < 0real),
        s > 0real,
        a * s + b * y == k,
        q * b == k,
    ensures
        y < q,
{
    assert(b * (q - y) == a * s) by (nonlinear_arith)
        requires
            a * s + b * y == k,
            q * b == k,
    ;
    let d: real = q - y;
    if a > 0real {
        assert(a * s > 0real) by (nonlinear_arith)
            requires
                a > 0real,
                s > 0real,
        ;
        assert(d > 0real) by (nonlinear_arith)
            requires
                b * d > 0real,
                b > 0real,
        ;
    } else {
        assert(a * s < 0real) by (nonlinear_arith)
            requires
                a < 0real,
                s > 0real,
        ;
        assert(d > 0real) by (nonlinear_arith)
            requires
                b * d < 0real,
                b < 0real,
        ;
    }
}

/// Whether the list says that the square is positive.
fn square_positive(atoms: &Vec<NlAtom>, x: TermId) -> (r: bool)
    ensures
        r == says_positive(atoms@, x),
{
    let mut i: usize = 0;
    while i < atoms.len()
        invariant
            i <= atoms.len(),
            forall|k: int| 0 <= k < i ==> #[trigger] atoms@[k] != (NlAtom::SqGtZero { sq_term: x }),
        decreases atoms.len() - i,
    {
        if let NlAtom::SqGtZero { sq_term } = atoms[i] {
            if sq_term == x {
                assert(atoms@[i as int] == NlAtom::SqGtZero { sq_term: x });
                return true;
            }
        }
        i = i + 1;
    }
    false
}

/// Whether the list bounds the variable from below by no less than `q`.
fn bounded_above(atoms: &Vec<NlAtom>, var: TermId, q: Rat) -> (r: bool)
    requires
        all_wf(atoms@),
        q.wf(),
    ensures
        r == says_above(atoms@, var, q),
{
    let mut i: usize = 0;
    while i < atoms.len()
        invariant
            i <= atoms.len(),
            all_wf(atoms@),
            q.wf(),
            forall|k: int| 0 <= k < i ==> !bounds_above(#[trigger] atoms@[k], var, q),
        decreases atoms.len() - i,
    {
        assert(atoms@[i as int].wf());
        let hit = match atoms[i] {
            NlAtom::LinearGe { var: y, bound } => y == var && !less(bound, q),
            NlAtom::LinearGt { var: y, bound } => y == var && !less(bound, q),
            _ => false,
        };
        if hit {
            assert(bounds_above(atoms@[i as int], var, q));
            return true;
        }
        i = i + 1;
    }
    false
}

/// Whether a positive square is taken off a variable that is bounded from below by what is left
/// without it; if so, no values of the variables satisfy the atoms.
pub fn check_sq_sum_bound_contradiction(m: &TermManager, atoms: &Vec<NlAtom>) -> (r: bool)
    requires
        all_wf(atoms@),
    ensures
        r == exists|i: int| 0 <= i < atoms@.len() && overdrawn(atoms@, #[trigger] atoms@[i]),
        r ==> forall|v: Valuation| !(#[trigger] all_hold(m, atoms@, v)),
{
    let mut i: usize = 0;
    while i < atoms.len()
        invariant
            i <= atoms.len(),
            all_wf(atoms@),
            forall|k: int| 0 <= k < i ==> !overdrawn(atoms@, #[trigger] atoms@[k]),
        decreases atoms.len() - i,
    {
        assert(atoms@[i as int].wf());
        if let NlAtom::SqPlusLinearEq { sq_term, sq_coeff, linear_var, linear_coeff, rhs } = atoms[i] {
            let alike = (sq_coeff.numer > 0 && linear_coeff.numer > 0) || (sq_coeff.numer < 0 && linear_coeff.numer < 0);
            if alike && square_positive(atoms, sq_term) {
                if let Some(q) = quotient(rhs, linear_coeff) {
                    if bounded_above(atoms, linear_var, q) {
                        proof {
                            assert(overdrawn(atoms@, atoms@[i as int]));
                            assert forall|v: Valuation| !(#[trigger] all_hold(m, atoms@, v)) by {
                                if all_hold(m, atoms@, v) {
                                    let j = choose|j: int|
                                        0 <= j < atoms@.len() && #[trigger] atoms@[j] == (NlAtom::SqGtZero { sq_term });
                                    let k = choose|k: int|
                                        0 <= k < atoms@.len() && bounds_above(#[trigger] atoms@[k], linear_var, q);
                                    assert(atoms@[j].holds(m, v));
                                    assert(atoms@[k].holds(m, v));
                                    assert(atoms@[i as int].holds(m, v));
                                    lemma_sign(sq_coeff);
                                    lemma_sign(linear_coeff);
                                    lemma_overdrawn(
                                        sq_coeff.val(),
                                        v(sq_term) * v(sq_term),
                                        linear_coeff.val(),
                                        v(linear_var),
                                        rhs.val(),
                                        q.val(),
                                    );
                                }
                            }
                        }
                        return true;
                    }
                }
            }
        }
        i = i + 1;
    }
    false
}

/// A logic of nonlinear arithmetic.
pub open spec fn nonlinear_logic(logic: Option<String>) -> bool {
    match logic {
        Some(l) => holds_text(l@, "NIA"@) || holds_text(l@, "NRA"@) || holds_text(l@, "NIRA"@),
        None => false,
    }
}

/// Whether the conjuncts of the assertions that speak of squares contradict each other; only
/// asked in a logic of nonlinear arithmetic. A contradiction found is one: no values of the
/// variables satisfy the assertions.
pub fn check_nonlinear_constraints(m: &TermManager, assertions: &Vec<TermId>, logic: &Option<String>) -> (r: bool)
    requires
        m.wf(),
    ensures
        r == (nonlinear_logic(*logic) && contradictory(asserted_atoms(m, assertions@, assertions@.len() as int))),
        r ==> forall|v: Valuation|
            integral(m, v) ==> exists|i: int|
                0 <= i < assertions@.len() && !conjuncts_hold(m, #[trigger] numbers(m, v), #[trigger] assertions@[i]),
{
    let nonlinear = match logic {
        Some(l) => contains_text(l.as_str(), "NIA") || contains_text(l.as_str(), "NRA") || contains_text(l.as_str(), "NIRA"),
        None => false,
    };
    if !nonlinear {
        return false;
    }
    let mut atoms: Vec<NlAtom> = Vec::new();
    let mut i: usize = 0;
    while i < assertions.len()
        invariant
            i <= assertions.len(),
            m.wf(),
            all_wf(atoms@),
            atoms@ == asserted_atoms(m, assertions@, i as int),
            forall|v: Valuation|
                (forall|k: int| 0 <= k < i ==> conjuncts_hold(m, numbers(m, v), #[trigger] assertions@[k])) ==> #[trigger] all_hold(m, atoms@, v),
        decreases assertions.len() - i,
    {
        let ghost before = atoms@;
        collect_nl_atoms(m, assertions[i], &mut atoms);
        proof {
            let x = atoms_of(m, assertions@[i as int]);
            assert forall|v: Valuation|
                (forall|k: int| 0 <= k < i + 1 ==> conjuncts_hold(m, numbers(m, v), #[trigger] assertions@[k])) implies #[trigger] all_hold(
                m,
                atoms@,
                v,
            ) by {
                assert(conjuncts_hold(m, numbers(m, v), assertions@[i as int]));
                assert(all_hold(m, before, v));
                assert(all_hold(m, x, v));
            }
        }
        i = i + 1;
    }
    let ghost refuted = forall|v: Valuation| integral(m, v) ==> !(#[trigger] all_hold(m, atoms@, v));
    proof {
        if refuted {
            assert forall|v: Valuation| integral(m, v) implies exists|i: int|
                0 <= i < assertions@.len() && !conjuncts_hold(m, #[trigger] numbers(m, v), #[trigger] assertions@[i]) by {
                if forall|k: int| 0 <= k < assertions@.len() ==> conjuncts_hold(m, numbers(m, v), #[trigger] assertions@[k]) {
                    assert(all_hold(m, atoms@, v));
                }
                let n = numbers(m, v);
            }
        }
    }
    let nil = Rat::from_integer(0);
    let mut j: usize = 0;
    while j < atoms.len()
        invariant
            j <= atoms.len(),
            all_wf(atoms@),
            nil.wf(),
            nil.val() == 0real,
            refuted == (forall|v: Valuation| integral(m, v) ==> !(#[trigger] all_hold(m, atoms@, v))),
            refuted ==> forall|v: Valuation|
                integral(m, v) ==> exists|i: int|
                    0 <= i < assertions@.len() && !conjuncts_hold(m, #[trigger] numbers(m, v), #[trigger] assertions@[i]),
            nonlinear_logic(*logic),
            atoms@ == asserted_atoms(m, assertions@, assertions@.len() as int),
            forall|k: int| 0 <= k < j ==> !rootless(#[trigger] atoms@[k]),
        decreases atoms.len() - j,
    {
        assert(atoms@[j as int].wf());
        if let NlAtom::SqEq { sq_term: _, val, is_integer_sort } = atoms[j] {
            proof {
                lemma_sign(val);
            }
            let mut hit = false;
            if less(val, nil) {
                hit = true;
            } else if is_integer_sort {
                let whole: i128 = val.numer / val.denom;
                proof {
                    let u: int = val.numer as int;
                    let e: int = val.denom as int;
                    assert(u / e >= 0) by (nonlinear_arith)
                        requires
                            u >= 0,
                            e > 0,
                    ;
                }
                if whole <= 0x7fff_ffff_ffff_ffff {
                    if !is_perfect_square(whole as u64) {
                        hit = true;
                    }
                }
            }
            if hit {
                proof {
                    assert(rootless(atoms@[j as int]));
                    assert forall|v: Valuation| integral(m, v) implies !(#[trigger] all_hold(m, atoms@, v)) by {
                        lemma_rootless(m, atoms@[j as int], v);
                    }
                }
                return true;
            }
        }
        j = j + 1;
    }
    check_sq_sum_bound_contradiction(m, &atoms)
}

/// An equation of a square with a negative number has no solution and is recognized; of an integer's
/// square with a whole number of 64 bits, exactly those equations are that no integer solves.
pub proof fn law_unsolvable_squares_are_recognized(x: TermId, val: Rat, is_int: bool)
    requires
        val.wf(),
    ensures
        val.numer < 0 ==> rootless(NlAtom::SqEq { sq_term: x, val, is_integer_sort: is_int }),
        is_int && val.denom == 1 && 0 <= val.numer <= i64::MAX ==> (rootless(NlAtom::SqEq { sq_term: x, val, is_integer_sort: is_int })
            <==> forall|k: int| #[trigger] (k * k) != val.numer),
        !is_int && val.numer >= 0 ==> !rootless(NlAtom::SqEq { sq_term: x, val, is_integer_sort: is_int }),
{
    lemma_sign(val);
    let n = val.numer as int;
    if is_int && val.denom == 1 && 0 <= n <= i64::MAX {
        assert(whole_part(val) == n);
        if is_square(n) {
            let k = choose|k: int| k >= 0 && #[trigger] (k * k) == n;
            assert(k * k == n);
        }
        if exists|k: int| #[trigger] (k * k) == n {
            let k = choose|k: int| #[trigger] (k * k) == n;
            let j = if k < 0 {
                -k
            } else {
                k
            };
            assert(j * j == k * k) by (nonlinear_arith)
                requires
                    j == k || j == -k,
            ;
            assert(is_square(n));
        }
    }
}

/// A list of conjuncts is refuted that equates a square with a number that no such square has; and
/// one that takes a positive square off a variable, both times the same sign, though the variable is
/// bounded from below by what is left without the square.
pub proof fn law_unsolvable_lists_are_refuted(
    atoms: Seq<NlAtom>,
    i: int,
    j: int,
    k: int,
    x: TermId,
    a: Rat,
    y: TermId,
    b: Rat,
    rhs: Rat,
    q: Rat,
    bound: Rat,
)
    requires
        0 <= i < atoms.len(),
        0 <= j < atoms.len(),
        0 <= k < atoms.len(),
    ensures
        atoms[i] matches NlAtom::SqEq { sq_term, val, is_integer_sort } && val.val() < 0real ==> contradictory(atoms),
        atoms[i] == (NlAtom::SqPlusLinearEq { sq_term: x, sq_coeff: a, linear_var: y, linear_coeff: b, rhs }) && (a.numer > 0 && b.numer > 0
            || a.numer < 0 && b.numer < 0) && atoms[j] == (NlAtom::SqGtZero { sq_term: x }) && quotient_of(rhs, b) == Some(q) && (atoms[k] == (
        NlAtom::LinearGe { var: y, bound }) || atoms[k] == (NlAtom::LinearGt { var: y, bound })) && q.val() <= bound.val() ==> contradictory(
            atoms,
        ),
{
    if atoms[i] == (NlAtom::SqPlusLinearEq { sq_term: x, sq_coeff: a, linear_var: y, linear_coeff: b, rhs }) && (a.numer > 0 && b.numer > 0
        || a.numer < 0 && b.numer < 0) && atoms[j] == (NlAtom::SqGtZero { sq_term: x }) && quotient_of(rhs, b) == Some(q) && (atoms[k] == (
    NlAtom::LinearGe { var: y, bound }) || atoms[k] == (NlAtom::LinearGt { var: y, bound })) && q.val() <= bound.val() {
        assert(says_positive(atoms, x));
        assert(bounds_above(atoms[k], y, q));
        assert(says_above(atoms, y, q));
        assert(overdrawn(atoms, atoms[i]));
    }
    if let NlAtom::SqEq { sq_term, val, is_integer_sort } = atoms[i] {
        if val.val() < 0real {
            assert(rootless(atoms[i]));
        }
    }
}

/// Squares are looked at in every logic of nonlinear arithmetic, and in no other.
pub proof fn law_squares_belong_to_nonlinear_logics(l: String)
    ensures
        nonlinear_logic(Some(l)) <==> holds_text(l@, "NIA"@) || holds_text(l@, "NRA"@) || holds_text(l@, "NIRA"@),
        !nonlinear_logic(None),
{
}

/// The term is the product of a variable with itself.
pub open spec fn squares_var(m: &TermManager, s: TermId, x: TermId) -> bool {
    &&& m.has(s)
    &&& m.op(s) == Op::Mul
    &&& m.args(s).len() == 2
    &&& m.arg(s, 0) == x
    &&& m.arg(s, 1) == x
    &&& m.op(x) is Var
}

/// The term is a numeral of the value.
pub open spec fn spells(m: &TermManager, l: TermId, k: Rat) -> bool {
    m.has(l) && match m.op(l) {
        Op::IntConst { negative } => i64::MIN <= signed(negative, m.terms@[l as int].digits@) <= i64::MAX && k == Rat::whole(
            signed(negative, m.terms@[l as int].digits@) as i128,
        ),
        Op::RealConst { numer, denom } => k == (Rat { numer: numer as i128, denom: denom as i128 }),
        _ => false,
    }
}

/// A square is known by its variable.
proof fn lemma_square_var(m: &TermManager, s: TermId, x: TermId)
    requires
        squares_var(m, s, x),
    ensures
        pure_square_of(m, s) == Some((x, one(), m.sort_of(x) == INT_SORT)),
{
    reveal_with_fuel(factors_of, 3);
    assert(factors_of(m, s, 0) == Some((one(), Seq::<TermId>::empty())));
    assert(factors_of(m, s, 1) == Some((one(), Seq::<TermId>::empty().push(x))));
    assert(factors_of(m, s, 2) == Some((one(), Seq::<TermId>::empty().push(x).push(x))));
}

/// An equation between the square of a variable and a number, either way round, is found.
pub proof fn law_equations_of_squares_are_found(m: &TermManager, t: TermId, s: TermId, l: TermId, x: TermId, k: Rat, val: Rat)
    requires
        m.has(t),
        m.op(t) == Op::Eq,
        (m.arg(t, 0) == s && m.arg(t, 1) == l) || (m.arg(t, 0) == l && m.arg(t, 1) == s),
        squares_var(m, s, x),
        spells(m, l, k),
        quotient_of(k, one()) == Some(val),
    ensures
        atoms_of(m, t) == seq![NlAtom::SqEq { sq_term: x, val, is_integer_sort: m.sort_of(x) == INT_SORT }],
{
    lemma_square_var(m, s, x);
    assert(literal_of(m, l) == Some(k));
    assert(pure_square_of(m, l) is None);
    assert(square_eq_atom(m, l, s) is None);
}

/// A lower bound of a variable is found, from whichever side it is written; and so is that a square is
/// positive.
pub proof fn law_lower_bounds_are_found(m: &TermManager, t: TermId, y: TermId, l: TermId, x: TermId, k: Rat, q: Rat)
    requires
        m.has(t),
        spells(m, l, k),
        quotient_of(k, one()) == Some(q),
    ensures
        m.has(y) && m.op(y) is Var && ((m.op(t) == Op::Compare(Rel::Gt) && m.arg(t, 0) == y && m.arg(t, 1) == l) || (m.op(t) == Op::Compare(
            Rel::Lt,
        ) && m.arg(t, 0) == l && m.arg(t, 1) == y)) ==> atoms_of(m, t) == seq![NlAtom::LinearGt { var: y, bound: q }],
        m.has(y) && m.op(y) is Var && ((m.op(t) == Op::Compare(Rel::Ge) && m.arg(t, 0) == y && m.arg(t, 1) == l) || (m.op(t) == Op::Compare(
            Rel::Le,
        ) && m.arg(t, 0) == l && m.arg(t, 1) == y)) ==> atoms_of(m, t) == seq![NlAtom::LinearGe { var: y, bound: q }],
        squares_var(m, y, x) && q.val() == 0real && ((m.op(t) == Op::Compare(Rel::Gt) && m.arg(t, 0) == y && m.arg(t, 1) == l) || (m.op(t)
            == Op::Compare(Rel::Lt) && m.arg(t, 0) == l && m.arg(t, 1) == y)) ==> atoms_of(m, t) == seq![NlAtom::SqGtZero { sq_term: x }],
        squares_var(m, y, x) && q.val() <= 0real && ((m.op(t) == Op::Compare(Rel::Ge) && m.arg(t, 0) == y && m.arg(t, 1) == l) || (m.op(t)
            == Op::Compare(Rel::Le) && m.arg(t, 0) == l && m.arg(t, 1) == y)) ==> atoms_of(m, t) == seq![NlAtom::SqGeZero { sq_term: x }],
{
    assert(literal_of(m, l) == Some(k));
    if squares_var(m, y, x) {
        lemma_square_var(m, y, x);
    }
}

/// A square and a variable that add up to a number are found, in whatever order they are written.
pub proof fn law_sums_with_squares_are_found(
    m: &TermManager,
    t: TermId,
    sum: TermId,
    l: TermId,
    s: TermId,
    x: TermId,
    y: TermId,
    k: Rat,
)
    requires
        m.has(t),
        m.op(t) == Op::Eq,
        (m.arg(t, 0) == sum && m.arg(t, 1) == l) || (m.arg(t, 0) == l && m.arg(t, 1) == sum),
        m.has(sum),
        m.op(sum) == Op::Add,
        m.args(sum).len() == 2,
        (m.arg(sum, 0) == s && m.arg(sum, 1) == y) || (m.arg(sum, 0) == y && m.arg(sum, 1) == s),
        squares_var(m, s, x),
        m.has(y),
        m.op(y) is Var,
        spells(m, l, k),
    ensures
        atoms_of(m, t).contains(NlAtom::SqPlusLinearEq { sq_term: x, sq_coeff: one(), linear_var: y, linear_coeff: one(), rhs: k }),
{
    lemma_square_var(m, s, x);
    assert(literal_of(m, l) == Some(k));
    assert(pure_square_of(m, l) is None);
    assert(pure_square_of(m, sum) is None);
    assert(pure_square_of(m, y) is None);
    reveal_with_fuel(summands_of, 3);
    assert(summands_of(m, sum, 0) == Some((None::<(TermId, Rat)>, None::<(TermId, Rat)>)));
    assert(summands_of(m, sum, 2) == Some((Some((x, one())), Some((y, one())))));
    let a = NlAtom::SqPlusLinearEq { sq_term: x, sq_coeff: one(), linear_var: y, linear_coeff: one(), rhs: k };
    assert(sum_eq_atoms(m, sum, l) == seq![a]);
    assert(sum_eq_atoms(m, l, sum) == Seq::<NlAtom>::empty());
    assert(atoms_of(m, t) =~= seq![a]);
    assert(atoms_of(m, t)[0] == a);
}

/// A number times a variable is known by both, in whatever order they are written, and the negative of
/// a variable by the negative of one.
pub proof fn law_multiples_of_variables_are_known(m: &TermManager, t: TermId, l: TermId, x: TermId, q: Rat, c: Rat)
    requires
        m.wf(),
        m.has(t),
        m.has(x),
        m.op(x) is Var,
        spells(m, l, q),
        product_of(one(), q) == Some(c),
    ensures
        m.op(t) == Op::Mul && m.args(t).len() == 2 && ((m.arg(t, 0) == l && m.arg(t, 1) == x) || (m.arg(t, 0) == x && m.arg(t, 1) == l))
            ==> linear_var_of(m, t) == Some((x, c)),
        m.op(t) == Op::Neg && m.arg(t, 0) == x ==> (negation_of(one()) matches Some(n) ==> linear_var_of(m, t) == Some((x, n))),
        linear_var_of(m, x) == Some((x, one())),
{
    assert(m.terms@[t as int].fits(t as int));
    reveal_with_fuel(factors_of, 3);
    reveal_with_fuel(linear_var_of, 2);
    assert(plain_literal(m, l) == Some(q));
    assert(factors_of(m, t, 0) == Some((one(), Seq::<TermId>::empty())));
    if m.op(t) == Op::Neg && m.arg(t, 0) == x {
        assert(m.args(t)[0] < t);
    }
}

/// What a conjunct says is found in the conjunction, and what an assertion says among the assertions.
pub proof fn law_conjuncts_are_found(m: &TermManager, t: TermId, assertions: Seq<TermId>, i: int, k: int, a: NlAtom)
    requires
        m.wf(),
    ensures
        m.has(t) && m.op(t) == Op::And && 0 <= i < k <= m.args(t).len() && atoms_of(m, m.args(t)[i]).contains(a) ==> conjunct_atoms(m, t, k).contains(
            a,
        ),
        m.has(t) && m.op(t) == Op::And && 0 <= i < m.args(t).len() && k == m.args(t).len() && atoms_of(m, m.args(t)[i]).contains(a)
            ==> atoms_of(m, t).contains(a),
        0 <= i < k <= assertions.len() && atoms_of(m, assertions[i]).contains(a) ==> asserted_atoms(m, assertions, k).contains(a),
    decreases k,
{
    if k > 0 {
        law_conjuncts_are_found(m, t, assertions, i, k - 1, a);
        if m.has(t) && m.op(t) == Op::And && 0 <= i < k <= m.args(t).len() && atoms_of(m, m.args(t)[i]).contains(a) {
            let before = conjunct_atoms(m, t, k - 1);
            let own = atoms_of(m, m.args(t)[k - 1]);
            assert(m.args(t)[k - 1] < t);
            lemma_either(before, own, a);
        }
        if 0 <= i < k <= assertions.len() && atoms_of(m, assertions[i]).contains(a) {
            lemma_either(asserted_atoms(m, assertions, k - 1), atoms_of(m, assertions[k - 1]), a);
        }
    }
}

/// What one of two lists holds, they hold one after the other.
proof fn lemma_either(p: Seq<NlAtom>, q: Seq<NlAtom>, a: NlAtom)
    ensures
        p.contains(a) || q.contains(a) ==> (p + q).contains(a),
{
    if p.contains(a) {
        let j = choose|j: int| 0 <= j < p.len() && p[j] == a;
        assert((p + q)[j] == a);
    } else if q.contains(a) {
        let j = choose|j: int| 0 <= j < q.len() && q[j] == a;
        assert((p + q)[p.len() + j] == a);
    }
}

} // verus!
