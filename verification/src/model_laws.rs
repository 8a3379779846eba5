//! Evaluation keeps meaning.
use crate::linear::Valuation;
use crate::model::combines;
use crate::model::comes_before;
use crate::model::decided;
use crate::model::decides;
use crate::model::defines;
use crate::model::evals;
use crate::model::hits;
use crate::model::is_false;
use crate::model::is_true;
use crate::model::is_var;
use crate::model::joins;
use crate::model::kept;
use crate::model::opposes;
use crate::model::outside_value;
use crate::model::values_ok;
use crate::model::Definition;
use crate::numeral::signed;
use crate::term::Op;
use crate::term::Symbol;
use crate::term::TermId;
use crate::term::TermManager;
use crate::term::BOOL_SORT;
use crate::term::FALSE_TERM;
use crate::term::TRUE_TERM;
use vstd::prelude::*;

verus! {

/// The term is a formula.
pub open spec fn formula(m: &TermManager, t: TermId) -> bool {
    m.sort_of(t) == BOOL_SORT
}

/// The sorts of a term and of its arguments fit its operator.
pub open spec fn sorted(m: &TermManager, t: TermId) -> bool {
    let args = m.args(t);
    match m.op(t) {
        Op::True | Op::False => formula(m, t),
        Op::Not | Op::And | Op::Or | Op::Implies => formula(m, t) && forall|i: int|
            0 <= i < args.len() ==> formula(m, #[trigger] args[i]),
        Op::Eq => formula(m, t) && m.sort_of(args[0]) == m.sort_of(args[1]),
        Op::Ite => formula(m, args[0]) && m.sort_of(args[1]) == m.sort_of(t) && m.sort_of(args[2]) == m.sort_of(t),
        Op::Neg => m.sort_of(args[0]) == m.sort_of(t),
        _ => true,
    }
}

/// Every term is of the sort that its operator asks for.
pub open spec fn well_sorted(m: &TermManager) -> bool {
    forall|t: TermId| #[trigger] m.has(t) ==> sorted(m, t)
}

/// The sum of the values of the first `k` terms.
pub open spec fn total(d: Valuation, s: Seq<TermId>, k: int) -> real
    decreases k,
{
    if k <= 0 {
        0real
    } else {
        total(d, s, k - 1) + d(s[k - 1])
    }
}

/// The product of the values of the first `k` terms.
pub open spec fn times(d: Valuation, s: Seq<TermId>, k: int) -> real
    decreases k,
{
    if k <= 0 {
        1real
    } else {
        times(d, s, k - 1) * d(s[k - 1])
    }
}

/// A term means what its operator makes of its arguments; truth values are 0 and 1.
pub open spec fn meaning_of(m: &TermManager, d: Valuation, t: TermId) -> bool {
    let args = m.args(t);
    &&& formula(m, t) ==> d(t) == 0real || d(t) == 1real
    &&& match m.op(t) {
        Op::True => d(t) == 1real,
        Op::False => d(t) == 0real,
        Op::Not => d(t) == 1real - d(args[0]),
        Op::And => d(t) == 1real <==> forall|i: int| 0 <= i < args.len() ==> d(#[trigger] args[i]) == 1real,
        Op::Or => d(t) == 1real <==> exists|i: int| 0 <= i < args.len() && d(#[trigger] args[i]) == 1real,
        Op::Implies => d(t) == 1real <==> (d(args[0]) == 1real ==> d(args[1]) == 1real),
        Op::Ite => d(t) == if d(args[0]) == 1real {
            d(args[1])
        } else {
            d(args[2])
        },
        Op::Eq => d(t) == 1real <==> d(args[0]) == d(args[1]),
        Op::IntConst { negative } => d(t) == signed(negative, m.terms@[t as int].digits@) as real,
        Op::RealConst { numer, denom } => d(t) == numer as real / denom as real,
        Op::Neg => d(t) == -d(args[0]),
        Op::Add => d(t) == total(d, args, args.len() as int),
        Op::Mul => d(t) == times(d, args, args.len() as int),
        Op::Sub => d(t) == d(args[0]) - d(args[1]),
        _ => true,
    }
}

/// Every term means what its operator makes of its arguments.
pub open spec fn meaning(m: &TermManager, d: Valuation) -> bool {
    forall|t: TermId| #[trigger] m.has(t) ==> meaning_of(m, d, t)
}

/// The model gives terms values of their sort and of their meaning.
pub open spec fn agrees(m: &TermManager, d: Valuation, asg: Map<usize, TermId>) -> bool {
    forall|t: usize| #[trigger]
        asg.contains_key(t) ==> m.has(asg[t]) && d(asg[t]) == d(t) && m.sort_of(asg[t]) == m.sort_of(t)
}

/// The values mean what the arguments of `t` mean, and are of their sorts.
pub open spec fn alike(m: &TermManager, d: Valuation, t: TermId, vals: Map<int, TermId>) -> bool {
    forall|k: int| #[trigger]
        vals.contains_key(k) ==> 0 <= k < m.args(t).len() && m.has(vals[k]) && d(vals[k]) == d(m.args(t)[k]) && m.sort_of(
            vals[k],
        ) == m.sort_of(m.args(t)[k])
}

/// Sums and products of equal values are equal.
proof fn lemma_totals(d: Valuation, a: Seq<TermId>, b: Seq<TermId>, k: int)
    requires
        forall|i: int| 0 <= i < k ==> d(#[trigger] a[i]) == d(b[i]),
    ensures
        total(d, a, k) == total(d, b, k),
        times(d, a, k) == times(d, b, k),
    decreases k,
{
    if k > 0 {
        lemma_totals(d, a, b, k - 1);
    }
}

/// What is left of values without neutral ones is among them, and holds every other.
proof fn lemma_kept(m: &TermManager, conj: bool, vals: Map<int, TermId>, k: int)
    ensures
        forall|j: int|
            0 <= j < kept(m, conj, vals, k).len() ==> exists|i: int| 0 <= i < k && #[trigger] vals[i] == #[trigger] kept(m, conj, vals, k)[j],
        forall|i: int|
            0 <= i < k ==> (conj && is_true(m, #[trigger] vals[i])) || (!conj && is_false(m, vals[i])) || kept(m, conj, vals, k).contains(
                vals[i],
            ),
    decreases k,
{
    if k > 0 {
        lemma_kept(m, conj, vals, k - 1);
        let before = kept(m, conj, vals, k - 1);
        let after = kept(m, conj, vals, k);
        assert forall|j: int| 0 <= j < after.len() implies exists|i: int| 0 <= i < k && #[trigger] vals[i] == #[trigger] after[j] by {
            if j < before.len() {
                assert(after[j] == before[j]);
                let i = choose|i: int| 0 <= i < k - 1 && #[trigger] vals[i] == before[j];
                assert(vals[i] == after[j]);
            } else {
                assert(vals[k - 1] == after[j]);
            }
        }
        assert forall|i: int| 0 <= i < k implies (conj && is_true(m, #[trigger] vals[i])) || (!conj && is_false(m, vals[i]))
            || after.contains(vals[i]) by {
            if i < k - 1 {
                if before.contains(vals[i]) {
                    let j = choose|j: int| 0 <= j < before.len() && before[j] == vals[i];
                    assert(after[j] == before[j]);
                }
            } else if after.len() > before.len() {
                assert(after[before.len() as int] == vals[i]);
            }
        }
    }
}

/// A conjunction or disjunction of values means what that of the arguments means.
proof fn lemma_joins(m: &TermManager, d: Valuation, t: TermId, conj: bool, vals: Map<int, TermId>, r: TermId)
    requires
        m.wf(),
        well_sorted(m),
        meaning(m, d),
        m.has(t),
        m.op(t) == if conj { Op::And } else { Op::Or },
        alike(m, d, t, vals),
        joins(m, conj, vals, m.args(t).len() as int, r),
        m.has(r),
    ensures
        d(r) == d(t),
        formula(m, r),
{
    let args = m.args(t);
    let n = args.len() as int;
    assert(sorted(m, t) && meaning_of(m, d, t));
    assert(m.has(TRUE_TERM) && m.has(FALSE_TERM));
    assert(meaning_of(m, d, TRUE_TERM) && meaning_of(m, d, FALSE_TERM));
    assert(sorted(m, TRUE_TERM) && sorted(m, FALSE_TERM));
    assert forall|k: int| 0 <= k < n && #[trigger] vals.contains_key(k) implies m.has(vals[k]) && d(vals[k]) == d(args[k]) && formula(
        m,
        vals[k],
    ) && (d(vals[k]) == 0real || d(vals[k]) == 1real) && (decides(m, conj, vals[k]) ==> d(vals[k]) == if conj {
        0real
    } else {
        1real
    }) by {
        assert(formula(m, args[k]));
        assert(meaning_of(m, d, vals[k]));
    }
    if decided(m, conj, vals, n) {
        let k = choose|k: int| 0 <= k < n && #[trigger] vals.contains_key(k) && decides(m, conj, vals[k]);
        assert(d(args[k]) == if conj {
            0real
        } else {
            1real
        });
    } else {
        let rest = kept(m, conj, vals, n);
        lemma_kept(m, conj, vals, n);
        assert forall|j: int| 0 <= j < rest.len() implies exists|i: int|
            0 <= i < n && vals.contains_key(i) && #[trigger] vals[i] == #[trigger] rest[j] by {
            let i = choose|i: int| 0 <= i < n && #[trigger] vals[i] == rest[j];
            assert(vals.contains_key(i));
        }
        let one = if conj {
            1real
        } else {
            0real
        };
        assert forall|i: int| 0 <= i < n implies d(#[trigger] args[i]) == one || rest.contains(vals[i]) by {
            assert(vals.contains_key(i));
            if conj && is_true(m, vals[i]) {
                assert(meaning_of(m, d, vals[i]));
            }
            if !conj && is_false(m, vals[i]) {
                assert(meaning_of(m, d, vals[i]));
            }
        }
        assert((forall|i: int| 0 <= i < n ==> d(#[trigger] args[i]) == one) <==> (forall|j: int|
            0 <= j < rest.len() ==> d(#[trigger] rest[j]) == one)) by {
            if forall|i: int| 0 <= i < n ==> d(#[trigger] args[i]) == one {
                assert forall|j: int| 0 <= j < rest.len() implies d(#[trigger] rest[j]) == one by {
                    let i = choose|i: int| 0 <= i < n && vals.contains_key(i) && #[trigger] vals[i] == rest[j];
                    assert(d(args[i]) == one);
                }
            }
            if forall|j: int| 0 <= j < rest.len() ==> d(#[trigger] rest[j]) == one {
                assert forall|i: int| 0 <= i < n implies d(#[trigger] args[i]) == one by {
                    assert(vals.contains_key(i));
                    if rest.contains(vals[i]) {
                        let j = choose|j: int| 0 <= j < rest.len() && rest[j] == vals[i];
                        assert(d(rest[j]) == one);
                    }
                }
            }
        }
        assert forall|j: int| 0 <= j < rest.len() implies d(#[trigger] rest[j]) == 0real || d(rest[j]) == 1real by {
            let i = choose|i: int| 0 <= i < n && vals.contains_key(i) && #[trigger] vals[i] == rest[j];
        }
        assert forall|i: int| 0 <= i < n implies d(#[trigger] args[i]) == 0real || d(args[i]) == 1real by {
            assert(vals.contains_key(i));
        }
        if rest.len() == 1 {
            let i = choose|i: int| 0 <= i < n && vals.contains_key(i) && #[trigger] vals[i] == rest[0];
            assert(formula(m, r));
            assert((forall|j: int| 0 <= j < rest.len() ==> d(#[trigger] rest[j]) == one) <==> d(rest[0]) == one);
        } else if rest.len() > 1 {
            assert(meaning_of(m, d, r));
        }
        if !conj {
            assert((exists|i: int| 0 <= i < n && d(#[trigger] args[i]) == 1real) <==> !(forall|i: int|
                0 <= i < n ==> d(#[trigger] args[i]) == one));
            assert((exists|i: int| 0 <= i < rest.len() && d(#[trigger] rest[i]) == 1real) <==> !(forall|i: int|
                0 <= i < rest.len() ==> d(#[trigger] rest[i]) == one));
        }
    }
}

/// Evaluation keeps meaning: under every reading in which terms mean what their operators make of
/// their arguments and the model's values mean what their terms mean, a term and its value in the
/// model mean the same.
pub proof fn law_eval_keeps_meaning(m: &TermManager, d: Valuation, asg: Map<usize, TermId>, t: TermId, r: TermId)
    requires
        m.wf(),
        well_sorted(m),
        meaning(m, d),
        agrees(m, d, asg),
        m.has(r),
        evals(m, asg, t, r),
    ensures
        d(r) == d(t),
        m.sort_of(r) == m.sort_of(t),
    decreases t,
{
    if !asg.contains_key(t) {
        let args = m.args(t);
        let n = args.len() as int;
        let vals = choose|vals: Map<int, TermId>| #[trigger] combines(m, t, vals, r) && values_ok(m, asg, t, vals);
        assert forall|k: int| #[trigger] vals.contains_key(k) implies 0 <= k < n && m.has(vals[k]) && d(vals[k]) == d(args[k])
            && m.sort_of(vals[k]) == m.sort_of(args[k]) by {
            law_eval_keeps_meaning(m, d, asg, args[k], vals[k]);
        }
        assert(m.terms@[t as int].fits(t as int));
        assert(m.has(TRUE_TERM) && m.has(FALSE_TERM));
        assert(meaning_of(m, d, TRUE_TERM) && meaning_of(m, d, FALSE_TERM));
        assert(sorted(m, TRUE_TERM) && sorted(m, FALSE_TERM));
        assert(meaning_of(m, d, t) && sorted(m, t));
        assert(meaning_of(m, d, r) && sorted(m, r));
        match m.op(t) {
            Op::And => {
                lemma_joins(m, d, t, true, vals, r);
            },
            Op::Or => {
                lemma_joins(m, d, t, false, vals, r);
            },
            Op::Not => {
                assert(vals.contains_key(0));
                assert(meaning_of(m, d, vals[0]));
            },
            Op::Implies => {
                assert(vals.contains_key(0) && vals.contains_key(1));
                assert(formula(m, args[0]) && formula(m, args[1]));
                assert(meaning_of(m, d, vals[0]) && meaning_of(m, d, vals[1]));
            },
            Op::Eq => {
                assert(vals.contains_key(0) && vals.contains_key(1));
                assert(meaning_of(m, d, vals[0]) && meaning_of(m, d, vals[1]));
            },
            Op::Ite => {
                assert(vals.contains_key(0));
                assert(meaning_of(m, d, vals[0]));
                if is_true(m, vals[0]) {
                    assert(vals.contains_key(1));
                } else if is_false(m, vals[0]) {
                    assert(vals.contains_key(2));
                } else {
                    assert(vals.contains_key(1) && vals.contains_key(2));
                    assert(m.args(r) == seq![vals[0], vals[1], vals[2]]);
                }
            },
            Op::Neg => {
                assert(vals.contains_key(0));
                lemma_opposes(m, d, t, vals[0], r);
            },
            Op::Add | Op::Mul => {
                let list = Seq::new(n as nat, |k: int| vals[k]);
                assert forall|i: int| 0 <= i < n implies d(#[trigger] args[i]) == d(list[i]) by {
                    assert(vals.contains_key(i));
                }
                lemma_totals(d, args, list, n);
            },
            Op::Sub => {
                assert(vals.contains_key(0) && vals.contains_key(1));
            },
            _ => {},
        }
    }
}

/// The negative of a value means the negative of what the value means.
proof fn lemma_opposes(m: &TermManager, d: Valuation, t: TermId, a: TermId, r: TermId)
    requires
        m.wf(),
        meaning(m, d),
        m.has(t),
        m.has(a),
        m.has(r),
        m.sort_of(a) == m.sort_of(t),
        opposes(m, t, a, r),
    ensures
        d(r) == -d(a),
        m.sort_of(r) == m.sort_of(t),
{
    assert(meaning_of(m, d, a) && meaning_of(m, d, r));
    assert(m.terms@[a as int].fits(a as int));
    if let Op::RealConst { numer, denom } = m.op(a) {
        if numer != i64::MIN {
            let p: real = numer as real;
            let q: real = denom as real;
            assert((-numer) as real == -p);
            assert((-p) / q == -(p / q)) by (nonlinear_arith)
                requires
                    q > 0real,
            ;
        }
    }
}

/// The model decides the formula: it has a truth value for it, or the formula joins such.
pub open spec fn is_decided(m: &TermManager, asg: Map<usize, TermId>, t: TermId) -> bool
    decreases t,
{
    m.has(t) && if asg.contains_key(t) {
        m.has(asg[t]) && (m.op(asg[t]) == Op::True || m.op(asg[t]) == Op::False)
    } else {
        match m.op(t) {
            Op::True | Op::False => true,
            Op::Not | Op::And | Op::Or | Op::Implies | Op::Ite => forall|i: int|
                0 <= i < m.args(t).len() ==> #[trigger] m.args(t)[i] < t && is_decided(m, asg, m.args(t)[i]),
            _ => false,
        }
    }
}

/// Without neutral values nothing is left where all are neutral.
proof fn lemma_all_neutral(m: &TermManager, conj: bool, vals: Map<int, TermId>, k: int)
    requires
        forall|i: int| 0 <= i < k ==> (conj && is_true(m, #[trigger] vals[i])) || (!conj && is_false(m, vals[i])),
    ensures
        kept(m, conj, vals, k).len() == 0,
    decreases k,
{
    if k > 0 {
        lemma_all_neutral(m, conj, vals, k - 1);
        assert((conj && is_true(m, vals[k - 1])) || (!conj && is_false(m, vals[k - 1])));
    }
}

/// Evaluation decides what the model decides: the value is one of the two truth values.
pub proof fn law_eval_decides(m: &TermManager, asg: Map<usize, TermId>, t: TermId, r: TermId)
    requires
        m.wf(),
        m.has(r),
        is_decided(m, asg, t),
        evals(m, asg, t, r),
    ensures
        m.op(r) == Op::True || m.op(r) == Op::False,
    decreases t,
{
    if !asg.contains_key(t) {
        let args = m.args(t);
        let n = args.len() as int;
        let vals = choose|vals: Map<int, TermId>| #[trigger] combines(m, t, vals, r) && values_ok(m, asg, t, vals);
        assert(m.terms@[t as int].fits(t as int));
        if !(m.op(t) == Op::True || m.op(t) == Op::False) {
            assert forall|k: int| #[trigger] vals.contains_key(k) implies 0 <= k < n && (is_true(m, vals[k]) || is_false(m, vals[k])) by {
                assert(args[k] < t && is_decided(m, asg, args[k]));
                law_eval_decides(m, asg, args[k], vals[k]);
            }
            match m.op(t) {
                Op::And | Op::Or => {
                    let conj = m.op(t) == Op::And;
                    if !decided(m, conj, vals, n) {
                        assert forall|i: int| 0 <= i < n implies (conj && is_true(m, #[trigger] vals[i])) || (!conj && is_false(m, vals[i])) by {
                            assert(vals.contains_key(i) && !decides(m, conj, vals[i]));
                        }
                        lemma_all_neutral(m, conj, vals, n);
                    }
                },
                Op::Not => {
                    assert(vals.contains_key(0));
                },
                Op::Implies => {
                    assert(vals.contains_key(0) && vals.contains_key(1));
                },
                _ => {
                    assert(vals.contains_key(0));
                    if is_true(m, vals[0]) {
                        assert(vals.contains_key(1));
                    } else {
                        assert(vals.contains_key(2));
                    }
                },
            }
        }
    }
}

/// The model has a numeral for the term, or the term is one, or the negative of such.
pub open spec fn is_numeral(m: &TermManager, asg: Map<usize, TermId>, t: TermId) -> bool
    decreases t,
{
    m.has(t) && if asg.contains_key(t) {
        m.has(asg[t]) && m.op(asg[t]) is IntConst
    } else {
        match m.op(t) {
            Op::IntConst { .. } => true,
            Op::Neg => m.arg(t, 0) < t && is_numeral(m, asg, m.arg(t, 0)),
            _ => false,
        }
    }
}

/// The value of an integer numeral, or of the negative of such, is an integer numeral.
pub proof fn law_eval_negates_numerals(m: &TermManager, asg: Map<usize, TermId>, t: TermId, r: TermId)
    requires
        m.wf(),
        m.has(r),
        is_numeral(m, asg, t),
        evals(m, asg, t, r),
    ensures
        m.op(r) is IntConst,
    decreases t,
{
    if !asg.contains_key(t) {
        let vals = choose|vals: Map<int, TermId>| #[trigger] combines(m, t, vals, r) && values_ok(m, asg, t, vals);
        assert(m.terms@[t as int].fits(t as int));
        if m.op(t) == Op::Neg {
            assert(vals.contains_key(0));
            law_eval_negates_numerals(m, asg, m.args(t)[0], vals[0]);
        }
    }
}

/// Every variable with a value has a line in a printed model, which gives its name and its value.
pub proof fn law_variables_have_lines(m: &TermManager, asg: Map<usize, TermId>, t: TermId, n: Symbol, d: Definition)
    requires
        m.has(t),
        m.op(t) == Op::Var(n),
    ensures
        is_var(m, t),
        defines(m, asg, t, d) ==> d.name == n && d.value == asg[t],
{
}

/// Terms that the cache has not come across are misses, and all others are hits.
pub proof fn law_hits_are_what_came_before(cached: Set<usize>, terms: Seq<TermId>, n: int)
    requires
        0 <= n <= terms.len(),
    ensures
        0 <= hits(cached, terms, n) <= n,
        (forall|i: int| 0 <= i < n ==> cached.contains(#[trigger] terms[i])) ==> hits(cached, terms, n) == n,
        (forall|i: int| 0 <= i < n ==> !cached.contains(#[trigger] terms[i])) && terms.take(n).no_duplicates() ==> hits(cached, terms, n)
            == 0,
        n > 0 && (forall|i: int| 0 <= i < n ==> #[trigger] terms[i] == terms[0]) ==> hits(cached, terms, n) >= n - 1,
    decreases n,
{
    if n > 0 {
        law_hits_are_what_came_before(cached, terms, n - 1);
        if terms.take(n).no_duplicates() {
            let some = terms.take(n - 1);
            assert forall|i: int, j: int| 0 <= i < some.len() && 0 <= j < some.len() && i != j implies #[trigger] some[i] != #[trigger] some[j] by {
                assert(terms.take(n)[i] != terms.take(n)[j]);
            }
            assert forall|k: int| 0 <= k < n - 1 implies #[trigger] terms[k] != terms[n - 1] by {
                assert(terms.take(n)[k] != terms.take(n)[n - 1]);
            }
        }
        if n > 1 && (forall|i: int| 0 <= i < n ==> #[trigger] terms[i] == terms[0]) {
            assert(terms[n - 1] == terms[0]);
            assert(comes_before(terms, n - 1, terms[n - 1]));
        }
    }
}

/// A term that the store does not hold has the value of the model, and without one its own.
pub proof fn law_unheld_terms_stand_for_themselves(asg: Map<usize, TermId>, t: TermId, v: TermId)
    ensures
        outside_value(asg.insert(t, v), t) == v,
        outside_value(asg.remove(t), t) == t,
{
}

/// Every argument of `r` is the value of the argument of `t` at its position.
pub open spec fn of_values(m: &TermManager, asg: Map<usize, TermId>, t: TermId, r: TermId) -> bool {
    m.args(r).len() == m.args(t).len() && forall|k: int|
        0 <= k < m.args(t).len() ==> evals(m, asg, #[trigger] m.args(t)[k], m.args(r)[k])
}

/// Evaluation puts values in the place of arguments: of sums, differences and products always, and of
/// negations, implications, equalities and conditionals that are not decided. What a decided
/// conditional or implication comes to is the value of one of its arguments.
pub proof fn law_eval_substitutes(m: &TermManager, asg: Map<usize, TermId>, t: TermId, r: TermId)
    requires
        m.wf(),
        m.has(r),
        evals(m, asg, t, r),
        !asg.contains_key(t),
    ensures
        m.op(t) == Op::Add || m.op(t) == Op::Sub || m.op(t) == Op::Mul ==> m.op(r) == m.op(t) && of_values(m, asg, t, r),
        m.op(t) == Op::Not ==> m.op(r) == Op::True || m.op(r) == Op::False || (m.op(r) == Op::Not && of_values(m, asg, t, r)),
        m.op(t) == Op::Implies ==> m.op(r) == Op::True || evals(m, asg, m.arg(t, 1), r) || (m.op(r) == Op::Implies && of_values(
            m,
            asg,
            t,
            r,
        )),
        m.op(t) == Op::Ite ==> evals(m, asg, m.arg(t, 1), r) || evals(m, asg, m.arg(t, 2), r) || (m.op(r) == Op::Ite && of_values(
            m,
            asg,
            t,
            r,
        )),
        m.op(t) == Op::Eq ==> m.op(r) == Op::True || evals(m, asg, m.arg(t, 0), r) || evals(m, asg, m.arg(t, 1), r) || (m.op(r)
            == Op::Not && m.args(r).len() == 1 && (evals(m, asg, m.arg(t, 0), m.arg(r, 0)) || evals(m, asg, m.arg(t, 1), m.arg(r, 0)))) || (
        m.op(r) == Op::Eq && of_values(m, asg, t, r)),
{
    let vals = choose|vals: Map<int, TermId>| #[trigger] combines(m, t, vals, r) && values_ok(m, asg, t, vals);
    let n = m.args(t).len() as int;
    assert(m.terms@[t as int].fits(t as int));
    match m.op(t) {
        Op::Add | Op::Sub | Op::Mul => {
            assert forall|k: int| 0 <= k < n implies evals(m, asg, #[trigger] m.args(t)[k], m.args(r)[k]) by {
                assert(vals.contains_key(k));
            }
        },
        Op::Not => {
            assert(vals.contains_key(0));
        },
        Op::Implies | Op::Eq => {
            assert(vals.contains_key(0) && vals.contains_key(1));
            assert(evals(m, asg, m.args(t)[0], vals[0]) && evals(m, asg, m.args(t)[1], vals[1]));
        },
        Op::Ite => {
            assert(vals.contains_key(0));
            if is_true(m, vals[0]) {
                assert(vals.contains_key(1));
            } else if is_false(m, vals[0]) {
                assert(vals.contains_key(2));
            } else {
                assert(vals.contains_key(1) && vals.contains_key(2));
            }
        },
        _ => {},
    }
}

/// The negative of a fraction evaluates to a fraction, unless its numerator has no opposite.
pub proof fn law_eval_negates_fractions(m: &TermManager, asg: Map<usize, TermId>, t: TermId, r: TermId)
    requires
        m.wf(),
        m.has(r),
        evals(m, asg, t, r),
        !asg.contains_key(t),
        m.op(t) == Op::Neg,
        !asg.contains_key(m.arg(t, 0)),
        m.op(m.arg(t, 0)) matches Op::RealConst { numer, denom } && numer > i64::MIN,
    ensures
        m.op(m.arg(t, 0)) matches Op::RealConst { numer, denom } && m.op(r) == (Op::RealConst { numer: (-numer) as i64, denom }),
{
    let vals = choose|vals: Map<int, TermId>| #[trigger] combines(m, t, vals, r) && values_ok(m, asg, t, vals);
    assert(m.terms@[t as int].fits(t as int));
    assert(vals.contains_key(0));
    assert(evals(m, asg, m.args(t)[0], vals[0]));
    assert(vals[0] == m.arg(t, 0));
}

} // verus!
