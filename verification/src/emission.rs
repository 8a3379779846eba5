//! The clauses that the encoding of a formula emits, in their order.
use crate::cnf::flip;
use crate::cnf::pos;
use crate::cnf::Lit;
use crate::encode::args_encoded;
use crate::encode::distinct_done;
use crate::encode::encoded;
use crate::encode::eq_of;
use crate::encode::lemma_encoded_extends;
use crate::encode::lemma_eq_unique;
use crate::encode::lemma_pair_extends;
use crate::encode::lit_of;
use crate::encode::pair_done;
use crate::encode::pair_lit;
use crate::encoder::Encoder;
use crate::semantics::is_bool;
use crate::term::Op;
use crate::term::TermId;
use crate::term::TermManager;
use crate::term::FALSE_TERM;
use crate::term::TRUE_TERM;
use crate::track::arith_leaves;
use crate::track::bv_leaves;
use crate::track::divides;
use crate::track::divides_under;
use crate::track::lemma_reaches_extends;
use crate::track::reaches;
use vstd::prelude::*;

verus! {

/// The literals of clauses.
pub open spec fn texts(cs: Seq<Vec<Lit>>) -> Seq<Seq<Lit>> {
    cs.map_values(|c: Vec<Lit>| c@)
}

/// The pairs of position `i` with the positions behind it and below `n`.
pub open spec fn pair_row(i: int, n: int) -> Seq<(usize, usize)> {
    Seq::new((n - i - 1) as nat, |k: int| (i as usize, (i + 1 + k) as usize))
}

/// The pairs of a position below `i` with one behind it and below `n`, in order.
pub open spec fn pair_rows(i: int, n: int) -> Seq<(usize, usize)>
    decreases i,
{
    if i <= 0 {
        Seq::empty()
    } else {
        pair_rows(i - 1, n) + pair_row(i - 1, n)
    }
}

/// The pairs of positions of the arguments, in order.
pub open spec fn arg_pairs(m: &TermManager, t: TermId) -> Seq<(usize, usize)> {
    pair_rows(m.args(t).len() as int, m.args(t).len() as int)
}

/// The literal of the equality of the `k`-th pair of arguments.
pub open spec fn row_lit(m: &TermManager, e: &Encoder, t: TermId, k: int) -> Lit {
    pair_lit(m, e, t, arg_pairs(m, t)[k].0 as int, arg_pairs(m, t)[k].1 as int)
}

/// The clauses of the definition of an equality of formulas.
pub open spec fn eq_clauses(m: &TermManager, e: &Encoder, q: TermId) -> Seq<Seq<Lit>> {
    let r = pos(e.var(q));
    let x = lit_of(m, e, m.arg(q, 0));
    let y = lit_of(m, e, m.arg(q, 1));
    seq![seq![flip(r), flip(x), y], seq![flip(r), flip(y), x], seq![x, y, r], seq![flip(x), flip(y), r]]
}

/// The clauses of the definition of a conjunction or disjunction, in order.
pub open spec fn junction_clauses(m: &TermManager, e: &Encoder, t: TermId) -> Seq<Seq<Lit>> {
    let args = m.args(t);
    let n = args.len();
    let r = pos(e.var(t));
    if m.op(t) == Op::And {
        Seq::new(n, |i: int| seq![flip(r), lit_of(m, e, args[i])]) + seq![
            Seq::new(n, |i: int| flip(lit_of(m, e, args[i]))).push(r),
        ]
    } else {
        seq![seq![flip(r)] + Seq::new(n, |i: int| lit_of(m, e, args[i]))] + Seq::new(
            n,
            |i: int| seq![flip(lit_of(m, e, args[i])), r],
        )
    }
}

/// The clauses of the definition of a distinctness of more than one term, in order: the result
/// excludes each equality, and one of the equalities holds or the result does.
pub open spec fn distinct_clauses(m: &TermManager, e: &Encoder, t: TermId) -> Seq<Seq<Lit>> {
    let r = pos(e.var(t));
    let k = arg_pairs(m, t).len();
    Seq::new(k, |i: int| seq![flip(r), flip(row_lit(m, e, t, i))]).push(Seq::new(k, |i: int| row_lit(m, e, t, i)).push(r))
}

/// The clauses of the definition of a formula, without those of its parts, in order.
pub open spec fn own_clauses(m: &TermManager, e: &Encoder, t: TermId) -> Seq<Seq<Lit>> {
    let r = pos(e.var(t));
    match m.op(t) {
        Op::True => seq![seq![pos(e.var(TRUE_TERM))]],
        Op::False => seq![seq![flip(pos(e.var(FALSE_TERM)))]],
        Op::And | Op::Or => junction_clauses(m, e, t),
        Op::Xor => {
            let x = lit_of(m, e, m.arg(t, 0));
            let y = lit_of(m, e, m.arg(t, 1));
            seq![seq![flip(r), x, y], seq![flip(r), flip(x), flip(y)], seq![flip(x), y, r], seq![x, flip(y), r]]
        },
        Op::Implies => {
            let x = lit_of(m, e, m.arg(t, 0));
            let y = lit_of(m, e, m.arg(t, 1));
            seq![seq![flip(r), flip(x), y], seq![x, r], seq![flip(y), r]]
        },
        Op::Ite => {
            let c = lit_of(m, e, m.arg(t, 0));
            let x = lit_of(m, e, m.arg(t, 1));
            let y = lit_of(m, e, m.arg(t, 2));
            seq![seq![flip(c), flip(r), x], seq![flip(c), flip(x), r], seq![c, flip(r), y], seq![c, flip(y), r]]
        },
        Op::Eq => if is_bool(m, m.arg(t, 0)) {
            eq_clauses(m, e, t)
        } else {
            Seq::empty()
        },
        Op::Distinct => if m.args(t).len() <= 1 {
            seq![seq![pos(e.var(TRUE_TERM))]]
        } else {
            distinct_clauses(m, e, t)
        },
        _ => Seq::empty(),
    }
}

/// The clauses that the encoding of a formula emits: those of its parts, then its own. An atom has
/// none.
pub open spec fn clauses_of(m: &TermManager, e: &Encoder, t: TermId) -> Seq<Seq<Lit>>
    decreases t, 1nat, 0int,
{
    if !m.has(t) {
        Seq::empty()
    } else {
        match m.op(t) {
            Op::Not => if m.arg(t, 0) < t {
                clauses_of(m, e, m.arg(t, 0))
            } else {
                Seq::empty()
            },
            Op::And | Op::Or | Op::Xor | Op::Implies | Op::Ite => arg_clauses(m, e, t, m.args(t).len() as int) + own_clauses(m, e, t),
            Op::Eq => if is_bool(m, m.arg(t, 0)) && m.arg(t, 0) < t && m.arg(t, 1) < t {
                clauses_of(m, e, m.arg(t, 0)) + clauses_of(m, e, m.arg(t, 1)) + own_clauses(m, e, t)
            } else {
                Seq::empty()
            },
            Op::Distinct => if m.args(t).len() <= 1 {
                own_clauses(m, e, t)
            } else {
                pair_clauses(m, e, t, arg_pairs(m, t).len() as int) + own_clauses(m, e, t)
            },
            _ => own_clauses(m, e, t),
        }
    }
}

/// The clauses of the first `k` arguments.
pub open spec fn arg_clauses(m: &TermManager, e: &Encoder, t: TermId, k: int) -> Seq<Seq<Lit>>
    decreases t, 0nat, k,
{
    if k <= 0 || m.arg(t, k - 1) >= t {
        Seq::empty()
    } else {
        arg_clauses(m, e, t, k - 1) + clauses_of(m, e, m.arg(t, k - 1))
    }
}

/// The clauses of the equalities of the first `k` pairs of arguments: those of both sides and of
/// the equality, where the sides are formulas.
pub open spec fn pair_clauses(m: &TermManager, e: &Encoder, t: TermId, k: int) -> Seq<Seq<Lit>>
    decreases t, 0nat, k,
{
    let a = m.arg(t, arg_pairs(m, t)[k - 1].0 as int);
    let b = m.arg(t, arg_pairs(m, t)[k - 1].1 as int);
    if k <= 0 {
        Seq::empty()
    } else if is_bool(m, a) && a < t && b < t {
        pair_clauses(m, e, t, k - 1) + (clauses_of(m, e, a) + clauses_of(m, e, b) + eq_clauses(m, e, eq_of(m, a, b)))
    } else {
        pair_clauses(m, e, t, k - 1)
    }
}

/// The clauses that the encoding of an equality emits.
pub open spec fn eq_emits(m: &TermManager, e: &Encoder, q: TermId) -> Seq<Seq<Lit>> {
    if is_bool(m, m.arg(q, 0)) {
        clauses_of(m, e, m.arg(q, 0)) + clauses_of(m, e, m.arg(q, 1)) + eq_clauses(m, e, q)
    } else {
        Seq::empty()
    }
}

/// What a formula may bring that the theories, or the search, have to know of.
pub enum Find {
    /// A quantified formula.
    Quantifier,
    /// An unknown of the arithmetic theory.
    Number(TermId),
    /// An unknown of the bit-vector theory.
    Word(TermId),
    /// A division of bit vectors.
    Division,
}

/// The encoding has it on record.
pub open spec fn found(e: &Encoder, x: Find) -> bool {
    match x {
        Find::Quantifier => e.has_quantifiers,
        Find::Number(t) => e.arith_terms@.contains(t),
        Find::Word(t) => e.bv_terms@.contains(t),
        Find::Division => e.has_bv_arith_ops,
    }
}

/// A term that is compared brings it.
pub open spec fn side_finds(m: &TermManager, t: TermId, x: Find) -> bool {
    match x {
        Find::Quantifier => false,
        Find::Number(y) => arith_leaves(m, t).contains(y),
        Find::Word(y) => bv_leaves(m, t).contains(y),
        Find::Division => divides_under(m, t),
    }
}

/// An atom brings it: a quantified formula and a division by being there, a variable and a
/// comparison by the unknowns and divisions under them.
pub open spec fn atom_finds(m: &TermManager, t: TermId, x: Find) -> bool {
    match m.op(t) {
        Op::Forall | Op::Exists => x is Quantifier,
        Op::Var(_) => side_finds(m, t, x),
        Op::Eq | Op::Compare(_) | Op::BvCompare(_) => side_finds(m, m.arg(t, 0), x) || side_finds(m, m.arg(t, 1), x),
        op => divides(op) && x is Division,
    }
}

/// One of the parts that the encoding of a formula comes to brings it.
pub open spec fn finds(m: &TermManager, t: TermId, x: Find) -> bool
    decreases t,
{
    let args = m.args(t);
    let n = args.len();
    m.has(t) && match m.op(t) {
        Op::Not | Op::And | Op::Or | Op::Xor | Op::Implies | Op::Ite => exists|i: int|
            0 <= i < n && #[trigger] args[i] < t && finds(m, args[i], x),
        Op::Eq => if is_bool(m, args[0]) {
            args[0] < t && args[1] < t && (finds(m, args[0], x) || finds(m, args[1], x))
        } else {
            atom_finds(m, t, x)
        },
        Op::Distinct => n > 1 && exists|i: int, j: int|
            0 <= i < j < n && #[trigger] args[i] < t && #[trigger] args[j] < t && if is_bool(m, args[i]) {
                finds(m, args[i], x) || finds(m, args[j], x)
            } else {
                side_finds(m, args[i], x) || side_finds(m, args[j], x)
            },
        _ => atom_finds(m, t, x),
    }
}

/// A quantified formula is among the parts that the encoding of a formula comes to.
pub open spec fn quantified(m: &TermManager, t: TermId) -> bool {
    finds(m, t, Find::Quantifier)
}

/// One of the first `k` arguments brings it.
pub open spec fn finds_before(m: &TermManager, t: TermId, k: int, x: Find) -> bool {
    exists|i: int| 0 <= i < k && #[trigger] m.args(t)[i] < t && finds(m, m.args(t)[i], x)
}

/// The equality of two terms brings it.
pub open spec fn pair_finds(m: &TermManager, a: TermId, b: TermId, x: Find) -> bool {
    if is_bool(m, a) {
        finds(m, a, x) || finds(m, b, x)
    } else {
        side_finds(m, a, x) || side_finds(m, b, x)
    }
}

/// One of the first `k` pairs of arguments brings it.
pub open spec fn pairs_find(m: &TermManager, t: TermId, ps: Seq<(usize, usize)>, k: int, x: Find) -> bool {
    exists|i: int| 0 <= i < k && pair_finds(m, m.arg(t, (#[trigger] ps[i]).0 as int), m.arg(t, ps[i].1 as int), x)
}

/// The second encoding has on record what the first has, and nothing else.
pub open spec fn brings_nothing(e: &Encoder, f: &Encoder) -> bool {
    forall|x: Find| #[trigger] found(f, x) <==> found(e, x)
}

/// The second encoding has on record what the first has and what a formula brings, and nothing
/// else.
pub open spec fn brings(e: &Encoder, f: &Encoder, m: &TermManager, t: TermId) -> bool {
    forall|x: Find| #[trigger] found(f, x) <==> found(e, x) || finds(m, t, x)
}

/// The same of the first `k` arguments of a formula.
pub open spec fn brings_before(e: &Encoder, f: &Encoder, m: &TermManager, t: TermId, k: int) -> bool {
    forall|x: Find| #[trigger] found(f, x) <==> found(e, x) || finds_before(m, t, k, x)
}

/// The same of the equality of two terms.
pub open spec fn brings_pair(e: &Encoder, f: &Encoder, m: &TermManager, a: TermId, b: TermId) -> bool {
    forall|x: Find| #[trigger] found(f, x) <==> found(e, x) || pair_finds(m, a, b, x)
}

/// The same of the equalities of the first `k` pairs of arguments.
pub open spec fn brings_pairs(e: &Encoder, f: &Encoder, m: &TermManager, t: TermId, ps: Seq<(usize, usize)>, k: int) -> bool {
    forall|x: Find| #[trigger] found(f, x) <==> found(e, x) || pairs_find(m, t, ps, k, x)
}

/// What a compared term brings does not change when the store grows.
pub proof fn lemma_side_extends(m: &TermManager, later: &TermManager, t: TermId, x: Find)
    requires
        m.wf(),
        later.wf(),
        m.extended_by(later),
        m.has(t),
    ensures
        side_finds(later, t, x) == side_finds(m, t, x),
{
    match x {
        Find::Number(y) | Find::Word(y) => {
            lemma_reaches_extends(m, later, t, y);
            if reaches(m, t, y) {
                assert(later.terms@[y as int] == m.terms@[y as int]);
            }
        },
        Find::Division => {
            if divides_under(m, t) {
                let y = choose|y: usize| #[trigger] reaches(m, t, y) && m.has(y) && divides(m.op(y));
                lemma_reaches_extends(m, later, t, y);
                assert(later.terms@[y as int] == m.terms@[y as int]);
                assert(reaches(later, t, y) && later.has(y) && divides(later.op(y)));
            }
            if divides_under(later, t) {
                let y = choose|y: usize| #[trigger] reaches(later, t, y) && later.has(y) && divides(later.op(y));
                lemma_reaches_extends(m, later, t, y);
                assert(later.terms@[y as int] == m.terms@[y as int]);
                assert(reaches(m, t, y) && m.has(y) && divides(m.op(y)));
            }
        },
        Find::Quantifier => {},
    }
}

/// What a formula brings does not change when its store grows.
#[verifier::spinoff_prover]
#[verifier::rlimit(40)]
pub proof fn lemma_finds_extends(m: &TermManager, later: &TermManager, t: TermId, x: Find)
    requires
        m.wf(),
        later.wf(),
        m.extended_by(later),
        m.has(t),
    ensures
        finds(later, t, x) == finds(m, t, x),
    decreases t,
{
    let args = m.args(t);
    let n = args.len();
    assert(later.terms@[t as int] == m.terms@[t as int]);
    assert(later.args(t) == args);
    assert(m.terms@[t as int].fits(t as int));
    lemma_side_extends(m, later, t, x);
    assert forall|i: int| 0 <= i < n && #[trigger] args[i] < t implies finds(later, args[i], x) == finds(m, args[i], x)
        && side_finds(later, args[i], x) == side_finds(m, args[i], x) && is_bool(later, args[i]) == is_bool(m, args[i]) by {
        lemma_finds_extends(m, later, args[i], x);
        lemma_side_extends(m, later, args[i], x);
        assert(later.terms@[args[i] as int] == m.terms@[args[i] as int]);
    }
    match m.op(t) {
        Op::Not | Op::And | Op::Or | Op::Xor | Op::Implies | Op::Ite => {
            if finds(m, t, x) {
                let i = choose|i: int| 0 <= i < n && #[trigger] args[i] < t && finds(m, args[i], x);
                assert(args[i] < t && finds(later, args[i], x));
            }
            if finds(later, t, x) {
                let i = choose|i: int| 0 <= i < n && #[trigger] args[i] < t && finds(later, args[i], x);
                assert(args[i] < t && finds(m, args[i], x));
            }
        },
        Op::Distinct => {
            assert forall|i: int, j: int| 0 <= i < j < n && #[trigger] args[i] < t && #[trigger] args[j] < t implies pair_finds(
                later,
                args[i],
                args[j],
                x,
            ) == pair_finds(m, args[i], args[j], x) by {}
            if finds(m, t, x) {
                let (i, j) = choose|i: int, j: int|
                    0 <= i < j < n && #[trigger] args[i] < t && #[trigger] args[j] < t && if is_bool(m, args[i]) {
                        finds(m, args[i], x) || finds(m, args[j], x)
                    } else {
                        side_finds(m, args[i], x) || side_finds(m, args[j], x)
                    };
                assert(args[i] < t && args[j] < t && pair_finds(m, args[i], args[j], x));
                assert(pair_finds(later, args[i], args[j], x));
            }
            if finds(later, t, x) {
                let (i, j) = choose|i: int, j: int|
                    0 <= i < j < n && #[trigger] args[i] < t && #[trigger] args[j] < t && if is_bool(later, args[i]) {
                        finds(later, args[i], x) || finds(later, args[j], x)
                    } else {
                        side_finds(later, args[i], x) || side_finds(later, args[j], x)
                    };
                assert(args[i] < t && args[j] < t && pair_finds(later, args[i], args[j], x));
                assert(pair_finds(m, args[i], args[j], x));
            }
        },
        Op::Eq | Op::Compare(_) | Op::BvCompare(_) => {
            assert(args[0] < t && args[1] < t);
        },
        _ => {},
    }
}

/// One more argument.
pub(crate) proof fn lemma_finds_next(m: &TermManager, t: TermId, k: int, x: Find)
    requires
        0 <= k < m.args(t).len(),
        m.args(t)[k] < t,
    ensures
        finds_before(m, t, k + 1, x) == (finds_before(m, t, k, x) || finds(m, m.args(t)[k], x)),
{
    if finds_before(m, t, k + 1, x) && !finds(m, m.args(t)[k], x) {
        let i = choose|i: int| 0 <= i < k + 1 && #[trigger] m.args(t)[i] < t && finds(m, m.args(t)[i], x);
        assert(i < k);
    }
    if finds_before(m, t, k, x) {
        let i = choose|i: int| 0 <= i < k && #[trigger] m.args(t)[i] < t && finds(m, m.args(t)[i], x);
        assert(m.args(t)[i] < t);
    }
    if finds(m, m.args(t)[k], x) {
        assert(m.args(t)[k] < t);
    }
}

/// What one more argument brings, once the others have been encoded.
pub(crate) proof fn lemma_brings_next(
    m: &TermManager,
    mid: &TermManager,
    e: &Encoder,
    e1: &Encoder,
    e2: &Encoder,
    t: TermId,
    k: int,
)
    requires
        m.wf(),
        mid.wf(),
        m.extended_by(mid),
        m.has(t),
        0 <= k < m.args(t).len(),
        m.args(t)[k] < t,
        brings_before(e, e1, m, t, k),
        brings(e1, e2, mid, m.args(t)[k]),
    ensures
        brings_before(e, e2, m, t, k + 1),
{
    assert forall|x: Find| #[trigger] found(e2, x) <==> found(e, x) || finds_before(m, t, k + 1, x) by {
        lemma_finds_extends(m, mid, m.args(t)[k], x);
        lemma_finds_next(m, t, k, x);
        assert(found(e1, x) <==> found(e, x) || finds_before(m, t, k, x));
    }
}

/// What a formula brings is what all its arguments bring, for a formula that joins them.
pub(crate) proof fn lemma_brings_all(m: &TermManager, e: &Encoder, f: &Encoder, t: TermId)
    requires
        m.has(t),
        match m.op(t) {
            Op::Not | Op::And | Op::Or | Op::Xor | Op::Implies | Op::Ite => true,
            _ => false,
        },
        brings_before(e, f, m, t, m.args(t).len() as int),
    ensures
        brings(e, f, m, t),
{
    assert forall|x: Find| #[trigger] found(f, x) <==> found(e, x) || finds(m, t, x) by {
        assert(finds(m, t, x) == finds_before(m, t, m.args(t).len() as int, x));
    }
}

/// Whether there are quantified formulas, once a formula has been encoded.
pub proof fn lemma_quantifier(e: &Encoder, f: &Encoder, m: &TermManager, t: TermId)
    requires
        brings(e, f, m, t),
    ensures
        f.has_quantifiers == (e.has_quantifiers || quantified(m, t)),
{
    assert(found(f, Find::Quantifier) <==> found(e, Find::Quantifier) || finds(m, t, Find::Quantifier));
}

/// Where the tables and flags are the same, the same is on record.
pub(crate) proof fn lemma_same_finds(e: &Encoder, f: &Encoder)
    requires
        f.tables() == e.tables(),
        f.has_bv_arith_ops == e.has_bv_arith_ops,
        f.has_quantifiers == e.has_quantifiers,
    ensures
        brings_nothing(e, f),
{
    assert(f.arith_terms@ == e.tables().arith_terms && f.bv_terms@ == e.tables().bv_terms);
}

/// What is added on top brings nothing.
pub(crate) proof fn lemma_brings_on(e: &Encoder, f: &Encoder, g: &Encoder, m: &TermManager, t: TermId, k: int)
    requires
        brings_before(e, f, m, t, k),
        brings_nothing(f, g),
    ensures
        brings_before(e, g, m, t, k),
{
    assert forall|x: Find| #[trigger] found(g, x) <==> found(e, x) || finds_before(m, t, k, x) by {
        assert(found(f, x) <==> found(g, x));
    }
}

/// What the equality of formulas brings is what its sides bring.
pub(crate) proof fn lemma_brings_sides(
    m: &TermManager,
    mid: &TermManager,
    e: &Encoder,
    e1: &Encoder,
    e2: &Encoder,
    f: &Encoder,
    a: TermId,
    b: TermId,
)
    requires
        m.wf(),
        mid.wf(),
        m.extended_by(mid),
        m.has(a),
        m.has(b),
        is_bool(m, a),
        brings(e, e1, m, a),
        brings(e1, e2, mid, b),
        brings_nothing(e2, f),
    ensures
        brings_pair(e, f, m, a, b),
{
    assert forall|x: Find| #[trigger] found(f, x) <==> found(e, x) || pair_finds(m, a, b, x) by {
        lemma_finds_extends(m, mid, b, x);
        assert(found(e2, x) <==> found(f, x));
        assert(found(e1, x) <==> found(e, x) || finds(m, a, x));
    }
}

/// One more pair.
pub(crate) proof fn lemma_brings_next_pair(
    m: &TermManager,
    mid: &TermManager,
    e: &Encoder,
    e1: &Encoder,
    e2: &Encoder,
    t: TermId,
    ps: Seq<(usize, usize)>,
    k: int,
)
    requires
        m.wf(),
        mid.wf(),
        m.extended_by(mid),
        0 <= k < ps.len(),
        m.has(m.arg(t, ps[k].0 as int)),
        m.has(m.arg(t, ps[k].1 as int)),
        brings_pairs(e, e1, m, t, ps, k),
        brings_pair(e1, e2, mid, m.arg(t, ps[k].0 as int), m.arg(t, ps[k].1 as int)),
    ensures
        brings_pairs(e, e2, m, t, ps, k + 1),
{
    let a = m.arg(t, ps[k].0 as int);
    let b = m.arg(t, ps[k].1 as int);
    assert(mid.terms@[a as int] == m.terms@[a as int]);
    assert forall|x: Find| #[trigger] found(e2, x) <==> found(e, x) || pairs_find(m, t, ps, k + 1, x) by {
        lemma_finds_extends(m, mid, a, x);
        lemma_finds_extends(m, mid, b, x);
        lemma_side_extends(m, mid, a, x);
        lemma_side_extends(m, mid, b, x);
        assert(pair_finds(mid, a, b, x) == pair_finds(m, a, b, x));
        assert(found(e1, x) <==> found(e, x) || pairs_find(m, t, ps, k, x));
        if pairs_find(m, t, ps, k + 1, x) {
            let i = choose|i: int| 0 <= i < k + 1 && pair_finds(m, m.arg(t, (#[trigger] ps[i]).0 as int), m.arg(t, ps[i].1 as int), x);
            if i < k {
                assert(pair_finds(m, m.arg(t, ps[i].0 as int), m.arg(t, ps[i].1 as int), x));
            }
        }
        if pairs_find(m, t, ps, k, x) {
            let i = choose|i: int| 0 <= i < k && pair_finds(m, m.arg(t, (#[trigger] ps[i]).0 as int), m.arg(t, ps[i].1 as int), x);
            assert(ps[i] == ps[i]);
        }
        if pair_finds(m, a, b, x) {
            assert(ps[k] == ps[k]);
        }
    }
}

/// What all pairs of arguments bring is what the distinctness brings.
pub(crate) proof fn lemma_brings_distinct(m: &TermManager, e: &Encoder, e1: &Encoder, f: &Encoder, t: TermId, ps: Seq<(usize, usize)>)
    requires
        m.wf(),
        m.has(t),
        m.op(t) == Op::Distinct,
        m.args(t).len() > 1,
        m.args(t).len() <= usize::MAX,
        forall|i: int| 0 <= i < ps.len() ==> (#[trigger] ps[i]).0 < ps[i].1 && ps[i].1 < m.args(t).len(),
        forall|i: usize, j: usize| i < j < m.args(t).len() ==> #[trigger] ps.contains((i, j)),
        brings_pairs(e, e1, m, t, ps, ps.len() as int),
        brings_nothing(e1, f),
    ensures
        brings(e, f, m, t),
{
    let args = m.args(t);
    assert(m.terms@[t as int].fits(t as int));
    assert forall|x: Find| #[trigger] found(f, x) <==> found(e, x) || finds(m, t, x) by {
        assert(found(e1, x) <==> found(f, x));
        if finds(m, t, x) {
            let (i, j) = choose|i: int, j: int|
                0 <= i < j < args.len() && #[trigger] args[i] < t && #[trigger] args[j] < t && if is_bool(m, args[i]) {
                    finds(m, args[i], x) || finds(m, args[j], x)
                } else {
                    side_finds(m, args[i], x) || side_finds(m, args[j], x)
                };
            assert(ps.contains((i as usize, j as usize)));
            let k = choose|k: int| 0 <= k < ps.len() && ps[k] == (i as usize, j as usize);
            assert(pair_finds(m, m.arg(t, ps[k].0 as int), m.arg(t, ps[k].1 as int), x));
        }
        if pairs_find(m, t, ps, ps.len() as int, x) {
            let k = choose|k: int|
                0 <= k < ps.len() && pair_finds(m, m.arg(t, (#[trigger] ps[k]).0 as int), m.arg(t, ps[k].1 as int), x);
            let i = ps[k].0 as int;
            let j = ps[k].1 as int;
            assert(args[i] < t && args[j] < t);
        }
    }
}

/// The clauses of an encoded formula stay what they are when definitions are added.
pub proof fn lemma_clauses_extend(m: &TermManager, later: &TermManager, e: &Encoder, f: &Encoder, t: TermId)
    requires
        m.wf(),
        later.wf(),
        m.extended_by(later),
        e.grows(f),
        m.has(t),
        encoded(m, e, t),
    ensures
        clauses_of(later, f, t) == clauses_of(m, e, t),
    decreases t, 1nat, 0int,
{
    let args = m.args(t);
    let n = args.len();
    assert(later.terms@[t as int] == m.terms@[t as int]);
    assert(later.args(t) == args);
    assert(m.terms@[t as int].fits(t as int));
    match m.op(t) {
        Op::Not => {
            lemma_clauses_extend(m, later, e, f, args[0]);
        },
        Op::And | Op::Or | Op::Xor | Op::Implies | Op::Ite => {
            assert forall|i: int| 0 <= i < n implies #[trigger] args[i] < t && encoded(m, e, args[i]) by {}
            lemma_arg_clauses_extend(m, later, e, f, t, n as int);
            lemma_own_extend(m, later, e, f, t);
        },
        Op::Eq => {
            let a = args[0];
            let b = args[1];
            assert(later.terms@[a as int] == m.terms@[a as int]);
            if is_bool(m, a) {
                lemma_clauses_extend(m, later, e, f, a);
                lemma_clauses_extend(m, later, e, f, b);
                lemma_encoded_extends(m, later, e, f, a);
                lemma_encoded_extends(m, later, e, f, b);
            }
        },
        Op::Distinct => {
            if n > 1 {
                lemma_pair_clauses_extend(m, later, e, f, t, arg_pairs(m, t).len() as int);
            }
        },
        _ => {},
    }
}

/// The same for the clauses of the first arguments.
pub proof fn lemma_arg_clauses_extend(m: &TermManager, later: &TermManager, e: &Encoder, f: &Encoder, t: TermId, k: int)
    requires
        m.wf(),
        later.wf(),
        m.extended_by(later),
        e.grows(f),
        m.has(t),
        0 <= k <= m.args(t).len(),
        forall|i: int| 0 <= i < k ==> #[trigger] m.args(t)[i] < t && encoded(m, e, m.args(t)[i]),
    ensures
        arg_clauses(later, f, t, k) == arg_clauses(m, e, t, k),
    decreases t, 0nat, k,
{
    assert(later.terms@[t as int] == m.terms@[t as int]);
    if k > 0 {
        assert(m.args(t)[k - 1] < t);
        lemma_arg_clauses_extend(m, later, e, f, t, k - 1);
        lemma_clauses_extend(m, later, e, f, m.args(t)[k - 1]);
    }
}

/// The clauses of a connective itself stay what they are when its parts have their literals.
proof fn lemma_own_extend(m: &TermManager, later: &TermManager, e: &Encoder, f: &Encoder, t: TermId)
    requires
        m.wf(),
        later.wf(),
        m.extended_by(later),
        e.grows(f),
        m.has(t),
        m.op(t) is And || m.op(t) is Or || m.op(t) is Xor || m.op(t) is Implies || m.op(t) is Ite,
        e.term_to_var@.contains_key(t),
        forall|i: int| 0 <= i < m.args(t).len() ==> #[trigger] m.args(t)[i] < t && encoded(m, e, m.args(t)[i]),
    ensures
        own_clauses(later, f, t) == own_clauses(m, e, t),
{
    let args = m.args(t);
    let n = args.len();
    assert(later.terms@[t as int] == m.terms@[t as int]);
    assert(m.terms@[t as int].fits(t as int));
    assert(later.args(t) == args);
    assert forall|i: int| 0 <= i < n implies lit_of(later, f, #[trigger] args[i]) == lit_of(m, e, args[i]) by {
        lemma_encoded_extends(m, later, e, f, args[i]);
    }
    let r = pos(e.var(t));
    assert(f.var(t) == e.var(t));
    match m.op(t) {
        Op::And | Op::Or => {
            assert(Seq::new(n, |i: int| flip(lit_of(m, e, args[i]))) =~= Seq::new(n, |i: int| flip(lit_of(later, f, args[i]))));
            assert(Seq::new(n, |i: int| lit_of(m, e, args[i])) =~= Seq::new(n, |i: int| lit_of(later, f, args[i])));
            assert(Seq::new(n, |i: int| seq![flip(r), lit_of(m, e, args[i])]) =~= Seq::new(
                n,
                |i: int| seq![flip(r), lit_of(later, f, args[i])],
            ));
            assert(Seq::new(n, |i: int| seq![flip(lit_of(m, e, args[i])), r]) =~= Seq::new(
                n,
                |i: int| seq![flip(lit_of(later, f, args[i])), r],
            ));
        },
        _ => {
            assert(lit_of(later, f, args[0]) == lit_of(m, e, args[0]));
            assert(lit_of(later, f, args[1]) == lit_of(m, e, args[1]));
            if m.op(t) is Ite {
                assert(lit_of(later, f, args[2]) == lit_of(m, e, args[2]));
            }
        },
    }
}

/// The pairs of positions are in range, the smaller first.
pub proof fn lemma_pair_rows(i: int, n: int)
    requires
        0 <= i <= n <= usize::MAX,
    ensures
        forall|k: int| 0 <= k < pair_rows(i, n).len() ==> (#[trigger] pair_rows(i, n)[k]).0 < pair_rows(i, n)[k].1 && pair_rows(i, n)[k].1
            < n,
    decreases i,
{
    if i > 0 {
        lemma_pair_rows(i - 1, n);
        let p = pair_rows(i - 1, n);
        let r = pair_row(i - 1, n);
        assert forall|k: int| 0 <= k < pair_rows(i, n).len() implies (#[trigger] pair_rows(i, n)[k]).0 < pair_rows(i, n)[k].1
            && pair_rows(i, n)[k].1 < n by {
            if k < p.len() {
                assert(pair_rows(i, n)[k] == p[k]);
            } else {
                assert(pair_rows(i, n)[k] == r[k - p.len()]);
            }
        }
    }
}

/// The same for the clauses of the first pairs, and for the literals of the pairs.
proof fn lemma_pair_clauses_extend(m: &TermManager, later: &TermManager, e: &Encoder, f: &Encoder, t: TermId, k: int)
    requires
        m.wf(),
        later.wf(),
        m.extended_by(later),
        e.grows(f),
        m.has(t),
        m.op(t) == Op::Distinct,
        m.args(t).len() > 1,
        encoded(m, e, t),
        0 <= k <= arg_pairs(m, t).len(),
    ensures
        pair_clauses(later, f, t, k) == pair_clauses(m, e, t, k),
        k == arg_pairs(m, t).len() ==> own_clauses(later, f, t) == own_clauses(m, e, t),
    decreases t, 0nat, k,
{
    let args = m.args(t);
    let n = args.len() as int;
    assert(distinct_done(m, e, t));
    assert(later.terms@[t as int] == m.terms@[t as int]);
    assert(m.terms@[t as int].fits(t as int));
    assert(n == m.terms@[t as int].args.len());
    lemma_pair_rows(n, n);
    if k > 0 {
        lemma_pair_clauses_extend(m, later, e, f, t, k - 1);
        let p = arg_pairs(m, t)[k - 1];
        let i = p.0 as int;
        let j = p.1 as int;
        let a = args[i];
        let b = args[j];
        let l = pair_lit(m, e, t, i, j);
        assert(later.terms@[a as int] == m.terms@[a as int]);
        assert(pair_done(m, e, t, i, j));
        assert(is_bool(m, args[i]) ==> args[i] < t && args[j] < t && encoded(m, e, args[i]) && encoded(m, e, args[j]));
        lemma_pair_extends(m, later, e, f, t, i, j);
        let q = eq_of(m, a, b);
        assert(later.terms@[q as int] == m.terms@[q as int]);
        lemma_eq_unique(later, q, a, b);
        assert(m.args(q)[0] == a && m.args(q)[1] == b);
        if is_bool(m, a) {
            lemma_clauses_extend(m, later, e, f, a);
            lemma_clauses_extend(m, later, e, f, b);
            lemma_encoded_extends(m, later, e, f, a);
            lemma_encoded_extends(m, later, e, f, b);
            assert(eq_clauses(later, f, q) == eq_clauses(m, e, q));
        }
    }
    if k == arg_pairs(m, t).len() {
        assert forall|c: int| 0 <= c < k implies row_lit(later, f, t, c) == #[trigger] row_lit(m, e, t, c) by {
            let p = arg_pairs(m, t)[c];
            let l = pair_lit(m, e, t, p.0 as int, p.1 as int);
            assert(is_bool(m, args[p.0 as int]) ==> args[p.0 as int] < t && args[p.1 as int] < t);
            lemma_pair_extends(m, later, e, f, t, p.0 as int, p.1 as int);
        }
        let r = pos(e.var(t));
        let c = k as nat;
        assert(Seq::new(c, |i: int| seq![flip(r), flip(row_lit(m, e, t, i))]) =~= Seq::new(
            c,
            |i: int| seq![flip(r), flip(row_lit(later, f, t, i))],
        ));
        assert(Seq::new(c, |i: int| row_lit(m, e, t, i)) =~= Seq::new(c, |i: int| row_lit(later, f, t, i)));
    }
}

/// The same for an equality.
pub proof fn lemma_eq_emits_extend(m: &TermManager, later: &TermManager, e: &Encoder, f: &Encoder, q: TermId)
    requires
        m.wf(),
        later.wf(),
        m.extended_by(later),
        e.grows(f),
        m.has(q),
        m.op(q) == Op::Eq,
        e.term_to_var@.contains_key(q),
        is_bool(m, m.arg(q, 0)) ==> encoded(m, e, m.arg(q, 0)) && encoded(m, e, m.arg(q, 1)),
    ensures
        eq_emits(later, f, q) == eq_emits(m, e, q),
{
    assert(later.terms@[q as int] == m.terms@[q as int]);
    assert(m.terms@[q as int].fits(q as int));
    let a = m.arg(q, 0);
    let b = m.arg(q, 1);
    assert(later.terms@[a as int] == m.terms@[a as int]);
    if is_bool(m, a) {
        lemma_clauses_extend(m, later, e, f, a);
        lemma_clauses_extend(m, later, e, f, b);
        lemma_encoded_extends(m, later, e, f, a);
        lemma_encoded_extends(m, later, e, f, b);
    }
}

/// The clauses of the arguments of a connective and then its own are its clauses.
pub(crate) proof fn lemma_emitted(
    m: &TermManager,
    before: Seq<Seq<Lit>>,
    e: &Encoder,
    f: &Encoder,
    t: TermId,
    lits: Seq<Lit>,
    cs: Seq<Vec<Lit>>,
)
    requires
        m.wf(),
        m.extended_by(m),
        e.grows(f),
        m.has(t),
        m.op(t) is And || m.op(t) is Or || m.op(t) is Xor || m.op(t) is Implies || m.op(t) is Ite,
        args_encoded(m, e, t, lits),
        texts(e.clauses@) == before + arg_clauses(m, e, t, m.args(t).len() as int),
        texts(f.clauses@) == texts(e.clauses@) + texts(cs),
        texts(cs) == own_clauses(m, f, t),
    ensures
        texts(f.clauses@) == before + clauses_of(m, f, t),
{
    let n = m.args(t).len() as int;
    assert(m.terms@[t as int].fits(t as int));
    assert forall|i: int| 0 <= i < n implies #[trigger] m.args(t)[i] < t && encoded(m, e, m.args(t)[i]) by {
        let l = lits[i];
    }
    lemma_arg_clauses_extend(m, m, e, f, t, n);
    assert(before + arg_clauses(m, f, t, n) + own_clauses(m, f, t) =~= before + (arg_clauses(m, f, t, n) + own_clauses(m, f, t)));
}

} // verus!
