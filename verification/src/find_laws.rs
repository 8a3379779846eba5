//! What the encoding of a formula has on record for the theories and the search.
use crate::emission::brings;
use crate::emission::finds;
use crate::emission::found;
use crate::emission::side_finds;
use crate::emission::Find;
use crate::encoder::Encoder;
use crate::semantics::is_bool;
use crate::term::BvOp;
use crate::term::Op;
use crate::term::TermId;
use crate::term::TermManager;
use crate::term::INT_SORT;
use crate::term::REAL_SORT;
use crate::track::reaches;
use crate::walk::occurs;
use vstd::prelude::*;

verus! {

/// The term is an unknown of arithmetic: a number variable, or a number that a function or an array
/// gives.
pub open spec fn is_unknown_number(m: &TermManager, y: TermId) -> bool {
    &&& m.sort_of(y) == INT_SORT || m.sort_of(y) == REAL_SORT
    &&& m.op(y) is Var || m.op(y) is Apply || m.op(y) is Select
}

/// The term is a variable of bit vectors.
pub open spec fn is_unknown_word(m: &TermManager, y: TermId) -> bool {
    &&& m.op(y) is Var
    &&& m.sort_of(y) != INT_SORT && m.sort_of(y) != REAL_SORT
    &&& m.sort_of(y) < m.sorts@.len() && m.sorts@[m.sort_of(y) as int] is BitVec
}

/// The term divides bit vectors.
pub open spec fn is_division(m: &TermManager, y: TermId) -> bool {
    m.op(y) == Op::Bv(BvOp::Udiv) || m.op(y) == Op::Bv(BvOp::Sdiv) || m.op(y) == Op::Bv(BvOp::Urem) || m.op(y) == Op::Bv(BvOp::Srem)
}

/// The term is a connective between formulas.
pub open spec fn connects(m: &TermManager, t: TermId) -> bool {
    match m.op(t) {
        Op::Not | Op::And | Op::Or | Op::Xor | Op::Implies | Op::Ite => true,
        Op::Eq => m.args(t).len() == 2 && is_bool(m, m.arg(t, 0)),
        Op::Distinct => m.args(t).len() > 1 && forall|i: int| 0 <= i < m.args(t).len() ==> is_bool(m, #[trigger] m.args(t)[i]),
        _ => false,
    }
}

/// The term compares terms that are no formulas.
pub open spec fn compares(m: &TermManager, t: TermId) -> bool {
    match m.op(t) {
        Op::Compare(_) | Op::BvCompare(_) => m.args(t).len() == 2,
        Op::Eq => m.args(t).len() == 2 && !is_bool(m, m.arg(t, 0)),
        Op::Distinct => m.args(t).len() > 1 && forall|i: int| 0 <= i < m.args(t).len() ==> !is_bool(m, #[trigger] m.args(t)[i]),
        _ => false,
    }
}

/// Any other pair of positions for a position.
proof fn lemma_other_position(m: &TermManager, t: TermId, k: int) -> (r: (int, int))
    requires
        m.wf(),
        m.has(t),
        m.args(t).len() > 1,
        0 <= k < m.args(t).len(),
    ensures
        0 <= r.0 < r.1 < m.args(t).len(),
        r.0 == k || r.1 == k,
        m.args(t)[r.0] < t,
        m.args(t)[r.1] < t,
{
    if k == 0 {
        (0, 1)
    } else {
        (0, k)
    }
}

/// What a part of a formula brings, the formula brings.
pub proof fn law_what_parts_bring_is_brought(m: &TermManager, t: TermId, s: TermId, x: Find)
    requires
        m.wf(),
        m.has(t),
        m.args(t).contains(s),
        connects(m, t),
        finds(m, s, x),
    ensures
        finds(m, t, x),
{
    let k = choose|k: int| 0 <= k < m.args(t).len() && m.args(t)[k] == s;
    assert(m.args(t)[k] < t);
    if m.op(t) == Op::Distinct {
        let (i, j) = lemma_other_position(m, t, k);
        assert(is_bool(m, m.args(t)[i]));
    }
}

/// A quantified formula brings quantifiers.
pub proof fn law_quantifiers_are_brought(m: &TermManager, t: TermId)
    requires
        m.has(t),
        m.op(t) is Forall || m.op(t) is Exists,
    ensures
        finds(m, t, Find::Quantifier),
{
}

/// A comparison brings the unknowns of its sides, and notes divisions there.
pub proof fn law_unknowns_of_comparisons_are_brought(m: &TermManager, t: TermId, s: TermId, y: TermId)
    requires
        m.wf(),
        m.has(t),
        m.args(t).contains(s),
        compares(m, t),
        reaches(m, s, y),
        m.has(y),
    ensures
        is_unknown_number(m, y) ==> finds(m, t, Find::Number(y)),
        is_unknown_word(m, y) ==> finds(m, t, Find::Word(y)),
        is_division(m, y) ==> finds(m, t, Find::Division),
{
    let k = choose|k: int| 0 <= k < m.args(t).len() && m.args(t)[k] == s;
    assert(m.args(t)[k] < t);
    assert(is_unknown_number(m, y) ==> side_finds(m, s, Find::Number(y)));
    assert(is_unknown_word(m, y) ==> side_finds(m, s, Find::Word(y)));
    assert(is_division(m, y) ==> side_finds(m, s, Find::Division));
    if m.op(t) == Op::Distinct {
        let (i, j) = lemma_other_position(m, t, k);
        assert(!is_bool(m, m.args(t)[i]));
    }
}

/// What is reached occurs.
proof fn lemma_reached_occurs(m: &TermManager, t: TermId, y: TermId)
    requires
        reaches(m, t, y),
    ensures
        occurs(m, t, y),
    decreases t,
{
    if t != y {
        let i = choose|i: int| 0 <= i < m.args(t).len() && #[trigger] m.args(t)[i] < t && reaches(m, m.args(t)[i], y);
        lemma_reached_occurs(m, m.args(t)[i], y);
    }
}

/// The find is justified: it occurs in the formula, and is what it is said to be.
pub open spec fn justified(m: &TermManager, t: TermId, x: Find) -> bool {
    match x {
        Find::Quantifier => exists|y: TermId| #[trigger] occurs(m, t, y) && m.has(y) && (m.op(y) is Forall || m.op(y) is Exists),
        Find::Number(y) => occurs(m, t, y) && is_unknown_number(m, y),
        Find::Word(y) => occurs(m, t, y) && is_unknown_word(m, y),
        Find::Division => exists|y: TermId| #[trigger] occurs(m, t, y) && m.has(y) && is_division(m, y),
    }
}

/// What one side of a comparison brings is justified.
proof fn lemma_side_justified(m: &TermManager, s: TermId, x: Find)
    requires
        side_finds(m, s, x),
    ensures
        justified(m, s, x),
{
    match x {
        Find::Quantifier => {},
        Find::Number(y) => {
            lemma_reached_occurs(m, s, y);
        },
        Find::Word(y) => {
            lemma_reached_occurs(m, s, y);
        },
        Find::Division => {
            let y = choose|y: usize| #[trigger] reaches(m, s, y) && m.has(y) && is_division(m, y);
            lemma_reached_occurs(m, s, y);
        },
    }
}

/// What is justified of an argument is so of the whole.
proof fn lemma_justified_above(m: &TermManager, t: TermId, k: int, x: Find)
    requires
        m.wf(),
        m.has(t),
        !(m.op(t) is Forall) && !(m.op(t) is Exists),
        0 <= k < m.args(t).len(),
        justified(m, m.args(t)[k], x),
    ensures
        justified(m, t, x),
{
    let s = m.args(t)[k];
    assert(s < t);
    assert forall|y: TermId| #[trigger] occurs(m, s, y) implies occurs(m, t, y) by {}
    match x {
        Find::Quantifier => {
            let y = choose|y: TermId| #[trigger] occurs(m, s, y) && m.has(y) && (m.op(y) is Forall || m.op(y) is Exists);
            assert(occurs(m, t, y));
        },
        Find::Division => {
            let y = choose|y: TermId| #[trigger] occurs(m, s, y) && m.has(y) && is_division(m, y);
            assert(occurs(m, t, y));
        },
        _ => {},
    }
}

/// A formula brings nothing that does not occur in it.
pub proof fn law_only_what_occurs_is_brought(m: &TermManager, t: TermId, x: Find)
    requires
        m.wf(),
        finds(m, t, x),
    ensures
        justified(m, t, x),
    decreases t,
{
    let args = m.args(t);
    let n = args.len() as int;
    assert(occurs(m, t, t));
    match m.op(t) {
        Op::Not | Op::And | Op::Or | Op::Xor | Op::Implies | Op::Ite => {
            let i = choose|i: int| 0 <= i < n && #[trigger] args[i] < t && finds(m, args[i], x);
            law_only_what_occurs_is_brought(m, args[i], x);
            lemma_justified_above(m, t, i, x);
        },
        Op::Eq => {
            if is_bool(m, args[0]) {
                let i = if finds(m, args[0], x) {
                    0
                } else {
                    1int
                };
                law_only_what_occurs_is_brought(m, args[i], x);
                lemma_justified_above(m, t, i, x);
            } else {
                let i = if side_finds(m, args[0], x) {
                    0
                } else {
                    1int
                };
                lemma_side_justified(m, args[i], x);
                lemma_justified_above(m, t, i, x);
            }
        },
        Op::Compare(_) | Op::BvCompare(_) => {
            let i = if side_finds(m, args[0], x) {
                0
            } else {
                1int
            };
            lemma_side_justified(m, args[i], x);
            lemma_justified_above(m, t, i, x);
        },
        Op::Distinct => {
            let (i, j) = choose|i: int, j: int|
                0 <= i < j < n && #[trigger] args[i] < t && #[trigger] args[j] < t && if is_bool(m, args[i]) {
                    finds(m, args[i], x) || finds(m, args[j], x)
                } else {
                    side_finds(m, args[i], x) || side_finds(m, args[j], x)
                };
            if is_bool(m, args[i]) {
                let k = if finds(m, args[i], x) {
                    i
                } else {
                    j
                };
                law_only_what_occurs_is_brought(m, args[k], x);
                lemma_justified_above(m, t, k, x);
            } else {
                let k = if side_finds(m, args[i], x) {
                    i
                } else {
                    j
                };
                lemma_side_justified(m, args[k], x);
                lemma_justified_above(m, t, k, x);
            }
        },
        Op::Var(_) => {
            lemma_side_justified(m, t, x);
        },
        _ => {},
    }
}

/// An encoding has on record what it had before and what the formula brings: the quantifiers, the
/// unknowns of arithmetic and of bit vectors, and the divisions.
pub proof fn law_what_is_brought_is_on_record(e: &Encoder, f: &Encoder, m: &TermManager, t: TermId, y: TermId)
    requires
        brings(e, f, m, t),
    ensures
        f.has_quantifiers <==> e.has_quantifiers || finds(m, t, Find::Quantifier),
        f.arith_terms@.contains(y) <==> e.arith_terms@.contains(y) || finds(m, t, Find::Number(y)),
        f.bv_terms@.contains(y) <==> e.bv_terms@.contains(y) || finds(m, t, Find::Word(y)),
        f.has_bv_arith_ops <==> e.has_bv_arith_ops || finds(m, t, Find::Division),
{
    assert(found(f, Find::Quantifier) <==> found(e, Find::Quantifier) || finds(m, t, Find::Quantifier));
    assert(found(f, Find::Number(y)) <==> found(e, Find::Number(y)) || finds(m, t, Find::Number(y)));
    assert(found(f, Find::Word(y)) <==> found(e, Find::Word(y)) || finds(m, t, Find::Word(y)));
    assert(found(f, Find::Division) <==> found(e, Find::Division) || finds(m, t, Find::Division));
}

} // verus!
