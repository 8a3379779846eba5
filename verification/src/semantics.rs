//! What formulas mean.
use crate::term::Op;
use crate::term::TermId;
use crate::term::TermManager;
use crate::term::BOOL_SORT;
use vstd::prelude::*;

verus! {

/// A reading of the parts of formulas that the propositional structure leaves open: the truth of
/// atoms, and which terms are equal.
pub struct Reading {
    pub atom: spec_fn(TermId) -> bool,
    pub same: spec_fn(TermId, TermId) -> bool,
}

/// The term is of Boolean sort.
pub open spec fn is_bool(m: &TermManager, t: TermId) -> bool {
    m.has(t) && m.sort_of(t) == BOOL_SORT
}

/// The equality of two terms under a reading: agreement for formulas, else as the reading has it.
pub open spec fn equal_under(m: &TermManager, r: Reading, bound: TermId, a: TermId, b: TermId) -> bool
    decreases bound, 0nat,
{
    if is_bool(m, a) && a < bound && b < bound {
        truth(m, r, a) == truth(m, r, b)
    } else {
        (r.same)(a, b)
    }
}

/// The truth of a formula under a reading.
pub open spec fn truth(m: &TermManager, r: Reading, t: TermId) -> bool
    decreases t, 1nat,
{
    if !m.has(t) {
        (r.atom)(t)
    } else {
        let args = m.args(t);
        match m.op(t) {
            Op::True => true,
            Op::False => false,
            Op::Not => args[0] < t && !truth(m, r, args[0]),
            Op::And => forall|i: int| 0 <= i < args.len() ==> (#[trigger] args[i] < t && truth(m, r, args[i])),
            Op::Or => exists|i: int| 0 <= i < args.len() && (#[trigger] args[i] < t && truth(m, r, args[i])),
            Op::Xor => args[0] < t && args[1] < t && truth(m, r, args[0]) != truth(m, r, args[1]),
            Op::Implies => args[0] < t && args[1] < t && (truth(m, r, args[0]) ==> truth(m, r, args[1])),
            Op::Ite => args[0] < t && args[1] < t && args[2] < t && if truth(m, r, args[0]) {
                truth(m, r, args[1])
            } else {
                truth(m, r, args[2])
            },
            Op::Eq => equal_under(m, r, t, args[0], args[1]),
            Op::Distinct => forall|i: int, j: int|
                0 <= i < j < args.len() ==> !equal_under(m, r, t, #[trigger] args[i], #[trigger] args[j]),
            _ => (r.atom)(t),
        }
    }
}

/// The meaning of a formula does not change when its store grows.
pub proof fn lemma_truth_extends(m: &TermManager, later: &TermManager, r: Reading, t: TermId)
    requires
        m.wf(),
        later.wf(),
        m.extended_by(later),
        m.has(t),
    ensures
        truth(m, r, t) == truth(later, r, t),
    decreases t,
{
    let args = m.args(t);
    assert(later.terms@[t as int] == m.terms@[t as int]);
    assert(later.has(t) && later.args(t) == args && later.op(t) == m.op(t));
    assert(m.terms@[t as int].fits(t as int));
    assert forall|i: int| 0 <= i < args.len() implies #[trigger] args[i] < t && m.has(args[i]) && truth(m, r, args[i])
        == truth(later, r, args[i]) by {
        lemma_truth_extends(m, later, r, args[i]);
    }
    assert forall|i: int, j: int|
        0 <= i < args.len() && 0 <= j < args.len() implies equal_under(m, r, t, #[trigger] args[i], #[trigger] args[j])
        == equal_under(later, r, t, args[i], args[j]) by {
        assert(args[i] < t && args[j] < t);
        assert(later.terms@[args[i] as int] == m.terms@[args[i] as int]);
    }
    match m.op(t) {
        Op::And => {
            assert(truth(m, r, t) ==> truth(later, r, t)) by {
                if truth(m, r, t) {
                    assert(forall|i: int| 0 <= i < args.len() ==> (#[trigger] args[i] < t && truth(m, r, args[i])));
                }
            }
            assert(truth(later, r, t) ==> truth(m, r, t)) by {
                if truth(later, r, t) {
                    assert(forall|i: int| 0 <= i < args.len() ==> (#[trigger] args[i] < t && truth(later, r, args[i])));
                }
            }
        },
        Op::Or => {
            if truth(m, r, t) {
                let i = choose|i: int| 0 <= i < args.len() && (#[trigger] args[i] < t && truth(m, r, args[i]));
                assert(args[i] < t && truth(later, r, args[i]));
            }
            if truth(later, r, t) {
                let i = choose|i: int| 0 <= i < args.len() && (#[trigger] args[i] < t && truth(later, r, args[i]));
                assert(args[i] < t && truth(m, r, args[i]));
            }
        },
        _ => {},
    }
}

} // verus!
