//! What the clausal encoding promises.
use crate::cnf::clause_true;
use crate::cnf::flip;
use crate::cnf::lit_true;
use crate::cnf::pos;
use crate::cnf::Assignment;
use crate::cnf::Lit;
use crate::encode::atom_done;
use crate::encode::connective;
use crate::encode::distinct_done;
use crate::encode::encoded;
use crate::encode::eq_gates;
use crate::encode::eq_of;
use crate::encode::is_distinct_clause;
use crate::encode::is_pair_lit;
use crate::encode::lemma_lit_truth;
use crate::encode::linked;
use crate::encode::lit_of;
use crate::encode::pair_done;
use crate::encode::pair_lit;
use crate::encode::sigma;
use crate::encode::step;
use crate::encode::valid;
use crate::encoder::Encoder;
use crate::semantics::equal_under;
use crate::semantics::is_bool;
use crate::semantics::truth;
use crate::semantics::Reading;
use crate::term::Op;
use crate::term::TermId;
use crate::term::TermManager;
use vstd::prelude::*;

verus! {

/// The assignment makes every emitted clause true.
pub open spec fn satisfies(a: Assignment, e: &Encoder) -> bool {
    forall|i: int| 0 <= i < e.clauses@.len() ==> clause_true(a, (#[trigger] e.clauses@[i])@)
}

/// The reading takes every atom that has a variable as the assignment has it.
pub open spec fn agrees(m: &TermManager, e: &Encoder, a: Assignment, r: Reading) -> bool {
    forall|t: usize| #[trigger] e.term_to_var@.contains_key(t) && m.has(t) && !connective(m, t) ==> if m.op(t) == Op::Eq {
        (r.same)(m.arg(t, 0), m.arg(t, 1)) == a(e.var(t))
    } else {
        (r.atom)(t) == a(e.var(t))
    }
}

/// An emitted clause is true under an assignment that satisfies the clauses.
proof fn lemma_emitted(a: Assignment, e: &Encoder, c: Seq<Lit>)
    requires
        satisfies(a, e),
        e.has_clause(c),
    ensures
        clause_true(a, c),
{
    let i = choose|i: int| 0 <= i < e.clauses@.len() && (#[trigger] e.clauses@[i])@ == c;
    assert(clause_true(a, e.clauses@[i]@));
}

/// An emitted clause of two literals.
proof fn lemma_emitted2(a: Assignment, e: &Encoder, x: Lit, y: Lit)
    requires
        satisfies(a, e),
        e.has_clause(seq![x, y]),
    ensures
        lit_true(a, x) || lit_true(a, y),
{
    lemma_emitted(a, e, seq![x, y]);
    let c = seq![x, y];
    let i = choose|i: int| 0 <= i < c.len() && lit_true(a, #[trigger] c[i]);
    assert(c[i] == x || c[i] == y);
}

/// An emitted clause of three literals.
proof fn lemma_emitted3(a: Assignment, e: &Encoder, x: Lit, y: Lit, z: Lit)
    requires
        satisfies(a, e),
        e.has_clause(seq![x, y, z]),
    ensures
        lit_true(a, x) || lit_true(a, y) || lit_true(a, z),
{
    lemma_emitted(a, e, seq![x, y, z]);
    let c = seq![x, y, z];
    let i = choose|i: int| 0 <= i < c.len() && lit_true(a, #[trigger] c[i]);
    assert(c[i] == x || c[i] == y || c[i] == z);
}

/// The literal implies the formula, or the formula the literal.
spec fn faithful(m: &TermManager, e: &Encoder, a: Assignment, r: Reading, t: TermId, forward: bool) -> bool {
    if forward {
        lit_true(a, lit_of(m, e, t)) ==> truth(m, r, t)
    } else {
        truth(m, r, t) ==> lit_true(a, lit_of(m, e, t))
    }
}

/// Under an assignment that satisfies the emitted clauses, the literal of a formula implies that
/// the formula is true (`forward`), or is implied by it (otherwise).
proof fn lemma_faithful(m: &TermManager, e: &Encoder, a: Assignment, r: Reading, t: TermId, forward: bool)
    requires
        linked(m, e),
        m.has(t),
        encoded(m, e, t),
        satisfies(a, e),
        agrees(m, e, a, r),
    ensures
        faithful(m, e, a, r, t, forward),
    decreases t, 1nat,
{
    let args = m.args(t);
    let v = pos(e.var(t));
    assert(m.terms@[t as int].fits(t as int));
    match m.op(t) {
        Op::True => {
            lemma_unit(a, e, pos(e.var(crate::term::TRUE_TERM)));
        },
        Op::False => {
            lemma_unit(a, e, flip(pos(e.var(crate::term::FALSE_TERM))));
        },
        Op::Not => {
            lemma_faithful(m, e, a, r, args[0], !forward);
        },
        Op::And => {
            assert forall|i: int| 0 <= i < args.len() implies faithful(m, e, a, r, #[trigger] args[i], forward) by {
                assert(args[i] < t);
                lemma_faithful(m, e, a, r, args[i], forward);
            }
            if forward && lit_true(a, v) {
                assert forall|i: int| 0 <= i < args.len() implies #[trigger] args[i] < t && truth(m, r, args[i]) by {
                    assert(faithful(m, e, a, r, args[i], forward));
                    lemma_emitted2(a, e, flip(v), lit_of(m, e, args[i]));
                }
            }
            if !forward && truth(m, r, t) {
                let c = Seq::new(args.len(), |i: int| flip(lit_of(m, e, args[i]))).push(v);
                lemma_emitted(a, e, c);
                let k = choose|k: int| 0 <= k < c.len() && lit_true(a, #[trigger] c[k]);
                if k < args.len() {
                    assert(args[k] < t && truth(m, r, args[k]));
                    assert(faithful(m, e, a, r, args[k], forward));
                    assert(c[k] == flip(lit_of(m, e, args[k])));
                }
            }
        },
        Op::Or => {
            assert forall|i: int| 0 <= i < args.len() implies faithful(m, e, a, r, #[trigger] args[i], forward) by {
                assert(args[i] < t);
                lemma_faithful(m, e, a, r, args[i], forward);
            }
            if forward && lit_true(a, v) {
                let c = seq![flip(v)] + Seq::new(args.len(), |i: int| lit_of(m, e, args[i]));
                lemma_emitted(a, e, c);
                let k = choose|k: int| 0 <= k < c.len() && lit_true(a, #[trigger] c[k]);
                assert(k > 0);
                assert(c[k] == lit_of(m, e, args[k - 1]));
                assert(faithful(m, e, a, r, args[k - 1], forward));
                assert(args[k - 1] < t && truth(m, r, args[k - 1]));
            }
            if !forward && truth(m, r, t) {
                let i = choose|i: int| 0 <= i < args.len() && (#[trigger] args[i] < t && truth(m, r, args[i]));
                assert(faithful(m, e, a, r, args[i], forward));
                lemma_emitted2(a, e, flip(lit_of(m, e, args[i])), v);
            }
        },
        Op::Xor => {
            lemma_both(m, e, a, r, t, args[0]);
            lemma_both(m, e, a, r, t, args[1]);
            let x = lit_of(m, e, args[0]);
            let y = lit_of(m, e, args[1]);
            lemma_emitted3(a, e, flip(v), x, y);
            lemma_emitted3(a, e, flip(v), flip(x), flip(y));
            lemma_emitted3(a, e, flip(x), y, v);
            lemma_emitted3(a, e, x, flip(y), v);
        },
        Op::Implies => {
            lemma_faithful(m, e, a, r, args[0], !forward);
            lemma_faithful(m, e, a, r, args[1], forward);
            let x = lit_of(m, e, args[0]);
            let y = lit_of(m, e, args[1]);
            lemma_emitted3(a, e, flip(v), flip(x), y);
            lemma_emitted2(a, e, x, v);
            lemma_emitted2(a, e, flip(y), v);
        },
        Op::Ite => {
            lemma_faithful(m, e, a, r, args[0], true);
            lemma_faithful(m, e, a, r, args[0], false);
            lemma_faithful(m, e, a, r, args[1], forward);
            lemma_faithful(m, e, a, r, args[2], forward);
            let c = lit_of(m, e, args[0]);
            let x = lit_of(m, e, args[1]);
            let y = lit_of(m, e, args[2]);
            lemma_emitted3(a, e, flip(c), flip(v), x);
            lemma_emitted3(a, e, flip(c), flip(x), v);
            lemma_emitted3(a, e, c, flip(v), y);
            lemma_emitted3(a, e, c, flip(y), v);
        },
        Op::Eq => {
            if is_bool(m, args[0]) {
                lemma_both(m, e, a, r, t, args[0]);
                lemma_both(m, e, a, r, t, args[1]);
                lemma_eq_gates(m, e, a, t);
                assert(truth(m, r, t) == equal_under(m, r, t, args[0], args[1]));
            } else {
                assert(e.term_to_var@.contains_key(t));
                assert(truth(m, r, t) == equal_under(m, r, t, args[0], args[1]));
            }
        },
        Op::Distinct => {
            if args.len() <= 1 {
                lemma_unit(a, e, pos(e.var(crate::term::TRUE_TERM)));
            } else {
                assert(distinct_done(m, e, t));
                assert forall|i: int, j: int| 0 <= i < j < args.len() implies lit_true(a, #[trigger] pair_lit(m, e, t, i, j))
                    == equal_under(m, r, t, args[i], args[j]) by {
                    let x = args[i];
                    let y = args[j];
                    let q = eq_of(m, x, y);
                    assert(pair_done(m, e, t, i, j)) by {
                        let l = pair_lit(m, e, t, i, j);
                    }
                    assert(m.terms@[q as int].fits(q as int));
                    assert(m.args(q)[0] == x && m.args(q)[1] == y);
                    if is_bool(m, x) {
                        assert(x < t && y < t && encoded(m, e, x) && encoded(m, e, y));
                        lemma_both(m, e, a, r, t, x);
                        lemma_both(m, e, a, r, t, y);
                        lemma_eq_gates(m, e, a, q);
                    } else {
                        assert(atom_done(m, e, q));
                        assert(e.term_to_var@.contains_key(q) && !connective(m, q));
                    }
                }
                if forward && lit_true(a, v) {
                    assert forall|i: int, j: int| 0 <= i < j < args.len() implies !equal_under(
                        m,
                        r,
                        t,
                        #[trigger] args[i],
                        #[trigger] args[j],
                    ) by {
                        let l = pair_lit(m, e, t, i, j);
                        lemma_emitted2(a, e, flip(v), flip(l));
                    }
                }
                if !forward && truth(m, r, t) {
                    let d = choose|d: int| 0 <= d < e.clauses@.len() && is_distinct_clause(m, e, t, (#[trigger] e.clauses@[d])@);
                    let c = e.clauses@[d]@;
                    assert(clause_true(a, c));
                    let k = choose|k: int| 0 <= k < c.len() && lit_true(a, #[trigger] c[k]);
                    if k < c.len() - 1 {
                        assert(is_pair_lit(m, e, t, c[k]));
                        let (i, j) = choose|i: int, j: int| 0 <= i < j < args.len() && #[trigger] pair_lit(m, e, t, i, j) == c[k];
                        assert(!equal_under(m, r, t, args[i], args[j]));
                    }
                }
            }
        },
        _ => {
            assert(e.term_to_var@.contains_key(t));
            assert(!connective(m, t));
        },
    }
}

/// Both directions of an argument.
proof fn lemma_both(m: &TermManager, e: &Encoder, a: Assignment, r: Reading, t: TermId, x: TermId)
    requires
        linked(m, e),
        m.has(x),
        x < t,
        encoded(m, e, x),
        satisfies(a, e),
        agrees(m, e, a, r),
    ensures
        lit_true(a, lit_of(m, e, x)) == truth(m, r, x),
    decreases t, 0nat,
{
    lemma_faithful(m, e, a, r, x, true);
    lemma_faithful(m, e, a, r, x, false);
}

/// An emitted unit clause.
proof fn lemma_unit(a: Assignment, e: &Encoder, x: Lit)
    requires
        satisfies(a, e),
        e.has_clause(seq![x]),
    ensures
        lit_true(a, x),
{
    lemma_emitted(a, e, seq![x]);
    let c = seq![x];
    let i = choose|i: int| 0 <= i < c.len() && lit_true(a, #[trigger] c[i]);
    assert(c[i] == x);
}

/// The clauses of an equality of formulas make its literal true exactly if theirs agree.
proof fn lemma_eq_gates(m: &TermManager, e: &Encoder, a: Assignment, q: TermId)
    requires
        satisfies(a, e),
        eq_gates(m, e, q),
        is_bool(m, m.arg(q, 0)),
    ensures
        lit_true(a, pos(e.var(q))) == (lit_true(a, lit_of(m, e, m.arg(q, 0))) == lit_true(a, lit_of(m, e, m.arg(q, 1)))),
{
    let v = pos(e.var(q));
    let x = lit_of(m, e, m.arg(q, 0));
    let y = lit_of(m, e, m.arg(q, 1));
    lemma_emitted3(a, e, flip(v), flip(x), y);
    lemma_emitted3(a, e, flip(v), flip(y), x);
    lemma_emitted3(a, e, x, y, v);
    lemma_emitted3(a, e, flip(x), flip(y), v);
}

/// Under an assignment that satisfies the emitted clauses the literal of a formula is true exactly
/// if the formula is.
pub proof fn law_encoding_is_exact(m: &TermManager, e: &Encoder, a: Assignment, r: Reading, t: TermId)
    requires
        linked(m, e),
        m.has(t),
        encoded(m, e, t),
        satisfies(a, e),
        agrees(m, e, a, r),
    ensures
        lit_true(a, lit_of(m, e, t)) == truth(m, r, t),
{
    lemma_faithful(m, e, a, r, t, true);
    lemma_faithful(m, e, a, r, t, false);
}

/// The encoding restricts nothing: whatever the atoms are taken to be, the assignment that reads
/// every variable as its formula satisfies each clause that an encoding emits, and gives the
/// literal of the formula the formula's truth value.
pub proof fn law_encoding_is_conservative(
    m: &TermManager,
    e: &Encoder,
    later: &TermManager,
    f: &Encoder,
    r: Reading,
    t: TermId,
)
    requires
        step(m, e, later, f),
        later.has(t),
        encoded(later, f, t),
    ensures
        forall|i: int| e.clauses@.len() <= i < f.clauses@.len() ==> clause_true(sigma(later, f, r), (#[trigger] f.clauses@[i])@),
        lit_true(sigma(later, f, r), lit_of(later, f, t)) == truth(later, r, t),
{
    lemma_lit_truth(later, f, r, t);
    assert forall|i: int| e.clauses@.len() <= i < f.clauses@.len() implies clause_true(
        sigma(later, f, r),
        (#[trigger] f.clauses@[i])@,
    ) by {
        assert(valid(later, f, f.clauses@[i]@));
    }
}

} // verus!
