//! The clausal encoding of formulas.
use crate::axioms::lemma_extended_twice;
use crate::cnf::clause_true;
use crate::cnf::flip;
use crate::cnf::lit_true;
use crate::cnf::pos;
use crate::cnf::Assignment;
use crate::cnf::Lit;
use crate::cnf::Var;
use crate::emission::arg_clauses;
use crate::emission::arg_pairs;
use crate::emission::clauses_of;
use crate::emission::distinct_clauses;
use crate::emission::eq_clauses;
use crate::emission::eq_emits;
use crate::emission::lemma_arg_clauses_extend;
use crate::emission::lemma_clauses_extend;
use crate::emission::lemma_emitted;
use crate::emission::lemma_eq_emits_extend;
use crate::emission::lemma_pair_rows;
use crate::emission::lemma_brings_all;
use crate::emission::lemma_brings_distinct;
use crate::emission::lemma_brings_next;
use crate::emission::lemma_brings_next_pair;
use crate::emission::lemma_brings_on;
use crate::emission::lemma_brings_sides;
use crate::emission::lemma_same_finds;
use crate::emission::own_clauses;
use crate::emission::pair_clauses;
use crate::emission::pair_row;
use crate::emission::pair_rows;
use crate::emission::atom_finds;
use crate::emission::brings;
use crate::emission::brings_before;
use crate::emission::brings_nothing;
use crate::emission::brings_pair;
use crate::emission::brings_pairs;
use crate::emission::found;
use crate::emission::side_finds;
use crate::emission::Find;
use crate::emission::row_lit;
use crate::emission::texts;
use crate::encoder::comparison_type;
use crate::encoder::constraint_of;
use crate::encoder::lemma_advances;
use crate::encoder::lemma_advances_self;
use crate::encoder::parsed_for;
use crate::encoder::Constraint;
use crate::encoder::Encoder;
use crate::linear::comparison_of;
use crate::linear::lemma_comparison_extends;
use crate::linear::parse_arith_comparison;
use crate::linear::ArithConstraintType;
use crate::maps::map_get;
use crate::semantics::equal_under;
use crate::semantics::is_bool;
use crate::semantics::lemma_truth_extends;
use crate::semantics::truth;
use crate::semantics::Reading;
use crate::term::BvOp;
use crate::term::BvRel;
use crate::term::Op;
use crate::term::Rel;
use crate::term::Sort;
use crate::term::TermId;
use crate::term::TermManager;
use crate::term::BOOL_SORT;
use crate::term::FALSE_TERM;
use crate::term::INT_SORT;
use crate::term::REAL_SORT;
use crate::term::TRUE_TERM;
use crate::track::arith_leaf;
use crate::track::bv_leaf;
use crate::track::divides;
use crate::track::lemma_extended_self;
use crate::track::lemma_registered_extends;
use crate::track::lemma_walked_extends;
use crate::track::reaches;
use crate::track::registered;
use crate::track::walked_ok;
use vstd::prelude::*;

verus! {

/// The tables say of each variable what its term says.
pub open spec fn linked(m: &TermManager, e: &Encoder) -> bool {
    &&& m.wf()
    &&& e.wf()
    &&& forall|v: usize| #[trigger] e.constraints@.contains_key(v) ==> m.has(e.var_to_term@[v as int]) && constraint_of(
        m,
        e.var_to_term@[v as int],
    ) == Some(e.constraints@[v])
    &&& forall|v: usize| #[trigger] e.parsed@.contains_key(v) ==> m.has(e.var_to_term@[v as int]) && parsed_for(
        m,
        e.var_to_term@[v as int],
        e.parsed@[v],
    )
    &&& walked_ok(m, e)
    &&& bits_in(m, e)
}

/// The registered variables of bit-vector sort are terms of the store.
pub open spec fn bits_in(m: &TermManager, e: &Encoder) -> bool {
    forall|t: usize| #[trigger] e.bv_terms@.contains(t) ==> m.has(t)
}

/// The operator joins formulas.
pub open spec fn connective(m: &TermManager, t: TermId) -> bool {
    match m.op(t) {
        Op::True | Op::False | Op::Not | Op::And | Op::Or | Op::Xor | Op::Implies | Op::Ite | Op::Distinct => true,
        Op::Eq => is_bool(m, m.arg(t, 0)),
        _ => false,
    }
}

/// The operator compares two terms of a theory.
pub open spec fn compares(op: Op) -> bool {
    match op {
        Op::Eq | Op::Compare(_) | Op::BvCompare(_) => true,
        _ => false,
    }
}

/// The literal that stands for a formula.
pub open spec fn lit_of(m: &TermManager, e: &Encoder, t: TermId) -> Lit
    decreases t,
{
    if !m.has(t) {
        pos(e.var(t))
    } else {
        match m.op(t) {
            Op::True => pos(e.var(TRUE_TERM)),
            Op::False => pos(e.var(FALSE_TERM)),
            Op::Not => if m.arg(t, 0) < t {
                flip(lit_of(m, e, m.arg(t, 0)))
            } else {
                pos(e.var(t))
            },
            Op::Distinct => if m.args(t).len() <= 1 {
                pos(e.var(TRUE_TERM))
            } else {
                pos(e.var(t))
            },
            _ => pos(e.var(t)),
        }
    }
}

/// An atom has its variable, and the theories know what it stands for.
pub open spec fn atom_done(m: &TermManager, e: &Encoder, t: TermId) -> bool {
    &&& e.term_to_var@.contains_key(t)
    &&& constraint_of(m, t) is Some ==> e.constraints@.contains_key(e.var(t))
    &&& comparison_type(m, t) is Some && comparison_of(m, m.arg(t, 0), m.arg(t, 1)) is Some ==> e.parsed@.contains_key(
        e.var(t),
    )
    &&& compares(m.op(t)) ==> registered(m, e, m.arg(t, 0)) && registered(m, e, m.arg(t, 1))
    &&& m.op(t) is Var && arith_leaf(m, t) ==> e.arith_terms@.contains(t)
    &&& m.op(t) is Var && bv_leaf(m, t) ==> e.bv_terms@.contains(t)
    &&& divides(m.op(t)) ==> e.has_bv_arith_ops
    &&& (m.op(t) is Forall || m.op(t) is Exists) ==> e.has_quantifiers
}

/// `q` is the equality of `a` and `b`.
pub open spec fn is_eq_term(m: &TermManager, q: TermId, a: TermId, b: TermId) -> bool {
    &&& m.has(q)
    &&& m.op(q) == Op::Eq
    &&& m.args(q) == seq![a, b]
    &&& m.terms@[q as int].digits@.len() == 0
    &&& m.terms@[q as int].binders@.len() == 0
    &&& m.sort_of(q) == BOOL_SORT
}

/// The equality of `a` and `b` in the store.
pub open spec fn eq_of(m: &TermManager, a: TermId, b: TermId) -> TermId {
    choose|q: TermId| is_eq_term(m, q, a, b)
}

/// The literal of the equality of two arguments.
pub open spec fn pair_lit(m: &TermManager, e: &Encoder, t: TermId, i: int, j: int) -> Lit {
    pos(e.var(eq_of(m, m.arg(t, i), m.arg(t, j))))
}

/// The literal is that of the equality of two arguments.
pub open spec fn is_pair_lit(m: &TermManager, e: &Encoder, t: TermId, l: Lit) -> bool {
    exists|i: int, j: int| 0 <= i < j < m.args(t).len() && #[trigger] pair_lit(m, e, t, i, j) == l
}

/// The last clause of the definition of a distinctness: one of the equalities, or the result.
pub open spec fn is_distinct_clause(m: &TermManager, e: &Encoder, t: TermId, c: Seq<Lit>) -> bool {
    let n = m.args(t).len();
    &&& c.len() > 0
    &&& c.last() == pos(e.var(t))
    &&& forall|k: int| 0 <= k < c.len() - 1 ==> is_pair_lit(m, e, t, #[trigger] c[k])
    &&& forall|i: int, j: int| 0 <= i < j < n ==> c.contains(#[trigger] pair_lit(m, e, t, i, j))
}

/// The clauses that define an equality of formulas, or what the theories know of another one.
pub open spec fn eq_gates(m: &TermManager, e: &Encoder, q: TermId) -> bool {
    let r = pos(e.var(q));
    let x = lit_of(m, e, m.arg(q, 0));
    let y = lit_of(m, e, m.arg(q, 1));
    if is_bool(m, m.arg(q, 0)) {
        &&& e.term_to_var@.contains_key(q)
        &&& e.has_clause(seq![flip(r), flip(x), y])
        &&& e.has_clause(seq![flip(r), flip(y), x])
        &&& e.has_clause(seq![x, y, r])
        &&& e.has_clause(seq![flip(x), flip(y), r])
    } else {
        atom_done(m, e, q)
    }
}

/// The equality of two arguments of a distinctness is defined.
pub open spec fn pair_done(m: &TermManager, e: &Encoder, t: TermId, i: int, j: int) -> bool {
    let q = eq_of(m, m.arg(t, i), m.arg(t, j));
    is_eq_term(m, q, m.arg(t, i), m.arg(t, j)) && eq_gates(m, e, q)
}

/// The definition of a distinctness of more than one term has been emitted.
pub open spec fn distinct_done(m: &TermManager, e: &Encoder, t: TermId) -> bool {
    &&& e.term_to_var@.contains_key(t)
    &&& forall|i: int, j: int|
        0 <= i < j < m.args(t).len() ==> e.has_clause(seq![flip(pos(e.var(t))), flip(#[trigger] pair_lit(m, e, t, i, j))])
            && pair_done(m, e, t, i, j)
    &&& exists|c: int| 0 <= c < e.clauses@.len() && is_distinct_clause(m, e, t, (#[trigger] e.clauses@[c])@)
}

/// The definitions of a formula and of its parts have been emitted.
pub open spec fn encoded(m: &TermManager, e: &Encoder, t: TermId) -> bool
    decreases t,
{
    let args = m.args(t);
    let r = pos(e.var(t));
    let n = args.len();
    if !m.has(t) {
        e.term_to_var@.contains_key(t)
    } else {
        match m.op(t) {
            Op::True => e.term_to_var@.contains_key(TRUE_TERM) && e.has_clause(seq![pos(e.var(TRUE_TERM))]),
            Op::False => e.term_to_var@.contains_key(FALSE_TERM) && e.has_clause(seq![flip(pos(e.var(FALSE_TERM)))]),
            Op::Not => args[0] < t && encoded(m, e, args[0]),
            Op::And => {
                &&& e.term_to_var@.contains_key(t)
                &&& forall|i: int| 0 <= i < n ==> (#[trigger] args[i] < t && encoded(m, e, args[i]))
                &&& forall|i: int| 0 <= i < n ==> e.has_clause(seq![flip(r), lit_of(m, e, #[trigger] args[i])])
                &&& e.has_clause(Seq::new(n, |i: int| flip(lit_of(m, e, args[i]))).push(r))
            },
            Op::Or => {
                &&& e.term_to_var@.contains_key(t)
                &&& forall|i: int| 0 <= i < n ==> (#[trigger] args[i] < t && encoded(m, e, args[i]))
                &&& e.has_clause(seq![flip(r)] + Seq::new(n, |i: int| lit_of(m, e, args[i])))
                &&& forall|i: int| 0 <= i < n ==> e.has_clause(seq![flip(lit_of(m, e, #[trigger] args[i])), r])
            },
            Op::Xor => {
                let x = lit_of(m, e, args[0]);
                let y = lit_of(m, e, args[1]);
                &&& e.term_to_var@.contains_key(t)
                &&& args[0] < t && encoded(m, e, args[0])
                &&& args[1] < t && encoded(m, e, args[1])
                &&& e.has_clause(seq![flip(r), x, y])
                &&& e.has_clause(seq![flip(r), flip(x), flip(y)])
                &&& e.has_clause(seq![flip(x), y, r])
                &&& e.has_clause(seq![x, flip(y), r])
            },
            Op::Implies => {
                let x = lit_of(m, e, args[0]);
                let y = lit_of(m, e, args[1]);
                &&& e.term_to_var@.contains_key(t)
                &&& args[0] < t && encoded(m, e, args[0])
                &&& args[1] < t && encoded(m, e, args[1])
                &&& e.has_clause(seq![flip(r), flip(x), y])
                &&& e.has_clause(seq![x, r])
                &&& e.has_clause(seq![flip(y), r])
            },
            Op::Ite => {
                let c = lit_of(m, e, args[0]);
                let x = lit_of(m, e, args[1]);
                let y = lit_of(m, e, args[2]);
                &&& e.term_to_var@.contains_key(t)
                &&& args[0] < t && encoded(m, e, args[0])
                &&& args[1] < t && encoded(m, e, args[1])
                &&& args[2] < t && encoded(m, e, args[2])
                &&& e.has_clause(seq![flip(c), flip(r), x])
                &&& e.has_clause(seq![flip(c), flip(x), r])
                &&& e.has_clause(seq![c, flip(r), y])
                &&& e.has_clause(seq![c, flip(y), r])
            },
            Op::Eq => {
                &&& is_bool(m, args[0]) ==> args[0] < t && args[1] < t && encoded(m, e, args[0]) && encoded(m, e, args[1])
                &&& eq_gates(m, e, t)
            },
            Op::Distinct => if n <= 1 {
                e.term_to_var@.contains_key(TRUE_TERM) && e.has_clause(seq![pos(e.var(TRUE_TERM))])
            } else {
                &&& distinct_done(m, e, t)
                &&& forall|i: int, j: int|
                    0 <= i < j < n && is_bool(m, args[i]) ==> #[trigger] args[i] < t && #[trigger] args[j] < t && encoded(m, e, args[i])
                        && encoded(m, e, args[j])
            },
            _ => atom_done(m, e, t),
        }
    }
}

/// The definition of an equality `q` between terms below `bound` has been emitted.
pub open spec fn eq_encoded(m: &TermManager, e: &Encoder, q: TermId, bound: TermId) -> bool {
    let a = m.arg(q, 0);
    let b = m.arg(q, 1);
    &&& is_bool(m, a) ==> a < bound && b < bound && encoded(m, e, a) && encoded(m, e, b)
    &&& eq_gates(m, e, q)
}

/// The assignment under which every variable has the truth value of its formula.
pub open spec fn sigma(m: &TermManager, e: &Encoder, r: Reading) -> Assignment {
    |v: Var| truth(m, r, e.var_to_term@[v as int])
}

/// The clause holds under every reading, when its variables are read as their formulas.
pub open spec fn valid(m: &TermManager, e: &Encoder, c: Seq<Lit>) -> bool {
    &&& forall|k: int| 0 <= k < c.len() ==> (#[trigger] c[k]).var < e.var_to_term@.len() && m.has(
        e.var_to_term@[c[k].var as int],
    )
    &&& forall|r: Reading| clause_true(#[trigger] sigma(m, e, r), c)
}

/// Every clause from position `from` on is valid.
pub open spec fn gates_valid(m: &TermManager, e: &Encoder, from: int) -> bool {
    forall|i: int| from <= i < e.clauses@.len() ==> valid(m, e, (#[trigger] e.clauses@[i])@)
}

/// There is one equality of two terms in a store.
pub(crate) proof fn lemma_eq_unique(m: &TermManager, q: TermId, a: TermId, b: TermId)
    requires
        m.wf(),
        is_eq_term(m, q, a, b),
    ensures
        eq_of(m, a, b) == q,
{
    let p = eq_of(m, a, b);
    assert(is_eq_term(m, p, a, b));
    assert(m.terms@[p as int].digits@ =~= m.terms@[q as int].digits@);
    assert(m.terms@[p as int].binders@ =~= m.terms@[q as int].binders@);
    if p < q {
        assert(!m.terms@[p as int].same(m.terms@[q as int]));
    }
    if q < p {
        assert(!m.terms@[q as int].same(m.terms@[p as int]));
    }
}

/// An emitted clause stays emitted.
pub proof fn lemma_clause_extends(e: &Encoder, f: &Encoder, c: Seq<Lit>)
    requires
        e.grows(f),
        e.has_clause(c),
    ensures
        f.has_clause(c),
{
    let i = choose|i: int| 0 <= i < e.clauses@.len() && (#[trigger] e.clauses@[i])@ == c;
    assert(f.clauses@[i]@ == c);
}

/// What the theories know of an atom, they keep.
proof fn lemma_atom_extends(m: &TermManager, later: &TermManager, e: &Encoder, f: &Encoder, t: TermId)
    requires
        m.wf(),
        later.wf(),
        m.extended_by(later),
        e.grows(f),
        m.has(t),
        atom_done(m, e, t),
    ensures
        atom_done(later, f, t),
{
    assert(later.terms@[t as int] == m.terms@[t as int]);
    assert(m.terms@[t as int].fits(t as int));
    if compares(m.op(t)) {
        let a = m.arg(t, 0);
        let b = m.arg(t, 1);
        assert(later.terms@[a as int] == m.terms@[a as int]);
        lemma_registered_extends(m, later, e, f, a);
        lemma_registered_extends(m, later, e, f, b);
        lemma_comparison_extends(m, later, a, b);
    }
}

/// What has been emitted for a formula, and the literal that stands for it, stay.
pub proof fn lemma_encoded_extends(m: &TermManager, later: &TermManager, e: &Encoder, f: &Encoder, t: TermId)
    requires
        m.wf(),
        later.wf(),
        m.extended_by(later),
        e.grows(f),
        m.has(t),
        encoded(m, e, t),
    ensures
        encoded(later, f, t),
        lit_of(later, f, t) == lit_of(m, e, t),
    decreases t, 3nat,
{
    let args = m.args(t);
    let n = args.len();
    let r = pos(e.var(t));
    assert(later.terms@[t as int] == m.terms@[t as int]);
    assert(later.args(t) == args);
    assert(m.terms@[t as int].fits(t as int));
    assert forall|c: Seq<Lit>| e.has_clause(c) implies #[trigger] f.has_clause(c) by {
        lemma_clause_extends(e, f, c);
    }
    match m.op(t) {
        Op::Not => {
            lemma_encoded_extends(m, later, e, f, args[0]);
        },
        Op::And | Op::Or => {
            assert forall|i: int| 0 <= i < n implies #[trigger] args[i] < t && encoded(later, f, args[i]) && lit_of(
                later,
                f,
                args[i],
            ) == lit_of(m, e, args[i]) by {
                lemma_encoded_extends(m, later, e, f, args[i]);
            }
            assert(Seq::new(n, |i: int| flip(lit_of(m, e, args[i]))) =~= Seq::new(n, |i: int| flip(lit_of(later, f, args[i]))));
            assert(Seq::new(n, |i: int| lit_of(m, e, args[i])) =~= Seq::new(n, |i: int| lit_of(later, f, args[i])));
            if m.op(t) == Op::And {
                assert forall|i: int| 0 <= i < n implies f.has_clause(seq![flip(r), lit_of(later, f, #[trigger] args[i])]) by {
                    assert(e.has_clause(seq![flip(r), lit_of(m, e, args[i])]));
                }
            }
            if m.op(t) == Op::Or {
                assert forall|i: int| 0 <= i < n implies f.has_clause(seq![flip(lit_of(later, f, #[trigger] args[i])), r]) by {
                    assert(e.has_clause(seq![flip(lit_of(m, e, args[i])), r]));
                }
            }
        },
        Op::Xor | Op::Implies => {
            lemma_encoded_extends(m, later, e, f, args[0]);
            lemma_encoded_extends(m, later, e, f, args[1]);
        },
        Op::Ite => {
            lemma_encoded_extends(m, later, e, f, args[0]);
            lemma_encoded_extends(m, later, e, f, args[1]);
            lemma_encoded_extends(m, later, e, f, args[2]);
        },
        Op::Eq => {
            lemma_eq_encoded_extends(m, later, e, f, t, t);
        },
        Op::Distinct => {
            if n > 1 {
                lemma_distinct_extends(m, later, e, f, t);
            }
        },
        Op::True | Op::False => {},
        _ => {
            lemma_atom_extends(m, later, e, f, t);
        },
    }
}

/// The same for the equality of two arguments of a distinctness.
pub(crate) proof fn lemma_pair_extends(m: &TermManager, later: &TermManager, e: &Encoder, f: &Encoder, t: TermId, i: int, j: int)
    requires
        m.wf(),
        later.wf(),
        m.extended_by(later),
        e.grows(f),
        m.has(t),
        0 <= i < j < m.args(t).len(),
        pair_done(m, e, t, i, j),
        is_bool(m, m.arg(t, i)) ==> m.arg(t, i) < t && m.arg(t, j) < t && encoded(m, e, m.arg(t, i)) && encoded(
            m,
            e,
            m.arg(t, j),
        ),
    ensures
        pair_done(later, f, t, i, j),
        is_bool(later, m.arg(t, i)) ==> encoded(later, f, m.arg(t, i)) && encoded(later, f, m.arg(t, j)),
        pair_lit(later, f, t, i, j) == pair_lit(m, e, t, i, j),
    decreases t, 1nat,
{
    assert(later.terms@[t as int] == m.terms@[t as int]);
    let a = m.arg(t, i);
    let b = m.arg(t, j);
    let q = eq_of(m, a, b);
    assert(later.terms@[q as int] == m.terms@[q as int]);
    assert(is_eq_term(later, q, a, b));
    lemma_eq_unique(later, q, a, b);
    assert(m.args(q)[0] == a && m.args(q)[1] == b);
    assert(later.args(q) == m.args(q));
    lemma_eq_encoded_extends(m, later, e, f, q, t);
}

/// The same for a distinctness of more than one term.
proof fn lemma_distinct_extends(m: &TermManager, later: &TermManager, e: &Encoder, f: &Encoder, t: TermId)
    requires
        m.wf(),
        later.wf(),
        m.extended_by(later),
        e.grows(f),
        m.has(t),
        m.op(t) == Op::Distinct,
        m.args(t).len() > 1,
        encoded(m, e, t),
    ensures
        encoded(later, f, t),
    decreases t, 2nat,
{
    let n = m.args(t).len();
    assert(distinct_done(m, e, t));
    assert(later.terms@[t as int] == m.terms@[t as int]);
    let r = pos(e.var(t));
    assert forall|i: int, j: int| 0 <= i < j < n implies pair_done(later, f, t, i, j) && #[trigger] pair_lit(later, f, t, i, j)
        == pair_lit(m, e, t, i, j) && f.has_clause(seq![flip(r), flip(pair_lit(later, f, t, i, j))]) by {
        let l = pair_lit(m, e, t, i, j);
        assert(is_bool(m, m.arg(t, i)) ==> m.args(t)[i] < t && m.args(t)[j] < t);
        lemma_pair_extends(m, later, e, f, t, i, j);
        lemma_clause_extends(e, f, seq![flip(r), flip(l)]);
    }
    let c = choose|c: int| 0 <= c < e.clauses@.len() && is_distinct_clause(m, e, t, (#[trigger] e.clauses@[c])@);
    let cl = e.clauses@[c]@;
    assert(f.clauses@[c] == e.clauses@[c]);
    assert forall|k: int| 0 <= k < cl.len() - 1 implies is_pair_lit(later, f, t, #[trigger] cl[k]) by {
        assert(is_pair_lit(m, e, t, cl[k]));
        let (i, j) = choose|i: int, j: int| 0 <= i < j < n && #[trigger] pair_lit(m, e, t, i, j) == cl[k];
        assert(pair_lit(later, f, t, i, j) == cl[k]);
    }
    assert forall|i: int, j: int| 0 <= i < j < n implies cl.contains(#[trigger] pair_lit(later, f, t, i, j)) by {
        assert(cl.contains(pair_lit(m, e, t, i, j)));
    }
    assert(later.args(t).len() == n && later.has(t));
    assert(is_distinct_clause(later, f, t, f.clauses@[c]@)) by {
        assert(cl.len() > 0);
        assert(cl.last() == pos(f.var(t)));
        assert(f.clauses@[c]@ == cl);
    }
    assert(distinct_done(later, f, t));
    let args = m.args(t);
    assert(later.args(t) == args);
    assert(m.terms@[t as int].fits(t as int));
    assert forall|i: int, j: int| 0 <= i < j < n && is_bool(later, args[i]) implies #[trigger] args[i] < t && #[trigger] args[j] < t
        && encoded(later, f, args[i]) && encoded(later, f, args[j]) by {
        let l = pair_lit(m, e, t, i, j);
        assert(later.terms@[args[i] as int] == m.terms@[args[i] as int]);
        lemma_pair_extends(m, later, e, f, t, i, j);
    }
}

/// The same for an equality between terms below `bound`.
proof fn lemma_eq_encoded_extends(m: &TermManager, later: &TermManager, e: &Encoder, f: &Encoder, q: TermId, bound: TermId)
    requires
        m.wf(),
        later.wf(),
        m.extended_by(later),
        e.grows(f),
        m.has(q),
        m.op(q) == Op::Eq,
        eq_encoded(m, e, q, bound),
    ensures
        eq_encoded(later, f, q, bound),
        e.term_to_var@.contains_key(q),
        f.var(q) == e.var(q),
    decreases bound, 0nat,
{
    assert(later.terms@[q as int] == m.terms@[q as int]);
    assert(m.terms@[q as int].fits(q as int));
    let a = m.arg(q, 0);
    let b = m.arg(q, 1);
    assert(later.terms@[a as int] == m.terms@[a as int]);
    assert forall|c: Seq<Lit>| e.has_clause(c) implies #[trigger] f.has_clause(c) by {
        lemma_clause_extends(e, f, c);
    }
    if is_bool(m, a) {
        lemma_encoded_extends(m, later, e, f, a);
        lemma_encoded_extends(m, later, e, f, b);
    } else {
        lemma_atom_extends(m, later, e, f, q);
    }
}

/// A valid clause stays valid.
pub proof fn lemma_valid_extends(m: &TermManager, later: &TermManager, e: &Encoder, f: &Encoder, c: Seq<Lit>)
    requires
        m.wf(),
        later.wf(),
        m.extended_by(later),
        e.grows(f),
        valid(m, e, c),
    ensures
        valid(later, f, c),
{
    assert forall|k: int| 0 <= k < c.len() implies (#[trigger] c[k]).var < f.var_to_term@.len() && later.has(
        f.var_to_term@[c[k].var as int],
    ) by {
        assert(f.var_to_term@[c[k].var as int] == e.var_to_term@[c[k].var as int]);
    }
    assert forall|r: Reading| clause_true(#[trigger] sigma(later, f, r), c) by {
        assert(clause_true(sigma(m, e, r), c));
        let k = choose|k: int| 0 <= k < c.len() && lit_true(sigma(m, e, r), #[trigger] c[k]);
        assert(f.var_to_term@[c[k].var as int] == e.var_to_term@[c[k].var as int]);
        lemma_truth_extends(m, later, r, e.var_to_term@[c[k].var as int]);
        assert(lit_true(sigma(later, f, r), c[k]));
    }
}

/// Valid clauses stay valid.
proof fn lemma_gates_extend(m: &TermManager, later: &TermManager, e: &Encoder, f: &Encoder, from: int)
    requires
        m.wf(),
        later.wf(),
        m.extended_by(later),
        e.grows(f),
        gates_valid(m, e, from),
        gates_valid(later, f, e.clauses@.len() as int),
        0 <= from,
    ensures
        gates_valid(later, f, from),
{
    assert forall|i: int| from <= i < f.clauses@.len() implies valid(later, f, (#[trigger] f.clauses@[i])@) by {
        if i < e.clauses@.len() {
            assert(f.clauses@[i] == e.clauses@[i]);
            assert(valid(m, e, e.clauses@[i]@));
            lemma_valid_extends(m, later, e, f, e.clauses@[i]@);
        }
    }
}

/// The literal of an encoded formula has the formula's truth value when variables are read as
/// their formulas.
pub proof fn lemma_lit_truth(m: &TermManager, e: &Encoder, r: Reading, t: TermId)
    requires
        linked(m, e),
        m.has(t),
        encoded(m, e, t),
    ensures
        lit_true(sigma(m, e, r), lit_of(m, e, t)) == truth(m, r, t),
        lit_of(m, e, t).var < e.var_to_term@.len(),
        m.has(e.var_to_term@[lit_of(m, e, t).var as int]),
    decreases t,
{
    let args = m.args(t);
    assert(m.terms@[t as int].fits(t as int));
    match m.op(t) {
        Op::Not => {
            lemma_lit_truth(m, e, r, args[0]);
        },
        Op::True => {},
        Op::False => {},
        Op::Distinct => {
            if args.len() <= 1 {
                assert(truth(m, r, t));
            } else {
                assert(distinct_done(m, e, t));
            }
        },
        Op::Eq => {
            assert(eq_encoded(m, e, t, t));
            assert(e.term_to_var@.contains_key(t));
        },
        _ => {
            assert(e.term_to_var@.contains_key(t));
        },
    }
}

/// A clause of two literals.
pub proof fn lemma_clause2(a: Assignment, x: Lit, y: Lit)
    ensures
        clause_true(a, seq![x, y]) == (lit_true(a, x) || lit_true(a, y)),
{
    let c = seq![x, y];
    assert(c[0] == x && c[1] == y);
    if lit_true(a, x) {
        assert(lit_true(a, c[0]));
    }
    if lit_true(a, y) {
        assert(lit_true(a, c[1]));
    }
}

/// A clause of three literals.
pub proof fn lemma_clause3(a: Assignment, x: Lit, y: Lit, z: Lit)
    ensures
        clause_true(a, seq![x, y, z]) == (lit_true(a, x) || lit_true(a, y) || lit_true(a, z)),
{
    let c = seq![x, y, z];
    assert(c[0] == x && c[1] == y && c[2] == z);
    if lit_true(a, x) {
        assert(lit_true(a, c[0]));
    }
    if lit_true(a, y) {
        assert(lit_true(a, c[1]));
    }
    if lit_true(a, z) {
        assert(lit_true(a, c[2]));
    }
}

/// The second pair of store and tables is the first with definitions added.
pub open spec fn step(m: &TermManager, e: &Encoder, later: &TermManager, f: &Encoder) -> bool {
    &&& linked(later, f)
    &&& m.extended_by(later)
    &&& e.advances(f)
    &&& gates_valid(later, f, e.clauses@.len() as int)
}

/// Definitions on top of definitions.
pub proof fn lemma_step(m0: &TermManager, e0: &Encoder, m1: &TermManager, e1: &Encoder, m2: &TermManager, e2: &Encoder)
    requires
        m0.wf(),
        step(m0, e0, m1, e1),
        step(m1, e1, m2, e2),
    ensures
        step(m0, e0, m2, e2),
{
    lemma_advances(e0, e1, e2);
    lemma_gates_extend(m1, m2, e1, e2, e0.clauses@.len() as int);
    assert forall|t: int| 0 <= t < m0.terms@.len() implies #[trigger] m2.terms@[t] == m0.terms@[t] by {
        assert(m1.terms@[t] == m0.terms@[t]);
    }
    assert forall|i: int| 0 <= i < m0.names@.len() implies #[trigger] m2.names@[i] == m0.names@[i] by {
        assert(m1.names@[i] == m0.names@[i]);
    }
}

/// No definitions.
pub proof fn lemma_step_self(m: &TermManager, e: &Encoder)
    requires
        linked(m, e),
    ensures
        step(m, e, m, e),
{
    lemma_advances_self(e);
}

/// A longer store does not touch what the tables say.
pub proof fn lemma_linked_extends(m: &TermManager, later: &TermManager, e: &Encoder)
    requires
        linked(m, e),
        later.wf(),
        m.extended_by(later),
    ensures
        linked(later, e),
        step(m, e, later, e),
{
    lemma_advances_self(e);
    lemma_walked_extends(m, later, e, e);
    assert forall|v: usize| #[trigger] e.constraints@.contains_key(v) implies later.has(e.var_to_term@[v as int]) && constraint_of(
        later,
        e.var_to_term@[v as int],
    ) == Some(e.constraints@[v]) by {
        lemma_atom_reading_extends(m, later, e.var_to_term@[v as int]);
    }
    assert forall|v: usize| #[trigger] e.parsed@.contains_key(v) implies later.has(e.var_to_term@[v as int]) && parsed_for(
        later,
        e.var_to_term@[v as int],
        e.parsed@[v],
    ) by {
        let t = e.var_to_term@[v as int];
        lemma_atom_reading_extends(m, later, t);
        assert(m.terms@[t as int].fits(t as int));
        lemma_comparison_extends(m, later, m.arg(t, 0), m.arg(t, 1));
        crate::linear::lemma_measures_extends(m, later, m.arg(t, 0), m.arg(t, 1), e.parsed@[v].terms@, e.parsed@[v].constant);
    }
}

/// What an atom stands for does not change when its store grows.
proof fn lemma_atom_reading_extends(m: &TermManager, later: &TermManager, t: TermId)
    requires
        m.wf(),
        later.wf(),
        m.extended_by(later),
        m.has(t),
    ensures
        later.has(t),
        later.args(t) == m.args(t),
        later.op(t) == m.op(t),
        constraint_of(later, t) == constraint_of(m, t),
        comparison_type(later, t) == comparison_type(m, t),
{
    assert(later.terms@[t as int] == m.terms@[t as int]);
    assert(m.terms@[t as int].fits(t as int));
    if m.op(t) == Op::Eq {
        let a = m.arg(t, 0);
        assert(later.terms@[a as int] == m.terms@[a as int]);
    }
}

/// The tables keep saying what the terms say when only a variable is added or a clause emitted.
pub proof fn lemma_linked_tables(m: &TermManager, e: &Encoder, f: &Encoder)
    requires
        linked(m, e),
        f.wf(),
        e.grows(f),
        f.constraints@ == e.constraints@,
        f.parsed@ == e.parsed@,
        f.walked@ == e.walked@,
        bits_in(m, f),
    ensures
        linked(m, f),
{
    lemma_extended_self(m);
    lemma_walked_extends(m, m, e, f);
    assert forall|v: usize| #[trigger] f.constraints@.contains_key(v) implies m.has(f.var_to_term@[v as int]) && constraint_of(
        m,
        f.var_to_term@[v as int],
    ) == Some(f.constraints@[v]) by {
        assert(e.constraints@.contains_key(v));
        assert(f.var_to_term@[v as int] == e.var_to_term@[v as int]);
    }
    assert forall|v: usize| #[trigger] f.parsed@.contains_key(v) implies m.has(f.var_to_term@[v as int]) && parsed_for(
        m,
        f.var_to_term@[v as int],
        f.parsed@[v],
    ) by {
        assert(e.parsed@.contains_key(v));
        assert(f.var_to_term@[v as int] == e.var_to_term@[v as int]);
    }
}

/// The arguments of `t` are encoded under the literals `lits`.
pub open spec fn args_encoded(m: &TermManager, e: &Encoder, t: TermId, lits: Seq<Lit>) -> bool {
    lits.len() == m.args(t).len() && prefix_encoded(m, e, t, lits)
}

/// The first arguments of `t` are encoded under the literals `lits`.
pub open spec fn prefix_encoded(m: &TermManager, e: &Encoder, t: TermId, lits: Seq<Lit>) -> bool {
    forall|i: int| 0 <= i < lits.len() ==> #[trigger] lits[i] == lit_of(m, e, m.arg(t, i)) && encoded(m, e, m.arg(t, i))
}

/// The arguments of `t` stay encoded.
proof fn lemma_args_extend(m: &TermManager, later: &TermManager, e: &Encoder, f: &Encoder, t: TermId, lits: Seq<Lit>)
    requires
        m.wf(),
        later.wf(),
        m.extended_by(later),
        e.grows(f),
        m.has(t),
        args_encoded(m, e, t, lits),
    ensures
        args_encoded(later, f, t, lits),
        later.args(t) == m.args(t),
{
    assert(later.terms@[t as int] == m.terms@[t as int]);
    assert(m.terms@[t as int].fits(t as int));
    assert forall|i: int| 0 <= i < lits.len() implies #[trigger] lits[i] == lit_of(later, f, later.arg(t, i)) && encoded(
        later,
        f,
        later.arg(t, i),
    ) by {
        assert(lits[i] == lit_of(m, e, m.arg(t, i)));
        assert(m.has(m.args(t)[i]));
        lemma_encoded_extends(m, later, e, f, m.arg(t, i));
    }
}

/// The truth values of the literals of `t` and of its arguments, when variables are read as their
/// formulas.
proof fn lemma_gate_truth(m: &TermManager, e: &Encoder, r: Reading, t: TermId, lits: Seq<Lit>)
    requires
        linked(m, e),
        m.has(t),
        e.term_to_var@.contains_key(t),
        args_encoded(m, e, t, lits),
    ensures
        lit_true(sigma(m, e, r), pos(e.var(t))) == truth(m, r, t),
        lit_true(sigma(m, e, r), flip(pos(e.var(t)))) == !truth(m, r, t),
        forall|i: int| 0 <= i < lits.len() ==> lit_true(sigma(m, e, r), #[trigger] lits[i]) == truth(m, r, m.arg(t, i)),
        forall|i: int| 0 <= i < lits.len() ==> lit_true(sigma(m, e, r), flip(#[trigger] lits[i])) == !truth(m, r, m.arg(t, i)),
        forall|i: int| 0 <= i < lits.len() ==> m.arg(t, i) < t && (#[trigger] lits[i]).var < e.var_to_term@.len() && m.has(
            e.var_to_term@[lits[i].var as int],
        ),
        e.var(t) < e.var_to_term@.len(),
        e.var_to_term@[e.var(t) as int] == t,
{
    assert(m.terms@[t as int].fits(t as int));
    assert forall|i: int| 0 <= i < lits.len() implies lit_true(sigma(m, e, r), #[trigger] lits[i]) == truth(m, r, m.arg(t, i))
        && m.arg(t, i) < t && lits[i].var < e.var_to_term@.len() && m.has(e.var_to_term@[lits[i].var as int]) by {
        assert(m.args(t)[i] < t);
        assert(lits[i] == lit_of(m, e, m.arg(t, i)));
        lemma_lit_truth(m, e, r, m.arg(t, i));
    }
}

impl Encoder {
    /// The variable of a term of the store.
    fn var_for(&mut self, t: TermId, m: &TermManager) -> (v: Var)
        requires
            linked(m, old(self)),
        ensures
            step(m, old(self), m, final(self)),
            final(self).term_to_var@.contains_key(t),
            v == final(self).var(t),
            v < final(self).var_to_term@.len(),
            final(self).var_to_term@[v as int] == t,
            final(self).clauses@ == old(self).clauses@,
            brings_nothing(old(self), final(self)),
    {
        let v: usize = self.get_or_create_var(t);
        proof {
            lemma_linked_tables(m, old(self), self);
            lemma_extended_self(m);
        }
        v
    }

    /// Emits clauses that hold by definition.
    fn emit(&mut self, cs: Vec<Vec<Lit>>, m: &TermManager)
        requires
            linked(m, old(self)),
            forall|k: int| 0 <= k < cs@.len() ==> valid(m, old(self), (#[trigger] cs@[k])@),
        ensures
            step(m, old(self), m, final(self)),
            final(self).tables() == old(self).tables(),
            forall|k: int| 0 <= k < cs@.len() ==> final(self).has_clause((#[trigger] cs@[k])@),
            texts(final(self).clauses@) == texts(old(self).clauses@) + texts(cs@),
            brings_nothing(old(self), final(self)),
    {
        proof {
            lemma_step_self(m, self);
            lemma_extended_self(m);
            assert(texts(self.clauses@) =~= texts(old(self).clauses@) + texts(cs@.take(0)));
        }
        let mut i: usize = 0;
        while i < cs.len()
            invariant
                i <= cs.len(),
                m.wf(),
                linked(m, old(self)),
                step(m, old(self), m, self),
                self.tables() == old(self).tables(),
                forall|k: int| 0 <= k < cs@.len() ==> valid(m, old(self), (#[trigger] cs@[k])@),
                forall|k: int| 0 <= k < i ==> self.has_clause((#[trigger] cs@[k])@),
                texts(self.clauses@) == texts(old(self).clauses@) + texts(cs@.take(i as int)),
                self.has_bv_arith_ops == old(self).has_bv_arith_ops,
                self.has_quantifiers == old(self).has_quantifiers,
            decreases cs.len() - i,
        {
            let ghost before = *self;
            let c: Vec<Lit> = copy_clause(&cs[i]);
            self.add_clause(c);
            proof {
                lemma_extended_self(m);
                lemma_linked_tables(m, &before, self);
                assert(valid(m, old(self), cs@[i as int]@));
                lemma_valid_extends(m, m, old(self), self, c@);
                lemma_step(m, old(self), m, &before, m, self);
                assert forall|k: int| 0 <= k < i + 1 implies self.has_clause((#[trigger] cs@[k])@) by {
                    if k < i {
                        lemma_clause_extends(&before, self, cs@[k]@);
                    }
                }
                assert(texts(self.clauses@) =~= texts(before.clauses@).push(c@));
                assert(texts(cs@.take(i + 1)) =~= texts(cs@.take(i as int)).push(cs@[i as int]@));
                assert(texts(self.clauses@) =~= texts(old(self).clauses@) + texts(cs@.take(i + 1)));
            }
            i = i + 1;
        }
        assert(cs@.take(cs@.len() as int) =~= cs@);
        proof {
            lemma_same_finds(old(self), self);
        }
    }
}

/// A clause with the same literals.
pub(crate) fn copy_clause(c: &Vec<Lit>) -> (r: Vec<Lit>)
    ensures
        r@ == c@,
{
    let mut r: Vec<Lit> = Vec::new();
    let mut i: usize = 0;
    while i < c.len()
        invariant
            i <= c.len(),
            r@ == c@.take(i as int),
        decreases c.len() - i,
    {
        r.push(c[i]);
        assert(c@.take(i + 1) =~= c@.take(i as int).push(c@[i as int]));
        i = i + 1;
    }
    assert(c@.take(c@.len() as int) =~= c@);
    r
}

/// A clause of one literal.
pub(crate) fn clause1(x: Lit) -> (r: Vec<Lit>)
    ensures
        r@ == seq![x],
{
    let mut r: Vec<Lit> = Vec::new();
    r.push(x);
    r
}

/// A clause of two literals.
pub(crate) fn clause2(x: Lit, y: Lit) -> (r: Vec<Lit>)
    ensures
        r@ == seq![x, y],
{
    let mut r: Vec<Lit> = Vec::new();
    r.push(x);
    r.push(y);
    r
}

/// A clause of three literals.
pub(crate) fn clause3(x: Lit, y: Lit, z: Lit) -> (r: Vec<Lit>)
    ensures
        r@ == seq![x, y, z],
{
    let mut r: Vec<Lit> = Vec::new();
    r.push(x);
    r.push(y);
    r.push(z);
    r
}

/// A list of three clauses.
fn three(a: Vec<Lit>, b: Vec<Lit>, c: Vec<Lit>) -> (r: Vec<Vec<Lit>>)
    ensures
        r@ == seq![a, b, c],
{
    let mut r: Vec<Vec<Lit>> = Vec::new();
    r.push(a);
    r.push(b);
    r.push(c);
    r
}

/// A list of four clauses.
fn four(a: Vec<Lit>, b: Vec<Lit>, c: Vec<Lit>, d: Vec<Lit>) -> (r: Vec<Vec<Lit>>)
    ensures
        r@ == seq![a, b, c, d],
{
    let mut r: Vec<Vec<Lit>> = Vec::new();
    r.push(a);
    r.push(b);
    r.push(c);
    r.push(d);
    r
}

/// A clause of two known literals is valid if one of them is true under every reading.
proof fn lemma_valid2(m: &TermManager, e: &Encoder, x: Lit, y: Lit)
    requires
        x.var < e.var_to_term@.len() && m.has(e.var_to_term@[x.var as int]),
        y.var < e.var_to_term@.len() && m.has(e.var_to_term@[y.var as int]),
        forall|r: Reading| #[trigger] lit_true(sigma(m, e, r), x) || lit_true(sigma(m, e, r), y),
    ensures
        valid(m, e, seq![x, y]),
{
    assert forall|r: Reading| clause_true(#[trigger] sigma(m, e, r), seq![x, y]) by {
        lemma_clause2(sigma(m, e, r), x, y);
        assert(lit_true(sigma(m, e, r), x) || lit_true(sigma(m, e, r), y));
    }
}

/// A clause of three known literals is valid if one of them is true under every reading.
proof fn lemma_valid3(m: &TermManager, e: &Encoder, x: Lit, y: Lit, z: Lit)
    requires
        x.var < e.var_to_term@.len() && m.has(e.var_to_term@[x.var as int]),
        y.var < e.var_to_term@.len() && m.has(e.var_to_term@[y.var as int]),
        z.var < e.var_to_term@.len() && m.has(e.var_to_term@[z.var as int]),
        forall|r: Reading| #[trigger] lit_true(sigma(m, e, r), x) || lit_true(sigma(m, e, r), y) || lit_true(sigma(m, e, r), z),
    ensures
        valid(m, e, seq![x, y, z]),
{
    assert forall|r: Reading| clause_true(#[trigger] sigma(m, e, r), seq![x, y, z]) by {
        lemma_clause3(sigma(m, e, r), x, y, z);
        assert(lit_true(sigma(m, e, r), x) || lit_true(sigma(m, e, r), y) || lit_true(sigma(m, e, r), z));
    }
}

/// The three records of a comparison, one after the other.
proof fn lemma_recorded(m: &TermManager, e1: &Encoder, e2: &Encoder, e3: &Encoder, e4: &Encoder, t: TermId)
    requires
        linked(m, e1),
        m.has(t),
        compares(m.op(t)),
        e1.term_to_var@.contains_key(t),
        step(m, e1, m, e2),
        e2.constraints@.contains_key(e1.var(t)),
        step(m, e2, m, e3),
        registered(m, e3, m.arg(t, 0)),
        registered(m, e3, m.arg(t, 1)),
        step(m, e3, m, e4),
    ensures
        step(m, e1, m, e4),
        e4.constraints@.contains_key(e1.var(t)),
        registered(m, e4, m.arg(t, 0)),
        registered(m, e4, m.arg(t, 1)),
        e4.term_to_var@.contains_key(t),
        e4.var(t) == e1.var(t),
{
    assert(m.terms@[t as int].fits(t as int));
    lemma_extended_self(m);
    lemma_step(m, e1, m, e2, m, e3);
    lemma_step(m, e1, m, e3, m, e4);
    lemma_registered_extends(m, m, e3, e4, m.arg(t, 0));
    lemma_registered_extends(m, m, e3, e4, m.arg(t, 1));
    assert(e3.constraints@.contains_key(e1.var(t)));
}

/// Four lists one after the other.
proof fn lemma_regroup(a: Seq<Seq<Lit>>, b: Seq<Seq<Lit>>, c: Seq<Seq<Lit>>, d: Seq<Seq<Lit>>)
    ensures
        a + b + c + d == a + (b + c + d),
{
    assert(a + b + c + d =~= a + (b + c + d));
}

/// The clauses of a conjunction, written with the literals of its arguments.
proof fn lemma_and_texts(m: &TermManager, e: &Encoder, t: TermId, lits: Seq<Lit>, cs: Seq<Vec<Lit>>)
    requires
        m.op(t) == Op::And,
        args_encoded(m, e, t, lits),
        cs.len() == lits.len() + 1,
        forall|k: int| 0 <= k < lits.len() ==> (#[trigger] cs[k])@ == seq![flip(pos(e.var(t))), lits[k]],
        cs[lits.len() as int]@ == Seq::new(lits.len(), |i: int| flip(lits[i])).push(pos(e.var(t))),
    ensures
        texts(cs) == own_clauses(m, e, t),
{
    let args = m.args(t);
    assert forall|i: int| 0 <= i < args.len() implies lit_of(m, e, #[trigger] args[i]) == lits[i] by {
        let l = lits[i];
    }
    assert(Seq::new(lits.len(), |i: int| flip(lits[i])) =~= Seq::new(args.len(), |i: int| flip(lit_of(m, e, args[i]))));
    let own = own_clauses(m, e, t);
    assert forall|k: int| 0 <= k < cs.len() implies (#[trigger] texts(cs)[k]) == own[k] by {
        if k < lits.len() {
            let x = args[k];
        }
    }
    assert(texts(cs) =~= own);
}

/// The clauses of a disjunction, written with the literals of its arguments.
proof fn lemma_or_texts(m: &TermManager, e: &Encoder, t: TermId, lits: Seq<Lit>, cs: Seq<Vec<Lit>>)
    requires
        m.op(t) == Op::Or,
        args_encoded(m, e, t, lits),
        cs.len() == lits.len() + 1,
        cs[0]@ == seq![flip(pos(e.var(t)))] + lits,
        forall|k: int| 0 < k < cs.len() ==> (#[trigger] cs[k])@ == seq![flip(lits[k - 1]), pos(e.var(t))],
    ensures
        texts(cs) == own_clauses(m, e, t),
{
    let args = m.args(t);
    assert forall|i: int| 0 <= i < args.len() implies lit_of(m, e, #[trigger] args[i]) == lits[i] by {
        let l = lits[i];
    }
    assert(lits =~= Seq::new(args.len(), |i: int| lit_of(m, e, args[i])));
    let own = own_clauses(m, e, t);
    assert forall|k: int| 0 <= k < cs.len() implies (#[trigger] texts(cs)[k]) == own[k] by {
        if k > 0 {
            let x = args[k - 1];
        }
    }
    assert(texts(cs) =~= own);
}

impl Encoder {
    /// Encodes a formula: emits the definitions of its parts and returns its literal.
    pub fn encode(&mut self, t: TermId, m: &mut TermManager) -> (l: Lit)
        requires
            linked(old(m), old(self)),
        ensures
            step(old(m), old(self), final(m), final(self)),
            old(m).has(t) ==> encoded(final(m), final(self), t),
            old(m).has(t) ==> l == lit_of(final(m), final(self), t),
            !old(m).has(t) ==> *final(m) == *old(m) && final(self).term_to_var@.contains_key(t) && l == pos(final(self).var(t))
                && final(self).clauses@ == old(self).clauses@,
            old(m).has(t) ==> texts(final(self).clauses@) == texts(old(self).clauses@) + clauses_of(final(m), final(self), t),
            brings(old(self), final(self), old(m), t),
        decreases t, 3nat,
    {
        if t >= m.terms.len() {
            let v: usize = self.get_or_create_var(t);
            proof {
                lemma_linked_tables(m, old(self), self);
                lemma_extended_self(m);
            }
            return Lit::pos(v);
        }
        assert(m.terms@[t as int].fits(t as int));
        match m.terms[t].op {
            Op::True => self.encode_constant(t, m, TRUE_TERM, true),
            Op::False => self.encode_constant(t, m, FALSE_TERM, false),
            Op::Not => {
                let a: usize = m.terms[t].args[0];
                let l = self.encode(a, m);
                assert(m.terms@[t as int] == old(m).terms@[t as int]);
                proof {
                    assert(brings_before(old(self), old(self), old(m), t, 0));
                    lemma_brings_next(old(m), old(m), old(self), old(self), self, t, 0);
                    lemma_brings_all(old(m), old(self), self, t);
                }
                l.negate()
            },
            Op::And => self.encode_and(t, m),
            Op::Or => self.encode_or(t, m),
            Op::Xor => self.encode_xor(t, m),
            Op::Implies => self.encode_implies(t, m),
            Op::Ite => self.encode_ite(t, m),
            Op::Eq => {
                let l = self.encode_eq(t, m, Ghost(t));
                assert(m.terms@[t as int] == old(m).terms@[t as int]);
                assert(eq_emits(m, self, t) == clauses_of(m, self, t));
                l
            },
            Op::Distinct => {
                if m.terms[t].args.len() <= 1 {
                    self.encode_constant(t, m, TRUE_TERM, true)
                } else {
                    self.encode_distinct(t, m)
                }
            },
            _ => {
                let l = self.encode_atom(t, m);
                assert(texts(self.clauses@) =~= texts(old(self).clauses@) + clauses_of(m, self, t));
                l
            },
        }
    }

    /// The literal of a truth value, which is pinned.
    fn encode_constant(&mut self, t: TermId, m: &TermManager, c: TermId, value: bool) -> (l: Lit)
        requires
            linked(m, old(self)),
            m.has(t),
            c == if value { TRUE_TERM } else { FALSE_TERM },
            m.op(t) == (if value { Op::True } else { Op::False }) || (value && m.op(t) == Op::Distinct && m.args(t).len() <= 1),
        ensures
            step(m, old(self), m, final(self)),
            encoded(m, final(self), t),
            l == lit_of(m, final(self), t),
            texts(final(self).clauses@) == texts(old(self).clauses@) + clauses_of(m, final(self), t),
            brings_nothing(old(self), final(self)),
    {
        let v: usize = self.var_for(c, m);
        let ghost mid = *self;
        let unit: Lit = if value {
            Lit::pos(v)
        } else {
            Lit::neg(v)
        };
        let mut cs: Vec<Vec<Lit>> = Vec::new();
        cs.push(clause1(unit));
        proof {
            assert forall|r: Reading| clause_true(#[trigger] sigma(m, self, r), seq![unit]) by {
                assert(truth(m, r, c) == value);
                let k = seq![unit];
                assert(k[0] == unit);
                assert(lit_true(sigma(m, self, r), k[0]));
            }
            assert(valid(m, self, seq![unit]));
        }
        self.emit(cs, m);
        proof {
            lemma_step(m, old(self), m, &mid, m, self);
            assert(self.has_clause(cs@[0]@));
            assert(texts(cs@) =~= own_clauses(m, self, t));
        }
        Lit::pos(v)
    }

    /// Encodes the arguments of a formula.
    #[verifier::spinoff_prover]
    #[verifier::rlimit(60)]
    fn encode_args(&mut self, t: TermId, m: &mut TermManager) -> (lits: Vec<Lit>)
        requires
            linked(old(m), old(self)),
            old(m).has(t),
        ensures
            step(old(m), old(self), final(m), final(self)),
            final(m).terms@[t as int] == old(m).terms@[t as int],
            args_encoded(final(m), final(self), t, lits@),
            texts(final(self).clauses@) == texts(old(self).clauses@) + arg_clauses(final(m), final(self), t, lits@.len() as int),
            brings_before(old(self), final(self), old(m), t, lits@.len() as int),
        decreases t, 1nat,
    {
        proof {
            lemma_step_self(m, self);
        }
        let n: usize = m.terms[t].args.len();
        let mut lits: Vec<Lit> = Vec::new();
        let mut i: usize = 0;
        assert(texts(self.clauses@) =~= texts(old(self).clauses@) + arg_clauses(m, self, t, 0));
        while i < n
            invariant
                brings_before(old(self), self, old(m), t, i as int),
                texts(self.clauses@) == texts(old(self).clauses@) + arg_clauses(m, self, t, i as int),
                i <= n,
                linked(old(m), old(self)),
                old(m).has(t),
                n == old(m).args(t).len(),
                step(old(m), old(self), m, self),
                lits@.len() == i,
                m.terms@[t as int] == old(m).terms@[t as int],
                prefix_encoded(m, self, t, lits@),
            decreases n - i,
        {
            assert(old(m).terms@[t as int].fits(t as int));
            let ghost m1 = *m;
            let ghost e1 = *self;
            let a: usize = m.terms[t].args[i];
            assert(a == m1.args(t)[i as int] && a < t);
            let l = self.encode(a, m);
            let ghost before = lits@;
            lits.push(l);
            proof {
                lemma_step(old(m), old(self), &m1, &e1, m, self);
                assert forall|k: int| 0 <= k < lits@.len() implies #[trigger] lits@[k] == lit_of(m, self, m.arg(t, k)) && encoded(
                    m,
                    self,
                    m.arg(t, k),
                ) by {
                    assert(m.arg(t, k) == m1.arg(t, k));
                    if k < i {
                        let x = m1.args(t)[k];
                        assert(x < t);
                        assert(before[k] == lit_of(&m1, &e1, m1.arg(t, k)));
                        lemma_encoded_extends(&m1, m, &e1, self, x);
                    }
                }
                assert(prefix_encoded(m, self, t, lits@));
                assert forall|k: int| 0 <= k < i implies #[trigger] m1.args(t)[k] < t && encoded(&m1, &e1, m1.args(t)[k]) by {
                    let l = before[k];
                }
                lemma_brings_next(old(m), &m1, old(self), &e1, self, t, i as int);
                lemma_arg_clauses_extend(&m1, m, &e1, self, t, i as int);
                assert(texts(old(self).clauses@) + arg_clauses(m, self, t, i as int) + clauses_of(m, self, a) =~= texts(
                    old(self).clauses@,
                ) + arg_clauses(m, self, t, i + 1));
            }
            i = i + 1;
        }
        lits
    }

    /// Encodes a conjunction.
    #[verifier::spinoff_prover]
    #[verifier::rlimit(80)]
    fn encode_and(&mut self, t: TermId, m: &mut TermManager) -> (l: Lit)
        requires
            linked(old(m), old(self)),
            old(m).has(t),
            old(m).op(t) == Op::And,
        ensures
            step(old(m), old(self), final(m), final(self)),
            encoded(final(m), final(self), t),
            l == lit_of(final(m), final(self), t),
            texts(final(self).clauses@) == texts(old(self).clauses@) + clauses_of(final(m), final(self), t),
            brings(old(self), final(self), old(m), t),
        decreases t, 2nat,
    {
        let v: usize = self.var_for(t, m);
        let r = Lit::pos(v);
        let ghost m1 = *m;
        let ghost e1 = *self;
        let lits = self.encode_args(t, m);
        let ghost e2 = *self;
        proof {
            lemma_step(old(m), old(self), &m1, &e1, m, self);
            assert(self.term_to_var@.contains_key(t) && self.var(t) == v);
        }
        let n: usize = lits.len();
        let mut cs: Vec<Vec<Lit>> = Vec::new();
        let mut i: usize = 0;
        while i < n
            invariant
                i <= n,
                n == lits@.len(),
                cs@.len() == i,
                r == pos(v),
                forall|k: int| 0 <= k < i ==> (#[trigger] cs@[k])@ == seq![flip(r), lits@[k]],
            decreases n - i,
        {
            cs.push(clause2(r.negate(), lits[i]));
            i = i + 1;
        }
        let mut c: Vec<Lit> = Vec::new();
        let mut j: usize = 0;
        while j < n
            invariant
                j <= n,
                n == lits@.len(),
                c@.len() == j,
                forall|k: int| 0 <= k < j ==> #[trigger] c@[k] == flip(lits@[k]),
            decreases n - j,
        {
            c.push(lits[j].negate());
            j = j + 1;
        }
        c.push(r);
        cs.push(c);
        let ghost args = m.args(t);
        let ghost big = Seq::new(args.len(), |i: int| flip(lit_of(m, &e2, args[i]))).push(pos(v));
        proof {
            assert forall|i: int| 0 <= i < n implies valid(m, &e2, #[trigger] seq![flip(r), lits@[i]]) by {
                lemma_gate_truth(m, &e2, arbitrary(), t, lits@);
                assert forall|rd: Reading| #[trigger] lit_true(sigma(m, &e2, rd), flip(r)) || lit_true(sigma(m, &e2, rd), lits@[i]) by {
                    lemma_gate_truth(m, &e2, rd, t, lits@);
                    if truth(m, rd, t) {
                        assert(args[i] < t && truth(m, rd, args[i]));
                    }
                }
                lemma_valid2(m, &e2, flip(r), lits@[i]);
            }
            let c = cs@[n as int]@;
            assert(c =~= Seq::new(lits@.len(), |i: int| flip(lits@[i])).push(r));
            assert(c =~= big) by {
                assert forall|k: int| 0 <= k < n implies c[k] == big[k] by {
                    let l = lits@[k];
                }
            }
            assert forall|rd: Reading| clause_true(#[trigger] sigma(m, &e2, rd), c) by {
                lemma_gate_truth(m, &e2, rd, t, lits@);
                if truth(m, rd, t) {
                    assert(lit_true(sigma(m, &e2, rd), c[n as int]));
                } else {
                    let i = choose|i: int| 0 <= i < args.len() && !(#[trigger] args[i] < t && truth(m, rd, args[i]));
                    assert(lit_true(sigma(m, &e2, rd), flip(lits@[i])));
                    assert(lit_true(sigma(m, &e2, rd), c[i]));
                }
            }
            lemma_gate_truth(m, &e2, arbitrary(), t, lits@);
            assert forall|k: int| 0 <= k < c.len() implies (#[trigger] c[k]).var < e2.var_to_term@.len() && m.has(
                e2.var_to_term@[c[k].var as int],
            ) by {
                if k < n {
                    let l = lits@[k];
                    assert(c[k] == flip(l));
                }
            }
            assert(valid(m, &e2, c));
            assert forall|k: int| 0 <= k < cs@.len() implies valid(m, &e2, (#[trigger] cs@[k])@) by {
                if k < n {
                    assert(valid(m, &e2, seq![flip(r), lits@[k]]));
                }
            }
        }
        self.emit(cs, m);
        proof {
            lemma_step(old(m), old(self), m, &e2, m, self);
            lemma_extended_self(m);
            lemma_args_extend(m, m, &e2, self, t, lits@);
            assert forall|i: int| 0 <= i < args.len() implies #[trigger] args[i] < t && encoded(m, self, args[i]) by {
                assert(m.terms@[t as int].fits(t as int));
                let l = lits@[i];
            }
            assert forall|i: int| 0 <= i < args.len() implies self.has_clause(seq![flip(r), lit_of(m, self, #[trigger] args[i])]) by {
                let l = lits@[i];
                assert(self.has_clause(cs@[i]@));
            }
            assert(self.has_clause(cs@[n as int]@));
            assert(Seq::new(args.len(), |i: int| flip(lit_of(m, self, args[i]))).push(pos(v)) =~= big) by {
                assert forall|i: int| 0 <= i < args.len() implies lit_of(m, self, args[i]) == lit_of(m, &e2, args[i]) by {
                    let l = lits@[i];
                }
            }
            assert(encoded(m, self, t));
            lemma_and_texts(m, self, t, lits@, cs@);
            lemma_emitted(m, texts(old(self).clauses@), &e2, self, t, lits@, cs@);
            assert(brings_before(old(self), &e2, old(m), t, lits@.len() as int));
            lemma_brings_on(old(self), &e2, self, old(m), t, lits@.len() as int);
            lemma_brings_all(old(m), old(self), self, t);
        }
        r
    }
}

impl Encoder {
    /// Encodes a disjunction.
    #[verifier::spinoff_prover]
    #[verifier::rlimit(80)]
    fn encode_or(&mut self, t: TermId, m: &mut TermManager) -> (l: Lit)
        requires
            linked(old(m), old(self)),
            old(m).has(t),
            old(m).op(t) == Op::Or,
        ensures
            step(old(m), old(self), final(m), final(self)),
            encoded(final(m), final(self), t),
            l == lit_of(final(m), final(self), t),
            texts(final(self).clauses@) == texts(old(self).clauses@) + clauses_of(final(m), final(self), t),
            brings(old(self), final(self), old(m), t),
        decreases t, 2nat,
    {
        let v: usize = self.var_for(t, m);
        let r = Lit::pos(v);
        let ghost m1 = *m;
        let ghost e1 = *self;
        let lits = self.encode_args(t, m);
        let ghost e2 = *self;
        proof {
            lemma_step(old(m), old(self), &m1, &e1, m, self);
            assert(self.term_to_var@.contains_key(t) && self.var(t) == v);
        }
        let n: usize = lits.len();
        let mut cs: Vec<Vec<Lit>> = Vec::new();
        let mut c: Vec<Lit> = Vec::new();
        c.push(r.negate());
        let mut i: usize = 0;
        while i < n
            invariant
                i <= n,
                n == lits@.len(),
                c@.len() == i + 1,
                c@[0] == flip(r),
                forall|k: int| 0 <= k < i ==> #[trigger] lits@[k] == c@[k + 1],
            decreases n - i,
        {
            c.push(lits[i]);
            i = i + 1;
        }
        let ghost long = c@;
        cs.push(c);
        let mut j: usize = 0;
        while j < n
            invariant
                j <= n,
                n == lits@.len(),
                cs@.len() == j + 1,
                r == pos(v),
                cs@[0]@ == long,
                forall|k: int| 0 < k < j + 1 ==> (#[trigger] cs@[k])@ == seq![flip(lits@[k - 1]), r],
            decreases n - j,
        {
            cs.push(clause2(lits[j].negate(), r));
            j = j + 1;
        }
        let ghost args = m.args(t);
        let ghost big = seq![flip(r)] + Seq::new(args.len(), |i: int| lit_of(m, &e2, args[i]));
        proof {
            assert forall|i: int| 0 <= i < n implies valid(m, &e2, #[trigger] seq![flip(lits@[i]), r]) by {
                lemma_gate_truth(m, &e2, arbitrary(), t, lits@);
                assert forall|rd: Reading| #[trigger] lit_true(sigma(m, &e2, rd), flip(lits@[i])) || lit_true(sigma(m, &e2, rd), r) by {
                    lemma_gate_truth(m, &e2, rd, t, lits@);
                    if truth(m, rd, m.arg(t, i)) {
                        assert(args[i] < t && truth(m, rd, args[i]));
                    }
                }
                lemma_valid2(m, &e2, flip(lits@[i]), r);
            }
            let c = cs@[0]@;
            assert(c =~= seq![flip(r)] + lits@) by {
                assert forall|k: int| 0 <= k < c.len() implies c[k] == (seq![flip(r)] + lits@)[k] by {
                    if k > 0 {
                        let l = lits@[k - 1];
                    }
                }
            }
            assert(c =~= big) by {
                assert forall|k: int| 0 <= k < lits@.len() implies #[trigger] lits@[k] == lit_of(m, &e2, args[k]) by {}
            }
            assert forall|rd: Reading| clause_true(#[trigger] sigma(m, &e2, rd), c) by {
                lemma_gate_truth(m, &e2, rd, t, lits@);
                if !truth(m, rd, t) {
                    assert(lit_true(sigma(m, &e2, rd), c[0]));
                } else {
                    let i = choose|i: int| 0 <= i < args.len() && (#[trigger] args[i] < t && truth(m, rd, args[i]));
                    assert(lit_true(sigma(m, &e2, rd), lits@[i]));
                    assert(lit_true(sigma(m, &e2, rd), c[i + 1]));
                }
            }
            lemma_gate_truth(m, &e2, arbitrary(), t, lits@);
            assert forall|k: int| 0 <= k < c.len() implies (#[trigger] c[k]).var < e2.var_to_term@.len() && m.has(
                e2.var_to_term@[c[k].var as int],
            ) by {
                if k > 0 {
                    let l = lits@[k - 1];
                    assert(c[k] == l);
                }
            }
            assert(valid(m, &e2, c));
            assert forall|k: int| 0 <= k < cs@.len() implies valid(m, &e2, (#[trigger] cs@[k])@) by {
                if k > 0 {
                    assert(valid(m, &e2, seq![flip(lits@[k - 1]), r]));
                }
            }
        }
        self.emit(cs, m);
        proof {
            lemma_step(old(m), old(self), m, &e2, m, self);
            lemma_extended_self(m);
            lemma_args_extend(m, m, &e2, self, t, lits@);
            assert forall|i: int| 0 <= i < args.len() implies #[trigger] args[i] < t && encoded(m, self, args[i]) by {
                assert(m.terms@[t as int].fits(t as int));
                let l = lits@[i];
            }
            assert forall|i: int| 0 <= i < args.len() implies self.has_clause(
                seq![flip(lit_of(m, self, #[trigger] args[i])), r],
            ) by {
                let l = lits@[i];
                assert(self.has_clause(cs@[i + 1]@));
            }
            assert(self.has_clause(cs@[0]@));
            assert(seq![flip(r)] + Seq::new(args.len(), |i: int| lit_of(m, self, args[i])) =~= big) by {
                assert forall|i: int| 0 <= i < args.len() implies lit_of(m, self, args[i]) == lit_of(m, &e2, args[i]) by {
                    let l = lits@[i];
                }
            }
            assert(encoded(m, self, t));
            lemma_or_texts(m, self, t, lits@, cs@);
            lemma_emitted(m, texts(old(self).clauses@), &e2, self, t, lits@, cs@);
            assert(brings_before(old(self), &e2, old(m), t, lits@.len() as int));
            lemma_brings_on(old(self), &e2, self, old(m), t, lits@.len() as int);
            lemma_brings_all(old(m), old(self), self, t);
        }
        r
    }

    /// Encodes an exclusive disjunction.
    #[verifier::spinoff_prover]
    #[verifier::rlimit(60)]
    fn encode_xor(&mut self, t: TermId, m: &mut TermManager) -> (l: Lit)
        requires
            linked(old(m), old(self)),
            old(m).has(t),
            old(m).op(t) == Op::Xor,
        ensures
            step(old(m), old(self), final(m), final(self)),
            encoded(final(m), final(self), t),
            l == lit_of(final(m), final(self), t),
            texts(final(self).clauses@) == texts(old(self).clauses@) + clauses_of(final(m), final(self), t),
            brings(old(self), final(self), old(m), t),
        decreases t, 2nat,
    {
        assert(m.terms@[t as int].fits(t as int));
        let lits = self.encode_args(t, m);
        let ghost e1 = *self;
        let v: usize = self.var_for(t, m);
        let r = Lit::pos(v);
        let ghost e2 = *self;
        let x = lits[0];
        let y = lits[1];
        proof {
            lemma_step(old(m), old(self), m, &e1, m, self);
            lemma_args_extend(m, m, &e1, self, t, lits@);
            lemma_gate_truth(m, self, arbitrary(), t, lits@);
            assert forall|rd: Reading| #![trigger sigma(m, self, rd)]
                lit_true(sigma(m, self, rd), r) == (lit_true(sigma(m, self, rd), x) != lit_true(sigma(m, self, rd), y)) by {
                lemma_gate_truth(m, self, rd, t, lits@);
                assert(m.args(t)[0] < t && m.args(t)[1] < t);
            }
            lemma_valid3(m, self, flip(r), x, y);
            lemma_valid3(m, self, flip(r), flip(x), flip(y));
            lemma_valid3(m, self, flip(x), y, r);
            lemma_valid3(m, self, x, flip(y), r);
        }
        let cs = four(
            clause3(r.negate(), x, y),
            clause3(r.negate(), x.negate(), y.negate()),
            clause3(x.negate(), y, r),
            clause3(x, y.negate(), r),
        );
        self.emit(cs, m);
        proof {
            lemma_step(old(m), old(self), m, &e2, m, self);
            lemma_args_extend(m, m, &e2, self, t, lits@);
            assert(self.has_clause(cs@[0]@) && self.has_clause(cs@[1]@) && self.has_clause(cs@[2]@) && self.has_clause(cs@[3]@));
            assert(lits@[0] == lit_of(m, self, m.arg(t, 0)) && lits@[1] == lit_of(m, self, m.arg(t, 1)));
            assert(m.terms@[t as int].fits(t as int));
            assert(encoded(m, self, t));
            assert(texts(cs@) =~= own_clauses(m, self, t));
            assert forall|i: int| 0 <= i < m.args(t).len() implies #[trigger] m.args(t)[i] < t && encoded(m, &e1, m.args(t)[i]) by {
                let l = lits@[i];
            }
            lemma_arg_clauses_extend(m, m, &e1, &e2, t, m.args(t).len() as int);
            lemma_emitted(m, texts(old(self).clauses@), &e2, self, t, lits@, cs@);
            lemma_brings_on(old(self), &e1, self, old(m), t, lits@.len() as int);
            lemma_brings_all(old(m), old(self), self, t);
        }
        r
    }

    /// Encodes an implication.
    #[verifier::spinoff_prover]
    #[verifier::rlimit(60)]
    fn encode_implies(&mut self, t: TermId, m: &mut TermManager) -> (l: Lit)
        requires
            linked(old(m), old(self)),
            old(m).has(t),
            old(m).op(t) == Op::Implies,
        ensures
            step(old(m), old(self), final(m), final(self)),
            encoded(final(m), final(self), t),
            l == lit_of(final(m), final(self), t),
            texts(final(self).clauses@) == texts(old(self).clauses@) + clauses_of(final(m), final(self), t),
            brings(old(self), final(self), old(m), t),
        decreases t, 2nat,
    {
        assert(m.terms@[t as int].fits(t as int));
        let lits = self.encode_args(t, m);
        let ghost e1 = *self;
        let v: usize = self.var_for(t, m);
        let r = Lit::pos(v);
        let ghost e2 = *self;
        let x = lits[0];
        let y = lits[1];
        proof {
            lemma_step(old(m), old(self), m, &e1, m, self);
            lemma_args_extend(m, m, &e1, self, t, lits@);
            lemma_gate_truth(m, self, arbitrary(), t, lits@);
            assert forall|rd: Reading| #![trigger sigma(m, self, rd)]
                lit_true(sigma(m, self, rd), r) == (lit_true(sigma(m, self, rd), x) ==> lit_true(sigma(m, self, rd), y)) by {
                lemma_gate_truth(m, self, rd, t, lits@);
                assert(m.args(t)[0] < t && m.args(t)[1] < t);
            }
            lemma_valid3(m, self, flip(r), flip(x), y);
            lemma_valid2(m, self, x, r);
            lemma_valid2(m, self, flip(y), r);
        }
        let cs = three(clause3(r.negate(), x.negate(), y), clause2(x, r), clause2(y.negate(), r));
        self.emit(cs, m);
        proof {
            lemma_step(old(m), old(self), m, &e2, m, self);
            lemma_args_extend(m, m, &e2, self, t, lits@);
            assert(self.has_clause(cs@[0]@) && self.has_clause(cs@[1]@) && self.has_clause(cs@[2]@));
            assert(lits@[0] == lit_of(m, self, m.arg(t, 0)) && lits@[1] == lit_of(m, self, m.arg(t, 1)));
            assert(m.terms@[t as int].fits(t as int));
            assert(encoded(m, self, t));
            assert(texts(cs@) =~= own_clauses(m, self, t));
            assert forall|i: int| 0 <= i < m.args(t).len() implies #[trigger] m.args(t)[i] < t && encoded(m, &e1, m.args(t)[i]) by {
                let l = lits@[i];
            }
            lemma_arg_clauses_extend(m, m, &e1, &e2, t, m.args(t).len() as int);
            lemma_emitted(m, texts(old(self).clauses@), &e2, self, t, lits@, cs@);
            lemma_brings_on(old(self), &e1, self, old(m), t, lits@.len() as int);
            lemma_brings_all(old(m), old(self), self, t);
        }
        r
    }

    /// Encodes a choice between two formulas.
    #[verifier::spinoff_prover]
    #[verifier::rlimit(60)]
    fn encode_ite(&mut self, t: TermId, m: &mut TermManager) -> (l: Lit)
        requires
            linked(old(m), old(self)),
            old(m).has(t),
            old(m).op(t) == Op::Ite,
        ensures
            step(old(m), old(self), final(m), final(self)),
            encoded(final(m), final(self), t),
            l == lit_of(final(m), final(self), t),
            texts(final(self).clauses@) == texts(old(self).clauses@) + clauses_of(final(m), final(self), t),
            brings(old(self), final(self), old(m), t),
        decreases t, 2nat,
    {
        assert(m.terms@[t as int].fits(t as int));
        let lits = self.encode_args(t, m);
        let ghost e1 = *self;
        let v: usize = self.var_for(t, m);
        let r = Lit::pos(v);
        let ghost e2 = *self;
        let c = lits[0];
        let x = lits[1];
        let y = lits[2];
        proof {
            lemma_step(old(m), old(self), m, &e1, m, self);
            lemma_args_extend(m, m, &e1, self, t, lits@);
            lemma_gate_truth(m, self, arbitrary(), t, lits@);
            assert forall|rd: Reading| #![trigger sigma(m, self, rd)]
                lit_true(sigma(m, self, rd), r) == if lit_true(sigma(m, self, rd), c) {
                    lit_true(sigma(m, self, rd), x)
                } else {
                    lit_true(sigma(m, self, rd), y)
                } by {
                lemma_gate_truth(m, self, rd, t, lits@);
                assert(m.args(t)[0] < t && m.args(t)[1] < t && m.args(t)[2] < t);
            }
            lemma_valid3(m, self, flip(c), flip(r), x);
            lemma_valid3(m, self, flip(c), flip(x), r);
            lemma_valid3(m, self, c, flip(r), y);
            lemma_valid3(m, self, c, flip(y), r);
        }
        let cs = four(
            clause3(c.negate(), r.negate(), x),
            clause3(c.negate(), x.negate(), r),
            clause3(c, r.negate(), y),
            clause3(c, y.negate(), r),
        );
        self.emit(cs, m);
        proof {
            lemma_step(old(m), old(self), m, &e2, m, self);
            lemma_args_extend(m, m, &e2, self, t, lits@);
            assert(self.has_clause(cs@[0]@) && self.has_clause(cs@[1]@) && self.has_clause(cs@[2]@) && self.has_clause(cs@[3]@));
            assert(lits@[0] == lit_of(m, self, m.arg(t, 0)) && lits@[1] == lit_of(m, self, m.arg(t, 1)) && lits@[2] == lit_of(
                m,
                self,
                m.arg(t, 2),
            ));
            assert(m.terms@[t as int].fits(t as int));
            assert(encoded(m, self, t));
            assert(texts(cs@) =~= own_clauses(m, self, t));
            assert forall|i: int| 0 <= i < m.args(t).len() implies #[trigger] m.args(t)[i] < t && encoded(m, &e1, m.args(t)[i]) by {
                let l = lits@[i];
            }
            lemma_arg_clauses_extend(m, m, &e1, &e2, t, m.args(t).len() as int);
            lemma_emitted(m, texts(old(self).clauses@), &e2, self, t, lits@, cs@);
            lemma_brings_on(old(self), &e1, self, old(m), t, lits@.len() as int);
            lemma_brings_all(old(m), old(self), self, t);
        }
        r
    }

    /// Encodes an equality between terms below `bound`.
    #[verifier::spinoff_prover]
    #[verifier::rlimit(60)]
    fn encode_eq(&mut self, q: TermId, m: &mut TermManager, Ghost(bound): Ghost<TermId>) -> (l: Lit)
        requires
            linked(old(m), old(self)),
            old(m).has(q),
            old(m).op(q) == Op::Eq,
            old(m).arg(q, 0) < bound,
            old(m).arg(q, 1) < bound,
        ensures
            step(old(m), old(self), final(m), final(self)),
            final(m).terms@[q as int] == old(m).terms@[q as int],
            eq_encoded(final(m), final(self), q, bound),
            final(self).term_to_var@.contains_key(q),
            l == pos(final(self).var(q)),
            texts(final(self).clauses@) == texts(old(self).clauses@) + eq_emits(final(m), final(self), q),
            brings_pair(old(self), final(self), old(m), old(m).arg(q, 0), old(m).arg(q, 1)),
        decreases bound, 0nat,
    {
        assert(m.terms@[q as int].fits(q as int));
        let a: usize = m.terms[q].args[0];
        let b: usize = m.terms[q].args[1];
        if m.terms[a].sort != BOOL_SORT {
            let l = self.encode_atom(q, m);
            assert(texts(self.clauses@) =~= texts(old(self).clauses@) + eq_emits(m, self, q));
            return l;
        }
        let x = self.encode(a, m);
        let ghost m1 = *m;
        let ghost e1 = *self;
        let y = self.encode(b, m);
        let ghost e2 = *self;
        proof {
            lemma_step(old(m), old(self), &m1, &e1, m, self);
            lemma_encoded_extends(&m1, m, &e1, self, a);
        }
        let v: usize = self.var_for(q, m);
        let r = Lit::pos(v);
        let ghost e3 = *self;
        let ghost lits = seq![x, y];
        proof {
            lemma_step(old(m), old(self), m, &e2, m, self);
            lemma_extended_self(m);
            assert(m.terms@[q as int] == old(m).terms@[q as int]);
            assert(m.terms@[a as int] == old(m).terms@[a as int]);
            assert(m.arg(q, 0) == a && m.arg(q, 1) == b);
            assert(args_encoded(m, &e2, q, lits));
            lemma_args_extend(m, m, &e2, self, q, lits);
            lemma_gate_truth(m, self, arbitrary(), q, lits);
            assert(lits[0] == x && lits[1] == y);
            assert forall|rd: Reading| #![trigger sigma(m, self, rd)]
                lit_true(sigma(m, self, rd), r) == (lit_true(sigma(m, self, rd), x) == lit_true(sigma(m, self, rd), y)) by {
                lemma_gate_truth(m, self, rd, q, lits);
                assert(lit_true(sigma(m, self, rd), lits[0]) == truth(m, rd, a));
                assert(lit_true(sigma(m, self, rd), lits[1]) == truth(m, rd, b));
                assert(m.args(q)[0] < q && m.args(q)[1] < q);
                assert(truth(m, rd, q) == equal_under(m, rd, q, a, b));
            }
            lemma_valid3(m, self, flip(r), flip(x), y);
            lemma_valid3(m, self, flip(r), flip(y), x);
            lemma_valid3(m, self, x, y, r);
            lemma_valid3(m, self, flip(x), flip(y), r);
        }
        let cs = four(
            clause3(r.negate(), x.negate(), y),
            clause3(r.negate(), y.negate(), x),
            clause3(x, y, r),
            clause3(x.negate(), y.negate(), r),
        );
        self.emit(cs, m);
        proof {
            lemma_step(old(m), old(self), m, &e3, m, self);
            lemma_args_extend(m, m, &e3, self, q, lits);
            assert(self.has_clause(cs@[0]@) && self.has_clause(cs@[1]@) && self.has_clause(cs@[2]@) && self.has_clause(cs@[3]@));
            assert(lits[0] == lit_of(m, self, m.arg(q, 0)) && lits[1] == lit_of(m, self, m.arg(q, 1)));
            assert(eq_encoded(m, self, q, bound));
            assert(texts(cs@) =~= eq_clauses(m, self, q));
            lemma_brings_sides(old(m), &m1, old(self), &e1, &e2, self, a, b);
            lemma_clauses_extend(&m1, m, &e1, self, a);
            lemma_clauses_extend(m, m, &e2, self, b);
            lemma_regroup(
                texts(old(self).clauses@),
                clauses_of(m, self, a),
                clauses_of(m, self, b),
                eq_clauses(m, self, q),
            );
        }
        r
    }

    /// Encodes an atom: gives it a variable and tells the theories what it stands for.
    fn encode_atom(&mut self, t: TermId, m: &TermManager) -> (l: Lit)
        requires
            linked(m, old(self)),
            m.has(t),
            !connective(m, t),
        ensures
            step(m, old(self), m, final(self)),
            atom_done(m, final(self), t),
            final(self).term_to_var@.contains_key(t),
            l == pos(final(self).var(t)),
            final(self).clauses@ == old(self).clauses@,
            forall|x: Find| #[trigger] found(final(self), x) <==> found(old(self), x) || atom_finds(m, t, x),
    {
        assert(m.terms@[t as int].fits(t as int));
        let v: usize = self.var_for(t, m);
        let ghost e1 = *self;
        let sort: usize = m.terms[t].sort;
        match m.terms[t].op {
            Op::Var(_) => {
                if sort == INT_SORT || sort == REAL_SORT {
                    self.add_arith_term(t);
                } else if sort < m.sorts.len() && (match m.sorts[sort] {
                    Sort::BitVec(_) => true,
                    _ => false,
                }) {
                    self.add_bv_term(t);
                }
                proof {
                    if *self == e1 {
                        lemma_advances_self(&e1);
                    }
                    lemma_linked_tables(m, &e1, self);
                }
            },
            Op::Apply(_) => {
                if sort == BOOL_SORT {
                    self.record_constraint(v, t, m, Constraint::BoolApp(t));
                } else {
                    proof {
                        lemma_step_self(m, self);
                    }
                }
            },
            Op::Eq => {
                let a: usize = m.terms[t].args[0];
                let b: usize = m.terms[t].args[1];
                self.record_constraint(v, t, m, Constraint::Eq(a, b));
                let ghost e2 = *self;
                self.record_sides(t, m);
                let ghost e3 = *self;
                if m.terms[a].sort == INT_SORT || m.terms[a].sort == REAL_SORT {
                    self.record_comparison(v, t, m, ArithConstraintType::Le);
                } else {
                    proof {
                        lemma_step_self(m, self);
                    }
                }
                proof {
                    lemma_recorded(m, &e1, &e2, &e3, self, t);
                }
            },
            Op::Compare(rel) => {
                let a: usize = m.terms[t].args[0];
                let b: usize = m.terms[t].args[1];
                let (c, ty) = match rel {
                    Rel::Lt => (Constraint::Lt(a, b), ArithConstraintType::Lt),
                    Rel::Le => (Constraint::Le(a, b), ArithConstraintType::Le),
                    Rel::Gt => (Constraint::Gt(a, b), ArithConstraintType::Gt),
                    Rel::Ge => (Constraint::Ge(a, b), ArithConstraintType::Ge),
                };
                self.record_constraint(v, t, m, c);
                let ghost e2 = *self;
                self.record_sides(t, m);
                let ghost e3 = *self;
                self.record_comparison(v, t, m, ty);
                proof {
                    lemma_recorded(m, &e1, &e2, &e3, self, t);
                }
            },
            Op::BvCompare(rel) => {
                let a: usize = m.terms[t].args[0];
                let b: usize = m.terms[t].args[1];
                let (c, ty) = match rel {
                    BvRel::Ult | BvRel::Slt => (Constraint::Lt(a, b), ArithConstraintType::Lt),
                    BvRel::Ule | BvRel::Sle => (Constraint::Le(a, b), ArithConstraintType::Le),
                };
                self.record_constraint(v, t, m, c);
                let ghost e2 = *self;
                self.record_sides(t, m);
                let ghost e3 = *self;
                self.record_comparison(v, t, m, ty);
                proof {
                    lemma_recorded(m, &e1, &e2, &e3, self, t);
                }
            },
            Op::Bv(BvOp::Udiv) | Op::Bv(BvOp::Sdiv) | Op::Bv(BvOp::Urem) | Op::Bv(BvOp::Srem) => {
                self.has_bv_arith_ops = true;
                proof {
                    lemma_advances_self(&e1);
                    assert(e1.advances(self));
                    lemma_linked_tables(m, &e1, self);
                }
            },
            Op::Forall | Op::Exists => {
                self.has_quantifiers = true;
                proof {
                    lemma_advances_self(&e1);
                    assert(e1.advances(self));
                    lemma_linked_tables(m, &e1, self);
                }
            },
            _ => {
                proof {
                    lemma_advances_self(&e1);
                }
            },
        }
        proof {
            assert(e1.advances(self));
            assert(step(m, &e1, m, self));
            lemma_step(m, old(self), m, &e1, m, self);
            assert forall|x: Find| #[trigger] found(self, x) <==> found(old(self), x) || atom_finds(m, t, x) by {
                assert(found(&e1, x) <==> found(old(self), x));
                if m.op(t) is Var {
                    assert(forall|y: usize| #[trigger] reaches(m, t, y) <==> y == t);
                    assert(self.arith_terms@ == self.tables().arith_terms && self.bv_terms@ == self.tables().bv_terms);
                }
            }
        }
        Lit::pos(v)
    }

    /// Records what the variable of an atom stands for.
    fn record_constraint(&mut self, v: Var, t: TermId, m: &TermManager, c: Constraint)
        requires
            linked(m, old(self)),
            m.has(t),
            old(self).term_to_var@.contains_key(t),
            v == old(self).var(t),
            constraint_of(m, t) == Some(c),
        ensures
            step(m, old(self), m, final(self)),
            final(self).constraints@.contains_key(v),
            final(self).clauses@ == old(self).clauses@,
            brings_nothing(old(self), final(self)),
    {
        self.add_constraint(v, c);
        proof {
            lemma_extended_self(m);
            lemma_walked_extends(m, m, old(self), self);
            assert forall|u: usize| #[trigger] self.constraints@.contains_key(u) implies m.has(self.var_to_term@[u as int])
                && constraint_of(m, self.var_to_term@[u as int]) == Some(self.constraints@[u]) by {
                if u != v {
                    assert(old(self).constraints@.contains_key(u));
                }
            }
        }
    }

    /// Registers the unknowns of both sides of a comparison.
    fn record_sides(&mut self, t: TermId, m: &TermManager)
        requires
            linked(m, old(self)),
            m.has(t),
            compares(m.op(t)),
        ensures
            step(m, old(self), m, final(self)),
            registered(m, final(self), m.arg(t, 0)),
            registered(m, final(self), m.arg(t, 1)),
            final(self).clauses@ == old(self).clauses@,
            forall|x: Find| #[trigger] found(final(self), x) <==> found(old(self), x) || side_finds(m, m.arg(t, 0), x) || side_finds(
                m,
                m.arg(t, 1),
                x,
            ),
    {
        assert(m.terms@[t as int].fits(t as int));
        let a: usize = m.terms[t].args[0];
        let b: usize = m.terms[t].args[1];
        self.track_theory_vars(a, m);
        let ghost e1 = *self;
        assert(registered(m, &e1, a));
        self.track_theory_vars(b, m);
        proof {
            lemma_extended_self(m);
            lemma_registered_extends(m, m, &e1, self, a);
            lemma_advances(old(self), &e1, self);
            assert(registered(m, self, b));
            assert(linked(m, self));
        }
    }

    /// Records the linear form of a comparison, if it has one.
    fn record_comparison(&mut self, v: Var, t: TermId, m: &TermManager, ty: ArithConstraintType)
        requires
            linked(m, old(self)),
            m.has(t),
            compares(m.op(t)),
            old(self).term_to_var@.contains_key(t),
            v == old(self).var(t),
            comparison_type(m, t) == Some(ty),
        ensures
            step(m, old(self), m, final(self)),
            comparison_of(m, m.arg(t, 0), m.arg(t, 1)) is Some ==> final(self).parsed@.contains_key(v),
            final(self).clauses@ == old(self).clauses@,
            brings_nothing(old(self), final(self)),
    {
        assert(m.terms@[t as int].fits(t as int));
        proof {
            lemma_step_self(m, self);
        }
        let a: usize = m.terms[t].args[0];
        let b: usize = m.terms[t].args[1];
        if let Some(p) = parse_arith_comparison(m, a, b, ty, t) {
            self.add_parsed(v, p);
            proof {
                lemma_extended_self(m);
                lemma_walked_extends(m, m, old(self), self);
                assert forall|u: usize| #[trigger] self.parsed@.contains_key(u) implies m.has(self.var_to_term@[u as int])
                    && parsed_for(m, self.var_to_term@[u as int], self.parsed@[u]) by {
                    if u != v {
                        assert(old(self).parsed@.contains_key(u));
                    }
                }
                assert(linked(m, self));
            }
        }
    }
}

/// The list holds pairs of indices below `n`, the smaller first.
pub open spec fn ordered_pairs(ps: Seq<(usize, usize)>, n: int) -> bool {
    forall|k: int| 0 <= k < ps.len() ==> (#[trigger] ps[k]).0 < ps[k].1 && ps[k].1 < n
}

/// The pairs of indices below `n`, the smaller first.
fn index_pairs(n: usize) -> (ps: Vec<(usize, usize)>)
    ensures
        ps@ == pair_rows(n as int, n as int),
        ordered_pairs(ps@, n as int),
        forall|i: usize, j: usize| i < j < n ==> #[trigger] ps@.contains((i, j)),
{
    let mut ps: Vec<(usize, usize)> = Vec::new();
    let mut i: usize = 0;
    while i < n
        invariant
            i <= n,
            ps@ == pair_rows(i as int, n as int),
            ordered_pairs(ps@, n as int),
            forall|a: usize, b: usize| a < i && a < b < n ==> #[trigger] ps@.contains((a, b)),
        decreases n - i,
    {
        let mut j: usize = i + 1;
        assert(ps@ =~= pair_rows(i as int, n as int) + pair_row(i as int, n as int).take(0));
        while j < n
            invariant
                ps@ == pair_rows(i as int, n as int) + pair_row(i as int, n as int).take(j - i - 1),
                i < n,
                i < j <= n,
                ordered_pairs(ps@, n as int),
                forall|a: usize, b: usize| a < i && a < b < n ==> #[trigger] ps@.contains((a, b)),
                forall|b: usize| i < b < j ==> #[trigger] ps@.contains((i, b)),
            decreases n - j,
        {
            let ghost before = ps@;
            ps.push((i, j));
            proof {
                assert(ps@[before.len() as int] == (i, j));
                assert forall|a: usize, b: usize| before.contains((a, b)) implies #[trigger] ps@.contains((a, b)) by {
                    let k = choose|k: int| 0 <= k < before.len() && before[k] == (a, b);
                    assert(ps@[k] == (a, b));
                }
                assert(pair_row(i as int, n as int).take(j - i) =~= pair_row(i as int, n as int).take(j - i - 1).push((i, j)));
                assert(ps@ =~= pair_rows(i as int, n as int) + pair_row(i as int, n as int).take(j - i));
            }
            j = j + 1;
        }
        assert(pair_row(i as int, n as int).take(n - i - 1) =~= pair_row(i as int, n as int));
        i = i + 1;
    }
    ps
}

/// Equality under a reading does not depend on the formula that it stands in.
proof fn lemma_equal_under(m: &TermManager, r: Reading, t: TermId, q: TermId, a: TermId, b: TermId)
    requires
        a < t,
        b < t,
        is_eq_term(m, q, a, b),
        m.wf(),
    ensures
        truth(m, r, q) == equal_under(m, r, t, a, b),
{
    assert(m.terms@[q as int].fits(q as int));
    assert(m.args(q)[0] == a && m.args(q)[1] == b);
    assert(truth(m, r, q) == equal_under(m, r, q, a, b));
    assert(equal_under(m, r, q, a, b) == equal_under(m, r, t, a, b));
}

/// The equalities `qs` of the pairs `ps` of arguments of `t` are encoded.
spec fn pairs_encoded(m: &TermManager, e: &Encoder, t: TermId, ps: Seq<(usize, usize)>, qs: Seq<TermId>) -> bool {
    &&& qs.len() <= ps.len()
    &&& forall|k: int| 0 <= k < qs.len() ==> is_eq_term(
        m,
        #[trigger] qs[k],
        m.arg(t, ps[k].0 as int),
        m.arg(t, ps[k].1 as int),
    ) && eq_encoded(m, e, qs[k], t) && e.term_to_var@.contains_key(qs[k])
}

/// Encoded equalities stay so.
proof fn lemma_pairs_extend(
    m: &TermManager,
    later: &TermManager,
    e: &Encoder,
    f: &Encoder,
    t: TermId,
    ps: Seq<(usize, usize)>,
    qs: Seq<TermId>,
)
    requires
        m.wf(),
        later.wf(),
        m.extended_by(later),
        e.grows(f),
        m.has(t),
        pairs_encoded(m, e, t, ps, qs),
    ensures
        pairs_encoded(later, f, t, ps, qs),
{
    assert(later.terms@[t as int] == m.terms@[t as int]);
    assert forall|k: int| 0 <= k < qs.len() implies is_eq_term(
        later,
        #[trigger] qs[k],
        later.arg(t, ps[k].0 as int),
        later.arg(t, ps[k].1 as int),
    ) && eq_encoded(later, f, qs[k], t) && f.term_to_var@.contains_key(qs[k]) by {
        let q = qs[k];
        assert(later.terms@[q as int] == m.terms@[q as int]);
        lemma_eq_encoded_extends(m, later, e, f, q, t);
    }
}

/// The clauses of the equalities of the first pairs stay what they are when definitions are added.
proof fn lemma_first_pairs_extend(
    m: &TermManager,
    later: &TermManager,
    e: &Encoder,
    f: &Encoder,
    t: TermId,
    qs: Seq<TermId>,
    k: int,
)
    requires
        m.wf(),
        later.wf(),
        m.extended_by(later),
        e.grows(f),
        m.has(t),
        pairs_encoded(m, e, t, arg_pairs(m, t), qs),
        0 <= k <= qs.len(),
    ensures
        pair_clauses(later, f, t, k) == pair_clauses(m, e, t, k),
    decreases k,
{
    let args = m.args(t);
    let n = args.len() as int;
    assert(later.terms@[t as int] == m.terms@[t as int]);
    assert(m.terms@[t as int].fits(t as int));
    assert(n == m.terms@[t as int].args.len());
    lemma_pair_rows(n, n);
    if k > 0 {
        lemma_first_pairs_extend(m, later, e, f, t, qs, k - 1);
        let p = arg_pairs(m, t)[k - 1];
        let a = args[p.0 as int];
        let b = args[p.1 as int];
        let q = qs[k - 1];
        assert(later.terms@[a as int] == m.terms@[a as int]);
        assert(later.terms@[q as int] == m.terms@[q as int]);
        lemma_eq_unique(m, q, a, b);
        lemma_eq_unique(later, q, a, b);
        assert(m.args(q)[0] == a && m.args(q)[1] == b);
        lemma_eq_emits_extend(m, later, e, f, q);
    }
}

impl Encoder {
    /// Encodes the equalities of the given pairs of arguments.
    #[verifier::spinoff_prover]
    #[verifier::rlimit(60)]
    fn encode_pairs(&mut self, t: TermId, m: &mut TermManager, ps: &Vec<(usize, usize)>) -> (qs: Vec<TermId>)
        requires
            linked(old(m), old(self)),
            old(m).has(t),
            ordered_pairs(ps@, old(m).args(t).len() as int),
            ps@ == arg_pairs(old(m), t),
        ensures
            step(old(m), old(self), final(m), final(self)),
            texts(final(self).clauses@) == texts(old(self).clauses@) + pair_clauses(final(m), final(self), t, ps@.len() as int),
            brings_pairs(old(self), final(self), old(m), t, ps@, ps@.len() as int),
            final(m).terms@[t as int] == old(m).terms@[t as int],
            qs@.len() == ps@.len(),
            pairs_encoded(final(m), final(self), t, ps@, qs@),
        decreases t, 1nat,
    {
        proof {
            lemma_step_self(m, self);
        }
        let mut qs: Vec<TermId> = Vec::new();
        let mut k: usize = 0;
        assert(texts(self.clauses@) =~= texts(old(self).clauses@) + pair_clauses(m, self, t, 0));
        while k < ps.len()
            invariant
                k <= ps.len(),
                ps@ == arg_pairs(old(m), t),
                texts(self.clauses@) == texts(old(self).clauses@) + pair_clauses(m, self, t, k as int),
                brings_pairs(old(self), self, old(m), t, ps@, k as int),
                linked(old(m), old(self)),
                old(m).has(t),
                ordered_pairs(ps@, old(m).args(t).len() as int),
                step(old(m), old(self), m, self),
                m.terms@[t as int] == old(m).terms@[t as int],
                qs@.len() == k,
                pairs_encoded(m, self, t, ps@, qs@),
            decreases ps.len() - k,
        {
            let ghost m1 = *m;
            let ghost e1 = *self;
            assert(old(m).terms@[t as int].fits(t as int));
            assert(ps@[k as int].0 < ps@[k as int].1);
            let a: usize = m.terms[t].args[ps[k].0];
            let b: usize = m.terms[t].args[ps[k].1];
            assert(a == old(m).args(t)[ps@[k as int].0 as int] && b == old(m).args(t)[ps@[k as int].1 as int]);
            assert(a < t && b < t);
            let q: usize = m.mk_eq(a, b);
            let ghost m2 = *m;
            proof {
                lemma_linked_extends(&m1, m, self);
                assert(m.args(q)[0] == a && m.args(q)[1] == b);
            }
            let l = self.encode_eq(q, m, Ghost(t));
            let ghost before = qs@;
            qs.push(q);
            proof {
                lemma_step(&m1, &e1, &m2, &e1, m, self);
                lemma_step(old(m), old(self), &m1, &e1, m, self);
                lemma_pairs_extend(&m1, m, &e1, self, t, ps@, before);
                assert(m.terms@[t as int] == old(m).terms@[t as int]);
                assert(m.terms@[q as int] == m2.terms@[q as int]);
                assert forall|j: int| 0 <= j < qs@.len() implies is_eq_term(
                    m,
                    #[trigger] qs@[j],
                    m.arg(t, ps@[j].0 as int),
                    m.arg(t, ps@[j].1 as int),
                ) && eq_encoded(m, self, qs@[j], t) && self.term_to_var@.contains_key(qs@[j]) by {
                    if j < k {
                        assert(before[j] == qs@[j]);
                    }
                }
                assert(pairs_encoded(m, self, t, ps@, qs@));
                lemma_first_pairs_extend(&m1, m, &e1, self, t, before, k as int);
                lemma_extended_twice(old(m), &m1, &m2);
                lemma_brings_next_pair(old(m), &m2, old(self), &e1, self, t, ps@, k as int);
                lemma_eq_unique(m, q, a, b);
                assert(m.args(q)[0] == a && m.args(q)[1] == b);
                assert(arg_pairs(m, t) == ps@);
                assert(texts(old(self).clauses@) + pair_clauses(m, self, t, k as int) + eq_emits(m, self, q) =~= texts(
                    old(self).clauses@,
                ) + pair_clauses(m, self, t, k + 1));
            }
            k = k + 1;
        }
        qs
    }

    /// Encodes a distinctness of more than one term.
    #[verifier::spinoff_prover]
    #[verifier::rlimit(60)]
    fn encode_distinct(&mut self, t: TermId, m: &mut TermManager) -> (l: Lit)
        requires
            linked(old(m), old(self)),
            old(m).has(t),
            old(m).op(t) == Op::Distinct,
            old(m).args(t).len() > 1,
        ensures
            step(old(m), old(self), final(m), final(self)),
            encoded(final(m), final(self), t),
            l == lit_of(final(m), final(self), t),
            texts(final(self).clauses@) == texts(old(self).clauses@) + clauses_of(final(m), final(self), t),
            brings(old(self), final(self), old(m), t),
        decreases t, 2nat,
    {
        let v: usize = self.var_for(t, m);
        let r = Lit::pos(v);
        let ghost m1 = *m;
        let ghost e1 = *self;
        let count: usize = m.terms[t].args.len();
        let ps = index_pairs(count);
        let qs = self.encode_pairs(t, m, &ps);
        let ghost e2 = *self;
        proof {
            lemma_step(old(m), old(self), &m1, &e1, m, self);
            assert(self.term_to_var@.contains_key(t) && self.var(t) == v);
        }
        let n: usize = qs.len();
        let mut cs: Vec<Vec<Lit>> = Vec::new();
        let mut c: Vec<Lit> = Vec::new();
        let mut k: usize = 0;
        while k < n
            invariant
                k <= n,
                n == qs@.len(),
                linked(m, self),
                forall|i: int| 0 <= i < n ==> self.term_to_var@.contains_key(#[trigger] qs@[i]),
                *self == e2,
                cs@.len() == k,
                c@.len() == k,
                r == pos(v),
                forall|i: int| 0 <= i < k ==> (#[trigger] cs@[i])@ == seq![flip(r), flip(pos(e2.var(qs@[i])))],
                forall|i: int| 0 <= i < k ==> #[trigger] c@[i] == pos(e2.var(qs@[i])),
            decreases n - k,
        {
            assert(self.term_to_var@.contains_key(qs@[k as int]));
            let q = match map_get(&self.term_to_var, qs[k]) {
                Some(u) => Lit::pos(*u),
                None => r,
            };
            cs.push(clause2(r.negate(), q.negate()));
            c.push(q);
            k = k + 1;
        }
        c.push(r);
        let ghost big = c@;
        cs.push(c);
        proof {
            lemma_distinct_valid(m, self, t, ps@, qs@, big);
            assert forall|k: int| 0 <= k < cs@.len() implies valid(m, &e2, (#[trigger] cs@[k])@) by {
                if k < n {
                    let q = qs@[k];
                    assert(valid(m, &e2, seq![flip(r), flip(pos(e2.var(q)))]));
                }
            }
        }
        self.emit(cs, m);
        proof {
            lemma_step(old(m), old(self), m, &e2, m, self);
            lemma_extended_self(m);
            lemma_pairs_extend(m, m, &e2, self, t, ps@, qs@);
            assert forall|k: int| 0 <= k < n implies self.has_clause(seq![flip(r), flip(pos(self.var(#[trigger] qs@[k])))]) by {
                assert(self.has_clause(cs@[k]@));
            }
            assert(self.has_clause(cs@[n as int]@));
            lemma_distinct_encoded(m, self, t, ps@, qs@, big);
            lemma_first_pairs_extend(m, m, &e2, self, t, qs@, n as int);
            assert forall|k: int| 0 <= k < n implies #[trigger] row_lit(m, self, t, k) == pos(self.var(qs@[k])) by {
                let q = qs@[k];
                lemma_eq_unique(m, q, m.arg(t, ps@[k].0 as int), m.arg(t, ps@[k].1 as int));
            }
            assert(cs@[n as int]@ =~= Seq::new(n as nat, |i: int| row_lit(m, self, t, i)).push(r));
            assert(texts(cs@) =~= distinct_clauses(m, self, t)) by {
                assert forall|k: int| 0 <= k < cs@.len() implies (#[trigger] texts(cs@)[k]) =~= distinct_clauses(m, self, t)[k] by {
                    if k < n {
                        let l = row_lit(m, self, t, k);
                        assert(cs@[k]@.len() == 2);
                    }
                }
            }
            assert(texts(self.clauses@) =~= texts(old(self).clauses@) + clauses_of(m, self, t));
            assert(brings_pairs(old(self), &e2, old(m), t, ps@, ps@.len() as int));
            lemma_brings_distinct(old(m), old(self), &e2, self, t, ps@);
        }
        r
    }
}

/// The clauses that define a distinctness hold under every reading.
proof fn lemma_distinct_valid(m: &TermManager, e: &Encoder, t: TermId, ps: Seq<(usize, usize)>, qs: Seq<TermId>, c: Seq<Lit>)
    requires
        linked(m, e),
        m.has(t),
        m.op(t) == Op::Distinct,
        e.term_to_var@.contains_key(t),
        m.args(t).len() <= usize::MAX,
        ordered_pairs(ps, m.args(t).len() as int),
        forall|i: usize, j: usize| i < j < m.args(t).len() ==> #[trigger] ps.contains((i, j)),
        qs.len() == ps.len(),
        pairs_encoded(m, e, t, ps, qs),
        c.len() == qs.len() + 1,
        c.last() == pos(e.var(t)),
        forall|i: int| 0 <= i < qs.len() ==> #[trigger] c[i] == pos(e.var(qs[i])),
    ensures
        valid(m, e, c),
        forall|k: int| 0 <= k < qs.len() ==> valid(m, e, seq![flip(pos(e.var(t))), flip(pos(e.var(#[trigger] qs[k])))]),
{
    let r = pos(e.var(t));
    let args = m.args(t);
    assert(m.terms@[t as int].fits(t as int));
    assert forall|k: int, rd: Reading| 0 <= k < qs.len() implies #[trigger] lit_true(sigma(m, e, rd), pos(e.var(qs[k])))
        == equal_under(m, rd, t, args[ps[k].0 as int], args[ps[k].1 as int]) by {
        let q = qs[k];
        let a = args[ps[k].0 as int];
        let b = args[ps[k].1 as int];
        assert(a < t && b < t);
        lemma_equal_under(m, rd, t, q, a, b);
    }
    assert forall|k: int| 0 <= k < qs.len() implies valid(m, e, seq![flip(r), flip(pos(e.var(#[trigger] qs[k])))]) by {
        let q = pos(e.var(qs[k]));
        assert forall|rd: Reading| #[trigger] lit_true(sigma(m, e, rd), flip(r)) || lit_true(sigma(m, e, rd), flip(q)) by {
            assert(lit_true(sigma(m, e, rd), q) == equal_under(m, rd, t, args[ps[k].0 as int], args[ps[k].1 as int]));
            if truth(m, rd, t) {
                assert(!equal_under(m, rd, t, args[ps[k].0 as int], args[ps[k].1 as int]));
            }
        }
        lemma_valid2(m, e, flip(r), flip(q));
    }
    assert forall|k: int| 0 <= k < c.len() implies (#[trigger] c[k]).var < e.var_to_term@.len() && m.has(
        e.var_to_term@[c[k].var as int],
    ) by {
        if k < qs.len() {
            let q = qs[k];
        }
    }
    assert forall|rd: Reading| clause_true(#[trigger] sigma(m, e, rd), c) by {
        if truth(m, rd, t) {
            assert(lit_true(sigma(m, e, rd), c[qs.len() as int]));
        } else {
            let (i, j) = choose|i: int, j: int|
                0 <= i < j < args.len() && equal_under(m, rd, t, #[trigger] args[i], #[trigger] args[j]);
            assert(ps.contains((i as usize, j as usize)));
            let k = choose|k: int| 0 <= k < ps.len() && ps[k] == (i as usize, j as usize);
            assert(lit_true(sigma(m, e, rd), pos(e.var(qs[k]))));
            assert(lit_true(sigma(m, e, rd), c[k]));
        }
    }
}

/// The clauses that define a distinctness define it.
proof fn lemma_distinct_encoded(m: &TermManager, e: &Encoder, t: TermId, ps: Seq<(usize, usize)>, qs: Seq<TermId>, c: Seq<Lit>)
    requires
        linked(m, e),
        m.has(t),
        m.op(t) == Op::Distinct,
        m.args(t).len() > 1,
        e.term_to_var@.contains_key(t),
        m.args(t).len() <= usize::MAX,
        ordered_pairs(ps, m.args(t).len() as int),
        forall|i: usize, j: usize| i < j < m.args(t).len() ==> #[trigger] ps.contains((i, j)),
        qs.len() == ps.len(),
        pairs_encoded(m, e, t, ps, qs),
        c.len() == qs.len() + 1,
        c.last() == pos(e.var(t)),
        forall|i: int| 0 <= i < qs.len() ==> #[trigger] c[i] == pos(e.var(qs[i])),
        forall|k: int| 0 <= k < qs.len() ==> e.has_clause(seq![flip(pos(e.var(t))), flip(pos(e.var(#[trigger] qs[k])))]),
        e.has_clause(c),
    ensures
        encoded(m, e, t),
{
    let r = pos(e.var(t));
    let n = m.args(t).len();
    assert(m.terms@[t as int].fits(t as int));
    assert forall|k: int| 0 <= k < qs.len() implies pair_lit(m, e, t, ps[k].0 as int, ps[k].1 as int) == pos(
        e.var(#[trigger] qs[k]),
    ) by {
        lemma_eq_unique(m, qs[k], m.arg(t, ps[k].0 as int), m.arg(t, ps[k].1 as int));
    }
    assert forall|i: int, j: int| 0 <= i < j < n implies e.has_clause(seq![flip(r), flip(#[trigger] pair_lit(m, e, t, i, j))])
        && pair_done(m, e, t, i, j) && c.contains(pair_lit(m, e, t, i, j)) by {
        assert(ps.contains((i as usize, j as usize)));
        let k = choose|k: int| 0 <= k < ps.len() && ps[k] == (i as usize, j as usize);
        let q = qs[k];
        lemma_eq_unique(m, q, m.arg(t, i), m.arg(t, j));
        assert(m.args(t)[i] < t && m.args(t)[j] < t);
        assert(c[k] == pos(e.var(qs[k])));
    }
    let d = choose|d: int| 0 <= d < e.clauses@.len() && (#[trigger] e.clauses@[d])@ == c;
    assert forall|k: int| 0 <= k < c.len() - 1 implies is_pair_lit(m, e, t, #[trigger] c[k]) by {
        assert(c[k] == pos(e.var(qs[k])));
        assert(pair_lit(m, e, t, ps[k].0 as int, ps[k].1 as int) == c[k]);
    }
    assert(is_distinct_clause(m, e, t, e.clauses@[d]@));
    assert(forall|i: int, j: int|
        0 <= i < j < n ==> e.has_clause(seq![flip(r), flip(#[trigger] pair_lit(m, e, t, i, j))]) && pair_done(m, e, t, i, j));
    assert(exists|c: int| 0 <= c < e.clauses@.len() && is_distinct_clause(m, e, t, (#[trigger] e.clauses@[c])@));
    assert(distinct_done(m, e, t));
    let args = m.args(t);
    assert forall|i: int, j: int| 0 <= i < j < n && is_bool(m, args[i]) implies #[trigger] args[i] < t && #[trigger] args[j] < t
        && encoded(m, e, args[i]) && encoded(m, e, args[j]) by {
        assert(ps.contains((i as usize, j as usize)));
        let k = choose|k: int| 0 <= k < ps.len() && ps[k] == (i as usize, j as usize);
        let q = qs[k];
        assert(m.args(q)[0] == args[i] && m.args(q)[1] == args[j]);
    }
    assert(encoded(m, e, t));
}

} // verus!
