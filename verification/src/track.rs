//! Finds the variables under an atom that the theories have to know.
use crate::encoder::lemma_advances;
use crate::encoder::lemma_advances_self;
use crate::encoder::Encoder;
use crate::encoder::Tables;
use crate::linear::is_numeric;
use crate::maps::set_contains;
use crate::term::BvOp;
use crate::term::Op;
use crate::term::Sort;
use crate::term::SortId;
use crate::term::TermId;
use crate::term::TermManager;
use crate::term::INT_SORT;
use crate::term::REAL_SORT;
use vstd::prelude::*;

verus! {

/// The sort is one of bit vectors.
pub open spec fn is_bv_sort(m: &TermManager, s: SortId) -> bool {
    s < m.sorts@.len() && m.sorts@[s as int] is BitVec
}

/// The operator is looked through on the way to theory variables.
pub open spec fn looked_through(op: Op) -> bool {
    match op {
        Op::Add | Op::Mul | Op::And | Op::Or | Op::Sub | Op::Eq | Op::Compare(_) | Op::Bv(_) | Op::BvCompare(_)
        | Op::BvExtract { .. } | Op::Neg | Op::Not | Op::BvNot | Op::Ite => true,
        _ => false,
    }
}

/// The operator divides bit vectors.
pub open spec fn divides(op: Op) -> bool {
    match op {
        Op::Bv(BvOp::Udiv) | Op::Bv(BvOp::Sdiv) | Op::Bv(BvOp::Urem) | Op::Bv(BvOp::Srem) => true,
        _ => false,
    }
}

/// `x` is `t`, or stands under it with only operators in between that are looked through.
pub open spec fn reaches(m: &TermManager, t: TermId, x: TermId) -> bool
    decreases t,
{
    t == x || (m.has(t) && looked_through(m.op(t)) && exists|i: int|
        0 <= i < m.args(t).len() && #[trigger] m.args(t)[i] < t && reaches(m, m.args(t)[i], x))
}

/// An unknown of the arithmetic theory.
pub open spec fn arith_leaf(m: &TermManager, x: TermId) -> bool {
    m.has(x) && is_numeric(m, x) && match m.op(x) {
        Op::Var(_) | Op::Apply(_) | Op::Select => true,
        _ => false,
    }
}

/// An unknown of the bit-vector theory.
pub open spec fn bv_leaf(m: &TermManager, x: TermId) -> bool {
    m.has(x) && m.op(x) is Var && !is_numeric(m, x) && is_bv_sort(m, m.sort_of(x))
}

/// The unknowns of the arithmetic theory under `t`.
pub open spec fn arith_leaves(m: &TermManager, t: TermId) -> Set<usize> {
    Set::new(|x: usize| reaches(m, t, x) && arith_leaf(m, x))
}

/// The unknowns of the bit-vector theory under `t`.
pub open spec fn bv_leaves(m: &TermManager, t: TermId) -> Set<usize> {
    Set::new(|x: usize| reaches(m, t, x) && bv_leaf(m, x))
}

/// A division of bit vectors stands under `t`.
pub open spec fn divides_under(m: &TermManager, t: TermId) -> bool {
    exists|x: usize| #[trigger] reaches(m, t, x) && m.has(x) && divides(m.op(x))
}

/// Everything under `t` is registered.
pub open spec fn registered(m: &TermManager, e: &Encoder, t: TermId) -> bool {
    &&& arith_leaves(m, t).subset_of(e.arith_terms@)
    &&& bv_leaves(m, t).subset_of(e.bv_terms@)
    &&& divides_under(m, t) ==> e.has_bv_arith_ops
}

/// What is marked as walked is registered.
pub open spec fn walked_ok(m: &TermManager, e: &Encoder) -> bool {
    forall|w: usize| #[trigger] e.walked@.contains(w) ==> m.has(w) && registered(m, e, w)
}

/// Reachability does not change when the store grows.
pub proof fn lemma_reaches_extends(m: &TermManager, later: &TermManager, t: TermId, x: TermId)
    requires
        m.wf(),
        later.wf(),
        m.extended_by(later),
        m.has(t),
    ensures
        reaches(m, t, x) == reaches(later, t, x),
        reaches(m, t, x) ==> m.has(x),
    decreases t,
{
    assert(later.terms@[t as int] == m.terms@[t as int]);
    assert(m.terms@[t as int].fits(t as int));
    assert forall|i: int| 0 <= i < m.args(t).len() implies #[trigger] m.args(t)[i] < t && reaches(m, m.args(t)[i], x)
        == reaches(later, m.args(t)[i], x) && (reaches(m, m.args(t)[i], x) ==> m.has(x)) by {
        lemma_reaches_extends(m, later, m.args(t)[i], x);
    }
    assert(later.args(t) == m.args(t));
    if reaches(later, t, x) && t != x {
        let i = choose|i: int| 0 <= i < later.args(t).len() && #[trigger] later.args(t)[i] < t && reaches(later, later.args(t)[i], x);
        assert(m.args(t)[i] < t && reaches(m, m.args(t)[i], x));
    }
}

/// What is registered stays so when the store and the tables grow.
pub proof fn lemma_registered_extends(m: &TermManager, later: &TermManager, e: &Encoder, f: &Encoder, t: TermId)
    requires
        m.wf(),
        later.wf(),
        m.extended_by(later),
        m.has(t),
        e.grows(f),
        registered(m, e, t),
    ensures
        registered(later, f, t),
{
    assert forall|x: usize| arith_leaves(later, t).contains(x) implies f.arith_terms@.contains(x) by {
        lemma_reaches_extends(m, later, t, x);
        assert(later.terms@[x as int] == m.terms@[x as int]);
        assert(arith_leaves(m, t).contains(x));
    }
    assert forall|x: usize| bv_leaves(later, t).contains(x) implies f.bv_terms@.contains(x) by {
        lemma_reaches_extends(m, later, t, x);
        assert(later.terms@[x as int] == m.terms@[x as int]);
        assert(bv_leaves(m, t).contains(x));
    }
    if divides_under(later, t) {
        let x = choose|x: usize| #[trigger] reaches(later, t, x) && later.has(x) && divides(later.op(x));
        lemma_reaches_extends(m, later, t, x);
        assert(later.terms@[x as int] == m.terms@[x as int]);
        assert(reaches(m, t, x) && m.has(x) && divides(m.op(x)));
    }
}

/// The walked terms are registered after additions that walk nothing.
pub proof fn lemma_walked_extends(m: &TermManager, later: &TermManager, e: &Encoder, f: &Encoder)
    requires
        m.wf(),
        later.wf(),
        m.extended_by(later),
        e.grows(f),
        f.walked@ == e.walked@,
        walked_ok(m, e),
    ensures
        walked_ok(later, f),
{
    assert forall|w: usize| #[trigger] f.walked@.contains(w) implies later.has(w) && registered(later, f, w) by {
        assert(e.walked@.contains(w));
        lemma_registered_extends(m, later, e, f, w);
    }
}

/// The store is one of its own extensions.
pub proof fn lemma_extended_self(m: &TermManager)
    ensures
        m.extended_by(m),
{
}

/// The first `k` arguments of `t` are registered.
spec fn args_registered(m: &TermManager, e: &Encoder, t: TermId, k: int) -> bool {
    forall|i: int| 0 <= i < k ==> registered(m, e, #[trigger] m.args(t)[i])
}

/// The unknowns that the first `k` arguments of `t` contribute, on top of those of `e`.
spec fn grown_by_args(m: &TermManager, e: &Encoder, f: &Encoder, t: TermId, k: int) -> bool {
    &&& forall|x: usize| f.arith_terms@.contains(x) ==> e.arith_terms@.contains(x) || exists|i: int|
        0 <= i < k && arith_leaves(m, #[trigger] m.args(t)[i]).contains(x)
    &&& forall|x: usize| f.bv_terms@.contains(x) ==> e.bv_terms@.contains(x) || exists|i: int|
        0 <= i < k && bv_leaves(m, #[trigger] m.args(t)[i]).contains(x)
    &&& f.has_bv_arith_ops ==> e.has_bv_arith_ops || divides(m.op(t)) || exists|i: int|
        0 <= i < k && divides_under(m, #[trigger] m.args(t)[i])
}

impl Encoder {
    /// Registers the unknowns under `t`.
    pub fn track_theory_vars(&mut self, t: TermId, m: &TermManager)
        requires
            old(self).wf(),
            m.wf(),
            walked_ok(m, old(self)),
        ensures
            final(self).wf(),
            walked_ok(m, final(self)),
            old(self).advances(final(self)),
            final(self).tables() == (Tables {
                arith_terms: final(self).arith_terms@,
                bv_terms: final(self).bv_terms@,
                walked: final(self).walked@,
                ..old(self).tables()
            }),
            final(self).clauses@ == old(self).clauses@,
            final(self).has_quantifiers == old(self).has_quantifiers,
            final(self).arith_terms@ == old(self).arith_terms@.union(arith_leaves(m, t)),
            final(self).bv_terms@ == old(self).bv_terms@.union(bv_leaves(m, t)),
            final(self).has_bv_arith_ops == (old(self).has_bv_arith_ops || divides_under(m, t)),
        decreases t,
    {
        proof {
            lemma_advances_self(self);
            lemma_extended_self(m);
        }
        if t >= m.terms.len() {
            proof {
                assert(forall|x: usize| reaches(m, t, x) ==> x == t);
                assert(self.arith_terms@ =~= old(self).arith_terms@.union(arith_leaves(m, t)));
                assert(self.bv_terms@ =~= old(self).bv_terms@.union(bv_leaves(m, t)));
            }
            return ;
        }
        assert(m.terms@[t as int].fits(t as int));
        let sort: usize = m.terms[t].sort;
        let numeric = sort == INT_SORT || sort == REAL_SORT;
        match m.terms[t].op {
            Op::Var(_) => {
                assert(forall|x: usize| reaches(m, t, x) <==> x == t);
                if numeric {
                    self.add_arith_term(t);
                } else if sort < m.sorts.len() && (match m.sorts[sort] {
                    Sort::BitVec(_) => true,
                    _ => false,
                }) {
                    self.add_bv_term(t);
                }
                proof {
                    assert(self.arith_terms@ =~= old(self).arith_terms@.union(arith_leaves(m, t)));
                    assert(self.bv_terms@ =~= old(self).bv_terms@.union(bv_leaves(m, t)));
                    lemma_walked_extends(m, m, old(self), self);
                }
            },
            Op::Apply(_) | Op::Select => {
                assert(forall|x: usize| reaches(m, t, x) <==> x == t);
                if numeric {
                    self.add_arith_term(t);
                }
                proof {
                    assert(self.arith_terms@ =~= old(self).arith_terms@.union(arith_leaves(m, t)));
                    assert(self.bv_terms@ =~= old(self).bv_terms@.union(bv_leaves(m, t)));
                    lemma_walked_extends(m, m, old(self), self);
                }
            },
            Op::Add | Op::Mul | Op::And | Op::Or | Op::Sub | Op::Eq | Op::Compare(_) | Op::Bv(_) | Op::BvCompare(_)
            | Op::BvExtract { high: _, low: _ } | Op::Neg | Op::Not | Op::BvNot | Op::Ite => {
                if set_contains(&self.walked, t) {
                    proof {
                        assert(registered(m, self, t));
                        assert(self.arith_terms@ =~= old(self).arith_terms@.union(arith_leaves(m, t)));
                        assert(self.bv_terms@ =~= old(self).bv_terms@.union(bv_leaves(m, t)));
                    }
                    return ;
                }
                match m.terms[t].op {
                    Op::Bv(BvOp::Udiv) | Op::Bv(BvOp::Sdiv) | Op::Bv(BvOp::Urem) | Op::Bv(BvOp::Srem) => {
                        self.has_bv_arith_ops = true;
                    },
                    _ => {},
                }
                proof {
                    assert(old(self).advances(self));
                    lemma_walked_extends(m, m, old(self), self);
                }
                self.track_args(t, m);
                let ghost mid = *self;
                self.mark_walked(t);
                proof {
                    lemma_compound(m, old(self), &mid, t);
                    lemma_advances(old(self), &mid, self);
                    assert(registered(m, self, t));
                    assert forall|w: usize| #[trigger] self.walked@.contains(w) implies m.has(w) && registered(m, self, w) by {
                        if w != t {
                            assert(mid.walked@.contains(w));
                            lemma_registered_extends(m, m, &mid, self, w);
                        }
                    }
                }
            },
            _ => {
                proof {
                    assert(forall|x: usize| reaches(m, t, x) <==> x == t);
                    assert(self.arith_terms@ =~= old(self).arith_terms@.union(arith_leaves(m, t)));
                    assert(self.bv_terms@ =~= old(self).bv_terms@.union(bv_leaves(m, t)));
                }
            },
        }
    }

    /// Registers the unknowns under the arguments of `t`.
    fn track_args(&mut self, t: TermId, m: &TermManager)
        requires
            old(self).wf(),
            m.wf(),
            m.has(t),
            looked_through(m.op(t)),
            divides(m.op(t)) ==> old(self).has_bv_arith_ops,
            walked_ok(m, old(self)),
        ensures
            final(self).wf(),
            walked_ok(m, final(self)),
            old(self).advances(final(self)),
            final(self).tables() == (Tables {
                arith_terms: final(self).arith_terms@,
                bv_terms: final(self).bv_terms@,
                walked: final(self).walked@,
                ..old(self).tables()
            }),
            final(self).clauses@ == old(self).clauses@,
            final(self).has_quantifiers == old(self).has_quantifiers,
            args_registered(m, final(self), t, m.args(t).len() as int),
            grown_by_args(m, old(self), final(self), t, m.args(t).len() as int),
        decreases t, 0nat,
    {
        proof {
            lemma_advances_self(self);
        }
        let n: usize = m.terms[t].args.len();
        let mut i: usize = 0;
        while i < n
            invariant
                i <= n,
                n == m.args(t).len(),
                m.wf(),
                m.has(t),
                self.wf(),
                walked_ok(m, self),
                old(self).advances(self),
                self.tables() == (Tables {
                    arith_terms: self.arith_terms@,
                    bv_terms: self.bv_terms@,
                    walked: self.walked@,
                    ..old(self).tables()
                }),
                self.clauses@ == old(self).clauses@,
                self.has_quantifiers == old(self).has_quantifiers,
                args_registered(m, self, t, i as int),
                grown_by_args(m, old(self), self, t, i as int),
            decreases n - i,
        {
            assert(m.terms@[t as int].fits(t as int));
            let ghost before = *self;
            let a: usize = m.terms[t].args[i];
            self.track_theory_vars(a, m);
            proof {
                lemma_advances(old(self), &before, self);
                lemma_extended_self(m);
                assert(a == m.args(t)[i as int]);
                assert forall|k: int| 0 <= k < i + 1 implies registered(m, self, #[trigger] m.args(t)[k]) by {
                    if k < i {
                        lemma_registered_extends(m, m, &before, self, m.args(t)[k]);
                    }
                }
                assert forall|x: usize| self.arith_terms@.contains(x) implies old(self).arith_terms@.contains(x) || exists|k: int|
                    0 <= k < i + 1 && arith_leaves(m, #[trigger] m.args(t)[k]).contains(x) by {
                    if before.arith_terms@.contains(x) && !old(self).arith_terms@.contains(x) {
                        let k = choose|k: int| 0 <= k < i && arith_leaves(m, #[trigger] m.args(t)[k]).contains(x);
                        assert(arith_leaves(m, m.args(t)[k]).contains(x));
                    } else if !before.arith_terms@.contains(x) {
                        assert(arith_leaves(m, m.args(t)[i as int]).contains(x));
                    }
                }
                assert forall|x: usize| self.bv_terms@.contains(x) implies old(self).bv_terms@.contains(x) || exists|k: int|
                    0 <= k < i + 1 && bv_leaves(m, #[trigger] m.args(t)[k]).contains(x) by {
                    if before.bv_terms@.contains(x) && !old(self).bv_terms@.contains(x) {
                        let k = choose|k: int| 0 <= k < i && bv_leaves(m, #[trigger] m.args(t)[k]).contains(x);
                        assert(bv_leaves(m, m.args(t)[k]).contains(x));
                    } else if !before.bv_terms@.contains(x) {
                        assert(bv_leaves(m, m.args(t)[i as int]).contains(x));
                    }
                }
                if self.has_bv_arith_ops && !old(self).has_bv_arith_ops && !divides(m.op(t)) {
                    if before.has_bv_arith_ops {
                        let k = choose|k: int| 0 <= k < i && divides_under(m, #[trigger] m.args(t)[k]);
                        assert(divides_under(m, m.args(t)[k]));
                    } else {
                        assert(divides_under(m, m.args(t)[i as int]));
                    }
                }
            }
            i = i + 1;
        }
    }
}

/// The unknowns under a compound term are those under its arguments.
proof fn lemma_compound(m: &TermManager, e: &Encoder, f: &Encoder, t: TermId)
    requires
        m.wf(),
        m.has(t),
        looked_through(m.op(t)),
        e.arith_terms@.subset_of(f.arith_terms@),
        e.bv_terms@.subset_of(f.bv_terms@),
        e.has_bv_arith_ops ==> f.has_bv_arith_ops,
        divides(m.op(t)) ==> f.has_bv_arith_ops,
        args_registered(m, f, t, m.args(t).len() as int),
        exists|g: Encoder| g.arith_terms@ == e.arith_terms@ && g.bv_terms@ == e.bv_terms@ && (g.has_bv_arith_ops
            ==> e.has_bv_arith_ops || divides(m.op(t))) && #[trigger] grown_by_args(m, &g, f, t, m.args(t).len() as int),
    ensures
        registered(m, f, t),
        f.arith_terms@ == e.arith_terms@.union(arith_leaves(m, t)),
        f.bv_terms@ == e.bv_terms@.union(bv_leaves(m, t)),
        f.has_bv_arith_ops == (e.has_bv_arith_ops || divides_under(m, t)),
{
    let args = m.args(t);
    assert(m.terms@[t as int].fits(t as int));
    let g = choose|g: Encoder| g.arith_terms@ == e.arith_terms@ && g.bv_terms@ == e.bv_terms@ && (g.has_bv_arith_ops
        ==> e.has_bv_arith_ops || divides(m.op(t))) && #[trigger] grown_by_args(m, &g, f, t, m.args(t).len() as int);
    assert forall|x: usize| arith_leaves(m, t).contains(x) implies f.arith_terms@.contains(x) by {
        let i = choose|i: int| 0 <= i < args.len() && #[trigger] args[i] < t && reaches(m, args[i], x);
        assert(arith_leaves(m, m.args(t)[i]).contains(x));
    }
    assert forall|x: usize| bv_leaves(m, t).contains(x) implies f.bv_terms@.contains(x) by {
        let i = choose|i: int| 0 <= i < args.len() && #[trigger] args[i] < t && reaches(m, args[i], x);
        assert(bv_leaves(m, m.args(t)[i]).contains(x));
    }
    assert forall|x: usize| f.arith_terms@.contains(x) implies e.arith_terms@.contains(x) || arith_leaves(m, t).contains(x) by {
        if !g.arith_terms@.contains(x) {
            let i = choose|i: int| 0 <= i < args.len() && arith_leaves(m, #[trigger] m.args(t)[i]).contains(x);
            assert(args[i] < t && reaches(m, args[i], x));
        }
    }
    assert forall|x: usize| f.bv_terms@.contains(x) implies e.bv_terms@.contains(x) || bv_leaves(m, t).contains(x) by {
        if !g.bv_terms@.contains(x) {
            let i = choose|i: int| 0 <= i < args.len() && bv_leaves(m, #[trigger] m.args(t)[i]).contains(x);
            assert(args[i] < t && reaches(m, args[i], x));
        }
    }
    if divides_under(m, t) {
        let x = choose|x: usize| #[trigger] reaches(m, t, x) && m.has(x) && divides(m.op(x));
        if x != t {
            let i = choose|i: int| 0 <= i < args.len() && #[trigger] args[i] < t && reaches(m, args[i], x);
            assert(divides_under(m, m.args(t)[i]));
        }
    }
    if f.has_bv_arith_ops && !e.has_bv_arith_ops {
        if divides(m.op(t)) {
            assert(reaches(m, t, t));
        } else {
            let i = choose|i: int| 0 <= i < args.len() && divides_under(m, #[trigger] m.args(t)[i]);
            let x = choose|x: usize| #[trigger] reaches(m, args[i], x) && m.has(x) && divides(m.op(x));
            assert(args[i] < t && reaches(m, args[i], x));
            assert(reaches(m, t, x));
        }
    }
    assert(f.arith_terms@ =~= e.arith_terms@.union(arith_leaves(m, t)));
    assert(f.bv_terms@ =~= e.bv_terms@.union(bv_leaves(m, t)));
}

/// Unknowns are found under arithmetic, comparisons, operations on bit vectors, negations,
/// conjunctions, disjunctions and conditionals, at any depth.
pub proof fn law_unknowns_are_found_below_operations(m: &TermManager, t: TermId, s: TermId, x: TermId)
    requires
        m.wf(),
        m.has(t),
        m.args(t).contains(s),
        reaches(m, s, x),
        match m.op(t) {
            Op::Add | Op::Sub | Op::Mul | Op::Neg | Op::Eq | Op::Compare(_) | Op::Bv(_) | Op::BvNot | Op::BvExtract { .. }
            | Op::BvCompare(_) | Op::Not | Op::And | Op::Or | Op::Ite => true,
            _ => false,
        },
    ensures
        reaches(m, t, t),
        reaches(m, t, x),
{
    assert(m.terms@[t as int].fits(t as int));
    let i = choose|i: int| 0 <= i < m.args(t).len() && m.args(t)[i] == s;
    assert(m.args(t)[i] < t && reaches(m, m.args(t)[i], x));
}

/// What is registered under a term holds every number variable there, every number that a function or
/// an array gives, and every variable of bit vectors; and divisions and remainders of bit vectors are
/// noted.
pub proof fn law_unknowns_are_registered(m: &TermManager, e: &Encoder, t: TermId, x: TermId)
    requires
        registered(m, e, t),
        reaches(m, t, x),
        m.has(x),
    ensures
        (m.sort_of(x) == INT_SORT || m.sort_of(x) == REAL_SORT) && (m.op(x) is Var || m.op(x) is Apply || m.op(x) is Select)
            ==> e.arith_terms@.contains(x),
        m.op(x) is Var && m.sort_of(x) != INT_SORT && m.sort_of(x) != REAL_SORT && m.sort_of(x) < m.sorts@.len() && m.sorts@[m.sort_of(
            x,
        ) as int] is BitVec ==> e.bv_terms@.contains(x),
        m.op(x) == Op::Bv(BvOp::Udiv) || m.op(x) == Op::Bv(BvOp::Sdiv) || m.op(x) == Op::Bv(BvOp::Urem) || m.op(x) == Op::Bv(BvOp::Srem)
            ==> e.has_bv_arith_ops,
{
    if arith_leaf(m, x) {
        assert(arith_leaves(m, t).contains(x));
    }
    if bv_leaf(m, x) {
        assert(bv_leaves(m, t).contains(x));
    }
}

} // verus!
