//! Literals and clauses.
use vstd::prelude::*;

verus! {

/// The index of a Boolean variable.
pub type Var = usize;

/// A Boolean variable or its negation.
#[derive(Clone, Copy, Debug, PartialEq, Eq, Structural)]
pub struct Lit {
    pub var: Var,
    pub negative: bool,
}

/// An assignment of truth values to Boolean variables.
pub type Assignment = spec_fn(Var) -> bool;

/// The literal of a variable.
pub open spec fn pos(var: Var) -> Lit {
    Lit { var, negative: false }
}

/// The literal of a negated variable.
pub open spec fn neg(var: Var) -> Lit {
    Lit { var, negative: true }
}

/// The opposite literal.
pub open spec fn flip(l: Lit) -> Lit {
    Lit { var: l.var, negative: !l.negative }
}

impl Lit {
    /// The literal of a variable.
    pub fn pos(var: Var) -> (l: Lit)
        ensures
            l == pos(var),
    {
        Lit { var, negative: false }
    }

    /// The literal of a negated variable.
    pub fn neg(var: Var) -> (l: Lit)
        ensures
            l == neg(var),
    {
        Lit { var, negative: true }
    }

    /// The opposite literal.
    pub fn negate(self) -> (l: Lit)
        ensures
            l == flip(self),
    {
        Lit { var: self.var, negative: !self.negative }
    }
}

/// The truth value of a literal.
pub open spec fn lit_true(a: Assignment, l: Lit) -> bool {
    a(l.var) != l.negative
}

/// Some literal of the clause is true.
pub open spec fn clause_true(a: Assignment, c: Seq<Lit>) -> bool {
    exists|i: int| 0 <= i < c.len() && lit_true(a, #[trigger] c[i])
}

/// A literal is false exactly if its opposite is true.
pub proof fn lemma_flip(a: Assignment, l: Lit)
    ensures
        lit_true(a, flip(l)) == !lit_true(a, l),
        flip(flip(l)) == l,
{
}

} // verus!
