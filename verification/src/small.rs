//! Short lists that `smallvec` keeps in place: of literals, and of term indices.
use crate::cnf::Lit;
use crate::term::TermId;
use smallvec::SmallVec;
use vstd::prelude::*;

verus! {

/// A list of literals, such as the explanation of a theory.
#[verifier::external_body]
#[derive(Debug)]
pub struct LitList {
    items: SmallVec<[Lit; 8]>,
}

/// A list of terms.
#[verifier::external_body]
#[derive(Debug)]
pub struct TermList {
    items: SmallVec<[TermId; 8]>,
}

/// The literals that a list holds, in order.
pub uninterp spec fn literals(list: LitList) -> Seq<Lit>;

/// The terms that a list holds, in order.
pub uninterp spec fn members(list: TermList) -> Seq<TermId>;

impl View for LitList {
    type V = Seq<Lit>;

    open spec fn view(&self) -> Seq<Lit> {
        literals(*self)
    }
}

impl View for TermList {
    type V = Seq<TermId>;

    open spec fn view(&self) -> Seq<TermId> {
        members(*self)
    }
}

impl LitList {
    /// `SmallVec::new` for literals: the new list is empty.
    #[verifier::external_body]
    pub(crate) fn new() -> (r: LitList)
        ensures
            literals(r) == Seq::<Lit>::empty(),
    {
        LitList { items: SmallVec::new() }
    }

    /// `SmallVec::push` for literals: the list has the literal at its end.
    #[verifier::external_body]
    pub(crate) fn push(&mut self, l: Lit)
        ensures
            literals(*final(self)) == literals(*old(self)).push(l),
    {
        self.items.push(l);
    }

    /// `SmallVec::len` for literals.
    #[verifier::external_body]
    pub(crate) fn len(&self) -> (n: usize)
        ensures
            n == literals(*self).len(),
    {
        self.items.len()
    }

    /// Indexing of a `SmallVec` of literals: the literal at the position.
    #[verifier::external_body]
    pub(crate) fn get(&self, i: usize) -> (l: Lit)
        requires
            i < literals(*self).len(),
        ensures
            l == literals(*self)[i as int],
    {
        self.items[i]
    }

    /// The literals in order.
    pub fn to_vec(&self) -> (r: Vec<Lit>)
        ensures
            r@ == self@,
    {
        let mut out: Vec<Lit> = Vec::new();
        let n: usize = self.len();
        let mut i: usize = 0;
        while i < n
            invariant
                i <= n,
                n == self@.len(),
                out@ == self@.take(i as int),
            decreases n - i,
        {
            out.push(self.get(i));
            assert(out@ =~= self@.take(i + 1));
            i = i + 1;
        }
        assert(self@.take(i as int) =~= self@);
        out
    }
}

impl TermList {
    /// `SmallVec::new` for terms: the new list is empty.
    #[verifier::external_body]
    pub(crate) fn new() -> (r: TermList)
        ensures
            members(r) == Seq::<TermId>::empty(),
    {
        TermList { items: SmallVec::new() }
    }

    /// `SmallVec::push` for terms: the list has the term at its end.
    #[verifier::external_body]
    pub(crate) fn push(&mut self, t: TermId)
        ensures
            members(*final(self)) == members(*old(self)).push(t),
    {
        self.items.push(t);
    }

    /// `SmallVec::len` for terms.
    #[verifier::external_body]
    pub(crate) fn len(&self) -> (n: usize)
        ensures
            n == members(*self).len(),
    {
        self.items.len()
    }

    /// Indexing of a `SmallVec` of terms: the term at the position.
    #[verifier::external_body]
    pub(crate) fn get(&self, i: usize) -> (t: TermId)
        requires
            i < members(*self).len(),
        ensures
            t == members(*self)[i as int],
    {
        self.items[i]
    }

    /// The terms in order.
    pub fn to_vec(&self) -> (r: Vec<TermId>)
        ensures
            r@ == self@,
    {
        let mut out: Vec<TermId> = Vec::new();
        let n: usize = self.len();
        let mut i: usize = 0;
        while i < n
            invariant
                i <= n,
                n == self@.len(),
                out@ == self@.take(i as int),
            decreases n - i,
        {
            out.push(self.get(i));
            assert(out@ =~= self@.take(i + 1));
            i = i + 1;
        }
        assert(self@.take(i as int) =~= self@);
        out
    }
}

} // verus!
