//! Terms: a store of hash-consed nodes, each of which refers only to earlier ones.
use vstd::prelude::*;

verus! {

/// The index of a term in its store.
pub type TermId = usize;

/// The index of a sort in its store.
pub type SortId = usize;

/// The index of a name in its store.
pub type Symbol = usize;

/// The sort of truth values.
pub const BOOL_SORT: SortId = 0;

/// The sort of integers.
pub const INT_SORT: SortId = 1;

/// The sort of real numbers.
pub const REAL_SORT: SortId = 2;

/// The term `true`.
pub const TRUE_TERM: TermId = 0;

/// The term `false`.
pub const FALSE_TERM: TermId = 1;

/// An order relation between two numbers.
#[derive(Clone, Copy, Debug, PartialEq, Eq, Structural)]
pub enum Rel {
    Lt,
    Le,
    Gt,
    Ge,
}

/// A binary function on bit vectors.
#[derive(Clone, Copy, Debug, PartialEq, Eq, Structural)]
pub enum BvOp {
    Add,
    Sub,
    Mul,
    And,
    Or,
    Xor,
    Shl,
    Lshr,
    Ashr,
    Udiv,
    Sdiv,
    Urem,
    Srem,
    Concat,
}

/// An order relation between two bit vectors.
#[derive(Clone, Copy, Debug, PartialEq, Eq, Structural)]
pub enum BvRel {
    Ult,
    Ule,
    Slt,
    Sle,
}

/// What a term applies to its arguments. Local definitions have no operator: they are expanded
/// before a term is stored.
#[derive(Clone, Copy, Debug, PartialEq, Eq, Structural)]
pub enum Op {
    True,
    False,
    /// An integer; its magnitude stands in the term's digits.
    IntConst { negative: bool },
    RealConst { numer: i64, denom: i64 },
    /// A bit vector; its value stands in the term's digits.
    BitVecConst { width: u32 },
    Var(Symbol),
    Not,
    And,
    Or,
    Xor,
    Implies,
    Ite,
    Eq,
    Distinct,
    Neg,
    Add,
    Sub,
    Mul,
    Div,
    Mod,
    Compare(Rel),
    Bv(BvOp),
    BvNot,
    BvExtract { high: u32, low: u32 },
    BvCompare(BvRel),
    Select,
    Store,
    Apply(Symbol),
    /// A universal statement; the bound variables stand in the term's binders.
    Forall,
    /// An existential statement; the bound variables stand in the term's binders.
    Exists,
    DtConstructor(Symbol),
    DtSelector(Symbol),
    DtTester(Symbol),
    /// A function of a theory that this library carries through without reading it.
    Opaque(u32),
}

/// One node of the term store.
#[derive(Debug)]
pub struct Term {
    pub op: Op,
    pub args: Vec<TermId>,
    /// The magnitude of a numeral in base 2^64, least significant digit first.
    pub digits: Vec<u64>,
    pub binders: Vec<(Symbol, SortId)>,
    pub sort: SortId,
}

/// One constructor of a datatype: its name, and its selectors with their sorts.
#[derive(Debug)]
pub struct CtorLayout {
    pub name: Symbol,
    pub fields: Vec<(Symbol, SortId)>,
}

/// What a sort is.
#[derive(Debug)]
pub enum Sort {
    Bool,
    Int,
    Real,
    BitVec(u32),
    Datatype(Vec<CtorLayout>),
    Other(Symbol),
}

/// The number of arguments that an operator takes is right.
pub open spec fn arity_ok(op: Op, n: nat) -> bool {
    match op {
        Op::True | Op::False | Op::IntConst { .. } | Op::RealConst { .. } | Op::BitVecConst { .. } | Op::Var(_) => n
            == 0,
        Op::Not | Op::Neg | Op::BvNot | Op::BvExtract { .. } | Op::Forall | Op::Exists | Op::DtSelector(_)
        | Op::DtTester(_) => n == 1,
        Op::Xor | Op::Implies | Op::Eq | Op::Sub | Op::Div | Op::Mod | Op::Compare(_) | Op::Bv(_) | Op::BvCompare(_)
        | Op::Select => n == 2,
        Op::Ite | Op::Store => n == 3,
        _ => true,
    }
}

impl Term {
    /// Two nodes are the same: the hash-consing criterion.
    pub open spec fn same(self, other: Term) -> bool {
        &&& self.op == other.op
        &&& self.args@ == other.args@
        &&& self.digits@ == other.digits@
        &&& self.binders@ == other.binders@
        &&& self.sort == other.sort
    }

    /// A node that may be appended to a store of `n` terms.
    pub open spec fn fits(self, n: int) -> bool {
        &&& arity_ok(self.op, self.args@.len())
        &&& forall|i: int| 0 <= i < self.args@.len() ==> (#[trigger] self.args@[i]) < n
        &&& (self.op matches Op::RealConst { numer, denom } ==> denom > 0)
    }
}

/// The store of terms, sorts and names.
#[derive(Debug)]
pub struct TermManager {
    pub terms: Vec<Term>,
    pub sorts: Vec<Sort>,
    pub names: Vec<String>,
}

impl TermManager {
    /// Every node refers to earlier nodes only, no node occurs twice, no name occurs twice, and
    /// the distinguished terms and sorts are in their places.
    pub open spec fn wf(&self) -> bool {
        &&& self.terms@.len() >= 2
        &&& self.terms@[TRUE_TERM as int].op == Op::True
        &&& self.terms@[FALSE_TERM as int].op == Op::False
        &&& self.sorts@.len() >= 3
        &&& self.sorts@[BOOL_SORT as int] is Bool
        &&& self.sorts@[INT_SORT as int] is Int
        &&& self.sorts@[REAL_SORT as int] is Real
        &&& forall|t: int| 0 <= t < self.terms@.len() ==> (#[trigger] self.terms@[t]).fits(t)
        &&& forall|s: int, t: int| 0 <= s < t < self.terms@.len() ==> !(#[trigger] self.terms@[s]).same(#[trigger] self.terms@[t])
        &&& forall|i: int, j: int| 0 <= i < j < self.names@.len() ==> (#[trigger] self.names@[i])@ != (#[trigger] self.names@[j])@
    }

    /// The store holds the term.
    pub open spec fn has(&self, t: TermId) -> bool {
        t < self.terms@.len()
    }

    /// The operator of a term of the store.
    pub open spec fn op(&self, t: TermId) -> Op {
        self.terms@[t as int].op
    }

    /// The arguments of a term of the store.
    pub open spec fn args(&self, t: TermId) -> Seq<TermId> {
        self.terms@[t as int].args@
    }

    /// One argument of a term of the store.
    pub open spec fn arg(&self, t: TermId, i: int) -> TermId {
        self.terms@[t as int].args@[i]
    }

    /// The sort of a term of the store.
    pub open spec fn sort_of(&self, t: TermId) -> SortId {
        self.terms@[t as int].sort
    }

    /// `later` holds every term of this store under the same index, and the same sorts; names
    /// keep their indices too.
    pub open spec fn extended_by(&self, later: &TermManager) -> bool {
        &&& self.terms@.len() <= later.terms@.len()
        &&& forall|t: int| 0 <= t < self.terms@.len() ==> #[trigger] later.terms@[t] == self.terms@[t]
        &&& later.sorts@ == self.sorts@
        &&& self.names@.len() <= later.names@.len()
        &&& forall|i: int| 0 <= i < self.names@.len() ==> #[trigger] later.names@[i] == self.names@[i]
    }
}

/// Two lists of indices are equal.
fn same_ids(a: &Vec<usize>, b: &Vec<usize>) -> (r: bool)
    ensures
        r == (a@ == b@),
{
    if a.len() != b.len() {
        return false;
    }
    let mut i: usize = 0;
    while i < a.len()
        invariant
            i <= a.len(),
            a.len() == b.len(),
            forall|k: int| 0 <= k < i ==> a@[k] == b@[k],
        decreases a.len() - i,
    {
        if a[i] != b[i] {
            return false;
        }
        i = i + 1;
    }
    proof {
        assert(a@ =~= b@);
    }
    true
}

/// Two lists of digits are equal.
fn same_digits(a: &Vec<u64>, b: &Vec<u64>) -> (r: bool)
    ensures
        r == (a@ == b@),
{
    if a.len() != b.len() {
        return false;
    }
    let mut i: usize = 0;
    while i < a.len()
        invariant
            i <= a.len(),
            a.len() == b.len(),
            forall|k: int| 0 <= k < i ==> a@[k] == b@[k],
        decreases a.len() - i,
    {
        if a[i] != b[i] {
            return false;
        }
        i = i + 1;
    }
    proof {
        assert(a@ =~= b@);
    }
    true
}

/// Two lists of bound variables are equal.
fn same_binders(a: &Vec<(Symbol, SortId)>, b: &Vec<(Symbol, SortId)>) -> (r: bool)
    ensures
        r == (a@ == b@),
{
    if a.len() != b.len() {
        return false;
    }
    let mut i: usize = 0;
    while i < a.len()
        invariant
            i <= a.len(),
            a.len() == b.len(),
            forall|k: int| 0 <= k < i ==> a@[k] == b@[k],
        decreases a.len() - i,
    {
        if a[i].0 != b[i].0 || a[i].1 != b[i].1 {
            return false;
        }
        i = i + 1;
    }
    proof {
        assert(a@ =~= b@);
    }
    true
}

impl TermManager {
    /// A store with the two truth values and the three builtin sorts.
    pub fn new() -> (m: TermManager)
        ensures
            m.wf(),
            m.terms@.len() == 2,
            m.sort_of(TRUE_TERM) == BOOL_SORT,
            m.sort_of(FALSE_TERM) == BOOL_SORT,
            m.sorts@.len() == 3,
            m.names@.len() == 0,
    {
        let mut terms: Vec<Term> = Vec::new();
        terms.push(
            Term { op: Op::True, args: Vec::new(), digits: Vec::new(), binders: Vec::new(), sort: BOOL_SORT },
        );
        terms.push(
            Term { op: Op::False, args: Vec::new(), digits: Vec::new(), binders: Vec::new(), sort: BOOL_SORT },
        );
        let mut sorts: Vec<Sort> = Vec::new();
        sorts.push(Sort::Bool);
        sorts.push(Sort::Int);
        sorts.push(Sort::Real);
        TermManager { terms, sorts, names: Vec::new() }
    }

    /// The node of a term, if the store holds it.
    pub fn get(&self, t: TermId) -> (r: Option<&Term>)
        ensures
            r == if self.has(t) { Some(&self.terms@[t as int]) } else { None::<&Term> },
    {
        if t < self.terms.len() {
            Some(&self.terms[t])
        } else {
            None
        }
    }

    /// The index of a name, which is added to the store if it is new.
    pub fn intern(&mut self, name: String) -> (s: Symbol)
        requires
            old(self).wf(),
        ensures
            final(self).wf(),
            old(self).extended_by(final(self)),
            final(self).terms@ == old(self).terms@,
            s < final(self).names@.len(),
            final(self).names@[s as int]@ == name@,
            (exists|i: int| 0 <= i < old(self).names@.len() && (#[trigger] old(self).names@[i])@ == name@)
                ==> final(self).names@ == old(self).names@,
            !(exists|i: int| 0 <= i < old(self).names@.len() && (#[trigger] old(self).names@[i])@ == name@)
                ==> final(self).names@ == old(self).names@.push(name),
    {
        let mut i: usize = 0;
        while i < self.names.len()
            invariant
                i <= self.names.len(),
                old(self).wf(),
                *self == *old(self),
                forall|k: int| 0 <= k < i ==> (#[trigger] self.names@[k])@ != name@,
            decreases self.names.len() - i,
        {
            if self.names[i] == name {
                return i;
            }
            i = i + 1;
        }
        self.names.push(name);
        i
    }

    /// The index of a node, which is added to the store if it is new.
    pub fn mk(&mut self, term: Term) -> (t: TermId)
        requires
            old(self).wf(),
            term.fits(old(self).terms@.len() as int),
        ensures
            final(self).wf(),
            old(self).extended_by(final(self)),
            final(self).names@ == old(self).names@,
            final(self).has(t),
            final(self).terms@[t as int].same(term),
            final(self).terms@ == old(self).terms@ || (final(self).terms@ == old(self).terms@.push(term) && t
                == old(self).terms@.len()),
            final(self).terms@ == old(self).terms@ <==> exists|i: int|
                0 <= i < old(self).terms@.len() && (#[trigger] old(self).terms@[i]).same(term),
            forall|i: int| 0 <= i < t ==> !(#[trigger] final(self).terms@[i]).same(term),
    {
        let mut i: usize = 0;
        while i < self.terms.len()
            invariant
                i <= self.terms.len(),
                old(self).wf(),
                *self == *old(self),
                forall|k: int| 0 <= k < i ==> !(#[trigger] self.terms@[k]).same(term),
            decreases self.terms.len() - i,
        {
            if self.terms[i].op == term.op && self.terms[i].sort == term.sort && same_ids(
                &self.terms[i].args,
                &term.args,
            ) && same_digits(&self.terms[i].digits, &term.digits) && same_binders(
                &self.terms[i].binders,
                &term.binders,
            ) {
                return i;
            }
            i = i + 1;
        }
        self.terms.push(term);
        i
    }

    /// Adds a sort to the store.
    pub fn add_sort(&mut self, sort: Sort) -> (s: SortId)
        requires
            old(self).wf(),
        ensures
            final(self).wf(),
            final(self).terms@ == old(self).terms@,
            final(self).names@ == old(self).names@,
            final(self).sorts@ == old(self).sorts@.push(sort),
            s == old(self).sorts@.len(),
    {
        let s: usize = self.sorts.len();
        self.sorts.push(sort);
        s
    }
}

/// `t` is the node that applies `op` to `args`, without digits and binders.
pub open spec fn is_node(m: &TermManager, t: TermId, op: Op, args: Seq<TermId>, sort: SortId) -> bool {
    &&& m.has(t)
    &&& m.op(t) == op
    &&& m.args(t) == args
    &&& m.sort_of(t) == sort
    &&& m.terms@[t as int].digits@.len() == 0
    &&& m.terms@[t as int].binders@.len() == 0
}

impl TermManager {
    /// The node that applies `op` to `args`, which is added to the store if it is new.
    pub fn mk_app(&mut self, op: Op, args: Vec<TermId>, sort: SortId) -> (t: TermId)
        requires
            old(self).wf(),
            arity_ok(op, args@.len()),
            forall|i: int| 0 <= i < args@.len() ==> (#[trigger] args@[i]) < old(self).terms@.len(),
            op matches Op::RealConst { numer, denom } ==> denom > 0,
        ensures
            final(self).wf(),
            old(self).extended_by(final(self)),
            final(self).names@ == old(self).names@,
            is_node(final(self), t, op, args@, sort),
    {
        self.mk(Term { op, args, digits: Vec::new(), binders: Vec::new(), sort })
    }

    /// The equality of two terms.
    pub fn mk_eq(&mut self, a: TermId, b: TermId) -> (t: TermId)
        requires
            old(self).wf(),
            old(self).has(a),
            old(self).has(b),
        ensures
            final(self).wf(),
            old(self).extended_by(final(self)),
            final(self).names@ == old(self).names@,
            is_node(final(self), t, Op::Eq, seq![a, b], BOOL_SORT),
    {
        let mut args: Vec<TermId> = Vec::new();
        args.push(a);
        args.push(b);
        assert(args@ =~= seq![a, b]);
        self.mk_app(Op::Eq, args, BOOL_SORT)
    }
}

/// A list with the same indices.
pub(crate) fn copy_ids(v: &Vec<usize>) -> (r: Vec<usize>)
    ensures
        r@ == v@,
{
    let mut r: Vec<usize> = Vec::new();
    let mut i: usize = 0;
    while i < v.len()
        invariant
            i <= v.len(),
            r@ == v@.take(i as int),
        decreases v.len() - i,
    {
        r.push(v[i]);
        assert(r@ =~= v@.take(i + 1));
        i = i + 1;
    }
    assert(v@.take(i as int) =~= v@);
    r
}

} // verus!
