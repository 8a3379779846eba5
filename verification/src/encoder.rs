//! The state of the clausal encoding, and the trail by which it is taken back.
use crate::cnf::Lit;
use crate::cnf::Var;
use crate::linear::coefficients_wf;
use crate::linear::comparison_of;
use crate::linear::is_numeric;
use crate::linear::measures;
use crate::linear::ArithConstraintType;
use crate::linear::ParsedArithConstraint;
use crate::maps::map_get;
use crate::maps::map_insert;
use crate::maps::map_new;
use crate::maps::map_remove;
use crate::maps::set_contains;
use crate::maps::set_insert;
use crate::maps::set_new;
use crate::maps::set_remove;
use crate::semantics::is_bool;
use crate::term::BvRel;
use crate::term::Op;
use crate::term::Rel;
use crate::term::TermId;
use crate::term::TermManager;
use crate::term::BOOL_SORT;
use rustc_hash::FxHashMap;
use rustc_hash::FxHashSet;
use vstd::prelude::*;

verus! {

/// What a theory has to hold a Boolean variable to.
#[derive(Clone, Copy, Debug, PartialEq, Eq, Structural)]
pub enum Constraint {
    Eq(TermId, TermId),
    Diseq(TermId, TermId),
    Lt(TermId, TermId),
    Le(TermId, TermId),
    Gt(TermId, TermId),
    Ge(TermId, TermId),
    BoolApp(TermId),
    BoolValue { term: TermId, negated: bool },
}

/// One change of the encoding that can be taken back.
#[derive(Clone, Copy, Debug, PartialEq, Eq, Structural)]
pub enum EncodeOp {
    VarCreated { term: TermId },
    ConstraintAdded { var: Var },
    ParsedAdded { var: Var },
    ArithTermAdded { term: TermId },
    BvTermAdded { term: TermId },
    CompoundWalked { term: TermId },
}

/// The clauses emitted so far and the tables that tie them to terms.
#[derive(Debug)]
pub struct Encoder {
    pub term_to_var: FxHashMap<usize, Var>,
    pub var_to_term: Vec<TermId>,
    pub clauses: Vec<Vec<Lit>>,
    pub constraints: FxHashMap<usize, Constraint>,
    pub parsed: FxHashMap<usize, ParsedArithConstraint>,
    /// Terms of numeric sort that the arithmetic theory has to know.
    pub arith_terms: FxHashSet<usize>,
    /// Variables of bit-vector sort that the bit-vector theory has to know.
    pub bv_terms: FxHashSet<usize>,
    /// Compound terms whose theory variables are all registered.
    pub walked: FxHashSet<usize>,
    pub has_bv_arith_ops: bool,
    pub has_quantifiers: bool,
    pub trail: Vec<EncodeOp>,
}

/// The part of the encoding that the trail takes back.
#[verifier::ext_equal]
pub struct Tables {
    pub term_to_var: Map<usize, Var>,
    pub var_to_term: Seq<TermId>,
    pub constraints: Map<usize, Constraint>,
    pub parsed: Map<usize, ParsedArithConstraint>,
    pub arith_terms: Set<usize>,
    pub bv_terms: Set<usize>,
    pub walked: Set<usize>,
}

/// A sequence without its last element.
pub open spec fn but_last(s: Seq<TermId>) -> Seq<TermId> {
    if s.len() == 0 {
        s
    } else {
        s.drop_last()
    }
}

/// The state before one change, given the state after it.
pub open spec fn undo_op(c: Tables, op: EncodeOp) -> Tables {
    match op {
        EncodeOp::VarCreated { term } => Tables {
            term_to_var: c.term_to_var.remove(term),
            var_to_term: but_last(c.var_to_term),
            ..c
        },
        EncodeOp::ConstraintAdded { var } => Tables { constraints: c.constraints.remove(var), ..c },
        EncodeOp::ParsedAdded { var } => Tables { parsed: c.parsed.remove(var), ..c },
        EncodeOp::ArithTermAdded { term } => Tables { arith_terms: c.arith_terms.remove(term), ..c },
        EncodeOp::BvTermAdded { term } => Tables { bv_terms: c.bv_terms.remove(term), ..c },
        EncodeOp::CompoundWalked { term } => Tables { walked: c.walked.remove(term), ..c },
    }
}

/// The state before the changes of the trail from position `k` on.
pub open spec fn undo_to(c: Tables, trail: Seq<EncodeOp>, k: int) -> Tables
    decreases trail.len(),
{
    if trail.len() <= k || trail.len() == 0 {
        c
    } else {
        undo_to(undo_op(c, trail.last()), trail.drop_last(), k)
    }
}

/// Taking changes back in two parts is taking them back at once.
pub proof fn lemma_undo_split(c: Tables, trail: Seq<EncodeOp>, k: int, j: int)
    requires
        0 <= k <= j <= trail.len(),
    ensures
        undo_to(c, trail, k) == undo_to(undo_to(c, trail, j), trail.take(j), k),
    decreases trail.len(),
{
    if trail.len() <= j {
        assert(trail.take(j) =~= trail);
    } else {
        lemma_undo_split(undo_op(c, trail.last()), trail.drop_last(), k, j);
        assert(trail.drop_last().take(j) =~= trail.take(j));
    }
}

/// The constraint that an atom stands for.
pub open spec fn constraint_of(m: &TermManager, t: TermId) -> Option<Constraint> {
    let args = m.args(t);
    match m.op(t) {
        Op::Eq => if is_bool(m, args[0]) {
            None
        } else {
            Some(Constraint::Eq(args[0], args[1]))
        },
        Op::Compare(Rel::Lt) => Some(Constraint::Lt(args[0], args[1])),
        Op::Compare(Rel::Le) => Some(Constraint::Le(args[0], args[1])),
        Op::Compare(Rel::Gt) => Some(Constraint::Gt(args[0], args[1])),
        Op::Compare(Rel::Ge) => Some(Constraint::Ge(args[0], args[1])),
        Op::BvCompare(BvRel::Ult) | Op::BvCompare(BvRel::Slt) => Some(Constraint::Lt(args[0], args[1])),
        Op::BvCompare(BvRel::Ule) | Op::BvCompare(BvRel::Sle) => Some(Constraint::Le(args[0], args[1])),
        Op::Apply(_) => if m.sort_of(t) == BOOL_SORT {
            Some(Constraint::BoolApp(t))
        } else {
            None
        },
        _ => None,
    }
}

/// How the arithmetic theory reads an atom: an equality of numbers counts as `<=` here, since it
/// is asserted from both sides.
pub open spec fn comparison_type(m: &TermManager, t: TermId) -> Option<ArithConstraintType> {
    match m.op(t) {
        Op::Eq => if m.has(m.arg(t, 0)) && is_numeric(m, m.arg(t, 0)) {
            Some(ArithConstraintType::Le)
        } else {
            None
        },
        Op::Compare(Rel::Lt) => Some(ArithConstraintType::Lt),
        Op::Compare(Rel::Le) => Some(ArithConstraintType::Le),
        Op::Compare(Rel::Gt) => Some(ArithConstraintType::Gt),
        Op::Compare(Rel::Ge) => Some(ArithConstraintType::Ge),
        Op::BvCompare(BvRel::Ult) | Op::BvCompare(BvRel::Slt) => Some(ArithConstraintType::Lt),
        Op::BvCompare(BvRel::Ule) | Op::BvCompare(BvRel::Sle) => Some(ArithConstraintType::Le),
        _ => None,
    }
}

/// The parsed comparison is that of the atom.
pub open spec fn parsed_for(m: &TermManager, t: TermId, p: ParsedArithConstraint) -> bool {
    &&& p.reason_term == t
    &&& comparison_type(m, t) == Some(p.constraint_type)
    &&& comparison_of(m, m.arg(t, 0), m.arg(t, 1)) == Some((p.terms@, p.constant))
    &&& measures(m, m.arg(t, 0), m.arg(t, 1), p.terms@, p.constant)
    &&& p.constant.wf()
    &&& coefficients_wf(p.terms@)
}

impl Encoder {
    /// The part of the state that the trail takes back.
    pub open spec fn tables(&self) -> Tables {
        Tables {
            term_to_var: self.term_to_var@,
            var_to_term: self.var_to_term@,
            constraints: self.constraints@,
            parsed: self.parsed@,
            arith_terms: self.arith_terms@,
            bv_terms: self.bv_terms@,
            walked: self.walked@,
        }
    }

    /// Nothing has been encoded, and nothing is known of any term.
    pub open spec fn is_blank(&self) -> bool {
        &&& self.var_to_term@.len() == 0
        &&& self.clauses@.len() == 0
        &&& self.trail@.len() == 0
        &&& (self.term_to_var@ == Map::<usize, Var>::empty())
        &&& (self.constraints@ == Map::<usize, Constraint>::empty())
        &&& (self.parsed@ == Map::<usize, ParsedArithConstraint>::empty())
        &&& self.arith_terms@ == Set::<usize>::empty()
        &&& self.bv_terms@ == Set::<usize>::empty()
        &&& self.walked@ == Set::<usize>::empty()
        &&& !self.has_bv_arith_ops
        &&& !self.has_quantifiers
    }

    /// The two tables of variables are inverse to each other.
    pub open spec fn wf(&self) -> bool {
        &&& forall|t: usize| #[trigger] self.term_to_var@.contains_key(t) ==> self.term_to_var@[t] < self.var_to_term@.len()
            && self.var_to_term@[self.term_to_var@[t] as int] == t
        &&& forall|v: int| 0 <= v < self.var_to_term@.len() ==> self.term_to_var@.contains_key(#[trigger] self.var_to_term@[v])
            && self.term_to_var@[self.var_to_term@[v]] == v
        &&& forall|v: usize| #[trigger] self.constraints@.contains_key(v) ==> v < self.var_to_term@.len()
        &&& forall|v: usize| #[trigger] self.parsed@.contains_key(v) ==> v < self.var_to_term@.len()
    }

    /// The variable of a term.
    pub open spec fn var(&self, t: TermId) -> Var {
        self.term_to_var@[t]
    }

    /// A clause has been emitted.
    pub open spec fn has_clause(&self, c: Seq<Lit>) -> bool {
        exists|i: int| 0 <= i < self.clauses@.len() && (#[trigger] self.clauses@[i])@ == c
    }

    /// `later` holds everything that this state holds.
    pub open spec fn grows(&self, later: &Encoder) -> bool {
        &&& forall|t: usize| #[trigger] self.term_to_var@.contains_key(t) ==> later.term_to_var@.contains_key(t)
            && later.term_to_var@[t] == self.term_to_var@[t]
        &&& self.var_to_term@.len() <= later.var_to_term@.len()
        &&& forall|v: int| 0 <= v < self.var_to_term@.len() ==> #[trigger] later.var_to_term@[v] == self.var_to_term@[v]
        &&& self.clauses@.len() <= later.clauses@.len()
        &&& forall|i: int| 0 <= i < self.clauses@.len() ==> #[trigger] later.clauses@[i] == self.clauses@[i]
        &&& forall|v: usize| #[trigger] self.constraints@.contains_key(v) ==> later.constraints@.contains_key(v)
            && later.constraints@[v] == self.constraints@[v]
        &&& forall|v: usize| #[trigger] self.parsed@.contains_key(v) ==> later.parsed@.contains_key(v) && later.parsed@[v]
            == self.parsed@[v]
        &&& self.arith_terms@.subset_of(later.arith_terms@)
        &&& self.bv_terms@.subset_of(later.bv_terms@)
        &&& self.walked@.subset_of(later.walked@)
        &&& self.has_bv_arith_ops ==> later.has_bv_arith_ops
        &&& self.has_quantifiers ==> later.has_quantifiers
    }

    /// Taking back what the trail of `later` has on top gives this state.
    pub open spec fn reverts(&self, later: &Encoder) -> bool {
        &&& self.trail@.len() <= later.trail@.len()
        &&& later.trail@.take(self.trail@.len() as int) == self.trail@
        &&& undo_to(later.tables(), later.trail@, self.trail@.len() as int) == self.tables()
    }

    /// `later` is this state with additions that can be taken back.
    pub open spec fn advances(&self, later: &Encoder) -> bool {
        self.grows(later) && self.reverts(later)
    }
}

/// Additions on top of additions are additions.
pub proof fn lemma_advances(a: &Encoder, b: &Encoder, c: &Encoder)
    requires
        a.advances(b),
        b.advances(c),
    ensures
        a.advances(c),
{
    let k = a.trail@.len() as int;
    let j = b.trail@.len() as int;
    lemma_undo_split(c.tables(), c.trail@, k, j);
    assert(c.trail@.take(j).take(k) =~= c.trail@.take(k));
    assert forall|t: usize| #[trigger] a.term_to_var@.contains_key(t) implies c.term_to_var@.contains_key(t)
        && c.term_to_var@[t] == a.term_to_var@[t] by {
        assert(b.term_to_var@.contains_key(t));
    }
    assert forall|v: usize| #[trigger] a.constraints@.contains_key(v) implies c.constraints@.contains_key(v)
        && c.constraints@[v] == a.constraints@[v] by {
        assert(b.constraints@.contains_key(v));
    }
    assert forall|v: usize| #[trigger] a.parsed@.contains_key(v) implies c.parsed@.contains_key(v) && c.parsed@[v]
        == a.parsed@[v] by {
        assert(b.parsed@.contains_key(v));
    }
    assert forall|v: int| 0 <= v < a.var_to_term@.len() implies #[trigger] c.var_to_term@[v] == a.var_to_term@[v] by {
        assert(b.var_to_term@[v] == a.var_to_term@[v]);
    }
    assert forall|i: int| 0 <= i < a.clauses@.len() implies #[trigger] c.clauses@[i] == a.clauses@[i] by {
        assert(b.clauses@[i] == a.clauses@[i]);
    }
}

/// A state is itself with no additions.
pub proof fn lemma_advances_self(a: &Encoder)
    ensures
        a.advances(a),
{
    assert(a.trail@.take(a.trail@.len() as int) =~= a.trail@);
}

/// One recorded change can be taken back.
proof fn lemma_undo_one(before: Tables, after: Tables, trail: Seq<EncodeOp>, op: EncodeOp)
    requires
        undo_op(after, op) == before,
    ensures
        undo_to(after, trail.push(op), trail.len() as int) == before,
        trail.push(op).take(trail.len() as int) == trail,
{
    let t = trail.push(op);
    assert(t.drop_last() =~= trail);
    assert(t.last() == op);
    assert(t.take(trail.len() as int) =~= trail);
    assert(undo_to(after, t, trail.len() as int) == undo_to(undo_op(after, op), trail, trail.len() as int));
}

impl Encoder {
    /// An encoding with no clause and no variable.
    pub fn new() -> (e: Encoder)
        ensures
            e.wf(),
            e.is_blank(),
    {
        Encoder {
            term_to_var: map_new(),
            var_to_term: Vec::new(),
            clauses: Vec::new(),
            constraints: map_new(),
            parsed: map_new(),
            arith_terms: set_new(),
            bv_terms: set_new(),
            walked: set_new(),
            has_bv_arith_ops: false,
            has_quantifiers: false,
            trail: Vec::new(),
        }
    }

    /// The variable of a term, which is created if the term has none.
    pub fn get_or_create_var(&mut self, t: TermId) -> (v: Var)
        requires
            old(self).wf(),
        ensures
            final(self).wf(),
            old(self).advances(final(self)),
            final(self).term_to_var@.contains_key(t),
            v == final(self).var(t),
            v < final(self).var_to_term@.len(),
            final(self).var_to_term@[v as int] == t,
            old(self).term_to_var@.contains_key(t) ==> *final(self) == *old(self),
            !old(self).term_to_var@.contains_key(t) ==> v == old(self).var_to_term@.len() && final(self).term_to_var@
                == old(self).term_to_var@.insert(t, v) && final(self).var_to_term@ == old(self).var_to_term@.push(t),
            final(self).clauses@ == old(self).clauses@,
            final(self).constraints@ == old(self).constraints@,
            final(self).parsed@ == old(self).parsed@,
            final(self).arith_terms@ == old(self).arith_terms@,
            final(self).bv_terms@ == old(self).bv_terms@,
            final(self).walked@ == old(self).walked@,
            final(self).has_bv_arith_ops == old(self).has_bv_arith_ops,
            final(self).has_quantifiers == old(self).has_quantifiers,
    {
        proof {
            lemma_advances_self(self);
        }
        if let Some(v) = map_get(&self.term_to_var, t) {
            return *v;
        }
        let v: usize = self.var_to_term.len();
        map_insert(&mut self.term_to_var, t, v);
        self.var_to_term.push(t);
        self.trail.push(EncodeOp::VarCreated { term: t });
        proof {
            let op = EncodeOp::VarCreated { term: t };
            assert(self.var_to_term@.drop_last() =~= old(self).var_to_term@);
            assert(self.term_to_var@.remove(t) =~= old(self).term_to_var@);
            lemma_undo_one(old(self).tables(), self.tables(), old(self).trail@, op);
        }
        v
    }

    /// Emits a clause.
    pub fn add_clause(&mut self, c: Vec<Lit>)
        requires
            old(self).wf(),
        ensures
            final(self).wf(),
            old(self).advances(final(self)),
            final(self).clauses@ == old(self).clauses@.push(c),
            final(self).has_clause(c@),
            final(self).tables() == old(self).tables(),
            final(self).has_bv_arith_ops == old(self).has_bv_arith_ops,
            final(self).has_quantifiers == old(self).has_quantifiers,
    {
        self.clauses.push(c);
        proof {
            lemma_advances_self(old(self));
            assert(self.clauses@[old(self).clauses@.len() as int]@ == c@);
        }
    }

    /// Records what a variable stands for, unless that is on record.
    pub fn add_constraint(&mut self, v: Var, c: Constraint)
        requires
            old(self).wf(),
            v < old(self).var_to_term@.len(),
        ensures
            final(self).wf(),
            old(self).advances(final(self)),
            old(self).constraints@.contains_key(v) ==> *final(self) == *old(self),
            !old(self).constraints@.contains_key(v) ==> final(self).constraints@ == old(self).constraints@.insert(v, c),
            final(self).tables() == (Tables { constraints: final(self).constraints@, ..old(self).tables() }),
            final(self).clauses@ == old(self).clauses@,
            final(self).has_bv_arith_ops == old(self).has_bv_arith_ops,
            final(self).has_quantifiers == old(self).has_quantifiers,
    {
        proof {
            lemma_advances_self(self);
        }
        if map_get(&self.constraints, v).is_some() {
            return ;
        }
        map_insert(&mut self.constraints, v, c);
        self.trail.push(EncodeOp::ConstraintAdded { var: v });
        proof {
            assert(self.constraints@.remove(v) =~= old(self).constraints@);
            lemma_undo_one(old(self).tables(), self.tables(), old(self).trail@, EncodeOp::ConstraintAdded { var: v });
        }
    }

    /// Records the linear form of a variable's comparison, unless that is on record.
    pub fn add_parsed(&mut self, v: Var, p: ParsedArithConstraint)
        requires
            old(self).wf(),
            v < old(self).var_to_term@.len(),
        ensures
            final(self).wf(),
            old(self).advances(final(self)),
            old(self).parsed@.contains_key(v) ==> *final(self) == *old(self),
            !old(self).parsed@.contains_key(v) ==> final(self).parsed@ == old(self).parsed@.insert(v, p),
            final(self).tables() == (Tables { parsed: final(self).parsed@, ..old(self).tables() }),
            final(self).clauses@ == old(self).clauses@,
            final(self).has_bv_arith_ops == old(self).has_bv_arith_ops,
            final(self).has_quantifiers == old(self).has_quantifiers,
    {
        proof {
            lemma_advances_self(self);
        }
        if map_get(&self.parsed, v).is_some() {
            return ;
        }
        map_insert(&mut self.parsed, v, p);
        self.trail.push(EncodeOp::ParsedAdded { var: v });
        proof {
            assert(self.parsed@.remove(v) =~= old(self).parsed@);
            lemma_undo_one(old(self).tables(), self.tables(), old(self).trail@, EncodeOp::ParsedAdded { var: v });
        }
    }

    /// Registers a term with the arithmetic theory.
    pub fn add_arith_term(&mut self, t: TermId)
        requires
            old(self).wf(),
        ensures
            final(self).wf(),
            old(self).advances(final(self)),
            final(self).tables() == (Tables { arith_terms: old(self).arith_terms@.insert(t), ..old(self).tables() }),
            final(self).clauses@ == old(self).clauses@,
            final(self).has_bv_arith_ops == old(self).has_bv_arith_ops,
            final(self).has_quantifiers == old(self).has_quantifiers,
    {
        proof {
            lemma_advances_self(self);
        }
        if set_contains(&self.arith_terms, t) {
            assert(self.arith_terms@ =~= old(self).arith_terms@.insert(t));
            return ;
        }
        set_insert(&mut self.arith_terms, t);
        self.trail.push(EncodeOp::ArithTermAdded { term: t });
        proof {
            assert(self.arith_terms@.remove(t) =~= old(self).arith_terms@);
            lemma_undo_one(old(self).tables(), self.tables(), old(self).trail@, EncodeOp::ArithTermAdded { term: t });
        }
    }

    /// Registers a variable with the bit-vector theory.
    pub fn add_bv_term(&mut self, t: TermId)
        requires
            old(self).wf(),
        ensures
            final(self).wf(),
            old(self).advances(final(self)),
            final(self).tables() == (Tables { bv_terms: old(self).bv_terms@.insert(t), ..old(self).tables() }),
            final(self).clauses@ == old(self).clauses@,
            final(self).has_bv_arith_ops == old(self).has_bv_arith_ops,
            final(self).has_quantifiers == old(self).has_quantifiers,
    {
        proof {
            lemma_advances_self(self);
        }
        if set_contains(&self.bv_terms, t) {
            assert(self.bv_terms@ =~= old(self).bv_terms@.insert(t));
            return ;
        }
        set_insert(&mut self.bv_terms, t);
        self.trail.push(EncodeOp::BvTermAdded { term: t });
        proof {
            assert(self.bv_terms@.remove(t) =~= old(self).bv_terms@);
            lemma_undo_one(old(self).tables(), self.tables(), old(self).trail@, EncodeOp::BvTermAdded { term: t });
        }
    }

    /// Marks a compound term as one whose theory variables are registered.
    pub fn mark_walked(&mut self, t: TermId)
        requires
            old(self).wf(),
        ensures
            final(self).wf(),
            old(self).advances(final(self)),
            final(self).tables() == (Tables { walked: old(self).walked@.insert(t), ..old(self).tables() }),
            final(self).clauses@ == old(self).clauses@,
            final(self).has_bv_arith_ops == old(self).has_bv_arith_ops,
            final(self).has_quantifiers == old(self).has_quantifiers,
    {
        proof {
            lemma_advances_self(self);
        }
        if set_contains(&self.walked, t) {
            assert(self.walked@ =~= old(self).walked@.insert(t));
            return ;
        }
        set_insert(&mut self.walked, t);
        self.trail.push(EncodeOp::CompoundWalked { term: t });
        proof {
            assert(self.walked@.remove(t) =~= old(self).walked@);
            lemma_undo_one(old(self).tables(), self.tables(), old(self).trail@, EncodeOp::CompoundWalked { term: t });
        }
    }

    /// Takes back the changes of the trail from position `k` on.
    pub fn undo(&mut self, k: usize)
        ensures
            final(self).tables() == undo_to(old(self).tables(), old(self).trail@, k as int),
            final(self).trail@ == if k <= old(self).trail@.len() {
                old(self).trail@.take(k as int)
            } else {
                old(self).trail@
            },
            final(self).clauses@ == old(self).clauses@,
            final(self).has_bv_arith_ops == old(self).has_bv_arith_ops,
            final(self).has_quantifiers == old(self).has_quantifiers,
    {
        assert(self.trail@.take(self.trail@.len() as int) =~= self.trail@);
        while self.trail.len() > k
            invariant
                undo_to(self.tables(), self.trail@, k as int) == undo_to(old(self).tables(), old(self).trail@, k as int),
                self.trail@.len() <= old(self).trail@.len(),
                self.trail@ == old(self).trail@.take(self.trail@.len() as int),
                old(self).trail@.len() > k ==> self.trail@.len() >= k,
                old(self).trail@.len() <= k ==> self.trail@ == old(self).trail@,
                self.clauses@ == old(self).clauses@,
                self.has_bv_arith_ops == old(self).has_bv_arith_ops,
                self.has_quantifiers == old(self).has_quantifiers,
            decreases self.trail.len(),
        {
            let ghost before = self.tables();
            let ghost trail = self.trail@;
            let op = self.trail.pop();
            assert(self.trail@ =~= trail.drop_last());
            match op {
                Some(EncodeOp::VarCreated { term }) => {
                    map_remove(&mut self.term_to_var, term);
                    let dropped = self.var_to_term.pop();
                    assert(self.var_to_term@ =~= but_last(before.var_to_term));
                },
                Some(EncodeOp::ConstraintAdded { var }) => {
                    map_remove(&mut self.constraints, var);
                },
                Some(EncodeOp::ParsedAdded { var }) => {
                    map_remove(&mut self.parsed, var);
                },
                Some(EncodeOp::ArithTermAdded { term }) => {
                    set_remove(&mut self.arith_terms, term);
                },
                Some(EncodeOp::BvTermAdded { term }) => {
                    set_remove(&mut self.bv_terms, term);
                },
                Some(EncodeOp::CompoundWalked { term }) => {
                    set_remove(&mut self.walked, term);
                },
                None => {},
            }
            proof {
                assert(self.tables() == undo_op(before, trail.last()));
                assert(self.trail@ =~= old(self).trail@.take(self.trail@.len() as int));
            }
        }
    }
}

} // verus!
