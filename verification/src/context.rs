//! Assertions and what is noted of them, with the trail by which a context is left again.
use crate::maps::map_get;
use crate::maps::map_insert;
use crate::maps::map_new;
use crate::maps::map_remove;
use crate::maps::set_new;
use crate::maps::set_remove;
use crate::term::Symbol;
use crate::term::TermId;
use crate::unsat::NamedAssertion;
use rustc_hash::FxHashMap;
use rustc_hash::FxHashSet;
use vstd::prelude::*;

verus! {

/// One change of the records that can be taken back.
#[derive(Clone, Copy, Debug, PartialEq, Eq, Structural)]
pub enum TrailOp {
    AssertionAdded { index: usize },
    FalseAssertionSet,
    NamedAssertionAdded { index: usize },
    DtVarConstructorAdded { var: TermId },
    DtCoverAdded { term: TermId },
    DtSelectorReduced { term: TermId },
    DtTesterReduced { term: TermId },
}

/// The assertions, and what is noted of them.
#[derive(Debug)]
pub struct Records {
    pub assertions: Vec<TermId>,
    pub named_assertions: Vec<NamedAssertion>,
    pub has_false_assertion: bool,
    /// The constructor that an assertion gives a variable.
    pub dt_var_constructors: FxHashMap<usize, Symbol>,
    /// Terms of which it has been stated which constructors can have built them.
    pub dt_cover_done: FxHashSet<usize>,
    /// Selector applications whose fields have been stated.
    pub dt_selector_reduced: FxHashSet<usize>,
    /// Tests whose outcomes have been stated.
    pub dt_tester_reduced: FxHashSet<usize>,
    pub trail: Vec<TrailOp>,
}

/// The part of the records that the trail takes back.
#[verifier::ext_equal]
pub struct RecordsView {
    pub assertions: Seq<TermId>,
    pub named: Seq<NamedAssertion>,
    pub has_false: bool,
    pub constructors: Map<usize, Symbol>,
    pub covered: Set<usize>,
    pub selected: Set<usize>,
    pub tested: Set<usize>,
}

impl View for Records {
    type V = RecordsView;

    open spec fn view(&self) -> RecordsView {
        RecordsView {
            assertions: self.assertions@,
            named: self.named_assertions@,
            has_false: self.has_false_assertion,
            constructors: self.dt_var_constructors@,
            covered: self.dt_cover_done@,
            selected: self.dt_selector_reduced@,
            tested: self.dt_tester_reduced@,
        }
    }
}

/// The first `k` elements, or all if there are fewer.
pub open spec fn cut<E>(s: Seq<E>, k: int) -> Seq<E> {
    if s.len() > k {
        s.take(k)
    } else {
        s
    }
}

/// The records before one change, given those after it.
pub open spec fn undo_record(c: RecordsView, op: TrailOp) -> RecordsView {
    match op {
        TrailOp::AssertionAdded { index } => RecordsView { assertions: cut(c.assertions, index as int), ..c },
        TrailOp::FalseAssertionSet => RecordsView { has_false: false, ..c },
        TrailOp::NamedAssertionAdded { index } => RecordsView { named: cut(c.named, index as int), ..c },
        TrailOp::DtVarConstructorAdded { var } => RecordsView { constructors: c.constructors.remove(var), ..c },
        TrailOp::DtCoverAdded { term } => RecordsView { covered: c.covered.remove(term), ..c },
        TrailOp::DtSelectorReduced { term } => RecordsView { selected: c.selected.remove(term), ..c },
        TrailOp::DtTesterReduced { term } => RecordsView { tested: c.tested.remove(term), ..c },
    }
}

/// The records before the changes of the trail from position `k` on.
pub open spec fn undo_records(c: RecordsView, trail: Seq<TrailOp>, k: int) -> RecordsView
    decreases trail.len(),
{
    if trail.len() <= k || trail.len() == 0 {
        c
    } else {
        undo_records(undo_record(c, trail.last()), trail.drop_last(), k)
    }
}

/// Taking changes back in two parts is taking them back at once.
proof fn lemma_undo_parts(c: RecordsView, trail: Seq<TrailOp>, k: int, j: int)
    requires
        0 <= k <= j <= trail.len(),
    ensures
        undo_records(c, trail, k) == undo_records(undo_records(c, trail, j), trail.take(j), k),
    decreases trail.len(),
{
    if trail.len() <= j {
        assert(trail.take(j) =~= trail);
    } else {
        lemma_undo_parts(undo_record(c, trail.last()), trail.drop_last(), k, j);
        assert(trail.drop_last().take(j) =~= trail.take(j));
    }
}

impl Records {
    /// Taking back what the trail of `later` has on top gives these records.
    pub open spec fn reverts(&self, later: &Records) -> bool {
        &&& self.trail@.len() <= later.trail@.len()
        &&& later.trail@.take(self.trail@.len() as int) == self.trail@
        &&& undo_records(later@, later.trail@, self.trail@.len() as int) == self@
    }

    /// Nothing is on record, and there is nothing to take back.
    pub open spec fn is_blank(&self) -> bool {
        &&& self.assertions@.len() == 0
        &&& self.named_assertions@.len() == 0
        &&& !self.has_false_assertion
        &&& (self.dt_var_constructors@ == Map::<usize, Symbol>::empty())
        &&& self.dt_cover_done@ == Set::<usize>::empty()
        &&& self.dt_selector_reduced@ == Set::<usize>::empty()
        &&& self.dt_tester_reduced@ == Set::<usize>::empty()
        &&& self.trail@.len() == 0
    }

    /// No record.
    pub fn new() -> (r: Records)
        ensures
            r.is_blank(),
    {
        Records {
            assertions: Vec::new(),
            named_assertions: Vec::new(),
            has_false_assertion: false,
            dt_var_constructors: map_new(),
            dt_cover_done: set_new(),
            dt_selector_reduced: set_new(),
            dt_tester_reduced: set_new(),
            trail: Vec::new(),
        }
    }

    /// Adds an assertion.
    pub fn add_assertion(&mut self, t: TermId)
        ensures
            final(self)@ == (RecordsView { assertions: old(self).assertions@.push(t), ..old(self)@ }),
            old(self).reverts(final(self)),
    {
        let index: usize = self.assertions.len();
        self.assertions.push(t);
        self.trail.push(TrailOp::AssertionAdded { index });
        proof {
            assert(self.assertions@.take(index as int) =~= old(self).assertions@);
            lemma_undo_last(old(self), self, TrailOp::AssertionAdded { index });
        }
    }

    /// Notes that an assertion is false.
    pub fn set_false(&mut self)
        ensures
            final(self)@ == (RecordsView { has_false: true, ..old(self)@ }),
            old(self).reverts(final(self)),
    {
        proof {
            lemma_reverts_self(self);
        }
        if !self.has_false_assertion {
            self.has_false_assertion = true;
            self.trail.push(TrailOp::FalseAssertionSet);
            proof {
                lemma_undo_last(old(self), self, TrailOp::FalseAssertionSet);
            }
        }
    }

    /// Notes the name of an assertion.
    pub fn add_named(&mut self, a: NamedAssertion)
        ensures
            final(self)@ == (RecordsView { named: old(self).named_assertions@.push(a), ..old(self)@ }),
            old(self).reverts(final(self)),
    {
        let index: usize = self.named_assertions.len();
        self.named_assertions.push(a);
        self.trail.push(TrailOp::NamedAssertionAdded { index });
        proof {
            assert(self.named_assertions@.take(index as int) =~= old(self).named_assertions@);
            lemma_undo_last(old(self), self, TrailOp::NamedAssertionAdded { index });
        }
    }

    /// Notes the constructor that an assertion gives a variable, if none is noted; the result is
    /// the one that was noted before.
    pub fn add_constructor(&mut self, var: TermId, ctor: Symbol) -> (r: Option<Symbol>)
        ensures
            r == if old(self).dt_var_constructors@.contains_key(var) {
                Some(old(self).dt_var_constructors@[var])
            } else {
                None::<Symbol>
            },
            r is Some ==> *final(self) == *old(self),
            r is None ==> final(self)@ == (RecordsView {
                constructors: old(self).dt_var_constructors@.insert(var, ctor),
                ..old(self)@
            }),
            old(self).reverts(final(self)),
    {
        proof {
            lemma_reverts_self(self);
        }
        if let Some(k) = map_get(&self.dt_var_constructors, var) {
            return Some(*k);
        }
        map_insert(&mut self.dt_var_constructors, var, ctor);
        self.trail.push(TrailOp::DtVarConstructorAdded { var });
        proof {
            assert(self.dt_var_constructors@.remove(var) =~= old(self).dt_var_constructors@);
            lemma_undo_last(old(self), self, TrailOp::DtVarConstructorAdded { var });
        }
        None
    }

    /// Takes back the changes of the trail from position `k` on.
    pub fn undo(&mut self, k: usize)
        ensures
            final(self)@ == undo_records(old(self)@, old(self).trail@, k as int),
            final(self).trail@ == cut(old(self).trail@, k as int),
    {
        assert(self.trail@.take(self.trail@.len() as int) =~= self.trail@);
        while self.trail.len() > k
            invariant
                undo_records(self@, self.trail@, k as int) == undo_records(old(self)@, old(self).trail@, k as int),
                self.trail@.len() <= old(self).trail@.len(),
                self.trail@ == old(self).trail@.take(self.trail@.len() as int),
                old(self).trail@.len() > k ==> self.trail@.len() >= k,
                old(self).trail@.len() <= k ==> self.trail@ == old(self).trail@,
            decreases self.trail.len(),
        {
            let ghost before = self@;
            let ghost trail = self.trail@;
            let op = self.trail.pop();
            assert(self.trail@ =~= trail.drop_last());
            match op {
                Some(TrailOp::AssertionAdded { index }) => {
                    if self.assertions.len() > index {
                        self.assertions.truncate(index);
                    }
                },
                Some(TrailOp::FalseAssertionSet) => {
                    self.has_false_assertion = false;
                },
                Some(TrailOp::NamedAssertionAdded { index }) => {
                    if self.named_assertions.len() > index {
                        self.named_assertions.truncate(index);
                    }
                },
                Some(TrailOp::DtVarConstructorAdded { var }) => {
                    let _ = map_remove(&mut self.dt_var_constructors, var);
                },
                Some(TrailOp::DtCoverAdded { term }) => {
                    set_remove(&mut self.dt_cover_done, term);
                },
                Some(TrailOp::DtSelectorReduced { term }) => {
                    set_remove(&mut self.dt_selector_reduced, term);
                },
                Some(TrailOp::DtTesterReduced { term }) => {
                    set_remove(&mut self.dt_tester_reduced, term);
                },
                None => {},
            }
            proof {
                assert(self@ =~= undo_record(before, trail.last()));
                assert(self.trail@ =~= old(self).trail@.take(self.trail@.len() as int));
            }
        }
    }
}

/// No change.
pub proof fn lemma_reverts_self(a: &Records)
    ensures
        a.reverts(a),
{
    assert(a.trail@.take(a.trail@.len() as int) =~= a.trail@);
}

/// One change that can be taken back.
proof fn lemma_undo_last(a: &Records, b: &Records, op: TrailOp)
    requires
        b.trail@ == a.trail@.push(op),
        undo_record(b@, op) == a@,
    ensures
        a.reverts(b),
{
    assert(b.trail@.drop_last() =~= a.trail@);
    assert(b.trail@.take(a.trail@.len() as int) =~= a.trail@);
    assert(undo_records(b@, b.trail@, a.trail@.len() as int) == undo_records(undo_record(b@, op), a.trail@, a.trail@.len() as int));
}

/// Changes on top of changes can be taken back.
pub proof fn lemma_reverts(a: &Records, b: &Records, c: &Records)
    requires
        a.reverts(b),
        b.reverts(c),
    ensures
        a.reverts(c),
{
    let k = a.trail@.len() as int;
    let j = b.trail@.len() as int;
    lemma_undo_parts(c@, c.trail@, k, j);
    assert(c.trail@.take(j).take(k) =~= c.trail@.take(k));
}

/// Which set of terms a mark belongs to.
#[derive(Clone, Copy, Debug, PartialEq, Eq, Structural)]
pub enum Mark {
    Cover,
    Select,
    Test,
}

/// The change that adds a mark.
pub open spec fn mark_op(kind: Mark, t: TermId) -> TrailOp {
    match kind {
        Mark::Cover => TrailOp::DtCoverAdded { term: t },
        Mark::Select => TrailOp::DtSelectorReduced { term: t },
        Mark::Test => TrailOp::DtTesterReduced { term: t },
    }
}

/// The marked terms.
pub open spec fn marks(c: RecordsView, kind: Mark) -> Set<usize> {
    match kind {
        Mark::Cover => c.covered,
        Mark::Select => c.selected,
        Mark::Test => c.tested,
    }
}

/// The records with other marks.
pub open spec fn with_marks(c: RecordsView, kind: Mark, s: Set<usize>) -> RecordsView {
    match kind {
        Mark::Cover => RecordsView { covered: s, ..c },
        Mark::Select => RecordsView { selected: s, ..c },
        Mark::Test => RecordsView { tested: s, ..c },
    }
}

/// A set without the members of a list.
spec fn less_all(s: Set<usize>, list: Seq<TermId>) -> Set<usize>
    decreases list.len(),
{
    if list.len() == 0 {
        s
    } else {
        less_all(s.remove(list.last()), list.drop_last())
    }
}

proof fn lemma_less_all(s: Set<usize>, list: Seq<TermId>, x: usize)
    ensures
        less_all(s, list).contains(x) <==> s.contains(x) && !list.contains(x),
    decreases list.len(),
{
    if list.len() > 0 {
        lemma_less_all(s.remove(list.last()), list.drop_last(), x);
        if list.contains(x) {
            let i = choose|i: int| 0 <= i < list.len() && list[i] == x;
            if i < list.len() - 1 {
                assert(list.drop_last()[i] == x);
            }
        }
        if list.drop_last().contains(x) {
            let i = choose|i: int| 0 <= i < list.drop_last().len() && list.drop_last()[i] == x;
            assert(list[i] == x);
        }
        if x == list.last() {
            assert(list[list.len() - 1] == x);
        }
    }
}

/// Taking back marks takes them away.
proof fn lemma_undo_marks(c: RecordsView, trail: Seq<TrailOp>, k: int, list: Seq<TermId>, kind: Mark)
    requires
        0 <= k,
        trail.len() == k + list.len(),
        forall|i: int| 0 <= i < list.len() ==> #[trigger] trail[k + i] == mark_op(kind, list[i]),
    ensures
        undo_records(c, trail, k) == with_marks(c, kind, less_all(marks(c, kind), list)),
    decreases list.len(),
{
    if list.len() > 0 {
        let n = list.len() - 1;
        assert(trail[k + n] == mark_op(kind, list[n]));
        assert(trail.last() == mark_op(kind, list.last()));
        let d = undo_record(c, trail.last());
        assert(d == with_marks(c, kind, marks(c, kind).remove(list.last())));
        assert forall|i: int| 0 <= i < list.drop_last().len() implies #[trigger] trail.drop_last()[k + i] == mark_op(
            kind,
            list.drop_last()[i],
        ) by {
            assert(trail[k + i] == mark_op(kind, list[i]));
        }
        lemma_undo_marks(d, trail.drop_last(), k, list.drop_last(), kind);
    }
}

impl Records {
    /// Puts marks that have been set on the trail.
    pub(crate) fn note_marks(&mut self, list: &Vec<TermId>, kind: Mark, Ghost(before): Ghost<Records>)
        requires
            old(self).trail@ == before.trail@,
            old(self)@ == with_marks(before@, kind, marks(old(self)@, kind)),
            forall|x: usize| #[trigger]
                marks(old(self)@, kind).contains(x) <==> marks(before@, kind).contains(x) || list@.contains(x),
            forall|x: usize| #[trigger] list@.contains(x) ==> !marks(before@, kind).contains(x),
        ensures
            final(self)@ == old(self)@,
            before.reverts(final(self)),
    {
        let ghost k = self.trail@.len() as int;
        let mut i: usize = 0;
        while i < list.len()
            invariant
                i <= list.len(),
                k == old(self).trail@.len(),
                self@ == old(self)@,
                self.trail@.len() == k + i,
                self.trail@.take(k) == old(self).trail@,
                forall|j: int| 0 <= j < i ==> #[trigger] self.trail@[k + j] == mark_op(kind, list@[j]),
            decreases list.len() - i,
        {
            let ghost prior = self.trail@;
            let t: usize = list[i];
            let op = match kind {
                Mark::Cover => TrailOp::DtCoverAdded { term: t },
                Mark::Select => TrailOp::DtSelectorReduced { term: t },
                Mark::Test => TrailOp::DtTesterReduced { term: t },
            };
            self.trail.push(op);
            proof {
                assert(self.trail@.take(k) =~= prior.take(k));
                assert forall|j: int| 0 <= j < i + 1 implies #[trigger] self.trail@[k + j] == mark_op(kind, list@[j]) by {
                    if j < i {
                        assert(prior[k + j] == mark_op(kind, list@[j]));
                    }
                }
            }
            i = i + 1;
        }
        proof {
            lemma_undo_marks(self@, self.trail@, k, list@, kind);
            let all = marks(self@, kind);
            assert(less_all(all, list@) =~= marks(before@, kind)) by {
                assert forall|x: usize| less_all(all, list@).contains(x) <==> marks(before@, kind).contains(x) by {
                    lemma_less_all(all, list@, x);
                    assert(all.contains(x) <==> marks(before@, kind).contains(x) || list@.contains(x));
                }
            }
            assert(with_marks(self@, kind, marks(before@, kind)) =~= before@);
        }
    }
}

} // verus!
