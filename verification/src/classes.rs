//! The classes of an equivalence that is given by pairs.
use crate::maps::map_get;
use crate::maps::map_insert;
use crate::maps::map_new;
use crate::term::TermId;
use rustc_hash::FxHashMap;
use vstd::prelude::*;

verus! {

/// The labelling gives both members of every pair the same label.
pub open spec fn respects(f: spec_fn(TermId) -> int, eqs: Seq<(TermId, TermId)>) -> bool {
    forall|i: int| 0 <= i < eqs.len() ==> f((#[trigger] eqs[i]).0) == f(eqs[i].1)
}

/// The pairs force `x` and `y` to be equal: every labelling that respects the pairs gives them the
/// same label.
pub open spec fn joined(eqs: Seq<(TermId, TermId)>, x: TermId, y: TermId) -> bool {
    forall|f: spec_fn(TermId) -> int| #[trigger] respects(f, eqs) ==> f(x) == f(y)
}

/// The classes of an equivalence, each known by one of its members.
#[derive(Debug)]
pub struct Classes {
    members: Vec<TermId>,
    labels: FxHashMap<usize, TermId>,
}

impl Classes {
    /// The member that the class of `x` is known by.
    pub closed spec fn label(&self, x: TermId) -> TermId {
        if self.labels@.contains_key(x) {
            self.labels@[x]
        } else {
            x
        }
    }

    /// Every member is on the list, and a class is known by a member of its own.
    pub closed spec fn wf(&self) -> bool {
        &&& forall|x: usize| #[trigger] self.labels@.contains_key(x) ==> self.members@.contains(x)
        &&& forall|i: int| 0 <= i < self.members@.len() ==> self.labels@.contains_key(#[trigger] self.members@[i])
        &&& forall|x: usize| #[trigger] self.labels@.contains_key(x) ==> self.labels@.contains_key(self.labels@[x])
            && self.labels@[self.labels@[x]] == self.labels@[x]
    }

    /// The labels are those of the equivalence that the pairs generate.
    pub open spec fn of(&self, eqs: Seq<(TermId, TermId)>) -> bool {
        forall|x: TermId, y: TermId| #[trigger] self.label(x) == #[trigger] self.label(y) <==> joined(eqs, x, y)
    }

    /// Every term in a class of its own.
    fn new() -> (c: Classes)
        ensures
            c.wf(),
            forall|x: TermId| #[trigger] c.label(x) == x,
    {
        Classes { members: Vec::new(), labels: map_new() }
    }

    /// The member that the class of `x` is known by.
    pub fn find(&self, x: TermId) -> (l: TermId)
        ensures
            l == self.label(x),
    {
        match map_get(&self.labels, x) {
            Some(l) => *l,
            None => x,
        }
    }

    /// Puts a term on the list.
    fn enter(&mut self, x: TermId)
        requires
            old(self).wf(),
        ensures
            final(self).wf(),
            final(self).labels@.contains_key(x),
            forall|y: TermId| old(self).labels@.contains_key(y) ==> #[trigger] final(self).labels@.contains_key(y),
            forall|y: TermId| #[trigger] final(self).label(y) == old(self).label(y),
    {
        if map_get(&self.labels, x).is_none() {
            map_insert(&mut self.labels, x, x);
            self.members.push(x);
            proof {
                let before = old(self).members@;
                assert(self.members@[before.len() as int] == x);
                assert forall|y: usize| #[trigger] self.labels@.contains_key(y) implies self.members@.contains(y) by {
                    if y != x {
                        assert(old(self).labels@.contains_key(y));
                        let i = choose|i: int| 0 <= i < before.len() && before[i] == y;
                        assert(self.members@[i] == y);
                    }
                }
                assert forall|i: int| 0 <= i < self.members@.len() implies self.labels@.contains_key(#[trigger] self.members@[i]) by {
                    if i < before.len() {
                        assert(before[i] == self.members@[i]);
                    }
                }
                assert forall|y: usize| #[trigger] self.labels@.contains_key(y) implies self.labels@.contains_key(self.labels@[y])
                    && self.labels@[self.labels@[y]] == self.labels@[y] by {
                    if y != x {
                        assert(old(self).labels@.contains_key(y));
                        assert(old(self).labels@.contains_key(old(self).labels@[y]));
                    }
                }
            }
        }
    }

    /// Joins the classes of two terms.
    fn union(&mut self, a: TermId, b: TermId)
        requires
            old(self).wf(),
        ensures
            final(self).wf(),
            forall|x: TermId| #[trigger] final(self).label(x) == if old(self).label(x) == old(self).label(a) {
                old(self).label(b)
            } else {
                old(self).label(x)
            },
    {
        self.enter(a);
        self.enter(b);
        let ghost start = *self;
        let la: usize = self.find(a);
        let lb: usize = self.find(b);
        proof {
            assert(old(self).label(a) == la && old(self).label(b) == lb);
            assert(start.labels@.contains_key(lb) && start.labels@[lb] == lb);
        }
        let mut i: usize = 0;
        while i < self.members.len()
            invariant
                i <= self.members.len(),
                self.members@ == start.members@,
                start.wf(),
                start.labels@.contains_key(lb),
                start.labels@[lb] == lb,
                self.labels@.dom() == start.labels@.dom(),
                forall|x: usize| #[trigger] self.labels@.contains_key(x) ==> self.labels@[x] == start.labels@[x] || (
                start.labels@[x] == la && self.labels@[x] == lb),
                forall|j: int| 0 <= j < i ==> self.labels@[#[trigger] self.members@[j]] == if start.labels@[self.members@[j]] == la {
                    lb
                } else {
                    start.labels@[self.members@[j]]
                },
            decreases self.members.len() - i,
        {
            let x: usize = self.members[i];
            assert(self.labels@.contains_key(self.members@[i as int]));
            let lx: usize = self.find(x);
            if lx == la {
                let ghost before = *self;
                map_insert(&mut self.labels, x, lb);
                assert(self.labels@.dom() =~= start.labels@.dom());
                assert forall|j: int| 0 <= j < i + 1 implies self.labels@[#[trigger] self.members@[j]] == if start.labels@[self.members@[j]]
                    == la {
                    lb
                } else {
                    start.labels@[self.members@[j]]
                } by {
                    if j < i && self.members@[j] != x {
                        assert(before.labels@[self.members@[j]] == self.labels@[self.members@[j]]);
                    }
                }
            }
            i = i + 1;
        }
        proof {
            assert forall|x: TermId| #[trigger] self.label(x) == if start.label(x) == la {
                lb
            } else {
                start.label(x)
            } by {
                if start.labels@.contains_key(x) {
                    assert(self.members@.contains(x));
                    let j = choose|j: int| 0 <= j < self.members@.len() && self.members@[j] == x;
                    assert(self.labels@.contains_key(self.members@[j]));
                } else {
                    assert(!self.labels@.contains_key(x));
                    if x == la {
                        assert(start.labels@.contains_key(a));
                    }
                }
            }
            assert forall|x: usize| #[trigger] self.labels@.contains_key(x) implies self.labels@.contains_key(self.labels@[x])
                && self.labels@[self.labels@[x]] == self.labels@[x] by {
                assert(start.labels@.contains_key(x));
                let l = self.label(x);
                assert(start.labels@.contains_key(start.labels@[x]));
                assert(self.label(lb) == if start.label(lb) == la {
                    lb
                } else {
                    start.label(lb)
                });
                let s = start.labels@[x];
                assert(self.label(s) == if start.label(s) == la {
                    lb
                } else {
                    start.label(s)
                });
            }
            assert forall|x: TermId| #[trigger] self.label(x) == if old(self).label(x) == old(self).label(a) {
                old(self).label(b)
            } else {
                old(self).label(x)
            } by {
                assert(start.label(x) == old(self).label(x));
            }
        }
    }
}

/// A class is known by a member of its own.
pub proof fn lemma_label(c: &Classes, x: TermId)
    requires
        c.wf(),
    ensures
        c.label(c.label(x)) == c.label(x),
{
}

/// The classes of the equivalence that the pairs generate.
pub fn classes_of(eqs: &Vec<(TermId, TermId)>) -> (c: Classes)
    ensures
        c.wf(),
        c.of(eqs@),
{
    let mut c = Classes::new();
    let mut i: usize = 0;
    while i < eqs.len()
        invariant
            i <= eqs.len(),
            c.wf(),
            forall|j: int| 0 <= j < i ==> c.label((#[trigger] eqs@[j]).0) == c.label(eqs@[j].1),
            forall|f: spec_fn(TermId) -> int, x: TermId, y: TermId|
                #[trigger] respects(f, eqs@) && #[trigger] c.label(x) == #[trigger] c.label(y) ==> f(x) == f(y),
        decreases eqs.len() - i,
    {
        let ghost before = c;
        let (a, b) = eqs[i];
        c.union(a, b);
        proof {
            assert(eqs@[i as int] == (a, b));
            assert forall|j: int| 0 <= j < i + 1 implies c.label((#[trigger] eqs@[j]).0) == c.label(eqs@[j].1) by {
                if j < i {
                    assert(before.label(eqs@[j].0) == before.label(eqs@[j].1));
                }
            }
            assert forall|f: spec_fn(TermId) -> int, x: TermId, y: TermId|
                #[trigger] respects(f, eqs@) && #[trigger] c.label(x) == #[trigger] c.label(y) implies f(x) == f(y) by {
                assert(f(eqs@[i as int].0) == f(eqs@[i as int].1));
                let bx = before.label(x);
                let by = before.label(y);
                let ba = before.label(a);
                let bb = before.label(b);
                if bx == ba {
                    assert(f(x) == f(a));
                }
                if by == ba {
                    assert(f(y) == f(a));
                }
                if bx == bb {
                    assert(f(x) == f(b));
                }
                if by == bb {
                    assert(f(y) == f(b));
                }
            }
        }
        i = i + 1;
    }
    proof {
        let g = |x: TermId| c.label(x) as int;
        assert(respects(g, eqs@));
        assert forall|x: TermId, y: TermId| #[trigger] c.label(x) == #[trigger] c.label(y) <==> joined(eqs@, x, y) by {
            if joined(eqs@, x, y) {
                assert(g(x) == g(y));
            }
            if c.label(x) == c.label(y) {
                assert forall|f: spec_fn(TermId) -> int| #[trigger] respects(f, eqs@) implies f(x) == f(y) by {}
            }
        }
    }
    c
}

} // verus!
