//! Making a set of unsatisfiable assertions smaller: one is left out after the other, as long as
//! the rest is unsatisfiable.
use crate::solver::Solver;
use crate::term::TermId;
use crate::unsat::name_at;
use crate::unsat::names_at;
use crate::unsat::NamedAssertion;
use crate::unsat::UnsatCore;
use vstd::prelude::*;

verus! {

/// The assertions that are kept so far, by position; those before `at` are needed.
#[derive(Debug)]
pub struct CoreSearch {
    pub entries: Vec<(u32, TermId)>,
    pub at: usize,
}

/// How a set is made smaller.
#[derive(Debug)]
pub enum MinimizeStep {
    /// There is no set.
    Nothing,
    /// The set is what it is to be.
    Done(UnsatCore),
    /// Solve what the search asks for.
    Search(CoreSearch),
}

/// The assertions at the given positions.
pub open spec fn entries_at(assertions: Seq<TermId>, indices: Seq<u32>) -> Seq<(u32, TermId)> {
    indices.map_values(|i: u32| (i, assertions[i as int]))
}

/// What is kept, from position `at` on, by one who knows which sets are unsatisfiable.
pub open spec fn kept(entries: Seq<(u32, TermId)>, at: int, unsat: spec_fn(Seq<(u32, TermId)>) -> bool) -> Seq<(u32, TermId)>
    decreases entries.len() - at,
{
    if at < 0 || at >= entries.len() {
        entries
    } else if unsat(entries.remove(at)) {
        kept(entries.remove(at), at, unsat)
    } else {
        kept(entries, at + 1, unsat)
    }
}

/// A set with an unsatisfiable part is unsatisfiable.
pub open spec fn is_monotone(unsat: spec_fn(Seq<(u32, TermId)>) -> bool) -> bool {
    forall|s: Seq<(u32, TermId)>, i: int| 0 <= i < s.len() && unsat(#[trigger] s.remove(i)) ==> unsat(s)
}

/// The assertions of the entries but one.
pub open spec fn terms_without(entries: Seq<(u32, TermId)>, at: int) -> Seq<TermId> {
    entries.remove(at).map_values(|e: (u32, TermId)| e.1)
}

/// A copy of a set.
fn copy_core(c: &UnsatCore) -> (r: UnsatCore)
    ensures
        r.indices@ == c.indices@,
        r.names@ == c.names@,
{
    let mut r = UnsatCore::new();
    let mut i: usize = 0;
    while i < c.indices.len()
        invariant
            i <= c.indices.len(),
            r.indices@ == c.indices@.take(i as int),
            r.names@.len() == 0,
        decreases c.indices.len() - i,
    {
        r.indices.push(c.indices[i]);
        assert(c.indices@.take(i + 1) =~= c.indices@.take(i as int).push(c.indices@[i as int]));
        i = i + 1;
    }
    let mut j: usize = 0;
    while j < c.names.len()
        invariant
            j <= c.names.len(),
            r.indices@ == c.indices@.take(i as int),
            r.names@ == c.names@.take(j as int),
        decreases c.names.len() - j,
    {
        r.names.push(c.names[j].clone());
        assert(c.names@.take(j + 1) =~= c.names@.take(j as int).push(c.names@[j as int]));
        j = j + 1;
    }
    assert(c.indices@.take(i as int) =~= c.indices@);
    assert(c.names@.take(j as int) =~= c.names@);
    r
}

impl Solver {
    /// Begins to make the set of unsatisfiable assertions smaller.
    pub fn minimize_unsat_core(&self) -> (r: MinimizeStep)
        requires
            self.unsat_core matches Some(c) ==> forall|i: int|
                0 <= i < c.indices@.len() ==> (#[trigger] c.indices@[i]) < self.records.assertions@.len(),
        ensures
            r is Nothing <==> !self.produce_unsat_cores || self.unsat_core is None,
            self.produce_unsat_cores && self.unsat_core is Some ==> {
                let c = self.unsat_core->0;
                if c.indices@.len() == 0 {
                    r matches MinimizeStep::Done(d) && d.indices@ == c.indices@ && d.names@ == c.names@
                } else {
                    r matches MinimizeStep::Search(s) && s.at == 0 && s.entries@ == entries_at(self.records.assertions@, c.indices@)
                }
            },
    {
        if !self.produce_unsat_cores {
            return MinimizeStep::Nothing;
        }
        match &self.unsat_core {
            None => MinimizeStep::Nothing,
            Some(c) => {
                if c.is_empty() {
                    return MinimizeStep::Done(copy_core(c));
                }
                let mut entries: Vec<(u32, TermId)> = Vec::new();
                let mut i: usize = 0;
                while i < c.indices.len()
                    invariant
                        i <= c.indices.len(),
                        entries@.len() == i,
                        forall|k: int|
                            0 <= k < c.indices@.len() ==> (#[trigger] c.indices@[k]) < self.records.assertions@.len(),
                        forall|k: int|
                            0 <= k < i ==> #[trigger] entries@[k] == (c.indices@[k], self.records.assertions@[c.indices@[k] as int]),
                    decreases c.indices.len() - i,
                {
                    let index: u32 = c.indices[i];
                    assert(c.indices@[i as int] < self.records.assertions@.len());
                    entries.push((index, self.records.assertions[index as usize]));
                    i = i + 1;
                }
                assert(entries@ =~= entries_at(self.records.assertions@, c.indices@));
                MinimizeStep::Search(CoreSearch { entries, at: 0 })
            },
        }
    }
}

impl CoreSearch {
    /// The assertions to solve next, if the search has not ended: all that are kept but one.
    pub fn query(&self) -> (r: Option<Vec<TermId>>)
        ensures
            r is Some <==> self.at < self.entries@.len(),
            r matches Some(q) ==> q@ == terms_without(self.entries@, self.at as int),
    {
        if self.at >= self.entries.len() {
            return None;
        }
        let mut out: Vec<TermId> = Vec::new();
        let mut i: usize = 0;
        while i < self.entries.len()
            invariant
                i <= self.entries.len(),
                self.at < self.entries.len(),
                out@.len() == if i <= self.at {
                    i as int
                } else {
                    i - 1
                },
                forall|k: int| 0 <= k < out@.len() ==> #[trigger] out@[k] == self.entries@.remove(self.at as int)[k].1,
            decreases self.entries.len() - i,
        {
            if i != self.at {
                out.push(self.entries[i].1);
            }
            i = i + 1;
        }
        assert(out@ =~= terms_without(self.entries@, self.at as int));
        Some(out)
    }

    /// Takes the answer to the question: what is not needed is left out.
    pub fn answer(&mut self, unsat: bool)
        requires
            old(self).at < old(self).entries@.len(),
        ensures
            unsat ==> final(self).entries@ == old(self).entries@.remove(old(self).at as int) && final(self).at == old(self).at,
            !unsat ==> final(self).entries@ == old(self).entries@ && final(self).at == old(self).at + 1,
    {
        if unsat {
            let _ = self.entries.remove(self.at);
        } else {
            assert(self.at < self.entries.len());
            self.at = self.at + 1;
        }
    }

    /// The set of what is kept.
    pub fn finish(&self, named: &Vec<NamedAssertion>) -> (r: UnsatCore)
        ensures
            r.indices@ == self.entries@.map_values(|e: (u32, TermId)| e.0),
            r.names@ == names_at(named@, r.indices@, r.indices@.len() as int),
    {
        let mut r = UnsatCore::new();
        let mut i: usize = 0;
        while i < self.entries.len()
            invariant
                i <= self.entries.len(),
                r.indices@.len() == i,
                forall|k: int| 0 <= k < i ==> #[trigger] r.indices@[k] == self.entries@[k].0,
                r.names@ == names_at(named@, r.indices@, i as int),
            decreases self.entries.len() - i,
        {
            let ghost before = r.indices@;
            let index: u32 = self.entries[i].0;
            r.indices.push(index);
            if let Some(name) = name_at(named, index) {
                r.names.push(name);
            }
            proof {
                crate::unsat::lemma_names_prefix(named@, before, r.indices@, i as int);
            }
            i = i + 1;
        }
        assert(r.indices@ =~= self.entries@.map_values(|e: (u32, TermId)| e.0));
        r
    }
}

/// An honest answer changes nothing about what is kept in the end.
pub proof fn law_answers_lead_to_kept(before: &CoreSearch, answer: bool, after: &CoreSearch, unsat: spec_fn(Seq<(u32, TermId)>) -> bool)
    requires
        before.at < before.entries@.len(),
        answer == unsat(before.entries@.remove(before.at as int)),
        answer ==> after.entries@ == before.entries@.remove(before.at as int) && after.at == before.at,
        !answer ==> after.entries@ == before.entries@ && after.at == before.at + 1,
    ensures
        kept(after.entries@, after.at as int, unsat) == kept(before.entries@, before.at as int, unsat),
{
}

/// What is kept of an unsatisfiable set is unsatisfiable, and all of it was in the set.
pub proof fn law_kept_is_unsat(entries: Seq<(u32, TermId)>, at: int, unsat: spec_fn(Seq<(u32, TermId)>) -> bool)
    requires
        unsat(entries),
        0 <= at,
    ensures
        unsat(kept(entries, at, unsat)),
        forall|e: (u32, TermId)| #[trigger] kept(entries, at, unsat).contains(e) ==> entries.contains(e),
    decreases entries.len() - at,
{
    if at < entries.len() {
        if unsat(entries.remove(at)) {
            law_kept_is_unsat(entries.remove(at), at, unsat);
            assert forall|e: (u32, TermId)| #[trigger] kept(entries, at, unsat).contains(e) implies entries.contains(e) by {
                let rest = entries.remove(at);
                assert(rest.contains(e));
                let i = choose|i: int| 0 <= i < rest.len() && rest[i] == e;
                if i < at {
                    assert(entries[i] == e);
                } else {
                    assert(entries[i + 1] == e);
                }
            }
        } else {
            law_kept_is_unsat(entries, at + 1, unsat);
        }
    }
}

/// The places `at` are in order and hold what `part` lists.
pub open spec fn picks<E>(part: Seq<E>, whole: Seq<E>, at: Seq<int>) -> bool {
    &&& at.len() == part.len()
    &&& forall|i: int| 0 <= i < at.len() ==> 0 <= #[trigger] at[i] < whole.len() && part[i] == whole[at[i]]
    &&& forall|i: int, j: int| 0 <= i < j < at.len() ==> #[trigger] at[i] < #[trigger] at[j]
}

/// The first list holds some of the members of the second one, in its order.
pub open spec fn is_part<E>(part: Seq<E>, whole: Seq<E>) -> bool {
    exists|at: Seq<int>| picks(part, whole, at)
}

/// Leaving out a member keeps the order of the others.
proof fn lemma_part_without<E>(part: Seq<E>, whole: Seq<E>, i: int)
    requires
        is_part(part, whole),
        0 <= i < part.len(),
    ensures
        is_part(part.remove(i), whole),
{
    let at = choose|at: Seq<int>| picks(part, whole, at);
    let less = at.remove(i);
    assert forall|k: int| 0 <= k < less.len() implies 0 <= #[trigger] less[k] < whole.len() && part.remove(i)[k] == whole[less[k]] by {
        if k < i {
            assert(less[k] == at[k]);
        } else {
            assert(less[k] == at[k + 1]);
        }
    }
    assert(picks(part.remove(i), whole, less));
}

/// At the start of a search nothing is left out; and whatever is answered, what is kept stays a part
/// of the set, in its order.
pub proof fn law_search_keeps_a_part(whole: Seq<(u32, TermId)>, before: &CoreSearch, answer: bool, after: &CoreSearch)
    requires
        is_part(before.entries@, whole),
        before.at < before.entries@.len(),
        answer ==> after.entries@ == before.entries@.remove(before.at as int) && after.at == before.at,
        !answer ==> after.entries@ == before.entries@ && after.at == before.at + 1,
    ensures
        is_part(whole, whole),
        is_part(after.entries@, whole),
{
    assert(picks(whole, whole, Seq::new(whole.len(), |i: int| i)));
    if answer {
        lemma_part_without(before.entries@, whole, before.at as int);
    }
}

/// A set that is made smaller is a part of the set that it was made of, in its order: what is left
/// are positions of assertions, and the names are those of the assertions at these positions.
pub proof fn law_smaller_set_is_a_part(
    assertions: Seq<TermId>,
    named: Seq<NamedAssertion>,
    core_set: &UnsatCore,
    search: &CoreSearch,
    smaller: &UnsatCore,
)
    requires
        forall|i: int| 0 <= i < core_set.indices@.len() ==> (#[trigger] core_set.indices@[i]) < assertions.len(),
        is_part(search.entries@, entries_at(assertions, core_set.indices@)),
        smaller.indices@ == search.entries@.map_values(|e: (u32, TermId)| e.0),
        smaller.names@ == names_at(named, smaller.indices@, smaller.indices@.len() as int),
    ensures
        is_part(smaller.indices@, core_set.indices@),
        smaller.indices@.len() <= core_set.indices@.len(),
        forall|i: int| 0 <= i < smaller.indices@.len() ==> (#[trigger] smaller.indices@[i]) < assertions.len(),
{
    let whole = entries_at(assertions, core_set.indices@);
    let at = choose|at: Seq<int>| picks(search.entries@, whole, at);
    assert forall|i: int| 0 <= i < at.len() implies 0 <= #[trigger] at[i] < core_set.indices@.len() && smaller.indices@[i]
        == core_set.indices@[at[i]] by {
        assert(search.entries@[i] == whole[at[i]]);
    }
    assert(picks(smaller.indices@, core_set.indices@, at));
    lemma_places(at, core_set.indices@.len() as int);
    assert forall|i: int| 0 <= i < smaller.indices@.len() implies (#[trigger] smaller.indices@[i]) < assertions.len() by {
        assert(smaller.indices@[i] == core_set.indices@[at[i]]);
    }
}

/// There are no more places in order than there are places.
proof fn lemma_places(at: Seq<int>, n: int)
    requires
        0 <= n,
        forall|i: int| 0 <= i < at.len() ==> 0 <= #[trigger] at[i] < n,
        forall|i: int, j: int| 0 <= i < j < at.len() ==> #[trigger] at[i] < #[trigger] at[j],
    ensures
        at.len() <= n,
    decreases at.len(),
{
    if at.len() > 0 {
        let k = at.last();
        assert(at[at.len() - 1] == k);
        let rest = at.drop_last();
        assert forall|i: int| 0 <= i < rest.len() implies 0 <= #[trigger] rest[i] < k by {
            assert(at[i] < at[at.len() - 1]);
        }
        lemma_places(rest, k);
    }
}

/// What is kept is a part of the set, in its order.
pub proof fn law_kept_is_a_part(entries: Seq<(u32, TermId)>, at: int, unsat: spec_fn(Seq<(u32, TermId)>) -> bool)
    requires
        0 <= at,
    ensures
        is_part(kept(entries, at, unsat), entries),
    decreases entries.len() - at,
{
    assert(picks(entries, entries, Seq::new(entries.len(), |i: int| i)));
    if at < entries.len() {
        if unsat(entries.remove(at)) {
            law_kept_is_a_part(entries.remove(at), at, unsat);
            lemma_part_of_rest(kept(entries, at, unsat), entries, at);
        } else {
            law_kept_is_a_part(entries, at + 1, unsat);
        }
    }
}

/// A part of a list without one member is a part of the list.
proof fn lemma_part_of_rest<E>(part: Seq<E>, whole: Seq<E>, i: int)
    requires
        0 <= i < whole.len(),
        is_part(part, whole.remove(i)),
    ensures
        is_part(part, whole),
{
    let at = choose|at: Seq<int>| picks(part, whole.remove(i), at);
    let wide = Seq::new(
        at.len(),
        |k: int|
            if at[k] < i {
                at[k]
            } else {
                at[k] + 1
            },
    );
    assert forall|k: int| 0 <= k < wide.len() implies 0 <= #[trigger] wide[k] < whole.len() && part[k] == whole[wide[k]] by {
        let p = at[k];
        assert(part[k] == whole.remove(i)[at[k]]);
    }
    assert forall|k: int, l: int| 0 <= k < l < wide.len() implies #[trigger] wide[k] < #[trigger] wide[l] by {
        assert(at[k] < at[l]);
    }
    assert(picks(part, whole, wide));
}

/// What is kept is minimal: without any one of its members it is not known to be unsatisfiable.
pub proof fn law_kept_is_minimal(entries: Seq<(u32, TermId)>, unsat: spec_fn(Seq<(u32, TermId)>) -> bool)
    requires
        is_monotone(unsat),
    ensures
        forall|i: int| 0 <= i < kept(entries, 0, unsat).len() ==> !unsat(#[trigger] kept(entries, 0, unsat).remove(i)),
{
    lemma_minimal_from(entries, 0, unsat);
}

/// Making an unsatisfiable set smaller, with honest answers: once the search has ended, what is left
/// are some of the positions, in their order; the assertions at them are unsatisfiable together, but
/// not without any one of them; and the names are those of the positions left.
pub proof fn law_smaller_set_is_unsat_and_minimal(
    assertions: Seq<TermId>,
    named: Seq<NamedAssertion>,
    core_set: &UnsatCore,
    search: &CoreSearch,
    smaller: &UnsatCore,
    unsat: spec_fn(Seq<(u32, TermId)>) -> bool,
)
    requires
        forall|i: int| 0 <= i < core_set.indices@.len() ==> (#[trigger] core_set.indices@[i]) < assertions.len(),
        unsat(entries_at(assertions, core_set.indices@)),
        is_monotone(unsat),
        kept(search.entries@, search.at as int, unsat) == kept(entries_at(assertions, core_set.indices@), 0, unsat),
        search.at >= search.entries@.len(),
        smaller.indices@ == search.entries@.map_values(|e: (u32, TermId)| e.0),
        smaller.names@ == names_at(named, smaller.indices@, smaller.indices@.len() as int),
    ensures
        is_part(smaller.indices@, core_set.indices@),
        forall|i: int| 0 <= i < smaller.indices@.len() ==> (#[trigger] smaller.indices@[i]) < assertions.len(),
        unsat(entries_at(assertions, smaller.indices@)),
        forall|i: int|
            0 <= i < smaller.indices@.len() ==> !unsat(#[trigger] entries_at(assertions, smaller.indices@).remove(i)),
        smaller.names@ == names_at(named, smaller.indices@, smaller.indices@.len() as int),
{
    let whole = entries_at(assertions, core_set.indices@);
    assert(search.entries@ == kept(whole, 0, unsat));
    law_kept_is_unsat(whole, 0, unsat);
    law_kept_is_minimal(whole, unsat);
    law_kept_is_a_part(whole, 0, unsat);
    law_smaller_set_is_a_part(assertions, named, core_set, search, smaller);
    assert(entries_at(assertions, smaller.indices@) =~= search.entries@) by {
        let at = choose|at: Seq<int>| picks(search.entries@, whole, at);
        assert forall|i: int| 0 <= i < search.entries@.len() implies entries_at(assertions, smaller.indices@)[i] == search.entries@[i] by {
            assert(search.entries@[i] == whole[at[i]]);
        }
    }
}

/// Members that are needed stay needed.
proof fn lemma_minimal_from(entries: Seq<(u32, TermId)>, at: int, unsat: spec_fn(Seq<(u32, TermId)>) -> bool)
    requires
        is_monotone(unsat),
        0 <= at,
        forall|i: int| 0 <= i < at && i < entries.len() ==> !unsat(#[trigger] entries.remove(i)),
    ensures
        forall|i: int| 0 <= i < kept(entries, at, unsat).len() ==> !unsat(#[trigger] kept(entries, at, unsat).remove(i)),
    decreases entries.len() - at,
{
    if at < entries.len() {
        if unsat(entries.remove(at)) {
            let rest = entries.remove(at);
            assert forall|i: int| 0 <= i < at && i < rest.len() implies !unsat(#[trigger] rest.remove(i)) by {
                let big = entries.remove(i);
                assert(rest.remove(i) =~= big.remove(at - 1));
                assert(!unsat(big));
            }
            lemma_minimal_from(rest, at, unsat);
            assert(kept(entries, at, unsat) == kept(rest, at, unsat));
        } else {
            lemma_minimal_from(entries, at + 1, unsat);
            assert(kept(entries, at, unsat) == kept(entries, at + 1, unsat));
        }
    } else {
        assert(kept(entries, at, unsat) == entries);
    }
}

/// A question asks for all kept assertions but one, in their order: those before it stand at their
/// positions, and those behind it one position earlier.
pub proof fn law_question_leaves_one_out(entries: Seq<(u32, TermId)>, at: int, k: int)
    requires
        0 <= at < entries.len(),
        0 <= k < entries.len(),
    ensures
        terms_without(entries, at).len() == entries.len() - 1,
        k < at ==> terms_without(entries, at)[k] == entries[k].1,
        k > at ==> terms_without(entries, at)[k - 1] == entries[k].1,
{
}

} // verus!
