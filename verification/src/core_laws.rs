//! What the sets of unsatisfiable assertions hold.
use crate::check::begins;
use crate::check::ends_unsat;
use crate::check::is_trivial_core;
use crate::check::CheckStep;
use crate::check::EarlyConflicts;
use crate::context::RecordsView;
use crate::solver::clashes;
use crate::solver::encodes;
use crate::solver::named_outcome;
use crate::solver::outcome;
use crate::solver::with_assertion;
use crate::solver::with_constructor;
use crate::solver::Asserted;
use crate::solver::Solver;
use crate::term::Op;
use crate::term::TermId;
use crate::term::TermManager;
use crate::term::FALSE_TERM;
use crate::unsat::all_indices;
use crate::unsat::all_names;
use crate::unsat::false_positions;
use crate::unsat::first_at;
use crate::unsat::names_at;
use crate::unsat::NamedAssertion;
use crate::unsat::UnsatCore;
use crate::verdict::SolverResult;
use vstd::prelude::*;

verus! {

/// Every entry names the assertion at its position.
pub open spec fn entries_right(assertions: Seq<TermId>, named: Seq<NamedAssertion>) -> bool {
    forall|k: int| 0 <= k < named.len() ==> (#[trigger] named[k]).index < assertions.len() && assertions[named[k].index as int] == named[k].term
}

/// There is an entry for the assertion at the position.
pub open spec fn has_entry(named: Seq<NamedAssertion>, i: int) -> bool {
    exists|k: int| 0 <= k < named.len() && (#[trigger] named[k]).index == i
}

/// The assertions that there are entries for.
pub open spec fn entered(named: Seq<NamedAssertion>) -> Set<TermId> {
    Set::new(|t: TermId| exists|k: int| 0 <= k < named.len() && (#[trigger] named[k]).term == t)
}

/// The assertions.
pub open spec fn all_asserted(assertions: Seq<TermId>) -> Set<TermId> {
    Set::new(|t: TermId| assertions.contains(t))
}

/// The assertions at the listed positions.
pub open spec fn asserted_at(assertions: Seq<TermId>, indices: Seq<u32>) -> Set<TermId> {
    Set::new(|t: TermId| exists|j: int| 0 <= j < indices.len() && assertions[(#[trigger] indices[j]) as int] == t)
}

/// Whatever holds an unsatisfiable set is unsatisfiable.
pub open spec fn grows(unsat: spec_fn(Set<TermId>) -> bool) -> bool {
    forall|a: Set<TermId>, b: Set<TermId>| #[trigger] unsat(a) && #[trigger] a.subset_of(b) ==> unsat(b)
}

/// The list of all positions holds those of the entries, one after the other.
proof fn lemma_all_indices(named: Seq<NamedAssertion>, k: int)
    requires
        0 <= k <= named.len(),
    ensures
        all_indices(named, k).len() == k,
        forall|j: int| 0 <= j < k ==> #[trigger] all_indices(named, k)[j] == named[j].index,
    decreases k,
{
    if k > 0 {
        lemma_all_indices(named, k - 1);
    }
}

/// After a refutation the set lists the position of every entry, named or not, in their order, and
/// nothing else.
pub proof fn law_full_set_lists_every_entry(s: &Solver, after: &Solver)
    requires
        s.produce_unsat_cores,
        ends_unsat(s, after),
    ensures
        after.unsat_core matches Some(c) && c.indices@.len() == s.records.named_assertions@.len() && forall|k: int|
            0 <= k < s.records.named_assertions@.len() ==> #[trigger] c.indices@[k] == s.records.named_assertions@[k].index,
{
    let named = s.records.named_assertions@;
    lemma_all_indices(named, named.len() as int);
}

/// After a refutation the assertions at the listed positions are unsatisfiable, in whatever sense
/// those are that there are entries for.
pub proof fn law_full_set_is_unsatisfiable(s: &Solver, after: &Solver, unsat: spec_fn(Set<TermId>) -> bool)
    requires
        s.produce_unsat_cores,
        ends_unsat(s, after),
        entries_right(s.records.assertions@, s.records.named_assertions@),
        grows(unsat),
    ensures
        after.unsat_core matches Some(c) && (unsat(entered(s.records.named_assertions@)) ==> unsat(
            asserted_at(s.records.assertions@, c.indices@),
        )),
        after.unsat_core matches Some(c) && ((forall|i: int|
            0 <= i < s.records.assertions@.len() ==> #[trigger] has_entry(s.records.named_assertions@, i)) && unsat(
            all_asserted(s.records.assertions@),
        ) ==> unsat(asserted_at(s.records.assertions@, c.indices@))),
        after.unsat_core matches Some(c) && forall|j: int| 0 <= j < c.indices@.len() ==> (#[trigger] c.indices@[j]) < s.records.assertions@.len(),
{
    let named = s.records.named_assertions@;
    let assertions = s.records.assertions@;
    law_full_set_lists_every_entry(s, after);
    let c = after.unsat_core->0;
    let listed = asserted_at(assertions, c.indices@);
    assert forall|t: TermId| entered(named).contains(t) implies #[trigger] listed.contains(t) by {
        let k = choose|k: int| 0 <= k < named.len() && (#[trigger] named[k]).term == t;
        assert(c.indices@[k] == named[k].index);
        assert(assertions[c.indices@[k] as int] == t);
    }
    assert(entered(named).subset_of(listed));
    if forall|i: int| 0 <= i < assertions.len() ==> #[trigger] has_entry(named, i) {
        assert forall|t: TermId| all_asserted(assertions).contains(t) implies #[trigger] listed.contains(t) by {
            let i = choose|i: int| 0 <= i < assertions.len() && assertions[i] == t;
            assert(has_entry(named, i));
            let k = choose|k: int| 0 <= k < named.len() && (#[trigger] named[k]).index == i;
            assert(c.indices@[k] == named[k].index);
            assert(assertions[c.indices@[k] as int] == t);
        }
        assert(all_asserted(assertions).subset_of(listed));
    }
    assert forall|j: int| 0 <= j < c.indices@.len() implies (#[trigger] c.indices@[j]) < assertions.len() by {
        assert(c.indices@[j] == named[j].index);
    }
}

/// A check that refutes assertions none of which is false by itself reports the position of every
/// entry.
pub proof fn law_refuting_check_lists_every_entry(
    m: &TermManager,
    before: &Solver,
    early: EarlyConflicts,
    later: &TermManager,
    after: &Solver,
    r: CheckStep,
)
    requires
        begins(m, before, early, later, after, r),
        r == CheckStep::Done(SolverResult::Unsat),
        before.produce_unsat_cores,
        !before.records.has_false_assertion,
    ensures
        after.unsat_core matches Some(c) && c.indices@.len() == after.records.named_assertions@.len() && forall|k: int|
            0 <= k < after.records.named_assertions@.len() ==> #[trigger] c.indices@[k] == after.records.named_assertions@[k].index,
{
    let named = after.records.named_assertions@;
    lemma_all_indices(named, named.len() as int);
}

/// The positions of the term `false` are listed in order, and nothing else.
proof fn lemma_false_positions(assertions: Seq<TermId>, k: int)
    requires
        0 <= k <= assertions.len(),
        assertions.len() <= u32::MAX,
    ensures
        forall|j: int| 0 <= j < false_positions(assertions, k).len() ==> (#[trigger] false_positions(assertions, k)[j]) < k && assertions[
            false_positions(assertions, k)[j] as int
        ] == FALSE_TERM,
        forall|i: int| 0 <= i < k && #[trigger] assertions[i] == FALSE_TERM ==> false_positions(assertions, k).contains(i as u32),
        forall|i: int, j: int| 0 <= i < j < false_positions(assertions, k).len() ==> #[trigger] false_positions(assertions, k)[i]
            < #[trigger] false_positions(assertions, k)[j],
    decreases k,
{
    if k > 0 {
        lemma_false_positions(assertions, k - 1);
        let before = false_positions(assertions, k - 1);
        let now = false_positions(assertions, k);
        assert forall|i: int| 0 <= i < k && #[trigger] assertions[i] == FALSE_TERM implies now.contains(i as u32) by {
            if i == k - 1 {
                assert(now[now.len() - 1] == i as u32);
            } else {
                assert(before.contains(i as u32));
                let j = choose|j: int| 0 <= j < before.len() && before[j] == i as u32;
                assert(now[j] == i as u32);
            }
        }
    }
}

/// Where an assertion is false by itself, the set lists the positions of those assertions that are
/// the term `false`, each once and in order, and no others: each of them alone is unsatisfiable.
pub proof fn law_trivial_set_lists_the_false_assertions(s: &Solver, found: Option<UnsatCore>)
    requires
        is_trivial_core(s, found),
        s.produce_unsat_cores,
        s.records.assertions@.len() <= u32::MAX,
    ensures
        found matches Some(c) && {
            &&& forall|j: int| 0 <= j < c.indices@.len() ==> (#[trigger] c.indices@[j]) < s.records.assertions@.len() && s.records.assertions@[
                c.indices@[j] as int
            ] == FALSE_TERM
            &&& forall|i: int|
                0 <= i < s.records.assertions@.len() && #[trigger] s.records.assertions@[i] == FALSE_TERM ==> c.indices@.contains(i as u32)
            &&& forall|i: int, j: int| 0 <= i < j < c.indices@.len() ==> #[trigger] c.indices@[i] < #[trigger] c.indices@[j]
        },
{
    let assertions = s.records.assertions@;
    lemma_false_positions(assertions, assertions.len() as int);
}

/// The names of the first entries are listed.
proof fn lemma_all_names(named: Seq<NamedAssertion>, k: int, n: String)
    requires
        0 <= k <= named.len(),
    ensures
        all_names(named, k).contains(n) <==> exists|j: int| 0 <= j < k && (#[trigger] named[j]).name == Some(n),
    decreases k,
{
    if k > 0 {
        lemma_all_names(named, k - 1, n);
        let before = all_names(named, k - 1);
        let now = all_names(named, k);
        if before.contains(n) {
            let j = choose|j: int| 0 <= j < before.len() && before[j] == n;
            assert(now[j] == n);
        }
        if named[k - 1].name == Some(n) {
            assert(now[now.len() - 1] == n);
        }
        if now.contains(n) && !before.contains(n) {
            let j = choose|j: int| 0 <= j < now.len() && now[j] == n;
            if j < before.len() {
                assert(before[j] == n);
            }
            assert(named[k - 1].name == Some(n));
        }
    }
}

/// After a refutation the names are those that entries have.
pub proof fn law_full_set_has_every_name(s: &Solver, after: &Solver, n: String)
    requires
        s.produce_unsat_cores,
        ends_unsat(s, after),
    ensures
        after.unsat_core matches Some(c) && (c.names@.contains(n) <==> exists|k: int|
            0 <= k < s.records.named_assertions@.len() && (#[trigger] s.records.named_assertions@[k]).name == Some(n)),
{
    let named = s.records.named_assertions@;
    lemma_all_names(named, named.len() as int, n);
}

/// The first entry at a position is an entry, and there is none before it.
proof fn lemma_first_at(named: Seq<NamedAssertion>, index: u32, k: int)
    requires
        0 <= k,
    ensures
        first_at(named, index, k) is None <==> forall|j: int| k <= j < named.len() ==> (#[trigger] named[j]).index != index,
        first_at(named, index, k) matches Some(a) ==> exists|j: int|
            k <= j < named.len() && #[trigger] named[j] == a && a.index == index && forall|i: int| k <= i < j ==> (#[trigger] named[i]).index != index,
    decreases named.len() - k,
{
    if k < named.len() && named[k].index != index {
        lemma_first_at(named, index, k + 1);
        if let Some(a) = first_at(named, index, k + 1) {
            let j = choose|j: int|
                k + 1 <= j < named.len() && #[trigger] named[j] == a && a.index == index && forall|i: int|
                    k + 1 <= i < j ==> (#[trigger] named[i]).index != index;
            assert(named[j] == a);
        }
        if first_at(named, index, k) is None {
            assert forall|j: int| k <= j < named.len() implies (#[trigger] named[j]).index != index by {}
        }
    } else if k < named.len() {
        assert(named[k].index == index);
    }
}

/// Where no two entries have one position, the names of listed positions are those that the entries
/// at these positions have.
pub proof fn law_names_are_those_of_the_positions(named: Seq<NamedAssertion>, indices: Seq<u32>, k: int, n: String)
    requires
        0 <= k <= indices.len(),
        forall|i: int, j: int| 0 <= i < j < named.len() ==> (#[trigger] named[i]).index != (#[trigger] named[j]).index,
    ensures
        names_at(named, indices, k).contains(n) <==> exists|j: int, i: int|
            0 <= j < k && 0 <= i < named.len() && (#[trigger] named[i]).index == #[trigger] indices[j] && named[i].name == Some(n),
    decreases k,
{
    if k > 0 {
        law_names_are_those_of_the_positions(named, indices, k - 1, n);
        let before = names_at(named, indices, k - 1);
        let now = names_at(named, indices, k);
        lemma_first_at(named, indices[k - 1], 0);
        if before.contains(n) {
            let j = choose|j: int| 0 <= j < before.len() && before[j] == n;
            assert(now[j] == n);
        }
        if exists|i: int| 0 <= i < named.len() && (#[trigger] named[i]).index == indices[k - 1] && named[i].name == Some(n) {
            let i = choose|i: int| 0 <= i < named.len() && (#[trigger] named[i]).index == indices[k - 1] && named[i].name == Some(n);
            let a = first_at(named, indices[k - 1], 0)->0;
            let j = choose|j: int| 0 <= j < named.len() && #[trigger] named[j] == a && a.index == indices[k - 1];
            assert(i == j);
            assert(now[now.len() - 1] == n);
        }
        if now.contains(n) && !before.contains(n) {
            let j = choose|j: int| 0 <= j < now.len() && now[j] == n;
            if j < before.len() {
                assert(before[j] == n);
            }
            let a = first_at(named, indices[k - 1], 0)->0;
            let i = choose|i: int| 0 <= i < named.len() && #[trigger] named[i] == a && a.index == indices[k - 1];
            assert(named[i].index == indices[k - 1] && named[i].name == Some(n));
        }
    }
}

/// What an assertion adds to the records while sets are produced.
pub open spec fn enters(before: RecordsView, after: RecordsView, term: TermId, name: Option<String>) -> bool {
    &&& after.assertions == before.assertions.push(term)
    &&& after.named.len() == before.named.len() + 1
    &&& forall|k: int| 0 <= k < before.named.len() ==> #[trigger] after.named[k] == before.named[k]
    &&& after.named.last().term == term
    &&& after.named.last().index == before.assertions.len()
    &&& after.named.last().name == name
}

/// An assertion is entered while sets are produced, though without a name: at its position, unless
/// what is left of it is a truth value or clashes with a constructor on record.
pub proof fn law_assertion_is_entered(
    m: &TermManager,
    before: &Solver,
    later: &TermManager,
    after: &Solver,
    term: TermId,
    simplified: TermId,
    r: Asserted,
)
    requires
        outcome(m, before, later, after, term, simplified, r),
        before.produce_unsat_cores,
        before.records.assertions@.len() < u32::MAX,
    ensures
        r is True || r is False || r is Encoded ==> enters(before.records@, after.records@, term, None),
        !(r is True || r is False || r is Encoded) ==> after.records@.named == before.records@.named && after.records@.assertions
            == before.records@.assertions.push(term),
{
    if let Asserted::Encoded(f) = r {
        let name = NamedAssertion { term, name: None, index: before.records.assertions@.len() as u32 };
        let rec = with_assertion(before.records@, term);
        let mid = choose|mid: TermManager| #[trigger]
            encodes(
                m,
                &mid,
                before,
                later,
                after,
                simplified,
                f,
                f,
                with_constructor(&mid, rec, f),
                before.produce_unsat_cores,
                name,
            ) && mid.op(f) != Op::True && mid.op(f) != Op::False && !clashes(&mid, rec, f);
        assert(after.records@.named == before.records@.named.push(name));
    }
}

/// An assertion under a name is entered with it while sets are produced, whatever becomes of it.
pub proof fn law_named_assertion_is_entered(
    m: &TermManager,
    before: &Solver,
    later: &TermManager,
    after: &Solver,
    term: TermId,
    text: String,
    r: Asserted,
)
    requires
        named_outcome(m, before, later, after, term, text, r),
        before.produce_unsat_cores,
        before.records.assertions@.len() < u32::MAX,
    ensures
        enters(before.records@, after.records@, term, Some(text)),
{
    if let Asserted::Encoded(f) = r {
        let name = NamedAssertion { term, name: Some(text), index: before.records.assertions@.len() as u32 };
        let rec = with_assertion(before.records@, term);
        let mid = choose|mid: TermManager| #[trigger]
            encodes(m, &mid, before, later, after, term, f, term, rec, before.produce_unsat_cores, name);
        assert(after.records@.named == before.records@.named.push(name));
    }
}

/// Entering assertions keeps every entry right, and no two entries have one position; the new
/// assertion has an entry, and what had one keeps it.
pub proof fn law_entries_stay_right(before: RecordsView, after: RecordsView, term: TermId, name: Option<String>)
    requires
        enters(before, after, term, name),
        entries_right(before.assertions, before.named),
        forall|i: int, j: int| 0 <= i < j < before.named.len() ==> (#[trigger] before.named[i]).index != (#[trigger] before.named[j]).index,
    ensures
        entries_right(after.assertions, after.named),
        forall|i: int, j: int| 0 <= i < j < after.named.len() ==> (#[trigger] after.named[i]).index != (#[trigger] after.named[j]).index,
        has_entry(after.named, before.assertions.len() as int),
        forall|i: int| #[trigger] has_entry(before.named, i) ==> has_entry(after.named, i),
{
    let n = before.named.len() as int;
    assert(after.named[n] == after.named.last());
    assert forall|k: int| 0 <= k < after.named.len() implies (#[trigger] after.named[k]).index < after.assertions.len() && after.assertions[
        after.named[k].index as int
    ] == after.named[k].term by {
        if k < n {
            assert(after.named[k] == before.named[k]);
        }
    }
    assert forall|i: int, j: int| 0 <= i < j < after.named.len() implies (#[trigger] after.named[i]).index != (#[trigger] after.named[j]).index by {
        assert(after.named[i] == before.named[i]);
        if j < n {
            assert(after.named[j] == before.named[j]);
        }
    }
    assert forall|i: int| #[trigger] has_entry(before.named, i) implies has_entry(after.named, i) by {
        let k = choose|k: int| 0 <= k < before.named.len() && (#[trigger] before.named[k]).index == i;
        assert(after.named[k] == before.named[k]);
    }
}

} // verus!
