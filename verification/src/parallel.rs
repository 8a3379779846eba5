//! Contradictions between assigned constraints, looked for in several theories at once by `rayon`.
use crate::cnf::Lit;
use crate::cnf::Var;
use crate::cnf::neg;
use crate::encoder::Constraint;
use crate::linear::Valuation;
use crate::small::LitList;
use crate::term::TermId;
use rayon::iter::IntoParallelRefIterator;
use rayon::iter::ParallelIterator;
use vstd::prelude::*;

verus! {

/// An assigned variable with its constraint and its phase.
pub type Assigned = (Var, Constraint, bool);

/// What a check of several theories found.
#[derive(Debug)]
pub enum ParallelTheoryResult {
    /// No theory found a contradiction.
    AllSat,
    /// The clause of a contradiction.
    Conflict(LitList),
}

/// A check of several theories at once.
pub struct ParallelTheoryChecker;

/// The constraint is one of equality or of a truth value.
pub open spec fn of_equality(c: Constraint) -> bool {
    c is Eq || c is Diseq || c is BoolApp || c is BoolValue
}

/// Two assigned constraints say opposite things of the same two terms in the same order.
pub open spec fn contradict(c1: Constraint, pos1: bool, c2: Constraint, pos2: bool) -> bool {
    match (c1, c2) {
        (Constraint::Eq(a1, b1), Constraint::Eq(a2, b2)) => a1 == a2 && b1 == b2 && pos1 != pos2,
        (Constraint::Eq(a1, b1), Constraint::Diseq(a2, b2)) => a1 == a2 && b1 == b2 && pos1 && pos2,
        (Constraint::Diseq(a1, b1), Constraint::Eq(a2, b2)) => a1 == a2 && b1 == b2 && pos1 && pos2,
        _ => false,
    }
}

/// The two entries contradict each other.
pub open spec fn clash(list: Seq<Assigned>, i: int, j: int) -> bool {
    contradict(list[i].1, list[i].2, list[j].1, list[j].2)
}

/// The two entries are the first ones that contradict each other.
pub open spec fn first_clash(list: Seq<Assigned>, i: int, j: int) -> bool {
    &&& 0 <= i < j < list.len()
    &&& clash(list, i, j)
    &&& forall|p: int, q: int| 0 <= p < q < list.len() && (p < i || (p == i && q < j)) ==> !#[trigger] clash(list, p, q)
}

/// No two entries contradict each other.
pub open spec fn clash_free(list: Seq<Assigned>) -> bool {
    forall|p: int, q: int| 0 <= p < q < list.len() ==> !#[trigger] clash(list, p, q)
}

/// What is found in one list: the negated variables of the first contradiction.
pub open spec fn finds(list: Seq<Assigned>, r: Option<LitList>) -> bool {
    match r {
        None => clash_free(list),
        Some(c) => exists|i: int, j: int| #[trigger] first_clash(list, i, j) && c@ == seq![neg(list[i].0), neg(list[j].0)],
    }
}

/// Each list has been looked at, in order.
pub open spec fn finds_all(lists: Seq<Vec<Assigned>>, r: Seq<Option<LitList>>) -> bool {
    r.len() == lists.len() && forall|i: int| 0 <= i < lists.len() ==> finds(lists[i]@, #[trigger] r[i])
}

/// Two assigned constraints contradict each other.
fn are_contradictory(c1: &Constraint, pos1: bool, c2: &Constraint, pos2: bool) -> (r: bool)
    ensures
        r == contradict(*c1, pos1, *c2, pos2),
{
    match (*c1, *c2) {
        (Constraint::Eq(a1, b1), Constraint::Eq(a2, b2)) => a1 == a2 && b1 == b2 && pos1 != pos2,
        (Constraint::Eq(a1, b1), Constraint::Diseq(a2, b2)) => a1 == a2 && b1 == b2 && pos1 && pos2,
        (Constraint::Diseq(a1, b1), Constraint::Eq(a2, b2)) => a1 == a2 && b1 == b2 && pos1 && pos2,
        _ => false,
    }
}

/// The first contradiction in one list.
pub fn check_domain_contradictions(list: &Vec<Assigned>) -> (r: Option<LitList>)
    ensures
        finds(list@, r),
{
    let mut i: usize = 0;
    while i < list.len()
        invariant
            i <= list.len(),
            forall|p: int, q: int| 0 <= p < q < list.len() && p < i ==> !#[trigger] clash(list@, p, q),
        decreases list.len() - i,
    {
        let mut j: usize = i + 1;
        while j < list.len()
            invariant
                i < j <= list.len(),
                forall|p: int, q: int| 0 <= p < q < list.len() && (p < i || (p == i && q < j)) ==> !#[trigger] clash(list@, p, q),
            decreases list.len() - j,
        {
            let (v, c, p) = list[i];
            let (w, d, q) = list[j];
            if are_contradictory(&c, p, &d, q) {
                let mut conflict = LitList::new();
                conflict.push(Lit::neg(v));
                conflict.push(Lit::neg(w));
                assert(conflict@ =~= seq![neg(v), neg(w)]);
                assert(clash(list@, i as int, j as int));
                assert(first_clash(list@, i as int, j as int));
                return Some(conflict);
            }
            assert(!clash(list@, i as int, j as int));
            j = j + 1;
        }
        i = i + 1;
    }
    None
}

/// `par_iter`, `map` and `collect` of `rayon`: the function that looks for a contradiction is
/// called on each list, and the results stand in the order of the lists.
#[verifier::external_body]
fn check_lists(lists: &Vec<Vec<Assigned>>) -> (r: Vec<Option<LitList>>)
    ensures
        finds_all(lists@, r@),
{
    lists.par_iter().map(|list| check_domain_contradictions(list)).collect()
}

/// The first result that is a conflict.
fn first_conflict(results: Vec<Option<LitList>>) -> (r: ParallelTheoryResult)
    ensures
        r is AllSat <==> forall|i: int| 0 <= i < results@.len() ==> (#[trigger] results@[i]) is None,
        r matches ParallelTheoryResult::Conflict(c) ==> exists|i: int|
            0 <= i < results@.len() && (#[trigger] results@[i]) == Some(c) && forall|j: int|
                0 <= j < i ==> (#[trigger] results@[j]) is None,
{
    let mut rest = results;
    let ghost mut done: int = 0;
    while rest.len() > 0
        invariant
            0 <= done <= results@.len(),
            rest@ == results@.skip(done),
            forall|j: int| 0 <= j < done ==> (#[trigger] results@[j]) is None,
        decreases rest@.len(),
    {
        let head = rest.remove(0);
        assert(head == results@[done]);
        assert(rest@ =~= results@.skip(done + 1));
        if let Some(c) = head {
            return ParallelTheoryResult::Conflict(c);
        }
        proof {
            done = done + 1;
        }
    }
    ParallelTheoryResult::AllSat
}

/// The assigned constraints that are of equality, or those that are not.
pub open spec fn domain(list: Seq<Assigned>, equality: bool) -> Seq<Assigned> {
    list.filter(|e: Assigned| of_equality(e.1) == equality)
}

impl ParallelTheoryChecker {
    /// Looks for two constraints that contradict each other: those of equality first, then those of
    /// arithmetic.
    pub fn check_parallel(assertions: &Vec<Assigned>) -> (r: ParallelTheoryResult)
        ensures
            r is AllSat <==> clash_free(domain(assertions@, true)) && clash_free(domain(assertions@, false)),
            r matches ParallelTheoryResult::Conflict(c) ==> if clash_free(domain(assertions@, true)) {
                finds(domain(assertions@, false), Some(c))
            } else {
                finds(domain(assertions@, true), Some(c))
            },
    {
        let mut euf: Vec<Assigned> = Vec::new();
        let mut arith: Vec<Assigned> = Vec::new();
        let bv: Vec<Assigned> = Vec::new();
        let mut i: usize = 0;
        assert(assertions@.take(0) =~= Seq::<Assigned>::empty());
        proof {
            reveal(Seq::filter);
        }
        while i < assertions.len()
            invariant
                i <= assertions.len(),
                euf@ == domain(assertions@.take(i as int), true),
                arith@ == domain(assertions@.take(i as int), false),
            decreases assertions.len() - i,
        {
            let e = assertions[i];
            proof {
                reveal(Seq::filter);
                assert(assertions@.take(i + 1).drop_last() =~= assertions@.take(i as int));
                assert(assertions@.take(i + 1).last() == e);
            }
            match e.1 {
                Constraint::Eq(_, _) | Constraint::Diseq(_, _) | Constraint::BoolApp(_) | Constraint::BoolValue { .. } => {
                    euf.push(e);
                },
                Constraint::Lt(_, _) | Constraint::Le(_, _) | Constraint::Gt(_, _) | Constraint::Ge(_, _) => {
                    arith.push(e);
                },
            }
            i = i + 1;
        }
        assert(assertions@.take(i as int) =~= assertions@);
        let ghost a = euf@;
        let ghost b = arith@;
        let mut lists: Vec<Vec<Assigned>> = Vec::new();
        lists.push(euf);
        lists.push(arith);
        lists.push(bv);
        let results = check_lists(&lists);
        proof {
            assert(finds(lists@[0]@, results@[0]));
            assert(finds(lists@[1]@, results@[1]));
            assert(finds(lists@[2]@, results@[2]));
            lemma_found_clashes(a, results@[0]);
            lemma_found_clashes(b, results@[1]);
            lemma_found_clashes(lists@[2]@, results@[2]);
        }
        first_conflict(results)
    }
}

/// A contradiction that was found is one.
proof fn lemma_found_clashes(list: Seq<Assigned>, r: Option<LitList>)
    requires
        finds(list, r),
    ensures
        r is Some ==> !clash_free(list),
        list.len() == 0 ==> r is None,
{
    if let Some(c) = r {
        let (i, j) = choose|i: int, j: int| #[trigger] first_clash(list, i, j) && c@ == seq![neg(list[i].0), neg(list[j].0)];
        assert(clash(list, i, j));
    }
}

/// An assigned constraint of equality holds.
pub open spec fn equality_holds(v: Valuation, c: Constraint, positive: bool) -> bool {
    match c {
        Constraint::Eq(a, b) => (v(a) == v(b)) == positive,
        Constraint::Diseq(a, b) => (v(a) != v(b)) == positive,
        _ => true,
    }
}

/// No values of the terms meet two constraints that contradict each other.
pub proof fn law_contradiction_is_unmeetable(v: Valuation, c1: Constraint, pos1: bool, c2: Constraint, pos2: bool)
    requires
        contradict(c1, pos1, c2, pos2),
    ensures
        !(equality_holds(v, c1, pos1) && equality_holds(v, c2, pos2)),
{
}

/// Two equalities of the same terms, or an equality and a disequality of them that both are to hold,
/// contradict each other exactly if no values of the terms meet both.
pub proof fn law_unmeetable_equalities_contradict(a: TermId, b: TermId, pos1: bool, pos2: bool)
    requires
        a != b,
    ensures
        contradict(Constraint::Eq(a, b), pos1, Constraint::Eq(a, b), pos2) <==> forall|v: Valuation|
            !(#[trigger] equality_holds(v, Constraint::Eq(a, b), pos1) && equality_holds(v, Constraint::Eq(a, b), pos2)),
        pos1 && pos2 ==> contradict(Constraint::Eq(a, b), pos1, Constraint::Diseq(a, b), pos2),
        pos1 && pos2 ==> contradict(Constraint::Diseq(a, b), pos1, Constraint::Eq(a, b), pos2),
{
    let same = |t: TermId| 0real;
    let other = |t: TermId|
        if t == a {
            1real
        } else {
            0real
        };
    assert(equality_holds(same, Constraint::Eq(a, b), true));
    assert(equality_holds(other, Constraint::Eq(a, b), false));
    if pos1 == pos2 {
        assert(equality_holds(if pos1 { same } else { other }, Constraint::Eq(a, b), pos1));
    }
}

/// What is found comes of a contradiction: the clause negates two assigned variables whose constraints
/// no values meet together.
pub proof fn law_conflict_negates_a_contradiction(list: Seq<Assigned>, c: LitList, v: Valuation)
    requires
        finds(list, Some(c)),
    ensures
        exists|i: int, j: int|
            0 <= i < j < list.len() && c@ == #[trigger] seq![neg(list[i].0), neg(list[j].0)] && !(equality_holds(v, list[i].1, list[i].2)
                && equality_holds(v, list[j].1, list[j].2)),
{
    let (i, j) = choose|i: int, j: int| #[trigger] first_clash(list, i, j) && c@ == seq![neg(list[i].0), neg(list[j].0)];
    law_contradiction_is_unmeetable(v, list[i].1, list[i].2, list[j].1, list[j].2);
}

/// An entry that is kept has its place in what is kept of a list.
proof fn lemma_kept(list: Seq<Assigned>, keep: spec_fn(Assigned) -> bool, i: int) -> (p: int)
    requires
        0 <= i < list.len(),
        keep(list[i]),
    ensures
        0 <= p < list.filter(keep).len(),
        list.filter(keep)[p] == list[i],
    decreases list.len(),
{
    reveal(Seq::filter);
    let rest = list.drop_last().filter(keep);
    if i == list.len() - 1 {
        rest.len() as int
    } else {
        assert(list.drop_last()[i] == list[i]);
        lemma_kept(list.drop_last(), keep, i)
    }
}

/// Entries that are kept stay in their order.
proof fn lemma_kept_in_order(list: Seq<Assigned>, keep: spec_fn(Assigned) -> bool, i: int, j: int) -> (r: (int, int))
    requires
        0 <= i < j < list.len(),
        keep(list[i]),
        keep(list[j]),
    ensures
        0 <= r.0 < r.1 < list.filter(keep).len(),
        list.filter(keep)[r.0] == list[i],
        list.filter(keep)[r.1] == list[j],
    decreases list.len(),
{
    reveal(Seq::filter);
    let rest = list.drop_last().filter(keep);
    assert(list.drop_last()[i] == list[i]);
    if j == list.len() - 1 {
        (lemma_kept(list.drop_last(), keep, i), rest.len() as int)
    } else {
        assert(list.drop_last()[j] == list[j]);
        lemma_kept_in_order(list.drop_last(), keep, i, j)
    }
}

/// No contradiction is passed over, wherever its two entries stand: an equality that is assigned true
/// and false, or an equality and a disequality of the same terms that are both assigned true.
pub proof fn law_contradictions_are_found(list: Seq<Assigned>, i: int, j: int, a: TermId, b: TermId)
    requires
        0 <= i < j < list.len(),
        ({
            ||| list[i].1 == Constraint::Eq(a, b) && list[j].1 == Constraint::Eq(a, b) && list[i].2 != list[j].2
            ||| list[i].1 == Constraint::Eq(a, b) && list[j].1 == Constraint::Diseq(a, b) && list[i].2 && list[j].2
            ||| list[i].1 == Constraint::Diseq(a, b) && list[j].1 == Constraint::Eq(a, b) && list[i].2 && list[j].2
        }),
    ensures
        !clash_free(domain(list, true)),
{
    let keep = |e: Assigned| of_equality(e.1) == true;
    let (p, q) = lemma_kept_in_order(list, keep, i, j);
    assert(clash(domain(list, true), p, q));
}

} // verus!
