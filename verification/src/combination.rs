//! The combination of the theories of equality and arithmetic, as a sequence of questions: which
//! terms have fixed values, what joining them with their constants leads to, and whether terms of
//! one class have one value.
use crate::combine::disagree;
use crate::combine::first_dispute;
use crate::combine::with_missing;
use crate::combine::SharedTerm;
use crate::maps::set_elements;
use crate::rational::Rat;
use crate::small::LitList;
use crate::term::TermId;
use crate::term::TermManager;
use crate::theory::conflict_clause;
use crate::theory::constant_of;
use crate::theory::TheoryManager;
use vstd::prelude::*;

verus! {

/// What the last question of a combination was.
#[derive(Debug)]
pub enum Asked {
    /// Whether arithmetic fixes the value of the next term.
    Fixed,
    /// Whether the next term is joined with the constant; arithmetic fixed its value for the reasons
    /// given.
    Joined { constant: TermId, reasons: Vec<TermId> },
    /// To join the next term with its constant.
    Merge,
    /// Whether the theory of equality has a conflict.
    Conflict,
    /// Whether the equalities make a conflict in arithmetic.
    Sums,
    /// The classes and values of the shared terms.
    Values,
}

/// How far a combination has come.
#[derive(Debug)]
pub struct Combination {
    /// The terms whose values may be fixed.
    pub terms: Vec<TermId>,
    /// The terms that both theories may know.
    pub shared: Vec<TermId>,
    pub round: usize,
    /// The position of the next term of this round.
    pub next: usize,
    /// A term was joined in this round.
    pub progress: bool,
    /// A term was joined in any round.
    pub propagated: bool,
    pub asked: Asked,
}

/// The answer to the last question.
#[derive(Debug)]
pub enum CombineReply {
    /// The fixed value of the term and the reasons for it, if it has one.
    Fixed(Option<(Rat, Vec<TermId>)>),
    Joined(bool),
    Merged,
    Conflict(Option<Vec<TermId>>),
    Sums(Option<LitList>),
    /// The classes and values of the shared terms, in their order.
    Values(Vec<SharedTerm>),
}

/// What a combination does next.
#[derive(Debug)]
pub enum CombineStep {
    AskFixed(TermId),
    AskJoined { term: TermId, constant: TermId },
    Merge { term: TermId, constant: TermId },
    AskConflict,
    AskSums,
    AskValues,
    /// It is over, with a conflict or without.
    Done(Option<LitList>),
}

impl Combination {
    /// There is a next term while terms are asked about, and no more than one round more than there
    /// are terms.
    pub open spec fn wf(&self) -> bool {
        &&& (self.asked is Fixed || self.asked is Joined || self.asked is Merge) ==> self.next < self.terms@.len()
        &&& self.round <= self.terms@.len()
    }

    /// The answer fits the question.
    pub open spec fn expects(&self, reply: CombineReply) -> bool {
        match self.asked {
            Asked::Fixed => reply is Fixed && (reply matches CombineReply::Fixed(Some((v, reasons))) ==> v.wf()),
            Asked::Joined { constant, reasons } => reply is Joined,
            Asked::Merge => reply is Merged,
            Asked::Conflict => reply is Conflict,
            Asked::Sums => reply is Sums,
            Asked::Values => reply matches CombineReply::Values(values) && {
                &&& values@.len() == self.shared@.len()
                &&& forall|i: int|
                    0 <= i < values@.len() ==> (#[trigger] values@[i]).term == self.shared@[i] && (values@[i].value matches Some(q)
                        ==> q.wf())
            },
        }
    }
}

/// The next question comes from the state `st` and leads to `later`: about the next term; at the end
/// of a round that joined terms about the first one again, in at most one round more than there are
/// terms; after that, about conflicts if any term was joined, and about values otherwise.
pub open spec fn moves_on(st: Combination, later: Combination, step: CombineStep) -> bool {
    let n = st.terms@.len();
    if st.next < n {
        later == (Combination { asked: Asked::Fixed, ..st }) && step == CombineStep::AskFixed(st.terms@[st.next as int])
    } else if st.progress && st.round < n {
        later == (Combination { asked: Asked::Fixed, round: (st.round + 1) as usize, next: 0, progress: false, ..st }) && step
            == CombineStep::AskFixed(st.terms@[0])
    } else if st.propagated {
        later == (Combination { asked: Asked::Conflict, ..st }) && step is AskConflict
    } else {
        later == (Combination { asked: Asked::Values, ..st }) && step is AskValues
    }
}

impl TheoryManager {
    /// Starts a combination: no reasons are kept, and the introduced terms are asked about.
    pub fn combine_begin(&mut self) -> (r: (Combination, CombineStep))
        ensures
            r.0.wf(),
            r.0.terms@.no_duplicates(),
            forall|t: usize| #[trigger] r.0.terms@.contains(t) <==> old(self).euf.interned@.contains(t),
            r.0.shared@.no_duplicates(),
            forall|t: usize| #[trigger] r.0.shared@.contains(t) <==> old(self).term_to_var@.contains_key(t),
            moves_on(
                Combination { round: 0, next: 0, progress: false, propagated: false, asked: Asked::Fixed, ..r.0 },
                r.0,
                r.1,
            ),
            final(self).pending_arith_eq_reasons@.len() == 0,
            (TheoryManager { pending_arith_eq_reasons: old(self).pending_arith_eq_reasons, ..*final(self) }) == *old(self),
    {
        let shared = self.shared_terms();
        let terms = set_elements(&self.euf.interned);
        let mut st = Combination {
            terms,
            shared,
            round: 0,
            next: 0,
            progress: false,
            propagated: false,
            asked: Asked::Fixed,
        };
        let step = next_question(&mut st);
        (st, step)
    }

    /// Takes the answer to the last question of a combination and asks the next one. A fixed value
    /// that is no introduced integer literal, or that of the term itself, is passed over. A term
    /// that is not joined with its constant is, and the reasons for its value are kept. A conflict
    /// names them. Without a conflict, the first two terms that are in one class but have different
    /// values make one.
    pub fn combine_step(&mut self, m: &TermManager, st: &mut Combination, reply: CombineReply) -> (r: CombineStep)
        requires
            old(self).wf(m),
            old(st).wf(),
            old(st).expects(reply),
        ensures
            final(st).wf(),
            !(old(st).asked is Joined && reply == CombineReply::Joined(false)) ==> *final(self) == *old(self),
            (TheoryManager { pending_arith_eq_reasons: old(self).pending_arith_eq_reasons, ..*final(self) }) == *old(self),
            final(st).terms == old(st).terms && final(st).shared == old(st).shared,
            match reply {
                CombineReply::Fixed(fixed) => {
                    let t = old(st).terms@[old(st).next as int];
                    let constant = match fixed {
                        Some((v, reasons)) => constant_of(old(self).euf.ints@, v),
                        None => None,
                    };
                    if constant is Some && constant != Some(t) {
                        &&& r == (CombineStep::AskJoined { term: t, constant: constant->0 })
                        &&& *final(st) == (Combination {
                            asked: Asked::Joined { constant: constant->0, reasons: (fixed->0).1 },
                            ..*old(st)
                        })
                    } else {
                        moves_on(Combination { next: (old(st).next + 1) as usize, ..*old(st) }, *final(st), r)
                    }
                },
                CombineReply::Joined(joined) => if joined {
                    moves_on(Combination { next: (old(st).next + 1) as usize, ..*old(st) }, *final(st), r)
                } else {
                    &&& r == (CombineStep::Merge { term: old(st).terms@[old(st).next as int], constant: old(st).asked->constant })
                    &&& *final(st) == (Combination { asked: Asked::Merge, ..*old(st) })
                    &&& final(self).pending_arith_eq_reasons@ == old(self).pending_arith_eq_reasons@ + old(st).asked->reasons@
                },
                CombineReply::Merged => moves_on(
                    Combination { next: (old(st).next + 1) as usize, progress: true, propagated: true, ..*old(st) },
                    *final(st),
                    r,
                ),
                CombineReply::Conflict(Some(conflict)) => {
                    let why = old(self).pending_arith_eq_reasons@;
                    let terms = with_missing(conflict@, why, why.len() as int);
                    r matches CombineStep::Done(Some(c)) && c@ == conflict_clause(
                        old(self).term_to_var@,
                        old(self).assigned_phase@,
                        terms,
                        terms.len() as int,
                    )
                },
                CombineReply::Conflict(None) => r is AskSums && *final(st) == (Combination { asked: Asked::Sums, ..*old(st) }),
                CombineReply::Sums(Some(lits)) => {
                    let why = old(self).pending_arith_eq_reasons@;
                    let fixed = conflict_clause(old(self).term_to_var@, old(self).assigned_phase@, why, why.len() as int);
                    r matches CombineStep::Done(Some(c)) && c@ == with_missing(lits@, fixed, fixed.len() as int)
                },
                CombineReply::Sums(None) => r is AskValues && *final(st) == (Combination { asked: Asked::Values, ..*old(st) }),
                CombineReply::Values(values) => {
                    &&& r == CombineStep::Done(None) ==> forall|i: int, j: int|
                        0 <= i < j < values@.len() ==> !#[trigger] disagree(values@[i], values@[j])
                    &&& r != CombineStep::Done(None) ==> exists|i: int, j: int| #[trigger]
                        first_dispute(values@, i, j) && (r matches CombineStep::Done(Some(c)) && c@ == conflict_clause(
                            old(self).term_to_var@,
                            old(self).assigned_phase@,
                            seq![values@[i].term, values@[j].term],
                            2,
                        ))
                },
            },
    {
        let n: usize = st.terms.len();
        assert(st.next < n || st.asked is Conflict || st.asked is Sums || st.asked is Values);
        match reply {
            CombineReply::Fixed(fixed) => {
                if let Some((value, reasons)) = fixed {
                    if let Some(constant) = self.entailed_constant(m, value) {
                        let term: usize = st.terms[st.next];
                        if constant != term {
                            st.asked = Asked::Joined { constant, reasons };
                            return CombineStep::AskJoined { term, constant };
                        }
                    }
                }
                st.next = st.next + 1;
                next_question(st)
            },
            CombineReply::Joined(joined) => {
                if !joined {
                    let mut asked = Asked::Merge;
                    std::mem::swap(&mut asked, &mut st.asked);
                    if let Asked::Joined { constant, reasons } = asked {
                        self.note_merge(reasons);
                        return CombineStep::Merge { term: st.terms[st.next], constant };
                    }
                }
                st.next = st.next + 1;
                next_question(st)
            },
            CombineReply::Merged => {
                st.next = st.next + 1;
                st.progress = true;
                st.propagated = true;
                next_question(st)
            },
            CombineReply::Conflict(Some(conflict)) => CombineStep::Done(Some(self.fixed_values_conflict(conflict))),
            CombineReply::Conflict(None) => {
                st.asked = Asked::Sums;
                CombineStep::AskSums
            },
            CombineReply::Sums(Some(lits)) => CombineStep::Done(Some(self.fixed_sums_conflict(lits))),
            CombineReply::Sums(None) => {
                st.asked = Asked::Values;
                CombineStep::AskValues
            },
            CombineReply::Values(values) => CombineStep::Done(self.disagreement(&values)),
        }
    }
}

/// Asks the next question.
fn next_question(st: &mut Combination) -> (r: CombineStep)
    requires
        old(st).next <= old(st).terms@.len(),
        old(st).round <= old(st).terms@.len(),
    ensures
        final(st).wf(),
        moves_on(*old(st), *final(st), r),
{
    if st.next < st.terms.len() {
        st.asked = Asked::Fixed;
        return CombineStep::AskFixed(st.terms[st.next]);
    }
    if st.progress && st.round < st.terms.len() {
        st.round = st.round + 1;
        st.next = 0;
        st.progress = false;
        st.asked = Asked::Fixed;
        return CombineStep::AskFixed(st.terms[0]);
    }
    if st.propagated {
        st.asked = Asked::Conflict;
        CombineStep::AskConflict
    } else {
        st.asked = Asked::Values;
        CombineStep::AskValues
    }
}

/// Every term of a round is asked about in turn; a round that joined terms is followed by another one,
/// but by no more of them than there are terms; and at the end there is a question about conflicts
/// exactly if terms were joined. Nothing that was found is forgotten on the way.
pub proof fn law_questions_come_in_turn(st: Combination, later: Combination, step: CombineStep)
    requires
        moves_on(st, later, step),
    ensures
        st.next < st.terms@.len() ==> step == CombineStep::AskFixed(st.terms@[st.next as int]) && later.next == st.next && later.round
            == st.round && later.progress == st.progress,
        st.next >= st.terms@.len() && st.progress && st.round < st.terms@.len() ==> step == CombineStep::AskFixed(st.terms@[0]) && later.next
            == 0 && later.round == st.round + 1 && !later.progress,
        st.next >= st.terms@.len() && !(st.progress && st.round < st.terms@.len()) ==> (if st.propagated {
            step is AskConflict
        } else {
            step is AskValues
        }),
        later.terms == st.terms && later.shared == st.shared && later.propagated == st.propagated,
{
}

} // verus!
