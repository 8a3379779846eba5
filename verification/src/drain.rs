//! The steps of the theories at a fixpoint of the search: waiting propagations first, and then the
//! pending assignments, one after the other.
use crate::cnf::Lit;
use crate::cnf::Var;
use crate::config::Statistics;
use crate::encoder::Constraint;
use crate::fd::TheoryStep;
use crate::small::LitList;
use crate::term::TermManager;
use crate::theory::drained;
use crate::theory::last_open;
use crate::theory::opposites;
use crate::theory::theory_reason_from_clause;
use crate::theory::Plan;
use crate::theory::TheoryManager;
use vstd::prelude::*;

verus! {

/// Pending assignments that are being handed to the theories, and the position of the next one.
#[derive(Debug)]
pub struct Drain {
    pub queue: Vec<(Var, Constraint, bool)>,
    pub next: usize,
}

/// How the theories took what they were told last.
#[derive(Debug)]
pub enum Taken {
    /// Without a conflict; also at the start, where they were told nothing.
    Consistent,
    /// The assignment falsifies the clause.
    Conflict(LitList),
    /// They force the literals, for the reasons given.
    Propagated(Vec<(Lit, LitList)>),
}

/// The propagations that come with it.
pub open spec fn forced(taken: Taken) -> Seq<(Lit, LitList)> {
    match taken {
        Taken::Propagated(props) => props@,
        _ => Seq::empty(),
    }
}

/// What happens next to pending assignments.
#[derive(Debug)]
pub enum DrainStep {
    /// Tell the theories this, and hand back how they took it.
    Carry(Plan),
    /// It is over, with a conflict or without.
    Done(Option<LitList>),
}

/// What the theories do at a fixpoint.
#[derive(Debug)]
pub enum Fixpoint {
    /// Tell the search.
    Told(TheoryStep),
    /// Hand out the pending assignments.
    Drain(Drain),
}

impl TheoryManager {
    /// The first step at a fixpoint of the search: the latest waiting propagation, if one is still
    /// open. Only where there is none are the pending assignments taken to be handed out.
    pub fn final_check(&mut self) -> (r: Fixpoint)
        ensures
            ({
                let list = old(self).pending_theory_propagations@;
                let i = last_open(list, old(self).assigned_phase@, list.len() as int);
                if i >= 0 {
                    &&& r matches Fixpoint::Told(TheoryStep::Propagate { lit, explanation }) && lit == list[i].0 && explanation@
                        == opposites(list[i].1@)
                    &&& final(self).pending_theory_propagations@ == list.take(i)
                    &&& final(self).pending_assignments == old(self).pending_assignments
                } else {
                    &&& r matches Fixpoint::Drain(d) && d.next == 0 && d.queue@ == drained(
                        old(self).pending_assignments@,
                        old(self).var_to_constraint@,
                        old(self).pending_assignments@.len() as int,
                    )
                    &&& final(self).pending_theory_propagations@.len() == 0
                    &&& final(self).pending_assignments@.len() == 0
                }
            }),
            *final(self) == (TheoryManager { pending_theory_propagations: final(self).pending_theory_propagations, pending_assignments: final(self).pending_assignments, ..*old(self) }),
    {
        match self.next_emittable_propagation() {
            Some((lit, reason_lits)) => Fixpoint::Told(
                TheoryStep::Propagate { lit, explanation: theory_reason_from_clause(&reason_lits) },
            ),
            None => Fixpoint::Drain(Drain { queue: self.drain_queue(), next: 0 }),
        }
    }

    /// The next step with pending assignments, given how the theories took the last one: a conflict
    /// ends it, propagations wait for the search, and the next assignment is told.
    pub fn drain_next(&mut self, m: &TermManager, d: &mut Drain, taken: Taken) -> (r: DrainStep)
        requires
            m.wf(),
            old(self).wf(m),
            old(self).has_room(),
        ensures
            final(self).wf(m),
            final(d).queue == old(d).queue,
            taken matches Taken::Conflict(c) ==> r == DrainStep::Done(Some(c)) && *final(self) == *old(self) && final(d).next
                == old(d).next,
            !(taken is Conflict) ==> {
                &&& final(self).pending_theory_propagations@ == old(self).pending_theory_propagations@ + forced(taken)
                &&& if old(d).next >= old(d).queue@.len() {
                    &&& r == DrainStep::Done(None)
                    &&& final(d).next == old(d).next
                    &&& *final(self) == (TheoryManager { pending_theory_propagations: final(self).pending_theory_propagations, ..*old(self) })
                } else {
                    let (var, c, positive) = old(d).queue@[old(d).next as int];
                    &&& final(d).next == old(d).next + 1
                    &&& final(self).statistics == (Statistics {
                        theory_propagations: (old(self).statistics.theory_propagations + 1) as u64,
                        ..old(self).statistics
                    })
                    &&& r matches DrainStep::Carry(plan) && old(self).planned(m, var, c, positive, final(self), plan)
                    &&& *final(self) == (TheoryManager {
                        pending_theory_propagations: final(self).pending_theory_propagations,
                        statistics: final(self).statistics,
                        euf: final(self).euf,
                        bv: final(self).bv,
                        ..*old(self)
                    })
                }
            },
    {
        match taken {
            Taken::Conflict(c) => {
                return DrainStep::Done(Some(c));
            },
            Taken::Propagated(props) => {
                self.buffer_propagations(props);
            },
            Taken::Consistent => {
                assert(self.pending_theory_propagations@ =~= old(self).pending_theory_propagations@ + forced(taken));
            },
        }
        if d.next >= d.queue.len() {
            return DrainStep::Done(None);
        }
        let (var, c, positive) = d.queue[d.next];
        d.next = d.next + 1;
        DrainStep::Carry(self.drain_step(m, var, c, positive))
    }
}

} // verus!
