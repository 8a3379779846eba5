//! Proofs of unsatisfiability.
use crate::cnf::Lit;
use crate::cnf::Var;
use crate::term::TermId;
use crate::text::decimal;
use crate::text::decimal_text;
use crate::text::join_text;
use vstd::prelude::*;

verus! {

/// One step of a proof.
#[derive(Debug)]
pub enum ProofStep {
    /// A clause of the formula.
    Input { index: u32, clause: Vec<Lit> },
    /// A clause that follows from two others, in which the pivot stands with opposite signs.
    Resolution { index: u32, left: u32, right: u32, pivot: Var, clause: Vec<Lit> },
    /// A clause that a theory vouches for.
    TheoryLemma { index: u32, theory: String, clause: Vec<Lit>, explanation: Vec<TermId> },
}

/// A proof of unsatisfiability: its steps, and which of them is the empty clause.
#[derive(Debug)]
pub struct Proof {
    pub steps: Vec<ProofStep>,
    pub empty_clause_index: Option<u32>,
}

/// The texts of a step's pivot and clause.
#[derive(Debug)]
pub struct StepText {
    pub pivot: String,
    pub clause: String,
}

/// A step in text.
pub open spec fn step_text(s: ProofStep, t: StepText) -> Seq<char> {
    match s {
        ProofStep::Input { index, clause } => "  (input "@ + decimal(index as nat) + " "@ + t.clause@ + ")\n"@,
        ProofStep::Resolution { index, left, right, pivot, clause } => "  (resolution "@ + decimal(index as nat) + " "@ + decimal(
            left as nat,
        ) + " "@ + decimal(right as nat) + " "@ + t.pivot@ + " "@ + t.clause@ + ")\n"@,
        ProofStep::TheoryLemma { index, theory, clause, explanation } => "  (theory-lemma "@ + decimal(index as nat) + " "@ + theory@ + " "@
            + t.clause@ + ")\n"@,
    }
}

/// The first `k` steps in text, behind the head.
pub open spec fn steps_text(steps: Seq<ProofStep>, texts: Seq<StepText>, k: int) -> Seq<char>
    decreases k,
{
    if k <= 0 {
        "(proof\n"@
    } else {
        steps_text(steps, texts, k - 1) + step_text(steps[k - 1], texts[k - 1])
    }
}

/// A proof in text.
pub open spec fn proof_text(p: &Proof, texts: Seq<StepText>) -> Seq<char> {
    let body = steps_text(p.steps@, texts, p.steps@.len() as int);
    match p.empty_clause_index {
        Some(i) => body + ("  (empty-clause "@ + decimal(i as nat) + ")\n"@) + ")\n"@,
        None => body + ")\n"@,
    }
}

/// Two texts, one behind the other.
fn and_text(a: String, b: &str) -> (r: String)
    ensures
        r@ == a@ + b@,
{
    join_text(a.as_str(), b)
}

/// Two texts and a number behind the first.
fn and_number(a: String, n: u32) -> (r: String)
    ensures
        r@ == a@ + decimal(n as nat),
{
    join_text(a.as_str(), decimal_text(n as u64).as_str())
}

impl Proof {
    /// A proof without steps.
    pub fn new() -> (p: Proof)
        ensures
            p.steps@.len() == 0,
            p.empty_clause_index is None,
    {
        Proof { steps: Vec::new(), empty_clause_index: None }
    }

    /// Adds a step.
    pub fn add_step(&mut self, step: ProofStep)
        ensures
            final(self).steps@ == old(self).steps@.push(step),
            final(self).empty_clause_index == old(self).empty_clause_index,
    {
        self.steps.push(step);
    }

    /// Notes which step is the empty clause.
    pub fn set_empty_clause(&mut self, index: u32)
        ensures
            final(self).empty_clause_index == Some(index),
            final(self).steps@ == old(self).steps@,
    {
        self.empty_clause_index = Some(index);
    }

    /// Whether the empty clause is among the steps.
    pub fn is_complete(&self) -> (r: bool)
        ensures
            r == self.empty_clause_index is Some,
    {
        self.empty_clause_index.is_some()
    }

    /// The number of steps.
    pub fn len(&self) -> (n: usize)
        ensures
            n == self.steps@.len(),
    {
        self.steps.len()
    }

    /// Whether there is no step.
    pub fn is_empty(&self) -> (r: bool)
        ensures
            r == (self.steps@.len() == 0),
    {
        self.steps.len() == 0
    }

    /// The steps in order.
    pub fn steps(&self) -> (r: &Vec<ProofStep>)
        ensures
            r@ == self.steps@,
    {
        &self.steps
    }

    /// The proof in text, given the texts of the pivots and clauses of its steps.
    pub fn format(&self, texts: &Vec<StepText>) -> (r: String)
        requires
            texts@.len() == self.steps@.len(),
        ensures
            r@ == proof_text(self, texts@),
    {
        let mut r = join_text("(proof\n", "");
        proof {
            reveal_strlit("");
            assert(r@ =~= "(proof\n"@);
        }
        let mut i: usize = 0;
        while i < self.steps.len()
            invariant
                i <= self.steps.len(),
                texts@.len() == self.steps@.len(),
                r@ == steps_text(self.steps@, texts@, i as int),
            decreases self.steps.len() - i,
        {
            let line = match &self.steps[i] {
                ProofStep::Input { index, clause: _ } => {
                    let t = join_text("  (input ", decimal_text(*index as u64).as_str());
                    and_text(and_text(and_text(t, " "), texts[i].clause.as_str()), ")\n")
                },
                ProofStep::Resolution { index, left, right, pivot: _, clause: _ } => {
                    let t = join_text("  (resolution ", decimal_text(*index as u64).as_str());
                    let t = and_number(and_text(t, " "), *left);
                    let t = and_number(and_text(t, " "), *right);
                    let t = and_text(and_text(t, " "), texts[i].pivot.as_str());
                    and_text(and_text(and_text(t, " "), texts[i].clause.as_str()), ")\n")
                },
                ProofStep::TheoryLemma { index, theory, clause: _, explanation: _ } => {
                    let t = join_text("  (theory-lemma ", decimal_text(*index as u64).as_str());
                    let t = and_text(and_text(t, " "), theory.as_str());
                    and_text(and_text(and_text(t, " "), texts[i].clause.as_str()), ")\n")
                },
            };
            assert(line@ == step_text(self.steps@[i as int], texts@[i as int]));
            r = and_text(r, line.as_str());
            i = i + 1;
        }
        if let Some(index) = self.empty_clause_index {
            let t = join_text("  (empty-clause ", decimal_text(index as u64).as_str());
            r = and_text(r, and_text(t, ")\n").as_str());
        }
        and_text(r, ")\n")
    }
}

impl Default for Proof {
    fn default() -> (p: Proof)
        ensures
            p.steps@.len() == 0,
            p.empty_clause_index is None,
    {
        Proof::new()
    }
}

} // verus!
