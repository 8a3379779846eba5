//! The solver: its assertions and contexts, and the decisions that a check takes.
use crate::assertion::assertion_quantified;
use crate::assertion::asserts;
use crate::assertion::backed;
use crate::assertion::encode_assertion;
use crate::assertion::is_split;
use crate::assertion::lemma_same_marks;
use crate::assertion::marked;
use crate::axioms::is_diseq;
use crate::axioms::leads;
use crate::axioms::lemma_extended_twice;
use crate::blast::BvPlan;
use crate::config::no_counts;
use crate::config::SolverConfig;
use crate::config::Statistics;
use crate::context::cut;
use crate::context::lemma_reverts;
use crate::context::lemma_reverts_self;
use crate::context::undo_records;
use crate::context::Mark;
use crate::context::Records;
use crate::context::RecordsView;
use crate::dt_facts::ctor_of;
use crate::dt_facts::is_ctor;
use crate::dt_facts::is_dt_variable;
use crate::encode::lemma_linked_extends;
use crate::encode::linked;
use crate::encoder::lemma_advances_self;
use crate::encoder::undo_to;
use crate::encoder::Encoder;
use crate::fp::FpConstraintData;
use crate::euf::lemma_plan_cut;
use crate::euf::lemma_plan_extends;
use crate::euf::EufPlan;
use crate::ites::eliminate_term_ites;
use crate::ites::innermost;
use crate::ites::is_lowered;
use crate::ites::Lowered;
use crate::maps::map_new;
use crate::model::Model;
use crate::resolution::Proof;
use crate::term::Op;
use crate::term::Symbol;
use crate::term::TermId;
use crate::term::TermManager;
use crate::track::lemma_extended_self;
use crate::unsat::NamedAssertion;
use crate::unsat::UnsatCore;
use rustc_hash::FxHashMap;
use vstd::prelude::*;

verus! {

/// Where a context began.
#[derive(Clone, Copy, Debug, PartialEq, Eq, Structural)]
pub struct ContextState {
    pub num_assertions: usize,
    pub has_false_assertion: bool,
    pub trail_position: usize,
    /// The position on the trail of the encoding.
    pub encoding_position: usize,
    pub num_clauses: usize,
    pub num_nodes: usize,
}

/// The solver.
#[derive(Debug)]
pub struct Solver {
    pub config: SolverConfig,
    pub encoder: Encoder,
    pub records: Records,
    /// The terms that the theory of equality knows.
    pub euf: EufPlan,
    /// The terms that the theory of bit vectors knows.
    pub bv: BvPlan,
    pub logic: Option<String>,
    pub model: Option<Model>,
    pub unsat_core: Option<UnsatCore>,
    /// The last check found the assertions unsatisfiable.
    pub refuted: bool,
    pub context_stack: Vec<ContextState>,
    pub produce_unsat_cores: bool,
    pub theory_aware_branching: bool,
    pub proof_steps: Option<Proof>,
    pub statistics: Statistics,
    /// The number of the next constant for a conditional.
    pub term_ite_counter: u64,
    /// What is known of the floating-point terms of assertions, until there is a new one.
    pub fp_constraint_cache: FxHashMap<usize, FpConstraintData>,
}

/// What became of an assertion.
#[derive(Clone, Copy, Debug, PartialEq, Eq, Structural)]
pub enum Asserted {
    /// It is the term `true`.
    True,
    /// It is the term `false`.
    False,
    /// It simplifies to `true`.
    SimplifiedTrue,
    /// It simplifies to `false`.
    SimplifiedFalse,
    /// It gives a variable another constructor than an earlier assertion.
    ConstructorClash,
    /// The formula has been encoded.
    Encoded(TermId),
}

/// The variable and the constructor of an equality between a variable and a constructor
/// application.
pub open spec fn given_constructor(m: &TermManager, t: TermId) -> Option<(TermId, Symbol)> {
    if m.op(t) != Op::Eq {
        None
    } else {
        let a = m.arg(t, 0);
        let b = m.arg(t, 1);
        if is_dt_variable(m, a) && is_ctor(m, b) {
            Some((a, ctor_of(m, b)))
        } else if is_dt_variable(m, b) && is_ctor(m, a) {
            Some((b, ctor_of(m, a)))
        } else {
            None
        }
    }
}

/// The variable and the constructor of an equality between a variable and a constructor
/// application.
fn extract_dt_var_constructor(m: &TermManager, t: TermId) -> (r: Option<(TermId, Symbol)>)
    requires
        m.wf(),
        m.has(t),
    ensures
        r == given_constructor(m, t),
{
    assert(m.terms@[t as int].fits(t as int));
    match m.terms[t].op {
        Op::Eq => {
            let a: usize = m.terms[t].args[0];
            let b: usize = m.terms[t].args[1];
            match (m.terms[a].op, m.terms[b].op) {
                (Op::Var(_), Op::DtConstructor(k)) => Some((a, k)),
                (Op::DtConstructor(k), Op::Var(_)) => Some((b, k)),
                _ => None,
            }
        },
        _ => None,
    }
}

/// The records with the name of an assertion noted, if names are wanted.
pub open spec fn noted(c: RecordsView, produce: bool, a: NamedAssertion) -> RecordsView {
    if produce {
        RecordsView { named: c.named.push(a), ..c }
    } else {
        c
    }
}

impl Solver {
    /// The encoding and the store belong together, and the store holds every assertion and every
    /// term that theories know.
    pub open spec fn wf(&self, m: &TermManager) -> bool {
        &&& linked(m, &self.encoder)
        &&& self.euf.wf(m)
        &&& self.euf.within(m)
        &&& self.bv.wf()
        &&& forall|i: int| 0 <= i < self.records.assertions@.len() ==> m.has(#[trigger] self.records.assertions@[i])
        &&& self.records.assertions@.len() <= u32::MAX
    }

    /// `later` is this solver with recorded changes: everything that a context is made of can be
    /// taken back.
    pub open spec fn reverts(&self, later: &Solver) -> bool {
        &&& self.records.reverts(&later.records)
        &&& self.encoder.reverts(&later.encoder)
        &&& self.encoder.clauses@.len() <= later.encoder.clauses@.len()
        &&& later.encoder.clauses@.take(self.encoder.clauses@.len() as int) == self.encoder.clauses@
        &&& later.context_stack@ == self.context_stack@
        &&& self.euf.begins(&later.euf)
        &&& self.encoder.has_bv_arith_ops ==> later.encoder.has_bv_arith_ops
    }

    /// A solver with the default settings.
    pub fn new() -> (s: Solver)
        ensures
            s.config == crate::config::balanced_config(),
            s.is_fresh(),
    {
        Solver::with_config(SolverConfig::default())
    }

    /// Nothing is asserted, nothing is known of any term, and no logic is set.
    pub open spec fn is_blank(&self) -> bool {
        &&& self.knows_nothing()
        &&& self.logic is None
    }

    /// Nothing is asserted, and nothing is known of any term.
    pub open spec fn knows_nothing(&self) -> bool {
        &&& forall|m: &TermManager| m.wf() ==> #[trigger] self.wf(m)
        &&& self.records.is_blank()
        &&& self.encoder.is_blank()
        &&& self.euf.is_blank()
        &&& self.bv.is_blank()
        &&& self.model is None
        &&& self.unsat_core is None
        &&& !self.refuted
        &&& self.context_stack@.len() == 0
    }

    /// The solver is blank, nothing has been counted, and there is a proof, an empty one, if the
    /// settings ask for one.
    pub open spec fn is_fresh(&self) -> bool {
        &&& self.is_blank()
        &&& self.is_unused()
    }

    /// Nothing has been counted or proved, and what callers can ask for is as at the start.
    pub open spec fn is_unused(&self) -> bool {
        &&& !self.produce_unsat_cores
        &&& self.theory_aware_branching
        &&& self.proof_steps is Some <==> self.config.proof
        &&& self.proof_steps matches Some(p) ==> p.steps@.len() == 0 && p.empty_clause_index is None
        &&& self.statistics == no_counts()
        &&& self.term_ite_counter == 0
        &&& (self.fp_constraint_cache@ == Map::<usize, FpConstraintData>::empty())
    }

    /// A solver with the given settings.
    pub fn with_config(config: SolverConfig) -> (s: Solver)
        ensures
            s.config == config,
            s.is_fresh(),
    {
        let s = Solver {
            config,
            encoder: Encoder::new(),
            records: Records::new(),
            euf: EufPlan::new(),
            bv: BvPlan::new(),
            logic: None,
            model: None,
            unsat_core: None,
            refuted: false,
            context_stack: Vec::new(),
            produce_unsat_cores: false,
            theory_aware_branching: true,
            proof_steps: if config.proof {
                Some(Proof::new())
            } else {
                None
            },
            statistics: Statistics::new(),
            term_ite_counter: 0,
            fp_constraint_cache: map_new(),
        };
        proof {
            assert forall|m: &TermManager| m.wf() implies #[trigger] s.wf(m) by {
                assert(linked(m, &s.encoder));
            }
        }
        s
    }

    /// Begins a context.
    pub fn push(&mut self)
        ensures
            began(old(self), final(self)),
    {
        self.context_stack.push(
            ContextState {
                num_assertions: self.records.assertions.len(),
                has_false_assertion: self.records.has_false_assertion,
                trail_position: self.records.trail.len(),
                encoding_position: self.encoder.trail.len(),
                num_clauses: self.encoder.clauses.len(),
                num_nodes: self.euf.nodes.len(),
            },
        );
    }

    /// Leaves the latest context: everything that was recorded since it began is taken back. The
    /// numbers of constants for conditionals are not used again. Outside contexts nothing happens.
    pub fn pop(&mut self)
        ensures
            old(self).context_stack@.len() > 0 ==> left(old(self), final(self)),
            old(self).context_stack@.len() == 0 ==> final(self).context_stack@.len() == 0 && (Solver {
                context_stack: old(self).context_stack,
                ..*final(self)
            }) == *old(self),
    {
        if let Some(mark) = self.context_stack.pop() {
            self.records.undo(mark.trail_position);
            if self.records.assertions.len() > mark.num_assertions {
                self.records.assertions.truncate(mark.num_assertions);
            }
            self.records.has_false_assertion = mark.has_false_assertion;
            self.encoder.undo(mark.encoding_position);
            let ghost tables = self.encoder.tables();
            if self.encoder.clauses.len() > mark.num_clauses {
                self.encoder.clauses.truncate(mark.num_clauses);
            }
            self.euf.backtrack(mark.num_nodes);
            proof {
                let before = old(self);
                assert(self.encoder.tables() == tables);
                assert(self.euf.nodes@ =~= cut(before.euf.nodes@, mark.num_nodes as int));
                assert(self.context_stack@ =~= before.context_stack@.drop_last());
                assert(before.encoder.trail@.take(before.encoder.trail@.len() as int) =~= before.encoder.trail@);
                assert(self.encoder.trail@ =~= cut(before.encoder.trail@, mark.encoding_position as int));
                assert(self.encoder.clauses@ =~= cut(before.encoder.clauses@, mark.num_clauses as int));
                assert(self.records.assertions@ =~= cut(
                    undo_records(before.records@, before.records.trail@, mark.trail_position as int).assertions,
                    mark.num_assertions as int,
                ));
            }
        }
    }

    /// Forgets everything but the settings and counters.
    pub fn reset(&mut self)
        ensures
            final(self).is_blank(),
            final(self).config == old(self).config,
            final(self).produce_unsat_cores == old(self).produce_unsat_cores,
            final(self).theory_aware_branching == old(self).theory_aware_branching,
            final(self).statistics == old(self).statistics,
            final(self).proof_steps == old(self).proof_steps,
            final(self).term_ite_counter == old(self).term_ite_counter,
            final(self).fp_constraint_cache == old(self).fp_constraint_cache,
    {
        self.encoder = Encoder::new();
        self.records = Records::new();
        self.euf = EufPlan::new();
        self.bv = BvPlan::new();
        self.logic = None;
        self.model = None;
        self.unsat_core = None;
        self.refuted = false;
        self.context_stack = Vec::new();
        proof {
            assert forall|m: &TermManager| m.wf() implies #[trigger] self.wf(m) by {
                assert(linked(m, &self.encoder));
            }
        }
    }

    /// Notes the name of an assertion, if names are wanted.
    fn note_name(&mut self, term: TermId, name: Option<String>, index: u32)
        ensures
            final(self).records@ == noted(old(self).records@, old(self).produce_unsat_cores, NamedAssertion { term, name, index }),
            old(self).records.reverts(&final(self).records),
            (Solver { records: old(self).records, ..*final(self) }) == *old(self),
    {
        proof {
            lemma_reverts_self(&self.records);
        }
        if self.produce_unsat_cores {
            self.records.add_named(NamedAssertion { term, name, index });
        }
    }
}

/// The records with one more assertion.
pub open spec fn with_assertion(c: RecordsView, t: TermId) -> RecordsView {
    RecordsView { assertions: c.assertions.push(t), ..c }
}

/// The formula `f` is what is left of `t` once term conditionals are replaced by constants numbered
/// from `first` up to `next`: none stays, unless the numbers have run out.
pub open spec fn lowers_to(m: &TermManager, t: TermId, first: nat, next: nat, f: TermId) -> bool {
    exists|r: Lowered, root: TermId| #[trigger]
        is_lowered(m, t, first, r, root) && r.formula == f && next == first + r.steps@.len() && (innermost(m, root) is None || next
            == u64::MAX)
}

/// The clauses of the assertion of `f` have been emitted, and what they say of terms is on record.
pub open spec fn is_encoded(
    mid: &TermManager,
    before: &Solver,
    rec: RecordsView,
    m: &TermManager,
    after: &Solver,
    f: TermId,
    s: TermId,
) -> bool {
    &&& asserts(mid, &before.encoder, m, &after.encoder, f)
    &&& marked(mid, f, Mark::Cover, rec, after.records@)
    &&& marked(mid, f, Mark::Select, rec, after.records@)
    &&& marked(mid, f, Mark::Test, rec, after.records@)
    &&& backed(m, &after.encoder, Mark::Cover, rec, after.records@)
    &&& backed(m, &after.encoder, Mark::Select, rec, after.records@)
    &&& backed(m, &after.encoder, Mark::Test, rec, after.records@)
    &&& forall|x: usize| #[trigger] leads(mid, s, x) && is_diseq(mid, x) ==> is_split(m, &after.encoder, mid.arg(x, 0))
    &&& after.encoder.has_quantifiers == (before.encoder.has_quantifiers || assertion_quantified(mid, f, rec))
}

impl Solver {
    /// Notes the constructor that a formula gives a variable; the result says whether the variable
    /// had another one.
    fn note_constructor(&mut self, m: &TermManager, f: TermId) -> (clash: bool)
        requires
            m.wf(),
            m.has(f),
        ensures
            clash == clashes(m, old(self).records@, f),
            final(self).records@ == with_constructor(m, old(self).records@, f),
            old(self).records.reverts(&final(self).records),
            (Solver { records: old(self).records, ..*final(self) }) == *old(self),
    {
        proof {
            lemma_reverts_self(&self.records);
        }
        if let Some((v, k)) = extract_dt_var_constructor(m, f) {
            if let Some(earlier) = self.records.add_constructor(v, k) {
                return earlier != k;
            }
        }
        false
    }

    /// Emits the clauses of an assertion and notes its name, if names are wanted.
    fn finish_assertion(&mut self, m: &mut TermManager, f: TermId, s: TermId, term: TermId, name: Option<String>, index: u32)
        requires
            linked(old(m), &old(self).encoder),
            old(m).has(f),
            old(m).has(s),
        ensures
            is_encoded(old(m), old(self), old(self).records@, final(m), final(self), f, s),
            final(self).records@ == noted(
                RecordsView {
                    covered: final(self).records@.covered,
                    selected: final(self).records@.selected,
                    tested: final(self).records@.tested,
                    ..old(self).records@
                },
                old(self).produce_unsat_cores,
                NamedAssertion { term, name, index },
            ),
            old(self).records.reverts(&final(self).records),
            (Solver { records: old(self).records, encoder: old(self).encoder, ..*final(self) }) == *old(self),
    {
        let ghost s0 = *self;
        let ghost m0 = *m;
        encode_assertion(&mut self.encoder, &mut self.records, m, f, s);
        let ghost s1 = *self;
        self.note_name(term, name, index);
        proof {
            lemma_reverts(&s0.records, &s1.records, &self.records);
            lemma_encoded_named(&m0, &s0, s0.records@, m, &s1, self, f, s);
        }
    }

    #[verifier::rlimit(80)]
    #[verifier::spinoff_prover]
    /// Asserts a formula, given what the simplifier makes of it (itself where simplification is
    /// off).
    pub fn assert_formula(&mut self, m: &mut TermManager, term: TermId, simplified: TermId) -> (r: Asserted)
        requires
            old(self).wf(old(m)),
            old(m).has(term),
            old(m).has(simplified),
            old(self).records.assertions@.len() < u32::MAX,
        ensures
            final(self).wf(final(m)),
            old(m).extended_by(final(m)),
            old(self).reverts(final(self)),
            (final(self).fp_constraint_cache@ == Map::<usize, FpConstraintData>::empty()),
            only_asserts(old(self), final(self)),
            outcome(old(m), old(self), final(m), final(self), term, simplified, r),
    {
        let ghost m0 = *m;
        let ghost s0 = *self;
        let index: u32 = self.records.assertions.len() as u32;
        self.records.add_assertion(term);
        self.fp_constraint_cache = map_new();
        let ghost s1 = *self;
        proof {
            lemma_extended_self(m);
            lemma_advances_self(&self.encoder);
        }
        match m.terms[term].op {
            Op::False => {
                self.records.set_false();
                let ghost s2 = *self;
                self.note_name(term, None, index);
                proof {
                    lemma_reverts(&s0.records, &s1.records, &s2.records);
                    lemma_reverts(&s0.records, &s2.records, &self.records);
                    lemma_same_encoder(&s0, self);
                }
                return Asserted::False;
            },
            Op::True => {
                self.note_name(term, None, index);
                proof {
                    lemma_reverts(&s0.records, &s1.records, &self.records);
                    lemma_same_encoder(&s0, self);
                }
                return Asserted::True;
            },
            _ => {},
        }
        let lowered = eliminate_term_ites(m, simplified, &mut self.term_ite_counter);
        let f: usize = lowered.formula;
        let ghost m1 = *m;
        let ghost s2 = *self;
        proof {
            assert(lowers_to(&m1, simplified, s0.term_ite_counter as nat, self.term_ite_counter as nat, f));
            lemma_linked_extends(&m0, &m1, &s0.encoder);
            lemma_plan_extends(&m0, &m1, &s0.euf);
        }
        match m.terms[f].op {
            Op::False => {
                self.records.set_false();
                proof {
                    lemma_reverts(&s0.records, &s2.records, &self.records);
                    lemma_same_encoder(&s0, self);
                }
                return Asserted::SimplifiedFalse;
            },
            Op::True => {
                proof {
                    lemma_same_encoder(&s0, self);
                }
                return Asserted::SimplifiedTrue;
            },
            _ => {},
        }
        if self.note_constructor(m, f) {
            let ghost s3 = *self;
            self.records.set_false();
            proof {
                lemma_reverts(&s0.records, &s2.records, &s3.records);
                lemma_reverts(&s0.records, &s3.records, &self.records);
                lemma_same_encoder(&s0, self);
            }
            return Asserted::ConstructorClash;
        }
        let ghost s3 = *self;
        self.finish_assertion(m, f, f, term, None, index);
        proof {
            lemma_reverts(&s0.records, &s2.records, &s3.records);
            lemma_reverts(&s0.records, &s3.records, &self.records);
            lemma_extended_twice(&m0, &m1, m);
            lemma_plan_extends(&m0, m, &s0.euf);
            lemma_clauses_kept(&s0, self);
            assert(m1.op(f) != Op::True && m1.op(f) != Op::False);
            assert(encodes(
                &m0,
                &m1,
                &s0,
                m,
                self,
                simplified,
                f,
                f,
                with_constructor(&m1, with_assertion(s0.records@, term), f),
                s0.produce_unsat_cores,
                NamedAssertion { term, name: None, index },
            ));
            assert(encodes_formula(&m0, &s0, m, self, term, simplified, f));
        }
        Asserted::Encoded(f)
    }
}

/// Nothing but what an assertion concerns has changed, and constants for conditionals are numbered
/// on.
pub open spec fn only_asserts(before: &Solver, after: &Solver) -> bool {
    &&& *after == (Solver {
        encoder: after.encoder,
        records: after.records,
        term_ite_counter: after.term_ite_counter,
        fp_constraint_cache: after.fp_constraint_cache,
        ..*before
    })
    &&& before.term_ite_counter <= after.term_ite_counter
}

/// The first `n` formulas have been asserted one after the other.
pub open spec fn asserted_in_turn(
    m: &TermManager,
    before: &Solver,
    terms: Seq<TermId>,
    simplified: Seq<TermId>,
    n: int,
    later: &TermManager,
    after: &Solver,
) -> bool
    decreases n,
{
    if n <= 0 {
        *later == *m && *after == *before
    } else {
        exists|mid: TermManager, s: Solver, r: Asserted| #[trigger]
            outcome(&mid, &s, later, after, terms[n - 1], simplified[n - 1], r) && asserted_in_turn(
                m,
                before,
                terms,
                simplified,
                n - 1,
                &mid,
                &s,
            )
    }
}

/// The records with the constructor that a formula gives a variable, unless one is noted.
pub open spec fn with_constructor(m: &TermManager, c: RecordsView, f: TermId) -> RecordsView {
    match given_constructor(m, f) {
        Some(g) => if c.constructors.contains_key(g.0) {
            c
        } else {
            RecordsView { constructors: c.constructors.insert(g.0, g.1), ..c }
        },
        None => c,
    }
}

/// What asserting `term` does, by what became of it.
pub open spec fn outcome(
    m: &TermManager,
    before: &Solver,
    later: &TermManager,
    after: &Solver,
    term: TermId,
    simplified: TermId,
    r: Asserted,
) -> bool {
    let name = NamedAssertion { term, name: None, index: before.records.assertions@.len() as u32 };
    let rec = with_assertion(before.records@, term);
    let constant = m.op(term) == Op::True || m.op(term) == Op::False;
    match r {
        Asserted::True => {
            &&& m.op(term) == Op::True
            &&& after.records@ == noted(rec, before.produce_unsat_cores, name)
            &&& after.encoder == before.encoder
            &&& after.term_ite_counter == before.term_ite_counter
            &&& *later == *m
        },
        Asserted::False => {
            &&& m.op(term) == Op::False
            &&& after.records@ == noted(RecordsView { has_false: true, ..rec }, before.produce_unsat_cores, name)
            &&& after.encoder == before.encoder
            &&& after.term_ite_counter == before.term_ite_counter
            &&& *later == *m
        },
        Asserted::SimplifiedTrue => {
            &&& !constant
            &&& lowers_to_constant(later, simplified, before.term_ite_counter as nat, after.term_ite_counter as nat, Op::True)
            &&& after.records@ == rec
            &&& after.encoder == before.encoder
        },
        Asserted::SimplifiedFalse => {
            &&& !constant
            &&& lowers_to_constant(later, simplified, before.term_ite_counter as nat, after.term_ite_counter as nat, Op::False)
            &&& after.records@ == (RecordsView { has_false: true, ..rec })
            &&& after.encoder == before.encoder
        },
        Asserted::ConstructorClash => {
            &&& !constant
            &&& lowers_to_clash(later, simplified, before.term_ite_counter as nat, after.term_ite_counter as nat, rec)
            &&& after.records@ == (RecordsView { has_false: true, ..rec })
            &&& after.encoder == before.encoder
        },
        Asserted::Encoded(f) => !constant && encodes_formula(m, before, later, after, term, simplified, f),
    }
}

/// What is left of `t` is a truth value.
pub open spec fn lowers_to_constant(m: &TermManager, t: TermId, first: nat, next: nat, op: Op) -> bool {
    exists|f: TermId| #[trigger] lowers_to(m, t, first, next, f) && m.op(f) == op
}

/// What is left of `t` gives a variable another constructor than the one on record.
pub open spec fn lowers_to_clash(m: &TermManager, t: TermId, first: nat, next: nat, rec: RecordsView) -> bool {
    exists|f: TermId| #[trigger] lowers_to(m, t, first, next, f) && clashes(m, rec, f)
}

/// The formula gives a variable another constructor than the one on record.
pub open spec fn clashes(m: &TermManager, rec: RecordsView, f: TermId) -> bool {
    given_constructor(m, f) matches Some(g) && rec.constructors.contains_key(g.0) && rec.constructors[g.0] != g.1
}

/// What is left of `simplified` is `f`, which is no truth value and clashes with nothing, and it has
/// been encoded.
pub open spec fn encodes_formula(
    m: &TermManager,
    before: &Solver,
    later: &TermManager,
    after: &Solver,
    term: TermId,
    simplified: TermId,
    f: TermId,
) -> bool {
    let name = NamedAssertion { term, name: None, index: before.records.assertions@.len() as u32 };
    let rec = with_assertion(before.records@, term);
    exists|mid: TermManager| #[trigger]
        encodes(
            m,
            &mid,
            before,
            later,
            after,
            simplified,
            f,
            f,
            with_constructor(&mid, rec, f),
            before.produce_unsat_cores,
            name,
        ) && mid.op(f) != Op::True && mid.op(f) != Op::False && !clashes(&mid, rec, f)
}

/// A formula has been asserted: term conditionals of `t` are replaced, which gives `f`; the clauses
/// of `f` are emitted; and the records are `rec` with the marks of its terms and, if wanted, its
/// name.
pub open spec fn encodes(
    m: &TermManager,
    mid: &TermManager,
    before: &Solver,
    later: &TermManager,
    after: &Solver,
    t: TermId,
    f: TermId,
    s: TermId,
    rec: RecordsView,
    produce: bool,
    name: NamedAssertion,
) -> bool {
    &&& mid.wf()
    &&& m.extended_by(mid)
    &&& mid.extended_by(later)
    &&& lowers_to(mid, t, before.term_ite_counter as nat, after.term_ite_counter as nat, f)
    &&& is_encoded(mid, before, rec, later, after, f, s)
    &&& after.records@ == noted(
        RecordsView {
            covered: after.records@.covered,
            selected: after.records@.selected,
            tested: after.records@.tested,
            ..rec
        },
        produce,
        name,
    )
}

/// Names do not matter to what has been encoded.
proof fn lemma_encoded_named(
    mid: &TermManager,
    before: &Solver,
    rec: RecordsView,
    m: &TermManager,
    a: &Solver,
    b: &Solver,
    f: TermId,
    s: TermId,
)
    requires
        is_encoded(mid, before, rec, m, a, f, s),
        b.encoder == a.encoder,
        b.records@.covered == a.records@.covered,
        b.records@.selected == a.records@.selected,
        b.records@.tested == a.records@.tested,
    ensures
        is_encoded(mid, before, rec, m, b, f, s),
{
    lemma_same_marks(mid, m, &b.encoder, f, Mark::Cover, rec, a.records@, b.records@);
    lemma_same_marks(mid, m, &b.encoder, f, Mark::Select, rec, a.records@, b.records@);
    lemma_same_marks(mid, m, &b.encoder, f, Mark::Test, rec, a.records@, b.records@);
}

/// The encoding has not changed.
proof fn lemma_same_encoder(a: &Solver, b: &Solver)
    requires
        a.encoder == b.encoder,
        a.records.reverts(&b.records),
        b.context_stack@ == a.context_stack@,
        b.euf == a.euf,
    ensures
        a.reverts(b),
{
    assert(a.euf.nodes@.take(a.euf.nodes@.len() as int) =~= a.euf.nodes@);
    lemma_advances_self(&a.encoder);
    assert(b.encoder.clauses@.take(a.encoder.clauses@.len() as int) =~= a.encoder.clauses@);
}

/// The encoding has grown.
pub(crate) proof fn lemma_clauses_kept(a: &Solver, b: &Solver)
    requires
        a.encoder.advances(&b.encoder),
        a.records.reverts(&b.records),
        b.context_stack@ == a.context_stack@,
        b.euf == a.euf,
    ensures
        a.reverts(b),
{
    assert(a.euf.nodes@.take(a.euf.nodes@.len() as int) =~= a.euf.nodes@);
    assert(b.encoder.clauses@.take(a.encoder.clauses@.len() as int) =~= a.encoder.clauses@);
}

/// What asserting `term` under a name does, by what became of it. Neither simplification nor the
/// constructors of variables come in.
pub open spec fn named_outcome(
    m: &TermManager,
    before: &Solver,
    later: &TermManager,
    after: &Solver,
    term: TermId,
    text: String,
    r: Asserted,
) -> bool {
    let name = NamedAssertion { term, name: Some(text), index: before.records.assertions@.len() as u32 };
    let rec = with_assertion(before.records@, term);
    match r {
        Asserted::True => {
            &&& m.op(term) == Op::True
            &&& after.records@ == noted(rec, before.produce_unsat_cores, name)
            &&& after.encoder == before.encoder
            &&& after.term_ite_counter == before.term_ite_counter
            &&& *later == *m
        },
        Asserted::False => {
            &&& m.op(term) == Op::False
            &&& after.records@ == noted(RecordsView { has_false: true, ..rec }, before.produce_unsat_cores, name)
            &&& after.encoder == before.encoder
            &&& after.term_ite_counter == before.term_ite_counter
            &&& *later == *m
        },
        Asserted::Encoded(f) => m.op(term) != Op::True && m.op(term) != Op::False && encodes_named(
            m,
            before,
            later,
            after,
            term,
            f,
            name,
        ),
        _ => false,
    }
}

/// What is left of `term` is `f`, and it has been encoded.
pub open spec fn encodes_named(
    m: &TermManager,
    before: &Solver,
    later: &TermManager,
    after: &Solver,
    term: TermId,
    f: TermId,
    name: NamedAssertion,
) -> bool {
    let rec = with_assertion(before.records@, term);
    exists|mid: TermManager| #[trigger]
        encodes(m, &mid, before, later, after, term, f, term, rec, before.produce_unsat_cores, name)
}

impl Solver {
    #[verifier::rlimit(60)]
    #[verifier::spinoff_prover]
    /// Asserts a formula under a name.
    pub fn assert_named(&mut self, m: &mut TermManager, term: TermId, name: String) -> (r: Asserted)
        requires
            old(self).wf(old(m)),
            old(m).has(term),
            old(self).records.assertions@.len() < u32::MAX,
        ensures
            final(self).wf(final(m)),
            old(m).extended_by(final(m)),
            old(self).reverts(final(self)),
            (final(self).fp_constraint_cache@ == Map::<usize, FpConstraintData>::empty()),
            only_asserts(old(self), final(self)),
            named_outcome(old(m), old(self), final(m), final(self), term, name, r),
    {
        let ghost m0 = *m;
        let ghost s0 = *self;
        let index: u32 = self.records.assertions.len() as u32;
        self.records.add_assertion(term);
        self.fp_constraint_cache = map_new();
        let ghost s1 = *self;
        proof {
            lemma_extended_self(m);
            lemma_advances_self(&self.encoder);
        }
        match m.terms[term].op {
            Op::False => {
                self.records.set_false();
                let ghost s2 = *self;
                self.note_name(term, Some(name), index);
                proof {
                    lemma_reverts(&s0.records, &s1.records, &s2.records);
                    lemma_reverts(&s0.records, &s2.records, &self.records);
                    lemma_same_encoder(&s0, self);
                }
                return Asserted::False;
            },
            Op::True => {
                self.note_name(term, Some(name), index);
                proof {
                    lemma_reverts(&s0.records, &s1.records, &self.records);
                    lemma_same_encoder(&s0, self);
                }
                return Asserted::True;
            },
            _ => {},
        }
        let lowered = eliminate_term_ites(m, term, &mut self.term_ite_counter);
        let f: usize = lowered.formula;
        let ghost m1 = *m;
        let ghost s2 = *self;
        proof {
            assert(lowers_to(&m1, term, s0.term_ite_counter as nat, self.term_ite_counter as nat, f));
            lemma_linked_extends(&m0, &m1, &s0.encoder);
            lemma_plan_extends(&m0, &m1, &s0.euf);
        }
        self.finish_assertion(m, f, term, term, Some(name), index);
        proof {
            lemma_reverts(&s0.records, &s2.records, &self.records);
            lemma_extended_twice(&m0, &m1, m);
            lemma_plan_extends(&m0, m, &s0.euf);
            lemma_clauses_kept(&s0, self);
            assert(encodes(
                &m0,
                &m1,
                &s0,
                m,
                self,
                term,
                f,
                term,
                with_assertion(s0.records@, term),
                s0.produce_unsat_cores,
                NamedAssertion { term, name: Some(name), index },
            ));
            assert(encodes_named(&m0, &s0, m, self, term, f, NamedAssertion { term, name: Some(name), index }));
        }
        Asserted::Encoded(f)
    }

    /// Asserts formulas in order, given what the simplifier makes of each.
    pub fn assert_many(&mut self, m: &mut TermManager, terms: &Vec<TermId>, simplified: &Vec<TermId>)
        requires
            old(self).wf(old(m)),
            terms@.len() == simplified@.len(),
            forall|i: int| 0 <= i < terms@.len() ==> old(m).has(#[trigger] terms@[i]),
            forall|i: int| 0 <= i < simplified@.len() ==> old(m).has(#[trigger] simplified@[i]),
            old(self).records.assertions@.len() + terms@.len() <= u32::MAX,
        ensures
            final(self).wf(final(m)),
            old(m).extended_by(final(m)),
            old(self).reverts(final(self)),
            final(self).records.assertions@ == old(self).records.assertions@ + terms@,
            asserted_in_turn(old(m), old(self), terms@, simplified@, terms@.len() as int, final(m), final(self)),
    {
        let ghost m0 = *m;
        let ghost s0 = *self;
        let mut i: usize = 0;
        proof {
            lemma_extended_self(m);
            lemma_reverts_self(&self.records);
            lemma_same_encoder(self, self);
        }
        while i < terms.len()
            invariant
                i <= terms.len(),
                terms@.len() == simplified@.len(),
                forall|k: int| 0 <= k < terms@.len() ==> m0.has(#[trigger] terms@[k]),
                forall|k: int| 0 <= k < simplified@.len() ==> m0.has(#[trigger] simplified@[k]),
                s0.records.assertions@.len() + terms@.len() <= u32::MAX,
                self.wf(m),
                m0.extended_by(m),
                s0.reverts(self),
                self.records.assertions@ == s0.records.assertions@ + terms@.take(i as int),
                asserted_in_turn(&m0, &s0, terms@, simplified@, i as int, m, self),
            decreases terms.len() - i,
        {
            let ghost m1 = *m;
            let ghost s1 = *self;
            assert(m0.has(terms@[i as int]) && m0.has(simplified@[i as int]));
            let r = self.assert_formula(m, terms[i], simplified[i]);
            proof {
                lemma_extended_twice(&m0, &m1, m);
                lemma_solver_reverts(&s0, &s1, self);
                assert(outcome(&m1, &s1, m, self, terms@[i + 1 - 1], simplified@[i + 1 - 1], r));
                lemma_outcome_assertions(&m1, &s1, m, self, terms@[i as int], simplified@[i as int], r);
                assert(terms@.take(i + 1) =~= terms@.take(i as int).push(terms@[i as int]));
                assert(self.records.assertions@ =~= s0.records.assertions@ + terms@.take(i + 1));
            }
            i = i + 1;
        }
        assert(terms@.take(i as int) =~= terms@);
    }
}

/// Asserting adds the assertion.
proof fn lemma_outcome_assertions(
    m: &TermManager,
    before: &Solver,
    later: &TermManager,
    after: &Solver,
    term: TermId,
    simplified: TermId,
    r: Asserted,
)
    requires
        outcome(m, before, later, after, term, simplified, r),
    ensures
        after.records@.assertions == before.records@.assertions.push(term),
{
    if let Asserted::Encoded(f) = r {
        let name = NamedAssertion { term, name: None, index: before.records.assertions@.len() as u32 };
        let rec = with_assertion(before.records@, term);
        let mid = choose|mid: TermManager| #[trigger]
            encodes(
                m,
                &mid,
                before,
                later,
                after,
                simplified,
                f,
                f,
                with_constructor(&mid, rec, f),
                before.produce_unsat_cores,
                name,
            ) && mid.op(f) != Op::True && mid.op(f) != Op::False && !clashes(&mid, rec, f);
    }
}

/// Recorded changes on top of each other.
pub proof fn lemma_solver_reverts(a: &Solver, b: &Solver, c: &Solver)
    requires
        a.reverts(b),
        b.reverts(c),
    ensures
        a.reverts(c),
{
    lemma_reverts(&a.records, &b.records, &c.records);
    let k = a.encoder.trail@.len() as int;
    let j = b.encoder.trail@.len() as int;
    crate::encoder::lemma_undo_split(c.encoder.tables(), c.encoder.trail@, k, j);
    assert(c.encoder.trail@.take(j).take(k) =~= c.encoder.trail@.take(k));
    let p = a.encoder.clauses@.len() as int;
    let q = b.encoder.clauses@.len() as int;
    assert(c.encoder.clauses@.take(q).take(p) =~= c.encoder.clauses@.take(p));
    let x = a.euf.nodes@.len() as int;
    let y = b.euf.nodes@.len() as int;
    assert(c.euf.nodes@.take(y).take(x) =~= c.euf.nodes@.take(x));
}

/// Leaving a context brings back the assertions, the names, and the encoding that there were when
/// it began, whatever has been asserted in between; and the solver still belongs to the store,
/// which has only grown.
pub proof fn law_pop_undoes_push(m: &TermManager, before: &Solver, pushed: &Solver, later_m: &TermManager, later: &Solver, popped: &Solver)
    requires
        before.wf(m),
        m.extended_by(later_m),
        began(before, pushed),
        pushed.reverts(later),
        later.wf(later_m),
        left(later, popped),
    ensures
        popped.records@ == before.records@,
        popped.records.trail@ == before.records.trail@,
        popped.encoder.tables() == before.encoder.tables(),
        popped.encoder.trail@ == before.encoder.trail@,
        popped.encoder.clauses@ == before.encoder.clauses@,
        popped.euf.nodes@ == before.euf.nodes@,
        popped.context_stack@ == before.context_stack@,
        popped.wf(later_m),
{
    let mark = pushed.context_stack@.last();
    assert(later.context_stack@ == pushed.context_stack@);
    assert(pushed.context_stack@.drop_last() =~= before.context_stack@);
    let undone = undo_records(later.records@, later.records.trail@, mark.trail_position as int);
    assert(undone == before.records@);
    assert(cut(undone.assertions, mark.num_assertions as int) =~= before.records@.assertions);
    assert(popped.records@ =~= before.records@);
    assert(popped.encoder.tables() == before.encoder.tables());
    lemma_linked_extends(m, later_m, &before.encoder);
    lemma_linked_same(later_m, &before.encoder, &popped.encoder);
    assert(popped.euf.nodes@ =~= before.euf.nodes@);
    assert(popped.euf.wf(later_m));
    lemma_plan_cut(later_m, &later.euf, &popped.euf);
    assert forall|i: int| 0 <= i < popped.records.assertions@.len() implies later_m.has(#[trigger] popped.records.assertions@[i]) by {
        assert(popped.records.assertions@ == before.records.assertions@);
        assert(m.has(before.records.assertions@[i]));
    }
}

/// A context began.
pub open spec fn began(before: &Solver, after: &Solver) -> bool {
    &&& after.context_stack@ == before.context_stack@.push(
        ContextState {
            num_assertions: before.records.assertions.len(),
            has_false_assertion: before.records.has_false_assertion,
            trail_position: before.records.trail.len(),
            encoding_position: before.encoder.trail.len(),
            num_clauses: before.encoder.clauses.len(),
            num_nodes: before.euf.nodes.len(),
        },
    )
    &&& (Solver { context_stack: before.context_stack, ..*after }) == *before
}

/// The latest context was left.
pub open spec fn left(before: &Solver, after: &Solver) -> bool {
    let mark = before.context_stack@.last();
    let undone = undo_records(before.records@, before.records.trail@, mark.trail_position as int);
    &&& after.context_stack@ == before.context_stack@.drop_last()
    &&& after.records@ == (RecordsView {
        assertions: cut(undone.assertions, mark.num_assertions as int),
        has_false: mark.has_false_assertion,
        ..undone
    })
    &&& after.records.trail@ == cut(before.records.trail@, mark.trail_position as int)
    &&& after.encoder.tables() == undo_to(before.encoder.tables(), before.encoder.trail@, mark.encoding_position as int)
    &&& after.encoder.trail@ == cut(before.encoder.trail@, mark.encoding_position as int)
    &&& after.encoder.clauses@ == cut(before.encoder.clauses@, mark.num_clauses as int)
    &&& after.euf.nodes@ == cut(before.euf.nodes@, mark.num_nodes as int)
    &&& after.euf.cmds@ == before.euf.cmds@
    &&& forall|m: &TermManager| before.euf.wf(m) ==> #[trigger] after.euf.wf(m)
    &&& after.encoder.has_bv_arith_ops == before.encoder.has_bv_arith_ops
    &&& after.encoder.has_quantifiers == before.encoder.has_quantifiers
    &&& *after == (Solver {
        context_stack: after.context_stack,
        records: after.records,
        encoder: after.encoder,
        euf: after.euf,
        ..*before
    })
}

/// What the tables say depends on the tables only.
proof fn lemma_linked_same(m: &TermManager, a: &Encoder, b: &Encoder)
    requires
        linked(m, a),
        b.tables() == a.tables(),
        a.has_bv_arith_ops ==> b.has_bv_arith_ops,
    ensures
        linked(m, b),
{
    assert(b.term_to_var@ == a.tables().term_to_var);
    assert(b.var_to_term@ == a.tables().var_to_term);
    assert(b.constraints@ == a.tables().constraints);
    assert(b.parsed@ == a.tables().parsed);
    assert(b.walked@ == a.tables().walked);
    assert(b.arith_terms@ == a.tables().arith_terms);
    assert(b.bv_terms@ == a.tables().bv_terms);
    assert forall|w: usize| #[trigger] b.walked@.contains(w) implies m.has(w) && crate::track::registered(m, b, w) by {
        assert(a.walked@.contains(w));
        assert(crate::track::registered(m, a, w));
    }
}

} // verus!
