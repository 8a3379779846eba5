//! Settings and counters.
use vstd::prelude::*;

verus! {

/// When theories are consulted.
#[derive(Clone, Copy, Debug, PartialEq, Eq, Structural)]
pub enum TheoryMode {
    /// On every assignment.
    Eager,
    /// On complete assignments only.
    Lazy,
}

/// How the search decides to start over.
#[derive(Clone, Copy, Debug, PartialEq, Eq, Structural)]
pub enum RestartStrategy {
    /// After a number of conflicts that grows geometrically.
    Geometric,
    /// When the recent learned clauses are worse than the average.
    Glucose,
}

/// The settings of a solver. A limit of 0 is no limit.
#[derive(Clone, Copy, Debug, PartialEq, Eq, Structural)]
pub struct SolverConfig {
    pub timeout_ms: u64,
    pub parallel: bool,
    pub num_threads: usize,
    pub proof: bool,
    pub model: bool,
    pub theory_mode: TheoryMode,
    pub simplify: bool,
    pub max_conflicts: u64,
    pub max_decisions: u64,
    pub restart_strategy: RestartStrategy,
    pub enable_clause_minimization: bool,
    pub enable_clause_subsumption: bool,
    pub enable_variable_elimination: bool,
    pub variable_elimination_limit: usize,
    pub enable_blocked_clause_elimination: bool,
    pub enable_symmetry_breaking: bool,
    pub enable_inprocessing: bool,
    pub inprocessing_interval: u64,
    /// Instantiate quantifiers.
    pub clean_mbqi: bool,
    /// Keep theory state in step with the search, frame by frame.
    pub use_hooks_driver: bool,
    /// Match triggers modulo congruence.
    pub ccfv_ematch: bool,
    /// Let the absence of a conflict in the completed model count as a verification.
    pub ccfv_model_compl: bool,
    /// Add inferred triggers to the given ones.
    pub mbqi_additive_patterns: bool,
    pub mbqi_instance_budget: usize,
    /// Keep the index of interned constants between rounds.
    pub persist_const_index: bool,
}

/// The preset with hardly any feature.
pub open spec fn minimal_config() -> SolverConfig {
    SolverConfig {
        timeout_ms: 0,
        parallel: false,
        num_threads: 1,
        proof: false,
        model: true,
        theory_mode: TheoryMode::Lazy,
        simplify: false,
        max_conflicts: 0,
        max_decisions: 0,
        restart_strategy: RestartStrategy::Geometric,
        enable_clause_minimization: false,
        enable_clause_subsumption: false,
        enable_variable_elimination: false,
        variable_elimination_limit: 0,
        enable_blocked_clause_elimination: false,
        enable_symmetry_breaking: false,
        enable_inprocessing: false,
        inprocessing_interval: 0,
        clean_mbqi: true,
        use_hooks_driver: true,
        ccfv_ematch: true,
        ccfv_model_compl: false,
        mbqi_additive_patterns: false,
        mbqi_instance_budget: 0,
        persist_const_index: false,
    }
}

/// The preset for easy problems: eager theories and cheap simplification only.
pub open spec fn fast_config() -> SolverConfig {
    SolverConfig {
        num_threads: 4,
        theory_mode: TheoryMode::Eager,
        simplify: true,
        enable_clause_minimization: true,
        ..minimal_config()
    }
}

/// The preset between speed and preprocessing.
pub open spec fn balanced_config() -> SolverConfig {
    SolverConfig {
        restart_strategy: RestartStrategy::Glucose,
        enable_clause_subsumption: true,
        enable_variable_elimination: true,
        variable_elimination_limit: 1000,
        enable_blocked_clause_elimination: true,
        enable_inprocessing: true,
        inprocessing_interval: 10000,
        ..fast_config()
    }
}

/// The preset for hard problems.
pub open spec fn thorough_config() -> SolverConfig {
    SolverConfig {
        variable_elimination_limit: 5000,
        enable_symmetry_breaking: true,
        inprocessing_interval: 5000,
        ..balanced_config()
    }
}

impl Default for SolverConfig {
    fn default() -> (c: SolverConfig)
        ensures
            c == balanced_config(),
    {
        SolverConfig::balanced()
    }
}

impl SolverConfig {
    /// The preset for easy problems.
    pub fn fast() -> (c: SolverConfig)
        ensures
            c == fast_config(),
    {
        SolverConfig {
            num_threads: 4,
            theory_mode: TheoryMode::Eager,
            simplify: true,
            enable_clause_minimization: true,
            ..SolverConfig::minimal()
        }
    }

    /// The preset between speed and preprocessing.
    pub fn balanced() -> (c: SolverConfig)
        ensures
            c == balanced_config(),
    {
        SolverConfig {
            restart_strategy: RestartStrategy::Glucose,
            enable_clause_subsumption: true,
            enable_variable_elimination: true,
            variable_elimination_limit: 1000,
            enable_blocked_clause_elimination: true,
            enable_inprocessing: true,
            inprocessing_interval: 10000,
            ..SolverConfig::fast()
        }
    }

    /// The preset for hard problems.
    pub fn thorough() -> (c: SolverConfig)
        ensures
            c == thorough_config(),
    {
        SolverConfig {
            variable_elimination_limit: 5000,
            enable_symmetry_breaking: true,
            inprocessing_interval: 5000,
            ..SolverConfig::balanced()
        }
    }

    /// The preset with hardly any feature.
    pub fn minimal() -> (c: SolverConfig)
        ensures
            c == minimal_config(),
    {
        SolverConfig {
            timeout_ms: 0,
            parallel: false,
            num_threads: 1,
            proof: false,
            model: true,
            theory_mode: TheoryMode::Lazy,
            simplify: false,
            max_conflicts: 0,
            max_decisions: 0,
            restart_strategy: RestartStrategy::Geometric,
            enable_clause_minimization: false,
            enable_clause_subsumption: false,
            enable_variable_elimination: false,
            variable_elimination_limit: 0,
            enable_blocked_clause_elimination: false,
            enable_symmetry_breaking: false,
            enable_inprocessing: false,
            inprocessing_interval: 0,
            clean_mbqi: true,
            use_hooks_driver: true,
            ccfv_ematch: true,
            ccfv_model_compl: false,
            mbqi_additive_patterns: false,
            mbqi_instance_budget: 0,
            persist_const_index: false,
        }
    }

    /// These settings with proofs.
    pub fn with_proof(self) -> (c: SolverConfig)
        ensures
            c == (SolverConfig { proof: true, ..self }),
    {
        SolverConfig { proof: true, ..self }
    }

    /// These settings with a time limit.
    pub fn with_timeout(self, timeout_ms: u64) -> (c: SolverConfig)
        ensures
            c == (SolverConfig { timeout_ms, ..self }),
    {
        SolverConfig { timeout_ms, ..self }
    }

    /// These settings with a limit on conflicts.
    pub fn with_max_conflicts(self, max_conflicts: u64) -> (c: SolverConfig)
        ensures
            c == (SolverConfig { max_conflicts, ..self }),
    {
        SolverConfig { max_conflicts, ..self }
    }

    /// These settings with a limit on decisions.
    pub fn with_max_decisions(self, max_decisions: u64) -> (c: SolverConfig)
        ensures
            c == (SolverConfig { max_decisions, ..self }),
    {
        SolverConfig { max_decisions, ..self }
    }

    /// These settings with parallel search.
    pub fn with_parallel(self, num_threads: usize) -> (c: SolverConfig)
        ensures
            c == (SolverConfig { parallel: true, num_threads, ..self }),
    {
        SolverConfig { parallel: true, num_threads, ..self }
    }

    /// These settings with another restart strategy.
    pub fn with_restart_strategy(self, strategy: RestartStrategy) -> (c: SolverConfig)
        ensures
            c == (SolverConfig { restart_strategy: strategy, ..self }),
    {
        SolverConfig { restart_strategy: strategy, ..self }
    }

    /// These settings with another way to consult theories.
    pub fn with_theory_mode(self, mode: TheoryMode) -> (c: SolverConfig)
        ensures
            c == (SolverConfig { theory_mode: mode, ..self }),
    {
        SolverConfig { theory_mode: mode, ..self }
    }
}

/// Counts of what the search did.
#[derive(Clone, Copy, Debug, PartialEq, Eq, Structural)]
pub struct Statistics {
    pub decisions: u64,
    pub conflicts: u64,
    pub propagations: u64,
    pub restarts: u64,
    pub learned_clauses: u64,
    pub theory_propagations: u64,
    pub theory_conflicts: u64,
}

/// All counts are zero.
pub open spec fn no_counts() -> Statistics {
    Statistics {
        decisions: 0,
        conflicts: 0,
        propagations: 0,
        restarts: 0,
        learned_clauses: 0,
        theory_propagations: 0,
        theory_conflicts: 0,
    }
}

impl Default for Statistics {
    fn default() -> (s: Statistics)
        ensures
            s == no_counts(),
    {
        Statistics {
            decisions: 0,
            conflicts: 0,
            propagations: 0,
            restarts: 0,
            learned_clauses: 0,
            theory_propagations: 0,
            theory_conflicts: 0,
        }
    }
}

impl Statistics {
    /// All counts are zero.
    pub fn new() -> (s: Statistics)
        ensures
            s == no_counts(),
    {
        Statistics::default()
    }

    /// Sets all counts to zero.
    pub fn reset(&mut self)
        ensures
            *final(self) == no_counts(),
    {
        *self = Statistics::default();
    }
}

/// No preset has a limit, proofs or parallel search; all have models and instantiate quantifiers,
/// matching modulo congruence.
pub proof fn law_presets_agree(c: SolverConfig)
    requires
        c == minimal_config() || c == fast_config() || c == balanced_config() || c == thorough_config(),
    ensures
        c.timeout_ms == 0 && c.max_conflicts == 0 && c.max_decisions == 0,
        !c.proof && !c.parallel && c.model,
        c.clean_mbqi && c.use_hooks_driver && c.ccfv_ematch,
        !c.ccfv_model_compl && !c.mbqi_additive_patterns && c.mbqi_instance_budget == 0 && !c.persist_const_index,
{
}

/// Each preset does what the one before it does, and more: the minimal one searches with one thread and
/// lazy theories and without any simplification; the fast one simplifies, asks theories eagerly and
/// minimizes clauses; the balanced one preprocesses and restarts as the recent clauses have it; and the
/// thorough one breaks symmetries, eliminates more variables and processes more often.
pub proof fn law_presets_build_on_each_other()
    ensures
        ({
            let c = minimal_config();
            &&& c.num_threads == 1 && c.theory_mode is Lazy && !c.simplify && c.restart_strategy is Geometric
            &&& !c.enable_clause_minimization && !c.enable_clause_subsumption && !c.enable_variable_elimination
            &&& !c.enable_blocked_clause_elimination && !c.enable_symmetry_breaking && !c.enable_inprocessing
            &&& c.variable_elimination_limit == 0 && c.inprocessing_interval == 0
        }),
        ({
            let c = fast_config();
            &&& c.num_threads == 4 && c.theory_mode is Eager && c.simplify && c.restart_strategy is Geometric
            &&& c.enable_clause_minimization && !c.enable_clause_subsumption && !c.enable_variable_elimination
            &&& !c.enable_blocked_clause_elimination && !c.enable_symmetry_breaking && !c.enable_inprocessing
            &&& c.variable_elimination_limit == 0 && c.inprocessing_interval == 0
        }),
        ({
            let c = balanced_config();
            &&& c.num_threads == 4 && c.theory_mode is Eager && c.simplify && c.restart_strategy is Glucose
            &&& c.enable_clause_minimization && c.enable_clause_subsumption && c.enable_variable_elimination
            &&& c.enable_blocked_clause_elimination && !c.enable_symmetry_breaking && c.enable_inprocessing
            &&& c.variable_elimination_limit == 1000 && c.inprocessing_interval == 10000
        }),
        ({
            let c = thorough_config();
            &&& c.num_threads == 4 && c.theory_mode is Eager && c.simplify && c.restart_strategy is Glucose
            &&& c.enable_clause_minimization && c.enable_clause_subsumption && c.enable_variable_elimination
            &&& c.enable_blocked_clause_elimination && c.enable_symmetry_breaking && c.enable_inprocessing
            &&& c.variable_elimination_limit == 5000 && c.inprocessing_interval == 5000
        }),
{
}

} // verus!
