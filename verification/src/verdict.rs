//! Verdicts: the three of the input language, and the five levels of confidence behind them.
use vstd::prelude::*;

verus! {

/// The answer to a satisfiability query.
#[derive(Clone, Copy, Debug, PartialEq, Eq, Structural)]
pub enum SolverResult {
    Sat,
    Unsat,
    Unknown,
}

/// A verdict together with its confidence: only a definite one has been confirmed.
#[derive(Clone, Copy, Debug, PartialEq, Eq, Structural)]
pub enum SatLevel {
    /// A confirmed model exists.
    DefiniteSat,
    /// A model was found but not confirmed.
    PossiblySat,
    /// No information.
    Unknown,
    /// A refutation was found but not confirmed.
    PossiblyUnsat,
    /// A confirmed refutation exists.
    DefiniteUnsat,
}

/// The answer that a level supports: a definite one itself, any other nothing.
pub open spec fn collapsed(s: SatLevel) -> SolverResult {
    match s {
        SatLevel::DefiniteSat => SolverResult::Sat,
        SatLevel::DefiniteUnsat => SolverResult::Unsat,
        _ => SolverResult::Unknown,
    }
}

/// The level of a confirmed answer.
pub open spec fn confirmed(r: SolverResult) -> SatLevel {
    match r {
        SolverResult::Sat => SatLevel::DefiniteSat,
        SolverResult::Unsat => SatLevel::DefiniteUnsat,
        SolverResult::Unknown => SatLevel::Unknown,
    }
}

/// The level is one of the two confirmed ones.
pub open spec fn definite(s: SatLevel) -> bool {
    s is DefiniteSat || s is DefiniteUnsat
}

/// Two verdicts on one formula combined: no information gives way to any, a confirmed verdict to
/// none but its contrary, and what contradicts itself at equal confidence is no information.
pub open spec fn met(a: SatLevel, b: SatLevel) -> SatLevel {
    if a == b || b is Unknown {
        a
    } else if a is Unknown {
        b
    } else if definite(a) == definite(b) {
        SatLevel::Unknown
    } else if definite(a) {
        a
    } else {
        b
    }
}

/// The name of a level.
pub open spec fn level_name(s: SatLevel) -> Seq<char> {
    match s {
        SatLevel::DefiniteSat => "definite-sat"@,
        SatLevel::PossiblySat => "possibly-sat"@,
        SatLevel::Unknown => "unknown"@,
        SatLevel::PossiblyUnsat => "possibly-unsat"@,
        SatLevel::DefiniteUnsat => "definite-unsat"@,
    }
}

/// The name of an answer.
pub open spec fn answer_name(r: SolverResult) -> Seq<char> {
    match r {
        SolverResult::Sat => "sat"@,
        SolverResult::Unsat => "unsat"@,
        SolverResult::Unknown => "unknown"@,
    }
}

impl SatLevel {
    /// The answer that the level supports.
    pub fn collapse(self) -> (r: SolverResult)
        ensures
            r == collapsed(self),
    {
        match self {
            SatLevel::DefiniteSat => SolverResult::Sat,
            SatLevel::DefiniteUnsat => SolverResult::Unsat,
            SatLevel::PossiblySat | SatLevel::Unknown | SatLevel::PossiblyUnsat => SolverResult::Unknown,
        }
    }

    /// The level of a confirmed answer.
    pub fn from_definite(r: SolverResult) -> (s: SatLevel)
        ensures
            s == confirmed(r),
    {
        match r {
            SolverResult::Sat => SatLevel::DefiniteSat,
            SolverResult::Unsat => SatLevel::DefiniteUnsat,
            SolverResult::Unknown => SatLevel::Unknown,
        }
    }

    /// Whether the level is a confirmed one.
    pub fn is_definite(self) -> (r: bool)
        ensures
            r == definite(self),
            r == !(collapsed(self) is Unknown),
    {
        match self {
            SatLevel::DefiniteSat | SatLevel::DefiniteUnsat => true,
            _ => false,
        }
    }

    /// The name of the level.
    pub fn as_full_str(self) -> (r: &'static str)
        ensures
            r@ == level_name(self),
    {
        match self {
            SatLevel::DefiniteSat => "definite-sat",
            SatLevel::PossiblySat => "possibly-sat",
            SatLevel::Unknown => "unknown",
            SatLevel::PossiblyUnsat => "possibly-unsat",
            SatLevel::DefiniteUnsat => "definite-unsat",
        }
    }

    /// Two verdicts on one formula combined.
    pub fn meet(self, other: SatLevel) -> (r: SatLevel)
        ensures
            r == met(self, other),
    {
        match (self, other) {
            (SatLevel::Unknown, x) => x,
            (x, SatLevel::Unknown) => x,
            (SatLevel::DefiniteSat, SatLevel::DefiniteUnsat) | (SatLevel::DefiniteUnsat, SatLevel::DefiniteSat) => SatLevel::Unknown,
            (SatLevel::DefiniteSat, _) | (_, SatLevel::DefiniteSat) => SatLevel::DefiniteSat,
            (SatLevel::DefiniteUnsat, _) | (_, SatLevel::DefiniteUnsat) => SatLevel::DefiniteUnsat,
            (SatLevel::PossiblySat, SatLevel::PossiblySat) => SatLevel::PossiblySat,
            (SatLevel::PossiblyUnsat, SatLevel::PossiblyUnsat) => SatLevel::PossiblyUnsat,
            (SatLevel::PossiblySat, SatLevel::PossiblyUnsat) | (SatLevel::PossiblyUnsat, SatLevel::PossiblySat) => SatLevel::Unknown,
        }
    }
}

impl From<SatLevel> for SolverResult {
    fn from(s: SatLevel) -> (r: SolverResult) {
        s.collapse()
    }
}

impl vstd::std_specs::convert::FromSpecImpl<SatLevel> for SolverResult {
    open spec fn obeys_from_spec() -> bool {
        true
    }

    open spec fn from_spec(s: SatLevel) -> SolverResult {
        collapsed(s)
    }
}

/// How verdicts are written.
#[derive(Clone, Copy, Debug, PartialEq, Eq, Structural)]
pub enum OutputMode {
    /// As one of the three answers.
    Z3Compatible,
    /// As one of the five levels.
    Full,
}

impl Default for OutputMode {
    fn default() -> (r: OutputMode)
        ensures
            r == OutputMode::Z3Compatible,
    {
        OutputMode::Z3Compatible
    }
}

impl OutputMode {
    /// A verdict as it is written.
    pub fn render(self, s: SatLevel) -> (r: &'static str)
        ensures
            r@ == match self {
                OutputMode::Z3Compatible => answer_name(collapsed(s)),
                OutputMode::Full => level_name(s),
            },
    {
        match self {
            OutputMode::Full => s.as_full_str(),
            OutputMode::Z3Compatible => match s.collapse() {
                SolverResult::Sat => "sat",
                SolverResult::Unsat => "unsat",
                SolverResult::Unknown => "unknown",
            },
        }
    }
}

/// Verdicts combine alike in either order.
pub proof fn law_meet_commutes(a: SatLevel, b: SatLevel)
    ensures
        met(a, b) == met(b, a),
{
}

/// A verdict combined with itself, or with no information, is unchanged.
pub proof fn law_meet_identity(a: SatLevel)
    ensures
        met(a, a) == a,
        met(a, SatLevel::Unknown) == a,
        met(SatLevel::Unknown, a) == a,
{
}

/// Combining never confirms: a confirmed result is one of the combined verdicts.
pub proof fn law_meet_never_upgrades(a: SatLevel, b: SatLevel)
    ensures
        definite(met(a, b)) ==> met(a, b) == a || met(a, b) == b,
        !definite(a) && !definite(b) ==> collapsed(met(a, b)) is Unknown,
{
}

/// A confirmed verdict prevails over any that is not confirmed.
pub proof fn law_confirmed_prevails(a: SatLevel, b: SatLevel)
    requires
        definite(a),
        !definite(b),
    ensures
        met(a, b) == a,
        met(b, a) == a,
{
}

/// Only confirmed verdicts surface, and they survive the way through the levels.
pub proof fn law_only_confirmed_surfaces(s: SatLevel, r: SolverResult)
    ensures
        collapsed(s) is Unknown <==> !definite(s),
        collapsed(confirmed(r)) == r,
        definite(s) ==> confirmed(collapsed(s)) == s,
{
}

/// Contrary verdicts of equal confidence cancel each other.
pub proof fn law_contraries_cancel(a: SatLevel, b: SatLevel)
    requires
        a is DefiniteSat && b is DefiniteUnsat || a is PossiblySat && b is PossiblyUnsat,
    ensures
        met(a, b) is Unknown,
        met(b, a) is Unknown,
{
}

/// Only a confirmed model is reported as one, and only a confirmed refutation.
pub proof fn law_answers_are_confirmed(s: SatLevel)
    ensures
        collapsed(s) is Sat <==> s is DefiniteSat,
        collapsed(s) is Unsat <==> s is DefiniteUnsat,
        definite(s) <==> s is DefiniteSat || s is DefiniteUnsat,
{
}

/// The name of a level is that of the answer, with its confidence before it unless there is none.
pub proof fn law_names_tell_levels_apart(s: SatLevel)
    ensures
        s is DefiniteSat ==> level_name(s) == "definite-"@ + answer_name(SolverResult::Sat),
        s is DefiniteUnsat ==> level_name(s) == "definite-"@ + answer_name(SolverResult::Unsat),
        s is PossiblySat ==> level_name(s) == "possibly-"@ + answer_name(SolverResult::Sat),
        s is PossiblyUnsat ==> level_name(s) == "possibly-"@ + answer_name(SolverResult::Unsat),
        s is Unknown ==> level_name(s) == answer_name(SolverResult::Unknown),
{
    reveal_strlit("definite-");
    reveal_strlit("possibly-");
    reveal_strlit("definite-sat");
    reveal_strlit("definite-unsat");
    reveal_strlit("possibly-sat");
    reveal_strlit("possibly-unsat");
    reveal_strlit("sat");
    reveal_strlit("unsat");
    assert("definite-sat"@ =~= "definite-"@ + "sat"@);
    assert("definite-unsat"@ =~= "definite-"@ + "unsat"@);
    assert("possibly-sat"@ =~= "possibly-"@ + "sat"@);
    assert("possibly-unsat"@ =~= "possibly-"@ + "unsat"@);
}

} // verus!
