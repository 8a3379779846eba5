//! Bounds that literal comparisons put on terms, and the test whether any value meets them.
use crate::linear::number;
use crate::linear::sum_value;
use crate::linear::zero;
use crate::linear::Valuation;
use crate::maps::map_get;
use crate::maps::map_insert;
use crate::maps::map_keys;
use crate::maps::map_new;
use crate::maps::map_remove;
use crate::numeral::signed;
use crate::numeral::to_i128;
use crate::rational::difference;
use crate::rational::difference_of;
use crate::rational::less;
use crate::rational::negation;
use crate::rational::negation_of;
use crate::rational::sum;
use crate::rational::sum_of;
use crate::rational::Rat;
use crate::term::Op;
use crate::term::Rel;
use crate::term::TermId;
use crate::term::TermManager;
use rustc_hash::FxHashMap;
use vstd::prelude::*;

verus! {

/// The number that a term spells out: a literal, or a sum, difference or negation of such.
pub open spec fn literal_of(m: &TermManager, t: TermId) -> Option<Rat>
    decreases t, m.args(t).len() + 1,
{
    if !m.has(t) {
        None
    } else {
        match m.op(t) {
            Op::IntConst { negative } => {
                let v = signed(negative, m.terms@[t as int].digits@);
                if i64::MIN <= v <= i64::MAX {
                    Some(Rat::whole(v as i128))
                } else {
                    None
                }
            },
            Op::RealConst { numer, denom } => Some(Rat { numer: numer as i128, denom: denom as i128 }),
            Op::Neg => if m.arg(t, 0) < t {
                match literal_of(m, m.arg(t, 0)) {
                    Some(v) => negation_of(v),
                    None => None,
                }
            } else {
                None
            },
            Op::Sub => if m.arg(t, 0) < t && m.arg(t, 1) < t {
                match (literal_of(m, m.arg(t, 0)), literal_of(m, m.arg(t, 1))) {
                    (Some(a), Some(b)) => difference_of(a, b),
                    _ => None,
                }
            } else {
                None
            },
            Op::Add => literal_sum(m, t, m.args(t).len() as int),
            _ => None,
        }
    }
}

/// The sum of what the first `k` arguments spell out.
pub open spec fn literal_sum(m: &TermManager, t: TermId, k: int) -> Option<Rat>
    decreases t, k,
{
    if k <= 0 {
        Some(zero())
    } else if m.arg(t, k - 1) >= t {
        None
    } else {
        match (literal_sum(m, t, k - 1), literal_of(m, m.arg(t, k - 1))) {
            (Some(a), Some(b)) => sum_of(a, b),
            _ => None,
        }
    }
}

/// A sum that fails stays failed.
proof fn lemma_literal_sum_fails(m: &TermManager, t: TermId, i: int, n: int)
    requires
        0 <= i <= n,
        literal_sum(m, t, i) is None,
    ensures
        literal_sum(m, t, n) is None,
    decreases n - i,
{
    if i < n {
        lemma_literal_sum_fails(m, t, i + 1, n);
    }
}

/// The number that a term spells out, if it spells out one that is representable.
pub fn extract_rational_const(m: &TermManager, t: TermId) -> (r: Option<Rat>)
    requires
        m.wf(),
    ensures
        r == literal_of(m, t),
        r matches Some(q) ==> q.wf(),
        r matches Some(q) ==> forall|v: Valuation| q.val() == #[trigger] number(m, v, t),
    decreases t,
{
    if t >= m.terms.len() {
        return None;
    }
    assert(m.terms@[t as int].fits(t as int));
    match m.terms[t].op {
        Op::IntConst { negative } => match to_i128(negative, &m.terms[t].digits) {
            Some(v) => if -0x8000_0000_0000_0000 <= v && v <= 0x7fff_ffff_ffff_ffff {
                Some(Rat::from_integer(v))
            } else {
                None
            },
            None => None,
        },
        Op::RealConst { numer, denom } => Some(Rat { numer: numer as i128, denom: denom as i128 }),
        Op::Neg => match extract_rational_const(m, m.terms[t].args[0]) {
            Some(v) => {
                proof {
                    assert forall|w: Valuation| (-v.val()) == #[trigger] number(m, w, t) by {
                        assert(v.val() == number(m, w, m.arg(t, 0)));
                    }
                }
                negation(v)
            },
            None => None,
        },
        Op::Sub => {
            let a = match extract_rational_const(m, m.terms[t].args[0]) {
                Some(a) => a,
                None => {
                    return None;
                },
            };
            let b = match extract_rational_const(m, m.terms[t].args[1]) {
                Some(b) => b,
                None => {
                    return None;
                },
            };
            proof {
                assert forall|w: Valuation| a.val() - b.val() == #[trigger] number(m, w, t) by {
                    assert(a.val() == number(m, w, m.arg(t, 0)));
                    assert(b.val() == number(m, w, m.arg(t, 1)));
                }
            }
            difference(a, b)
        },
        Op::Add => {
            let n: usize = m.terms[t].args.len();
            let mut acc = Rat::from_integer(0);
            let mut i: usize = 0;
            while i < n
                invariant
                    i <= n,
                    m.wf(),
                    m.has(t),
                    n == m.args(t).len(),
                    m.op(t) == Op::Add,
                    m.terms@[t as int].fits(t as int),
                    acc.wf(),
                    literal_sum(m, t, i as int) == Some(acc),
                    forall|v: Valuation| acc.val() == #[trigger] sum_value(m, v, t, i as int),
                decreases n - i,
            {
                let a: usize = m.terms[t].args[i];
                let term = match extract_rational_const(m, a) {
                    Some(c) => c,
                    None => {
                        proof {
                            lemma_literal_sum_fails(m, t, i + 1, n as int);
                        }
                        return None;
                    },
                };
                match sum(acc, term) {
                    Some(s) => {
                        proof {
                            assert forall|v: Valuation| s.val() == #[trigger] sum_value(m, v, t, i + 1) by {
                                assert(acc.val() == sum_value(m, v, t, i as int));
                                assert(term.val() == number(m, v, a));
                            }
                        }
                        acc = s;
                    },
                    None => {
                        proof {
                            lemma_literal_sum_fails(m, t, i + 1, n as int);
                        }
                        return None;
                    },
                }
                i = i + 1;
            }
            proof {
                assert forall|v: Valuation| acc.val() == #[trigger] number(m, v, t) by {
                    assert(acc.val() == sum_value(m, v, t, n as int));
                }
            }
            Some(acc)
        },
        _ => None,
    }
}

/// One literal bound on a value.
pub enum Bound {
    /// The value is above the number, or equal to it unless the bound is strict.
    Lo(Rat, bool),
    /// The value is below the number, or equal to it unless the bound is strict.
    Hi(Rat, bool),
    /// The value is the number.
    Is(Rat),
}

/// A value meets a bound.
pub open spec fn meets(x: real, b: Bound) -> bool {
    match b {
        Bound::Lo(c, strict) => if strict {
            x > c.val()
        } else {
            x >= c.val()
        },
        Bound::Hi(c, strict) => if strict {
            x < c.val()
        } else {
            x <= c.val()
        },
        Bound::Is(c) => x == c.val(),
    }
}

/// The bounds that `a > b`, or `a >= b` unless it is strict, puts on the side that is no literal.
pub open spec fn ineq_bounds(m: &TermManager, a: TermId, b: TermId, strict: bool) -> Seq<(TermId, Bound)> {
    match literal_of(m, b) {
        Some(c) => seq![(a, Bound::Lo(c, strict))],
        None => match literal_of(m, a) {
            Some(c) => seq![(b, Bound::Hi(c, strict))],
            None => Seq::empty(),
        },
    }
}

/// The literal bounds among the conjuncts of a formula.
pub open spec fn bounds_of(m: &TermManager, t: TermId) -> Seq<(TermId, Bound)>
    decreases t, m.args(t).len() + 1,
{
    if !m.has(t) {
        Seq::empty()
    } else {
        let a = m.arg(t, 0);
        let b = m.arg(t, 1);
        match m.op(t) {
            Op::And => conjunct_bounds(m, t, m.args(t).len() as int),
            Op::Compare(Rel::Gt) => ineq_bounds(m, a, b, true),
            Op::Compare(Rel::Ge) => ineq_bounds(m, a, b, false),
            Op::Compare(Rel::Lt) => ineq_bounds(m, b, a, true),
            Op::Compare(Rel::Le) => ineq_bounds(m, b, a, false),
            Op::Eq => match literal_of(m, b) {
                Some(c) => seq![(a, Bound::Is(c))],
                None => match literal_of(m, a) {
                    Some(c) => seq![(b, Bound::Is(c))],
                    None => Seq::empty(),
                },
            },
            _ => Seq::empty(),
        }
    }
}

/// The literal bounds among the first `k` conjuncts.
pub open spec fn conjunct_bounds(m: &TermManager, t: TermId, k: int) -> Seq<(TermId, Bound)>
    decreases t, k,
{
    if k <= 0 || m.arg(t, k - 1) >= t {
        Seq::empty()
    } else {
        conjunct_bounds(m, t, k - 1) + bounds_of(m, m.arg(t, k - 1))
    }
}

/// The literal bounds among the conjuncts of the first `k` formulas.
pub open spec fn asserted_bounds(m: &TermManager, assertions: Seq<TermId>, k: int) -> Seq<(TermId, Bound)>
    decreases k,
{
    if k <= 0 {
        Seq::empty()
    } else {
        asserted_bounds(m, assertions, k - 1) + bounds_of(m, assertions[k - 1])
    }
}

/// The bounds that a list puts on one term are met by a value.
pub open spec fn admitted(bounds: Seq<(TermId, Bound)>, t: TermId, x: real) -> bool {
    forall|i: int| 0 <= i < bounds.len() && (#[trigger] bounds[i]).0 == t ==> meets(x, bounds[i].1)
}

/// A value for each term meets all bounds of a list.
pub open spec fn all_met(bounds: Seq<(TermId, Bound)>, w: Valuation) -> bool {
    forall|i: int| 0 <= i < bounds.len() ==> meets(w((#[trigger] bounds[i]).0), bounds[i].1)
}

/// The tightest literal bounds on one term.
#[derive(Debug)]
pub struct TermBounds {
    pub lo: Option<(Rat, bool)>,
    pub hi: Option<(Rat, bool)>,
    pub eqs: Vec<Rat>,
}

impl TermBounds {
    /// Every number is a fraction with a positive denominator.
    pub open spec fn wf(&self) -> bool {
        &&& self.lo matches Some(b) ==> b.0.wf()
        &&& self.hi matches Some(b) ==> b.0.wf()
        &&& forall|i: int| 0 <= i < self.eqs@.len() ==> (#[trigger] self.eqs@[i]).wf()
    }

    /// A value meets all the bounds.
    pub open spec fn admits(&self, x: real) -> bool {
        &&& self.lo matches Some(b) ==> meets(x, Bound::Lo(b.0, b.1))
        &&& self.hi matches Some(b) ==> meets(x, Bound::Hi(b.0, b.1))
        &&& forall|i: int| 0 <= i < self.eqs@.len() ==> x == (#[trigger] self.eqs@[i]).val()
    }

    /// Some value meets all the bounds.
    pub open spec fn feasible(&self) -> bool {
        exists|x: real| self.admits(x)
    }

    /// No bound at all.
    pub fn new() -> (b: TermBounds)
        ensures
            b.wf(),
            b.lo is None,
            b.hi is None,
            b.eqs@.len() == 0,
    {
        TermBounds { lo: None, hi: None, eqs: Vec::new() }
    }

    /// Keeps the tighter of the present lower bound and a new one: the larger number, and the
    /// strict bound for equal numbers.
    pub fn add_lo(&mut self, v: Rat, strict: bool)
        requires
            old(self).wf(),
            v.wf(),
        ensures
            final(self).wf(),
            final(self).hi == old(self).hi,
            final(self).eqs@ == old(self).eqs@,
            final(self).lo == old(self).lo || final(self).lo == Some((v, strict)),
            forall|x: real| #[trigger] final(self).admits(x) <==> old(self).admits(x) && meets(x, Bound::Lo(v, strict)),
    {
        let tighter = match self.lo {
            None => true,
            Some((c, s)) => less(c, v) || (!less(v, c) && strict && !s),
        };
        if tighter {
            self.lo = Some((v, strict));
        }
    }

    /// Keeps the tighter of the present upper bound and a new one: the smaller number, and the
    /// strict bound for equal numbers.
    pub fn add_hi(&mut self, v: Rat, strict: bool)
        requires
            old(self).wf(),
            v.wf(),
        ensures
            final(self).wf(),
            final(self).lo == old(self).lo,
            final(self).eqs@ == old(self).eqs@,
            final(self).hi == old(self).hi || final(self).hi == Some((v, strict)),
            forall|x: real| #[trigger] final(self).admits(x) <==> old(self).admits(x) && meets(x, Bound::Hi(v, strict)),
    {
        let tighter = match self.hi {
            None => true,
            Some((c, s)) => less(v, c) || (!less(c, v) && strict && !s),
        };
        if tighter {
            self.hi = Some((v, strict));
        }
    }

    /// Records that the value is a given number.
    pub fn add_eq(&mut self, v: Rat)
        requires
            old(self).wf(),
            v.wf(),
        ensures
            final(self).wf(),
            final(self).lo == old(self).lo,
            final(self).hi == old(self).hi,
            final(self).eqs@ == old(self).eqs@.push(v),
            forall|x: real| #[trigger] final(self).admits(x) <==> old(self).admits(x) && x == v.val(),
    {
        self.eqs.push(v);
        proof {
            assert forall|x: real| #[trigger] self.admits(x) <==> old(self).admits(x) && x == v.val() by {
                if self.admits(x) {
                    assert(x == self.eqs@[old(self).eqs@.len() as int].val());
                    assert forall|i: int| 0 <= i < old(self).eqs@.len() implies x == (#[trigger] old(self).eqs@[i]).val() by {
                        assert(self.eqs@[i] == old(self).eqs@[i]);
                    }
                }
            }
        }
    }

    /// No value whatsoever meets the bounds.
    pub fn is_infeasible(&self) -> (r: bool)
        requires
            self.wf(),
        ensures
            r == !self.feasible(),
    {
        let n: usize = self.eqs.len();
        let mut i: usize = 0;
        while i < n
            invariant
                i <= n,
                n == self.eqs@.len(),
                self.wf(),
                forall|k: int| 0 <= k < i ==> (#[trigger] self.eqs@[k]).val() == self.eqs@[0].val(),
                i > 0 ==> (self.lo matches Some(b) ==> meets(self.eqs@[0].val(), Bound::Lo(b.0, b.1))),
                i > 0 ==> (self.hi matches Some(b) ==> meets(self.eqs@[0].val(), Bound::Hi(b.0, b.1))),
            decreases n - i,
        {
            assert(self.eqs@[0].wf() && self.eqs@[i as int].wf());
            let first = self.eqs[0];
            let e = self.eqs[i];
            if less(first, e) || less(e, first) {
                assert(forall|x: real| self.admits(x) ==> x == self.eqs@[0].val() && x == self.eqs@[i as int].val());
                return true;
            }
            if let Some((lo, strict)) = self.lo {
                if less(e, lo) || (!less(lo, e) && strict) {
                    assert(forall|x: real| self.admits(x) ==> x == self.eqs@[i as int].val());
                    return true;
                }
            }
            if let Some((hi, strict)) = self.hi {
                if less(hi, e) || (!less(e, hi) && strict) {
                    assert(forall|x: real| self.admits(x) ==> x == self.eqs@[i as int].val());
                    return true;
                }
            }
            i = i + 1;
        }
        if n > 0 {
            assert(self.admits(self.eqs@[0].val()));
            return false;
        }
        match (self.lo, self.hi) {
            (Some((lo, sl)), Some((hi, sh))) => {
                let empty = less(hi, lo) || (!less(lo, hi) && (sl || sh));
                proof {
                    if !empty {
                        let mid: real = (lo.val() + hi.val()) / 2real;
                        assert(self.admits(mid));
                    }
                }
                empty
            },
            (Some((lo, _)), None) => {
                assert(self.admits(lo.val() + 1real));
                false
            },
            (None, Some((hi, _))) => {
                assert(self.admits(hi.val() - 1real));
                false
            },
            (None, None) => {
                assert(self.admits(0real));
                false
            },
        }
    }
}

/// The table sums up a list of bounds, term by term.
pub open spec fn sums_up(table: Map<usize, TermBounds>, bounds: Seq<(TermId, Bound)>) -> bool {
    &&& forall|t: usize| #[trigger] table.contains_key(t) ==> table[t].wf() && forall|x: real|
        #[trigger] table[t].admits(x) <==> admitted(bounds, t, x)
    &&& forall|i: int| 0 <= i < bounds.len() ==> table.contains_key((#[trigger] bounds[i]).0)
}

/// What one more bound means for what a term may be.
proof fn lemma_admitted_push(bounds: Seq<(TermId, Bound)>, t: TermId, b: Bound, s: TermId, x: real)
    ensures
        admitted(bounds.push((t, b)), s, x) <==> admitted(bounds, s, x) && (s == t ==> meets(x, b)),
{
    let more = bounds.push((t, b));
    if admitted(more, s, x) {
        assert(more[bounds.len() as int] == (t, b));
        assert forall|i: int| 0 <= i < bounds.len() && (#[trigger] bounds[i]).0 == s implies meets(x, bounds[i].1) by {
            assert(more[i] == bounds[i]);
        }
    }
}

/// Adds one bound to the table.
fn record(table: &mut FxHashMap<usize, TermBounds>, t: TermId, b: Bound, Ghost(bounds): Ghost<Seq<(TermId, Bound)>>)
    requires
        sums_up(old(table)@, bounds),
        b matches Bound::Lo(c, _) ==> c.wf(),
        b matches Bound::Hi(c, _) ==> c.wf(),
        b matches Bound::Is(c) ==> c.wf(),
    ensures
        sums_up(final(table)@, bounds.push((t, b))),
{
    let found = map_remove(table, t);
    let ghost known = found is Some;
    let mut entry = match found {
        Some(e) => e,
        None => TermBounds::new(),
    };
    let ghost before = entry;
    proof {
        assert forall|x: real| #[trigger] before.admits(x) <==> admitted(bounds, t, x) by {
            if !known {
                assert forall|i: int| 0 <= i < bounds.len() && (#[trigger] bounds[i]).0 == t implies false by {
                    assert(old(table)@.contains_key(bounds[i].0));
                }
            }
        }
    }
    match b {
        Bound::Lo(c, strict) => {
            entry.add_lo(c, strict);
        },
        Bound::Hi(c, strict) => {
            entry.add_hi(c, strict);
        },
        Bound::Is(c) => {
            entry.add_eq(c);
        },
    }
    let ghost after = entry;
    map_insert(table, t, entry);
    proof {
        let more = bounds.push((t, b));
        assert forall|s: usize| #[trigger] table@.contains_key(s) implies table@[s].wf() && forall|x: real|
            #[trigger] table@[s].admits(x) <==> admitted(more, s, x) by {
            assert forall|x: real| #[trigger] table@[s].admits(x) <==> admitted(more, s, x) by {
                lemma_admitted_push(bounds, t, b, s, x);
                if s == t {
                    assert(after.admits(x) <==> before.admits(x) && meets(x, b));
                } else {
                    assert(old(table)@.contains_key(s));
                    assert(old(table)@[s].admits(x) <==> admitted(bounds, s, x));
                }
            }
            if s != t {
                assert(old(table)@.contains_key(s));
            }
        }
        assert forall|i: int| 0 <= i < more.len() implies table@.contains_key((#[trigger] more[i]).0) by {
            if i < bounds.len() {
                assert(more[i] == bounds[i]);
            }
        }
    }
}

/// Records the bound of `a > b`, or of `a >= b` unless it is strict, if one side is a literal.
fn record_ineq(
    m: &TermManager,
    a: TermId,
    b: TermId,
    strict: bool,
    table: &mut FxHashMap<usize, TermBounds>,
    Ghost(bounds): Ghost<Seq<(TermId, Bound)>>,
)
    requires
        m.wf(),
        sums_up(old(table)@, bounds),
    ensures
        sums_up(final(table)@, bounds + ineq_bounds(m, a, b, strict)),
{
    if let Some(c) = extract_rational_const(m, b) {
        record(table, a, Bound::Lo(c, strict), Ghost(bounds));
        assert(bounds + ineq_bounds(m, a, b, strict) =~= bounds.push((a, Bound::Lo(c, strict))));
    } else if let Some(c) = extract_rational_const(m, a) {
        record(table, b, Bound::Hi(c, strict), Ghost(bounds));
        assert(bounds + ineq_bounds(m, a, b, strict) =~= bounds.push((b, Bound::Hi(c, strict))));
    } else {
        assert(bounds + ineq_bounds(m, a, b, strict) =~= bounds);
    }
}

/// Records the literal bounds among the conjuncts of a formula.
fn collect_term_bounds(
    m: &TermManager,
    t: TermId,
    table: &mut FxHashMap<usize, TermBounds>,
    Ghost(bounds): Ghost<Seq<(TermId, Bound)>>,
)
    requires
        m.wf(),
        sums_up(old(table)@, bounds),
    ensures
        sums_up(final(table)@, bounds + bounds_of(m, t)),
    decreases t,
{
    if t >= m.terms.len() {
        assert(bounds + bounds_of(m, t) =~= bounds);
        return ;
    }
    assert(m.terms@[t as int].fits(t as int));
    match m.terms[t].op {
        Op::And => {
            let n: usize = m.terms[t].args.len();
            let mut i: usize = 0;
            proof {
                assert(bounds + conjunct_bounds(m, t, 0) =~= bounds);
            }
            while i < n
                invariant
                    i <= n,
                    m.wf(),
                    m.has(t),
                    n == m.args(t).len(),
                    m.terms@[t as int].fits(t as int),
                    sums_up(table@, bounds + conjunct_bounds(m, t, i as int)),
                decreases n - i,
            {
                let a: usize = m.terms[t].args[i];
                collect_term_bounds(m, a, table, Ghost(bounds + conjunct_bounds(m, t, i as int)));
                proof {
                    assert(bounds + conjunct_bounds(m, t, i as int) + bounds_of(m, a) =~= bounds + conjunct_bounds(
                        m,
                        t,
                        i + 1,
                    ));
                }
                i = i + 1;
            }
        },
        Op::Compare(rel) => {
            let a: usize = m.terms[t].args[0];
            let b: usize = m.terms[t].args[1];
            match rel {
                Rel::Gt => record_ineq(m, a, b, true, table, Ghost(bounds)),
                Rel::Ge => record_ineq(m, a, b, false, table, Ghost(bounds)),
                Rel::Lt => record_ineq(m, b, a, true, table, Ghost(bounds)),
                Rel::Le => record_ineq(m, b, a, false, table, Ghost(bounds)),
            }
        },
        Op::Eq => {
            let a: usize = m.terms[t].args[0];
            let b: usize = m.terms[t].args[1];
            if let Some(c) = extract_rational_const(m, b) {
                record(table, a, Bound::Is(c), Ghost(bounds));
                assert(bounds + bounds_of(m, t) =~= bounds.push((a, Bound::Is(c))));
            } else if let Some(c) = extract_rational_const(m, a) {
                record(table, b, Bound::Is(c), Ghost(bounds));
                assert(bounds + bounds_of(m, t) =~= bounds.push((b, Bound::Is(c))));
            } else {
                assert(bounds + bounds_of(m, t) =~= bounds);
            }
        },
        _ => {
            assert(bounds + bounds_of(m, t) =~= bounds);
        },
    }
}

/// No choice of values for terms meets the literal bounds among the conjuncts of the assertions.
pub open spec fn bounds_infeasible(m: &TermManager, assertions: Seq<TermId>) -> bool {
    !(exists|w: Valuation| all_met(asserted_bounds(m, assertions, assertions.len() as int), w))
}

/// Whether the literal bounds among the conjuncts of the assertions are met by no choice of
/// values for the bounded terms, whatever those terms denote.
pub fn check_term_bound_infeasible(m: &TermManager, assertions: &Vec<TermId>) -> (r: bool)
    requires
        m.wf(),
    ensures
        r == bounds_infeasible(m, assertions@),
{
    let ghost bounds = Seq::<(TermId, Bound)>::empty();
    let mut table: FxHashMap<usize, TermBounds> = map_new();
    let mut i: usize = 0;
    while i < assertions.len()
        invariant
            i <= assertions.len(),
            m.wf(),
            bounds == asserted_bounds(m, assertions@, i as int),
            sums_up(table@, bounds),
        decreases assertions.len() - i,
    {
        collect_term_bounds(m, assertions[i], &mut table, Ghost(bounds));
        proof {
            bounds = bounds + bounds_of(m, assertions@[i as int]);
        }
        i = i + 1;
    }
    let keys = map_keys(&table);
    let mut k: usize = 0;
    while k < keys.len()
        invariant
            k <= keys.len(),
            bounds == asserted_bounds(m, assertions@, assertions@.len() as int),
            sums_up(table@, bounds),
            forall|t: usize| keys@.contains(t) <==> table@.contains_key(t),
            forall|j: int| 0 <= j < k ==> table@[#[trigger] keys@[j]].feasible(),
        decreases keys.len() - k,
    {
        let t: usize = keys[k];
        assert(keys@.contains(t));
        match map_get(&table, t) {
            Some(b) => {
                if b.is_infeasible() {
                    proof {
                        assert forall|w: Valuation| !all_met(bounds, w) by {
                            if all_met(bounds, w) {
                                assert(admitted(bounds, t, w(t)));
                                assert(table@[t].admits(w(t)));
                            }
                        }
                    }
                    return true;
                }
            },
            None => {},
        }
        k = k + 1;
    }
    proof {
        let w: Valuation = |t: TermId| choose|x: real| table@[t].admits(x);
        assert(all_met(bounds, w)) by {
            assert forall|i: int| 0 <= i < bounds.len() implies meets(w((#[trigger] bounds[i]).0), bounds[i].1) by {
                let t = bounds[i].0;
                assert(table@.contains_key(t));
                assert(keys@.contains(t));
                let j = choose|j: int| 0 <= j < keys@.len() && keys@[j] == t;
                assert(table@[keys@[j]].feasible());
                assert(table@[t].admits(w(t)));
                assert(admitted(bounds, t, w(t)));
            }
        }
    }
    false
}

/// A value for each term under which a formula may hold: its conjuncts that compare or equate
/// terms do.
pub open spec fn conjuncts_hold(m: &TermManager, w: Valuation, t: TermId) -> bool
    decreases t,
{
    m.has(t) ==> match m.op(t) {
        Op::And => forall|i: int| 0 <= i < m.args(t).len() ==> #[trigger] m.args(t)[i] < t && conjuncts_hold(m, w, m.args(t)[i]),
        Op::Compare(Rel::Gt) => w(m.arg(t, 0)) > w(m.arg(t, 1)),
        Op::Compare(Rel::Ge) => w(m.arg(t, 0)) >= w(m.arg(t, 1)),
        Op::Compare(Rel::Lt) => w(m.arg(t, 0)) < w(m.arg(t, 1)),
        Op::Compare(Rel::Le) => w(m.arg(t, 0)) <= w(m.arg(t, 1)),
        Op::Eq => w(m.arg(t, 0)) == w(m.arg(t, 1)),
        _ => true,
    }
}

/// Terms that spell out a number have it as their value.
pub open spec fn respects_literals(m: &TermManager, w: Valuation) -> bool {
    forall|t: TermId| #[trigger] literal_of(m, t) is Some ==> w(t) == literal_of(m, t)->0.val()
}

/// The bounds of a formula are met where its conjuncts hold.
proof fn lemma_bounds_met(m: &TermManager, w: Valuation, t: TermId)
    requires
        m.wf(),
        respects_literals(m, w),
        conjuncts_hold(m, w, t),
    ensures
        all_met(bounds_of(m, t), w),
    decreases t, m.args(t).len() + 1,
{
    if m.has(t) {
        assert(m.terms@[t as int].fits(t as int));
        match m.op(t) {
            Op::And => {
                lemma_conjunct_bounds_met(m, w, t, m.args(t).len() as int);
            },
            _ => {},
        }
    }
}

/// The bounds of the first conjuncts are met where they hold.
proof fn lemma_conjunct_bounds_met(m: &TermManager, w: Valuation, t: TermId, k: int)
    requires
        m.wf(),
        m.has(t),
        respects_literals(m, w),
        0 <= k <= m.args(t).len(),
        forall|i: int| 0 <= i < k ==> #[trigger] m.args(t)[i] < t && conjuncts_hold(m, w, m.args(t)[i]),
    ensures
        all_met(conjunct_bounds(m, t, k), w),
    decreases t, k,
{
    if k > 0 {
        assert(m.args(t)[k - 1] < t);
        lemma_conjunct_bounds_met(m, w, t, k - 1);
        lemma_bounds_met(m, w, m.args(t)[k - 1]);
    }
}

/// Literal bounds that no value meets refute the assertions: they are not found infeasible where
/// the conjuncts of all assertions hold for some values of the terms, whatever the terms denote,
/// under which each spelled-out number has its value.
pub proof fn law_infeasible_bounds_refute(m: &TermManager, assertions: Seq<TermId>, w: Valuation)
    requires
        m.wf(),
        respects_literals(m, w),
        forall|i: int| 0 <= i < assertions.len() ==> conjuncts_hold(m, w, #[trigger] assertions[i]),
    ensures
        !bounds_infeasible(m, assertions),
{
    lemma_asserted_bounds_met(m, assertions, w, assertions.len() as int);
}

/// The bounds of the first assertions are met where their conjuncts hold.
proof fn lemma_asserted_bounds_met(m: &TermManager, assertions: Seq<TermId>, w: Valuation, k: int)
    requires
        m.wf(),
        respects_literals(m, w),
        0 <= k <= assertions.len(),
        forall|i: int| 0 <= i < assertions.len() ==> conjuncts_hold(m, w, #[trigger] assertions[i]),
    ensures
        all_met(asserted_bounds(m, assertions, k), w),
    decreases k,
{
    if k > 0 {
        lemma_asserted_bounds_met(m, assertions, w, k - 1);
        lemma_bounds_met(m, w, assertions[k - 1]);
    }
}

/// The formula is a comparison or an equality with a side that spells out a number, or a conjunction
/// of such.
pub open spec fn compares_literals(m: &TermManager, t: TermId) -> bool
    decreases t,
{
    m.has(t) && match m.op(t) {
        Op::And => forall|i: int| 0 <= i < m.args(t).len() ==> #[trigger] m.args(t)[i] < t && compares_literals(m, m.args(t)[i]),
        Op::Compare(_) | Op::Eq => literal_of(m, m.arg(t, 0)) is Some || literal_of(m, m.arg(t, 1)) is Some,
        _ => false,
    }
}

/// Bounds are met together exactly where both parts are.
proof fn lemma_all_met_sum(a: Seq<(TermId, Bound)>, b: Seq<(TermId, Bound)>, w: Valuation)
    ensures
        all_met(a + b, w) <==> all_met(a, w) && all_met(b, w),
{
    let s = a + b;
    if all_met(s, w) {
        assert forall|i: int| 0 <= i < a.len() implies meets(w((#[trigger] a[i]).0), a[i].1) by {
            assert(s[i] == a[i]);
        }
        assert forall|i: int| 0 <= i < b.len() implies meets(w((#[trigger] b[i]).0), b[i].1) by {
            assert(s[a.len() + i] == b[i]);
        }
    }
}

/// The literal bounds of comparisons with numbers say all that the comparisons say: values meet them
/// exactly where the conjuncts hold.
pub proof fn law_bounds_say_what_comparisons_say(m: &TermManager, w: Valuation, t: TermId)
    requires
        m.wf(),
        respects_literals(m, w),
        compares_literals(m, t),
    ensures
        all_met(bounds_of(m, t), w) <==> conjuncts_hold(m, w, t),
    decreases t, m.args(t).len() + 1,
{
    assert(m.terms@[t as int].fits(t as int));
    match m.op(t) {
        Op::And => {
            lemma_conjunct_bounds_say(m, w, t, m.args(t).len() as int);
        },
        _ => {
            let a = m.arg(t, 0);
            let b = m.arg(t, 1);
            let s = bounds_of(m, t);
            assert(s.len() == 1);
            assert(all_met(s, w) <==> meets(w(s[0].0), s[0].1));
            assert(literal_of(m, a) is Some ==> w(a) == literal_of(m, a)->0.val());
            assert(literal_of(m, b) is Some ==> w(b) == literal_of(m, b)->0.val());
        },
    }
}

/// So do those of the first conjuncts.
proof fn lemma_conjunct_bounds_say(m: &TermManager, w: Valuation, t: TermId, k: int)
    requires
        m.wf(),
        m.has(t),
        respects_literals(m, w),
        0 <= k <= m.args(t).len(),
        forall|i: int| 0 <= i < m.args(t).len() ==> #[trigger] m.args(t)[i] < t && compares_literals(m, m.args(t)[i]),
    ensures
        all_met(conjunct_bounds(m, t, k), w) <==> forall|i: int| 0 <= i < k ==> conjuncts_hold(m, w, #[trigger] m.args(t)[i]),
    decreases t, k,
{
    if k > 0 {
        assert(m.args(t)[k - 1] < t && compares_literals(m, m.args(t)[k - 1]));
        lemma_conjunct_bounds_say(m, w, t, k - 1);
        law_bounds_say_what_comparisons_say(m, w, m.args(t)[k - 1]);
        lemma_all_met_sum(conjunct_bounds(m, t, k - 1), bounds_of(m, m.args(t)[k - 1]), w);
    }
}

/// Numbers are read wherever they are spelled out: integers of 64 bits, fractions, and the negatives,
/// differences and sums of two of what is read, as far as they can be computed.
pub proof fn law_spelled_out_numbers_are_read(m: &TermManager, t: TermId)
    requires
        m.wf(),
        m.has(t),
    ensures
        m.op(t) matches Op::IntConst { negative } ==> (i64::MIN <= signed(negative, m.terms@[t as int].digits@) <= i64::MAX ==> (literal_of(
            m,
            t,
        ) matches Some(q) && q.denom == 1 && q.numer == signed(negative, m.terms@[t as int].digits@))),
        m.op(t) matches Op::RealConst { numer, denom } ==> (literal_of(m, t) matches Some(q) && q.numer == numer && q.denom == denom),
        m.op(t) == Op::Neg ==> (literal_of(m, m.arg(t, 0)) matches Some(a) ==> literal_of(m, t) == negation_of(a)),
        m.op(t) == Op::Sub ==> (literal_of(m, m.arg(t, 0)) matches Some(a) ==> (literal_of(m, m.arg(t, 1)) matches Some(b) ==> literal_of(m, t)
            == difference_of(a, b))),
        m.op(t) == Op::Add && m.args(t).len() == 2 ==> (literal_of(m, m.arg(t, 0)) matches Some(a) ==> (literal_of(m, m.arg(t, 1)) matches Some(
            b,
        ) ==> (sum_of(zero(), a) matches Some(s) ==> literal_of(m, t) == sum_of(s, b)))),
{
    assert(m.terms@[t as int].fits(t as int));
    reveal_with_fuel(literal_of, 2);
    reveal_with_fuel(literal_sum, 2);
    if m.op(t) == Op::Neg {
        assert(m.args(t)[0] < t);
    }
    if m.op(t) == Op::Sub {
        assert(m.args(t)[0] < t && m.args(t)[1] < t);
    }
    if m.op(t) == Op::Add && m.args(t).len() == 2 {
        assert(m.args(t)[0] < t && m.args(t)[1] < t);
        assert(literal_sum(m, t, 0) == Some(zero()));
        assert(literal_sum(m, t, 1) == match literal_of(m, m.arg(t, 0)) {
            Some(a) => sum_of(zero(), a),
            None => None,
        });
        assert(literal_sum(m, t, 2) == match (literal_sum(m, t, 1), literal_of(m, m.arg(t, 1))) {
            (Some(a), Some(b)) => sum_of(a, b),
            _ => None,
        });
        assert(literal_of(m, t) == literal_sum(m, t, m.args(t).len() as int));
    }
}

/// The bounds of the assertions are those of each of them: values that meet them meet those of every
/// assertion.
pub proof fn law_every_assertion_bounds(m: &TermManager, assertions: Seq<TermId>, w: Valuation, k: int, i: int)
    requires
        0 <= i < k <= assertions.len(),
        all_met(asserted_bounds(m, assertions, k), w),
    ensures
        all_met(bounds_of(m, assertions[i]), w),
    decreases k,
{
    let before = asserted_bounds(m, assertions, k - 1);
    let own = bounds_of(m, assertions[k - 1]);
    let all = before + own;
    assert(asserted_bounds(m, assertions, k) == all);
    if i == k - 1 {
        assert forall|j: int| 0 <= j < own.len() implies meets(w((#[trigger] own[j]).0), own[j].1) by {
            assert(all[before.len() + j] == own[j]);
        }
    } else {
        assert forall|j: int| 0 <= j < before.len() implies meets(w((#[trigger] before[j]).0), before[j].1) by {
            assert(all[j] == before[j]);
        }
        law_every_assertion_bounds(m, assertions, w, k - 1, i);
    }
}

} // verus!
