//! The model of a satisfying assignment, put together from the answers of the search and of the
//! theories.
use crate::encoder::Constraint;
use crate::encoder::Encoder;
use crate::maps::map_get;
use crate::maps::map_keys;
use crate::maps::set_contains;
use crate::maps::set_elements;
use crate::model::in_store;
use crate::model::truth_term;
use crate::model::Model;
use crate::numeral::digits_of;
use crate::numeral::digits_value;
use crate::numeral::magnitude;
use crate::numeral::signed;
use crate::numeral::to_i128;
use crate::rational::lowest_terms;
use crate::rational::Rat;
use crate::term::Op;
use crate::term::Term;
use crate::term::TermId;
use crate::term::TermManager;
use crate::term::FALSE_TERM;
use crate::term::INT_SORT;
use crate::term::REAL_SORT;
use crate::term::TRUE_TERM;
use crate::track::lemma_extended_self;
use rustc_hash::FxHashMap;
use vstd::prelude::*;

verus! {

/// What the search and the theories say of a satisfying assignment.
#[derive(Debug)]
pub struct Answers {
    /// The truth values of the variables of the search, by index.
    pub truths: Vec<Option<bool>>,
    /// The values of integer terms, rounded within their bounds.
    pub ints: FxHashMap<usize, i128>,
    /// The values of real terms.
    pub reals: FxHashMap<usize, Rat>,
    /// The values of bit vectors that were taken apart into bits.
    pub bits: FxHashMap<usize, u64>,
    /// The values of bit vectors that arithmetic knows as integers.
    pub nums: FxHashMap<usize, u128>,
}

impl Answers {
    /// The fractions have positive denominators.
    pub open spec fn wf(&self) -> bool {
        forall|t: usize| #[trigger] self.reals@.contains_key(t) ==> self.reals@[t].wf()
    }

    /// The truth value of a variable.
    pub open spec fn truth_of(&self, v: usize) -> Option<bool> {
        if v < self.truths@.len() {
            self.truths@[v as int]
        } else {
            None
        }
    }

    /// The truth value of a variable.
    fn truth(&self, v: usize) -> (r: Option<bool>)
        ensures
            r == self.truth_of(v),
    {
        if v < self.truths.len() {
            self.truths[v]
        } else {
            None
        }
    }
}

/// A number rounded towards zero, and then to the nearest number of 64 bits.
pub open spec fn whole_part(q: Rat) -> int {
    let n = q.numer as int;
    let d = q.denom as int;
    let w = if n >= 0 {
        n / d
    } else {
        -((-n) / d)
    };
    if w < i64::MIN {
        i64::MIN as int
    } else if w > i64::MAX {
        i64::MAX as int
    } else {
        w
    }
}

/// The numerator and the denominator have 64 bits.
pub open spec fn is_narrow(q: Rat) -> bool {
    i64::MIN <= q.numer <= i64::MAX && i64::MIN <= q.denom <= i64::MAX
}

/// The fraction in 64 bits: the same number in lowest terms where they hold it, else its whole part.
pub open spec fn narrows(q: Rat, r: (i64, i64)) -> bool {
    if is_narrow(q) {
        r.1 > 0 && r.0 * q.denom == q.numer * r.1 && crate::rational::coprime(r.0 as int, r.1 as int)
    } else {
        r.0 == whole_part(q) && r.1 == 1
    }
}

/// A fraction in 64 bits.
pub fn narrow_arith_to_real64(q: Rat) -> (r: (i64, i64))
    requires
        q.wf(),
    ensures
        narrows(q, r),
        r.1 > 0,
{
    let low: i128 = -0x8000_0000_0000_0000;
    let high: i128 = 0x7fff_ffff_ffff_ffff;
    if low <= q.numer && q.numer <= high && low <= q.denom && q.denom <= high {
        lowest_terms(q.numer as i64, q.denom as i64)
    } else {
        let w: i128 = q.numer / q.denom;
        let n: i64 = if w < low {
            i64::MIN
        } else if w > high {
            i64::MAX
        } else {
            w as i64
        };
        (n, 1)
    }
}

/// The term has a value of its own in the theories.
pub open spec fn is_known(m: &TermManager, e: &Encoder, t: TermId) -> bool {
    e.arith_terms@.contains(t) || e.bv_terms@.contains(t) || (m.has(t) && m.op(t) is Apply)
}

/// The side of an equality that has a value of its own, and the other one.
pub open spec fn sides(m: &TermManager, e: &Encoder, a: TermId, b: TermId) -> Option<(TermId, TermId)> {
    if is_known(m, e, a) {
        Some((a, b))
    } else if is_known(m, e, b) {
        Some((b, a))
    } else {
        None
    }
}

/// The term is a literal that a model can hold.
pub open spec fn is_literal(m: &TermManager, c: TermId) -> bool {
    m.has(c) && match m.op(c) {
        Op::IntConst { negative } => i64::MIN <= signed(negative, m.terms@[c as int].digits@) <= i64::MAX,
        Op::RealConst { .. } => true,
        Op::BitVecConst { .. } => digits_value(m.terms@[c as int].digits@) <= u64::MAX,
        _ => false,
    }
}

/// An equality that holds gives the term the literal as its value.
pub open spec fn pins(m: &TermManager, e: &Encoder, a: &Answers, v: usize, t: TermId, c: TermId) -> bool {
    e.constraints@.contains_key(v) && a.truth_of(v) == Some(true) && match e.constraints@[v] {
        Constraint::Eq(x, y) => sides(m, e, x, y) == Some((t, c)) && is_literal(m, c),
        _ => false,
    }
}

/// The literal is the value that some equality gives the term.
pub open spec fn pinned_to(m: &TermManager, e: &Encoder, a: &Answers, t: TermId, c: TermId) -> bool {
    exists|v: usize| #[trigger] pins(m, e, a, v, t, c)
}

/// Some equality gives the term a value.
pub open spec fn is_pinned(m: &TermManager, e: &Encoder, a: &Answers, t: TermId) -> bool {
    exists|c: TermId| #[trigger] pinned_to(m, e, a, t, c)
}

/// The truth value of a formula, as the search has it.
pub open spec fn told(e: &Encoder, a: &Answers, t: TermId) -> Option<bool> {
    if e.term_to_var@.contains_key(t) {
        a.truth_of(e.term_to_var@[t])
    } else {
        None
    }
}

/// `x` is the integer literal of the number.
pub open spec fn is_int_literal(m: &TermManager, x: TermId, n: int) -> bool {
    &&& m.has(x)
    &&& m.sort_of(x) == INT_SORT
    &&& m.op(x) == (Op::IntConst { negative: n < 0 })
    &&& signed(n < 0, m.terms@[x as int].digits@) == n
}

/// `x` is the real literal of the number.
pub open spec fn is_real_literal(m: &TermManager, x: TermId, q: Option<Rat>) -> bool {
    &&& m.has(x)
    &&& m.sort_of(x) == REAL_SORT
    &&& match m.op(x) {
        Op::RealConst { numer, denom } => match q {
            Some(q) => narrows(q, (numer, denom)),
            None => numer == 0 && denom == 1,
        },
        _ => false,
    }
}

/// `x` is the bit-vector literal of the number.
pub open spec fn is_bits_literal(m: &TermManager, x: TermId, width: u32, n: int) -> bool {
    &&& m.has(x)
    &&& m.op(x) == (Op::BitVecConst { width })
    &&& digits_value(m.terms@[x as int].digits@) == n
}

/// The width of a bit vector; that of a machine word where the sort says none.
pub open spec fn width_in(m: &TermManager, t: TermId) -> u32 {
    match crate::blast::width_of(m, t) {
        Some(w) => w,
        None => 64,
    }
}

/// The number that a bit vector has as its value.
pub open spec fn bits_in(a: &Answers, t: TermId) -> int {
    if a.bits@.contains_key(t) {
        a.bits@[t] as int
    } else if a.nums@.contains_key(t) {
        a.nums@[t] as int
    } else {
        0
    }
}

/// `x` is the value of a number term.
pub open spec fn arith_value(start: &TermManager, m: &TermManager, a: &Answers, t: TermId, x: TermId) -> bool {
    if !start.has(t) || start.sort_of(t) == INT_SORT {
        is_int_literal(
            m,
            x,
            if a.ints@.contains_key(t) {
                a.ints@[t] as int
            } else {
                0
            },
        )
    } else {
        is_real_literal(
            m,
            x,
            if a.reals@.contains_key(t) {
                Some(a.reals@[t])
            } else {
                None
            },
        )
    }
}

/// The term has a value in the model.
pub open spec fn has_value(m: &TermManager, e: &Encoder, a: &Answers, t: TermId) -> bool {
    is_pinned(m, e, a, t) || told(e, a, t) is Some || e.arith_terms@.contains(t) || e.bv_terms@.contains(t)
}

/// `x` is the value of `t` in the model: what an equality pins it to, else the truth value that the
/// search has for it, else the number that arithmetic has, else the bits.
pub open spec fn is_value(start: &TermManager, m: &TermManager, e: &Encoder, a: &Answers, t: TermId, x: TermId) -> bool {
    if is_pinned(start, e, a, t) {
        pinned_to(start, e, a, t, x)
    } else if told(e, a, t) is Some {
        x == truth_term(told(e, a, t)->0)
    } else if e.arith_terms@.contains(t) {
        arith_value(start, m, a, t, x)
    } else {
        is_bits_literal(m, x, width_in(start, t), bits_in(a, t)) && m.sort_of(x) == start.sort_of(t)
    }
}

/// The truth values of formulas.
fn bool_values(e: &Encoder, a: &Answers) -> (r: Model)
    ensures
        r.wf(),
        forall|t: usize| #[trigger] r@.contains_key(t) <==> told(e, a, t) is Some,
        forall|t: usize| #[trigger] r@.contains_key(t) ==> r@[t] == truth_term(told(e, a, t)->0),
{
    let keys = map_keys(&e.term_to_var);
    let mut r = Model::new();
    let mut i: usize = 0;
    while i < keys.len()
        invariant
            r.wf(),
            i <= keys.len(),
            forall|t: usize| keys@.contains(t) <==> e.term_to_var@.contains_key(t),
            forall|t: usize| #[trigger] r@.contains_key(t) ==> told(e, a, t) is Some && r@[t] == truth_term(told(e, a, t)->0),
            forall|k: int| 0 <= k < i && told(e, a, #[trigger] keys@[k]) is Some ==> r@.contains_key(keys@[k]),
        decreases keys.len() - i,
    {
        let t: usize = keys[i];
        if let Some(v) = map_get(&e.term_to_var, t) {
            match a.truth(*v) {
                Some(true) => {
                    r.set(t, TRUE_TERM);
                },
                Some(false) => {
                    r.set(t, FALSE_TERM);
                },
                None => {},
            }
        }
        i = i + 1;
    }
    proof {
        assert forall|t: usize| told(e, a, t) is Some implies #[trigger] r@.contains_key(t) by {
            assert(keys@.contains(t));
            let k = choose|k: int| 0 <= k < keys@.len() && keys@[k] == t;
            assert(told(e, a, keys@[k]) is Some);
        }
    }
    r
}

/// The term has a value of its own in the theories.
fn check_known(m: &TermManager, e: &Encoder, t: TermId) -> (r: bool)
    ensures
        r == is_known(m, e, t),
{
    set_contains(&e.arith_terms, t) || set_contains(&e.bv_terms, t) || (t < m.terms.len() && (match m.terms[t].op {
        Op::Apply(_) => true,
        _ => false,
    }))
}

/// The term is a literal that a model can hold.
fn check_literal(m: &TermManager, c: TermId) -> (r: bool)
    ensures
        r == is_literal(m, c),
{
    if c >= m.terms.len() {
        return false;
    }
    match m.terms[c].op {
        Op::IntConst { negative } => match to_i128(negative, &m.terms[c].digits) {
            Some(n) => -0x8000_0000_0000_0000 <= n && n <= 0x7fff_ffff_ffff_ffff,
            None => false,
        },
        Op::RealConst { .. } => true,
        Op::BitVecConst { .. } => match magnitude(&m.terms[c].digits) {
            Some(n) => n <= 0xffff_ffff_ffff_ffff,
            None => false,
        },
        _ => false,
    }
}

/// Adds the values that equalities pin terms to.
fn add_pinned(m: &TermManager, e: &Encoder, a: &Answers, base: Model) -> (r: Model)
    requires
        base.wf(),
    ensures
        r.wf(),
        forall|t: usize| #[trigger] r@.contains_key(t) <==> base@.contains_key(t) || is_pinned(m, e, a, t),
        forall|t: usize| #[trigger] r@.contains_key(t) && is_pinned(m, e, a, t) ==> pinned_to(m, e, a, t, r@[t]),
        forall|t: usize| #[trigger] r@.contains_key(t) && !is_pinned(m, e, a, t) ==> r@[t] == base@[t],
{
    let keys = map_keys(&e.constraints);
    let mut r = base;
    let ghost mut hit: Set<usize> = Set::empty();
    let mut i: usize = 0;
    while i < keys.len()
        invariant
            r.wf(),
            i <= keys.len(),
            forall|v: usize| keys@.contains(v) <==> e.constraints@.contains_key(v),
            forall|t: usize| #[trigger] r@.contains_key(t) <==> base@.contains_key(t) || hit.contains(t),
            forall|t: usize| #[trigger] hit.contains(t) ==> r@.contains_key(t) && pinned_to(m, e, a, t, r@[t]),
            forall|t: usize| #[trigger] r@.contains_key(t) && !hit.contains(t) ==> r@[t] == base@[t],
            forall|k: int, t: usize, c: usize| 0 <= k < i && #[trigger] pins(m, e, a, keys@[k], t, c) ==> hit.contains(t),
        decreases keys.len() - i,
    {
        let v: usize = keys[i];
        let ghost before = hit;
        if let Some(x) = map_get(&e.constraints, v) {
            let holds = match a.truth(v) {
                Some(b) => b,
                None => false,
            };
            if let Constraint::Eq(l, s) = *x {
                if holds {
                    let pick: Option<(usize, usize)> = if check_known(m, e, l) {
                        Some((l, s))
                    } else if check_known(m, e, s) {
                        Some((s, l))
                    } else {
                        None
                    };
                    if let Some((t, c)) = pick {
                        if check_literal(m, c) {
                            r.set(t, c);
                            proof {
                                assert(pins(m, e, a, v, t, c));
                                assert(pinned_to(m, e, a, t, c));
                                hit = hit.insert(t);
                            }
                        }
                    }
                }
            }
        }
        proof {
            assert forall|k: int, t: usize, c: usize| 0 <= k < i + 1 && #[trigger] pins(m, e, a, keys@[k], t, c) implies hit.contains(t) by {
                if k < i {
                    assert(before.contains(t));
                }
            }
        }
        i = i + 1;
    }
    proof {
        assert forall|t: usize| #[trigger] is_pinned(m, e, a, t) <==> hit.contains(t) by {
            if is_pinned(m, e, a, t) {
                let c = choose|c: TermId| #[trigger] pinned_to(m, e, a, t, c);
                let v = choose|v: usize| #[trigger] pins(m, e, a, v, t, c);
                assert(keys@.contains(v));
                let k = choose|k: int| 0 <= k < keys@.len() && keys@[k] == v;
                assert(pins(m, e, a, keys@[k], t, c));
            }
            if hit.contains(t) {
                assert(pinned_to(m, e, a, t, r@[t]));
            }
        }
    }
    r
}

/// The integer literal of a number.
fn mk_int(m: &mut TermManager, n: i128) -> (t: TermId)
    requires
        old(m).wf(),
    ensures
        final(m).wf(),
        old(m).extended_by(final(m)),
        is_int_literal(final(m), t, n as int),
{
    let size: u128 = if n >= 0 {
        n as u128
    } else if n == i128::MIN {
        0x8000_0000_0000_0000_0000_0000_0000_0000
    } else {
        (-n) as u128
    };
    let digits = digits_of(size);
    m.mk(Term { op: Op::IntConst { negative: n < 0 }, args: Vec::new(), digits, binders: Vec::new(), sort: INT_SORT })
}

/// The real literal of a number, or of zero.
fn mk_real(m: &mut TermManager, q: Option<Rat>) -> (t: TermId)
    requires
        old(m).wf(),
        q matches Some(x) ==> x.wf(),
    ensures
        final(m).wf(),
        old(m).extended_by(final(m)),
        is_real_literal(final(m), t, q),
{
    let (numer, denom): (i64, i64) = match q {
        Some(x) => narrow_arith_to_real64(x),
        None => (0, 1),
    };
    m.mk(Term { op: Op::RealConst { numer, denom }, args: Vec::new(), digits: Vec::new(), binders: Vec::new(), sort: REAL_SORT })
}

/// The bit-vector literal of a number, of the sort of a term.
fn mk_bits(m: &mut TermManager, n: u128, width: u32, sort: usize) -> (t: TermId)
    requires
        old(m).wf(),
    ensures
        final(m).wf(),
        old(m).extended_by(final(m)),
        is_bits_literal(final(m), t, width, n as int),
        final(m).sort_of(t) == sort,
{
    let digits = digits_of(n);
    m.mk(Term { op: Op::BitVecConst { width }, args: Vec::new(), digits, binders: Vec::new(), sort })
}

/// A literal stays one when the store grows.
proof fn lemma_values_stay(start: &TermManager, m: &TermManager, later: &TermManager, a: &Answers, t: TermId, x: TermId)
    requires
        m.extended_by(later),
    ensures
        arith_value(start, m, a, t, x) ==> arith_value(start, later, a, t, x),
        forall|w: u32, n: int| #[trigger] is_bits_literal(m, x, w, n) ==> is_bits_literal(later, x, w, n),
        m.has(x) ==> later.has(x) && later.sort_of(x) == m.sort_of(x),
{
    if m.has(x) {
        assert(later.terms@[x as int] == m.terms@[x as int]);
    }
}

/// The values of the model are terms of the store.
spec fn stored(m: &TermManager, asg: Map<usize, TermId>) -> bool {
    forall|t: usize| #[trigger] asg.contains_key(t) ==> m.has(asg[t])
}

/// They stay so.
proof fn lemma_stored_stays(m: &TermManager, later: &TermManager, asg: Map<usize, TermId>)
    requires
        m.extended_by(later),
        stored(m, asg),
    ensures
        stored(later, asg),
{
    assert forall|t: usize| #[trigger] asg.contains_key(t) implies later.has(asg[t]) by {
        assert(m.has(asg[t]));
    }
}

/// Adds the values of number terms that have none.
fn add_arith(m: &mut TermManager, e: &Encoder, a: &Answers, base: Model) -> (r: Model)
    requires
        old(m).wf(),
        a.wf(),
        stored(old(m), base@),
        base.wf(),
    ensures
        r.wf(),
        final(m).wf(),
        old(m).extended_by(final(m)),
        stored(final(m), r@),
        forall|t: usize| #[trigger] r@.contains_key(t) <==> base@.contains_key(t) || e.arith_terms@.contains(t),
        forall|t: usize| #[trigger] base@.contains_key(t) ==> r@[t] == base@[t],
        forall|t: usize| #[trigger] r@.contains_key(t) && !base@.contains_key(t) ==> arith_value(old(m), final(m), a, t, r@[t]),
{
    let ghost m0 = *m;
    let size: usize = m.terms.len();
    let terms = set_elements(&e.arith_terms);
    let mut r = base;
    let mut i: usize = 0;
    proof {
        lemma_extended_self(m);
    }
    while i < terms.len()
        invariant
            r.wf(),
            i <= terms.len(),
            m0.wf(),
            m.wf(),
            a.wf(),
            size == m0.terms@.len(),
            m0.extended_by(m),
            stored(m, r@),
            forall|t: usize| terms@.contains(t) <==> e.arith_terms@.contains(t),
            forall|t: usize| #[trigger] r@.contains_key(t) ==> base@.contains_key(t) || e.arith_terms@.contains(t),
            forall|t: usize| #[trigger] base@.contains_key(t) ==> r@.contains_key(t) && r@[t] == base@[t],
            forall|k: int| 0 <= k < i ==> r@.contains_key(#[trigger] terms@[k]),
            forall|t: usize| #[trigger] r@.contains_key(t) && !base@.contains_key(t) ==> arith_value(&m0, m, a, t, r@[t]),
        decreases terms.len() - i,
    {
        let t: usize = terms[i];
        assert(terms@.contains(t));
        if r.get(t).is_none() {
            let ghost m1 = *m;
            let ghost before = r@;
            if t < size {
                assert(m.terms@[t as int] == m0.terms@[t as int]);
            }
            let integral = t >= size || m.terms[t].sort == INT_SORT;
            let x: usize = if integral {
                let n: i128 = match map_get(&a.ints, t) {
                    Some(n) => *n,
                    None => 0,
                };
                mk_int(m, n)
            } else {
                let q: Option<Rat> = match map_get(&a.reals, t) {
                    Some(q) => Some(*q),
                    None => None,
                };
                mk_real(m, q)
            };
            r.set(t, x);
            proof {
                crate::axioms::lemma_extended_twice(&m0, &m1, m);
                lemma_stored_stays(&m1, m, before);
                assert(arith_value(&m0, m, a, t, x));
                assert forall|s: usize| #[trigger] r@.contains_key(s) && !base@.contains_key(s) implies arith_value(&m0, m, a, s, r@[s]) by {
                    if s != t {
                        assert(before.contains_key(s));
                        lemma_values_stay(&m0, &m1, m, a, s, before[s]);
                    }
                }
                assert forall|s: usize| #[trigger] r@.contains_key(s) implies m.has(r@[s]) by {
                    if s != t {
                        assert(before.contains_key(s));
                    }
                }
            }
        }
        i = i + 1;
    }
    proof {
        assert forall|t: usize| e.arith_terms@.contains(t) implies #[trigger] r@.contains_key(t) by {
            assert(terms@.contains(t));
            let k = choose|k: int| 0 <= k < terms@.len() && terms@[k] == t;
            assert(r@.contains_key(terms@[k]));
        }
    }
    r
}

/// Adds the values of bit vectors that have none.
fn add_bits(m: &mut TermManager, e: &Encoder, a: &Answers, base: Model) -> (r: Model)
    requires
        old(m).wf(),
        stored(old(m), base@),
        base.wf(),
        forall|t: usize| #[trigger] e.bv_terms@.contains(t) ==> old(m).has(t),
    ensures
        r.wf(),
        final(m).wf(),
        old(m).extended_by(final(m)),
        stored(final(m), r@),
        forall|t: usize| #[trigger] r@.contains_key(t) <==> base@.contains_key(t) || e.bv_terms@.contains(t),
        forall|t: usize| #[trigger] base@.contains_key(t) ==> r@[t] == base@[t],
        forall|t: usize| #[trigger]
            r@.contains_key(t) && !base@.contains_key(t) ==> is_bits_literal(final(m), r@[t], width_in(old(m), t), bits_in(a, t))
                && final(m).sort_of(r@[t]) == old(m).sort_of(t),
{
    let ghost m0 = *m;
    let terms = set_elements(&e.bv_terms);
    let mut r = base;
    let mut i: usize = 0;
    proof {
        lemma_extended_self(m);
    }
    while i < terms.len()
        invariant
            r.wf(),
            i <= terms.len(),
            m0.wf(),
            m.wf(),
            m0.extended_by(m),
            stored(m, r@),
            forall|t: usize| #[trigger] e.bv_terms@.contains(t) ==> m0.has(t),
            forall|t: usize| terms@.contains(t) <==> e.bv_terms@.contains(t),
            forall|t: usize| #[trigger] r@.contains_key(t) ==> base@.contains_key(t) || e.bv_terms@.contains(t),
            forall|t: usize| #[trigger] base@.contains_key(t) ==> r@.contains_key(t) && r@[t] == base@[t],
            forall|k: int| 0 <= k < i ==> r@.contains_key(#[trigger] terms@[k]),
            forall|t: usize| #[trigger]
                r@.contains_key(t) && !base@.contains_key(t) ==> is_bits_literal(m, r@[t], width_in(&m0, t), bits_in(a, t)) && m.sort_of(
                    r@[t],
                ) == m0.sort_of(t),
        decreases terms.len() - i,
    {
        let t: usize = terms[i];
        assert(terms@.contains(t));
        assert(e.bv_terms@.contains(t));
        if r.get(t).is_none() {
            let ghost m1 = *m;
            let ghost before = r@;
            assert(m.terms@[t as int] == m0.terms@[t as int]);
            assert(crate::blast::width_of(m, t) == crate::blast::width_of(&m0, t));
            let width: u32 = match crate::blast::bv_width_of(m, t) {
                Some(w) => w,
                None => 64,
            };
            let sort: usize = m.terms[t].sort;
            let n: u128 = match map_get(&a.bits, t) {
                Some(n) => *n as u128,
                None => match map_get(&a.nums, t) {
                    Some(n) => *n,
                    None => 0,
                },
            };
            let x: usize = mk_bits(m, n, width, sort);
            r.set(t, x);
            proof {
                crate::axioms::lemma_extended_twice(&m0, &m1, m);
                lemma_stored_stays(&m1, m, before);
                assert forall|s: usize| #[trigger] r@.contains_key(s) && !base@.contains_key(s) implies is_bits_literal(
                    m,
                    r@[s],
                    width_in(&m0, s),
                    bits_in(a, s),
                ) && m.sort_of(r@[s]) == m0.sort_of(s) by {
                    if s != t {
                        assert(before.contains_key(s));
                        assert(is_bits_literal(&m1, before[s], width_in(&m0, s), bits_in(a, s)));
                        lemma_values_stay(&m0, &m1, m, a, s, before[s]);
                    }
                }
                assert forall|s: usize| #[trigger] r@.contains_key(s) implies m.has(r@[s]) by {
                    if s != t {
                        assert(before.contains_key(s));
                    }
                }
            }
        }
        i = i + 1;
    }
    proof {
        assert forall|t: usize| e.bv_terms@.contains(t) implies #[trigger] r@.contains_key(t) by {
            assert(terms@.contains(t));
            let k = choose|k: int| 0 <= k < terms@.len() && terms@[k] == t;
            assert(r@.contains_key(terms@[k]));
        }
    }
    r
}

/// The model of a satisfying assignment.
pub fn build_model(m: &mut TermManager, e: &Encoder, a: &Answers) -> (r: Model)
    requires
        old(m).wf(),
        a.wf(),
        forall|t: usize| #[trigger] e.bv_terms@.contains(t) ==> old(m).has(t),
    ensures
        final(m).wf(),
        old(m).extended_by(final(m)),
        r.wf(),
        in_store(final(m), r@),
        forall|t: usize| #[trigger] r@.contains_key(t) <==> has_value(old(m), e, a, t),
        forall|t: usize| #[trigger] r@.contains_key(t) ==> is_value(old(m), final(m), e, a, t, r@[t]),
{
    let ghost m0 = *m;
    let truths = bool_values(e, a);
    let ghost asg1 = truths@;
    let pinned = add_pinned(m, e, a, truths);
    let ghost asg2 = pinned@;
    proof {
        assert forall|t: usize| #[trigger] asg2.contains_key(t) implies m.has(asg2[t]) by {
            if is_pinned(m, e, a, t) {
                let v = choose|v: usize| #[trigger] pins(m, e, a, v, t, asg2[t]);
            } else {
                assert(asg1.contains_key(t));
            }
        }
    }
    let numbers = add_arith(m, e, a, pinned);
    let ghost m1 = *m;
    let ghost asg3 = numbers@;
    proof {
        assert forall|t: usize| #[trigger] e.bv_terms@.contains(t) implies m1.has(t) by {
            assert(m0.has(t));
        }
    }
    let r = add_bits(m, e, a, numbers);
    proof {
        crate::axioms::lemma_extended_twice(&m0, &m1, m);
        assert forall|t: usize| #[trigger] r@.contains_key(t) implies is_value(&m0, m, e, a, t, r@[t]) by {
            if asg2.contains_key(t) {
                assert(asg3.contains_key(t) && asg3[t] == asg2[t] && r@[t] == asg2[t]);
                if !is_pinned(&m0, e, a, t) {
                    assert(asg1.contains_key(t));
                }
            } else if asg3.contains_key(t) {
                assert(!asg1.contains_key(t));
                lemma_values_stay(&m0, &m1, m, a, t, asg3[t]);
            } else {
                assert(!asg1.contains_key(t));
                assert(m0.has(t));
                assert(m1.terms@[t as int] == m0.terms@[t as int]);
                assert(crate::blast::width_of(&m1, t) == crate::blast::width_of(&m0, t));
            }
        }
    }
    r
}

} // verus!
