//! Models: values of terms, and the evaluation of terms in them.
use crate::maps::map_get;
use crate::maps::map_insert;
use crate::maps::map_keys;
use crate::maps::map_len;
use crate::maps::map_new;
use crate::maps::map_remove;
use crate::numeral::digits_value;
use crate::numeral::is_zero_digits;
use crate::small::TermList;
use crate::term::is_node;
use crate::term::Op;
use crate::term::Sort;
use crate::term::SortId;
use crate::term::Symbol;
use crate::term::Term;
use crate::term::TermId;
use crate::term::TermManager;
use crate::term::BOOL_SORT;
use crate::term::FALSE_TERM;
use crate::term::INT_SORT;
use crate::term::REAL_SORT;
use crate::term::TRUE_TERM;
use crate::text::decimal;
use crate::text::decimal_text;
use crate::text::join_text;
use rustc_hash::FxHashMap;
use vstd::prelude::*;

verus! {

/// Values of terms, which are terms themselves.
#[derive(Debug)]
pub struct Model {
    pub assignments: FxHashMap<usize, TermId>,
}

impl View for Model {
    type V = Map<usize, TermId>;

    open spec fn view(&self) -> Map<usize, TermId> {
        self.assignments@
    }
}

/// The store holds every value.
pub open spec fn in_store(m: &TermManager, asg: Map<usize, TermId>) -> bool {
    forall|t: usize| #[trigger] asg.contains_key(t) ==> m.has(asg[t])
}

/// The term is the truth value `true`.
pub open spec fn is_true(m: &TermManager, t: TermId) -> bool {
    m.has(t) && m.op(t) == Op::True
}

/// The term is the truth value `false`.
pub open spec fn is_false(m: &TermManager, t: TermId) -> bool {
    m.has(t) && m.op(t) == Op::False
}

/// `r` is the negation of `a`, with truth values negated at once.
pub open spec fn negates(m: &TermManager, a: TermId, r: TermId) -> bool {
    if is_true(m, a) {
        r == FALSE_TERM
    } else if is_false(m, a) {
        r == TRUE_TERM
    } else {
        is_node(m, r, Op::Not, seq![a], BOOL_SORT)
    }
}

/// The first `k` values without the neutral ones: `true` in a conjunction, `false` in a
/// disjunction.
pub open spec fn kept(m: &TermManager, conj: bool, vals: Map<int, TermId>, k: int) -> Seq<TermId>
    decreases k,
{
    if k <= 0 {
        Seq::empty()
    } else if (conj && is_true(m, vals[k - 1])) || (!conj && is_false(m, vals[k - 1])) {
        kept(m, conj, vals, k - 1)
    } else {
        kept(m, conj, vals, k - 1).push(vals[k - 1])
    }
}

/// The value decides a conjunction or a disjunction by itself.
pub open spec fn decides(m: &TermManager, conj: bool, a: TermId) -> bool {
    (conj && is_false(m, a)) || (!conj && is_true(m, a))
}

/// One of the first `n` values decides.
pub open spec fn decided(m: &TermManager, conj: bool, vals: Map<int, TermId>, n: int) -> bool {
    exists|k: int| 0 <= k < n && #[trigger] vals.contains_key(k) && decides(m, conj, vals[k])
}

/// All of the first `n` values are there, and none decides.
pub open spec fn undecided(m: &TermManager, conj: bool, vals: Map<int, TermId>, n: int) -> bool {
    forall|k: int| 0 <= k < n ==> #[trigger] vals.contains_key(k) && !decides(m, conj, vals[k])
}

/// The truth value as a term.
pub open spec fn truth_term(b: bool) -> TermId {
    if b {
        TRUE_TERM
    } else {
        FALSE_TERM
    }
}

/// `r` is the conjunction or disjunction of a list: of none the neutral value, of one itself.
pub open spec fn gathers(m: &TermManager, conj: bool, rest: Seq<TermId>, r: TermId) -> bool {
    if rest.len() == 0 {
        r == truth_term(conj)
    } else if rest.len() == 1 {
        r == rest[0]
    } else if conj {
        is_node(m, r, Op::And, rest, BOOL_SORT)
    } else {
        is_node(m, r, Op::Or, rest, BOOL_SORT)
    }
}

/// `r` is the conjunction or disjunction of `n` values: a deciding value by itself, else what is
/// left without neutral values.
pub open spec fn joins(m: &TermManager, conj: bool, vals: Map<int, TermId>, n: int, r: TermId) -> bool {
    if decided(m, conj, vals, n) {
        r == truth_term(!conj)
    } else {
        undecided(m, conj, vals, n) && gathers(m, conj, kept(m, conj, vals, n), r)
    }
}

/// `r` is the implication between two values.
pub open spec fn leads_to(m: &TermManager, a: TermId, b: TermId, r: TermId) -> bool {
    if is_false(m, a) {
        r == TRUE_TERM
    } else if is_true(m, a) {
        r == b
    } else if is_true(m, b) {
        r == TRUE_TERM
    } else {
        is_node(m, r, Op::Implies, seq![a, b], BOOL_SORT)
    }
}

/// `r` is the equality of two values; one with a truth value is the other side or its negation.
pub open spec fn equates(m: &TermManager, a: TermId, b: TermId, r: TermId) -> bool {
    let truths = m.has(a) && m.sort_of(a) == BOOL_SORT;
    if a == b {
        r == TRUE_TERM
    } else if truths && is_true(m, b) {
        r == a
    } else if truths && is_false(m, b) {
        is_node(m, r, Op::Not, seq![a], BOOL_SORT)
    } else if truths && is_true(m, a) {
        r == b
    } else if truths && is_false(m, a) {
        is_node(m, r, Op::Not, seq![b], BOOL_SORT)
    } else {
        is_node(m, r, Op::Eq, seq![a, b], BOOL_SORT)
    }
}

/// `r` is the negative of a value: of a numeral, the opposite numeral.
pub open spec fn opposes(m: &TermManager, t: TermId, a: TermId, r: TermId) -> bool {
    match m.op(a) {
        Op::IntConst { negative } => {
            &&& m.has(r)
            &&& m.op(r) == (Op::IntConst { negative: !negative && digits_value(m.terms@[a as int].digits@) != 0 })
            &&& m.terms@[r as int].digits@ == m.terms@[a as int].digits@
            &&& m.sort_of(r) == m.sort_of(a)
            &&& m.args(r).len() == 0
        },
        Op::RealConst { numer, denom } => if numer == i64::MIN {
            is_node(m, r, Op::Neg, seq![a], m.sort_of(t))
        } else {
            is_node(m, r, Op::RealConst { numer: (-numer) as i64, denom }, Seq::empty(), m.sort_of(a))
        },
        _ => is_node(m, r, Op::Neg, seq![a], m.sort_of(t)),
    }
}

/// `r` is what the operator of `t` gives for the values of its arguments, as far as they are
/// needed.
pub open spec fn combines(m: &TermManager, t: TermId, vals: Map<int, TermId>, r: TermId) -> bool {
    let n = m.args(t).len() as int;
    let all = forall|k: int| 0 <= k < n ==> #[trigger] vals.contains_key(k);
    match m.op(t) {
        Op::Not => all && negates(m, vals[0], r),
        Op::And => joins(m, true, vals, n, r),
        Op::Or => joins(m, false, vals, n, r),
        Op::Implies => all && leads_to(m, vals[0], vals[1], r),
        Op::Ite => vals.contains_key(0) && if is_true(m, vals[0]) {
            vals.contains_key(1) && r == vals[1]
        } else if is_false(m, vals[0]) {
            vals.contains_key(2) && r == vals[2]
        } else {
            all && is_node(m, r, Op::Ite, seq![vals[0], vals[1], vals[2]], m.sort_of(t))
        },
        Op::Eq => all && equates(m, vals[0], vals[1], r),
        Op::Neg => all && opposes(m, t, vals[0], r),
        Op::Add | Op::Sub | Op::Mul => all && is_node(m, r, m.op(t), Seq::new(n as nat, |k: int| vals[k]), m.sort_of(t)),
        _ => r == t,
    }
}

/// `r` is the value of `t` in a model: its own, or what its operator gives for the values of its
/// arguments.
pub open spec fn evals(m: &TermManager, asg: Map<usize, TermId>, t: TermId, r: TermId) -> bool
    decreases t,
{
    m.has(t) && if asg.contains_key(t) {
        r == asg[t]
    } else {
        exists|vals: Map<int, TermId>|
            #[trigger] combines(m, t, vals, r) && forall|k: int| #[trigger]
                vals.contains_key(k) ==> 0 <= k < m.args(t).len() && m.has(vals[k]) && m.args(t)[k] < t && evals(
                    m,
                    asg,
                    m.args(t)[k],
                    vals[k],
                )
    }
}

/// The values are those of the arguments of `t`.
pub open spec fn values_ok(m: &TermManager, asg: Map<usize, TermId>, t: TermId, vals: Map<int, TermId>) -> bool {
    forall|k: int| #[trigger]
        vals.contains_key(k) ==> 0 <= k < m.args(t).len() && m.has(vals[k]) && m.args(t)[k] < t && evals(
            m,
            asg,
            m.args(t)[k],
            vals[k],
        )
}

/// A node of a store is the same in a later one.
proof fn lemma_later_node(m: &TermManager, later: &TermManager, t: TermId)
    requires
        m.extended_by(later),
        m.has(t),
    ensures
        later.has(t),
        later.terms@[t as int] == m.terms@[t as int],
        later.op(t) == m.op(t),
        later.args(t) == m.args(t),
        later.sort_of(t) == m.sort_of(t),
{
}

/// What is left of values does not change when their store grows.
proof fn lemma_kept_extends(m: &TermManager, later: &TermManager, conj: bool, vals: Map<int, TermId>, k: int)
    requires
        m.extended_by(later),
        forall|i: int| 0 <= i < k ==> m.has(#[trigger] vals[i]),
    ensures
        kept(later, conj, vals, k) == kept(m, conj, vals, k),
    decreases k,
{
    if k > 0 {
        lemma_kept_extends(m, later, conj, vals, k - 1);
        lemma_later_node(m, later, vals[k - 1]);
    }
}

/// A conjunction or disjunction of values stays one when the store grows.
proof fn lemma_joins_extends(m: &TermManager, later: &TermManager, conj: bool, vals: Map<int, TermId>, n: int, r: TermId)
    requires
        m.extended_by(later),
        joins(m, conj, vals, n, r),
        forall|k: int| #[trigger] vals.contains_key(k) ==> m.has(vals[k]),
    ensures
        joins(later, conj, vals, n, r),
{
    assert forall|k: int| #[trigger] vals.contains_key(k) implies decides(later, conj, vals[k]) == decides(m, conj, vals[k]) by {
        lemma_later_node(m, later, vals[k]);
    }
    if decided(m, conj, vals, n) {
        let k = choose|k: int| 0 <= k < n && #[trigger] vals.contains_key(k) && decides(m, conj, vals[k]);
        assert(decides(later, conj, vals[k]));
    } else {
        assert forall|i: int| 0 <= i < n implies m.has(#[trigger] vals[i]) by {
            assert(vals.contains_key(i));
        }
        lemma_kept_extends(m, later, conj, vals, n);
        if kept(m, conj, vals, n).len() > 1 {
            lemma_later_node(m, later, r);
        }
        assert(undecided(later, conj, vals, n));
        assert(!decided(later, conj, vals, n));
    }
}

/// A value stays one when the store grows.
pub proof fn lemma_evals_extends(m: &TermManager, later: &TermManager, asg: Map<usize, TermId>, t: TermId, r: TermId)
    requires
        m.wf(),
        m.extended_by(later),
        in_store(m, asg),
        evals(m, asg, t, r),
    ensures
        evals(later, asg, t, r),
    decreases t,
{
    lemma_later_node(m, later, t);
    if !asg.contains_key(t) {
        let vals = choose|vals: Map<int, TermId>| #[trigger] combines(m, t, vals, r) && values_ok(m, asg, t, vals);
        lemma_values_extend(m, later, asg, t, vals);
        let n = m.args(t).len() as int;
        assert forall|k: int| #[trigger] vals.contains_key(k) implies is_true(later, vals[k]) == is_true(m, vals[k]) && is_false(
            later,
            vals[k],
        ) == is_false(m, vals[k]) && later.has(vals[k]) && later.sort_of(vals[k]) == m.sort_of(vals[k]) && later.op(vals[k]) == m.op(
            vals[k],
        ) && later.terms@[vals[k] as int] == m.terms@[vals[k] as int] by {
            lemma_later_node(m, later, vals[k]);
        }
        match m.op(t) {
            Op::And => {
                lemma_joins_extends(m, later, true, vals, n, r);
            },
            Op::Or => {
                lemma_joins_extends(m, later, false, vals, n, r);
            },
            _ => {},
        }
        assert(m.terms@[t as int].fits(t as int));
        if m.has(r) {
            lemma_later_node(m, later, r);
        }
        if forall|k: int| 0 <= k < n ==> #[trigger] vals.contains_key(k) {
            assert(n > 0 ==> vals.contains_key(0));
            assert(n > 1 ==> vals.contains_key(1));
        }
        assert(combines(later, t, vals, r));
    }
}

/// Values of arguments stay such when the store grows.
proof fn lemma_values_extend(m: &TermManager, later: &TermManager, asg: Map<usize, TermId>, t: TermId, vals: Map<int, TermId>)
    requires
        m.wf(),
        m.extended_by(later),
        in_store(m, asg),
        m.has(t),
        values_ok(m, asg, t, vals),
    ensures
        values_ok(later, asg, t, vals),
    decreases t, 0nat,
{
    lemma_later_node(m, later, t);
    assert forall|k: int| #[trigger] vals.contains_key(k) implies 0 <= k < later.args(t).len() && later.has(vals[k]) && later.args(t)[k]
        < t && evals(later, asg, later.args(t)[k], vals[k]) by {
        lemma_evals_extends(m, later, asg, m.args(t)[k], vals[k]);
    }
}

/// The value that the operator gives is that of the term.
proof fn lemma_evals_intro(m: &TermManager, asg: Map<usize, TermId>, t: TermId, vals: Map<int, TermId>, r: TermId)
    requires
        m.has(t),
        !asg.contains_key(t),
        values_ok(m, asg, t, vals),
        combines(m, t, vals, r),
    ensures
        evals(m, asg, t, r),
{
}

/// The negation of a term, with truth values negated at once.
fn mk_negation(m: &mut TermManager, a: TermId) -> (r: TermId)
    requires
        old(m).wf(),
        old(m).has(a),
    ensures
        final(m).wf(),
        old(m).extended_by(final(m)),
        final(m).names@ == old(m).names@,
        final(m).has(r),
        negates(final(m), a, r),
{
    match m.terms[a].op {
        Op::True => FALSE_TERM,
        Op::False => TRUE_TERM,
        _ => mk_not(m, a),
    }
}

/// The negation of a term.
fn mk_not(m: &mut TermManager, a: TermId) -> (r: TermId)
    requires
        old(m).wf(),
        old(m).has(a),
    ensures
        final(m).wf(),
        old(m).extended_by(final(m)),
        final(m).names@ == old(m).names@,
        is_node(final(m), r, Op::Not, seq![a], BOOL_SORT),
{
    let mut args: Vec<TermId> = Vec::new();
    args.push(a);
    assert(args@ =~= seq![a]);
    m.mk_app(Op::Not, args, BOOL_SORT)
}

/// The implication between two terms, decided where one of them decides it.
fn mk_implication(m: &mut TermManager, a: TermId, b: TermId) -> (r: TermId)
    requires
        old(m).wf(),
        old(m).has(a),
        old(m).has(b),
    ensures
        final(m).wf(),
        old(m).extended_by(final(m)),
        final(m).names@ == old(m).names@,
        final(m).has(r),
        leads_to(final(m), a, b, r),
{
    match m.terms[a].op {
        Op::False => {
            return TRUE_TERM;
        },
        Op::True => {
            return b;
        },
        _ => {},
    }
    if let Op::True = m.terms[b].op {
        return TRUE_TERM;
    }
    let mut args: Vec<TermId> = Vec::new();
    args.push(a);
    args.push(b);
    assert(args@ =~= seq![a, b]);
    m.mk_app(Op::Implies, args, BOOL_SORT)
}

/// The equality of two terms, with that of a truth value reduced to the other side.
fn mk_equality(m: &mut TermManager, a: TermId, b: TermId) -> (r: TermId)
    requires
        old(m).wf(),
        old(m).has(a),
        old(m).has(b),
    ensures
        final(m).wf(),
        old(m).extended_by(final(m)),
        final(m).names@ == old(m).names@,
        final(m).has(r),
        equates(final(m), a, b, r),
{
    if a == b {
        return TRUE_TERM;
    }
    if m.terms[a].sort == BOOL_SORT {
        match m.terms[b].op {
            Op::True => {
                return a;
            },
            Op::False => {
                return mk_not(m, a);
            },
            _ => {},
        }
        match m.terms[a].op {
            Op::True => {
                return b;
            },
            Op::False => {
                return mk_not(m, b);
            },
            _ => {},
        }
    }
    m.mk_eq(a, b)
}

/// A copy of digits.
fn copy_digits(d: &Vec<u64>) -> (r: Vec<u64>)
    ensures
        r@ == d@,
{
    let mut out: Vec<u64> = Vec::new();
    let mut i: usize = 0;
    while i < d.len()
        invariant
            i <= d.len(),
            out@ == d@.take(i as int),
        decreases d.len() - i,
    {
        out.push(d[i]);
        assert(out@ =~= d@.take(i + 1));
        i = i + 1;
    }
    assert(d@.take(i as int) =~= d@);
    out
}

/// The negative of a term: of a numeral, the opposite numeral.
fn mk_negative(m: &mut TermManager, t: TermId, a: TermId) -> (r: TermId)
    requires
        old(m).wf(),
        old(m).has(t),
        old(m).has(a),
    ensures
        final(m).wf(),
        old(m).extended_by(final(m)),
        final(m).names@ == old(m).names@,
        final(m).has(r),
        opposes(final(m), t, a, r),
{
    let sort: usize = m.terms[a].sort;
    let own: usize = m.terms[t].sort;
    assert(m.terms@[a as int].fits(a as int));
    match m.terms[a].op {
        Op::IntConst { negative } => {
            let zero = is_zero_digits(&m.terms[a].digits);
            let digits = copy_digits(&m.terms[a].digits);
            return m.mk(
                Term {
                    op: Op::IntConst { negative: !negative && !zero },
                    args: Vec::new(),
                    digits,
                    binders: Vec::new(),
                    sort,
                },
            );
        },
        Op::RealConst { numer, denom } => {
            if numer != i64::MIN {
                let args: Vec<TermId> = Vec::new();
                assert(args@ =~= Seq::<TermId>::empty());
                return m.mk_app(Op::RealConst { numer: -numer, denom }, args, sort);
            }
        },
        _ => {},
    }
    let mut args: Vec<TermId> = Vec::new();
    args.push(a);
    assert(args@ =~= seq![a]);
    m.mk_app(Op::Neg, args, own)
}

/// The part of the values that belongs to the given terms.
pub open spec fn minimized(values: Map<usize, TermId>, essential: Seq<TermId>) -> Map<usize, TermId> {
    values.restrict(essential.to_set())
}

/// The part of a model keeps the values of the given terms, has no others, and is no larger than the
/// model; taking the part again changes nothing.
pub proof fn law_minimize_keeps_the_essential(values: Map<usize, TermId>, essential: Seq<TermId>)
    requires
        values.dom().finite(),
    ensures
        forall|t: usize| #[trigger] minimized(values, essential).contains_key(t) <==> values.contains_key(t) && essential.contains(t),
        forall|t: usize| essential.contains(t) && #[trigger] values.contains_key(t) ==> minimized(values, essential)[t] == values[t],
        minimized(values, essential).dom().len() <= values.dom().len(),
        minimized(minimized(values, essential), essential) == minimized(values, essential),
{
    let part = minimized(values, essential);
    vstd::set_lib::lemma_len_subset(part.dom(), values.dom());
    assert(minimized(part, essential) =~= part);
}

impl Model {
    /// Finitely many terms have values.
    pub open spec fn wf(&self) -> bool {
        self@.dom().finite()
    }

    /// A model without values.
    pub fn new() -> (r: Model)
        ensures
            r.wf(),
            (r@ == Map::<usize, TermId>::empty()),
    {
        Model { assignments: map_new() }
    }

    /// The value of a term.
    pub fn get(&self, term: TermId) -> (r: Option<TermId>)
        ensures
            r == if self@.contains_key(term) { Some(self@[term]) } else { None::<TermId> },
    {
        match map_get(&self.assignments, term) {
            Some(v) => Some(*v),
            None => None,
        }
    }

    /// Gives a term a value.
    pub fn set(&mut self, term: TermId, value: TermId)
        ensures
            final(self)@ == old(self)@.insert(term, value),
            old(self).wf() ==> final(self).wf(),
    {
        map_insert(&mut self.assignments, term, value);
    }

    /// The part of the model that gives values to the given terms.
    pub fn minimize(&self, essential_vars: &Vec<TermId>) -> (r: Model)
        ensures
            r.wf(),
            r@ == minimized(self@, essential_vars@),
            self.wf() ==> r@.dom().len() <= self@.dom().len(),
    {
        let mut out = Model::new();
        let mut i: usize = 0;
        while i < essential_vars.len()
            invariant
                out.wf(),
                i <= essential_vars.len(),
                forall|t: usize| #[trigger]
                    out@.contains_key(t) <==> self@.contains_key(t) && exists|k: int| 0 <= k < i && essential_vars@[k] == t,
                forall|t: usize| #[trigger] out@.contains_key(t) ==> out@[t] == self@[t],
            decreases essential_vars.len() - i,
        {
            let t: usize = essential_vars[i];
            if let Some(v) = self.get(t) {
                out.set(t, v);
            }
            i = i + 1;
        }
        assert(out@ =~= minimized(self@, essential_vars@)) by {
            assert forall|t: usize| #[trigger] out@.contains_key(t) == minimized(self@, essential_vars@).contains_key(t) by {
                if essential_vars@.contains(t) {
                    let k = choose|k: int| 0 <= k < essential_vars@.len() && essential_vars@[k] == t;
                    assert(essential_vars@[k] == t);
                }
            }
        }
        proof {
            if self.wf() {
                law_minimize_keeps_the_essential(self@, essential_vars@);
            }
        }
        out
    }

    /// The number of values.
    pub fn size(&self) -> (n: usize)
        ensures
            n == self@.dom().len(),
    {
        map_len(&self.assignments)
    }

    /// The values.
    pub fn assignments(&self) -> (r: &FxHashMap<usize, TermId>)
        ensures
            r@ == self@,
    {
        &self.assignments
    }

    /// The value of one argument of a term.
    fn arg_value(&self, t: TermId, k: usize, m: &mut TermManager, Ghost(vals): Ghost<Map<int, TermId>>) -> (v: TermId)
        requires
            old(m).wf(),
            in_store(old(m), self@),
            old(m).has(t),
            k < old(m).args(t).len(),
            values_ok(old(m), self@, t, vals),
        ensures
            final(m).wf(),
            old(m).extended_by(final(m)),
            final(m).names@ == old(m).names@,
            in_store(final(m), self@),
            final(m).has(v),
            values_ok(final(m), self@, t, vals.insert(k as int, v)),
        decreases t, 0nat,
    {
        assert(m.terms@[t as int].fits(t as int));
        let a: usize = m.terms[t].args[k];
        let ghost before = *m;
        let v: usize = self.eval(a, m);
        proof {
            lemma_values_extend(&before, m, self@, t, vals);
            let more = vals.insert(k as int, v);
            assert forall|j: int| #[trigger] more.contains_key(j) implies 0 <= j < m.args(t).len() && m.has(more[j]) && m.args(t)[j]
                < t && evals(m, self@, m.args(t)[j], more[j]) by {
                if j != k {
                    assert(vals.contains_key(j));
                }
            }
        }
        v
    }

    /// The value of a conjunction or disjunction.
    fn eval_junction(&self, t: TermId, conj: bool, m: &mut TermManager) -> (r: TermId)
        requires
            old(m).wf(),
            in_store(old(m), self@),
            old(m).has(t),
            !self@.contains_key(t),
            old(m).op(t) == if conj { Op::And } else { Op::Or },
        ensures
            final(m).wf(),
            old(m).extended_by(final(m)),
            final(m).names@ == old(m).names@,
            final(m).has(r),
            evals(final(m), self@, t, r),
        decreases t, 1nat,
    {
        let n: usize = m.terms[t].args.len();
        let mut rest: Vec<TermId> = Vec::new();
        let ghost mut vals = Map::<int, TermId>::empty();
        let mut i: usize = 0;
        while i < n
            invariant
                i <= n,
                old(m).wf(),
                m.wf(),
                old(m).extended_by(m),
                m.names@ == old(m).names@,
                in_store(m, self@),
                old(m).has(t),
                n == old(m).args(t).len(),
                !self@.contains_key(t),
                m.op(t) == if conj { Op::And } else { Op::Or },
                values_ok(m, self@, t, vals),
                undecided(m, conj, vals, i as int),
                rest@ == kept(m, conj, vals, i as int),
                forall|k: int| 0 <= k < rest@.len() ==> m.has(#[trigger] rest@[k]),
                forall|k: int| #[trigger] vals.contains_key(k) ==> k < i,
            decreases n - i,
        {
            let ghost before = *m;
            let ghost vals0 = vals;
            let ghost rest0 = rest@;
            proof {
                lemma_later_node(old(m), m, t);
            }
            let v: usize = self.arg_value(t, i, m, Ghost(vals));
            proof {
                lemma_later_node(old(m), m, t);
                vals = vals.insert(i as int, v);
                assert forall|k: int| 0 <= k < i implies #[trigger] vals.contains_key(k) && vals[k] == vals0[k] && before.has(vals[k])
                    && !decides(m, conj, vals[k]) by {
                    assert(vals0.contains_key(k));
                    lemma_later_node(&before, m, vals0[k]);
                }
                assert forall|k: int| #[trigger] within(k, i as int) implies vals.contains_key(k) && vals[k] == vals0[k] && before.has(
                    vals[k],
                ) by {
                    assert(vals.contains_key(k));
                }
                lemma_kept_same(&before, m, conj, vals0, vals, i as int);
            }
            let decided_now = match (m.terms[v].op, conj) {
                (Op::False, true) => true,
                (Op::True, false) => true,
                _ => false,
            };
            if decided_now {
                proof {
                    assert(vals.contains_key(i as int) && decides(m, conj, vals[i as int]));
                    assert(decided(m, conj, vals, n as int));
                    assert(m.args(t).len() == n);
                    lemma_evals_intro(m, self@, t, vals, truth_term(!conj));
                }
                return if conj {
                    FALSE_TERM
                } else {
                    TRUE_TERM
                };
            }
            let neutral = match (m.terms[v].op, conj) {
                (Op::True, true) => true,
                (Op::False, false) => true,
                _ => false,
            };
            if !neutral {
                rest.push(v);
            }
            proof {
                assert forall|k: int| 0 <= k < i + 1 implies #[trigger] vals.contains_key(k) && !decides(m, conj, vals[k]) by {
                    if k == i {
                        assert(vals[k] == v);
                    }
                }
                assert(undecided(m, conj, vals, i + 1));
                assert(rest@ =~= kept(m, conj, vals, i + 1));
                assert forall|k: int| 0 <= k < rest@.len() implies m.has(#[trigger] rest@[k]) by {
                    if k < rest0.len() {
                        assert(rest0[k] == rest@[k]);
                    }
                }
            }
            i = i + 1;
        }
        let ghost before = *m;
        let ghost list = rest@;
        proof {
            lemma_later_node(old(m), m, t);
            assert(!decided(m, conj, vals, n as int));
        }
        if rest.len() == 0 {
            proof {
                lemma_evals_intro(m, self@, t, vals, truth_term(conj));
            }
            return if conj {
                TRUE_TERM
            } else {
                FALSE_TERM
            };
        }
        if rest.len() == 1 {
            let r: usize = rest[0];
            proof {
                lemma_evals_intro(m, self@, t, vals, r);
            }
            return r;
        }
        let op = if conj {
            Op::And
        } else {
            Op::Or
        };
        let r: usize = m.mk_app(op, rest, BOOL_SORT);
        proof {
            lemma_later_node(&before, m, t);
            lemma_values_extend(&before, m, self@, t, vals);
            assert forall|k: int| #[trigger] within(k, n as int) implies vals.contains_key(k) && vals[k] == vals[k] && before.has(vals[k]) by {
                assert(vals.contains_key(k));
            }
            lemma_kept_same(&before, m, conj, vals, vals, n as int);
            assert forall|k: int| 0 <= k < n implies #[trigger] vals.contains_key(k) && !decides(m, conj, vals[k]) by {
                assert(vals.contains_key(k));
                lemma_later_node(&before, m, vals[k]);
            }
            assert(undecided(m, conj, vals, n as int));
            assert(!decided(m, conj, vals, n as int));
            lemma_evals_intro(m, self@, t, vals, r);
        }
        r
    }

    /// The value of a sum, difference or product.
    fn eval_arith(&self, t: TermId, m: &mut TermManager) -> (r: TermId)
        requires
            old(m).wf(),
            in_store(old(m), self@),
            old(m).has(t),
            !self@.contains_key(t),
            old(m).op(t) == Op::Add || old(m).op(t) == Op::Sub || old(m).op(t) == Op::Mul,
        ensures
            final(m).wf(),
            old(m).extended_by(final(m)),
            final(m).names@ == old(m).names@,
            final(m).has(r),
            evals(final(m), self@, t, r),
        decreases t, 1nat,
    {
        let n: usize = m.terms[t].args.len();
        let op = m.terms[t].op;
        let sort: usize = m.terms[t].sort;
        assert(m.terms@[t as int].fits(t as int));
        let mut list: Vec<TermId> = Vec::new();
        let ghost mut vals = Map::<int, TermId>::empty();
        let mut i: usize = 0;
        while i < n
            invariant
                i <= n,
                old(m).wf(),
                m.wf(),
                old(m).extended_by(m),
                m.names@ == old(m).names@,
                in_store(m, self@),
                old(m).has(t),
                n == old(m).args(t).len(),
                values_ok(m, self@, t, vals),
                list@.len() == i,
                forall|k: int| 0 <= k < i ==> #[trigger] vals.contains_key(k),
                forall|k: int| 0 <= k < i ==> #[trigger] list@[k] == vals[k] && m.has(list@[k]),
            decreases n - i,
        {
            let ghost before = *m;
            proof {
                lemma_later_node(old(m), m, t);
            }
            let v: usize = self.arg_value(t, i, m, Ghost(vals));
            list.push(v);
            proof {
                vals = vals.insert(i as int, v);
            }
            i = i + 1;
        }
        let ghost before = *m;
        let ghost items = list@;
        proof {
            lemma_later_node(old(m), m, t);
        }
        let r: usize = m.mk_app(op, list, sort);
        proof {
            lemma_later_node(&before, m, t);
            lemma_values_extend(&before, m, self@, t, vals);
            assert(items =~= Seq::new(n as nat, |k: int| vals[k]));
            lemma_evals_intro(m, self@, t, vals, r);
        }
        r
    }

    /// The value of a conditional.
    fn eval_ite(&self, t: TermId, m: &mut TermManager) -> (r: TermId)
        requires
            old(m).wf(),
            in_store(old(m), self@),
            old(m).has(t),
            !self@.contains_key(t),
            old(m).op(t) == Op::Ite,
        ensures
            final(m).wf(),
            old(m).extended_by(final(m)),
            final(m).names@ == old(m).names@,
            final(m).has(r),
            evals(final(m), self@, t, r),
        decreases t, 1nat,
    {
        assert(m.terms@[t as int].fits(t as int));
        let sort: usize = m.terms[t].sort;
        let ghost none = Map::<int, TermId>::empty();
        let c: usize = self.arg_value(t, 0, m, Ghost(none));
        let ghost v0 = none.insert(0int, c);
        let ghost m0 = *m;
        proof {
            lemma_later_node(old(m), m, t);
        }
        match m.terms[c].op {
            Op::True => {
                let r: usize = self.arg_value(t, 1, m, Ghost(v0));
                proof {
                    lemma_later_node(&m0, m, t);
                    lemma_later_node(&m0, m, c);
                    lemma_evals_intro(m, self@, t, v0.insert(1int, r), r);
                }
                return r;
            },
            Op::False => {
                let r: usize = self.arg_value(t, 2, m, Ghost(v0));
                proof {
                    lemma_later_node(&m0, m, t);
                    lemma_later_node(&m0, m, c);
                    lemma_evals_intro(m, self@, t, v0.insert(2int, r), r);
                }
                return r;
            },
            _ => {},
        }
        let a: usize = self.arg_value(t, 1, m, Ghost(v0));
        let ghost v1 = v0.insert(1int, a);
        let ghost m1 = *m;
        proof {
            lemma_later_node(&m0, m, t);
        }
        let b: usize = self.arg_value(t, 2, m, Ghost(v1));
        let ghost v2 = v1.insert(2int, b);
        let ghost m2 = *m;
        proof {
            lemma_later_node(&m1, m, t);
            lemma_later_node(&m0, &m1, c);
            lemma_later_node(&m1, m, c);
            lemma_later_node(&m1, m, a);
        }
        let mut args: Vec<TermId> = Vec::new();
        args.push(c);
        args.push(a);
        args.push(b);
        assert(args@ =~= seq![c, a, b]);
        let r: usize = m.mk_app(Op::Ite, args, sort);
        proof {
            lemma_later_node(&m2, m, t);
            lemma_later_node(&m2, m, c);
            lemma_values_extend(&m2, m, self@, t, v2);
            lemma_evals_intro(m, self@, t, v2, r);
        }
        r
    }

    /// The value of a term: its own, or what its operator gives for the values of its arguments.
    pub fn eval(&self, term: TermId, m: &mut TermManager) -> (r: TermId)
        requires
            old(m).wf(),
            in_store(old(m), self@),
        ensures
            final(m).wf(),
            old(m).extended_by(final(m)),
            final(m).names@ == old(m).names@,
            in_store(final(m), self@),
            self@.contains_key(term) ==> r == self@[term],
            !self@.contains_key(term) && !old(m).has(term) ==> r == term,
            self@.contains_key(term) || !old(m).has(term) ==> *final(m) == *old(m),
            old(m).has(term) ==> final(m).has(r) && evals(final(m), self@, term, r),
        decreases term, 2nat,
    {
        if let Some(v) = self.get(term) {
            return v;
        }
        if term >= m.terms.len() {
            return term;
        }
        assert(m.terms@[term as int].fits(term as int));
        let ghost none = Map::<int, TermId>::empty();
        match m.terms[term].op {
            Op::And => self.eval_junction(term, true, m),
            Op::Or => self.eval_junction(term, false, m),
            Op::Add | Op::Sub | Op::Mul => self.eval_arith(term, m),
            Op::Ite => self.eval_ite(term, m),
            Op::Not => {
                let a: usize = self.arg_value(term, 0, m, Ghost(none));
                let ghost m0 = *m;
                let r: usize = mk_negation(m, a);
                proof {
                    lemma_later_node(old(m), m, term);
                    lemma_later_node(old(m), &m0, term);
                    lemma_values_extend(&m0, m, self@, term, none.insert(0int, a));
                    lemma_evals_intro(m, self@, term, none.insert(0int, a), r);
                }
                r
            },
            Op::Neg => {
                let a: usize = self.arg_value(term, 0, m, Ghost(none));
                let ghost m0 = *m;
                proof {
                    lemma_later_node(old(m), m, term);
                }
                let r: usize = mk_negative(m, term, a);
                proof {
                    lemma_later_node(old(m), m, term);
                    lemma_values_extend(&m0, m, self@, term, none.insert(0int, a));
                    lemma_evals_intro(m, self@, term, none.insert(0int, a), r);
                }
                r
            },
            Op::Implies | Op::Eq => {
                let equality = match m.terms[term].op {
                    Op::Eq => true,
                    _ => false,
                };
                let a: usize = self.arg_value(term, 0, m, Ghost(none));
                let ghost v0 = none.insert(0int, a);
                let ghost m0 = *m;
                proof {
                    lemma_later_node(old(m), m, term);
                }
                let b: usize = self.arg_value(term, 1, m, Ghost(v0));
                let ghost v1 = v0.insert(1int, b);
                let ghost m1 = *m;
                proof {
                    lemma_later_node(&m0, m, a);
                    lemma_later_node(old(m), m, term);
                }
                let r: usize = if equality {
                    mk_equality(m, a, b)
                } else {
                    mk_implication(m, a, b)
                };
                proof {
                    lemma_later_node(old(m), m, term);
                    lemma_values_extend(&m1, m, self@, term, v1);
                    lemma_evals_intro(m, self@, term, v1, r);
                }
                r
            },
            _ => {
                proof {
                    lemma_evals_intro(m, self@, term, none, term);
                }
                term
            },
        }
    }
}

/// The position is one of the first `k`.
pub open spec fn within(i: int, k: int) -> bool {
    0 <= i < k
}

/// The first `k` values are the same, and the store holds them.
pub open spec fn same_values(m: &TermManager, a: Map<int, TermId>, b: Map<int, TermId>, k: int) -> bool {
    forall|i: int| #[trigger] within(i, k) ==> b.contains_key(i) && b[i] == a[i] && m.has(b[i])
}

/// What is left of values depends on the values only.
proof fn lemma_kept_same(m: &TermManager, later: &TermManager, conj: bool, a: Map<int, TermId>, b: Map<int, TermId>, k: int)
    requires
        m.extended_by(later),
        same_values(m, a, b, k),
    ensures
        kept(later, conj, b, k) == kept(m, conj, a, k),
    decreases k,
{
    if k > 0 {
        assert forall|i: int| #[trigger] within(i, k - 1) implies b.contains_key(i) && b[i] == a[i] && m.has(b[i]) by {
            assert(within(i, k));
        }
        lemma_kept_same(m, later, conj, a, b, k - 1);
        assert(within(k - 1, k));
        lemma_later_node(m, later, b[k - 1]);
    }
}

impl Default for Model {
    fn default() -> (r: Model)
        ensures
            (r@ == Map::<usize, TermId>::empty()),
    {
        Model::new()
    }
}

/// The value of a term that the store does not hold: that of the model, or else the term itself.
pub open spec fn outside_value(asg: Map<usize, TermId>, t: TermId) -> TermId {
    if asg.contains_key(t) {
        asg[t]
    } else {
        t
    }
}

/// The store holds all the terms.
pub open spec fn all_known(m: &TermManager, terms: Seq<TermId>) -> bool {
    forall|i: int| 0 <= i < terms.len() ==> m.has(#[trigger] terms[i])
}

/// The term is among the first `n`.
pub open spec fn comes_before(terms: Seq<TermId>, n: int, t: TermId) -> bool {
    exists|k: int| 0 <= k < n && #[trigger] terms[k] == t
}

/// How many of the first `n` terms are cached when their turn comes: those that are cached at first,
/// and those that came up before.
pub open spec fn hits(cached: Set<usize>, terms: Seq<TermId>, n: int) -> int
    decreases n,
{
    if n <= 0 {
        0
    } else if cached.contains(terms[n - 1]) || comes_before(terms, n - 1, terms[n - 1]) {
        hits(cached, terms, n - 1) + 1
    } else {
        hits(cached, terms, n - 1)
    }
}

/// A model with the values that evaluation has given so far.
#[derive(Debug)]
pub struct ModelCache {
    pub model: Model,
    pub eval_cache: FxHashMap<usize, TermId>,
    pub cache_hits: u64,
    pub cache_misses: u64,
}

impl ModelCache {
    /// The store holds every value, and what is cached are the values of terms in the model.
    pub open spec fn wf(&self, m: &TermManager) -> bool {
        &&& in_store(m, self.model@)
        &&& forall|t: usize| #[trigger] self.eval_cache@.contains_key(t) ==> m.has(self.eval_cache@[t]) && evals(
            m,
            self.model@,
            t,
            self.eval_cache@[t],
        )
    }

    /// A cache without values.
    pub fn new(model: Model) -> (c: ModelCache)
        ensures
            c.model == model,
            (c.eval_cache@ == Map::<usize, TermId>::empty()),
            c.cache_hits == 0,
            c.cache_misses == 0,
            forall|m: &TermManager| in_store(m, model@) ==> #[trigger] c.wf(m),
    {
        ModelCache { model, eval_cache: map_new(), cache_hits: 0, cache_misses: 0 }
    }

    /// The model.
    pub fn model(&self) -> (r: &Model)
        ensures
            *r == self.model,
    {
        &self.model
    }

    /// The value that the model itself gives a term.
    pub fn get_direct(&self, term: TermId) -> (r: Option<TermId>)
        ensures
            r == if self.model@.contains_key(term) { Some(self.model@[term]) } else { None::<TermId> },
    {
        self.model.get(term)
    }

    /// The value of a term, which is evaluated only the first time. The value of a term that the
    /// store does not hold is not kept, since the store may come to hold another term there.
    pub fn eval_lazy(&mut self, term: TermId, m: &mut TermManager) -> (r: TermId)
        requires
            old(m).wf(),
            old(self).wf(old(m)),
            old(self).cache_hits < u64::MAX,
            old(self).cache_misses < u64::MAX,
        ensures
            final(m).wf(),
            old(m).extended_by(final(m)),
            final(m).names@ == old(m).names@,
            final(self).wf(final(m)),
            final(self).model == old(self).model,
            old(m).has(term) ==> final(self).eval_cache@ == old(self).eval_cache@.insert(term, r) && final(m).has(r) && evals(
                final(m),
                final(self).model@,
                term,
                r,
            ),
            !old(m).has(term) ==> final(self).eval_cache@ == old(self).eval_cache@ && r == outside_value(old(self).model@, term)
                && *final(m) == *old(m),
            old(self).eval_cache@.contains_key(term) ==> r == old(self).eval_cache@[term] && *final(m) == *old(m)
                && final(self).cache_hits == old(self).cache_hits + 1 && final(self).cache_misses == old(self).cache_misses,
            !old(self).eval_cache@.contains_key(term) ==> final(self).cache_hits == old(self).cache_hits
                && final(self).cache_misses == old(self).cache_misses + 1,
    {
        if let Some(v) = map_get(&self.eval_cache, term) {
            let v: usize = *v;
            self.cache_hits = self.cache_hits + 1;
            assert(self.eval_cache@ =~= old(self).eval_cache@.insert(term, v));
            return v;
        }
        self.cache_misses = self.cache_misses + 1;
        let known = term < m.terms.len();
        let r: usize = self.model.eval(term, m);
        proof {
            assert forall|t: usize| #[trigger] self.eval_cache@.contains_key(t) implies m.has(self.eval_cache@[t]) && evals(
                m,
                self.model@,
                t,
                self.eval_cache@[t],
            ) by {
                lemma_evals_extends(old(m), m, self.model@, t, self.eval_cache@[t]);
            }
        }
        if known {
            map_insert(&mut self.eval_cache, term, r);
        }
        r
    }

    /// The values of several terms.
    #[verifier::spinoff_prover]
    #[verifier::rlimit(40)]
    pub fn eval_batch(&mut self, terms: &Vec<TermId>, m: &mut TermManager) -> (r: TermList)
        requires
            old(m).wf(),
            old(self).wf(old(m)),
            old(self).cache_hits + terms@.len() <= u64::MAX,
            old(self).cache_misses + terms@.len() <= u64::MAX,
        ensures
            final(m).wf(),
            old(m).extended_by(final(m)),
            final(m).names@ == old(m).names@,
            final(self).wf(final(m)),
            final(self).model == old(self).model,
            r@.len() == terms@.len(),
            forall|i: int|
                0 <= i < terms@.len() ==> evals(final(m), final(self).model@, terms@[i], #[trigger] r@[i]) || (!old(m).has(terms@[i])
                    && r@[i] == outside_value(old(self).model@, terms@[i])),
            forall|i: int|
                0 <= i < terms@.len() && old(m).has(#[trigger] terms@[i]) ==> final(self).eval_cache@.contains_key(terms@[i])
                    && final(self).eval_cache@[terms@[i]] == r@[i],
            forall|t: usize| #[trigger] old(self).eval_cache@.contains_key(t) ==> final(self).eval_cache@.contains_key(t)
                && final(self).eval_cache@[t] == old(self).eval_cache@[t],
            forall|t: usize| #[trigger] final(self).eval_cache@.contains_key(t) ==> old(self).eval_cache@.contains_key(t) || terms@.contains(t),
            final(self).cache_hits + final(self).cache_misses == old(self).cache_hits + old(self).cache_misses + terms@.len(),
            all_known(old(m), terms@) ==> final(self).cache_hits == old(self).cache_hits + hits(
                old(self).eval_cache@.dom(),
                terms@,
                terms@.len() as int,
            ),
    {
        let mut out = TermList::new();
        let mut i: usize = 0;
        while i < terms.len()
            invariant
                i <= terms.len(),
                old(m).wf(),
                m.wf(),
                old(m).extended_by(m),
                m.names@ == old(m).names@,
                self.wf(m),
                self.model == old(self).model,
                old(self).cache_hits + terms@.len() <= u64::MAX,
                old(self).cache_misses + terms@.len() <= u64::MAX,
                self.cache_hits <= old(self).cache_hits + i,
                self.cache_misses <= old(self).cache_misses + i,
                self.cache_hits + self.cache_misses == old(self).cache_hits + old(self).cache_misses + i,
                out@.len() == i,
                forall|k: int|
                    0 <= k < i ==> evals(m, self.model@, terms@[k], #[trigger] out@[k]) || (!old(m).has(terms@[k]) && out@[k]
                        == outside_value(old(self).model@, terms@[k])),
                forall|k: int|
                    0 <= k < i && old(m).has(#[trigger] terms@[k]) ==> self.eval_cache@.contains_key(terms@[k])
                        && self.eval_cache@[terms@[k]] == out@[k],
                forall|t: usize| #[trigger] old(self).eval_cache@.contains_key(t) ==> self.eval_cache@.contains_key(t)
                    && self.eval_cache@[t] == old(self).eval_cache@[t],
                forall|t: usize| #[trigger] self.eval_cache@.contains_key(t) ==> old(self).eval_cache@.contains_key(t) || comes_before(
                    terms@,
                    i as int,
                    t,
                ),
                all_known(old(m), terms@) ==> self.cache_hits == old(self).cache_hits + hits(
                    old(self).eval_cache@.dom(),
                    terms@,
                    i as int,
                ),
            decreases terms.len() - i,
        {
            let ghost before = *m;
            let ghost cache = self.eval_cache@;
            let ghost first = out@;
            let t: usize = terms[i];
            let v: usize = self.eval_lazy(t, m);
            out.push(v);
            proof {
                assert forall|k: int| 0 <= k < i + 1 implies evals(m, self.model@, terms@[k], #[trigger] out@[k]) || (!old(m).has(
                    terms@[k],
                ) && out@[k] == outside_value(old(self).model@, terms@[k])) by {
                    if k < i {
                        assert(out@[k] == first[k]);
                        if evals(&before, self.model@, terms@[k], first[k]) {
                            lemma_evals_extends(&before, m, self.model@, terms@[k], first[k]);
                        }
                    }
                }
                assert forall|k: int| 0 <= k < i + 1 && old(m).has(#[trigger] terms@[k]) implies self.eval_cache@.contains_key(terms@[k])
                    && self.eval_cache@[terms@[k]] == out@[k] by {
                    if k < i {
                        assert(cache.contains_key(terms@[k]));
                        assert(out@[k] == first[k]);
                    }
                }
                assert forall|x: usize| #[trigger] self.eval_cache@.contains_key(x) implies old(self).eval_cache@.contains_key(x)
                    || comes_before(terms@, i + 1, x) by {
                    if cache.contains_key(x) && !old(self).eval_cache@.contains_key(x) {
                        let k = choose|k: int| 0 <= k < i && #[trigger] terms@[k] == x;
                        assert(terms@[k] == x);
                    } else if !cache.contains_key(x) {
                        assert(terms@[i as int] == x);
                    }
                }
                if all_known(old(m), terms@) {
                    assert(old(m).has(terms@[i as int]));
                    if comes_before(terms@, i as int, t) {
                        let k = choose|k: int| 0 <= k < i && #[trigger] terms@[k] == t;
                        assert(cache.contains_key(terms@[k]));
                    }
                }
            }
            i = i + 1;
        }
        proof {
            assert forall|t: usize| #[trigger] self.eval_cache@.contains_key(t) implies old(self).eval_cache@.contains_key(t)
                || terms@.contains(t) by {
                if !old(self).eval_cache@.contains_key(t) {
                    let k = choose|k: int| 0 <= k < terms@.len() && #[trigger] terms@[k] == t;
                    assert(terms@[k] == t);
                }
            }
        }
        out
    }

    /// Forgets all cached values.
    pub fn invalidate(&mut self)
        ensures
            final(self).model == old(self).model,
            (final(self).eval_cache@ == Map::<usize, TermId>::empty()),
            final(self).cache_hits == old(self).cache_hits,
            final(self).cache_misses == old(self).cache_misses,
    {
        self.eval_cache = map_new();
    }

    /// Forgets the cached value of a term.
    pub fn invalidate_term(&mut self, term: TermId)
        ensures
            final(self).model == old(self).model,
            final(self).eval_cache@ == old(self).eval_cache@.remove(term),
            final(self).cache_hits == old(self).cache_hits,
            final(self).cache_misses == old(self).cache_misses,
    {
        let _ = map_remove(&mut self.eval_cache, term);
    }

    /// How often a value was cached, and how often not.
    pub fn cache_stats(&self) -> (r: (u64, u64))
        ensures
            r == (self.cache_hits, self.cache_misses),
    {
        (self.cache_hits, self.cache_misses)
    }

    /// The number of cached values.
    pub fn cache_size(&self) -> (n: usize)
        ensures
            n == self.eval_cache@.dom().len(),
    {
        map_len(&self.eval_cache)
    }

    /// The number of values that the model itself gives.
    pub fn model_size(&self) -> (n: usize)
        ensures
            n == self.model@.dom().len(),
    {
        self.model.size()
    }

    /// Whether the value of a term is cached.
    pub fn is_cached(&self, term: TermId) -> (r: bool)
        ensures
            r == self.eval_cache@.contains_key(term),
    {
        map_get(&self.eval_cache, term).is_some()
    }

    /// The model without the cache.
    pub fn into_model(self) -> (r: Model)
        ensures
            r == self.model,
    {
        self.model
    }
}

/// One line of a printed model.
#[derive(Debug)]
pub struct Definition {
    pub name: Symbol,
    pub sort: String,
    pub value: TermId,
}

/// A sort as it is written.
pub open spec fn sort_text(m: &TermManager, sort: SortId) -> Seq<char> {
    if sort == BOOL_SORT {
        "Bool"@
    } else if sort == INT_SORT {
        "Int"@
    } else if sort == REAL_SORT {
        "Real"@
    } else if sort < m.sorts@.len() {
        match m.sorts@[sort as int] {
            Sort::BitVec(w) => "(_ BitVec "@ + decimal(w as nat) + ")"@,
            _ => "Unknown"@,
        }
    } else {
        "Unknown"@
    }
}

/// A sort as it is written.
pub fn format_sort(m: &TermManager, sort: SortId) -> (r: String)
    ensures
        r@ == sort_text(m, sort),
{
    if sort == BOOL_SORT {
        "Bool".to_string()
    } else if sort == INT_SORT {
        "Int".to_string()
    } else if sort == REAL_SORT {
        "Real".to_string()
    } else if sort < m.sorts.len() {
        match m.sorts[sort] {
            Sort::BitVec(w) => join_text(&join_text("(_ BitVec ", &decimal_text(w as u64)), ")"),
            _ => "Unknown".to_string(),
        }
    } else {
        "Unknown".to_string()
    }
}

/// The term is a variable of the store.
pub open spec fn is_var(m: &TermManager, t: TermId) -> bool {
    m.has(t) && m.op(t) is Var
}

/// The definition gives the name, the sort and the value of a variable.
pub open spec fn defines(m: &TermManager, asg: Map<usize, TermId>, t: TermId, d: Definition) -> bool {
    &&& m.op(t) == Op::Var(d.name)
    &&& d.sort@ == sort_text(m, m.sort_of(t))
    &&& d.value == asg[t]
}

impl Model {
    /// The variables with their values, as the lines of a printed model: one line for each variable
    /// that has a value, in no particular order. The second list names the variables of the lines.
    pub fn definitions(&self, m: &TermManager) -> (r: (Vec<Definition>, Vec<TermId>))
        ensures
            r.0@.len() == r.1@.len(),
            r.1@.no_duplicates(),
            forall|t: usize| #[trigger] r.1@.contains(t) <==> self@.contains_key(t) && is_var(m, t),
            forall|i: int| 0 <= i < r.0@.len() ==> defines(m, self@, r.1@[i], #[trigger] r.0@[i]),
    {
        let keys = map_keys(&self.assignments);
        let mut lines: Vec<Definition> = Vec::new();
        let mut vars: Vec<TermId> = Vec::new();
        let mut i: usize = 0;
        while i < keys.len()
            invariant
                i <= keys.len(),
                keys@.no_duplicates(),
                forall|t: usize| keys@.contains(t) <==> self@.contains_key(t),
                lines@.len() == vars@.len(),
                vars@.no_duplicates(),
                forall|t: usize| #[trigger] vars@.contains(t) <==> is_var(m, t) && exists|k: int| 0 <= k < i && keys@[k] == t,
                forall|i: int| 0 <= i < lines@.len() ==> defines(m, self@, vars@[i], #[trigger] lines@[i]),
            decreases keys.len() - i,
        {
            let t: usize = keys[i];
            assert(keys@.contains(t));
            let ghost before = vars@;
            let mut named: Option<Symbol> = None;
            if t < m.terms.len() {
                if let Op::Var(s) = m.terms[t].op {
                    named = Some(s);
                }
            }
            if let Some(name) = named {
                if let Some(v) = self.get(t) {
                    lines.push(Definition { name, sort: format_sort(m, m.terms[t].sort), value: v });
                    vars.push(t);
                    proof {
                        assert(!before.contains(t));
                        lemma_push_distinct(before, t);
                    }
                }
            }
            proof {
                assert forall|s: usize| #[trigger] vars@.contains(s) <==> is_var(m, s) && exists|k: int| 0 <= k < i + 1 && keys@[k] == s by {
                    if s == t {
                        assert(keys@[i as int] == s);
                    }
                    if vars@.contains(s) && s != t {
                        assert(before.contains(s));
                    }
                    if before.contains(s) {
                        let j = choose|j: int| 0 <= j < before.len() && before[j] == s;
                        assert(vars@[j] == s);
                    }
                }
            }
            i = i + 1;
        }
        proof {
            assert forall|t: usize| #[trigger] vars@.contains(t) <==> self@.contains_key(t) && is_var(m, t) by {
                if self@.contains_key(t) {
                    assert(keys@.contains(t));
                }
                if exists|k: int| 0 <= k < i && keys@[k] == t {
                    assert(keys@.contains(t));
                }
            }
        }
        (lines, vars)
    }
}

/// The texts of a variable's name and value.
#[derive(Debug)]
pub struct LineText {
    pub name: String,
    pub value: String,
}

/// One line of a printed model.
pub open spec fn line_text(d: Definition, t: LineText) -> Seq<char> {
    "\n  (define-fun "@ + t.name@ + " () "@ + d.sort@ + " "@ + t.value@ + ")"@
}

/// The first `k` lines of a printed model, behind the head.
pub open spec fn lines_text(lines: Seq<Definition>, texts: Seq<LineText>, k: int) -> Seq<char>
    decreases k,
{
    if k <= 0 {
        "(model"@
    } else {
        lines_text(lines, texts, k - 1) + line_text(lines[k - 1], texts[k - 1])
    }
}

impl Model {
    /// The model in text, given its lines in some order and the texts of their names and values. A
    /// model without any value is written in one line.
    pub fn pretty_print(&self, lines: &Vec<Definition>, texts: &Vec<LineText>) -> (r: String)
        requires
            lines@.len() == texts@.len(),
        ensures
            r@ == if self@.dom().len() == 0 {
                "(model)"@
            } else {
                lines_text(lines@, texts@, lines@.len() as int) + "\n)"@
            },
    {
        if map_len(&self.assignments) == 0 {
            return "(model)".to_string();
        }
        let mut r = "(model".to_string();
        let mut i: usize = 0;
        while i < lines.len()
            invariant
                i <= lines.len(),
                lines@.len() == texts@.len(),
                r@ == lines_text(lines@, texts@, i as int),
            decreases lines.len() - i,
        {
            let ghost before = r@;
            let a = join_text("\n  (define-fun ", texts[i].name.as_str());
            let b = join_text(a.as_str(), " () ");
            let c = join_text(b.as_str(), lines[i].sort.as_str());
            let d = join_text(c.as_str(), " ");
            let e = join_text(d.as_str(), texts[i].value.as_str());
            let f = join_text(e.as_str(), ")");
            assert(f@ == line_text(lines@[i as int], texts@[i as int]));
            r = join_text(r.as_str(), f.as_str());
            i = i + 1;
        }
        join_text(r.as_str(), "\n)")
    }
}

/// A list without repetitions, with one more member.
proof fn lemma_push_distinct(s: Seq<TermId>, t: TermId)
    requires
        s.no_duplicates(),
        !s.contains(t),
    ensures
        s.push(t).no_duplicates(),
        forall|x: usize| #[trigger] s.push(t).contains(x) <==> x == t || s.contains(x),
{
    let p = s.push(t);
    assert forall|x: usize| #[trigger] p.contains(x) <==> x == t || s.contains(x) by {
        if s.contains(x) {
            let i = choose|i: int| 0 <= i < s.len() && s[i] == x;
            assert(p[i] == x);
        }
        if x == t {
            assert(p[s.len() as int] == x);
        }
        if p.contains(x) {
            let i = choose|i: int| 0 <= i < p.len() && p[i] == x;
            if i < s.len() {
                assert(s[i] == x);
            }
        }
    }
    assert forall|i: int, j: int| 0 <= i < p.len() && 0 <= j < p.len() && i != j implies p[i] != p[j] by {
        if i == s.len() {
            assert(s.contains(p[j]));
        } else if j == s.len() {
            assert(s.contains(p[i]));
        }
    }
}

} // verus!
