//! What the asserted formulas say outright about datatype values.
use crate::term::CtorLayout;
use crate::term::Op;
use crate::term::Sort;
use crate::term::SortId;
use crate::term::Symbol;
use crate::term::TermId;
use crate::term::TermManager;
use vstd::prelude::*;

verus! {

/// Facts about datatype values, each list in the order in which the facts were found.
#[derive(Debug)]
pub struct DtFacts {
    /// The term is built by the constructor.
    pub testers: Vec<(TermId, Symbol)>,
    /// The term is not built by the constructor.
    pub neg_testers: Vec<(TermId, Symbol)>,
    /// The variable equals an application of the constructor.
    pub ctor_eqs: Vec<(TermId, Symbol)>,
    /// The variable differs from the constructor, which takes no argument.
    pub neg_ctor_eqs: Vec<(TermId, Symbol)>,
    /// Equal variables.
    pub var_eqs: Vec<(TermId, TermId)>,
    /// A term and a constructor application that it equals.
    pub ctor_binds: Vec<(TermId, TermId)>,
    /// A selector application and what it equals.
    pub sel_eqs: Vec<(TermId, TermId)>,
    /// Equal constructor applications.
    pub ctor_ctor_eqs: Vec<(TermId, TermId)>,
    /// Terms that differ.
    pub diseqs: Vec<(TermId, TermId)>,
}

/// The mathematical content of a collection of facts.
#[verifier::ext_equal]
pub struct FactsView {
    pub testers: Seq<(TermId, Symbol)>,
    pub neg_testers: Seq<(TermId, Symbol)>,
    pub ctor_eqs: Seq<(TermId, Symbol)>,
    pub neg_ctor_eqs: Seq<(TermId, Symbol)>,
    pub var_eqs: Seq<(TermId, TermId)>,
    pub ctor_binds: Seq<(TermId, TermId)>,
    pub sel_eqs: Seq<(TermId, TermId)>,
    pub ctor_ctor_eqs: Seq<(TermId, TermId)>,
    pub diseqs: Seq<(TermId, TermId)>,
}

impl View for DtFacts {
    type V = FactsView;

    open spec fn view(&self) -> FactsView {
        FactsView {
            testers: self.testers@,
            neg_testers: self.neg_testers@,
            ctor_eqs: self.ctor_eqs@,
            neg_ctor_eqs: self.neg_ctor_eqs@,
            var_eqs: self.var_eqs@,
            ctor_binds: self.ctor_binds@,
            sel_eqs: self.sel_eqs@,
            ctor_ctor_eqs: self.ctor_ctor_eqs@,
            diseqs: self.diseqs@,
        }
    }
}

/// No facts.
pub open spec fn no_facts() -> FactsView {
    FactsView {
        testers: Seq::empty(),
        neg_testers: Seq::empty(),
        ctor_eqs: Seq::empty(),
        neg_ctor_eqs: Seq::empty(),
        var_eqs: Seq::empty(),
        ctor_binds: Seq::empty(),
        sel_eqs: Seq::empty(),
        ctor_ctor_eqs: Seq::empty(),
        diseqs: Seq::empty(),
    }
}

impl FactsView {
    /// These facts, followed by others.
    pub open spec fn plus(self, other: FactsView) -> FactsView {
        FactsView {
            testers: self.testers + other.testers,
            neg_testers: self.neg_testers + other.neg_testers,
            ctor_eqs: self.ctor_eqs + other.ctor_eqs,
            neg_ctor_eqs: self.neg_ctor_eqs + other.neg_ctor_eqs,
            var_eqs: self.var_eqs + other.var_eqs,
            ctor_binds: self.ctor_binds + other.ctor_binds,
            sel_eqs: self.sel_eqs + other.sel_eqs,
            ctor_ctor_eqs: self.ctor_ctor_eqs + other.ctor_ctor_eqs,
            diseqs: self.diseqs + other.diseqs,
        }
    }
}

/// The constructors of a sort, if it is a datatype.
pub open spec fn layouts_of(m: &TermManager, s: SortId) -> Option<Seq<CtorLayout>> {
    if s < m.sorts@.len() {
        match m.sorts@[s as int] {
            Sort::Datatype(l) => Some(l@),
            _ => None,
        }
    } else {
        None
    }
}

/// The position of the first constructor of that name from `i` on.
pub open spec fn ctor_index(l: Seq<CtorLayout>, name: Symbol, i: int) -> Option<int>
    decreases l.len() - i,
{
    if i < 0 || i >= l.len() {
        None
    } else if l[i].name == name {
        Some(i)
    } else {
        ctor_index(l, name, i + 1)
    }
}

/// The layout of a constructor of a sort.
pub open spec fn layout_of(m: &TermManager, s: SortId, ctor: Symbol) -> Option<CtorLayout> {
    match layouts_of(m, s) {
        None => None,
        Some(l) => match ctor_index(l, ctor, 0) {
            None => None,
            Some(i) => Some(l[i]),
        },
    }
}

/// The term is a variable.
pub open spec fn is_dt_variable(m: &TermManager, t: TermId) -> bool {
    m.has(t) && m.op(t) is Var
}

/// The term is a constructor application.
pub open spec fn is_ctor(m: &TermManager, t: TermId) -> bool {
    m.has(t) && m.op(t) is DtConstructor
}

/// The constructor that a constructor application applies.
pub open spec fn ctor_of(m: &TermManager, t: TermId) -> Symbol {
    m.op(t)->DtConstructor_0
}

/// The term is a selector application.
pub open spec fn is_selector(m: &TermManager, t: TermId) -> bool {
    m.has(t) && m.op(t) is DtSelector
}

/// A list of one pair, or none.
pub open spec fn if_so<A>(cond: bool, x: A) -> Seq<A> {
    if cond {
        seq![x]
    } else {
        Seq::empty()
    }
}

/// What the equality of two terms says.
pub open spec fn equality_facts(m: &TermManager, a: TermId, b: TermId) -> FactsView {
    let ab = is_ctor(m, b) && is_dt_variable(m, a);
    let ba = is_ctor(m, a) && is_dt_variable(m, b);
    FactsView {
        ctor_eqs: if_so(ab, (a, ctor_of(m, b))) + if_so(ba, (b, ctor_of(m, a))),
        ctor_binds: if_so(ab, (a, b)) + if_so(ba, (b, a)),
        var_eqs: if_so(is_dt_variable(m, a) && is_dt_variable(m, b), (a, b)),
        sel_eqs: if_so(is_selector(m, a), (a, b)) + if_so(is_selector(m, b), (b, a)),
        ctor_ctor_eqs: if_so(is_ctor(m, a) && is_ctor(m, b), (a, b)),
        ..no_facts()
    }
}

/// The `i`-th argument of `c` is the `i`-th selector of the layout, applied to `v`.
pub open spec fn rebuilds_field(m: &TermManager, c: TermId, v: TermId, layout: CtorLayout, i: int) -> bool {
    let a = m.arg(c, i);
    m.has(a) && match m.op(a) {
        Op::DtSelector(s) => m.arg(a, 0) == v && s == layout.fields@[i].0,
        Op::Apply(f) => m.args(a).len() == 1 && m.arg(a, 0) == v && f == layout.fields@[i].0,
        _ => false,
    }
}

/// `c` applies a constructor to its own selectors, each applied to `v`.
pub open spec fn rebuilds(m: &TermManager, c: TermId, v: TermId) -> bool {
    match layout_of(m, m.sort_of(v), ctor_of(m, c)) {
        None => false,
        Some(layout) => layout.fields@.len() == m.args(c).len() && forall|i: int|
            0 <= i < m.args(c).len() ==> #[trigger] rebuilds_field(m, c, v, layout, i),
    }
}

/// What the difference of a variable and a constructor application says.
pub open spec fn variable_differs_facts(m: &TermManager, v: TermId, c: TermId) -> FactsView {
    let applies = is_dt_variable(m, v) && is_ctor(m, c);
    FactsView {
        neg_ctor_eqs: if_so(applies && m.args(c).len() == 0, (v, ctor_of(m, c))),
        neg_testers: if_so(applies && m.args(c).len() > 0 && rebuilds(m, c, v), (v, ctor_of(m, c))),
        ..no_facts()
    }
}

/// What the difference of two terms says.
pub open spec fn difference_facts(m: &TermManager, a: TermId, b: TermId) -> FactsView {
    variable_differs_facts(m, a, b).plus(variable_differs_facts(m, b, a)).plus(
        (FactsView { diseqs: seq![(a, b)], ..no_facts() }),
    )
}

/// The term applies the constructor to no argument.
pub open spec fn is_constant_ctor(m: &TermManager, t: int, ctor: Symbol) -> bool {
    0 <= t < m.terms@.len() && m.terms@[t].op == Op::DtConstructor(ctor) && m.terms@[t].args@.len() == 0
}

/// The first term from `i` on that applies the constructor to no argument.
pub open spec fn constant_from(m: &TermManager, ctor: Symbol, i: int) -> Option<TermId>
    decreases m.terms@.len() - i,
{
    if i < 0 || i >= m.terms@.len() {
        None
    } else if is_constant_ctor(m, i, ctor) {
        Some(i as TermId)
    } else {
        constant_from(m, ctor, i + 1)
    }
}

/// The constructor application that a term is when its constructor takes no argument.
pub open spec fn constant_for(m: &TermManager, ctor: Symbol, arg: TermId) -> Option<TermId> {
    if !m.has(arg) {
        None
    } else {
        match layout_of(m, m.sort_of(arg), ctor) {
            None => None,
            Some(layout) => if layout.fields@.len() == 0 {
                constant_from(m, ctor, 0)
            } else {
                None
            },
        }
    }
}

/// What a constructor test says.
pub open spec fn tester_facts(m: &TermManager, ctor: Symbol, arg: TermId, positive: bool) -> FactsView {
    let c = constant_for(m, ctor, arg);
    FactsView {
        testers: if_so(positive, (arg, ctor)),
        neg_testers: if_so(!positive, (arg, ctor)),
        ctor_binds: if_so(positive && c is Some, (arg, c->Some_0)),
        diseqs: if_so(!positive && c is Some, (arg, c->Some_0)),
        ..no_facts()
    }
}

/// What a formula says when it is asserted (`positive`) or denied.
pub open spec fn facts_under(m: &TermManager, t: TermId, positive: bool) -> FactsView
    decreases t, m.args(t).len() + 1,
{
    if !m.has(t) {
        no_facts()
    } else {
        let args = m.args(t);
        match m.op(t) {
            Op::DtTester(k) => tester_facts(m, k, args[0], positive),
            Op::Eq => if positive {
                equality_facts(m, args[0], args[1])
            } else {
                difference_facts(m, args[0], args[1])
            },
            Op::Distinct => if args.len() != 2 {
                no_facts()
            } else if positive {
                difference_facts(m, args[0], args[1])
            } else {
                equality_facts(m, args[0], args[1])
            },
            Op::And => if positive {
                facts_of_args(m, t, args.len() as int, positive)
            } else {
                no_facts()
            },
            Op::Or => if positive {
                no_facts()
            } else {
                facts_of_args(m, t, args.len() as int, positive)
            },
            Op::Not => if args[0] < t {
                facts_under(m, args[0], !positive)
            } else {
                no_facts()
            },
            _ => no_facts(),
        }
    }
}

/// What the first `k` arguments say.
pub open spec fn facts_of_args(m: &TermManager, t: TermId, k: int, positive: bool) -> FactsView
    decreases t, k,
{
    if k <= 0 || m.arg(t, k - 1) >= t {
        no_facts()
    } else {
        facts_of_args(m, t, k - 1, positive).plus(facts_under(m, m.arg(t, k - 1), positive))
    }
}

/// What the first `k` assertions say.
pub open spec fn facts_of_all(m: &TermManager, assertions: Seq<TermId>, k: int) -> FactsView
    decreases k,
{
    if k <= 0 {
        no_facts()
    } else {
        facts_of_all(m, assertions, k - 1).plus(facts_under(m, assertions[k - 1], true))
    }
}

impl DtFacts {
    /// No facts.
    pub fn new() -> (f: DtFacts)
        ensures
            f@ == no_facts(),
    {
        let f = DtFacts {
            testers: Vec::new(),
            neg_testers: Vec::new(),
            ctor_eqs: Vec::new(),
            neg_ctor_eqs: Vec::new(),
            var_eqs: Vec::new(),
            ctor_binds: Vec::new(),
            sel_eqs: Vec::new(),
            ctor_ctor_eqs: Vec::new(),
            diseqs: Vec::new(),
        };
        assert(f@ =~= no_facts());
        f
    }

    /// Records what the equality of two terms says.
    pub fn record_dt_positive_eq_fact(&mut self, m: &TermManager, a: TermId, b: TermId)
        requires
            m.wf(),
        ensures
            final(self)@ == old(self)@.plus(equality_facts(m, a, b)),
    {
        let a_var = is_variable(m, a);
        let b_var = is_variable(m, b);
        let a_ctor = constructor_of(m, a);
        let b_ctor = constructor_of(m, b);
        if let Some(k) = b_ctor {
            if a_var {
                self.ctor_eqs.push((a, k));
                self.ctor_binds.push((a, b));
            }
        }
        if let Some(k) = a_ctor {
            if b_var {
                self.ctor_eqs.push((b, k));
                self.ctor_binds.push((b, a));
            }
        }
        if a_var && b_var {
            self.var_eqs.push((a, b));
        }
        if selects(m, a) {
            self.sel_eqs.push((a, b));
        }
        if selects(m, b) {
            self.sel_eqs.push((b, a));
        }
        if a_ctor.is_some() && b_ctor.is_some() {
            self.ctor_ctor_eqs.push((a, b));
        }
        assert(self@ =~= old(self)@.plus(equality_facts(m, a, b)));
    }

    /// Records what the difference of a variable and a constructor application says.
    pub fn record_dt_negative_eq_fact(&mut self, m: &TermManager, v: TermId, c: TermId)
        requires
            m.wf(),
        ensures
            final(self)@ == old(self)@.plus(variable_differs_facts(m, v, c)),
    {
        if !is_variable(m, v) {
            assert(self@ =~= old(self)@.plus(variable_differs_facts(m, v, c)));
            return ;
        }
        match constructor_of(m, c) {
            None => {},
            Some(k) => {
                if m.terms[c].args.len() == 0 {
                    self.neg_ctor_eqs.push((v, k));
                } else if is_rebuilt(m, c, v, k) {
                    self.neg_testers.push((v, k));
                }
            },
        }
        assert(self@ =~= old(self)@.plus(variable_differs_facts(m, v, c)));
    }

    /// Records what the difference of two terms says.
    pub fn record_difference(&mut self, m: &TermManager, a: TermId, b: TermId)
        requires
            m.wf(),
        ensures
            final(self)@ == old(self)@.plus(difference_facts(m, a, b)),
    {
        self.record_dt_negative_eq_fact(m, a, b);
        self.record_dt_negative_eq_fact(m, b, a);
        self.diseqs.push((a, b));
        assert(self@ =~= old(self)@.plus(difference_facts(m, a, b)));
    }

    /// Records what a constructor test says.
    pub fn record_dt_tester_fact(&mut self, m: &TermManager, ctor: Symbol, arg: TermId, positive: bool)
        requires
            m.wf(),
        ensures
            final(self)@ == old(self)@.plus(tester_facts(m, ctor, arg, positive)),
    {
        if positive {
            self.testers.push((arg, ctor));
        } else {
            self.neg_testers.push((arg, ctor));
        }
        if let Some(c) = find_constant(m, ctor, arg) {
            if positive {
                self.ctor_binds.push((arg, c));
            } else {
                self.diseqs.push((arg, c));
            }
        }
        assert(self@ =~= old(self)@.plus(tester_facts(m, ctor, arg, positive)));
    }

    /// Records what a formula says when it is asserted or denied.
    pub fn collect_dt_constraints(&mut self, m: &TermManager, t: TermId, positive: bool)
        requires
            m.wf(),
        ensures
            final(self)@ == old(self)@.plus(facts_under(m, t, positive)),
        decreases t,
    {
        if t >= m.terms.len() {
            assert(self@ =~= old(self)@.plus(facts_under(m, t, positive)));
            return ;
        }
        assert(m.terms@[t as int].fits(t as int));
        match m.terms[t].op {
            Op::DtTester(k) => {
                let a: usize = m.terms[t].args[0];
                self.record_dt_tester_fact(m, k, a, positive);
            },
            Op::Eq => {
                let a: usize = m.terms[t].args[0];
                let b: usize = m.terms[t].args[1];
                if positive {
                    self.record_dt_positive_eq_fact(m, a, b);
                } else {
                    self.record_difference(m, a, b);
                }
            },
            Op::Distinct => {
                if m.terms[t].args.len() == 2 {
                    let a: usize = m.terms[t].args[0];
                    let b: usize = m.terms[t].args[1];
                    if positive {
                        self.record_difference(m, a, b);
                    } else {
                        self.record_dt_positive_eq_fact(m, a, b);
                    }
                } else {
                    assert(self@ =~= old(self)@.plus(facts_under(m, t, positive)));
                }
            },
            Op::And | Op::Or => {
                let conjunctive = match m.terms[t].op {
                    Op::And => positive,
                    _ => !positive,
                };
                if !conjunctive {
                    assert(self@ =~= old(self)@.plus(facts_under(m, t, positive)));
                    return ;
                }
                let n: usize = m.terms[t].args.len();
                let mut i: usize = 0;
                assert(self@ =~= old(self)@.plus(facts_of_args(m, t, 0, positive)));
                while i < n
                    invariant
                        i <= n,
                        n == m.args(t).len(),
                        m.wf(),
                        m.has(t),
                        self@ == old(self)@.plus(facts_of_args(m, t, i as int, positive)),
                    decreases n - i,
                {
                    assert(m.terms@[t as int].fits(t as int));
                    let a: usize = m.terms[t].args[i];
                    let ghost before = self@;
                    self.collect_dt_constraints(m, a, positive);
                    assert(self@ =~= old(self)@.plus(facts_of_args(m, t, i + 1, positive))) by {
                        assert(m.arg(t, i as int) == a && a < t);
                    }
                    i = i + 1;
                }
            },
            Op::Not => {
                let a: usize = m.terms[t].args[0];
                self.collect_dt_constraints(m, a, !positive);
            },
            _ => {
                assert(self@ =~= old(self)@.plus(facts_under(m, t, positive)));
            },
        }
    }
}

/// Records what the assertions say.
pub fn collect_all(m: &TermManager, assertions: &Vec<TermId>) -> (f: DtFacts)
    requires
        m.wf(),
    ensures
        f@ == facts_of_all(m, assertions@, assertions@.len() as int),
{
    let mut f = DtFacts::new();
    let mut i: usize = 0;
    while i < assertions.len()
        invariant
            i <= assertions.len(),
            m.wf(),
            f@ == facts_of_all(m, assertions@, i as int),
        decreases assertions.len() - i,
    {
        f.collect_dt_constraints(m, assertions[i], true);
        i = i + 1;
    }
    f
}

/// The term is a variable.
pub fn is_variable(m: &TermManager, t: TermId) -> (r: bool)
    ensures
        r == is_dt_variable(m, t),
{
    t < m.terms.len() && (match m.terms[t].op {
        Op::Var(_) => true,
        _ => false,
    })
}

/// The constructor that a term applies, if it applies one.
pub fn constructor_of(m: &TermManager, t: TermId) -> (r: Option<Symbol>)
    ensures
        r is Some <==> is_ctor(m, t),
        r matches Some(k) ==> k == ctor_of(m, t) && m.op(t) == Op::DtConstructor(k),
{
    if t < m.terms.len() {
        match m.terms[t].op {
            Op::DtConstructor(k) => Some(k),
            _ => None,
        }
    } else {
        None
    }
}

/// The term is a selector application.
pub fn selects(m: &TermManager, t: TermId) -> (r: bool)
    ensures
        r == is_selector(m, t),
{
    t < m.terms.len() && (match m.terms[t].op {
        Op::DtSelector(_) => true,
        _ => false,
    })
}

/// The layout of a constructor of a sort.
pub fn find_layout(m: &TermManager, s: SortId, ctor: Symbol) -> (r: Option<&CtorLayout>)
    ensures
        match r {
            Some(l) => layout_of(m, s, ctor) == Some(*l),
            None => layout_of(m, s, ctor) is None,
        },
{
    if s >= m.sorts.len() {
        return None;
    }
    match &m.sorts[s] {
        Sort::Datatype(l) => {
            let mut i: usize = 0;
            while i < l.len()
                invariant
                    i <= l.len(),
                    ctor_index(l@, ctor, 0) == ctor_index(l@, ctor, i as int),
                    layouts_of(m, s) == Some(l@),
                decreases l.len() - i,
            {
                if l[i].name == ctor {
                    return Some(&l[i]);
                }
                i = i + 1;
            }
            None
        },
        _ => None,
    }
}

/// `c` applies the constructor `k` to its own selectors, each applied to `v`.
fn is_rebuilt(m: &TermManager, c: TermId, v: TermId, k: Symbol) -> (r: bool)
    requires
        m.wf(),
        m.has(v),
        m.has(c),
        m.op(c) == Op::DtConstructor(k),
    ensures
        r == rebuilds(m, c, v),
{
    match find_layout(m, m.terms[v].sort, k) {
        None => false,
        Some(layout) => {
            let n: usize = m.terms[c].args.len();
            if layout.fields.len() != n {
                return false;
            }
            let mut i: usize = 0;
            while i < n
                invariant
                    i <= n,
                    n == m.args(c).len(),
                    n == layout.fields@.len(),
                    m.wf(),
                    m.has(c),
                    m.op(c) == Op::DtConstructor(k),
                    layout_of(m, m.sort_of(v), k) == Some(*layout),
                    forall|j: int| 0 <= j < i ==> #[trigger] rebuilds_field(m, c, v, *layout, j),
                decreases n - i,
            {
                assert(m.terms@[c as int].fits(c as int));
                let a: usize = m.terms[c].args[i];
                assert(m.terms@[a as int].fits(a as int));
                let ok = match m.terms[a].op {
                    Op::DtSelector(s) => m.terms[a].args[0] == v && s == layout.fields[i].0,
                    Op::Apply(f) => m.terms[a].args.len() == 1 && m.terms[a].args[0] == v && f == layout.fields[i].0,
                    _ => false,
                };
                assert(ok == rebuilds_field(m, c, v, *layout, i as int));
                if !ok {
                    return false;
                }
                i = i + 1;
            }
            true
        },
    }
}

/// The constructor application that a term is when its constructor takes no argument.
fn find_constant(m: &TermManager, ctor: Symbol, arg: TermId) -> (r: Option<TermId>)
    ensures
        r == constant_for(m, ctor, arg),
{
    if arg >= m.terms.len() {
        return None;
    }
    match find_layout(m, m.terms[arg].sort, ctor) {
        None => None,
        Some(layout) => {
            if layout.fields.len() != 0 {
                return None;
            }
            let mut i: usize = 0;
            while i < m.terms.len()
                invariant
                    i <= m.terms.len(),
                    m.has(arg),
                    layout_of(m, m.sort_of(arg), ctor) == Some(*layout),
                    layout.fields@.len() == 0,
                    constant_from(m, ctor, 0) == constant_from(m, ctor, i as int),
                decreases m.terms.len() - i,
            {
                let hit = match m.terms[i].op {
                    Op::DtConstructor(k) => k == ctor && m.terms[i].args.len() == 0,
                    _ => false,
                };
                if hit {
                    return Some(i);
                }
                i = i + 1;
            }
            None
        },
    }
}

} // verus!
