//! Arithmetic that is wrapped in uninterpreted functions, and its unwrapping.
use crate::linear::number;
use crate::linear::product_value;
use crate::linear::sum_value;
use crate::linear::Valuation;
use crate::term::is_node;
use crate::term::Op;
use crate::term::Rel;
use crate::term::SortId;
use crate::term::Symbol;
use crate::term::copy_ids;
use crate::term::TermId;
use crate::term::TermManager;
use crate::term::BOOL_SORT;
use crate::term::REAL_SORT;
use crate::text::contains_text;
use crate::text::holds_text;
use crate::text::same_text;
use crate::verdict::SolverResult;
use vstd::prelude::*;

verus! {

/// The operator that a wrapper stands for.
#[derive(Clone, Copy, Debug, PartialEq, Eq, Structural)]
pub enum NativeArith {
    Add,
    Sub,
    Mul,
}

/// The operator that a wrapper of the given name stands for. Division and remainder are no
/// polynomials, so their wrappers stand for nothing.
pub open spec fn native_of(name: Seq<char>) -> Option<NativeArith> {
    if name == "Add"@ || name == "RAdd"@ {
        Some(NativeArith::Add)
    } else if name == "Sub"@ || name == "RSub"@ {
        Some(NativeArith::Sub)
    } else if name == "Mul"@ || name == "RMul"@ {
        Some(NativeArith::Mul)
    } else {
        None
    }
}

/// The operator that a wrapper of the given name stands for.
pub fn spine_native_op(sym: &str) -> (r: Option<NativeArith>)
    ensures
        r == native_of(sym@),
{
    if same_text(sym, "Add") || same_text(sym, "RAdd") {
        Some(NativeArith::Add)
    } else if same_text(sym, "Sub") || same_text(sym, "RSub") {
        Some(NativeArith::Sub)
    } else if same_text(sym, "Mul") || same_text(sym, "RMul") {
        Some(NativeArith::Mul)
    } else {
        None
    }
}

/// Which wrappers may be unwrapped.
#[derive(Clone, Copy, Debug, PartialEq, Eq, Structural)]
pub struct SpineRewrite {
    pub mul: bool,
    pub rmul: bool,
    pub add: bool,
    pub sub: bool,
    pub radd: bool,
    pub rsub: bool,
}

impl Default for SpineRewrite {
    fn default() -> (s: SpineRewrite)
        ensures
            s == (SpineRewrite { mul: false, rmul: false, add: false, sub: false, radd: false, rsub: false }),
    {
        SpineRewrite { mul: false, rmul: false, add: false, sub: false, radd: false, rsub: false }
    }
}

impl SpineRewrite {
    /// Wrappers of the name may be unwrapped.
    pub open spec fn enables(self, name: Seq<char>) -> bool {
        ||| name == "Mul"@ && self.mul
        ||| name == "RMul"@ && self.rmul
        ||| name == "Add"@ && self.add
        ||| name == "Sub"@ && self.sub
        ||| name == "RAdd"@ && self.radd
        ||| name == "RSub"@ && self.rsub
    }

    /// Whether wrappers of the name may be unwrapped.
    pub fn enabled(&self, sym: &str) -> (r: bool)
        ensures
            r == self.enables(sym@),
    {
        (same_text(sym, "Mul") && self.mul) || (same_text(sym, "RMul") && self.rmul) || (same_text(sym, "Add") && self.add)
            || (same_text(sym, "Sub") && self.sub) || (same_text(sym, "RAdd") && self.radd) || (same_text(sym, "RSub")
            && self.rsub)
    }
}

/// The symbol has the name.
pub open spec fn named(m: &TermManager, f: Symbol, name: Seq<char>) -> bool {
    f < m.names@.len() && m.names@[f as int]@ == name
}

/// Whether the symbol has the name.
pub fn func_name_is(m: &TermManager, f: Symbol, name: &str) -> (r: bool)
    ensures
        r == named(m, f, name@),
{
    f < m.names.len() && same_text(m.names[f].as_str(), name)
}

/// Terms of this operator are looked into; the arguments of other theories are not.
pub open spec fn is_transparent(op: Op) -> bool {
    match op {
        Op::Not | Op::Neg | Op::And | Op::Or | Op::Add | Op::Mul | Op::Distinct | Op::Xor | Op::Implies | Op::Eq | Op::Sub
        | Op::Div | Op::Mod | Op::Compare(_) | Op::Ite | Op::Apply(_) => true,
        _ => false,
    }
}

/// Whether terms of this operator are looked into.
fn transparent(op: Op) -> (r: bool)
    ensures
        r == is_transparent(op),
{
    match op {
        Op::Not | Op::Neg | Op::And | Op::Or | Op::Add | Op::Mul | Op::Distinct | Op::Xor | Op::Implies | Op::Eq | Op::Sub
        | Op::Div | Op::Mod | Op::Compare(_) | Op::Ite | Op::Apply(_) => true,
        _ => false,
    }
}

/// The terms directly under a term that is looked into, or under a binder.
pub open spec fn children_of(m: &TermManager, t: TermId) -> Seq<TermId> {
    if m.has(t) && (is_transparent(m.op(t)) || m.op(t) is Forall || m.op(t) is Exists) {
        m.args(t)
    } else {
        Seq::empty()
    }
}

/// The terms directly under a term that is looked into, or under a binder.
pub fn term_children(m: &TermManager, t: TermId) -> (r: Vec<TermId>)
    ensures
        r@ == children_of(m, t),
{
    let mut out: Vec<TermId> = Vec::new();
    if t >= m.terms.len() {
        return out;
    }
    let open = transparent(m.terms[t].op) || match m.terms[t].op {
        Op::Forall | Op::Exists => true,
        _ => false,
    };
    if !open {
        return out;
    }
    let mut i: usize = 0;
    while i < m.terms[t].args.len()
        invariant
            i <= m.args(t).len(),
            m.has(t),
            out@ == m.args(t).take(i as int),
        decreases m.args(t).len() - i,
    {
        out.push(m.terms[t].args[i]);
        assert(out@ =~= m.args(t).take(i + 1));
        i = i + 1;
    }
    assert(m.args(t).take(i as int) =~= m.args(t));
    out
}

/// The term or one within the given depth under it is of real sort.
pub open spec fn mentions_real(m: &TermManager, t: TermId, depth: nat) -> bool
    decreases depth,
{
    depth > 0 && m.has(t) && (m.sort_of(t) == REAL_SORT || (is_transparent(m.op(t)) && exists|i: int|
        0 <= i < m.args(t).len() && mentions_real(m, #[trigger] m.args(t)[i], (depth - 1) as nat)))
}

/// Whether the term or one within the given depth under it is of real sort.
pub fn term_mentions_real_sort(m: &TermManager, t: TermId, depth: u32) -> (r: bool)
    ensures
        r == mentions_real(m, t, depth as nat),
    decreases depth,
{
    if depth == 0 || t >= m.terms.len() {
        return false;
    }
    if m.terms[t].sort == REAL_SORT {
        return true;
    }
    if !transparent(m.terms[t].op) {
        return false;
    }
    let mut i: usize = 0;
    while i < m.terms[t].args.len()
        invariant
            i <= m.args(t).len(),
            m.has(t),
            depth > 0,
            m.sort_of(t) != REAL_SORT,
            is_transparent(m.op(t)),
            forall|k: int| 0 <= k < i ==> !mentions_real(m, #[trigger] m.args(t)[k], (depth - 1) as nat),
        decreases m.args(t).len() - i,
    {
        let a: usize = m.terms[t].args[i];
        if term_mentions_real_sort(m, a, depth - 1) {
            assert(mentions_real(m, m.args(t)[i as int], (depth - 1) as nat));
            return true;
        }
        assert(m.args(t)[i as int] == a);
        i = i + 1;
    }
    false
}

/// The term applies the named function to two arguments.
pub open spec fn is_wrapper(m: &TermManager, t: TermId, name: Seq<char>) -> bool {
    m.op(t) matches Op::Apply(f) && m.args(t).len() == 2 && named(m, f, name)
}

/// The named function is applied to two arguments within the given depth, outside binders.
pub open spec fn applies(m: &TermManager, t: TermId, name: Seq<char>, depth: nat) -> bool
    decreases depth,
{
    depth > 0 && m.has(t) && (is_wrapper(m, t, name) || (is_transparent(m.op(t)) && exists|i: int|
        0 <= i < m.args(t).len() && applies(m, #[trigger] m.args(t)[i], name, (depth - 1) as nat)))
}

/// The named function is applied under one of the first `k` arguments.
pub open spec fn applies_below(m: &TermManager, t: TermId, name: Seq<char>, depth: nat, k: int) -> bool {
    exists|i: int| 0 <= i < k && applies(m, #[trigger] m.args(t)[i], name, depth)
}

/// Notes whether the wrappers of integer and of real products occur outside binders.
pub fn scan_mul_rmul_apps(m: &TermManager, t: TermId, has_mul: &mut bool, has_rmul: &mut bool, depth: u32)
    ensures
        *final(has_mul) == (*old(has_mul) || applies(m, t, "Mul"@, depth as nat)),
        *final(has_rmul) == (*old(has_rmul) || applies(m, t, "RMul"@, depth as nat)),
    decreases depth,
{
    if depth == 0 || (*has_mul && *has_rmul) {
        return ;
    }
    if t >= m.terms.len() {
        return ;
    }
    proof {
        reveal_strlit("Mul");
        reveal_strlit("RMul");
        assert("Mul"@.len() != "RMul"@.len());
    }
    if let Op::Apply(f) = m.terms[t].op {
        if m.terms[t].args.len() == 2 {
            if func_name_is(m, f, "Mul") {
                *has_mul = true;
            } else if func_name_is(m, f, "RMul") {
                *has_rmul = true;
            }
        }
    }
    if !transparent(m.terms[t].op) {
        return ;
    }
    let ghost below = (depth - 1) as nat;
    let mut i: usize = 0;
    while i < m.terms[t].args.len()
        invariant
            i <= m.args(t).len(),
            m.has(t),
            depth > 0,
            below == depth - 1,
            is_transparent(m.op(t)),
            *has_mul == (*old(has_mul) || is_wrapper(m, t, "Mul"@) || applies_below(m, t, "Mul"@, below, i as int)),
            *has_rmul == (*old(has_rmul) || is_wrapper(m, t, "RMul"@) || applies_below(m, t, "RMul"@, below, i as int)),
        decreases m.args(t).len() - i,
    {
        let a: usize = m.terms[t].args[i];
        let ghost mul0 = *has_mul;
        let ghost rmul0 = *has_rmul;
        scan_mul_rmul_apps(m, a, has_mul, has_rmul, depth - 1);
        proof {
            lemma_applies_below(m, t, "Mul"@, below, i as int);
            lemma_applies_below(m, t, "RMul"@, below, i as int);
        }
        i = i + 1;
    }
}

/// What one more argument adds.
proof fn lemma_applies_below(m: &TermManager, t: TermId, name: Seq<char>, depth: nat, i: int)
    requires
        0 <= i < m.args(t).len(),
    ensures
        applies_below(m, t, name, depth, i + 1) == (applies_below(m, t, name, depth, i) || applies(m, m.args(t)[i], name, depth)),
{
    if applies_below(m, t, name, depth, i + 1) {
        let k = choose|k: int| 0 <= k < i + 1 && applies(m, #[trigger] m.args(t)[k], name, depth);
        if k < i {
            assert(applies_below(m, t, name, depth, i));
        }
    }
    if applies_below(m, t, name, depth, i) {
        let k = choose|k: int| 0 <= k < i && applies(m, #[trigger] m.args(t)[k], name, depth);
        assert(applies(m, m.args(t)[k], name, depth));
    }
}

/// The operator as it stands in terms.
pub open spec fn op_of(n: NativeArith) -> Op {
    match n {
        NativeArith::Add => Op::Add,
        NativeArith::Sub => Op::Sub,
        NativeArith::Mul => Op::Mul,
    }
}

/// One side applies the named wrapper to two terms, the other its operator to the same terms in
/// the same order.
pub open spec fn sides_match(m: &TermManager, wrapped: TermId, native: TermId, name: Seq<char>) -> bool {
    &&& m.has(wrapped)
    &&& m.has(native)
    &&& is_wrapper(m, wrapped, name)
    &&& native_of(name) matches Some(n) && m.op(native) == op_of(n)
    &&& m.args(native) == m.args(wrapped)
}

/// One side applies the named wrapper to two terms, the other its operator to the same terms in
/// the same order.
pub fn eq_sides_are_bridge(m: &TermManager, apply_side: TermId, native_side: TermId, sym: &str) -> (r: bool)
    requires
        m.wf(),
    ensures
        r == sides_match(m, apply_side, native_side, sym@),
{
    let native = match spine_native_op(sym) {
        Some(n) => n,
        None => {
            return false;
        },
    };
    if apply_side >= m.terms.len() || native_side >= m.terms.len() {
        return false;
    }
    match m.terms[apply_side].op {
        Op::Apply(f) => {
            if !func_name_is(m, f, sym) || m.terms[apply_side].args.len() != 2 {
                return false;
            }
        },
        _ => {
            return false;
        },
    }
    let fits = match (native, m.terms[native_side].op) {
        (NativeArith::Add, Op::Add) => true,
        (NativeArith::Sub, Op::Sub) => true,
        (NativeArith::Mul, Op::Mul) => true,
        _ => false,
    };
    if !fits || m.terms[native_side].args.len() != 2 {
        return false;
    }
    proof {
        let a = m.args(apply_side);
        let b = m.args(native_side);
        assert(a == b <==> a[0] == b[0] && a[1] == b[1]) by {
            if a[0] == b[0] && a[1] == b[1] {
                assert(a =~= b);
            }
        }
    }
    m.terms[apply_side].args[0] == m.terms[native_side].args[0] && m.terms[apply_side].args[1]
        == m.terms[native_side].args[1]
}

/// The term is the variable that the statement binds at position `i`.
pub open spec fn is_bound(m: &TermManager, t: TermId, i: int, x: TermId) -> bool {
    m.has(x) && m.op(x) == Op::Var(m.terms@[t as int].binders@[i].0) && m.sort_of(x) == m.terms@[t as int].binders@[i].1
}

/// The statement binds two variables of different names, and the application is to these two.
pub open spec fn binds_args(m: &TermManager, t: TermId, app: TermId) -> bool {
    let b = m.terms@[t as int].binders@;
    &&& b.len() == 2
    &&& b[0].0 != b[1].0
    &&& ((is_bound(m, t, 0, m.arg(app, 0)) && is_bound(m, t, 1, m.arg(app, 1))) || (is_bound(m, t, 1, m.arg(app, 0)) && is_bound(
        m,
        t,
        0,
        m.arg(app, 1),
    )))
}

/// The assertion states for all arguments that the named wrapper is its operator: it equates the
/// wrapper of its two bound variables with the operator on them.
pub open spec fn is_bridge(m: &TermManager, t: TermId, name: Seq<char>) -> bool {
    &&& m.has(t)
    &&& m.op(t) == Op::Forall
    &&& m.has(m.arg(t, 0))
    &&& m.op(m.arg(t, 0)) == Op::Eq
    &&& (is_bridge_side(m, t, m.arg(m.arg(t, 0), 0), m.arg(m.arg(t, 0), 1), name) || is_bridge_side(
        m,
        t,
        m.arg(m.arg(t, 0), 1),
        m.arg(m.arg(t, 0), 0),
        name,
    ))
}

/// The sides match, and the wrapper is applied to the bound variables.
pub open spec fn is_bridge_side(m: &TermManager, t: TermId, wrapped: TermId, native: TermId, name: Seq<char>) -> bool {
    sides_match(m, wrapped, native, name) && binds_args(m, t, wrapped)
}

/// Whether the term is the variable that a statement binds with the given name and sort.
fn is_bound_variable(m: &TermManager, binder: (Symbol, SortId), x: TermId) -> (r: bool)
    ensures
        r == (m.has(x) && m.op(x) == Op::Var(binder.0) && m.sort_of(x) == binder.1),
{
    x < m.terms.len() && m.terms[x].sort == binder.1 && match m.terms[x].op {
        Op::Var(s) => s == binder.0,
        _ => false,
    }
}

/// Whether the statement binds two variables of different names, and the application is to these
/// two.
fn applies_to_bound(m: &TermManager, t: TermId, app: TermId) -> (r: bool)
    requires
        m.has(t),
        m.has(app),
        m.args(app).len() == 2,
    ensures
        r == binds_args(m, t, app),
{
    if m.terms[t].binders.len() != 2 {
        return false;
    }
    let first = m.terms[t].binders[0];
    let second = m.terms[t].binders[1];
    let a: usize = m.terms[app].args[0];
    let b: usize = m.terms[app].args[1];
    first.0 != second.0 && ((is_bound_variable(m, first, a) && is_bound_variable(m, second, b)) || (is_bound_variable(m, second, a)
        && is_bound_variable(m, first, b)))
}

/// Whether the assertion states for all arguments that the named wrapper is its operator.
pub fn assertion_is_bridge_axiom(m: &TermManager, assertion: TermId, sym: &str) -> (r: bool)
    requires
        m.wf(),
    ensures
        r == is_bridge(m, assertion, sym@),
{
    if assertion >= m.terms.len() {
        return false;
    }
    assert(m.terms@[assertion as int].fits(assertion as int));
    match m.terms[assertion].op {
        Op::Forall => {},
        _ => {
            return false;
        },
    }
    let body: usize = m.terms[assertion].args[0];
    assert(m.terms@[body as int].fits(body as int));
    match m.terms[body].op {
        Op::Eq => {},
        _ => {
            return false;
        },
    }
    let lhs: usize = m.terms[body].args[0];
    let rhs: usize = m.terms[body].args[1];
    (eq_sides_are_bridge(m, lhs, rhs, sym) && applies_to_bound(m, assertion, lhs)) || (eq_sides_are_bridge(m, rhs, lhs, sym)
        && applies_to_bound(m, assertion, rhs))
}

/// One of the assertions states that the named wrapper is its operator.
pub open spec fn bridged(m: &TermManager, assertions: Seq<TermId>, name: Seq<char>) -> bool {
    exists|i: int| 0 <= i < assertions.len() && is_bridge(m, #[trigger] assertions[i], name)
}

/// Whether one of the assertions states that the named wrapper is its operator.
fn has_bridge(m: &TermManager, assertions: &Vec<TermId>, sym: &str) -> (r: bool)
    requires
        m.wf(),
    ensures
        r == bridged(m, assertions@, sym@),
{
    let mut i: usize = 0;
    while i < assertions.len()
        invariant
            i <= assertions.len(),
            m.wf(),
            forall|k: int| 0 <= k < i ==> !is_bridge(m, #[trigger] assertions@[k], sym@),
        decreases assertions.len() - i,
    {
        if assertion_is_bridge_axiom(m, assertions[i], sym) {
            assert(is_bridge(m, assertions@[i as int], sym@));
            return true;
        }
        i = i + 1;
    }
    false
}

/// The operator that the unwrapped form of a term has, for a term that unwrapping takes apart.
pub open spec fn unwrapped_op(m: &TermManager, spine: SpineRewrite, t: TermId) -> Option<Op> {
    match m.op(t) {
        Op::Apply(f) => if m.args(t).len() != 2 {
            None
        } else if f < m.names@.len() && spine.enables(m.names@[f as int]@) {
            match native_of(m.names@[f as int]@) {
                Some(n) => Some(op_of(n)),
                None => None,
            }
        } else {
            Some(Op::Apply(f))
        },
        Op::Add | Op::Mul | Op::Sub | Op::Neg => Some(m.op(t)),
        _ => None,
    }
}

/// `r` is `t` with every wrapper that may be unwrapped replaced by its operator.
pub open spec fn unwraps(m: &TermManager, spine: SpineRewrite, t: TermId, r: TermId) -> bool
    decreases t,
{
    m.has(t) && match unwrapped_op(m, spine, t) {
        None => r == t,
        Some(op) => is_node(m, r, op, m.args(r), m.sort_of(t)) && m.args(r).len() == m.args(t).len() && forall|i: int|
            0 <= i < m.args(t).len() ==> #[trigger] m.args(t)[i] < t && unwraps(m, spine, m.args(t)[i], m.args(r)[i]),
    }
}

/// A term of a store is the same in a later one.
proof fn lemma_same_term(m: &TermManager, later: &TermManager, t: TermId)
    requires
        m.extended_by(later),
        m.has(t),
    ensures
        later.has(t),
        later.terms@[t as int] == m.terms@[t as int],
        later.op(t) == m.op(t),
        later.args(t) == m.args(t),
        later.sort_of(t) == m.sort_of(t),
{
}

/// A name of a store is the same in a later one with the same names.
proof fn lemma_unwrapped_op(m: &TermManager, later: &TermManager, spine: SpineRewrite, t: TermId)
    requires
        m.extended_by(later),
        m.names@ == later.names@,
        m.has(t),
    ensures
        unwrapped_op(later, spine, t) == unwrapped_op(m, spine, t),
{
    lemma_same_term(m, later, t);
}

/// An unwrapped form stays one when the store grows.
proof fn lemma_unwraps_extends(m: &TermManager, later: &TermManager, spine: SpineRewrite, t: TermId, r: TermId)
    requires
        m.wf(),
        m.extended_by(later),
        m.names@ == later.names@,
        unwraps(m, spine, t, r),
    ensures
        unwraps(later, spine, t, r),
    decreases t,
{
    lemma_same_term(m, later, t);
    lemma_unwrapped_op(m, later, spine, t);
    if unwrapped_op(m, spine, t) is Some {
        lemma_same_term(m, later, r);
        assert forall|i: int| 0 <= i < later.args(t).len() implies #[trigger] later.args(t)[i] < t && unwraps(
            later,
            spine,
            later.args(t)[i],
            later.args(r)[i],
        ) by {
            assert(m.args(t)[i] < t);
            lemma_unwraps_extends(m, later, spine, m.args(t)[i], m.args(r)[i]);
        }
    }
}

/// The arguments of a term.
fn copy_args(m: &TermManager, t: TermId) -> (r: Vec<TermId>)
    requires
        m.has(t),
    ensures
        r@ == m.args(t),
{
    let mut out: Vec<TermId> = Vec::new();
    let mut i: usize = 0;
    while i < m.terms[t].args.len()
        invariant
            i <= m.args(t).len(),
            m.has(t),
            out@ == m.args(t).take(i as int),
        decreases m.args(t).len() - i,
    {
        out.push(m.terms[t].args[i]);
        assert(out@ =~= m.args(t).take(i + 1));
        i = i + 1;
    }
    assert(m.args(t).take(i as int) =~= m.args(t));
    out
}

/// The operator that the unwrapped form of a term has.
fn new_op(m: &TermManager, spine: &SpineRewrite, t: TermId) -> (r: Option<Op>)
    requires
        m.has(t),
    ensures
        r == unwrapped_op(m, *spine, t),
{
    match m.terms[t].op {
        Op::Apply(f) => {
            if m.terms[t].args.len() != 2 {
                return None;
            }
            if f < m.names.len() && spine.enabled(m.names[f].as_str()) {
                match spine_native_op(m.names[f].as_str()) {
                    Some(NativeArith::Add) => Some(Op::Add),
                    Some(NativeArith::Sub) => Some(Op::Sub),
                    Some(NativeArith::Mul) => Some(Op::Mul),
                    None => None,
                }
            } else {
                Some(Op::Apply(f))
            }
        },
        Op::Add => Some(Op::Add),
        Op::Mul => Some(Op::Mul),
        Op::Sub => Some(Op::Sub),
        Op::Neg => Some(Op::Neg),
        _ => None,
    }
}

/// Replaces every wrapper in a term that may be unwrapped by its operator; nothing where the
/// store does not hold the term.
pub fn rewrite_spine(m: &mut TermManager, t: TermId, spine: &SpineRewrite) -> (r: Option<TermId>)
    requires
        old(m).wf(),
    ensures
        final(m).wf(),
        old(m).extended_by(final(m)),
        final(m).names@ == old(m).names@,
        r is Some <==> old(m).has(t),
        r matches Some(x) ==> final(m).has(x) && unwraps(final(m), *spine, t, x),
    decreases t,
{
    if t >= m.terms.len() {
        return None;
    }
    assert(m.terms@[t as int].fits(t as int));
    let op = match new_op(m, spine, t) {
        Some(op) => op,
        None => {
            return Some(t);
        },
    };
    let args = copy_args(m, t);
    let sort: usize = m.terms[t].sort;
    let mut fresh: Vec<TermId> = Vec::new();
    let mut i: usize = 0;
    while i < args.len()
        invariant
            i <= args.len(),
            old(m).wf(),
            m.wf(),
            old(m).extended_by(m),
            m.names@ == old(m).names@,
            old(m).has(t),
            args@ == old(m).args(t),
            forall|k: int| 0 <= k < args@.len() ==> #[trigger] args@[k] < t,
            fresh@.len() == i,
            forall|k: int| 0 <= k < i ==> m.has(#[trigger] fresh@[k]) && unwraps(m, *spine, args@[k], fresh@[k]),
        decreases args.len() - i,
    {
        let ghost before = *m;
        assert(old(m).has(args@[i as int]));
        match rewrite_spine(m, args[i], spine) {
            Some(x) => {
                fresh.push(x);
                proof {
                    assert forall|k: int| 0 <= k < i + 1 implies m.has(#[trigger] fresh@[k]) && unwraps(
                        m,
                        *spine,
                        args@[k],
                        fresh@[k],
                    ) by {
                        if k < i {
                            lemma_unwraps_extends(&before, m, *spine, args@[k], fresh@[k]);
                        }
                    }
                }
            },
            None => {
                return None;
            },
        }
        i = i + 1;
    }
    let ghost before = *m;
    let ghost children = fresh@;
    proof {
        lemma_same_term(old(m), m, t);
        lemma_unwrapped_op(old(m), m, *spine, t);
    }
    let r: usize = m.mk_app(op, fresh, sort);
    proof {
        lemma_same_term(old(m), m, t);
        lemma_unwrapped_op(old(m), m, *spine, t);
        assert forall|k: int| 0 <= k < m.args(t).len() implies #[trigger] m.args(t)[k] < t && unwraps(
            m,
            *spine,
            m.args(t)[k],
            m.args(r)[k],
        ) by {
            assert(args@[k] < t);
            assert(m.args(r)[k] == children[k]);
            lemma_unwraps_extends(&before, m, *spine, args@[k], children[k]);
        }
    }
    Some(r)
}

/// The number that an operator gives for two numbers.
pub open spec fn native_value(n: NativeArith, a: real, b: real) -> real {
    match n {
        NativeArith::Add => a + b,
        NativeArith::Sub => a - b,
        NativeArith::Mul => a * b,
    }
}

/// Every wrapper that may be unwrapped has the value of its operator.
pub open spec fn faithful(m: &TermManager, spine: SpineRewrite, v: Valuation) -> bool {
    forall|t: TermId|
        m.has(t) && m.args(t).len() == 2 ==> (#[trigger] m.op(t) matches Op::Apply(f) ==> f < m.names@.len() ==> spine.enables(
            m.names@[f as int]@,
        ) ==> (native_of(m.names@[f as int]@) matches Some(n) ==> v(t) == native_value(
            n,
            number(m, v, m.arg(t, 0)),
            number(m, v, m.arg(t, 1)),
        )))
}

/// A function of two arguments gives equal values for equal arguments.
pub open spec fn congruent(m: &TermManager, v: Valuation) -> bool {
    forall|s: TermId, t: TermId|
        m.has(s) && m.has(t) && #[trigger] m.op(s) == #[trigger] m.op(t) && m.op(s) is Apply && m.args(s).len() == 2 && m.args(
            t,
        ).len() == 2 && number(m, v, m.arg(s, 0)) == number(m, v, m.arg(t, 0)) && number(m, v, m.arg(s, 1)) == number(
            m,
            v,
            m.arg(t, 1),
        ) ==> v(s) == v(t)
}

/// Sums and products over arguments of equal values are equal.
proof fn lemma_same_values(m: &TermManager, v: Valuation, s: TermId, t: TermId, k: int)
    requires
        0 <= k,
        forall|i: int| 0 <= i < k ==> (#[trigger] m.arg(s, i)) < s && m.arg(t, i) < t && number(m, v, m.arg(s, i)) == number(m, v, m.arg(t, i)),
    ensures
        sum_value(m, v, s, k) == sum_value(m, v, t, k),
        product_value(m, v, s, k) == product_value(m, v, t, k),
    decreases k,
{
    if k > 0 {
        lemma_same_values(m, v, s, t, k - 1);
        assert(number(m, v, m.arg(s, k - 1)) == number(m, v, m.arg(t, k - 1)));
    }
}

/// Unwrapping keeps the value of a term wherever wrappers have the values of their operators.
pub proof fn law_unwrapping_keeps_value(m: &TermManager, spine: SpineRewrite, v: Valuation, t: TermId, r: TermId)
    requires
        m.wf(),
        faithful(m, spine, v),
        congruent(m, v),
        unwraps(m, spine, t, r),
    ensures
        number(m, v, r) == number(m, v, t),
    decreases t,
{
    if let Some(op) = unwrapped_op(m, spine, t) {
        assert(m.terms@[t as int].fits(t as int));
        assert(m.terms@[r as int].fits(r as int));
        assert forall|i: int| 0 <= i < m.args(t).len() implies (#[trigger] m.arg(t, i)) < t && m.arg(r, i) < r && number(
            m,
            v,
            m.arg(t, i),
        ) == number(m, v, m.arg(r, i)) by {
            assert(m.args(t)[i] < t);
            assert(m.args(r)[i] < r);
            law_unwrapping_keeps_value(m, spine, v, m.args(t)[i], m.args(r)[i]);
        }
        lemma_same_values(m, v, t, r, m.args(t).len() as int);
        if m.op(t) is Apply {
            assert(m.arg(t, 0) < t && m.arg(r, 0) < r);
            assert(m.arg(t, 1) < t && m.arg(r, 1) < r);
            let a: real = number(m, v, m.arg(r, 0));
            let b: real = number(m, v, m.arg(r, 1));
            assert(number(m, v, m.arg(t, 0)) == a);
            assert(number(m, v, m.arg(t, 1)) == b);
            if op is Apply {
                assert(m.op(r) == m.op(t));
            } else {
                assert(sum_value(m, v, r, 0) == 0real);
                assert(sum_value(m, v, r, 1) == sum_value(m, v, r, 0) + a);
                assert(sum_value(m, v, r, 2) == sum_value(m, v, r, 1) + b);
                assert(product_value(m, v, r, 0) == 1real);
                assert(product_value(m, v, r, 1) == product_value(m, v, r, 0) * a);
                assert(product_value(m, v, r, 2) == product_value(m, v, r, 1) * b);
                assert((1real * a) * b == a * b) by (nonlinear_arith);
                assert(m.op(t) is Apply);
            }
        }
    }
}

/// How deep the search for wrapped products goes.
pub const SCAN_DEPTH: u32 = 64;

/// The opposite order relation.
pub open spec fn opposite(rel: Rel) -> Rel {
    match rel {
        Rel::Ge => Rel::Lt,
        Rel::Gt => Rel::Le,
        Rel::Le => Rel::Gt,
        Rel::Lt => Rel::Ge,
    }
}

/// The term is an equality or a comparison.
pub open spec fn is_comparison(m: &TermManager, t: TermId) -> bool {
    m.has(t) && (m.op(t) == Op::Eq || m.op(t) is Compare)
}

/// The comparison holds a wrapped product that may be unwrapped, and is no negated equality.
pub open spec fn qualifies(m: &TermManager, spine: SpineRewrite, t: TermId, polarity: bool) -> bool {
    &&& is_comparison(m, t)
    &&& (spine.mul && applies(m, t, "Mul"@, SCAN_DEPTH as nat)) || (spine.rmul && applies(m, t, "RMul"@, SCAN_DEPTH as nat))
    &&& polarity || m.op(t) != Op::Eq
}

/// The operator of a comparison, or that of its negation.
pub open spec fn polarized(op: Op, polarity: bool) -> Op {
    match op {
        Op::Compare(rel) => if polarity {
            op
        } else {
            Op::Compare(opposite(rel))
        },
        _ => op,
    }
}

/// `r` is the comparison `t`, or its negation, between the unwrapped sides.
pub open spec fn focused(m: &TermManager, spine: SpineRewrite, t: TermId, polarity: bool, r: TermId) -> bool {
    &&& is_comparison(m, t)
    &&& is_node(m, r, polarized(m.op(t), polarity), m.args(r), BOOL_SORT)
    &&& m.args(r).len() == 2
    &&& unwraps(m, spine, m.arg(t, 0), m.arg(r, 0))
    &&& unwraps(m, spine, m.arg(t, 1), m.arg(r, 1))
}

/// A function is applied in a later store where it was in an earlier one.
proof fn lemma_applies_extends(m: &TermManager, later: &TermManager, t: TermId, name: Seq<char>, depth: nat)
    requires
        m.wf(),
        m.extended_by(later),
        m.names@ == later.names@,
        m.has(t),
    ensures
        applies(later, t, name, depth) == applies(m, t, name, depth),
    decreases depth,
{
    lemma_same_term(m, later, t);
    assert(m.terms@[t as int].fits(t as int));
    if depth > 0 {
        let below = (depth - 1) as nat;
        assert forall|i: int| 0 <= i < m.args(t).len() implies applies(later, #[trigger] m.args(t)[i], name, below) == applies(
            m,
            m.args(t)[i],
            name,
            below,
        ) by {
            assert(m.args(t)[i] < t);
            lemma_applies_extends(m, later, m.args(t)[i], name, below);
        }
        if applies(m, t, name, depth) && !is_wrapper(m, t, name) {
            let i = choose|i: int| 0 <= i < m.args(t).len() && applies(m, #[trigger] m.args(t)[i], name, below);
            assert(applies(later, later.args(t)[i], name, below));
        }
        if applies(later, t, name, depth) && !is_wrapper(m, t, name) {
            let i = choose|i: int| 0 <= i < later.args(t).len() && applies(later, #[trigger] later.args(t)[i], name, below);
            assert(applies(m, m.args(t)[i], name, below));
        }
    }
}

/// A comparison between unwrapped sides stays one when the store grows.
proof fn lemma_focused_extends(m: &TermManager, later: &TermManager, spine: SpineRewrite, t: TermId, polarity: bool, r: TermId)
    requires
        m.wf(),
        m.extended_by(later),
        m.names@ == later.names@,
        focused(m, spine, t, polarity, r),
    ensures
        focused(later, spine, t, polarity, r),
{
    lemma_same_term(m, later, t);
    lemma_same_term(m, later, r);
    lemma_unwraps_extends(m, later, spine, m.arg(t, 0), m.arg(r, 0));
    lemma_unwraps_extends(m, later, spine, m.arg(t, 1), m.arg(r, 1));
}

/// The comparison, or its negation, between the unwrapped sides; nothing where it holds no wrapped
/// product that may be unwrapped, or where it is a negated equality.
pub fn build_polarized_comparison(m: &mut TermManager, t: TermId, polarity: bool, spine: &SpineRewrite) -> (r: Option<TermId>)
    requires
        old(m).wf(),
    ensures
        final(m).wf(),
        old(m).extended_by(final(m)),
        final(m).names@ == old(m).names@,
        r is Some <==> qualifies(old(m), *spine, t, polarity),
        r matches Some(x) ==> focused(final(m), *spine, t, polarity, x),
{
    if t >= m.terms.len() {
        return None;
    }
    assert(m.terms@[t as int].fits(t as int));
    let op = match m.terms[t].op {
        Op::Eq => {
            if !polarity {
                return None;
            }
            Op::Eq
        },
        Op::Compare(rel) => Op::Compare(
            match (rel, polarity) {
                (Rel::Ge, true) | (Rel::Lt, false) => Rel::Ge,
                (Rel::Gt, true) | (Rel::Le, false) => Rel::Gt,
                (Rel::Le, true) | (Rel::Gt, false) => Rel::Le,
                (Rel::Lt, true) | (Rel::Ge, false) => Rel::Lt,
            },
        ),
        _ => {
            return None;
        },
    };
    let lhs: usize = m.terms[t].args[0];
    let rhs: usize = m.terms[t].args[1];
    let mut has_mul = false;
    let mut has_rmul = false;
    scan_mul_rmul_apps(m, t, &mut has_mul, &mut has_rmul, SCAN_DEPTH);
    if !(has_mul && spine.mul) && !(has_rmul && spine.rmul) {
        return None;
    }
    let l: usize = match rewrite_spine(m, lhs, spine) {
        Some(l) => l,
        None => {
            return None;
        },
    };
    let ghost mid = *m;
    let r: usize = match rewrite_spine(m, rhs, spine) {
        Some(r) => r,
        None => {
            return None;
        },
    };
    let ghost before = *m;
    proof {
        lemma_unwraps_extends(&mid, m, *spine, lhs, l);
    }
    let mut args: Vec<TermId> = Vec::new();
    args.push(l);
    args.push(r);
    let ghost children = args@;
    let x: usize = m.mk_app(op, args, BOOL_SORT);
    proof {
        lemma_same_term(old(m), m, t);
        lemma_unwraps_extends(&before, m, *spine, lhs, l);
        lemma_unwraps_extends(&before, m, *spine, rhs, r);
        assert(m.args(x) == children);
        assert(m.arg(x, 0) == l && m.arg(x, 1) == r);
        assert(m.arg(t, 0) == lhs && m.arg(t, 1) == rhs);
    }
    Some(x)
}

/// The comparisons that follow from the formula, or from its negation, each with its polarity:
/// those that qualify behind negations, conjunctions, negated disjunctions and negated
/// implications.
pub open spec fn targets(m: &TermManager, spine: SpineRewrite, t: TermId, polarity: bool) -> Seq<(TermId, bool)>
    decreases t, m.args(t).len() + 1,
{
    if !m.has(t) {
        Seq::empty()
    } else {
        match m.op(t) {
            Op::Not => if m.arg(t, 0) < t {
                targets(m, spine, m.arg(t, 0), !polarity)
            } else {
                Seq::empty()
            },
            Op::And => if polarity {
                targets_below(m, spine, t, true, m.args(t).len() as int)
            } else {
                Seq::empty()
            },
            Op::Or => if polarity {
                Seq::empty()
            } else {
                targets_below(m, spine, t, false, m.args(t).len() as int)
            },
            Op::Implies => if !polarity && m.arg(t, 0) < t && m.arg(t, 1) < t {
                targets(m, spine, m.arg(t, 0), true) + targets(m, spine, m.arg(t, 1), false)
            } else {
                Seq::empty()
            },
            _ => if qualifies(m, spine, t, polarity) {
                seq![(t, polarity)]
            } else {
                Seq::empty()
            },
        }
    }
}

/// The comparisons that follow from the first `k` arguments, or from their negations.
pub open spec fn targets_below(m: &TermManager, spine: SpineRewrite, t: TermId, polarity: bool, k: int) -> Seq<(TermId, bool)>
    decreases t, k,
{
    if k <= 0 || m.arg(t, k - 1) >= t {
        Seq::empty()
    } else {
        targets_below(m, spine, t, polarity, k - 1) + targets(m, spine, m.arg(t, k - 1), polarity)
    }
}

/// What follows from a formula does not change when its store grows.
proof fn lemma_targets_extends(m: &TermManager, later: &TermManager, spine: SpineRewrite, t: TermId, polarity: bool)
    requires
        m.wf(),
        later.wf(),
        m.extended_by(later),
        m.names@ == later.names@,
        m.has(t),
    ensures
        targets(later, spine, t, polarity) == targets(m, spine, t, polarity),
    decreases t, m.args(t).len() + 1,
{
    lemma_same_term(m, later, t);
    assert(m.terms@[t as int].fits(t as int));
    match m.op(t) {
        Op::Not => {
            lemma_targets_extends(m, later, spine, m.arg(t, 0), !polarity);
        },
        Op::And => {
            lemma_targets_below_extends(m, later, spine, t, true, m.args(t).len() as int);
        },
        Op::Or => {
            lemma_targets_below_extends(m, later, spine, t, false, m.args(t).len() as int);
        },
        Op::Implies => {
            lemma_targets_extends(m, later, spine, m.arg(t, 0), true);
            lemma_targets_extends(m, later, spine, m.arg(t, 1), false);
        },
        _ => {
            lemma_applies_extends(m, later, t, "Mul"@, SCAN_DEPTH as nat);
            lemma_applies_extends(m, later, t, "RMul"@, SCAN_DEPTH as nat);
        },
    }
}

/// What follows from the first arguments does not change when their store grows.
proof fn lemma_targets_below_extends(m: &TermManager, later: &TermManager, spine: SpineRewrite, t: TermId, polarity: bool, k: int)
    requires
        m.wf(),
        later.wf(),
        m.extended_by(later),
        m.names@ == later.names@,
        m.has(t),
        0 <= k <= m.args(t).len(),
    ensures
        targets_below(later, spine, t, polarity, k) == targets_below(m, spine, t, polarity, k),
    decreases t, k,
{
    lemma_same_term(m, later, t);
    if k > 0 {
        assert(m.terms@[t as int].fits(t as int));
        assert(m.args(t)[k - 1] < t);
        lemma_targets_below_extends(m, later, spine, t, polarity, k - 1);
        lemma_targets_extends(m, later, spine, m.arg(t, k - 1), polarity);
    }
}

/// The list from position `from` on holds the comparisons between unwrapped sides of the targets,
/// in their order.
pub open spec fn in_focus(m: &TermManager, spine: SpineRewrite, goals: Seq<(TermId, bool)>, out: Seq<TermId>, from: int) -> bool {
    &&& out.len() == from + goals.len()
    &&& forall|i: int| 0 <= i < goals.len() ==> focused(m, spine, (#[trigger] goals[i]).0, goals[i].1, out[from + i])
}

/// Two lists of targets one after the other.
proof fn lemma_in_focus_join(
    m: &TermManager,
    later: &TermManager,
    spine: SpineRewrite,
    a: Seq<(TermId, bool)>,
    b: Seq<(TermId, bool)>,
    first: Seq<TermId>,
    out: Seq<TermId>,
    from: int,
)
    requires
        m.wf(),
        m.extended_by(later),
        m.names@ == later.names@,
        0 <= from,
        in_focus(m, spine, a, first, from),
        in_focus(later, spine, b, out, first.len() as int),
        out.take(first.len() as int) == first,
    ensures
        in_focus(later, spine, a + b, out, from),
{
    let goals = a + b;
    assert forall|i: int| 0 <= i < goals.len() implies focused(later, spine, (#[trigger] goals[i]).0, goals[i].1, out[from + i]) by {
        if i < a.len() {
            assert(goals[i] == a[i]);
            assert(out.take(first.len() as int)[from + i] == first[from + i]);
            lemma_focused_extends(m, later, spine, a[i].0, a[i].1, first[from + i]);
        } else {
            assert(goals[i] == b[i - a.len()]);
        }
    }
}

/// Appends the comparisons between unwrapped sides that follow from the formula, or from its
/// negation.
pub fn collect_focused_nl_atoms(m: &mut TermManager, t: TermId, polarity: bool, spine: &SpineRewrite, out: &mut Vec<TermId>)
    requires
        old(m).wf(),
    ensures
        final(m).wf(),
        old(m).extended_by(final(m)),
        final(m).names@ == old(m).names@,
        final(out)@.len() >= old(out)@.len(),
        final(out)@.take(old(out)@.len() as int) == old(out)@,
        in_focus(final(m), *spine, targets(old(m), *spine, t, polarity), final(out)@, old(out)@.len() as int),
    decreases t,
{
    let ghost from = out@.len() as int;
    assert(out@.take(from) =~= out@);
    if t >= m.terms.len() {
        return ;
    }
    assert(m.terms@[t as int].fits(t as int));
    match m.terms[t].op {
        Op::Not => {
            let a: usize = m.terms[t].args[0];
            collect_focused_nl_atoms(m, a, !polarity, spine, out);
        },
        Op::And | Op::Or => {
            let positive = match m.terms[t].op {
                Op::And => true,
                _ => false,
            };
            if polarity != positive {
                return ;
            }
            let args = copy_args(m, t);
            let mut i: usize = 0;
            while i < args.len()
                invariant
                    i <= args.len(),
                    old(m).wf(),
                    m.wf(),
                    old(m).extended_by(m),
                    m.names@ == old(m).names@,
                    old(m).has(t),
                    args@ == old(m).args(t),
                    forall|k: int| 0 <= k < args@.len() ==> #[trigger] args@[k] < t,
                    from == old(out)@.len(),
                    out@.len() >= from,
                    out@.take(from) == old(out)@,
                    in_focus(m, *spine, targets_below(old(m), *spine, t, polarity, i as int), out@, from),
                decreases args.len() - i,
            {
                let ghost before = *m;
                let ghost first = out@;
                let ghost goals = targets_below(old(m), *spine, t, polarity, i as int);
                assert(args@[i as int] < t);
                collect_focused_nl_atoms(m, args[i], polarity, spine, out);
                proof {
                    lemma_targets_extends(old(m), &before, *spine, args@[i as int], polarity);
                    lemma_in_focus_join(
                        &before,
                        m,
                        *spine,
                        goals,
                        targets(old(m), *spine, args@[i as int], polarity),
                        first,
                        out@,
                        from,
                    );
                    assert(out@.take(from) =~= first.take(from));
                }
                i = i + 1;
            }
        },
        Op::Implies => {
            if polarity {
                return ;
            }
            let a: usize = m.terms[t].args[0];
            let b: usize = m.terms[t].args[1];
            collect_focused_nl_atoms(m, a, true, spine, out);
            let ghost before = *m;
            let ghost first = out@;
            collect_focused_nl_atoms(m, b, false, spine, out);
            proof {
                lemma_targets_extends(old(m), &before, *spine, b, false);
                lemma_in_focus_join(
                    &before,
                    m,
                    *spine,
                    targets(old(m), *spine, a, true),
                    targets(old(m), *spine, b, false),
                    first,
                    out@,
                    from,
                );
                assert(out@.take(from) =~= first.take(from));
            }
        },
        _ => {
            if let Some(r) = build_polarized_comparison(m, t, polarity, spine) {
                out.push(r);
                proof {
                    assert(out@.take(from) =~= old(out)@);
                }
            }
        },
    }
}

/// The truth of a formula for given values of its terms: comparisons go by the numbers, what is
/// neither a comparison nor built from formulas as `open` has it.
pub open spec fn sense(m: &TermManager, v: Valuation, open: spec_fn(TermId) -> bool, t: TermId) -> bool
    decreases t,
{
    if !m.has(t) {
        open(t)
    } else {
        let args = m.args(t);
        match m.op(t) {
            Op::Not => args[0] < t && !sense(m, v, open, args[0]),
            Op::And => forall|i: int| 0 <= i < args.len() ==> #[trigger] args[i] < t && sense(m, v, open, args[i]),
            Op::Or => exists|i: int| 0 <= i < args.len() && #[trigger] args[i] < t && sense(m, v, open, args[i]),
            Op::Implies => args[0] < t && args[1] < t && (sense(m, v, open, args[0]) ==> sense(m, v, open, args[1])),
            Op::Eq => number(m, v, args[0]) == number(m, v, args[1]),
            Op::Compare(Rel::Lt) => number(m, v, args[0]) < number(m, v, args[1]),
            Op::Compare(Rel::Le) => number(m, v, args[0]) <= number(m, v, args[1]),
            Op::Compare(Rel::Gt) => number(m, v, args[0]) > number(m, v, args[1]),
            Op::Compare(Rel::Ge) => number(m, v, args[0]) >= number(m, v, args[1]),
            _ => open(t),
        }
    }
}

/// Every target has its polarity as its truth value.
pub open spec fn targets_true(m: &TermManager, v: Valuation, open: spec_fn(TermId) -> bool, goals: Seq<(TermId, bool)>) -> bool {
    forall|i: int| 0 <= i < goals.len() ==> is_comparison(m, (#[trigger] goals[i]).0) && sense(m, v, open, goals[i].0)
        == goals[i].1 && (goals[i].1 || m.op(goals[i].0) != Op::Eq)
}

/// What is picked out of a formula follows from it.
proof fn lemma_targets_true(
    m: &TermManager,
    spine: SpineRewrite,
    v: Valuation,
    open: spec_fn(TermId) -> bool,
    t: TermId,
    polarity: bool,
)
    requires
        m.wf(),
        sense(m, v, open, t) == polarity,
    ensures
        targets_true(m, v, open, targets(m, spine, t, polarity)),
    decreases t, m.args(t).len() + 1,
{
    if m.has(t) {
        assert(m.terms@[t as int].fits(t as int));
        match m.op(t) {
            Op::Not => {
                lemma_targets_true(m, spine, v, open, m.arg(t, 0), !polarity);
            },
            Op::And => {
                if polarity {
                    lemma_targets_below_true(m, spine, v, open, t, true, m.args(t).len() as int);
                }
            },
            Op::Or => {
                if !polarity {
                    assert forall|i: int| 0 <= i < m.args(t).len() implies #[trigger] m.args(t)[i] < t && sense(
                        m,
                        v,
                        open,
                        m.args(t)[i],
                    ) == false by {
                        assert(m.args(t)[i] < t);
                    }
                    lemma_targets_below_true(m, spine, v, open, t, false, m.args(t).len() as int);
                }
            },
            Op::Implies => {
                if !polarity {
                    lemma_targets_true(m, spine, v, open, m.arg(t, 0), true);
                    lemma_targets_true(m, spine, v, open, m.arg(t, 1), false);
                }
            },
            _ => {},
        }
    }
}

/// What is picked out of the first arguments follows from them.
proof fn lemma_targets_below_true(
    m: &TermManager,
    spine: SpineRewrite,
    v: Valuation,
    open: spec_fn(TermId) -> bool,
    t: TermId,
    polarity: bool,
    k: int,
)
    requires
        m.wf(),
        m.has(t),
        0 <= k <= m.args(t).len(),
        forall|i: int| 0 <= i < m.args(t).len() ==> #[trigger] m.args(t)[i] < t && sense(m, v, open, m.args(t)[i]) == polarity,
    ensures
        targets_true(m, v, open, targets_below(m, spine, t, polarity, k)),
    decreases t, k,
{
    if k > 0 {
        assert(m.args(t)[k - 1] < t);
        lemma_targets_below_true(m, spine, v, open, t, polarity, k - 1);
        lemma_targets_true(m, spine, v, open, m.args(t)[k - 1], polarity);
    }
}

/// The comparisons that follow from the first `k` formulas.
pub open spec fn all_targets(m: &TermManager, spine: SpineRewrite, assertions: Seq<TermId>, k: int) -> Seq<(TermId, bool)>
    decreases k,
{
    if k <= 0 {
        Seq::empty()
    } else {
        all_targets(m, spine, assertions, k - 1) + targets(m, spine, assertions[k - 1], true)
    }
}

/// What follows from formulas does not change when their store grows.
proof fn lemma_all_targets_extends(m: &TermManager, later: &TermManager, spine: SpineRewrite, assertions: Seq<TermId>, k: int)
    requires
        m.wf(),
        later.wf(),
        m.extended_by(later),
        m.names@ == later.names@,
        0 <= k <= assertions.len(),
        forall|i: int| 0 <= i < assertions.len() ==> m.has(#[trigger] assertions[i]),
    ensures
        all_targets(later, spine, assertions, k) == all_targets(m, spine, assertions, k),
    decreases k,
{
    if k > 0 {
        lemma_all_targets_extends(m, later, spine, assertions, k - 1);
        lemma_targets_extends(m, later, spine, assertions[k - 1], true);
    }
}

/// What is picked out of formulas follows from them.
proof fn lemma_all_targets_true(
    m: &TermManager,
    spine: SpineRewrite,
    v: Valuation,
    open: spec_fn(TermId) -> bool,
    assertions: Seq<TermId>,
    k: int,
)
    requires
        m.wf(),
        0 <= k <= assertions.len(),
        forall|i: int| 0 <= i < assertions.len() ==> sense(m, v, open, #[trigger] assertions[i]),
    ensures
        targets_true(m, v, open, all_targets(m, spine, assertions, k)),
    decreases k,
{
    if k > 0 {
        lemma_all_targets_true(m, spine, v, open, assertions, k - 1);
        lemma_targets_true(m, spine, v, open, assertions[k - 1], true);
    }
}

/// The comparisons between unwrapped sides that are picked out of the assertions follow from them
/// wherever wrappers have the values of their operators.
pub(crate) proof fn lemma_focused_atoms_follow(
    before: &TermManager,
    m: &TermManager,
    spine: SpineRewrite,
    v: Valuation,
    open: spec_fn(TermId) -> bool,
    assertions: Seq<TermId>,
    atoms: Seq<TermId>,
)
    requires
        before.wf(),
        m.wf(),
        before.extended_by(m),
        before.names@ == m.names@,
        forall|i: int| 0 <= i < assertions.len() ==> before.has(#[trigger] assertions[i]),
        faithful(m, spine, v),
        congruent(m, v),
        forall|i: int| 0 <= i < assertions.len() ==> sense(m, v, open, #[trigger] assertions[i]),
        in_focus(m, spine, all_targets(before, spine, assertions, assertions.len() as int), atoms, 0),
    ensures
        forall|i: int| 0 <= i < atoms.len() ==> sense(m, v, open, #[trigger] atoms[i]),
{
    let goals = all_targets(m, spine, assertions, assertions.len() as int);
    lemma_all_targets_extends(before, m, spine, assertions, assertions.len() as int);
    lemma_all_targets_true(m, spine, v, open, assertions, assertions.len() as int);
    assert forall|i: int| 0 <= i < atoms.len() implies sense(m, v, open, #[trigger] atoms[i]) by {
        let (s, p) = goals[i];
        let r = atoms[i];
        assert(focused(m, spine, goals[i].0, goals[i].1, atoms[0 + i]));
        law_unwrapping_keeps_value(m, spine, v, m.arg(s, 0), m.arg(r, 0));
        law_unwrapping_keeps_value(m, spine, v, m.arg(s, 1), m.arg(r, 1));
        assert(sense(m, v, open, s) == p);
    }
}

/// The solvers for polynomial constraints.
#[derive(Clone, Copy, Debug, PartialEq, Eq, Structural)]
pub enum NlEngine {
    Integer,
    Real,
}

/// What a solver for polynomial constraints found.
#[derive(Clone, Copy, Debug, PartialEq, Eq, Structural)]
pub enum NlDispatchResult {
    Sat,
    Unsat,
}

/// What to ask a solver for polynomial constraints.
#[derive(Debug)]
pub enum NlPlan {
    /// Nothing.
    Skip,
    /// Whether the atoms are satisfiable. Atoms that only follow from the assertions are focused.
    Ask { engine: NlEngine, atoms: Vec<TermId>, focused: bool },
}

/// One of the terms, or a term within the search depth under it, is of real sort.
pub open spec fn any_real(m: &TermManager, assertions: Seq<TermId>) -> bool {
    exists|i: int| 0 <= i < assertions.len() && mentions_real(m, #[trigger] assertions[i], SCAN_DEPTH as nat)
}

/// The solver that a logic asks for: a mixed logic that never says that it is real goes to the
/// integers, unless a real number occurs.
pub open spec fn route(m: &TermManager, assertions: Seq<TermId>, logic: Seq<char>) -> Option<NlEngine> {
    let mixed = holds_text(logic, "NIRA"@);
    let integer = (holds_text(logic, "NIA"@) || (mixed && !holds_text(logic, "NRA"@))) && !(mixed && any_real(m, assertions));
    if integer {
        Some(NlEngine::Integer)
    } else if holds_text(logic, "NRA"@) {
        Some(NlEngine::Real)
    } else {
        None
    }
}

/// One of the terms applies the named wrapper outside binders.
pub open spec fn any_applies(m: &TermManager, assertions: Seq<TermId>, name: Seq<char>) -> bool {
    exists|i: int| 0 <= i < assertions.len() && applies(m, #[trigger] assertions[i], name, SCAN_DEPTH as nat)
}

/// The wrappers whose bridge is asserted; wrapped products only where one occurs.
pub open spec fn spine_of(m: &TermManager, assertions: Seq<TermId>) -> SpineRewrite {
    SpineRewrite {
        mul: any_applies(m, assertions, "Mul"@) && bridged(m, assertions, "Mul"@),
        rmul: any_applies(m, assertions, "RMul"@) && bridged(m, assertions, "RMul"@),
        add: bridged(m, assertions, "Add"@),
        sub: bridged(m, assertions, "Sub"@),
        radd: bridged(m, assertions, "RAdd"@),
        rsub: bridged(m, assertions, "RSub"@),
    }
}

/// The plan asks the solver for the wrapped products about all that can be picked out of the
/// assertions, or nothing where no wrapped product can be unwrapped or nothing is picked out.
pub open spec fn bridge_plan(before: &TermManager, after: &TermManager, assertions: Seq<TermId>, plan: NlPlan) -> bool {
    let spine = spine_of(before, assertions);
    let goals = all_targets(before, spine, assertions, assertions.len() as int);
    if (!spine.mul && !spine.rmul) || goals.len() == 0 {
        plan is Skip
    } else {
        &&& plan matches NlPlan::Ask { engine, atoms, focused } && focused && in_focus(after, spine, goals, atoms@, 0) && engine
            == if spine.rmul {
            NlEngine::Real
        } else {
            NlEngine::Integer
        }
    }
}

/// Whether one of the terms applies the wrapper of products outside binders.
fn scan_all(m: &TermManager, assertions: &Vec<TermId>) -> (r: (bool, bool))
    ensures
        r.0 == any_applies(m, assertions@, "Mul"@),
        r.1 == any_applies(m, assertions@, "RMul"@),
{
    let mut has_mul = false;
    let mut has_rmul = false;
    let mut i: usize = 0;
    while i < assertions.len()
        invariant
            i <= assertions.len(),
            has_mul == (exists|k: int| 0 <= k < i && applies(m, #[trigger] assertions@[k], "Mul"@, SCAN_DEPTH as nat)),
            has_rmul == (exists|k: int| 0 <= k < i && applies(m, #[trigger] assertions@[k], "RMul"@, SCAN_DEPTH as nat)),
        decreases assertions.len() - i,
    {
        let ghost mul0 = has_mul;
        let ghost rmul0 = has_rmul;
        scan_mul_rmul_apps(m, assertions[i], &mut has_mul, &mut has_rmul, SCAN_DEPTH);
        proof {
            if mul0 {
                let k = choose|k: int| 0 <= k < i && applies(m, #[trigger] assertions@[k], "Mul"@, SCAN_DEPTH as nat);
                assert(applies(m, assertions@[k], "Mul"@, SCAN_DEPTH as nat));
            }
            if rmul0 {
                let k = choose|k: int| 0 <= k < i && applies(m, #[trigger] assertions@[k], "RMul"@, SCAN_DEPTH as nat);
                assert(applies(m, assertions@[k], "RMul"@, SCAN_DEPTH as nat));
            }
            assert(applies(m, assertions@[i as int], "Mul"@, SCAN_DEPTH as nat) ==> has_mul);
            assert(applies(m, assertions@[i as int], "RMul"@, SCAN_DEPTH as nat) ==> has_rmul);
        }
        i = i + 1;
    }
    (has_mul, has_rmul)
}

/// What to ask about wrapped products where no logic is set. Only what follows from the
/// assertions is asked, so only a refutation will count.
#[verifier::spinoff_prover]
#[verifier::rlimit(60)]
pub fn dispatch_nl_via_mul_bridge(m: &mut TermManager, assertions: &Vec<TermId>) -> (plan: NlPlan)
    requires
        old(m).wf(),
        forall|i: int| 0 <= i < assertions@.len() ==> old(m).has(#[trigger] assertions@[i]),
    ensures
        final(m).wf(),
        old(m).extended_by(final(m)),
        final(m).names@ == old(m).names@,
        bridge_plan(old(m), final(m), assertions@, plan),
{
    let (has_mul, has_rmul) = scan_all(m, assertions);
    if !has_mul && !has_rmul {
        return NlPlan::Skip;
    }
    let spine = SpineRewrite {
        mul: has_mul && has_bridge(m, assertions, "Mul"),
        rmul: has_rmul && has_bridge(m, assertions, "RMul"),
        add: has_bridge(m, assertions, "Add"),
        sub: has_bridge(m, assertions, "Sub"),
        radd: has_bridge(m, assertions, "RAdd"),
        rsub: has_bridge(m, assertions, "RSub"),
    };
    if !spine.mul && !spine.rmul {
        return NlPlan::Skip;
    }
    let mut atoms: Vec<TermId> = Vec::new();
    let mut i: usize = 0;
    while i < assertions.len()
        invariant
            i <= assertions.len(),
            old(m).wf(),
            m.wf(),
            old(m).extended_by(m),
            m.names@ == old(m).names@,
            forall|i: int| 0 <= i < assertions@.len() ==> old(m).has(#[trigger] assertions@[i]),
            in_focus(m, spine, all_targets(old(m), spine, assertions@, i as int), atoms@, 0),
        decreases assertions.len() - i,
    {
        let ghost before = *m;
        let ghost first = atoms@;
        collect_focused_nl_atoms(m, assertions[i], true, &spine, &mut atoms);
        proof {
            let t = assertions@[i as int];
            assert(old(m).has(t));
            lemma_targets_extends(old(m), &before, spine, t, true);
            lemma_in_focus_join(
                &before,
                m,
                spine,
                all_targets(old(m), spine, assertions@, i as int),
                targets(old(m), spine, t, true),
                first,
                atoms@,
                0,
            );
        }
        i = i + 1;
    }
    if atoms.len() == 0 {
        return NlPlan::Skip;
    }
    let engine = if spine.rmul {
        NlEngine::Real
    } else {
        NlEngine::Integer
    };
    NlPlan::Ask { engine, atoms, focused: true }
}

/// What to ask a solver for polynomial constraints: all assertions where the logic calls for one,
/// and where no logic is set, what follows from the assertions about wrapped products.
pub fn dispatch_nl_solver(m: &mut TermManager, assertions: &Vec<TermId>, logic: &Option<String>) -> (plan: NlPlan)
    requires
        old(m).wf(),
        forall|i: int| 0 <= i < assertions@.len() ==> old(m).has(#[trigger] assertions@[i]),
    ensures
        final(m).wf(),
        old(m).extended_by(final(m)),
        final(m).names@ == old(m).names@,
        *logic is None ==> bridge_plan(old(m), final(m), assertions@, plan),
        *logic matches Some(l) ==> *final(m) == *old(m) && match route(old(m), assertions@, l@) {
            Some(e) => plan matches NlPlan::Ask { engine, atoms, focused } && engine == e && atoms@ == assertions@ && !focused,
            None => plan is Skip,
        },
{
    match logic {
        Some(l) => {
            let text = l.as_str();
            let mixed = contains_text(text, "NIRA");
            let wants_real = contains_text(text, "NRA");
            let mut integer = contains_text(text, "NIA") || (mixed && !wants_real);
            if integer && mixed {
                let mut i: usize = 0;
                while i < assertions.len()
                    invariant
                        i <= assertions.len(),
                        integer == !(exists|k: int|
                            0 <= k < i && mentions_real(m, #[trigger] assertions@[k], SCAN_DEPTH as nat)),
                    decreases assertions.len() - i,
                {
                    let ghost before = integer;
                    if term_mentions_real_sort(m, assertions[i], SCAN_DEPTH) {
                        integer = false;
                    }
                    proof {
                        if !before {
                            let k = choose|k: int|
                                0 <= k < i && mentions_real(m, #[trigger] assertions@[k], SCAN_DEPTH as nat);
                            assert(mentions_real(m, assertions@[k], SCAN_DEPTH as nat));
                        }
                        assert(mentions_real(m, assertions@[i as int], SCAN_DEPTH as nat) ==> !integer);
                    }
                    i = i + 1;
                }
            }
            if integer {
                NlPlan::Ask { engine: NlEngine::Integer, atoms: copy_ids(assertions), focused: false }
            } else if wants_real {
                NlPlan::Ask { engine: NlEngine::Real, atoms: copy_ids(assertions), focused: false }
            } else {
                NlPlan::Skip
            }
        },
        None => dispatch_nl_via_mul_bridge(m, assertions),
    }
}

/// The answer for the assertions, given what the solver found: where only consequences of the
/// assertions were asked about, a refutation is the only answer.
pub fn nl_verdict(focused: bool, found: Option<NlDispatchResult>) -> (r: Option<SolverResult>)
    ensures
        r == match found {
            Some(NlDispatchResult::Unsat) => Some(SolverResult::Unsat),
            Some(NlDispatchResult::Sat) => if focused {
                None
            } else {
                Some(SolverResult::Sat)
            },
            None => None,
        },
{
    match found {
        Some(NlDispatchResult::Unsat) => Some(SolverResult::Unsat),
        Some(NlDispatchResult::Sat) => if focused {
            None
        } else {
            Some(SolverResult::Sat)
        },
        None => None,
    }
}

} // verus!
