//! The order in which bit-vector terms are handed to a solver that works on bits.
use crate::bits::bitvec_const_pow2_shift;
use crate::bits::has_log;
use crate::maps::set_contains;
use crate::maps::set_insert;
use crate::maps::set_new;
use crate::maps::set_remove;
use crate::term::BvOp;
use crate::term::Op;
use crate::term::Sort;
use crate::term::TermId;
use crate::term::TermManager;
use crate::walk::lemma_occurs_below;
use crate::walk::occurs;
use rustc_hash::FxHashSet;
use vstd::prelude::*;

verus! {

/// One instruction to the solver for bit vectors.
#[derive(Clone, Copy, Debug, PartialEq, Eq, Structural)]
pub enum BvCmd {
    /// Give the term bits, if it has none.
    New { term: TermId, width: u32 },
    /// The term is an operation on two terms.
    Binary { term: TermId, op: BvOp, a: TermId, b: TermId },
    /// The term is another one shifted to the left by a constant.
    ShiftLeft { term: TermId, arg: TermId, shift: u32, width: u32 },
    /// The term is the complement of another one.
    Not { term: TermId, arg: TermId },
    /// The term is a part of another one.
    Extract { term: TermId, arg: TermId, high: u32, low: u32 },
    /// The term is one of two terms, as the condition has it.
    Ite { term: TermId, cond: TermId, a: TermId, b: TermId },
    /// The term is a constant.
    Const { term: TermId, value: u64, width: u32 },
    /// Two terms are equal.
    Equal { a: TermId, b: TermId },
    /// Two terms differ.
    Differ { a: TermId, b: TermId },
    /// One term is below another, or equal to it unless the relation is strict.
    Below { a: TermId, b: TermId, signed: bool, strict: bool },
}

/// The instructions so far, and the terms that have bits.
#[derive(Debug)]
pub struct BvPlan {
    pub cmds: Vec<BvCmd>,
    pub known: FxHashSet<usize>,
    /// The terms that have bits, in the order in which they got them.
    pub given: Vec<TermId>,
}

/// The width of a term of bit-vector sort.
pub open spec fn width_of(m: &TermManager, t: TermId) -> Option<u32> {
    if m.has(t) && m.sort_of(t) < m.sorts@.len() {
        match m.sorts@[m.sort_of(t) as int] {
            Sort::BitVec(w) => Some(w),
            _ => None,
        }
    } else {
        None
    }
}

/// The width of a term of bit-vector sort.
pub fn bv_width_of(m: &TermManager, t: TermId) -> (r: Option<u32>)
    ensures
        r == width_of(m, t),
{
    if t < m.terms.len() && m.terms[t].sort < m.sorts.len() {
        match m.sorts[m.terms[t].sort] {
            Sort::BitVec(w) => Some(w),
            _ => None,
        }
    } else {
        None
    }
}

/// The operator is one that the solver knows.
pub open spec fn is_bv_shape(op: Op) -> bool {
    match op {
        Op::Bv(_) | Op::BvNot | Op::BvExtract { .. } | Op::Ite | Op::Var(_) | Op::BitVecConst { .. } => true,
        _ => false,
    }
}

/// The arguments that have to have bits before the term gets its own.
pub open spec fn bv_parts(m: &TermManager, t: TermId) -> Seq<TermId> {
    match m.op(t) {
        Op::Bv(_) | Op::BvNot | Op::BvExtract { .. } => m.args(t),
        Op::Ite => seq![m.args(t)[1], m.args(t)[2]],
        _ => Seq::empty(),
    }
}

/// The widths that the solver has to be told are there.
pub open spec fn widths_ok(m: &TermManager, t: TermId) -> bool {
    match m.op(t) {
        Op::Bv(BvOp::Concat) => width_of(m, m.args(t)[0]) is Some && width_of(m, m.args(t)[1]) is Some,
        Op::BvExtract { .. } => width_of(m, m.args(t)[0]) is Some,
        _ => true,
    }
}

/// The term can be given bits, those in `known` having them.
pub open spec fn encodable(m: &TermManager, known: Set<usize>, t: TermId) -> bool
    decreases t,
{
    known.contains(t) || {
        &&& width_of(m, t) is Some
        &&& is_bv_shape(m.op(t))
        &&& widths_ok(m, t)
        &&& forall|i: int| 0 <= i < bv_parts(m, t).len() ==> #[trigger] bv_parts(m, t)[i] < t && encodable(m, known, bv_parts(m, t)[i])
        &&& m.op(t) == Op::Ite ==> m.args(t)[0] < t && cond_ok(m, known, m.args(t)[0])
    }
}

/// The terms compared in a condition can be given bits.
pub open spec fn cond_ok(m: &TermManager, known: Set<usize>, c: TermId) -> bool
    decreases c,
{
    m.has(c) && match m.op(c) {
        Op::Not | Op::And | Op::Or => forall|i: int|
            0 <= i < m.args(c).len() ==> #[trigger] m.args(c)[i] < c && cond_ok(m, known, m.args(c)[i]),
        Op::Eq | Op::BvCompare(_) => forall|i: int|
            0 <= i < m.args(c).len() ==> #[trigger] m.args(c)[i] < c && (width_of(m, m.args(c)[i]) is Some || encodable(
                m,
                known,
                m.args(c)[i],
            )),
        Op::Var(_) | Op::True | Op::False => true,
        _ => false,
    }
}

/// The more terms have bits, the more can be given some.
proof fn lemma_encodable_grows(m: &TermManager, a: Set<usize>, b: Set<usize>, t: TermId)
    requires
        a.subset_of(b),
        encodable(m, a, t),
    ensures
        encodable(m, b, t),
    decreases t,
{
    if !a.contains(t) {
        assert forall|i: int| 0 <= i < bv_parts(m, t).len() implies #[trigger] bv_parts(m, t)[i] < t && encodable(
            m,
            b,
            bv_parts(m, t)[i],
        ) by {
            lemma_encodable_grows(m, a, b, bv_parts(m, t)[i]);
        }
        if m.op(t) == Op::Ite {
            lemma_cond_grows(m, a, b, m.args(t)[0]);
        }
    }
}

/// The more terms have bits, the more conditions can be handled.
proof fn lemma_cond_grows(m: &TermManager, a: Set<usize>, b: Set<usize>, c: TermId)
    requires
        a.subset_of(b),
        cond_ok(m, a, c),
    ensures
        cond_ok(m, b, c),
    decreases c,
{
    match m.op(c) {
        Op::Not | Op::And | Op::Or => {
            assert forall|i: int| 0 <= i < m.args(c).len() implies #[trigger] m.args(c)[i] < c && cond_ok(m, b, m.args(c)[i]) by {
                lemma_cond_grows(m, a, b, m.args(c)[i]);
            }
        },
        Op::Eq | Op::BvCompare(_) => {
            assert forall|i: int| 0 <= i < m.args(c).len() implies #[trigger] m.args(c)[i] < c && (width_of(m, m.args(c)[i]) is Some
                || encodable(m, b, m.args(c)[i])) by {
                if encodable(m, a, m.args(c)[i]) {
                    lemma_encodable_grows(m, a, b, m.args(c)[i]);
                }
            }
        },
        _ => {},
    }
}

/// The lowest digit of a bit-vector constant.
pub open spec fn low_digit(m: &TermManager, t: TermId) -> u64 {
    let d = m.terms@[t as int].digits@;
    if d.len() > 0 {
        d[0]
    } else {
        0
    }
}

/// The instruction says of its term what the term is.
pub open spec fn defines_term(m: &TermManager, c: BvCmd, t: TermId) -> bool {
    m.has(t) && width_of(m, t) is Some && widths_ok(m, t) && match c {
        BvCmd::New { term, width } => term == t && m.op(t) is Var && width_of(m, t) == Some(width),
        BvCmd::Binary { term, op, a, b } => term == t && m.op(t) == Op::Bv(op) && m.args(t) == seq![a, b],
        BvCmd::ShiftLeft { term, arg, shift, width } => {
            &&& term == t
            &&& m.op(t) == Op::Bv(BvOp::Mul)
            &&& width_of(m, t) == Some(width)
            &&& ((m.args(t)[0] == arg && has_log(m, m.args(t)[1], shift)) || (m.args(t)[1] == arg && has_log(m, m.args(t)[0], shift)))
        },
        BvCmd::Not { term, arg } => term == t && m.op(t) == Op::BvNot && m.args(t) == seq![arg],
        BvCmd::Extract { term, arg, high, low } => term == t && m.op(t) == (Op::BvExtract { high, low }) && m.args(t) == seq![arg],
        BvCmd::Ite { term, cond, a, b } => term == t && m.op(t) == Op::Ite && m.args(t) == seq![cond, a, b],
        BvCmd::Const { term, value, width } => {
            &&& term == t
            &&& m.op(t) is BitVecConst
            &&& value == low_digit(m, t)
            &&& width_of(m, t) == Some(width)
        },
        _ => false,
    }
}

/// An instruction since position `from` says what the term is.
pub open spec fn defined_since(m: &TermManager, cmds: Seq<BvCmd>, from: int, t: TermId) -> bool {
    exists|i: int| from <= i < cmds.len() && defines_term(m, #[trigger] cmds[i], t)
}

/// The width is that of the term, or that of an operation on it.
pub open spec fn fits_width(m: &TermManager, t: TermId, width: u32) -> bool {
    width_of(m, t) == Some(width) || exists|p: TermId| #[trigger]
        width_of(m, p) == Some(width) && keeps_width(m.op(p)) && m.args(p).contains(t)
}

/// The operation works on bit vectors of the width of its result.
pub open spec fn keeps_width(op: Op) -> bool {
    match op {
        Op::Bv(o) => o != BvOp::Concat,
        Op::BvNot => true,
        _ => false,
    }
}

/// The instruction says what its term is, or only gives a term bits.
pub open spec fn is_definition(m: &TermManager, c: BvCmd) -> bool {
    match c {
        BvCmd::New { term, width } => fits_width(m, term, width),
        BvCmd::Binary { term, .. } => defines_term(m, c, term),
        BvCmd::ShiftLeft { term, .. } => defines_term(m, c, term),
        BvCmd::Not { term, .. } => defines_term(m, c, term),
        BvCmd::Extract { term, .. } => defines_term(m, c, term),
        BvCmd::Ite { term, .. } => defines_term(m, c, term),
        BvCmd::Const { term, .. } => defines_term(m, c, term),
        _ => false,
    }
}

/// The term cannot be defined, and an instruction since position `from` gives it bits of its own.
pub open spec fn is_loose(m: &TermManager, known: Set<usize>, cmds: Seq<BvCmd>, from: int, t: TermId) -> bool {
    !encodable(m, known, t) && exists|i: int| from <= i < cmds.len() && gives_bits(#[trigger] cmds[i], t)
}

/// The instruction gives the term bits.
pub open spec fn gives_bits(c: BvCmd, t: TermId) -> bool {
    c matches BvCmd::New { term, .. } && term == t
}

/// The term is compared in a condition.
pub open spec fn compared(m: &TermManager, c: TermId, t: TermId) -> bool
    decreases c,
{
    m.has(c) && match m.op(c) {
        Op::Not | Op::And | Op::Or => exists|i: int| 0 <= i < m.args(c).len() && #[trigger] m.args(c)[i] < c && compared(m, m.args(c)[i], t),
        Op::Eq | Op::BvCompare(_) => m.args(c).contains(t),
        _ => false,
    }
}

/// `t` is met on the way down from `r`: through parts, and through the terms compared in the
/// conditions of conditionals.
pub open spec fn met(m: &TermManager, r: TermId, t: TermId) -> bool
    decreases r,
{
    ||| t == r
    ||| exists|i: int| 0 <= i < bv_parts(m, r).len() && #[trigger] bv_parts(m, r)[i] < r && met(m, bv_parts(m, r)[i], t)
    ||| m.op(r) == Op::Ite && exists|o: TermId| o < r && #[trigger] compared(m, m.args(r)[0], o) && met(m, o, t)
}

/// `t` is compared in the condition of a conditional that is met on the way down from `r`.
pub open spec fn is_operand(m: &TermManager, r: TermId, t: TermId) -> bool {
    exists|i: TermId| #[trigger] met(m, r, i) && m.op(i) == Op::Ite && compared(m, m.args(i)[0], t)
}

/// The terms that are compared in conditions on the way down from `r`.
pub open spec fn operands(m: &TermManager, r: TermId) -> Set<usize> {
    Set::new(|t: usize| is_operand(m, r, t))
}

/// `t` is compared in the condition, or in one on the way down from a term that is.
pub open spec fn in_cond(m: &TermManager, c: TermId, t: TermId) -> bool {
    compared(m, c, t) || exists|o: TermId| #[trigger] compared(m, c, o) && is_operand(m, o, t)
}

/// What has bits had them, was defined since position `from`, or is allowed to have bits of its own.
pub open spec fn only_loose(m: &TermManager, known: Set<usize>, from: int, p: &BvPlan, allowed: spec_fn(TermId) -> bool) -> bool {
    forall|t: usize| #[trigger] p.known@.contains(t) ==> known.contains(t) || defined_since(m, p.cmds@, from, t) || allowed(t)
}

/// Steps one after the other give bits of their own to what one of them may.
proof fn lemma_only_loose(
    m: &TermManager,
    known: Set<usize>,
    from: int,
    mid: &BvPlan,
    fin: &BvPlan,
    a: spec_fn(TermId) -> bool,
    b: spec_fn(TermId) -> bool,
    c: spec_fn(TermId) -> bool,
)
    requires
        0 <= from <= mid.cmds@.len(),
        only_loose(m, known, from, mid, a),
        only_loose(m, mid.known@, mid.cmds@.len() as int, fin, b),
        keeps(mid.cmds@, fin.cmds@),
        forall|t: TermId| #[trigger] a(t) ==> c(t),
        forall|t: TermId| #[trigger] b(t) ==> c(t),
    ensures
        only_loose(m, known, from, fin, c),
{
    let k = mid.cmds@.len() as int;
    assert forall|t: usize| #[trigger] fin.known@.contains(t) implies known.contains(t) || defined_since(m, fin.cmds@, from, t) || c(t) by {
        if mid.known@.contains(t) {
            if defined_since(m, mid.cmds@, from, t) {
                let i = choose|i: int| from <= i < mid.cmds@.len() && defines_term(m, #[trigger] mid.cmds@[i], t);
                assert(fin.cmds@.take(k)[i] == fin.cmds@[i]);
                assert(defines_term(m, fin.cmds@[i], t));
            } else if !known.contains(t) {
                assert(a(t));
            }
        } else if defined_since(m, fin.cmds@, k, t) {
            let i = choose|i: int| k <= i < fin.cmds@.len() && defines_term(m, #[trigger] fin.cmds@[i], t);
            assert(defines_term(m, fin.cmds@[i], t));
        } else {
            assert(b(t));
        }
    }
}

/// What is met on the way down from what is met is met.
proof fn lemma_met_trans(m: &TermManager, r: TermId, s: TermId, t: TermId)
    requires
        met(m, r, s),
        met(m, s, t),
    ensures
        met(m, r, t),
    decreases r,
{
    if s != r {
        if exists|i: int| 0 <= i < bv_parts(m, r).len() && #[trigger] bv_parts(m, r)[i] < r && met(m, bv_parts(m, r)[i], s) {
            let i = choose|i: int| 0 <= i < bv_parts(m, r).len() && #[trigger] bv_parts(m, r)[i] < r && met(m, bv_parts(m, r)[i], s);
            lemma_met_trans(m, bv_parts(m, r)[i], s, t);
            assert(bv_parts(m, r)[i] < r && met(m, bv_parts(m, r)[i], t));
        } else {
            let o = choose|o: TermId| o < r && #[trigger] compared(m, m.args(r)[0], o) && met(m, o, s);
            lemma_met_trans(m, o, s, t);
            assert(compared(m, m.args(r)[0], o) && met(m, o, t));
        }
    }
}

/// A part of what is met is met.
proof fn lemma_met_part(m: &TermManager, r: TermId, s: TermId, i: int)
    requires
        met(m, r, s),
        0 <= i < bv_parts(m, s).len(),
        bv_parts(m, s)[i] < s,
    ensures
        met(m, r, bv_parts(m, s)[i]),
{
    let p = bv_parts(m, s)[i];
    assert(met(m, p, p));
    assert(met(m, s, p));
    lemma_met_trans(m, r, s, p);
}

/// What is compared in a condition stands below it.
proof fn lemma_compared_below(m: &TermManager, c: TermId, t: TermId)
    requires
        m.wf(),
        compared(m, c, t),
    ensures
        t < c,
    decreases c,
{
    assert(m.terms@[c as int].fits(c as int));
    match m.op(c) {
        Op::Not | Op::And | Op::Or => {
            let i = choose|i: int| 0 <= i < m.args(c).len() && #[trigger] m.args(c)[i] < c && compared(m, m.args(c)[i], t);
            lemma_compared_below(m, m.args(c)[i], t);
        },
        _ => {
            let i = choose|i: int| 0 <= i < m.args(c).len() && m.args(c)[i] == t;
            assert(m.args(c)[i] < c);
        },
    }
}

/// What stands in the condition of a conditional that is met is compared in conditions on the way
/// down.
proof fn lemma_cond_operands(m: &TermManager, r: TermId, s: TermId, t: TermId)
    requires
        m.wf(),
        m.has(s),
        met(m, r, s),
        m.op(s) == Op::Ite,
        in_cond(m, m.args(s)[0], t),
    ensures
        is_operand(m, r, t),
{
    assert(m.terms@[s as int].fits(s as int));
    let c = m.args(s)[0];
    assert(c < s);
    if !compared(m, c, t) {
        let o = choose|o: TermId| #[trigger] compared(m, c, o) && is_operand(m, o, t);
        lemma_compared_below(m, c, o);
        let i = choose|i: TermId| #[trigger] met(m, o, i) && m.op(i) == Op::Ite && compared(m, m.args(i)[0], t);
        assert(met(m, s, i));
        lemma_met_trans(m, r, s, i);
    }
}

/// What has bits after a faithful encoding can be given some, those that conditions compare having
/// them.
proof fn lemma_known_is_encodable(m: &TermManager, known: Set<usize>, from: int, p: &BvPlan, r: TermId, t: TermId)
    requires
        m.wf(),
        sound(m, known, from, p),
        only_loose(m, known, from, p, |x: TermId| is_operand(m, r, x)),
        p.known@.contains(t),
    ensures
        encodable(m, known.union(operands(m, r)), t),
    decreases t, 0nat,
{
    let all = known.union(operands(m, r));
    let f = |x: TermId| is_operand(m, r, x);
    if !all.contains(t) {
        assert(!f(t));
        assert(defined_since(m, p.cmds@, from, t));
        let k = choose|k: int| from <= k < p.cmds@.len() && defines_term(m, #[trigger] p.cmds@[k], t);
        assert(m.terms@[t as int].fits(t as int));
        assert forall|i: int| 0 <= i < bv_parts(m, t).len() implies #[trigger] bv_parts(m, t)[i] < t && encodable(
            m,
            all,
            bv_parts(m, t)[i],
        ) by {
            let q = bv_parts(m, t)[i];
            assert(q < t) by {
                if m.op(t) == Op::Ite {
                    assert(m.args(t)[1] < t && m.args(t)[2] < t);
                } else {
                    assert(m.args(t)[i] < t);
                }
            }
            assert(p.known@.contains(q));
            lemma_known_is_encodable(m, known, from, p, r, q);
        }
        if m.op(t) == Op::Ite {
            assert(m.args(t)[0] < t);
            lemma_known_cond(m, known, from, p, r, m.args(t)[0]);
        }
    }
}

/// A condition whose compared terms have bits can be handled.
proof fn lemma_known_cond(m: &TermManager, known: Set<usize>, from: int, p: &BvPlan, r: TermId, c: TermId)
    requires
        m.wf(),
        sound(m, known, from, p),
        only_loose(m, known, from, p, |x: TermId| is_operand(m, r, x)),
        operands_known(m, p.known@, c),
    ensures
        cond_ok(m, known.union(operands(m, r)), c),
    decreases c, 1nat,
{
    let all = known.union(operands(m, r));
    assert(m.terms@[c as int].fits(c as int));
    match m.op(c) {
        Op::Not | Op::And | Op::Or => {
            assert forall|i: int| 0 <= i < m.args(c).len() implies #[trigger] m.args(c)[i] < c && cond_ok(m, all, m.args(c)[i]) by {
                assert(m.args(c)[i] < c && operands_known(m, p.known@, m.args(c)[i]));
                lemma_known_cond(m, known, from, p, r, m.args(c)[i]);
            }
        },
        Op::Eq | Op::BvCompare(_) => {
            assert forall|i: int| 0 <= i < m.args(c).len() implies #[trigger] m.args(c)[i] < c && (width_of(m, m.args(c)[i]) is Some
                || encodable(m, all, m.args(c)[i])) by {
                assert(p.known@.contains(m.args(c)[i]));
                lemma_known_is_encodable(m, known, from, p, r, m.args(c)[i]);
            }
        },
        _ => {},
    }
}

/// The terms compared in a condition have bits.
pub open spec fn operands_known(m: &TermManager, known: Set<usize>, c: TermId) -> bool
    decreases c,
{
    m.has(c) && match m.op(c) {
        Op::Not | Op::And | Op::Or => forall|i: int|
            0 <= i < m.args(c).len() ==> #[trigger] m.args(c)[i] < c && operands_known(m, known, m.args(c)[i]),
        Op::Eq | Op::BvCompare(_) => forall|i: int| 0 <= i < m.args(c).len() ==> known.contains(#[trigger] m.args(c)[i]),
        Op::Var(_) | Op::True | Op::False => true,
        _ => false,
    }
}

/// The term that an instruction defines or gives bits.
pub open spec fn subject(c: BvCmd) -> Option<TermId> {
    match c {
        BvCmd::New { term, .. } => Some(term),
        BvCmd::Binary { term, .. } => Some(term),
        BvCmd::ShiftLeft { term, .. } => Some(term),
        BvCmd::Not { term, .. } => Some(term),
        BvCmd::Extract { term, .. } => Some(term),
        BvCmd::Ite { term, .. } => Some(term),
        BvCmd::Const { term, .. } => Some(term),
        _ => None,
    }
}

/// The instruction says what the term is, or gives bits to one that cannot be defined.
pub open spec fn settles(m: &TermManager, known: Set<usize>, c: BvCmd, t: TermId) -> bool {
    defines_term(m, c, t) || (gives_bits(c, t) && !encodable(m, known, t))
}

/// What has its bits once the instructions from position `from` up to `i` are carried out: what had
/// them, what an instruction says what it is, and what was given bits because it cannot be defined.
pub open spec fn settled(m: &TermManager, known: Set<usize>, cmds: Seq<BvCmd>, from: int, i: int) -> Set<usize> {
    Set::new(|t: usize| known.contains(t) || exists|j: int| from <= j < i && settles(m, known, #[trigger] cmds[j], t))
}

/// The parts of the term that an instruction defines, and the terms compared in its condition, have
/// their bits. An instruction that only gives bits needs none.
pub open spec fn parts_settled(m: &TermManager, at: Set<usize>, c: BvCmd) -> bool {
    match c {
        BvCmd::New { .. } | BvCmd::Const { .. } => true,
        _ => subject(c) matches Some(t) ==> {
            &&& forall|i: int| 0 <= i < bv_parts(m, t).len() ==> at.contains(#[trigger] bv_parts(m, t)[i])
            &&& m.op(t) == Op::Ite ==> operands_known(m, at, m.args(t)[0])
        },
    }
}

/// The instructions from position `from` up to `to` define parts before what they are parts of.
pub open spec fn parts_first(m: &TermManager, known: Set<usize>, cmds: Seq<BvCmd>, from: int, to: int) -> bool {
    forall|i: int| from <= i < to ==> parts_settled(m, settled(m, known, cmds, from, i), #[trigger] cmds[i])
}

/// What has its bits depends on the instructions so far.
proof fn lemma_settled_same(m: &TermManager, known: Set<usize>, a: Seq<BvCmd>, b: Seq<BvCmd>, from: int, i: int)
    requires
        0 <= from,
        i <= a.len(),
        i <= b.len(),
        forall|k: int| 0 <= k < i ==> #[trigger] b[k] == a[k],
    ensures
        settled(m, known, a, from, i) == settled(m, known, b, from, i),
{
    assert forall|t: usize| settled(m, known, a, from, i).contains(t) == settled(m, known, b, from, i).contains(t) by {
        if exists|j: int| from <= j < i && settles(m, known, #[trigger] a[j], t) {
            let j = choose|j: int| from <= j < i && settles(m, known, #[trigger] a[j], t);
            assert(settles(m, known, b[j], t));
        }
        if exists|j: int| from <= j < i && settles(m, known, #[trigger] b[j], t) {
            let j = choose|j: int| from <= j < i && settles(m, known, #[trigger] b[j], t);
            assert(settles(m, known, a[j], t));
        }
    }
    assert(settled(m, known, a, from, i) =~= settled(m, known, b, from, i));
}

/// The more terms have their bits, the fewer are missing.
proof fn lemma_parts_grow(m: &TermManager, a: Set<usize>, b: Set<usize>, c: BvCmd)
    requires
        a.subset_of(b),
        parts_settled(m, a, c),
    ensures
        parts_settled(m, b, c),
{
    if let Some(t) = subject(c) {
        if m.op(t) == Op::Ite && !(c is New) && !(c is Const) {
            lemma_operands_grow(m, a, b, m.args(t)[0]);
        }
    }
}

/// One more instruction, whose parts have their bits.
proof fn lemma_parts_push(m: &TermManager, known: Set<usize>, cmds: Seq<BvCmd>, from: int, c: BvCmd)
    requires
        0 <= from <= cmds.len(),
        parts_first(m, known, cmds, from, cmds.len() as int),
        parts_settled(m, settled(m, known, cmds, from, cmds.len() as int), c),
    ensures
        parts_first(m, known, cmds.push(c), from, cmds.push(c).len() as int),
{
    let more = cmds.push(c);
    assert forall|i: int| from <= i < cmds.len() + 1 implies parts_settled(m, settled(m, known, more, from, i), #[trigger] more[i]) by {
        lemma_settled_same(m, known, cmds, more, from, i);
        if i < cmds.len() {
            assert(more[i] == cmds[i]);
        }
    }
}

/// The instructions since position `from` are definitions, parts before what they are parts of;
/// what has bits had them, was defined since, or has bits of its own because it cannot be defined;
/// and the parts of what was defined have bits, and so have the terms compared in the conditions.
pub open spec fn sound(m: &TermManager, known: Set<usize>, from: int, p: &BvPlan) -> bool {
    &&& known.subset_of(p.known@)
    &&& from <= p.cmds@.len()
    &&& forall|i: int| from <= i < p.cmds@.len() ==> is_definition(m, #[trigger] p.cmds@[i])
    &&& parts_first(m, known, p.cmds@, from, p.cmds@.len() as int)
    &&& forall|i: int| from <= i < p.cmds@.len() ==> (subject(#[trigger] p.cmds@[i]) matches Some(t) ==> p.known@.contains(t))
    &&& forall|t: usize| #[trigger]
        p.known@.contains(t) ==> known.contains(t) || defined_since(m, p.cmds@, from, t) || is_loose(m, known, p.cmds@, from, t)
    &&& forall|t: usize, i: int|
        #[trigger] defined_since(m, p.cmds@, from, t) && 0 <= i < bv_parts(m, t).len() ==> p.known@.contains(#[trigger] bv_parts(m, t)[i])
    &&& forall|t: usize| #[trigger]
        defined_since(m, p.cmds@, from, t) && m.op(t) == Op::Ite ==> operands_known(m, p.known@, m.args(t)[0])
}

/// The instructions so far are kept.
pub open spec fn keeps(before: Seq<BvCmd>, after: Seq<BvCmd>) -> bool {
    before.len() <= after.len() && after.take(before.len() as int) == before
}

/// Steps that are sound one after the other are sound together.
proof fn lemma_sound_steps(m: &TermManager, known: Set<usize>, from: int, mid: &BvPlan, fin: &BvPlan)
    requires
        0 <= from,
        sound(m, known, from, mid),
        sound(m, mid.known@, mid.cmds@.len() as int, fin),
        keeps(mid.cmds@, fin.cmds@),
    ensures
        sound(m, known, from, fin),
{
    let k = mid.cmds@.len() as int;
    assert forall|i: int| 0 <= i < k implies #[trigger] fin.cmds@[i] == mid.cmds@[i] by {
        assert(fin.cmds@.take(k)[i] == fin.cmds@[i]);
    }
    assert forall|i: int| from <= i < fin.cmds@.len() implies parts_settled(m, settled(m, known, fin.cmds@, from, i), #[trigger] fin.cmds@[i]) by {
        if i < k {
            lemma_settled_same(m, known, mid.cmds@, fin.cmds@, from, i);
            assert(fin.cmds@[i] == mid.cmds@[i]);
        } else {
            lemma_settled_steps(m, known, from, mid, fin.cmds@, i);
            lemma_parts_grow(m, settled(m, mid.known@, fin.cmds@, k, i), settled(m, known, fin.cmds@, from, i), fin.cmds@[i]);
        }
    }
    assert forall|i: int| from <= i < fin.cmds@.len() implies (subject(#[trigger] fin.cmds@[i]) matches Some(t) ==> fin.known@.contains(t)) by {
        if i < k {
            assert(fin.cmds@[i] == mid.cmds@[i]);
        }
    }
    assert forall|t: usize| #[trigger] fin.known@.contains(t) implies known.contains(t) || defined_since(m, fin.cmds@, from, t) || is_loose(
        m,
        known,
        fin.cmds@,
        from,
        t,
    ) by {
        if mid.known@.contains(t) {
            if defined_since(m, mid.cmds@, from, t) {
                let i = choose|i: int| from <= i < mid.cmds@.len() && defines_term(m, #[trigger] mid.cmds@[i], t);
                assert(defines_term(m, fin.cmds@[i], t));
            } else if !known.contains(t) {
                let i = choose|i: int| from <= i < mid.cmds@.len() && gives_bits(#[trigger] mid.cmds@[i], t);
                assert(gives_bits(fin.cmds@[i], t));
            }
        } else if defined_since(m, fin.cmds@, k, t) {
            let i = choose|i: int| k <= i < fin.cmds@.len() && defines_term(m, #[trigger] fin.cmds@[i], t);
            assert(defines_term(m, fin.cmds@[i], t));
        } else {
            let i = choose|i: int| k <= i < fin.cmds@.len() && gives_bits(#[trigger] fin.cmds@[i], t);
            assert(gives_bits(fin.cmds@[i], t));
            if encodable(m, known, t) {
                lemma_encodable_grows(m, known, mid.known@, t);
            }
        }
    }
    assert forall|t: usize| #[trigger] defined_since(m, fin.cmds@, from, t) && m.op(t) == Op::Ite implies operands_known(
        m,
        fin.known@,
        m.args(t)[0],
    ) by {
        let j = choose|j: int| from <= j < fin.cmds@.len() && defines_term(m, #[trigger] fin.cmds@[j], t);
        if j < k {
            assert(defines_term(m, mid.cmds@[j], t));
            assert(defined_since(m, mid.cmds@, from, t));
            lemma_operands_grow(m, mid.known@, fin.known@, m.args(t)[0]);
        } else {
            assert(defined_since(m, fin.cmds@, k, t));
        }
    }
    assert forall|t: usize, i: int|
        #[trigger] defined_since(m, fin.cmds@, from, t) && 0 <= i < bv_parts(m, t).len() implies fin.known@.contains(
        #[trigger] bv_parts(m, t)[i],
    ) by {
        let j = choose|j: int| from <= j < fin.cmds@.len() && defines_term(m, #[trigger] fin.cmds@[j], t);
        if j < k {
            assert(defines_term(m, mid.cmds@[j], t));
            assert(defined_since(m, mid.cmds@, from, t));
            assert(mid.known@.contains(bv_parts(m, t)[i]));
        } else {
            assert(defined_since(m, fin.cmds@, k, t));
        }
    }
}

/// What has its bits after two steps had them, or got them in one of the steps.
proof fn lemma_settled_steps(m: &TermManager, known: Set<usize>, from: int, mid: &BvPlan, cmds: Seq<BvCmd>, i: int)
    requires
        0 <= from,
        sound(m, known, from, mid),
        mid.cmds@.len() <= i <= cmds.len(),
        forall|j: int| 0 <= j < mid.cmds@.len() ==> #[trigger] cmds[j] == mid.cmds@[j],
    ensures
        settled(m, mid.known@, cmds, mid.cmds@.len() as int, i).subset_of(settled(m, known, cmds, from, i)),
{
    let k = mid.cmds@.len() as int;
    assert forall|t: usize| settled(m, mid.known@, cmds, k, i).contains(t) implies #[trigger] settled(m, known, cmds, from, i).contains(t) by {
        if mid.known@.contains(t) {
            if defined_since(m, mid.cmds@, from, t) {
                let j = choose|j: int| from <= j < mid.cmds@.len() && defines_term(m, #[trigger] mid.cmds@[j], t);
                assert(settles(m, known, cmds[j], t));
            } else if !known.contains(t) {
                let j = choose|j: int| from <= j < mid.cmds@.len() && gives_bits(#[trigger] mid.cmds@[j], t);
                assert(settles(m, known, cmds[j], t));
            }
        } else {
            let j = choose|j: int| k <= j < i && settles(m, mid.known@, #[trigger] cmds[j], t);
            if encodable(m, known, t) {
                lemma_encodable_grows(m, known, mid.known@, t);
            }
            assert(settles(m, known, cmds[j], t));
        }
    }
}

/// What one more instruction gives bits.
proof fn lemma_loose_push(m: &TermManager, known: Set<usize>, cmds: Seq<BvCmd>, from: int, c: BvCmd, t: TermId)
    requires
        0 <= from <= cmds.len(),
        is_loose(m, known, cmds, from, t) || (!encodable(m, known, t) && gives_bits(c, t)),
    ensures
        is_loose(m, known, cmds.push(c), from, t),
{
    let more = cmds.push(c);
    if is_loose(m, known, cmds, from, t) {
        let i = choose|i: int| from <= i < cmds.len() && gives_bits(#[trigger] cmds[i], t);
        assert(gives_bits(more[i], t));
    } else {
        assert(gives_bits(more[cmds.len() as int], t));
    }
}

/// What one more instruction defines.
proof fn lemma_defined_push(m: &TermManager, cmds: Seq<BvCmd>, from: int, c: BvCmd, t: TermId)
    requires
        0 <= from <= cmds.len(),
    ensures
        defined_since(m, cmds.push(c), from, t) <==> defined_since(m, cmds, from, t) || defines_term(m, c, t),
{
    let more = cmds.push(c);
    if defined_since(m, cmds, from, t) {
        let i = choose|i: int| from <= i < cmds.len() && defines_term(m, #[trigger] cmds[i], t);
        assert(defines_term(m, more[i], t));
    }
    if defines_term(m, c, t) {
        assert(defines_term(m, more[cmds.len() as int], t));
    }
    if defined_since(m, more, from, t) {
        let i = choose|i: int| from <= i < more.len() && defines_term(m, #[trigger] more[i], t);
        if i < cmds.len() {
            assert(defines_term(m, cmds[i], t));
        }
    }
}

impl BvPlan {
    /// The two records of the terms that have bits agree.
    pub open spec fn wf(&self) -> bool {
        &&& self.given@.no_duplicates()
        &&& forall|t: usize| #[trigger] self.known@.contains(t) <==> self.given@.contains(t)
    }

    /// There are no instructions, and no term has bits.
    pub open spec fn is_blank(&self) -> bool {
        &&& self.cmds@.len() == 0
        &&& self.given@.len() == 0
        &&& self.known@ == Set::<usize>::empty()
    }

    /// No instruction, and no term with bits.
    pub fn new() -> (p: BvPlan)
        ensures
            p.wf(),
            p.is_blank(),
    {
        BvPlan { cmds: Vec::new(), known: set_new(), given: Vec::new() }
    }

    /// Records that a term has bits.
    fn note(&mut self, t: TermId)
        requires
            old(self).wf(),
        ensures
            final(self).wf(),
            final(self).cmds@ == old(self).cmds@,
            final(self).known@ == old(self).known@.insert(t),
            keeps_given(old(self).given@, final(self).given@),
    {
        proof {
            lemma_keeps_given_self(self.given@);
        }
        if set_insert(&mut self.known, t) {
            self.given.push(t);
            proof {
                assert(!old(self).given@.contains(t));
                lemma_given_push(old(self).given@, t);
            }
        } else {
            assert(self.known@ =~= old(self).known@.insert(t));
        }
    }

    /// Goes back to the first `live` terms that have bits.
    pub fn backtrack(&mut self, live: usize)
        requires
            old(self).wf(),
        ensures
            final(self).wf(),
            final(self).cmds@ == old(self).cmds@,
            final(self).given@ == if live < old(self).given@.len() {
                old(self).given@.take(live as int)
            } else {
                old(self).given@
            },
    {
        while self.given.len() > live
            invariant
                self.wf(),
                self.cmds@ == old(self).cmds@,
                self.given@.len() <= old(self).given@.len(),
                live <= old(self).given@.len() ==> live <= self.given@.len(),
                live > old(self).given@.len() ==> self.given@ == old(self).given@,
                self.given@ == old(self).given@.take(self.given@.len() as int),
            decreases self.given@.len(),
        {
            let ghost before = self.given@;
            match self.given.pop() {
                Some(t) => {
                    set_remove(&mut self.known, t);
                    proof {
                        assert(before =~= self.given@.push(t));
                        lemma_given_pop(self.given@, t);
                        assert(self.given@ =~= old(self).given@.take(self.given@.len() as int));
                    }
                },
                None => {},
            }
        }
        assert(old(self).given@.take(old(self).given@.len() as int) =~= old(self).given@);
    }

    /// Gives a term bits that had them, or that cannot be defined.
    fn give_bits(&mut self, m: &TermManager, t: TermId, width: u32)
        requires
            old(self).wf(),
            old(self).known@.contains(t) || !encodable(m, old(self).known@, t),
            fits_width(m, t, width),
        ensures
            final(self).wf(),
            keeps_given(old(self).given@, final(self).given@),
            final(self).cmds@ == old(self).cmds@.push(BvCmd::New { term: t, width }),
            final(self).known@ == old(self).known@.insert(t),
            sound(m, old(self).known@, old(self).cmds@.len() as int, final(self)),
            keeps(old(self).cmds@, final(self).cmds@),
    {
        self.cmds.push(BvCmd::New { term: t, width });
        self.note(t);
        proof {
            let from = old(self).cmds@.len() as int;
            let c = BvCmd::New { term: t, width };
            assert(self.cmds@.take(from) =~= old(self).cmds@);
            assert(gives_bits(self.cmds@[from], t));
            lemma_parts_push(m, old(self).known@, old(self).cmds@, from, c);
            assert forall|s: usize| #[trigger] defined_since(m, self.cmds@, from, s) && m.op(s) == Op::Ite implies operands_known(
                m,
                self.known@,
                m.args(s)[0],
            ) by {
                lemma_defined_push(m, old(self).cmds@, from, c, s);
            }
            assert forall|s: usize, i: int|
                #[trigger] defined_since(m, self.cmds@, from, s) && 0 <= i < bv_parts(m, s).len() implies self.known@.contains(
                #[trigger] bv_parts(m, s)[i],
            ) by {
                lemma_defined_push(m, old(self).cmds@, from, c, s);
            }
        }
    }

    /// Says what a term is whose parts have bits.
    fn define(&mut self, m: &TermManager, t: TermId, c: BvCmd)
        requires
            old(self).wf(),
            defines_term(m, c, t),
            is_definition(m, c),
            forall|i: int| 0 <= i < bv_parts(m, t).len() ==> old(self).known@.contains(#[trigger] bv_parts(m, t)[i]),
            m.op(t) == Op::Ite ==> operands_known(m, old(self).known@, m.args(t)[0]),
        ensures
            final(self).wf(),
            defined_since(m, final(self).cmds@, old(self).cmds@.len() as int, t),
            keeps_given(old(self).given@, final(self).given@),
            final(self).cmds@ == old(self).cmds@.push(c),
            final(self).known@ == old(self).known@.insert(t),
            sound(m, old(self).known@, old(self).cmds@.len() as int, final(self)),
            keeps(old(self).cmds@, final(self).cmds@),
    {
        self.cmds.push(c);
        self.note(t);
        proof {
            let from = old(self).cmds@.len() as int;
            assert(self.cmds@.take(from) =~= old(self).cmds@);
            lemma_defined_push(m, old(self).cmds@, from, c, t);
            assert(settled(m, old(self).known@, old(self).cmds@, from, from) =~= old(self).known@);
            lemma_parts_push(m, old(self).known@, old(self).cmds@, from, c);
            assert forall|s: usize| #[trigger] defined_since(m, self.cmds@, from, s) && m.op(s) == Op::Ite implies operands_known(
                m,
                self.known@,
                m.args(s)[0],
            ) by {
                lemma_defined_push(m, old(self).cmds@, from, c, s);
                assert(s == t);
                lemma_operands_grow(m, old(self).known@, self.known@, m.args(t)[0]);
            }
            assert forall|s: usize, i: int|
                #[trigger] defined_since(m, self.cmds@, from, s) && 0 <= i < bv_parts(m, s).len() implies self.known@.contains(
                #[trigger] bv_parts(m, s)[i],
            ) by {
                lemma_defined_push(m, old(self).cmds@, from, c, s);
                assert(s == t);
            }
        }
    }
}

/// The earlier list is the beginning of the later one.
pub open spec fn keeps_given(before: Seq<TermId>, after: Seq<TermId>) -> bool {
    before.len() <= after.len() && after.take(before.len() as int) == before
}

/// A list is its own beginning.
proof fn lemma_keeps_given_self(s: Seq<TermId>)
    ensures
        keeps_given(s, s),
{
    assert(s.take(s.len() as int) =~= s);
}

/// Beginnings of beginnings are beginnings.
proof fn lemma_keeps_given(a: Seq<TermId>, b: Seq<TermId>, c: Seq<TermId>)
    requires
        keeps_given(a, b),
        keeps_given(b, c),
    ensures
        keeps_given(a, c),
{
    assert(c.take(a.len() as int) =~= c.take(b.len() as int).take(a.len() as int));
}

/// A list without repetitions with one more member.
proof fn lemma_given_push(s: Seq<TermId>, t: TermId)
    requires
        s.no_duplicates(),
        !s.contains(t),
    ensures
        s.push(t).no_duplicates(),
        forall|x: usize| #[trigger] s.push(t).contains(x) <==> s.contains(x) || x == t,
        keeps_given(s, s.push(t)),
{
    let p = s.push(t);
    assert(p.take(s.len() as int) =~= s);
    assert forall|x: usize| #[trigger] p.contains(x) <==> s.contains(x) || x == t by {
        if s.contains(x) {
            let i = choose|i: int| 0 <= i < s.len() && s[i] == x;
            assert(p[i] == x);
        }
        if x == t {
            assert(p[s.len() as int] == x);
        }
        if p.contains(x) {
            let i = choose|i: int| 0 <= i < p.len() && p[i] == x;
            if i < s.len() {
                assert(s[i] == x);
            }
        }
    }
    assert forall|i: int, j: int| 0 <= i < p.len() && 0 <= j < p.len() && i != j implies p[i] != p[j] by {
        if i == s.len() {
            assert(s.contains(p[j]));
        } else if j == s.len() {
            assert(s.contains(p[i]));
        }
    }
}

/// A list without repetitions with one member less.
proof fn lemma_given_pop(s: Seq<TermId>, t: TermId)
    requires
        s.push(t).no_duplicates(),
    ensures
        s.no_duplicates(),
        !s.contains(t),
        forall|x: usize| #[trigger] s.push(t).contains(x) <==> s.contains(x) || x == t,
{
    let p = s.push(t);
    assert forall|i: int, j: int| 0 <= i < s.len() && 0 <= j < s.len() && i != j implies s[i] != s[j] by {
        assert(p[i] != p[j]);
    }
    if s.contains(t) {
        let i = choose|i: int| 0 <= i < s.len() && s[i] == t;
        assert(p[i] == p[s.len() as int]);
    }
    lemma_given_push(s, t);
}

/// A state is soundly reached from itself.
proof fn lemma_sound_self(m: &TermManager, p: &BvPlan)
    ensures
        sound(m, p.known@, p.cmds@.len() as int, p),
        keeps(p.cmds@, p.cmds@),
        keeps_given(p.given@, p.given@),
{
    lemma_keeps_given_self(p.given@);
    assert(p.cmds@.take(p.cmds@.len() as int) =~= p.cmds@);
}

/// Instructions that are kept in two steps are kept.
proof fn lemma_keeps_steps(a: Seq<BvCmd>, b: Seq<BvCmd>, c: Seq<BvCmd>)
    requires
        keeps(a, b),
        keeps(b, c),
    ensures
        keeps(a, c),
{
    assert(c.take(a.len() as int) =~= c.take(b.len() as int).take(a.len() as int));
}

impl BvPlan {
    /// Says what a term is whose parts have bits: nothing where a width is missing that the solver
    /// has to be told.
    #[verifier::spinoff_prover]
    fn emit(&mut self, m: &TermManager, t: TermId, width: u32) -> (r: bool)
        requires
            old(self).wf(),
            m.wf(),
            width_of(m, t) == Some(width),
            is_bv_shape(m.op(t)),
            forall|i: int| 0 <= i < bv_parts(m, t).len() ==> old(self).known@.contains(#[trigger] bv_parts(m, t)[i]),
            m.op(t) == Op::Ite ==> operands_known(m, old(self).known@, m.args(t)[0]),
        ensures
            final(self).wf(),
            keeps_given(old(self).given@, final(self).given@),
            sound(m, old(self).known@, old(self).cmds@.len() as int, final(self)),
            keeps(old(self).cmds@, final(self).cmds@),
            r == widths_ok(m, t),
            r ==> final(self).known@ == old(self).known@.insert(t),
            !r ==> final(self).known@ == old(self).known@,
            r ==> defined_since(m, final(self).cmds@, old(self).cmds@.len() as int, t),
    {
        assert(m.terms@[t as int].fits(t as int));
        let ghost known = self.known@;
        let ghost from = self.cmds@.len() as int;
        proof {
            lemma_sound_self(m, self);
        }
        match m.terms[t].op {
            Op::Bv(op) => {
                let a: usize = m.terms[t].args[0];
                let b: usize = m.terms[t].args[1];
                assert(m.args(t) =~= seq![a, b]);
                assert(bv_parts(m, t)[0] == a && bv_parts(m, t)[1] == b);
                let concat = match op {
                    BvOp::Concat => true,
                    _ => false,
                };
                let (wa, wb) = if concat {
                    match (bv_width_of(m, a), bv_width_of(m, b)) {
                        (Some(x), Some(y)) => (x, y),
                        _ => {
                            return false;
                        },
                    }
                } else {
                    (width, width)
                };
                let product = match op {
                    BvOp::Mul => true,
                    _ => false,
                };
                if product {
                    if let Some(shift) = bitvec_const_pow2_shift(m, b) {
                        self.give_for(m, a, width, t);
                        let ghost mid = *self;
                        self.define(m, t, BvCmd::ShiftLeft { term: t, arg: a, shift, width });
                        proof {
                            lemma_sound_steps(m, known, from, &mid, self);
                            lemma_keeps_steps(old(self).cmds@, mid.cmds@, self.cmds@);
                            lemma_keeps_given(old(self).given@, mid.given@, self.given@);
                        }
                        return true;
                    }
                    if let Some(shift) = bitvec_const_pow2_shift(m, a) {
                        self.give_for(m, b, width, t);
                        let ghost mid = *self;
                        self.define(m, t, BvCmd::ShiftLeft { term: t, arg: b, shift, width });
                        proof {
                            lemma_sound_steps(m, known, from, &mid, self);
                            lemma_keeps_steps(old(self).cmds@, mid.cmds@, self.cmds@);
                            lemma_keeps_given(old(self).given@, mid.given@, self.given@);
                        }
                        return true;
                    }
                }
                proof {
                    assert(m.args(t)[0] == a && m.args(t)[1] == b);
                    assert(m.args(t).contains(a) && m.args(t).contains(b));
                    assert(fits_width(m, a, wa) && fits_width(m, b, wb)) by {
                        if !concat {
                            assert(width_of(m, t) == Some(width));
                        }
                    }
                }
                self.give_bits(m, a, wa);
                let ghost mid = *self;
                self.give_bits(m, b, wb);
                let ghost mid2 = *self;
                proof {
                    lemma_sound_steps(m, known, from, &mid, &mid2);
                    lemma_keeps_steps(old(self).cmds@, mid.cmds@, mid2.cmds@);
                    lemma_keeps_given(old(self).given@, mid.given@, mid2.given@);
                }
                self.define(m, t, BvCmd::Binary { term: t, op, a, b });
                proof {
                    lemma_sound_steps(m, known, from, &mid2, self);
                    lemma_keeps_steps(old(self).cmds@, mid2.cmds@, self.cmds@);
                    lemma_keeps_given(old(self).given@, mid2.given@, self.given@);
                }
                true
            },
            Op::BvNot => {
                let a: usize = m.terms[t].args[0];
                assert(m.args(t) =~= seq![a]);
                assert(bv_parts(m, t)[0] == a);
                self.give_for(m, a, width, t);
                let ghost mid = *self;
                self.define(m, t, BvCmd::Not { term: t, arg: a });
                proof {
                    lemma_sound_steps(m, known, from, &mid, self);
                    lemma_keeps_steps(old(self).cmds@, mid.cmds@, self.cmds@);
                    lemma_keeps_given(old(self).given@, mid.given@, self.given@);
                }
                true
            },
            Op::BvExtract { high, low } => {
                let a: usize = m.terms[t].args[0];
                assert(m.args(t) =~= seq![a]);
                assert(bv_parts(m, t)[0] == a);
                let w = match bv_width_of(m, a) {
                    Some(w) => w,
                    None => {
                        return false;
                    },
                };
                self.give_bits(m, a, w);
                let ghost mid = *self;
                self.define(m, t, BvCmd::Extract { term: t, arg: a, high, low });
                proof {
                    lemma_sound_steps(m, known, from, &mid, self);
                    lemma_keeps_steps(old(self).cmds@, mid.cmds@, self.cmds@);
                    lemma_keeps_given(old(self).given@, mid.given@, self.given@);
                }
                true
            },
            Op::Ite => {
                let c: usize = m.terms[t].args[0];
                let a: usize = m.terms[t].args[1];
                let b: usize = m.terms[t].args[2];
                assert(m.args(t) =~= seq![c, a, b]);
                self.define(m, t, BvCmd::Ite { term: t, cond: c, a, b });
                true
            },
            Op::BitVecConst { width: _ } => {
                let digits = &m.terms[t].digits;
                let value: u64 = if digits.len() > 0 {
                    digits[0]
                } else {
                    0
                };
                self.define(m, t, BvCmd::Const { term: t, value, width });
                true
            },
            _ => {
                self.define(m, t, BvCmd::New { term: t, width });
                true
            },
        }
    }

    /// Gives an operand bits in the width of the operation.
    fn give_for(&mut self, m: &TermManager, a: TermId, width: u32, t: TermId)
        requires
            old(self).wf(),
            old(self).known@.contains(a),
            width_of(m, t) == Some(width),
            keeps_width(m.op(t)),
            m.args(t).contains(a),
        ensures
            final(self).wf(),
            keeps_given(old(self).given@, final(self).given@),
            sound(m, old(self).known@, old(self).cmds@.len() as int, final(self)),
            keeps(old(self).cmds@, final(self).cmds@),
            final(self).known@ == old(self).known@.insert(a),
    {
        self.give_bits(m, a, width);
    }
}

/// Terms that have bits keep them.
proof fn lemma_operands_grow(m: &TermManager, a: Set<usize>, b: Set<usize>, c: TermId)
    requires
        a.subset_of(b),
        operands_known(m, a, c),
    ensures
        operands_known(m, b, c),
    decreases c,
{
    match m.op(c) {
        Op::Not | Op::And | Op::Or => {
            assert forall|i: int| 0 <= i < m.args(c).len() implies #[trigger] m.args(c)[i] < c && operands_known(m, b, m.args(c)[i]) by {
                lemma_operands_grow(m, a, b, m.args(c)[i]);
            }
        },
        _ => {},
    }
}

/// What a term still to be visited may cost, parts included.
spec fn heft(t: nat) -> nat
    decreases t,
{
    if t == 0 {
        4
    } else {
        4 * heft((t - 1) as nat)
    }
}

/// A smaller term costs at most a quarter.
proof fn lemma_heft(a: nat, b: nat)
    requires
        a < b,
    ensures
        4 * heft(a) <= heft(b),
        heft(a) >= 4,
    decreases b,
{
    if a + 1 < b {
        lemma_heft(a, (b - 1) as nat);
    } else if a > 0 {
        lemma_heft((a - 1) as nat, a);
    }
}

/// What the terms on a stack may still cost.
spec fn load(stack: Seq<(usize, bool)>) -> nat
    decreases stack.len(),
{
    if stack.len() == 0 {
        0
    } else {
        let top = stack.last();
        load(stack.drop_last()) + if top.1 {
            1nat
        } else {
            heft(top.0 as nat)
        }
    }
}

/// What one more term on the stack may cost.
proof fn lemma_load_push(stack: Seq<(usize, bool)>, e: (usize, bool))
    ensures
        load(stack.push(e)) == load(stack) + if e.1 {
            1nat
        } else {
            heft(e.0 as nat)
        },
{
    assert(stack.push(e).drop_last() =~= stack);
}

/// The term stands above position `p` of a stack.
pub open spec fn above(stack: Seq<(usize, bool)>, p: int, t: TermId) -> bool {
    exists|q: int| p < q < stack.len() && (#[trigger] stack[q]).0 == t
}

/// A term that waits for its parts can be defined, and each of them has bits or stands above it.
pub open spec fn waits(m: &TermManager, stack: Seq<(usize, bool)>, known: Set<usize>, p: int) -> bool {
    stack[p].1 ==> {
        &&& width_of(m, stack[p].0) is Some
        &&& is_bv_shape(m.op(stack[p].0))
        &&& forall|i: int|
            0 <= i < bv_parts(m, stack[p].0).len() ==> known.contains(#[trigger] bv_parts(m, stack[p].0)[i]) || above(
                stack,
                p,
                bv_parts(m, stack[p].0)[i],
            )
    }
}

/// Every term of the stack is a part of the root or the root, and waits for its parts.
pub open spec fn stack_ok(m: &TermManager, stack: Seq<(usize, bool)>, known: Set<usize>, root: TermId) -> bool {
    forall|p: int| 0 <= p < stack.len() ==> (#[trigger] stack[p]).0 <= root && waits(m, stack, known, p)
}

/// Taking a term with bits off a stack leaves it in order.
proof fn lemma_stack_pop(m: &TermManager, stack: Seq<(usize, bool)>, known: Set<usize>, more: Set<usize>, root: TermId)
    requires
        stack.len() > 0,
        stack_ok(m, stack, known, root),
        known.subset_of(more),
        more.contains(stack.last().0),
    ensures
        stack_ok(m, stack.drop_last(), more, root),
{
    let rest = stack.drop_last();
    assert forall|p: int| 0 <= p < rest.len() implies (#[trigger] rest[p]).0 <= root && waits(m, rest, more, p) by {
        assert(rest[p] == stack[p]);
        assert(waits(m, stack, known, p));
        if rest[p].1 {
            assert forall|i: int| 0 <= i < bv_parts(m, rest[p].0).len() implies more.contains(#[trigger] bv_parts(m, rest[p].0)[i])
                || above(rest, p, bv_parts(m, rest[p].0)[i]) by {
                let c = bv_parts(m, rest[p].0)[i];
                if !known.contains(c) {
                    let q = choose|q: int| p < q < stack.len() && (#[trigger] stack[q]).0 == c;
                    if q < rest.len() {
                        assert(rest[q].0 == c);
                    }
                }
            }
        }
    }
}

/// A term goes on waiting when another one is put on the stack.
proof fn lemma_waits_push(m: &TermManager, stack: Seq<(usize, bool)>, known: Set<usize>, p: int, e: (usize, bool))
    requires
        0 <= p < stack.len(),
        waits(m, stack, known, p),
    ensures
        waits(m, stack.push(e), known, p),
{
    let more = stack.push(e);
    if stack[p].1 {
        assert forall|i: int| 0 <= i < bv_parts(m, more[p].0).len() implies known.contains(#[trigger] bv_parts(m, more[p].0)[i])
            || above(more, p, bv_parts(m, more[p].0)[i]) by {
            let c = bv_parts(m, stack[p].0)[i];
            if !known.contains(c) {
                let q = choose|q: int| p < q < stack.len() && (#[trigger] stack[q]).0 == c;
                assert(more[q].0 == c);
            }
        }
    }
}

/// The terms to be visited for a term on top of a stack: the term again behind its parts.
spec fn visit(stack: Seq<(usize, bool)>, t: TermId, parts: Seq<TermId>, known: Set<usize>, k: int) -> Seq<(usize, bool)>
    decreases k,
{
    if k <= 0 {
        stack.push((t, true))
    } else if known.contains(parts[k - 1]) {
        visit(stack, t, parts, known, k - 1)
    } else {
        visit(stack, t, parts, known, k - 1).push((parts[k - 1], false))
    }
}

/// What the visited parts of a term add to a stack.
proof fn lemma_visit(m: &TermManager, stack: Seq<(usize, bool)>, t: TermId, known: Set<usize>, root: TermId, k: int)
    requires
        stack_ok(m, stack.push((t, false)), known, root),
        width_of(m, t) is Some,
        is_bv_shape(m.op(t)),
        0 <= k <= bv_parts(m, t).len(),
        forall|i: int| 0 <= i < bv_parts(m, t).len() ==> #[trigger] bv_parts(m, t)[i] < t,
    ensures
        visit(stack, t, bv_parts(m, t), known, k).len() > stack.len(),
        visit(stack, t, bv_parts(m, t), known, k)[stack.len() as int] == (t, true),
        forall|p: int| 0 <= p < stack.len() ==> visit(stack, t, bv_parts(m, t), known, k)[p] == stack[p],
        forall|p: int|
            0 <= p < visit(stack, t, bv_parts(m, t), known, k).len() ==> (#[trigger] visit(stack, t, bv_parts(m, t), known, k)[p]).0
                <= root && (p != stack.len() ==> waits(m, visit(stack, t, bv_parts(m, t), known, k), known, p)),
        forall|i: int|
            0 <= i < k ==> known.contains(#[trigger] bv_parts(m, t)[i]) || above(
                visit(stack, t, bv_parts(m, t), known, k),
                stack.len() as int,
                bv_parts(m, t)[i],
            ),
        load(visit(stack, t, bv_parts(m, t), known, k)) <= load(stack) + 1 + k * (heft(t as nat) / 4),
    decreases k,
{
    let parts = bv_parts(m, t);
    let s = visit(stack, t, parts, known, k);
    let whole = stack.push((t, false));
    assert(whole[stack.len() as int].0 <= root);
    if k == 0 {
        lemma_load_push(stack, (t, true));
        assert forall|p: int| 0 <= p < s.len() implies (#[trigger] s[p]).0 <= root && (p != stack.len() ==> waits(m, s, known, p)) by {
            if p < stack.len() {
                assert(whole[p] == stack[p]);
                assert(waits(m, whole, known, p));
                if stack[p].1 {
                    assert forall|i: int| 0 <= i < bv_parts(m, s[p].0).len() implies known.contains(#[trigger] bv_parts(m, s[p].0)[i])
                        || above(s, p, bv_parts(m, s[p].0)[i]) by {
                        let c = bv_parts(m, s[p].0)[i];
                        if !known.contains(c) {
                            let q = choose|q: int| p < q < whole.len() && (#[trigger] whole[q]).0 == c;
                            assert(s[q].0 == c);
                        }
                    }
                }
            }
        }
    } else {
        lemma_visit(m, stack, t, known, root, k - 1);
        let before = visit(stack, t, parts, known, k - 1);
        let c = parts[k - 1];
        let h = heft(t as nat) / 4;
        lemma_heft(c as nat, t as nat);
        assert(heft(c as nat) <= h);
        assert(k * h == (k - 1) * h + h) by (nonlinear_arith);
        if !known.contains(c) {
            lemma_load_push(before, (c, false));
            assert forall|p: int| 0 <= p < s.len() implies (#[trigger] s[p]).0 <= root && (p != stack.len() ==> waits(m, s, known, p)) by {
                if p < before.len() {
                    assert(s[p] == before[p]);
                    if p != stack.len() {
                        lemma_waits_push(m, before, known, p, (c, false));
                    }
                }
            }
            assert forall|i: int| 0 <= i < k implies known.contains(#[trigger] parts[i]) || above(s, stack.len() as int, parts[i]) by {
                if i < k - 1 {
                    if !known.contains(parts[i]) {
                        let q = choose|q: int| stack.len() < q < before.len() && (#[trigger] before[q]).0 == parts[i];
                        assert(s[q].0 == parts[i]);
                    }
                } else {
                    assert(s[before.len() as int].0 == parts[i]);
                }
            }
        }
    }
}

/// The whole visit leaves the stack in order, and cheaper.
proof fn lemma_visit_all(m: &TermManager, stack: Seq<(usize, bool)>, t: TermId, known: Set<usize>, root: TermId)
    requires
        stack_ok(m, stack.push((t, false)), known, root),
        width_of(m, t) is Some,
        is_bv_shape(m.op(t)),
        bv_parts(m, t).len() <= 2,
        forall|i: int| 0 <= i < bv_parts(m, t).len() ==> #[trigger] bv_parts(m, t)[i] < t,
    ensures
        stack_ok(m, visit(stack, t, bv_parts(m, t), known, bv_parts(m, t).len() as int), known, root),
        load(visit(stack, t, bv_parts(m, t), known, bv_parts(m, t).len() as int)) < load(stack.push((t, false))),
{
    let k = bv_parts(m, t).len() as int;
    let s = visit(stack, t, bv_parts(m, t), known, k);
    lemma_visit(m, stack, t, known, root, k);
    lemma_load_push(stack, (t, false));
    lemma_heft(t as nat, (t + 1) as nat);
    let h = heft(t as nat) / 4;
    assert(k * h <= 2 * h) by (nonlinear_arith)
        requires
            k <= 2,
            h >= 0,
    ;
    assert forall|p: int| 0 <= p < s.len() implies (#[trigger] s[p]).0 <= root && waits(m, s, known, p) by {}
}

impl BvPlan {
    /// Gives bits to the terms compared in a condition, so that the solver can read it; fails where
    /// the condition is built otherwise, or where one of them is no bit vector.
    pub fn bit_blast_cond_operands(&mut self, m: &TermManager, cond: TermId) -> (r: bool)
        requires
            old(self).wf(),
            m.wf(),
        ensures
            final(self).wf(),
            keeps_given(old(self).given@, final(self).given@),
            sound(m, old(self).known@, old(self).cmds@.len() as int, final(self)),
            keeps(old(self).cmds@, final(self).cmds@),
            cond_ok(m, old(self).known@, cond) ==> r,
            r ==> operands_known(m, final(self).known@, cond),
            forall|t: usize| #[trigger] final(self).known@.contains(t) ==> old(self).known@.contains(t) || (t < cond && occurs(m, cond, t)),
            only_loose(m, old(self).known@, old(self).cmds@.len() as int, final(self), |t: TermId| in_cond(m, cond, t)),
        decreases cond, 3nat,
    {
        let ghost known = self.known@;
        let ghost from = self.cmds@.len() as int;
        proof {
            lemma_sound_self(m, self);
        }
        if cond >= m.terms.len() {
            return false;
        }
        assert(m.terms@[cond as int].fits(cond as int));
        match m.terms[cond].op {
            Op::Not | Op::And | Op::Or => {
                let n: usize = m.terms[cond].args.len();
                let mut i: usize = 0;
                while i < n
                    invariant
                        i <= n,
                        m.wf(),
                        m.has(cond),
                        n == m.args(cond).len(),
                        m.terms@[cond as int].fits(cond as int),
                        m.op(cond) == Op::Not || m.op(cond) == Op::And || m.op(cond) == Op::Or,
                        known == old(self).known@,
                        from == old(self).cmds@.len(),
                        sound(m, known, from, self),
                        keeps(old(self).cmds@, self.cmds@),
                        self.wf(),
                        keeps_given(old(self).given@, self.given@),
                        forall|t: usize| #[trigger] self.known@.contains(t) ==> known.contains(t) || (t < cond && occurs(m, cond, t)),
                        only_loose(m, known, from, self, |t: TermId| in_cond(m, cond, t)),
                        forall|k: int| 0 <= k < i ==> #[trigger] m.args(cond)[k] < cond && operands_known(m, self.known@, m.args(cond)[k]),
                    decreases n - i,
                {
                    let a: usize = m.terms[cond].args[i];
                    let ghost mid = *self;
                    assert(m.args(cond)[i as int] < cond);
                    let ok = self.bit_blast_cond_operands(m, a);
                    proof {
                        let here = |t: TermId| in_cond(m, cond, t);
                        let below = |t: TermId| in_cond(m, a, t);
                        assert forall|t: TermId| #[trigger] below(t) implies here(t) by {
                            lemma_in_cond_above(m, cond, i as int, t);
                        }
                        lemma_only_loose(m, known, from, &mid, self, here, below, here);
                        assert forall|t: usize| #[trigger] self.known@.contains(t) implies known.contains(t) || (t < cond && occurs(m, cond, t)) by {
                            if !mid.known@.contains(t) {
                                lemma_occurs_through(m, cond, i as int, t);
                            }
                        }
                        lemma_sound_steps(m, known, from, &mid, self);
                        lemma_keeps_steps(old(self).cmds@, mid.cmds@, self.cmds@);
                        lemma_keeps_given(old(self).given@, mid.given@, self.given@);
                    }
                    if !ok {
                        proof {
                            if cond_ok(m, known, cond) {
                                assert(cond_ok(m, known, m.args(cond)[i as int]));
                                lemma_cond_grows(m, known, mid.known@, a);
                            }
                        }
                        return false;
                    }
                    proof {
                        assert forall|k: int| 0 <= k < i + 1 implies #[trigger] m.args(cond)[k] < cond && operands_known(
                            m,
                            self.known@,
                            m.args(cond)[k],
                        ) by {
                            if k < i {
                                lemma_operands_grow(m, mid.known@, self.known@, m.args(cond)[k]);
                            }
                        }
                    }
                    i = i + 1;
                }
                true
            },
            Op::Eq | Op::BvCompare(_) => {
                let a: usize = m.terms[cond].args[0];
                let b: usize = m.terms[cond].args[1];
                assert(m.args(cond)[0] < cond && m.args(cond)[1] < cond);
                let ok_a = self.blast_operand(m, a);
                let ghost mid = *self;
                let ok_b = self.blast_operand(m, b);
                proof {
                    let here = |t: TermId| in_cond(m, cond, t);
                    let of_a = |t: TermId| t == a || is_operand(m, a, t);
                    let of_b = |t: TermId| t == b || is_operand(m, b, t);
                    assert(m.args(cond).contains(m.args(cond)[0]) && m.args(cond).contains(m.args(cond)[1]));
                    assert(compared(m, cond, a) && compared(m, cond, b));
                    assert forall|t: TermId| #[trigger] of_a(t) implies here(t) by {}
                    assert forall|t: TermId| #[trigger] of_b(t) implies here(t) by {}
                    lemma_only_loose(m, known, from, &mid, self, of_a, of_b, here);
                    assert forall|t: usize| #[trigger] self.known@.contains(t) implies known.contains(t) || (t < cond && occurs(m, cond, t)) by {
                        if !mid.known@.contains(t) {
                            lemma_occurs_through(m, cond, 1, t);
                        } else if !known.contains(t) {
                            lemma_occurs_through(m, cond, 0, t);
                        }
                    }
                    lemma_sound_steps(m, known, from, &mid, self);
                    lemma_keeps_steps(old(self).cmds@, mid.cmds@, self.cmds@);
                    lemma_keeps_given(old(self).given@, mid.given@, self.given@);
                    if cond_ok(m, known, cond) {
                        assert(m.args(cond)[0] < cond && m.args(cond)[1] < cond);
                        if encodable(m, known, b) {
                            lemma_encodable_grows(m, known, mid.known@, b);
                        }
                    }
                }
                ok_a && ok_b
            },
            Op::Var(_) | Op::True | Op::False => true,
            _ => false,
        }
    }

    /// Gives bits to a compared term: those of its definition, or bits of its own.
    fn blast_operand(&mut self, m: &TermManager, t: TermId) -> (r: bool)
        requires
            old(self).wf(),
            m.wf(),
        ensures
            final(self).wf(),
            keeps_given(old(self).given@, final(self).given@),
            sound(m, old(self).known@, old(self).cmds@.len() as int, final(self)),
            keeps(old(self).cmds@, final(self).cmds@),
            width_of(m, t) is Some || encodable(m, old(self).known@, t) ==> r,
            r ==> final(self).known@.contains(t),
            forall|s: usize| #[trigger] final(self).known@.contains(s) ==> old(self).known@.contains(s) || (s <= t && occurs(m, t, s)),
            only_loose(m, old(self).known@, old(self).cmds@.len() as int, final(self), |s: TermId| s == t || is_operand(m, t, s)),
        decreases t, 2nat,
    {
        let ghost known = self.known@;
        let ghost from = self.cmds@.len() as int;
        if self.encode_bv_term_recursive(m, t) {
            return true;
        }
        let ghost mid = *self;
        match bv_width_of(m, t) {
            Some(w) => {
                proof {
                    assert(!encodable(m, known, t));
                }
                self.give_loose(m, t, w, Ghost(known));
                proof {
                    let inner = |s: TermId| is_operand(m, t, s);
                    let all = |s: TermId| s == t || is_operand(m, t, s);
                    assert(only_loose(m, known, from, &mid, inner));
                    assert forall|s: usize| #[trigger] self.known@.contains(s) implies known.contains(s) || defined_since(
                        m,
                        self.cmds@,
                        from,
                        s,
                    ) || all(s) by {
                        lemma_defined_push(m, mid.cmds@, from, BvCmd::New { term: t, width: w }, s);
                        if s != t {
                            assert(mid.known@.contains(s));
                            assert(inner(s) ==> all(s));
                        }
                    }
                    lemma_keeps_steps(old(self).cmds@, mid.cmds@, self.cmds@);
                    lemma_keeps_given(old(self).given@, mid.given@, self.given@);
                }
                true
            },
            None => false,
        }
    }

    /// Gives a term bits of its own that could not be defined.
    fn give_loose(&mut self, m: &TermManager, t: TermId, width: u32, Ghost(known): Ghost<Set<usize>>)
        requires
            old(self).wf(),
            width_of(m, t) == Some(width),
        ensures
            final(self).wf(),
            keeps_given(old(self).given@, final(self).given@),
            final(self).cmds@ == old(self).cmds@.push(BvCmd::New { term: t, width }),
            final(self).known@ == old(self).known@.insert(t),
            keeps(old(self).cmds@, final(self).cmds@),
            forall|from: int|
                0 <= from && #[trigger] sound(m, known, from, old(self)) && !encodable(m, known, t) ==> sound(m, known, from, final(self)),
    {
        self.cmds.push(BvCmd::New { term: t, width });
        self.note(t);
        proof {
            let c = BvCmd::New { term: t, width };
            assert(self.cmds@.take(old(self).cmds@.len() as int) =~= old(self).cmds@);
            assert forall|from: int|
                0 <= from && #[trigger] sound(m, known, from, old(self)) && !encodable(m, known, t) implies sound(m, known, from, self) by {
                lemma_parts_push(m, known, old(self).cmds@, from, c);
                assert forall|s: usize| #[trigger] self.known@.contains(s) implies known.contains(s) || defined_since(
                    m,
                    self.cmds@,
                    from,
                    s,
                ) || is_loose(m, known, self.cmds@, from, s) by {
                    lemma_defined_push(m, old(self).cmds@, from, c, s);
                    if s == t || is_loose(m, known, old(self).cmds@, from, s) {
                        lemma_loose_push(m, known, old(self).cmds@, from, c, s);
                    }
                    if s != t {
                        assert(old(self).known@.contains(s));
                    }
                }
                assert forall|s: usize| #[trigger] defined_since(m, self.cmds@, from, s) && m.op(s) == Op::Ite implies operands_known(
                    m,
                    self.known@,
                    m.args(s)[0],
                ) by {
                    lemma_defined_push(m, old(self).cmds@, from, c, s);
                    assert(defined_since(m, old(self).cmds@, from, s));
                    lemma_operands_grow(m, old(self).known@, self.known@, m.args(s)[0]);
                }
                assert forall|s: usize, i: int|
                    #[trigger] defined_since(m, self.cmds@, from, s) && 0 <= i < bv_parts(m, s).len() implies self.known@.contains(
                    #[trigger] bv_parts(m, s)[i],
                ) by {
                    lemma_defined_push(m, old(self).cmds@, from, c, s);
                    if defined_since(m, old(self).cmds@, from, s) {
                        assert(old(self).known@.contains(bv_parts(m, s)[i]));
                    }
                }
            }
        }
    }

    /// Gives bits to a term and to all its parts, the parts first, without recursion over the depth
    /// of the term; fails where a part is no bit vector or its operator is not known.
    #[verifier::spinoff_prover]
    #[verifier::rlimit(40)]
    pub fn encode_bv_term_recursive(&mut self, m: &TermManager, root: TermId) -> (r: bool)
        requires
            old(self).wf(),
            m.wf(),
        ensures
            final(self).wf(),
            keeps_given(old(self).given@, final(self).given@),
            sound(m, old(self).known@, old(self).cmds@.len() as int, final(self)),
            keeps(old(self).cmds@, final(self).cmds@),
            encodable(m, old(self).known@, root) ==> r,
            r ==> final(self).known@.contains(root),
            r ==> old(self).known@.contains(root) || defined_since(m, final(self).cmds@, old(self).cmds@.len() as int, root),
            !r ==> (final(self).known@.contains(root) ==> old(self).known@.contains(root)),
            only_loose(m, old(self).known@, old(self).cmds@.len() as int, final(self), |t: TermId| is_operand(m, root, t)),
            r ==> encodable(m, old(self).known@.union(operands(m, root)), root),
            old(self).known@.contains(root) ==> r && *final(self) == *old(self),
            forall|t: usize| #[trigger] final(self).known@.contains(t) ==> old(self).known@.contains(t) || (t <= root && occurs(m, root, t)),
        decreases root, 1nat,
    {
        let ghost known = self.known@;
        let ghost from = self.cmds@.len() as int;
        let ghost loose = |t: TermId| is_operand(m, root, t);
        proof {
            lemma_sound_self(m, self);
        }
        if set_contains(&self.known, root) {
            return true;
        }
        let mut stack: Vec<(usize, bool)> = Vec::new();
        stack.push((root, false));
        proof {
            assert(stack@[0].0 == root);
        }
        while stack.len() > 0
            invariant
                m.wf(),
                known == old(self).known@,
                from == old(self).cmds@.len(),
                sound(m, known, from, self),
                keeps(old(self).cmds@, self.cmds@),
                self.wf(),
                keeps_given(old(self).given@, self.given@),
                stack_ok(m, stack@, self.known@, root),
                self.known@.contains(root) || above(stack@, -1, root),
                !known.contains(root),
                loose == |t: TermId| is_operand(m, root, t),
                only_loose(m, known, from, self, loose),
                forall|p: int| 0 <= p < stack@.len() ==> met(m, root, (#[trigger] stack@[p]).0),
                stack@.len() > 0 ==> stack@[0].0 == root,
                m.has(root) || stack@.len() <= 1,
                forall|p: int| 0 < p < stack@.len() ==> (#[trigger] stack@[p]).0 < root,
                self.known@.contains(root) ==> known.contains(root) || (stack@.len() == 0 && defined_since(m, self.cmds@, from, root)),
                forall|t: usize| #[trigger] self.known@.contains(t) ==> known.contains(t) || (t <= root && occurs(m, root, t)),
                encodable(m, known, root) ==> forall|p: int| 0 <= p < stack@.len() ==> encodable(m, known, (#[trigger] stack@[p]).0),
            decreases load(stack@),
        {
            let ghost whole = stack@;
            let ghost top = whole.last();
            let ghost rest = whole.drop_last();
            let (t, done) = match stack.pop() {
                Some(e) => e,
                None => {
                    return false;
                },
            };
            assert(whole =~= rest.push(top));
            assert(top == (t, done));
            proof {
                lemma_load_push(rest, top);
                lemma_heft(t as nat, (t + 1) as nat);
                assert(whole[whole.len() - 1].0 <= root && waits(m, whole, self.known@, whole.len() - 1));
                assert(encodable(m, known, root) ==> encodable(m, known, whole[whole.len() - 1].0));
                assert(encodable(m, known, root) ==> forall|p: int| 0 <= p < rest.len() ==> encodable(m, known, (#[trigger] rest[p]).0)) by {
                    if encodable(m, known, root) {
                        assert forall|p: int| 0 <= p < rest.len() implies encodable(m, known, (#[trigger] rest[p]).0) by {
                            assert(rest[p] == whole[p]);
                        }
                    }
                }
            }
            proof {
                if rest.len() > 0 {
                    assert(rest[0] == whole[0]);
                    assert(whole[rest.len() as int].0 < root);
                }
                assert forall|p: int| 0 < p < rest.len() implies (#[trigger] rest[p]).0 < root by {
                    assert(rest[p] == whole[p]);
                }
                assert forall|p: int| 0 <= p < rest.len() implies met(m, root, (#[trigger] rest[p]).0) by {
                    assert(rest[p] == whole[p]);
                }
                assert(met(m, root, whole[rest.len() as int].0));
            }
            if set_contains(&self.known, t) {
                proof {
                    lemma_stack_pop(m, whole, self.known@, self.known@, root);
                    lemma_root_pop(whole, self.known@, root);
                }
                continue ;
            }
            proof {
                if encodable(m, known, root) {
                    assert(encodable(m, known, t));
                    assert(!known.contains(t));
                }
            }
            let width = match bv_width_of(m, t) {
                Some(w) => w,
                None => {
                    return false;
                },
            };
            assert(m.terms@[t as int].fits(t as int));
            if !done {
                let shaped = match m.terms[t].op {
                    Op::Bv(_) | Op::BvNot | Op::BvExtract { high: _, low: _ } | Op::Ite | Op::Var(_) | Op::BitVecConst { width: _ } => true,
                    _ => false,
                };
                if !shaped {
                    return false;
                }
                stack.push((t, true));
                let ghost parts = bv_parts(m, t);
                let first: usize = match m.terms[t].op {
                    Op::Ite => 1,
                    _ => 0,
                };
                let n: usize = match m.terms[t].op {
                    Op::Var(_) | Op::BitVecConst { width: _ } => 0,
                    Op::Ite => 2,
                    _ => m.terms[t].args.len(),
                };
                let mut k: usize = 0;
                assert(n == parts.len() && n <= 2);
                assert(forall|i: int| 0 <= i < n ==> #[trigger] parts[i] == m.args(t)[first + i]);
                assert forall|i: int| 0 <= i < n implies #[trigger] parts[i] < t by {
                    assert(m.args(t)[first + i] < t);
                }
                while k < n
                    invariant
                        k <= n,
                        m.has(t),
                        n == parts.len(),
                        first <= 1,
                        n <= 2,
                        first + n <= m.args(t).len(),
                        forall|i: int| 0 <= i < n ==> #[trigger] parts[i] == m.args(t)[first + i],
                        stack@ == visit(rest, t, parts, self.known@, k as int),
                    decreases n - k,
                {
                    let a: usize = m.terms[t].args[first + k];
                    assert(parts[k as int] == a);
                    if !set_contains(&self.known, a) {
                        stack.push((a, false));
                    }
                    k = k + 1;
                }
                proof {
                    lemma_visit_below(rest, t, parts, self.known@, n as int);
                    assert forall|p: int| 0 < p < stack@.len() implies (#[trigger] stack@[p]).0 < root by {
                        if p < rest.len() {
                            assert(stack@[p] == whole[p]);
                        } else if rest.len() > 0 {
                            assert(whole[rest.len() as int].0 < root);
                        }
                    }
                    assert(stack@[0].0 == root) by {
                        if rest.len() > 0 {
                            assert(stack@[0] == whole[0]);
                        }
                    }
                    lemma_visit_met(m, rest, t, self.known@, root, n as int);
                    lemma_visit_all(m, rest, t, self.known@, root);
                    lemma_root_visit(rest, t, parts, self.known@, root, n as int);
                    if encodable(m, known, root) {
                        lemma_visit_encodable(m, rest, t, known, self.known@, n as int);
                    }
                }
            } else {
                assert(waits(m, whole, self.known@, whole.len() - 1));
                assert forall|i: int| 0 <= i < bv_parts(m, t).len() implies self.known@.contains(#[trigger] bv_parts(m, t)[i]) by {
                    assert(!above(whole, whole.len() - 1, bv_parts(m, t)[i]));
                }
                let ghost mid = *self;
                let is_ite = match m.terms[t].op {
                    Op::Ite => true,
                    _ => false,
                };
                if is_ite {
                    let c: usize = m.terms[t].args[0];
                    assert(m.args(t)[0] < t);
                    let ok = self.bit_blast_cond_operands(m, c);
                    proof {
                        let inner = |x: TermId| in_cond(m, c, x);
                        assert forall|x: TermId| #[trigger] inner(x) implies loose(x) by {
                            lemma_cond_operands(m, root, t, x);
                        }
                        lemma_only_loose(m, known, from, &mid, self, loose, inner, loose);
                        assert forall|x: usize| #[trigger] self.known@.contains(x) implies known.contains(x) || (x <= root && occurs(m, root, x)) by {
                            if !mid.known@.contains(x) {
                                lemma_occurs_through(m, t, 0, x);
                                lemma_met_occurs(m, root, t, x);
                            }
                        }
                        lemma_sound_steps(m, known, from, &mid, self);
                        lemma_keeps_steps(old(self).cmds@, mid.cmds@, self.cmds@);
                        lemma_keeps_given(old(self).given@, mid.given@, self.given@);
                        if encodable(m, known, root) {
                            lemma_cond_grows(m, known, mid.known@, c);
                        }
                    }
                    if !ok {
                        return false;
                    }
                }
                let ghost mid2 = *self;
                let ok = self.emit(m, t, width);
                proof {
                    let none = |x: TermId| false;
                    lemma_met_occurs(m, root, t, t);
                    assert(only_loose(m, mid2.known@, mid2.cmds@.len() as int, self, none));
                    lemma_only_loose(m, known, from, &mid2, self, loose, none, loose);
                    lemma_sound_steps(m, known, from, &mid2, self);
                    lemma_keeps_steps(old(self).cmds@, mid2.cmds@, self.cmds@);
                    lemma_keeps_given(old(self).given@, mid2.given@, self.given@);
                }
                if !ok {
                    return false;
                }
                proof {
                    if t == root {
                        assert(rest.len() == 0);
                        let i = choose|i: int| mid2.cmds@.len() <= i < self.cmds@.len() && defines_term(m, #[trigger] self.cmds@[i], t);
                        assert(defined_since(m, self.cmds@, from, root));
                    }
                    lemma_stack_pop(m, whole, mid.known@, self.known@, root);
                    lemma_root_pop(whole, self.known@, root);
                }
            }
        }
        proof {
            assert(!above(stack@, -1, root));
            lemma_known_is_encodable(m, known, from, self, root, root);
        }
        true
    }
}

/// What occurs in an argument of a term that is no binder occurs in the term.
proof fn lemma_occurs_through(m: &TermManager, t: TermId, i: int, x: TermId)
    requires
        m.wf(),
        m.has(t),
        !(m.op(t) is Forall) && !(m.op(t) is Exists),
        0 <= i < m.args(t).len(),
        occurs(m, m.args(t)[i], x),
    ensures
        occurs(m, t, x),
        x < t,
{
    assert(m.terms@[t as int].fits(t as int));
    assert(m.args(t)[i] < t);
    lemma_occurs_below(m, m.args(t)[i], x);
}

/// What occurs in a compared term occurs in the condition.
proof fn lemma_compared_occurs(m: &TermManager, c: TermId, o: TermId, x: TermId)
    requires
        m.wf(),
        m.has(c),
        compared(m, c, o),
        occurs(m, o, x),
    ensures
        occurs(m, c, x),
        m.has(o),
    decreases c,
{
    assert(m.terms@[c as int].fits(c as int));
    match m.op(c) {
        Op::Eq | Op::BvCompare(_) => {
            let i = choose|i: int| 0 <= i < m.args(c).len() && m.args(c)[i] == o;
            lemma_occurs_through(m, c, i, x);
        },
        _ => {
            let i = choose|i: int| 0 <= i < m.args(c).len() && #[trigger] m.args(c)[i] < c && compared(m, m.args(c)[i], o);
            lemma_compared_occurs(m, m.args(c)[i], o, x);
            lemma_occurs_through(m, c, i, x);
        },
    }
}

/// What occurs in a term on the way down from the root occurs in the root.
proof fn lemma_met_occurs(m: &TermManager, root: TermId, t: TermId, x: TermId)
    requires
        m.wf(),
        m.has(root),
        met(m, root, t),
        occurs(m, t, x),
    ensures
        occurs(m, root, x),
        x <= root,
    decreases root,
{
    if root != t {
        assert(m.terms@[root as int].fits(root as int));
        if exists|i: int| 0 <= i < bv_parts(m, root).len() && #[trigger] bv_parts(m, root)[i] < root && met(m, bv_parts(m, root)[i], t) {
            let i = choose|i: int|
                0 <= i < bv_parts(m, root).len() && #[trigger] bv_parts(m, root)[i] < root && met(m, bv_parts(m, root)[i], t);
            let k = if m.op(root) == Op::Ite {
                i + 1
            } else {
                i
            };
            assert(m.args(root)[k] == bv_parts(m, root)[i]);
            lemma_met_occurs(m, bv_parts(m, root)[i], t, x);
            lemma_occurs_through(m, root, k, x);
        } else {
            let c = m.args(root)[0];
            let o = choose|o: TermId| o < root && #[trigger] compared(m, c, o) && met(m, o, t);
            lemma_compared_occurs(m, c, o, o);
            lemma_met_occurs(m, o, t, x);
            lemma_compared_occurs(m, c, o, x);
            lemma_occurs_through(m, root, 0, x);
        }
    } else {
        lemma_occurs_below(m, t, x);
    }
}

/// The root has bits or is on the stack after a term with bits was taken off.
proof fn lemma_root_pop(stack: Seq<(usize, bool)>, known: Set<usize>, root: TermId)
    requires
        stack.len() > 0,
        known.contains(stack.last().0),
        known.contains(root) || above(stack, -1, root),
    ensures
        known.contains(root) || above(stack.drop_last(), -1, root),
{
    if !known.contains(root) {
        let q = choose|q: int| -1 < q < stack.len() && (#[trigger] stack[q]).0 == root;
        assert(stack.drop_last()[q].0 == root);
    }
}

/// A visit leaves the stack as it was, with the visited term behind it and then smaller terms.
proof fn lemma_visit_below(rest: Seq<(usize, bool)>, t: TermId, parts: Seq<TermId>, known: Set<usize>, k: int)
    requires
        0 <= k <= parts.len(),
        forall|i: int| 0 <= i < parts.len() ==> #[trigger] parts[i] < t,
    ensures
        visit(rest, t, parts, known, k).len() > rest.len(),
        forall|p: int| 0 <= p < rest.len() ==> #[trigger] visit(rest, t, parts, known, k)[p] == rest[p],
        visit(rest, t, parts, known, k)[rest.len() as int].0 == t,
        forall|p: int| rest.len() < p < visit(rest, t, parts, known, k).len() ==> (#[trigger] visit(rest, t, parts, known, k)[p]).0 < t,
    decreases k,
{
    if k > 0 {
        lemma_visit_below(rest, t, parts, known, k - 1);
        assert(parts[k - 1] < t);
    }
}

/// What a visit puts on the stack is met on the way down.
proof fn lemma_visit_met(m: &TermManager, rest: Seq<(usize, bool)>, t: TermId, known: Set<usize>, root: TermId, k: int)
    requires
        met(m, root, t),
        0 <= k <= bv_parts(m, t).len(),
        forall|i: int| 0 <= i < bv_parts(m, t).len() ==> #[trigger] bv_parts(m, t)[i] < t,
        forall|p: int| 0 <= p < rest.len() ==> met(m, root, (#[trigger] rest[p]).0),
    ensures
        forall|p: int|
            0 <= p < visit(rest, t, bv_parts(m, t), known, k).len() ==> met(
                m,
                root,
                (#[trigger] visit(rest, t, bv_parts(m, t), known, k)[p]).0,
            ),
    decreases k,
{
    let s = visit(rest, t, bv_parts(m, t), known, k);
    if k > 0 {
        lemma_visit_met(m, rest, t, known, root, k - 1);
        lemma_met_part(m, root, t, k - 1);
        let before = visit(rest, t, bv_parts(m, t), known, k - 1);
        assert forall|p: int| 0 <= p < s.len() implies met(m, root, (#[trigger] s[p]).0) by {
            if p < before.len() {
                assert(s[p] == before[p]);
            }
        }
    } else {
        assert forall|p: int| 0 <= p < s.len() implies met(m, root, (#[trigger] s[p]).0) by {
            if p < rest.len() {
                assert(s[p] == rest[p]);
            }
        }
    }
}

/// What stands in a condition within a condition stands in it.
proof fn lemma_in_cond_above(m: &TermManager, c: TermId, i: int, t: TermId)
    requires
        m.has(c),
        m.op(c) == Op::Not || m.op(c) == Op::And || m.op(c) == Op::Or,
        0 <= i < m.args(c).len(),
        m.args(c)[i] < c,
        in_cond(m, m.args(c)[i], t),
    ensures
        in_cond(m, c, t),
{
    let a = m.args(c)[i];
    if compared(m, a, t) {
        assert(m.args(c)[i] < c && compared(m, m.args(c)[i], t));
        assert(compared(m, c, t));
    } else {
        let o = choose|o: TermId| #[trigger] compared(m, a, o) && is_operand(m, o, t);
        assert(m.args(c)[i] < c && compared(m, m.args(c)[i], o));
        assert(compared(m, c, o));
    }
}

/// The root has bits or is on the stack after a visit.
proof fn lemma_root_visit(rest: Seq<(usize, bool)>, t: TermId, parts: Seq<TermId>, known: Set<usize>, root: TermId, k: int)
    requires
        known.contains(root) || above(rest.push((t, false)), -1, root),
        0 <= k,
    ensures
        known.contains(root) || above(visit(rest, t, parts, known, k), -1, root),
    decreases k,
{
    let s = visit(rest, t, parts, known, k);
    if k == 0 {
        if !known.contains(root) {
            let whole = rest.push((t, false));
            let q = choose|q: int| -1 < q < whole.len() && (#[trigger] whole[q]).0 == root;
            assert(s[q].0 == root);
        }
    } else {
        lemma_root_visit(rest, t, parts, known, root, k - 1);
        let before = visit(rest, t, parts, known, k - 1);
        if !known.contains(root) {
            let q = choose|q: int| -1 < q < before.len() && (#[trigger] before[q]).0 == root;
            assert(s[q].0 == root);
        }
    }
}

/// What a visit puts on the stack can be defined if the visited term can.
proof fn lemma_visit_encodable(m: &TermManager, rest: Seq<(usize, bool)>, t: TermId, known: Set<usize>, now: Set<usize>, k: int)
    requires
        encodable(m, known, t),
        !known.contains(t),
        0 <= k <= bv_parts(m, t).len(),
        forall|p: int| 0 <= p < rest.len() ==> encodable(m, known, (#[trigger] rest[p]).0),
    ensures
        forall|p: int|
            0 <= p < visit(rest, t, bv_parts(m, t), now, k).len() ==> encodable(
                m,
                known,
                (#[trigger] visit(rest, t, bv_parts(m, t), now, k)[p]).0,
            ),
    decreases k,
{
    let s = visit(rest, t, bv_parts(m, t), now, k);
    if k > 0 {
        lemma_visit_encodable(m, rest, t, known, now, k - 1);
        assert(encodable(m, known, bv_parts(m, t)[k - 1]));
        let before = visit(rest, t, bv_parts(m, t), now, k - 1);
        assert forall|p: int| 0 <= p < s.len() implies encodable(m, known, (#[trigger] s[p]).0) by {
            if p < before.len() {
                assert(s[p] == before[p]);
            }
        }
    } else {
        assert forall|p: int| 0 <= p < s.len() implies encodable(m, known, (#[trigger] s[p]).0) by {
            if p < rest.len() {
                assert(s[p] == rest[p]);
            }
        }
    }
}

/// `t` is `r`, or a part of it that is reached without passing a term that had bits.
pub open spec fn below(m: &TermManager, known: Set<usize>, r: TermId, t: TermId) -> bool
    decreases r,
{
    t == r || (!known.contains(r) && exists|i: int|
        0 <= i < bv_parts(m, r).len() && #[trigger] bv_parts(m, r)[i] < r && below(m, known, bv_parts(m, r)[i], t))
}

/// Every part of a term that can be given bits is defined: after its encoding, each term that is
/// reached from it had bits before, or an instruction says what it is.
pub proof fn law_encoding_defines_all_parts(m: &TermManager, known: Set<usize>, from: int, p: &BvPlan, r: TermId, t: TermId)
    requires
        m.wf(),
        encodable(m, known, r),
        sound(m, known, from, p),
        p.known@.contains(r),
        below(m, known, r, t),
    ensures
        known.contains(t) || defined_since(m, p.cmds@, from, t),
    decreases r,
{
    if t != r {
        let i = choose|i: int|
            0 <= i < bv_parts(m, r).len() && #[trigger] bv_parts(m, r)[i] < r && below(m, known, bv_parts(m, r)[i], t);
        assert(defined_since(m, p.cmds@, from, r));
        assert(p.known@.contains(bv_parts(m, r)[i]));
        assert(encodable(m, known, bv_parts(m, r)[i]));
        law_encoding_defines_all_parts(m, known, from, p, bv_parts(m, r)[i], t);
    }
}

/// Parts are defined first: where an instruction says what a term is, each of its parts had bits
/// before, was said earlier what it is, or was given bits earlier because it cannot be defined.
pub proof fn law_parts_are_defined_first(m: &TermManager, known: Set<usize>, from: int, p: &BvPlan, i: int, t: TermId, k: int)
    requires
        sound(m, known, from, p),
        from <= i < p.cmds@.len(),
        !(p.cmds@[i] is New) && !(p.cmds@[i] is Const),
        defines_term(m, p.cmds@[i], t),
        0 <= k < bv_parts(m, t).len(),
    ensures
        known.contains(bv_parts(m, t)[k]) || exists|j: int|
            from <= j < i && settles(m, known, #[trigger] p.cmds@[j], bv_parts(m, t)[k]),
{
    let at = settled(m, known, p.cmds@, from, i);
    assert(parts_settled(m, at, p.cmds@[i]));
    assert(at.contains(bv_parts(m, t)[k]));
}

/// The instructions from position `from` to position `to` are definitions.
pub open spec fn definitions(m: &TermManager, cmds: Seq<BvCmd>, from: int, to: int) -> bool {
    forall|i: int| from <= i < to ==> is_definition(m, #[trigger] cmds[i])
}

/// What has bits had them, was defined since position `from`, or has bits of its own because it
/// cannot be defined; and the parts of what was defined have bits, and so have the terms compared
/// in the conditions.
pub open spec fn grounded(m: &TermManager, known: Set<usize>, from: int, p: &BvPlan) -> bool {
    &&& known.subset_of(p.known@)
    &&& forall|t: usize| #[trigger]
        p.known@.contains(t) ==> known.contains(t) || defined_since(m, p.cmds@, from, t) || is_loose(m, known, p.cmds@, from, t)
    &&& forall|t: usize, i: int|
        #[trigger] defined_since(m, p.cmds@, from, t) && 0 <= i < bv_parts(m, t).len() ==> p.known@.contains(#[trigger] bv_parts(m, t)[i])
    &&& forall|t: usize| #[trigger]
        defined_since(m, p.cmds@, from, t) && m.op(t) == Op::Ite ==> operands_known(m, p.known@, m.args(t)[0])
}

/// The terms that the statement speaks of have bits, those that can be defined; a variable that is
/// only given a value need not.
pub open spec fn sides_given(m: &TermManager, known: Set<usize>, later: Set<usize>, fact: BvCmd) -> bool {
    match fact {
        BvCmd::Equal { a, b } | BvCmd::Differ { a, b } => (encodable(m, known, a) ==> later.contains(a)) && (encodable(m, known, b)
            ==> later.contains(b)),
        BvCmd::Const { term, .. } => is_bv_op(m, term) && encodable(m, known, term) ==> later.contains(term),
        _ => true,
    }
}

/// `later` is this state with definitions and, behind them, one statement.
pub open spec fn states(m: &TermManager, before: &BvPlan, later: &BvPlan, fact: BvCmd) -> bool {
    let from = before.cmds@.len() as int;
    let n = later.cmds@.len() as int;
    &&& n > from
    &&& keeps(before.cmds@, later.cmds@)
    &&& keeps_given(before.given@, later.given@)
    &&& later.cmds@[n - 1] == fact
    &&& definitions(m, later.cmds@, from, n - 1)
    &&& parts_first(m, before.known@, later.cmds@, from, n - 1)
    &&& forall|i: int| from <= i < n - 1 ==> (subject(#[trigger] later.cmds@[i]) matches Some(t) ==> later.known@.contains(t))
    &&& grounded(m, before.known@, from, later)
    &&& sides_given(m, before.known@, later.known@, fact)
}

/// The instruction says nothing of what a term is.
pub open spec fn is_statement(m: &TermManager, c: BvCmd) -> bool {
    match c {
        BvCmd::Equal { .. } | BvCmd::Differ { .. } | BvCmd::Below { .. } => true,
        BvCmd::Const { term, value, width } => !(m.op(term) is BitVecConst),
        _ => false,
    }
}

/// The value and the width of a bit-vector literal.
pub open spec fn word_of(m: &TermManager, t: TermId) -> Option<(u64, u32)> {
    if !m.has(t) {
        None
    } else {
        match m.op(t) {
            Op::BitVecConst { width } => Some((low_digit(m, t), width)),
            _ => None,
        }
    }
}

/// The value and the width of a bit-vector literal.
fn word_literal(m: &TermManager, t: TermId) -> (r: Option<(u64, u32)>)
    ensures
        r == word_of(m, t),
{
    if t >= m.terms.len() {
        return None;
    }
    match m.terms[t].op {
        Op::BitVecConst { width } => {
            let digits = &m.terms[t].digits;
            let low: u64 = if digits.len() > 0 {
                digits[0]
            } else {
                0
            };
            Some((low, width))
        },
        _ => None,
    }
}

/// The term applies an operation of bit-vector arithmetic or logic.
pub open spec fn is_bv_op(m: &TermManager, t: TermId) -> bool {
    m.has(t) && match m.op(t) {
        Op::Bv(op) => match op {
            BvOp::Shl | BvOp::Lshr | BvOp::Ashr | BvOp::Concat => false,
            _ => true,
        },
        Op::BvNot => true,
        _ => false,
    }
}

/// Whether the term applies an operation of bit-vector arithmetic or logic.
fn bv_op(m: &TermManager, t: TermId) -> (r: bool)
    ensures
        r == is_bv_op(m, t),
{
    t < m.terms.len() && match m.terms[t].op {
        Op::Bv(op) => match op {
            BvOp::Shl | BvOp::Lshr | BvOp::Ashr | BvOp::Concat => false,
            _ => true,
        },
        Op::BvNot => true,
        _ => false,
    }
}

/// The term is a variable that the solver was told of.
pub open spec fn is_bv_var(m: &TermManager, vars: Set<usize>, t: TermId) -> bool {
    m.has(t) && m.op(t) is Var && vars.contains(t)
}

/// Whether the term is a variable that the solver was told of.
fn bv_var(m: &TermManager, vars: &FxHashSet<usize>, t: TermId) -> (r: bool)
    ensures
        r == is_bv_var(m, vars@, t),
{
    t < m.terms.len() && match m.terms[t].op {
        Op::Var(_) => set_contains(vars, t),
        _ => false,
    }
}

/// What an equality between bit vectors states: of an operation or a variable against a literal
/// its value, of operations and variables that they are equal, of anything else nothing.
pub open spec fn equality_fact(m: &TermManager, vars: Set<usize>, a: TermId, b: TermId) -> Option<BvCmd> {
    if is_bv_op(m, a) && is_bv_op(m, b) {
        if width_of(m, a) is Some {
            Some(BvCmd::Equal { a, b })
        } else {
            None
        }
    } else if is_bv_op(m, a) {
        match width_of(m, a) {
            Some(width) => match word_of(m, b) {
                Some(w) => Some(BvCmd::Const { term: a, value: w.0, width }),
                None => if is_bv_var(m, vars, b) {
                    Some(BvCmd::Equal { a, b })
                } else {
                    None
                },
            },
            None => None,
        }
    } else if is_bv_op(m, b) {
        match width_of(m, b) {
            Some(width) => match word_of(m, a) {
                Some(w) => Some(BvCmd::Const { term: b, value: w.0, width }),
                None => if is_bv_var(m, vars, a) {
                    Some(BvCmd::Equal { a, b })
                } else {
                    None
                },
            },
            None => None,
        }
    } else if is_bv_var(m, vars, a) && word_of(m, b) is Some {
        let w = word_of(m, b)->0;
        Some(BvCmd::Const { term: a, value: w.0, width: w.1 })
    } else if is_bv_var(m, vars, b) && word_of(m, a) is Some {
        let w = word_of(m, a)->0;
        Some(BvCmd::Const { term: b, value: w.0, width: w.1 })
    } else if is_bv_var(m, vars, a) && is_bv_var(m, vars, b) && width_of(m, a) is Some {
        Some(BvCmd::Equal { a, b })
    } else {
        None
    }
}

/// Definitions before a statement leave the state grounded.
proof fn lemma_states(m: &TermManager, before: &BvPlan, mid: &BvPlan, later: &BvPlan, fact: BvCmd)
    requires
        sound(m, before.known@, before.cmds@.len() as int, mid),
        keeps(before.cmds@, mid.cmds@),
        keeps_given(before.given@, mid.given@),
        is_statement(m, fact),
        sides_given(m, before.known@, mid.known@, fact),
        later.cmds@ == mid.cmds@.push(fact),
        later.known@ == mid.known@,
        later.given@ == mid.given@,
    ensures
        states(m, before, later, fact),
{
    let from = before.cmds@.len() as int;
    assert(later.cmds@.take(from) =~= mid.cmds@.take(from));
    assert forall|t: usize| #[trigger] defined_since(m, later.cmds@, from, t) <==> defined_since(m, mid.cmds@, from, t) by {
        lemma_defined_push(m, mid.cmds@, from, fact, t);
    }
    assert forall|t: usize| #[trigger] later.known@.contains(t) implies before.known@.contains(t) || defined_since(m, later.cmds@, from, t)
        || is_loose(m, before.known@, later.cmds@, from, t) by {
        assert(mid.known@.contains(t));
        if is_loose(m, before.known@, mid.cmds@, from, t) {
            lemma_loose_push(m, before.known@, mid.cmds@, from, fact, t);
        }
    }
    assert forall|i: int| from <= i < later.cmds@.len() - 1 implies is_definition(m, #[trigger] later.cmds@[i]) && parts_settled(
        m,
        settled(m, before.known@, later.cmds@, from, i),
        later.cmds@[i],
    ) && (subject(later.cmds@[i]) matches Some(t) ==> later.known@.contains(t)) by {
        assert(later.cmds@[i] == mid.cmds@[i]);
        lemma_settled_same(m, before.known@, mid.cmds@, later.cmds@, from, i);
    }
    assert forall|t: usize, i: int|
        #[trigger] defined_since(m, later.cmds@, from, t) && 0 <= i < bv_parts(m, t).len() implies later.known@.contains(
        #[trigger] bv_parts(m, t)[i],
    ) by {
        assert(defined_since(m, mid.cmds@, from, t));
    }
}

impl BvPlan {
    /// States something of terms.
    fn state(&mut self, m: &TermManager, fact: BvCmd)
        requires
            old(self).wf(),
        ensures
            final(self).wf(),
            final(self).cmds@ == old(self).cmds@.push(fact),
            final(self).known@ == old(self).known@,
            final(self).given@ == old(self).given@,
    {
        self.cmds.push(fact);
    }

    /// Gives bits to a variable.
    fn give_var(&mut self, m: &TermManager, t: TermId, width: u32)
        requires
            old(self).wf(),
            m.has(t),
            m.op(t) is Var,
            width_of(m, t) == Some(width),
        ensures
            final(self).wf(),
            sound(m, old(self).known@, old(self).cmds@.len() as int, final(self)),
            keeps(old(self).cmds@, final(self).cmds@),
            keeps_given(old(self).given@, final(self).given@),
            final(self).known@ == old(self).known@.insert(t),
    {
        self.define(m, t, BvCmd::New { term: t, width });
    }

    /// Gives bits to two terms of one width: those of their definitions, or bits of their own.
    pub fn bit_blast_bv_pair(&mut self, m: &TermManager, lhs: TermId, rhs: TermId) -> (r: bool)
        requires
            m.wf(),
            old(self).wf(),
        ensures
            final(self).wf(),
            r == (width_of(m, lhs) is Some && width_of(m, lhs) == width_of(m, rhs)),
            !r ==> *final(self) == *old(self),
            sound(m, old(self).known@, old(self).cmds@.len() as int, final(self)),
            keeps(old(self).cmds@, final(self).cmds@),
            keeps_given(old(self).given@, final(self).given@),
            r ==> final(self).known@.contains(lhs) && final(self).known@.contains(rhs),
            stays_under(m, old(self).known@, final(self).known@, lhs, rhs),
    {
        proof {
            lemma_sound_self(m, self);
        }
        let same = match (bv_width_of(m, lhs), bv_width_of(m, rhs)) {
            (Some(a), Some(b)) => a == b,
            _ => false,
        };
        if !same {
            return false;
        }
        let _ = self.blast_operand(m, lhs);
        let ghost mid = *self;
        let _ = self.blast_operand(m, rhs);
        proof {
            assert(mid.known@.contains(lhs));
            lemma_sound_steps(m, old(self).known@, old(self).cmds@.len() as int, &mid, self);
            lemma_keeps_steps(old(self).cmds@, mid.cmds@, self.cmds@);
            lemma_keeps_given(old(self).given@, mid.given@, self.given@);
        }
        true
    }

    /// States that two terms of one width are equal, or that they differ.
    pub fn assert_pair(&mut self, m: &TermManager, lhs: TermId, rhs: TermId, equal: bool) -> (r: bool)
        requires
            m.wf(),
            old(self).wf(),
        ensures
            final(self).wf(),
            r == (width_of(m, lhs) is Some && width_of(m, lhs) == width_of(m, rhs)),
            !r ==> *final(self) == *old(self),
            r ==> states(
                m,
                old(self),
                final(self),
                if equal {
                    BvCmd::Equal { a: lhs, b: rhs }
                } else {
                    BvCmd::Differ { a: lhs, b: rhs }
                },
            ),
            stays_under(m, old(self).known@, final(self).known@, lhs, rhs),
    {
        if !self.bit_blast_bv_pair(m, lhs, rhs) {
            return false;
        }
        let fact = if equal {
            BvCmd::Equal { a: lhs, b: rhs }
        } else {
            BvCmd::Differ { a: lhs, b: rhs }
        };
        let ghost mid = *self;
        self.state(m, fact);
        proof {
            lemma_states(m, old(self), &mid, self, fact);
        }
        true
    }

    /// States what an equality says of bit vectors.
    #[verifier::spinoff_prover]
    #[verifier::rlimit(60)]
    pub fn assert_equality(&mut self, m: &TermManager, vars: &FxHashSet<usize>, lhs: TermId, rhs: TermId) -> (r: bool)
        requires
            m.wf(),
            old(self).wf(),
        ensures
            final(self).wf(),
            r == equality_fact(m, vars@, lhs, rhs) is Some,
            equality_fact(m, vars@, lhs, rhs) matches Some(fact) ==> states(m, old(self), final(self), fact),
            !r ==> keeps(old(self).cmds@, final(self).cmds@) && keeps_given(old(self).given@, final(self).given@) && sound(
                m,
                old(self).known@,
                old(self).cmds@.len() as int,
                final(self),
            ),
            stays_under(m, old(self).known@, final(self).known@, lhs, rhs),
    {
        let ghost known = self.known@;
        let ghost from = self.cmds@.len() as int;
        proof {
            lemma_sound_self(m, self);
        }
        let op_l = bv_op(m, lhs);
        let op_r = bv_op(m, rhs);
        let fact = if op_l && op_r {
            match bv_width_of(m, lhs) {
                Some(_) => {
                    let _ = self.encode_bv_term_recursive(m, lhs);
                    let ghost mid = *self;
                    let _ = self.encode_bv_term_recursive(m, rhs);
                    proof {
                        if encodable(m, known, rhs) {
                            lemma_encodable_grows(m, known, mid.known@, rhs);
                        }
                        lemma_sound_steps(m, known, from, &mid, self);
                        lemma_keeps_steps(old(self).cmds@, mid.cmds@, self.cmds@);
                        lemma_keeps_given(old(self).given@, mid.given@, self.given@);
                    }
                    BvCmd::Equal { a: lhs, b: rhs }
                },
                None => {
                    return false;
                },
            }
        } else if op_l || op_r {
            let (oper, other) = if op_l {
                (lhs, rhs)
            } else {
                (rhs, lhs)
            };
            match bv_width_of(m, oper) {
                Some(width) => {
                    let _ = self.encode_bv_term_recursive(m, oper);
                    let ghost mid = *self;
                    match word_literal(m, other) {
                        Some((value, _)) => BvCmd::Const { term: oper, value, width },
                        None => {
                            if !bv_var(m, vars, other) {
                                return false;
                            }
                            if let Some(w) = bv_width_of(m, other) {
                                self.give_var(m, other, w);
                                proof {
                                    lemma_sound_steps(m, known, from, &mid, self);
                                    lemma_keeps_steps(old(self).cmds@, mid.cmds@, self.cmds@);
                                    lemma_keeps_given(old(self).given@, mid.given@, self.given@);
                                }
                            }
                            BvCmd::Equal { a: lhs, b: rhs }
                        },
                    }
                },
                None => {
                    return false;
                },
            }
        } else {
            let var_l = bv_var(m, vars, lhs);
            let var_r = bv_var(m, vars, rhs);
            match (var_l, word_literal(m, rhs), var_r, word_literal(m, lhs)) {
                (true, Some((value, width)), _, _) => BvCmd::Const { term: lhs, value, width },
                (_, _, true, Some((value, width))) => BvCmd::Const { term: rhs, value, width },
                (true, None, true, _) => {
                    match bv_width_of(m, lhs) {
                        Some(width) => {
                            self.give_var(m, lhs, width);
                            let ghost mid = *self;
                            if let Some(w) = bv_width_of(m, rhs) {
                                self.give_var(m, rhs, w);
                                proof {
                                    lemma_sound_steps(m, known, from, &mid, self);
                                    lemma_keeps_steps(old(self).cmds@, mid.cmds@, self.cmds@);
                                    lemma_keeps_given(old(self).given@, mid.given@, self.given@);
                                }
                            }
                            BvCmd::Equal { a: lhs, b: rhs }
                        },
                        None => {
                            return false;
                        },
                    }
                },
                _ => {
                    return false;
                },
            }
        };
        let ghost mid = *self;
        self.state(m, fact);
        proof {
            lemma_states(m, old(self), &mid, self, fact);
        }
        true
    }

    /// Gives bits to one side of a comparison: those of a literal, or bits of its own.
    fn give_side(&mut self, m: &TermManager, t: TermId, width: u32)
        requires
            m.wf(),
            old(self).wf(),
        ensures
            final(self).wf(),
            final(self).known@ == old(self).known@.insert(t),
            final(self).cmds@ == old(self).cmds@.push(side_cmd(m, t, width)),
            keeps_given(old(self).given@, final(self).given@),
    {
        match word_literal(m, t) {
            Some((value, w)) => {
                self.cmds.push(BvCmd::Const { term: t, value, width: w });
            },
            None => {
                self.cmds.push(BvCmd::New { term: t, width });
            },
        }
        self.note(t);
    }

    /// States that one term is below another, or equal to it unless the relation is strict, or
    /// nothing but that the terms have bits.
    pub fn assert_below(&mut self, m: &TermManager, lhs: TermId, rhs: TermId, width: u32, fact: Option<BvCmd>)
        requires
            m.wf(),
            old(self).wf(),
        ensures
            final(self).wf(),
            keeps_given(old(self).given@, final(self).given@),
            final(self).known@ == old(self).known@.insert(lhs).insert(rhs),
            final(self).cmds@ == match fact {
                Some(c) => old(self).cmds@.push(side_cmd(m, lhs, width)).push(side_cmd(m, rhs, width)).push(c),
                None => old(self).cmds@.push(side_cmd(m, lhs, width)).push(side_cmd(m, rhs, width)),
            },
    {
        self.give_side(m, lhs, width);
        let ghost mid = self.given@;
        self.give_side(m, rhs, width);
        proof {
            lemma_keeps_given(old(self).given@, mid, self.given@);
        }
        if let Some(c) = fact {
            self.cmds.push(c);
        }
    }
}

/// Only what occurs in one of two terms has bits that had none.
pub open spec fn stays_under(m: &TermManager, before: Set<usize>, after: Set<usize>, a: TermId, b: TermId) -> bool {
    forall|t: usize| #[trigger] after.contains(t) ==> before.contains(t) || occurs(m, a, t) || occurs(m, b, t)
}

/// The instruction that gives bits to one side of a comparison.
pub open spec fn side_cmd(m: &TermManager, t: TermId, width: u32) -> BvCmd {
    match word_of(m, t) {
        Some(w) => BvCmd::Const { term: t, value: w.0, width: w.1 },
        None => BvCmd::New { term: t, width },
    }
}

/// A state keeps its own instructions.
pub proof fn lemma_keeps_self(p: &BvPlan)
    ensures
        keeps(p.cmds@, p.cmds@),
        keeps_given(p.given@, p.given@),
{
    assert(p.cmds@.take(p.cmds@.len() as int) =~= p.cmds@);
    assert(p.given@.take(p.given@.len() as int) =~= p.given@);
}

/// Two or three more instructions keep those that were there.
pub proof fn lemma_keeps_pushes(a: Seq<BvCmd>, b: Seq<BvCmd>)
    requires
        exists|x: BvCmd, y: BvCmd| b == #[trigger] a.push(x).push(y) || exists|z: BvCmd| b == #[trigger] a.push(x).push(y).push(z),
    ensures
        keeps(a, b),
{
    assert(b.take(a.len() as int) =~= a);
}

} // verus!
