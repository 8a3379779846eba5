//! What the instructions to the solver for bit vectors mean: they hold exactly of the values that
//! the operators of the terms give.
use crate::bits::has_log;
use crate::bits::two_to;
use crate::blast::defined_since;
use crate::blast::defines_term;
use crate::blast::encodable;
use crate::blast::fits_width;
use crate::blast::grounded;
use crate::blast::is_definition;
use crate::blast::is_loose;
use crate::blast::keeps_width;
use crate::blast::side_cmd;
use crate::blast::sound;
use crate::blast::states;
use crate::blast::width_of;
use crate::blast::BvCmd;
use crate::blast::BvPlan;
use crate::cnf::Var;
use crate::encoder::constraint_of;
use crate::encoder::Constraint;
use crate::euf::short_words;
use crate::numeral::digits_value;
use crate::semantics::equal_under;
use crate::semantics::is_bool;
use crate::semantics::truth;
use crate::semantics::Reading;
use crate::term::BvOp;
use crate::term::BvRel;
use crate::term::Op;
use crate::term::TermId;
use crate::term::TermManager;
use crate::theory::term_of_var;
use crate::theory::Plan;
use crate::theory::TheoryManager;
use vstd::prelude::*;

verus! {

/// Numbers for terms; a bit vector is the number that its bits are in binary.
pub type Words = spec_fn(TermId) -> int;

/// The number that is left of a number in `w` bits.
pub open spec fn wrap(x: int, w: nat) -> int {
    x % two_to(w)
}

/// The number that `w` bits are in two's complement.
pub open spec fn as_signed(x: int, w: nat) -> int {
    if 2 * x < two_to(w) {
        x
    } else {
        x - two_to(w)
    }
}

/// One bit of a number.
pub open spec fn bit(x: int, i: nat) -> bool {
    (x / two_to(i)) % 2 == 1
}

/// The number that the first `w` of the given bits are.
pub open spec fn from_bits(f: spec_fn(nat) -> bool, w: nat) -> int
    decreases w,
{
    if w == 0 {
        0
    } else {
        from_bits(f, (w - 1) as nat) + if f((w - 1) as nat) {
            two_to((w - 1) as nat)
        } else {
            0
        }
    }
}

/// The magnitude of a number.
pub open spec fn size_of_number(x: int) -> int {
    if x < 0 {
        -x
    } else {
        x
    }
}

/// The quotient of two numbers, rounded towards zero.
pub open spec fn quotient(x: int, y: int) -> int {
    let q = size_of_number(x) / size_of_number(y);
    if (x < 0) == (y < 0) {
        q
    } else {
        -q
    }
}

/// What an operation gives: on `w` bits, but that a concatenation puts its first operand before
/// the `low` bits of its second.
pub open spec fn bv_apply(op: BvOp, w: nat, low: nat, x: int, y: int) -> int {
    let a = as_signed(x, w);
    let b = as_signed(y, w);
    match op {
        BvOp::Add => wrap(x + y, w),
        BvOp::Sub => wrap(x - y, w),
        BvOp::Mul => wrap(x * y, w),
        BvOp::And => from_bits(|i: nat| bit(x, i) && bit(y, i), w),
        BvOp::Or => from_bits(|i: nat| bit(x, i) || bit(y, i), w),
        BvOp::Xor => from_bits(|i: nat| bit(x, i) != bit(y, i), w),
        BvOp::Shl => wrap(x * two_to(y as nat), w),
        BvOp::Lshr => x / two_to(y as nat),
        BvOp::Ashr => wrap(a / two_to(y as nat), w),
        BvOp::Udiv => if y == 0 {
            two_to(w) - 1
        } else {
            x / y
        },
        BvOp::Urem => if y == 0 {
            x
        } else {
            x % y
        },
        BvOp::Sdiv => if b != 0 {
            wrap(quotient(a, b), w)
        } else if a < 0 {
            1
        } else {
            two_to(w) - 1
        },
        BvOp::Srem => if b == 0 {
            x
        } else {
            wrap(a - b * quotient(a, b), w)
        },
        BvOp::Concat => x * two_to(low) + y,
    }
}

/// The relation between two bit vectors of `w` bits holds.
pub open spec fn bv_compares(rel: BvRel, w: nat, x: int, y: int) -> bool {
    match rel {
        BvRel::Ult => x < y,
        BvRel::Ule => x <= y,
        BvRel::Slt => as_signed(x, w) < as_signed(y, w),
        BvRel::Sle => as_signed(x, w) <= as_signed(y, w),
    }
}

/// The width of a bit vector.
pub open spec fn wide(m: &TermManager, t: TermId) -> nat {
    match width_of(m, t) {
        Some(w) => w as nat,
        None => 0,
    }
}

/// How formulas are read where terms have the given numbers, and atoms of other theories the given
/// truth values.
pub open spec fn bv_reading(m: &TermManager, v: Words, p: spec_fn(TermId) -> bool) -> Reading {
    Reading {
        atom: |t: TermId|
            match m.op(t) {
                Op::BvCompare(rel) => bv_compares(rel, wide(m, m.arg(t, 0)), v(m.arg(t, 0)), v(m.arg(t, 1))),
                _ => p(t),
            },
        same: |a: TermId, b: TermId| v(a) == v(b),
    }
}

/// The number of a term is what its operator gives.
pub open spec fn reads_term(m: &TermManager, v: Words, p: spec_fn(TermId) -> bool, t: TermId) -> bool {
    match m.op(t) {
        Op::Bv(op) => v(t) == bv_apply(op, wide(m, t), wide(m, m.arg(t, 1)), v(m.arg(t, 0)), v(m.arg(t, 1))),
        Op::BvNot => v(t) == two_to(wide(m, t)) - 1 - v(m.arg(t, 0)),
        Op::BvExtract { high, low } => v(t) == (v(m.arg(t, 0)) / two_to(low as nat)) % two_to((high - low + 1) as nat),
        Op::Ite => v(t) == if truth(m, bv_reading(m, v, p), m.arg(t, 0)) {
            v(m.arg(t, 1))
        } else {
            v(m.arg(t, 2))
        },
        Op::BitVecConst { .. } => v(t) == digits_value(m.terms@[t as int].digits@),
        _ => true,
    }
}

/// The number of every bit vector is what its operator gives.
pub open spec fn reads_bits(m: &TermManager, v: Words, p: spec_fn(TermId) -> bool) -> bool {
    forall|t: TermId| width_of(m, t) is Some ==> #[trigger] reads_term(m, v, p, t)
}

/// The number of every bit vector fits its width.
pub open spec fn in_width(m: &TermManager, v: Words) -> bool {
    forall|t: TermId| width_of(m, t) is Some ==> 0 <= #[trigger] v(t) < two_to(wide(m, t))
}

/// The literals among the terms have their numbers.
pub open spec fn reads_literals(m: &TermManager, v: Words, among: Set<usize>) -> bool {
    forall|t: usize| #[trigger]
        among.contains(t) && m.has(t) && m.op(t) is BitVecConst ==> v(t) == digits_value(m.terms@[t as int].digits@)
}

/// The width of a bit vector is the one that its operator gives.
pub open spec fn sorted_at(m: &TermManager, t: TermId) -> bool {
    width_of(m, t) matches Some(w) ==> match m.op(t) {
        Op::Bv(BvOp::Concat) => width_of(m, m.arg(t, 0)) is Some && width_of(m, m.arg(t, 1)) is Some && w == wide(m, m.arg(t, 0))
            + wide(m, m.arg(t, 1)),
        Op::Bv(_) => width_of(m, m.arg(t, 0)) == Some(w) && width_of(m, m.arg(t, 1)) == Some(w),
        Op::BvNot => width_of(m, m.arg(t, 0)) == Some(w),
        Op::BvExtract { high, low } => low <= high && high < wide(m, m.arg(t, 0)) && w == high - low + 1,
        Op::Ite => width_of(m, m.arg(t, 1)) == Some(w) && width_of(m, m.arg(t, 2)) == Some(w),
        Op::BitVecConst { width } => width == w && digits_value(m.terms@[t as int].digits@) < two_to(w as nat),
        _ => true,
    }
}

/// The widths of bit vectors are those that their operators give.
pub open spec fn bits_sorted(m: &TermManager) -> bool {
    forall|t: TermId| #[trigger] sorted_at(m, t)
}

/// What an instruction says of the numbers of terms.
pub open spec fn says(m: &TermManager, v: Words, p: spec_fn(TermId) -> bool, c: BvCmd) -> bool {
    match c {
        BvCmd::New { term, width } => width_of(m, term) == Some(width) && 0 <= v(term) < two_to(width as nat),
        BvCmd::Binary { term, op, a, b } => v(term) == bv_apply(op, wide(m, term), wide(m, b), v(a), v(b)),
        BvCmd::ShiftLeft { term, arg, shift, width } => v(term) == wrap(v(arg) * two_to(shift as nat), width as nat),
        BvCmd::Not { term, arg } => v(term) == two_to(wide(m, term)) - 1 - v(arg),
        BvCmd::Extract { term, arg, high, low } => v(term) == (v(arg) / two_to(low as nat)) % two_to((high - low + 1) as nat),
        BvCmd::Ite { term, cond, a, b } => v(term) == if truth(m, bv_reading(m, v, p), cond) {
            v(a)
        } else {
            v(b)
        },
        BvCmd::Const { term, value, width } => v(term) == wrap(value as int, width as nat),
        BvCmd::Equal { a, b } => v(a) == v(b),
        BvCmd::Differ { a, b } => v(a) != v(b),
        BvCmd::Below { a, b, signed, strict } => {
            let x = if signed {
                as_signed(v(a), wide(m, a))
            } else {
                v(a)
            };
            let y = if signed {
                as_signed(v(b), wide(m, b))
            } else {
                v(b)
            };
            if strict {
                x < y
            } else {
                x <= y
            }
        },
    }
}

/// A number that fits is all that is left of it.
proof fn lemma_fits(x: int, w: nat)
    requires
        0 <= x < two_to(w),
    ensures
        wrap(x, w) == x,
{
    vstd::arithmetic::div_mod::lemma_small_mod(x as nat, two_to(w) as nat);
}

/// A definition holds where terms have the numbers that their operators give.
proof fn lemma_definition_says(m: &TermManager, v: Words, p: spec_fn(TermId) -> bool, c: BvCmd)
    requires
        m.wf(),
        bits_sorted(m),
        short_words(m),
        in_width(m, v),
        reads_bits(m, v, p),
        is_definition(m, c),
    ensures
        says(m, v, p, c),
{
    match c {
        BvCmd::New { term, width } => {
            lemma_own_width(m, term, width);
        },
        BvCmd::ShiftLeft { term, arg, shift, width } => {
            let a = m.arg(term, 0);
            let b = m.arg(term, 1);
            assert(sorted_at(m, term));
            assert(width_of(m, a) == Some(width) && width_of(m, b) == Some(width));
            assert(reads_term(m, v, p, term) && reads_term(m, v, p, a) && reads_term(m, v, p, b));
            let x = v(a);
            let y = v(b);
            assert(x * y == y * x) by (nonlinear_arith);
        },
        BvCmd::Const { term, value, width } => {
            assert(reads_term(m, v, p, term));
            assert(sorted_at(m, term));
            assert(m.has(term));
            lemma_fits(v(term), width as nat);
        },
        BvCmd::Binary { term, op, a, b } => {
            assert(reads_term(m, v, p, term));
            assert(m.args(term)[0] == a && m.args(term)[1] == b);
        },
        BvCmd::Not { term, arg } => {
            assert(reads_term(m, v, p, term));
            assert(m.args(term)[0] == arg);
        },
        BvCmd::Extract { term, arg, high, low } => {
            assert(reads_term(m, v, p, term));
            assert(m.args(term)[0] == arg);
        },
        BvCmd::Ite { term, cond, a, b } => {
            assert(reads_term(m, v, p, term));
            assert(m.args(term)[0] == cond && m.args(term)[1] == a && m.args(term)[2] == b);
        },
        _ => {},
    }
}

/// The width in which a term is given bits is its own.
proof fn lemma_own_width(m: &TermManager, t: TermId, width: u32)
    requires
        m.wf(),
        bits_sorted(m),
        fits_width(m, t, width),
    ensures
        width_of(m, t) == Some(width),
{
    if width_of(m, t) != Some(width) {
        let o = choose|o: TermId| #[trigger] width_of(m, o) == Some(width) && keeps_width(m.op(o)) && m.args(o).contains(t);
        assert(m.terms@[o as int].fits(o as int));
        assert(sorted_at(m, o));
        let i = choose|i: int| 0 <= i < m.args(o).len() && m.args(o)[i] == t;
        assert(i == 0 || i == 1);
        assert(m.arg(o, i) == t);
    }
}

/// Encoding terms says nothing that is not so: wherever terms have the numbers that their operators
/// give, every instruction holds.
pub proof fn law_encoding_says_what_terms_are(
    m: &TermManager,
    v: Words,
    p: spec_fn(TermId) -> bool,
    known: Set<usize>,
    from: int,
    plan: &BvPlan,
    i: int,
)
    requires
        m.wf(),
        bits_sorted(m),
        short_words(m),
        in_width(m, v),
        reads_bits(m, v, p),
        sound(m, known, from, plan),
        from <= i < plan.cmds@.len(),
    ensures
        says(m, v, p, plan.cmds@[i]),
{
    lemma_definition_says(m, v, p, plan.cmds@[i]);
}

/// The instructions before a statement say nothing that is not so.
pub proof fn law_statements_rest_on_what_terms_are(
    m: &TermManager,
    v: Words,
    p: spec_fn(TermId) -> bool,
    before: &BvPlan,
    later: &BvPlan,
    fact: BvCmd,
    i: int,
)
    requires
        m.wf(),
        bits_sorted(m),
        short_words(m),
        in_width(m, v),
        reads_bits(m, v, p),
        states(m, before, later, fact),
        before.cmds@.len() <= i < later.cmds@.len() - 1,
    ensures
        says(m, v, p, later.cmds@[i]),
{
    lemma_definition_says(m, v, p, later.cmds@[i]);
}

/// An instruction that says what a term is by an operation names the arguments of the term, in
/// their order.
pub proof fn law_definitions_name_the_arguments(m: &TermManager, known: Set<usize>, from: int, plan: &BvPlan, i: int)
    requires
        m.wf(),
        sound(m, known, from, plan),
        from <= i < plan.cmds@.len(),
    ensures
        match plan.cmds@[i] {
            BvCmd::Binary { term, op, a, b } => m.op(term) == Op::Bv(op) && m.args(term) == seq![a, b],
            BvCmd::Not { term, arg } => m.op(term) == Op::BvNot && m.args(term) == seq![arg],
            BvCmd::Extract { term, arg, high, low } => m.op(term) == (Op::BvExtract { high, low }) && m.args(term) == seq![arg],
            BvCmd::Ite { term, cond, a, b } => m.op(term) == Op::Ite && m.args(term) == seq![cond, a, b],
            BvCmd::ShiftLeft { term, arg, shift, width } => m.op(term) == Op::Bv(BvOp::Mul) && m.args(term).contains(arg),
            BvCmd::New { .. } | BvCmd::Const { .. } => true,
            _ => false,
        },
{
    let c = plan.cmds@[i];
    assert(is_definition(m, c));
    if let BvCmd::ShiftLeft { term, arg, shift, width } = c {
        assert(m.terms@[term as int].fits(term as int));
        assert(m.args(term)[0] == arg || m.args(term)[1] == arg);
    }
}

/// The term is a bit vector made of variables and literals by operations on bit vectors, and by
/// conditionals on comparisons of such.
pub open spec fn made_of_bits(m: &TermManager, t: TermId) -> bool
    decreases t,
{
    width_of(m, t) is Some && match m.op(t) {
        Op::Var(_) | Op::BitVecConst { .. } => true,
        Op::Bv(BvOp::Add) | Op::Bv(BvOp::Sub) | Op::Bv(BvOp::Mul) | Op::Bv(BvOp::And) | Op::Bv(BvOp::Or) | Op::Bv(BvOp::Xor)
        | Op::Bv(BvOp::Shl) | Op::Bv(BvOp::Lshr) | Op::Bv(BvOp::Ashr) | Op::Bv(BvOp::Udiv) | Op::Bv(BvOp::Sdiv) | Op::Bv(BvOp::Urem)
        | Op::Bv(BvOp::Srem) | Op::Bv(BvOp::Concat) | Op::BvNot | Op::BvExtract { .. } => forall|i: int|
            0 <= i < m.args(t).len() ==> #[trigger] m.args(t)[i] < t && made_of_bits(m, m.args(t)[i]),
        Op::Ite => {
            &&& m.arg(t, 0) < t && m.arg(t, 1) < t && m.arg(t, 2) < t
            &&& decided_by_bits(m, m.arg(t, 0))
            &&& made_of_bits(m, m.arg(t, 1))
            &&& made_of_bits(m, m.arg(t, 2))
        },
        _ => false,
    }
}

/// The condition joins Boolean variables and comparisons of bit vectors.
pub open spec fn decided_by_bits(m: &TermManager, c: TermId) -> bool
    decreases c,
{
    m.has(c) && match m.op(c) {
        Op::True | Op::False | Op::Var(_) => true,
        Op::Not | Op::And | Op::Or => forall|i: int|
            0 <= i < m.args(c).len() ==> #[trigger] m.args(c)[i] < c && decided_by_bits(m, m.args(c)[i]),
        Op::Eq | Op::BvCompare(_) => forall|i: int| 0 <= i < m.args(c).len() ==> #[trigger] m.args(c)[i] < c && made_of_bits(m, m.args(c)[i]),
        _ => false,
    }
}

/// Every bit vector that is made of bit vectors can be given bits, whatever has them.
pub proof fn law_bit_vectors_are_encodable(m: &TermManager, known: Set<usize>, t: TermId)
    requires
        m.wf(),
        bits_sorted(m),
        made_of_bits(m, t),
    ensures
        encodable(m, known, t),
    decreases t,
{
    assert(m.terms@[t as int].fits(t as int));
    assert(sorted_at(m, t));
    let parts = crate::blast::bv_parts(m, t);
    assert forall|i: int| 0 <= i < parts.len() implies #[trigger] parts[i] < t && encodable(m, known, parts[i]) by {
        if m.op(t) == Op::Ite {
            assert(parts[i] == m.arg(t, 1) || parts[i] == m.arg(t, 2));
        } else {
            assert(m.args(t)[i] < t);
        }
        law_bit_vectors_are_encodable(m, known, parts[i]);
    }
    if m.op(t) == Op::Ite {
        lemma_conditions_are_encodable(m, known, m.arg(t, 0));
    }
    if m.op(t) is Bv {
        assert(m.args(t)[0] < t && m.args(t)[1] < t);
    }
    if m.op(t) is BvExtract {
        assert(m.args(t)[0] < t);
    }
}

/// What conditions compare can be given bits.
proof fn lemma_conditions_are_encodable(m: &TermManager, known: Set<usize>, c: TermId)
    requires
        m.wf(),
        bits_sorted(m),
        decided_by_bits(m, c),
    ensures
        crate::blast::cond_ok(m, known, c),
    decreases c,
{
    assert(m.terms@[c as int].fits(c as int));
    match m.op(c) {
        Op::Not | Op::And | Op::Or => {
            assert forall|i: int| 0 <= i < m.args(c).len() implies #[trigger] m.args(c)[i] < c && crate::blast::cond_ok(m, known, m.args(c)[i]) by {
                lemma_conditions_are_encodable(m, known, m.args(c)[i]);
            }
        },
        Op::Eq | Op::BvCompare(_) => {
            assert forall|i: int| 0 <= i < m.args(c).len() implies #[trigger] m.args(c)[i] < c && width_of(m, m.args(c)[i]) is Some by {
                assert(made_of_bits(m, m.args(c)[i]));
            }
        },
        _ => {},
    }
}

/// A literal that is defined, or had its number, has it.
proof fn lemma_literal_is_read(
    m: &TermManager,
    v: Words,
    p: spec_fn(TermId) -> bool,
    known: Set<usize>,
    cmds: Seq<BvCmd>,
    from: int,
    t: TermId,
)
    requires
        m.wf(),
        bits_sorted(m),
        short_words(m),
        in_width(m, v),
        reads_literals(m, v, known),
        forall|i: int| from <= i < cmds.len() ==> says(m, v, p, #[trigger] cmds[i]),
        known.contains(t) || defined_since(m, cmds, from, t) || is_loose(m, known, cmds, from, t),
        m.has(t),
        m.op(t) is BitVecConst,
        width_of(m, t) is Some,
    ensures
        v(t) == digits_value(m.terms@[t as int].digits@),
{
    if !known.contains(t) {
        assert(crate::blast::bv_parts(m, t).len() == 0);
        assert(encodable(m, known, t));
        assert(sorted_at(m, t));
        let i = choose|i: int| from <= i < cmds.len() && defines_term(m, #[trigger] cmds[i], t);
        assert(says(m, v, p, cmds[i]));
        assert(m.has(t) && m.op(t) is BitVecConst);
        lemma_fits(digits_value(m.terms@[t as int].digits@), wide(m, t));
    }
}

/// Numbers that fulfil the instructions are what the operators give.
proof fn lemma_instructions_determine(
    m: &TermManager,
    v: Words,
    p: spec_fn(TermId) -> bool,
    known: Set<usize>,
    from: int,
    plan: &BvPlan,
    t: TermId,
)
    requires
        m.wf(),
        bits_sorted(m),
        short_words(m),
        in_width(m, v),
        reads_literals(m, v, known),
        grounded(m, known, from, plan),
        forall|i: int| from <= i < plan.cmds@.len() ==> says(m, v, p, #[trigger] plan.cmds@[i]),
        defined_since(m, plan.cmds@, from, t),
    ensures
        reads_term(m, v, p, t),
{
    let cmds = plan.cmds@;
    let i = choose|i: int| from <= i < cmds.len() && defines_term(m, #[trigger] cmds[i], t);
    assert(says(m, v, p, cmds[i]));
    assert(m.terms@[t as int].fits(t as int));
    match cmds[i] {
        BvCmd::ShiftLeft { term, arg, shift, width } => {
            let a = m.arg(t, 0);
            let b = m.arg(t, 1);
            assert(sorted_at(m, t));
            assert(width_of(m, a) == Some(width) && width_of(m, b) == Some(width));
            assert(crate::blast::bv_parts(m, t)[0] == a && crate::blast::bv_parts(m, t)[1] == b);
            assert(plan.known@.contains(a) && plan.known@.contains(b));
            if a == arg && has_log(m, b, shift) {
                lemma_literal_is_read(m, v, p, known, cmds, from, b);
            } else {
                lemma_literal_is_read(m, v, p, known, cmds, from, a);
            }
            let x = v(a);
            let y = v(b);
            assert(x * y == y * x) by (nonlinear_arith);
        },
        BvCmd::Const { term, value, width } => {
            lemma_literal_is_read(m, v, p, known, cmds, from, t);
        },
        BvCmd::Binary { term, op, a, b } => {
            assert(m.args(t)[0] == a && m.args(t)[1] == b);
        },
        BvCmd::Not { term, arg } => {
            assert(m.args(t)[0] == arg);
        },
        BvCmd::Extract { term, arg, high, low } => {
            assert(m.args(t)[0] == arg);
        },
        BvCmd::Ite { term, cond, a, b } => {
            assert(m.args(t)[0] == cond && m.args(t)[1] == a && m.args(t)[2] == b);
        },
        _ => {},
    }
}

/// The instructions leave no choice: numbers that fulfil them are what the operators give, for every
/// term that is defined. The literals that had bits before are taken to have their numbers.
pub proof fn law_instructions_determine_terms(
    m: &TermManager,
    v: Words,
    p: spec_fn(TermId) -> bool,
    known: Set<usize>,
    from: int,
    plan: &BvPlan,
    t: TermId,
)
    requires
        m.wf(),
        bits_sorted(m),
        short_words(m),
        in_width(m, v),
        reads_literals(m, v, known),
        sound(m, known, from, plan),
        forall|i: int| from <= i < plan.cmds@.len() ==> says(m, v, p, #[trigger] plan.cmds@[i]),
        defined_since(m, plan.cmds@, from, t),
    ensures
        reads_term(m, v, p, t),
{
    lemma_instructions_determine(m, v, p, known, from, plan, t);
}

/// So it is with the instructions that end in a statement.
pub proof fn law_statements_determine_terms(
    m: &TermManager,
    v: Words,
    p: spec_fn(TermId) -> bool,
    before: &BvPlan,
    later: &BvPlan,
    fact: BvCmd,
    t: TermId,
)
    requires
        m.wf(),
        bits_sorted(m),
        short_words(m),
        in_width(m, v),
        reads_literals(m, v, before.known@),
        states(m, before, later, fact),
        forall|i: int| before.cmds@.len() <= i < later.cmds@.len() ==> says(m, v, p, #[trigger] later.cmds@[i]),
        defined_since(m, later.cmds@, before.cmds@.len() as int, t),
    ensures
        reads_term(m, v, p, t),
{
    lemma_instructions_determine(m, v, p, before.known@, before.cmds@.len() as int, later, t);
}

/// Every literal has its number.
pub open spec fn all_literals(m: &TermManager, v: Words) -> bool {
    reads_literals(m, v, Set::new(|t: usize| m.has(t)))
}

/// An assigned comparison of bit vectors, one of which is registered, is told to their theory: the
/// statement holds, in two's complement for the signed relations and in binary for the unsigned ones,
/// exactly where the relation of the term's operator has the assigned truth value.
pub proof fn law_order_of_bits_is_told(
    m: &TermManager,
    v: Words,
    p: spec_fn(TermId) -> bool,
    before: &TheoryManager,
    var: Var,
    c: Constraint,
    positive: bool,
    after: &TheoryManager,
    plan: Plan,
    t: TermId,
    rel: BvRel,
)
    requires
        m.wf(),
        before.planned(m, var, c, positive, after, plan),
        t == term_of_var(before.var_to_term@, var),
        m.has(t),
        m.op(t) == Op::BvCompare(rel),
        constraint_of(m, t) == Some(c),
        width_of(m, m.arg(t, 0)) is Some,
        width_of(m, m.arg(t, 0)) == width_of(m, m.arg(t, 1)),
        before.bv_terms@.contains(m.arg(t, 0)) || before.bv_terms@.contains(m.arg(t, 1)),
    ensures
        plan.bits == Some(t),
        after.bv.cmds@.len() > before.bv.cmds@.len(),
        says(m, v, p, after.bv.cmds@.last()) <==> truth(m, bv_reading(m, v, p), t) == positive,
        says(m, v, p, after.bv.cmds@.last()) <==> bv_compares(rel, wide(m, m.arg(t, 0)), v(m.arg(t, 0)), v(m.arg(t, 1))) == positive,
        in_width(m, v) && all_literals(m, v) && bits_sorted(m) && short_words(m) ==> forall|i: int|
            before.bv.cmds@.len() <= i < after.bv.cmds@.len() - 1 ==> says(m, v, p, #[trigger] after.bv.cmds@[i]),
{
    let a = m.arg(t, 0);
    let b = m.arg(t, 1);
    if in_width(m, v) && all_literals(m, v) && bits_sorted(m) && short_words(m) {
        let w = width_of(m, a)->0;
        lemma_side_says(m, v, p, a, w);
        lemma_side_says(m, v, p, b, w);
        assert forall|i: int| before.bv.cmds@.len() <= i < after.bv.cmds@.len() - 1 implies says(m, v, p, #[trigger] after.bv.cmds@[i]) by {
            assert(after.bv.cmds@[i] == side_cmd(m, a, w) || after.bv.cmds@[i] == side_cmd(m, b, w));
        }
    }
}

/// What gives bits to a side of a comparison holds.
proof fn lemma_side_says(m: &TermManager, v: Words, p: spec_fn(TermId) -> bool, t: TermId, w: u32)
    requires
        in_width(m, v),
        all_literals(m, v),
        bits_sorted(m),
        short_words(m),
        width_of(m, t) == Some(w),
    ensures
        says(m, v, p, side_cmd(m, t, w)),
{
    let all = Set::new(|t: usize| m.has(t));
    assert(all.contains(t));
    assert(sorted_at(m, t));
    assert(0 <= v(t) < two_to(wide(m, t)));
    if m.op(t) is BitVecConst {
        lemma_fits(v(t), w as nat);
    }
}

/// The term is an operation of arithmetic or logic on bit vectors.
pub open spec fn calculates(m: &TermManager, t: TermId) -> bool {
    m.has(t) && match m.op(t) {
        Op::Bv(BvOp::Add) | Op::Bv(BvOp::Sub) | Op::Bv(BvOp::Mul) | Op::Bv(BvOp::And) | Op::Bv(BvOp::Or) | Op::Bv(BvOp::Xor)
        | Op::Bv(BvOp::Udiv) | Op::Bv(BvOp::Sdiv) | Op::Bv(BvOp::Urem) | Op::Bv(BvOp::Srem) | Op::BvNot => true,
        _ => false,
    }
}

/// The term is a registered variable.
pub open spec fn registered(m: &TermManager, vars: Set<usize>, t: TermId) -> bool {
    m.has(t) && m.op(t) is Var && vars.contains(t)
}

/// The two terms are operations or registered variables, or one of them is and the other a literal.
pub open spec fn within_bits(m: &TermManager, vars: Set<usize>, a: TermId, b: TermId) -> bool {
    let x = calculates(m, a) || registered(m, vars, a);
    let y = calculates(m, b) || registered(m, vars, b);
    (x && y) || (x && m.has(b) && m.op(b) is BitVecConst) || (y && m.has(a) && m.op(a) is BitVecConst)
}

/// An assigned equality of bit vectors of one width is told to their theory, false or, between
/// operations, registered variables and literals, true: the statement holds exactly where the
/// equality has the assigned truth value.
pub proof fn law_equality_of_bits_is_told(
    m: &TermManager,
    v: Words,
    p: spec_fn(TermId) -> bool,
    before: &TheoryManager,
    var: Var,
    c: Constraint,
    positive: bool,
    after: &TheoryManager,
    plan: Plan,
    t: TermId,
)
    requires
        m.wf(),
        bits_sorted(m),
        short_words(m),
        in_width(m, v),
        all_literals(m, v),
        before.planned(m, var, c, positive, after, plan),
        t == term_of_var(before.var_to_term@, var),
        m.has(t),
        m.op(t) == Op::Eq,
        constraint_of(m, t) == Some(c),
        width_of(m, m.arg(t, 0)) is Some,
        width_of(m, m.arg(t, 0)) == width_of(m, m.arg(t, 1)),
    ensures
        !positive || within_bits(m, before.bv_terms@, m.arg(t, 0), m.arg(t, 1)) ==> plan.bits is Some,
        plan.bits is Some ==> plan.bits == Some(t) && after.bv.cmds@.len() > before.bv.cmds@.len(),
        plan.bits is Some ==> (says(m, v, p, after.bv.cmds@.last()) <==> truth(m, bv_reading(m, v, p), t) == positive),
        plan.bits is Some ==> (says(m, v, p, after.bv.cmds@.last()) <==> (v(m.arg(t, 0)) == v(m.arg(t, 1))) == positive),
{
    let a = m.arg(t, 0);
    let b = m.arg(t, 1);
    let all = Set::new(|t: usize| m.has(t));
    assert(all.contains(a) && all.contains(b));
    assert(m.terms@[t as int].fits(t as int));
    assert(!is_bool(m, a));
    let r = bv_reading(m, v, p);
    assert(equal_under(m, r, t, a, b) == (r.same)(a, b));
    assert(truth(m, r, t) == equal_under(m, r, t, a, b));
    assert(sorted_at(m, a) && sorted_at(m, b));
    let w = wide(m, a);
    if m.op(a) is BitVecConst {
        lemma_fits(v(a), w);
    }
    if m.op(b) is BitVecConst {
        lemma_fits(v(b), w);
    }
}

/// An assigned disequality of bit vectors of one width is told to their theory: the statement holds
/// exactly where the disequality has the assigned truth value.
pub proof fn law_disequality_of_bits_is_told(
    m: &TermManager,
    v: Words,
    p: spec_fn(TermId) -> bool,
    before: &TheoryManager,
    var: Var,
    a: TermId,
    b: TermId,
    positive: bool,
    after: &TheoryManager,
    plan: Plan,
)
    requires
        before.planned(m, var, Constraint::Diseq(a, b), positive, after, plan),
        width_of(m, a) is Some,
        width_of(m, a) == width_of(m, b),
    ensures
        plan.bits == Some(term_of_var(before.var_to_term@, var)),
        after.bv.cmds@.len() > before.bv.cmds@.len(),
        says(m, v, p, after.bv.cmds@.last()) <==> (v(a) != v(b)) == positive,
{
}

} // verus!
