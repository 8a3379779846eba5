//! What a solver for equality knows once the planned terms are introduced.
use crate::euf::applies_at;
use crate::euf::among;
use crate::euf::cmd_holds;
use crate::euf::func_of;
use crate::euf::int_value;
use crate::euf::joins_them;
use crate::euf::law_applications_are_introduced;
use crate::euf::lemma_nodes_at;
use crate::euf::nodes_at;
use crate::euf::parts_them;
use crate::euf::same_literal;
use crate::euf::short_words;
use crate::euf::tabled_in;
use crate::euf::told_apart;
use crate::euf::told_equal;
use crate::euf::told_truth;
use crate::euf::truth_cmd;
use crate::euf::truth_value;
use crate::euf::word_value;
use crate::euf::EufCmd;
use crate::euf::EufNode;
use crate::euf::EufPlan;
use crate::linear::Valuation;
use crate::numeral::digits_value;
use crate::numeral::signed;
use crate::term::Op;
use crate::term::TermId;
use crate::term::TermManager;
use vstd::prelude::*;

verus! {

/// All instructions of the plan hold under a reading.
pub open spec fn all_hold(d: Valuation, b: &EufPlan) -> bool {
    forall|i: int| 0 <= i < b.cmds@.len() ==> cmd_holds(d, #[trigger] b.cmds@[i])
}

/// The two instructions apply one function to arguments of equal values.
pub open spec fn applied_alike(d: Valuation, x: EufCmd, y: EufCmd) -> bool {
    match (x, y) {
        (EufCmd::App { term: t, func: f, args: p }, EufCmd::App { term: u, func: g, args: q }) => {
            &&& f == g
            &&& p@.len() == q@.len()
            &&& forall|k: int| #![trigger p@[k]] 0 <= k < p@.len() ==> d(p@[k]) == d(q@[k])
        },
        _ => false,
    }
}

/// What the instructions introduce as applications of one function to arguments of equal values has
/// equal values.
pub open spec fn congruent(d: Valuation, b: &EufPlan) -> bool {
    forall|i: int, j: int|
        0 <= i < b.cmds@.len() && 0 <= j < b.cmds@.len() && applied_alike(d, #[trigger] b.cmds@[i], #[trigger] b.cmds@[j]) ==> d(
            b.cmds@[i]->App_term,
        ) == d(b.cmds@[j]->App_term)
}

/// Congruence applies to the operation: a function, a constructor, a selector, or reading an array.
pub open spec fn is_function(op: Op) -> bool {
    op is Apply || op is Select || op is DtConstructor || op is DtSelector
}

/// An introduced integer literal has the value of the one on the table.
proof fn lemma_table_of_ints(a: &EufPlan, b: &EufPlan, m: &TermManager, d: Valuation, t: TermId) -> (i: int)
    requires
        a.is_blank(),
        b.wf(m),
        a.leads_to(b, m),
        all_hold(d, b),
        b.interned@.contains(t),
        int_value(m, t) is Some,
    ensures
        0 <= i < b.ints@.len(),
        Some(b.ints@[i].0) == int_value(m, t),
        d(b.ints@[i].1) == d(t),
{
    let k = choose|k: int| 0 <= k < b.nodes@.len() && b.nodes@[k] == EufNode::Term(t);
    assert(b.nodes@.contains(EufNode::Term(t)));
    assert(tabled_in(m, b.nodes@, b.ints@, b.words@, k + 1, t));
    let v = int_value(m, t)->0;
    let i = choose|i: int| 0 <= i < b.ints@.len() && (#[trigger] b.ints@[i]).0 == v && among(b.nodes@, k + 1, b.ints@[i].1);
    if b.ints@[i].1 != t {
        assert(!a.interned@.contains(t));
        assert(told_equal(b.cmds@, 0, t, b.ints@[i].1));
        let c = choose|c: int| 0 <= c < b.cmds@.len() && joins_them(#[trigger] b.cmds@[c], t, b.ints@[i].1);
        assert(cmd_holds(d, b.cmds@[c]));
    }
    i
}

/// An introduced bit-vector literal has the value of the one on the table.
proof fn lemma_table_of_words(a: &EufPlan, b: &EufPlan, m: &TermManager, d: Valuation, t: TermId) -> (i: int)
    requires
        a.is_blank(),
        b.wf(m),
        a.leads_to(b, m),
        all_hold(d, b),
        b.interned@.contains(t),
        word_value(m, t) is Some,
    ensures
        0 <= i < b.words@.len(),
        Some(b.words@[i].0) == word_value(m, t),
        d(b.words@[i].1) == d(t),
{
    let k = choose|k: int| 0 <= k < b.nodes@.len() && b.nodes@[k] == EufNode::Term(t);
    assert(b.nodes@.contains(EufNode::Term(t)));
    assert(tabled_in(m, b.nodes@, b.ints@, b.words@, k + 1, t));
    let v = word_value(m, t)->0;
    let i = choose|i: int| 0 <= i < b.words@.len() && (#[trigger] b.words@[i]).0 == v && among(b.nodes@, k + 1, b.words@[i].1);
    if b.words@[i].1 != t {
        assert(!a.interned@.contains(t));
        assert(told_equal(b.cmds@, 0, t, b.words@[i].1));
        let c = choose|c: int| 0 <= c < b.cmds@.len() && joins_them(#[trigger] b.cmds@[c], t, b.words@[i].1);
        assert(cmd_holds(d, b.cmds@[c]));
    }
    i
}

/// Two introduced integer literals of 64 bits are equal to the solver exactly if their values are:
/// under every reading in which the instructions hold.
pub proof fn law_integers_are_told_apart(a: &EufPlan, b: &EufPlan, m: &TermManager, d: Valuation, x: TermId, y: TermId)
    requires
        a.is_blank(),
        b.wf(m),
        a.leads_to(b, m),
        all_hold(d, b),
        b.interned@.contains(x),
        b.interned@.contains(y),
        m.has(x),
        m.has(y),
        m.op(x) is IntConst,
        m.op(y) is IntConst,
        i64::MIN <= signed(m.op(x)->negative, m.terms@[x as int].digits@) <= i64::MAX,
        i64::MIN <= signed(m.op(y)->negative, m.terms@[y as int].digits@) <= i64::MAX,
    ensures
        d(x) == d(y) <==> signed(m.op(x)->negative, m.terms@[x as int].digits@) == signed(
            m.op(y)->negative,
            m.terms@[y as int].digits@,
        ),
{
    let i = lemma_table_of_ints(a, b, m, d, x);
    let j = lemma_table_of_ints(a, b, m, d, y);
    if i != j {
        let (lo, hi) = if i < j {
            (i, j)
        } else {
            (j, i)
        };
        assert(b.ints@[lo].0 != b.ints@[hi].0);
        assert(told_apart(b.cmds@, 0, b.ints@[hi].1, b.ints@[lo].1));
        let c = choose|c: int| 0 <= c < b.cmds@.len() && parts_them(#[trigger] b.cmds@[c], b.ints@[hi].1, b.ints@[lo].1);
        assert(cmd_holds(d, b.cmds@[c]));
    }
}

/// Two introduced bit-vector literals of one width and one digit are equal to the solver exactly if
/// their values are.
pub proof fn law_words_are_told_apart(a: &EufPlan, b: &EufPlan, m: &TermManager, d: Valuation, x: TermId, y: TermId)
    requires
        a.is_blank(),
        b.wf(m),
        a.leads_to(b, m),
        all_hold(d, b),
        short_words(m),
        b.interned@.contains(x),
        b.interned@.contains(y),
        m.has(x),
        m.has(y),
        m.op(x) is BitVecConst,
        m.op(y) == m.op(x),
    ensures
        d(x) == d(y) <==> digits_value(m.terms@[x as int].digits@) == digits_value(m.terms@[y as int].digits@),
{
    let i = lemma_table_of_words(a, b, m, d, x);
    let j = lemma_table_of_words(a, b, m, d, y);
    if i != j {
        let (lo, hi) = if i < j {
            (i, j)
        } else {
            (j, i)
        };
        assert(b.words@[lo].0 != b.words@[hi].0);
        assert(b.words@[lo].0.1 == b.words@[hi].0.1);
        assert(told_apart(b.cmds@, 0, b.words@[hi].1, b.words@[lo].1));
        let c = choose|c: int| 0 <= c < b.cmds@.len() && parts_them(#[trigger] b.cmds@[c], b.words@[hi].1, b.words@[lo].1);
        assert(cmd_holds(d, b.cmds@[c]));
    }
}

/// An introduced truth value is the solver's own: true is one, and false is zero.
pub proof fn law_truth_values_are_told(a: &EufPlan, b: &EufPlan, m: &TermManager, d: Valuation, t: TermId)
    requires
        a.is_blank(),
        b.wf(m),
        a.leads_to(b, m),
        all_hold(d, b),
        b.interned@.contains(t),
        m.has(t),
    ensures
        m.op(t) == Op::True ==> d(t) == 1real && b.nodes@.contains(EufNode::True),
        m.op(t) == Op::False ==> d(t) == 0real && b.nodes@.contains(EufNode::True),
{
    if m.op(t) == Op::True || m.op(t) == Op::False {
        assert(!a.interned@.contains(t));
        let value = truth_value(m, t)->0;
        assert(told_truth(b.cmds@, 0, t, value));
        let c = choose|c: int| 0 <= c < b.cmds@.len() && #[trigger] b.cmds@[c] == truth_cmd(t, value);
        assert(cmd_holds(d, b.cmds@[c]));
    }
}

/// An introduced application is introduced by an instruction that applies the function of its
/// operation to arguments of the values of its own.
proof fn lemma_application(a: &EufPlan, b: &EufPlan, m: &TermManager, d: Valuation, t: TermId) -> (i: int)
    requires
        a.is_blank(),
        a.wf(m),
        b.wf(m),
        a.leads_to(b, m),
        all_hold(d, b),
        b.interned@.contains(t),
        m.has(t),
        is_function(m.op(t)),
    ensures
        0 <= i < b.cmds@.len(),
        b.cmds@[i] matches EufCmd::App { term, func, args } && {
            &&& term == t
            &&& Some(func) == func_of(m, t)
            &&& args@.len() == m.args(t).len()
            &&& forall|k: int| #![trigger args@[k]] 0 <= k < args@.len() ==> d(args@[k]) == d(m.args(t)[k])
        },
{
    law_applications_are_introduced(a, b, m, t);
    let i = choose|i: int|
        a.cmds@.len() <= i < b.cmds@.len() && #[trigger] applies_at(
            m,
            nodes_at(a.nodes@, b.cmds@, a.cmds@.len() as int, i),
            b.cmds@[i],
            t,
        );
    let args = b.cmds@[i]->args;
    let early = nodes_at(a.nodes@, b.cmds@, 0, i);
    lemma_nodes_at(a.nodes@, b.cmds@, 0, i, b.cmds@.len() as int);
    let n = choose|n: int| 0 <= n < b.nodes@.len() && b.nodes@[n] == EufNode::Term(t);
    assert(b.nodes@.contains(EufNode::Term(t)));
    assert forall|k: int| #![trigger args@[k]] 0 <= k < args@.len() implies d(args@[k]) == d(m.args(t)[k]) by {
        let own = m.args(t)[k];
        let used = args@[k];
        assert(early.contains(EufNode::Term(used)));
        let e = choose|e: int| 0 <= e < early.len() && early[e] == EufNode::Term(used);
        assert(b.nodes@[e] == EufNode::Term(used));
        assert(b.nodes@.contains(EufNode::Term(used)));
        assert(b.interned@.contains(used));
        assert(among(b.nodes@, n, own));
        assert(b.nodes@.contains(EufNode::Term(own)));
        assert(b.interned@.contains(own));
        if used != own {
            assert(same_literal(m, own, used));
            if int_value(m, own) is Some {
                let p = lemma_table_of_ints(a, b, m, d, own);
                let q = lemma_table_of_ints(a, b, m, d, used);
                assert(p == q);
            } else {
                let p = lemma_table_of_words(a, b, m, d, own);
                let q = lemma_table_of_words(a, b, m, d, used);
                assert(p == q);
            }
        }
    }
    i
}

/// Equal arguments give equal values: two introduced terms of one function, constructor, selector or
/// array access with arguments of equal values are equal to the solver.
pub proof fn law_congruence_is_told(a: &EufPlan, b: &EufPlan, m: &TermManager, d: Valuation, t: TermId, u: TermId)
    requires
        a.is_blank(),
        a.wf(m),
        b.wf(m),
        a.leads_to(b, m),
        all_hold(d, b),
        congruent(d, b),
        b.interned@.contains(t),
        b.interned@.contains(u),
        m.has(t),
        m.has(u),
        is_function(m.op(t)),
        m.op(u) == m.op(t),
        m.args(u).len() == m.args(t).len(),
        forall|k: int| 0 <= k < m.args(t).len() ==> d(#[trigger] m.args(t)[k]) == d(m.args(u)[k]),
    ensures
        d(t) == d(u),
{
    let i = lemma_application(a, b, m, d, t);
    let j = lemma_application(a, b, m, d, u);
    let p = b.cmds@[i]->args;
    let q = b.cmds@[j]->args;
    assert forall|k: int| #![trigger p@[k]] 0 <= k < p@.len() implies d(p@[k]) == d(q@[k]) by {
        assert(d(q@[k]) == d(m.args(u)[k]));
        assert(d(m.args(t)[k]) == d(m.args(u)[k]));
    }
    assert(applied_alike(d, b.cmds@[i], b.cmds@[j]));
}

/// What applies different functions is not taken for one: only terms of one operation, or of
/// operations that name one symbol, are introduced as applications of one function, and other terms
/// as none.
pub proof fn law_functions_are_told_apart(m: &TermManager, t: TermId, u: TermId)
    requires
        m.has(t),
        m.has(u),
    ensures
        func_of(m, t) is Some <==> is_function(m.op(t)),
        is_function(m.op(t)) && func_of(m, t) == func_of(m, u) && m.op(t) is Select ==> m.op(u) is Select,
        m.op(t) is Apply && m.op(u) is Apply ==> (func_of(m, t) == func_of(m, u) <==> m.op(t) == m.op(u)),
        m.op(t) is DtConstructor && m.op(u) is DtConstructor ==> (func_of(m, t) == func_of(m, u) <==> m.op(t) == m.op(u)),
        m.op(t) is DtSelector && m.op(u) is DtSelector ==> (func_of(m, t) == func_of(m, u) <==> m.op(t) == m.op(u)),
{
}

} // verus!
