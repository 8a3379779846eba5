//! The order in which terms are handed to a solver for equality with uninterpreted functions.
use crate::blast::low_digit;
use crate::linear::Valuation;
use crate::maps::set_contains;
use crate::maps::set_insert;
use crate::maps::set_new;
use crate::maps::set_remove;
use crate::numeral::digits_value;
use crate::numeral::signed;
use crate::numeral::to_i128;
use crate::term::Op;
use crate::term::Symbol;
use crate::term::TermId;
use crate::term::TermManager;
use rustc_hash::FxHashSet;
use vstd::prelude::*;

verus! {

/// What the solver merges: terms and the two truth values.
#[derive(Clone, Copy, Debug, PartialEq, Eq, Structural)]
pub enum EufNode {
    Term(TermId),
    True,
    False,
}

/// The function that a term applies: a named one, or reading an array.
#[derive(Clone, Copy, Debug, PartialEq, Eq, Structural)]
pub enum FuncId {
    Select,
    Named(Symbol),
}

/// One instruction to the solver.
#[derive(Debug)]
pub enum EufCmd {
    /// Introduce the truth values, and that they differ.
    Truths,
    /// Introduce a term.
    Intern { term: TermId },
    /// Introduce a term that applies a function to introduced terms.
    App { term: TermId, func: FuncId, args: Vec<TermId> },
    /// Two nodes are equal.
    Merge { a: EufNode, b: EufNode, reason: TermId },
    /// Two nodes differ.
    Differ { a: EufNode, b: EufNode, reason: TermId },
}

/// The instructions so far, and what was introduced.
#[derive(Debug)]
pub struct EufPlan {
    pub cmds: Vec<EufCmd>,
    /// What was introduced, in order; `True` stands for both truth values.
    pub nodes: Vec<EufNode>,
    /// The introduced terms.
    pub interned: FxHashSet<usize>,
    /// The first introduced term of each integer value.
    pub ints: Vec<(i64, TermId)>,
    /// The first introduced term of each bit-vector value, by lowest digit and width.
    pub words: Vec<((u64, u32), TermId)>,
    pub truths: bool,
}

/// The function that a term applies, for those that the solver closes under congruence.
pub open spec fn func_of(m: &TermManager, t: TermId) -> Option<FuncId> {
    if !m.has(t) {
        None
    } else {
        match m.op(t) {
            Op::Apply(f) => Some(FuncId::Named(f)),
            Op::Select => Some(FuncId::Select),
            Op::DtConstructor(f) => Some(FuncId::Named(f)),
            Op::DtSelector(f) => Some(FuncId::Named(f)),
            _ => None,
        }
    }
}

/// The value of an integer literal of 64 bits.
pub open spec fn int_value(m: &TermManager, t: TermId) -> Option<i64> {
    if !m.has(t) {
        None
    } else {
        match m.op(t) {
            Op::IntConst { negative } => {
                let v = signed(negative, m.terms@[t as int].digits@);
                if i64::MIN <= v <= i64::MAX {
                    Some(v as i64)
                } else {
                    None
                }
            },
            _ => None,
        }
    }
}

/// The lowest digit and the width of a bit-vector literal.
pub open spec fn word_value(m: &TermManager, t: TermId) -> Option<(u64, u32)> {
    if !m.has(t) {
        None
    } else {
        match m.op(t) {
            Op::BitVecConst { width } => Some((low_digit(m, t), width)),
            _ => None,
        }
    }
}

/// Two terms are literals of the same value.
pub open spec fn same_literal(m: &TermManager, a: TermId, b: TermId) -> bool {
    ||| (int_value(m, a) is Some && int_value(m, a) == int_value(m, b))
    ||| (word_value(m, a) is Some && word_value(m, a) == word_value(m, b))
}

/// Two terms are literals of different values of one sort.
pub open spec fn other_literal(m: &TermManager, a: TermId, b: TermId) -> bool {
    ||| (int_value(m, a) is Some && int_value(m, b) is Some && int_value(m, a) != int_value(m, b))
    ||| (word_value(m, a) matches Some(x) && word_value(m, b) matches Some(y) && x.1 == y.1 && x.0 != y.0)
}

/// The instruction says only what holds of the terms by themselves: of function applications what
/// they apply, of literals and truth values whether they are equal. A function application is
/// introduced as one.
pub open spec fn cmd_valid(m: &TermManager, c: EufCmd) -> bool {
    match c {
        EufCmd::Truths => true,
        EufCmd::Intern { term } => func_of(m, term) is None,
        EufCmd::App { term, func, args } => {
            &&& func_of(m, term) == Some(func)
            &&& args@.len() == m.args(term).len()
            &&& forall|i: int|
                0 <= i < args@.len() ==> #[trigger] args@[i] == m.args(term)[i] || same_literal(m, m.args(term)[i], args@[i])
        },
        EufCmd::Merge { a, b, reason } => a == EufNode::Term(reason) && match b {
            EufNode::Term(y) => same_literal(m, reason, y),
            EufNode::True => m.has(reason) && m.op(reason) == Op::True,
            EufNode::False => m.has(reason) && m.op(reason) == Op::False,
        },
        EufCmd::Differ { a, b, reason } => b matches EufNode::Term(y) && a == EufNode::Term(reason) && other_literal(m, reason, y),
    }
}

/// What the instructions introduce, in their order; `True` stands for both truth values.
pub open spec fn brought(cmds: Seq<EufCmd>) -> Seq<EufNode>
    decreases cmds.len(),
{
    if cmds.len() == 0 {
        Seq::empty()
    } else {
        let before = brought(cmds.drop_last());
        match cmds.last() {
            EufCmd::Truths => before.push(EufNode::True),
            EufCmd::Intern { term } => before.push(EufNode::Term(term)),
            EufCmd::App { term, func, args } => before.push(EufNode::Term(term)),
            _ => before,
        }
    }
}

/// The node is introduced.
pub open spec fn stands_in(nodes: Seq<EufNode>, n: EufNode) -> bool {
    nodes.contains(
        if n is Term {
            n
        } else {
            EufNode::True
        },
    )
}

/// The instruction speaks of introduced nodes only, but for the one that it introduces.
pub open spec fn in_order(nodes: Seq<EufNode>, c: EufCmd) -> bool {
    match c {
        EufCmd::App { term, func, args } => forall|k: int| 0 <= k < args@.len() ==> nodes.contains(EufNode::Term(#[trigger] args@[k])),
        EufCmd::Merge { a, b, reason } => stands_in(nodes, a) && stands_in(nodes, b),
        EufCmd::Differ { a, b, reason } => stands_in(nodes, a) && stands_in(nodes, b),
        _ => true,
    }
}

/// What is introduced once the instructions from position `from` up to `i` are carried out, where
/// `nodes` were introduced before.
pub open spec fn nodes_at(nodes: Seq<EufNode>, cmds: Seq<EufCmd>, from: int, i: int) -> Seq<EufNode> {
    nodes + brought(cmds.subrange(from, i))
}

/// Lists of instructions one after the other introduce what each of them introduces.
proof fn lemma_brought(a: Seq<EufCmd>, b: Seq<EufCmd>)
    ensures
        brought(a + b) == brought(a) + brought(b),
    decreases b.len(),
{
    if b.len() == 0 {
        assert(a + b =~= a);
        assert(brought(a) + brought(b) =~= brought(a));
    } else {
        lemma_brought(a, b.drop_last());
        assert((a + b).drop_last() =~= a + b.drop_last());
        assert((a + b).last() == b.last());
        assert(brought(a + b) =~= brought(a) + brought(b));
    }
}

/// What one instruction introduces.
proof fn lemma_brought_one(c: EufCmd)
    ensures
        brought(seq![c]) == match c {
            EufCmd::Truths => seq![EufNode::True],
            EufCmd::Intern { term } => seq![EufNode::Term(term)],
            EufCmd::App { term, func, args } => seq![EufNode::Term(term)],
            _ => Seq::empty(),
        },
{
    assert(seq![c].drop_last() =~= Seq::<EufCmd>::empty());
    assert(seq![c].last() == c);
    assert(brought(Seq::<EufCmd>::empty()) =~= Seq::<EufNode>::empty());
}

/// Instructions carried out in two parts.
pub proof fn lemma_nodes_at(nodes: Seq<EufNode>, cmds: Seq<EufCmd>, from: int, mid: int, i: int)
    requires
        0 <= from <= mid <= i <= cmds.len(),
    ensures
        nodes_at(nodes_at(nodes, cmds, from, mid), cmds, mid, i) == nodes_at(nodes, cmds, from, i),
{
    assert(cmds.subrange(from, i) =~= cmds.subrange(from, mid) + cmds.subrange(mid, i));
    lemma_brought(cmds.subrange(from, mid), cmds.subrange(mid, i));
    assert(nodes_at(nodes_at(nodes, cmds, from, mid), cmds, mid, i) =~= nodes_at(nodes, cmds, from, i));
}

/// One instruction on top of others.
proof fn lemma_nodes_next(nodes: Seq<EufNode>, cmds: Seq<EufCmd>, from: int, i: int)
    requires
        0 <= from <= i < cmds.len(),
    ensures
        nodes_at(nodes, cmds, from, i + 1) == match cmds[i] {
            EufCmd::Truths => nodes_at(nodes, cmds, from, i).push(EufNode::True),
            EufCmd::Intern { term } => nodes_at(nodes, cmds, from, i).push(EufNode::Term(term)),
            EufCmd::App { term, func, args } => nodes_at(nodes, cmds, from, i).push(EufNode::Term(term)),
            _ => nodes_at(nodes, cmds, from, i),
        },
{
    lemma_nodes_at(nodes, cmds, from, i, i + 1);
    assert(cmds.subrange(i, i + 1) =~= seq![cmds[i]]);
    lemma_brought_one(cmds[i]);
    assert(nodes_at(nodes, cmds, from, i) + brought(seq![cmds[i]]) =~= match cmds[i] {
        EufCmd::Truths => nodes_at(nodes, cmds, from, i).push(EufNode::True),
        EufCmd::Intern { term } => nodes_at(nodes, cmds, from, i).push(EufNode::Term(term)),
        EufCmd::App { term, func, args } => nodes_at(nodes, cmds, from, i).push(EufNode::Term(term)),
        _ => nodes_at(nodes, cmds, from, i),
    });
}

/// Instructions that are in order, with what they introduce.
pub open spec fn ordered(nodes: Seq<EufNode>, cmds: Seq<EufCmd>, from: int) -> bool {
    forall|i: int| from <= i < cmds.len() ==> in_order(nodes_at(nodes, cmds, from, i), #[trigger] cmds[i])
}

/// No instruction: what was introduced stays so.
proof fn lemma_nodes_none(nodes: Seq<EufNode>, cmds: Seq<EufCmd>, from: int)
    requires
        0 <= from <= cmds.len(),
    ensures
        nodes_at(nodes, cmds, from, from) == nodes,
{
    assert(cmds.subrange(from, from) =~= Seq::<EufCmd>::empty());
    assert(nodes_at(nodes, cmds, from, from) =~= nodes);
}

/// What a list introduces depends on the list only.
proof fn lemma_nodes_same(nodes: Seq<EufNode>, a: Seq<EufCmd>, b: Seq<EufCmd>, from: int, i: int)
    requires
        0 <= from <= i <= a.len(),
        i <= b.len(),
        forall|k: int| 0 <= k < i ==> #[trigger] b[k] == a[k],
    ensures
        nodes_at(nodes, b, from, i) == nodes_at(nodes, a, from, i),
{
    assert(b.subrange(from, i) =~= a.subrange(from, i));
}

/// Ordered instructions on top of ordered instructions.
proof fn lemma_ordered(nodes: Seq<EufNode>, a: Seq<EufCmd>, b: Seq<EufCmd>, from: int)
    requires
        0 <= from <= a.len() <= b.len(),
        forall|k: int| 0 <= k < a.len() ==> #[trigger] b[k] == a[k],
        ordered(nodes, a, from),
        ordered(nodes_at(nodes, a, from, a.len() as int), b, a.len() as int),
    ensures
        ordered(nodes, b, from),
        nodes_at(nodes, b, from, b.len() as int) == nodes_at(
            nodes_at(nodes, a, from, a.len() as int),
            b,
            a.len() as int,
            b.len() as int,
        ),
{
    let mid = a.len() as int;
    lemma_nodes_same(nodes, a, b, from, mid);
    lemma_nodes_at(nodes, b, from, mid, b.len() as int);
    assert forall|i: int| from <= i < b.len() implies in_order(nodes_at(nodes, b, from, i), #[trigger] b[i]) by {
        if i < mid {
            lemma_nodes_same(nodes, a, b, from, i);
            assert(b[i] == a[i]);
        } else {
            lemma_nodes_at(nodes, b, from, mid, i);
        }
    }
}

/// One instruction that is in order.
proof fn lemma_ordered_push(nodes: Seq<EufNode>, a: Seq<EufCmd>, b: Seq<EufCmd>, from: int)
    requires
        0 <= from <= a.len(),
        b.len() == a.len() + 1,
        forall|k: int| 0 <= k < a.len() ==> #[trigger] b[k] == a[k],
        ordered(nodes, a, from),
        in_order(nodes_at(nodes, a, from, a.len() as int), b[a.len() as int]),
    ensures
        ordered(nodes, b, from),
        nodes_at(nodes, b, from, b.len() as int) == match b[a.len() as int] {
            EufCmd::Truths => nodes_at(nodes, a, from, a.len() as int).push(EufNode::True),
            EufCmd::Intern { term } => nodes_at(nodes, a, from, a.len() as int).push(EufNode::Term(term)),
            EufCmd::App { term, func, args } => nodes_at(nodes, a, from, a.len() as int).push(EufNode::Term(term)),
            _ => nodes_at(nodes, a, from, a.len() as int),
        },
{
    let n = a.len() as int;
    lemma_nodes_same(nodes, a, b, from, n);
    lemma_nodes_next(nodes, b, from, n);
    assert forall|i: int| from <= i < b.len() implies in_order(nodes_at(nodes, b, from, i), #[trigger] b[i]) by {
        if i < n {
            lemma_nodes_same(nodes, a, b, from, i);
            assert(b[i] == a[i]);
        }
    }
}

/// The instruction introduces the term.
pub open spec fn brings(c: EufCmd, t: TermId) -> bool {
    match c {
        EufCmd::Intern { term } => term == t,
        EufCmd::App { term, func, args } => term == t,
        _ => false,
    }
}

/// The instruction says that the two terms differ.
pub open spec fn parts_them(c: EufCmd, x: TermId, y: TermId) -> bool {
    match c {
        EufCmd::Differ { a, b, reason } => a == EufNode::Term(x) && b == EufNode::Term(y),
        _ => false,
    }
}

/// The instruction says that the two terms are equal.
pub open spec fn joins_them(c: EufCmd, x: TermId, y: TermId) -> bool {
    match c {
        EufCmd::Merge { a, b, reason } => a == EufNode::Term(x) && b == EufNode::Term(y),
        _ => false,
    }
}

/// An instruction since position `from` introduces the term.
pub open spec fn introduced(cmds: Seq<EufCmd>, from: int, t: TermId) -> bool {
    exists|i: int|
        from <= i < cmds.len() && brings(#[trigger] cmds[i], t)
}

/// An instruction since position `from` says that the two terms differ.
pub open spec fn told_apart(cmds: Seq<EufCmd>, from: int, x: TermId, y: TermId) -> bool {
    exists|i: int|
        from <= i < cmds.len() && parts_them(#[trigger] cmds[i], x, y)
}

/// An instruction since position `from` says that the two terms are equal.
pub open spec fn told_equal(cmds: Seq<EufCmd>, from: int, x: TermId, y: TermId) -> bool {
    exists|i: int|
        from <= i < cmds.len() && joins_them(#[trigger] cmds[i], x, y)
}

/// The truth value that a term is.
pub open spec fn truth_value(m: &TermManager, t: TermId) -> Option<bool> {
    if m.has(t) && m.op(t) == Op::True {
        Some(true)
    } else if m.has(t) && m.op(t) == Op::False {
        Some(false)
    } else {
        None
    }
}

/// The instruction that equates a term with a truth value.
pub open spec fn truth_cmd(t: TermId, value: bool) -> EufCmd {
    EufCmd::Merge {
        a: EufNode::Term(t),
        b: if value {
            EufNode::True
        } else {
            EufNode::False
        },
        reason: t,
    }
}

/// An instruction since position `from` equates the term with the truth value.
pub open spec fn told_truth(cmds: Seq<EufCmd>, from: int, t: TermId, value: bool) -> bool {
    exists|i: int| from <= i < cmds.len() && #[trigger] cmds[i] == truth_cmd(t, value)
}

/// The term stands among the first `k` introduced ones.
pub open spec fn among(nodes: Seq<EufNode>, k: int, t: TermId) -> bool {
    exists|i: int| 0 <= i < k && #[trigger] nodes[i] == EufNode::Term(t)
}

/// A literal's first introduced term of its value is on the table.
pub open spec fn tabled_in(
    m: &TermManager,
    nodes: Seq<EufNode>,
    ints: Seq<(i64, TermId)>,
    words: Seq<((u64, u32), TermId)>,
    k: int,
    t: TermId,
) -> bool {
    &&& int_value(m, t) matches Some(v) ==> exists|i: int|
        0 <= i < ints.len() && (#[trigger] ints[i]).0 == v && among(nodes, k, ints[i].1)
    &&& word_value(m, t) matches Some(v) ==> exists|i: int|
        0 <= i < words.len() && (#[trigger] words[i]).0 == v && among(nodes, k, words[i].1)
}

impl EufPlan {
    /// There are no instructions, and nothing is introduced.
    pub open spec fn is_blank(&self) -> bool {
        &&& self.cmds@.len() == 0
        &&& self.nodes@.len() == 0
        &&& self.interned@ == Set::<usize>::empty()
        &&& self.ints@.len() == 0
        &&& self.words@.len() == 0
        &&& !self.truths
    }

    /// The store holds every introduced term.
    pub open spec fn within(&self, m: &TermManager) -> bool {
        forall|t: usize| #[trigger] self.interned@.contains(t) ==> m.has(t)
    }

    /// The nodes of this plan are the first ones of another.
    pub open spec fn begins(&self, later: &EufPlan) -> bool {
        self.nodes@.len() <= later.nodes@.len() && later.nodes@.take(self.nodes@.len() as int) == self.nodes@
    }

    /// Every term is introduced once, behind the arguments of the function that it applies; the
    /// tables hold for each introduced literal one of its value, and each value once.
    pub open spec fn wf(&self, m: &TermManager) -> bool {
        &&& self.nodes@.no_duplicates()
        &&& forall|t: usize| #[trigger] self.interned@.contains(t) <==> self.nodes@.contains(EufNode::Term(t))
        &&& self.truths <==> self.nodes@.contains(EufNode::True)
        &&& forall|k: int, t: usize, i: int|
            0 <= k < self.nodes@.len() && #[trigger] self.nodes@[k] == EufNode::Term(t) && func_of(m, t) is Some && 0 <= i < m.args(
                t,
            ).len() ==> among(self.nodes@, k, #[trigger] m.args(t)[i])
        &&& forall|k: int, t: usize|
            0 <= k < self.nodes@.len() && #[trigger] self.nodes@[k] == EufNode::Term(t) ==> #[trigger] tabled_in(m, self.nodes@, self.ints@, self.words@, k + 1, t)
        &&& forall|i: int|
            0 <= i < self.ints@.len() ==> self.interned@.contains((#[trigger] self.ints@[i]).1) && int_value(m, self.ints@[i].1)
                == Some(self.ints@[i].0)
        &&& forall|i: int|
            0 <= i < self.words@.len() ==> self.interned@.contains((#[trigger] self.words@[i]).1) && word_value(m, self.words@[i].1)
                == Some(self.words@[i].0)
        &&& forall|i: int, j: int| 0 <= i < j < self.ints@.len() ==> (#[trigger] self.ints@[i]).0 != (#[trigger] self.ints@[j]).0
        &&& forall|i: int, j: int| 0 <= i < j < self.words@.len() ==> (#[trigger] self.words@[i]).0 != (#[trigger] self.words@[j]).0
    }

    /// `later` has more instructions, as `extends_to` says, and equates new terms that are truth
    /// values with those of the solver, which are introduced.
    pub open spec fn leads_to(&self, later: &EufPlan, m: &TermManager) -> bool {
        &&& self.extends_to(later, m)
        &&& forall|t: usize|
            #[trigger] later.interned@.contains(t) && !self.interned@.contains(t) && truth_value(m, t) is Some ==> later.truths
                && told_truth(later.cmds@, self.cmds@.len() as int, t, truth_value(m, t)->0)
    }

    /// `later` has more instructions, all of them valid; they introduce exactly what is new in it, in
    /// this order, and speak of nodes only that are introduced before. They tell new values of
    /// literals apart from those on the tables, and equate other new literals with those of their
    /// value.
    pub open spec fn extends_to(&self, later: &EufPlan, m: &TermManager) -> bool {
        let from = self.cmds@.len() as int;
        &&& from <= later.cmds@.len()
        &&& forall|i: int| 0 <= i < from ==> #[trigger] later.cmds@[i] == self.cmds@[i]
        &&& forall|i: int| from <= i < later.cmds@.len() ==> cmd_valid(m, #[trigger] later.cmds@[i])
        &&& later.nodes@ == nodes_at(self.nodes@, later.cmds@, from, later.cmds@.len() as int)
        &&& ordered(self.nodes@, later.cmds@, from)
        &&& self.nodes@.len() <= later.nodes@.len()
        &&& forall|i: int| 0 <= i < self.nodes@.len() ==> #[trigger] later.nodes@[i] == self.nodes@[i]
        &&& self.ints@.len() <= later.ints@.len()
        &&& forall|i: int| 0 <= i < self.ints@.len() ==> #[trigger] later.ints@[i] == self.ints@[i]
        &&& self.words@.len() <= later.words@.len()
        &&& forall|i: int| 0 <= i < self.words@.len() ==> #[trigger] later.words@[i] == self.words@[i]
        &&& forall|t: usize|
            #[trigger] later.interned@.contains(t) && !self.interned@.contains(t) ==> introduced(later.cmds@, from, t)
        &&& forall|i: int, j: int|
            0 <= i < j < later.ints@.len() && self.ints@.len() <= j ==> told_apart(
                later.cmds@,
                from,
                (#[trigger] later.ints@[j]).1,
                (#[trigger] later.ints@[i]).1,
            )
        &&& forall|i: int, j: int|
            0 <= i < j < later.words@.len() && self.words@.len() <= j && (#[trigger] later.words@[i]).0.1 == (
            #[trigger] later.words@[j]).0.1 ==> told_apart(later.cmds@, from, later.words@[j].1, later.words@[i].1)
        &&& forall|t: usize, i: int|
            #[trigger] later.interned@.contains(t) && !self.interned@.contains(t) && 0 <= i < later.ints@.len() && int_value(m, t)
                == Some((#[trigger] later.ints@[i]).0) && later.ints@[i].1 != t ==> told_equal(later.cmds@, from, t, later.ints@[i].1)
        &&& forall|t: usize, i: int|
            #[trigger] later.interned@.contains(t) && !self.interned@.contains(t) && 0 <= i < later.words@.len() && word_value(m, t)
                == Some((#[trigger] later.words@[i]).0) && later.words@[i].1 != t ==> told_equal(
                later.cmds@,
                from,
                t,
                later.words@[i].1,
            )
        &&& self.truths ==> later.truths
    }
}

/// What was introduced stays so.
pub proof fn lemma_interned_stays(a: &EufPlan, b: &EufPlan, m: &TermManager, t: TermId)
    requires
        a.wf(m),
        b.wf(m),
        a.leads_to(b, m),
        a.interned@.contains(t),
    ensures
        b.interned@.contains(t),
{
    let i = choose|i: int| 0 <= i < a.nodes@.len() && a.nodes@[i] == EufNode::Term(t);
    assert(b.nodes@[i] == EufNode::Term(t));
    assert(b.nodes@.contains(EufNode::Term(t)));
}

/// Instructions that stand in an earlier list stand in a later one.
proof fn lemma_told_stays(a: Seq<EufCmd>, b: Seq<EufCmd>, from: int, x: TermId, y: TermId)
    requires
        a.len() <= b.len(),
        forall|i: int| 0 <= i < a.len() ==> #[trigger] b[i] == a[i],
        0 <= from,
    ensures
        told_apart(a, from, x, y) ==> told_apart(b, from, x, y),
        told_equal(a, from, x, y) ==> told_equal(b, from, x, y),
        introduced(a, from, x) ==> introduced(b, from, x),
{
    if told_apart(a, from, x, y) {
        let i = choose|i: int|
            from <= i < a.len() && parts_them(#[trigger] a[i], x, y);
        assert(b[i] == a[i]);
    }
    if told_equal(a, from, x, y) {
        let i = choose|i: int|
            from <= i < a.len() && joins_them(#[trigger] a[i], x, y);
        assert(b[i] == a[i]);
    }
    if introduced(a, from, x) {
        let i = choose|i: int|
            from <= i < a.len() && brings(#[trigger] a[i], x);
        assert(b[i] == a[i]);
    }
}

/// Instructions since a later position stand since an earlier one.
proof fn lemma_told_since(c: Seq<EufCmd>, early: int, late: int, x: TermId, y: TermId)
    requires
        early <= late,
    ensures
        told_apart(c, late, x, y) ==> told_apart(c, early, x, y),
        told_equal(c, late, x, y) ==> told_equal(c, early, x, y),
        introduced(c, late, x) ==> introduced(c, early, x),
{
    if told_apart(c, late, x, y) {
        let i = choose|i: int|
            late <= i < c.len() && parts_them(#[trigger] c[i], x, y);
        assert(early <= i);
    }
    if told_equal(c, late, x, y) {
        let i = choose|i: int|
            late <= i < c.len() && joins_them(#[trigger] c[i], x, y);
        assert(early <= i);
    }
    if introduced(c, late, x) {
        let i = choose|i: int|
            late <= i < c.len() && brings(#[trigger] c[i], x);
        assert(early <= i);
    }
}

/// Steps one after the other are one step, truth values among them.
pub proof fn lemma_leads(a: &EufPlan, b: &EufPlan, c: &EufPlan, m: &TermManager)
    requires
        a.wf(m),
        b.wf(m),
        c.wf(m),
        a.leads_to(b, m),
        b.leads_to(c, m),
    ensures
        a.leads_to(c, m),
{
    lemma_extends(a, b, c, m);
    assert forall|t: usize| #[trigger]
        c.interned@.contains(t) && !a.interned@.contains(t) && truth_value(m, t) is Some implies c.truths && told_truth(
        c.cmds@,
        a.cmds@.len() as int,
        t,
        truth_value(m, t)->0,
    ) by {
        let v = truth_value(m, t)->0;
        if b.interned@.contains(t) {
            let i = choose|i: int| a.cmds@.len() <= i < b.cmds@.len() && #[trigger] b.cmds@[i] == truth_cmd(t, v);
            assert(c.cmds@[i] == truth_cmd(t, v));
        } else {
            let i = choose|i: int| b.cmds@.len() <= i < c.cmds@.len() && #[trigger] c.cmds@[i] == truth_cmd(t, v);
            assert(c.cmds@[i] == truth_cmd(t, v));
        }
    }
}

/// Steps one after the other are one step.
#[verifier::spinoff_prover]
#[verifier::rlimit(40)]
proof fn lemma_extends(a: &EufPlan, b: &EufPlan, c: &EufPlan, m: &TermManager)
    requires
        a.wf(m),
        b.wf(m),
        c.wf(m),
        a.extends_to(b, m),
        b.extends_to(c, m),
    ensures
        a.extends_to(c, m),
{
    let from = a.cmds@.len() as int;
    let mid = b.cmds@.len() as int;
    assert forall|i: int| 0 <= i < from implies #[trigger] c.cmds@[i] == a.cmds@[i] by {
        assert(b.cmds@[i] == a.cmds@[i]);
    }
    assert forall|i: int| from <= i < c.cmds@.len() implies cmd_valid(m, #[trigger] c.cmds@[i]) by {
        if i < mid {
            assert(c.cmds@[i] == b.cmds@[i]);
        }
    }
    lemma_ordered(a.nodes@, b.cmds@, c.cmds@, from);
    assert forall|i: int| 0 <= i < a.nodes@.len() implies #[trigger] c.nodes@[i] == a.nodes@[i] by {
        assert(b.nodes@[i] == a.nodes@[i]);
    }
    assert forall|i: int| 0 <= i < a.ints@.len() implies #[trigger] c.ints@[i] == a.ints@[i] by {
        assert(b.ints@[i] == a.ints@[i]);
    }
    assert forall|i: int| 0 <= i < a.words@.len() implies #[trigger] c.words@[i] == a.words@[i] by {
        assert(b.words@[i] == a.words@[i]);
    }
    assert forall|t: usize| #[trigger] c.interned@.contains(t) && !a.interned@.contains(t) implies introduced(c.cmds@, from, t) by {
        lemma_told_stays(b.cmds@, c.cmds@, from, t, t);
        lemma_told_since(c.cmds@, from, mid, t, t);
        if b.interned@.contains(t) {
            assert(introduced(b.cmds@, from, t));
        }
    }
    assert forall|i: int, j: int| 0 <= i < j < c.ints@.len() && a.ints@.len() <= j implies told_apart(
        c.cmds@,
        from,
        (#[trigger] c.ints@[j]).1,
        (#[trigger] c.ints@[i]).1,
    ) by {
        let x = c.ints@[j].1;
        let y = c.ints@[i].1;
        lemma_told_stays(b.cmds@, c.cmds@, from, x, y);
        lemma_told_since(c.cmds@, from, mid, x, y);
        if j < b.ints@.len() {
            assert(c.ints@[j] == b.ints@[j] && c.ints@[i] == b.ints@[i]);
        }
    }
    assert forall|i: int, j: int|
        0 <= i < j < c.words@.len() && a.words@.len() <= j && (#[trigger] c.words@[i]).0.1 == (#[trigger] c.words@[j]).0.1 implies told_apart(
        c.cmds@,
        from,
        c.words@[j].1,
        c.words@[i].1,
    ) by {
        let x = c.words@[j].1;
        let y = c.words@[i].1;
        lemma_told_stays(b.cmds@, c.cmds@, from, x, y);
        lemma_told_since(c.cmds@, from, mid, x, y);
        if j < b.words@.len() {
            assert(c.words@[j] == b.words@[j] && c.words@[i] == b.words@[i]);
        }
    }
    assert forall|t: usize, i: int|
        #[trigger] c.interned@.contains(t) && !a.interned@.contains(t) && 0 <= i < c.ints@.len() && int_value(m, t) == Some(
            (#[trigger] c.ints@[i]).0,
        ) && c.ints@[i].1 != t implies told_equal(c.cmds@, from, t, c.ints@[i].1) by {
        let y = c.ints@[i].1;
        lemma_told_stays(b.cmds@, c.cmds@, from, t, y);
        lemma_told_since(c.cmds@, from, mid, t, y);
        if b.interned@.contains(t) {
            let k = choose|k: int| 0 <= k < b.nodes@.len() && b.nodes@[k] == EufNode::Term(t);
            assert(tabled_in(m, b.nodes@, b.ints@, b.words@, k + 1, t));
            let j = choose|j: int| 0 <= j < b.ints@.len() && (#[trigger] b.ints@[j]).0 == int_value(m, t)->0 && among(
                b.nodes@,
                k + 1,
                b.ints@[j].1,
            );
            assert(c.ints@[j] == b.ints@[j]);
            assert(j == i);
        }
    }
    assert forall|t: usize, i: int|
        #[trigger] c.interned@.contains(t) && !a.interned@.contains(t) && 0 <= i < c.words@.len() && word_value(m, t) == Some(
            (#[trigger] c.words@[i]).0,
        ) && c.words@[i].1 != t implies told_equal(c.cmds@, from, t, c.words@[i].1) by {
        let y = c.words@[i].1;
        lemma_told_stays(b.cmds@, c.cmds@, from, t, y);
        lemma_told_since(c.cmds@, from, mid, t, y);
        if b.interned@.contains(t) {
            let k = choose|k: int| 0 <= k < b.nodes@.len() && b.nodes@[k] == EufNode::Term(t);
            assert(tabled_in(m, b.nodes@, b.ints@, b.words@, k + 1, t));
            let j = choose|j: int| 0 <= j < b.words@.len() && (#[trigger] b.words@[j]).0 == word_value(m, t)->0 && among(
                b.nodes@,
                k + 1,
                b.words@[j].1,
            );
            assert(c.words@[j] == b.words@[j]);
            assert(j == i);
        }
    }
}

/// A list that goes on holds what it held.
proof fn lemma_nodes_push(nodes: Seq<EufNode>, n: EufNode)
    ensures
        forall|x: EufNode| #[trigger] nodes.push(n).contains(x) <==> nodes.contains(x) || x == n,
        forall|k: int, t: TermId| k <= nodes.len() ==> (#[trigger] among(nodes.push(n), k, t) <==> among(nodes, k, t)),
        nodes.no_duplicates() && !nodes.contains(n) ==> nodes.push(n).no_duplicates(),
{
    let p = nodes.push(n);
    assert forall|x: EufNode| #[trigger] p.contains(x) <==> nodes.contains(x) || x == n by {
        if nodes.contains(x) {
            let i = choose|i: int| 0 <= i < nodes.len() && nodes[i] == x;
            assert(p[i] == x);
        }
        if x == n {
            assert(p[nodes.len() as int] == x);
        }
        if p.contains(x) {
            let i = choose|i: int| 0 <= i < p.len() && p[i] == x;
            if i < nodes.len() {
                assert(nodes[i] == x);
            }
        }
    }
    assert forall|k: int, t: TermId| k <= nodes.len() implies (#[trigger] among(p, k, t) <==> among(nodes, k, t)) by {
        if among(p, k, t) {
            let i = choose|i: int| 0 <= i < k && #[trigger] p[i] == EufNode::Term(t);
            assert(nodes[i] == EufNode::Term(t));
        }
        if among(nodes, k, t) {
            let i = choose|i: int| 0 <= i < k && #[trigger] nodes[i] == EufNode::Term(t);
            assert(p[i] == EufNode::Term(t));
        }
    }
    if nodes.no_duplicates() && !nodes.contains(n) {
        assert forall|i: int, j: int| 0 <= i < p.len() && 0 <= j < p.len() && i != j implies p[i] != p[j] by {
            if i == nodes.len() {
                assert(nodes.contains(p[j]));
            } else if j == nodes.len() {
                assert(nodes.contains(p[i]));
            }
        }
    }
}

/// An introduced term is among all introduced ones.
proof fn lemma_interned_among(p: &EufPlan, m: &TermManager, t: TermId)
    requires
        p.wf(m),
        p.interned@.contains(t),
    ensures
        among(p.nodes@, p.nodes@.len() as int, t),
{
    assert(p.nodes@.contains(EufNode::Term(t)));
    let i = choose|i: int| 0 <= i < p.nodes@.len() && p.nodes@[i] == EufNode::Term(t);
    assert(p.nodes@[i] == EufNode::Term(t));
}

/// The state after the introduction of one more term is well formed.
#[verifier::spinoff_prover]
#[verifier::rlimit(30)]
proof fn lemma_wf_push(m: &TermManager, a: &EufPlan, b: &EufPlan, t: TermId)
    requires
        a.wf(m),
        !a.interned@.contains(t),
        b.nodes@ == a.nodes@.push(EufNode::Term(t)),
        b.interned@ == a.interned@.insert(t),
        b.truths == a.truths,
        func_of(m, t) is Some ==> forall|i: int| 0 <= i < m.args(t).len() ==> a.interned@.contains(#[trigger] m.args(t)[i]),
        b.ints@ == a.ints@ || (int_value(m, t) is Some && b.ints@ == a.ints@.push((int_value(m, t)->0, t)) && forall|i: int|
            0 <= i < a.ints@.len() ==> (#[trigger] a.ints@[i]).0 != int_value(m, t)->0),
        b.words@ == a.words@ || (word_value(m, t) is Some && b.words@ == a.words@.push((word_value(m, t)->0, t)) && forall|i: int|
            0 <= i < a.words@.len() ==> (#[trigger] a.words@[i]).0 != word_value(m, t)->0),
        int_value(m, t) matches Some(v) ==> exists|i: int| 0 <= i < b.ints@.len() && (#[trigger] b.ints@[i]).0 == v,
        word_value(m, t) matches Some(v) ==> exists|i: int| 0 <= i < b.words@.len() && (#[trigger] b.words@[i]).0 == v,
    ensures
        b.wf(m),
{
    let n = EufNode::Term(t);
    let k0 = a.nodes@.len() as int;
    lemma_nodes_push(a.nodes@, n);
    assert forall|s: usize| #[trigger] b.interned@.contains(s) <==> b.nodes@.contains(EufNode::Term(s)) by {
        assert(b.nodes@.contains(EufNode::Term(s)) <==> a.nodes@.contains(EufNode::Term(s)) || s == t);
    }
    assert forall|k: int, s: usize, i: int|
        0 <= k < b.nodes@.len() && #[trigger] b.nodes@[k] == EufNode::Term(s) && func_of(m, s) is Some && 0 <= i < m.args(s).len() implies among(
        b.nodes@,
        k,
        #[trigger] m.args(s)[i],
    ) by {
        if k < k0 {
            assert(a.nodes@[k] == EufNode::Term(s));
            assert(among(a.nodes@, k, m.args(s)[i]));
            assert(among(b.nodes@, k, m.args(s)[i]));
        } else {
            lemma_interned_among(a, m, m.args(s)[i]);
            assert(among(b.nodes@, k0, m.args(s)[i]));
        }
    }
    assert forall|i: int| 0 <= i < a.ints@.len() implies b.ints@[i] == #[trigger] a.ints@[i] by {}
    assert forall|i: int| 0 <= i < a.words@.len() implies b.words@[i] == #[trigger] a.words@[i] by {}
    assert forall|i: int| 0 <= i < b.ints@.len() implies b.interned@.contains((#[trigger] b.ints@[i]).1) && int_value(
        m,
        b.ints@[i].1,
    ) == Some(b.ints@[i].0) by {
        if i < a.ints@.len() {
            assert(b.ints@[i] == a.ints@[i]);
        }
    }
    assert forall|i: int| 0 <= i < b.words@.len() implies b.interned@.contains((#[trigger] b.words@[i]).1) && word_value(
        m,
        b.words@[i].1,
    ) == Some(b.words@[i].0) by {
        if i < a.words@.len() {
            assert(b.words@[i] == a.words@[i]);
        }
    }
    assert forall|k: int, s: usize| 0 <= k < b.nodes@.len() && #[trigger] b.nodes@[k] == EufNode::Term(s) implies #[trigger] tabled_in(m, b.nodes@, b.ints@, b.words@, k + 1, s) by {
        if k < k0 {
            assert(a.nodes@[k] == EufNode::Term(s));
            assert(tabled_in(m, a.nodes@, a.ints@, a.words@, k + 1, s));
            if let Some(v) = int_value(m, s) {
                let i = choose|i: int|
                    0 <= i < a.ints@.len() && (#[trigger] a.ints@[i]).0 == v && among(a.nodes@, k + 1, a.ints@[i].1);
                assert(b.ints@[i] == a.ints@[i]);
                assert(among(b.nodes@, k + 1, b.ints@[i].1));
            }
            if let Some(v) = word_value(m, s) {
                let i = choose|i: int|
                    0 <= i < a.words@.len() && (#[trigger] a.words@[i]).0 == v && among(a.nodes@, k + 1, a.words@[i].1);
                assert(b.words@[i] == a.words@[i]);
                assert(among(b.nodes@, k + 1, b.words@[i].1));
            }
        } else {
            assert(s == t);
            if let Some(v) = int_value(m, s) {
                let i = choose|i: int| 0 <= i < b.ints@.len() && (#[trigger] b.ints@[i]).0 == v;
                let x = b.ints@[i].1;
                assert(b.interned@.contains(x));
                assert(b.nodes@.contains(EufNode::Term(x)));
                let j = choose|j: int| 0 <= j < b.nodes@.len() && b.nodes@[j] == EufNode::Term(x);
                assert(b.nodes@[j] == EufNode::Term(x));
                assert(among(b.nodes@, k + 1, x));
            }
            if let Some(v) = word_value(m, s) {
                let i = choose|i: int| 0 <= i < b.words@.len() && (#[trigger] b.words@[i]).0 == v;
                let x = b.words@[i].1;
                assert(b.interned@.contains(x));
                assert(b.nodes@.contains(EufNode::Term(x)));
                let j = choose|j: int| 0 <= j < b.nodes@.len() && b.nodes@[j] == EufNode::Term(x);
                assert(b.nodes@[j] == EufNode::Term(x));
                assert(among(b.nodes@, k + 1, x));
            }
        }
    }
    assert(b.nodes@.contains(EufNode::True) <==> a.nodes@.contains(EufNode::True));
}

/// A state leads to itself.
pub proof fn lemma_leads_self(p: &EufPlan, m: &TermManager)
    ensures
        p.leads_to(p, m),
{
    lemma_nodes_none(p.nodes@, p.cmds@, p.cmds@.len() as int);
}

/// One instruction on top of a plan.
proof fn lemma_one_more(a: &EufPlan, b: &EufPlan)
    requires
        b.cmds@.len() == a.cmds@.len() + 1,
        forall|i: int| 0 <= i < a.cmds@.len() ==> #[trigger] b.cmds@[i] == a.cmds@[i],
        in_order(a.nodes@, b.cmds@.last()),
    ensures
        ordered(a.nodes@, b.cmds@, a.cmds@.len() as int),
        nodes_at(a.nodes@, b.cmds@, a.cmds@.len() as int, b.cmds@.len() as int) == match b.cmds@.last() {
            EufCmd::Truths => a.nodes@.push(EufNode::True),
            EufCmd::Intern { term } => a.nodes@.push(EufNode::Term(term)),
            EufCmd::App { term, func, args } => a.nodes@.push(EufNode::Term(term)),
            _ => a.nodes@,
        },
{
    let from = a.cmds@.len() as int;
    lemma_nodes_none(a.nodes@, a.cmds@, from);
    lemma_ordered_push(a.nodes@, a.cmds@, b.cmds@, from);
}

impl EufPlan {
    /// Nothing is introduced.
    pub fn new() -> (p: EufPlan)
        ensures
            p.is_blank(),
            forall|m: &TermManager| #[trigger] p.wf(m),
    {
        EufPlan {
            cmds: Vec::new(),
            nodes: Vec::new(),
            interned: set_new(),
            ints: Vec::new(),
            words: Vec::new(),
            truths: false,
        }
    }

    /// Introduces a term that is no literal, with the given instruction.
    fn introduce(&mut self, m: &TermManager, t: TermId, c: EufCmd)
        requires
            old(self).wf(m),
            !old(self).interned@.contains(t),
            int_value(m, t) is None,
            word_value(m, t) is None,
            func_of(m, t) is Some ==> forall|i: int|
                0 <= i < m.args(t).len() ==> old(self).interned@.contains(#[trigger] m.args(t)[i]),
            cmd_valid(m, c),
            brings(c, t),
            in_order(old(self).nodes@, c),
        ensures
            final(self).wf(m),
            old(self).extends_to(final(self), m),
            truth_value(m, t) is None ==> old(self).leads_to(final(self), m),
            final(self).interned@ == old(self).interned@.insert(t),
            final(self).cmds@ == old(self).cmds@.push(c),
    {
        self.cmds.push(c);
        self.nodes.push(EufNode::Term(t));
        set_insert(&mut self.interned, t);
        proof {
            lemma_one_more(old(self), self);
            lemma_wf_push(m, old(self), self, t);
            assert(brings(self.cmds@[old(self).cmds@.len() as int], t));
            assert(introduced(self.cmds@, old(self).cmds@.len() as int, t));
        }
    }

    /// Introduces the truth values.
    pub fn ensure_bool_nodes(&mut self, m: &TermManager)
        requires
            old(self).wf(m),
        ensures
            final(self).wf(m),
            old(self).leads_to(final(self), m),
            final(self).interned@ == old(self).interned@,
            final(self).truths,
            old(self).truths ==> *final(self) == *old(self),
            !old(self).truths ==> final(self).cmds@ == old(self).cmds@.push(EufCmd::Truths),
    {
        proof {
            lemma_leads_self(self, m);
        }
        if self.truths {
            return ;
        }
        self.cmds.push(EufCmd::Truths);
        self.nodes.push(EufNode::True);
        self.truths = true;
        proof {
            let a = old(self);
            lemma_one_more(a, self);
            lemma_nodes_push(a.nodes@, EufNode::True);
            assert forall|s: usize| #[trigger] self.interned@.contains(s) <==> self.nodes@.contains(EufNode::Term(s)) by {
                assert(self.nodes@.contains(EufNode::Term(s)) <==> a.nodes@.contains(EufNode::Term(s)));
            }
            assert(self.nodes@.contains(EufNode::True));
            assert forall|k: int, s: usize, i: int|
                0 <= k < self.nodes@.len() && #[trigger] self.nodes@[k] == EufNode::Term(s) && func_of(m, s) is Some && 0 <= i < m.args(
                    s,
                ).len() implies among(self.nodes@, k, #[trigger] m.args(s)[i]) by {
                assert(a.nodes@[k] == EufNode::Term(s));
                assert(among(a.nodes@, k, m.args(s)[i]));
            }
            assert forall|k: int, s: usize| 0 <= k < self.nodes@.len() && #[trigger] self.nodes@[k] == EufNode::Term(s) implies #[trigger] tabled_in(m, self.nodes@, self.ints@, self.words@, k + 1, s) by {
                assert(a.nodes@[k] == EufNode::Term(s));
                assert(tabled_in(m, a.nodes@, a.ints@, a.words@, k + 1, s));
                if let Some(v) = int_value(m, s) {
                    let i = choose|i: int|
                        0 <= i < a.ints@.len() && (#[trigger] a.ints@[i]).0 == v && among(a.nodes@, k + 1, a.ints@[i].1);
                    assert(among(self.nodes@, k + 1, self.ints@[i].1));
                }
                if let Some(v) = word_value(m, s) {
                    let i = choose|i: int|
                        0 <= i < a.words@.len() && (#[trigger] a.words@[i]).0 == v && among(a.nodes@, k + 1, a.words@[i].1);
                    assert(among(self.nodes@, k + 1, self.words@[i].1));
                }
            }
        }
    }

    /// Introduces an integer literal; the first of its value is told apart from all others, any
    /// further one is equated with it. The result is the first of its value.
    #[verifier::spinoff_prover]
    #[verifier::rlimit(40)]
    fn introduce_int(&mut self, m: &TermManager, t: TermId, v: i64) -> (r: TermId)
        requires
            m.wf(),
            old(self).wf(m),
            !old(self).interned@.contains(t),
            int_value(m, t) == Some(v),
        ensures
            final(self).wf(m),
            old(self).leads_to(final(self), m),
            final(self).interned@ == old(self).interned@.insert(t),
            final(self).interned@.contains(r),
            int_value(m, r) == Some(v),
    {
        let ghost from = self.cmds@.len() as int;
        self.cmds.push(EufCmd::Intern { term: t });
        self.nodes.push(EufNode::Term(t));
        set_insert(&mut self.interned, t);
        let mut i: usize = 0;
        while i < self.ints.len()
            invariant
                i <= self.ints.len(),
                self.ints@ == old(self).ints@,
                self.words@ == old(self).words@,
                self.nodes@ == old(self).nodes@.push(EufNode::Term(t)),
                self.interned@ == old(self).interned@.insert(t),
                self.truths == old(self).truths,
                self.cmds@ == old(self).cmds@.push(EufCmd::Intern { term: t }),
                from == old(self).cmds@.len(),
                old(self).wf(m),
                !old(self).interned@.contains(t),
                int_value(m, t) == Some(v),
                forall|k: int| 0 <= k < i ==> (#[trigger] self.ints@[k]).0 != v,
            decreases self.ints.len() - i,
        {
            if self.ints[i].0 == v {
                let first: usize = self.ints[i].1;
                let ghost once = self.cmds@;
                self.cmds.push(EufCmd::Merge { a: EufNode::Term(t), b: EufNode::Term(first), reason: t });
                proof {
                    assert(old(self).interned@.contains(old(self).ints@[i as int].1));
                    lemma_literal_told(old(self), t, first, once, self.cmds@);
                    assert(old(self).ints@[i as int].0 == v);
                    assert(self.ints@[i as int].0 == v);
                    lemma_wf_push(m, old(self), self, t);
                    let c = self.cmds@;
                    assert(brings(c[from], t));
                    assert(introduced(c, from, t));
                    assert(joins_them(c[from + 1], t, first));
                    assert(told_equal(c, from, t, first));
                    assert forall|s: usize, j: int|
                        #[trigger] self.interned@.contains(s) && !old(self).interned@.contains(s) && 0 <= j < self.ints@.len()
                            && int_value(m, s) == Some((#[trigger] self.ints@[j]).0) && self.ints@[j].1 != s implies told_equal(
                        c,
                        from,
                        s,
                        self.ints@[j].1,
                    ) by {
                        assert(s == t);
                        assert(self.ints@[j].0 == self.ints@[i as int].0);
                        assert(j == i);
                    }
                }
                return first;
            }
            i = i + 1;
        }
        let n: usize = self.ints.len();
        let mut j: usize = 0;
        proof {
            lemma_literal_new(old(self), t, self.cmds@);
        }
        while j < n
            invariant
                j <= n,
                n == self.ints@.len(),
                self.ints@ == old(self).ints@,
                self.words@ == old(self).words@,
                self.nodes@ == old(self).nodes@.push(EufNode::Term(t)),
                self.interned@ == old(self).interned@.insert(t),
                self.truths == old(self).truths,
                from == old(self).cmds@.len(),
                self.cmds@.len() == from + 1 + j,
                forall|k: int| 0 <= k < from ==> #[trigger] self.cmds@[k] == old(self).cmds@[k],
                self.cmds@[from] == (EufCmd::Intern { term: t }),
                ordered(old(self).nodes@, self.cmds@, from),
                nodes_at(old(self).nodes@, self.cmds@, from, self.cmds@.len() as int) == old(self).nodes@.push(EufNode::Term(t)),
                forall|k: int| from < k < self.cmds@.len() ==> cmd_valid(m, #[trigger] self.cmds@[k]),
                forall|k: int| 0 <= k < j ==> told_apart(self.cmds@, from, t, (#[trigger] self.ints@[k]).1),
                old(self).wf(m),
                int_value(m, t) == Some(v),
                forall|k: int| 0 <= k < n ==> (#[trigger] self.ints@[k]).0 != v,
            decreases n - j,
        {
            let other: usize = self.ints[j].1;
            let ghost before = self.cmds@;
            assert(old(self).ints@[j as int].0 != v);
            self.cmds.push(EufCmd::Differ { a: EufNode::Term(t), b: EufNode::Term(other), reason: t });
            proof {
                assert(old(self).interned@.contains(old(self).ints@[j as int].1));
                lemma_literal_told(old(self), t, other, before, self.cmds@);
                assert(parts_them(self.cmds@[before.len() as int], t, other));
                assert forall|k: int| 0 <= k < j + 1 implies told_apart(self.cmds@, from, t, (#[trigger] self.ints@[k]).1) by {
                    if k < j {
                        lemma_told_stays(before, self.cmds@, from, t, self.ints@[k].1);
                    }
                }
            }
            j = j + 1;
        }
        self.ints.push((v, t));
        proof {
            assert(self.ints@[n as int].0 == v);
            lemma_wf_push(m, old(self), self, t);
            let c = self.cmds@;
            assert(brings(c[from], t));
            assert(introduced(c, from, t));
            assert forall|a: int, b: int| 0 <= a < b < self.ints@.len() && old(self).ints@.len() <= b implies told_apart(
                c,
                from,
                (#[trigger] self.ints@[b]).1,
                (#[trigger] self.ints@[a]).1,
            ) by {
                assert(b == n);
                assert(self.ints@[a] == old(self).ints@[a]);
            }
            assert forall|s: usize, b: int|
                #[trigger] self.interned@.contains(s) && !old(self).interned@.contains(s) && 0 <= b < self.ints@.len() && int_value(
                    m,
                    s,
                ) == Some((#[trigger] self.ints@[b]).0) && self.ints@[b].1 != s implies told_equal(c, from, s, self.ints@[b].1) by {
                assert(s == t);
                if b < n {
                    assert(self.ints@[b] == old(self).ints@[b]);
                }
            }
        }
        t
    }

    /// Introduces a bit-vector literal; the first of its value is told apart from all others of its
    /// width, any further one is equated with it. The result is the first of its value.
    #[verifier::spinoff_prover]
    #[verifier::rlimit(40)]
    fn introduce_word(&mut self, m: &TermManager, t: TermId, v: (u64, u32)) -> (r: TermId)
        requires
            m.wf(),
            old(self).wf(m),
            !old(self).interned@.contains(t),
            word_value(m, t) == Some(v),
        ensures
            final(self).wf(m),
            old(self).leads_to(final(self), m),
            final(self).interned@ == old(self).interned@.insert(t),
            final(self).interned@.contains(r),
            word_value(m, r) == Some(v),
    {
        let ghost from = self.cmds@.len() as int;
        self.cmds.push(EufCmd::Intern { term: t });
        self.nodes.push(EufNode::Term(t));
        set_insert(&mut self.interned, t);
        let mut i: usize = 0;
        while i < self.words.len()
            invariant
                i <= self.words.len(),
                self.ints@ == old(self).ints@,
                self.words@ == old(self).words@,
                self.nodes@ == old(self).nodes@.push(EufNode::Term(t)),
                self.interned@ == old(self).interned@.insert(t),
                self.truths == old(self).truths,
                self.cmds@ == old(self).cmds@.push(EufCmd::Intern { term: t }),
                from == old(self).cmds@.len(),
                old(self).wf(m),
                !old(self).interned@.contains(t),
                word_value(m, t) == Some(v),
                forall|k: int| 0 <= k < i ==> (#[trigger] self.words@[k]).0 != v,
            decreases self.words.len() - i,
        {
            let (low, width) = self.words[i].0;
            if low == v.0 && width == v.1 {
                let first: usize = self.words[i].1;
                let ghost once = self.cmds@;
                self.cmds.push(EufCmd::Merge { a: EufNode::Term(t), b: EufNode::Term(first), reason: t });
                proof {
                    assert(old(self).interned@.contains(old(self).words@[i as int].1));
                    lemma_literal_told(old(self), t, first, once, self.cmds@);
                    assert(old(self).words@[i as int].0 == v);
                    assert(self.words@[i as int].0 == v);
                    lemma_wf_push(m, old(self), self, t);
                    let c = self.cmds@;
                    assert(brings(c[from], t));
                    assert(introduced(c, from, t));
                    assert(joins_them(c[from + 1], t, first));
                    assert(told_equal(c, from, t, first));
                    assert forall|s: usize, j: int|
                        #[trigger] self.interned@.contains(s) && !old(self).interned@.contains(s) && 0 <= j < self.words@.len()
                            && word_value(m, s) == Some((#[trigger] self.words@[j]).0) && self.words@[j].1 != s implies told_equal(
                        c,
                        from,
                        s,
                        self.words@[j].1,
                    ) by {
                        assert(s == t);
                        assert(self.words@[j].0 == self.words@[i as int].0);
                        assert(j == i);
                    }
                }
                return first;
            }
            i = i + 1;
        }
        let n: usize = self.words.len();
        let mut j: usize = 0;
        proof {
            lemma_literal_new(old(self), t, self.cmds@);
        }
        while j < n
            invariant
                j <= n,
                n == self.words@.len(),
                self.ints@ == old(self).ints@,
                self.words@ == old(self).words@,
                self.nodes@ == old(self).nodes@.push(EufNode::Term(t)),
                self.interned@ == old(self).interned@.insert(t),
                self.truths == old(self).truths,
                from == old(self).cmds@.len(),
                self.cmds@.len() > from,
                forall|k: int| 0 <= k < from ==> #[trigger] self.cmds@[k] == old(self).cmds@[k],
                self.cmds@[from] == (EufCmd::Intern { term: t }),
                ordered(old(self).nodes@, self.cmds@, from),
                nodes_at(old(self).nodes@, self.cmds@, from, self.cmds@.len() as int) == old(self).nodes@.push(EufNode::Term(t)),
                forall|k: int| from < k < self.cmds@.len() ==> cmd_valid(m, #[trigger] self.cmds@[k]),
                forall|k: int|
                    0 <= k < j && (#[trigger] self.words@[k]).0.1 == v.1 ==> told_apart(self.cmds@, from, t, self.words@[k].1),
                old(self).wf(m),
                word_value(m, t) == Some(v),
                forall|k: int| 0 <= k < n ==> (#[trigger] self.words@[k]).0 != v,
            decreases n - j,
        {
            let other: usize = self.words[j].1;
            let ghost before = self.cmds@;
            assert(old(self).words@[j as int].0 != v);
            if self.words[j].0.1 == v.1 {
                assert(self.words@[j as int].0.0 != v.0) by {
                    if self.words@[j as int].0.0 == v.0 {
                        assert(self.words@[j as int].0 == v);
                    }
                }
                self.cmds.push(EufCmd::Differ { a: EufNode::Term(t), b: EufNode::Term(other), reason: t });
                proof {
                    assert(old(self).interned@.contains(old(self).words@[j as int].1));
                    lemma_literal_told(old(self), t, other, before, self.cmds@);
                }
                assert(parts_them(self.cmds@[before.len() as int], t, other));
            }
            proof {
                assert forall|k: int| 0 <= k < j + 1 && (#[trigger] self.words@[k]).0.1 == v.1 implies told_apart(
                    self.cmds@,
                    from,
                    t,
                    self.words@[k].1,
                ) by {
                    if k < j {
                        lemma_told_stays(before, self.cmds@, from, t, self.words@[k].1);
                    }
                }
            }
            j = j + 1;
        }
        self.words.push((v, t));
        proof {
            assert(self.words@[n as int].0 == v);
            lemma_wf_push(m, old(self), self, t);
            let c = self.cmds@;
            assert(brings(c[from], t));
            assert(introduced(c, from, t));
            assert forall|a: int, b: int|
                0 <= a < b < self.words@.len() && old(self).words@.len() <= b && (#[trigger] self.words@[a]).0.1 == (
                #[trigger] self.words@[b]).0.1 implies told_apart(c, from, self.words@[b].1, self.words@[a].1) by {
                assert(b == n);
                assert(self.words@[a] == old(self).words@[a]);
            }
            assert forall|s: usize, b: int|
                #[trigger] self.interned@.contains(s) && !old(self).interned@.contains(s) && 0 <= b < self.words@.len() && word_value(
                    m,
                    s,
                ) == Some((#[trigger] self.words@[b]).0) && self.words@[b].1 != s implies told_equal(c, from, s, self.words@[b].1) by {
                assert(s == t);
                if b < n {
                    assert(self.words@[b] == old(self).words@[b]);
                }
            }
        }
        t
    }
}

/// A literal is introduced.
proof fn lemma_literal_new(a: &EufPlan, t: TermId, cmds: Seq<EufCmd>)
    requires
        cmds == a.cmds@.push(EufCmd::Intern { term: t }),
    ensures
        ordered(a.nodes@, cmds, a.cmds@.len() as int),
        nodes_at(a.nodes@, cmds, a.cmds@.len() as int, cmds.len() as int) == a.nodes@.push(EufNode::Term(t)),
{
    let from = a.cmds@.len() as int;
    lemma_nodes_none(a.nodes@, a.cmds@, from);
    lemma_ordered_push(a.nodes@, a.cmds@, cmds, from);
}

/// A literal that has just been introduced is compared with another one.
proof fn lemma_literal_told(a: &EufPlan, t: TermId, other: TermId, before: Seq<EufCmd>, cmds: Seq<EufCmd>)
    requires
        a.cmds@.len() < before.len(),
        ordered(a.nodes@, before, a.cmds@.len() as int) || before == a.cmds@.push(EufCmd::Intern { term: t }),
        nodes_at(a.nodes@, before, a.cmds@.len() as int, before.len() as int) == a.nodes@.push(EufNode::Term(t)) || before
            == a.cmds@.push(EufCmd::Intern { term: t }),
        a.nodes@.contains(EufNode::Term(other)),
        cmds == before.push(EufCmd::Merge { a: EufNode::Term(t), b: EufNode::Term(other), reason: t }) || cmds == before.push(
            EufCmd::Differ { a: EufNode::Term(t), b: EufNode::Term(other), reason: t },
        ),
    ensures
        ordered(a.nodes@, cmds, a.cmds@.len() as int),
        nodes_at(a.nodes@, cmds, a.cmds@.len() as int, cmds.len() as int) == a.nodes@.push(EufNode::Term(t)),
{
    let from = a.cmds@.len() as int;
    if before == a.cmds@.push(EufCmd::Intern { term: t }) {
        lemma_literal_new(a, t, before);
    }
    lemma_nodes_push(a.nodes@, EufNode::Term(t));
    assert(a.nodes@.push(EufNode::Term(t)).contains(EufNode::Term(t)));
    assert(a.nodes@.push(EufNode::Term(t)).contains(EufNode::Term(other)));
    lemma_ordered_push(a.nodes@, before, cmds, from);
}

impl EufPlan {
    /// Equates a truth value that is a term with that of the solver.
    fn equate_truth(&mut self, m: &TermManager, t: TermId, value: bool)
        requires
            old(self).wf(m),
            old(self).interned@.contains(t),
            old(self).truths,
            m.has(t),
            m.op(t) == if value { Op::True } else { Op::False },
        ensures
            final(self).wf(m),
            old(self).leads_to(final(self), m),
            final(self).cmds@ == old(self).cmds@.push(truth_cmd(t, value)),
            *final(self) == (EufPlan { cmds: final(self).cmds, ..*old(self) }),
    {
        let b = if value {
            EufNode::True
        } else {
            EufNode::False
        };
        self.cmds.push(EufCmd::Merge { a: EufNode::Term(t), b, reason: t });
        proof {
            lemma_one_more(old(self), self);
            assert forall|k: int, s: usize| 0 <= k < self.nodes@.len() && #[trigger] self.nodes@[k] == EufNode::Term(s) implies #[trigger] tabled_in(m, self.nodes@, self.ints@, self.words@, k + 1, s) by {
                assert(tabled_in(m, old(self).nodes@, old(self).ints@, old(self).words@, k + 1, s));
            }
        }
    }

    /// Introduces a term and everything that it applies functions to, and no other term. The result
    /// stands for the term: itself, or for a literal the first one of its value.
    pub fn intern_term_for_congruence(&mut self, m: &TermManager, t: TermId) -> (r: TermId)
        requires
            m.wf(),
            old(self).wf(m),
        ensures
            final(self).wf(m),
            old(self).leads_to(final(self), m),
            final(self).interned@.contains(t),
            final(self).interned@.contains(r),
            r == t || same_literal(m, t, r),
            forall|x: usize| #[trigger] final(self).interned@.contains(x) ==> old(self).interned@.contains(x) || carries(m, t, x),
        decreases t, 1nat,
    {
        proof {
            lemma_leads_self(self, m);
        }
        if set_contains(&self.interned, t) {
            return t;
        }
        if t >= m.terms.len() {
            self.introduce(m, t, EufCmd::Intern { term: t });
            return t;
        }
        assert(m.terms@[t as int].fits(t as int));
        match m.terms[t].op {
            Op::Apply(f) => self.introduce_app(m, t, FuncId::Named(f)),
            Op::DtConstructor(f) => self.introduce_app(m, t, FuncId::Named(f)),
            Op::DtSelector(f) => self.introduce_app(m, t, FuncId::Named(f)),
            Op::Select => self.introduce_app(m, t, FuncId::Select),
            Op::IntConst { negative } => {
                match to_i128(negative, &m.terms[t].digits) {
                    Some(v) => {
                        if -0x8000_0000_0000_0000 <= v && v <= 0x7fff_ffff_ffff_ffff {
                            return self.introduce_int(m, t, v as i64);
                        }
                    },
                    None => {},
                }
                self.introduce(m, t, EufCmd::Intern { term: t });
                t
            },
            Op::BitVecConst { width } => {
                let digits = &m.terms[t].digits;
                let low: u64 = if digits.len() > 0 {
                    digits[0]
                } else {
                    0
                };
                self.introduce_word(m, t, (low, width))
            },
            Op::True | Op::False => {
                let value = match m.terms[t].op {
                    Op::True => true,
                    _ => false,
                };
                self.introduce(m, t, EufCmd::Intern { term: t });
                let ghost mid = *self;
                self.ensure_bool_nodes(m);
                let ghost mid2 = *self;
                proof {
                    lemma_extends(old(self), &mid, self, m);
                }
                self.equate_truth(m, t, value);
                proof {
                    lemma_extends(old(self), &mid2, self, m);
                    assert(self.cmds@[mid2.cmds@.len() as int] == truth_cmd(t, value));
                    assert(told_truth(self.cmds@, old(self).cmds@.len() as int, t, value));
                }
                t
            },
            _ => {
                self.introduce(m, t, EufCmd::Intern { term: t });
                t
            },
        }
    }

    /// Introduces the arguments of a function application, then itself.
    #[verifier::spinoff_prover]
    #[verifier::rlimit(100)]
    fn introduce_app(&mut self, m: &TermManager, t: TermId, func: FuncId) -> (r: TermId)
        requires
            m.wf(),
            old(self).wf(m),
            !old(self).interned@.contains(t),
            func_of(m, t) == Some(func),
        ensures
            final(self).wf(m),
            old(self).leads_to(final(self), m),
            final(self).interned@.contains(t),
            r == t,
            forall|x: usize| #[trigger] final(self).interned@.contains(x) ==> old(self).interned@.contains(x) || carries(m, t, x),
        decreases t, 0nat,
    {
        assert(m.terms@[t as int].fits(t as int));
        let n: usize = m.terms[t].args.len();
        let mut args: Vec<TermId> = Vec::new();
        let mut i: usize = 0;
        proof {
            lemma_under_way_first(m, self, t);
        }
        while i < n
            invariant
                i <= n,
                m.wf(),
                m.has(t),
                n == m.args(t).len(),
                m.terms@[t as int].fits(t as int),
                func_of(m, t) is Some,
                args@.len() == i,
                args_under_way(m, old(self), self, t, args@),
            decreases n - i,
        {
            let a: usize = m.terms[t].args[i];
            assert(m.args(t)[i as int] < t);
            let ghost mid = *self;
            let ghost first = args@;
            assert(self.wf(m)) by {
                reveal(args_under_way);
            }
            let node: usize = self.intern_term_for_congruence(m, a);
            args.push(node);
            proof {
                lemma_under_way_next(m, old(self), &mid, self, t, first, node);
            }
            i = i + 1;
        }
        proof {
            reveal(args_under_way);
        }
        if set_contains(&self.interned, t) {
            return t;
        }
        let ghost mid = *self;
        self.introduce(m, t, EufCmd::App { term: t, func, args });
        proof {
            lemma_leads(old(self), &mid, self, m);
        }
        t
    }

    /// Takes back the last introduced node.
    #[verifier::spinoff_prover]
    #[verifier::rlimit(60)]
    fn drop_node(&mut self)
        requires
            old(self).nodes@.len() > 0,
        ensures
            forall|m: &TermManager| old(self).wf(m) ==> #[trigger] final(self).wf(m),
            final(self).nodes@ == old(self).nodes@.drop_last(),
            final(self).cmds@ == old(self).cmds@,
    {
        let ghost a = *self;
        let last = match self.nodes.pop() {
            Some(n) => n,
            None => {
                return ;
            },
        };
        let ghost rest = self.nodes@;
        match last {
            EufNode::Term(t) => {
                set_remove(&mut self.interned, t);
                self.forget_int(t);
                self.forget_word(t);
            },
            EufNode::True => {
                self.truths = false;
            },
            EufNode::False => {},
        }
        proof {
            assert(a.nodes@ =~= rest.push(last));
            lemma_nodes_push(rest, last);
            assert forall|m: &TermManager| a.wf(m) implies #[trigger] self.wf(m) by {
                assert(!rest.contains(last)) by {
                    if rest.contains(last) {
                        let i = choose|i: int| 0 <= i < rest.len() && rest[i] == last;
                        assert(a.nodes@[i] == a.nodes@[rest.len() as int]);
                    }
                }
                assert(rest.no_duplicates()) by {
                    assert forall|i: int, j: int| 0 <= i < rest.len() && 0 <= j < rest.len() && i != j implies rest[i] != rest[j] by {
                        assert(a.nodes@[i] != a.nodes@[j]);
                    }
                }
                assert forall|s: usize| #[trigger] self.interned@.contains(s) <==> self.nodes@.contains(EufNode::Term(s)) by {
                    assert(a.nodes@.contains(EufNode::Term(s)) <==> rest.contains(EufNode::Term(s)) || last == EufNode::Term(s));
                    assert(a.interned@.contains(s) <==> a.nodes@.contains(EufNode::Term(s)));
                }
                assert(a.nodes@.contains(EufNode::True) <==> rest.contains(EufNode::True) || last == EufNode::True);
                lemma_dropped(m, &a, self, last);
            }
        }
    }

    /// Takes a term off the table of integers.
    fn forget_int(&mut self, t: TermId)
        ensures
            final(self).cmds@ == old(self).cmds@,
            final(self).nodes@ == old(self).nodes@,
            final(self).interned@ == old(self).interned@,
            final(self).words@ == old(self).words@,
            final(self).truths == old(self).truths,
            without(old(self).ints@, final(self).ints@, t),
    {
        let mut i: usize = 0;
        while i < self.ints.len()
            invariant
                i <= self.ints.len(),
                *self == *old(self),
                forall|k: int| 0 <= k < i ==> (#[trigger] self.ints@[k]).1 != t,
            decreases self.ints.len() - i,
        {
            if self.ints[i].1 == t {
                let _ = self.ints.remove(i);
                assert(self.ints@ =~= old(self).ints@.remove(i as int));
                return ;
            }
            i = i + 1;
        }
    }

    /// Takes a term off the table of bit vectors.
    fn forget_word(&mut self, t: TermId)
        ensures
            final(self).cmds@ == old(self).cmds@,
            final(self).nodes@ == old(self).nodes@,
            final(self).interned@ == old(self).interned@,
            final(self).ints@ == old(self).ints@,
            final(self).truths == old(self).truths,
            without(old(self).words@, final(self).words@, t),
    {
        let mut i: usize = 0;
        while i < self.words.len()
            invariant
                i <= self.words.len(),
                *self == *old(self),
                forall|k: int| 0 <= k < i ==> (#[trigger] self.words@[k]).1 != t,
            decreases self.words.len() - i,
        {
            if self.words[i].1 == t {
                let _ = self.words.remove(i);
                assert(self.words@ =~= old(self).words@.remove(i as int));
                return ;
            }
            i = i + 1;
        }
    }

    /// Goes back to the first `live` introduced nodes.
    #[verifier::spinoff_prover]
    #[verifier::rlimit(40)]
    pub fn backtrack(&mut self, live: usize)
        ensures
            forall|m: &TermManager| old(self).wf(m) ==> #[trigger] final(self).wf(m),
            final(self).nodes@ == if live < old(self).nodes@.len() {
                old(self).nodes@.take(live as int)
            } else {
                old(self).nodes@
            },
            final(self).cmds@ == old(self).cmds@,
            live >= old(self).nodes@.len() ==> *final(self) == *old(self),
    {
        while self.nodes.len() > live
            invariant
                forall|m: &TermManager| old(self).wf(m) ==> #[trigger] self.wf(m),
                self.cmds@ == old(self).cmds@,
                self.nodes@.len() <= old(self).nodes@.len(),
                live <= old(self).nodes@.len() ==> live <= self.nodes@.len(),
                live >= old(self).nodes@.len() ==> *self == *old(self),
                self.nodes@ == old(self).nodes@.take(self.nodes@.len() as int),
            decreases self.nodes@.len(),
        {
            let ghost before = *self;
            self.drop_node();
            proof {
                assert(self.nodes@ =~= old(self).nodes@.take(self.nodes@.len() as int));
                assert forall|m: &TermManager| old(self).wf(m) implies #[trigger] self.wf(m) by {
                    assert(before.wf(m));
                }
            }
        }
        proof {
            assert(old(self).nodes@.take(old(self).nodes@.len() as int) =~= old(self).nodes@);
        }
    }
}

/// `x` is `t`, or something that it applies a function to, at any depth.
pub open spec fn carries(m: &TermManager, t: TermId, x: TermId) -> bool
    decreases t,
{
    x == t || (func_of(m, t) is Some && exists|i: int|
        0 <= i < m.args(t).len() && #[trigger] m.args(t)[i] < t && carries(m, m.args(t)[i], x))
}

/// What an argument of an application carries, the application carries.
proof fn lemma_carries_argument(m: &TermManager, t: TermId, i: int, x: TermId)
    requires
        func_of(m, t) is Some,
        0 <= i < m.args(t).len(),
        m.args(t)[i] < t,
        carries(m, m.args(t)[i], x),
    ensures
        carries(m, t, x),
{
}

/// The first arguments of an application are introduced, and nodes stand for them; nothing else is
/// new but what the application carries.
#[verifier::opaque]
spec fn args_under_way(m: &TermManager, start: &EufPlan, now: &EufPlan, t: TermId, args: Seq<TermId>) -> bool {
    &&& start.wf(m)
    &&& now.wf(m)
    &&& start.leads_to(now, m)
    &&& args.len() <= m.args(t).len()
    &&& forall|k: int| 0 <= k < args.len() ==> now.interned@.contains(#[trigger] m.args(t)[k])
    &&& forall|k: int| 0 <= k < args.len() ==> now.interned@.contains(#[trigger] args[k])
    &&& forall|k: int| 0 <= k < args.len() ==> #[trigger] args[k] == m.args(t)[k] || same_literal(m, m.args(t)[k], args[k])
    &&& forall|x: usize| #[trigger] now.interned@.contains(x) ==> start.interned@.contains(x) || carries(m, t, x)
}

/// At first no argument is introduced.
proof fn lemma_under_way_first(m: &TermManager, start: &EufPlan, t: TermId)
    requires
        start.wf(m),
    ensures
        args_under_way(m, start, start, t, Seq::empty()),
{
    reveal(args_under_way);
    lemma_leads_self(start, m);
}

/// One more argument is introduced.
proof fn lemma_under_way_next(
    m: &TermManager,
    start: &EufPlan,
    mid: &EufPlan,
    now: &EufPlan,
    t: TermId,
    args: Seq<TermId>,
    node: TermId,
)
    requires
        args_under_way(m, start, mid, t, args),
        func_of(m, t) is Some,
        args.len() < m.args(t).len(),
        m.args(t)[args.len() as int] < t,
        now.wf(m),
        mid.leads_to(now, m),
        now.interned@.contains(m.args(t)[args.len() as int]),
        now.interned@.contains(node),
        node == m.args(t)[args.len() as int] || same_literal(m, m.args(t)[args.len() as int], node),
        forall|x: usize| #[trigger] now.interned@.contains(x) ==> mid.interned@.contains(x) || carries(m, m.args(t)[args.len() as int], x),
    ensures
        args_under_way(m, start, now, t, args.push(node)),
{
    reveal(args_under_way);
    let i = args.len() as int;
    let more = args.push(node);
    lemma_leads(start, mid, now, m);
    assert forall|k: int| 0 <= k < more.len() implies now.interned@.contains(#[trigger] more[k]) by {
        if k < i {
            lemma_interned_stays(mid, now, m, args[k]);
        }
    }
    assert forall|k: int| 0 <= k < more.len() implies now.interned@.contains(#[trigger] m.args(t)[k]) by {
        if k < i {
            lemma_interned_stays(mid, now, m, m.args(t)[k]);
        }
    }
    assert forall|k: int| 0 <= k < more.len() implies #[trigger] more[k] == m.args(t)[k] || same_literal(m, m.args(t)[k], more[k]) by {
        if k < i {
            assert(more[k] == args[k]);
        }
    }
    assert forall|x: usize| #[trigger] now.interned@.contains(x) implies start.interned@.contains(x) || carries(m, t, x) by {
        if !mid.interned@.contains(x) {
            lemma_carries_argument(m, t, i, x);
        }
    }
}

/// What a term of the store carries is in the store.
pub proof fn lemma_carries(m: &TermManager, t: TermId, x: TermId)
    requires
        m.has(t),
        carries(m, t, x),
    ensures
        m.has(x),
    decreases t,
{
    if x != t {
        let i = choose|i: int| 0 <= i < m.args(t).len() && #[trigger] m.args(t)[i] < t && carries(m, m.args(t)[i], x);
        lemma_carries(m, m.args(t)[i], x);
    }
}

/// A plan for terms of a store is one for terms of a later store.
pub proof fn lemma_plan_extends(m: &TermManager, later: &TermManager, p: &EufPlan)
    requires
        m.extended_by(later),
        p.wf(m),
        p.within(m),
    ensures
        p.wf(later),
        p.within(later),
{
    assert forall|t: usize| #[trigger] p.interned@.contains(t) implies later.has(t) && later.terms@[t as int] == m.terms@[t as int] by {
        assert(m.has(t));
    }
    assert forall|k: int, t: usize, i: int|
        0 <= k < p.nodes@.len() && #[trigger] p.nodes@[k] == EufNode::Term(t) && func_of(later, t) is Some && 0 <= i < later.args(t).len() implies among(
        p.nodes@,
        k,
        #[trigger] later.args(t)[i],
    ) by {
        assert(p.nodes@.contains(EufNode::Term(t)));
        assert(p.interned@.contains(t));
        assert(func_of(m, t) is Some);
        assert(among(p.nodes@, k, m.args(t)[i]));
    }
    assert forall|k: int, t: usize| 0 <= k < p.nodes@.len() && #[trigger] p.nodes@[k] == EufNode::Term(t) implies #[trigger] tabled_in(
        later,
        p.nodes@,
        p.ints@,
        p.words@,
        k + 1,
        t,
    ) by {
        assert(p.nodes@.contains(EufNode::Term(t)));
        assert(p.interned@.contains(t));
        assert(tabled_in(m, p.nodes@, p.ints@, p.words@, k + 1, t));
        assert(int_value(later, t) == int_value(m, t) && word_value(later, t) == word_value(m, t));
    }
    assert forall|i: int| 0 <= i < p.ints@.len() implies p.interned@.contains((#[trigger] p.ints@[i]).1) && int_value(
        later,
        p.ints@[i].1,
    ) == Some(p.ints@[i].0) by {
        assert(p.interned@.contains(p.ints@[i].1));
        assert(int_value(later, p.ints@[i].1) == int_value(m, p.ints@[i].1));
    }
    assert forall|i: int| 0 <= i < p.words@.len() implies p.interned@.contains((#[trigger] p.words@[i]).1) && word_value(
        later,
        p.words@[i].1,
    ) == Some(p.words@[i].0) by {
        assert(p.interned@.contains(p.words@[i].1));
        assert(word_value(later, p.words@[i].1) == word_value(m, p.words@[i].1));
    }
}

/// What is left of a plan after going back belongs to the store that the plan belonged to.
pub proof fn lemma_plan_cut(m: &TermManager, p: &EufPlan, q: &EufPlan)
    requires
        p.wf(m),
        p.within(m),
        q.wf(m),
        q.begins(p),
    ensures
        q.within(m),
{
    assert forall|t: usize| #[trigger] q.interned@.contains(t) implies m.has(t) by {
        assert(q.nodes@.contains(EufNode::Term(t)));
        let k = choose|k: int| 0 <= k < q.nodes@.len() && q.nodes@[k] == EufNode::Term(t);
        assert(p.nodes@.take(q.nodes@.len() as int)[k] == p.nodes@[k]);
        assert(p.nodes@.contains(EufNode::Term(t)));
        assert(p.interned@.contains(t));
    }
}

/// The table is another one without its first entry for a term.
pub open spec fn without<K>(a: Seq<(K, TermId)>, b: Seq<(K, TermId)>, t: TermId) -> bool {
    ||| (b == a && forall|k: int| 0 <= k < a.len() ==> (#[trigger] a[k]).1 != t)
    ||| exists|i: int| 0 <= i < a.len() && (#[trigger] a[i]).1 == t && b == a.remove(i)
}

/// The list holds the entry.
pub open spec fn holds<E>(s: Seq<E>, e: E) -> bool {
    exists|i: int| 0 <= i < s.len() && #[trigger] s[i] == e
}

/// The entries of a table without one of them are entries of the table, in order; every other
/// entry is kept.
proof fn lemma_without<K>(a: Seq<(K, TermId)>, b: Seq<(K, TermId)>, t: TermId)
    requires
        without(a, b, t),
        forall|i: int, j: int| 0 <= i < j < a.len() ==> (#[trigger] a[i]).0 != (#[trigger] a[j]).0,
    ensures
        forall|k: int| 0 <= k < b.len() ==> holds(a, #[trigger] b[k]),
        forall|i: int, j: int| 0 <= i < j < b.len() ==> (#[trigger] b[i]).0 != (#[trigger] b[j]).0,
        forall|j: int| 0 <= j < a.len() && (#[trigger] a[j]).1 != t ==> holds(b, a[j]),
{
    if b == a && forall|k: int| 0 <= k < a.len() ==> (#[trigger] a[k]).1 != t {
        assert forall|k: int| 0 <= k < b.len() implies holds(a, #[trigger] b[k]) by {
            assert(a[k] == b[k]);
        }
    } else {
        let i = choose|i: int| 0 <= i < a.len() && (#[trigger] a[i]).1 == t && b == a.remove(i);
        assert forall|k: int| 0 <= k < b.len() implies holds(a, #[trigger] b[k]) by {
            if k < i {
                assert(a[k] == b[k]);
            } else {
                assert(a[k + 1] == b[k]);
            }
        }
        assert forall|x: int, y: int| 0 <= x < y < b.len() implies (#[trigger] b[x]).0 != (#[trigger] b[y]).0 by {
            let p = if x < i {
                x
            } else {
                x + 1
            };
            let q = if y < i {
                y
            } else {
                y + 1
            };
            assert(b[x] == a[p] && b[y] == a[q]);
        }
        assert forall|j: int| 0 <= j < a.len() && (#[trigger] a[j]).1 != t implies holds(b, a[j]) by {
            if j < i {
                assert(b[j] == a[j]);
            } else {
                assert(j != i);
                assert(b[j - 1] == a[j]);
            }
        }
    }
}

/// The state without its last node is well formed.
#[verifier::spinoff_prover]
#[verifier::rlimit(60)]
proof fn lemma_dropped(m: &TermManager, a: &EufPlan, b: &EufPlan, last: EufNode)
    requires
        a.wf(m),
        a.nodes@ == b.nodes@.push(last),
        b.nodes@.no_duplicates(),
        !b.nodes@.contains(last),
        forall|t: usize| #[trigger] b.interned@.contains(t) <==> b.nodes@.contains(EufNode::Term(t)),
        b.truths <==> b.nodes@.contains(EufNode::True),
        last matches EufNode::Term(t) ==> without(a.ints@, b.ints@, t) && without(a.words@, b.words@, t),
        !(last is Term) ==> b.ints@ == a.ints@ && b.words@ == a.words@,
    ensures
        b.wf(m),
{
    let t = match last {
        EufNode::Term(t) => t,
        _ => 0,
    };
    if last is Term {
        lemma_without(a.ints@, b.ints@, t);
        lemma_without(a.words@, b.words@, t);
    }
    lemma_nodes_push(b.nodes@, last);
    assert forall|k: int, s: usize, i: int|
        0 <= k < b.nodes@.len() && #[trigger] b.nodes@[k] == EufNode::Term(s) && func_of(m, s) is Some && 0 <= i < m.args(s).len() implies among(
        b.nodes@,
        k,
        #[trigger] m.args(s)[i],
    ) by {
        assert(a.nodes@[k] == EufNode::Term(s));
        assert(among(a.nodes@, k, m.args(s)[i]));
    }
    assert forall|k: int, s: usize| 0 <= k < b.nodes@.len() && #[trigger] b.nodes@[k] == EufNode::Term(s) implies #[trigger] tabled_in(m, b.nodes@, b.ints@, b.words@, k + 1, s) by {
        assert(a.nodes@[k] == EufNode::Term(s));
        assert(tabled_in(m, a.nodes@, a.ints@, a.words@, k + 1, s));
        if let Some(v) = int_value(m, s) {
            let i = choose|i: int| 0 <= i < a.ints@.len() && (#[trigger] a.ints@[i]).0 == v && among(a.nodes@, k + 1, a.ints@[i].1);
            let x = a.ints@[i].1;
            assert(among(b.nodes@, k + 1, x));
            lemma_not_last(b.nodes@, k + 1, x, last);
            assert(holds(b.ints@, a.ints@[i]));
            let j = choose|j: int| 0 <= j < b.ints@.len() && #[trigger] b.ints@[j] == a.ints@[i];
            assert(b.ints@[j].0 == v && among(b.nodes@, k + 1, b.ints@[j].1));
        }
        if let Some(v) = word_value(m, s) {
            let i = choose|i: int| 0 <= i < a.words@.len() && (#[trigger] a.words@[i]).0 == v && among(a.nodes@, k + 1, a.words@[i].1);
            let x = a.words@[i].1;
            assert(among(b.nodes@, k + 1, x));
            lemma_not_last(b.nodes@, k + 1, x, last);
            assert(holds(b.words@, a.words@[i]));
            let j = choose|j: int| 0 <= j < b.words@.len() && #[trigger] b.words@[j] == a.words@[i];
            assert(b.words@[j].0 == v && among(b.nodes@, k + 1, b.words@[j].1));
        }
    }
    assert forall|i: int| 0 <= i < b.ints@.len() implies b.interned@.contains((#[trigger] b.ints@[i]).1) && int_value(
        m,
        b.ints@[i].1,
    ) == Some(b.ints@[i].0) by {
        let x = b.ints@[i].1;
        assert(last is Term ==> holds(a.ints@, b.ints@[i]));
        let j = if last is Term {
            choose|j: int| 0 <= j < a.ints@.len() && #[trigger] a.ints@[j] == b.ints@[i]
        } else {
            i
        };
        assert(a.ints@[j] == b.ints@[i]);
        assert(a.interned@.contains(x));
        assert(a.nodes@.contains(EufNode::Term(x)));
        if EufNode::Term(x) == last {
            lemma_gone(m, a, b, t);
        }
    }
    assert forall|i: int| 0 <= i < b.words@.len() implies b.interned@.contains((#[trigger] b.words@[i]).1) && word_value(
        m,
        b.words@[i].1,
    ) == Some(b.words@[i].0) by {
        let x = b.words@[i].1;
        assert(last is Term ==> holds(a.words@, b.words@[i]));
        let j = if last is Term {
            choose|j: int| 0 <= j < a.words@.len() && #[trigger] a.words@[j] == b.words@[i]
        } else {
            i
        };
        assert(a.words@[j] == b.words@[i]);
        assert(a.interned@.contains(x));
        assert(a.nodes@.contains(EufNode::Term(x)));
        if EufNode::Term(x) == last {
            lemma_gone(m, a, b, t);
        }
    }
}

/// A term among all but the last node is not the last node.
proof fn lemma_not_last(nodes: Seq<EufNode>, k: int, x: TermId, last: EufNode)
    requires
        among(nodes, k, x),
        k <= nodes.len(),
        !nodes.contains(last),
    ensures
        last != EufNode::Term(x),
{
    let i = choose|i: int| 0 <= i < k && #[trigger] nodes[i] == EufNode::Term(x);
    assert(nodes[i] == EufNode::Term(x));
}

/// A term that was taken off the tables is on none of them.
proof fn lemma_gone(m: &TermManager, a: &EufPlan, b: &EufPlan, t: TermId)
    requires
        a.wf(m),
        without(a.ints@, b.ints@, t),
        without(a.words@, b.words@, t),
    ensures
        forall|i: int| 0 <= i < b.ints@.len() ==> (#[trigger] b.ints@[i]).1 != t,
        forall|i: int| 0 <= i < b.words@.len() ==> (#[trigger] b.words@[i]).1 != t,
{
    assert forall|i: int| 0 <= i < b.ints@.len() implies (#[trigger] b.ints@[i]).1 != t by {
        if b.ints@[i].1 == t && !(b.ints@ == a.ints@) {
            let k = choose|k: int| 0 <= k < a.ints@.len() && (#[trigger] a.ints@[k]).1 == t && b.ints@ == a.ints@.remove(k);
            let j = if i < k {
                i
            } else {
                i + 1
            };
            assert(b.ints@[i] == a.ints@[j]);
            assert(int_value(m, a.ints@[j].1) == int_value(m, a.ints@[k].1));
            assert(a.ints@[j].0 == a.ints@[k].0);
        }
        if b.ints@[i].1 == t && b.ints@ == a.ints@ && !(forall|k: int| 0 <= k < a.ints@.len() ==> (#[trigger] a.ints@[k]).1 != t) {
            let k = choose|k: int| 0 <= k < a.ints@.len() && (#[trigger] a.ints@[k]).1 == t && b.ints@ == a.ints@.remove(k);
            assert(b.ints@.len() == a.ints@.len() - 1);
        }
    }
    assert forall|i: int| 0 <= i < b.words@.len() implies (#[trigger] b.words@[i]).1 != t by {
        if b.words@[i].1 == t && !(b.words@ == a.words@) {
            let k = choose|k: int| 0 <= k < a.words@.len() && (#[trigger] a.words@[k]).1 == t && b.words@ == a.words@.remove(k);
            let j = if i < k {
                i
            } else {
                i + 1
            };
            assert(b.words@[i] == a.words@[j]);
            assert(word_value(m, a.words@[j].1) == word_value(m, a.words@[k].1));
            assert(a.words@[j].0 == a.words@[k].0);
        }
        if b.words@[i].1 == t && b.words@ == a.words@ && !(forall|k: int|
            0 <= k < a.words@.len() ==> (#[trigger] a.words@[k]).1 != t) {
            let k = choose|k: int| 0 <= k < a.words@.len() && (#[trigger] a.words@[k]).1 == t && b.words@ == a.words@.remove(k);
            assert(b.words@.len() == a.words@.len() - 1);
        }
    }
}

/// A term that applies a function and was introduced since is introduced by an instruction that says
/// which function it applies to what: its arguments, or literals of their values, all of them
/// introduced before. So congruence applies to it.
pub proof fn law_applications_are_introduced(a: &EufPlan, b: &EufPlan, m: &TermManager, t: TermId)
    requires
        a.wf(m),
        b.wf(m),
        a.leads_to(b, m),
        b.interned@.contains(t),
        !a.interned@.contains(t),
        func_of(m, t) is Some,
    ensures
        exists|i: int|
            a.cmds@.len() <= i < b.cmds@.len() && #[trigger] applies_at(
                m,
                nodes_at(a.nodes@, b.cmds@, a.cmds@.len() as int, i),
                b.cmds@[i],
                t,
            ),
{
    let from = a.cmds@.len() as int;
    assert(introduced(b.cmds@, from, t));
    let i = choose|i: int| from <= i < b.cmds@.len() && brings(#[trigger] b.cmds@[i], t);
    assert(cmd_valid(m, b.cmds@[i]));
    assert(in_order(nodes_at(a.nodes@, b.cmds@, from, i), b.cmds@[i]));
    assert(applies_at(m, nodes_at(a.nodes@, b.cmds@, from, i), b.cmds@[i], t));
}

/// The instruction introduces a term as the application of its function to introduced nodes that
/// stand for its arguments.
pub open spec fn applies_at(m: &TermManager, nodes: Seq<EufNode>, c: EufCmd, t: TermId) -> bool {
    c matches EufCmd::App { term, func, args } && {
        &&& term == t
        &&& func_of(m, t) == Some(func)
        &&& args@.len() == m.args(t).len()
        &&& forall|k: int|
            0 <= k < args@.len() ==> (#[trigger] args@[k] == m.args(t)[k] || same_literal(m, m.args(t)[k], args@[k]))
                && nodes.contains(EufNode::Term(args@[k]))
    }
}

/// A reading of terms in which literals and truth values have their values.
pub open spec fn literal_reading(m: &TermManager, d: Valuation) -> bool {
    forall|t: TermId| #[trigger] m.has(t) ==> match m.op(t) {
        Op::IntConst { negative } => d(t) == signed(negative, m.terms@[t as int].digits@) as real,
        Op::BitVecConst { width } => d(t) == digits_value(m.terms@[t as int].digits@) as real,
        Op::True => d(t) == 1real,
        Op::False => d(t) == 0real,
        _ => true,
    }
}

/// The value of a node.
pub open spec fn node_value(d: Valuation, n: EufNode) -> real {
    match n {
        EufNode::Term(t) => d(t),
        EufNode::True => 1real,
        EufNode::False => 0real,
    }
}

/// The instruction holds under a reading.
pub open spec fn cmd_holds(d: Valuation, c: EufCmd) -> bool {
    match c {
        EufCmd::Merge { a, b, reason } => node_value(d, a) == node_value(d, b),
        EufCmd::Differ { a, b, reason } => node_value(d, a) != node_value(d, b),
        _ => true,
    }
}

/// No bit-vector literal has more than one digit.
pub open spec fn short_words(m: &TermManager) -> bool {
    forall|t: TermId| #[trigger]
        m.has(t) && m.op(t) is BitVecConst ==> digits_value(m.terms@[t as int].digits@) == low_digit(m, t)
}

/// Introducing terms says nothing that is not so: every instruction holds in all readings in which
/// literals have their values, provided that bit-vector literals have one digit at most.
pub proof fn law_introduction_is_valid(m: &TermManager, d: Valuation, c: EufCmd)
    requires
        m.wf(),
        literal_reading(m, d),
        short_words(m),
        cmd_valid(m, c),
    ensures
        cmd_holds(d, c),
{
    match c {
        EufCmd::Merge { a, b, reason } => match (a, b) {
            (EufNode::Term(x), EufNode::Term(y)) => {
                assert(m.has(x) && m.has(y));
            },
            (EufNode::Term(x), _) => {
                assert(m.has(x));
            },
            _ => {},
        },
        EufCmd::Differ { a, b, reason } => {
            if let (EufNode::Term(x), EufNode::Term(y)) = (a, b) {
                assert(m.has(x) && m.has(y));
            }
        },
        _ => {},
    }
}

} // verus!
