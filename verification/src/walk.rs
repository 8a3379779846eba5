//! The parts of a formula outside its binders.
use crate::maps::set_contains;
use crate::maps::set_insert;
use crate::maps::set_new;
use crate::term::Op;
use crate::term::TermId;
use crate::term::TermManager;
use rustc_hash::FxHashSet;
use vstd::prelude::*;

verus! {

/// The term binds variables.
pub open spec fn is_binder(m: &TermManager, t: TermId) -> bool {
    m.has(t) && (m.op(t) is Forall || m.op(t) is Exists)
}

/// `x` is `t`, or stands under it and under no binder.
pub open spec fn occurs(m: &TermManager, t: TermId, x: TermId) -> bool
    decreases t,
{
    t == x || (m.has(t) && !is_binder(m, t) && exists|i: int|
        0 <= i < m.args(t).len() && #[trigger] m.args(t)[i] < t && occurs(m, m.args(t)[i], x))
}

/// `x` occurs in one of the first `k` terms.
pub open spec fn occurs_in(m: &TermManager, roots: Seq<TermId>, k: int, x: TermId) -> bool {
    exists|i: int| 0 <= i < k && occurs(m, #[trigger] roots[i], x)
}

/// The set holds every part of each of its members.
pub open spec fn parts_closed(m: &TermManager, s: Set<usize>) -> bool {
    forall|t: usize, x: usize| s.contains(t) && #[trigger] occurs(m, t, x) ==> s.contains(x)
}

/// The parts of `t`.
pub open spec fn parts(m: &TermManager, t: TermId) -> Set<usize> {
    Set::new(|x: usize| occurs(m, t, x))
}

/// The list holds each member of the set once.
pub open spec fn lists(out: Seq<TermId>, s: Set<usize>) -> bool {
    &&& out.no_duplicates()
    &&& forall|x: usize| #[trigger] out.contains(x) <==> s.contains(x)
}

/// A list with one more member.
proof fn lemma_lists_push(out: Seq<TermId>, s: Set<usize>, x: TermId)
    requires
        lists(out, s),
        !s.contains(x),
    ensures
        lists(out.push(x), s.insert(x)),
{
    let o = out.push(x);
    assert(!out.contains(x));
    assert(o[out.len() as int] == x);
    assert forall|y: usize| #[trigger] o.contains(y) <==> s.insert(x).contains(y) by {
        if o.contains(y) {
            let i = choose|i: int| 0 <= i < o.len() && o[i] == y;
            if i < out.len() {
                assert(out[i] == y);
                assert(out.contains(y));
            }
        }
        if s.insert(x).contains(y) && y != x {
            assert(out.contains(y));
            let i = choose|i: int| 0 <= i < out.len() && out[i] == y;
            assert(o[i] == y);
        }
    }
    assert forall|i: int, j: int| 0 <= i < o.len() && 0 <= j < o.len() && i != j implies o[i] != o[j] by {
        if i == out.len() {
            assert(out.contains(o[j]));
        }
        if j == out.len() {
            assert(out.contains(o[i]));
        }
    }
}

/// Lists the parts of `t` that are not on the list.
fn list_parts(m: &TermManager, t: TermId, seen: &mut FxHashSet<usize>, out: &mut Vec<TermId>)
    requires
        m.wf(),
        parts_closed(m, old(seen)@),
        lists(old(out)@, old(seen)@),
    ensures
        parts_closed(m, final(seen)@),
        lists(final(out)@, final(seen)@),
        final(seen)@ == old(seen)@.union(parts(m, t)),
    decreases t,
{
    if set_contains(seen, t) {
        proof {
            assert forall|x: usize| parts(m, t).contains(x) implies seen@.contains(x) by {
                assert(occurs(m, t, x));
            }
            assert(seen@ =~= old(seen)@.union(parts(m, t)));
        }
        return ;
    }
    if t < m.terms.len() && !(match m.terms[t].op {
        Op::Forall | Op::Exists => true,
        _ => false,
    }) {
        let n: usize = m.terms[t].args.len();
        let mut i: usize = 0;
        while i < n
            invariant
                i <= n,
                m.wf(),
                m.has(t),
                !is_binder(m, t),
                n == m.args(t).len(),
                parts_closed(m, seen@),
                lists(out@, seen@),
                forall|x: usize| #[trigger] seen@.contains(x) <==> old(seen)@.contains(x) || occurs_in(m, m.args(t), i as int, x),
            decreases n - i,
        {
            assert(m.terms@[t as int].fits(t as int));
            let a: usize = m.terms[t].args[i];
            let ghost before = seen@;
            list_parts(m, a, seen, out);
            proof {
                let args = m.args(t);
                assert(args[i as int] == a);
                assert forall|x: usize| #[trigger] seen@.contains(x) <==> old(seen)@.contains(x) || occurs_in(m, args, i + 1, x) by {
                    if occurs_in(m, args, i + 1, x) {
                        let k = choose|k: int| 0 <= k < i + 1 && occurs(m, #[trigger] args[k], x);
                        if k < i {
                            assert(occurs_in(m, args, i as int, x));
                            assert(before.contains(x));
                        } else {
                            assert(parts(m, a).contains(x));
                        }
                    }
                    if seen@.contains(x) {
                        if before.contains(x) {
                            if !old(seen)@.contains(x) {
                                let k = choose|k: int| 0 <= k < i && occurs(m, #[trigger] args[k], x);
                                assert(occurs(m, args[k], x));
                            }
                        } else {
                            assert(parts(m, a).contains(x));
                            assert(occurs(m, args[i as int], x));
                        }
                    }
                }
            }
            i = i + 1;
        }
    }
    let ghost mid = seen@;
    proof {
        let args = m.args(t);
        if m.has(t) {
            assert(m.terms@[t as int].fits(t as int));
        }
        assert forall|x: usize| #[trigger] occurs(m, t, x) implies x == t || mid.contains(x) by {
            if x != t {
                let i = choose|i: int| 0 <= i < args.len() && #[trigger] args[i] < t && occurs(m, args[i], x);
                assert(occurs_in(m, args, args.len() as int, x));
            }
        }
        assert(!mid.contains(t)) by {
            if mid.contains(t) {
                let i = choose|i: int| 0 <= i < args.len() && occurs(m, #[trigger] args[i], t);
                lemma_occurs_below(m, args[i], t);
            }
        }
        assert forall|x: usize| mid.contains(x) implies old(seen)@.contains(x) || #[trigger] occurs(m, t, x) by {
            if !old(seen)@.contains(x) {
                let i = choose|i: int| 0 <= i < args.len() && occurs(m, #[trigger] args[i], x);
                assert(args[i] < t && occurs(m, args[i], x));
            }
        }
        lemma_lists_push(out@, mid, t);
    }
    set_insert(seen, t);
    out.push(t);
    proof {
        assert(seen@ =~= old(seen)@.union(parts(m, t)));
        assert forall|s: usize, x: usize| seen@.contains(s) && #[trigger] occurs(m, s, x) implies seen@.contains(x) by {
            if s != t {
                assert(mid.contains(s));
            }
        }
    }
}

/// A part is not beyond the whole.
pub proof fn lemma_occurs_below(m: &TermManager, t: TermId, x: TermId)
    requires
        occurs(m, t, x),
    ensures
        x <= t,
    decreases t,
{
    if t != x {
        let i = choose|i: int| 0 <= i < m.args(t).len() && #[trigger] m.args(t)[i] < t && occurs(m, m.args(t)[i], x);
        lemma_occurs_below(m, m.args(t)[i], x);
    }
}

/// The parts of the given terms outside binders, each once.
pub fn subterms(m: &TermManager, roots: &Vec<TermId>) -> (out: Vec<TermId>)
    requires
        m.wf(),
    ensures
        out@.no_duplicates(),
        forall|x: usize| #[trigger] out@.contains(x) <==> occurs_in(m, roots@, roots@.len() as int, x),
{
    let mut seen = set_new();
    let mut out: Vec<TermId> = Vec::new();
    let mut i: usize = 0;
    while i < roots.len()
        invariant
            i <= roots.len(),
            m.wf(),
            parts_closed(m, seen@),
            lists(out@, seen@),
            forall|x: usize| #[trigger] seen@.contains(x) <==> occurs_in(m, roots@, i as int, x),
        decreases roots.len() - i,
    {
        let ghost before = seen@;
        list_parts(m, roots[i], &mut seen, &mut out);
        proof {
            assert forall|x: usize| #[trigger] seen@.contains(x) <==> occurs_in(m, roots@, i + 1, x) by {
                if occurs_in(m, roots@, i + 1, x) {
                    let k = choose|k: int| 0 <= k < i + 1 && occurs(m, #[trigger] roots@[k], x);
                    if k < i {
                        assert(occurs_in(m, roots@, i as int, x));
                        assert(before.contains(x));
                    } else {
                        assert(parts(m, roots@[i as int]).contains(x));
                    }
                }
                if seen@.contains(x) {
                    if before.contains(x) {
                        let k = choose|k: int| 0 <= k < i && occurs(m, #[trigger] roots@[k], x);
                        assert(occurs(m, roots@[k], x));
                    } else {
                        assert(parts(m, roots@[i as int]).contains(x));
                        assert(occurs(m, roots@[i as int], x));
                    }
                }
            }
        }
        i = i + 1;
    }
    out
}

/// An argument of a part outside binders is a part.
proof fn lemma_occurs_on(m: &TermManager, r: TermId, t: TermId, i: int)
    requires
        m.wf(),
        m.has(t),
        occurs(m, r, t),
        !is_binder(m, t),
        0 <= i < m.args(t).len(),
    ensures
        occurs(m, r, m.args(t)[i]),
    decreases r,
{
    let x = m.args(t)[i];
    if r == t {
        assert(x < t);
        assert(occurs(m, x, x));
    } else {
        let k = choose|k: int| 0 <= k < m.args(r).len() && #[trigger] m.args(r)[k] < r && occurs(m, m.args(r)[k], t);
        lemma_occurs_on(m, m.args(r)[k], t, i);
    }
}

/// A term is part of itself, with a part come all of its arguments, and what stands under a binder
/// is no part.
pub proof fn law_parts_reach_to_the_binders(m: &TermManager, r: TermId, t: TermId, x: TermId)
    requires
        m.wf(),
        m.has(t),
        occurs(m, r, t),
    ensures
        occurs(m, t, t),
        !(m.op(t) is Forall) && !(m.op(t) is Exists) && m.args(t).contains(x) ==> occurs(m, r, x),
        (m.op(t) is Forall || m.op(t) is Exists) && occurs(m, t, x) ==> x == t,
        m.args(t).len() == 0 && occurs(m, t, x) ==> x == t,
{
    if !is_binder(m, t) && m.args(t).contains(x) {
        let i = choose|i: int| 0 <= i < m.args(t).len() && m.args(t)[i] == x;
        lemma_occurs_on(m, r, t, i);
    }
}

} // verus!
