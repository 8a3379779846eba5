//! Acyclicity of datatype values.
use crate::classes::classes_of;
use crate::classes::joined;
use crate::classes::lemma_label;
use crate::classes::respects;
use crate::classes::Classes;
use crate::dt_facts::constructor_of;
use crate::dt_facts::is_ctor;
use crate::dt_model::is_datatype_term;
use crate::term::Sort;
use crate::term::TermId;
use crate::term::TermManager;
use crate::maps::map_get;
use crate::maps::map_insert;
use crate::maps::map_new;
use crate::walk::occurs_in;
use crate::walk::subterms;
use rustc_hash::FxHashMap;
use vstd::prelude::*;

verus! {

/// The depths agree on equal terms, and a constructor application is deeper than each of its
/// arguments of datatype sort.
pub open spec fn ranks(m: &TermManager, eqs: Seq<(TermId, TermId)>, ctors: Seq<TermId>, rank: spec_fn(TermId) -> int) -> bool {
    &&& forall|x: TermId| #[trigger] rank(x) >= 0
    &&& respects(rank, eqs)
    &&& forall|k: int, i: int|
        0 <= k < ctors.len() && is_ctor(m, ctors[k]) && 0 <= i < m.args(ctors[k]).len() && is_datatype_term(
            m,
            m.args(ctors[k])[i],
        ) ==> rank(#[trigger] m.args(#[trigger] ctors[k])[i]) < rank(ctors[k])
}

/// No value can be part of itself: the terms have depths.
pub open spec fn acyclic(m: &TermManager, eqs: Seq<(TermId, TermId)>, ctors: Seq<TermId>) -> bool {
    exists|rank: spec_fn(TermId) -> int| ranks(m, eqs, ctors, rank)
}

/// How far a node has been explored: not entered, on the current walk, or finished.
#[derive(Clone, Copy, Debug, PartialEq, Eq, Structural)]
enum Color {
    White,
    Gray,
    Black,
}

/// The adjacency lists are over nodes below their number.
spec fn graph_ok(adj: Seq<Vec<usize>>) -> bool {
    forall|k: int, i: int| 0 <= k < adj.len() && 0 <= i < adj[k]@.len() ==> (#[trigger] adj[k]@[i]) < adj.len()
}

/// There is an edge from `a` to `b`.
spec fn edge(adj: Seq<Vec<usize>>, a: usize, b: usize) -> bool {
    a < adj.len() && adj[a as int]@.contains(b) && b < adj.len()
}

/// The nodes follow each other along edges.
spec fn is_walk(adj: Seq<Vec<usize>>, p: Seq<usize>) -> bool {
    forall|i: int| 0 <= i < p.len() - 1 ==> edge(adj, #[trigger] p[i], p[i + 1])
}

/// A walk leads back to where it started.
spec fn has_cycle(adj: Seq<Vec<usize>>) -> bool {
    exists|p: Seq<usize>| #[trigger] is_walk(adj, p) && p.len() >= 2 && p[0] == p.last()
}

/// The nodes that have not been entered.
spec fn unentered(color: Seq<Color>, k: int) -> nat
    decreases k,
{
    if k <= 0 {
        0
    } else {
        unentered(color, k - 1) + if color[k - 1] == Color::White { 1nat } else { 0nat }
    }
}

proof fn lemma_enter(color: Seq<Color>, i: int, c: Color, k: int)
    requires
        0 <= i < color.len(),
        0 <= k <= color.len(),
        color[i] == Color::White,
        c != Color::White,
    ensures
        unentered(color.update(i, c), k) == unentered(color, k) - if i < k { 1int } else { 0int },
    decreases k,
{
    if k > 0 {
        lemma_enter(color, i, c, k - 1);
    }
}

proof fn lemma_fewer(a: Seq<Color>, b: Seq<Color>, k: int)
    requires
        a.len() == b.len(),
        0 <= k <= a.len(),
        forall|i: int| 0 <= i < a.len() ==> (#[trigger] a[i]) != Color::White ==> b[i] != Color::White,
    ensures
        unentered(b, k) <= unentered(a, k),
    decreases k,
{
    if k > 0 {
        lemma_fewer(a, b, k - 1);
    }
}

/// The finished nodes are listed in an order in which edges lead backwards.
spec fn finished_ok(adj: Seq<Vec<usize>>, color: Seq<Color>, done: Seq<usize>) -> bool {
    &&& color.len() == adj.len()
    &&& forall|i: int| 0 <= i < done.len() ==> (#[trigger] done[i]) < adj.len() && color[done[i] as int] == Color::Black
    &&& forall|k: usize| k < adj.len() && (#[trigger] color[k as int]) == Color::Black ==> done.contains(k)
    &&& forall|i: int, b: usize| 0 <= i < done.len() && #[trigger] edge(adj, done[i], b) ==> exists|j: int|
        0 <= j < i && done[j] == b
}

/// The entered and unfinished nodes are those of the walk `path`.
spec fn path_ok(adj: Seq<Vec<usize>>, color: Seq<Color>, path: Seq<usize>) -> bool {
    &&& is_walk(adj, path)
    &&& forall|k: usize| k < color.len() && (#[trigger] color[k as int]) == Color::Gray ==> path.contains(k)
    &&& forall|i: int| 0 <= i < path.len() ==> (#[trigger] path[i]) < color.len() && color[path[i] as int] == Color::Gray
}

/// The finished part only grows, and the walk stays.
spec fn onward(a: Seq<Color>, b: Seq<Color>) -> bool {
    &&& a.len() == b.len()
    &&& forall|i: int| 0 <= i < a.len() && (#[trigger] a[i]) != Color::White ==> b[i] == a[i]
    &&& forall|i: int| 0 <= i < a.len() && (#[trigger] b[i]) == Color::Gray ==> a[i] == Color::Gray
}

/// Explores what can be reached from a node that has not been entered; the result says whether a
/// cycle was found.
fn visit(adj: &Vec<Vec<usize>>, k: usize, color: &mut Vec<Color>, done: &mut Vec<usize>, Ghost(path): Ghost<Seq<usize>>) -> (found: bool)
    requires
        graph_ok(adj@),
        k < adj@.len(),
        finished_ok(adj@, old(color)@, old(done)@),
        path_ok(adj@, old(color)@, path),
        old(color)@[k as int] == Color::White,
        path.len() > 0 ==> edge(adj@, path.last(), k),
    ensures
        found ==> has_cycle(adj@),
        !found ==> finished_ok(adj@, final(color)@, final(done)@),
        !found ==> onward(old(color)@, final(color)@) && final(color)@[k as int] == Color::Black,
    decreases unentered(old(color)@, old(color)@.len() as int),
{
    let ghost here = path.push(k);
    color.set(k, Color::Gray);
    proof {
        lemma_enter(old(color)@, k as int, Color::Gray, old(color)@.len() as int);
        assert(here[path.len() as int] == k);
        assert(path_ok(adj@, color@, here)) by {
            assert forall|i: int| 0 <= i < here.len() - 1 implies edge(adj@, #[trigger] here[i], here[i + 1]) by {
                if i < path.len() - 1 {
                    assert(path[i] == here[i] && path[i + 1] == here[i + 1]);
                }
            }
            assert forall|j: usize| j < color@.len() && (#[trigger] color@[j as int]) == Color::Gray implies here.contains(j) by {
                if j != k {
                    assert(old(color)@[j as int] == Color::Gray);
                    assert(path.contains(j));
                    let h = choose|h: int| 0 <= h < path.len() && path[h] == j;
                    assert(here[h] == j);
                }
            }
            assert forall|i: int| 0 <= i < here.len() implies (#[trigger] here[i]) < color@.len() && color@[here[i] as int] == Color::Gray by {
                if i < path.len() {
                    assert(path[i] == here[i]);
                }
            }
        }
        assert(finished_ok(adj@, color@, done@)) by {
            assert forall|i: int| 0 <= i < done@.len() implies (#[trigger] done@[i]) < adj@.len() && color@[done@[i] as int] == Color::Black by {
                assert(old(color)@[done@[i] as int] == Color::Black);
            }
        }
    }
    let ghost entered = color@;
    let mut i: usize = 0;
    while i < adj[k].len()
        invariant
            i <= adj@[k as int]@.len(),
            graph_ok(adj@),
            k < adj@.len(),
            finished_ok(adj@, color@, done@),
            path_ok(adj@, color@, here),
            here.len() > 0,
            here.last() == k,
            onward(entered, color@),
            entered.len() == old(color)@.len(),
            entered[k as int] == Color::Gray,
            unentered(entered, entered.len() as int) < unentered(old(color)@, old(color)@.len() as int),
            forall|j: int| 0 <= j < i ==> color@[(#[trigger] adj@[k as int]@[j]) as int] == Color::Black,
        decreases adj@[k as int]@.len() - i,
    {
        let c: usize = adj[k][i];
        assert(adj@[k as int]@[i as int] == c);
        assert(c < adj@.len());
        assert(edge(adj@, k, c));
        if color[c] == Color::Gray {
            proof {
                assert(here.contains(c));
                let h = choose|h: int| 0 <= h < here.len() && here[h] == c;
                let p = here.subrange(h, here.len() as int).push(c);
                assert(p.len() >= 2);
                assert(p[0] == c && p.last() == c);
                assert forall|j: int| 0 <= j < p.len() - 1 implies edge(adj@, #[trigger] p[j], p[j + 1]) by {
                    if j < p.len() - 2 {
                        assert(p[j] == here[h + j] && p[j + 1] == here[h + j + 1]);
                        assert(edge(adj@, here[h + j], here[h + j + 1]));
                    } else {
                        assert(p[j] == here.last());
                    }
                }
                assert(is_walk(adj@, p));
            }
            return true;
        }
        if color[c] == Color::White {
            let ghost before = color@;
            proof {
                lemma_fewer(entered, before, entered.len() as int);
            }
            if visit(adj, c, color, done, Ghost(here)) {
                return true;
            }
            proof {
                assert(path_ok(adj@, color@, here)) by {
                    assert forall|j: usize| j < color@.len() && (#[trigger] color@[j as int]) == Color::Gray implies here.contains(j) by {
                        assert(before[j as int] == Color::Gray);
                    }
                    assert forall|j: int| 0 <= j < here.len() implies (#[trigger] here[j]) < color@.len() && color@[here[j] as int] == Color::Gray by {
                        assert(before[here[j] as int] == Color::Gray);
                    }
                }
                assert(onward(entered, color@)) by {
                    assert forall|j: int| 0 <= j < entered.len() && (#[trigger] entered[j]) != Color::White implies color@[j] == entered[j] by {
                        assert(entered[j] != Color::White ==> before[j] == entered[j]);
                        assert(before[j] != Color::White ==> color@[j] == before[j]);
                    }
                    assert forall|j: int| 0 <= j < entered.len() && (#[trigger] color@[j]) == Color::Gray implies entered[j] == Color::Gray by {
                        assert(color@[j] == Color::Gray ==> before[j] == Color::Gray);
                        assert(before[j] == Color::Gray ==> entered[j] == Color::Gray);
                    }
                }
                assert forall|j: int| 0 <= j < i implies color@[(#[trigger] adj@[k as int]@[j]) as int] == Color::Black by {
                    assert(before[adj@[k as int]@[j] as int] == Color::Black);
                }
            }
        }
        assert(color@[c as int] == Color::Black);
        i = i + 1;
    }
    let ghost before = color@;
    let ghost listed = done@;
    assert(color@[k as int] == Color::Gray) by {
        assert(entered[k as int] != Color::White ==> color@[k as int] == entered[k as int]);
    }
    color.set(k, Color::Black);
    done.push(k);
    proof {
        assert(done@[listed.len() as int] == k);
        assert(finished_ok(adj@, color@, done@)) by {
            assert forall|j: int| 0 <= j < done@.len() implies (#[trigger] done@[j]) < adj@.len() && color@[done@[j] as int] == Color::Black by {
                if j < listed.len() {
                    assert(listed[j] == done@[j]);
                }
            }
            assert forall|x: usize| x < adj@.len() && (#[trigger] color@[x as int]) == Color::Black implies done@.contains(x) by {
                if x == k {
                    assert(done@[listed.len() as int] == x);
                } else {
                    assert(before[x as int] == Color::Black);
                    assert(listed.contains(x));
                    let h = choose|h: int| 0 <= h < listed.len() && listed[h] == x;
                    assert(done@[h] == x);
                }
            }
            assert forall|j: int, b: usize| 0 <= j < done@.len() && #[trigger] edge(adj@, done@[j], b) implies exists|h: int|
                0 <= h < j && done@[h] == b by {
                if j < listed.len() {
                    assert(listed[j] == done@[j]);
                    let h = choose|h: int| 0 <= h < j && listed[h] == b;
                    assert(done@[h] == b);
                } else {
                    let x = b;
                    let h = choose|h: int| 0 <= h < adj@[k as int]@.len() && adj@[k as int]@[h] == x;
                    assert(before[adj@[k as int]@[h] as int] == Color::Black);
                    assert(listed.contains(x));
                    let g = choose|g: int| 0 <= g < listed.len() && listed[g] == x;
                    assert(done@[g] == b);
                }
            }
        }
        assert(onward(old(color)@, color@)) by {
            assert forall|j: int| 0 <= j < color@.len() && (#[trigger] old(color)@[j]) != Color::White implies color@[j] == old(color)@[j] by {
                assert(entered[j] != Color::White ==> before[j] == entered[j]);
            }
            assert forall|j: int| 0 <= j < color@.len() && (#[trigger] color@[j]) == Color::Gray implies old(color)@[j] == Color::Gray by {
                assert(before[j] == Color::Gray ==> entered[j] == Color::Gray);
            }
        }
    }
    false
}

/// The term is of a datatype sort.
pub fn has_datatype_sort(m: &TermManager, t: TermId) -> (r: bool)
    ensures
        r == is_datatype_term(m, t),
{
    t < m.terms.len() && m.terms[t].sort < m.sorts.len() && (match m.sorts[m.terms[t].sort] {
        Sort::Datatype(_) => true,
        _ => false,
    })
}

/// The table gives every node its position, and holds nothing else.
spec fn indexed(nodes: Seq<TermId>, index: Map<usize, usize>) -> bool {
    &&& forall|l: usize| #[trigger] index.contains_key(l) ==> index[l] < nodes.len() && nodes[index[l] as int] == l
    &&& forall|k: int| 0 <= k < nodes.len() ==> index.contains_key(#[trigger] nodes[k]) && index[nodes[k]] == k
}

/// A constructor application of class `l` has an argument of datatype sort of class `to`.
spec fn steps(m: &TermManager, ctors: Seq<TermId>, cl: &Classes, n: int, l: TermId, to: TermId) -> bool {
    exists|q: int, i: int|
        0 <= q < n && cl.label(ctors[q]) == l && is_ctor(m, ctors[q]) && 0 <= i < m.args(ctors[q]).len() && is_datatype_term(
            m,
            m.args(ctors[q])[i],
        ) && cl.label(#[trigger] m.args(#[trigger] ctors[q])[i]) == to
}

/// The positions of the classes that the constructor applications of class `l` have arguments
/// of.
fn neighbors(
    m: &TermManager,
    ctors: &Vec<TermId>,
    cl: &Classes,
    nodes: &Vec<TermId>,
    index: &FxHashMap<usize, usize>,
    l: TermId,
) -> (r: Vec<usize>)
    requires
        m.wf(),
        indexed(nodes@, index@),
    ensures
        forall|j: usize| #[trigger] r@.contains(j) <==> j < nodes@.len() && steps(m, ctors@, cl, ctors@.len() as int, l, nodes@[j as int]),
{
    let mut r: Vec<usize> = Vec::new();
    let mut q: usize = 0;
    while q < ctors.len()
        invariant
            q <= ctors.len(),
            m.wf(),
            indexed(nodes@, index@),
            forall|j: usize| #[trigger] r@.contains(j) <==> j < nodes@.len() && steps(m, ctors@, cl, q as int, l, nodes@[j as int]),
        decreases ctors.len() - q,
    {
        let c: usize = ctors[q];
        let ghost start = r@;
        if constructor_of(m, c).is_some() && cl.find(c) == l {
            let n: usize = m.terms[c].args.len();
            let mut i: usize = 0;
            while i < n
                invariant
                    i <= n,
                    q < ctors.len(),
                    c == ctors@[q as int],
                    m.wf(),
                    is_ctor(m, c),
                    cl.label(c) == l,
                    n == m.args(c).len(),
                    indexed(nodes@, index@),
                    forall|j: usize| #[trigger] start.contains(j) <==> j < nodes@.len() && steps(
                        m,
                        ctors@,
                        cl,
                        q as int,
                        l,
                        nodes@[j as int],
                    ),
                    forall|j: usize| #[trigger] r@.contains(j) <==> j < nodes@.len() && (steps(
                        m,
                        ctors@,
                        cl,
                        q as int,
                        l,
                        nodes@[j as int],
                    ) || reached(m, cl, c, i as int, nodes@[j as int])),
                decreases n - i,
            {
                let a: usize = m.terms[c].args[i];
                let ghost before = r@;
                if has_datatype_sort(m, a) {
                    if let Some(k) = map_get(index, cl.find(a)) {
                        r.push(*k);
                        proof {
                            let x = *k;
                            assert(r@[before.len() as int] == x);
                            assert(nodes@[x as int] == cl.label(a));
                            assert forall|j: usize| #[trigger] r@.contains(j) <==> before.contains(j) || j == x by {
                                if before.contains(j) {
                                    let h = choose|h: int| 0 <= h < before.len() && before[h] == j;
                                    assert(r@[h] == j);
                                }
                                if r@.contains(j) {
                                    let h = choose|h: int| 0 <= h < r@.len() && r@[h] == j;
                                    if h < before.len() {
                                        assert(before[h] == j);
                                    }
                                }
                            }
                        }
                    }
                }
                proof {
                    assert(m.args(c)[i as int] == a);
                    assert forall|j: usize| #[trigger] r@.contains(j) <==> j < nodes@.len() && (steps(
                        m,
                        ctors@,
                        cl,
                        q as int,
                        l,
                        nodes@[j as int],
                    ) || reached(m, cl, c, i + 1, nodes@[j as int])) by {
                        let was = before.contains(j);
                        if j < nodes@.len() {
                            let to = nodes@[j as int];
                            assert(index@.contains_key(to) && index@[to] == j);
                            if reached(m, cl, c, i + 1, to) {
                                let h = choose|h: int|
                                    0 <= h < i + 1 && is_datatype_term(m, m.args(c)[h]) && cl.label(#[trigger] m.args(c)[h]) == to;
                                if h < i {
                                    assert(reached(m, cl, c, i as int, to));
                                }
                            }
                            if reached(m, cl, c, i as int, to) {
                                let h = choose|h: int|
                                    0 <= h < i && is_datatype_term(m, m.args(c)[h]) && cl.label(#[trigger] m.args(c)[h]) == to;
                                assert(cl.label(m.args(c)[h]) == to);
                            }
                        }
                    }
                }
                i = i + 1;
            }
        }
        proof {
            assert forall|j: usize| #[trigger] r@.contains(j) <==> j < nodes@.len() && steps(
                m,
                ctors@,
                cl,
                q + 1,
                l,
                nodes@[j as int],
            ) by {
                if j < nodes@.len() {
                    let to = nodes@[j as int];
                    let was = start.contains(j);
                    if steps(m, ctors@, cl, q + 1, l, to) {
                        let (p, i) = choose|p: int, i: int|
                            0 <= p < q + 1 && cl.label(ctors@[p]) == l && is_ctor(m, ctors@[p]) && 0 <= i < m.args(ctors@[p]).len()
                                && is_datatype_term(m, m.args(ctors@[p])[i]) && cl.label(
                                #[trigger] m.args(#[trigger] ctors@[p])[i],
                            ) == to;
                        if p < q {
                            assert(steps(m, ctors@, cl, q as int, l, to));
                        } else {
                            assert(reached(m, cl, c, m.args(c).len() as int, to));
                        }
                    }
                    if steps(m, ctors@, cl, q as int, l, to) {
                        let (p, i) = choose|p: int, i: int|
                            0 <= p < q && cl.label(ctors@[p]) == l && is_ctor(m, ctors@[p]) && 0 <= i < m.args(ctors@[p]).len()
                                && is_datatype_term(m, m.args(ctors@[p])[i]) && cl.label(
                                #[trigger] m.args(#[trigger] ctors@[p])[i],
                            ) == to;
                        assert(cl.label(m.args(ctors@[p])[i]) == to);
                        assert(steps(m, ctors@, cl, q + 1, l, to));
                    }
                    if is_ctor(m, c) && cl.label(c) == l && reached(m, cl, c, m.args(c).len() as int, to) {
                        let h = choose|h: int|
                            0 <= h < m.args(c).len() && is_datatype_term(m, m.args(c)[h]) && cl.label(#[trigger] m.args(c)[h]) == to;
                        assert(cl.label(m.args(ctors@[q as int])[h]) == to);
                        assert(steps(m, ctors@, cl, q + 1, l, to));
                    }
                }
            }
        }
        q = q + 1;
    }
    r
}

/// One of the first `n` arguments of `c` is of datatype sort and of class `to`.
spec fn reached(m: &TermManager, cl: &Classes, c: TermId, n: int, to: TermId) -> bool {
    exists|h: int| 0 <= h < n && is_datatype_term(m, m.args(c)[h]) && cl.label(#[trigger] m.args(c)[h]) == to
}

/// The first position of `k` from `i` on.
spec fn position(done: Seq<usize>, k: usize, i: int) -> int
    decreases done.len() - i,
{
    if i < 0 || i >= done.len() {
        done.len() as int
    } else if done[i] == k {
        i
    } else {
        position(done, k, i + 1)
    }
}

proof fn lemma_position(done: Seq<usize>, k: usize, i: int, j: int)
    requires
        0 <= i <= j < done.len(),
        done[j] == k,
    ensures
        i <= position(done, k, i) <= j,
        done[position(done, k, i)] == k,
    decreases j - i,
{
    if done[i] != k {
        lemma_position(done, k, i + 1, j);
    }
}

/// Depths fall along a walk.
proof fn lemma_falling(
    m: &TermManager,
    eqs: Seq<(TermId, TermId)>,
    ctors: Seq<TermId>,
    cl: &Classes,
    nodes: Seq<TermId>,
    adj: Seq<Vec<usize>>,
    rank: spec_fn(TermId) -> int,
    p: Seq<usize>,
    i: int,
)
    requires
        cl.wf(),
        cl.of(eqs),
        ranks(m, eqs, ctors, rank),
        adj.len() == nodes.len(),
        forall|k: int, j: usize|
            0 <= k < nodes.len() && #[trigger] adj[k]@.contains(j) ==> j < nodes.len() && steps(
                m,
                ctors,
                cl,
                ctors.len() as int,
                nodes[k],
                nodes[j as int],
            ),
        is_walk(adj, p),
        0 <= i < p.len(),
    ensures
        rank(nodes[p[i] as int]) <= rank(nodes[p[0] as int]) - i,
    decreases i,
{
    if i > 0 {
        lemma_falling(m, eqs, ctors, cl, nodes, adj, rank, p, i - 1);
        assert(edge(adj, p[i - 1], p[i - 1 + 1]));
        let a = nodes[p[i - 1] as int];
        let b = nodes[p[i] as int];
        assert(adj[p[i - 1] as int]@.contains(p[i]));
        assert(steps(m, ctors, cl, ctors.len() as int, a, b));
        let (q, h) = choose|q: int, h: int|
            0 <= q < ctors.len() && cl.label(ctors[q]) == a && is_ctor(m, ctors[q]) && 0 <= h < m.args(ctors[q]).len()
                && is_datatype_term(m, m.args(ctors[q])[h]) && cl.label(#[trigger] m.args(#[trigger] ctors[q])[h]) == b;
        let c = ctors[q];
        let x = m.args(c)[h];
        lemma_label(cl, c);
        lemma_label(cl, x);
        assert(cl.label(a) == cl.label(c) && cl.label(b) == cl.label(x));
        assert(joined(eqs, a, c) && joined(eqs, b, x));
        assert(rank(a) == rank(c) && rank(b) == rank(x));
        assert(rank(m.args(ctors[q])[h]) < rank(ctors[q]));
    }
}

/// Some value would have to be part of itself: under the equalities, the constructor
/// applications have no depths.
pub fn cycle_exists_given(m: &TermManager, eqs: &Vec<(TermId, TermId)>, ctors: &Vec<TermId>) -> (r: bool)
    requires
        m.wf(),
    ensures
        r == !acyclic(m, eqs@, ctors@),
{
    let cl = classes_of(eqs);
    let mut nodes: Vec<TermId> = Vec::new();
    let mut index: FxHashMap<usize, usize> = map_new();
    let mut q: usize = 0;
    while q < ctors.len()
        invariant
            q <= ctors.len(),
            indexed(nodes@, index@),
            forall|j: int| 0 <= j < q ==> index@.contains_key(cl.label(#[trigger] ctors@[j])),
        decreases ctors.len() - q,
    {
        let l: usize = cl.find(ctors[q]);
        if map_get(&index, l).is_none() {
            let k: usize = nodes.len();
            let ghost before = nodes@;
            let ghost table = index@;
            map_insert(&mut index, l, k);
            nodes.push(l);
            proof {
                assert(nodes@[k as int] == l);
                assert forall|x: usize| #[trigger] index@.contains_key(x) implies index@[x] < nodes@.len() && nodes@[index@[x] as int] == x by {
                    if x != l {
                        assert(table.contains_key(x));
                        assert(before[table[x] as int] == x);
                    }
                }
                assert forall|j: int| 0 <= j < nodes@.len() implies index@.contains_key(#[trigger] nodes@[j]) && index@[nodes@[j]] == j by {
                    if j < k {
                        assert(before[j] == nodes@[j]);
                        assert(table.contains_key(before[j]));
                    }
                }
            }
        }
        q = q + 1;
    }
    let n: usize = nodes.len();
    let mut adj: Vec<Vec<usize>> = Vec::new();
    while adj.len() < n
        invariant
            adj@.len() <= n,
            n == nodes@.len(),
            m.wf(),
            indexed(nodes@, index@),
            forall|k: int, j: usize|
                0 <= k < adj@.len() ==> (#[trigger] adj@[k]@.contains(j) <==> j < nodes@.len() && steps(
                    m,
                    ctors@,
                    &cl,
                    ctors@.len() as int,
                    nodes@[k],
                    nodes@[j as int],
                )),
        decreases n - adj.len(),
    {
        let row = neighbors(m, ctors, &cl, &nodes, &index, nodes[adj.len()]);
        let ghost before = adj@;
        adj.push(row);
        assert forall|k: int, j: usize| 0 <= k < adj@.len() implies (#[trigger] adj@[k]@.contains(j) <==> j < nodes@.len()
            && steps(m, ctors@, &cl, ctors@.len() as int, nodes@[k], nodes@[j as int])) by {
            if k < before.len() {
                assert(adj@[k] == before[k]);
            }
        }
    }
    assert(graph_ok(adj@)) by {
        assert forall|k: int, i: int| 0 <= k < adj@.len() && 0 <= i < adj@[k]@.len() implies (#[trigger] adj@[k]@[i]) < adj@.len() by {
            assert(adj@[k]@.contains(adj@[k]@[i]));
        }
    }
    let mut color: Vec<Color> = Vec::new();
    while color.len() < n
        invariant
            color@.len() <= n,
            forall|k: int| 0 <= k < color@.len() ==> color@[k] == Color::White,
        decreases n - color.len(),
    {
        color.push(Color::White);
    }
    let mut done: Vec<usize> = Vec::new();
    let mut s: usize = 0;
    assert(path_ok(adj@, color@, Seq::empty()));
    while s < n
        invariant
            s <= n,
            n == adj@.len(),
            n == nodes@.len(),
            m.wf(),
            cl.wf(),
            cl.of(eqs@),
            graph_ok(adj@),
            finished_ok(adj@, color@, done@),
            path_ok(adj@, color@, Seq::empty()),
            forall|k: int, j: usize|
                0 <= k < nodes@.len() && #[trigger] adj@[k]@.contains(j) ==> j < nodes@.len() && steps(
                    m,
                    ctors@,
                    &cl,
                    ctors@.len() as int,
                    nodes@[k],
                    nodes@[j as int],
                ),
            forall|k: int| 0 <= k < s ==> (#[trigger] color@[k]) == Color::Black,
        decreases n - s,
    {
        if color[s] == Color::White {
            let ghost before = color@;
            if visit(&adj, s, &mut color, &mut done, Ghost(Seq::empty())) {
                proof {
                    assert forall|rank: spec_fn(TermId) -> int| !ranks(m, eqs@, ctors@, rank) by {
                        if ranks(m, eqs@, ctors@, rank) {
                            let p = choose|p: Seq<usize>| #[trigger] is_walk(adj@, p) && p.len() >= 2 && p[0] == p.last();
                            lemma_falling(m, eqs@, ctors@, &cl, nodes@, adj@, rank, p, p.len() - 1);
                        }
                    }
                }
                return true;
            }
            proof {
                assert forall|k: int| 0 <= k < s implies (#[trigger] color@[k]) == Color::Black by {
                    assert(before[k] == Color::Black);
                }
                assert(path_ok(adj@, color@, Seq::empty())) by {
                    assert forall|k: usize| k < color@.len() && (#[trigger] color@[k as int]) == Color::Gray implies Seq::<usize>::empty().contains(
                        k,
                    ) by {
                        assert(before[k as int] == Color::Gray);
                    }
                }
            }
        } else {
            proof {
                if color@[s as int] == Color::Gray {
                    assert(Seq::<usize>::empty().contains(s));
                }
            }
        }
        s = s + 1;
    }
    proof {
        let rank = |x: TermId|
            if index@.contains_key(cl.label(x)) {
                position(done@, index@[cl.label(x)], 0) + 1
            } else {
                0int
            };
        assert forall|k: usize| k < n implies #[trigger] done@.contains(k) by {
            assert(color@[k as int] == Color::Black);
        }
        assert forall|x: TermId| #[trigger] rank(x) >= 0 by {
            if index@.contains_key(cl.label(x)) {
                let k = index@[cl.label(x)];
                assert(done@.contains(k));
                let h = choose|h: int| 0 <= h < done@.len() && done@[h] == k;
                lemma_position(done@, k, 0, h);
            }
        }
        assert forall|i: int| 0 <= i < eqs@.len() implies rank((#[trigger] eqs@[i]).0) == rank(eqs@[i].1) by {
            let (a, b) = eqs@[i];
            assert(joined(eqs@, a, b)) by {
                assert forall|f: spec_fn(TermId) -> int| #[trigger] respects(f, eqs@) implies f(a) == f(b) by {
                    assert(f(eqs@[i].0) == f(eqs@[i].1));
                }
            }
            assert(cl.label(a) == cl.label(b));
        }
        assert forall|k: int, i: int|
            0 <= k < ctors@.len() && is_ctor(m, ctors@[k]) && 0 <= i < m.args(ctors@[k]).len() && is_datatype_term(
                m,
                m.args(ctors@[k])[i],
            ) implies rank(#[trigger] m.args(#[trigger] ctors@[k])[i]) < rank(ctors@[k]) by {
            let c = ctors@[k];
            let a = m.args(c)[i];
            let kc = index@[cl.label(c)];
            assert(index@.contains_key(cl.label(ctors@[k])));
            assert(done@.contains(kc));
            let h = choose|h: int| 0 <= h < done@.len() && done@[h] == kc;
            lemma_position(done@, kc, 0, h);
            let pc = position(done@, kc, 0);
            if index@.contains_key(cl.label(a)) {
                let ka = index@[cl.label(a)];
                assert(cl.label(m.args(ctors@[k])[i]) == nodes@[ka as int]);
                assert(steps(m, ctors@, &cl, ctors@.len() as int, nodes@[kc as int], nodes@[ka as int]));
                assert(adj@[kc as int]@.contains(ka));
                assert(edge(adj@, done@[pc], ka));
                let g = choose|g: int| 0 <= g < pc && done@[g] == ka;
                lemma_position(done@, ka, 0, g);
            }
        }
        assert(ranks(m, eqs@, ctors@, rank));
    }
    false
}

/// The constructor applications among the parts of the assertions outside binders.
pub fn build_dt_ctor_terms(m: &TermManager, assertions: &Vec<TermId>) -> (r: Vec<TermId>)
    requires
        m.wf(),
    ensures
        forall|x: usize| #[trigger] r@.contains(x) <==> is_ctor(m, x) && occurs_in(m, assertions@, assertions@.len() as int, x),
{
    let parts = subterms(m, assertions);
    let mut r: Vec<TermId> = Vec::new();
    let mut i: usize = 0;
    while i < parts.len()
        invariant
            i <= parts.len(),
            forall|x: usize| #[trigger] r@.contains(x) <==> is_ctor(m, x) && parts@.take(i as int).contains(x),
        decreases parts.len() - i,
    {
        let t: usize = parts[i];
        let ghost before = r@;
        let ghost head = parts@.take(i as int);
        if constructor_of(m, t).is_some() {
            r.push(t);
        }
        proof {
            let next = parts@.take(i + 1);
            assert(next =~= head.push(t));
            lemma_contains_push(head, t);
            lemma_contains_push(before, t);
        }
        i = i + 1;
    }
    assert(parts@.take(parts@.len() as int) =~= parts@);
    r
}

/// Membership in a longer list.
pub proof fn lemma_contains_push<A>(s: Seq<A>, x: A)
    ensures
        forall|y: A| #[trigger] s.push(x).contains(y) <==> s.contains(y) || y == x,
{
    let t = s.push(x);
    assert(t[s.len() as int] == x);
    assert forall|y: A| #[trigger] t.contains(y) <==> s.contains(y) || y == x by {
        if s.contains(y) {
            let i = choose|i: int| 0 <= i < s.len() && s[i] == y;
            assert(t[i] == y);
        }
        if t.contains(y) {
            let i = choose|i: int| 0 <= i < t.len() && t[i] == y;
            if i < s.len() {
                assert(s[i] == y);
            }
        }
    }
}

} // verus!
