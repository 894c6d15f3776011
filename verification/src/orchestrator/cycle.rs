//! Cycle detection over a graph's synchronisation edges: an iterative
//! depth-first search with grey/black colouring that reports a back
//! edge when it finds one.
use vstd::prelude::*;
use crate::orchestrator::graph::{Graph, GraphError};

verus! {

/// `v` is among the synchronisation successors of `u`.
pub open spec fn edge(adj: Seq<Seq<usize>>, u: int, v: int) -> bool {
    &&& 0 <= u < adj.len()
    &&& exists|k: int| 0 <= k < adj[u].len() && adj[u][k] as int == v
}

/// Consecutive elements of `p` are joined by edges.
pub open spec fn is_walk(adj: Seq<Seq<usize>>, p: Seq<int>) -> bool {
    forall|k: int| 0 <= k < p.len() - 1 ==> #[trigger] edge(adj, p[k], p[k + 1])
}

/// `p` is a non-empty walk.
pub open spec fn is_path(adj: Seq<Seq<usize>>, p: Seq<int>) -> bool {
    p.len() >= 1 && is_walk(adj, p)
}

/// `v` can be reached from `u` by following zero or more edges.
pub open spec fn reaches(adj: Seq<Seq<usize>>, u: int, v: int) -> bool {
    exists|p: Seq<int>| is_path(adj, p) && p[0] == u && p.last() == v
}

/// Some step is reachable from itself by one or more edges.
pub open spec fn has_cycle(adj: Seq<Seq<usize>>) -> bool {
    exists|p: Seq<int>| is_path(adj, p) && p.len() >= 2 && p[0] == p.last()
}

/// Every edge points at an existing step.
pub open spec fn edges_in_range(adj: Seq<Seq<usize>>) -> bool {
    forall|u: int, k: int| 0 <= u < adj.len() && 0 <= k < adj[u].len() ==> #[trigger] adj[u][k] < adj.len()
}

/// A back edge `via -> target` closes a cycle: `target` reaches `via`.
pub open spec fn is_back_edge(adj: Seq<Seq<usize>>, via: int, target: int) -> bool {
    edge(adj, via, target) && reaches(adj, target, via)
}

/// A back edge means a cycle.
pub proof fn lemma_back_edge_cycle(adj: Seq<Seq<usize>>, via: int, target: int)
    requires
        is_back_edge(adj, via, target),
    ensures
        has_cycle(adj),
{
    let p = choose|p: Seq<int>| is_path(adj, p) && p[0] == target && p.last() == via;
    let q = p.push(target);
    assert forall|k: int| 0 <= k < q.len() - 1 implies #[trigger] edge(adj, q[k], q[k + 1]) by {
        if k < p.len() - 1 {
            assert(q[k] == p[k] && q[k + 1] == p[k + 1]);
            assert(edge(adj, p[k], p[k + 1]));
        }
    }
    assert(is_path(adj, q) && q.len() >= 2 && q[0] == q.last());
}

pub type Entry = (usize, Option<usize>, bool);

/// The steps whose exit entries are on the stack, bottom to top.
pub open spec fn markers(s: Seq<Entry>) -> Seq<int>
    decreases s.len(),
{
    if s.len() == 0 {
        Seq::empty()
    } else if s.last().2 {
        markers(s.drop_last()).push(s.last().0 as int)
    } else {
        markers(s.drop_last())
    }
}

/// Exit entries weigh 1, entries still to visit weigh 2.
pub open spec fn weight(s: Seq<Entry>) -> nat
    decreases s.len(),
{
    if s.len() == 0 {
        0
    } else {
        weight(s.drop_last()) + if s.last().2 { 1nat } else { 2nat }
    }
}

/// Number of unvisited (white) steps.
pub open spec fn whites(c: Seq<u8>) -> nat
    decreases c.len(),
{
    if c.len() == 0 {
        0
    } else {
        whites(c.drop_last()) + if c.last() == 0 { 1nat } else { 0nat }
    }
}

/// The entries the search pushes for the successors `deps` of `nd`: one
/// per successor that is not finished, in the order of `deps`.
pub open spec fn child_entries(deps: Seq<usize>, nd: usize, color: Seq<u8>) -> Seq<Entry>
    decreases deps.len(),
{
    if deps.len() == 0 {
        Seq::empty()
    } else {
        let rest = child_entries(deps.drop_last(), nd, color);
        if color[deps.last() as int] != 2 {
            rest.push((deps.last(), Some(nd), false))
        } else {
            rest
        }
    }
}

/// The search moved to a state with fewer unvisited steps, or as many and
/// a lighter stack.
pub open spec fn advances(c0: Seq<u8>, s0: Seq<Entry>, c1: Seq<u8>, s1: Seq<Entry>) -> bool {
    whites(c1) < whites(c0) || (whites(c1) == whites(c0) && weight(s1) < weight(s0))
}

/// What the depth-first search finds from a state: colours (0 unvisited,
/// 1 on the current walk, 2 finished), the stack of entries, and the next
/// root to start from. Roots are taken in index order; an entry popped
/// from the top is either the exit of a step (which finishes it), an entry
/// for a step on the current walk (the search stops and reports that
/// entry's parent and step), or a visit (the step joins the walk, its exit
/// is pushed, then an entry for each unfinished successor in order).
pub open spec fn search_from(adj: Seq<Seq<usize>>, color: Seq<u8>, stack: Seq<Entry>, start: nat) -> Option<(Option<usize>, usize)>
    decreases (if start < adj.len() { (adj.len() - start) as nat } else { 0nat }), whites(color), weight(stack),
{
    if stack.len() == 0 {
        if start >= adj.len() {
            None
        } else if color[start as int] == 0 {
            search_from(adj, color, seq![(start as usize, None, false)], start + 1)
        } else {
            search_from(adj, color, stack, start + 1)
        }
    } else {
        let e = stack.last();
        let rest = stack.drop_last();
        if e.2 {
            let c1 = color.update(e.0 as int, 2);
            if advances(color, stack, c1, rest) {
                search_from(adj, c1, rest, start)
            } else {
                None
            }
        } else if color[e.0 as int] == 1 {
            Some((e.1, e.0))
        } else {
            let c1 = color.update(e.0 as int, 1);
            let s1 = rest.push((e.0, e.1, true)) + child_entries(adj[e.0 as int], e.0, c1);
            if advances(color, stack, c1, s1) {
                search_from(adj, c1, s1, start)
            } else {
                None
            }
        }
    }
}

/// The first back edge that a depth-first search meets, as the parent
/// and the step of the entry at which it meets a step already on its
/// walk: roots in index order, and the successors of each step visited
/// last-listed first (they are pushed on a stack in list order). `None`
/// when the search finishes every step.
pub open spec fn dfs_back_edge(adj: Seq<Seq<usize>>) -> Option<(Option<usize>, usize)> {
    search_from(adj, Seq::new(adj.len(), |i: int| 0u8), Seq::empty(), 0)
}

proof fn lemma_whites_update(c: Seq<u8>, x: int, v: u8)
    requires
        0 <= x < c.len(),
        v != 0,
    ensures
        c[x] == 0 ==> whites(c.update(x, v)) + 1 == whites(c),
        c[x] != 0 ==> whites(c.update(x, v)) == whites(c),
    decreases c.len(),
{
    let d = c.update(x, v);
    if x < c.len() - 1 {
        assert(d.drop_last() =~= c.drop_last().update(x, v));
        lemma_whites_update(c.drop_last(), x, v);
    } else {
        assert(d.drop_last() =~= c.drop_last());
    }
}

proof fn lemma_push(s: Seq<Entry>, e: Entry)
    ensures
        markers(s.push(e)) == if e.2 { markers(s).push(e.0 as int) } else { markers(s) },
        weight(s.push(e)) == weight(s) + if e.2 { 1nat } else { 2nat },
{
    assert(s.push(e).drop_last() =~= s);
}

/// Ranks strictly decrease along any walk that starts at a ranked step.
proof fn lemma_ranked_walk(adj: Seq<Seq<usize>>, rank: Map<int, int>, p: Seq<int>)
    requires
        is_path(adj, p),
        rank.contains_key(p[0]),
        forall|u: int, v: int| #[trigger] rank.contains_key(u) && #[trigger] edge(adj, u, v) ==> rank.contains_key(v) && rank[v] < rank[u],
    ensures
        forall|k: int| 0 <= k < p.len() ==> #[trigger] rank.contains_key(p[k]),
        forall|k: int| 0 < k < p.len() ==> #[trigger] rank[p[k]] < rank[p[0]],
    decreases p.len(),
{
    if p.len() > 1 {
        let q = p.drop_last();
        assert forall|k: int| 0 <= k < q.len() - 1 implies #[trigger] edge(adj, q[k], q[k + 1]) by {
            assert(edge(adj, p[k], p[k + 1]));
        }
        lemma_ranked_walk(adj, rank, q);
        let l = p.len() - 2;
        assert(q[l] == p[l]);
        assert(rank.contains_key(q[l]));
        assert(edge(adj, p[l], p[l + 1]));
        assert forall|k: int| 0 <= k < p.len() implies #[trigger] rank.contains_key(p[k]) by {
            if k < q.len() {
                assert(q[k] == p[k]);
            }
        }
        assert forall|k: int| 0 < k < p.len() implies #[trigger] rank[p[k]] < rank[p[0]] by {
            if k < q.len() {
                assert(q[k] == p[k]);
            } else {
                if l > 0 {
                    assert(rank[q[l]] < rank[q[0]]);
                }
            }
        }
    }
}

/// Structure of the search state: grey steps are exactly those with an
/// exit entry on the stack, in the order of a walk; every entry still to
/// visit sits above the exit entry of the parent that pushed it.
spec fn shape(adj: Seq<Seq<usize>>, color: Seq<u8>, st: Seq<Entry>) -> bool {
    let n = adj.len();
    let m = markers(st);
    &&& color.len() == n
    &&& forall|x: int| 0 <= x < n ==> #[trigger] color[x] <= 2
    &&& forall|j: int| 0 <= j < st.len() ==> (#[trigger] st[j]).0 < n
    &&& forall|k: int| 0 <= k < m.len() ==> 0 <= #[trigger] m[k] < n
    &&& forall|x: int| 0 <= x < n ==> (#[trigger] color[x] == 1 <==> m.contains(x))
    &&& m.no_duplicates()
    &&& is_walk(adj, m)
    &&& forall|j: int| 0 <= j < st.len() && !(#[trigger] st[j]).2 && st[j].1 is Some ==> {
            &&& markers(st.take(j)).len() > 0
            &&& markers(st.take(j)).last() == st[j].1->0 as int
            &&& edge(adj, st[j].1->0 as int, st[j].0 as int)
        }
    &&& forall|j: int| 0 <= j < st.len() && !(#[trigger] st[j]).2 && st[j].1 is None ==> j == 0 && st.len() == 1 && color[st[j].0 as int] == 0
}

/// Finished (black) steps carry ranks that decrease along every edge,
/// and their successors are finished too.
spec fn ranked(adj: Seq<Seq<usize>>, color: Seq<u8>, rank: Map<int, int>, next: int) -> bool {
    let n = adj.len();
    &&& forall|x: int| 0 <= x < n && #[trigger] color[x] == 2 ==> rank.contains_key(x)
    &&& forall|x: int| #[trigger] rank.contains_key(x) ==> 0 <= x < n && color[x] != 0 && rank[x] < next
    &&& forall|u: int, v: int| #[trigger] rank.contains_key(u) && #[trigger] edge(adj, u, v) ==> rank.contains_key(v) && rank[v] < rank[u]
}

/// Each successor of the step with the exit entry at `i` is finished or
/// still has an entry above `i`.
spec fn pending(adj: Seq<Seq<usize>>, st: Seq<Entry>, rank: Map<int, int>, i: int) -> bool {
    forall|v: int| #[trigger] edge(adj, st[i].0 as int, v) ==>
        rank.contains_key(v) || exists|j: int| i < j < st.len() && (#[trigger] st[j]).0 as int == v
}

/// The search invariant.
spec fn dfs_inv(adj: Seq<Seq<usize>>, color: Seq<u8>, st: Seq<Entry>, rank: Map<int, int>, next: int) -> bool {
    &&& shape(adj, color, st)
    &&& ranked(adj, color, rank, next)
    &&& forall|i: int| 0 <= i < st.len() && (#[trigger] st[i]).2 ==> pending(adj, st, rank, i)
}

proof fn lemma_pending_push(adj: Seq<Seq<usize>>, st: Seq<Entry>, rank: Map<int, int>, i: int, e: Entry)
    requires
        0 <= i < st.len(),
        pending(adj, st, rank, i),
    ensures
        pending(adj, st.push(e), rank, i),
{
    let s2 = st.push(e);
    assert forall|v: int| #[trigger] edge(adj, s2[i].0 as int, v) implies
        rank.contains_key(v) || exists|j: int| i < j < s2.len() && (#[trigger] s2[j]).0 as int == v by {
        assert(s2[i] == st[i]);
        if !rank.contains_key(v) {
            let j = choose|j: int| i < j < st.len() && (#[trigger] st[j]).0 as int == v;
            assert(s2[j] == st[j]);
        }
    }
}

#[verifier::rlimit(100)]
/// Finishing the step on top of the stack.
proof fn lemma_exit(adj: Seq<Seq<usize>>, st: Seq<Entry>, c0: Seq<u8>, rank: Map<int, int>, next: int)
    requires
        dfs_inv(adj, c0, st, rank, next),
        st.len() > 0,
        st.last().2,
    ensures
        ({
            let nd = st.last().0 as int;
            let r1 = if rank.contains_key(nd) { rank } else { rank.insert(nd, next) };
            &&& dfs_inv(adj, c0.update(nd, 2), st.drop_last(), r1, next + 1)
            &&& weight(st.drop_last()) < weight(st)
            &&& whites(c0.update(nd, 2)) == whites(c0)
        }),
{
    let top = st.len() - 1;
    let nd = st.last().0 as int;
    let s1 = st.drop_last();
    let c1 = c0.update(nd, 2);
    let r1 = if rank.contains_key(nd) { rank } else { rank.insert(nd, next) };
    let m = markers(st);
    let m1 = markers(s1);
    assert(m == m1.push(nd));
    assert(st[top] == st.last());
    assert(m[m.len() - 1] == nd);
    assert(m.contains(nd));
    assert(c0[nd] == 1);
    lemma_whites_update(c0, nd, 2);
    assert(!m1.contains(nd)) by {
        if m1.contains(nd) {
            let a = choose|a: int| 0 <= a < m1.len() && m1[a] == nd;
            assert(m[a] == m[m.len() - 1]);
        }
    }
    // shape
    assert forall|k: int| 0 <= k < m1.len() implies 0 <= #[trigger] m1[k] < adj.len() by {
        assert(m[k] == m1[k]);
    }
    assert forall|x: int| 0 <= x < adj.len() implies (#[trigger] c1[x] == 1 <==> m1.contains(x)) by {
        if m1.contains(x) {
            let a = choose|a: int| 0 <= a < m1.len() && m1[a] == x;
            assert(m[a] == x);
        }
        if x != nd && m.contains(x) {
            let a = choose|a: int| 0 <= a < m.len() && m[a] == x;
            assert(m1[a] == x);
        }
    }
    assert(m1.no_duplicates()) by {
        assert forall|a: int, b: int| 0 <= a < m1.len() && 0 <= b < m1.len() && a != b implies m1[a] != m1[b] by {
            assert(m[a] == m1[a] && m[b] == m1[b]);
        }
    }
    assert(is_walk(adj, m1)) by {
        assert forall|k: int| 0 <= k < m1.len() - 1 implies #[trigger] edge(adj, m1[k], m1[k + 1]) by {
            assert(m[k] == m1[k] && m[k + 1] == m1[k + 1]);
            assert(edge(adj, m[k], m[k + 1]));
        }
    }
    assert forall|j: int| 0 <= j < s1.len() && !(#[trigger] s1[j]).2 && s1[j].1 is Some implies {
        &&& markers(s1.take(j)).len() > 0
        &&& markers(s1.take(j)).last() == s1[j].1->0 as int
        &&& edge(adj, s1[j].1->0 as int, s1[j].0 as int)
    } by {
        assert(s1[j] == st[j]);
        assert(s1.take(j) =~= st.take(j));
    }
    assert forall|j: int| 0 <= j < s1.len() && !(#[trigger] s1[j]).2 && s1[j].1 is None implies j == 0 && s1.len() == 1 && c1[s1[j].0 as int] == 0 by {
        assert(s1[j] == st[j]);
    }
    assert forall|j: int| 0 <= j < s1.len() implies (#[trigger] s1[j]).0 < adj.len() by {
        assert(s1[j] == st[j]);
    }
    assert(shape(adj, c1, s1));
    // ranked
    assert(pending(adj, st, rank, top));
    assert forall|v: int| edge(adj, nd, v) implies rank.contains_key(v) by {
        assert(edge(adj, st[top].0 as int, v));
    }
    assert forall|u: int, v: int| #[trigger] r1.contains_key(u) && #[trigger] edge(adj, u, v) implies r1.contains_key(v) && r1[v] < r1[u] by {
        if u == nd && !rank.contains_key(nd) {
            assert(rank.contains_key(v));
            assert(rank[v] < next);
        } else {
            assert(rank.contains_key(u));
        }
    }
    assert forall|x: int| #[trigger] r1.contains_key(x) implies 0 <= x < adj.len() && c1[x] != 0 && r1[x] < next + 1 by {
        if x != nd {
            assert(rank.contains_key(x));
        }
    }
    assert(ranked(adj, c1, r1, next + 1));
    // pending
    assert forall|i: int| 0 <= i < s1.len() && (#[trigger] s1[i]).2 implies pending(adj, s1, r1, i) by {
        assert(s1[i] == st[i]);
        assert(pending(adj, st, rank, i));
        assert forall|v: int| #[trigger] edge(adj, s1[i].0 as int, v) implies
            r1.contains_key(v) || exists|j: int| i < j < s1.len() && (#[trigger] s1[j]).0 as int == v by {
            assert(edge(adj, st[i].0 as int, v));
            if !rank.contains_key(v) {
                let j = choose|j: int| i < j < st.len() && (#[trigger] st[j]).0 as int == v;
                if j < top {
                    assert(s1[j] == st[j]);
                } else {
                    assert(v == nd);
                }
            }
        }
    }
}

/// Meeting a grey step again: the entry's parent exists and the edge from
/// it closes a cycle.
proof fn lemma_grey(adj: Seq<Seq<usize>>, st: Seq<Entry>, c0: Seq<u8>, rank: Map<int, int>, next: int)
    requires
        dfs_inv(adj, c0, st, rank, next),
        st.len() > 0,
        !st.last().2,
        c0[st.last().0 as int] == 1,
    ensures
        st.last().1 is Some,
        is_back_edge(adj, st.last().1->0 as int, st.last().0 as int),
{
    let top = st.len() - 1;
    let e = st.last();
    assert(st[top] == e);
    let nd = e.0 as int;
    if e.1 is None {
        assert(c0[nd] == 0);
    } else {
        let p = e.1->0 as int;
        assert(st.take(top) =~= st.drop_last());
        let m = markers(st);
        assert(m == markers(st.drop_last()));
        assert(m.contains(nd));
        let a = choose|a: int| 0 <= a < m.len() && m[a] == nd;
        let q = m.subrange(a, m.len() as int);
        assert forall|k: int| 0 <= k < q.len() - 1 implies #[trigger] edge(adj, q[k], q[k + 1]) by {
            assert(q[k] == m[a + k] && q[k + 1] == m[a + k + 1]);
            assert(edge(adj, m[a + k], m[a + k + 1]));
        }
        assert(q.last() == m.last());
        assert(is_path(adj, q) && q[0] == nd && q.last() == p);
    }
}

#[verifier::rlimit(100)]
/// Entering a step: it turns grey and its exit entry replaces the entry
/// that was visited. When the step had already been finished, all its
/// successors are finished too.
proof fn lemma_enter(adj: Seq<Seq<usize>>, st: Seq<Entry>, c0: Seq<u8>, rank: Map<int, int>, next: int)
    requires
        dfs_inv(adj, c0, st, rank, next),
        st.len() > 0,
        !st.last().2,
        c0[st.last().0 as int] != 1,
    ensures
        ({
            let e = st.last();
            let nd = e.0 as int;
            let s1 = st.drop_last().push((e.0, e.1, true));
            let c1 = c0.update(nd, 1);
            &&& shape(adj, c1, s1)
            &&& ranked(adj, c1, rank, next)
            &&& forall|i: int| 0 <= i < s1.len() - 1 && (#[trigger] s1[i]).2 ==> pending(adj, s1, rank, i)
            &&& markers(s1) == markers(st).push(nd)
            &&& weight(s1) < weight(st)
            &&& (c0[nd] == 0 ==> whites(c1) < whites(c0))
            &&& (c0[nd] == 2 ==> whites(c1) == whites(c0))
            &&& (c0[nd] == 2 ==> forall|v: int| #[trigger] edge(adj, nd, v) ==> c0[v] == 2 && v != nd)
        }),
{
    let top = st.len() - 1;
    let e = st.last();
    assert(st[top] == e);
    let nd = e.0 as int;
    let s0 = st.drop_last();
    let ex: Entry = (e.0, e.1, true);
    let s1 = s0.push(ex);
    let c1 = c0.update(nd, 1);
    let m = markers(st);
    assert(m == markers(s0));
    lemma_push(s0, ex);
    lemma_push(s0, e);
    assert(s0.push(e) =~= st);
    let m1 = markers(s1);
    assert(m1 == m.push(nd));
    lemma_whites_update(c0, nd, 1);
    assert(!m.contains(nd));
    assert(st.take(top) =~= s0);
    // the new walk step
    if e.1 is Some {
        assert(markers(st.take(top)).len() > 0);
        assert(m.last() == e.1->0 as int);
        assert(edge(adj, e.1->0 as int, nd));
    } else {
        assert(st.len() == 1);
        assert(s0.len() == 0);
    }
    assert(is_walk(adj, m1)) by {
        assert forall|k: int| 0 <= k < m1.len() - 1 implies #[trigger] edge(adj, m1[k], m1[k + 1]) by {
            if k < m.len() - 1 {
                assert(m1[k] == m[k] && m1[k + 1] == m[k + 1]);
                assert(edge(adj, m[k], m[k + 1]));
            } else {
                assert(m1[k] == m.last());
                assert(m1[k + 1] == nd);
            }
        }
    }
    assert(m1.no_duplicates()) by {
        assert forall|a: int, b: int| 0 <= a < m1.len() && 0 <= b < m1.len() && a != b implies m1[a] != m1[b] by {
            if a < m.len() && b < m.len() {
                assert(m1[a] == m[a] && m1[b] == m[b]);
            } else if a < m.len() {
                assert(m1[a] == m[a]);
                assert(m.contains(m[a]));
            } else if b < m.len() {
                assert(m1[b] == m[b]);
                assert(m.contains(m[b]));
            }
        }
    }
    assert forall|k: int| 0 <= k < m1.len() implies 0 <= #[trigger] m1[k] < adj.len() by {
        if k < m.len() {
            assert(m1[k] == m[k]);
        }
    }
    assert forall|x: int| 0 <= x < adj.len() implies (#[trigger] c1[x] == 1 <==> m1.contains(x)) by {
        if m1.contains(x) && x != nd {
            let a = choose|a: int| 0 <= a < m1.len() && m1[a] == x;
            assert(m[a] == x);
        }
        if x != nd && m.contains(x) {
            let a = choose|a: int| 0 <= a < m.len() && m[a] == x;
            assert(m1[a] == x);
        }
        if x == nd {
            assert(m1[m.len() as int] == nd);
        }
    }
    assert forall|j: int| 0 <= j < s1.len() implies (#[trigger] s1[j]).0 < adj.len() by {
        if j < top {
            assert(s1[j] == st[j]);
        }
    }
    assert forall|j: int| 0 <= j < s1.len() && !(#[trigger] s1[j]).2 && s1[j].1 is Some implies {
        &&& markers(s1.take(j)).len() > 0
        &&& markers(s1.take(j)).last() == s1[j].1->0 as int
        &&& edge(adj, s1[j].1->0 as int, s1[j].0 as int)
    } by {
        assert(s1[j] == st[j]);
        assert(s1.take(j) =~= st.take(j));
    }
    assert forall|j: int| 0 <= j < s1.len() && !(#[trigger] s1[j]).2 && s1[j].1 is None implies j == 0 && s1.len() == 1 && c1[s1[j].0 as int] == 0 by {
        assert(s1[j] == st[j]);
    }
    assert(shape(adj, c1, s1));
    assert forall|x: int| #[trigger] rank.contains_key(x) implies 0 <= x < adj.len() && c1[x] != 0 && rank[x] < next by {
    }
    assert(ranked(adj, c1, rank, next));
    assert forall|i: int| 0 <= i < s1.len() - 1 && (#[trigger] s1[i]).2 implies pending(adj, s1, rank, i) by {
        assert(s1[i] == st[i]);
        assert(pending(adj, st, rank, i));
        assert forall|v: int| #[trigger] edge(adj, s1[i].0 as int, v) implies
            rank.contains_key(v) || exists|j: int| i < j < s1.len() && (#[trigger] s1[j]).0 as int == v by {
            assert(edge(adj, st[i].0 as int, v));
            if !rank.contains_key(v) {
                let j = choose|j: int| i < j < st.len() && (#[trigger] st[j]).0 as int == v;
                assert(s1[j].0 == st[j].0);
            }
        }
    }
    if c0[nd] == 2 {
        assert(rank.contains_key(nd));
        assert forall|v: int| #[trigger] edge(adj, nd, v) implies c0[v] == 2 && v != nd by {
            assert(rank.contains_key(v) && rank[v] < rank[nd]);
            assert(c0[v] != 0);
            if c0[v] == 1 {
                // v is grey: v reaches the top grey step, which leads to nd.
                assert(e.1 is Some);
                let p = e.1->0 as int;
                assert(m.contains(v));
                let a = choose|a: int| 0 <= a < m.len() && m[a] == v;
                let q = seq![nd] + m.subrange(a, m.len() as int) + seq![nd];
                assert forall|k: int| 0 <= k < q.len() - 1 implies #[trigger] edge(adj, q[k], q[k + 1]) by {
                    if k == 0 {
                        assert(q[0] == nd && q[1] == v);
                    } else if k < q.len() - 2 {
                        let j = a + k - 1;
                        assert(q[k] == m[j] && q[k + 1] == m[j + 1]);
                        assert(edge(adj, m[j], m[j + 1]));
                    } else {
                        assert(q[k] == m.last());
                        assert(q[k + 1] == nd);
                    }
                }
                lemma_ranked_walk(adj, rank, q);
                assert(rank[q[q.len() - 1]] < rank[q[0]]);
            }
        }
    }
}

/// Pushing a successor of the step on top of the grey walk.
proof fn lemma_push_child(adj: Seq<Seq<usize>>, color: Seq<u8>, st: Seq<Entry>, nd: usize, c: usize)
    requires
        shape(adj, color, st),
        markers(st).len() > 0,
        markers(st).last() == nd as int,
        edge(adj, nd as int, c as int),
        c < adj.len(),
    ensures
        shape(adj, color, st.push((c, Some(nd), false))),
        markers(st.push((c, Some(nd), false))) == markers(st),
        weight(st.push((c, Some(nd), false))) == weight(st) + 2,
{
    let e: Entry = (c, Some(nd), false);
    let s1 = st.push(e);
    lemma_push(st, e);
    assert(s1.take(st.len() as int) =~= st);
    assert forall|j: int| 0 <= j < s1.len() && !(#[trigger] s1[j]).2 && s1[j].1 is Some implies {
        &&& markers(s1.take(j)).len() > 0
        &&& markers(s1.take(j)).last() == s1[j].1->0 as int
        &&& edge(adj, s1[j].1->0 as int, s1[j].0 as int)
    } by {
        if j < st.len() {
            assert(s1[j] == st[j]);
            assert(s1.take(j) =~= st.take(j));
        }
    }
    assert forall|j: int| 0 <= j < s1.len() && !(#[trigger] s1[j]).2 && s1[j].1 is None implies j == 0 && s1.len() == 1 && color[s1[j].0 as int] == 0 by {
        assert(s1[j] == st[j]);
    }
    assert forall|j: int| 0 <= j < s1.len() implies (#[trigger] s1[j]).0 < adj.len() by {
        if j < st.len() {
            assert(s1[j] == st[j]);
        }
    }
}

/// With every step finished, no step reaches itself.
proof fn lemma_all_finished(adj: Seq<Seq<usize>>, color: Seq<u8>, rank: Map<int, int>, next: int)
    requires
        ranked(adj, color, rank, next),
        color.len() == adj.len(),
        forall|x: int| 0 <= x < adj.len() ==> color[x] == 2,
    ensures
        !has_cycle(adj),
{
    if has_cycle(adj) {
        let p = choose|p: Seq<int>| is_path(adj, p) && p.len() >= 2 && p[0] == p.last();
        assert(edge(adj, p[0int], p[0int + 1]));
        assert(color[p[0]] == 2);
        assert(rank.contains_key(p[0]));
        lemma_ranked_walk(adj, rank, p);
        assert(rank[p[p.len() - 1]] < rank[p[0]]);
    }
}

impl Graph {
    /// The synchronisation successors of each step.
    pub open spec fn adj(&self) -> Seq<Seq<usize>> {
        self.nodes@.map_values(|nd: crate::orchestrator::graph::Node| nd.depends_on@)
    }

    /// Returns `Ok` exactly when no step reaches itself through
    /// `depends_on` edges; otherwise names both ends of the first back
    /// edge the depth-first search meets.
    pub(crate) fn assert_acyclic(&self) -> (res: Result<(), GraphError>)
        requires
            edges_in_range(self.adj()),
        ensures
            res is Ok <==> !has_cycle(self.adj()),
            match dfs_back_edge(self.adj()) {
                None => res is Ok,
                Some((p, t)) => {
                    &&& p is Some
                    &&& is_back_edge(self.adj(), p->0 as int, t as int)
                    &&& res == Err::<(), GraphError>(GraphError::Cycle {
                        target: self.nodes@[t as int].step.key,
                        via: Some(self.nodes@[p->0 as int].step.key),
                    })
                },
            },
    {
        let ghost adj = self.adj();
        let n = self.nodes.len();
        let mut color: Vec<u8> = Vec::new();
        let mut z: usize = 0;
        while z < n
            invariant
                z <= n,
                color@.len() == z,
                forall|x: int| 0 <= x < z ==> color@[x] == 0,
            decreases n - z,
        {
            color.push(0);
            z = z + 1;
        }
        let ghost mut rank: Map<int, int> = Map::empty();
        let ghost mut next: int = 0;
        proof {
            assert(markers(Seq::<Entry>::empty()) =~= Seq::<int>::empty());
            assert(color@ =~= Seq::new(adj.len(), |i: int| 0u8));
        }
        let mut start: usize = 0;
        while start < n
            invariant
                n == self.nodes@.len(),
                adj == self.adj(),
                edges_in_range(adj),
                start <= n,
                dfs_inv(adj, color@, Seq::empty(), rank, next),
                forall|x: int| 0 <= x < start ==> color@[x] == 2,
                search_from(adj, color@, Seq::empty(), start as nat) == dfs_back_edge(adj),
            decreases n - start,
        {
            if color[start] == 0 {
                let mut stack: Vec<Entry> = Vec::new();
                stack.push((start, None, false));
                proof {
                    let e: Entry = (start, None, false);
                    lemma_push(Seq::empty(), e);
                    assert(stack@ =~= Seq::<Entry>::empty().push(e));
                    assert(stack@[0] == e);
                    assert(stack@ == seq![e]);
                    assert((start as nat) as usize == start);
                    assert(search_from(adj, color@, Seq::empty(), start as nat)
                        == search_from(adj, color@, stack@, start as nat + 1));
                }
                while stack.len() > 0
                    invariant
                        n == self.nodes@.len(),
                        adj == self.adj(),
                        edges_in_range(adj),
                        start < n,
                        dfs_inv(adj, color@, stack@, rank, next),
                        forall|x: int| 0 <= x < start ==> color@[x] != 0,
                        color@[start as int] != 0 || stack@ == seq![(start, None::<usize>, false)],
                        search_from(adj, color@, stack@, start as nat + 1) == dfs_back_edge(adj),
                    decreases whites(color@), weight(stack@),
                {
                    let ghost st = stack@;
                    let ghost c0 = color@;
                    let (nd, parent, exiting) = stack.pop().unwrap();
                    proof {
                        assert(stack@ == st.drop_last());
                        assert(st.last() == (nd, parent, exiting));
                        assert(st[st.len() - 1].0 < n);
                    }
                    if exiting {
                        proof { lemma_exit(adj, st, c0, rank, next); }
                        color.set(nd, 2);
                        proof {
                            if !rank.contains_key(nd as int) {
                                rank = rank.insert(nd as int, next);
                            }
                            next = next + 1;
                            assert(color@ == c0.update(nd as int, 2));
                            assert(advances(c0, st, color@, stack@));
                            assert(search_from(adj, c0, st, start as nat + 1)
                                == search_from(adj, color@, stack@, start as nat + 1));
                        }
                        continue;
                    }
                    if color[nd] == 1 {
                        proof {
                            lemma_grey(adj, st, c0, rank, next);
                            lemma_back_edge_cycle(adj, parent.unwrap() as int, nd as int);
                            assert(self.nodes@[nd as int].step.key == self.nodes@[nd as int].step.key);
                            assert(search_from(adj, c0, st, start as nat + 1) == Some((parent, nd)));
                        }
                        let target = self.nodes[nd].step.key.clone();
                        match parent {
                            Some(p) => {
                                let via = self.nodes[p].step.key.clone();
                                return Err(GraphError::Cycle { target, via: Some(via) });
                            },
                            None => {
                                return Err(GraphError::Cycle { target, via: None });
                            },
                        }
                    }
                    proof { lemma_enter(adj, st, c0, rank, next); }
                    color.set(nd, 1);
                    stack.push((nd, parent, true));
                    let ghost base = stack@;
                    proof {
                        assert(base =~= st.drop_last().push((nd, parent, true)));
                        assert(markers(base).last() == nd as int);
                    }
                    let deps = &self.nodes[nd].depends_on;
                    let mut k: usize = 0;
                    proof {
                        assert(adj[nd as int].take(0) =~= Seq::<usize>::empty());
                        assert(stack@ =~= base + child_entries(adj[nd as int].take(0), nd, color@));
                    }
                    while k < deps.len()
                        invariant
                            n == self.nodes@.len(),
                            adj == self.adj(),
                            edges_in_range(adj),
                            nd < n,
                            deps@ == adj[nd as int],
                            k <= deps.len(),
                            base.len() >= 1,
                            base.last() == (nd, parent, true),
                            stack@.len() >= base.len(),
                            stack@.subrange(0, base.len() as int) == base,
                            markers(stack@) == markers(base),
                            markers(base).last() == nd as int,
                            markers(base).len() > 0,
                            shape(adj, color@, stack@),
                            ranked(adj, color@, rank, next),
                            forall|i: int| 0 <= i < base.len() - 1 && (#[trigger] stack@[i]).2 ==> pending(adj, stack@, rank, i),
                            forall|t: int| 0 <= t < k ==> rank.contains_key(#[trigger] adj[nd as int][t] as int)
                                || exists|j: int| base.len() <= j < stack@.len() && (#[trigger] stack@[j]).0 == adj[nd as int][t],
                            forall|j: int| base.len() <= j < stack@.len() ==> !(#[trigger] stack@[j]).2,
                            weight(stack@) == weight(base) + 2 * (stack@.len() - base.len()),
                            c0[nd as int] == 2 ==> stack@.len() == base.len(),
                            c0[nd as int] == 2 ==> forall|v: int| #[trigger] edge(adj, nd as int, v) ==> c0[v] == 2 && v != nd,
                            c0.len() == n,
                            color@ == c0.update(nd as int, 1),
                            stack@ == base + child_entries(adj[nd as int].take(k as int), nd, color@),
                        decreases deps.len() - k,
                    {
                        let c = deps[k];
                        proof {
                            assert(adj[nd as int][k as int] == c);
                            assert(edge(adj, nd as int, c as int));
                        }
                        if color[c] != 2 {
                            let ghost sb = stack@;
                            proof {
                                lemma_push_child(adj, color@, sb, nd, c);
                                assert forall|i: int| 0 <= i < base.len() - 1 && (#[trigger] sb[i]).2 implies pending(adj, sb.push((c, Some(nd), false)), rank, i) by {
                                    lemma_pending_push(adj, sb, rank, i, (c, Some(nd), false));
                                }
                            }
                            stack.push((c, Some(nd), false));
                            proof {
                                assert(stack@ == sb.push((c, Some(nd), false)));
                                assert(adj[nd as int].take(k + 1).drop_last() =~= adj[nd as int].take(k as int));
                                assert(adj[nd as int].take(k + 1).last() == c);
                                assert(stack@ =~= base + child_entries(adj[nd as int].take(k + 1), nd, color@));
                                assert(stack@.subrange(0, base.len() as int) =~= sb.subrange(0, base.len() as int));
                                assert forall|i: int| 0 <= i < base.len() - 1 && (#[trigger] stack@[i]).2 implies pending(adj, stack@, rank, i) by {
                                    assert(stack@[i] == sb[i]);
                                }
                                assert(stack@[sb.len() as int].0 == c);
                                assert forall|t: int| 0 <= t < k + 1 implies rank.contains_key(#[trigger] adj[nd as int][t] as int)
                                    || exists|j: int| base.len() <= j < stack@.len() && (#[trigger] stack@[j]).0 == adj[nd as int][t] by {
                                    if t < k && !rank.contains_key(adj[nd as int][t] as int) {
                                        let j = choose|j: int| base.len() <= j < sb.len() && (#[trigger] sb[j]).0 == adj[nd as int][t];
                                        assert(stack@[j] == sb[j]);
                                    } else if t == k {
                                        assert(stack@[sb.len() as int].0 == adj[nd as int][t]);
                                    }
                                }
                                assert forall|j: int| base.len() <= j < stack@.len() implies !(#[trigger] stack@[j]).2 by {
                                    if j < sb.len() {
                                        assert(stack@[j] == sb[j]);
                                    }
                                }
                            }
                        } else {
                            proof {
                                assert(ranked(adj, color@, rank, next));
                                assert(rank.contains_key(c as int));
                                assert(adj[nd as int].take(k + 1).drop_last() =~= adj[nd as int].take(k as int));
                                assert(adj[nd as int].take(k + 1).last() == c);
                                assert(stack@ =~= base + child_entries(adj[nd as int].take(k + 1), nd, color@));
                            }
                        }
                        k = k + 1;
                    }
                    proof {
                        let s = stack@;
                        let top = base.len() - 1;
                        assert(s[top] == base[top]);
                        assert(pending(adj, s, rank, top)) by {
                            assert forall|v: int| #[trigger] edge(adj, s[top].0 as int, v) implies
                                rank.contains_key(v) || exists|j: int| top < j < s.len() && (#[trigger] s[j]).0 as int == v by {
                                let t = choose|t: int| 0 <= t < adj[nd as int].len() && adj[nd as int][t] as int == v;
                                if !rank.contains_key(adj[nd as int][t] as int) {
                                    let j = choose|j: int| base.len() <= j < s.len() && (#[trigger] s[j]).0 == adj[nd as int][t];
                                }
                            }
                        }
                        assert forall|i: int| 0 <= i < s.len() && (#[trigger] s[i]).2 implies pending(adj, s, rank, i) by {
                            if i < top {
                            } else if i > top {
                                assert(!s[i].2);
                            }
                        }
                        assert(dfs_inv(adj, color@, s, rank, next));
                        if c0[nd as int] == 2 {
                            assert(s =~= base);
                        }
                        assert(adj[nd as int].take(deps.len() as int) =~= adj[nd as int]);
                        assert(s == st.drop_last().push((nd, parent, true)) + child_entries(adj[nd as int], nd, color@));
                        assert(advances(c0, st, color@, s));
                        assert(search_from(adj, c0, st, start as nat + 1)
                            == search_from(adj, color@, s, start as nat + 1));
                    }
                }
                proof {
                    assert(stack@ =~= Seq::<Entry>::empty());
                    assert(search_from(adj, color@, Seq::empty(), start as nat + 1) == dfs_back_edge(adj));
                    assert(markers(stack@) =~= Seq::<int>::empty());
                    assert forall|x: int| 0 <= x <= start implies color@[x] == 2 by {
                        assert(color@[x] <= 2);
                        assert(!markers(stack@).contains(x));
                    }
                }
            } else {
                proof {
                    assert(search_from(adj, color@, Seq::empty(), start as nat)
                        == search_from(adj, color@, Seq::empty(), start as nat + 1));
                    assert(markers(Seq::<Entry>::empty()) =~= Seq::<int>::empty());
                    assert(color@[start as int] <= 2);
                    assert(!markers(Seq::<Entry>::empty()).contains(start as int));
                }
            }
            start = start + 1;
        }
        proof {
            lemma_all_finished(adj, color@, rank, next);
            assert(search_from(adj, color@, Seq::empty(), n as nat) == None::<(Option<usize>, usize)>);
        }
        Ok(())
    }
}

} // verus!
