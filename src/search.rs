//! Breadth-first search over an arena of vertices, as a state machine on a
//! queue of (vertex, path) entries and a marking of the vertices seen, with
//! what it finds: walks, and every reachable vertex.

use crate::ratio::Ratio;
use vstd::prelude::*;

verus! {

/// A directed edge to the vertex at index `to`, carrying a multiplicative weight.
#[derive(Clone, Copy, Debug, PartialEq, Eq, Structural)]
pub struct Edge {
    pub to: usize,
    pub weight: Ratio,
}

/// Well-formedness of a vertex arena: one edge list per key, distinct keys,
/// and every edge pointing at a vertex of the arena.
pub open spec fn arena_wf(keys: Seq<u64>, adj: Seq<Seq<Edge>>) -> bool {
    &&& keys.len() == adj.len()
    &&& forall|i: int, j: int| 0 <= i < j < keys.len() ==> keys[i] != keys[j]
    &&& forall|u: int, k: int|
        0 <= u < adj.len() && 0 <= k < adj[u].len() ==> (#[trigger] adj[u][k]).to < adj.len()
}

/// `p` is a walk from vertex `s` to vertex `t`: each edge leaves the vertex
/// that the previous one reached.
pub open spec fn walk(adj: Seq<Seq<Edge>>, s: int, p: Seq<Edge>, t: int) -> bool
    decreases p.len(),
{
    if p.len() == 0 {
        s == t
    } else {
        &&& 0 <= s < adj.len()
        &&& adj[s].contains(p[0])
        &&& walk(adj, p[0].to as int, p.drop_first(), t)
    }
}

/// Some walk leads from `s` to `t`.
pub open spec fn reachable(adj: Seq<Seq<Edge>>, s: int, t: int) -> bool {
    exists|p: Seq<Edge>| walk(adj, s, p, t)
}

/// Number of unmarked vertices.
pub open spec fn count_unmarked(v: Seq<bool>) -> nat
    decreases v.len(),
{
    if v.len() == 0 {
        0
    } else {
        count_unmarked(v.drop_last()) + if v.last() { 0nat } else { 1nat }
    }
}

/// One search step's expansion: the first `i` edges of `es`, taken in order,
/// each enqueue its target with the path `p` extended by it, unless that
/// target is already marked; an enqueued target is marked.
pub open spec fn expand(
    es: Seq<Edge>,
    i: int,
    p: Seq<Edge>,
    q: Seq<(usize, Seq<Edge>)>,
    vis: Seq<bool>,
) -> (Seq<(usize, Seq<Edge>)>, Seq<bool>)
    decreases i,
{
    if i <= 0 {
        (q, vis)
    } else {
        let r = expand(es, i - 1, p, q, vis);
        let e = es[i - 1];
        if (e.to as int) < r.1.len() && !r.1[e.to as int] {
            (r.0.push((e.to, p.push(e))), r.1.update(e.to as int, true))
        } else {
            r
        }
    }
}

/// Out-edges of vertex `u`, empty outside the arena.
pub open spec fn out_edges(adj: Seq<Seq<Edge>>, u: int) -> Seq<Edge> {
    if 0 <= u < adj.len() {
        adj[u]
    } else {
        seq![]
    }
}

/// Breadth-first search for vertex `t`, from the queue `q` read at `head` and
/// the marks `vis`: the path stored with the first dequeued entry for `t`.
pub open spec fn search(
    adj: Seq<Seq<Edge>>,
    q: Seq<(usize, Seq<Edge>)>,
    head: int,
    vis: Seq<bool>,
    t: int,
) -> Option<Seq<Edge>>
    decreases (count_unmarked(vis) + q.len() - head) as nat,
    via search_decreases
{
    if !(0 <= head < q.len()) {
        None
    } else if q[head].0 as int == t {
        Some(q[head].1)
    } else {
        let es = out_edges(adj, q[head].0 as int);
        let r = expand(es, es.len() as int, q[head].1, q, vis);
        search(adj, r.0, head + 1, r.1, t)
    }
}

proof fn lemma_count_mark(v: Seq<bool>, i: int)
    requires
        0 <= i < v.len(),
        !v[i],
    ensures
        count_unmarked(v.update(i, true)) + 1 == count_unmarked(v),
    decreases v.len(),
{
    let w = v.update(i, true);
    if i == v.len() - 1 {
        assert(w.drop_last() =~= v.drop_last());
    } else {
        lemma_count_mark(v.drop_last(), i);
        assert(w.drop_last() =~= v.drop_last().update(i, true));
    }
}

/// What one expansion does to the queue and the marks.
pub(crate) proof fn lemma_expand(
    es: Seq<Edge>,
    i: int,
    p: Seq<Edge>,
    q: Seq<(usize, Seq<Edge>)>,
    vis: Seq<bool>,
)
    requires
        i <= es.len(),
    ensures
        ({
            let r = expand(es, i, p, q, vis);
            &&& r.1.len() == vis.len()
            &&& q.len() <= r.0.len()
            &&& forall|j: int| 0 <= j < q.len() ==> r.0[j] == q[j]
            &&& count_unmarked(r.1) + r.0.len() == count_unmarked(vis) + q.len()
            &&& forall|v: int| 0 <= v < vis.len() && vis[v] ==> r.1[v]
            &&& forall|j: int|
                q.len() <= j < r.0.len() ==> {
                    &&& (r.0[j].0 as int) < vis.len()
                    &&& r.1[r.0[j].0 as int]
                    &&& !vis[r.0[j].0 as int]
                    &&& exists|k: int|
                        0 <= k < i && r.0[j] == (es[k].to, p.push(#[trigger] es[k]))
                }
            &&& forall|v: int|
                0 <= v < vis.len() && r.1[v] && !vis[v] ==> exists|j: int|
                    q.len() <= j < r.0.len() && r.0[j].0 as int == v
            &&& forall|k: int|
                0 <= k < i && (es[k].to as int) < vis.len() ==> r.1[#[trigger] es[k].to as int]
            &&& forall|j1: int, j2: int|
                q.len() <= j1 < j2 < r.0.len() ==> r.0[j1].0 != r.0[j2].0
        }),
    decreases i,
{
    if i > 0 {
        lemma_expand(es, i - 1, p, q, vis);
        let r0 = expand(es, i - 1, p, q, vis);
        let e = es[i - 1];
        if (e.to as int) < r0.1.len() && !r0.1[e.to as int] {
            lemma_count_mark(r0.1, e.to as int);
            let r = expand(es, i, p, q, vis);
            assert(r.0[r.0.len() - 1] == (es[i - 1].to, p.push(es[i - 1])));
            assert forall|v: int|
                0 <= v < vis.len() && r.1[v] && !vis[v] implies exists|j: int|
                    q.len() <= j < r.0.len() && r.0[j].0 as int == v by {
                if v == e.to as int {
                    assert(r.0[r.0.len() - 1].0 as int == v);
                } else {
                    assert(r0.1[v]);
                    let j = choose|j: int| q.len() <= j < r0.0.len() && r0.0[j].0 as int == v;
                    assert(r.0[j] == r0.0[j]);
                }
            }
            assert forall|j: int|
                q.len() <= j < r.0.len() implies {
                    &&& (r.0[j].0 as int) < vis.len()
                    &&& r.1[r.0[j].0 as int]
                    &&& !vis[r.0[j].0 as int]
                    &&& exists|k: int|
                        0 <= k < i && r.0[j] == (es[k].to, p.push(#[trigger] es[k]))
                } by {
                if j < r0.0.len() {
                    assert(r.0[j] == r0.0[j]);
                    let k = choose|k: int|
                        0 <= k < i - 1 && r0.0[j] == (es[k].to, p.push(#[trigger] es[k]));
                    assert(0 <= k < i && r.0[j] == (es[k].to, p.push(es[k])));
                } else {
                    assert(r.0[j] == (es[i - 1].to, p.push(es[i - 1])));
                }
            }
            assert forall|j1: int, j2: int|
                q.len() <= j1 < j2 < r.0.len() implies r.0[j1].0 != r.0[j2].0 by {
                if j2 == r.0.len() - 1 {
                    assert(r0.1[r0.0[j1].0 as int]);
                }
            }
        }
    }
}

/// Extending a walk by an edge that leaves its end.
pub proof fn lemma_walk_push(adj: Seq<Seq<Edge>>, s: int, p: Seq<Edge>, u: int, e: Edge)
    requires
        walk(adj, s, p, u),
        0 <= u < adj.len(),
        adj[u].contains(e),
    ensures
        walk(adj, s, p.push(e), e.to as int),
    decreases p.len(),
{
    if p.len() == 0 {
        assert(p.push(e).drop_first() =~= seq![]);
        assert(p.push(e)[0] == e);
        assert(walk(adj, e.to as int, seq![], e.to as int));
    } else {
        lemma_walk_push(adj, p[0].to as int, p.drop_first(), u, e);
        assert(p.push(e).drop_first() =~= p.drop_first().push(e));
        assert(p.push(e)[0] == p[0]);
    }
}

/// Joining a walk from `s` to `u` with one from `u` to `t`.
pub proof fn lemma_walk_concat(adj: Seq<Seq<Edge>>, s: int, p: Seq<Edge>, u: int, q: Seq<Edge>, t: int)
    requires
        walk(adj, s, p, u),
        walk(adj, u, q, t),
    ensures
        walk(adj, s, p + q, t),
    decreases p.len(),
{
    if p.len() == 0 {
        assert(p + q =~= q);
    } else {
        lemma_walk_concat(adj, p[0].to as int, p.drop_first(), u, q, t);
        assert((p + q).drop_first() =~= p.drop_first() + q);
    }
}

/// A marking closed under edges holds every vertex that a walk from a marked
/// vertex reaches.
proof fn lemma_closed_walk(adj: Seq<Seq<Edge>>, vis: Seq<bool>, x: int, p: Seq<Edge>, y: int)
    requires
        vis.len() == adj.len(),
        0 <= x < vis.len(),
        vis[x],
        forall|v: int, k: int|
            0 <= v < adj.len() && vis[v] && 0 <= k < adj[v].len() ==> (#[trigger] adj[v][k]).to
                < adj.len() && vis[adj[v][k].to as int],
        walk(adj, x, p, y),
    ensures
        0 <= y < vis.len() && vis[y],
    decreases p.len(),
{
    if p.len() > 0 {
        let k = choose|k: int| 0 <= k < adj[x].len() && adj[x][k] == p[0];
        assert(adj[x][k] == p[0]);
        lemma_closed_walk(adj, vis, p[0].to as int, p.drop_first(), y);
    }
}

/// Every queued path is a walk from `s` to the vertex queued with it.
pub open spec fn queue_sound(adj: Seq<Seq<Edge>>, q: Seq<(usize, Seq<Edge>)>, s: int) -> bool {
    forall|j: int| 0 <= j < q.len() ==> walk(adj, s, #[trigger] q[j].1, q[j].0 as int)
}

proof fn lemma_search_sound(
    adj: Seq<Seq<Edge>>,
    q: Seq<(usize, Seq<Edge>)>,
    head: int,
    vis: Seq<bool>,
    t: int,
    s: int,
)
    requires
        queue_sound(adj, q, s),
    ensures
        search(adj, q, head, vis, t) matches Some(p) ==> walk(adj, s, p, t),
    decreases (count_unmarked(vis) + q.len() - head) as nat,
{
    if 0 <= head < q.len() && q[head].0 as int != t {
        let u = q[head].0 as int;
        let es = out_edges(adj, u);
        let r = expand(es, es.len() as int, q[head].1, q, vis);
        lemma_expand(es, es.len() as int, q[head].1, q, vis);
        assert forall|j: int| 0 <= j < r.0.len() implies walk(adj, s, #[trigger] r.0[j].1, r.0[j].0 as int) by {
            if j < q.len() {
                assert(r.0[j] == q[j]);
            } else {
                let k = choose|k: int|
                    0 <= k < es.len() && r.0[j] == (es[k].to, q[head].1.push(#[trigger] es[k]));
                assert(0 <= u < adj.len());
                assert(adj[u].contains(es[k]));
                assert(walk(adj, s, q[head].1, u));
                lemma_walk_push(adj, s, q[head].1, u, es[k]);
            }
        }
        lemma_search_sound(adj, r.0, head + 1, r.1, t, s);
    }
}

/// The state that a breadth-first search keeps between steps: `s` is marked;
/// the marked vertices are those ever queued; the out-edges of every dequeued
/// vertex lead to marked ones; and `t` was not dequeued.
pub open spec fn search_inv(
    adj: Seq<Seq<Edge>>,
    q: Seq<(usize, Seq<Edge>)>,
    head: int,
    vis: Seq<bool>,
    s: int,
    t: int,
) -> bool {
    &&& vis.len() == adj.len()
    &&& 0 <= s < adj.len()
    &&& vis[s]
    &&& 0 <= head <= q.len()
    &&& forall|v: int| 0 <= v < vis.len() && vis[v] ==> exists|j: int| 0 <= j < q.len() && q[j].0 as int == v
    &&& forall|j: int| 0 <= j < q.len() ==> (#[trigger] q[j].0 as int) < vis.len() && vis[q[j].0 as int]
    &&& forall|j: int, k: int|
        0 <= j < head && 0 <= k < adj[q[j].0 as int].len() ==> vis[(#[trigger] adj[q[j].0 as int][k]).to as int]
    &&& forall|j: int| 0 <= j < head ==> #[trigger] q[j].0 as int != t
}

proof fn lemma_search_complete(
    adj: Seq<Seq<Edge>>,
    keys: Seq<u64>,
    q: Seq<(usize, Seq<Edge>)>,
    head: int,
    vis: Seq<bool>,
    s: int,
    t: int,
)
    requires
        arena_wf(keys, adj),
        search_inv(adj, q, head, vis, s, t),
        0 <= t < adj.len(),
    ensures
        search(adj, q, head, vis, t) is None ==> !reachable(adj, s, t),
    decreases (count_unmarked(vis) + q.len() - head) as nat,
{
    if head == q.len() {
        assert forall|v: int, k: int|
            0 <= v < adj.len() && vis[v] && 0 <= k < adj[v].len() implies (#[trigger] adj[v][k]).to
                < adj.len() && vis[adj[v][k].to as int] by {
            let j = choose|j: int| 0 <= j < q.len() && q[j].0 as int == v;
            assert(vis[(adj[q[j].0 as int][k]).to as int]);
        }
        if reachable(adj, s, t) {
            let p = choose|p: Seq<Edge>| walk(adj, s, p, t);
            lemma_closed_walk(adj, vis, s, p, t);
            let j = choose|j: int| 0 <= j < q.len() && q[j].0 as int == t;
            assert(q[j].0 as int != t);
        }
    } else if q[head].0 as int != t {
        let u = q[head].0 as int;
        let es = out_edges(adj, u);
        let r = expand(es, es.len() as int, q[head].1, q, vis);
        lemma_expand(es, es.len() as int, q[head].1, q, vis);
        assert(0 <= u < adj.len());
        assert forall|v: int| 0 <= v < r.1.len() && r.1[v] implies exists|j: int|
            0 <= j < r.0.len() && r.0[j].0 as int == v by {
            if vis[v] {
                let j = choose|j: int| 0 <= j < q.len() && q[j].0 as int == v;
                assert(r.0[j] == q[j]);
            }
        }
        assert forall|j: int| 0 <= j < r.0.len() implies (#[trigger] r.0[j].0 as int) < r.1.len()
            && r.1[r.0[j].0 as int] by {
            if j < q.len() {
                assert(r.0[j] == q[j]);
            }
        }
        assert forall|j: int, k: int|
            0 <= j < head + 1 && 0 <= k < adj[r.0[j].0 as int].len() implies r.1[(#[trigger] adj[r.0[j].0 as int][k]).to as int] by {
            assert(r.0[j] == q[j]);
            if j < head {
                assert(vis[(adj[q[j].0 as int][k]).to as int]);
            } else {
                assert(es[k] == adj[u][k]);
                assert(adj[u][k].to < adj.len());
            }
        }
        assert forall|j: int| 0 <= j < head + 1 implies #[trigger] r.0[j].0 as int != t by {
            assert(r.0[j] == q[j]);
        }
        lemma_search_complete(adj, keys, r.0, head + 1, r.1, s, t);
    }
}

#[via_fn]
proof fn search_decreases(
    adj: Seq<Seq<Edge>>,
    q: Seq<(usize, Seq<Edge>)>,
    head: int,
    vis: Seq<bool>,
    t: int,
) {
    if 0 <= head < q.len() && q[head].0 as int != t {
        let es = out_edges(adj, q[head].0 as int);
        lemma_expand(es, es.len() as int, q[head].1, q, vis);
    }
}

/// The search from vertex `s` for vertex `t`, started with `s` alone marked
/// and enqueued with the empty path.
pub open spec fn search_from(adj: Seq<Seq<Edge>>, s: int, t: int) -> Option<Seq<Edge>> {
    search(adj, start_queue(s), 0, start_marks(adj.len(), s), t)
}

/// The queue a search from `s` starts with: `s` and the empty path.
pub open spec fn start_queue(s: int) -> Seq<(usize, Seq<Edge>)> {
    seq![(s as usize, Seq::<Edge>::empty())]
}

/// The marks a search from `s` over `n` vertices starts with: `s` alone.
pub open spec fn start_marks(n: nat, s: int) -> Seq<bool> {
    Seq::new(n, |i: int| i == s)
}

/// What the search from `s` for `t` gives: a walk when it finds a path, and a
/// path exactly when `t` is reachable.
pub(crate) proof fn lemma_search_from(keys: Seq<u64>, adj: Seq<Seq<Edge>>, s: int, t: int)
    requires
        arena_wf(keys, adj),
        adj.len() <= usize::MAX,
        0 <= s < adj.len(),
        0 <= t < adj.len(),
    ensures
        search_from(adj, s, t) matches Some(p) ==> walk(adj, s, p, t),
        search_from(adj, s, t) is None <==> !reachable(adj, s, t),
        s == t ==> search_from(adj, s, t) == Some(Seq::<Edge>::empty()),
{
    let q = start_queue(s);
    let vis = start_marks(adj.len(), s);
    assert(search_from(adj, s, t) == search(adj, q, 0, vis, t));
    assert(walk(adj, s, q[0].1, q[0].0 as int));
    assert(queue_sound(adj, q, s));
    lemma_search_sound(adj, q, 0, vis, t, s);
    assert(search_inv(adj, q, 0, vis, s, t)) by {
        assert forall|v: int| 0 <= v < vis.len() && vis[v] implies exists|j: int|
            0 <= j < q.len() && q[j].0 as int == v by {
            assert(q[0].0 as int == v);
        }
    }
    lemma_search_complete(adj, keys, q, 0, vis, s, t);
    if let Some(p) = search_from(adj, s, t) {
        assert(walk(adj, s, p, t));
    }
}

/// In an expansion, the first of the edges to an unmarked vertex `t` is the
/// one that enqueues it.
pub(crate) proof fn lemma_expand_first(
    es: Seq<Edge>,
    i: int,
    p: Seq<Edge>,
    q: Seq<(usize, Seq<Edge>)>,
    vis: Seq<bool>,
    k0: int,
)
    requires
        0 <= k0 < i <= es.len(),
        (es[k0].to as int) < vis.len(),
        !vis[es[k0].to as int],
        forall|k: int| 0 <= k < k0 ==> (#[trigger] es[k]).to != es[k0].to,
    ensures
        exists|j: int|
            q.len() <= j < expand(es, i, p, q, vis).0.len() && expand(es, i, p, q, vis).0[j] == (
                es[k0].to,
                p.push(es[k0]),
            ),
    decreases i,
{
    let r = expand(es, i, p, q, vis);
    let r0 = expand(es, i - 1, p, q, vis);
    lemma_expand(es, i - 1, p, q, vis);
    if i - 1 == k0 {
        let t = es[k0].to as int;
        if r0.1[t] {
            let j = choose|j: int| q.len() <= j < r0.0.len() && r0.0[j].0 as int == t;
            let k = choose|k: int| 0 <= k < i - 1 && r0.0[j] == (es[k].to, p.push(#[trigger] es[k]));
            assert(es[k].to == es[k0].to);
        }
        assert(r.0[r.0.len() - 1] == (es[k0].to, p.push(es[k0])));
    } else {
        lemma_expand_first(es, i - 1, p, q, vis, k0);
        let j = choose|j: int| q.len() <= j < r0.0.len() && r0.0[j] == (es[k0].to, p.push(es[k0]));
        lemma_expand(es, i, p, q, vis);
        assert(r.0[j] == r0.0[j]);
    }
}

/// A search whose queue holds a marked `t` at `j`, with no earlier entry for
/// `t` from `head` on, returns the path stored at `j`.
pub(crate) proof fn lemma_search_finds(
    adj: Seq<Seq<Edge>>,
    q: Seq<(usize, Seq<Edge>)>,
    head: int,
    vis: Seq<bool>,
    t: int,
    j: int,
)
    requires
        0 <= head <= j < q.len(),
        q[j].0 as int == t,
        forall|x: int| head <= x < j ==> (#[trigger] q[x]).0 as int != t,
        0 <= t < vis.len(),
        vis[t],
    ensures
        search(adj, q, head, vis, t) == Some(q[j].1),
    decreases (count_unmarked(vis) + q.len() - head) as nat,
{
    if head < j {
        let es = out_edges(adj, q[head].0 as int);
        let r = expand(es, es.len() as int, q[head].1, q, vis);
        lemma_expand(es, es.len() as int, q[head].1, q, vis);
        assert(r.0[j] == q[j]);
        assert forall|x: int| head + 1 <= x < j implies (#[trigger] r.0[x]).0 as int != t by {
            assert(r.0[x] == q[x]);
        }
        lemma_search_finds(adj, r.0, head + 1, r.1, t, j);
    }
}

/// Every edge of the arena has one back to where it starts.
pub open spec fn arena_symmetric(adj: Seq<Seq<Edge>>) -> bool {
    forall|u: int, k: int|
        0 <= u < adj.len() && 0 <= k < adj[u].len() ==> has_edge(adj, (#[trigger] adj[u][k]).to as int, u)
}

/// Some edge of vertex `v` leads to `u`.
pub open spec fn has_edge(adj: Seq<Seq<Edge>>, v: int, u: int) -> bool {
    exists|k2: int| 0 <= k2 < adj[v].len() && (#[trigger] adj[v][k2]).to == u
}

pub(crate) proof fn lemma_walk_reverse(keys: Seq<u64>, adj: Seq<Seq<Edge>>, s: int, p: Seq<Edge>, t: int)
    requires
        arena_wf(keys, adj),
        arena_symmetric(adj),
        walk(adj, s, p, t),
    ensures
        reachable(adj, t, s),
    decreases p.len(),
{
    if p.len() == 0 {
        assert(walk(adj, t, Seq::<Edge>::empty(), s));
    } else {
        let v = p[0].to as int;
        lemma_walk_reverse(keys, adj, v, p.drop_first(), t);
        let q = choose|q: Seq<Edge>| walk(adj, t, q, v);
        let k = choose|k: int| 0 <= k < adj[s].len() && adj[s][k] == p[0];
        assert(adj[s][k].to < adj.len());
        assert(adj[s][k].to as int == v);
        assert(has_edge(adj, v, s));
        let k2 = choose|k2: int| 0 <= k2 < adj[v].len() && adj[v][k2].to == s;
        assert(adj[v].contains(adj[v][k2]));
        lemma_walk_push(adj, t, q, v, adj[v][k2]);
    }
}

} // verus!
