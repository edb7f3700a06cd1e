//! The conversion graph: vertices keyed by `u64`, built from connections,
//! searched breadth-first, and the fold of a value along the path found.

use crate::ratio::Ratio;
use crate::search::{
    Edge,
    arena_symmetric,
    arena_wf,
    count_unmarked,
    expand,
    has_edge,
    lemma_expand,
    lemma_expand_first,
    lemma_search_finds,
    lemma_search_from,
    lemma_walk_concat,
    lemma_walk_reverse,
    out_edges,
    reachable,
    search,
    search_from,
    start_marks,
    start_queue,
    walk,
};
use vstd::prelude::*;

verus! {

/// A known conversion between two vertex keys: one `from` is `value` of `to`.
#[derive(Clone, Copy, Debug, PartialEq, Eq, Structural)]
pub struct Connection {
    pub from: u64,
    pub to: u64,
    pub value: Ratio,
}

/// The outcome of folding a value along a path between two keys.
#[derive(Clone, Copy, Debug, PartialEq, Eq, Structural)]
pub enum Folded {
    /// A path exists; the folded value.
    Value(Ratio),
    /// One of the keys is absent, or no path joins them.
    NoPath,
    /// A path exists, but a product along it leaves the range of `i128`.
    Overflow,
}

/// The reciprocal of a rate, as the reverse edge of a fact carries it.
pub open spec fn inv(r: Ratio) -> Ratio {
    Ratio { num: r.den, den: r.num }
}

/// The edges, as (target key, weight), that the facts `conns` give to key `k`:
/// for each fact in order, the forward edge if `k` is its source, then the
/// reverse edge if `k` is its target.
pub open spec fn edges_of(conns: Seq<Connection>, k: u64) -> Seq<(u64, Ratio)>
    decreases conns.len(),
{
    if conns.len() == 0 {
        seq![]
    } else {
        let c = conns.last();
        let fwd: Seq<(u64, Ratio)> = if c.from == k { seq![(c.to, c.value)] } else { seq![] };
        let bwd: Seq<(u64, Ratio)> = if c.to == k { seq![(c.from, inv(c.value))] } else { seq![] };
        edges_of(conns.drop_last(), k) + fwd + bwd
    }
}

/// Whether key `k` occurs in some fact of `conns`.
pub open spec fn mentioned(conns: Seq<Connection>, k: u64) -> bool {
    exists|i: int| 0 <= i < conns.len() && ((#[trigger] conns[i]).from == k || conns[i].to == k)
}

/// Edges with their targets written as keys.
pub open spec fn keyed(keys: Seq<u64>, es: Seq<Edge>) -> Seq<(u64, Ratio)> {
    es.map_values(|e: Edge| (keys[e.to as int], e.weight))
}

/// The index of key `k` among `keys`, if it is there.
pub open spec fn index_of(keys: Seq<u64>, k: u64) -> Option<int> {
    if keys.contains(k) {
        Some(choose|i: int| 0 <= i < keys.len() && keys[i] == k)
    } else {
        None
    }
}

/// `seed` multiplied by the first `i` weights of `p`, numerators and
/// denominators apart, over unbounded integers.
pub open spec fn fold_upto(seed: (int, int), p: Seq<Edge>, i: int) -> (int, int)
    decreases i,
{
    if i <= 0 {
        seed
    } else {
        let a = fold_upto(seed, p, i - 1);
        (a.0 * p[i - 1].weight.num, a.1 * p[i - 1].weight.den)
    }
}

/// `seed` multiplied by every weight of `p`.
pub open spec fn fold_all(seed: (int, int), p: Seq<Edge>) -> (int, int) {
    fold_upto(seed, p, p.len() as int)
}

pub open spec fn in_i128(x: int) -> bool {
    i128::MIN <= x <= i128::MAX
}

/// Every partial product of the fold stays within `i128`.
pub open spec fn fold_fits(seed: (int, int), p: Seq<Edge>) -> bool {
    forall|i: int|
        0 <= i <= p.len() ==> in_i128(#[trigger] fold_upto(seed, p, i).0) && in_i128(
            fold_upto(seed, p, i).1,
        )
}

/// The outcome of folding `v` along a found path, or the lack of one.
pub open spec fn fold_outcome(found: Option<Seq<Edge>>, v: Ratio) -> Folded {
    match found {
        None => Folded::NoPath,
        Some(p) => if fold_fits(v.pair(), p) {
            Folded::Value(
                Ratio {
                    num: fold_all(v.pair(), p).0 as i128,
                    den: fold_all(v.pair(), p).1 as i128,
                },
            )
        } else {
            Folded::Overflow
        },
    }
}

/// The queued paths seen as sequences.
pub open spec fn queue_view(q: Seq<(usize, Vec<Edge>)>) -> Seq<(usize, Seq<Edge>)> {
    q.map_values(|x: (usize, Vec<Edge>)| (x.0, x.1@))
}

/// With distinct keys, the position of a key is the one where it stands.
proof fn lemma_index_of(keys: Seq<u64>, i: int)
    requires
        0 <= i < keys.len(),
        forall|a: int, b: int| 0 <= a < b < keys.len() ==> keys[a] != keys[b],
    ensures
        index_of(keys, keys[i]) == Some(i),
{
    assert(keys.contains(keys[i]));
    let j = choose|j: int| 0 <= j < keys.len() && keys[j] == keys[i];
    assert(j == i);
}

/// The position of `k` in `keys`, by a scan from the front.
fn find_key(keys: &Vec<u64>, k: u64) -> (r: Option<usize>)
    ensures
        r matches Some(i) ==> i < keys.len() && keys@[i as int] == k,
        r is None ==> !keys@.contains(k),
{
    let mut i: usize = 0;
    while i < keys.len()
        invariant
            i <= keys.len(),
            forall|j: int| 0 <= j < i ==> keys@[j] != k,
        decreases keys.len() - i,
    {
        if keys[i] == k {
            return Some(i);
        }
        i += 1;
    }
    None
}

/// A copy of `p`, with `e` appended when one is given.
fn copy_path(p: &Vec<Edge>, extra: Option<Edge>) -> (r: Vec<Edge>)
    ensures
        r@ == match extra {
            Some(e) => p@.push(e),
            None => p@,
        },
{
    let mut r: Vec<Edge> = Vec::new();
    let mut i: usize = 0;
    while i < p.len()
        invariant
            i <= p.len(),
            r@ == p@.subrange(0, i as int),
        decreases p.len() - i,
    {
        r.push(p[i]);
        i += 1;
    }
    assert(r@ =~= p@);
    if let Some(e) = extra {
        r.push(e);
    }
    r
}

/// A graph over `u64` keys: every vertex holds its out-edges, and every fact
/// it was built from gives an edge each way.
pub struct Graph {
    keys: Vec<u64>,
    adj: Vec<Vec<Edge>>,
}

impl Graph {
    /// The keys of the vertices, by vertex index.
    pub closed spec fn key_seq(&self) -> Seq<u64> {
        self.keys@
    }

    /// The out-edges of each vertex, by vertex index.
    pub closed spec fn adj_seq(&self) -> Seq<Seq<Edge>> {
        self.adj@.map_values(|v: Vec<Edge>| v@)
    }

    pub open spec fn wf(&self) -> bool {
        &&& arena_wf(self.key_seq(), self.adj_seq())
        &&& self.adj_seq().len() <= usize::MAX
    }

    /// The graph holds exactly the keys of `conns`, and each vertex exactly
    /// the edges that `conns` give its key, in order.
    pub open spec fn built_from(&self, conns: Seq<Connection>) -> bool {
        &&& self.wf()
        &&& forall|k: u64| self.key_seq().contains(k) <==> mentioned(conns, k)
        &&& forall|u: int|
            0 <= u < self.adj_seq().len() ==> keyed(self.key_seq(), #[trigger] self.adj_seq()[u])
                == edges_of(conns, self.key_seq()[u])
    }

    /// The path that the search from `from` finds to `to`.
    pub open spec fn path_spec(&self, from: u64, to: u64) -> Option<Seq<Edge>> {
        match (index_of(self.key_seq(), from), index_of(self.key_seq(), to)) {
            (Some(s), Some(t)) => search_from(self.adj_seq(), s, t),
            _ => None,
        }
    }

    /// `p` is a walk from the vertex of `from` to the vertex of `to`.
    pub open spec fn joins(&self, from: u64, to: u64, p: Seq<Edge>) -> bool {
        match (index_of(self.key_seq(), from), index_of(self.key_seq(), to)) {
            (Some(s), Some(t)) => walk(self.adj_seq(), s, p, t),
            _ => false,
        }
    }

    /// Both keys are in the graph and a walk joins them.
    pub open spec fn connected(&self, from: u64, to: u64) -> bool {
        exists|p: Seq<Edge>| self.joins(from, to, p)
    }
}

impl Connection {
    pub fn new(from: u64, to: u64, value: Ratio) -> (r: Connection)
        ensures
            r == (Connection { from, to, value }),
    {
        Connection { from, to, value }
    }
}

impl Graph {
    /// Builds the graph of `connections`: one vertex per distinct key, and for
    /// each connection an edge from `from` to `to` weighted `value`, and one
    /// back weighted the reciprocal of `value`.
    pub fn new(connections: Vec<Connection>) -> (g: Graph)
        ensures
            g.built_from(connections@),
    {
        let ghost conns = connections@;
        let mut keys: Vec<u64> = Vec::new();
        let mut i: usize = 0;
        while i < connections.len()
            invariant
                i <= conns.len(),
                conns == connections@,
                forall|a: int, b: int| 0 <= a < b < keys@.len() ==> keys@[a] != keys@[b],
                forall|k: u64|
                    keys@.contains(k) <==> exists|j: int|
                        0 <= j < i && ((#[trigger] conns[j]).from == k || conns[j].to == k),
            decreases conns.len() - i,
        {
            let c = connections[i];
            let ghost before = keys@;
            let ff = find_key(&keys, c.from);
            if ff.is_none() {
                keys.push(c.from);
            }
            let ghost middle = keys@;
            let ft = find_key(&keys, c.to);
            if ft.is_none() {
                keys.push(c.to);
            }
            proof {
                if let Some(x) = ff {
                    assert(middle[x as int] == c.from);
                } else {
                    assert(middle[middle.len() - 1] == c.from);
                }
                if let Some(x) = ft {
                    assert(keys@[x as int] == c.to);
                } else {
                    assert(keys@[keys@.len() - 1] == c.to);
                }
                assert(forall|x: int| 0 <= x < middle.len() ==> keys@[x] == middle[x]);
            }
            proof {
                assert forall|k: u64| keys@.contains(k) <==> exists|j: int|
                    0 <= j < i + 1 && ((#[trigger] conns[j]).from == k || conns[j].to == k) by {
                    if keys@.contains(k) {
                        let x = choose|x: int| 0 <= x < keys@.len() && keys@[x] == k;
                        if x < before.len() {
                            assert(before.contains(k));
                        } else if k != c.from {
                            assert(k == c.to);
                            assert(conns[i as int] == c);
                        } else {
                            assert(conns[i as int] == c);
                        }
                    }
                    if exists|j: int| 0 <= j < i + 1 && ((#[trigger] conns[j]).from == k || conns[j].to == k) {
                        let j = choose|j: int| 0 <= j < i + 1 && ((#[trigger] conns[j]).from == k || conns[j].to == k);
                        if j < i {
                            assert(before.contains(k));
                            let x = choose|x: int| 0 <= x < before.len() && before[x] == k;
                            assert(keys@[x] == k);
                        } else if k == c.from {
                            let x = choose|x: int| 0 <= x < middle.len() && middle[x] == k;
                            assert(keys@[x] == k);
                        } else {
                            assert(conns[j] == c);
                            assert(k == c.to);
                        }
                    }
                }
            }
            i += 1;
        }
        let n = keys.len();
        let mut adj: Vec<Vec<Edge>> = Vec::new();
        while adj.len() < n
            invariant
                adj@.len() <= n,
                forall|u: int| 0 <= u < adj@.len() ==> (#[trigger] adj@[u])@ == Seq::<Edge>::empty(),
            decreases n - adj@.len(),
        {
            adj.push(Vec::new());
        }
        let mut i: usize = 0;
        while i < connections.len()
            invariant
                i <= conns.len(),
                conns == connections@,
                n == keys@.len(),
                adj@.len() == n,
                forall|a: int, b: int| 0 <= a < b < keys@.len() ==> keys@[a] != keys@[b],
                forall|k: u64|
                    keys@.contains(k) <==> exists|j: int|
                        0 <= j < conns.len() && ((#[trigger] conns[j]).from == k || conns[j].to == k),
                forall|u: int|
                    0 <= u < n ==> keyed(keys@, (#[trigger] adj@[u])@) == edges_of(
                        conns.subrange(0, i as int),
                        keys@[u],
                    ),
                forall|u: int, k: int|
                    0 <= u < n && 0 <= k < adj@[u]@.len() ==> (#[trigger] adj@[u]@[k]).to < n,
            decreases conns.len() - i,
        {
            let c = connections[i];
            assert(keys@.contains(c.from) && keys@.contains(c.to)) by {
                assert(conns[i as int] == c);
            }
            let f = find_key(&keys, c.from).unwrap();
            let t = find_key(&keys, c.to).unwrap();
            let ghost old_adj = adj@;
            adj[f].push(Edge { to: t, weight: c.value });
            adj[t].push(Edge { to: f, weight: c.value.inverse() });
            proof {
                let pre = conns.subrange(0, i as int);
                let cur = conns.subrange(0, i as int + 1);
                assert(cur.drop_last() =~= pre);
                assert(cur.last() == c);
                let fe = Edge { to: t, weight: c.value };
                let be = Edge { to: f, weight: inv(c.value) };
                assert forall|u: int|
                    0 <= u < n implies keyed(keys@, (#[trigger] adj@[u])@) == edges_of(
                        cur,
                        keys@[u],
                    ) by {
                    let fwd: Seq<(u64, Ratio)> = if c.from == keys@[u] { seq![(c.to, c.value)] } else { seq![] };
                    let bwd: Seq<(u64, Ratio)> = if c.to == keys@[u] { seq![(c.from, inv(c.value))] } else { seq![] };
                    assert(edges_of(cur, keys@[u]) == edges_of(pre, keys@[u]) + fwd + bwd);
                    let row: Seq<Edge> =
                        old_adj[u]@ + (if u == f { seq![fe] } else { seq![] }) + (if u == t { seq![be] } else { seq![] });
                    assert(adj@[u]@ =~= row);
                    assert(keyed(keys@, row) =~= keyed(keys@, old_adj[u]@) + fwd + bwd);
                }
                assert forall|u: int, k: int|
                    0 <= u < n && 0 <= k < adj@[u]@.len() implies (#[trigger] adj@[u]@[k]).to < n by {
                    if k < old_adj[u]@.len() {
                        assert(adj@[u]@[k] == old_adj[u]@[k]);
                    }
                }
            }
            i += 1;
        }
        assert(conns.subrange(0, conns.len() as int) =~= conns);
        let g = Graph { keys, adj };
        assert(g.adj_seq().len() == n);
        assert forall|u: int| 0 <= u < n implies #[trigger] g.adj_seq()[u] == g.adj@[u]@ by {}
        g
    }
}

impl Graph {
    /// Breadth-first search from `from` for `to`: the edges of the first path
    /// that reaches `to`, or `None` when a key is absent or no path exists.
    fn find_path(&self, from: u64, to: u64) -> (r: Option<Vec<Edge>>)
        requires
            self.wf(),
        ensures
            match r {
                Some(p) => self.path_spec(from, to) == Some(p@),
                None => self.path_spec(from, to) is None,
            },
    {
        let s = match find_key(&self.keys, from) {
            Some(s) => s,
            None => return None,
        };
        let t = match find_key(&self.keys, to) {
            Some(t) => t,
            None => return None,
        };
        let ghost adj = self.adj_seq();
        proof {
            lemma_index_of(self.keys@, s as int);
            lemma_index_of(self.keys@, t as int);
            assert(self.path_spec(from, to) == search_from(adj, s as int, t as int));
        }
        let n = self.keys.len();
        let mut visited: Vec<bool> = Vec::new();
        let mut i: usize = 0;
        while i < n
            invariant
                i <= n,
                visited@ =~= Seq::new(i as nat, |j: int| j == s as int),
            decreases n - i,
        {
            visited.push(i == s);
            i += 1;
        }
        let mut queue: Vec<(usize, Vec<Edge>)> = Vec::new();
        queue.push((s, Vec::new()));
        let mut head: usize = 0;
        assert(queue_view(queue@) =~= start_queue(s as int));
        assert(visited@ =~= start_marks(adj.len(), s as int));
        while head < queue.len()
            invariant
                self.wf(),
                adj == self.adj_seq(),
                adj.len() == n,
                n == self.adj@.len(),
                visited@.len() == n,
                head <= queue@.len(),
                s < n,
                t < n,
                forall|j: int| 0 <= j < queue@.len() ==> (#[trigger] queue@[j]).0 < n,
                self.path_spec(from, to) == search_from(adj, s as int, t as int),
                search(adj, queue_view(queue@), head as int, visited@, t as int) == search_from(
                    adj,
                    s as int,
                    t as int,
                ),
            decreases count_unmarked(visited@) + queue@.len() - head,
        {
            let u = queue[head].0;
            assert(queue_view(queue@)[head as int] == (u, queue@[head as int].1@));
            let p = copy_path(&queue[head].1, None);
            if u == t {
                assert(search(adj, queue_view(queue@), head as int, visited@, t as int) == Some(p@));
                return Some(p);
            }
            let ghost q0 = queue_view(queue@);
            let ghost v0 = visited@;
            let es = &self.adj[u];
            assert(es@ == out_edges(adj, u as int));
            let mut k: usize = 0;
            while k < es.len()
                invariant
                    self.wf(),
                    adj == self.adj_seq(),
                    adj.len() == n,
                    u < n,
                    es@ == adj[u as int],
                    k <= es@.len(),
                    visited@.len() == n,
                    (queue_view(queue@), visited@) == expand(es@, k as int, p@, q0, v0),
                    forall|j: int| 0 <= j < queue@.len() ==> (#[trigger] queue@[j]).0 < n,
                decreases es@.len() - k,
            {
                let e = es[k];
                assert(adj[u as int][k as int] == e);
                assert(e.to < n);
                if !visited[e.to] {
                    visited.set(e.to, true);
                    let np = copy_path(&p, Some(e));
                    let ghost before = queue@;
                    queue.push((e.to, np));
                    assert(queue_view(queue@) =~= queue_view(before).push((e.to, p@.push(e))));
                }
                k += 1;
            }
            proof {
                lemma_expand(es@, es@.len() as int, p@, q0, v0);
            }
            head += 1;
        }
        None
    }

    /// Multiplies `value` by every weight along the path that the search from
    /// `from` finds to `to`.
    pub fn fold_path(&self, from: u64, to: u64, value: Ratio) -> (r: Folded)
        requires
            self.wf(),
        ensures
            r == fold_outcome(self.path_spec(from, to), value),
            r == Folded::NoPath <==> !self.connected(from, to),
            r matches Folded::Value(x) ==> exists|p: Seq<Edge>|
                self.joins(from, to, p) && x.pair() == fold_all(value.pair(), p),
            from == to && self.key_seq().contains(from) ==> r == Folded::Value(value),
    {
        proof {
            self.lemma_path_spec(from, to);
        }
        let p = match self.find_path(from, to) {
            Some(p) => p,
            None => return Folded::NoPath,
        };
        let mut num: i128 = value.num;
        let mut den: i128 = value.den;
        let mut i: usize = 0;
        while i < p.len()
            invariant
                i <= p@.len(),
                self.path_spec(from, to) == Some(p@),
                self.path_spec(from, to) is None <==> !self.connected(from, to),
                from == to && self.key_seq().contains(from) ==> p@.len() == 0,
                (num as int, den as int) == fold_upto(value.pair(), p@, i as int),
                forall|j: int|
                    0 <= j <= i ==> in_i128(#[trigger] fold_upto(value.pair(), p@, j).0) && in_i128(
                        fold_upto(value.pair(), p@, j).1,
                    ),
            decreases p@.len() - i,
        {
            let w = p[i].weight;
            match (num.checked_mul(w.num), den.checked_mul(w.den)) {
                (Some(a), Some(b)) => {
                    num = a;
                    den = b;
                },
                _ => {
                    assert(!in_i128(fold_upto(value.pair(), p@, i + 1).0) || !in_i128(
                        fold_upto(value.pair(), p@, i + 1).1,
                    ));
                    assert(!fold_fits(value.pair(), p@));
                    return Folded::Overflow;
                },
            }
            i += 1;
        }
        Folded::Value(Ratio { num, den })
    }

    /// What the found path is, in terms of walks: one joins the two keys, and
    /// there is one exactly when they are connected; from a key to itself it
    /// is empty.
    proof fn lemma_path_spec(&self, from: u64, to: u64)
        requires
            self.wf(),
        ensures
            self.path_spec(from, to) matches Some(p) ==> self.joins(from, to, p),
            self.path_spec(from, to) is None <==> !self.connected(from, to),
            from == to && self.key_seq().contains(from) ==> self.path_spec(from, to) == Some(
                Seq::<Edge>::empty(),
            ),
    {
        let keys = self.key_seq();
        let adj = self.adj_seq();
        match (index_of(keys, from), index_of(keys, to)) {
            (Some(s), Some(t)) => {
                assert(0 <= s < keys.len() && keys[s] == from);
                assert(0 <= t < keys.len() && keys[t] == to);
                lemma_search_from(keys, adj, s, t);
                if reachable(adj, s, t) {
                    let p = choose|p: Seq<Edge>| walk(adj, s, p, t);
                    assert(self.joins(from, to, p));
                }
            },
            _ => {},
        }
    }
}

proof fn lemma_fold_scaled(v: (int, int), k: (int, int), p: Seq<Edge>, i: int)
    ensures
        fold_upto(crate::ratio::mul_spec(v, k), p, i) == crate::ratio::mul_spec(fold_upto(v, p, i), k),
    decreases i,
{
    if i > 0 {
        lemma_fold_scaled(v, k, p, i - 1);
        let a = fold_upto(v, p, i - 1);
        let w = p[i - 1].weight;
        assert(a.0 * k.0 * w.num == a.0 * w.num * k.0) by (nonlinear_arith);
        assert(a.1 * k.1 * w.den == a.1 * w.den * k.1) by (nonlinear_arith);
    }
}

/// Scaling a query scales its answer: the path searched for does not depend
/// on the value, so when `vk` is `v` times `k`, both queries find a path or
/// neither does, and where both fold within range, the answer for `vk` is `k`
/// times the answer for `v`.
pub proof fn lemma_fold_path_linear(g: Graph, from: u64, to: u64, v: Ratio, k: Ratio, vk: Ratio)
    requires
        vk.pair() == crate::ratio::mul_spec(v.pair(), k.pair()),
    ensures
        fold_outcome(g.path_spec(from, to), v) == Folded::NoPath <==> fold_outcome(
            g.path_spec(from, to),
            vk,
        ) == Folded::NoPath,
        fold_outcome(g.path_spec(from, to), v) matches Folded::Value(x) ==> (fold_outcome(
            g.path_spec(from, to),
            vk,
        ) matches Folded::Value(y) ==> y.pair() == crate::ratio::mul_spec(x.pair(), k.pair())),
{
    if let Some(p) = g.path_spec(from, to) {
        lemma_fold_scaled(v.pair(), k.pair(), p, p.len() as int);
    }
}

/// Connection is transitive: a walk from `a` to `b` and one from `b` to `c`
/// join `a` to `c`.
pub proof fn lemma_connected_transitive(g: Graph, a: u64, b: u64, c: u64)
    requires
        g.connected(a, b),
        g.connected(b, c),
    ensures
        g.connected(a, c),
{
    let p = choose|p: Seq<Edge>| g.joins(a, b, p);
    let q = choose|q: Seq<Edge>| g.joins(b, c, q);
    let keys = g.key_seq();
    let s = index_of(keys, a).unwrap();
    let m = index_of(keys, b).unwrap();
    let t = index_of(keys, c).unwrap();
    lemma_walk_concat(g.adj_seq(), s, p, m, q, t);
    assert(g.joins(a, c, p + q));
}

/// The fact `c` joins keys `a` and `b`, in one direction or the other.
pub open spec fn links(c: Connection, a: u64, b: u64) -> bool {
    (c.from == a && c.to == b) || (c.from == b && c.to == a)
}

/// `es` holds `(b, w)` at one position and no other entry for key `b`.
pub open spec fn unique_entry(es: Seq<(u64, Ratio)>, b: u64, w: Ratio) -> bool {
    exists|m: int|
        0 <= m < es.len() && es[m] == (b, w) && forall|m2: int|
            0 <= m2 < es.len() && m2 != m ==> (#[trigger] es[m2]).0 != b
}

proof fn lemma_edges_unlinked(conns: Seq<Connection>, a: u64, b: u64)
    requires
        forall|j: int| 0 <= j < conns.len() ==> !links(#[trigger] conns[j], a, b),
    ensures
        forall|m: int| 0 <= m < edges_of(conns, a).len() ==> (#[trigger] edges_of(conns, a)[m]).0 != b,
    decreases conns.len(),
{
    if conns.len() > 0 {
        let pre = conns.drop_last();
        assert forall|j: int| 0 <= j < pre.len() implies !links(#[trigger] pre[j], a, b) by {
            assert(pre[j] == conns[j]);
        }
        lemma_edges_unlinked(pre, a, b);
        let c = conns.last();
        assert(!links(conns[conns.len() - 1], a, b));
        let fa: Seq<(u64, Ratio)> = if c.from == a { seq![(c.to, c.value)] } else { seq![] };
        let ba: Seq<(u64, Ratio)> = if c.to == a { seq![(c.from, inv(c.value))] } else { seq![] };
        let ea = edges_of(conns, a);
        let pa = edges_of(pre, a);
        assert(ea == pa + fa + ba);
        assert forall|m: int| 0 <= m < ea.len() implies (#[trigger] ea[m]).0 != b by {
            if m < pa.len() {
                assert(ea[m] == pa[m]);
            } else if m < pa.len() + fa.len() {
                assert(ea[m] == fa[m - pa.len()]);
            } else {
                assert(ea[m] == ba[m - pa.len() - fa.len()]);
            }
        }
    }
}

proof fn lemma_edges_one_link(conns: Seq<Connection>, i: int)
    requires
        0 <= i < conns.len(),
        conns[i].from != conns[i].to,
        forall|j: int|
            0 <= j < conns.len() && j != i ==> !links(#[trigger] conns[j], conns[i].from, conns[i].to),
    ensures
        unique_entry(edges_of(conns, conns[i].from), conns[i].to, conns[i].value),
        unique_entry(edges_of(conns, conns[i].to), conns[i].from, inv(conns[i].value)),
    decreases conns.len(),
{
    let a = conns[i].from;
    let b = conns[i].to;
    let c = conns.last();
    let pre = conns.drop_last();
    let ea = edges_of(conns, a);
    let eb = edges_of(conns, b);
    if i == conns.len() - 1 {
        assert forall|j: int| 0 <= j < pre.len() implies !links(#[trigger] pre[j], a, b) by {
            assert(pre[j] == conns[j]);
        }
        assert forall|j: int| 0 <= j < pre.len() implies !links(#[trigger] pre[j], b, a) by {
            assert(pre[j] == conns[j]);
        }
        lemma_edges_unlinked(pre, a, b);
        lemma_edges_unlinked(pre, b, a);
        assert(ea =~= edges_of(pre, a) + seq![(b, c.value)]);
        assert(eb =~= edges_of(pre, b) + seq![(a, inv(c.value))]);
        assert(ea[ea.len() - 1] == (b, c.value));
        assert forall|m2: int| 0 <= m2 < ea.len() && m2 != ea.len() - 1 implies (#[trigger] ea[m2]).0 != b by {
            assert(ea[m2] == edges_of(pre, a)[m2]);
        }
        assert(eb[eb.len() - 1] == (a, inv(c.value)));
        assert forall|m2: int| 0 <= m2 < eb.len() && m2 != eb.len() - 1 implies (#[trigger] eb[m2]).0 != a by {
            assert(eb[m2] == edges_of(pre, b)[m2]);
        }
    } else {
        assert(pre[i] == conns[i]);
        assert forall|j: int|
            0 <= j < pre.len() && j != i implies !links(#[trigger] pre[j], pre[i].from, pre[i].to) by {
            assert(pre[j] == conns[j]);
        }
        lemma_edges_one_link(pre, i);
        assert(!links(c, a, b));
        let fa: Seq<(u64, Ratio)> = if c.from == a { seq![(c.to, c.value)] } else { seq![] };
        let ba: Seq<(u64, Ratio)> = if c.to == a { seq![(c.from, inv(c.value))] } else { seq![] };
        let fb: Seq<(u64, Ratio)> = if c.from == b { seq![(c.to, c.value)] } else { seq![] };
        let bb: Seq<(u64, Ratio)> = if c.to == b { seq![(c.from, inv(c.value))] } else { seq![] };
        assert(ea == edges_of(pre, a) + fa + ba);
        assert(eb == edges_of(pre, b) + fb + bb);
        let pa = edges_of(pre, a);
        let m = choose|m: int|
            0 <= m < pa.len() && pa[m] == (b, conns[i].value) && forall|m2: int|
                0 <= m2 < pa.len() && m2 != m ==> (#[trigger] pa[m2]).0 != b;
        assert(ea[m] == pa[m]);
        assert forall|m2: int| 0 <= m2 < ea.len() && m2 != m implies (#[trigger] ea[m2]).0 != b by {
            if m2 < pa.len() {
                assert(ea[m2] == pa[m2]);
            } else if m2 < pa.len() + fa.len() {
                assert(ea[m2] == fa[m2 - pa.len()]);
            } else {
                assert(ea[m2] == ba[m2 - pa.len() - fa.len()]);
            }
        }
        let pb = edges_of(pre, b);
        let n = choose|n: int|
            0 <= n < pb.len() && pb[n] == (a, inv(conns[i].value)) && forall|m2: int|
                0 <= m2 < pb.len() && m2 != n ==> (#[trigger] pb[m2]).0 != a;
        assert(eb[n] == pb[n]);
        assert forall|m2: int| 0 <= m2 < eb.len() && m2 != n implies (#[trigger] eb[m2]).0 != a by {
            if m2 < pb.len() {
                assert(eb[m2] == pb[m2]);
            } else if m2 < pb.len() + fb.len() {
                assert(eb[m2] == fb[m2 - pb.len()]);
            } else {
                assert(eb[m2] == bb[m2 - pb.len() - fb.len()]);
            }
        }
    }
}

/// Where the edges of `a`'s vertex reach `b` once only, with weight `w`, the
/// search from `a` to `b` finds that single edge.
proof fn lemma_single_hop(g: Graph, a: u64, b: u64, w: Ratio)
    requires
        g.wf(),
        a != b,
        g.key_seq().contains(a),
        g.key_seq().contains(b),
        unique_entry(keyed(g.key_seq(), g.adj_seq()[index_of(g.key_seq(), a).unwrap()]), b, w),
    ensures
        g.path_spec(a, b) matches Some(p) && p.len() == 1 && p[0].weight == w,
{
    let keys = g.key_seq();
    let adj = g.adj_seq();
    let s = index_of(keys, a).unwrap();
    let t = index_of(keys, b).unwrap();
    assert(0 <= s < keys.len() && keys[s] == a);
    assert(0 <= t < keys.len() && keys[t] == b);
    let es = adj[s];
    let ke = keyed(keys, es);
    let m = choose|m: int|
        0 <= m < ke.len() && ke[m] == (b, w) && forall|m2: int|
            0 <= m2 < ke.len() && m2 != m ==> (#[trigger] ke[m2]).0 != b;
    assert(ke[m] == (keys[es[m].to as int], es[m].weight));
    assert(es[m] == adj[s][m]);
    assert(es[m].to < adj.len());
    assert(es[m].to as int == t);
    assert forall|k: int| 0 <= k < m implies (#[trigger] es[k]).to != es[m].to by {
        assert(ke[k] == (keys[es[k].to as int], es[k].weight));
    }
    let q = start_queue(s);
    let vis = start_marks(adj.len(), s);
    assert(search_from(adj, s, t) == search(adj, q, 0, vis, t));
    assert(out_edges(adj, s) == es);
    let r = expand(es, es.len() as int, q[0].1, q, vis);
    assert(search(adj, q, 0, vis, t) == search(adj, r.0, 1, r.1, t));
    lemma_expand(es, es.len() as int, q[0].1, q, vis);
    lemma_expand_first(es, es.len() as int, q[0].1, q, vis, m);
    let j = choose|j: int| q.len() <= j < r.0.len() && r.0[j] == (es[m].to, q[0].1.push(es[m]));
    assert forall|x: int| 1 <= x < j implies (#[trigger] r.0[x]).0 as int != t by {}
    lemma_search_finds(adj, r.0, 1, r.1, t, j);
    assert(g.path_spec(a, b) == search_from(adj, s, t));
    assert(r.0[j].1 =~= seq![es[m]]);
}

/// A fact's own rate: when the fact from `a` to `b` at position `i` of the
/// graph's facts is the only one between `a` and `b` (and `a` is not `b`),
/// the path from `a` to `b` folds a value by the fact's rate, and the path
/// back by its reciprocal.
pub proof fn lemma_fact_rate(g: Graph, conns: Seq<Connection>, i: int, v: Ratio)
    requires
        g.built_from(conns),
        0 <= i < conns.len(),
        conns[i].from != conns[i].to,
        forall|j: int|
            0 <= j < conns.len() && j != i ==> !links(#[trigger] conns[j], conns[i].from, conns[i].to),
    ensures
        g.path_spec(conns[i].from, conns[i].to) matches Some(p) && p.len() == 1 && fold_all(v.pair(), p) == (
            v.num * conns[i].value.num,
            v.den * conns[i].value.den,
        ),
        g.path_spec(conns[i].to, conns[i].from) matches Some(p) && p.len() == 1 && fold_all(v.pair(), p) == (
            v.num * conns[i].value.den,
            v.den * conns[i].value.num,
        ),
{
    let a = conns[i].from;
    let b = conns[i].to;
    let keys = g.key_seq();
    assert(mentioned(conns, a) && mentioned(conns, b));
    lemma_edges_one_link(conns, i);
    let s = index_of(keys, a).unwrap();
    let t = index_of(keys, b).unwrap();
    assert(0 <= s < keys.len() && keys[s] == a);
    assert(0 <= t < keys.len() && keys[t] == b);
    assert(keyed(keys, g.adj_seq()[s]) == edges_of(conns, keys[s]));
    assert(keyed(keys, g.adj_seq()[t]) == edges_of(conns, keys[t]));
    lemma_single_hop(g, a, b, conns[i].value);
    lemma_single_hop(g, b, a, inv(conns[i].value));
    let p = g.path_spec(a, b).unwrap();
    assert(fold_upto(v.pair(), p, 0) == v.pair());
    assert(fold_all(v.pair(), p) == fold_upto(v.pair(), p, 1));
    let p2 = g.path_spec(b, a).unwrap();
    assert(fold_upto(v.pair(), p2, 0) == v.pair());
    assert(fold_all(v.pair(), p2) == fold_upto(v.pair(), p2, 1));
}

proof fn lemma_edges_origin(conns: Seq<Connection>, k: u64, m: int)
    requires
        0 <= m < edges_of(conns, k).len(),
    ensures
        exists|j: int| 0 <= j < conns.len() && links(#[trigger] conns[j], k, edges_of(conns, k)[m].0),
    decreases conns.len(),
{
    let pre = conns.drop_last();
    let c = conns.last();
    let fwd: Seq<(u64, Ratio)> = if c.from == k { seq![(c.to, c.value)] } else { seq![] };
    let bwd: Seq<(u64, Ratio)> = if c.to == k { seq![(c.from, inv(c.value))] } else { seq![] };
    let pk = edges_of(pre, k);
    let ek = edges_of(conns, k);
    assert(ek == pk + fwd + bwd);
    if m < pk.len() {
        assert(ek[m] == pk[m]);
        lemma_edges_origin(pre, k, m);
        let j = choose|j: int| 0 <= j < pre.len() && links(#[trigger] pre[j], k, pk[m].0);
        assert(pre[j] == conns[j]);
    } else if m < pk.len() + fwd.len() {
        assert(ek[m] == fwd[m - pk.len()]);
        assert(links(conns[conns.len() - 1], k, ek[m].0));
    } else {
        assert(ek[m] == bwd[m - pk.len() - fwd.len()]);
        assert(links(conns[conns.len() - 1], k, ek[m].0));
    }
}

proof fn lemma_edges_back(conns: Seq<Connection>, j: int, k: u64, k2: u64)
    requires
        0 <= j < conns.len(),
        links(conns[j], k, k2),
    ensures
        exists|m: int| 0 <= m < edges_of(conns, k2).len() && (#[trigger] edges_of(conns, k2)[m]).0 == k,
    decreases conns.len(),
{
    let pre = conns.drop_last();
    let c = conns.last();
    let fwd: Seq<(u64, Ratio)> = if c.from == k2 { seq![(c.to, c.value)] } else { seq![] };
    let bwd: Seq<(u64, Ratio)> = if c.to == k2 { seq![(c.from, inv(c.value))] } else { seq![] };
    let pk = edges_of(pre, k2);
    let ek = edges_of(conns, k2);
    assert(ek == pk + fwd + bwd);
    if j < conns.len() - 1 {
        assert(pre[j] == conns[j]);
        lemma_edges_back(pre, j, k, k2);
        let m = choose|m: int| 0 <= m < pk.len() && (#[trigger] pk[m]).0 == k;
        assert(ek[m] == pk[m]);
    } else if c.to == k2 && c.from == k {
        assert(ek[(pk.len() + fwd.len()) as int] == bwd[0]);
    } else {
        assert(ek[pk.len() as int] == fwd[0]);
    }
}

proof fn lemma_built_symmetric(g: Graph, conns: Seq<Connection>)
    requires
        g.built_from(conns),
    ensures
        arena_symmetric(g.adj_seq()),
{
    let keys = g.key_seq();
    let adj = g.adj_seq();
    assert forall|u: int, k: int|
        0 <= u < adj.len() && 0 <= k < adj[u].len() implies has_edge(adj, (#[trigger] adj[u][k]).to as int, u) by {
        let v = adj[u][k].to as int;
        assert(0 <= v < adj.len());
        let ku = keyed(keys, adj[u]);
        assert(ku == edges_of(conns, keys[u]));
        assert(ku[k] == (keys[v], adj[u][k].weight));
        lemma_edges_origin(conns, keys[u], k);
        let j = choose|j: int| 0 <= j < conns.len() && links(#[trigger] conns[j], keys[u], keys[v]);
        lemma_edges_back(conns, j, keys[u], keys[v]);
        let kv = keyed(keys, adj[v]);
        assert(kv == edges_of(conns, keys[v]));
        let m = choose|m: int| 0 <= m < kv.len() && (#[trigger] kv[m]).0 == keys[u];
        assert(kv[m] == (keys[adj[v][m].to as int], adj[v][m].weight));
        assert(adj[v][m].to < adj.len());
        assert(adj[v][m].to as int == u);
        assert(adj[adj[u][k].to as int][m].to == u);
    }
}

/// Connection is symmetric in a graph built from facts: each fact gives an
/// edge both ways, so a walk from `a` to `b` can be retraced from `b` to `a`.
pub proof fn lemma_connected_symmetric(g: Graph, conns: Seq<Connection>, a: u64, b: u64)
    requires
        g.built_from(conns),
        g.connected(a, b),
    ensures
        g.connected(b, a),
{
    let keys = g.key_seq();
    let adj = g.adj_seq();
    let p = choose|p: Seq<Edge>| g.joins(a, b, p);
    let s = index_of(keys, a).unwrap();
    let t = index_of(keys, b).unwrap();
    lemma_built_symmetric(g, conns);
    lemma_walk_reverse(keys, adj, s, p, t);
    let q = choose|q: Seq<Edge>| walk(adj, t, q, s);
    assert(g.joins(b, a, q));
}

} // verus!
