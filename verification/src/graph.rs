//! The deduplicated adjacency structure built from a sequence of edges.
//!
//! Every input pair `(u, v)` makes `v` a neighbor of `u` and `u` a neighbor
//! of `v`, so the structure is symmetric by construction; repeated pairs
//! collapse to a single neighbor entry. The vertex count is the largest id
//! seen plus one, treating ids as dense indices starting at zero.

use vstd::prelude::*;

verus! {

/// Whether vertex `x` appears in some pair of `edges`, as either endpoint.
pub open spec fn appears(edges: Seq<(u64, u64)>, x: u64) -> bool {
    exists|i: int|
        0 <= i < edges.len() && ((#[trigger] edges[i]).0 == x || edges[i].1 == x)
}

/// The neighbors of `x` under `edges`: every vertex paired with `x`, in
/// either order.
pub open spec fn edge_neighbors(edges: Seq<(u64, u64)>, x: u64) -> Set<u64> {
    Set::new(
        |y: u64|
            exists|i: int|
                0 <= i < edges.len() && ((#[trigger] edges[i]) == (x, y) || edges[i] == (y, x)),
    )
}

/// The largest vertex id occurring in `edges`, or zero when there is none.
pub open spec fn max_id(edges: Seq<(u64, u64)>) -> u64
    decreases edges.len()
{
    if edges.len() == 0 {
        0
    } else {
        let m = max_id(edges.drop_last());
        let a = edges.last().0;
        let b = edges.last().1;
        if a >= m && a >= b {
            a
        } else if b >= m {
            b
        } else {
            m
        }
    }
}

/// The adjacency mapping an edge list denotes: every vertex some pair
/// touches, mapped to its set of neighbors.
pub open spec fn adjacency(edges: Seq<(u64, u64)>) -> Map<u64, Set<u64>> {
    Map::new(|v: u64| appears(edges, v), |v: u64| edge_neighbors(edges, v))
}

/// The neighbor relation read off any edge list is its own inverse: `b` is
/// a neighbor of `a` exactly when `a` is a neighbor of `b`.
pub proof fn lemma_neighbors_symmetric(edges: Seq<(u64, u64)>, a: u64, b: u64)
    ensures
        edge_neighbors(edges, a).contains(b) <==> edge_neighbors(edges, b).contains(a),
{
}

/// The adjacency mapping of any edge list is symmetric: when `b` is a
/// neighbor of `a`, then `b` is itself a vertex of the mapping and `a` is
/// one of its neighbors.
pub proof fn lemma_adjacency_symmetric(edges: Seq<(u64, u64)>, a: u64, b: u64)
    ensures
        adjacency(edges).dom().contains(a) && adjacency(edges)[a].contains(b)
            ==> adjacency(edges).dom().contains(b) && adjacency(edges)[b].contains(a),
{
    let g = adjacency(edges);
    if g.dom().contains(a) && g[a].contains(b) {
        let i = choose|i: int| 0 <= i < edges.len() && (edges[i] == (a, b) || edges[i] == (b, a));
        assert(edges[i].0 == b || edges[i].1 == b);
        assert(appears(edges, b));
    }
}

/// A pair already present adds nothing: pushing a duplicate of some edge
/// leaves every vertex's neighbor set, the set of vertices seen, and the
/// largest id unchanged, while the raw pair count still grows by one.
pub proof fn lemma_duplicate_edge_no_effect(edges: Seq<(u64, u64)>, e: (u64, u64), x: u64)
    requires
        edges.contains(e),
    ensures
        edge_neighbors(edges.push(e), x) == edge_neighbors(edges, x),
        appears(edges.push(e), x) == appears(edges, x),
        max_id(edges.push(e)) == max_id(edges),
        edges.push(e).len() == edges.len() + 1,
{
    let with = edges.push(e);
    assert forall|y: u64| edge_neighbors(with, x).contains(y) implies edge_neighbors(
        edges,
        x,
    ).contains(y) by {
        let i = choose|i: int| 0 <= i < with.len() && (with[i] == (x, y) || with[i] == (y, x));
        if i == edges.len() {
            let j = choose|j: int| 0 <= j < edges.len() && edges[j] == e;
            assert(edges[j] == (x, y) || edges[j] == (y, x));
        }
    }
    assert forall|y: u64| edge_neighbors(edges, x).contains(y) implies edge_neighbors(
        with,
        x,
    ).contains(y) by {
        let i = choose|i: int| 0 <= i < edges.len() && (edges[i] == (x, y) || edges[i] == (y, x));
        assert(with[i] == (x, y) || with[i] == (y, x));
    }
    assert(edge_neighbors(with, x) =~= edge_neighbors(edges, x));
    if appears(with, x) {
        let i = choose|i: int| 0 <= i < with.len() && (with[i].0 == x || with[i].1 == x);
        if i == edges.len() {
            let j = choose|j: int| 0 <= j < edges.len() && edges[j] == e;
            assert(edges[j].0 == x || edges[j].1 == x);
        }
        assert(appears(edges, x));
    }
    lemma_max_id_bound(edges);
    assert(with.drop_last() =~= edges);
}

/// Every id in `edges` is bounded by `max_id(edges)`.
pub proof fn lemma_max_id_bound(edges: Seq<(u64, u64)>)
    ensures
        forall|i: int|
            0 <= i < edges.len() ==> (#[trigger] edges[i]).0 <= max_id(edges) && edges[i].1
                <= max_id(edges),
    decreases edges.len(),
{
    if edges.len() > 0 {
        lemma_max_id_bound(edges.drop_last());
        assert(forall|i: int| 0 <= i < edges.len() - 1 ==> edges[i] == edges.drop_last()[i]);
    }
}

/// How one more pair changes what `appears` and `edge_neighbors` read off
/// an edge list: both endpoints become visible, each gains the other as a
/// neighbor, and every other vertex is untouched.
pub proof fn lemma_edge_push(s: Seq<(u64, u64)>, a: u64, b: u64, x: u64)
    ensures
        appears(s.push((a, b)), x) <==> (appears(s, x) || x == a || x == b),
        x == a && x == b ==> edge_neighbors(s.push((a, b)), x) == edge_neighbors(s, x).insert(x),
        x == a && x != b ==> edge_neighbors(s.push((a, b)), x) == edge_neighbors(s, x).insert(b),
        x == b && x != a ==> edge_neighbors(s.push((a, b)), x) == edge_neighbors(s, x).insert(a),
        x != a && x != b ==> edge_neighbors(s.push((a, b)), x) == edge_neighbors(s, x),
{
    let t = s.push((a, b));
    assert(t[s.len() as int] == (a, b));
    if appears(t, x) && !(x == a || x == b) {
        let i = choose|i: int| 0 <= i < t.len() && (t[i].0 == x || t[i].1 == x);
        assert(i < s.len() && (s[i].0 == x || s[i].1 == x));
    }
    if appears(s, x) {
        let i = choose|i: int| 0 <= i < s.len() && (s[i].0 == x || s[i].1 == x);
        assert(t[i].0 == x || t[i].1 == x);
    }
    assert forall|y: u64| edge_neighbors(t, x).contains(y) implies (edge_neighbors(s, x).contains(
        y,
    ) || (x == a && y == b) || (x == b && y == a)) by {
        let i = choose|i: int| 0 <= i < t.len() && (t[i] == (x, y) || t[i] == (y, x));
        if i < s.len() {
            assert(s[i] == (x, y) || s[i] == (y, x));
        }
    }
    assert forall|y: u64| edge_neighbors(s, x).contains(y) implies edge_neighbors(t, x).contains(
        y,
    ) by {
        let i = choose|i: int| 0 <= i < s.len() && (s[i] == (x, y) || s[i] == (y, x));
        assert(t[i] == (x, y) || t[i] == (y, x));
    }
    if x == a && x == b {
        assert(edge_neighbors(t, x) =~= edge_neighbors(s, x).insert(x));
    } else if x == a {
        assert(edge_neighbors(t, x) =~= edge_neighbors(s, x).insert(b));
    } else if x == b {
        assert(edge_neighbors(t, x) =~= edge_neighbors(s, x).insert(a));
    } else {
        assert(edge_neighbors(t, x) =~= edge_neighbors(s, x));
    }
}

/// A vertex no edge touches has no neighbors.
pub proof fn lemma_absent_vertex_no_neighbors(s: Seq<(u64, u64)>, x: u64)
    requires
        !appears(s, x),
    ensures
        edge_neighbors(s, x) == Set::<u64>::empty(),
{
    assert forall|y: u64| !edge_neighbors(s, x).contains(y) by {
        if edge_neighbors(s, x).contains(y) {
            let i = choose|i: int| 0 <= i < s.len() && (s[i] == (x, y) || s[i] == (y, x));
            assert(s[i].0 == x || s[i].1 == x);
        }
    }
    assert(edge_neighbors(s, x) =~= Set::<u64>::empty());
}

/// Whether some entry of `adj` carries the key `v`.
pub open spec fn has_key(adj: Seq<(u64, Vec<u64>)>, v: u64) -> bool {
    exists|i: int| 0 <= i < adj.len() && (#[trigger] adj[i]).0 == v
}

/// The index of the entry carrying key `v`; meaningful only when the keys
/// are distinct and `v` is present.
pub open spec fn key_index(adj: Seq<(u64, Vec<u64>)>, v: u64) -> int {
    choose|i: int| 0 <= i < adj.len() && (#[trigger] adj[i]).0 == v
}

/// With distinct keys, `key_index` finds exactly the entry holding `v`.
pub proof fn lemma_key_index(adj: Seq<(u64, Vec<u64>)>, v: u64, i: int)
    requires
        forall|p: int, q: int|
            0 <= p < q < adj.len() ==> (#[trigger] adj[p]).0 != (#[trigger] adj[q]).0,
        0 <= i < adj.len(),
        adj[i].0 == v,
    ensures
        key_index(adj, v) == i,
{
    assert(has_key(adj, v));
}

/// The adjacency structure: a list of vertices, each with the list of its
/// distinct neighbors.
pub struct Graph {
    adj: Vec<(u64, Vec<u64>)>,
}

impl View for Graph {
    type V = Map<u64, Set<u64>>;

    /// The graph as a mapping from each vertex that some edge touches to
    /// its set of neighbors.
    closed spec fn view(&self) -> Map<u64, Set<u64>> {
        Map::new(
            |v: u64| has_key(self.adj@, v),
            |v: u64| self.adj@[key_index(self.adj@, v)].1@.to_set(),
        )
    }
}

impl Graph {
    /// Internal shape: vertex keys are distinct and every neighbor list is
    /// free of duplicates.
    pub closed spec fn wf(&self) -> bool {
        &&& forall|p: int, q: int|
            0 <= p < q < self.adj@.len() ==> (#[trigger] self.adj@[p]).0 != (
            #[trigger] self.adj@[q]).0
        &&& forall|i: int| 0 <= i < self.adj@.len() ==> (#[trigger] self.adj@[i]).1@.no_duplicates()
    }

    pub fn new() -> (g: Graph)
        ensures
            g.wf(),
            g@ == Map::<u64, Set<u64>>::empty(),
    {
        let g = Graph { adj: Vec::new() };
        proof {
            assert(g@ =~= Map::<u64, Set<u64>>::empty());
        }
        g
    }

    /// Every neighbor set of a well-formed graph is finite.
    pub proof fn lemma_neighbor_sets_finite(&self)
        requires
            self.wf(),
        ensures
            forall|v: u64| self@.dom().contains(v) ==> (#[trigger] self@[v]).finite(),
    {
        assert forall|v: u64| self@.dom().contains(v) implies (#[trigger] self@[v]).finite() by {
            let i = key_index(self.adj@, v);
            self.adj@[i].1@.unique_seq_to_set();
        }
    }

    /// Records `v` as a neighbor of `u` (one direction only), creating the
    /// entry for `u` if no edge touched it before.
    #[verifier::loop_isolation(false)]
    fn add_neighbor(&mut self, u: u64, v: u64)
        requires
            old(self).wf(),
        ensures
            final(self).wf(),
            final(self)@ == old(self)@.insert(
                u,
                (if old(self)@.dom().contains(u) {
                    old(self)@[u]
                } else {
                    Set::<u64>::empty()
                }).insert(v),
            ),
    {
        let ghost adj0 = self.adj@;
        let mut k: usize = 0;
        let n = self.adj.len();
        while k < n
            invariant
                0 <= k <= n,
                self.adj@ == adj0,
                n == self.adj@.len(),
                forall|i: int| 0 <= i < k ==> (#[trigger] self.adj@[i]).0 != u,
            decreases n - k,
        {
            if self.adj[k].0 == u {
                proof {
                    lemma_key_index(adj0, u, k as int);
                }
                let present = vec_contains(&self.adj[k].1, v);
                if !present {
                    self.adj[k].1.push(v);
                    proof {
                        lemma_key_index(self.adj@, u, k as int);
                        assert forall|w: u64| has_key(self.adj@, w) implies has_key(adj0, w)
                            && (if w == u {
                            self.adj@[key_index(self.adj@, w)].1@.to_set() == adj0[key_index(
                                adj0,
                                w,
                            )].1@.to_set().insert(v)
                        } else {
                            self.adj@[key_index(self.adj@, w)].1@.to_set() == adj0[key_index(
                                adj0,
                                w,
                            )].1@.to_set()
                        }) by {
                            let j = key_index(self.adj@, w);
                            lemma_key_index(adj0, w, j);
                            if w == u {
                                assert(self.adj@[j].1@ =~= adj0[j].1@.push(v));
                                adj0[j].1@.lemma_push_to_set_commute(v);
                            }
                        }
                        assert forall|w: u64| has_key(adj0, w) implies has_key(self.adj@, w) by {
                            let j = key_index(adj0, w);
                            assert(self.adj@[j].0 == w);
                        }
                        assert(final(self)@ =~= old(self)@.insert(u, old(self)@[u].insert(v)));
                    }
                } else {
                    proof {
                        assert(self.adj@[k as int].1@.to_set().contains(v));
                        assert(old(self)@[u].insert(v) =~= old(self)@[u]);
                        assert(final(self)@ =~= old(self)@.insert(u, old(self)@[u].insert(v)));
                    }
                }
                return ;
            }
            k = k + 1;
        }
        // No edge touched `u` yet: open its entry with the single neighbor.
        let mut nbrs: Vec<u64> = Vec::new();
        nbrs.push(v);
        self.adj.push((u, nbrs));
        proof {
            assert(!has_key(adj0, u));
            lemma_key_index(self.adj@, u, adj0.len() as int);
            assert forall|w: u64| has_key(self.adj@, w) && w != u implies has_key(adj0, w) && (
            #[trigger] self.adj@[key_index(self.adj@, w)]).1@.to_set() == adj0[key_index(
                adj0,
                w,
            )].1@.to_set() by {
                let j = key_index(self.adj@, w);
                assert(j < adj0.len());
                lemma_key_index(adj0, w, j);
            }
            assert forall|w: u64| has_key(adj0, w) implies has_key(self.adj@, w) by {
                let j = key_index(adj0, w);
                assert(self.adj@[j].0 == w);
            }
            assert(self.adj@[adj0.len() as int].1@ =~= Seq::<u64>::empty().push(v));
            Seq::<u64>::empty().lemma_push_to_set_commute(v);
            assert(Seq::<u64>::empty().to_set() =~= Set::<u64>::empty());
            assert(final(self)@ =~= old(self)@.insert(u, Set::<u64>::empty().insert(v)));
        }
    }
}

impl Graph {
    /// The number of distinct neighbors of `v`; zero for a vertex no edge
    /// touches.
    #[verifier::loop_isolation(false)]
    pub fn degree(&self, v: u64) -> (d: usize)
        requires
            self.wf(),
        ensures
            self@.dom().contains(v) ==> d == self@[v].len(),
            !self@.dom().contains(v) ==> d == 0,
    {
        let mut k: usize = 0;
        let n = self.adj.len();
        while k < n
            invariant
                0 <= k <= n,
                n == self.adj@.len(),
                forall|i: int| 0 <= i < k ==> (#[trigger] self.adj@[i]).0 != v,
            decreases n - k,
        {
            if self.adj[k].0 == v {
                proof {
                    lemma_key_index(self.adj@, v, k as int);
                    self.adj@[k as int].1@.unique_seq_to_set();
                }
                return self.adj[k].1.len();
            }
            k = k + 1;
        }
        0
    }

    /// The vertices some edge touches, each exactly once.
    #[verifier::loop_isolation(false)]
    pub fn vertices(&self) -> (vs: Vec<u64>)
        requires
            self.wf(),
        ensures
            vs@.no_duplicates(),
            vs@.to_set() == self@.dom(),
    {
        let mut vs: Vec<u64> = Vec::new();
        let mut k: usize = 0;
        while k < self.adj.len()
            invariant
                0 <= k <= self.adj@.len(),
                vs@.len() == k,
                forall|i: int| 0 <= i < k ==> vs@[i] == (#[trigger] self.adj@[i]).0,
            decreases self.adj@.len() - k,
        {
            let key = self.adj[k].0;
            vs.push(key);
            k = k + 1;
        }
        proof {
            assert forall|p: int, q: int| 0 <= p < q < vs@.len() implies vs@[p] != vs@[q] by {
                assert(self.adj@[p].0 != self.adj@[q].0);
            }
            assert forall|y: u64| vs@.to_set().contains(y) implies self@.dom().contains(y) by {
                let i = choose|i: int| 0 <= i < vs@.len() && vs@[i] == y;
                assert(self.adj@[i].0 == y);
            }
            assert forall|y: u64| self@.dom().contains(y) implies vs@.to_set().contains(y) by {
                let i = key_index(self.adj@, y);
                assert(vs@[i] == y);
                assert(vs@.contains(y));
            }
            assert(vs@.to_set() =~= self@.dom());
        }
        vs
    }

    /// Whether `v` is recorded as a neighbor of `u`.
    #[verifier::loop_isolation(false)]
    pub fn has_edge(&self, u: u64, v: u64) -> (r: bool)
        requires
            self.wf(),
        ensures
            r == (self@.dom().contains(u) && self@[u].contains(v)),
    {
        let mut k: usize = 0;
        let n = self.adj.len();
        while k < n
            invariant
                0 <= k <= n,
                n == self.adj@.len(),
                forall|i: int| 0 <= i < k ==> (#[trigger] self.adj@[i]).0 != u,
            decreases n - k,
        {
            if self.adj[k].0 == u {
                proof {
                    lemma_key_index(self.adj@, u, k as int);
                }
                return vec_contains(&self.adj[k].1, v);
            }
            k = k + 1;
        }
        false
    }
}

/// Folds an edge list into the symmetric, deduplicated adjacency structure
/// and the vertex count, the largest id seen plus one (one even for an
/// empty list, since the running maximum starts at zero).
#[verifier::loop_isolation(false)]
pub fn clean_data(edges: &Vec<(u64, u64)>) -> (r: (Graph, usize))
    requires
        max_id(edges@) < usize::MAX,
    ensures
        r.0.wf(),
        r.0@ == adjacency(edges@),
        r.1 == max_id(edges@) + 1,
{
    let mut g = Graph::new();
    let mut maxv: u64 = 0;
    let mut i: usize = 0;
    while i < edges.len()
        invariant
            0 <= i <= edges@.len(),
            g.wf(),
            maxv == max_id(edges@.take(i as int)),
            forall|x: u64| g@.dom().contains(x) <==> appears(edges@.take(i as int), x),
            forall|x: u64|
                g@.dom().contains(x) ==> g@[x] == edge_neighbors(edges@.take(i as int), x),
        decreases edges@.len() - i,
    {
        let ghost s = edges@.take(i as int);
        let ghost s1 = edges@.take(i + 1);
        let e = edges[i];
        let a = e.0;
        let b = e.1;
        proof {
            assert(s1.drop_last() =~= s);
            assert(s1.last() == e);
            assert(s1 =~= s.push((a, b)));
        }
        if a > maxv {
            maxv = a;
        }
        if b > maxv {
            maxv = b;
        }
        let ghost g0 = g@;
        g.add_neighbor(a, b);
        let ghost g1 = g@;
        g.add_neighbor(b, a);
        proof {
            assert forall|x: u64|
                (g@.dom().contains(x) <==> appears(s1, x)) && (g@.dom().contains(x) ==> g@[x]
                    == edge_neighbors(s1, x)) by {
                lemma_edge_push(s, a, b, x);
                if !appears(s, a) {
                    lemma_absent_vertex_no_neighbors(s, a);
                }
                if !appears(s, b) {
                    lemma_absent_vertex_no_neighbors(s, b);
                }
                if x == a && x == b {
                    assert(g@[x] =~= edge_neighbors(s, x).insert(x));
                } else if x == a {
                    assert(g@[x] == g1[x]);
                    assert(g@[x] =~= edge_neighbors(s, x).insert(b));
                } else if x == b {
                    assert(g1.dom().contains(x) == g0.dom().contains(x));
                    if g1.dom().contains(x) {
                        assert(g1[x] == g0[x]);
                    }
                    assert(g@[x] =~= edge_neighbors(s, x).insert(a));
                } else {
                    if g@.dom().contains(x) {
                        assert(g@[x] == g0[x]);
                    }
                }
            }
        }
        i = i + 1;
    }
    proof {
        assert(edges@.take(edges@.len() as int) =~= edges@);
        assert(g@ =~= adjacency(edges@));
    }
    let n = maxv as usize;
    (g, n + 1)
}

/// The largest vertex id occurring in the edge list, zero when it is empty.
#[verifier::loop_isolation(false)]
pub fn max_vertex_id(edges: &Vec<(u64, u64)>) -> (m: u64)
    ensures
        m == max_id(edges@),
{
    let mut maxv: u64 = 0;
    let mut i: usize = 0;
    while i < edges.len()
        invariant
            0 <= i <= edges@.len(),
            maxv == max_id(edges@.take(i as int)),
        decreases edges@.len() - i,
    {
        let e = edges[i];
        proof {
            assert(edges@.take(i + 1).drop_last() =~= edges@.take(i as int));
            assert(edges@.take(i + 1).last() == e);
        }
        if e.0 > maxv {
            maxv = e.0;
        }
        if e.1 > maxv {
            maxv = e.1;
        }
        i = i + 1;
    }
    proof {
        assert(edges@.take(edges@.len() as int) =~= edges@);
    }
    maxv
}

fn vec_contains(s: &Vec<u64>, x: u64) -> (r: bool)
    ensures
        r == s@.contains(x),
{
    let mut i: usize = 0;
    while i < s.len()
        invariant
            0 <= i <= s@.len(),
            forall|j: int| 0 <= j < i ==> s@[j] != x,
        decreases s@.len() - i,
    {
        if s[i] == x {
            return true;
        }
        i = i + 1;
    }
    false
}

} // verus!
