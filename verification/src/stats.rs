//! Derived statistics over the adjacency structure: the degree
//! distribution, presented in strictly descending degree order, and the
//! exact average degree as a (sum, vertex count) pair.

use vstd::prelude::*;
use crate::graph::Graph;
use crate::graph::adjacency;
use crate::graph::max_id;
use crate::graph::clean_data;

verus! {

/// The vertices of `g` whose neighbor set has exactly `d` elements.
pub open spec fn verts_with_degree(g: Map<u64, Set<u64>>, d: nat) -> Set<u64> {
    g.dom().filter(|v: u64| g[v].len() == d)
}

/// How many vertices of `g` have degree `d`.
pub open spec fn degree_count(g: Map<u64, Set<u64>>, d: nat) -> nat {
    verts_with_degree(g, d).len()
}

/// The total of the degrees of all vertices of `g`.
pub open spec fn degree_sum(g: Map<u64, Set<u64>>) -> nat
    decreases g.dom().len()
    when g.dom().finite()
{
    if g.dom().len() == 0 {
        0
    } else {
        let v = g.dom().choose();
        g[v].len() + degree_sum(g.remove(v))
    }
}

/// The total of the degrees of the vertices listed in `keys`.
pub open spec fn degree_sum_over(keys: Seq<u64>, g: Map<u64, Set<u64>>) -> nat
    decreases keys.len()
{
    if keys.len() == 0 {
        0
    } else {
        degree_sum_over(keys.drop_last(), g) + g[keys.last()].len()
    }
}

/// A degree total only reads the map at the listed keys.
proof fn lemma_degree_sum_over_agree(keys: Seq<u64>, g1: Map<u64, Set<u64>>, g2: Map<u64, Set<u64>>)
    requires
        forall|i: int| 0 <= i < keys.len() ==> g1[#[trigger] keys[i]] == g2[keys[i]],
    ensures
        degree_sum_over(keys, g1) == degree_sum_over(keys, g2),
    decreases keys.len(),
{
    if keys.len() > 0 {
        assert(forall|i: int| 0 <= i < keys.len() - 1 ==> keys.drop_last()[i] == keys[i]);
        lemma_degree_sum_over_agree(keys.drop_last(), g1, g2);
        assert(keys.last() == keys[keys.len() - 1]);
    }
}

/// Taking one vertex out of the total leaves the total of the rest.
proof fn lemma_degree_sum_remove(g: Map<u64, Set<u64>>, v: u64)
    requires
        g.dom().finite(),
        g.dom().contains(v),
    ensures
        degree_sum(g) == g[v].len() + degree_sum(g.remove(v)),
    decreases g.dom().len(),
{
    let w = g.dom().choose();
    assert(g.dom().len() != 0);
    assert(g.dom().contains(w));
    if w == v {
    } else {
        assert(g.remove(w).dom() =~= g.dom().remove(w));
        assert(g.remove(v).dom() =~= g.dom().remove(v));
        lemma_degree_sum_remove(g.remove(w), v);
        lemma_degree_sum_remove(g.remove(v), w);
        assert(g.remove(w).remove(v) =~= g.remove(v).remove(w));
        assert(g.remove(w)[v] == g[v]);
        assert(g.remove(v)[w] == g[w]);
    }
}

/// The total over any duplicate-free listing of the vertices is the degree
/// sum of the map itself.
pub proof fn lemma_degree_sum_enumeration(keys: Seq<u64>, g: Map<u64, Set<u64>>)
    requires
        keys.no_duplicates(),
        keys.to_set() == g.dom(),
    ensures
        degree_sum(g) == degree_sum_over(keys, g),
    decreases keys.len(),
{
    keys.unique_seq_to_set();
    if keys.len() == 0 {
        assert(g.dom().len() == 0);
    } else {
        let v = keys.last();
        assert(keys.contains(v));
        assert(g.dom().contains(v));
        lemma_degree_sum_remove(g, v);
        let rest = keys.drop_last();
        assert(forall|i: int| 0 <= i < rest.len() ==> rest[i] == keys[i]);
        assert(rest.no_duplicates());
        assert forall|y: u64| rest.to_set().contains(y) <==> g.remove(v).dom().contains(y) by {
            if rest.to_set().contains(y) {
                let i = choose|i: int| 0 <= i < rest.len() && rest[i] == y;
                assert(keys[i] == y);
                assert(keys.to_set().contains(y));
                assert(y != v);
            }
            if g.remove(v).dom().contains(y) {
                assert(keys.to_set().contains(y));
                let i = choose|i: int| 0 <= i < keys.len() && keys[i] == y;
                assert(i < keys.len() - 1);
                assert(rest[i] == y);
                assert(rest.contains(y));
            }
        }
        assert(rest.to_set() =~= g.remove(v).dom());
        lemma_degree_sum_enumeration(rest, g.remove(v));
        assert(forall|i: int| 0 <= i < rest.len() ==> g.remove(v)[#[trigger] rest[i]] == g[rest[i]]);
        lemma_degree_sum_over_agree(rest, g.remove(v), g);
    }
}

/// The vertices among `seen` whose neighbor set in `g` has `d` elements.
spec fn seen_with_degree(g: Map<u64, Set<u64>>, seen: Set<u64>, d: nat) -> Set<u64> {
    seen.filter(|v: u64| g[v].len() == d)
}

/// Seeing one more vertex bumps exactly the count of its own degree.
proof fn lemma_seen_insert(g: Map<u64, Set<u64>>, seen: Set<u64>, v: u64, d: nat)
    requires
        seen.finite(),
        !seen.contains(v),
    ensures
        g[v].len() == d ==> seen_with_degree(g, seen.insert(v), d).len() == seen_with_degree(
            g,
            seen,
            d,
        ).len() + 1,
        g[v].len() != d ==> seen_with_degree(g, seen.insert(v), d) == seen_with_degree(g, seen, d),
        seen_with_degree(g, seen, d).finite(),
        seen_with_degree(g, seen, d).len() <= seen.len(),
{
    seen.lemma_len_filter(|x: u64| g[x].len() == d);
    if g[v].len() == d {
        assert(seen_with_degree(g, seen.insert(v), d) =~= seen_with_degree(g, seen, d).insert(v));
        assert(!seen_with_degree(g, seen, d).contains(v));
    } else {
        assert(seen_with_degree(g, seen.insert(v), d) =~= seen_with_degree(g, seen, d));
    }
}

/// The degree distribution of `g`: every degree that occurs, paired with
/// the number of vertices having it, ordered by degree strictly descending.
#[verifier::loop_isolation(false)]
pub fn degree_distribution(g: &Graph) -> (dist: Vec<(usize, usize)>)
    requires
        g.wf(),
    ensures
        forall|k1: int, k2: int|
            0 <= k1 < k2 < dist@.len() ==> (#[trigger] dist@[k1]).0 > (#[trigger] dist@[k2]).0,
        forall|k: int|
            0 <= k < dist@.len() ==> (#[trigger] dist@[k]).1 == degree_count(g@, dist@[k].0 as nat)
                && dist@[k].1 > 0,
        forall|d: nat|
            #[trigger] degree_count(g@, d) > 0 ==> exists|k: int|
                0 <= k < dist@.len() && (#[trigger] dist@[k]).0 == d,
{
    let vs = g.vertices();
    proof {
        vs@.unique_seq_to_set();
    }
    let mut dist: Vec<(usize, usize)> = Vec::new();
    let mut i: usize = 0;
    while i < vs.len()
        invariant
            0 <= i <= vs@.len(),
            forall|k1: int, k2: int|
                0 <= k1 < k2 < dist@.len() ==> (#[trigger] dist@[k1]).0 > (#[trigger] dist@[k2]).0,
            forall|k: int|
                0 <= k < dist@.len() ==> (#[trigger] dist@[k]).1 == seen_with_degree(
                    g@,
                    vs@.take(i as int).to_set(),
                    dist@[k].0 as nat,
                ).len() && dist@[k].1 > 0,
            forall|j: int|
                0 <= j < i ==> exists|k: int|
                    0 <= k < dist@.len() && (#[trigger] dist@[k]).0 == g@[#[trigger] vs@[j]].len(),
        decreases vs@.len() - i,
    {
        let v = vs[i];
        let d = g.degree(v);
        let ghost seen0 = vs@.take(i as int).to_set();
        let ghost seen1 = vs@.take(i + 1).to_set();
        let ghost dist0 = dist@;
        proof {
            assert(vs@.take(i + 1) =~= vs@.take(i as int).push(v));
            vs@.take(i as int).lemma_push_to_set_commute(v);
            assert(seen1 =~= seen0.insert(v));
            assert(!seen0.contains(v)) by {
                if seen0.contains(v) {
                    let j = choose|j: int| 0 <= j < i && vs@.take(i as int)[j] == v;
                    assert(vs@[j] == vs@[i as int]);
                }
            }
            assert(forall|p: int, q: int|
                0 <= p < q < i ==> vs@.take(i as int)[p] != vs@.take(i as int)[q]);
            vs@.take(i as int).unique_seq_to_set();
            assert(seen0.finite() && seen0.len() == i);
            assert(vs@.contains(v));
            assert(g@.dom().contains(v));
        }
        let mut pos: usize = 0;
        while pos < dist.len() && dist[pos].0 > d
            invariant
                0 <= pos <= dist@.len(),
                forall|k: int| 0 <= k < pos ==> (#[trigger] dist@[k]).0 > d,
            decreases dist@.len() - pos,
        {
            pos = pos + 1;
        }
        if pos < dist.len() && dist[pos].0 == d {
            let c = dist[pos].1;
            proof {
                lemma_seen_insert(g@, seen0, v, d as nat);
                assert(c <= seen0.len());
            }
            dist[pos] = (d, c + 1);
            proof {
                assert(dist@[pos as int].0 == dist0[pos as int].0);
                assert forall|k: int| 0 <= k < dist@.len() implies (#[trigger] dist@[k]).1
                    == seen_with_degree(g@, seen1, dist@[k].0 as nat).len() && dist@[k].1 > 0 by {
                    lemma_seen_insert(g@, seen0, v, dist@[k].0 as nat);
                    if k != pos {
                        assert(dist@[k] == dist0[k]);
                        assert(dist@[k].0 != d);
                    }
                }
                assert forall|j: int| 0 <= j < i + 1 implies exists|k: int|
                    0 <= k < dist@.len() && (#[trigger] dist@[k]).0 == g@[#[trigger] vs@[j]].len() by {
                    if j == i {
                        assert(dist@[pos as int].0 == g@[vs@[j]].len());
                    } else {
                        let k0 = choose|k: int|
                            0 <= k < dist0.len() && (#[trigger] dist0[k]).0 == g@[vs@[j]].len();
                        assert(dist@[k0].0 == g@[vs@[j]].len());
                    }
                }
            }
        } else {
            proof {
                // No entry carries `d`, so no seen vertex has that degree.
                assert(pos < dist0.len() ==> dist0[pos as int].0 < d);
                assert(forall|k: int| 0 <= k < dist0.len() ==> (#[trigger] dist0[k]).0 != d);
                assert(seen_with_degree(g@, seen0, d as nat) =~= Set::<u64>::empty()) by {
                    if exists|y: u64| seen_with_degree(g@, seen0, d as nat).contains(y) {
                        let y = choose|y: u64| seen_with_degree(g@, seen0, d as nat).contains(y);
                        let j = choose|j: int| 0 <= j < i && vs@.take(i as int)[j] == y;
                        assert(vs@[j] == y);
                        assert(g@[vs@[j]].len() == d);
                        let k = choose|k: int|
                            0 <= k < dist0.len() && (#[trigger] dist0[k]).0 == g@[vs@[j]].len();
                        assert(false);
                    }
                }
                lemma_seen_insert(g@, seen0, v, d as nat);
            }
            dist.insert(pos, (d, 1));
            proof {
                assert(dist@ == dist0.insert(pos as int, (d, 1usize)));
                assert(forall|k: int| 0 <= k < pos ==> dist@[k] == dist0[k]);
                assert(forall|k: int| pos < k < dist@.len() ==> dist@[k] == dist0[k - 1]);
                assert(dist@[pos as int] == (d, 1usize));
                assert forall|k1: int, k2: int| 0 <= k1 < k2 < dist@.len() implies (
                #[trigger] dist@[k1]).0 > (#[trigger] dist@[k2]).0 by {
                    if k1 < pos && k2 > pos {
                        assert(dist0[k1].0 > d);
                        assert(dist0[k2 - 1].0 < d);
                    }
                }
                assert forall|k: int| 0 <= k < dist@.len() implies (#[trigger] dist@[k]).1
                    == seen_with_degree(g@, seen1, dist@[k].0 as nat).len() && dist@[k].1 > 0 by {
                    lemma_seen_insert(g@, seen0, v, dist@[k].0 as nat);
                    if k != pos {
                        assert(dist@[k].0 != d);
                    }
                }
                assert forall|j: int| 0 <= j < i + 1 implies exists|k: int|
                    0 <= k < dist@.len() && (#[trigger] dist@[k]).0 == g@[#[trigger] vs@[j]].len() by {
                    if j == i {
                        assert(dist@[pos as int].0 == g@[vs@[j]].len());
                    } else {
                        let k0 = choose|k: int|
                            0 <= k < dist0.len() && (#[trigger] dist0[k]).0 == g@[vs@[j]].len();
                        if k0 < pos {
                            assert(dist@[k0].0 == g@[vs@[j]].len());
                        } else {
                            assert(dist@[k0 + 1].0 == g@[vs@[j]].len());
                        }
                    }
                }
            }
        }
        i = i + 1;
    }
    proof {
        assert(vs@.take(vs@.len() as int) =~= vs@);
        assert(vs@.to_set() == g@.dom());
        assert forall|d: nat| #[trigger] degree_count(g@, d) > 0 implies exists|k: int|
            0 <= k < dist@.len() && (#[trigger] dist@[k]).0 == d by {
            let vd = verts_with_degree(g@, d).choose();
            assert(verts_with_degree(g@, d).contains(vd));
            assert(vs@.to_set().contains(vd));
            let j = choose|j: int| 0 <= j < vs@.len() && vs@[j] == vd;
            assert(g@[vs@[j]].len() == d);
        }
    }
    dist
}

/// The exact average degree of `g` as a (degree total, vertex count) pair,
/// or `None` when no edge touched any vertex: with zero vertices the
/// average is undefined, and the caller must present it as such rather
/// than as a number.
#[verifier::loop_isolation(false)]
pub fn average_degree(g: &Graph) -> (r: Option<(u128, usize)>)
    requires
        g.wf(),
    ensures
        r is Some <==> g@.dom().len() > 0,
        r matches Some((total, count)) ==> total == degree_sum(g@) && count == g@.dom().len(),
{
    let vs = g.vertices();
    proof {
        vs@.unique_seq_to_set();
    }
    if vs.len() == 0 {
        return None;
    }
    let mut sum: u128 = 0;
    let mut i: usize = 0;
    while i < vs.len()
        invariant
            0 <= i <= vs@.len(),
            sum == degree_sum_over(vs@.take(i as int), g@),
            sum <= (i as u128) * 0xffff_ffff_ffff_ffffu128,
        decreases vs@.len() - i,
    {
        let v = vs[i];
        let d = g.degree(v);
        proof {
            assert(vs@.take(i + 1).drop_last() =~= vs@.take(i as int));
            assert(vs@.take(i + 1).last() == v);
            assert(vs@.contains(v));
            assert(g@.dom().contains(v));
            assert(d as u128 <= 0xffff_ffff_ffff_ffffu128);
        }
        sum = sum + (d as u128);
        i = i + 1;
    }
    proof {
        assert(vs@.take(vs@.len() as int) =~= vs@);
        lemma_degree_sum_enumeration(vs@, g@);
    }
    Some((sum, vs.len()))
}

/// Everything the pipeline reports to its caller, in reporting order.
pub struct GraphStats {
    /// The largest vertex id seen plus one.
    pub vertex_count: usize,
    /// The raw number of input pairs, duplicates included.
    pub edge_count: usize,
    /// Degrees and how many vertices have each, degree strictly descending.
    pub distribution: Vec<(usize, usize)>,
    /// Exact average degree as (degree total, vertex count); `None` means
    /// the average is undefined because no edge touched any vertex.
    pub average: Option<(u128, usize)>,
}

/// Runs the whole pipeline over a parsed edge list.
pub fn compute_stats(edges: &Vec<(u64, u64)>) -> (st: GraphStats)
    requires
        max_id(edges@) < usize::MAX,
    ensures
        st.vertex_count == max_id(edges@) + 1,
        st.edge_count == edges@.len(),
        forall|k1: int, k2: int|
            0 <= k1 < k2 < st.distribution@.len() ==> (#[trigger] st.distribution@[k1]).0 > (
            #[trigger] st.distribution@[k2]).0,
        forall|k: int|
            0 <= k < st.distribution@.len() ==> (#[trigger] st.distribution@[k]).1 == degree_count(
                adjacency(edges@),
                st.distribution@[k].0 as nat,
            ) && st.distribution@[k].1 > 0,
        forall|d: nat|
            #[trigger] degree_count(adjacency(edges@), d) > 0 ==> exists|k: int|
                0 <= k < st.distribution@.len() && (#[trigger] st.distribution@[k]).0 == d,
        st.average is Some <==> adjacency(edges@).dom().len() > 0,
        st.average matches Some((total, count)) ==> total == degree_sum(adjacency(edges@)) && count
            == adjacency(edges@).dom().len(),
{
    let (g, vertex_count) = clean_data(edges);
    let distribution = degree_distribution(&g);
    let average = average_degree(&g);
    GraphStats { vertex_count, edge_count: edges.len(), distribution, average }
}

} // verus!
