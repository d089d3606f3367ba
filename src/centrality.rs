//! The centrality metrics.

use std::collections::HashMap;
use vstd::prelude::*;
use crate::graph::{Graph, nbrs, node_ids};

verus! {

broadcast use vstd::std_specs::hash::group_hash_axioms;

/// Maps each node of `graph` to the length of its neighbor list.
pub fn degree_centrality(graph: &Graph) -> (degrees: HashMap<usize, usize>)
    ensures
        degrees@.dom() == graph@.dom(),
        forall|u: usize| #[trigger] graph@.contains_key(u) ==> degrees@[u] == graph@[u]@.len(),
{
    let ids = node_ids(graph);
    let mut degrees: HashMap<usize, usize> = HashMap::new();
    for i in 0..ids.len()
        invariant
            ids@.to_set() == graph@.dom(),
            degrees@.dom() == ids@.take(i as int).to_set(),
            forall|u: usize| #[trigger] degrees@.contains_key(u) ==> graph@.contains_key(u)
                && degrees@[u] == graph@[u]@.len(),
    {
        let u = ids[i];
        assert(ids@.to_set().contains(ids@[i as int]));
        let nb = graph.get(&u).unwrap();
        degrees.insert(u, nb.len());
        assert(ids@.take(i + 1) == ids@.take(i as int).push(u));
        assert(degrees@.dom() =~= ids@.take(i + 1).to_set()) by {
            ids@.take(i as int).lemma_push_to_set_commute(u);
        }
    }
    assert(ids@.take(ids.len() as int) == ids@);
    degrees
}

/// `d` is the hop-distance map of `g` from `s`: it holds `s` at distance 0,
/// every neighbor of a node it holds lies at most one hop further, and every
/// other node it holds is one hop beyond some node it holds.
pub open spec fn is_distance_map(g: Map<usize, Vec<usize>>, s: usize, d: Map<usize, usize>) -> bool {
    &&& d.contains_key(s)
    &&& d[s] == 0
    &&& forall|u: usize, i: int|
        d.contains_key(u) && 0 <= i < nbrs(g, u).len() ==> {
            &&& d.contains_key(#[trigger] nbrs(g, u)[i])
            &&& d[nbrs(g, u)[i]] <= d[u] + 1
        }
    &&& forall|v: usize|
        #[trigger] d.contains_key(v) && v != s ==> exists|u: usize|
            #[trigger] d.contains_key(u) && nbrs(g, u).contains(v) && d[u] + 1 == d[v]
}

proof fn lemma_distance_map_le(
    g: Map<usize, Vec<usize>>,
    s: usize,
    d1: Map<usize, usize>,
    d2: Map<usize, usize>,
    v: usize,
)
    requires
        is_distance_map(g, s, d1),
        is_distance_map(g, s, d2),
        d2.contains_key(v),
    ensures
        d1.contains_key(v),
        d1[v] <= d2[v],
    decreases d2[v],
{
    if v != s {
        let u = choose|u: usize| #[trigger] d2.contains_key(u) && nbrs(g, u).contains(v) && d2[u] + 1 == d2[v];
        lemma_distance_map_le(g, s, d1, d2, u);
        let i = choose|i: int| 0 <= i < nbrs(g, u).len() && nbrs(g, u)[i] == v;
        assert(d1.contains_key(nbrs(g, u)[i]));
    }
}

/// A graph and a source have exactly one distance map: whatever satisfies
/// `is_distance_map` is the map of shortest hop counts.
pub proof fn lemma_distance_map_unique(
    g: Map<usize, Vec<usize>>,
    s: usize,
    d1: Map<usize, usize>,
    d2: Map<usize, usize>,
)
    requires
        is_distance_map(g, s, d1),
        is_distance_map(g, s, d2),
    ensures
        d1 == d2,
{
    assert forall|v: usize| d2.contains_key(v) implies d1.contains_key(v) && d1[v] == d2[v] by {
        lemma_distance_map_le(g, s, d1, d2, v);
        lemma_distance_map_le(g, s, d2, d1, v);
    }
    assert forall|v: usize| d1.contains_key(v) implies d2.contains_key(v) by {
        lemma_distance_map_le(g, s, d2, d1, v);
    }
    assert(d1 =~= d2);
}

/// The distance map of `g` from `s` (the one map that `is_distance_map` admits).
pub open spec fn distances(g: Map<usize, Vec<usize>>, s: usize) -> Map<usize, usize> {
    choose|d: Map<usize, usize>| is_distance_map(g, s, d)
}

proof fn lemma_distances_choose(g: Map<usize, Vec<usize>>, s: usize, d: Map<usize, usize>)
    requires
        is_distance_map(g, s, d),
    ensures
        distances(g, s) == d,
{
    assert(exists|e: Map<usize, usize>| is_distance_map(g, s, e)) by {
        assert(is_distance_map(g, s, d));
    }
    lemma_distance_map_unique(g, s, d, distances(g, s));
}

/// Breadth-first search from `start`: the hop distance to every node reachable
/// from it, and no entry for any other node.
pub fn bfs_shortest_paths(graph: &Graph, start: usize) -> (dist: HashMap<usize, usize>)
    ensures
        is_distance_map(graph@, start, dist@),
        dist@ == distances(graph@, start),
{
    let (dist, _order) = bfs_with_order(graph, start);
    dist
}

/// Breadth-first search from `start` that also gives the order in which the
/// nodes were finalized: each reached node once, by nondecreasing distance.
fn bfs_with_order(graph: &Graph, start: usize) -> (r: (HashMap<usize, usize>, Vec<usize>))
    ensures
        is_distance_map(graph@, start, r.0@),
        r.0@ == distances(graph@, start),
        r.1@.to_set() == r.0@.dom(),
        r.1@.no_duplicates(),
        r.1@[0] == start,
        forall|i: int, j: int| 0 <= i <= j < r.1@.len() ==> r.0@[#[trigger] r.1@[i]] <= r.0@[#[trigger] r.1@[j]],
{
    let mut dist: HashMap<usize, usize> = HashMap::new();
    let mut order: Vec<usize> = Vec::new();
    let ghost mut parent: Map<usize, usize> = Map::empty();
    dist.insert(start, 0);
    order.push(start);
    assert(order@.to_set() =~= set![start]) by {
        assert(order@[0] == start);
        assert(order@.contains(start));
        assert forall|x: usize| order@.contains(x) implies x == start by {
            let i = choose|i: int| 0 <= i < order@.len() && order@[i] == x;
            assert(i == 0);
        }
    }
    assert(dist@.dom() =~= set![start]);
    let mut head: usize = 0;
    while head < order.len()
        invariant
            head <= order@.len(),
            order@.len() >= 1,
            order@[0] == start,
            order@.no_duplicates(),
            dist@.dom() == order@.to_set(),
            dist@.contains_key(start),
            dist@[start] == 0,
            forall|i: int| 0 <= i < order@.len() ==> dist@[#[trigger] order@[i]] <= i,
            forall|i: int, j: int|
                0 <= i <= j < order@.len() ==> dist@[#[trigger] order@[i]] <= dist@[#[trigger] order@[j]],
            head < order@.len() ==> dist@[order@[order@.len() - 1]] <= dist@[order@[head as int]] + 1,
            forall|i: int, k: int|
                0 <= i < head && 0 <= k < nbrs(graph@, order@[i]).len() ==> {
                    &&& dist@.contains_key(#[trigger] nbrs(graph@, order@[i])[k])
                    &&& dist@[nbrs(graph@, order@[i])[k]] <= dist@[order@[i]] + 1
                },
            forall|v: usize|
                #[trigger] dist@.contains_key(v) && v != start ==> {
                    &&& parent.contains_key(v)
                    &&& dist@.contains_key(parent[v])
                    &&& nbrs(graph@, parent[v]).contains(v)
                    &&& dist@[parent[v]] + 1 == dist@[v]
                },
        decreases usize::MAX - head,
    {
        let u = order[head];
        assert(order@.to_set().contains(order@[head as int]));
        let d: usize = *dist.get(&u).unwrap();
        let ghost len0 = order@.len();
        let ghost order0 = order@;
        let ghost dist0 = dist@;
        let empty: Vec<usize> = Vec::new();
        let nb: &Vec<usize> = match graph.get(&u) {
            Some(nb) => nb,
            None => &empty,
        };
        assert(nb@ == nbrs(graph@, u));
        for j in 0..nb.len()
            invariant
                head < order@.len(),
                head < usize::MAX,
                order@.len() >= 1,
                order@[0] == start,
                order@[head as int] == u,
                d == dist@[u],
                d <= head,
                nb@ == nbrs(graph@, u),
                len0 <= order@.len(),
                order@.subrange(0, len0 as int) == order0,
                forall|v: usize| #[trigger] dist0.contains_key(v) ==> dist@.contains_key(v) && dist@[v] == dist0[v],
                order@.no_duplicates(),
                dist@.dom() == order@.to_set(),
                dist@.contains_key(start),
                dist@[start] == 0,
                forall|i: int| 0 <= i < order@.len() ==> dist@[#[trigger] order@[i]] <= i,
                forall|i: int, j: int|
                    0 <= i <= j < order@.len() ==> dist@[#[trigger] order@[i]] <= dist@[#[trigger] order@[j]],
                dist@[order@[order@.len() - 1]] <= d + 1,
                forall|i: int, k: int|
                    0 <= i < head && 0 <= k < nbrs(graph@, order@[i]).len() ==> {
                        &&& dist@.contains_key(#[trigger] nbrs(graph@, order@[i])[k])
                        &&& dist@[nbrs(graph@, order@[i])[k]] <= dist@[order@[i]] + 1
                    },
                forall|k: int| 0 <= k < j ==> {
                    &&& dist@.contains_key(#[trigger] nb@[k])
                    &&& dist@[nb@[k]] <= d + 1
                },
                forall|v: usize|
                    #[trigger] dist@.contains_key(v) && v != start ==> {
                        &&& parent.contains_key(v)
                        &&& dist@.contains_key(parent[v])
                        &&& nbrs(graph@, parent[v]).contains(v)
                        &&& dist@[parent[v]] + 1 == dist@[v]
                    },
        {
            let w = nb[j];
            if !dist.contains_key(&w) {
                let ghost pre = order@;
                let ghost pre_dist = dist@;
                assert(!order@.contains(w));
                dist.insert(w, d + 1);
                order.push(w);
                proof {
                    parent = parent.insert(w, u);
                    assert(nb@[j as int] == w);
                    pre.lemma_push_to_set_commute(w);
                    assert(dist@.dom() =~= order@.to_set());
                    assert forall|i: int, k: int|
                        0 <= i <= k < order@.len() implies dist@[#[trigger] order@[i]] <= dist@[#[trigger] order@[k]] by {
                        if k == pre.len() && i < k {
                            assert(pre_dist[pre[i]] <= pre_dist[pre[pre.len() - 1]]);
                        }
                    }
                    assert(order@.subrange(0, len0 as int) =~= order0);
                }
            }
        }
        head = head + 1;
    }
    proof {
        assert forall|v: usize| #[trigger] dist@.contains_key(v) && v != start implies exists|p: usize|
            #[trigger] dist@.contains_key(p) && nbrs(graph@, p).contains(v) && dist@[p] + 1 == dist@[v] by {
            assert(dist@.contains_key(parent[v]));
        }
        assert forall|x: usize, k: int|
            dist@.contains_key(x) && 0 <= k < nbrs(graph@, x).len() implies {
                &&& dist@.contains_key(#[trigger] nbrs(graph@, x)[k])
                &&& dist@[nbrs(graph@, x)[k]] <= dist@[x] + 1
            } by {
            assert(order@.to_set().contains(x));
            let i = choose|i: int| 0 <= i < order@.len() && order@[i] == x;
            assert(nbrs(graph@, order@[i])[k] == nbrs(graph@, x)[k]);
        }
        lemma_distances_choose(graph@, start, dist@);
    }
    (dist, order)
}

/// The sum of the hop counts in a distance map.
pub open spec fn distance_sum(d: Map<usize, usize>) -> int {
    d.dom().fold(0int, |acc: int, k: usize| acc + d[k])
}

/// The sum of the hop counts in a distance map, where it fits in a `usize`.
pub open spec fn total_of(d: Map<usize, usize>) -> Option<usize> {
    if distance_sum(d) <= usize::MAX {
        Some(distance_sum(d) as usize)
    } else {
        None
    }
}

/// The sum of the distances in `dist`; `None` where it exceeds `usize::MAX`.
pub fn total_distance(dist: &HashMap<usize, usize>) -> (r: Option<usize>)
    ensures
        r == total_of(dist@),
{
    let ids = node_ids(dist);
    let ghost f = |acc: int, k: usize| acc + dist@[k];
    let ghost mut total: int = 0;
    let mut capped: u128 = 0;
    let cap: u128 = usize::MAX as u128 + 1;
    assert(ids@.take(0).to_set() =~= Set::<usize>::empty());
    proof {
        vstd::set::fold::lemma_fold_empty(0int, f);
        assert(vstd::set::fold::is_fun_commutative(f));
    }
    for i in 0..ids.len()
        invariant
            ids@.to_set() == dist@.dom(),
            ids@.no_duplicates(),
            cap == usize::MAX + 1,
            vstd::set::fold::is_fun_commutative(f),
            f == (|acc: int, k: usize| acc + dist@[k]),
            total == ids@.take(i as int).to_set().fold(0int, f),
            total >= 0,
            capped as int == if total < cap { total } else { cap as int },
    {
        let k = ids[i];
        assert(ids@.to_set().contains(ids@[i as int]));
        let v: usize = *dist.get(&k).unwrap();
        proof {
            let pre = ids@.take(i as int);
            assert(ids@.take(i + 1) == pre.push(k));
            pre.lemma_push_to_set_commute(k);
            assert(!pre.contains(k)) by {
                if pre.contains(k) {
                    let j = choose|j: int| 0 <= j < pre.len() && pre[j] == k;
                    assert(ids@[j] == ids@[i as int]);
                }
            }
            vstd::set::fold::lemma_fold_insert(pre.to_set(), 0int, f, k);
            total = total + v;
        }
        let sum: u128 = capped + v as u128;
        capped = if sum < cap { sum } else { cap };
    }
    assert(ids@.take(ids.len() as int) == ids@);
    if capped < cap {
        Some(capped as usize)
    } else {
        None
    }
}

/// Maps each node of `graph` to the sum of its hop distances to every node
/// reachable from it, or to `None` where that sum exceeds `usize::MAX`.
pub fn closeness_totals(graph: &Graph) -> (totals: HashMap<usize, Option<usize>>)
    ensures
        totals@.dom() == graph@.dom(),
        forall|u: usize| #[trigger] graph@.contains_key(u) ==> totals@[u] == total_of(distances(graph@, u)),
{
    let ids = node_ids(graph);
    let mut totals: HashMap<usize, Option<usize>> = HashMap::new();
    for i in 0..ids.len()
        invariant
            ids@.to_set() == graph@.dom(),
            totals@.dom() == ids@.take(i as int).to_set(),
            forall|u: usize| #[trigger] totals@.contains_key(u) ==> graph@.contains_key(u)
                && totals@[u] == total_of(distances(graph@, u)),
    {
        let u = ids[i];
        assert(ids@.to_set().contains(ids@[i as int]));
        let dist = bfs_shortest_paths(graph, u);
        let t = total_distance(&dist);
        totals.insert(u, t);
        assert(ids@.take(i + 1) == ids@.take(i as int).push(u));
        assert(totals@.dom() =~= ids@.take(i + 1).to_set()) by {
            ids@.take(i as int).lemma_push_to_set_commute(u);
        }
    }
    assert(ids@.take(ids.len() as int) == ids@);
    totals
}

/// The sum of `sigma` over the nodes of `preds`, counted with repetition.
pub open spec fn count_sum(preds: Seq<usize>, sigma: Map<usize, u64>) -> int
    decreases preds.len(),
{
    if preds.len() == 0 {
        0
    } else {
        count_sum(preds.drop_last(), sigma) + sigma[preds.last()]
    }
}

proof fn lemma_count_sum_agree(preds: Seq<usize>, s1: Map<usize, u64>, s2: Map<usize, u64>)
    requires
        forall|k: int| 0 <= k < preds.len() ==> s1[#[trigger] preds[k]] == s2[preds[k]],
    ensures
        count_sum(preds, s1) == count_sum(preds, s2),
    decreases preds.len(),
{
    if preds.len() > 0 {
        lemma_count_sum_agree(preds.drop_last(), s1, s2);
        assert(s1[preds[preds.len() - 1]] == s2[preds[preds.len() - 1]]);
    }
}

/// How many times `x` occurs in `s`.
pub open spec fn occurrences(s: Seq<usize>, x: usize) -> nat
    decreases s.len(),
{
    if s.len() == 0 {
        0
    } else {
        occurrences(s.drop_last(), x) + if s.last() == x { 1nat } else { 0nat }
    }
}

proof fn lemma_occurrences_push(s: Seq<usize>, x: usize, y: usize)
    ensures
        occurrences(s.push(x), y) == occurrences(s, y) + if x == y { 1nat } else { 0nat },
{
    assert(s.push(x).drop_last() =~= s);
}

proof fn lemma_occurrences_take(s: Seq<usize>, j: int, y: usize)
    requires
        0 <= j < s.len(),
    ensures
        occurrences(s.take(j + 1), y) == occurrences(s.take(j), y) + if s[j] == y { 1nat } else { 0nat },
{
    assert(s.take(j + 1).drop_last() =~= s.take(j));
}

/// The shortest-path structure from one source that Brandes' accumulation
/// pass walks backwards.
pub struct ShortestPathDag {
    /// The reached nodes in the order the search finalized them.
    pub order: Vec<usize>,
    /// Hop distance of each reached node.
    pub dist: HashMap<usize, usize>,
    /// Number of shortest paths from the source to each reached node.
    pub sigma: HashMap<usize, u64>,
    /// The immediate predecessors of each reached node on its shortest paths.
    pub pred: HashMap<usize, Vec<usize>>,
}

/// `dag` is the shortest-path structure of `g` from `s`.
pub open spec fn is_shortest_path_dag(g: Map<usize, Vec<usize>>, s: usize, dag: ShortestPathDag) -> bool {
    let order = dag.order@;
    let dist = dag.dist@;
    let sigma = dag.sigma@;
    let pred = dag.pred@;
    &&& is_distance_map(g, s, dist)
    &&& dist == distances(g, s)
    &&& order.to_set() == dist.dom()
    &&& order.no_duplicates()
    &&& order[0] == s
    &&& forall|i: int, j: int| 0 <= i <= j < order.len() ==> dist[#[trigger] order[i]] <= dist[#[trigger] order[j]]
    &&& sigma.dom() == dist.dom()
    &&& pred.dom() == dist.dom()
    &&& sigma[s] == 1
    &&& pred[s]@.len() == 0
    &&& forall|w: usize| #[trigger] pred.contains_key(w) && w != s ==> sigma[w] == count_sum(pred[w]@, sigma)
    &&& forall|w: usize, k: int|
        pred.contains_key(w) && 0 <= k < pred[w]@.len() ==> {
            let v = #[trigger] pred[w]@[k];
            &&& dist.contains_key(v)
            &&& dist[v] + 1 == dist[w]
            &&& nbrs(g, v).contains(w)
        }
    &&& forall|v: usize, k: int|
        dist.contains_key(v) && 0 <= k < nbrs(g, v).len() && dist[#[trigger] nbrs(g, v)[k]] == dist[v] + 1
            ==> pred[nbrs(g, v)[k]]@.contains(v)
    &&& forall|w: usize, v: usize|
        pred.contains_key(w) ==> #[trigger] occurrences(pred[w]@, v) == if dist.contains_key(v) && dist[v] + 1
            == dist[w] {
            occurrences(nbrs(g, v), w)
        } else {
            0
        }
}

/// Each node other than `s` holds as its count the sum of its predecessors' counts.
#[verifier::opaque]
spec fn counts_ok(s: usize, sigma: Map<usize, u64>, pred: Map<usize, Vec<usize>>) -> bool {
    forall|w: usize| #[trigger] pred.contains_key(w) && w != s ==> sigma[w] == count_sum(pred[w]@, sigma)
}

/// Each recorded predecessor is a node one hop closer to the source, at
/// distance at most `bound`.
#[verifier::opaque]
spec fn preds_ok(g: Map<usize, Vec<usize>>, dist: Map<usize, usize>, pred: Map<usize, Vec<usize>>, bound: int) -> bool {
    forall|w: usize, k: int|
        pred.contains_key(w) && 0 <= k < pred[w]@.len() ==> {
            let v = #[trigger] pred[w]@[k];
            &&& dist.contains_key(v)
            &&& dist[v] + 1 == dist[w]
            &&& nbrs(g, v).contains(w)
            &&& dist[v] <= bound
        }
}

/// Every edge out of the first `h` nodes of `order` that leads one hop further
/// has been recorded as a predecessor.
#[verifier::opaque]
spec fn scanned(g: Map<usize, Vec<usize>>, dist: Map<usize, usize>, pred: Map<usize, Vec<usize>>, order: Seq<usize>, h: int) -> bool {
    forall|i: int, k: int|
        0 <= i < h && 0 <= k < nbrs(g, order[i]).len()
            && dist[#[trigger] nbrs(g, order[i])[k]] == dist[order[i]] + 1
            ==> pred[nbrs(g, order[i])[k]]@.contains(order[i])
}

/// Each node appears among `w`'s predecessors once for each entry of `w` in its
/// neighbor list, counting only nodes of `done` one hop closer than `w`, and
/// only the first `j` entries of `u`'s list.
#[verifier::opaque]
spec fn tallied(
    g: Map<usize, Vec<usize>>,
    dist: Map<usize, usize>,
    pred: Map<usize, Vec<usize>>,
    done: Seq<usize>,
    u: usize,
    j: int,
) -> bool {
    forall|w: usize, v: usize|
        pred.contains_key(w) ==> #[trigger] occurrences(pred[w]@, v) == if dist[v] + 1 == dist[w] {
            if done.contains(v) {
                occurrences(nbrs(g, v), w)
            } else if v == u {
                occurrences(nbrs(g, u).take(j), w)
            } else {
                0
            }
        } else {
            0
        }
}

proof fn lemma_tally_next(
    g: Map<usize, Vec<usize>>,
    dist: Map<usize, usize>,
    pred: Map<usize, Vec<usize>>,
    order: Seq<usize>,
    h: int,
)
    requires
        0 <= h < order.len(),
        order.no_duplicates(),
        tallied(g, dist, pred, order.take(h), order[h], nbrs(g, order[h]).len() as int),
    ensures
        h + 1 < order.len() ==> tallied(g, dist, pred, order.take(h + 1), order[h + 1], 0),
        tallied(g, dist, pred, order.take(h + 1), order[h], 0),
{
    reveal(tallied);
    let u = order[h];
    assert(nbrs(g, u).take(nbrs(g, u).len() as int) =~= nbrs(g, u));
    assert(order.take(h + 1) =~= order.take(h).push(u));
    let t0 = order.take(h);
    let t1 = order.take(h + 1);
    assert forall|v: usize| #[trigger] t1.contains(v) <==> (t0.contains(v) || v == u) by {
        if t1.contains(v) {
            let i = choose|i: int| 0 <= i < t1.len() && t1[i] == v;
            if i < h {
                assert(t0[i] == v);
            }
        }
        if t0.contains(v) {
            let i = choose|i: int| 0 <= i < t0.len() && t0[i] == v;
            assert(t1[i] == v);
        }
        if v == u {
            assert(t1[h] == v);
        }
    }
    assert(nbrs(g, u).take(0) =~= Seq::<usize>::empty());
    if h + 1 < order.len() {
        let x = order[h + 1];
        assert(nbrs(g, x).take(0) =~= Seq::<usize>::empty());
        assert(!t1.contains(x)) by {
            if t1.contains(x) {
                let i = choose|i: int| 0 <= i < t1.len() && t1[i] == x;
                assert(order[i] == order[h + 1]);
            }
        }
    }
}

proof fn lemma_tally_step(
    g: Map<usize, Vec<usize>>,
    dist: Map<usize, usize>,
    pred0: Map<usize, Vec<usize>>,
    pred1: Map<usize, Vec<usize>>,
    done: Seq<usize>,
    u: usize,
    j: int,
)
    requires
        0 <= j < nbrs(g, u).len(),
        !done.contains(u),
        tallied(g, dist, pred0, done, u, j),
        pred1.dom() == pred0.dom(),
        dist[nbrs(g, u)[j]] == dist[u] + 1 ==> {
            &&& forall|x: usize| x != nbrs(g, u)[j] ==> pred1[x] == pred0[x]
            &&& pred1[nbrs(g, u)[j]]@ == pred0[nbrs(g, u)[j]]@.push(u)
        },
        dist[nbrs(g, u)[j]] != dist[u] + 1 ==> pred1 == pred0,
    ensures
        tallied(g, dist, pred1, done, u, j + 1),
{
    reveal(tallied);
    let w = nbrs(g, u)[j];
    assert forall|x: usize, v: usize| pred1.contains_key(x) implies #[trigger] occurrences(pred1[x]@, v) == if dist[v] + 1 == dist[x] {
        if done.contains(v) {
            occurrences(nbrs(g, v), x)
        } else if v == u {
            occurrences(nbrs(g, u).take(j + 1), x)
        } else {
            0
        }
    } else {
        0
    } by {
        lemma_occurrences_take(nbrs(g, u), j, x);
        if dist[w] == dist[u] + 1 && x == w {
            lemma_occurrences_push(pred0[w]@, u, v);
        }
    }
}

/// Adding `u` as a predecessor of `w`, with `w`'s count raised by `u`'s, keeps
/// the counts and the predecessor lists consistent and loses no predecessor.
proof fn lemma_record_edge(
    g: Map<usize, Vec<usize>>,
    s: usize,
    dist: Map<usize, usize>,
    sigma0: Map<usize, u64>,
    pred0: Map<usize, Vec<usize>>,
    sigma1: Map<usize, u64>,
    pred1: Map<usize, Vec<usize>>,
    u: usize,
    w: usize,
    d: int,
)
    requires
        counts_ok(s, sigma0, pred0),
        preds_ok(g, dist, pred0, d),
        sigma0.dom() == dist.dom(),
        pred0.dom() == dist.dom(),
        dist.contains_key(s),
        dist[s] == 0,
        dist.contains_key(u),
        dist[u] == d,
        dist.contains_key(w),
        dist[w] == d + 1,
        nbrs(g, u).contains(w),
        pred1.dom() == pred0.dom(),
        forall|x: usize| x != w ==> pred1[x] == pred0[x],
        pred1[w]@ == pred0[w]@.push(u),
        sigma1 == sigma0.insert(w, sigma1[w]),
        sigma1[w] == sigma0[w] + sigma0[u],
    ensures
        counts_ok(s, sigma1, pred1),
        preds_ok(g, dist, pred1, d),
        forall|x: usize, v: usize| #[trigger] pred0[x]@.contains(v) ==> pred1[x]@.contains(v),
        pred1[w]@.contains(u),
{
    reveal(counts_ok);
    reveal(preds_ok);
    assert forall|x: usize| #[trigger] pred1.contains_key(x) && x != s implies
        sigma1[x] == count_sum(pred1[x]@, sigma1) by {
        assert forall|k: int| 0 <= k < pred0[x]@.len() implies
            sigma0[#[trigger] pred0[x]@[k]] == sigma1[pred0[x]@[k]] by {
        }
        lemma_count_sum_agree(pred0[x]@, sigma0, sigma1);
        if x == w {
            assert(pred1[w]@.drop_last() =~= pred0[w]@);
        }
    }
    assert forall|x: usize, k: int| pred1.contains_key(x) && 0 <= k < pred1[x]@.len() implies {
        let v = #[trigger] pred1[x]@[k];
        &&& dist.contains_key(v)
        &&& dist[v] + 1 == dist[x]
        &&& nbrs(g, v).contains(x)
        &&& dist[v] <= d
    } by {
        if x != w || k < pred1[x]@.len() - 1 {
            assert(pred0[x]@[k] == pred1[x]@[k]);
        }
    }
    assert forall|x: usize, v: usize| #[trigger] pred0[x]@.contains(v) implies pred1[x]@.contains(v) by {
        let m = choose|m: int| 0 <= m < pred0[x]@.len() && pred0[x]@[m] == v;
        assert(pred1[x]@[m] == v);
    }
    assert(pred1[w]@[pred1[w]@.len() - 1] == u);
}

proof fn lemma_scan_step(
    g: Map<usize, Vec<usize>>,
    dist: Map<usize, usize>,
    pred0: Map<usize, Vec<usize>>,
    pred1: Map<usize, Vec<usize>>,
    order: Seq<usize>,
    h: int,
)
    requires
        0 <= h < order.len(),
        scanned(g, dist, pred0, order, h),
        forall|x: usize, v: usize| #[trigger] pred0[x]@.contains(v) ==> pred1[x]@.contains(v),
        forall|k: int|
            0 <= k < nbrs(g, order[h]).len() && dist[#[trigger] nbrs(g, order[h])[k]] == dist[order[h]] + 1
                ==> pred1[nbrs(g, order[h])[k]]@.contains(order[h]),
    ensures
        scanned(g, dist, pred1, order, h + 1),
{
    reveal(scanned);
    assert forall|i: int, k: int|
        0 <= i < h + 1 && 0 <= k < nbrs(g, order[i]).len()
            && dist[#[trigger] nbrs(g, order[i])[k]] == dist[order[i]] + 1
            implies pred1[nbrs(g, order[i])[k]]@.contains(order[i]) by {
        if i < h {
            assert(pred0[nbrs(g, order[i])[k]]@.contains(order[i]));
        }
    }
}

proof fn lemma_preds_ok_weaken(
    g: Map<usize, Vec<usize>>,
    dist: Map<usize, usize>,
    pred: Map<usize, Vec<usize>>,
    b0: int,
    b1: int,
)
    requires
        preds_ok(g, dist, pred, b0),
        b0 <= b1,
    ensures
        preds_ok(g, dist, pred, b1),
{
    reveal(preds_ok);
}

proof fn lemma_occurrences_index(q: Seq<usize>, x: usize)
    requires
        occurrences(q, x) >= 1,
    ensures
        exists|k: int| 0 <= k < q.len() && q[k] == x,
    decreases q.len(),
{
    if q.last() != x {
        lemma_occurrences_index(q.drop_last(), x);
        let k = choose|k: int| 0 <= k < q.drop_last().len() && q.drop_last()[k] == x;
        assert(q[k] == x);
    } else {
        assert(q[q.len() - 1] == x);
    }
}

proof fn lemma_remove_one(q: Seq<usize>, k: int, sigma: Map<usize, u64>)
    requires
        0 <= k < q.len(),
    ensures
        forall|v: usize| #[trigger] occurrences(q.remove(k), v) + (if q[k] == v { 1int } else { 0int }) == occurrences(q, v),
        count_sum(q.remove(k), sigma) + sigma[q[k]] == count_sum(q, sigma),
    decreases q.len(),
{
    if k == q.len() - 1 {
        assert(q.remove(k) =~= q.drop_last());
        assert forall|v: usize| #[trigger] occurrences(q.remove(k), v) + (if q[k] == v { 1int } else { 0int })
            == occurrences(q, v) by {
            assert(occurrences(q, v) == occurrences(q.drop_last(), v) + if q.last() == v { 1nat } else { 0nat });
        }
    } else {
        let r = q.drop_last();
        lemma_remove_one(r, k, sigma);
        assert(q.remove(k).drop_last() =~= r.remove(k));
        assert(q.remove(k).last() == q.last());
        assert(r[k] == q[k]);
        assert forall|v: usize| #[trigger] occurrences(q.remove(k), v) + (if q[k] == v { 1int } else { 0int })
            == occurrences(q, v) by {
            assert(occurrences(q.remove(k), v) == occurrences(r.remove(k), v) + if q.last() == v { 1nat } else { 0nat });
            assert(occurrences(r.remove(k), v) + (if r[k] == v { 1int } else { 0int }) == occurrences(r, v));
        }
    }
}

proof fn lemma_count_sum_sub(p: Seq<usize>, q: Seq<usize>, sigma: Map<usize, u64>)
    requires
        forall|v: usize| occurrences(p, v) <= #[trigger] occurrences(q, v),
    ensures
        count_sum(p, sigma) <= count_sum(q, sigma),
    decreases p.len(),
{
    lemma_count_sum_nonneg(q, sigma);
    if p.len() > 0 {
        let x = p.last();
        assert(occurrences(p, x) >= 1);
        assert(occurrences(q, x) >= 1);
        lemma_occurrences_index(q, x);
        let k = choose|k: int| 0 <= k < q.len() && q[k] == x;
        lemma_remove_one(q, k, sigma);
        let q1 = q.remove(k);
        assert forall|v: usize| occurrences(p.drop_last(), v) <= #[trigger] occurrences(q1, v) by {
            assert(occurrences(p, v) <= occurrences(q, v));
            assert(occurrences(q1, v) + (if q[k] == v { 1int } else { 0int }) == occurrences(q, v));
        }
        lemma_count_sum_sub(p.drop_last(), q1, sigma);
    }
}

proof fn lemma_occurrences_prefix(q: Seq<usize>, j: int, x: usize)
    requires
        0 <= j <= q.len(),
    ensures
        occurrences(q.take(j), x) <= occurrences(q, x),
    decreases q.len(),
{
    if j < q.len() {
        assert(q.drop_last().take(j) =~= q.take(j));
        lemma_occurrences_prefix(q.drop_last(), j, x);
    } else {
        assert(q.take(j) =~= q);
    }
}

/// The counts of any valid structure agree with the ones computed so far on
/// every node no further from the source than `u`.
proof fn lemma_counts_agree(
    g: Map<usize, Vec<usize>>,
    s: usize,
    dist: Map<usize, usize>,
    order: Seq<usize>,
    sigma: Map<usize, u64>,
    pred: Map<usize, Vec<usize>>,
    h: int,
    u: usize,
    j: int,
    dag: ShortestPathDag,
    x: usize,
)
    requires
        is_shortest_path_dag(g, s, dag),
        dist == distances(g, s),
        0 <= h < order.len(),
        order[h] == u,
        order.no_duplicates(),
        order.to_set() == dist.dom(),
        forall|a: int, b: int| 0 <= a <= b < order.len() ==> dist[#[trigger] order[a]] <= dist[#[trigger] order[b]],
        sigma.dom() == dist.dom(),
        pred.dom() == dist.dom(),
        sigma[s] == 1,
        counts_ok(s, sigma, pred),
        tallied(g, dist, pred, order.take(h), u, j),
        dist.contains_key(x),
        dist[x] <= dist[u],
    ensures
        dag.sigma@[x] == sigma[x],
    decreases dist[x],
{
    reveal(counts_ok);
    reveal(tallied);
    if x != s {
        let p1 = dag.pred@[x]@;
        assert forall|k: int| 0 <= k < p1.len() implies dag.sigma@[#[trigger] p1[k]] == sigma[p1[k]] by {
            lemma_counts_agree(g, s, dist, order, sigma, pred, h, u, j, dag, p1[k]);
        }
        lemma_count_sum_agree(p1, dag.sigma@, sigma);
        assert forall|v: usize| #[trigger] occurrences(pred[x]@, v) == occurrences(p1, v) by {
            if dist.contains_key(v) && dist[v] + 1 == dist[x] {
                assert(order.to_set().contains(v));
                let a = choose|a: int| 0 <= a < order.len() && order[a] == v;
                if a >= h {
                    assert(dist[order[h]] <= dist[order[a]]);
                }
                assert(order.take(h)[a] == v);
                assert(order.take(h).contains(v));
            }
        }
        lemma_count_sum_sub(pred[x]@, p1, sigma);
        lemma_count_sum_sub(p1, pred[x]@, sigma);
    }
}

/// Where the count of `w` plus that of its new predecessor `u` exceeds
/// `u64::MAX`, no valid structure exists: its count of `w` would be at least
/// that sum.
proof fn lemma_overflow_no_dag(
    g: Map<usize, Vec<usize>>,
    s: usize,
    dist: Map<usize, usize>,
    order: Seq<usize>,
    sigma: Map<usize, u64>,
    pred: Map<usize, Vec<usize>>,
    h: int,
    u: usize,
    j: int,
    dag: ShortestPathDag,
)
    requires
        dist == distances(g, s),
        0 <= h < order.len(),
        order[h] == u,
        order.no_duplicates(),
        order.to_set() == dist.dom(),
        forall|a: int, b: int| 0 <= a <= b < order.len() ==> dist[#[trigger] order[a]] <= dist[#[trigger] order[b]],
        sigma.dom() == dist.dom(),
        pred.dom() == dist.dom(),
        dist.contains_key(s),
        dist[s] == 0,
        sigma[s] == 1,
        counts_ok(s, sigma, pred),
        preds_ok(g, dist, pred, dist[u] as int),
        tallied(g, dist, pred, order.take(h), u, j),
        !order.take(h).contains(u),
        dist.contains_key(u),
        0 <= j < nbrs(g, u).len(),
        dist.contains_key(nbrs(g, u)[j]),
        dist[nbrs(g, u)[j]] == dist[u] + 1,
        sigma[nbrs(g, u)[j]] + sigma[u] > u64::MAX,
    ensures
        !is_shortest_path_dag(g, s, dag),
{
    let w = nbrs(g, u)[j];
    if is_shortest_path_dag(g, s, dag) {
        reveal(counts_ok);
        reveal(preds_ok);
        let q = dag.pred@[w]@;
        let p = pred[w]@.push(u);
        lemma_occurrences_take(nbrs(g, u), j, w);
        lemma_occurrences_prefix(nbrs(g, u), j + 1, w);
        assert forall|v: usize| occurrences(p, v) <= #[trigger] occurrences(q, v) by {
            reveal(tallied);
            lemma_occurrences_push(pred[w]@, u, v);
            if order.take(h).contains(v) {
                let a = choose|a: int| 0 <= a < order.take(h).len() && order.take(h)[a] == v;
                assert(order.to_set().contains(order[a]));
            }
        }
        lemma_count_sum_sub(p, q, dag.sigma@);
        assert(p.drop_last() =~= pred[w]@);
        lemma_counts_agree(g, s, dist, order, sigma, pred, h, u, j, dag, u);
        assert forall|k: int| 0 <= k < pred[w]@.len() implies dag.sigma@[#[trigger] pred[w]@[k]] == sigma[pred[w]@[k]] by {
            lemma_counts_agree(g, s, dist, order, sigma, pred, h, u, j, dag, pred[w]@[k]);
        }
        lemma_count_sum_agree(pred[w]@, dag.sigma@, sigma);
        assert(w != s);
    }
}

/// Brandes' forward phase from `s`: a breadth-first search that records the
/// finalization order, every shortest-path predecessor of each node, and the
/// number of shortest paths to it. `None` where such a count exceeds `u64::MAX`.
pub fn shortest_path_dag(graph: &Graph, s: usize) -> (r: Option<ShortestPathDag>)
    ensures
        r matches Some(dag) ==> is_shortest_path_dag(graph@, s, dag),
        r is None ==> forall|dag: ShortestPathDag| !#[trigger] is_shortest_path_dag(graph@, s, dag),
{
    let (dist, order) = bfs_with_order(graph, s);
    let mut sigma: HashMap<usize, u64> = HashMap::new();
    let mut pred: HashMap<usize, Vec<usize>> = HashMap::new();
    for i in 0..order.len()
        invariant
            order@.to_set() == dist@.dom(),
            order@[0] == s,
            order@.no_duplicates(),
            sigma@.dom() == order@.take(i as int).to_set(),
            pred@.dom() == order@.take(i as int).to_set(),
            forall|w: usize| #[trigger] sigma@.contains_key(w) ==> sigma@[w] == if w == s { 1u64 } else { 0u64 },
            forall|w: usize| #[trigger] pred@.contains_key(w) ==> pred@[w]@.len() == 0,
    {
        let v = order[i];
        if v == s {
            sigma.insert(v, 1);
        } else {
            sigma.insert(v, 0);
        }
        pred.insert(v, Vec::new());
        proof {
            assert(order@.take(i + 1) == order@.take(i as int).push(v));
            order@.take(i as int).lemma_push_to_set_commute(v);
            assert(sigma@.dom() =~= order@.take(i + 1).to_set());
            assert(pred@.dom() =~= order@.take(i + 1).to_set());
        }
    }
    proof {
        assert(order@.take(order@.len() as int) == order@);
        assert(order@.to_set().contains(order@[0]));
        reveal(counts_ok);
        reveal(preds_ok);
        reveal(scanned);
        assert forall|w: usize| #[trigger] pred@.contains_key(w) && w != s implies
            sigma@[w] == count_sum(pred@[w]@, sigma@) by {
            assert(pred@[w]@ =~= Seq::<usize>::empty());
        }
        reveal(tallied);
        assert(nbrs(graph@, order@[0]).take(0) =~= Seq::<usize>::empty());
        assert(order@.take(0) =~= Seq::<usize>::empty());
        assert forall|w: usize, v: usize| pred@.contains_key(w) implies #[trigger] occurrences(pred@[w]@, v) == 0 by {
            assert(pred@[w]@ =~= Seq::<usize>::empty());
        }
    }
    let empty: Vec<usize> = Vec::new();
    for h in 0..order.len()
        invariant
            is_distance_map(graph@, s, dist@),
            dist@ == distances(graph@, s),
            order@.to_set() == dist@.dom(),
            order@.no_duplicates(),
            order@[0] == s,
            forall|i: int, j: int| 0 <= i <= j < order@.len() ==> dist@[#[trigger] order@[i]] <= dist@[#[trigger] order@[j]],
            empty@.len() == 0,
            sigma@.dom() == dist@.dom(),
            pred@.dom() == dist@.dom(),
            sigma@[s] == 1,
            pred@[s]@.len() == 0,
            counts_ok(s, sigma@, pred@),
            h < order@.len() ==> preds_ok(graph@, dist@, pred@, dist@[order@[h as int]] as int),
            h == order@.len() ==> preds_ok(graph@, dist@, pred@, dist@[order@[h - 1]] as int),
            scanned(graph@, dist@, pred@, order@, h as int),
            h < order@.len() ==> tallied(graph@, dist@, pred@, order@.take(h as int), order@[h as int], 0),
            h == order@.len() ==> tallied(graph@, dist@, pred@, order@.take(h as int), order@[h - 1], 0),
    {
        let u = order[h];
        assert(order@.to_set().contains(order@[h as int]));
        let d: usize = *dist.get(&u).unwrap();
        let su: u64 = *sigma.get(&u).unwrap();
        let nb: &Vec<usize> = match graph.get(&u) {
            Some(nb) => nb,
            None => &empty,
        };
        assert(nb@ == nbrs(graph@, u));
        assert forall|k: int| 0 <= k < nb@.len() implies dist@.contains_key(#[trigger] nb@[k]) by {
            assert(dist@.contains_key(nbrs(graph@, u)[k]));
        }
        let ghost pred_h = pred@;
        assert(!order@.take(h as int).contains(u)) by {
            if order@.take(h as int).contains(u) {
                let i = choose|i: int| 0 <= i < h && order@.take(h as int)[i] == u;
                assert(order@[i] == order@[h as int]);
            }
        }
        for j in 0..nb.len()
            invariant
                dist@.contains_key(s),
                dist@[s] == 0,
                dist@ == distances(graph@, s),
                order@.to_set() == dist@.dom(),
                order@.no_duplicates(),
                forall|a: int, b: int| 0 <= a <= b < order@.len() ==> dist@[#[trigger] order@[a]] <= dist@[#[trigger] order@[b]],
                0 <= h < order@.len(),
                order@[h as int] == u,
                dist@.contains_key(u),
                d == dist@[u],
                su == sigma@[u],
                nb@ == nbrs(graph@, u),
                forall|k: int| 0 <= k < nb@.len() ==> dist@.contains_key(#[trigger] nb@[k]),
                sigma@.dom() == dist@.dom(),
                pred@.dom() == dist@.dom(),
                sigma@[s] == 1,
                pred@[s]@.len() == 0,
                counts_ok(s, sigma@, pred@),
                preds_ok(graph@, dist@, pred@, d as int),
                forall|x: usize, v: usize| #[trigger] pred_h[x]@.contains(v) ==> pred@[x]@.contains(v),
                forall|k: int| 0 <= k < j && dist@[#[trigger] nb@[k]] == d + 1 ==> pred@[nb@[k]]@.contains(u),
                !order@.take(h as int).contains(u),
                tallied(graph@, dist@, pred@, order@.take(h as int), u, j as int),
        {
            let ghost pred_j = pred@;
            let w = nb[j];
            let dw: usize = *dist.get(&w).unwrap();
            if dw > 0 && dw - 1 == d {
                let sw: u64 = *sigma.get(&w).unwrap();
                let sum: u64 = match sw.checked_add(su) {
                    Some(x) => x,
                    None => {
                        proof {
                            assert(nb@[j as int] == w);
                            assert forall|dag: ShortestPathDag| !#[trigger] is_shortest_path_dag(graph@, s, dag) by {
                                lemma_overflow_no_dag(graph@, s, dist@, order@, sigma@, pred@, h as int, u, j as int, dag);
                            }
                        }
                        return None;
                    },
                };
                let ghost pre_sigma = sigma@;
                let ghost pre_pred = pred@;
                let mut pw: Vec<usize> = pred.remove(&w).unwrap();
                pw.push(u);
                pred.insert(w, pw);
                sigma.insert(w, sum);
                proof {
                    assert(nb@[j as int] == w);
                    assert(pred@.dom() =~= pre_pred.dom());
                    assert(sigma@ =~= pre_sigma.insert(w, sigma@[w]));
                    lemma_record_edge(graph@, s, dist@, pre_sigma, pre_pred, sigma@, pred@, u, w, d as int);
                }
            }
            proof {
                assert(nb@[j as int] == w);
                lemma_tally_step(graph@, dist@, pred_j, pred@, order@.take(h as int), u, j as int);
            }
        }
        proof {
            lemma_tally_next(graph@, dist@, pred@, order@, h as int);
            lemma_scan_step(graph@, dist@, pred_h, pred@, order@, h as int);
            if h + 1 < order@.len() {
                assert(dist@[order@[h as int]] <= dist@[order@[h + 1]]);
                lemma_preds_ok_weaken(graph@, dist@, pred@, d as int, dist@[order@[h + 1]] as int);
            }
        }
    }
    let dag = ShortestPathDag { order, dist, sigma, pred };
    proof {
        reveal(counts_ok);
        reveal(preds_ok);
        reveal(scanned);
        reveal(tallied);
        assert(dag.order@.take(dag.order@.len() as int) =~= dag.order@);
        assert forall|w: usize, v: usize| dag.pred@.contains_key(w) implies #[trigger] occurrences(dag.pred@[w]@, v)
            == if dag.dist@.contains_key(v) && dag.dist@[v] + 1 == dag.dist@[w] {
            occurrences(nbrs(graph@, v), w)
        } else {
            0
        } by {
            assert(dag.order@.to_set().contains(v) == dag.order@.contains(v));
        }
        assert forall|v: usize, k: int|
            dag.dist@.contains_key(v) && 0 <= k < nbrs(graph@, v).len() && dag.dist@[#[trigger] nbrs(graph@, v)[k]] == dag.dist@[v] + 1
                implies dag.pred@[nbrs(graph@, v)[k]]@.contains(v) by {
            assert(dag.order@.to_set().contains(v));
            let i = choose|i: int| 0 <= i < dag.order@.len() && dag.order@[i] == v;
            assert(nbrs(graph@, dag.order@[i])[k] == nbrs(graph@, v)[k]);
        }
    }
    Some(dag)
}

/// Every two distinct nodes of `g` are neighbors, and every neighbor is a node.
pub open spec fn is_complete(g: Map<usize, Vec<usize>>) -> bool {
    &&& forall|u: usize, v: usize|
        g.contains_key(u) && g.contains_key(v) && u != v ==> #[trigger] nbrs(g, u).contains(v)
    &&& forall|u: usize, i: int| 0 <= i < nbrs(g, u).len() ==> g.contains_key(#[trigger] nbrs(g, u)[i])
}

/// Distance 0 at `s`, 1 at every other node of `g`.
pub open spec fn one_hop_map(g: Map<usize, Vec<usize>>, s: usize) -> Map<usize, usize> {
    Map::new(|k: usize| g.contains_key(k), |k: usize| if k == s { 0usize } else { 1usize })
}

proof fn lemma_complete_distances(g: Map<usize, Vec<usize>>, s: usize)
    requires
        is_complete(g),
        g.contains_key(s),
    ensures
        distances(g, s) == one_hop_map(g, s),
{
    let d = one_hop_map(g, s);
    assert forall|v: usize| #[trigger] d.contains_key(v) && v != s implies exists|u: usize|
        #[trigger] d.contains_key(u) && nbrs(g, u).contains(v) && d[u] + 1 == d[v] by {
        assert(nbrs(g, s).contains(v));
        assert(d.contains_key(s));
    }
    assert(is_distance_map(g, s, d));
    lemma_distances_choose(g, s, d);
}

proof fn lemma_one_hop_sum(g: Map<usize, Vec<usize>>, s: usize, part: Set<usize>)
    requires
        part.finite(),
        part.subset_of(g.dom()),
    ensures
        part.fold(0int, |acc: int, k: usize| acc + one_hop_map(g, s)[k])
            == part.len() - if part.contains(s) { 1int } else { 0int },
    decreases part.len(),
{
    let f = |acc: int, k: usize| acc + one_hop_map(g, s)[k];
    if part.len() == 0 {
        assert(part =~= Set::empty());
        vstd::set::fold::lemma_fold_empty(0int, f);
    } else {
        let x = part.choose();
        let rest = part.remove(x);
        lemma_one_hop_sum(g, s, rest);
        assert(rest.insert(x) =~= part);
        vstd::set::fold::lemma_fold_insert(rest, 0int, f, x);
    }
}

/// On a complete graph every node has the same distance total, one hop to
/// each other node, and hence the same closeness.
pub proof fn lemma_complete_graph_totals(g: Map<usize, Vec<usize>>, u: usize, v: usize)
    requires
        is_complete(g),
        g.dom().finite(),
        g.contains_key(u),
        g.contains_key(v),
    ensures
        distance_sum(distances(g, u)) == g.dom().len() - 1,
        total_of(distances(g, u)) == total_of(distances(g, v)),
{
    lemma_complete_distances(g, u);
    lemma_complete_distances(g, v);
    assert(one_hop_map(g, u).dom() =~= g.dom());
    assert(one_hop_map(g, v).dom() =~= g.dom());
    lemma_one_hop_sum(g, u, g.dom());
    lemma_one_hop_sum(g, v, g.dom());
}

/// On a complete graph no node lies strictly between two others: from any
/// source, the only shortest-path predecessor of any node is the source.
pub proof fn lemma_complete_graph_preds(g: Map<usize, Vec<usize>>, s: usize, dag: ShortestPathDag)
    requires
        is_complete(g),
        g.contains_key(s),
        is_shortest_path_dag(g, s, dag),
    ensures
        forall|w: usize, k: int|
            dag.pred@.contains_key(w) && 0 <= k < dag.pred@[w]@.len() ==> #[trigger] dag.pred@[w]@[k] == s,
{
    lemma_complete_distances(g, s);
    assert forall|w: usize, k: int|
        dag.pred@.contains_key(w) && 0 <= k < dag.pred@[w]@.len() implies #[trigger] dag.pred@[w]@[k] == s by {
        let v = dag.pred@[w]@[k];
        assert(dag.dist@.contains_key(v));
    }
}

proof fn lemma_count_sum_ge(preds: Seq<usize>, sigma: Map<usize, u64>, k: int)
    requires
        0 <= k < preds.len(),
    ensures
        count_sum(preds, sigma) >= sigma[preds[k]],
        count_sum(preds, sigma) >= 0,
    decreases preds.len(),
{
    lemma_count_sum_nonneg(preds.drop_last(), sigma);
    if k < preds.len() - 1 {
        lemma_count_sum_ge(preds.drop_last(), sigma, k);
    }
}

proof fn lemma_count_sum_nonneg(preds: Seq<usize>, sigma: Map<usize, u64>)
    ensures
        count_sum(preds, sigma) >= 0,
    decreases preds.len(),
{
    if preds.len() > 0 {
        lemma_count_sum_nonneg(preds.drop_last(), sigma);
    }
}

/// Every node that the search reaches has at least one shortest path from the
/// source, so every ratio of path counts in the accumulation pass is positive.
pub proof fn lemma_path_counts_positive(g: Map<usize, Vec<usize>>, s: usize, dag: ShortestPathDag, w: usize)
    requires
        is_shortest_path_dag(g, s, dag),
        dag.dist@.contains_key(w),
    ensures
        dag.sigma@[w] >= 1,
    decreases dag.dist@[w],
{
    let dist = dag.dist@;
    if w != s {
        let u = choose|u: usize| #[trigger] dist.contains_key(u) && nbrs(g, u).contains(w) && dist[u] + 1 == dist[w];
        lemma_path_counts_positive(g, s, dag, u);
        let i = choose|i: int| 0 <= i < nbrs(g, u).len() && nbrs(g, u)[i] == w;
        assert(dag.pred@[nbrs(g, u)[i]]@.contains(u));
        let k = choose|k: int| 0 <= k < dag.pred@[w]@.len() && dag.pred@[w]@[k] == u;
        lemma_count_sum_ge(dag.pred@[w]@, dag.sigma@, k);
    }
}

} // verus!
