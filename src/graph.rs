//! The graph model: a mapping from node identifier to its neighbor list.

use std::collections::HashMap;
use vstd::prelude::*;
use vstd::std_specs::iter::IteratorSpec;

verus! {

broadcast use vstd::std_specs::hash::group_hash_axioms;

/// An undirected graph: each node identifier maps to the list of its neighbors.
pub type Graph = HashMap<usize, Vec<usize>>;

/// The neighbors of `u`; a node absent from the key set has none.
pub open spec fn nbrs(g: Map<usize, Vec<usize>>, u: usize) -> Seq<usize> {
    if g.contains_key(u) {
        g[u]@
    } else {
        Seq::empty()
    }
}

/// Every edge is recorded in both directions.
pub open spec fn is_undirected(g: Map<usize, Vec<usize>>) -> bool {
    forall|u: usize, v: usize|
        #[trigger] nbrs(g, u).contains(v) ==> #[trigger] nbrs(g, v).contains(u)
}

/// The keys of `graph`, each once.
pub fn node_ids<V>(graph: &HashMap<usize, V>) -> (ids: Vec<usize>)
    ensures
        ids@.to_set() == graph@.dom(),
        ids@.no_duplicates(),
{
    let mut ids: Vec<usize> = Vec::new();
    let keys = graph.keys();
    proof {
        vstd::std_specs::hash::axiom_spec_keys_iter(graph);
    }
    let ghost all = keys.remaining();
    for k in it: keys
        invariant
            it.seq() == all,
            ids@ == it.seq().take(it.index() as int).map_values(|r: &usize| *r),
    {
        ids.push(*k);
    }
    assert(ids@ =~= all.unref());
    ids
}

/// Records the undirected edge `u`–`v`: `v` is appended to `u`'s neighbor list
/// and `u` to `v`'s, creating either list where the node is new.
pub fn add_edge(graph: &mut Graph, u: usize, v: usize)
    ensures
        final(graph)@.dom() == old(graph)@.dom().insert(u).insert(v),
        u != v ==> nbrs(final(graph)@, u) == nbrs(old(graph)@, u).push(v),
        u != v ==> nbrs(final(graph)@, v) == nbrs(old(graph)@, v).push(u),
        u == v ==> nbrs(final(graph)@, u) == nbrs(old(graph)@, u).push(v).push(u),
        forall|x: usize| x != u && x != v ==> #[trigger] final(graph)@[x] == old(graph)@[x],
{
    let mut lu: Vec<usize> = match graph.remove(&u) {
        Some(l) => l,
        None => Vec::new(),
    };
    lu.push(v);
    graph.insert(u, lu);
    let mut lv: Vec<usize> = match graph.remove(&v) {
        Some(l) => l,
        None => Vec::new(),
    };
    lv.push(u);
    graph.insert(v, lv);
    assert(graph@.dom() =~= old(graph)@.dom().insert(u).insert(v));
}

/// Adding an edge to an undirected graph leaves it undirected.
pub proof fn lemma_add_edge_undirected(g0: Map<usize, Vec<usize>>, g1: Map<usize, Vec<usize>>, u: usize, v: usize)
    requires
        is_undirected(g0),
        g1.dom() == g0.dom().insert(u).insert(v),
        u != v ==> nbrs(g1, u) == nbrs(g0, u).push(v),
        u != v ==> nbrs(g1, v) == nbrs(g0, v).push(u),
        u == v ==> nbrs(g1, u) == nbrs(g0, u).push(v).push(u),
        forall|x: usize| x != u && x != v ==> #[trigger] g1[x] == g0[x],
    ensures
        is_undirected(g1),
{
    assert forall|a: usize, b: usize| #[trigger] nbrs(g1, a).contains(b) implies #[trigger] nbrs(g1, b).contains(a) by {
        assert forall|x: usize, y: usize| #[trigger] nbrs(g0, x).contains(y) implies nbrs(g1, x).contains(y) by {
            let i = choose|i: int| 0 <= i < nbrs(g0, x).len() && nbrs(g0, x)[i] == y;
            if x != u && x != v {
                assert(nbrs(g1, x) == nbrs(g0, x));
            } else if u == v {
                assert(nbrs(g1, x)[i] == y);
            } else {
                assert(nbrs(g1, x)[i] == y);
            }
        }
        if a != u && a != v {
            assert(nbrs(g1, a) == nbrs(g0, a));
            assert(nbrs(g0, b).contains(a));
        } else {
            let i = choose|i: int| 0 <= i < nbrs(g1, a).len() && nbrs(g1, a)[i] == b;
            if (a == u && i == nbrs(g0, u).len() && u != v) || (a == v && i == nbrs(g0, v).len() && u != v) {
                if a == u {
                    assert(nbrs(g1, v)[nbrs(g0, v).len() as int] == u);
                } else {
                    assert(nbrs(g1, u)[nbrs(g0, u).len() as int] == v);
                }
            } else if u == v && i >= nbrs(g0, u).len() {
                assert(nbrs(g1, u)[nbrs(g0, u).len() as int] == v);
            } else {
                assert(nbrs(g0, a)[i] == b);
                assert(nbrs(g0, a).contains(b));
                assert(nbrs(g0, b).contains(a));
            }
        }
    }
}

/// Every byte of `s` is an ASCII decimal digit.
pub open spec fn all_digits(s: Seq<u8>) -> bool {
    forall|i: int| 0 <= i < s.len() ==> 48 <= #[trigger] s[i] <= 57
}

/// The number that the decimal digits `s` spell.
pub open spec fn digits_value(s: Seq<u8>) -> nat
    decreases s.len(),
{
    if s.len() == 0 {
        0
    } else {
        digits_value(s.drop_last()) * 10 + (s.last() - 48) as nat
    }
}

/// The digits of a token, without one leading `+`.
pub open spec fn unsigned_body(s: Seq<u8>) -> Seq<u8> {
    if s.len() > 0 && s[0] == 43 {
        s.drop_first()
    } else {
        s
    }
}

/// What a token denotes as a node identifier: an optional `+` and then one or
/// more decimal digits whose value fits in a `usize`.
pub open spec fn node_id_of(s: Seq<u8>) -> Option<usize> {
    let body = unsigned_body(s);
    if body.len() > 0 && all_digits(body) && digits_value(body) <= usize::MAX {
        Some(digits_value(body) as usize)
    } else {
        None
    }
}

/// Reads a node identifier from one token of an edge list.
pub fn parse_node_id(tok: &[u8]) -> (r: Option<usize>)
    ensures
        r == node_id_of(tok@),
{
    let start: usize = if tok.len() > 0 && tok[0] == 43 { 1 } else { 0 };
    let ghost body = unsigned_body(tok@);
    assert(body =~= tok@.subrange(start as int, tok@.len() as int));
    if start == tok.len() {
        assert(body.len() == 0);
        return None;
    }
    let mut acc: usize = 0;
    let mut overflow: bool = false;
    let mut i: usize = start;
    while i < tok.len()
        invariant
            start <= i <= tok@.len(),
            body == unsigned_body(tok@),
            body == tok@.subrange(start as int, tok@.len() as int),
            all_digits(body.take(i - start)),
            !overflow ==> acc == digits_value(body.take(i - start)),
            overflow ==> digits_value(body.take(i - start)) > usize::MAX,
        decreases tok@.len() - i,
    {
        let b = tok[i];
        if b < 48 || b > 57 {
            assert(body[i - start] == b);
            assert(!all_digits(body));
            return None;
        }
        let ghost pre = body.take(i - start);
        assert(body.take(i + 1 - start).drop_last() =~= pre);
        assert(body.take(i + 1 - start).last() == b);
        assert(all_digits(body.take(i + 1 - start))) by {
            assert forall|k: int| 0 <= k < i + 1 - start implies 48 <= #[trigger] body.take(i + 1 - start)[k] <= 57 by {
                if k < i - start {
                    assert(body.take(i + 1 - start)[k] == pre[k]);
                }
            }
        }
        if !overflow {
            match acc.checked_mul(10) {
                Some(m) => match m.checked_add((b - 48) as usize) {
                    Some(x) => {
                        acc = x;
                    },
                    None => {
                        overflow = true;
                    },
                },
                None => {
                    overflow = true;
                },
            }
        }
        i = i + 1;
    }
    assert(body.take(i - start) =~= body);
    if overflow {
        None
    } else {
        Some(acc)
    }
}

} // verus!
