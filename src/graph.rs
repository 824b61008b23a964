//! Weighted directed graphs over `usize` nodes.
//!
//! A graph maps each node to the set of its outgoing `(target, weight)` pairs.
//! The model used by all contracts is [`out_edges`]: a node that is absent from
//! the map has no outgoing edges, exactly like a node mapped to an empty set.
use std::collections::{BTreeMap, BTreeSet};
use vstd::prelude::*;
use vstd::std_specs::iter::IteratorSpec;

verus! {

broadcast use vstd::std_specs::btree::group_btree_axioms, vstd::laws_cmp::group_laws_cmp;

/// Outgoing edges of every node, keyed by source node.
pub type Graph = BTreeMap<usize, BTreeSet<(usize, usize)>>;

/// Shortest distance from one start node to every node reachable from it.
pub type ShortestPaths = BTreeMap<usize, usize>;

/// Shortest-distance table of every node of a graph.
pub type AllPairShortestPaths = BTreeMap<usize, ShortestPaths>;

/// The outgoing `(target, weight)` pairs of `u` (empty when `u` is no key).
pub open spec fn out_edges(g: Graph, u: usize) -> Set<(usize, usize)> {
    if g@.contains_key(u) {
        g@[u]@
    } else {
        Set::empty()
    }
}

/// Whether the graph holds the directed edge `u -> v` of weight `w`.
pub open spec fn has_edge(g: Graph, u: usize, v: usize, w: usize) -> bool {
    out_edges(g, u).contains((v, w))
}

/// The graph holds some edge `u -> v`, whatever its weight.
pub open spec fn adjacent(g: Graph, u: usize, v: usize) -> bool {
    exists|w: usize| has_edge(g, u, v, w)
}

/// Every node named by the graph: each key, and each edge target.
pub open spec fn node_set(g: Graph) -> Set<usize> {
    Set::new(|n: usize| g@.contains_key(n) || exists|u: usize, w: usize| has_edge(g, u, n, w))
}

/// A graph names finitely many nodes.
pub proof fn lemma_node_set_finite(g: Graph)
    ensures
        node_set(g).finite(),
{
    let dom = g@.dom();
    let targets = |k: usize| out_edges(g, k).map(|e: (usize, usize)| e.0);
    let family = dom.map(targets);
    dom.lemma_map_finite(targets);
    assert forall|t: Set<usize>| family.contains(t) implies #[trigger] t.finite() by {
        let k = choose|k: usize| dom.contains(k) && targets(k) == t;
        let it = vstd::std_specs::btree::spec_btree_keys_iter(&g@[k]);
        assert(it.remaining().unref().to_set() == g@[k]@);
        vstd::seq_lib::seq_to_set_is_finite(it.remaining().unref());
        out_edges(g, k).lemma_map_finite(|e: (usize, usize)| e.0);
    }
    family.lemma_flatten_finite();
    assert forall|n: usize| node_set(g).contains(n) implies #[trigger] dom.union(family.flatten()).contains(n) by {
        if !dom.contains(n) {
            let (u, w) = choose|u: usize, w: usize| has_edge(g, u, n, w);
            assert(dom.contains(u));
            assert(targets(u).contains(n));
            assert(family.contains(targets(u)));
        }
    }
    vstd::set_lib::lemma_set_subset_finite(dom.union(family.flatten()), node_set(g));
}

/// The node a walk from `s` stands on after its first `i` steps.
pub open spec fn node_at(s: usize, steps: Seq<(usize, usize)>, i: int) -> usize {
    if i <= 0 {
        s
    } else {
        steps[i - 1].0
    }
}

/// `steps` is a walk from `s`: each step `(v, w)` follows an edge of weight
/// `w` from the node reached so far to `v`.
pub open spec fn is_walk(g: Graph, s: usize, steps: Seq<(usize, usize)>) -> bool {
    forall|i: int|
        0 <= i < steps.len() ==> #[trigger] has_edge(
            g,
            node_at(s, steps, i),
            steps[i].0,
            steps[i].1,
        )
}

/// Where a walk from `s` ends.
pub open spec fn walk_end(s: usize, steps: Seq<(usize, usize)>) -> usize {
    node_at(s, steps, steps.len() as int)
}

/// Sum of the weights of a walk.
pub open spec fn walk_weight(steps: Seq<(usize, usize)>) -> nat
    decreases steps.len(),
{
    if steps.len() == 0 {
        0
    } else {
        walk_weight(steps.drop_last()) + steps.last().1 as nat
    }
}

/// `t` can be reached from `s` by following edges (in zero or more steps).
pub open spec fn reaches(g: Graph, s: usize, t: usize) -> bool {
    exists|steps: Seq<(usize, usize)>| is_walk(g, s, steps) && walk_end(s, steps) == t
}

/// Some walk from `s` to `t` weighs `d`.
pub open spec fn walk_of_weight(g: Graph, s: usize, t: usize, d: nat) -> bool {
    exists|steps: Seq<(usize, usize)>|
        is_walk(g, s, steps) && walk_end(s, steps) == t && walk_weight(steps) == d
}

/// Some walk from `s` to `t` weighs `d`, and none weighs less.
pub open spec fn is_shortest(g: Graph, s: usize, t: usize, d: nat) -> bool {
    &&& walk_of_weight(g, s, t, d)
    &&& forall|steps: Seq<(usize, usize)>|
        is_walk(g, s, steps) && walk_end(s, steps) == t ==> d <= walk_weight(steps)
}

/// Adds the edge `n1 -> n2` of weight `weight`; returns whether it was new.
/// `n1` becomes a key of the graph either way.
pub fn add_edge(graph: &mut Graph, n1: usize, n2: usize, weight: usize) -> (r: bool)
    ensures
        final(graph)@.dom() == old(graph)@.dom().insert(n1),
        out_edges(*final(graph), n1) == out_edges(*old(graph), n1).insert((n2, weight)),
        forall|u: usize| u != n1 ==> out_edges(*final(graph), u) == out_edges(*old(graph), u),
        r == !has_edge(*old(graph), n1, n2, weight),
{
    let mut set = match graph.remove(&n1) {
        Some(s) => s,
        None => BTreeSet::new(),
    };
    let r = set.insert((n2, weight));
    graph.insert(n1, set);
    r
}

/// Removes the edge `n1 -> n2` of weight `weight`; returns whether it was
/// there. `n1` becomes a key of the graph either way.
pub fn remove_edge(graph: &mut Graph, n1: usize, n2: usize, weight: usize) -> (r: bool)
    ensures
        final(graph)@.dom() == old(graph)@.dom().insert(n1),
        out_edges(*final(graph), n1) == out_edges(*old(graph), n1).remove((n2, weight)),
        forall|u: usize| u != n1 ==> out_edges(*final(graph), u) == out_edges(*old(graph), u),
        r == has_edge(*old(graph), n1, n2, weight),
{
    let mut set = match graph.remove(&n1) {
        Some(s) => s,
        None => BTreeSet::new(),
    };
    let r = set.remove(&(n2, weight));
    graph.insert(n1, set);
    r
}

/// The outgoing `(target, weight)` pairs of `n`, each once; empty when `n`
/// has none.
pub fn neighbors(graph: &Graph, n: &usize) -> (r: Vec<(usize, usize)>)
    ensures
        r@.to_set() == out_edges(*graph, *n),
        r@.no_duplicates(),
{
    let mut r: Vec<(usize, usize)> = Vec::new();
    match graph.get(n) {
        Some(set) => {
            for x in it: set.iter()
                invariant
                    it.seq() == set.iter().remaining(),
                    r@ == it.seq().unref().take(it.index() as int),
            {
                r.push(*x);
            }
            assert(r@ == set.iter().remaining().unref());
        },
        None => {
            assert(r@.to_set() =~= Set::empty());
        },
    }
    r
}

/// The keys of a map, each once.
fn keys<V>(graph: &BTreeMap<usize, V>) -> (r: Vec<usize>)
    ensures
        r@.to_set() == graph@.dom(),
        r@.no_duplicates(),
{
    let mut r: Vec<usize> = Vec::new();
    for x in it: graph.iter()
        invariant
            it.seq() == graph.iter().remaining(),
            r@ == it.seq().take(it.index() as int).map_values(
                |p: (&usize, &V)| *p.0,
            ),
    {
        r.push(*x.0);
    }
    let ghost v = graph.iter().remaining();
    assert(r@ =~= v.map_values(|p: (&usize, &V)| *p.0));
    assert forall|k: usize| r@.to_set().contains(k) <==> graph@.dom().contains(k) by {
        if graph@.contains_key(k) {
            assert(v.contains((&k, &graph@[k])));
            let i = choose|i: int| 0 <= i < v.len() && v[i] == (&k, &graph@[k]);
            assert(r@[i] == k);
        }
        if r@.contains(k) {
            let i = choose|i: int| 0 <= i < r@.len() && r@[i] == k;
            assert(graph@.contains_key(*v[i].0));
        }
    }
    assert(r@.to_set() =~= graph@.dom());
    assert forall|i: int, j: int| 0 <= i < j < r@.len() implies r@[i] != r@[j] by {
        assert(v[i] != v[j]);
        assert(graph@.contains_key(*v[i].0) && graph@[*v[i].0] == *v[i].1);
        assert(graph@.contains_key(*v[j].0) && graph@[*v[j].0] == *v[j].1);
    }
    r
}

/// The nodes met among the keys `ks[..]` and their edge targets.
pub open spec fn nodes_of_keys(g: Graph, ks: Seq<usize>) -> Set<usize> {
    Set::new(
        |n: usize|
            exists|j: int|
                0 <= j < ks.len() && (ks[j] == n || adjacent(g, ks[j], n)),
    )
}

/// Every node of the graph: each key and each edge target.
pub fn nodes(graph: &Graph) -> (r: BTreeSet<usize>)
    ensures
        r@ == node_set(*graph),
        r@.finite(),
{
    let ks = keys(graph);
    let mut r: BTreeSet<usize> = BTreeSet::new();
    let mut i: usize = 0;
    while i < ks.len()
        invariant
            0 <= i <= ks.len(),
            r@.finite(),
            r@ == nodes_of_keys(*graph, ks@.take(i as int)),
        decreases ks.len() - i,
    {
        let u = ks[i];
        r.insert(u);
        let nb = neighbors(graph, &u);
        let mut k: usize = 0;
        while k < nb.len()
            invariant
                0 <= k <= nb.len(),
                i < ks.len(),
                u == ks[i as int],
                nb@.to_set() == out_edges(*graph, u),
                r@.finite(),
                r@ == nodes_of_keys(*graph, ks@.take(i as int)).insert(u).union(
                    Set::new(|n: usize| exists|l: int| 0 <= l < k && nb@[l].0 == n),
                ),
            decreases nb.len() - k,
        {
            r.insert(nb[k].0);
            assert(r@ =~= nodes_of_keys(*graph, ks@.take(i as int)).insert(u).union(
                Set::new(|n: usize| exists|l: int| 0 <= l < k + 1 && nb@[l].0 == n),
            ));
            k = k + 1;
        }
        let ghost ks1 = ks@.take(i + 1);
        let ghost ks0 = ks@.take(i as int);
        assert(r@ =~= nodes_of_keys(*graph, ks1)) by {
            assert(ks1 == ks0.push(u));
            assert forall|n: usize| r@.contains(n) implies nodes_of_keys(*graph, ks1).contains(n) by {
                if nodes_of_keys(*graph, ks@.take(i as int)).contains(n) {
                    let j = choose|j: int| 0 <= j < ks0.len() && (ks0[j] == n || adjacent(*graph, ks0[j], n));
                    assert(ks1[j] == ks0[j]);
                } else if n == u {
                    assert(ks1[i as int] == u);
                } else {
                    let l = choose|l: int| 0 <= l < nb.len() && nb@[l].0 == n;
                    assert(nb@.to_set().contains(nb@[l]));
                    assert(has_edge(*graph, u, n, nb@[l].1));
                    assert(ks1[i as int] == u);
                }
            }
            assert forall|n: usize| nodes_of_keys(*graph, ks1).contains(n) implies r@.contains(n) by {
                let j = choose|j: int| 0 <= j < ks1.len() && (ks1[j] == n || adjacent(*graph, ks1[j], n));
                if j < i {
                    assert(ks1[j] == ks0[j]);
                    assert(nodes_of_keys(*graph, ks@.take(i as int)).contains(n));
                } else if n != u {
                    let w = choose|w: usize| has_edge(*graph, u, n, w);
                    assert(nb@.to_set().contains((n, w)));
                    let l = choose|l: int| 0 <= l < nb.len() && nb@[l] == (n, w);
                    assert(nb@[l].0 == n);
                }
            }
        }
        i = i + 1;
    }
    assert(r@ =~= node_set(*graph)) by {
        assert(ks@.take(ks.len() as int) == ks@);
        assert forall|n: usize| node_set(*graph).contains(n) implies r@.contains(n) by {
            if graph@.contains_key(n) {
                assert(ks@.to_set().contains(n));
                let j = choose|j: int| 0 <= j < ks.len() && ks@[j] == n;
            } else {
                let (u, w) = choose|u: usize, w: usize| has_edge(*graph, u, n, w);
                assert(graph@.dom().contains(u));
                assert(ks@.to_set().contains(u));
                let j = choose|j: int| 0 <= j < ks.len() && ks@[j] == u;
                assert(has_edge(*graph, ks@[j], n, w));
            }
        }
        assert forall|n: usize| r@.contains(n) implies node_set(*graph).contains(n) by {
            let j = choose|j: int| 0 <= j < ks.len() && (ks@[j] == n || adjacent(*graph, ks@[j], n));
            assert(ks@.to_set().contains(ks@[j]));
        }
    }
    r
}

/// The shortest distances from `s`, extended by one more edge, fit in a
/// `usize`: what the search from `s` needs to add without overflow.
pub open spec fn distances_fit(g: Graph, s: usize) -> bool {
    forall|t: usize, d: nat, v: usize, w: usize|
        #[trigger] is_shortest(g, s, t, d) && #[trigger] has_edge(g, t, v, w) ==> d + w
            <= usize::MAX
}

/// A walk without its last step is a walk, and ends where the last step starts.
proof fn lemma_walk_prefix(g: Graph, s: usize, steps: Seq<(usize, usize)>)
    requires
        is_walk(g, s, steps),
        steps.len() > 0,
    ensures
        is_walk(g, s, steps.drop_last()),
        has_edge(g, walk_end(s, steps.drop_last()), walk_end(s, steps), steps.last().1),
        walk_weight(steps) == walk_weight(steps.drop_last()) + steps.last().1,
{
    let p = steps.drop_last();
    assert forall|i: int| 0 <= i < p.len() implies #[trigger] has_edge(
        g,
        node_at(s, p, i),
        p[i].0,
        p[i].1,
    ) by {
        assert(node_at(s, p, i) == node_at(s, steps, i));
        assert(has_edge(g, node_at(s, steps, i), steps[i].0, steps[i].1));
    }
    let n = steps.len() - 1;
    assert(has_edge(g, node_at(s, steps, n), steps[n].0, steps[n].1));
    assert(node_at(s, steps, n) == node_at(s, p, p.len() as int));
}

/// A walk followed by an edge out of its end is a walk.
proof fn lemma_walk_push(g: Graph, s: usize, steps: Seq<(usize, usize)>, v: usize, w: usize)
    requires
        is_walk(g, s, steps),
        has_edge(g, walk_end(s, steps), v, w),
    ensures
        is_walk(g, s, steps.push((v, w))),
        walk_end(s, steps.push((v, w))) == v,
        walk_weight(steps.push((v, w))) == walk_weight(steps) + w,
{
    let q = steps.push((v, w));
    assert(q.drop_last() == steps);
    assert forall|i: int| 0 <= i < q.len() implies #[trigger] has_edge(
        g,
        node_at(s, q, i),
        q[i].0,
        q[i].1,
    ) by {
        if i < steps.len() {
            assert(node_at(s, q, i) == node_at(s, steps, i));
            assert(has_edge(g, node_at(s, steps, i), steps[i].0, steps[i].1));
        } else {
            assert(node_at(s, q, i) == walk_end(s, steps));
        }
    }
}

/// The empty walk stays at `s` and weighs nothing.
proof fn lemma_walk_empty(g: Graph, s: usize)
    ensures
        is_walk(g, s, Seq::<(usize, usize)>::empty()),
        walk_end(s, Seq::<(usize, usize)>::empty()) == s,
        walk_weight(Seq::<(usize, usize)>::empty()) == 0,
{
}

/// The search state of `dijkstras` between two pops of the frontier.
spec fn search_state(
    g: Graph,
    s: usize,
    visited: Set<usize>,
    dist: Map<usize, usize>,
    queue: Set<(usize, usize)>,
) -> bool {
    &&& dist.contains_key(s) && dist[s] == 0
    &&& forall|v: usize| #[trigger]
        visited.contains(v) ==> dist.contains_key(v) && is_shortest(g, s, v, dist[v] as nat)
    &&& forall|e: (usize, usize)| #[trigger]
        queue.contains(e) ==> dist.contains_key(e.1) && dist[e.1] <= e.0
    &&& forall|v: usize| #[trigger]
        dist.contains_key(v) && !visited.contains(v) ==> queue.contains((dist[v], v))
    &&& forall|u: usize, v: usize, w: usize|
        visited.contains(u) && #[trigger] has_edge(g, u, v, w) ==> dist.contains_key(v) && dist[v]
            <= dist[u] + w
    &&& forall|v: usize| #[trigger]
        dist.contains_key(v) ==> walk_of_weight(g, s, v, dist[v] as nat)
}

/// Every walk from `s` that ends outside `visited` weighs at least as much
/// as some entry of the frontier.
proof fn lemma_cut(
    g: Graph,
    s: usize,
    visited: Set<usize>,
    dist: Map<usize, usize>,
    queue: Set<(usize, usize)>,
    steps: Seq<(usize, usize)>,
)
    requires
        search_state(g, s, visited, dist, queue),
        is_walk(g, s, steps),
        !visited.contains(walk_end(s, steps)),
    ensures
        exists|e: (usize, usize)| queue.contains(e) && e.0 <= walk_weight(steps),
    decreases steps.len(),
{
    if steps.len() == 0 {
        assert(queue.contains((dist[s], s)));
    } else {
        lemma_walk_prefix(g, s, steps);
        let p = steps.drop_last();
        let x = walk_end(s, p);
        let t = walk_end(s, steps);
        if visited.contains(x) {
            assert(is_shortest(g, s, x, dist[x] as nat));
            assert(dist[x] <= walk_weight(p));
            assert(has_edge(g, x, t, steps.last().1));
            assert(queue.contains((dist[t], t)));
        } else {
            lemma_cut(g, s, visited, dist, queue, p);
        }
    }
}

/// Relies on BTreeSet::pop_first: it removes and returns the least element,
/// and tuples are ordered lexicographically.
#[verifier::external_body]
fn pop_first_entry(queue: &mut BTreeSet<(usize, usize)>) -> (r: Option<(usize, usize)>)
    ensures
        match r {
            None => old(queue)@.is_empty() && final(queue)@ == old(queue)@,
            Some(e) => {
                &&& old(queue)@.contains(e)
                &&& final(queue)@ == old(queue)@.remove(e)
                &&& forall|f: (usize, usize)| #[trigger]
                    old(queue)@.contains(f) ==> e.0 < f.0 || (e.0 == f.0 && e.1 <= f.1)
            },
        },
{
    queue.pop_first()
}

/// `m` is the table of shortest distances from `s`: it holds exactly the
/// nodes reachable from `s`, each with its shortest distance.
pub open spec fn is_distance_table(g: Graph, s: usize, m: Map<usize, usize>) -> bool {
    &&& forall|t: usize| m.contains_key(t) <==> reaches(g, s, t)
    &&& forall|t: usize| m.contains_key(t) ==> is_shortest(g, s, t, m[t] as nat)
}

/// Shortest distances from `start` to every node reachable from it, `start`
/// itself included at distance 0.
pub fn dijkstras(weighted_graph: &Graph, start: &usize) -> (r: ShortestPaths)
    requires
        distances_fit(*weighted_graph, *start),
    ensures
        is_distance_table(*weighted_graph, *start, r@),
        r@.contains_key(*start) && r@[*start] == 0,
{
    let ghost g = *weighted_graph;
    let ghost s = *start;
    proof {
        lemma_node_set_finite(g);
    }
    let ghost univ = node_set(g).insert(s);
    let mut visited: BTreeSet<usize> = BTreeSet::new();
    let mut queue: BTreeSet<(usize, usize)> = BTreeSet::new();
    queue.insert((0usize, *start));
    let mut distances: BTreeMap<usize, usize> = BTreeMap::new();
    distances.insert(*start, 0usize);
    proof {
        lemma_walk_empty(g, s);
        assert(walk_of_weight(g, s, s, 0));
    }
    loop
        invariant
            univ.finite(),
            univ == node_set(g).insert(s),
            g == *weighted_graph,
            s == *start,
            distances_fit(g, s),
            queue@.finite(),
            visited@.subset_of(univ),
            distances@.dom().subset_of(univ),
            search_state(g, s, visited@, distances@, queue@),
        ensures
            queue@.is_empty(),
            search_state(g, s, visited@, distances@, queue@),
        decreases univ.difference(visited@).len(), queue@.len(),
    {
        let ghost old_queue = queue@;
        match pop_first_entry(&mut queue) {
            None => {
                break;
            },
            Some((dist, cur)) => {
                if visited.contains(&cur) {
                    proof {
                        assert(old_queue.contains((dist, cur)));
                        assert(queue@.len() < old_queue.len());
                    }
                    continue;
                }
                proof {
                    assert(old_queue.contains((distances@[cur], cur)));
                    assert(dist == distances@[cur]);
                    assert forall|steps: Seq<(usize, usize)>|
                        is_walk(g, s, steps) && walk_end(s, steps) == cur implies dist
                        <= walk_weight(steps) by {
                        lemma_cut(g, s, visited@, distances@, old_queue, steps);
                    }
                    assert(is_shortest(g, s, cur, dist as nat));
                }
                let ghost old_visited = visited@;
                visited.insert(cur);
                let nb = neighbors(weighted_graph, &cur);
                let ghost d0 = distances@;
                let mut k: usize = 0;
                while k < nb.len()
                    invariant
                        0 <= k <= nb.len(),
                        nb@.to_set() == out_edges(g, cur),
                        g == *weighted_graph,
                        s == *start,
                        distances_fit(g, s),
                        univ.finite(),
                        univ == node_set(g).insert(s),
                        queue@.finite(),
                        visited@ == old_visited.insert(cur),
                        !old_visited.contains(cur),
                        visited@.subset_of(univ),
                        distances@.dom().subset_of(univ),
                        d0.contains_key(cur) && d0[cur] == dist,
                        is_shortest(g, s, cur, dist as nat),
                        distances@.contains_key(cur) && distances@[cur] == dist,
                        forall|v: usize| #[trigger] d0.contains_key(v) ==> distances@.contains_key(v)
                            && distances@[v] <= d0[v],
                        forall|v: usize| #[trigger] old_visited.contains(v) ==> d0.contains_key(v) && distances@[v] == d0[v],
                        distances@.contains_key(s) && distances@[s] == 0,
                        forall|v: usize| #[trigger]
                            visited@.contains(v) ==> distances@.contains_key(v) && is_shortest(g, s, v, distances@[v] as nat),
                        forall|e: (usize, usize)| #[trigger]
                            queue@.contains(e) ==> distances@.contains_key(e.1) && distances@[e.1] <= e.0,
                        forall|v: usize| #[trigger]
                            distances@.contains_key(v) && !visited@.contains(v) ==> queue@.contains((distances@[v], v)),
                        forall|u: usize, v: usize, w: usize|
                            old_visited.contains(u) && #[trigger] has_edge(g, u, v, w) ==> d0.contains_key(v) && d0[v]
                                <= d0[u] + w,
                        forall|l: int| 0 <= l < k ==> distances@.contains_key(#[trigger] nb@[l].0)
                            && distances@[nb@[l].0] <= dist + nb@[l].1,
                        forall|v: usize| #[trigger]
                            distances@.contains_key(v) ==> walk_of_weight(g, s, v, distances@[v] as nat),
                    decreases nb.len() - k,
                {
                    let (next, weight) = nb[k];
                    proof {
                        assert(nb@.to_set().contains(nb@[k as int]));
                        assert(has_edge(g, cur, next, weight));
                    }
                    let new_dist = dist + weight;
                    let better = match distances.get(&next) {
                        Some(old_dist) => *old_dist > new_dist,
                        None => true,
                    };
                    if better {
                        proof {
                            if old_visited.contains(next) {
                                let steps = choose|steps: Seq<(usize, usize)>| is_walk(g, s, steps) && walk_end(s, steps) == cur && walk_weight(steps) == dist;
                                lemma_walk_push(g, s, steps, next, weight);
                                assert(visited@.contains(next));
                                assert(is_shortest(g, s, next, distances@[next] as nat));
                                assert(distances@[next] <= walk_weight(steps.push((next, weight))));
                                assert(false);
                            }
                            assert(next != cur);
                            let steps = choose|steps: Seq<(usize, usize)>| is_walk(g, s, steps) && walk_end(s, steps) == cur && walk_weight(steps) == dist;
                            lemma_walk_push(g, s, steps, next, weight);
                            assert(walk_of_weight(g, s, next, new_dist as nat));
                            assert(node_set(g).contains(next));
                        }
                        distances.insert(next, new_dist);
                        queue.insert((new_dist, next));
                    }
                    k = k + 1;
                }
                proof {
                    assert forall|u: usize, v: usize, w: usize|
                        visited@.contains(u) && #[trigger] has_edge(g, u, v, w) implies distances@.contains_key(v)
                            && distances@[v] <= distances@[u] + w by {
                        if u == cur {
                            assert(out_edges(g, cur).contains((v, w)));
                            assert(nb@.to_set().contains((v, w)));
                            let l = choose|l: int| 0 <= l < nb.len() && nb@[l] == (v, w);
                            assert(distances@.contains_key(nb@[l].0));
                        } else {
                            assert(old_visited.contains(u));
                        }
                    }
                    assert(univ.contains(cur));
                    assert(univ.difference(visited@) == univ.difference(old_visited).remove(cur));
                    assert(univ.difference(old_visited).contains(cur));
                }
            },
        }
    }
    proof {
        assert forall|t: usize| reaches(g, s, t) implies distances@.contains_key(t) by {
            let steps = choose|steps: Seq<(usize, usize)>| is_walk(g, s, steps) && walk_end(s, steps) == t;
            if !visited@.contains(t) {
                lemma_cut(g, s, visited@, distances@, queue@, steps);
            }
        }
        assert forall|t: usize| distances@.contains_key(t) implies visited@.contains(t) by {
            if !visited@.contains(t) {
                assert(queue@.contains((distances@[t], t)));
            }
        }
        lemma_start_at_zero(g, s, distances@);
    }
    distances
}

/// The nodes reachable from `s`.
pub open spec fn reach_set(g: Graph, s: usize) -> Set<usize> {
    Set::new(|t: usize| reaches(g, s, t))
}

/// A set that holds `s` and is closed under edges holds every node
/// reachable from `s`.
proof fn lemma_closed_holds_walks(g: Graph, s: usize, c: Set<usize>, steps: Seq<(usize, usize)>)
    requires
        c.contains(s),
        forall|u: usize, v: usize, w: usize| c.contains(u) && #[trigger] has_edge(g, u, v, w) ==> c.contains(v),
        is_walk(g, s, steps),
    ensures
        c.contains(walk_end(s, steps)),
    decreases steps.len(),
{
    if steps.len() > 0 {
        lemma_walk_prefix(g, s, steps);
        lemma_closed_holds_walks(g, s, c, steps.drop_last());
    }
}

/// Every node reachable from `start`, `start` included.
pub fn reachable(graph: &Graph, start: &usize) -> (r: BTreeSet<usize>)
    ensures
        r@ == reach_set(*graph, *start),
{
    let ghost g = *graph;
    let ghost s = *start;
    proof {
        lemma_node_set_finite(g);
    }
    let ghost univ = node_set(g).insert(s);
    let mut visited: BTreeSet<usize> = BTreeSet::new();
    let mut stac: Vec<usize> = vec![*start];
    proof {
        lemma_walk_empty(g, s);
    }
    while stac.len() > 0
        invariant
            g == *graph,
            s == *start,
            univ == node_set(g).insert(s),
            univ.finite(),
            visited@.subset_of(univ),
            forall|i: int| 0 <= i < stac.len() ==> univ.contains(#[trigger] stac@[i]),
            forall|t: usize| #[trigger] visited@.contains(t) ==> reaches(g, s, t),
            forall|i: int| 0 <= i < stac.len() ==> reaches(g, s, #[trigger] stac@[i]),
            visited@.contains(s) || stac@.contains(s),
            forall|u: usize, v: usize, w: usize|
                visited@.contains(u) && #[trigger] has_edge(g, u, v, w) ==> visited@.contains(v)
                    || stac@.contains(v),
        decreases univ.difference(visited@).len(), stac.len(),
    {
        let ghost before = stac@;
        let cur = stac.pop().unwrap();
        let ghost popped = stac@;
        assert(before == popped.push(cur));
        if visited.contains(&cur) {
            proof {
                assert forall|u: usize, v: usize, w: usize|
                    visited@.contains(u) && #[trigger] has_edge(g, u, v, w) implies visited@.contains(v)
                        || stac@.contains(v) by {
                    if !visited@.contains(v) {
                        assert(before.contains(v));
                        let i = choose|i: int| 0 <= i < before.len() && before[i] == v;
                        assert(popped[i] == v);
                    }
                }
                if !visited@.contains(s) {
                    let i = choose|i: int| 0 <= i < before.len() && before[i] == s;
                    assert(popped[i] == s);
                }
            }
            continue;
        }
        let ghost old_visited = visited@;
        visited.insert(cur);
        let nb = neighbors(graph, &cur);
        let mut k: usize = 0;
        while k < nb.len()
            invariant
                0 <= k <= nb.len(),
                nb@.to_set() == out_edges(g, cur),
                g == *graph,
                univ == node_set(g).insert(s),
                reaches(g, s, cur),
                forall|i: int| 0 <= i < stac.len() ==> univ.contains(#[trigger] stac@[i]),
                forall|i: int| 0 <= i < stac.len() ==> reaches(g, s, #[trigger] stac@[i]),
                forall|i: int| 0 <= i < popped.len() ==> stac@[i] == popped[i],
                popped.len() <= stac.len(),
                forall|l: int| 0 <= l < k ==> stac@.contains(#[trigger] nb@[l].0),
            decreases nb.len() - k,
        {
            proof {
                assert(nb@.to_set().contains(nb@[k as int]));
                let steps = choose|steps: Seq<(usize, usize)>| is_walk(g, s, steps) && walk_end(s, steps) == cur;
                lemma_walk_push(g, s, steps, nb@[k as int].0, nb@[k as int].1);
                assert(has_edge(g, cur, nb@[k as int].0, nb@[k as int].1));
                assert(node_set(g).contains(nb@[k as int].0));
            }
            let ghost before_push = stac@;
            stac.push(nb[k].0);
            proof {
                assert forall|l: int| 0 <= l < k + 1 implies stac@.contains(#[trigger] nb@[l].0) by {
                    if l < k {
                        assert(before_push.contains(nb@[l].0));
                        let i = choose|i: int| 0 <= i < before_push.len() && before_push[i] == nb@[l].0;
                        assert(stac@[i] == nb@[l].0);
                    } else {
                        assert(stac@[stac.len() - 1] == nb@[l].0);
                    }
                }
            }
            k = k + 1;
        }
        proof {
            assert forall|u: usize, v: usize, w: usize|
                visited@.contains(u) && #[trigger] has_edge(g, u, v, w) implies visited@.contains(v)
                    || stac@.contains(v) by {
                if u == cur {
                    assert(nb@.to_set().contains((v, w)));
                    let l = choose|l: int| 0 <= l < nb.len() && nb@[l] == (v, w);
                    assert(stac@.contains(nb@[l].0));
                } else if !visited@.contains(v) {
                    assert(old_visited.contains(u));
                    assert(before.contains(v));
                    let i = choose|i: int| 0 <= i < before.len() && before[i] == v;
                    assert(v != cur);
                    assert(stac@[i] == v);
                }
            }
            if !visited@.contains(s) {
                let i = choose|i: int| 0 <= i < before.len() && before[i] == s;
                assert(stac@[i] == s);
            }
            assert(univ.contains(cur));
            assert(univ.difference(visited@) == univ.difference(old_visited).remove(cur));
            assert(univ.difference(old_visited).contains(cur));
        }
    }
    proof {
        assert forall|t: usize| reach_set(g, s).contains(t) implies visited@.contains(t) by {
            let steps = choose|steps: Seq<(usize, usize)>| is_walk(g, s, steps) && walk_end(s, steps) == t;
            lemma_closed_holds_walks(g, s, visited@, steps);
        }
        assert(visited@ =~= reach_set(g, s));
    }
    visited
}

/// Whether every node of the graph reaches every node of the graph.
pub fn is_fully_connected(graph: &Graph) -> (r: bool)
    ensures
        r == forall|n: usize| #[trigger] node_set(*graph).contains(n) ==> reach_set(*graph, n) == node_set(*graph),
{
    let all = nodes(graph);
    let ns = all_elements(&all);
    let mut i: usize = 0;
    while i < ns.len()
        invariant
            0 <= i <= ns.len(),
            ns@.to_set() == node_set(*graph),
            all@ == node_set(*graph),
            forall|j: int| 0 <= j < i ==> reach_set(*graph, #[trigger] ns@[j]) == node_set(*graph),
        decreases ns.len() - i,
    {
        let n = ns[i];
        let reach = reachable(graph, &n);
        let mut j: usize = 0;
        while j < ns.len()
            invariant
                0 <= j <= ns.len(),
                0 <= i < ns.len(),
                n == ns@[i as int],
                ns@.to_set() == node_set(*graph),
                reach@ == reach_set(*graph, n),
                forall|l: int| 0 <= l < j ==> reach@.contains(#[trigger] ns@[l]),
            decreases ns.len() - j,
        {
            if !reach.contains(&ns[j]) {
                proof {
                    assert(ns@.contains(ns@[i as int]));
                    assert(ns@.contains(ns@[j as int]));
                    assert(node_set(*graph).contains(n));
                    assert(node_set(*graph).contains(ns@[j as int]));
                    assert(!reach_set(*graph, n).contains(ns@[j as int]));
                }
                return false;
            }
            j = j + 1;
        }
        proof {
            assert forall|t: usize| reach_set(*graph, n).contains(t) <==> node_set(*graph).contains(t) by {
                if node_set(*graph).contains(t) {
                    let l = choose|l: int| 0 <= l < ns.len() && ns@[l] == t;
                    assert(reach@.contains(ns@[l]));
                }
                if reach_set(*graph, n).contains(t) {
                    lemma_reach_in_nodes(*graph, n, t);
                    assert(ns@.contains(ns@[i as int]));
                }
            }
            assert(reach_set(*graph, n) =~= node_set(*graph));
        }
        i = i + 1;
    }
    proof {
        assert forall|n: usize| #[trigger] node_set(*graph).contains(n) implies reach_set(*graph, n) == node_set(*graph) by {
            let j = choose|j: int| 0 <= j < ns.len() && ns@[j] == n;
        }
    }
    true
}

/// A node reached from `s` is `s` or a node of the graph.
proof fn lemma_reach_in_nodes(g: Graph, s: usize, t: usize)
    requires
        reaches(g, s, t),
    ensures
        t == s || node_set(g).contains(t),
{
    let steps = choose|steps: Seq<(usize, usize)>| is_walk(g, s, steps) && walk_end(s, steps) == t;
    if steps.len() > 0 {
        lemma_walk_prefix(g, s, steps);
        assert(has_edge(g, walk_end(s, steps.drop_last()), t, steps.last().1));
    }
}

/// The elements of a set of nodes, each once.
fn all_elements(set: &BTreeSet<usize>) -> (r: Vec<usize>)
    ensures
        r@.to_set() == set@,
        r@.no_duplicates(),
{
    let mut r: Vec<usize> = Vec::new();
    for x in it: set.iter()
        invariant
            it.seq() == set.iter().remaining(),
            r@ == it.seq().unref().take(it.index() as int),
    {
        r.push(*x);
    }
    assert(r@ == set.iter().remaining().unref());
    r
}

/// Shortest-distance tables of every node of the graph.
pub fn all_pairs_shortest_paths(graph: &Graph) -> (r: AllPairShortestPaths)
    requires
        forall|s: usize| #[trigger] node_set(*graph).contains(s) ==> distances_fit(*graph, s),
    ensures
        r@.dom() == node_set(*graph),
        forall|s: usize| #[trigger] r@.contains_key(s) ==> is_distance_table(*graph, s, r@[s]@),
{
    let all = nodes(graph);
    let ns = all_elements(&all);
    let mut r: AllPairShortestPaths = BTreeMap::new();
    let mut i: usize = 0;
    while i < ns.len()
        invariant
            0 <= i <= ns.len(),
            ns@.to_set() == node_set(*graph),
            forall|s: usize| #[trigger] node_set(*graph).contains(s) ==> distances_fit(*graph, s),
            r@.dom() == ns@.take(i as int).to_set(),
            forall|s: usize| #[trigger] r@.contains_key(s) ==> is_distance_table(*graph, s, r@[s]@),
        decreases ns.len() - i,
    {
        let n = ns[i];
        proof {
            assert(ns@.to_set().contains(n));
        }
        let table = dijkstras(graph, &n);
        r.insert(n, table);
        proof {
            assert(ns@.take(i + 1) == ns@.take(i as int).push(n));
            ns@.take(i as int).lemma_push_to_set_commute(n);
        }
        i = i + 1;
    }
    assert(ns@.take(ns.len() as int) == ns@);
    r
}

/// A distance table from `s` holds `s` itself, at distance 0.
pub proof fn lemma_start_at_zero(g: Graph, s: usize, m: Map<usize, usize>)
    requires
        is_distance_table(g, s, m),
    ensures
        m.contains_key(s),
        m[s] == 0,
{
    lemma_walk_empty(g, s);
    assert(reaches(g, s, s));
    assert(is_shortest(g, s, s, m[s] as nat));
    assert(m[s] <= walk_weight(Seq::<(usize, usize)>::empty()));
}

/// No edge `u -> v` of weight `w` out of a node `u` reached from `s` leaves
/// `v` farther than `m[u] + w` in a distance table `m` from `s`.
pub proof fn lemma_edge_relaxed(g: Graph, s: usize, m: Map<usize, usize>, u: usize, v: usize, w: usize)
    requires
        is_distance_table(g, s, m),
        m.contains_key(u),
        has_edge(g, u, v, w),
    ensures
        m.contains_key(v),
        m[v] <= m[u] + w,
{
    assert(is_shortest(g, s, u, m[u] as nat));
    let steps = choose|steps: Seq<(usize, usize)>|
        is_walk(g, s, steps) && walk_end(s, steps) == u && walk_weight(steps) == m[u] as nat;
    lemma_walk_push(g, s, steps, v, w);
    assert(reaches(g, s, v));
    assert(is_shortest(g, s, v, m[v] as nat));
}

/// There is one distance table from `s`: the one `dijkstras` returns is the
/// one `all_pairs_shortest_paths` holds for `s`.
pub proof fn lemma_distance_table_unique(g: Graph, s: usize, m1: Map<usize, usize>, m2: Map<usize, usize>)
    requires
        is_distance_table(g, s, m1),
        is_distance_table(g, s, m2),
    ensures
        m1 == m2,
{
    assert forall|t: usize| m1.contains_key(t) implies m2.contains_key(t) && m1[t] == m2[t] by {
        assert(is_shortest(g, s, t, m1[t] as nat));
        assert(is_shortest(g, s, t, m2[t] as nat));
        let p1 = choose|steps: Seq<(usize, usize)>|
            is_walk(g, s, steps) && walk_end(s, steps) == t && walk_weight(steps) == m1[t] as nat;
        let p2 = choose|steps: Seq<(usize, usize)>|
            is_walk(g, s, steps) && walk_end(s, steps) == t && walk_weight(steps) == m2[t] as nat;
        assert(m1[t] <= walk_weight(p2));
        assert(m2[t] <= walk_weight(p1));
    }
    assert(m1 =~= m2);
}

/// The graph with every edge turned around, weights kept.
pub fn reverse_graph(graph: &Graph) -> (r: Graph)
    ensures
        forall|u: usize, v: usize, w: usize| #[trigger] has_edge(r, v, u, w) <==> has_edge(*graph, u, v, w),
        forall|v: usize| #[trigger] r@.contains_key(v) <==> exists|u: usize| adjacent(*graph, u, v),
{
    let ks = keys(graph);
    let mut res: Graph = BTreeMap::new();
    let mut i: usize = 0;
    while i < ks.len()
        invariant
            0 <= i <= ks.len(),
            ks@.to_set() == graph@.dom(),
            forall|a: usize, b: usize, w: usize| #[trigger] has_edge(res, a, b, w) <==> (ks@.take(i as int).contains(b) && has_edge(*graph, b, a, w)),
            forall|a: usize| #[trigger] res@.contains_key(a) ==> exists|b: usize| adjacent(res, a, b),
        decreases ks.len() - i,
    {
        let u = ks[i];
        let nb = neighbors(graph, &u);
        let mut k: usize = 0;
        while k < nb.len()
            invariant
                0 <= k <= nb.len(),
                i < ks.len(),
                u == ks@[i as int],
                nb@.to_set() == out_edges(*graph, u),
                forall|a: usize, b: usize, w: usize| #[trigger] has_edge(res, a, b, w) <==> ((ks@.take(i as int).contains(b) && has_edge(*graph, b, a, w)) || (b == u && nb@.take(k as int).contains((a, w)))),
                forall|a: usize| #[trigger] res@.contains_key(a) ==> exists|b: usize| adjacent(res, a, b),
            decreases nb.len() - k,
        {
            let (v, w) = nb[k];
            let ghost old_res = res;
            add_edge(&mut res, v, u, w);
            proof {
                assert forall|a: usize, b: usize, x: usize| #[trigger] has_edge(res, a, b, x) <==> (has_edge(old_res, a, b, x) || (a == v && b == u && x == w)) by {
                    if a == v {
                        assert(out_edges(res, v) == out_edges(old_res, v).insert((u, w)));
                    } else {
                        assert(out_edges(res, a) == out_edges(old_res, a));
                    }
                }
                assert forall|a: usize| #[trigger] res@.contains_key(a) implies exists|b: usize| adjacent(res, a, b) by {
                    if a == v {
                        assert(has_edge(res, v, u, w));
                        assert(adjacent(res, v, u));
                    } else {
                        assert(old_res@.contains_key(a));
                        let b = choose|b: usize| adjacent(old_res, a, b);
                        let x = choose|x: usize| has_edge(old_res, a, b, x);
                        assert(has_edge(res, a, b, x));
                        assert(adjacent(res, a, b));
                    }
                }
                assert(nb@.take(k + 1) == nb@.take(k as int).push((v, w)));
                nb@.take(k as int).lemma_push_to_set_commute((v, w));
                let ghost t0 = nb@.take(k as int);
                let ghost t1 = nb@.take(k + 1);
                assert forall|a: usize, x: usize| #[trigger] t1.contains((a, x)) <==> (t0.contains((a, x)) || (a, x) == (v, w)) by {
                    assert(t1.to_set().contains((a, x)) == t1.contains((a, x)));
                    assert(t0.to_set().contains((a, x)) == t0.contains((a, x)));
                }
                assert forall|a: usize, b: usize, x: usize| #[trigger] has_edge(res, a, b, x) <==> ((ks@.take(i as int).contains(b) && has_edge(*graph, b, a, x)) || (b == u && t1.contains((a, x)))) by {
                    assert(has_edge(res, a, b, x) <==> (has_edge(old_res, a, b, x) || (a == v && b == u && x == w)));
                }
            }
            k = k + 1;
        }
        proof {
            assert(nb@.take(nb.len() as int) == nb@);
            assert(ks@.take(i + 1) == ks@.take(i as int).push(u));
            ks@.take(i as int).lemma_push_to_set_commute(u);
            assert forall|a: usize, b: usize, w: usize| #[trigger] has_edge(res, a, b, w) <==> (ks@.take(i + 1).contains(b) && has_edge(*graph, b, a, w)) by {
                assert(ks@.take(i + 1).to_set().contains(b) == ks@.take(i + 1).contains(b));
                assert(ks@.take(i as int).to_set().contains(b) == ks@.take(i as int).contains(b));
                assert(nb@.to_set().contains((a, w)) == nb@.contains((a, w)));
            }
        }
        i = i + 1;
    }
    proof {
        assert(ks@.take(ks.len() as int) == ks@);
        assert forall|u: usize, v: usize, w: usize| #[trigger] has_edge(res, v, u, w) <==> has_edge(*graph, u, v, w) by {
            assert(ks@.to_set().contains(u) == ks@.contains(u));
        }
        assert forall|v: usize| #[trigger] res@.contains_key(v) <==> exists|u: usize| adjacent(*graph, u, v) by {
            if res@.contains_key(v) {
                let u = choose|u: usize| adjacent(res, v, u);
                let w = choose|w: usize| has_edge(res, v, u, w);
                assert(has_edge(*graph, u, v, w));
                assert(adjacent(*graph, u, v));
            }
            if exists|u: usize| adjacent(*graph, u, v) {
                let u = choose|u: usize| adjacent(*graph, u, v);
                let w = choose|w: usize| has_edge(*graph, u, v, w);
                assert(has_edge(res, v, u, w));
            }
        }
    }
    res
}

/// The edge `p -> c` lies on a shortest walk from the start of the
/// distance table `dist`: `p` is in the table, and some edge `p -> c` brings
/// it exactly to the distance of `c`.
pub open spec fn tight(g: Graph, dist: Map<usize, usize>, p: usize, c: usize) -> bool {
    exists|w: usize|
        #[trigger] has_edge(g, p, c, w) && dist.contains_key(p) && dist.contains_key(c) && dist[p]
            + w == dist[c]
}

/// The predecessors of `c` along tight edges.
pub open spec fn tight_preds(g: Graph, dist: Map<usize, usize>, c: usize) -> Set<usize> {
    Set::new(|p: usize| tight(g, dist, p, c))
}

/// Step `i` of `xs` leaves a node other than `start` for one of its tight
/// predecessors.
pub open spec fn chain_link(g: Graph, dist: Map<usize, usize>, start: usize, xs: Seq<usize>, i: int) -> bool {
    xs[i] != start && tight(g, dist, xs[i + 1], xs[i])
}

/// `xs` goes backwards along tight edges from `xs[0]`, and only its last
/// node may be `start`.
pub open spec fn is_back_chain(g: Graph, dist: Map<usize, usize>, start: usize, xs: Seq<usize>) -> bool {
    &&& xs.len() > 0
    &&& forall|i: int| 0 <= i < xs.len() - 1 ==> #[trigger] chain_link(g, dist, start, xs, i)
}

/// The nodes met going backwards along tight edges from `end` without
/// passing through `start`.
pub open spec fn back_reach(g: Graph, dist: Map<usize, usize>, start: usize, end: usize) -> Set<usize> {
    Set::new(|x: usize| exists|xs: Seq<usize>| is_back_chain(g, dist, start, xs) && xs[0] == end && xs.last() == x)
}

/// A set that holds `end`, and every tight predecessor of each of its nodes
/// but `start`, holds every node of `back_reach`.
proof fn lemma_closed_holds_chains(g: Graph, dist: Map<usize, usize>, start: usize, end: usize, c: Set<usize>, xs: Seq<usize>)
    requires
        c.contains(end),
        forall|x: usize, p: usize| c.contains(x) && x != start && #[trigger] tight(g, dist, p, x) ==> c.contains(p),
        is_back_chain(g, dist, start, xs),
        xs[0] == end,
    ensures
        c.contains(xs.last()),
    decreases xs.len(),
{
    if xs.len() > 1 {
        let ys = xs.drop_last();
        assert forall|i: int| 0 <= i < ys.len() - 1 implies #[trigger] chain_link(g, dist, start, ys, i) by {
            assert(ys[i] == xs[i]);
            assert(ys[i + 1] == xs[i + 1]);
            assert(chain_link(g, dist, start, xs, i));
        }
        assert(ys[0] == end);
        assert(ys.len() > 0);
        assert(is_back_chain(g, dist, start, ys));
        lemma_closed_holds_chains(g, dist, start, end, c, ys);
        let n = xs.len() - 2;
        assert(chain_link(g, dist, start, xs, n));
    }
}

/// A chain that ends at `x` goes on to any tight predecessor of `x`, unless
/// `x` is `start`.
proof fn lemma_chain_push(g: Graph, dist: Map<usize, usize>, start: usize, xs: Seq<usize>, p: usize)
    requires
        is_back_chain(g, dist, start, xs),
        xs.last() != start,
        tight(g, dist, p, xs.last()),
    ensures
        is_back_chain(g, dist, start, xs.push(p)),
        xs.push(p)[0] == xs[0],
        xs.push(p).last() == p,
{
    let ys = xs.push(p);
    assert forall|i: int| 0 <= i < ys.len() - 1 implies #[trigger] chain_link(g, dist, start, ys, i) by {
        assert(ys[i] == xs[i]);
        if i < xs.len() - 1 {
            assert(ys[i + 1] == xs[i + 1]);
            assert(chain_link(g, dist, start, xs, i));
        } else {
            assert(ys[i + 1] == p);
        }
    }
}

/// In a distance table from `s`, a node other than `s` that has a
/// predecessor in the table is in the table too, no edge into it brings a
/// predecessor below its distance, and some edge into it is tight.
proof fn lemma_pred_min(g: Graph, s: usize, dist: Map<usize, usize>, c: usize, p: usize, w: usize)
    requires
        is_distance_table(g, s, dist),
        c != s,
        dist.contains_key(p),
        has_edge(g, p, c, w),
    ensures
        dist.contains_key(c),
        forall|q: usize, x: usize| dist.contains_key(q) && #[trigger] has_edge(g, q, c, x) ==> dist[c] <= dist[q] + x,
        exists|q: usize| #[trigger] tight(g, dist, q, c),
{
    lemma_edge_relaxed(g, s, dist, p, c, w);
    assert forall|q: usize, x: usize| dist.contains_key(q) && #[trigger] has_edge(g, q, c, x) implies dist[c] <= dist[q] + x by {
        lemma_edge_relaxed(g, s, dist, q, c, x);
    }
    lemma_tight_exists(g, s, dist, c);
}

/// In a distance table from `s`, every node of the table other than `s` has
/// a tight predecessor.
proof fn lemma_tight_exists(g: Graph, s: usize, dist: Map<usize, usize>, c: usize)
    requires
        is_distance_table(g, s, dist),
        c != s,
        dist.contains_key(c),
    ensures
        exists|q: usize| #[trigger] tight(g, dist, q, c),
{
    assert(is_shortest(g, s, c, dist[c] as nat));
    let steps = choose|steps: Seq<(usize, usize)>|
        is_walk(g, s, steps) && walk_end(s, steps) == c && walk_weight(steps) == dist[c] as nat;
    assert(steps.len() > 0);
    lemma_walk_prefix(g, s, steps);
    let q = walk_end(s, steps.drop_last());
    let x = steps.last().1;
    assert(reaches(g, s, q));
    assert(is_shortest(g, s, q, dist[q] as nat));
    assert(dist[q] <= walk_weight(steps.drop_last()));
    lemma_edge_relaxed(g, s, dist, q, c, x);
    assert(has_edge(g, q, c, x));
    assert(tight(g, dist, q, c));
}

/// For each node on a shortest walk from `start` to `end`, its predecessors
/// along the tight edges (`start` itself maps to no predecessor). A node
/// other than `start` that has no tight predecessor gets no entry.
pub fn rev_all_paths(graph: &Graph, distances: &ShortestPaths, start: usize, end: usize) -> (r: BTreeMap<usize, Vec<usize>>)
    requires
        distances_fit(*graph, start),
        is_distance_table(*graph, start, distances@),
    ensures
        forall|c: usize| #[trigger] r@.contains_key(c) <==> back_reach(*graph, distances@, start, end).contains(c)
            && (c == start || !tight_preds(*graph, distances@, c).is_empty()),
        forall|c: usize| #[trigger] r@.contains_key(c) ==> r@[c]@.to_set() == (if c == start {
            Set::empty()
        } else {
            tight_preds(*graph, distances@, c)
        }),
        forall|c: usize| #[trigger] r@.contains_key(c) ==> r@[c]@.no_duplicates(),
{
    let ghost g = *graph;
    let ghost dist = distances@;
    let rev = reverse_graph(graph);
    proof {
        lemma_node_set_finite(g);
    }
    let ghost univ = node_set(g).insert(end);
    let mut res: BTreeMap<usize, Vec<usize>> = BTreeMap::new();
    let mut seen: BTreeSet<usize> = BTreeSet::new();
    let mut stack: Vec<usize> = vec![end];
    proof {
        assert(is_back_chain(g, dist, start, seq![end]));
        assert(seq![end][0] == end && seq![end].last() == end);
        assert(back_reach(g, dist, start, end).contains(end));
    }
    while stack.len() > 0
        invariant
            g == *graph,
            dist == distances@,
            distances_fit(g, start),
            is_distance_table(g, start, dist),
            forall|u: usize, v: usize, w: usize| #[trigger] has_edge(rev, v, u, w) <==> has_edge(g, u, v, w),
            univ == node_set(g).insert(end),
            univ.finite(),
            seen@.subset_of(univ),
            forall|i: int| 0 <= i < stack.len() ==> univ.contains(#[trigger] stack@[i]),
            forall|x: usize| #[trigger] seen@.contains(x) ==> back_reach(g, dist, start, end).contains(x),
            forall|i: int| 0 <= i < stack.len() ==> back_reach(g, dist, start, end).contains(#[trigger] stack@[i]),
            seen@.contains(end) || stack@.contains(end),
            forall|x: usize, p: usize|
                seen@.contains(x) && x != start && #[trigger] tight(g, dist, p, x) ==> seen@.contains(p)
                    || stack@.contains(p),
            forall|c: usize| #[trigger] res@.contains_key(c) <==> seen@.contains(c)
                && (c == start || !tight_preds(g, dist, c).is_empty()),
            forall|c: usize| #[trigger] res@.contains_key(c) ==> res@[c]@.to_set() == (if c == start {
                Set::empty()
            } else {
                tight_preds(g, dist, c)
            }),
            forall|c: usize| #[trigger] res@.contains_key(c) ==> res@[c]@.no_duplicates(),
        decreases univ.difference(seen@).len(), stack.len(),
    {
        let ghost before = stack@;
        let cur = stack.pop().unwrap();
        let ghost popped = stack@;
        assert(before == popped.push(cur));
        if seen.contains(&cur) {
            proof {
                assert forall|x: usize, p: usize|
                    seen@.contains(x) && x != start && #[trigger] tight(g, dist, p, x) implies seen@.contains(p)
                        || stack@.contains(p) by {
                    if !seen@.contains(p) {
                        assert(before.contains(p));
                        let i = choose|i: int| 0 <= i < before.len() && before[i] == p;
                        assert(popped[i] == p);
                    }
                }
                if !seen@.contains(end) {
                    let i = choose|i: int| 0 <= i < before.len() && before[i] == end;
                    assert(popped[i] == end);
                }
            }
            continue;
        }
        let ghost old_seen = seen@;
        seen.insert(cur);
        proof {
            assert(back_reach(g, dist, start, end).contains(before[before.len() - 1]));
            assert(univ.contains(before[before.len() - 1]));
            assert(univ.difference(seen@) == univ.difference(old_seen).remove(cur));
            assert(univ.difference(old_seen).contains(cur));
        }
        if cur == start {
            res.insert(cur, Vec::new());
            proof {
                assert(Seq::<usize>::empty().to_set() =~= Set::<usize>::empty());
                assert forall|x: usize, p: usize|
                    seen@.contains(x) && x != start && #[trigger] tight(g, dist, p, x) implies seen@.contains(p)
                        || stack@.contains(p) by {
                    if !seen@.contains(p) {
                        assert(old_seen.contains(x));
                        assert(before.contains(p));
                        let i = choose|i: int| 0 <= i < before.len() && before[i] == p;
                        assert(popped[i] == p);
                    }
                }
                if !seen@.contains(end) {
                    let i = choose|i: int| 0 <= i < before.len() && before[i] == end;
                    assert(popped[i] == end);
                }
            }
            continue;
        }
        let nb = neighbors(&rev, &cur);
        // The least distance of `cur` through any predecessor in the table.
        let mut min_dist: Option<usize> = None;
        let mut k: usize = 0;
        while k < nb.len()
            invariant
                0 <= k <= nb.len(),
                nb@.to_set() == out_edges(rev, cur),
                forall|u: usize, v: usize, w: usize| #[trigger] has_edge(rev, v, u, w) <==> has_edge(g, u, v, w),
                dist == distances@,
                distances_fit(g, start),
                is_distance_table(g, start, dist),
                cur != start,
                match min_dist {
                    None => forall|l: int| 0 <= l < k ==> !dist.contains_key(#[trigger] nb@[l].0),
                    Some(m) => {
                        &&& dist.contains_key(cur)
                        &&& m >= dist[cur]
                        &&& (m == dist[cur] || forall|l: int| 0 <= l < k && dist.contains_key(#[trigger] nb@[l].0) ==> dist[nb@[l].0] + nb@[l].1 != dist[cur])
                    },
                },
            decreases nb.len() - k,
        {
            let (n, w) = nb[k];
            proof {
                assert(nb@.to_set().contains(nb@[k as int]));
                assert(has_edge(rev, cur, n, w));
                assert(has_edge(g, n, cur, w));
            }
            match distances.get(&n) {
                Some(d) => {
                    proof {
                        lemma_pred_min(g, start, dist, cur, n, w);
                        assert(is_shortest(g, start, n, dist[n] as nat));
                    }
                    let candidate = *d + w;
                    min_dist = match min_dist {
                        Some(m) => if candidate < m { Some(candidate) } else { Some(m) },
                        None => Some(candidate),
                    };
                },
                None => {},
            }
            k = k + 1;
        }
        match min_dist {
            None => {
                proof {
                    assert(tight_preds(g, dist, cur) =~= Set::empty()) by {
                        assert forall|p: usize| !tight(g, dist, p, cur) by {
                            if tight(g, dist, p, cur) {
                                let w = choose|w: usize| #[trigger] has_edge(g, p, cur, w) && dist.contains_key(p) && dist.contains_key(cur) && dist[p] + w == dist[cur];
                                assert(has_edge(rev, cur, p, w));
                                assert(out_edges(rev, cur).contains((p, w)));
                                let l = choose|l: int| 0 <= l < nb.len() && nb@[l] == (p, w);
                                assert(!dist.contains_key(nb@[l].0));
                            }
                        }
                    }
                    assert forall|x: usize, p: usize|
                        seen@.contains(x) && x != start && #[trigger] tight(g, dist, p, x) implies seen@.contains(p)
                            || stack@.contains(p) by {
                        if x == cur {
                            assert(tight_preds(g, dist, cur).contains(p));
                        }
                        if !seen@.contains(p) {
                            assert(old_seen.contains(x));
                            assert(before.contains(p));
                            let i = choose|i: int| 0 <= i < before.len() && before[i] == p;
                            assert(popped[i] == p);
                        }
                    }
                    if !seen@.contains(end) {
                        let i = choose|i: int| 0 <= i < before.len() && before[i] == end;
                        assert(popped[i] == end);
                    }
                }
            },
            Some(m) => {
                proof {
                    // Some predecessor is tight, and its entry in `nb` fixes the least distance.
                    lemma_tight_exists(g, start, dist, cur);
                    let q = choose|q: usize| #[trigger] tight(g, dist, q, cur);
                    let w = choose|w: usize| #[trigger] has_edge(g, q, cur, w) && dist.contains_key(q) && dist.contains_key(cur) && dist[q] + w == dist[cur];
                    assert(has_edge(rev, cur, q, w));
                    assert(out_edges(rev, cur).contains((q, w)));
                    let l = choose|l: int| 0 <= l < nb.len() && nb@[l] == (q, w);
                    assert(dist.contains_key(nb@[l].0));
                    assert(m == dist[cur]);
                }
                let mut preds: Vec<usize> = Vec::new();
                let ghost mut origin: Seq<int> = Seq::empty();
                let mut k2: usize = 0;
                let ghost stack0 = stack@;
                while k2 < nb.len()
                    invariant
                        0 <= k2 <= nb.len(),
                        nb@.to_set() == out_edges(rev, cur),
                        forall|u: usize, v: usize, w: usize| #[trigger] has_edge(rev, v, u, w) <==> has_edge(g, u, v, w),
                        dist == distances@,
                        distances_fit(g, start),
                        is_distance_table(g, start, dist),
                        dist.contains_key(cur),
                        m == dist[cur],
                        cur != start,
                        forall|i: int| 0 <= i < preds.len() ==> #[trigger] tight(g, dist, preds@[i], cur),
                        nb@.no_duplicates(),
                        preds@.no_duplicates(),
                        origin.len() == preds.len(),
                        forall|i: int| 0 <= i < preds.len() ==> 0 <= #[trigger] origin[i] < k2 && nb@[origin[i]].0 == preds@[i]
                            && dist.contains_key(preds@[i]) && dist[preds@[i]] + nb@[origin[i]].1 == m,
                        forall|l: int| 0 <= l < k2 && dist.contains_key(#[trigger] nb@[l].0) && dist[nb@[l].0] + nb@[l].1 == m ==> preds@.contains(nb@[l].0),
                        stack@.len() == stack0.len() + preds.len(),
                        forall|i: int| 0 <= i < stack0.len() ==> stack@[i] == stack0[i],
                        forall|i: int| 0 <= i < preds.len() ==> stack@[stack0.len() + i] == preds@[i],
                    decreases nb.len() - k2,
                {
                    let (n, w) = nb[k2];
                    proof {
                        assert(nb@.to_set().contains(nb@[k2 as int]));
                        assert(has_edge(rev, cur, n, w));
                        assert(has_edge(g, n, cur, w));
                    }
                    let ghost old_preds = preds@;
                    let ghost old_origin = origin;
                    match distances.get(&n) {
                        Some(d) => {
                            proof {
                                assert(is_shortest(g, start, n, dist[n] as nat));
                            }
                            if *d + w == m {
                                proof {
                                    if old_preds.contains(n) {
                                        let i = choose|i: int| 0 <= i < old_preds.len() && old_preds[i] == n;
                                        assert(nb@[origin[i]] == nb@[k2 as int]);
                                    }
                                    origin = origin.push(k2 as int);
                                }
                                preds.push(n);
                                stack.push(n);
                                proof {
                                    assert(tight(g, dist, n, cur));
                                    assert(origin[old_preds.len() as int] == k2 && preds@[old_preds.len() as int] == n);
                                    assert(dist.contains_key(n) && dist[n] + nb@[k2 as int].1 == m);
                                    assert forall|a: int, b: int| 0 <= a < b < preds@.len() implies preds@[a] != preds@[b] by {
                                        if b == preds@.len() - 1 {
                                            assert(old_preds.contains(preds@[a]));
                                        }
                                    }
                                }
                            }
                        },
                        None => {},
                    }
                    proof {
                        assert forall|i: int| 0 <= i < preds.len() implies 0 <= #[trigger] origin[i] < k2 + 1 && nb@[origin[i]].0 == preds@[i]
                            && dist.contains_key(preds@[i]) && dist[preds@[i]] + nb@[origin[i]].1 == m by {
                            if i < old_preds.len() {
                                assert(preds@[i] == old_preds[i]);
                                assert(origin[i] == old_origin[i]);
                            }
                        }
                        assert forall|l: int| 0 <= l < k2 + 1 && dist.contains_key(#[trigger] nb@[l].0) && dist[nb@[l].0] + nb@[l].1 == m implies preds@.contains(nb@[l].0) by {
                            if l < k2 {
                                let i = choose|i: int| 0 <= i < old_preds.len() && old_preds[i] == nb@[l].0;
                                assert(preds@[i] == nb@[l].0);
                            } else {
                                assert(preds@[preds.len() - 1] == n);
                            }
                        }
                    }
                    k2 = k2 + 1;
                }
                proof {
                    assert forall|p: usize| preds@.to_set().contains(p) <==> tight_preds(g, dist, cur).contains(p) by {
                        if tight(g, dist, p, cur) {
                            let w = choose|w: usize| #[trigger] has_edge(g, p, cur, w) && dist.contains_key(p) && dist.contains_key(cur) && dist[p] + w == dist[cur];
                            assert(has_edge(rev, cur, p, w));
                            assert(out_edges(rev, cur).contains((p, w)));
                            let l = choose|l: int| 0 <= l < nb.len() && nb@[l] == (p, w);
                            assert(preds@.contains(nb@[l].0));
                        }
                        if preds@.contains(p) {
                            let i = choose|i: int| 0 <= i < preds.len() && preds@[i] == p;
                            assert(tight(g, dist, preds@[i], cur));
                        }
                    }
                    assert(preds@.to_set() =~= tight_preds(g, dist, cur));
                    let q = choose|q: usize| #[trigger] tight(g, dist, q, cur);
                    assert(tight_preds(g, dist, cur).contains(q));
                }
                res.insert(cur, preds);
                proof {
                    let cb = choose|xs: Seq<usize>| is_back_chain(g, dist, start, xs) && xs[0] == end && xs.last() == cur;
                    assert forall|i: int| 0 <= i < stack.len() implies back_reach(g, dist, start, end).contains(#[trigger] stack@[i]) && univ.contains(stack@[i]) by {
                        if i < stack0.len() {
                            assert(stack@[i] == popped[i]);
                        } else {
                            let p = stack@[i];
                            assert(p == preds@[i - stack0.len()]);
                            assert(tight(g, dist, p, cur));
                            lemma_chain_push(g, dist, start, cb, p);
                            let w = choose|w: usize| #[trigger] has_edge(g, p, cur, w) && dist.contains_key(p) && dist.contains_key(cur) && dist[p] + w == dist[cur];
                            assert(g@.contains_key(p));
                        }
                    }
                    assert forall|x: usize, p: usize|
                        seen@.contains(x) && x != start && #[trigger] tight(g, dist, p, x) implies seen@.contains(p)
                            || stack@.contains(p) by {
                        if !seen@.contains(p) {
                            if x == cur {
                                assert(tight_preds(g, dist, cur).contains(p));
                                assert(preds@.to_set().contains(p));
                                let i = choose|i: int| 0 <= i < preds.len() && preds@[i] == p;
                                assert(stack@[stack0.len() + i] == p);
                            } else {
                                assert(old_seen.contains(x));
                                assert(before.contains(p));
                                let i = choose|i: int| 0 <= i < before.len() && before[i] == p;
                                assert(stack@[i] == p);
                            }
                        }
                    }
                    if !seen@.contains(end) {
                        let i = choose|i: int| 0 <= i < before.len() && before[i] == end;
                        assert(stack@[i] == end);
                    }
                }
            },
        }
    }
    proof {
        assert forall|x: usize| back_reach(g, dist, start, end).contains(x) implies seen@.contains(x) by {
            let xs = choose|xs: Seq<usize>| is_back_chain(g, dist, start, xs) && xs[0] == end && xs.last() == x;
            lemma_closed_holds_chains(g, dist, start, end, seen@, xs);
        }
    }
    res
}

/// Some walk of at least one step leads from `c` back to `c`.
pub open spec fn on_cycle(g: Graph, c: usize) -> bool {
    exists|steps: Seq<(usize, usize)>| steps.len() > 0 && is_walk(g, c, steps) && walk_end(c, steps) == c
}

/// The graph has a directed cycle.
pub open spec fn has_cycle(g: Graph) -> bool {
    exists|c: usize| on_cycle(g, c)
}

/// `v` stands before `u` in `order`.
pub open spec fn precedes(order: Seq<usize>, v: usize, u: usize) -> bool {
    exists|i: int, j: int| 0 <= i < j < order.len() && order[i] == v && order[j] == u
}

/// `order` lists each node of the graph once, and every edge leads forward.
pub open spec fn is_topological_order(g: Graph, order: Seq<usize>) -> bool {
    &&& order.to_set() == node_set(g)
    &&& order.no_duplicates()
    &&& forall|u: usize, v: usize, w: usize| #[trigger] has_edge(g, u, v, w) ==> precedes(order, u, v)
}

/// The nodes finished by the search so far, in the order they finished:
/// every edge out of a finished node leads to a node that finished earlier.
spec fn finished_in_order(g: Graph, visited: Set<usize>, res: Seq<usize>) -> bool {
    &&& res.to_set() == visited
    &&& res.no_duplicates()
    &&& forall|u: usize, v: usize, w: usize|
        visited.contains(u) && #[trigger] has_edge(g, u, v, w) ==> visited.contains(v) && precedes(res, v, u)
}

/// A walk of at least one step leads from `x` to `t`.
pub open spec fn reaches_plus(g: Graph, x: usize, t: usize) -> bool {
    exists|steps: Seq<(usize, usize)>| steps.len() > 0 && is_walk(g, x, steps) && walk_end(x, steps) == t
}

/// A walk to `t` (of any length), followed by an edge `t -> v`, is a walk
/// of at least one step to `v`.
proof fn lemma_reaches_step(g: Graph, x: usize, t: usize, v: usize, w: usize)
    requires
        reaches(g, x, t),
        has_edge(g, t, v, w),
    ensures
        reaches_plus(g, x, v),
{
    let steps = choose|steps: Seq<(usize, usize)>| is_walk(g, x, steps) && walk_end(x, steps) == t;
    lemma_walk_push(g, x, steps, v, w);
}

/// A walk of at least one step is a walk.
proof fn lemma_plus_reaches(g: Graph, x: usize, t: usize)
    requires
        reaches_plus(g, x, t),
    ensures
        reaches(g, x, t),
{
}

/// How many nodes of `univ` the search has yet to take.
spec fn untaken(univ: Set<usize>, visiting: Set<usize>, visited: Set<usize>) -> nat {
    univ.difference(visiting.union(visited)).len()
}

/// A frame of the depth-first search: a node, its outgoing edges, and how
/// many of them have been followed.
type Frame = (usize, Vec<(usize, usize)>, usize);

/// How many edges the frames have yet to follow, plus one finishing step
/// for each frame.
spec fn pending(frames: Seq<Frame>) -> nat
    decreases frames.len(),
{
    if frames.len() == 0 {
        0
    } else {
        pending(frames.drop_last()) + (frames.last().1.len() - frames.last().2 + 1) as nat
    }
}

/// The frames of the search: each holds the edges of its node, the nodes
/// on the stack are `visiting`, each is reached from those below it, and
/// the edges already followed lead to finished nodes.
spec fn frames_ok(g: Graph, frames: Seq<Frame>, visiting: Set<usize>, visited: Set<usize>) -> bool {
    &&& forall|k: int| 0 <= k < frames.len() ==> (#[trigger] frames[k]).1@.to_set() == out_edges(g, frames[k].0)
        && frames[k].2 <= frames[k].1.len()
    &&& forall|k: int| 0 <= k < frames.len() ==> visiting.contains(#[trigger] frames[k].0)
    &&& forall|x: usize| #[trigger] visiting.contains(x) ==> exists|k: int| 0 <= k < frames.len() && frames[k].0 == x
    &&& forall|j: int, k: int| 0 <= j <= k < frames.len() ==> reaches(g, #[trigger] frames[j].0, #[trigger] frames[k].0)
    &&& forall|j: int, k: int| 0 <= j < k < frames.len() ==> #[trigger] frames[j].0 != #[trigger] frames[k].0
    &&& forall|k: int, l: int| 0 <= k < frames.len() && 0 <= l < frames[k].2 ==> visited.contains(#[trigger] frames[k].1@[l].0)
}

/// Depth-first search from `root`, with an explicit stack of frames:
/// finishes every node reached from `root`, or finds a cycle.
fn visit(
    root: usize,
    graph: &Graph,
    visiting: &mut BTreeSet<usize>,
    visited: &mut BTreeSet<usize>,
    res: &mut Vec<usize>,
    Ghost(univ): Ghost<Set<usize>>,
) -> (r: Option<()>)
    requires
        univ.finite(),
        univ == node_set(*graph),
        univ.contains(root),
        old(visiting)@ == Set::<usize>::empty(),
        !old(visited)@.contains(root),
        old(visited)@.subset_of(univ),
        finished_in_order(*graph, old(visited)@, old(res)@),
    ensures
        r is None ==> has_cycle(*graph),
        r is Some ==> {
            &&& final(visiting)@ == Set::<usize>::empty()
            &&& old(visited)@.subset_of(final(visited)@)
            &&& final(visited)@.contains(root)
            &&& final(visited)@.subset_of(univ)
            &&& finished_in_order(*graph, final(visited)@, final(res)@)
        },
{
    let ghost g = *graph;
    let ghost visited0 = visited@;
    let mut frames: Vec<Frame> = Vec::new();
    let nb = neighbors(graph, &root);
    visiting.insert(root);
    frames.push((root, nb, 0));
    proof {
        lemma_walk_empty(g, root);
        assert(reaches(g, root, root));
        assert(frames@[0].0 == root);
    }
    while frames.len() > 0
        invariant
            g == *graph,
            univ.finite(),
            univ == node_set(g),
            univ.contains(root),
            visiting@.subset_of(univ),
            visited@.subset_of(univ),
            visiting@.disjoint(visited@),
            visited0.subset_of(visited@),
            frames_ok(g, frames@, visiting@, visited@),
            finished_in_order(g, visited@, res@),
            frames.len() > 0 ==> frames@[0].0 == root,
            frames.len() == 0 ==> visited@.contains(root),
        decreases untaken(univ, visiting@, visited@), pending(frames@),
    {
        let ghost fs = frames@;
        let ghost visiting0 = visiting@;
        let ghost visited1 = visited@;
        let ghost res0 = res@;
        let top = frames.len() - 1;
        let (u, nb, i) = frames.pop().unwrap();
        proof {
            assert(fs == frames@.push((u, nb, i)));
            assert(fs[top as int] == (u, nb, i));
            assert(pending(fs) == pending(frames@) + (nb.len() - i + 1) as nat);
        }
        if i == nb.len() {
            // Every edge of `u` is followed: `u` is finished.
            visiting.remove(&u);
            visited.insert(u);
            res.push(u);
            proof {
                assert(visiting0.contains(u));
                assert(visiting@ == visiting0.remove(u));
                assert(res@.to_set() =~= res0.to_set().insert(u)) by {
                    res0.lemma_push_to_set_commute(u);
                }
                assert(res@.no_duplicates()) by {
                    assert(!res0.to_set().contains(u));
                    assert forall|a: int, b: int| 0 <= a < b < res@.len() implies res@[a] != res@[b] by {
                        if b == res@.len() - 1 {
                            assert(res0.contains(res@[a]));
                        }
                    }
                }
                assert forall|x: usize, v: usize, w: usize|
                    visited@.contains(x) && #[trigger] has_edge(g, x, v, w) implies visited@.contains(v) && precedes(res@, v, x) by {
                    if x == u {
                        assert(out_edges(g, u).contains((v, w)));
                        assert(fs[top as int].1@.to_set().contains((v, w)));
                        let l = choose|l: int| 0 <= l < nb.len() && nb@[l] == (v, w);
                        assert(visited1.contains(fs[top as int].1@[l].0));
                        assert(res0.to_set().contains(v));
                        let a = choose|a: int| 0 <= a < res0.len() && res0[a] == v;
                        assert(res@[a] == v && res@[res0.len() as int] == u);
                    } else {
                        assert(res0.to_set().contains(x));
                        let (a, b) = choose|a: int, b: int| 0 <= a < b < res0.len() && res0[a] == v && res0[b] == x;
                        assert(res@[a] == v && res@[b] == x);
                    }
                }
                assert forall|x: usize| #[trigger] visiting@.contains(x) implies exists|k: int| 0 <= k < frames@.len() && frames@[k].0 == x by {
                    let k = choose|k: int| 0 <= k < fs.len() && fs[k].0 == x;
                    assert(k != top);
                    assert(frames@[k] == fs[k]);
                }
                assert forall|k: int| 0 <= k < frames@.len() implies visiting@.contains(#[trigger] frames@[k].0) by {
                    assert(frames@[k] == fs[k]);
                    assert(fs[k].0 != fs[top as int].0);
                }
                assert forall|k: int, l: int| 0 <= k < frames@.len() && 0 <= l < frames@[k].2 implies visited@.contains(#[trigger] frames@[k].1@[l].0) by {
                    assert(frames@[k] == fs[k]);
                }
                assert forall|j: int, k: int| 0 <= j <= k < frames@.len() implies reaches(g, #[trigger] frames@[j].0, #[trigger] frames@[k].0) by {
                    assert(frames@[j] == fs[j] && frames@[k] == fs[k]);
                }
                assert forall|j: int, k: int| 0 <= j < k < frames@.len() implies #[trigger] frames@[j].0 != #[trigger] frames@[k].0 by {
                    assert(frames@[j] == fs[j] && frames@[k] == fs[k]);
                }
                assert forall|k: int| 0 <= k < frames@.len() implies (#[trigger] frames@[k]).1@.to_set() == out_edges(g, frames@[k].0)
                    && frames@[k].2 <= frames@[k].1.len() by {
                    assert(frames@[k] == fs[k]);
                }
                assert(visiting@.union(visited@) =~= visiting0.union(visited1));
                if frames.len() > 0 {
                    assert(frames@[0] == fs[0]);
                } else {
                    assert(u == root);
                }
            }
        } else {
            let n = nb[i].0;
            proof {
                assert(nb@.to_set().contains(nb@[i as int]));
                assert(has_edge(g, u, n, nb@[i as int].1));
                assert(univ.contains(n));
            }
            if visiting.contains(&n) {
                proof {
                    let j = choose|j: int| 0 <= j < fs.len() && fs[j].0 == n;
                    assert(reaches(g, fs[j].0, fs[top as int].0));
                    lemma_reaches_step(g, n, u, n, nb@[i as int].1);
                    assert(on_cycle(g, n));
                }
                return None;
            }
            if visited.contains(&n) {
                frames.push((u, nb, i + 1));
                proof {
                    assert(frames@ == fs.update(top as int, (u, nb, (i + 1) as usize)));
                    assert(frames@.drop_last() == fs.drop_last());
                    assert forall|k: int, l: int| 0 <= k < frames@.len() && 0 <= l < frames@[k].2 implies visited@.contains(#[trigger] frames@[k].1@[l].0) by {
                        if k < top {
                            assert(frames@[k] == fs[k]);
                        }
                    }
                    assert forall|x: usize| #[trigger] visiting@.contains(x) implies exists|k: int| 0 <= k < frames@.len() && frames@[k].0 == x by {
                        let k = choose|k: int| 0 <= k < fs.len() && fs[k].0 == x;
                        assert(frames@[k].0 == fs[k].0);
                    }
                    assert forall|k: int| 0 <= k < frames@.len() implies (#[trigger] frames@[k]).1@.to_set() == out_edges(g, frames@[k].0)
                        && frames@[k].2 <= frames@[k].1.len() by {
                        if k < top {
                            assert(frames@[k] == fs[k]);
                        }
                    }
                    assert forall|j: int, k: int| 0 <= j <= k < frames@.len() implies reaches(g, #[trigger] frames@[j].0, #[trigger] frames@[k].0) by {
                        assert(frames@[j].0 == fs[j].0 && frames@[k].0 == fs[k].0);
                    }
                    assert forall|j: int, k: int| 0 <= j < k < frames@.len() implies #[trigger] frames@[j].0 != #[trigger] frames@[k].0 by {
                        assert(frames@[j].0 == fs[j].0 && frames@[k].0 == fs[k].0);
                    }
                    if top == 0 {
                        assert(frames@[0].0 == root);
                    } else {
                        assert(frames@[0] == fs[0]);
                    }
                }
            } else {
                frames.push((u, nb, i));
                let nbn = neighbors(graph, &n);
                visiting.insert(n);
                frames.push((n, nbn, 0));
                proof {
                    assert(frames@ == fs.push((n, nbn, 0usize)));
                    assert(frames@.drop_last() == fs);
                    assert(frames@[fs.len() as int] == (n, nbn, 0usize));
                    assert forall|k: int| 0 <= k < fs.len() implies frames@[k] == fs[k] by {}
                    assert forall|j: int, k: int| 0 <= j <= k < frames@.len() implies reaches(g, #[trigger] frames@[j].0, #[trigger] frames@[k].0) by {
                        if k == fs.len() {
                            if j == k {
                                lemma_walk_empty(g, n);
                                assert(reaches(g, n, n));
                            } else {
                                assert(reaches(g, fs[j].0, fs[top as int].0));
                                lemma_reaches_step(g, fs[j].0, u, n, nb@[i as int].1);
                                lemma_plus_reaches(g, fs[j].0, n);
                            }
                        }
                    }
                    assert forall|j: int, k: int| 0 <= j < k < frames@.len() implies #[trigger] frames@[j].0 != #[trigger] frames@[k].0 by {
                        if k == fs.len() {
                            assert(visiting0.contains(fs[j].0));
                        }
                    }
                    assert forall|x: usize| #[trigger] visiting@.contains(x) implies exists|k: int| 0 <= k < frames@.len() && frames@[k].0 == x by {
                        if x != n {
                            let k = choose|k: int| 0 <= k < fs.len() && fs[k].0 == x;
                            assert(frames@[k].0 == x);
                        } else {
                            assert(frames@[fs.len() as int].0 == x);
                        }
                    }
                    assert forall|k: int, l: int| 0 <= k < frames@.len() && 0 <= l < frames@[k].2 implies visited@.contains(#[trigger] frames@[k].1@[l].0) by {
                        if k < fs.len() {
                            assert(frames@[k] == fs[k]);
                        }
                    }
                    // `n` is taken now.
                    let before = univ.difference(visiting0.union(visited1));
                    let now = univ.difference(visiting@.union(visited@));
                    assert(now =~= before.remove(n));
                    assert(before.contains(n));
                    assert(untaken(univ, visiting@, visited@) < untaken(univ, visiting0, visited1));
                    assert(frames@[0] == fs[0]);
                }
            }
        }
    }
    proof {
        assert(visiting@ =~= Set::<usize>::empty()) by {
            assert forall|x: usize| !visiting@.contains(x) by {
                if visiting@.contains(x) {
                    let k = choose|k: int| 0 <= k < frames@.len() && frames@[k].0 == x;
                }
            }
        }
    }
    Some(())
}

/// The nodes of the graph ordered so that every edge leads forward, or
/// `None` when the graph has a cycle.
pub fn toposort(graph: &Graph) -> (r: Option<Vec<usize>>)
    ensures
        r is None <==> has_cycle(*graph),
        r matches Some(order) ==> is_topological_order(*graph, order@),
{
    let mut res: Vec<usize> = Vec::new();
    let mut visiting: BTreeSet<usize> = BTreeSet::new();
    let mut visited: BTreeSet<usize> = BTreeSet::new();
    let all = nodes(graph);
    let ns = all_elements(&all);
    let ghost univ = all@;
    assert(res@.to_set() =~= Set::<usize>::empty());
    let mut i: usize = 0;
    while i < ns.len()
        invariant
            0 <= i <= ns.len(),
            ns@.to_set() == node_set(*graph),
            univ == node_set(*graph),
            univ.finite(),
            visiting@ == Set::<usize>::empty(),
            visited@.subset_of(univ),
            finished_in_order(*graph, visited@, res@),
            forall|j: int| 0 <= j < i ==> visited@.contains(#[trigger] ns@[j]),
        decreases ns.len() - i,
    {
        let node = ns[i];
        proof {
            assert(ns@.contains(ns@[i as int]));
        }
        let ghost visited_before = visited@;
        if !visited.contains(&node) {
            proof {
                assert(ns@.to_set().contains(node));
            }
            match visit(node, graph, &mut visiting, &mut visited, &mut res, Ghost(univ)) {
                None => {
                    return None;
                },
                Some(()) => {},
            }
        }
        proof {
            assert forall|j: int| 0 <= j < i + 1 implies visited@.contains(#[trigger] ns@[j]) by {
                if j < i {
                    assert(visited_before.contains(ns@[j]));
                }
            }
        }
        i = i + 1;
    }
    proof {
        assert(visited@ =~= node_set(*graph)) by {
            assert forall|n: usize| node_set(*graph).contains(n) implies visited@.contains(n) by {
                assert(ns@.to_set().contains(n));
                let j = choose|j: int| 0 <= j < ns.len() && ns@[j] == n;
                assert(visited@.contains(ns@[j]));
            }
        }
    }
    let ghost finished = res@;
    let mut order: Vec<usize> = Vec::new();
    let mut k: usize = res.len();
    while k > 0
        invariant
            0 <= k <= res.len(),
            res@ == finished,
            order.len() == res.len() - k,
            forall|m: int| 0 <= m < order.len() ==> order@[m] == finished[finished.len() - 1 - m],
        decreases k,
    {
        k = k - 1;
        order.push(res[k]);
    }
    let res = order;
    proof {
        assert forall|k: int| 0 <= k < res@.len() implies res@[k] == finished[finished.len() - 1 - k] by {}
        assert(res@.to_set() =~= finished.to_set()) by {
            assert forall|n: usize| res@.to_set().contains(n) <==> finished.to_set().contains(n) by {
                if res@.contains(n) {
                    let k = choose|k: int| 0 <= k < res@.len() && res@[k] == n;
                    assert(finished[finished.len() - 1 - k] == n);
                }
                if finished.contains(n) {
                    let k = choose|k: int| 0 <= k < finished.len() && finished[k] == n;
                    assert(res@[finished.len() - 1 - k] == n);
                }
            }
        }
        assert forall|u: usize, v: usize, w: usize| #[trigger] has_edge(*graph, u, v, w) implies precedes(res@, u, v) by {
            assert(node_set(*graph).contains(u)) by {
                assert(graph@.contains_key(u));
            }
            let (i, j) = choose|i: int, j: int| 0 <= i < j < finished.len() && finished[i] == v && finished[j] == u;
            let n = finished.len() - 1;
            assert(res@[n - j] == u && res@[n - i] == v);
        }
        lemma_order_acyclic(*graph, res@);
    }
    Some(res)
}

/// A graph with a topological order has no cycle.
proof fn lemma_order_acyclic(g: Graph, order: Seq<usize>)
    requires
        is_topological_order(g, order),
    ensures
        !has_cycle(g),
{
    assert forall|c: usize| !on_cycle(g, c) by {
        if on_cycle(g, c) {
            let steps = choose|steps: Seq<(usize, usize)>| steps.len() > 0 && is_walk(g, c, steps) && walk_end(c, steps) == c;
            lemma_walk_forward(g, order, c, steps);
            let i = choose|i: int| 0 <= i < order.len() && order[i] == c;
            let j = choose|j: int| 0 <= j < order.len() && order[j] == c;
        }
    }
}

/// Along a walk of at least one step, a topological order moves strictly
/// forward.
proof fn lemma_walk_forward(g: Graph, order: Seq<usize>, s: usize, steps: Seq<(usize, usize)>)
    requires
        is_topological_order(g, order),
        steps.len() > 0,
        is_walk(g, s, steps),
    ensures
        precedes(order, s, walk_end(s, steps)),
    decreases steps.len(),
{
    lemma_walk_prefix(g, s, steps);
    let p = steps.drop_last();
    let x = walk_end(s, p);
    let t = walk_end(s, steps);
    assert(precedes(order, x, t));
    if p.len() > 0 {
        lemma_walk_forward(g, order, s, p);
        let (i, j) = choose|i: int, j: int| 0 <= i < j < order.len() && order[i] == s && order[j] == x;
        let (k, l) = choose|k: int, l: int| 0 <= k < l < order.len() && order[k] == x && order[l] == t;
        assert(j == k);
        assert(order[i] == s && order[l] == t);
    }
}

/// Appends `c` to the list of `p`, which is created when absent.
fn push_value(map: &mut BTreeMap<usize, Vec<usize>>, p: usize, c: usize)
    ensures
        final(map)@.dom() == old(map)@.dom().insert(p),
        final(map)@[p]@ == (if old(map)@.contains_key(p) {
            old(map)@[p]@
        } else {
            Seq::empty()
        }).push(c),
        forall|q: usize| q != p && #[trigger] old(map)@.contains_key(q) ==> final(map)@[q] == old(map)@[q],
{
    let mut list = match map.remove(&p) {
        Some(l) => l,
        None => Vec::new(),
    };
    list.push(c);
    map.insert(p, list);
}

/// The successors of `p` along the tight edges of the shortest walks from
/// `start` to `end`.
pub open spec fn tight_succs(g: Graph, dist: Map<usize, usize>, start: usize, end: usize, p: usize) -> Set<usize> {
    Set::new(|c: usize| back_reach(g, dist, start, end).contains(c) && c != start && tight(g, dist, p, c))
}

/// `m` lists, for each node with some, its successors along the tight edges
/// of the shortest walks from `start` to `end`; other nodes have no entry.
pub open spec fn is_successor_map(g: Graph, dist: Map<usize, usize>, start: usize, end: usize, m: Map<usize, Vec<usize>>) -> bool {
    &&& forall|p: usize| #[trigger] m.contains_key(p) <==> !tight_succs(g, dist, start, end, p).is_empty()
    &&& forall|p: usize| #[trigger] m.contains_key(p) ==> m[p]@.to_set() == tight_succs(g, dist, start, end, p)
    &&& forall|p: usize| #[trigger] m.contains_key(p) ==> m[p]@.no_duplicates()
}

/// The nodes among `cs` whose list in `paths` holds `p`.
spec fn listing(paths: Map<usize, Vec<usize>>, cs: Set<usize>, p: usize) -> Set<usize> {
    Set::new(|c: usize| cs.contains(c) && paths[c]@.to_set().contains(p))
}

/// The successors of each node along the tight edges of the shortest walks
/// from `start` to `end`: the predecessor map of `rev_all_paths` turned
/// around. A node with no such successor gets no entry.
pub fn all_paths(graph: &Graph, distances: &ShortestPaths, start: usize, end: usize) -> (r: BTreeMap<usize, Vec<usize>>)
    requires
        distances_fit(*graph, start),
        is_distance_table(*graph, start, distances@),
    ensures
        is_successor_map(*graph, distances@, start, end, r@),
{
    let ghost g = *graph;
    let ghost dist = distances@;
    let paths = rev_all_paths(graph, distances, start, end);
    let ks = keys(&paths);
    let mut acc: BTreeMap<usize, Vec<usize>> = BTreeMap::new();
    let mut i: usize = 0;
    while i < ks.len()
        invariant
            0 <= i <= ks.len(),
            ks@.to_set() == paths@.dom(),
            ks@.no_duplicates(),
            forall|p: usize| #[trigger] acc@.contains_key(p) <==> !listing(paths@, ks@.take(i as int).to_set(), p).is_empty(),
            forall|p: usize| #[trigger] acc@.contains_key(p) ==> acc@[p]@.to_set() == listing(paths@, ks@.take(i as int).to_set(), p),
            forall|p: usize| #[trigger] acc@.contains_key(p) ==> acc@[p]@.no_duplicates(),
            forall|c: usize| #[trigger] paths@.contains_key(c) ==> paths@[c]@.no_duplicates(),
        decreases ks.len() - i,
    {
        let c = ks[i];
        proof {
            assert(ks@.contains(ks@[i as int]));
        }
        let ghost k0 = ks@.take(i as int).to_set();
        let ghost k1 = ks@.take(i + 1).to_set();
        proof {
            assert(ks@.take(i + 1) == ks@.take(i as int).push(c));
            ks@.take(i as int).lemma_push_to_set_commute(c);
            assert(!k0.contains(c)) by {
                assert(ks@.no_duplicates());
                if k0.contains(c) {
                    let k = choose|k: int| 0 <= k < i && ks@.take(i as int)[k] == c;
                    assert(ks@[k] == ks@[i as int]);
                }
            }
        }
        let preds = paths.get(&c).unwrap();
        let mut j: usize = 0;
        while j < preds.len()
            invariant
                0 <= j <= preds.len(),
                0 <= i < ks.len(),
                c == ks@[i as int],
                paths@.contains_key(c),
                *preds == paths@[c],
                k1 == k0.insert(c),
                !k0.contains(c),
                forall|p: usize| #[trigger] acc@.contains_key(p) <==> (!listing(paths@, k0, p).is_empty() || preds@.take(j as int).to_set().contains(p)),
                forall|p: usize| #[trigger] acc@.contains_key(p) ==> acc@[p]@.to_set() == listing(paths@, k0, p).union(
                    if preds@.take(j as int).to_set().contains(p) { set![c] } else { Set::empty() }),
                forall|p: usize| #[trigger] acc@.contains_key(p) ==> acc@[p]@.no_duplicates(),
                preds@.no_duplicates(),
            decreases preds.len() - j,
        {
            let p = preds[j];
            let ghost old_acc = acc@;
            let ghost t0 = preds@.take(j as int).to_set();
            let ghost t1 = preds@.take(j + 1).to_set();
            proof {
                assert(preds@.take(j + 1) == preds@.take(j as int).push(p));
                preds@.take(j as int).lemma_push_to_set_commute(p);
            }
            proof {
                assert(!t0.contains(p)) by {
                    if t0.contains(p) {
                        let k = choose|k: int| 0 <= k < j && preds@.take(j as int)[k] == p;
                        assert(preds@[k] == preds@[j as int]);
                    }
                }
                if old_acc.contains_key(p) {
                    assert(!old_acc[p]@.to_set().contains(c));
                    assert(!old_acc[p]@.contains(c));
                }
            }
            push_value(&mut acc, p, c);
            proof {
                assert forall|q: usize| #[trigger] acc@.contains_key(q) implies acc@[q]@.no_duplicates() by {
                    if q == p {
                        if old_acc.contains_key(p) {
                            assert forall|a: int, b: int| 0 <= a < b < acc@[p]@.len() implies acc@[p]@[a] != acc@[p]@[b] by {
                                if b == acc@[p]@.len() - 1 {
                                    assert(old_acc[p]@.contains(acc@[p]@[a]));
                                }
                            }
                        }
                    } else {
                        assert(old_acc.contains_key(q));
                    }
                }
                assert forall|q: usize| #[trigger] acc@.contains_key(q) implies acc@[q]@.to_set() == listing(paths@, k0, q).union(
                    if t1.contains(q) { set![c] } else { Set::empty() }) by {
                    if q == p {
                        if old_acc.contains_key(p) {
                            old_acc[p]@.lemma_push_to_set_commute(c);
                        } else {
                            Seq::<usize>::empty().lemma_push_to_set_commute(c);
                            assert(Seq::<usize>::empty().to_set() =~= Set::empty());
                        }
                        assert(acc@[q]@.to_set() =~= listing(paths@, k0, q).union(
                            if t1.contains(q) { set![c] } else { Set::empty() }));
                    } else {
                        assert(old_acc.contains_key(q));
                    }
                }
            }
            j = j + 1;
        }
        proof {
            let ghost tall = preds@.take(preds.len() as int);
            assert(tall == preds@);
            assert forall|p: usize| listing(paths@, k1, p) == listing(paths@, k0, p).union(
                    if preds@.to_set().contains(p) { set![c] } else { Set::empty() }) by {
                assert(listing(paths@, k1, p) =~= listing(paths@, k0, p).union(
                    if preds@.to_set().contains(p) { set![c] } else { Set::empty() }));
            }
            assert forall|p: usize| #[trigger] acc@.contains_key(p) <==> !listing(paths@, k1, p).is_empty() by {
                if preds@.to_set().contains(p) {
                    assert(listing(paths@, k1, p).contains(c));
                }
                if !listing(paths@, k0, p).is_empty() {
                    let x = listing(paths@, k0, p).choose();
                    assert(listing(paths@, k1, p).contains(x));
                }
                if !listing(paths@, k1, p).is_empty() {
                    let x = listing(paths@, k1, p).choose();
                    if x != c {
                        assert(listing(paths@, k0, p).contains(x));
                    }
                }
            }
        }
        i = i + 1;
    }
    proof {
        assert(ks@.take(ks.len() as int) == ks@);
        assert forall|p: usize| listing(paths@, ks@.to_set(), p) == tight_succs(g, dist, start, end, p) by {
            assert forall|c: usize| listing(paths@, ks@.to_set(), p).contains(c) <==> tight_succs(g, dist, start, end, p).contains(c) by {
                if back_reach(g, dist, start, end).contains(c) && c != start && tight(g, dist, p, c) {
                    assert(tight_preds(g, dist, c).contains(p));
                    assert(paths@.contains_key(c));
                }
                if listing(paths@, ks@.to_set(), p).contains(c) && c == start {
                    assert(!Set::<usize>::empty().contains(p));
                }
            }
            assert(listing(paths@, ks@.to_set(), p) =~= tight_succs(g, dist, start, end, p));
        }
    }
    acc
}

/// Step `i` of `xs` follows the successor lists of `paths` from a node other
/// than `end`.
pub open spec fn succ_link(paths: Map<usize, Vec<usize>>, end: usize, xs: Seq<usize>, i: int) -> bool {
    &&& xs[i] != end
    &&& paths.contains_key(xs[i])
    &&& paths[xs[i]]@.contains(xs[i + 1])
}

/// `xs` starts at `start` and follows the successor lists, stopping at the
/// first `end` if it reaches one.
pub open spec fn is_succ_prefix(paths: Map<usize, Vec<usize>>, start: usize, end: usize, xs: Seq<usize>) -> bool {
    &&& xs.len() > 0
    &&& xs[0] == start
    &&& forall|i: int| 0 <= i < xs.len() - 1 ==> #[trigger] succ_link(paths, end, xs, i)
}

/// `xs` follows the successor lists from `start` to `end`.
pub open spec fn is_succ_path(paths: Map<usize, Vec<usize>>, start: usize, end: usize, xs: Seq<usize>) -> bool {
    is_succ_prefix(paths, start, end, xs) && xs.last() == end
}

/// Following the successor lists from `start` never comes back to a node.
pub open spec fn succ_acyclic(paths: Map<usize, Vec<usize>>, start: usize, end: usize) -> bool {
    forall|xs: Seq<usize>| #[trigger] is_succ_prefix(paths, start, end, xs) ==> xs.no_duplicates()
}

/// Some list of `r` holds exactly `xs`.
pub open spec fn lists_path(r: Seq<Vec<usize>>, xs: Seq<usize>) -> bool {
    exists|i: int| 0 <= i < r.len() && #[trigger] r[i]@ == xs
}

/// `xs` is a successor path from `start` to `end` that begins with `path`.
spec fn completes(paths: Map<usize, Vec<usize>>, start: usize, end: usize, path: Seq<usize>, xs: Seq<usize>) -> bool {
    is_succ_path(paths, start, end, xs) && path.is_prefix_of(xs)
}

/// `xs` completes `path`, and goes on from it to one of `next[lo..]`.
spec fn completes_via(
    paths: Map<usize, Vec<usize>>,
    start: usize,
    end: usize,
    path: Seq<usize>,
    next: Seq<usize>,
    lo: int,
    xs: Seq<usize>,
) -> bool {
    &&& completes(paths, start, end, path, xs)
    &&& xs.len() > path.len()
    &&& exists|l: int| lo <= l < next.len() && #[trigger] next[l] == xs[path.len() as int]
}

/// No list of `paths` holds a node twice.
pub open spec fn lists_distinct(paths: Map<usize, Vec<usize>>) -> bool {
    forall|k: usize| #[trigger] paths.contains_key(k) ==> paths[k]@.no_duplicates()
}

/// The lists of `r` from index `lo` on are pairwise different.
pub open spec fn distinct_from(r: Seq<Vec<usize>>, lo: int) -> bool {
    forall|a: int, b: int| lo <= a < b < r.len() ==> #[trigger] r[a]@ != #[trigger] r[b]@
}

/// Every successor path from `path[0]` to `end` that begins with `path` is
/// added to `result`.
fn extend_paths(
    paths: &BTreeMap<usize, Vec<usize>>,
    end: usize,
    path: Vec<usize>,
    result: &mut Vec<Vec<usize>>,
    Ghost(start): Ghost<usize>,
)
    requires
        is_succ_prefix(paths@, start, end, path@),
        succ_acyclic(paths@, start, end),
    ensures
        forall|xs: Seq<usize>| #[trigger] lists_path(final(result)@, xs) <==> (lists_path(old(result)@, xs)
            || completes(paths@, start, end, path@, xs)),
        final(result)@.len() >= old(result)@.len(),
        forall|i: int| 0 <= i < old(result)@.len() ==> #[trigger] final(result)@[i] == old(result)@[i],
        forall|i: int| old(result)@.len() <= i < final(result)@.len() ==> completes(paths@, start, end, path@, #[trigger] final(result)@[i]@),
        lists_distinct(paths@) ==> distinct_from(final(result)@, old(result)@.len() as int),
    decreases paths@.dom().len() + 1 - path@.len(),
{
    let ghost pv = path@;
    let cur = path[path.len() - 1];
    if cur == end {
        let ghost r0 = result@;
        result.push(path);
        proof {
            assert(result@[r0.len() as int]@ == pv);
            assert(pv.is_prefix_of(pv));
            assert(completes(paths@, start, end, pv, result@[r0.len() as int]@));
            assert forall|xs: Seq<usize>| #[trigger] lists_path(result@, xs) <==> (lists_path(r0, xs)
                || completes(paths@, start, end, pv, xs)) by {
                if completes(paths@, start, end, pv, xs) {
                    if xs.len() > pv.len() {
                        assert(succ_link(paths@, end, xs, pv.len() - 1));
                    }
                    assert(xs =~= pv);
                    assert(result@[r0.len() as int]@ == xs);
                }
                if lists_path(result@, xs) {
                    let i = choose|i: int| 0 <= i < result@.len() && #[trigger] result@[i]@ == xs;
                    if i < r0.len() {
                        assert(r0[i]@ == xs);
                    } else {
                        assert(xs == pv);
                        assert(pv.is_prefix_of(xs));
                    }
                }
                if lists_path(r0, xs) {
                    let i = choose|i: int| 0 <= i < r0.len() && #[trigger] r0[i]@ == xs;
                    assert(result@[i]@ == xs);
                }
            }
        }
        return;
    }
    match paths.get(&cur) {
        None => {
            proof {
                assert forall|xs: Seq<usize>| !completes(paths@, start, end, pv, xs) by {
                    if completes(paths@, start, end, pv, xs) {
                        if xs.len() > pv.len() {
                            assert(succ_link(paths@, end, xs, pv.len() - 1));
                        } else {
                            assert(xs.last() == pv.last());
                        }
                    }
                }
            }
        },
        Some(next) => {
            proof {
                // The path so far holds distinct keys only, so it cannot grow past them.
                assert(pv.no_duplicates());
                assert(pv.to_set().subset_of(paths@.dom())) by {
                    assert forall|x: usize| pv.to_set().contains(x) implies paths@.dom().contains(x) by {
                        let k = choose|k: int| 0 <= k < pv.len() && pv[k] == x;
                        if k < pv.len() - 1 {
                            assert(succ_link(paths@, end, pv, k));
                        }
                    }
                }
                pv.unique_seq_to_set();
                vstd::set_lib::lemma_len_subset(pv.to_set(), paths@.dom());
            }
            let ghost r0 = result@;
            let mut j: usize = next.len();
            while j > 0
                invariant
                    0 <= j <= next.len(),
                    paths@.contains_key(cur),
                    *next == paths@[cur],
                    path@ == pv,
                    cur == pv.last(),
                    cur != end,
                    is_succ_prefix(paths@, start, end, pv),
                    succ_acyclic(paths@, start, end),
                    pv.len() <= paths@.dom().len(),
                    forall|xs: Seq<usize>| #[trigger] lists_path(result@, xs) <==> (lists_path(r0, xs)
                        || completes_via(paths@, start, end, pv, next@, j as int, xs)),
                    result@.len() >= r0.len(),
                    forall|i: int| 0 <= i < r0.len() ==> #[trigger] result@[i] == r0[i],
                    forall|i: int| r0.len() <= i < result@.len() ==> completes_via(paths@, start, end, pv, next@, j as int, #[trigger] result@[i]@),
                    lists_distinct(paths@) ==> distinct_from(result@, r0.len() as int),
                decreases j,
            {
                j = j - 1;
                let n = next[j];
                let mut longer = path.clone();
                assert(longer@ =~= pv);
                longer.push(n);
                let ghost lv = longer@;
                proof {
                    assert forall|i: int| 0 <= i < lv.len() - 1 implies #[trigger] succ_link(paths@, end, lv, i) by {
                        if i < pv.len() - 1 {
                            assert(succ_link(paths@, end, pv, i));
                        } else {
                            assert(next@[j as int] == n);
                        }
                    }
                }
                let ghost r1 = result@;
                extend_paths(paths, end, longer, result, Ghost(start));
                proof {
                    let pl = pv.len() as int;
                    assert forall|xs: Seq<usize>| #[trigger] lists_path(result@, xs) <==> (lists_path(r0, xs)
                        || completes_via(paths@, start, end, pv, next@, j as int, xs)) by {
                        assert(lists_path(result@, xs) <==> (lists_path(r1, xs) || completes(paths@, start, end, lv, xs)));
                        assert(lists_path(r1, xs) <==> (lists_path(r0, xs) || completes_via(paths@, start, end, pv, next@, j + 1, xs)));
                        if completes_via(paths@, start, end, pv, next@, j as int, xs) {
                            let l = choose|l: int| j <= l < next@.len() && #[trigger] next@[l] == xs[pl];
                            if l == j {
                                assert(lv.is_prefix_of(xs)) by {
                                    assert forall|k: int| 0 <= k < lv.len() implies lv[k] == xs[k] by {
                                        if k < pl {
                                            assert(pv[k] == xs[k]);
                                        }
                                    }
                                }
                            } else {
                                assert(completes_via(paths@, start, end, pv, next@, j + 1, xs));
                            }
                        }
                        if completes_via(paths@, start, end, pv, next@, j + 1, xs) {
                            let l = choose|l: int| j + 1 <= l < next@.len() && #[trigger] next@[l] == xs[pl];
                            assert(completes_via(paths@, start, end, pv, next@, j as int, xs));
                        }
                        if completes(paths@, start, end, lv, xs) {
                            assert(pv.is_prefix_of(xs)) by {
                                assert forall|k: int| 0 <= k < pl implies pv[k] == xs[k] by {
                                    assert(lv[k] == xs[k]);
                                }
                            }
                            assert(xs[pl] == lv[pl]);
                            assert(next@[j as int] == xs[pl]);
                            assert(completes_via(paths@, start, end, pv, next@, j as int, xs));
                        }
                    }
                }
                proof {
                    let pl = pv.len() as int;
                    assert forall|i: int| r0.len() <= i < result@.len() implies completes_via(paths@, start, end, pv, next@, j as int, #[trigger] result@[i]@) by {
                        let xs = result@[i]@;
                        if i < r1.len() {
                            assert(result@[i] == r1[i]);
                            assert(completes_via(paths@, start, end, pv, next@, j + 1, xs));
                            let l = choose|l: int| j + 1 <= l < next@.len() && #[trigger] next@[l] == xs[pl];
                        } else {
                            assert(completes(paths@, start, end, lv, xs));
                            assert(pv.is_prefix_of(xs)) by {
                                assert forall|k: int| 0 <= k < pl implies pv[k] == xs[k] by {
                                    assert(lv[k] == xs[k]);
                                }
                            }
                            assert(xs[pl] == lv[pl]);
                            assert(next@[j as int] == xs[pl]);
                        }
                    }
                    assert forall|i: int| 0 <= i < r0.len() implies #[trigger] result@[i] == r0[i] by {
                        assert(result@[i] == r1[i]);
                    }
                    if lists_distinct(paths@) {
                        assert(next@.no_duplicates());
                        assert forall|a: int, b: int| r0.len() <= a < b < result@.len() implies #[trigger] result@[a]@ != #[trigger] result@[b]@ by {
                            if b >= r1.len() && a < r1.len() {
                                assert(result@[a] == r1[a]);
                                let xa = r1[a]@;
                                assert(completes_via(paths@, start, end, pv, next@, j + 1, xa));
                                let l = choose|l: int| j + 1 <= l < next@.len() && #[trigger] next@[l] == xa[pl];
                                let xb = result@[b]@;
                                assert(completes(paths@, start, end, lv, xb));
                                assert(xb[pl] == lv[pl]);
                                assert(next@[l] != next@[j as int]);
                            } else if b < r1.len() {
                                assert(result@[a] == r1[a] && result@[b] == r1[b]);
                            }
                        }
                    }
                }
            }
            proof {
                assert forall|i: int| r0.len() <= i < result@.len() implies completes(paths@, start, end, pv, #[trigger] result@[i]@) by {
                    assert(completes_via(paths@, start, end, pv, next@, 0, result@[i]@));
                }
                assert forall|xs: Seq<usize>| #[trigger] lists_path(result@, xs) <==> (lists_path(r0, xs)
                    || completes(paths@, start, end, pv, xs)) by {
                    let pl = pv.len() as int;
                    if completes(paths@, start, end, pv, xs) {
                        if xs.len() > pl {
                            assert(succ_link(paths@, end, xs, pl - 1));
                            assert(xs[pl - 1] == pv[pl - 1]);
                            assert(next@.contains(xs[pl]));
                            let l = choose|l: int| 0 <= l < next@.len() && next@[l] == xs[pl];
                            assert(completes_via(paths@, start, end, pv, next@, 0, xs));
                        } else {
                            assert(xs.last() == pv.last());
                        }
                    }
                }
            }
        },
    }
}

/// Every path that follows the successor lists of `paths` from `start` to
/// `end`, as a list of nodes; each once when no list holds a node twice.
pub fn paths_to_vecs(paths: &BTreeMap<usize, Vec<usize>>, start: usize, end: usize) -> (r: Vec<Vec<usize>>)
    requires
        succ_acyclic(paths@, start, end),
    ensures
        forall|xs: Seq<usize>| lists_path(r@, xs) <==> is_succ_path(paths@, start, end, xs),
        lists_distinct(paths@) ==> forall|i: int, j: int| 0 <= i < j < r@.len() ==> #[trigger] r@[i]@ != #[trigger] r@[j]@,
{
    let mut result: Vec<Vec<usize>> = Vec::new();
    let first = vec![start];
    proof {
        assert(is_succ_prefix(paths@, start, end, first@));
    }
    let ghost fv = first@;
    extend_paths(paths, end, first, &mut result, Ghost(start));
    proof {
        assert forall|xs: Seq<usize>| lists_path(result@, xs) <==> is_succ_path(paths@, start, end, xs) by {
            assert(lists_path(result@, xs) <==> (lists_path(Seq::<Vec<usize>>::empty(), xs) || completes(paths@, start, end, fv, xs)));
            if is_succ_path(paths@, start, end, xs) {
                assert(fv.is_prefix_of(xs));
            }
        }
    }
    result
}

/// `steps` is a walk of at least one step from `c` back to `c`.
pub open spec fn is_cycle(g: Graph, c: usize, steps: Seq<(usize, usize)>) -> bool {
    steps.len() > 0 && is_walk(g, c, steps) && walk_end(c, steps) == c
}

/// Every cycle of the graph weighs more than nothing.
pub open spec fn no_zero_cycle(g: Graph) -> bool {
    forall|c: usize, steps: Seq<(usize, usize)>| #[trigger] is_cycle(g, c, steps) ==> walk_weight(steps) > 0
}

/// The nodes a walk from `s` passes through, `s` first.
pub open spec fn node_seq(s: usize, steps: Seq<(usize, usize)>) -> Seq<usize> {
    Seq::new((steps.len() + 1) as nat, |i: int| node_at(s, steps, i))
}

/// The weight of a walk is the weight of its first `k` steps plus the
/// weight of the rest.
proof fn lemma_weight_split(steps: Seq<(usize, usize)>, k: int)
    requires
        0 <= k <= steps.len(),
    ensures
        walk_weight(steps) == walk_weight(steps.take(k)) + walk_weight(steps.skip(k)),
    decreases steps.len(),
{
    if k < steps.len() {
        let d = steps.drop_last();
        lemma_weight_split(d, k);
        assert(d.take(k) == steps.take(k));
        assert(steps.skip(k).drop_last() == d.skip(k));
        assert(steps.skip(k).last() == steps.last());
    } else {
        assert(steps.take(k) == steps);
        assert(steps.skip(k).len() == 0);
    }
}

/// The first `k` steps of a walk, and the steps after them, are walks.
proof fn lemma_walk_split(g: Graph, s: usize, steps: Seq<(usize, usize)>, k: int)
    requires
        is_walk(g, s, steps),
        0 <= k <= steps.len(),
    ensures
        is_walk(g, s, steps.take(k)),
        walk_end(s, steps.take(k)) == node_at(s, steps, k),
        is_walk(g, node_at(s, steps, k), steps.skip(k)),
        walk_end(node_at(s, steps, k), steps.skip(k)) == walk_end(s, steps),
        walk_weight(steps) == walk_weight(steps.take(k)) + walk_weight(steps.skip(k)),
{
    let a = steps.take(k);
    let b = steps.skip(k);
    let m = node_at(s, steps, k);
    assert forall|i: int| 0 <= i < a.len() implies #[trigger] has_edge(g, node_at(s, a, i), a[i].0, a[i].1) by {
        assert(node_at(s, a, i) == node_at(s, steps, i));
        assert(has_edge(g, node_at(s, steps, i), steps[i].0, steps[i].1));
    }
    assert forall|i: int| 0 <= i < b.len() implies #[trigger] has_edge(g, node_at(m, b, i), b[i].0, b[i].1) by {
        assert(node_at(m, b, i) == node_at(s, steps, k + i));
        assert(has_edge(g, node_at(s, steps, k + i), steps[k + i].0, steps[k + i].1));
    }
    lemma_weight_split(steps, k);
}

/// A walk from `s` followed by a walk from where it ends is a walk from `s`.
proof fn lemma_walk_concat(g: Graph, s: usize, a: Seq<(usize, usize)>, b: Seq<(usize, usize)>)
    requires
        is_walk(g, s, a),
        is_walk(g, walk_end(s, a), b),
    ensures
        is_walk(g, s, a + b),
        walk_end(s, a + b) == walk_end(walk_end(s, a), b),
        walk_weight(a + b) == walk_weight(a) + walk_weight(b),
{
    let c = a + b;
    let m = walk_end(s, a);
    assert forall|i: int| 0 <= i < c.len() implies #[trigger] has_edge(g, node_at(s, c, i), c[i].0, c[i].1) by {
        if i < a.len() {
            assert(node_at(s, c, i) == node_at(s, a, i));
            assert(has_edge(g, node_at(s, a, i), a[i].0, a[i].1));
        } else {
            assert(node_at(s, c, i) == node_at(m, b, i - a.len()));
            assert(has_edge(g, node_at(m, b, i - a.len()), b[i - a.len()].0, b[i - a.len()].1));
        }
    }
    assert(c.take(a.len() as int) == a);
    assert(c.skip(a.len() as int) == b);
    lemma_weight_split(c, a.len() as int);
}

/// Along a shortest walk from `s`, every prefix is a shortest walk to where
/// it ends.
proof fn lemma_prefix_shortest(g: Graph, s: usize, dist: Map<usize, usize>, steps: Seq<(usize, usize)>, k: int)
    requires
        is_distance_table(g, s, dist),
        is_walk(g, s, steps),
        is_shortest(g, s, walk_end(s, steps), walk_weight(steps)),
        0 <= k <= steps.len(),
    ensures
        dist.contains_key(node_at(s, steps, k)),
        walk_weight(steps.take(k)) == dist[node_at(s, steps, k)],
{
    lemma_walk_split(g, s, steps, k);
    let x = node_at(s, steps, k);
    assert(reaches(g, s, x));
    assert(is_shortest(g, s, x, dist[x] as nat));
    if walk_weight(steps.take(k)) != dist[x] {
        assert(dist[x] < walk_weight(steps.take(k)));
        let best = choose|w: Seq<(usize, usize)>| is_walk(g, s, w) && walk_end(s, w) == x && walk_weight(w) == dist[x] as nat;
        lemma_walk_concat(g, s, best, steps.skip(k));
        assert(walk_weight(steps) <= walk_weight(best + steps.skip(k)));
    }
}

/// A path along tight edges is the node sequence of a walk that weighs the
/// growth of the distance from its first node to its last.
proof fn lemma_tight_walk(g: Graph, dist: Map<usize, usize>, xs: Seq<usize>) -> (steps: Seq<(usize, usize)>)
    requires
        xs.len() > 0,
        dist.contains_key(xs[0]),
        forall|k: int| 0 <= k < xs.len() - 1 ==> #[trigger] tight(g, dist, xs[k], xs[k + 1]),
    ensures
        is_walk(g, xs[0], steps),
        steps.len() == xs.len() - 1,
        walk_end(xs[0], steps) == xs.last(),
        dist.contains_key(xs[0]),
        dist.contains_key(xs.last()),
        walk_weight(steps) + dist[xs[0]] == dist[xs.last()],
{
    let n = xs.len() - 1;
    let s = xs[0];
    let steps = Seq::new(n as nat, |i: int| (xs[i + 1], tight_weight(g, dist, xs[i], xs[i + 1])));
    assert forall|i: int| 0 <= i < n implies dist.contains_key(#[trigger] xs[i]) && dist.contains_key(xs[i + 1])
        && has_edge(g, xs[i], xs[i + 1], steps[i].1) && dist[xs[i]] + steps[i].1 == dist[xs[i + 1]] by {
        assert(tight(g, dist, xs[i], xs[i + 1]));
    }
    assert forall|i: int| 0 <= i <= n implies node_at(s, steps, i) == xs[i] by {}
    assert forall|i: int| 0 <= i < steps.len() implies #[trigger] has_edge(g, node_at(s, steps, i), steps[i].0, steps[i].1) by {
        assert(node_at(s, steps, i) == xs[i]);
        assert(dist.contains_key(xs[i]));
    }
    lemma_prefix_weight(g, dist, s, steps, xs, n);
    assert(steps.take(n) == steps);
    steps
}

/// Along a successor map with no cycle of weight zero in the graph,
/// following the lists from `start` never comes back to a node, so every
/// path it gives ends.
pub proof fn lemma_successor_map_acyclic(g: Graph, dist: Map<usize, usize>, start: usize, end: usize, m: Map<usize, Vec<usize>>)
    requires
        no_zero_cycle(g),
        is_successor_map(g, dist, start, end, m),
    ensures
        succ_acyclic(m, start, end),
{
    assert forall|xs: Seq<usize>| #[trigger] is_succ_prefix(m, start, end, xs) implies xs.no_duplicates() by {
        assert forall|i: int, j: int| 0 <= i < j < xs.len() implies xs[i] != xs[j] by {
            if xs[i] == xs[j] {
                let ys = xs.subrange(i, j + 1);
                assert forall|k: int| 0 <= k < ys.len() - 1 implies #[trigger] tight(g, dist, ys[k], ys[k + 1]) by {
                    assert(succ_link(m, end, xs, i + k));
                    assert(m[xs[i + k]]@.to_set().contains(xs[i + k + 1]));
                    assert(tight_succs(g, dist, start, end, xs[i + k]).contains(xs[i + k + 1]));
                }
                assert(succ_link(m, end, xs, i));
                assert(m[xs[i]]@.to_set().contains(xs[i + 1]));
                assert(tight_succs(g, dist, start, end, xs[i]).contains(xs[i + 1]));
                assert(ys[0] == xs[i]);
                let steps = lemma_tight_walk(g, dist, ys);
                assert(is_cycle(g, ys[0], steps));
            }
        }
    }
}

/// A weight that makes the edge `p -> c` tight, when there is one.
spec fn tight_weight(g: Graph, dist: Map<usize, usize>, p: usize, c: usize) -> usize {
    choose|w: usize| #[trigger] has_edge(g, p, c, w) && dist.contains_key(p) && dist.contains_key(c) && dist[p] + w == dist[c]
}

/// A shortest walk from `s` to `e`, given as the nodes it passes through.
pub open spec fn is_shortest_node_seq(g: Graph, s: usize, e: usize, xs: Seq<usize>) -> bool {
    exists|steps: Seq<(usize, usize)>|
        is_walk(g, s, steps) && walk_end(s, steps) == e && is_shortest(g, s, e, walk_weight(steps)) && #[trigger] node_seq(s, steps) == xs
}

/// A path through the successor map is the node sequence of a shortest walk.
proof fn lemma_succ_path_shortest(g: Graph, dist: Map<usize, usize>, s: usize, e: usize, m: Map<usize, Vec<usize>>, xs: Seq<usize>)
    requires
        is_distance_table(g, s, dist),
        is_successor_map(g, dist, s, e, m),
        is_succ_path(m, s, e, xs),
    ensures
        is_shortest_node_seq(g, s, e, xs),
{
    lemma_start_at_zero(g, s, dist);
    let n = xs.len() - 1;
    let steps = Seq::new(n as nat, |i: int| (xs[i + 1], tight_weight(g, dist, xs[i], xs[i + 1])));
    assert forall|i: int| 0 <= i < n implies dist.contains_key(#[trigger] xs[i]) && dist.contains_key(xs[i + 1])
        && has_edge(g, xs[i], xs[i + 1], steps[i].1) && dist[xs[i]] + steps[i].1 == dist[xs[i + 1]] by {
        assert(succ_link(m, e, xs, i));
        assert(m[xs[i]]@.to_set().contains(xs[i + 1]));
        assert(tight_succs(g, dist, s, e, xs[i]).contains(xs[i + 1]));
        assert(tight(g, dist, xs[i], xs[i + 1]));
    }
    assert forall|i: int| 0 <= i <= n implies node_at(s, steps, i) == xs[i] by {}
    assert(is_walk(g, s, steps)) by {
        assert forall|i: int| 0 <= i < steps.len() implies #[trigger] has_edge(g, node_at(s, steps, i), steps[i].0, steps[i].1) by {
            assert(node_at(s, steps, i) == xs[i]);
            assert(dist.contains_key(xs[i]));
        }
    }
    lemma_prefix_weight(g, dist, s, steps, xs, n);
    assert(steps.take(n) == steps);
    assert(walk_end(s, steps) == e);
    assert(reaches(g, s, e));
    assert(is_shortest(g, s, e, dist[e] as nat));
    assert(node_seq(s, steps) =~= xs);
}

/// With no cycle of weight zero, a shortest walk never comes back to a node.
proof fn lemma_shortest_walk_distinct(g: Graph, s: usize, dist: Map<usize, usize>, steps: Seq<(usize, usize)>, a: int, b: int)
    requires
        no_zero_cycle(g),
        is_distance_table(g, s, dist),
        is_walk(g, s, steps),
        is_shortest(g, s, walk_end(s, steps), walk_weight(steps)),
        0 <= a < b <= steps.len(),
    ensures
        node_at(s, steps, a) != node_at(s, steps, b),
{
    lemma_prefix_shortest(g, s, dist, steps, a);
    lemma_prefix_shortest(g, s, dist, steps, b);
    if node_at(s, steps, a) == node_at(s, steps, b) {
        let t = steps.take(b);
        lemma_walk_split(g, s, steps, b);
        lemma_walk_split(g, s, t, a);
        assert(t.take(a) == steps.take(a));
        assert forall|k: int| 0 <= k <= a implies node_at(s, t, k) == node_at(s, steps, k) by {}
        assert(is_cycle(g, node_at(s, steps, a), t.skip(a)));
    }
}

/// With no cycle of weight zero, the node sequence of a shortest walk is a
/// path through the successor map.
proof fn lemma_shortest_succ_path(g: Graph, dist: Map<usize, usize>, s: usize, e: usize, m: Map<usize, Vec<usize>>, steps: Seq<(usize, usize)>)
    requires
        no_zero_cycle(g),
        is_distance_table(g, s, dist),
        is_successor_map(g, dist, s, e, m),
        is_walk(g, s, steps),
        walk_end(s, steps) == e,
        is_shortest(g, s, e, walk_weight(steps)),
    ensures
        is_succ_path(m, s, e, node_seq(s, steps)),
{
    lemma_start_at_zero(g, s, dist);
    let xs = node_seq(s, steps);
    let n = steps.len() as int;
    assert forall|k: int| 0 <= k <= n implies dist.contains_key(#[trigger] node_at(s, steps, k)) && walk_weight(steps.take(k)) == dist[node_at(s, steps, k)] by {
        lemma_prefix_shortest(g, s, dist, steps, k);
    }
    assert forall|i: int| 0 <= i < n implies #[trigger] tight(g, dist, node_at(s, steps, i), node_at(s, steps, i + 1)) by {
        assert(has_edge(g, node_at(s, steps, i), steps[i].0, steps[i].1));
        assert(steps.take(i + 1).drop_last() == steps.take(i));
        assert(dist.contains_key(node_at(s, steps, i)));
        assert(dist.contains_key(node_at(s, steps, i + 1)));
    }
    assert forall|i: int| 0 <= i < n implies #[trigger] succ_link(m, e, xs, i) by {
        let x = node_at(s, steps, i);
        let y = node_at(s, steps, i + 1);
        assert(xs[i] == x && xs[i + 1] == y);
        lemma_shortest_walk_distinct(g, s, dist, steps, i, n);
        assert(node_at(s, steps, n) == e);
        // `y` is reached backwards from `e` along the tight steps that follow it.
        let ys = Seq::new((n - i) as nat, |j: int| node_at(s, steps, n - j));
        assert forall|j: int| 0 <= j < ys.len() - 1 implies #[trigger] chain_link(g, dist, s, ys, j) by {
            assert(ys[j] == node_at(s, steps, n - j));
            assert(ys[j + 1] == node_at(s, steps, n - j - 1));
            assert(tight(g, dist, node_at(s, steps, n - j - 1), node_at(s, steps, n - j - 1 + 1)));
            lemma_shortest_walk_distinct(g, s, dist, steps, 0, n - j);
        }
        assert(ys[0] == e && ys.last() == y);
        assert(is_back_chain(g, dist, s, ys));
        assert(back_reach(g, dist, s, e).contains(y));
        lemma_shortest_walk_distinct(g, s, dist, steps, 0, i + 1);
        assert(tight_succs(g, dist, s, e, x).contains(y));
        assert(!Set::<usize>::empty().contains(y));
        assert(m.contains_key(x));
        assert(m[x]@.to_set().contains(y));
    }
}

/// When the graph has no cycle of weight zero, the paths through the
/// successor map of the shortest walks from `s` to `e` are exactly the node
/// sequences of those walks: `paths_to_vecs` on what `all_paths` returns
/// lists every shortest walk, and nothing else.
pub proof fn lemma_successor_paths_are_shortest(g: Graph, dist: Map<usize, usize>, s: usize, e: usize, m: Map<usize, Vec<usize>>, xs: Seq<usize>)
    requires
        no_zero_cycle(g),
        is_distance_table(g, s, dist),
        is_successor_map(g, dist, s, e, m),
    ensures
        is_succ_path(m, s, e, xs) <==> is_shortest_node_seq(g, s, e, xs),
{
    if is_succ_path(m, s, e, xs) {
        lemma_succ_path_shortest(g, dist, s, e, m, xs);
    }
    if is_shortest_node_seq(g, s, e, xs) {
        let steps = choose|steps: Seq<(usize, usize)>|
            is_walk(g, s, steps) && walk_end(s, steps) == e && is_shortest(g, s, e, walk_weight(steps)) && #[trigger] node_seq(s, steps) == xs;
        lemma_shortest_succ_path(g, dist, s, e, m, steps);
    }
}

/// Along a path of tight links from `s`, the first `k` steps of the walk
/// built from it weigh the growth of the distance from `s` to `xs[k]`.
proof fn lemma_prefix_weight(g: Graph, dist: Map<usize, usize>, s: usize, steps: Seq<(usize, usize)>, xs: Seq<usize>, k: int)
    requires
        xs.len() == steps.len() + 1,
        xs[0] == s,
        forall|i: int| 0 <= i < steps.len() ==> steps[i].0 == xs[i + 1],
        forall|i: int| 0 <= i < steps.len() ==> dist.contains_key(#[trigger] xs[i]) && dist.contains_key(xs[i + 1]) && dist[xs[i]] + steps[i].1 == dist[xs[i + 1]],
        0 <= k <= steps.len(),
        dist.contains_key(s),
    ensures
        dist.contains_key(xs[k]),
        walk_weight(steps.take(k)) + dist[s] == dist[xs[k]],
    decreases k,
{
    if k > 0 {
        lemma_prefix_weight(g, dist, s, steps, xs, k - 1);
        assert(steps.take(k).drop_last() == steps.take(k - 1));
        assert(dist.contains_key(xs[k - 1]));
    }
}

} // verus!
