//! Pure graph and route computation for the controller.

use std::collections::{BTreeMap, BTreeSet, VecDeque};
use vstd::prelude::*;

use crate::ordered::{ascending_u32, elements_u32, keys_u32};
use crate::protocol::{Lsa, LsaView};

verus! {

broadcast use vstd::std_specs::btree::group_btree_axioms;

pub type Graph = BTreeMap<u32, BTreeSet<u32>>;

#[derive(Debug, Clone, Copy, PartialEq, Eq, Structural)]
pub struct DesiredRoute {
    pub port: u16,
    /// `None` means the destination is attached to this switch.
    pub next_hop: Option<u32>,
}

// ---------------------------------------------------------------------------
// Topology
// ---------------------------------------------------------------------------

/// The content of each stored advertisement.
pub open spec fn lsdb_view(m: Map<u32, Lsa>) -> Map<u32, LsaView> {
    m.map_values(|l: Lsa| l@)
}

/// The latest advertisement of `a` lists `b` as a neighbor.
pub open spec fn claims(lsdb: Map<u32, LsaView>, a: u32, b: u32) -> bool {
    lsdb.contains_key(a) && lsdb[a].neighbors.contains(b)
}

/// Both endpoints' latest advertisements claim the link `a`--`b`.
pub open spec fn mutual(lsdb: Map<u32, LsaView>, a: u32, b: u32) -> bool {
    claims(lsdb, a, b) && claims(lsdb, b, a)
}

/// The links that routing may use, as a relation.
pub open spec fn lsdb_adj(lsdb: Map<u32, LsaView>) -> spec_fn(u32, u32) -> bool {
    |a: u32, b: u32| mutual(lsdb, a, b)
}

/// `g` holds the edge `a` -> `b`.
pub open spec fn graph_edge(g: Map<u32, BTreeSet<u32>>, a: u32, b: u32) -> bool {
    g.contains_key(a) && g[a]@.contains(b)
}

/// The edges of a graph, as a relation.
pub open spec fn graph_adj(g: Map<u32, BTreeSet<u32>>) -> spec_fn(u32, u32) -> bool {
    |a: u32, b: u32| graph_edge(g, a, b)
}

/// `v` can be reached from `o` in at most `k` steps of `adj`.
pub open spec fn within(adj: spec_fn(u32, u32) -> bool, o: u32, v: u32, k: nat) -> bool
    decreases k,
{
    if k == 0 {
        v == o
    } else {
        within(adj, o, v, (k - 1) as nat) || exists|u: u32|
            within(adj, o, u, (k - 1) as nat) && #[trigger] adj(u, v)
    }
}

/// The fewest steps of `adj` from `o` to `v` is exactly `d`.
pub open spec fn at_distance(adj: spec_fn(u32, u32) -> bool, o: u32, v: u32, d: nat) -> bool {
    within(adj, o, v, d) && (d > 0 ==> !within(adj, o, v, (d - 1) as nat))
}

/// `v` can be reached from `o` along `adj`.
pub open spec fn reachable(adj: spec_fn(u32, u32) -> bool, o: u32, v: u32) -> bool {
    exists|k: nat| #[trigger] within(adj, o, v, k)
}

/// The hop distance from `o` to `v` (meaningful when `v` is reachable).
pub open spec fn distance_of(adj: spec_fn(u32, u32) -> bool, o: u32, v: u32) -> nat {
    choose|d: nat| at_distance(adj, o, v, d)
}

pub proof fn lemma_within_monotone(adj: spec_fn(u32, u32) -> bool, o: u32, v: u32, j: nat, k: nat)
    requires
        within(adj, o, v, j),
        j <= k,
    ensures
        within(adj, o, v, k),
    decreases k - j,
{
    if j < k {
        lemma_within_monotone(adj, o, v, j, (k - 1) as nat);
    }
}

/// One more step along `adj` stays within one more hop.
pub proof fn lemma_within_step(adj: spec_fn(u32, u32) -> bool, o: u32, u: u32, v: u32, k: nat)
    requires
        within(adj, o, u, k),
        adj(u, v),
    ensures
        within(adj, o, v, k + 1),
{
    let k1 = (k + 1) as nat;
    assert(((k1 - 1) as nat) == k);
    assert(within(adj, o, u, (k1 - 1) as nat) && adj(u, v));
}

/// A node first reached at step `k > 0` has a predecessor reached at step `k - 1`.
pub proof fn lemma_within_pred(adj: spec_fn(u32, u32) -> bool, o: u32, v: u32, k: nat) -> (u: u32)
    requires
        within(adj, o, v, k),
        k > 0,
        !within(adj, o, v, (k - 1) as nat),
    ensures
        within(adj, o, u, (k - 1) as nat),
        adj(u, v),
{
    choose|u: u32| within(adj, o, u, (k - 1) as nat) && #[trigger] adj(u, v)
}

/// A reachable node has exactly one hop distance.
pub proof fn lemma_distance_exists(adj: spec_fn(u32, u32) -> bool, o: u32, v: u32, k: nat)
    requires
        within(adj, o, v, k),
    ensures
        at_distance(adj, o, v, distance_of(adj, o, v)),
        distance_of(adj, o, v) <= k,
    decreases k,
{
    if k > 0 && within(adj, o, v, (k - 1) as nat) {
        lemma_distance_exists(adj, o, v, (k - 1) as nat);
    } else {
        assert(at_distance(adj, o, v, k));
        let d = distance_of(adj, o, v);
        lemma_distance_unique(adj, o, v, d, k);
    }
}

pub proof fn lemma_distance_unique(adj: spec_fn(u32, u32) -> bool, o: u32, v: u32, d1: nat, d2: nat)
    requires
        at_distance(adj, o, v, d1),
        at_distance(adj, o, v, d2),
    ensures
        d1 == d2,
{
    if d1 < d2 {
        lemma_within_monotone(adj, o, v, d1, (d2 - 1) as nat);
    } else if d2 < d1 {
        lemma_within_monotone(adj, o, v, d2, (d1 - 1) as nat);
    }
}

/// Any exact distance is the one `distance_of` names.
pub proof fn lemma_distance_of_is(adj: spec_fn(u32, u32) -> bool, o: u32, v: u32, d: nat)
    requires
        at_distance(adj, o, v, d),
    ensures
        distance_of(adj, o, v) == d,
{
    lemma_distance_exists(adj, o, v, d);
    lemma_distance_unique(adj, o, v, d, distance_of(adj, o, v));
}

/// Construct an undirected graph containing an edge only when both latest
/// endpoint advertisements claim it.
pub fn mutual_graph(lsdb: &BTreeMap<u32, Lsa>) -> (graph: Graph)
    ensures
        graph@.dom() == lsdb@.dom(),
        forall|a: u32, b: u32| #[trigger] graph_edge(graph@, a, b) <==> mutual(lsdb_view(lsdb@), a, b),
{
    let origins = keys_u32(lsdb);
    let mut graph: Graph = BTreeMap::new();
    let mut i: usize = 0;
    while i < origins.len()
        invariant
            i <= origins@.len(),
            origins@.to_set() == lsdb@.dom(),
            forall|a: u32| #[trigger] graph@.contains_key(a) <==> origins@.take(i as int).contains(a),
            forall|a: u32| #[trigger] graph@.contains_key(a) ==> graph@[a]@ == Set::<u32>::empty(),
        decreases origins@.len() - i,
    {
        graph.insert(origins[i], BTreeSet::new());
        proof {
            let o = origins@.take(i as int);
            let o1 = origins@.take(i + 1);
            assert(o1 =~= o.push(origins@[i as int]));
            assert forall|a: u32| #[trigger] graph@.contains_key(a) <==> o1.contains(a) by {
                if o1.contains(a) && a != origins@[i as int] {
                    let k = o1.index_of(a);
                    assert(o[k] == a);
                }
                if o.contains(a) {
                    let k = o.index_of(a);
                    assert(o1[k] == a);
                }
                assert(o1[i as int] == origins@[i as int]);
            }
        }
        i = i + 1;
    }
    assert(origins@.take(i as int) =~= origins@);
    // An edge is recorded once some endpoint has been scanned.
    let mut i: usize = 0;
    while i < origins.len()
        invariant
            i <= origins@.len(),
            origins@.to_set() == lsdb@.dom(),
            graph@.dom() == lsdb@.dom(),
            forall|a: u32, b: u32| #[trigger]
                graph_edge(graph@, a, b) <==> (mutual(lsdb_view(lsdb@), a, b) && (origins@.take(i as int).contains(a)
                    || origins@.take(i as int).contains(b))),
        decreases origins@.len() - i,
    {
        let origin = origins[i];
        assert(origins@.to_set().contains(origin));
        let lsa = lsdb.get(&origin).unwrap();
        let mut j: usize = 0;
        while j < lsa.neighbors.len()
            invariant
                i < origins@.len(),
                origin == origins@[i as int],
                lsdb@.contains_key(origin),
                *lsa == lsdb@[origin],
                j <= lsa.neighbors@.len(),
                origins@.to_set() == lsdb@.dom(),
                graph@.dom() == lsdb@.dom(),
                forall|a: u32, b: u32| #[trigger]
                    graph_edge(graph@, a, b) <==> (mutual(lsdb_view(lsdb@), a, b) && (
                    origins@.take(i as int).contains(a) || origins@.take(i as int).contains(b)
                        || ((a == origin && lsa.neighbors@.take(j as int).contains(b)) || (b
                        == origin && lsa.neighbors@.take(j as int).contains(a))))),
            decreases lsa.neighbors@.len() - j,
        {
            let neighbor = lsa.neighbors[j];
            let is_mutual = match lsdb.get(&neighbor) {
                Some(other) => contains_id(&other.neighbors, origin),
                None => false,
            };
            let ghost before = graph@;
            if is_mutual {
                assert(mutual(lsdb_view(lsdb@), origin, neighbor));
                let mut from_origin = graph.remove(&origin).unwrap();
                from_origin.insert(neighbor);
                graph.insert(origin, from_origin);
                let mut from_neighbor = graph.remove(&neighbor).unwrap();
                from_neighbor.insert(origin);
                graph.insert(neighbor, from_neighbor);
                assert forall|a: u32, b: u32| #[trigger] graph_edge(graph@, a, b) <==> (graph_edge(before, a, b)
                    || (a == origin && b == neighbor) || (a == neighbor && b == origin)) by {
                    if a == neighbor {
                        assert(graph@[a]@ == graph@[neighbor]@);
                    }
                }
            } else {
                assert(!mutual(lsdb_view(lsdb@), origin, neighbor));
            }
            proof {
                let t = lsa.neighbors@.take(j as int);
                let t1 = lsa.neighbors@.take(j + 1);
                assert(t1 =~= t.push(neighbor));
                assert forall|a: u32, b: u32|
                    #[trigger] graph_edge(graph@, a, b) <==> (mutual(lsdb_view(lsdb@), a, b) && (
                    origins@.take(i as int).contains(a) || origins@.take(i as int).contains(b)
                        || ((a == origin && t1.contains(b)) || (b == origin && t1.contains(a)))))
                by {
                    if t1.contains(b) && b != neighbor {
                        let k = t1.index_of(b);
                        assert(t[k] == b);
                    }
                    if t1.contains(a) && a != neighbor {
                        let k = t1.index_of(a);
                        assert(t[k] == a);
                    }
                    if t.contains(b) {
                        let k = t.index_of(b);
                        assert(t1[k] == b);
                    }
                    if t.contains(a) {
                        let k = t.index_of(a);
                        assert(t1[k] == a);
                    }
                    assert(t1[j as int] == neighbor);
                }
            }
            j = j + 1;
        }
        proof {
            assert(lsa.neighbors@.take(j as int) =~= lsa.neighbors@);
            let o = origins@.take(i as int);
            let o1 = origins@.take(i + 1);
            assert(o1 =~= o.push(origin));
            assert forall|a: u32, b: u32| #[trigger]
                graph_edge(graph@, a, b) <==> (mutual(lsdb_view(lsdb@), a, b) && (o1.contains(a) || o1.contains(b)))
            by {
                if o1.contains(b) && b != origin {
                    let k = o1.index_of(b);
                    assert(o[k] == b);
                }
                if o1.contains(a) && a != origin {
                    let k = o1.index_of(a);
                    assert(o[k] == a);
                }
                if o.contains(b) {
                    let k = o.index_of(b);
                    assert(o1[k] == b);
                }
                if o.contains(a) {
                    let k = o.index_of(a);
                    assert(o1[k] == a);
                }
                assert(o1[i as int] == origin);
            }
        }
        i = i + 1;
    }
    proof {
        assert(origins@.take(i as int) =~= origins@);
        assert forall|a: u32, b: u32| #[trigger] graph_edge(graph@, a, b) <==> mutual(lsdb_view(lsdb@), a, b) by {
            if mutual(lsdb_view(lsdb@), a, b) {
                assert(origins@.to_set().contains(a));
            }
        }
    }
    graph
}

// ---------------------------------------------------------------------------
// Breadth-first search
// ---------------------------------------------------------------------------

/// A distance cannot exceed a step bound within which the node is reachable.
proof fn lemma_distance_le(adj: spec_fn(u32, u32) -> bool, o: u32, v: u32, d: nat, k: nat)
    requires
        at_distance(adj, o, v, d),
        within(adj, o, v, k),
    ensures
        d <= k,
{
    if d > k {
        lemma_within_monotone(adj, o, v, k, (d - 1) as nat);
    }
}

/// A finite set of `u32` that misses some value has fewer than 2^32 elements.
proof fn lemma_u32_set_len(s: Set<u32>, w: u32)
    requires
        s.finite(),
        !s.contains(w),
    ensures
        s.len() < 0x1_0000_0000,
{
    vstd::set_lib::range_set_properties::<u32>(0, u32::MAX);
    let all = Set::<u32>::range(0, u32::MAX).insert(u32::MAX);
    assert(all.len() == 0x1_0000_0000);
    assert(s.subset_of(all.remove(w)));
    vstd::set_lib::lemma_len_subset(s, all.remove(w));
}

/// What holds at the head of each round of the search: every discovered node
/// carries its exact distance; the queue holds discovered nodes once each, in
/// nondecreasing distance spanning at most one layer; every discovered node no
/// longer queued has all its successors discovered and is no farther than the
/// queue's front.
pub open spec fn bfs_state(adj: spec_fn(u32, u32) -> bool, o: u32, dist: Map<u32, u32>, q: Seq<u32>) -> bool {
    &&& dist.dom().finite()
    &&& dist.dom().len() <= 0x1_0000_0000
    &&& dist.contains_key(o)
    &&& forall|v: u32| #[trigger] dist.contains_key(v) ==> at_distance(adj, o, v, dist[v] as nat)
        && dist[v] < dist.dom().len()
    &&& forall|i: int| 0 <= i < q.len() ==> dist.contains_key(#[trigger] q[i])
    &&& q.no_duplicates()
    &&& forall|i: int, j: int| 0 <= i < j < q.len() ==> dist[q[i]] <= dist[q[j]]
    &&& forall|i: int| 0 <= i < q.len() ==> dist[#[trigger] q[i]] <= dist[q[0]] + 1
    &&& forall|v: u32| #[trigger] dist.contains_key(v) && !q.contains(v) ==> (q.len() > 0 ==> dist[v]
        <= dist[q[0]])
    &&& forall|v: u32, w: u32| #[trigger] dist.contains_key(v) && !q.contains(v) && #[trigger] adj(v, w)
        ==> dist.contains_key(w)
}

/// Every node within the front's distance has already been discovered.
proof fn lemma_front_layers_discovered(
    adj: spec_fn(u32, u32) -> bool,
    o: u32,
    dist: Map<u32, u32>,
    q: Seq<u32>,
    v: u32,
    k: nat,
)
    requires
        bfs_state(adj, o, dist, q),
        q.len() > 0,
        k <= dist[q[0]],
        within(adj, o, v, k),
    ensures
        dist.contains_key(v),
        dist[v] <= k,
    decreases k,
{
    if k == 0 {
        assert(v == o);
        assert(at_distance(adj, o, o, dist[o] as nat));
        lemma_distance_le(adj, o, o, dist[o] as nat, 0);
    } else if within(adj, o, v, (k - 1) as nat) {
        lemma_front_layers_discovered(adj, o, dist, q, v, (k - 1) as nat);
    } else {
        let u = lemma_within_pred(adj, o, v, k);
        lemma_front_layers_discovered(adj, o, dist, q, u, (k - 1) as nat);
        if q.contains(u) {
            let i = q.index_of(u);
            if i > 0 {
                assert(dist[q[0]] <= dist[q[i]]);
            }
        }
        assert(dist.contains_key(v));
        lemma_distance_le(adj, o, v, dist[v] as nat, k);
    }
}

/// Once nothing is queued, every reachable node has been discovered.
proof fn lemma_closed_discovers_all(
    adj: spec_fn(u32, u32) -> bool,
    o: u32,
    dist: Map<u32, u32>,
    v: u32,
    k: nat,
)
    requires
        bfs_state(adj, o, dist, Seq::empty()),
        within(adj, o, v, k),
    ensures
        dist.contains_key(v),
    decreases k,
{
    if k > 0 {
        if within(adj, o, v, (k - 1) as nat) {
            lemma_closed_discovers_all(adj, o, dist, v, (k - 1) as nat);
        } else {
            let u = lemma_within_pred(adj, o, v, k);
            lemma_closed_discovers_all(adj, o, dist, u, (k - 1) as nat);
            assert(!Seq::<u32>::empty().contains(u));
        }
    }
}

/// Breadth-first hop distances from `origin`: exactly the nodes reachable in
/// `graph`, each with its fewest number of edges.
pub fn distances_from(origin: u32, graph: &Graph) -> (distances: BTreeMap<u32, u32>)
    ensures
        forall|v: u32| #[trigger] distances@.contains_key(v) <==> reachable(graph_adj(graph@), origin, v),
        forall|v: u32| #[trigger] distances@.contains_key(v) ==> at_distance(
            graph_adj(graph@),
            origin,
            v,
            distances@[v] as nat,
        ),
{
    let ghost adj = graph_adj(graph@);
    let mut distances: BTreeMap<u32, u32> = BTreeMap::new();
    let mut queue: VecDeque<u32> = VecDeque::new();
    distances.insert(origin, 0);
    queue.push_back(origin);
    proof {
        assert(distances@.dom() =~= set![origin]);
        assert(distances@.dom().len() == 1);
        assert(at_distance(adj, origin, origin, 0));
        assert(queue@ =~= seq![origin]);
        assert(queue@.no_duplicates());
        assert(queue@[0] == origin);
        assert(queue@.contains(origin));
    }
    while queue.len() > 0
        invariant
            adj == graph_adj(graph@),
            bfs_state(adj, origin, distances@, queue@),
        decreases 0x1_0000_0000 - distances@.dom().len(), queue@.len(),
    {
        let ghost d0 = distances@;
        let ghost q0 = queue@;
        let node = queue.pop_front().unwrap();
        assert(distances@.contains_key(node));
        let distance = *distances.get(&node).unwrap();
        let neighbors: Vec<u32> = match graph.get(&node) {
            Some(set) => elements_u32(set),
            None => Vec::new(),
        };
        assert forall|w: u32| #[trigger] adj(node, w) <==> neighbors@.contains(w) by {
            if graph@.contains_key(node) {
                if graph@[node]@.contains(w) {
                    assert(neighbors@.to_set().contains(w));
                }
            }
        }
        assert(queue@ =~= q0.drop_first());
        assert forall|i: int| 1 <= i < q0.len() implies queue@.contains(#[trigger] q0[i]) by {
            assert(queue@[i - 1] == q0[i]);
        }
        let mut j: usize = 0;
        while j < neighbors.len()
            invariant
                adj == graph_adj(graph@),
                bfs_state(adj, origin, d0, q0),
                q0.len() > 0,
                node == q0[0],
                distance == d0[node],
                forall|w: u32| #[trigger] adj(node, w) <==> neighbors@.contains(w),
                j <= neighbors@.len(),
                distances@.dom().finite(),
                distances@.dom().len() <= 0x1_0000_0000,
                distances@.dom().len() >= d0.dom().len(),
                queue@.len() + d0.dom().len() == q0.len() - 1 + distances@.dom().len(),
                forall|v: u32| #[trigger] d0.contains_key(v) ==> distances@.contains_key(v) && distances@[v] == d0[v],
                forall|v: u32| #[trigger] distances@.contains_key(v) ==> at_distance(adj, origin, v, distances@[v] as nat)
                    && distances@[v] < distances@.dom().len(),
                forall|v: u32| #[trigger] distances@.contains_key(v) && !d0.contains_key(v) ==> queue@.contains(v),
                forall|i: int| 1 <= i < q0.len() ==> queue@.contains(#[trigger] q0[i]),
                forall|i: int| 0 <= i < queue@.len() ==> distances@.contains_key(#[trigger] queue@[i]),
                queue@.no_duplicates(),
                !queue@.contains(node),
                forall|i: int, k: int| 0 <= i < k < queue@.len() ==> distances@[queue@[i]] <= distances@[queue@[k]],
                forall|i: int| 0 <= i < queue@.len() ==> distance <= distances@[#[trigger] queue@[i]] <= distance + 1,
                forall|k: int| 0 <= k < j ==> distances@.contains_key(#[trigger] neighbors@[k]),
            decreases neighbors@.len() - j,
        {
            let w = neighbors[j];
            if !distances.contains_key(&w) {
                proof {
                    lemma_u32_set_len(distances@.dom(), w);
                    assert(adj(node, w)) by {
                        assert(neighbors@.contains(w));
                    }
                    assert(within(adj, origin, node, distance as nat));
                    lemma_within_step(adj, origin, node, w, distance as nat);
                    if within(adj, origin, w, distance as nat) {
                        lemma_front_layers_discovered(adj, origin, d0, q0, w, distance as nat);
                    }
                    assert(!d0.contains_key(w));
                }
                let ghost before = distances@;
                let ghost qb = queue@;
                distances.insert(w, distance + 1);
                queue.push_back(w);
                proof {
                    assert(distances@.dom() =~= before.dom().insert(w));
                    assert forall|v: u32| #[trigger] queue@.contains(v) <==> (qb.contains(v) || v == w) by {
                        if queue@.contains(v) && v != w {
                            let i = queue@.index_of(v);
                            assert(qb[i] == v);
                        }
                        if qb.contains(v) {
                            let i = qb.index_of(v);
                            assert(queue@[i] == v);
                        }
                        assert(queue@[qb.len() as int] == w);
                    }
                    assert forall|i: int| 1 <= i < q0.len() implies queue@.contains(#[trigger] q0[i]) by {
                        assert(qb.contains(q0[i]));
                    }
                    assert forall|i: int| 0 <= i < queue@.len() implies distances@.contains_key(#[trigger] queue@[i]) by {
                        if i < qb.len() {
                            assert(queue@[i] == qb[i]);
                        }
                    }
                    assert(queue@.no_duplicates()) by {
                        assert forall|i: int, k: int| 0 <= i < k < queue@.len() implies queue@[i] != queue@[k] by {
                            if k < qb.len() {
                                assert(queue@[i] == qb[i] && queue@[k] == qb[k]);
                            } else {
                                assert(queue@[i] == qb[i]);
                                assert(before.contains_key(qb[i]));
                            }
                        }
                    }
                    assert forall|i: int, k: int| 0 <= i < k < queue@.len() implies distances@[queue@[i]] <= distances@[queue@[k]] by {
                        if k < qb.len() {
                            assert(queue@[i] == qb[i] && queue@[k] == qb[k]);
                            assert(before.contains_key(qb[i]) && before.contains_key(qb[k]));
                        } else {
                            assert(queue@[i] == qb[i]);
                            assert(before.contains_key(qb[i]));
                        }
                    }
                    assert forall|i: int| 0 <= i < queue@.len() implies distance <= distances@[#[trigger] queue@[i]] <= distance + 1 by {
                        if i < qb.len() {
                            assert(queue@[i] == qb[i]);
                            assert(before.contains_key(qb[i]));
                        }
                    }
                    assert forall|k: int| 0 <= k < j + 1 implies distances@.contains_key(#[trigger] neighbors@[k]) by {
                        if k < j {
                            assert(before.contains_key(neighbors@[k]));
                        }
                    }
                    assert forall|v: u32| #[trigger] distances@.contains_key(v) implies at_distance(adj, origin, v, distances@[v] as nat)
                        && distances@[v] < distances@.dom().len() by {
                        if v != w {
                            assert(before.contains_key(v));
                        }
                    }
                }
            }
            j = j + 1;
        }
        proof {
            let dd = distances@;
            let qq = queue@;
            assert forall|v: u32, w: u32| #[trigger] dd.contains_key(v) && !qq.contains(v) && #[trigger] adj(v, w)
                implies dd.contains_key(w) by {
                if v == node {
                    let k = neighbors@.index_of(w);
                    assert(dd.contains_key(neighbors@[k]));
                } else {
                    assert(d0.contains_key(v));
                    if q0.contains(v) {
                        let i = q0.index_of(v);
                        assert(i != 0);
                        assert(qq.contains(q0[i]));
                    }
                    assert(d0.contains_key(w));
                }
            }
            assert forall|v: u32| #[trigger] dd.contains_key(v) && !qq.contains(v) && qq.len() > 0 implies dd[v] <= dd[qq[0]] by {
                assert(distance <= dd[qq[0]]);
                if v != node {
                    assert(d0.contains_key(v));
                    if q0.contains(v) {
                        let i = q0.index_of(v);
                        assert(i != 0);
                        assert(qq.contains(q0[i]));
                    }
                    assert(d0[v] <= d0[q0[0]]);
                }
            }
            assert forall|i: int| 0 <= i < qq.len() implies dd[#[trigger] qq[i]] <= dd[qq[0]] + 1 by {
                assert(distance <= dd[qq[0]]);
            }
            assert(bfs_state(adj, origin, dd, qq));
            assert(dd.dom().len() > d0.dom().len() || qq.len() < q0.len());
        }
    }
    proof {
        assert(queue@ =~= Seq::<u32>::empty());
        assert forall|v: u32| #[trigger] distances@.contains_key(v) <==> reachable(adj, origin, v) by {
            if distances@.contains_key(v) {
                assert(within(adj, origin, v, distances@[v] as nat));
            }
            if reachable(adj, origin, v) {
                let k = choose|k: nat| #[trigger] within(adj, origin, v, k);
                lemma_closed_discovers_all(adj, origin, distances@, v, k);
            }
        }
    }
    distances
}

// ---------------------------------------------------------------------------
// Customer routes
// ---------------------------------------------------------------------------

/// The latest advertisement of `o` lists customer `c`.
pub open spec fn advertises_customer(lsdb: Map<u32, LsaView>, o: u32, c: u32) -> bool {
    lsdb.contains_key(o) && lsdb[o].customers.contains(c)
}

/// Some advertisement lists customer `c`.
pub open spec fn is_claimed(lsdb: Map<u32, LsaView>, c: u32) -> bool {
    exists|o: u32| #[trigger] advertises_customer(lsdb, o, c)
}

/// `o` is the lowest origin listing `c`: the claim that wins when several
/// switches list the same customer.
pub open spec fn is_owner(lsdb: Map<u32, LsaView>, c: u32, o: u32) -> bool {
    &&& advertises_customer(lsdb, o, c)
    &&& forall|x: u32| #[trigger] advertises_customer(lsdb, x, c) ==> o <= x
}

/// The winning origin for a claimed customer.
pub open spec fn owner_of(lsdb: Map<u32, LsaView>, c: u32) -> u32 {
    choose|o: u32| is_owner(lsdb, c, o)
}

pub proof fn lemma_owner_of_is(lsdb: Map<u32, LsaView>, c: u32, o: u32)
    requires
        is_owner(lsdb, c, o),
    ensures
        owner_of(lsdb, c) == o,
{
    let w = owner_of(lsdb, c);
    assert(is_owner(lsdb, c, w));
    assert(w <= o && o <= w);
}

/// Lexicographic order on (neighbor, port).
pub open spec fn pair_le(a: (u32, u16), b: (u32, u16)) -> bool {
    a.0 < b.0 || (a.0 == b.0 && a.1 <= b.1)
}

/// `n` is a usable next hop from `self_id`, which lies `d` hops from the owner
/// `o`: a mutually advertised neighbor exactly `d - 1` hops from `o`.
pub open spec fn closer_neighbor(lsdb: Map<u32, LsaView>, self_id: u32, o: u32, d: nat, n: u32) -> bool {
    mutual(lsdb, self_id, n) && at_distance(lsdb_adj(lsdb), o, n, (d - 1) as nat)
}

/// Some entry of `nbrs` is a usable next hop.
pub open spec fn has_closer_entry(nbrs: Seq<(u32, u16)>, lsdb: Map<u32, LsaView>, self_id: u32, o: u32, d: nat) -> bool {
    exists|i: int| 0 <= i < nbrs.len() && #[trigger] closer_neighbor(lsdb, self_id, o, d, nbrs[i].0)
}

/// `ch` is the (neighbor, port) entry of `nbrs` that is a usable next hop and
/// is smallest by neighbor, then port.
pub open spec fn least_closer_entry(
    nbrs: Seq<(u32, u16)>,
    lsdb: Map<u32, LsaView>,
    self_id: u32,
    o: u32,
    d: nat,
    ch: (u32, u16),
) -> bool {
    &&& nbrs.contains(ch)
    &&& closer_neighbor(lsdb, self_id, o, d, ch.0)
    &&& forall|i: int| 0 <= i < nbrs.len() && #[trigger] closer_neighbor(lsdb, self_id, o, d, nbrs[i].0)
        ==> pair_le(ch, nbrs[i])
}

/// The route switch `self_id` wants for customer `c`, given its live direct
/// neighbors `(neighbor, port)`, its local customers and the LSDB: the local
/// port for its own customers; otherwise, when it can reach the owner, the
/// smallest usable next hop one hop closer to the owner.
pub open spec fn spec_route(
    self_id: u32,
    nbrs: Seq<(u32, u16)>,
    local: Map<u32, u16>,
    lsdb: Map<u32, LsaView>,
    c: u32,
) -> Option<DesiredRoute> {
    if !is_claimed(lsdb, c) {
        None
    } else {
        let o = owner_of(lsdb, c);
        if o == self_id {
            if local.contains_key(c) {
                Some(DesiredRoute { port: local[c], next_hop: None })
            } else {
                None
            }
        } else if !reachable(lsdb_adj(lsdb), o, self_id) {
            None
        } else {
            let d = distance_of(lsdb_adj(lsdb), o, self_id);
            if has_closer_entry(nbrs, lsdb, self_id, o, d) {
                let ch = choose|ch: (u32, u16)| least_closer_entry(nbrs, lsdb, self_id, o, d, ch);
                Some(DesiredRoute { port: ch.1, next_hop: Some(ch.0) })
            } else {
                None
            }
        }
    }
}

/// Lowest origin ID wins an impossible/conflicting customer claim so that all
/// switches with the same LSDB make the same choice.
fn customer_origins(lsdb: &BTreeMap<u32, Lsa>) -> (origins: BTreeMap<u32, u32>)
    ensures
        forall|c: u32| #[trigger] origins@.contains_key(c) <==> is_claimed(lsdb_view(lsdb@), c),
        forall|c: u32| #[trigger] origins@.contains_key(c) ==> is_owner(lsdb_view(lsdb@), c, origins@[c]),
{
    let keys = keys_u32(lsdb);
    let mut origins: BTreeMap<u32, u32> = BTreeMap::new();
    let mut i: usize = 0;
    while i < keys.len()
        invariant
            i <= keys@.len(),
            ascending_u32(keys@, lsdb@.dom()),
            forall|c: u32| #[trigger] origins@.contains_key(c) ==> is_owner(lsdb_view(lsdb@), c, origins@[c]),
            forall|k: int, c: u32| 0 <= k < i && #[trigger] advertises_customer(lsdb_view(lsdb@), keys@[k], c) ==> origins@.contains_key(c),
        decreases keys@.len() - i,
    {
        let origin = keys[i];
        assert(keys@.to_set().contains(origin));
        let lsa = lsdb.get(&origin).unwrap();
        let mut j: usize = 0;
        while j < lsa.customers.len()
            invariant
                i < keys@.len(),
                origin == keys@[i as int],
                lsdb@.contains_key(origin),
                *lsa == lsdb@[origin],
                j <= lsa.customers@.len(),
                ascending_u32(keys@, lsdb@.dom()),
                forall|c: u32| #[trigger] origins@.contains_key(c) ==> is_owner(lsdb_view(lsdb@), c, origins@[c]),
                forall|k: int, c: u32| 0 <= k < i && #[trigger] advertises_customer(lsdb_view(lsdb@), keys@[k], c) ==> origins@.contains_key(c),
                forall|k: int| 0 <= k < j ==> origins@.contains_key(#[trigger] lsa.customers@[k]),
            decreases lsa.customers@.len() - j,
        {
            let customer = lsa.customers[j];
            if !origins.contains_key(&customer) {
                proof {
                    assert(advertises_customer(lsdb_view(lsdb@), origin, customer));
                    assert forall|x: u32| #[trigger] advertises_customer(lsdb_view(lsdb@), x, customer) implies origin <= x by {
                        if x < origin {
                            assert(keys@.to_set().contains(x));
                            let k = keys@.index_of(x);
                            if k >= i {
                                assert(keys@[i as int] <= keys@[k]);
                            }
                            assert(origins@.contains_key(customer));
                        }
                    }
                }
                origins.insert(customer, origin);
            }
            j = j + 1;
        }
        proof {
            assert forall|k: int, c: u32| 0 <= k < i + 1 && #[trigger] advertises_customer(lsdb_view(lsdb@), keys@[k], c)
                implies origins@.contains_key(c) by {
                if k == i {
                    let m = lsa.customers@.index_of(c);
                    assert(origins@.contains_key(lsa.customers@[m]));
                }
            }
        }
        i = i + 1;
    }
    proof {
        assert forall|c: u32| #[trigger] origins@.contains_key(c) <==> is_claimed(lsdb_view(lsdb@), c) by {
            if is_claimed(lsdb_view(lsdb@), c) {
                let x = choose|x: u32| #[trigger] advertises_customer(lsdb_view(lsdb@), x, c);
                assert(keys@.to_set().contains(x));
                let k = keys@.index_of(x);
                assert(advertises_customer(lsdb_view(lsdb@), keys@[k], c));
            }
            if origins@.contains_key(c) {
                assert(advertises_customer(lsdb_view(lsdb@), origins@[c], c));
            }
        }
    }
    origins
}

/// The route to install for every customer this switch can serve: see
/// [`spec_route`].
pub fn desired_routes(
    self_id: u32,
    direct_neighbors: &[(u32, u16)],
    local_customers: &BTreeMap<u32, u16>,
    lsdb: &BTreeMap<u32, Lsa>,
) -> (routes: BTreeMap<u32, DesiredRoute>)
    ensures
        forall|c: u32| #[trigger] routes@.contains_key(c) <==> spec_route(self_id, direct_neighbors@, local_customers@, lsdb_view(lsdb@), c) is Some,
        forall|c: u32| #[trigger] routes@.contains_key(c) ==> spec_route(self_id, direct_neighbors@, local_customers@, lsdb_view(lsdb@), c) == Some(routes@[c]),
{
    let ghost nbrs = direct_neighbors@;
    let ghost local = local_customers@;
    let ghost db = lsdb_view(lsdb@);
    let ghost adj = lsdb_adj(db);
    let graph = mutual_graph(lsdb);
    assert(graph_adj(graph@) =~= adj) by {
        assert forall|a: u32, b: u32| #[trigger] graph_adj(graph@)(a, b) == adj(a, b) by {
            assert(graph_edge(graph@, a, b) <==> mutual(db, a, b));
        }
    }
    let origins = customer_origins(lsdb);
    let customers = keys_u32(&origins);
    let mut routes: BTreeMap<u32, DesiredRoute> = BTreeMap::new();
    let mut i: usize = 0;
    while i < customers.len()
        invariant
            nbrs == direct_neighbors@,
            local == local_customers@,
            db == lsdb_view(lsdb@),
            adj == lsdb_adj(db),
            graph_adj(graph@) == adj,
            forall|a: u32, b: u32| #[trigger] graph_edge(graph@, a, b) <==> mutual(db, a, b),
            i <= customers@.len(),
            ascending_u32(customers@, origins@.dom()),
            forall|c: u32| #[trigger] origins@.contains_key(c) <==> is_claimed(db, c),
            forall|c: u32| #[trigger] origins@.contains_key(c) ==> is_owner(db, c, origins@[c]),
            forall|c: u32| #[trigger] routes@.contains_key(c) <==> (customers@.take(i as int).contains(c)
                && spec_route(self_id, nbrs, local, db, c) is Some),
            forall|c: u32| #[trigger] routes@.contains_key(c) ==> spec_route(self_id, nbrs, local, db, c) == Some(routes@[c]),
        decreases customers@.len() - i,
    {
        let customer = customers[i];
        assert(customers@.to_set().contains(customer));
        let origin = *origins.get(&customer).unwrap();
        proof {
            lemma_owner_of_is(db, customer, origin);
            assert(is_claimed(db, customer));
        }
        let ghost before = routes@;
        let ghost want = spec_route(self_id, nbrs, local, db, customer);
        let mut found: Option<DesiredRoute> = None;
        if origin == self_id {
            match local_customers.get(&customer) {
                Some(port) => {
                    found = Some(DesiredRoute { port: *port, next_hop: None });
                },
                None => {},
            }
        } else {
            let distances = distances_from(origin, &graph);
            match distances.get(&self_id) {
                None => {},
                Some(my) => {
                    let my_distance = *my;
                    proof {
                        lemma_distance_of_is(adj, origin, self_id, my_distance as nat);
                    }
                    if my_distance != 0 {
                        let adjacent = graph.get(&self_id);
                        let mut best: Option<(u32, u16)> = None;
                        let mut j: usize = 0;
                        while j < direct_neighbors.len()
                            invariant
                                nbrs == direct_neighbors@,
                                db == lsdb_view(lsdb@),
                                adj == lsdb_adj(db),
                                graph_adj(graph@) == adj,
                                forall|a: u32, b: u32| #[trigger] graph_edge(graph@, a, b) <==> mutual(db, a, b),
                                my_distance > 0,
                                origin != self_id,
                                distances@.contains_key(self_id),
                                distances@[self_id] == my_distance,
                                forall|v: u32| #[trigger] distances@.contains_key(v) <==> reachable(adj, origin, v),
                                forall|v: u32| #[trigger] distances@.contains_key(v) ==> at_distance(adj, origin, v, distances@[v] as nat),
                                match adjacent {
                                    Some(set) => graph@.contains_key(self_id) && *set == graph@[self_id],
                                    None => !graph@.contains_key(self_id),
                                },
                                j <= nbrs.len(),
                                best is None <==> !has_closer_entry(nbrs.take(j as int), db, self_id, origin, my_distance as nat),
                                best matches Some(ch) ==> least_closer_entry(nbrs.take(j as int), db, self_id, origin, my_distance as nat, ch),
                            decreases nbrs.len() - j,
                        {
                            let (neighbor, port) = direct_neighbors[j];
                            let is_adjacent = match adjacent {
                                Some(set) => set.contains(&neighbor),
                                None => false,
                            };
                            let on_path = match distances.get(&neighbor) {
                                Some(dn) => *dn == my_distance - 1,
                                None => false,
                            };
                            let ghost ok = closer_neighbor(db, self_id, origin, my_distance as nat, neighbor);
                            proof {
                                assert(is_adjacent == mutual(db, self_id, neighbor)) by {
                                    assert(is_adjacent == graph_edge(graph@, self_id, neighbor));
                                }
                                if distances@.contains_key(neighbor) {
                                    if at_distance(adj, origin, neighbor, (my_distance - 1) as nat) {
                                        lemma_distance_unique(adj, origin, neighbor, distances@[neighbor] as nat, (my_distance - 1) as nat);
                                    }
                                } else {
                                    if at_distance(adj, origin, neighbor, (my_distance - 1) as nat) {
                                        assert(reachable(adj, origin, neighbor));
                                    }
                                }
                                assert((is_adjacent && on_path) == ok);
                            }
                            let ghost old_best = best;
                            if is_adjacent && on_path {
                                best = match best {
                                    None => Some((neighbor, port)),
                                    Some((bn, bp)) => {
                                        if neighbor < bn || (neighbor == bn && port < bp) {
                                            Some((neighbor, port))
                                        } else {
                                            Some((bn, bp))
                                        }
                                    },
                                };
                            }
                            proof {
                                let t = nbrs.take(j as int);
                                let t1 = nbrs.take(j + 1);
                                assert(t1 =~= t.push((neighbor, port)));
                                assert(t1[j as int] == (neighbor, port));
                                if has_closer_entry(t1, db, self_id, origin, my_distance as nat) && !ok {
                                    let k = choose|k: int| 0 <= k < t1.len() && #[trigger] closer_neighbor(db, self_id, origin, my_distance as nat, t1[k].0);
                                    assert(t[k] == t1[k]);
                                }
                                if has_closer_entry(t, db, self_id, origin, my_distance as nat) {
                                    let k = choose|k: int| 0 <= k < t.len() && #[trigger] closer_neighbor(db, self_id, origin, my_distance as nat, t[k].0);
                                    assert(t1[k] == t[k]);
                                }
                                if ok {
                                    assert(closer_neighbor(db, self_id, origin, my_distance as nat, t1[j as int].0));
                                }
                                match best {
                                    Some(ch) => {
                                        assert(t1.contains(ch)) by {
                                            match old_best {
                                                Some(ob) => {
                                                    if ch == ob {
                                                        let k = t.index_of(ob);
                                                        assert(t1[k] == ob);
                                                    }
                                                },
                                                None => {},
                                            }
                                        }
                                        assert forall|k: int| 0 <= k < t1.len() && #[trigger] closer_neighbor(db, self_id, origin, my_distance as nat, t1[k].0)
                                            implies pair_le(ch, t1[k]) by {
                                            if k < j {
                                                assert(t1[k] == t[k]);
                                            }
                                        }
                                    },
                                    None => {},
                                }
                            }
                            j = j + 1;
                        }
                        proof {
                            assert(nbrs.take(j as int) =~= nbrs);
                        }
                        match best {
                            Some((n, p)) => {
                                proof {
                                    let d = my_distance as nat;
                                    let ch = choose|ch: (u32, u16)| least_closer_entry(nbrs, db, self_id, origin, d, ch);
                                    assert(least_closer_entry(nbrs, db, self_id, origin, d, ch));
                                    let a = nbrs.index_of((n, p));
                                    let b = nbrs.index_of(ch);
                                    assert(pair_le(ch, nbrs[a]));
                                    assert(pair_le((n, p), nbrs[b]));
                                    assert(ch == (n, p));
                                }
                                found = Some(DesiredRoute { port: p, next_hop: Some(n) });
                            },
                            None => {},
                        }
                    } else {
                        proof {
                            assert(within(adj, origin, self_id, 0));
                        }
                    }
                },
            }
        }
        proof {
            assert(found == want);
        }
        match found {
            Some(route) => {
                routes.insert(customer, route);
            },
            None => {},
        }
        proof {
            let t = customers@.take(i as int);
            let t1 = customers@.take(i + 1);
            assert(t1 =~= t.push(customer));
            assert forall|c: u32| #[trigger] routes@.contains_key(c) <==> (t1.contains(c)
                && spec_route(self_id, nbrs, local, db, c) is Some) by {
                if t1.contains(c) && c != customer {
                    let k = t1.index_of(c);
                    assert(t[k] == c);
                }
                if t.contains(c) {
                    let k = t.index_of(c);
                    assert(t1[k] == c);
                    assert(c != customer);
                }
                assert(t1[i as int] == customer);
            }
        }
        i = i + 1;
    }
    proof {
        assert(customers@.take(i as int) =~= customers@);
        assert forall|c: u32| #[trigger] routes@.contains_key(c) <==> spec_route(self_id, nbrs, local, db, c) is Some by {
            if spec_route(self_id, nbrs, local, db, c) is Some {
                assert(origins@.contains_key(c));
                assert(customers@.to_set().contains(c));
            }
        }
    }
    routes
}

// ---------------------------------------------------------------------------
// Laws of the route computation
// ---------------------------------------------------------------------------

/// Switch `self_id` forwards customer `c` to the switch `n`.
pub open spec fn forwards_to(
    self_id: u32,
    nbrs: Seq<(u32, u16)>,
    local: Map<u32, u16>,
    lsdb: Map<u32, LsaView>,
    c: u32,
    n: u32,
) -> bool {
    spec_route(self_id, nbrs, local, lsdb, c) matches Some(r) && r.next_hop == Some(n)
}

/// The routing graph is undirected: a usable link is usable both ways.
pub proof fn lemma_mutual_is_symmetric(lsdb: Map<u32, LsaView>, a: u32, b: u32)
    ensures
        mutual(lsdb, a, b) == mutual(lsdb, b, a),
{
}

/// Whenever some entry of `nbrs` is a usable next hop, a smallest one exists.
pub proof fn lemma_least_closer_entry_exists(
    nbrs: Seq<(u32, u16)>,
    lsdb: Map<u32, LsaView>,
    self_id: u32,
    o: u32,
    d: nat,
)
    requires
        has_closer_entry(nbrs, lsdb, self_id, o, d),
    ensures
        exists|ch: (u32, u16)| least_closer_entry(nbrs, lsdb, self_id, o, d, ch),
    decreases nbrs.len(),
{
    let t = nbrs.drop_last();
    let last = nbrs.last();
    if has_closer_entry(t, lsdb, self_id, o, d) {
        lemma_least_closer_entry_exists(t, lsdb, self_id, o, d);
        let ch = choose|ch: (u32, u16)| least_closer_entry(t, lsdb, self_id, o, d, ch);
        let k = t.index_of(ch);
        assert(nbrs[k] == ch);
        let pick = if closer_neighbor(lsdb, self_id, o, d, last.0) && !pair_le(ch, last) {
            last
        } else {
            ch
        };
        assert forall|i: int| 0 <= i < nbrs.len() && #[trigger] closer_neighbor(lsdb, self_id, o, d, nbrs[i].0)
            implies pair_le(pick, nbrs[i]) by {
            if i < t.len() {
                assert(t[i] == nbrs[i]);
            }
        }
        assert(nbrs[nbrs.len() - 1] == last);
        assert(least_closer_entry(nbrs, lsdb, self_id, o, d, pick));
    } else {
        let i = choose|i: int| 0 <= i < nbrs.len() && #[trigger] closer_neighbor(lsdb, self_id, o, d, nbrs[i].0);
        if i < t.len() {
            assert(t[i] == nbrs[i]);
        }
        assert(i == nbrs.len() - 1);
        assert forall|k: int| 0 <= k < nbrs.len() && #[trigger] closer_neighbor(lsdb, self_id, o, d, nbrs[k].0)
            implies pair_le(last, nbrs[k]) by {
            if k < t.len() {
                assert(t[k] == nbrs[k]);
            }
        }
        assert(least_closer_entry(nbrs, lsdb, self_id, o, d, last));
    }
}

/// A forwarded route leads to a mutual neighbor exactly one hop closer to the
/// customer's owner.
pub proof fn lemma_next_hop_is_closer(
    self_id: u32,
    nbrs: Seq<(u32, u16)>,
    local: Map<u32, u16>,
    lsdb: Map<u32, LsaView>,
    c: u32,
    n: u32,
)
    requires
        forwards_to(self_id, nbrs, local, lsdb, c, n),
    ensures
        mutual(lsdb, self_id, n),
        reachable(lsdb_adj(lsdb), owner_of(lsdb, c), self_id),
        reachable(lsdb_adj(lsdb), owner_of(lsdb, c), n),
        distance_of(lsdb_adj(lsdb), owner_of(lsdb, c), n) + 1 == distance_of(
            lsdb_adj(lsdb),
            owner_of(lsdb, c),
            self_id,
        ),
{
    let adj = lsdb_adj(lsdb);
    let o = owner_of(lsdb, c);
    let k = choose|k: nat| #[trigger] within(adj, o, self_id, k);
    lemma_distance_exists(adj, o, self_id, k);
    let d = distance_of(adj, o, self_id);
    lemma_least_closer_entry_exists(nbrs, lsdb, self_id, o, d);
    let ch = choose|ch: (u32, u16)| least_closer_entry(nbrs, lsdb, self_id, o, d, ch);
    assert(ch.0 == n);
    if d == 0 {
        assert(within(adj, o, self_id, 0));
    }
    assert(at_distance(adj, o, n, (d - 1) as nat));
    lemma_distance_of_is(adj, o, n, (d - 1) as nat);
}

/// Loop freedom for one LSDB: along any chain of switches in which each
/// forwards customer `c` to the next (each with its own neighbors and local
/// customers), the distance to the owner falls by one per hop, so no switch
/// appears twice and the chain has at most the first switch's distance in hops.
pub proof fn lemma_forwarding_chain_is_loop_free(
    lsdb: Map<u32, LsaView>,
    c: u32,
    path: Seq<u32>,
    nbrs: spec_fn(u32) -> Seq<(u32, u16)>,
    local: spec_fn(u32) -> Map<u32, u16>,
)
    requires
        path.len() >= 2,
        forall|i: int| 0 <= i < path.len() - 1 ==> #[trigger] forwards_to(path[i], nbrs(path[i]), local(path[i]), lsdb, c, path[i + 1]),
    ensures
        path.no_duplicates(),
        path.len() <= distance_of(lsdb_adj(lsdb), owner_of(lsdb, c), path[0]) + 1,
        forall|i: int| 0 <= i < path.len() ==> #[trigger] distance_of(lsdb_adj(lsdb), owner_of(lsdb, c), path[i])
            + i == distance_of(lsdb_adj(lsdb), owner_of(lsdb, c), path[0]),
{
    let adj = lsdb_adj(lsdb);
    let o = owner_of(lsdb, c);
    assert forall|i: int| 0 <= i < path.len() implies #[trigger] distance_of(adj, o, path[i]) + i == distance_of(adj, o, path[0]) by {
        lemma_chain_distance(lsdb, c, path, nbrs, local, i);
    }
    assert forall|i: int, j: int| 0 <= i < j < path.len() implies path[i] != path[j] by {
        assert(distance_of(adj, o, path[i]) + i == distance_of(adj, o, path[0]));
        assert(distance_of(adj, o, path[j]) + j == distance_of(adj, o, path[0]));
    }
    let last = path.len() - 1;
    assert(distance_of(adj, o, path[last]) + last == distance_of(adj, o, path[0]));
}

proof fn lemma_chain_distance(
    lsdb: Map<u32, LsaView>,
    c: u32,
    path: Seq<u32>,
    nbrs: spec_fn(u32) -> Seq<(u32, u16)>,
    local: spec_fn(u32) -> Map<u32, u16>,
    i: int,
)
    requires
        0 <= i < path.len(),
        forall|i: int| 0 <= i < path.len() - 1 ==> #[trigger] forwards_to(path[i], nbrs(path[i]), local(path[i]), lsdb, c, path[i + 1]),
    ensures
        distance_of(lsdb_adj(lsdb), owner_of(lsdb, c), path[i]) + i == distance_of(
            lsdb_adj(lsdb),
            owner_of(lsdb, c),
            path[0],
        ),
    decreases i,
{
    if i > 0 {
        lemma_chain_distance(lsdb, c, path, nbrs, local, i - 1);
        let k = i - 1;
        assert(forwards_to(path[k], nbrs(path[k]), local(path[k]), lsdb, c, path[k + 1]));
        assert(k + 1 == i);
        lemma_next_hop_is_closer(path[i - 1], nbrs(path[i - 1]), local(path[i - 1]), lsdb, c, path[i]);
    }
}

/// Two lists with the same entries have the same usable next hops and the same
/// smallest one.
proof fn lemma_least_entry_same_entries(
    n1: Seq<(u32, u16)>,
    n2: Seq<(u32, u16)>,
    lsdb: Map<u32, LsaView>,
    self_id: u32,
    o: u32,
    d: nat,
)
    requires
        forall|e: (u32, u16)| n1.contains(e) <==> n2.contains(e),
    ensures
        has_closer_entry(n1, lsdb, self_id, o, d) == has_closer_entry(n2, lsdb, self_id, o, d),
        forall|ch: (u32, u16)| least_closer_entry(n1, lsdb, self_id, o, d, ch)
            == least_closer_entry(n2, lsdb, self_id, o, d, ch),
{
    if has_closer_entry(n1, lsdb, self_id, o, d) {
        let i = choose|i: int| 0 <= i < n1.len() && #[trigger] closer_neighbor(lsdb, self_id, o, d, n1[i].0);
        assert(n1.contains(n1[i]));
        let j = n2.index_of(n1[i]);
        assert(closer_neighbor(lsdb, self_id, o, d, n2[j].0));
    }
    if has_closer_entry(n2, lsdb, self_id, o, d) {
        let i = choose|i: int| 0 <= i < n2.len() && #[trigger] closer_neighbor(lsdb, self_id, o, d, n2[i].0);
        assert(n2.contains(n2[i]));
        let j = n1.index_of(n2[i]);
        assert(closer_neighbor(lsdb, self_id, o, d, n1[j].0));
    }
    assert forall|ch: (u32, u16)| least_closer_entry(n1, lsdb, self_id, o, d, ch)
        implies least_closer_entry(n2, lsdb, self_id, o, d, ch) by {
        assert forall|i: int| 0 <= i < n2.len() && #[trigger] closer_neighbor(lsdb, self_id, o, d, n2[i].0)
            implies pair_le(ch, n2[i]) by {
            assert(n2.contains(n2[i]));
            let k = n1.index_of(n2[i]);
            assert(closer_neighbor(lsdb, self_id, o, d, n1[k].0));
        }
    }
    assert forall|ch: (u32, u16)| least_closer_entry(n2, lsdb, self_id, o, d, ch)
        implies least_closer_entry(n1, lsdb, self_id, o, d, ch) by {
        assert forall|i: int| 0 <= i < n1.len() && #[trigger] closer_neighbor(lsdb, self_id, o, d, n1[i].0)
            implies pair_le(ch, n1[i]) by {
            assert(n1.contains(n1[i]));
            let k = n2.index_of(n1[i]);
            assert(closer_neighbor(lsdb, self_id, o, d, n2[k].0));
        }
    }
}

/// Routes depend on the direct-neighbor list only through which entries it
/// holds: reordering it (or repeating entries) changes no route.
pub proof fn lemma_route_ignores_neighbor_order(
    self_id: u32,
    n1: Seq<(u32, u16)>,
    n2: Seq<(u32, u16)>,
    local: Map<u32, u16>,
    lsdb: Map<u32, LsaView>,
    c: u32,
)
    requires
        n1.to_set() == n2.to_set(),
    ensures
        spec_route(self_id, n1, local, lsdb, c) == spec_route(self_id, n2, local, lsdb, c),
{
    assert forall|e: (u32, u16)| n1.contains(e) <==> n2.contains(e) by {
        assert(n1.to_set().contains(e) == n1.contains(e));
        assert(n2.to_set().contains(e) == n2.contains(e));
    }
    if is_claimed(lsdb, c) {
        let o = owner_of(lsdb, c);
        if o != self_id && reachable(lsdb_adj(lsdb), o, self_id) {
            let d = distance_of(lsdb_adj(lsdb), o, self_id);
            lemma_least_entry_same_entries(n1, n2, lsdb, self_id, o, d);
            if has_closer_entry(n1, lsdb, self_id, o, d) {
                lemma_least_closer_entry_exists(n1, lsdb, self_id, o, d);
                let ch1 = choose|ch: (u32, u16)| least_closer_entry(n1, lsdb, self_id, o, d, ch);
                let ch2 = choose|ch: (u32, u16)| least_closer_entry(n2, lsdb, self_id, o, d, ch);
                assert(least_closer_entry(n2, lsdb, self_id, o, d, ch1));
                assert(least_closer_entry(n1, lsdb, self_id, o, d, ch2));
                let k1 = n1.index_of(ch1);
                let k2 = n1.index_of(ch2);
                assert(pair_le(ch1, n1[k2]));
                assert(pair_le(ch2, n1[k1]));
                assert(ch1 == ch2);
            }
        }
    }
}

/// A permutation of the direct-neighbor list yields exactly the same routes.
pub proof fn lemma_routes_ignore_neighbor_permutation(
    self_id: u32,
    n1: Seq<(u32, u16)>,
    n2: Seq<(u32, u16)>,
    local: Map<u32, u16>,
    lsdb: Map<u32, LsaView>,
)
    requires
        n1.to_multiset() == n2.to_multiset(),
    ensures
        forall|c: u32| #[trigger] spec_route(self_id, n1, local, lsdb, c) == spec_route(self_id, n2, local, lsdb, c),
{
    n1.to_multiset_ensures();
    n2.to_multiset_ensures();
    assert forall|e: (u32, u16)| n1.to_set().contains(e) <==> n2.to_set().contains(e) by {
        assert(n1.contains(e) <==> n1.to_multiset().count(e) > 0);
        assert(n2.contains(e) <==> n2.to_multiset().count(e) > 0);
    }
    assert(n1.to_set() =~= n2.to_set());
    assert forall|c: u32| #[trigger] spec_route(self_id, n1, local, lsdb, c) == spec_route(self_id, n2, local, lsdb, c) by {
        lemma_route_ignores_neighbor_order(self_id, n1, n2, local, lsdb, c);
    }
}

/// Whether `ids` holds `x`.
fn contains_id(ids: &Vec<u32>, x: u32) -> (r: bool)
    ensures
        r == ids@.contains(x),
{
    let mut i: usize = 0;
    while i < ids.len()
        invariant
            i <= ids@.len(),
            forall|k: int| 0 <= k < i ==> ids@[k] != x,
        decreases ids@.len() - i,
    {
        if ids[i] == x {
            return true;
        }
        i = i + 1;
    }
    false
}

} // verus!
