//! Weighted shortest-path search over an externally owned adjacency cache.
//!
//! The cache maps each node to its outgoing arcs, one `(neighbor, weight)`
//! pair per arc; callers fill it from whichever view of the mesh they route
//! over and whichever weight function they chose, and may reuse it across
//! queries — but never across different weight functions.  The search
//! itself is Dijkstra's algorithm of the `pathfinding` crate, trusted with
//! the contract its documentation states: a minimum-cost path, or `None`
//! when the target is unreachable.

use vstd::prelude::*;

verus! {

/// Largest weight an arc may carry: keeps every accumulated path cost well
/// below the overflow bound of the search.
pub const MAX_ARC_WEIGHT: u64 = 0xFFFF_FFFF;

/// Largest number of nodes a cache may hold, for the same reason.
pub const MAX_NODES: usize = 0x8000_0000;

/// An externally owned adjacency cache: per node, the arcs leaving it.
#[derive(Clone, Debug)]
pub struct NeighborCache {
    entries: Vec<Vec<(usize, u64)>>,
}

/// The arc lists of a raw adjacency vector.
pub open spec fn view_adj(adj: &Vec<Vec<(usize, u64)>>) -> Seq<Seq<(usize, u64)>> {
    Seq::new(adj@.len(), |i: int| adj@[i]@)
}

/// The graph holds an arc from `u` to `v` of weight `w`.
pub open spec fn has_arc(adj: Seq<Seq<(usize, u64)>>, u: usize, v: usize, w: u64) -> bool {
    (u as int) < adj.len() && exists|k: int|
        0 <= k < adj[u as int].len() && #[trigger] adj[u as int][k] == (v, w)
}

/// `p` is a walk whose steps carry the weights `ws`.
pub open spec fn is_path(adj: Seq<Seq<(usize, u64)>>, p: Seq<usize>, ws: Seq<u64>) -> bool {
    p.len() == ws.len() + 1 && forall|i: int|
        0 <= i < ws.len() ==> #[trigger] has_arc(adj, p[i], p[i + 1], ws[i])
}

/// Total weight of a walk.
pub open spec fn cost_of(ws: Seq<u64>) -> int
    decreases ws.len(),
{
    if ws.len() == 0 {
        0
    } else {
        cost_of(ws.drop_last()) + ws.last()
    }
}

/// `p` walks from `a` to `b` with weights `ws`.
pub open spec fn connects(
    adj: Seq<Seq<(usize, u64)>>,
    p: Seq<usize>,
    ws: Seq<u64>,
    a: usize,
    b: usize,
) -> bool {
    is_path(adj, p, ws) && p.len() >= 1 && p[0] == a && p.last() == b
}

/// `c` is the minimum cost of walking from `a` to `b`.
pub open spec fn shortest_cost(adj: Seq<Seq<(usize, u64)>>, a: usize, b: usize, c: u64) -> bool {
    &&& exists|p: Seq<usize>, ws: Seq<u64>|
        #[trigger] connects(adj, p, ws, a, b) && cost_of(ws) == c as int
    &&& forall|p: Seq<usize>, ws: Seq<u64>|
        #[trigger] connects(adj, p, ws, a, b) ==> cost_of(ws) >= c as int
}

impl NeighborCache {
    /// The stored arc lists, node by node.
    pub closed spec fn adj(self) -> Seq<Seq<(usize, u64)>> {
        view_adj(&self.entries)
    }

    /// Every arc target is a node of the cache and every weight is capped.
    pub open spec fn wf(self) -> bool {
        &&& self.adj().len() <= MAX_NODES
        &&& forall|n: int, k: int|
            0 <= n < self.adj().len() && 0 <= k < self.adj()[n].len() ==> ((
            #[trigger] self.adj()[n][k]).0 as int) < self.adj().len() && self.adj()[n][k].1
                <= MAX_ARC_WEIGHT
    }

    /// An empty cache over `n` nodes.
    pub fn new(n: usize) -> (r: Self)
        requires
            n <= MAX_NODES,
        ensures
            r.wf(),
            r.adj().len() == n,
            forall|i: int| 0 <= i < n ==> (#[trigger] r.adj()[i]).len() == 0,
    {
        let mut entries: Vec<Vec<(usize, u64)>> = Vec::new();
        for k in 0..n
            invariant
                entries@.len() == k,
                forall|i: int| 0 <= i < k ==> (#[trigger] entries@[i])@.len() == 0,
        {
            entries.push(Vec::new());
        }
        NeighborCache { entries }
    }

    /// Number of nodes.
    pub fn node_count(&self) -> (r: usize)
        ensures
            r == self.adj().len(),
    {
        self.entries.len()
    }

    /// Record one arc.
    pub fn add_neighbor(&mut self, from: usize, to: usize, w: u64)
        requires
            old(self).wf(),
            (from as int) < old(self).adj().len(),
            (to as int) < old(self).adj().len(),
            w <= MAX_ARC_WEIGHT,
        ensures
            final(self).wf(),
            final(self).adj() == old(self).adj().update(
                from as int,
                old(self).adj()[from as int].push((to, w)),
            ),
    {
        let row = &mut self.entries[from];
        row.push((to, w));
        proof {
            assert(final(self).adj() =~= old(self).adj().update(
                from as int,
                old(self).adj()[from as int].push((to, w)),
            ));
        }
    }
}

/// The arcs leaving node `n`, or nothing for an unknown node.
fn arcs_of(adj: &Vec<Vec<(usize, u64)>>, n: usize) -> (r: Vec<(usize, u64)>)
    ensures
        (n as int) < adj@.len() ==> r@ == view_adj(adj)[n as int],
        (n as int) >= adj@.len() ==> r@.len() == 0,
{
    let mut out: Vec<(usize, u64)> = Vec::new();
    if n < adj.len() {
        let row = &adj[n];
        let len = row.len();
        for k in 0..len
            invariant
                (n as int) < adj@.len(),
                len == row@.len(),
                row@ == adj@[n as int]@,
                out@.len() == k,
                forall|i: int| 0 <= i < k ==> out@[i] == row@[i],
        {
            out.push(row[k]);
        }
        proof {
            assert(out@ =~= view_adj(adj)[n as int]);
        }
    }
    out
}

/// Whether the search has reached its target node.
fn node_is(n: &usize, b: usize) -> (r: bool)
    ensures
        r == (*n == b),
{
    *n == b
}

/// Relies on `pathfinding::prelude::dijkstra`: computes a minimum-cost path
/// from `a` to the first node satisfying the success test, here equality
/// with `b`, over non-negative arc costs, and returns it with its total
/// cost, or `None` when no such path exists.  The path includes both ends.
/// The bounds on node count and arc weight keep every accumulated cost far
/// below the overflow limit of the cost additions the search performs.
#[verifier::external_body]
fn dijkstra_usize(adj: &Vec<Vec<(usize, u64)>>, a: usize, b: usize) -> (r: Option<
    (Vec<usize>, u64),
>)
    requires
        view_adj(adj).len() <= MAX_NODES,
        forall|n: int, k: int|
            0 <= n < view_adj(adj).len() && 0 <= k < view_adj(adj)[n].len() ==> ((
            #[trigger] view_adj(adj)[n][k]).0 as int) < view_adj(adj).len() && view_adj(
                adj,
            )[n][k].1 <= MAX_ARC_WEIGHT,
    ensures
        match r {
            Some(pc) => (exists|ws: Seq<u64>|
                #[trigger] connects(view_adj(adj), pc.0@, ws, a, b) && cost_of(ws)
                    == pc.1 as int) && (forall|p2: Seq<usize>, ws2: Seq<u64>|
                #[trigger] connects(view_adj(adj), p2, ws2, a, b) ==> cost_of(ws2)
                    >= pc.1 as int),
            None => forall|p2: Seq<usize>, ws2: Seq<u64>|
                !(#[trigger] connects(view_adj(adj), p2, ws2, a, b)),
        },
{
    pathfinding::prelude::dijkstra(&a, |n: &usize| arcs_of(adj, *n), |n: &usize| node_is(n, b))
}

/// The minimum-cost path from `a` to `b` over the cached arcs, with its
/// total cost, or `None` when `b` is unreachable from `a`.  Fixed cache and
/// endpoints give a fixed answer: the search is a function of its inputs.
pub fn find_shortest_path(a: usize, b: usize, cache: &NeighborCache) -> (r: Option<
    (Vec<usize>, u64),
>)
    requires
        cache.wf(),
        (a as int) < cache.adj().len(),
        (b as int) < cache.adj().len(),
    ensures
        match r {
            Some(pc) => (exists|ws: Seq<u64>|
                #[trigger] connects(cache.adj(), pc.0@, ws, a, b) && cost_of(ws)
                    == pc.1 as int) && (forall|p2: Seq<usize>, ws2: Seq<u64>|
                #[trigger] connects(cache.adj(), p2, ws2, a, b) ==> cost_of(ws2)
                    >= pc.1 as int),
            None => forall|p2: Seq<usize>, ws2: Seq<u64>|
                !(#[trigger] connects(cache.adj(), p2, ws2, a, b)),
        },
{
    dijkstra_usize(&cache.entries, a, b)
}

/// The minimum-cost cycle through `a`: the cheapest of the shortest paths
/// back to `a` from each of its neighbors, with `a` prepended, at the cost
/// of that return path.  `None` when no neighbor reaches `a`.  Ties keep
/// the earliest neighbor in arc order.
pub fn find_shortest_cycle(a: usize, cache: &NeighborCache) -> (r: Option<(Vec<usize>, u64)>)
    requires
        cache.wf(),
        (a as int) < cache.adj().len(),
    ensures
        match r {
            Some(pc) => pc.0@.len() >= 2 && pc.0@[0] == a && (exists|ws: Seq<u64>|
                #[trigger] connects(
                    cache.adj(),
                    pc.0@.subrange(1, pc.0@.len() as int),
                    ws,
                    pc.0@[1],
                    a,
                ) && cost_of(ws) == pc.1 as int) && (exists|k: int|
                0 <= k < cache.adj()[a as int].len() && (#[trigger] cache.adj()[a as int][k]).0
                    == pc.0@[1]) && shortest_cost(cache.adj(), pc.0@[1], a, pc.1) && (forall|
                k: int,
                c2: u64,
            |
                0 <= k < cache.adj()[a as int].len() && #[trigger] shortest_cost(
                    cache.adj(),
                    cache.adj()[a as int][k].0,
                    a,
                    c2,
                ) ==> c2 >= pc.1),
            None => forall|k: int, p2: Seq<usize>, ws2: Seq<u64>|
                0 <= k < cache.adj()[a as int].len() ==> !(#[trigger] connects(
                    cache.adj(),
                    p2,
                    ws2,
                    cache.adj()[a as int][k].0,
                    a,
                )),
        },
{
    let arcs = arcs_of(&cache.entries, a);
    let mut best: Option<(Vec<usize>, u64)> = None;
    let ghost adj = cache.adj();
    let n = arcs.len();
    for k in 0..n
        invariant
            cache.wf(),
            (a as int) < adj.len(),
            adj == cache.adj(),
            n == arcs@.len(),
            arcs@ == adj[a as int],
            match best {
                None => forall|k2: int, p2: Seq<usize>, ws2: Seq<u64>|
                    0 <= k2 < k ==> !(#[trigger] connects(adj, p2, ws2, adj[a as int][k2].0, a)),
                Some(pc) => pc.0@.len() >= 1 && (exists|ws: Seq<u64>|
                    #[trigger] connects(adj, pc.0@, ws, pc.0@[0], a) && cost_of(ws)
                        == pc.1 as int) && (exists|k2: int|
                    0 <= k2 < k && (#[trigger] adj[a as int][k2]).0 == pc.0@[0])
                    && shortest_cost(adj, pc.0@[0], a, pc.1) && (forall|k2: int, c2: u64|
                    0 <= k2 < k && #[trigger] shortest_cost(adj, adj[a as int][k2].0, a, c2)
                        ==> c2 >= pc.1),
            },
    {
        let to = arcs[k].0;
        proof {
            assert(adj[a as int][k as int].0 == to);
            assert((to as int) < adj.len());
        }
        let found = find_shortest_path(to, a, cache);
        match found {
            None => {
                proof {
                    if best is None {
                        assert forall|k2: int, p2: Seq<usize>, ws2: Seq<u64>|
                            0 <= k2 < k + 1 implies !(#[trigger] connects(
                            adj,
                            p2,
                            ws2,
                            adj[a as int][k2].0,
                            a,
                        )) by {
                            if k2 == k {
                                assert(!connects(adj, p2, ws2, to, a));
                            }
                        }
                    }
                }
            },
            Some(pc) => {
                proof {
                    assert(shortest_cost(adj, to, a, pc.1));
                    assert(pc.0@.len() >= 1 && pc.0@[0] == to) by {
                        let ws = choose|ws: Seq<u64>|
                            #[trigger] connects(adj, pc.0@, ws, to, a) && cost_of(ws)
                                == pc.1 as int;
                    }
                }
                let replace = match &best {
                    None => true,
                    Some(cur) => pc.1 < cur.1,
                };
                if replace {
                    proof {
                        assert forall|k2: int, c2: u64|
                            0 <= k2 < k + 1 && #[trigger] shortest_cost(
                                adj,
                                adj[a as int][k2].0,
                                a,
                                c2,
                            ) implies c2 >= pc.1 by {
                            if k2 < k {
                                match best {
                                    Some(cur) => {
                                        assert(c2 >= cur.1);
                                    },
                                    None => {
                                        let (p3, ws3): (Seq<usize>, Seq<u64>) = choose|
                                            p3: Seq<usize>,
                                            ws3: Seq<u64>,
                                        |
                                            #[trigger] connects(
                                                adj,
                                                p3,
                                                ws3,
                                                adj[a as int][k2].0,
                                                a,
                                            ) && cost_of(ws3) == c2 as int;
                                        assert(false);
                                    },
                                }
                            } else {
                                assert(c2 == pc.1) by {
                                    assert(shortest_cost(adj, to, a, c2) && shortest_cost(
                                        adj,
                                        to,
                                        a,
                                        pc.1,
                                    ));
                                    let (p3, ws3): (Seq<usize>, Seq<u64>) = choose|
                                        p3: Seq<usize>,
                                        ws3: Seq<u64>,
                                    |
                                        #[trigger] connects(adj, p3, ws3, to, a) && cost_of(ws3)
                                            == c2 as int;
                                    let (p4, ws4): (Seq<usize>, Seq<u64>) = choose|
                                        p4: Seq<usize>,
                                        ws4: Seq<u64>,
                                    |
                                        #[trigger] connects(adj, p4, ws4, to, a) && cost_of(ws4)
                                            == pc.1 as int;
                                }
                            }
                        }
                    }
                    best = Some(pc);
                } else {
                    proof {
                        assert forall|k2: int, c2: u64|
                            0 <= k2 < k + 1 && #[trigger] shortest_cost(
                                adj,
                                adj[a as int][k2].0,
                                a,
                                c2,
                            ) implies c2 >= best.unwrap().1 by {
                            if k2 == k {
                                assert(shortest_cost(adj, to, a, c2) && shortest_cost(
                                    adj,
                                    to,
                                    a,
                                    pc.1,
                                ));
                                let (p3, ws3): (Seq<usize>, Seq<u64>) = choose|
                                    p3: Seq<usize>,
                                    ws3: Seq<u64>,
                                |
                                    #[trigger] connects(adj, p3, ws3, to, a) && cost_of(ws3)
                                        == c2 as int;
                                let (p4, ws4): (Seq<usize>, Seq<u64>) = choose|
                                    p4: Seq<usize>,
                                    ws4: Seq<u64>,
                                |
                                    #[trigger] connects(adj, p4, ws4, to, a) && cost_of(ws4)
                                        == pc.1 as int;
                                assert(c2 == pc.1);
                            }
                        }
                    }
                }
            },
        }
    }
    match best {
        None => None,
        Some(pc) => {
            let (p, c) = pc;
            let mut out: Vec<usize> = Vec::new();
            out.push(a);
            let plen = p.len();
            for i in 0..plen
                invariant
                    plen == p@.len(),
                    out@.len() == i + 1,
                    out@[0] == a,
                    forall|x: int| 0 <= x < i ==> out@[x + 1] == p@[x],
            {
                out.push(p[i]);
            }
            proof {
                assert(out@.subrange(1, out@.len() as int) =~= p@);
            }
            Some((out, c))
        },
    }
}

} // verus!
