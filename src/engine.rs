//! The single-source shortest-path engine.
use crate::graph::{
    achieves, adjacency_of, engine_fits, has_arc, holds_arc, is_dense, is_lower_bound,
    is_shortest, is_walk, is_walk_to, lemma_arc_listed, max_weight, node_ids, reachable,
    walk_cost, walk_end, Edge, WorldMap,
};
use crate::heap::{entry_le, MinQueue};
use crate::paths::{lemma_arc_symmetric, lemma_walk_push};
use vstd::prelude::*;

verus! {

broadcast use vstd::std_specs::hash::group_hash_axioms, vstd::multiset::group_multiset_properties;

/// Every arc stays among the ids `1..=n`.
pub open spec fn closed_in(edges: Seq<Edge>, n: int) -> bool {
    forall|u: int, x: int, w: int|
        #[trigger] has_arc(edges, u, x, w) ==> 1 <= u <= n && 1 <= x <= n
}

/// Each tentative cost is paid by some walk from `s`.
spec fn sound(edges: Seq<Edge>, s: int, d: Seq<Option<u64>>, n: int) -> bool {
    forall|v: int| 1 <= v <= n && #[trigger] d[v] is Some ==> achieves(edges, s, v, d[v]->0 as int)
}

/// Each settled node carries a cost that no walk from `s` beats.
spec fn settled_exact(edges: Seq<Edge>, s: int, d: Seq<Option<u64>>, f: Seq<bool>, n: int) -> bool {
    forall|v: int|
        1 <= v <= n && #[trigger] f[v] ==> d[v] is Some && is_lower_bound(
            edges,
            s,
            v,
            d[v]->0 as int,
        )
}

/// Every arc out of a settled node has been relaxed.
spec fn relaxed(edges: Seq<Edge>, d: Seq<Option<u64>>, f: Seq<bool>, n: int) -> bool {
    forall|u: int, x: int, w: int|
        #![trigger has_arc(edges, u, x, w), f[u]]
        1 <= u <= n && f[u] && has_arc(edges, u, x, w) ==> d[x] is Some && d[x]->0 <= d[u]->0 + w
}

/// Settled costs never exceed the tentative cost of an unsettled node.
spec fn ordered(d: Seq<Option<u64>>, f: Seq<bool>, n: int) -> bool {
    forall|u: int, v: int|
        #![trigger f[u], f[v]]
        1 <= u <= n && 1 <= v <= n && f[u] && !f[v] && d[v] is Some ==> d[u]->0 <= d[v]->0
}

/// No unsettled node carries a cost below `c`.
spec fn unsettled_from(d: Seq<Option<u64>>, f: Seq<bool>, n: int, c: int) -> bool {
    forall|v: int| 1 <= v <= n && !f[v] && #[trigger] d[v] is Some ==> c <= d[v]->0
}

/// Every tentative cost is at most `bound`.
spec fn bounded(d: Seq<Option<u64>>, n: int, bound: int) -> bool {
    forall|v: int| 1 <= v <= n && #[trigger] d[v] is Some ==> d[v]->0 <= bound
}

/// The ids settled so far.
spec fn settled_set(f: Seq<bool>, n: int) -> Set<int> {
    Set::new(|v: int| 1 <= v <= n && f[v])
}

/// A walk from a settled source that ends at an unsettled node costs at least the least
/// unsettled tentative cost.
proof fn lemma_leaving_walk(
    edges: Seq<Edge>,
    s: int,
    d: Seq<Option<u64>>,
    f: Seq<bool>,
    n: int,
    c: int,
    p: Seq<(int, int)>,
)
    requires
        d.len() == n + 1,
        f.len() == n + 1,
        closed_in(edges, n),
        1 <= s <= n,
        d[s] == Some(0u64),
        settled_exact(edges, s, d, f, n),
        relaxed(edges, d, f, n),
        unsettled_from(d, f, n, c),
        is_walk(edges, s, p),
        !f[walk_end(s, p)],
    ensures
        c <= walk_cost(p),
    decreases p.len(),
{
    if p.len() == 0 {
        assert(d[s] is Some);
        return;
    }
    let q = p.drop_last();
    let a = walk_end(s, q);
    let e = p.last().0;
    let w = p.last().1;
    assert(has_arc(edges, a, e, w));
    lemma_arc_symmetric(edges, a, e, w);
    if f[a] {
        assert(is_walk_to(edges, s, a, q));
        assert(d[e] is Some);
    } else {
        lemma_leaving_walk(edges, s, d, f, n, c, q);
    }
}

/// The unsettled node of least tentative cost has its shortest cost.
proof fn lemma_pop_exact(
    edges: Seq<Edge>,
    s: int,
    d: Seq<Option<u64>>,
    f: Seq<bool>,
    n: int,
    u: int,
)
    requires
        d.len() == n + 1,
        f.len() == n + 1,
        closed_in(edges, n),
        1 <= s <= n,
        d[s] == Some(0u64),
        settled_exact(edges, s, d, f, n),
        relaxed(edges, d, f, n),
        1 <= u <= n,
        !f[u],
        d[u] is Some,
        unsettled_from(d, f, n, d[u]->0 as int),
    ensures
        is_lower_bound(edges, s, u, d[u]->0 as int),
{
    assert forall|p: Seq<(int, int)>| #[trigger] is_walk_to(edges, s, u, p) implies d[u]->0
        <= walk_cost(p) by {
        lemma_leaving_walk(edges, s, d, f, n, d[u]->0 as int, p);
    }
}

/// Once no unsettled node carries a cost, every walk from the source ends at a settled node.
proof fn lemma_walks_end_settled(
    edges: Seq<Edge>,
    s: int,
    d: Seq<Option<u64>>,
    f: Seq<bool>,
    n: int,
    p: Seq<(int, int)>,
)
    requires
        d.len() == n + 1,
        f.len() == n + 1,
        closed_in(edges, n),
        1 <= s <= n,
        f[s],
        relaxed(edges, d, f, n),
        forall|v: int| 1 <= v <= n && !f[v] ==> !(#[trigger] d[v] is Some),
        is_walk(edges, s, p),
    ensures
        1 <= walk_end(s, p) <= n,
        f[walk_end(s, p)],
    decreases p.len(),
{
    if p.len() > 0 {
        let q = p.drop_last();
        lemma_walks_end_settled(edges, s, d, f, n, q);
        let a = walk_end(s, q);
        assert(has_arc(edges, a, p.last().0, p.last().1));
        assert(d[p.last().0] is Some);
    }
}

impl WorldMap {
    /// Single-source shortest costs (Dijkstra).  Entry `v` of the result, for each id
    /// `1..=N`, is the cost of a cheapest walk from `source` to `v`, or `None` where `v` cannot
    /// be reached.  A priority queue ordered by (cost, node id) starts with `(0, source)`;
    /// each round takes out its least entry, skips it where its node is already settled, and
    /// otherwise settles the node and pushes every neighbour whose tentative cost drops.
    #[verifier::rlimit(100)]
    pub fn calc(&self, source: usize) -> (r: Vec<Option<u64>>)
        requires
            self.wf(),
            is_dense(self@),
            1 <= source <= node_ids(self@).len(),
            engine_fits(self@),
        ensures
            r@.len() == node_ids(self@).len() + 1,
            r@[0] is None,
            forall|v: int|
                1 <= v <= node_ids(self@).len() ==> match #[trigger] r@[v] {
                    Some(c) => is_shortest(self@, source as int, v, c as int) && c
                        <= node_ids(self@).len() * max_weight(self@),
                    None => !reachable(self@, source as int, v),
                },
    {
        let ghost edges = self@;
        let n = self.nodes.len();
        proof {
            self.lemma_nodes();
        }
        let ghost nn = n as int;
        let ghost mw = max_weight(edges);
        proof {
            reveal(engine_fits);
            assert(nn * mw <= u64::MAX);
        }
        let ghost s = source as int;
        let mut dist: Vec<Option<u64>> = Vec::new();
        let mut done: Vec<bool> = Vec::new();
        dist.push(None);
        done.push(false);
        let mut i: usize = 0;
        while i < n
            invariant
                i <= n,
                dist@.len() == i + 1,
                done@.len() == i + 1,
                forall|v: int| 0 <= v <= i ==> #[trigger] dist@[v] is None,
                forall|v: int| 0 <= v <= i ==> !#[trigger] done@[v],
            decreases n - i,
        {
            dist.push(None);
            done.push(false);
            i = i + 1;
        }
        dist.set(source, Some(0));
        let mut count: usize = 0;
        let ghost mut settled: Set<int> = Set::empty();
        proof {
            assert(settled =~= settled_set(done@, nn));
            assert(is_walk_to(edges, s, s, Seq::<(int, int)>::empty()));
            assert(walk_cost(Seq::<(int, int)>::empty()) == 0);
            assert forall|v: int| 1 <= v <= nn && #[trigger] dist@[v] is Some implies achieves(
                edges,
                s,
                v,
                dist@[v]->0 as int,
            ) by {
                if v == s {
                    assert(is_walk_to(edges, s, v, Seq::<(int, int)>::empty()));
                }
            }
            assert forall|u: int, x: int, w: int|
                #![trigger has_arc(edges, u, x, w), done@[u]]
                1 <= u <= nn && done@[u] && has_arc(edges, u, x, w) implies dist@[x] is Some
                && dist@[x]->0 <= dist@[u]->0 + w by {
                assert(!done@[u]);
            }
        }
        let mut queue = MinQueue::new();
        queue.push((0, source));
        loop
            invariant
                queue.wf(),
                forall|v: int|
                    1 <= v <= nn && !done@[v] && #[trigger] dist@[v] is Some ==> queue@.contains(
                        (dist@[v]->0, v as usize),
                    ),
                forall|e: (u64, usize)|
                    #[trigger] queue@.contains(e) ==> 1 <= e.1 <= nn && dist@[e.1 as int] is Some
                        && dist@[e.1 as int]->0 <= e.0,
                dist@.len() == nn + 1,
                done@.len() == nn + 1,
                dist@[0] is None,
                !done@[0],
                n == nn,
                nn == node_ids(edges).len(),
                edges == self@,
                self.wf(),
                closed_in(edges, nn),
                adjacency_of(self.nodes@, edges),
                self.nodes@.dom() == node_ids(edges),
                mw == max_weight(edges),
                nn * mw <= u64::MAX,
                1 <= s <= nn,
                s == source,
                dist@[s] == Some(0u64),
                sound(edges, s, dist@, nn),
                settled_exact(edges, s, dist@, done@, nn),
                relaxed(edges, dist@, done@, nn),
                ordered(dist@, done@, nn),
                bounded(dist@, nn, count * mw),
                settled == settled_set(done@, nn),
                settled.finite(),
                settled.len() == count,
                count <= nn,
            ensures
                forall|v: int| 1 <= v <= nn && !done@[v] ==> !(#[trigger] dist@[v] is Some),
            decreases nn - count, queue@.len(),
        {
            // Take out the least entry, by cost and then by node id.  An entry of a node
            // already settled is stale: its cost cannot be lower than the settled one.
            let ghost q0 = queue@;
            let top = queue.pop();
            let (best_cost, best) = match top {
                Some(e) => e,
                None => {
                    proof {
                        assert forall|v: int| 1 <= v <= nn && !done@[v] implies !(
                        #[trigger] dist@[v] is Some) by {
                            if dist@[v] is Some {
                                assert(q0.contains((dist@[v]->0, v as usize)));
                            }
                        }
                    }
                    break ;
                },
            };
            proof {
                assert(q0.contains((best_cost, best)));
                assert forall|e: (u64, usize)| #[trigger] queue@.contains(e) implies q0.contains(e) by {
                    if e != (best_cost, best) {
                        assert(queue@.count(e) == q0.count(e));
                    }
                }
            }
            if done[best] {
                proof {
                    assert forall|v: int|
                        1 <= v <= nn && !done@[v] && #[trigger] dist@[v] is Some implies queue@.contains(
                        (dist@[v]->0, v as usize),
                    ) by {
                        assert(q0.contains((dist@[v]->0, v as usize)));
                        assert(v != best);
                        assert(queue@.count((dist@[v]->0, v as usize)) == q0.count((dist@[v]->0, v as usize)));
                    }
                }
            } else {
            proof {
                assert(q0.contains((dist@[best as int]->0, best)));
                assert(entry_le((best_cost, best), (dist@[best as int]->0, best)));
                assert forall|x: int| 1 <= x <= nn && !done@[x] && #[trigger] dist@[x] is Some implies best_cost <= dist@[x]->0 by {
                    assert(q0.contains((dist@[x]->0, x as usize)));
                    assert(entry_le((best_cost, best), (dist@[x]->0, x as usize)));
                }
                assert forall|v: int|
                    1 <= v <= nn && !done@[v] && v != best && #[trigger] dist@[v] is Some implies queue@.contains(
                    (dist@[v]->0, v as usize),
                ) by {
                    assert(q0.contains((dist@[v]->0, v as usize)));
                    assert(queue@.count((dist@[v]->0, v as usize)) == q0.count((dist@[v]->0, v as usize)));
                }
            }
            let ghost u = best as int;
            let ghost d0 = dist@;
            let ghost f0 = done@;
            proof {
                lemma_pop_exact(edges, s, d0, f0, nn, u);
                assert(!settled.contains(u));
                lemma_settled_len(settled, nn, u);
                assert forall|x: int| 1 <= x <= nn && #[trigger] f0[x] implies d0[x] is Some
                    && d0[x]->0 <= best_cost by {
                    assert(f0[x] && !f0[u]);
                }
                assert(best_cost <= (count as int) * mw) by {
                    assert(d0[u] is Some);
                }
                assert((count as int) * mw + mw == (count as int + 1) * mw) by (nonlinear_arith);
            }
            done.set(best, true);
            proof {
                settled = settled.insert(u);
                assert(settled =~= settled_set(done@, nn));
            }
            count = count + 1;
            // Relax the arcs of the newly settled node.
            let listed = self.nodes.get(&best);
            match listed {
                Some(list) => {
                    let mut j: usize = 0;
                    while j < list.len()
                        invariant
                            dist@.len() == nn + 1,
                            f0.len() == nn + 1,
                            d0.len() == nn + 1,
                            1 <= s <= nn,
                            done@ == f0.update(u, true),
                            1 <= u <= nn,
                            d0[u] == Some(best_cost),
                            dist@[u] == Some(best_cost),
                            dist@[0] is None,
                            closed_in(edges, nn),
                            adjacency_of(self.nodes@, edges),
                            self.nodes@.contains_key(best),
                            list@ == self.nodes@[best]@,
                            best as int == u,
                            nn * mw <= u64::MAX,
                            mw == max_weight(edges),
                            1 <= count <= nn,
                            best_cost <= (count - 1) * mw,
                            dist@[s] == Some(0u64),
                            sound(edges, s, dist@, nn),
                            bounded(dist@, nn, count * mw),
                            forall|x: int| 1 <= x <= nn && #[trigger] done@[x] ==> dist@[x] == d0[x]
                                && dist@[x] is Some && dist@[x]->0 <= best_cost,
                            unsettled_from(dist@, done@, nn, best_cost as int),
                            forall|x: int| 1 <= x <= nn && #[trigger] d0[x] is Some ==> dist@[x] is Some && dist@[x]->0 <= d0[x]->0,
                            forall|k: int|
                                0 <= k < j ==> dist@[#[trigger] list@[k].0 as int] is Some
                                    && dist@[list@[k].0 as int]->0 <= best_cost + list@[k].1,
                            j <= list@.len(),
                            queue.wf(),
                            forall|v: int|
                                1 <= v <= nn && !done@[v] && #[trigger] dist@[v] is Some ==> queue@.contains(
                                    (dist@[v]->0, v as usize),
                                ),
                            forall|e: (u64, usize)|
                                #[trigger] queue@.contains(e) ==> 1 <= e.1 <= nn && dist@[e.1 as int] is Some
                                    && dist@[e.1 as int]->0 <= e.0,
                        decreases list.len() - j,
                    {
                        let (x, w) = list[j];
                        proof {
                            assert(self.nodes@[best]@[j as int] == (x, w));
                            assert(has_arc(edges, u, x as int, w as int));
                            lemma_arc_listed(self.nodes@, edges, u, x as int, w as int);
                            assert(holds_arc(list@, x, w));
                            let jj = choose|jj: int| 0 <= jj < list@.len() && #[trigger] list@[jj] == (x, w);
                            assert(w <= mw);
                            assert(best_cost + w <= count * mw) by (nonlinear_arith)
                                requires
                                    best_cost <= (count - 1) * mw,
                                    w <= mw,
                                    count >= 1,
                            ;
                            assert(count * mw <= nn * mw) by (nonlinear_arith)
                                requires
                                    count <= nn,
                            ;
                        }
                        let cand: u64 = best_cost + w;
                        let improve = match dist[x] {
                            Some(old_cost) => cand < old_cost,
                            None => true,
                        };
                        if improve {
                            let ghost dprev = dist@;
                            proof {
                                assert(dist@[u] is Some);
                                let p = choose|p: Seq<(int, int)>|
                                    #[trigger] is_walk_to(edges, s, u, p) && walk_cost(p)
                                        == best_cost;
                                lemma_walk_push(edges, s, p, x as int, w as int);
                                assert(is_walk_to(edges, s, x as int, p.push((x as int, w as int))));
                                assert(!done@[x as int]);
                            }
                            let ghost qprev = queue@;
                            dist.set(x, Some(cand));
                            queue.push((cand, x));
                            proof {
                                assert forall|v: int|
                                    1 <= v <= nn && !done@[v] && #[trigger] dist@[v] is Some implies queue@.contains(
                                    (dist@[v]->0, v as usize),
                                ) by {
                                    if v != x as int {
                                        assert(dist@[v] == dprev[v]);
                                        assert(qprev.contains((dist@[v]->0, v as usize)));
                                    }
                                }
                                assert forall|e: (u64, usize)|
                                    #[trigger] queue@.contains(e) implies 1 <= e.1 <= nn && dist@[e.1 as int] is Some
                                        && dist@[e.1 as int]->0 <= e.0 by {
                                    if e != (cand, x) {
                                        assert(qprev.count(e) == queue@.count(e));
                                        assert(qprev.contains(e));
                                    }
                                }
                                assert forall|v: int| 1 <= v <= nn && #[trigger] dist@[v] is Some implies achieves(
                                    edges,
                                    s,
                                    v,
                                    dist@[v]->0 as int,
                                ) by {
                                    if v != x as int {
                                        assert(dist@[v] == dprev[v]);
                                    }
                                }
                                assert forall|k: int|
                                    0 <= k < j implies dist@[#[trigger] list@[k].0 as int] is Some
                                        && dist@[list@[k].0 as int]->0 <= best_cost + list@[k].1 by {
                                    assert(dprev[list@[k].0 as int] is Some);
                                }
                            }
                        }
                        j = j + 1;
                        proof {
                            assert forall|k: int|
                                0 <= k < j implies dist@[#[trigger] list@[k].0 as int] is Some
                                    && dist@[list@[k].0 as int]->0 <= best_cost + list@[k].1 by {
                                if k == j - 1 {
                                    assert(list@[k] == (x, w));
                                }
                            }
                        }
                    }
                    proof {
                        assert forall|y: int, w: int|
                            #[trigger] has_arc(edges, u, y, w) implies dist@[y] is Some
                            && dist@[y]->0 <= dist@[u]->0 + w by {
                            lemma_arc_listed(self.nodes@, edges, u, y, w);
                            let k = choose|k: int| 0 <= k < list@.len() && #[trigger] list@[k] == (y as usize, w as u64);
                            assert(dist@[list@[k].0 as int] is Some);
                        }
                    }
                },
                None => {
                    proof {
                        assert forall|y: int, w: int| #[trigger] has_arc(edges, u, y, w) implies false by {
                            lemma_arc_listed(self.nodes@, edges, u, y, w);
                        }
                    }
                },
            }
            proof {
                lemma_round_invariants(edges, s, d0, f0, dist@, done@, nn, u, best_cost as int);
            }
            }
        }
        proof {
            if !done@[s] {
                assert(dist@[s] is Some);
            }
            assert forall|v: int| 1 <= v <= nn implies match #[trigger] dist@[v] {
                Some(c) => is_shortest(edges, s, v, c as int) && c <= nn * mw,
                None => !reachable(edges, s, v),
            } by {
                assert(count * mw <= nn * mw) by (nonlinear_arith)
                    requires
                        count <= nn,
                ;
                if dist@[v] is Some {
                    assert(done@[v]);
                } else {
                    if reachable(edges, s, v) {
                        let p = choose|p: Seq<(int, int)>| #[trigger] is_walk_to(edges, s, v, p);
                        lemma_walks_end_settled(edges, s, dist@, done@, nn, p);
                    }
                }
            }
        }
        dist
    }
}

/// A new element of a subset of `1..=n` leaves room: the count stays within `n`.
proof fn lemma_settled_len(settled: Set<int>, n: int, u: int)
    requires
        settled.finite(),
        1 <= u <= n,
        !settled.contains(u),
        forall|x: int| #[trigger] settled.contains(x) ==> 1 <= x <= n,
    ensures
        settled.insert(u).len() == settled.len() + 1,
        settled.insert(u).len() <= n,
{
    let r = vstd::set_lib::set_int_range(1, n + 1);
    vstd::set_lib::lemma_int_range(1, n + 1);
    assert(settled.insert(u).subset_of(r));
    vstd::set_lib::lemma_len_subset(settled.insert(u), r);
}

/// The loop invariants hold again after a round that settled `u` at cost `c` and relaxed
/// its arcs.
proof fn lemma_round_invariants(
    edges: Seq<Edge>,
    s: int,
    d0: Seq<Option<u64>>,
    f0: Seq<bool>,
    d: Seq<Option<u64>>,
    f: Seq<bool>,
    n: int,
    u: int,
    c: int,
)
    requires
        d0.len() == n + 1,
        f0.len() == n + 1,
        d.len() == n + 1,
        closed_in(edges, n),
        1 <= u <= n,
        1 <= s <= n,
        f == f0.update(u, true),
        !f0[u],
        d0[u] == Some(c as u64),
        d[u] == d0[u],
        is_lower_bound(edges, s, u, c),
        settled_exact(edges, s, d0, f0, n),
        relaxed(edges, d0, f0, n),
        ordered(d0, f0, n),
        unsettled_from(d0, f0, n, c),
        forall|x: int| 1 <= x <= n && #[trigger] f[x] ==> d[x] == d0[x],
        forall|x: int| 1 <= x <= n && f[x] ==> #[trigger] d[x]->0 <= c,
        unsettled_from(d, f, n, c),
        forall|x: int| 1 <= x <= n && #[trigger] d0[x] is Some ==> d[x] is Some && d[x]->0 <= d0[x]->0,
        forall|y: int, w: int| #[trigger] has_arc(edges, u, y, w) ==> d[y] is Some && d[y]->0 <= d[u]->0 + w,
    ensures
        settled_exact(edges, s, d, f, n),
        relaxed(edges, d, f, n),
        ordered(d, f, n),
{
    assert forall|v: int| 1 <= v <= n && #[trigger] f[v] implies d[v] is Some && is_lower_bound(
        edges,
        s,
        v,
        d[v]->0 as int,
    ) by {
        if v != u {
            assert(f0[v]);
        }
    }
    assert forall|x: int, y: int, w: int|
        #![trigger has_arc(edges, x, y, w), f[x]]
        1 <= x <= n && f[x] && has_arc(edges, x, y, w) implies d[y] is Some && d[y]->0 <= d[x]->0
        + w by {
        if x != u {
            assert(f0[x]);
            assert(1 <= y <= n);
            assert(d0[y] is Some);
            assert(d[x] == d0[x]);
        }
    }
    assert forall|x: int, v: int|
        #![trigger f[x], f[v]]
        1 <= x <= n && 1 <= v <= n && f[x] && !f[v] && d[v] is Some implies d[x]->0 <= d[v]->0 by {
        assert(d[x]->0 <= c);
        assert(c <= d[v]->0);
    }
}

} // verus!
