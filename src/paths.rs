//! Facts about walks: they join, reverse and have a cheapest member, which give the
//! triangle inequality and the symmetry of shortest costs.
use crate::graph::{
    achieves, arc_in, has_arc, is_lower_bound, is_shortest, is_walk, is_walk_to, pair_cost, reachable,
    shortest, walk_cost, walk_end, Edge,
};
use vstd::prelude::*;

verus! {

/// Every arc can be taken backwards at the same weight.
pub proof fn lemma_arc_symmetric(edges: Seq<Edge>, u: int, v: int, w: int)
    requires
        has_arc(edges, u, v, w),
    ensures
        has_arc(edges, v, u, w),
        w >= 0,
{
    let i = choose|i: int| 0 <= i < edges.len() && #[trigger] arc_in(edges[i], u, v, w);
    assert(arc_in(edges[i], v, u, w));
}

/// Walks cost nothing negative.
pub proof fn lemma_walk_cost_nonneg(edges: Seq<Edge>, s: int, p: Seq<(int, int)>)
    requires
        is_walk(edges, s, p),
    ensures
        walk_cost(p) >= 0,
    decreases p.len(),
{
    if p.len() > 0 {
        lemma_walk_cost_nonneg(edges, s, p.drop_last());
        lemma_arc_symmetric(edges, walk_end(s, p.drop_last()), p.last().0, p.last().1);
    }
}

/// One more arc at the end of a walk makes a walk.
pub proof fn lemma_walk_push(edges: Seq<Edge>, s: int, p: Seq<(int, int)>, v: int, w: int)
    requires
        is_walk(edges, s, p),
        has_arc(edges, walk_end(s, p), v, w),
    ensures
        is_walk_to(edges, s, v, p.push((v, w))),
        walk_cost(p.push((v, w))) == walk_cost(p) + w,
{
    assert(p.push((v, w)).drop_last() =~= p);
}

/// A walk from `s` to `m` followed by a walk from `m` is a walk from `s`, and the costs add.
pub proof fn lemma_walk_concat(edges: Seq<Edge>, s: int, p: Seq<(int, int)>, q: Seq<(int, int)>)
    requires
        is_walk(edges, s, p),
        is_walk(edges, walk_end(s, p), q),
    ensures
        is_walk_to(edges, s, walk_end(walk_end(s, p), q), p + q),
        walk_cost(p + q) == walk_cost(p) + walk_cost(q),
    decreases q.len(),
{
    if q.len() == 0 {
        assert(p + q =~= p);
    } else {
        lemma_walk_concat(edges, s, p, q.drop_last());
        assert((p + q).drop_last() =~= p + q.drop_last());
        assert((p + q).last() == q.last());
    }
}

/// The steps of a walk from `s`, taken backwards, leading back to `s`.
pub open spec fn reversed_walk(s: int, p: Seq<(int, int)>) -> Seq<(int, int)>
    decreases p.len(),
{
    if p.len() == 0 {
        seq![]
    } else {
        seq![(walk_end(s, p.drop_last()), p.last().1)] + reversed_walk(s, p.drop_last())
    }
}

/// A walk taken backwards is a walk of the same cost between the same two nodes.
pub proof fn lemma_walk_reverse(edges: Seq<Edge>, s: int, p: Seq<(int, int)>)
    requires
        is_walk(edges, s, p),
    ensures
        is_walk_to(edges, walk_end(s, p), s, reversed_walk(s, p)),
        walk_cost(reversed_walk(s, p)) == walk_cost(p),
    decreases p.len(),
{
    if p.len() > 0 {
        let q = p.drop_last();
        let m = walk_end(s, q);
        let t = p.last().0;
        let w = p.last().1;
        lemma_walk_reverse(edges, s, q);
        lemma_arc_symmetric(edges, m, t, w);
        let first: Seq<(int, int)> = seq![(m, w)];
        lemma_walk_push(edges, t, seq![], m, w);
        assert(seq![].push((m, w)) =~= first);
        assert(walk_cost(first) == w) by {
            assert(first.drop_last() =~= seq![]);
        }
        lemma_walk_concat(edges, t, first, reversed_walk(s, q));
    }
}

/// Among walks from `s` to `t` there is a cheapest one, at or below any cost that some walk
/// reaches.
proof fn lemma_cheapest_below(edges: Seq<Edge>, s: int, t: int, k: nat)
    requires
        achieves(edges, s, t, k as int),
    ensures
        exists|c: int| c <= k && #[trigger] is_shortest(edges, s, t, c),
    decreases k,
{
    if is_lower_bound(edges, s, t, k as int) {
        assert(is_shortest(edges, s, t, k as int));
    } else {
        let p = choose|p: Seq<(int, int)>|
            #[trigger] is_walk_to(edges, s, t, p) && !(k <= walk_cost(p));
        lemma_walk_cost_nonneg(edges, s, p);
        lemma_cheapest_below(edges, s, t, walk_cost(p) as nat);
    }
}

/// Where `t` can be reached from `s`, `shortest` is the cost of a cheapest walk.
pub proof fn lemma_shortest_exists(edges: Seq<Edge>, s: int, t: int)
    requires
        reachable(edges, s, t),
    ensures
        is_shortest(edges, s, t, shortest(edges, s, t)),
        shortest(edges, s, t) >= 0,
{
    let p = choose|p: Seq<(int, int)>| #[trigger] is_walk_to(edges, s, t, p);
    lemma_walk_cost_nonneg(edges, s, p);
    lemma_cheapest_below(edges, s, t, walk_cost(p) as nat);
    let c = shortest(edges, s, t);
    let q = choose|q: Seq<(int, int)>| #[trigger] is_walk_to(edges, s, t, q) && walk_cost(q) == c;
    lemma_walk_cost_nonneg(edges, s, q);
}

/// A cheapest cost is unique, so it is `shortest`.
pub proof fn lemma_shortest_unique(edges: Seq<Edge>, s: int, t: int, c: int)
    requires
        is_shortest(edges, s, t, c),
    ensures
        reachable(edges, s, t),
        shortest(edges, s, t) == c,
{
    let p = choose|p: Seq<(int, int)>| #[trigger] is_walk_to(edges, s, t, p) && walk_cost(p) == c;
    lemma_shortest_exists(edges, s, t);
    let d = shortest(edges, s, t);
    let q = choose|q: Seq<(int, int)>| #[trigger] is_walk_to(edges, s, t, q) && walk_cost(q) == d;
    assert(c <= walk_cost(q));
    assert(d <= walk_cost(p));
}

/// Triangle inequality: going from `a` to `c` never costs more than going through `b`.
pub proof fn lemma_triangle_inequality(edges: Seq<Edge>, a: int, b: int, c: int)
    requires
        reachable(edges, a, b),
        reachable(edges, b, c),
    ensures
        reachable(edges, a, c),
        shortest(edges, a, c) <= shortest(edges, a, b) + shortest(edges, b, c),
{
    lemma_shortest_exists(edges, a, b);
    lemma_shortest_exists(edges, b, c);
    let p = choose|p: Seq<(int, int)>|
        #[trigger] is_walk_to(edges, a, b, p) && walk_cost(p) == shortest(edges, a, b);
    let q = choose|q: Seq<(int, int)>|
        #[trigger] is_walk_to(edges, b, c, q) && walk_cost(q) == shortest(edges, b, c);
    lemma_walk_concat(edges, a, p, q);
    assert(is_walk_to(edges, a, c, p + q));
    lemma_shortest_exists(edges, a, c);
}

/// Symmetry: on an undirected graph `b` is reachable from `a` exactly when `a` is from `b`,
/// and the shortest cost is the same both ways.
pub proof fn lemma_shortest_symmetric(edges: Seq<Edge>, a: int, b: int)
    ensures
        reachable(edges, a, b) <==> reachable(edges, b, a),
        reachable(edges, a, b) ==> shortest(edges, a, b) == shortest(edges, b, a),
        pair_cost(edges, a, b) == pair_cost(edges, b, a),
{
    if reachable(edges, a, b) {
        lemma_reachable_reverse(edges, a, b);
        lemma_reachable_reverse(edges, b, a);
        lemma_shortest_exists(edges, a, b);
        lemma_shortest_exists(edges, b, a);
        let x = shortest(edges, a, b);
        let y = shortest(edges, b, a);
        let p = choose|p: Seq<(int, int)>| #[trigger] is_walk_to(edges, a, b, p) && walk_cost(p) == x;
        let q = choose|q: Seq<(int, int)>| #[trigger] is_walk_to(edges, b, a, q) && walk_cost(q) == y;
        lemma_walk_reverse(edges, a, p);
        lemma_walk_reverse(edges, b, q);
        assert(y <= walk_cost(reversed_walk(a, p)));
        assert(x <= walk_cost(reversed_walk(b, q)));
    } else if reachable(edges, b, a) {
        lemma_reachable_reverse(edges, b, a);
    }
}

/// The triangle inequality over costs as the engine reports them: if `ab`, `bc` and `ac`
/// are the shortest costs from `a` to `b`, `b` to `c` and `a` to `c`, then `ac <= ab + bc`.
pub proof fn lemma_triangle_costs(edges: Seq<Edge>, a: int, b: int, c: int, ab: int, bc: int, ac: int)
    requires
        is_shortest(edges, a, b, ab),
        is_shortest(edges, b, c, bc),
        is_shortest(edges, a, c, ac),
    ensures
        ac <= ab + bc,
{
    lemma_shortest_unique(edges, a, b, ab);
    lemma_shortest_unique(edges, b, c, bc);
    lemma_shortest_unique(edges, a, c, ac);
    lemma_triangle_inequality(edges, a, b, c);
}

/// Symmetry over costs as the engine reports them: the shortest cost from `a` to `b` is
/// the shortest cost from `b` to `a`.
pub proof fn lemma_costs_symmetric(edges: Seq<Edge>, a: int, b: int, c: int)
    requires
        is_shortest(edges, a, b, c),
    ensures
        is_shortest(edges, b, a, c),
{
    lemma_shortest_unique(edges, a, b, c);
    lemma_shortest_symmetric(edges, a, b);
    lemma_shortest_exists(edges, b, a);
}

/// Reachability goes both ways.
proof fn lemma_reachable_reverse(edges: Seq<Edge>, a: int, b: int)
    requires
        reachable(edges, a, b),
    ensures
        reachable(edges, b, a),
{
    let p = choose|p: Seq<(int, int)>| #[trigger] is_walk_to(edges, a, b, p);
    lemma_walk_reverse(edges, a, p);
    assert(is_walk_to(edges, b, a, reversed_walk(a, p)));
}

} // verus!
