//! The graph model: an immutable adjacency map built from an edge list, and the walks
//! and shortest costs over it.
use std::collections::HashMap;
use vstd::prelude::*;

verus! {

broadcast use vstd::std_specs::hash::group_hash_axioms;

/// An undirected weighted edge: two node ids and a non-negative weight.
pub type Edge = (usize, usize, u64);

/// The ways in which a graph or a computation over it can be refused.
#[derive(Debug, Clone, Copy, PartialEq, Eq, Structural)]
pub enum GraphError {
    /// An edge field is not a non-negative integer, or a node id is not positive.
    MalformedEdge,
    /// A node id lies outside the dense range `1..=N` of the node set.
    BrokenReference,
    /// Fewer than two nodes: there is no pair to average over.
    DegenerateGraph,
    /// The sum of the shortest costs over all pairs exceeds `u64::MAX`.
    CostOverflow,
}

/// Edge `e` can be walked from `u` to `v` at weight `w` (in either of its directions).
pub open spec fn arc_in(e: Edge, u: int, v: int, w: int) -> bool {
    (e.0 == u && e.1 == v && e.2 == w) || (e.1 == u && e.0 == v && e.2 == w)
}

/// Some edge of the list can be walked from `u` to `v` at weight `w`.
pub open spec fn has_arc(edges: Seq<Edge>, u: int, v: int, w: int) -> bool {
    exists|i: int| 0 <= i < edges.len() && #[trigger] arc_in(edges[i], u, v, w)
}

/// `x` is an end of some edge.
pub open spec fn is_endpoint(edges: Seq<Edge>, x: usize) -> bool {
    exists|i: int| 0 <= i < edges.len() && (#[trigger] edges[i].0 == x || edges[i].1 == x)
}

/// The node set: every id that some edge names.
pub open spec fn node_ids(edges: Seq<Edge>) -> Set<usize> {
    Set::new(|x: usize| is_endpoint(edges, x))
}

/// Every node id named by the edges is positive.
pub open spec fn ids_positive(edges: Seq<Edge>) -> bool {
    forall|i: int| 0 <= i < edges.len() ==> #[trigger] edges[i].0 >= 1 && edges[i].1 >= 1
}

/// The node set is exactly `1..=N`, where `N` is its size.
pub open spec fn is_dense(edges: Seq<Edge>) -> bool {
    forall|x: usize| 1 <= x <= node_ids(edges).len() ==> #[trigger] is_endpoint(edges, x)
}

/// The largest edge weight (zero without edges).
pub open spec fn max_weight(edges: Seq<Edge>) -> nat
    decreases edges.len(),
{
    if edges.len() == 0 {
        0
    } else {
        let m = max_weight(edges.drop_last());
        if edges.last().2 > m {
            edges.last().2 as nat
        } else {
            m
        }
    }
}

/// The engine's machine limits: a table indexed by `0..=N` fits in memory addressed by
/// `usize`, and every tentative cost fits in a `u64` (none exceeds `N * max_weight`).
#[verifier::opaque]
pub open spec fn engine_fits(edges: Seq<Edge>) -> bool {
    &&& node_ids(edges).len() < usize::MAX
    &&& node_ids(edges).len() * max_weight(edges) <= u64::MAX
}

// ---------------------------------------------------------------------------
// Walks.  A walk from `s` is a sequence of steps `(node reached, weight paid)`.
/// The node at which a walk from `s` ends.
pub open spec fn walk_end(s: int, p: Seq<(int, int)>) -> int {
    if p.len() == 0 {
        s
    } else {
        p.last().0
    }
}

/// Each step of `p` follows an edge from the node reached before it.
pub open spec fn is_walk(edges: Seq<Edge>, s: int, p: Seq<(int, int)>) -> bool
    decreases p.len(),
{
    if p.len() == 0 {
        true
    } else {
        is_walk(edges, s, p.drop_last()) && has_arc(
            edges,
            walk_end(s, p.drop_last()),
            p.last().0,
            p.last().1,
        )
    }
}

/// The sum of the weights paid along a walk.
pub open spec fn walk_cost(p: Seq<(int, int)>) -> int
    decreases p.len(),
{
    if p.len() == 0 {
        0
    } else {
        walk_cost(p.drop_last()) + p.last().1
    }
}

pub open spec fn is_walk_to(edges: Seq<Edge>, s: int, t: int, p: Seq<(int, int)>) -> bool {
    is_walk(edges, s, p) && walk_end(s, p) == t
}

/// Some walk leads from `s` to `t`.
pub open spec fn reachable(edges: Seq<Edge>, s: int, t: int) -> bool {
    exists|p: Seq<(int, int)>| #[trigger] is_walk_to(edges, s, t, p)
}

/// Some walk from `s` to `t` costs exactly `c`.
pub open spec fn achieves(edges: Seq<Edge>, s: int, t: int, c: int) -> bool {
    exists|p: Seq<(int, int)>| #[trigger] is_walk_to(edges, s, t, p) && walk_cost(p) == c
}

/// No walk from `s` to `t` costs less than `c`.
pub open spec fn is_lower_bound(edges: Seq<Edge>, s: int, t: int, c: int) -> bool {
    forall|p: Seq<(int, int)>| #[trigger] is_walk_to(edges, s, t, p) ==> c <= walk_cost(p)
}

/// `c` is the cost of a cheapest walk from `s` to `t`.
pub open spec fn is_shortest(edges: Seq<Edge>, s: int, t: int, c: int) -> bool {
    achieves(edges, s, t, c) && is_lower_bound(edges, s, t, c)
}

/// The shortest cost from `s` to `t` (meaningful where `t` is reachable from `s`).
pub open spec fn shortest(edges: Seq<Edge>, s: int, t: int) -> int {
    choose|c: int| is_shortest(edges, s, t, c)
}

/// What a pair adds to the total: its shortest cost, or nothing when unreachable.
pub open spec fn pair_cost(edges: Seq<Edge>, s: int, t: int) -> int {
    if reachable(edges, s, t) {
        shortest(edges, s, t)
    } else {
        0
    }
}

// ---------------------------------------------------------------------------
/// The arcs out of `x` in edge order: each edge adds `(other end, weight)` once for each of
/// its ends that is `x` (a loop at `x` adds two).
pub open spec fn adjacency_list(edges: Seq<Edge>, x: usize) -> Seq<(usize, u64)>
    decreases edges.len(),
{
    if edges.len() == 0 {
        seq![]
    } else {
        let e = edges.last();
        let first: Seq<(usize, u64)> = if e.0 == x {
            seq![(e.1, e.2)]
        } else {
            seq![]
        };
        let second: Seq<(usize, u64)> = if e.1 == x {
            seq![(e.0, e.2)]
        } else {
            seq![]
        };
        adjacency_list(edges.drop_last(), x) + first + second
    }
}

/// The adjacency map holds exactly the non-empty adjacency lists.
pub open spec fn lists_exact(m: Map<usize, Vec<(usize, u64)>>, edges: Seq<Edge>) -> bool {
    forall|x: usize|
        #[trigger] adjacency_list(edges, x) == (if m.contains_key(x) {
            m[x]@
        } else {
            Seq::<(usize, u64)>::empty()
        })
}

/// `list` holds the pair `(v, w)` at some index.
pub open spec fn holds_arc(list: Seq<(usize, u64)>, v: usize, w: u64) -> bool {
    exists|j: int| 0 <= j < list.len() && #[trigger] list[j] == (v, w)
}

/// The adjacency map lists exactly the arcs of the edge list.
pub open spec fn adjacency_of(m: Map<usize, Vec<(usize, u64)>>, edges: Seq<Edge>) -> bool {
    &&& forall|k: usize| #[trigger] m.contains_key(k) ==> m[k]@.len() > 0
    &&& forall|k: usize, j: int|
        #![trigger m[k]@[j]]
        m.contains_key(k) && 0 <= j < m[k]@.len() ==> has_arc(
            edges,
            k as int,
            m[k]@[j].0 as int,
            m[k]@[j].1 as int,
        )
    &&& forall|i: int|
        0 <= i < edges.len() ==> {
            &&& m.contains_key(#[trigger] edges[i].0)
            &&& m.contains_key(edges[i].1)
            &&& holds_arc(m[edges[i].0]@, edges[i].1, edges[i].2)
            &&& holds_arc(m[edges[i].1]@, edges[i].0, edges[i].2)
        }
}

/// A graph, built once from its edge list and never changed afterwards.
pub struct WorldMap {
    /// For each node id, its arcs `(neighbour, weight)`, one per edge end, in edge order.
    pub(crate) nodes: HashMap<usize, Vec<(usize, u64)>>,
    pub(crate) max_weight: u64,
    pub(crate) edges: Ghost<Seq<Edge>>,
}

impl View for WorldMap {
    type V = Seq<Edge>;

    /// A graph is seen as the list of edges it was built from.
    closed spec fn view(&self) -> Seq<Edge> {
        self.edges@
    }
}

impl WorldMap {
    /// The adjacency map lists the arcs of the edges, every id is positive, and the stored
    /// largest weight is the largest weight.
    pub closed spec fn wf(&self) -> bool {
        &&& adjacency_of(self.nodes@, self.edges@)
        &&& lists_exact(self.nodes@, self.edges@)
        &&& ids_positive(self.edges@)
        &&& self.max_weight == max_weight(self.edges@)
    }

    /// Builds the graph; fails with `MalformedEdge` exactly when some node id is zero.
    pub fn new(edges: &Vec<Edge>) -> (r: Result<WorldMap, GraphError>)
        ensures
            match r {
                Ok(g) => g.wf() && g@ == edges@ && ids_positive(edges@),
                Err(e) => e == GraphError::MalformedEdge && !ids_positive(edges@),
            },
    {
        let mut nodes: HashMap<usize, Vec<(usize, u64)>> = HashMap::new();
        let mut max_w: u64 = 0;
        let mut i: usize = 0;
        while i < edges.len()
            invariant
                0 <= i <= edges.len(),
                ids_positive(edges@.take(i as int)),
                max_w == max_weight(edges@.take(i as int)),
                adjacency_of(nodes@, edges@.take(i as int)),
                lists_exact(nodes@, edges@.take(i as int)),
            decreases edges.len() - i,
        {
            let e = edges[i];
            let (a, b, w) = e;
            if a == 0 || b == 0 {
                assert(!ids_positive(edges@)) by {
                    assert(edges@[i as int] == e);
                }
                return Err(GraphError::MalformedEdge);
            }
            proof {
                let pre = edges@.take(i as int);
                let post = edges@.take(i as int + 1);
                assert(post.drop_last() =~= pre);
                assert(post.last() == e);
                lemma_adjacency_extend(nodes@, pre, post);
            }
            let ghost n0 = nodes@;
            Self::push_arc(&mut nodes, a, b, w, Ghost(edges@.take(i as int + 1)));
            let ghost n1 = nodes@;
            Self::push_arc(&mut nodes, b, a, w, Ghost(edges@.take(i as int + 1)));
            if w > max_w {
                max_w = w;
            }
            i = i + 1;
            proof {
                let cur = edges@.take(i as int);
                assert(cur.drop_last() =~= edges@.take(i as int - 1));
                assert forall|x: usize|
                    #[trigger] adjacency_list(cur, x) == (if nodes@.contains_key(x) {
                        nodes@[x]@
                    } else {
                        Seq::<(usize, u64)>::empty()
                    }) by {
                    assert(cur.last() == e);
                    let before = adjacency_list(edges@.take(i as int - 1), x);
                    assert(before == (if n0.contains_key(x) {
                        n0[x]@
                    } else {
                        Seq::<(usize, u64)>::empty()
                    }));
                    if x == a && x == b {
                        assert(adjacency_list(cur, x) =~= before.push((b, w)).push((a, w)));
                    } else if x == a {
                        assert(adjacency_list(cur, x) =~= before.push((b, w)));
                    } else if x == b {
                        assert(adjacency_list(cur, x) =~= before.push((a, w)));
                    } else {
                        assert(adjacency_list(cur, x) =~= before);
                    }
                }
                assert forall|k: int| 0 <= k < cur.len() implies #[trigger] cur[k].0 >= 1
                    && cur[k].1 >= 1 by {
                    if k < cur.len() - 1 {
                        assert(cur[k] == edges@.take(i as int - 1)[k]);
                    }
                }
                assert forall|k: int| 0 <= k < cur.len() implies {
                    &&& nodes@.contains_key(#[trigger] cur[k].0)
                    &&& nodes@.contains_key(cur[k].1)
                    &&& holds_arc(nodes@[cur[k].0]@, cur[k].1, cur[k].2)
                    &&& holds_arc(nodes@[cur[k].1]@, cur[k].0, cur[k].2)
                } by {
                    if k < cur.len() - 1 {
                        let x = edges@.take(i as int - 1)[k];
                        assert(cur[k] == x);
                        assert(holds_arc(n0[x.0]@, x.1, x.2));
                        assert(holds_arc(n1[x.0]@, x.1, x.2));
                        assert(holds_arc(n0[x.1]@, x.0, x.2));
                        assert(holds_arc(n1[x.1]@, x.0, x.2));
                    } else {
                        assert(cur[k] == e);
                        assert(holds_arc(n1[a]@, b, w));
                    }
                }
            }
        }
        assert(edges@.take(i as int) =~= edges@);
        Ok(WorldMap { nodes, max_weight: max_w, edges: Ghost(edges@) })
    }

    /// Appends the arc `(v, w)` to the list of `u`, keeping every earlier arc.
    fn push_arc(
        nodes: &mut HashMap<usize, Vec<(usize, u64)>>,
        u: usize,
        v: usize,
        w: u64,
        edges: Ghost<Seq<Edge>>,
    )
        requires
            has_arc(edges@, u as int, v as int, w as int),
            forall|k: usize| #[trigger] old(nodes)@.contains_key(k) ==> old(nodes)@[k]@.len() > 0,
            forall|k: usize, j: int|
                #![trigger old(nodes)@[k]@[j]]
                old(nodes)@.contains_key(k) && 0 <= j < old(nodes)@[k]@.len() ==> has_arc(
                    edges@,
                    k as int,
                    old(nodes)@[k]@[j].0 as int,
                    old(nodes)@[k]@[j].1 as int,
                ),
        ensures
            forall|k: usize| #[trigger] final(nodes)@.contains_key(k) ==> final(nodes)@[k]@.len() > 0,
            forall|k: usize, j: int|
                #![trigger final(nodes)@[k]@[j]]
                final(nodes)@.contains_key(k) && 0 <= j < final(nodes)@[k]@.len() ==> has_arc(
                    edges@,
                    k as int,
                    final(nodes)@[k]@[j].0 as int,
                    final(nodes)@[k]@[j].1 as int,
                ),
            final(nodes)@.dom() == old(nodes)@.dom().insert(u),
            forall|k: usize|
                #![trigger final(nodes)@[k]]
                k != u && old(nodes)@.contains_key(k) ==> final(nodes)@[k] == old(nodes)@[k],
            old(nodes)@.contains_key(u) ==> final(nodes)@[u]@ == old(nodes)@[u]@.push((v, w)),
            !old(nodes)@.contains_key(u) ==> final(nodes)@[u]@ == seq![(v, w)],
            holds_arc(final(nodes)@[u]@, v, w),
            forall|k: usize, x: usize, y: u64|
                old(nodes)@.contains_key(k) && #[trigger] holds_arc(old(nodes)@[k]@, x, y)
                    ==> holds_arc(final(nodes)@[k]@, x, y),
    {
        let mut list = match nodes.remove(&u) {
            Some(l) => l,
            None => Vec::new(),
        };
        list.push((v, w));
        nodes.insert(u, list);
        proof {
            assert forall|k: usize, j: int|
                #![trigger nodes@[k]@[j]]
                nodes@.contains_key(k) && 0 <= j < nodes@[k]@.len() implies has_arc(
                edges@,
                k as int,
                nodes@[k]@[j].0 as int,
                nodes@[k]@[j].1 as int,
            ) by {
                if k == u && j == nodes@[k]@.len() - 1 {
                } else if k == u {
                    assert(nodes@[k]@[j] == old(nodes)@[k]@[j]);
                } else {
                    assert(nodes@[k] == old(nodes)@[k]);
                }
            }
            assert(nodes@.dom() =~= old(nodes)@.dom().insert(u));
            assert(nodes@[u]@[nodes@[u]@.len() - 1] == (v, w));
            assert forall|k: usize, x: usize, y: u64|
                old(nodes)@.contains_key(k) && #[trigger] holds_arc(old(nodes)@[k]@, x, y)
                    implies holds_arc(nodes@[k]@, x, y) by {
                let j = choose|j: int| 0 <= j < old(nodes)@[k]@.len() && #[trigger] old(nodes)@[k]@[j] == (x, y);
                if k == u {
                    assert(nodes@[k]@[j] == old(nodes)@[k]@[j]);
                } else {
                    assert(nodes@[k] == old(nodes)@[k]);
                }
            }
        }
    }
}

/// Arcs already listed stay listed when the edge list grows.
proof fn lemma_adjacency_extend(m: Map<usize, Vec<(usize, u64)>>, pre: Seq<Edge>, post: Seq<Edge>)
    requires
        adjacency_of(m, pre),
        post.len() == pre.len() + 1,
        post.drop_last() == pre,
    ensures
        forall|k: usize, j: int|
            #![trigger m[k]@[j]]
            m.contains_key(k) && 0 <= j < m[k]@.len() ==> has_arc(
                post,
                k as int,
                m[k]@[j].0 as int,
                m[k]@[j].1 as int,
            ),
        has_arc(post, post.last().0 as int, post.last().1 as int, post.last().2 as int),
        has_arc(post, post.last().1 as int, post.last().0 as int, post.last().2 as int),
{
    assert forall|k: usize, j: int|
        #![trigger m[k]@[j]]
        m.contains_key(k) && 0 <= j < m[k]@.len() implies has_arc(
        post,
        k as int,
        m[k]@[j].0 as int,
        m[k]@[j].1 as int,
    ) by {
        let i = choose|i: int|
            0 <= i < pre.len() && #[trigger] arc_in(
                pre[i],
                k as int,
                m[k]@[j].0 as int,
                m[k]@[j].1 as int,
            );
        assert(post[i] == pre[i]);
    }
    let l = post.len() - 1;
    assert(arc_in(post[l], post.last().0 as int, post.last().1 as int, post.last().2 as int));
    assert(arc_in(post[l], post.last().1 as int, post.last().0 as int, post.last().2 as int));
}

/// The ids `1..=k`.
pub open spec fn id_range(k: nat) -> Set<usize> {
    Set::new(|x: usize| 1 <= x <= k)
}

pub proof fn lemma_id_range(k: nat)
    requires
        k <= usize::MAX,
    ensures
        id_range(k).finite(),
        id_range(k).len() == k,
    decreases k,
{
    if k == 0 {
        assert(id_range(k) =~= Set::empty());
    } else {
        lemma_id_range((k - 1) as nat);
        assert(id_range(k) =~= id_range((k - 1) as nat).insert(k as usize));
    }
}

/// Each weight is at most the largest one.
pub proof fn lemma_max_weight(edges: Seq<Edge>, i: int)
    requires
        0 <= i < edges.len(),
    ensures
        edges[i].2 <= max_weight(edges),
    decreases edges.len(),
{
    if i < edges.len() - 1 {
        lemma_max_weight(edges.drop_last(), i);
        assert(edges.drop_last()[i] == edges[i]);
    }
}

/// An arc of the edge list is in the adjacency list of its tail.
pub proof fn lemma_arc_listed(m: Map<usize, Vec<(usize, u64)>>, edges: Seq<Edge>, u: int, v: int, w: int)
    requires
        adjacency_of(m, edges),
        has_arc(edges, u, v, w),
    ensures
        0 <= u <= usize::MAX,
        m.contains_key(u as usize),
        holds_arc(m[u as usize]@, v as usize, w as u64),
        v == v as usize,
        w == w as u64,
        w <= max_weight(edges),
{
    let i = choose|i: int| 0 <= i < edges.len() && #[trigger] arc_in(edges[i], u, v, w);
    let e = edges[i];
    assert(m.contains_key(e.0));
    lemma_max_weight(edges, i);
}

impl WorldMap {
    /// The arcs out of `node`, in the order in which its edges were given.
    pub fn neighbors(&self, node: usize) -> (r: Vec<(usize, u64)>)
        requires
            self.wf(),
        ensures
            r@ == adjacency_list(self@, node),
            forall|j: int|
                0 <= j < r@.len() ==> has_arc(self@, node as int, #[trigger] r@[j].0 as int, r@[j].1 as int),
            forall|v: usize, w: u64| #[trigger] has_arc(self@, node as int, v as int, w as int) ==> holds_arc(r@, v, w),
    {
        let mut r: Vec<(usize, u64)> = Vec::new();
        match self.nodes.get(&node) {
            Some(list) => {
                let mut j: usize = 0;
                while j < list.len()
                    invariant
                        j <= list@.len(),
                        self.nodes@.contains_key(node),
                        list@ == self.nodes@[node]@,
                        r@ == list@.take(j as int),
                    decreases list.len() - j,
                {
                    r.push(list[j]);
                    j = j + 1;
                    assert(r@ =~= list@.take(j as int));
                }
                assert(r@ =~= list@);
                assert(adjacency_list(self@, node) == list@);
                assert forall|j: int|
                    0 <= j < r@.len() implies has_arc(self@, node as int, #[trigger] r@[j].0 as int, r@[j].1 as int) by {
                    assert(self.nodes@[node]@[j] == r@[j]);
                }
                assert forall|v: usize, w: u64| #[trigger] has_arc(self@, node as int, v as int, w as int) implies holds_arc(r@, v, w) by {
                    lemma_arc_listed(self.nodes@, self@, node as int, v as int, w as int);
                }
            },
            None => {
                assert(adjacency_list(self@, node) == Seq::<(usize, u64)>::empty());
                assert(r@ =~= Seq::<(usize, u64)>::empty());
                assert forall|v: usize, w: u64| #[trigger] has_arc(self@, node as int, v as int, w as int) implies holds_arc(r@, v, w) by {
                    lemma_arc_listed(self.nodes@, self@, node as int, v as int, w as int);
                }
            },
        }
        r
    }

    /// Whether the graph is within the engine's machine limits (`engine_fits`).
    pub fn fits_limits(&self) -> (r: bool)
        requires
            self.wf(),
        ensures
            r == engine_fits(self@),
    {
        proof {
            self.lemma_nodes();
            reveal(engine_fits);
        }
        let n = self.nodes.len();
        if n == usize::MAX {
            return false;
        }
        (n as u64).checked_mul(self.max_weight).is_some()
    }

    /// The keys of the adjacency map are the node ids, and a dense node set is `1..=N`.
    pub(crate) proof fn lemma_nodes(&self)
        requires
            self.wf(),
        ensures
            adjacency_of(self.nodes@, self@),
            self.max_weight == max_weight(self@),
            ids_positive(self@),
            self.nodes@.dom() == node_ids(self@),
            node_ids(self@).finite(),
            node_ids(self@).len() == self.nodes.len(),
            is_dense(self@) ==> node_ids(self@) == id_range(node_ids(self@).len()),
            is_dense(self@) ==> forall|u: int, x: int, w: int|
                #[trigger] has_arc(self@, u, x, w) ==> 1 <= u <= node_ids(self@).len() && 1
                    <= x <= node_ids(self@).len(),
    {
        let m = self.nodes@;
        let e = self.edges@;
        assert forall|k: usize| m.contains_key(k) implies #[trigger] node_ids(e).contains(k) by {
            assert(m[k]@[0] == m[k]@[0]);
            let i = choose|i: int|
                0 <= i < e.len() && #[trigger] arc_in(e[i], k as int, m[k]@[0].0 as int, m[k]@[0].1 as int);
            assert(e[i].0 == k || e[i].1 == k);
        }
        assert forall|k: usize| #[trigger] node_ids(e).contains(k) implies m.contains_key(k) by {
            let i = choose|i: int| 0 <= i < e.len() && (#[trigger] e[i].0 == k || e[i].1 == k);
            assert(m.contains_key(e[i].0));
        }
        assert(m.dom() =~= node_ids(e));
        assert(self.nodes.len() == m.len());
        let n = node_ids(e).len();
        if is_dense(e) {
            lemma_id_range(n);
            assert(id_range(n).subset_of(node_ids(e)));
            vstd::set_lib::lemma_subset_equality(id_range(n), node_ids(e));
            assert forall|u: int, x: int, w: int| #[trigger] has_arc(e, u, x, w) implies 1 <= u <= n && 1 <= x <= n by {
                let i = choose|i: int| 0 <= i < e.len() && #[trigger] arc_in(e[i], u, x, w);
                assert(e[i].0 == e[i].0);
                assert(node_ids(e).contains(e[i].0));
                assert(node_ids(e).contains(e[i].1));
                assert(id_range(n).contains(e[i].0));
                assert(id_range(n).contains(e[i].1));
            }
        }
    }
}

} // verus!
