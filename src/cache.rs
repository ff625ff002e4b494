//! Memoised pairwise shortest costs, for repeated queries between single pairs; the
//! all-pairs sums do not go through it.
use std::collections::HashMap;
use crate::graph::{engine_fits, is_dense, is_shortest, node_ids, reachable, Edge, WorldMap};
use crate::paths::{lemma_shortest_exists, lemma_shortest_symmetric, lemma_shortest_unique};
use vstd::prelude::*;

verus! {

broadcast use vstd::std_specs::hash::group_hash_axioms;

/// An unordered pair of node ids in canonical form: `no1 <= no2`.
#[derive(Debug, Clone, Copy, PartialEq, Eq, Structural)]
pub struct Pos {
    pub no1: usize,
    pub no2: usize,
}

/// The canonical form of the pair `{a, b}`.
pub open spec fn pos_of(a: usize, b: usize) -> Pos {
    if a <= b {
        Pos { no1: a, no2: b }
    } else {
        Pos { no1: b, no2: a }
    }
}

/// The number under which the cache files a canonical pair.
pub open spec fn key_of(p: Pos) -> int {
    p.no1 * 0x1_0000_0000_0000_0000 + p.no2
}

proof fn lemma_key_injective(p: Pos, q: Pos)
    requires
        key_of(p) == key_of(q),
    ensures
        p == q,
{
    let b: int = 0x1_0000_0000_0000_0000;
    let (a1, b1, a2, b2) = (p.no1 as int, p.no2 as int, q.no1 as int, q.no2 as int);
    assert(b1 < b && b2 < b);
    if a1 < a2 {
        assert(a1 * b + b <= a2 * b) by (nonlinear_arith)
            requires
                a1 < a2,
                b > 0,
        ;
    } else if a2 < a1 {
        assert(a2 * b + b <= a1 * b) by (nonlinear_arith)
            requires
                a2 < a1,
                b > 0,
        ;
    }
}

proof fn lemma_key_range(p: Pos)
    ensures
        0 <= key_of(p) <= u128::MAX,
{
    let b: int = 0x1_0000_0000_0000_0000;
    assert(p.no1 * b + p.no2 <= (b - 1) * b + (b - 1)) by (nonlinear_arith)
        requires
            0 <= p.no1 < b,
            0 <= p.no2 < b,
    ;
    assert(p.no1 * b >= 0) by (nonlinear_arith)
        requires
            0 <= p.no1,
            b > 0,
    ;
}

impl WorldMap {
    /// The canonical form of the pair `{no1, no2}`: the smaller id first.
    pub fn make_pos(no1: usize, no2: usize) -> (r: Pos)
        ensures
            r == pos_of(no1, no2),
            r.no1 <= r.no2,
    {
        if no1 <= no2 {
            Pos { no1, no2 }
        } else {
            Pos { no1: no2, no2: no1 }
        }
    }
}

/// A memo of shortest costs between pairs of nodes of one graph.  An entry is written once,
/// only with the true shortest cost, and never changed afterwards.
pub struct PairCostCache {
    entries: HashMap<u128, u64>,
    edges: Ghost<Seq<Edge>>,
}

impl View for PairCostCache {
    type V = Map<Pos, u64>;

    /// The cached costs, by canonical pair.
    closed spec fn view(&self) -> Map<Pos, u64> {
        Map::new(
            |p: Pos| self.entries@.contains_key(key_of(p) as u128),
            |p: Pos| self.entries@[key_of(p) as u128],
        )
    }
}

impl PairCostCache {
    /// The graph whose costs the cache holds.
    pub closed spec fn graph(&self) -> Seq<Edge> {
        self.edges@
    }

    /// Every entry is filed under a canonical pair and holds its shortest cost.
    pub closed spec fn wf(&self) -> bool {
        forall|p: Pos| #[trigger]
            self.entries@.contains_key(key_of(p) as u128) ==> p.no1 <= p.no2 && is_shortest(
                self.edges@,
                p.no1 as int,
                p.no2 as int,
                self.entries@[key_of(p) as u128] as int,
            )
    }

    /// An empty cache for the graph `g`.
    pub fn new(g: &WorldMap) -> (r: PairCostCache)
        ensures
            r.wf(),
            r.graph() == g@,
            r@ == Map::<Pos, u64>::empty(),
    {
        let r = PairCostCache { entries: HashMap::new(), edges: Ghost(g@) };
        assert(r@ =~= Map::<Pos, u64>::empty());
        r
    }

    /// The cached cost of the pair `{a, b}`, if one was recorded; any cost found is the
    /// shortest cost between `a` and `b`.
    pub fn lookup(&self, a: usize, b: usize) -> (r: Option<u64>)
        requires
            self.wf(),
        ensures
            r == (if self@.contains_key(pos_of(a, b)) {
                Some(self@[pos_of(a, b)])
            } else {
                None::<u64>
            }),
            r matches Some(c) ==> is_shortest(self.graph(), a as int, b as int, c as int),
    {
        let p = WorldMap::make_pos(a, b);
        proof {
            lemma_key_range(p);
        }
        let key: u128 = (p.no1 as u128) * 0x1_0000_0000_0000_0000u128 + (p.no2 as u128);
        match self.entries.get(&key) {
            Some(c) => {
                proof {
                    assert(self.entries@.contains_key(key_of(p) as u128));
                    lemma_shortest_unique(self.edges@, p.no1 as int, p.no2 as int, *c as int);
                    lemma_shortest_symmetric(self.edges@, a as int, b as int);
                    lemma_shortest_exists(self.edges@, a as int, b as int);
                }
                Some(*c)
            },
            None => None,
        }
    }

    /// Records `c` as the cost of the pair `{a, b}`, unless a cost is already recorded for
    /// it: entries are written once.
    pub fn record(&mut self, a: usize, b: usize, c: u64)
        requires
            old(self).wf(),
            is_shortest(old(self).graph(), a as int, b as int, c as int),
        ensures
            final(self).wf(),
            final(self).graph() == old(self).graph(),
            final(self)@ == (if old(self)@.contains_key(pos_of(a, b)) {
                old(self)@
            } else {
                old(self)@.insert(pos_of(a, b), c)
            }),
    {
        let p = WorldMap::make_pos(a, b);
        proof {
            lemma_key_range(p);
        }
        let key: u128 = (p.no1 as u128) * 0x1_0000_0000_0000_0000u128 + (p.no2 as u128);
        if self.entries.contains_key(&key) {
            return ;
        }
        proof {
            lemma_shortest_unique(self.edges@, a as int, b as int, c as int);
            lemma_shortest_symmetric(self.edges@, a as int, b as int);
            lemma_shortest_exists(self.edges@, p.no1 as int, p.no2 as int);
        }
        self.entries.insert(key, c);
        proof {
            assert forall|q: Pos| #[trigger]
                self.entries@.contains_key(key_of(q) as u128) implies q.no1 <= q.no2
                && is_shortest(
                self.edges@,
                q.no1 as int,
                q.no2 as int,
                self.entries@[key_of(q) as u128] as int,
            ) by {
                lemma_key_range(q);
                if key_of(q) as u128 == key {
                    lemma_key_injective(p, q);
                }
            }
            assert forall|q: Pos| #[trigger] self@.contains_key(q) == old(self)@.insert(p, c).contains_key(q)
                by {
                lemma_key_range(q);
                if key_of(q) as u128 == key {
                    lemma_key_injective(p, q);
                }
            }
            assert(self@ =~= old(self)@.insert(p, c)) by {
                assert forall|q: Pos| #[trigger] self@.contains_key(q) implies self@[q] == old(self)@.insert(p, c)[q] by {
                    lemma_key_range(q);
                    if key_of(q) as u128 == key {
                        lemma_key_injective(p, q);
                    }
                }
            }
        }
    }
}

impl WorldMap {
    /// The shortest cost between `a` and `b`, or `None` where they are not connected.  A
    /// cached cost is returned as it is; otherwise one traversal from `a` runs and every cost
    /// it settles is recorded in the cache, so that afterwards the cache holds a cost for the
    /// pair of `a` with each node reachable from it.
    pub fn shortest_cost(&self, cache: &mut PairCostCache, a: usize, b: usize) -> (r: Option<u64>)
        requires
            self.wf(),
            is_dense(self@),
            engine_fits(self@),
            1 <= a <= node_ids(self@).len(),
            1 <= b <= node_ids(self@).len(),
            old(cache).wf(),
            old(cache).graph() == self@,
        ensures
            final(cache).wf(),
            final(cache).graph() == self@,
            old(cache)@.submap_of(final(cache)@),
            !old(cache)@.contains_key(pos_of(a, b)) ==> forall|v: usize|
                1 <= v <= node_ids(self@).len() && reachable(self@, a as int, v as int)
                    ==> #[trigger] final(cache)@.contains_key(pos_of(a, v)),
            match r {
                Some(c) => reachable(self@, a as int, b as int) && c == crate::graph::shortest(
                    self@,
                    a as int,
                    b as int,
                ),
                None => !reachable(self@, a as int, b as int),
            },
    {
        let hit = cache.lookup(a, b);
        if let Some(c) = hit {
            proof {
                lemma_shortest_unique(self@, a as int, b as int, c as int);
            }
            return Some(c);
        }
        let costs = self.calc(a);
        let mut v: usize = 1;
        while v < costs.len()
            invariant
                1 <= v <= costs@.len(),
                costs@.len() == node_ids(self@).len() + 1,
                cache.wf(),
                cache.graph() == self@,
                old(cache)@.submap_of(cache@),
                forall|x: usize|
                    1 <= x < v && reachable(self@, a as int, x as int) ==> #[trigger] cache@.contains_key(
                        pos_of(a, x),
                    ),
                forall|x: int|
                    1 <= x <= node_ids(self@).len() ==> match #[trigger] costs@[x] {
                        Some(c) => is_shortest(self@, a as int, x, c as int),
                        None => !reachable(self@, a as int, x),
                    },
            decreases costs@.len() - v,
        {
            let ghost before = cache@;
            if let Some(c) = costs[v] {
                cache.record(a, v, c);
            }
            proof {
                assert(before.submap_of(cache@));
                if reachable(self@, a as int, v as int) {
                    assert(costs@[v as int] is Some);
                }
                assert forall|x: usize|
                    1 <= x < v + 1 && reachable(self@, a as int, x as int) implies #[trigger] cache@.contains_key(
                    pos_of(a, x),
                ) by {
                    if x < v {
                        assert(before.contains_key(pos_of(a, x)));
                    }
                }
            }
            v = v + 1;
        }
        let r = costs[b];
        proof {
            if let Some(c) = r {
                assert(is_shortest(self@, a as int, b as int, c as int));
                lemma_shortest_unique(self@, a as int, b as int, c as int);
            }
        }
        r
    }
}

} // verus!
