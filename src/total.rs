//! Sums of shortest costs over pairs of nodes, whole or split into chunks of sources.
use crate::graph::{
    engine_fits, is_dense, is_endpoint, is_shortest, max_weight, node_ids, pair_cost,
    reachable, Edge, GraphError, WorldMap,
};
use crate::paths::{lemma_shortest_exists, lemma_shortest_unique};
use vstd::prelude::*;

verus! {

broadcast use vstd::std_specs::hash::group_hash_axioms;

/// The sum of `pair_cost(s, d)` over the destinations `s < d < t`.
pub open spec fn row_sum(edges: Seq<Edge>, s: int, t: int) -> int
    decreases t - s,
{
    if t <= s + 1 {
        0
    } else {
        row_sum(edges, s, t - 1) + pair_cost(edges, s, t - 1)
    }
}

/// The sum of the rows of the sources `lo <= s < hi`, each over destinations up to `n`.
pub open spec fn range_total(edges: Seq<Edge>, n: int, lo: int, hi: int) -> int
    decreases hi - lo,
{
    if hi <= lo {
        0
    } else {
        range_total(edges, n, lo, hi - 1) + row_sum(edges, hi - 1, n + 1)
    }
}

/// The sum of the shortest costs over all pairs `1 <= a < b <= N`; unreachable pairs add
/// nothing.
pub open spec fn total_cost(edges: Seq<Edge>) -> int {
    let n = node_ids(edges).len() as int;
    range_total(edges, n, 1, n + 1)
}

/// The number of sources that each of `workers` chunks takes: `ceil(n / workers)`.
pub open spec fn chunk_size(n: int, workers: int) -> int {
    if n % workers == 0 {
        n / workers
    } else {
        n / workers + 1
    }
}

/// The first source of chunk `k`; chunk `k` holds the sources from there up to the first
/// source of chunk `k + 1`.
pub open spec fn chunk_start(n: int, workers: int, k: int) -> int {
    let x = 1 + k * chunk_size(n, workers);
    if x <= n + 1 {
        x
    } else {
        n + 1
    }
}

/// The sum of the totals of the first `k` chunks.
pub open spec fn chunks_total(edges: Seq<Edge>, n: int, workers: int, k: int) -> int
    decreases k,
{
    if k <= 0 {
        0
    } else {
        chunks_total(edges, n, workers, k - 1) + range_total(
            edges,
            n,
            chunk_start(n, workers, k - 1),
            chunk_start(n, workers, k),
        )
    }
}

/// Source ranges add up.
pub proof fn lemma_range_total_split(edges: Seq<Edge>, n: int, lo: int, mid: int, hi: int)
    requires
        lo <= mid <= hi,
    ensures
        range_total(edges, n, lo, hi) == range_total(edges, n, lo, mid) + range_total(
            edges,
            n,
            mid,
            hi,
        ),
    decreases hi - mid,
{
    if hi > mid {
        lemma_range_total_split(edges, n, lo, mid, hi - 1);
    }
}

proof fn lemma_chunk_start_monotone(n: int, workers: int, k: int)
    requires
        n >= 0,
        workers >= 1,
        k >= 0,
    ensures
        chunk_start(n, workers, k) <= chunk_start(n, workers, k + 1),
        chunk_start(n, workers, 0) == 1,
        1 <= chunk_start(n, workers, k) <= n + 1,
{
    let size = chunk_size(n, workers);
    assert(n / workers >= 0) by (nonlinear_arith)
        requires
            n >= 0,
            workers >= 1,
    ;
    assert(k * size <= (k + 1) * size) by (nonlinear_arith)
        requires
            size >= 0,
            k >= 0,
    ;
    assert(0 * size == 0);
    assert(k * size >= 0) by (nonlinear_arith)
        requires
            size >= 0,
            k >= 0,
    ;
}

proof fn lemma_chunks_reach_end(n: int, workers: int)
    requires
        n >= 0,
        workers >= 1,
    ensures
        chunk_start(n, workers, workers) == n + 1,
{
    let size = chunk_size(n, workers);
    vstd::arithmetic::div_mod::lemma_fundamental_div_mod(n, workers);
    assert(workers * size >= n) by (nonlinear_arith)
        requires
            n == workers * (n / workers) + n % workers,
            0 <= n % workers < workers,
            size == (if n % workers == 0 {
                n / workers
            } else {
                n / workers + 1
            }),
    ;
}

proof fn lemma_chunks_prefix(edges: Seq<Edge>, n: int, workers: int, k: int)
    requires
        n >= 0,
        workers >= 1,
        k >= 0,
    ensures
        chunks_total(edges, n, workers, k) == range_total(
            edges,
            n,
            1,
            chunk_start(n, workers, k),
        ),
    decreases k,
{
    lemma_chunk_start_monotone(n, workers, k);
    if k == 0 {
    } else {
        lemma_chunks_prefix(edges, n, workers, k - 1);
        lemma_chunk_start_monotone(n, workers, k - 1);
        lemma_range_total_split(
            edges,
            n,
            1,
            chunk_start(n, workers, k - 1),
            chunk_start(n, workers, k),
        );
    }
}

/// However the sources are split among workers, the chunk totals add up to the whole
/// total: the result does not depend on the number of workers.
pub proof fn lemma_chunked_total(edges: Seq<Edge>, workers: int)
    requires
        workers >= 1,
    ensures
        chunks_total(edges, node_ids(edges).len() as int, workers, workers) == total_cost(edges),
{
    let n = node_ids(edges).len() as int;
    lemma_chunks_prefix(edges, n, workers, workers);
    lemma_chunks_reach_end(n, workers);
}

/// Any two worker counts give the same total.
pub proof fn lemma_worker_count_irrelevant(edges: Seq<Edge>, w1: int, w2: int)
    requires
        w1 >= 1,
        w2 >= 1,
    ensures
        chunks_total(edges, node_ids(edges).len() as int, w1, w1) == chunks_total(
            edges,
            node_ids(edges).len() as int,
            w2,
            w2,
        ),
{
    lemma_chunked_total(edges, w1);
    lemma_chunked_total(edges, w2);
}

/// The first source of chunk `k` of `workers` over the sources `1..=n`.
pub fn chunk_start_of(n: usize, workers: usize, k: usize) -> (r: usize)
    requires
        workers >= 1,
        n < usize::MAX,
    ensures
        r == chunk_start(n as int, workers as int, k as int),
{
    let size: usize = if n % workers == 0 {
        n / workers
    } else {
        n / workers + 1
    };
    proof {
        assert((k as u128) * (size as u128) <= u64::MAX * u64::MAX) by (nonlinear_arith)
            requires
                k <= u64::MAX,
                size <= u64::MAX,
        ;
        assert(u64::MAX * u64::MAX + 1 <= u128::MAX);
    }
    let x: u128 = 1 + (k as u128) * (size as u128);
    if x <= n as u128 + 1 {
        x as usize
    } else {
        n + 1
    }
}

impl WorldMap {
    /// The number of distinct node ids.
    pub fn node_count(&self) -> (r: usize)
        requires
            self.wf(),
        ensures
            r == node_ids(self@).len(),
    {
        proof {
            self.lemma_nodes();
        }
        self.nodes.len()
    }

    /// Whether the node ids are exactly `1..=N`.
    pub fn is_dense_graph(&self) -> (r: bool)
        requires
            self.wf(),
        ensures
            r == is_dense(self@),
    {
        proof {
            self.lemma_nodes();
        }
        let n = self.nodes.len();
        let mut i: usize = 0;
        while i < n
            invariant
                i <= n,
                n == node_ids(self@).len(),
                self.nodes@.dom() == node_ids(self@),
                forall|x: usize| 1 <= x <= i ==> #[trigger] is_endpoint(self@, x),
            decreases n - i,
        {
            let x = i + 1;
            if !self.nodes.contains_key(&x) {
                assert(!node_ids(self@).contains(x));
                return false;
            }
            assert(node_ids(self@).contains(x));
            i = i + 1;
        }
        true
    }

    /// The sum of the shortest costs from `source` to the destinations above it, or `None`
    /// exactly when that sum exceeds `u64::MAX`.
    pub fn source_total(&self, source: usize) -> (r: Option<u64>)
        requires
            self.wf(),
            is_dense(self@),
            engine_fits(self@),
            1 <= source <= node_ids(self@).len(),
        ensures
            match r {
                Some(t) => t == row_sum(self@, source as int, node_ids(self@).len() as int + 1),
                None => row_sum(self@, source as int, node_ids(self@).len() as int + 1) > u64::MAX,
            },
    {
        let ghost edges = self@;
        let n = self.node_count();
        let ghost nn = n as int;
        proof {
            reveal(engine_fits);
        }
        let costs = self.calc(source);
        let mut acc: u64 = 0;
        let mut d: usize = source + 1;
        while d < costs.len()
            invariant
                source < d <= nn + 1,
                nn == n,
                nn == node_ids(edges).len(),
                edges == self@,
                costs@.len() == nn + 1,
                forall|v: int|
                    1 <= v <= nn ==> match #[trigger] costs@[v] {
                        Some(c) => is_shortest(edges, source as int, v, c as int),
                        None => !reachable(edges, source as int, v),
                    },
                acc == row_sum(edges, source as int, d as int),
            decreases nn + 1 - d,
        {
            match costs[d] {
                Some(c) => {
                    proof {
                        lemma_shortest_unique(edges, source as int, d as int, c as int);
                    }
                    match acc.checked_add(c) {
                        Some(x) => {
                            acc = x;
                        },
                        None => {
                            proof {
                                lemma_row_monotone(edges, source as int, d as int + 1, nn + 1);
                            }
                            return None;
                        },
                    }
                },
                None => {},
            }
            d = d + 1;
        }
        Some(acc)
    }

    /// The sum of the rows of the sources `lo <= s < hi`: the share of one worker, or `None`
    /// exactly when that sum exceeds `u64::MAX`.  Workers share only the graph, which no one
    /// changes, and each returns its own subtotal.
    pub fn chunk_total(&self, lo: usize, hi: usize) -> (r: Option<u64>)
        requires
            self.wf(),
            is_dense(self@),
            engine_fits(self@),
            1 <= lo <= hi <= node_ids(self@).len() + 1,
        ensures
            match r {
                Some(t) => t == range_total(self@, node_ids(self@).len() as int, lo as int, hi as int),
                None => range_total(self@, node_ids(self@).len() as int, lo as int, hi as int)
                    > u64::MAX,
            },
    {
        let ghost edges = self@;
        let ghost nn = node_ids(edges).len() as int;
        let mut acc: u64 = 0;
        let mut s: usize = lo;
        while s < hi
            invariant
                1 <= lo <= s <= hi,
                hi <= nn + 1,
                self.wf(),
                is_dense(self@),
                engine_fits(self@),
                edges == self@,
                nn == node_ids(edges).len(),
                acc == range_total(edges, nn, lo as int, s as int),
            decreases hi - s,
        {
            let part = self.source_total(s);
            proof {
                lemma_range_within(edges, nn, lo as int, s as int, s as int + 1, hi as int);
                lemma_range_within(edges, nn, lo as int, lo as int, s as int + 1, hi as int);
                assert(range_total(edges, nn, s as int, s as int) == 0);
                assert(range_total(edges, nn, s as int, s as int + 1) == row_sum(edges, s as int, nn + 1));
            }
            match part {
                Some(p) => match acc.checked_add(p) {
                    Some(x) => {
                        acc = x;
                    },
                    None => {
                        return None;
                    },
                },
                None => {
                    return None;
                },
            }
            s = s + 1;
        }
        Some(acc)
    }

    /// The sum of the shortest costs over all pairs of nodes, each pair once; unreachable
    /// pairs add nothing.  Fails with `BrokenReference` exactly when the node ids are not
    /// `1..=N`, else with `CostOverflow` exactly when the sum exceeds `u64::MAX`.
    pub fn cost(&self) -> (r: Result<u64, GraphError>)
        requires
            self.wf(),
            engine_fits(self@),
        ensures
            match r {
                Ok(t) => is_dense(self@) && t == total_cost(self@),
                Err(e) => if !is_dense(self@) {
                    e == GraphError::BrokenReference
                } else {
                    e == GraphError::CostOverflow && total_cost(self@) > u64::MAX
                },
            },
    {
        if !self.is_dense_graph() {
            return Err(GraphError::BrokenReference);
        }
        let n = self.node_count();
        proof {
            reveal(engine_fits);
        }
        match self.chunk_total(1, n + 1) {
            Some(t) => Ok(t),
            None => Err(GraphError::CostOverflow),
        }
    }

    /// The total computed as `workers` chunks of sources, one after the other; the result is
    /// the same for every number of workers.  Fails as `cost` does.
    pub fn cost_in_chunks(&self, workers: usize) -> (r: Result<u64, GraphError>)
        requires
            self.wf(),
            engine_fits(self@),
            workers >= 1,
        ensures
            match r {
                Ok(t) => is_dense(self@) && t == total_cost(self@),
                Err(e) => if !is_dense(self@) {
                    e == GraphError::BrokenReference
                } else {
                    e == GraphError::CostOverflow && total_cost(self@) > u64::MAX
                },
            },
    {
        if !self.is_dense_graph() {
            return Err(GraphError::BrokenReference);
        }
        let ghost edges = self@;
        let n = self.node_count();
        let ghost nn = n as int;
        proof {
            reveal(engine_fits);
        }
        let mut acc: u64 = 0;
        let mut k: usize = 0;
        while k < workers
            invariant
                k <= workers,
                self.wf(),
                is_dense(self@),
                engine_fits(self@),
                edges == self@,
                nn == n,
                nn == node_ids(edges).len(),
                n < usize::MAX,
                acc == chunks_total(edges, nn, workers as int, k as int),
            decreases workers - k,
        {
            proof {
                lemma_chunk_start_monotone(nn, workers as int, k as int);
                lemma_chunk_start_monotone(nn, workers as int, k as int + 1);
                lemma_chunks_prefix(edges, nn, workers as int, k as int);
            }
            let lo = chunk_start_of(n, workers, k);
            let hi = chunk_start_of(n, workers, k + 1);
            let part = self.chunk_total(lo, hi);
            proof {
                lemma_range_within(edges, nn, 1, lo as int, hi as int, nn + 1);
                lemma_range_within(edges, nn, 1, 1, hi as int, nn + 1);
                lemma_range_total_split(edges, nn, 1, lo as int, hi as int);
            }
            match part {
                Some(p) => match acc.checked_add(p) {
                    Some(x) => {
                        acc = x;
                    },
                    None => {
                        return Err(GraphError::CostOverflow);
                    },
                },
                None => {
                    return Err(GraphError::CostOverflow);
                },
            }
            k = k + 1;
        }
        proof {
            lemma_chunked_total(edges, workers as int);
        }
        Ok(acc)
    }

    /// The two numbers whose quotient is the average shortest cost: the total over all pairs
    /// and the number of pairs `N * (N - 1) / 2`.  The division itself is left to the caller.
    /// Pairs that cannot reach each other add nothing to the total but are still counted
    /// among the pairs, so the average is taken over all pairs.  Fails with `DegenerateGraph`
    /// when there are fewer than two nodes, else as `cost` does.
    pub fn average_parts(&self, workers: usize) -> (r: Result<(u64, u128), GraphError>)
        requires
            self.wf(),
            engine_fits(self@),
            workers >= 1,
        ensures
            match r {
                Ok((t, pairs)) => node_ids(self@).len() >= 2 && is_dense(self@) && t == total_cost(
                    self@,
                ) && pairs == node_ids(self@).len() * (node_ids(self@).len() - 1) / 2,
                Err(e) => if node_ids(self@).len() < 2 {
                    e == GraphError::DegenerateGraph
                } else if !is_dense(self@) {
                    e == GraphError::BrokenReference
                } else {
                    e == GraphError::CostOverflow && total_cost(self@) > u64::MAX
                },
            },
    {
        let n = self.node_count();
        let pairs = pair_count(n as u64);
        match pairs {
            Err(e) => Err(e),
            Ok(p) => match self.cost_in_chunks(workers) {
                Ok(t) => Ok((t, p)),
                Err(e) => Err(e),
            },
        }
    }
}

/// Shortest costs are never negative, so neither is what a pair adds.
proof fn lemma_pair_cost_nonneg(edges: Seq<Edge>, s: int, t: int)
    ensures
        pair_cost(edges, s, t) >= 0,
{
    if reachable(edges, s, t) {
        lemma_shortest_exists(edges, s, t);
    }
}

/// A row only grows as more destinations are taken in.
proof fn lemma_row_monotone(edges: Seq<Edge>, s: int, t1: int, t2: int)
    requires
        t1 <= t2,
    ensures
        0 <= row_sum(edges, s, t1) <= row_sum(edges, s, t2),
    decreases t2 - t1,
{
    if t1 < t2 {
        lemma_row_monotone(edges, s, t1, t2 - 1);
        lemma_pair_cost_nonneg(edges, s, t2 - 1);
    } else {
        lemma_row_nonneg(edges, s, t1);
    }
}

proof fn lemma_row_nonneg(edges: Seq<Edge>, s: int, t: int)
    ensures
        row_sum(edges, s, t) >= 0,
    decreases t - s,
{
    if t > s + 1 {
        lemma_row_nonneg(edges, s, t - 1);
        lemma_pair_cost_nonneg(edges, s, t - 1);
    }
}

proof fn lemma_range_nonneg(edges: Seq<Edge>, n: int, lo: int, hi: int)
    ensures
        range_total(edges, n, lo, hi) >= 0,
    decreases hi - lo,
{
    if hi > lo {
        lemma_range_nonneg(edges, n, lo, hi - 1);
        lemma_row_nonneg(edges, hi - 1, n + 1);
    }
}

/// A range of sources within a larger one adds up to no more than it.
proof fn lemma_range_within(edges: Seq<Edge>, n: int, a: int, lo: int, hi: int, b: int)
    requires
        a <= lo <= hi <= b,
    ensures
        range_total(edges, n, lo, hi) <= range_total(edges, n, a, b),
{
    lemma_range_total_split(edges, n, a, lo, b);
    lemma_range_total_split(edges, n, lo, hi, b);
    lemma_range_nonneg(edges, n, a, lo);
    lemma_range_nonneg(edges, n, hi, b);
}

/// The number of unordered pairs of `n` nodes; fails with `DegenerateGraph` below two nodes.
pub fn pair_count(n: u64) -> (r: Result<u128, GraphError>)
    ensures
        match r {
            Ok(p) => n >= 2 && p == n * (n - 1) / 2,
            Err(e) => n < 2 && e == GraphError::DegenerateGraph,
        },
{
    if n < 2 {
        return Err(GraphError::DegenerateGraph);
    }
    proof {
        assert((n as u128) * ((n - 1) as u128) <= u64::MAX * u64::MAX) by (nonlinear_arith)
            requires
                n <= u64::MAX,
        ;
    }
    let p: u128 = (n as u128) * ((n - 1) as u128) / 2;
    Ok(p)
}

} // verus!
