use avg_cost::cache::PairCostCache;
use avg_cost::graph::{Edge, GraphError, WorldMap};
use avg_cost::parse::{read_map, read_vec, read_vec2};
use avg_cost::total::{chunk_start_of, pair_count};

fn make_lines(s: &str) -> Vec<Vec<u8>> {
    s.lines().map(|l| l.as_bytes().to_vec()).collect()
}

fn make_map(s: &str) -> WorldMap {
    let edges = read_map(&make_lines(s)).unwrap();
    WorldMap::new(&edges).unwrap()
}

fn average(wmap: &WorldMap, workers: usize) -> f64 {
    let (total, pairs) = wmap.average_parts(workers).unwrap();
    total as f64 / pairs as f64
}

const SCENARIO_1: &str = "\
4
1 3 4
2 1 6
4 2 3";

const SCENARIO_2: &str = "\
9
3 4 11
8 2 12
6 5 5
9 6 6
6 1 3
8 3 11
6 4 10
8 7 3";

#[test]
fn test_1() {
    let wmap = make_map(SCENARIO_1);
    assert_eq!(wmap.cost(), Ok(6 + 4 + 9 + 10 + 3 + 13));
    assert_eq!(average(&wmap, 8), 7.5);
}

#[test]
fn test_2() {
    let wmap = make_map(SCENARIO_2);
    assert_eq!(wmap.cost(), Ok(850));
    assert_eq!(average(&wmap, 8), 23.61111111111111);
}

#[test]
fn scenario_1_pairwise_costs() {
    let wmap = make_map(SCENARIO_1);
    let expected: [(usize, usize, u64); 6] =
        [(1, 2, 6), (1, 3, 4), (1, 4, 9), (2, 3, 10), (2, 4, 3), (3, 4, 13)];
    for (a, b, c) in expected {
        let from_a = wmap.calc(a);
        let from_b = wmap.calc(b);
        assert_eq!(from_a[b], Some(c));
        assert_eq!(from_b[a], Some(c));
    }
    assert_eq!(wmap.calc(1), vec![None, Some(0), Some(6), Some(4), Some(9)]);
}

#[test]
fn path_graph_total_matches_closed_form() {
    // Nodes 1..=n on a line, edge (i, i+1) of weight i: the pair (a, b) costs
    // sum(a..b) = (b - a) * (a + b - 1) / 2.
    let n: usize = 60;
    let mut edges: Vec<Edge> = Vec::new();
    for i in 1..n {
        edges.push((i, i + 1, i as u64));
    }
    let wmap = WorldMap::new(&edges).unwrap();
    let mut expected: u64 = 0;
    for a in 1..=n as u64 {
        for b in (a + 1)..=n as u64 {
            expected += (b - a) * (a + b - 1) / 2;
        }
    }
    assert_eq!(wmap.cost(), Ok(expected));
    assert_eq!(wmap.source_total(1), Some((2..=n as u64).map(|b| (b - 1) * b / 2).sum::<u64>()));
}

#[test]
fn cycle_takes_the_cheaper_way_round() {
    // A square 1-2-3-4-1 with one expensive side: the traversal must not follow it.
    let edges: Vec<Edge> = vec![(1, 2, 1), (2, 3, 1), (3, 4, 1), (4, 1, 10)];
    let wmap = WorldMap::new(&edges).unwrap();
    assert_eq!(wmap.calc(1), vec![None, Some(0), Some(1), Some(2), Some(3)]);
    assert_eq!(wmap.cost(), Ok(1 + 2 + 3 + 1 + 2 + 1));
}

#[test]
fn parallel_edges_use_the_lightest() {
    let edges: Vec<Edge> = vec![(1, 2, 7), (2, 1, 3), (1, 2, 5)];
    let wmap = WorldMap::new(&edges).unwrap();
    assert_eq!(wmap.calc(2)[1], Some(3));
    assert_eq!(wmap.neighbors(1), vec![(2, 7), (2, 3), (2, 5)]);
    assert_eq!(wmap.neighbors(2), vec![(1, 7), (1, 3), (1, 5)]);
    assert_eq!(wmap.neighbors(3), vec![]);
}

#[test]
fn triangle_inequality_on_scenario_2() {
    let wmap = make_map(SCENARIO_2);
    let n = wmap.node_count();
    let rows: Vec<Vec<Option<u64>>> = (1..=n).map(|s| wmap.calc(s)).collect();
    for a in 1..=n {
        for b in 1..=n {
            for c in 1..=n {
                if let (Some(ab), Some(bc)) = (rows[a - 1][b], rows[b - 1][c]) {
                    assert!(rows[a - 1][c].unwrap() <= ab + bc);
                }
            }
        }
    }
}

#[test]
fn costs_are_symmetric() {
    let wmap = make_map(SCENARIO_2);
    let n = wmap.node_count();
    for a in 1..=n {
        let from_a = wmap.calc(a);
        for b in 1..=n {
            assert_eq!(from_a[b], wmap.calc(b)[a]);
        }
    }
}

#[test]
fn total_is_the_same_for_every_worker_count() {
    let wmap = make_map(SCENARIO_2);
    let n = wmap.node_count();
    for workers in 1..=n + 2 {
        assert_eq!(wmap.cost_in_chunks(workers), Ok(850));
        assert_eq!(wmap.average_parts(workers), Ok((850, 36)));
        let mut sum = 0;
        for k in 0..workers {
            let lo = chunk_start_of(n, workers, k);
            let hi = chunk_start_of(n, workers, k + 1);
            sum += wmap.chunk_total(lo, hi).unwrap();
        }
        assert_eq!(sum, 850);
    }
}

#[test]
fn chunks_cover_the_sources() {
    assert_eq!(chunk_start_of(9, 4, 0), 1);
    assert_eq!(chunk_start_of(9, 4, 1), 4);
    assert_eq!(chunk_start_of(9, 4, 2), 7);
    assert_eq!(chunk_start_of(9, 4, 3), 10);
    assert_eq!(chunk_start_of(9, 4, 4), 10);
    assert_eq!(chunk_start_of(3, 8, 1), 2);
    assert_eq!(chunk_start_of(3, 8, 7), 4);
}

#[test]
fn single_node_graph_is_degenerate() {
    let wmap = make_map("1");
    assert_eq!(wmap.node_count(), 0);
    assert_eq!(wmap.average_parts(1), Err(GraphError::DegenerateGraph));
    let looped = WorldMap::new(&vec![(1, 1, 5)]).unwrap();
    assert_eq!(looped.node_count(), 1);
    assert_eq!(looped.average_parts(4), Err(GraphError::DegenerateGraph));
    assert_eq!(pair_count(1), Err(GraphError::DegenerateGraph));
    assert_eq!(pair_count(0), Err(GraphError::DegenerateGraph));
    assert_eq!(pair_count(2), Ok(1));
    assert_eq!(pair_count(9), Ok(36));
}

#[test]
fn non_numeric_weight_is_malformed() {
    assert_eq!(read_map(&make_lines("3\n1 2 4\n2 3 x")), Err(GraphError::MalformedEdge));
    assert_eq!(read_map(&make_lines("3\n1 2 4\n2 3 4.5")), Err(GraphError::MalformedEdge));
    assert_eq!(read_map(&make_lines("3\n1 2 -4\n2 3 4")), Err(GraphError::MalformedEdge));
}

#[test]
fn malformed_inputs() {
    assert_eq!(read_map(&make_lines("")), Err(GraphError::MalformedEdge));
    assert_eq!(read_map(&make_lines("0")), Err(GraphError::MalformedEdge));
    assert_eq!(read_map(&make_lines("4\n1 2 3\n2 3 4")), Err(GraphError::MalformedEdge));
    assert_eq!(read_map(&make_lines("3\n1 2\n2 3 4")), Err(GraphError::MalformedEdge));
    assert_eq!(read_map(&make_lines("2\n1 2 99999999999999999999")), Err(GraphError::MalformedEdge));
    assert_eq!(WorldMap::new(&vec![(1, 2, 3), (0, 2, 1)]).err(), Some(GraphError::MalformedEdge));
}

#[test]
fn read_map_keeps_announced_lines() {
    let edges = read_map(&make_lines("3\n 1\t2  4 \r\n2 3 5\n9 9 9")).unwrap();
    assert_eq!(edges, vec![(1, 2, 4), (2, 3, 5)]);
}

#[test]
fn read_vec_fields() {
    assert_eq!(read_vec(&b"  12 0  345".to_vec()), Ok(vec![12, 0, 345]));
    assert_eq!(read_vec(&b"".to_vec()), Ok(vec![]));
    assert_eq!(read_vec(&b"18446744073709551615".to_vec()), Ok(vec![u64::MAX]));
    assert_eq!(read_vec(&b"18446744073709551616".to_vec()), Err(GraphError::MalformedEdge));
    assert_eq!(read_vec(&b"1,2".to_vec()), Err(GraphError::MalformedEdge));
    assert_eq!(
        read_vec2(&vec![b"1 2".to_vec(), b"3".to_vec()]),
        Ok(vec![vec![1, 2], vec![3]])
    );
    assert_eq!(read_vec2(&vec![b"1 2".to_vec(), b"a".to_vec()]), Err(GraphError::MalformedEdge));
}

#[test]
fn gaps_in_node_ids_are_broken_references() {
    let wmap = WorldMap::new(&vec![(1, 2, 3), (2, 5, 1)]).unwrap();
    assert_eq!(wmap.node_count(), 3);
    assert!(!wmap.is_dense_graph());
    assert_eq!(wmap.cost(), Err(GraphError::BrokenReference));
    assert_eq!(wmap.average_parts(2), Err(GraphError::BrokenReference));
}

#[test]
fn disconnected_pairs_add_nothing() {
    let wmap = WorldMap::new(&vec![(1, 2, 3), (3, 4, 5)]).unwrap();
    assert_eq!(wmap.calc(1), vec![None, Some(0), Some(3), None, None]);
    assert_eq!(wmap.cost(), Ok(8));
    assert_eq!(wmap.average_parts(3), Ok((8, 6)));
}

#[test]
fn make_pos_is_canonical() {
    let p = WorldMap::make_pos(7, 3);
    assert_eq!((p.no1, p.no2), (3, 7));
    assert_eq!(WorldMap::make_pos(3, 7), p);
    assert_eq!(WorldMap::make_pos(4, 4).no1, 4);
}

#[test]
fn cache_answers_and_keeps_entries() {
    let wmap = make_map(SCENARIO_1);
    let mut cache = PairCostCache::new(&wmap);
    assert_eq!(cache.lookup(3, 4), None);
    assert_eq!(wmap.shortest_cost(&mut cache, 4, 3), Some(13));
    assert_eq!(cache.lookup(3, 4), Some(13));
    assert_eq!(cache.lookup(2, 4), Some(3));
    assert_eq!(wmap.shortest_cost(&mut cache, 3, 4), Some(13));
    cache.record(1, 2, 6);
    assert_eq!(cache.lookup(2, 1), Some(6));
    let lonely = WorldMap::new(&vec![(1, 2, 3), (3, 4, 5)]).unwrap();
    let mut other = PairCostCache::new(&lonely);
    assert_eq!(lonely.shortest_cost(&mut other, 1, 4), None);
    assert_eq!(other.lookup(1, 2), Some(3));
}

#[test]
fn limits_are_reported() {
    let wmap = WorldMap::new(&vec![(1, 2, u64::MAX)]).unwrap();
    assert!(!wmap.fits_limits());
    assert!(make_map(SCENARIO_2).fits_limits());
}

#[test]
fn long_path_single_source_and_limits() {
    // 100,001 nodes in a line, edge (i, i + 1) of weight i.
    let size: usize = 100_000;
    let mut edges: Vec<Edge> = Vec::new();
    for i in 0..size {
        edges.push((i + 1, i + 2, (i + 1) as u64));
    }
    let wmap = WorldMap::new(&edges).unwrap();
    assert_eq!(wmap.node_count(), size + 1);
    assert!(wmap.is_dense_graph());
    assert!(wmap.fits_limits());
    let from_first = wmap.calc(1);
    assert_eq!(from_first[size + 1], Some(5_000_050_000));
    assert_eq!(from_first[2], Some(1));
    // The last source alone has nothing above it; the one before it one pair.
    assert_eq!(wmap.source_total(size + 1), Some(0));
    assert_eq!(wmap.source_total(size), Some(size as u64));
    assert_eq!(wmap.chunk_total(size, size + 2), Some(size as u64));
}

fn chain(size: usize) -> WorldMap {
    // size + 1 nodes in a line, edge (i + 1, i + 2) of weight i + 1.
    let mut edges: Vec<Edge> = Vec::new();
    for i in 0..size {
        edges.push((i + 1, i + 2, (i + 1) as u64));
    }
    WorldMap::new(&edges).unwrap()
}

#[test]
fn test_big_auto() {
    // The chain of 101 nodes: the sum over all pairs is n(n+1)^2(n+2)/12 with n = 100.
    let wmap = chain(100);
    assert_eq!(wmap.cost(), Ok(8670850));
    assert_eq!(average(&wmap, 8), 1717.0);
}

#[test]
fn chain_of_1001_nodes() {
    let n: u64 = 1000;
    let wmap = chain(n as usize);
    let total = n * (n + 1) * (n + 1) * (n + 2) / 12;
    assert_eq!(wmap.cost_in_chunks(8), Ok(total));
    assert_eq!(average(&wmap, 3), ((n + 1) * (n + 2) / 6) as f64);
}

#[test]
fn totals_beyond_64_bits_are_reported() {
    let w: u64 = 1 << 61;
    let wmap = WorldMap::new(&vec![(1, 2, w), (2, 3, w), (3, 4, w)]).unwrap();
    assert!(wmap.fits_limits());
    // Pair costs w, w, w, 2w, 2w, 3w: the total 10w exceeds u64::MAX.
    assert_eq!(wmap.cost(), Err(GraphError::CostOverflow));
    assert_eq!(wmap.cost_in_chunks(2), Err(GraphError::CostOverflow));
    assert_eq!(wmap.average_parts(4), Err(GraphError::CostOverflow));
    assert_eq!(wmap.source_total(1), Some(6 * w));
    assert_eq!(wmap.source_total(3), Some(w));
    assert_eq!(wmap.chunk_total(2, 5), Some(4 * w));
    assert_eq!(wmap.chunk_total(1, 3), None);
}
