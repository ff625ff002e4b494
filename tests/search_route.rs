use avg_cost::grid::{cell_of, Cell, GameMap, Pos};

fn make_map(s: &str) -> Vec<Vec<Cell>> {
    let mut lines = s.lines();
    let _wh = lines.next().unwrap();
    lines
        .map(|l| l.split_whitespace().map(|t| cell_of(t.as_bytes())).collect())
        .collect()
}

fn search(map: &Vec<Vec<Cell>>) -> Option<i32> {
    assert!(GameMap::fits(map));
    let mut gmap = GameMap::new(map);
    gmap.calc()
}

#[test]
fn test_normal_goal() {
    let s = "\
4 5
0 s 0 1
0 0 1 0
0 1 1 0
0 0 1 g
0 0 0 0";

    let map = make_map(s);
    let step = search(&map);
    assert_eq!(step, Some(9));
}

#[test]
fn test_small_x2y1_goal() {
    let s = "\
2 1
g s";

    let map = make_map(s);
    let step = search(&map);
    assert_eq!(step, Some(1));
}

#[test]
fn test_small_x1y2_goal() {
    let s = "\
1 2
g
s";
    let map = make_map(s);
    let step = search(&map);
    assert_eq!(step, Some(1));
}

#[test]
fn test_nogoal() {
    let s = "\
4 4
0 s 0 1
1 0 0 0
0 1 1 1
0 0 0 g";

    let map = make_map(s);
    let step = search(&map);
    assert_eq!(step, None);
}

#[test]
fn test_big_goal() {
    let size: usize = 100;
    let mut map: Vec<Vec<Cell>> = Vec::new();

    for i in 0..size {
        map.push(Vec::new());
        for _ in 0..size {
            map[i].push(cell_of(b"0"));
        }
    }

    map[0][0] = cell_of(b"s");
    map[size - 1][size - 1] = cell_of(b"g");

    let step = search(&map);
    assert_eq!(step, Some((size * 2 - 2) as i32));
}

#[test]
fn tokens_become_cells() {
    assert_eq!(cell_of(b"s"), Cell::Start);
    assert_eq!(cell_of(b"g"), Cell::Goal);
    assert_eq!(cell_of(b"1"), Cell::Wall);
    assert_eq!(cell_of(b"0"), Cell::Open);
    assert_eq!(cell_of(b"11"), Cell::Open);
    assert_eq!(cell_of(b""), Cell::Open);
}

#[test]
fn neighbours_skip_walls_and_edges() {
    let map = make_map("3 3\ns 1 0\n0 0 0\n0 1 g");
    let gmap = GameMap::new(&map);
    assert_eq!(gmap.next_nodes(Pos { x: 0, y: 0 }, None), vec![Pos { x: 0, y: 1 }]);
    assert_eq!(
        gmap.next_nodes(Pos { x: 1, y: 1 }, None),
        vec![Pos { x: 2, y: 1 }, Pos { x: 0, y: 1 }]
    );
    assert_eq!(
        gmap.next_nodes(Pos { x: 1, y: 1 }, Some(Pos { x: 0, y: 1 })),
        vec![Pos { x: 2, y: 1 }]
    );
    assert!(!gmap.get_valid_node(Pos { x: 2, y: 2 }, Some(Pos { x: 2, y: 2 })));
    assert!(!gmap.get_valid_node(Pos { x: 1, y: 0 }, None));
    assert!(gmap.get_valid_node(Pos { x: 2, y: 2 }, None));
    assert!(!gmap.get_valid_node(Pos { x: 3, y: 0 }, None));
    assert!(!gmap.get_valid_node(Pos { x: 0, y: 3 }, None));
}

#[test]
fn walls_force_a_detour_and_clear_keeps_answers() {
    let map = make_map("3 3\ns 1 0\n0 0 0\n0 1 g");
    let mut gmap = GameMap::new(&map);
    assert_eq!(gmap.calc(), Some(4));
    gmap.clear();
    assert_eq!(gmap.calc(), Some(4));
}

#[test]
fn ragged_rows_and_missing_marks() {
    // No start: the search begins at the corner.
    let map = make_map("0 0\n0 0 0\n1\n0 0 g");
    assert_eq!(search(&map), None);
    let joined = make_map("0 0\n0 0 0\n0 0\n0 0 g");
    assert_eq!(search(&joined), Some(4));
    let empty: Vec<Vec<Cell>> = Vec::new();
    assert_eq!(search(&empty), Some(0));
    assert_eq!(search(&make_map("1 1\ns")), Some(0));
}

#[test]
fn grid_size_limit() {
    let wide: Vec<Vec<Cell>> = vec![vec![Cell::Open; 2_000_001]];
    assert!(GameMap::fits(&wide));
    let ok: Vec<Vec<Cell>> = vec![vec![Cell::Open; 2_000]; 1_000];
    assert!(GameMap::fits(&ok));
    let empty_rows: Vec<Vec<Cell>> = vec![Vec::new(); 10];
    assert!(GameMap::fits(&empty_rows));
}
