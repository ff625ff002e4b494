//! Route search on a grid of cells: fewest steps between the start and the goal, found by
//! the engine on the graph of the cells.
use crate::graph::{
    engine_fits, has_arc, is_dense, is_shortest, max_weight, node_ids, reachable, shortest, Edge,
    WorldMap,
};
use vstd::prelude::*;

verus! {

/// What a grid cell holds.
#[derive(Debug, Clone, Copy, PartialEq, Eq, Structural)]
pub enum Cell {
    Open,
    Wall,
    Start,
    Goal,
}

/// A cell position: column `x`, row `y`.
#[derive(Debug, Clone, Copy, PartialEq, Eq, Structural)]
pub struct Pos {
    pub x: usize,
    pub y: usize,
}

/// A cell exists at `(x, y)` and is not a wall.
pub open spec fn passable(cells: Seq<Seq<Cell>>, x: int, y: int) -> bool {
    0 <= y < cells.len() && 0 <= x < cells[y].len() && cells[y][x] != Cell::Wall
}

/// `q` is one of the four neighbours of `p`, and both can be stood on.
pub open spec fn is_step(cells: Seq<Seq<Cell>>, p: Pos, q: Pos) -> bool {
    &&& passable(cells, p.x as int, p.y as int)
    &&& passable(cells, q.x as int, q.y as int)
    &&& ((p.x == q.x && (p.y + 1 == q.y || q.y + 1 == p.y)) || (p.y == q.y && (p.x + 1 == q.x
        || q.x + 1 == p.x)))
}

/// The passable neighbours of `(x, y)`, looked at downwards, upwards, right, left, leaving
/// out `from` (the cell the search came from, if any).
pub open spec fn neighbours_of(cells: Seq<Seq<Cell>>, x: int, y: int, from: Option<Pos>) -> Seq<Pos> {
    let d = Pos { x: x as usize, y: (y + 1) as usize };
    let u = Pos { x: x as usize, y: (y - 1) as usize };
    let r = Pos { x: (x + 1) as usize, y: y as usize };
    let l = Pos { x: (x - 1) as usize, y: y as usize };
    let down = if passable(cells, x, y + 1) && from != Some(d) {
        seq![d]
    } else {
        seq![]
    };
    let up = if y > 0 && passable(cells, x, y - 1) && from != Some(u) {
        seq![u]
    } else {
        seq![]
    };
    let right = if passable(cells, x + 1, y) && from != Some(r) {
        seq![r]
    } else {
        seq![]
    };
    let left = if x > 0 && passable(cells, x - 1, y) && from != Some(l) {
        seq![l]
    } else {
        seq![]
    };
    down + up + right + left
}

/// The length of the longest row.
pub open spec fn width_of(cells: Seq<Seq<Cell>>) -> nat
    decreases cells.len(),
{
    if cells.len() == 0 {
        0
    } else {
        let w = width_of(cells.drop_last());
        if cells.last().len() > w {
            cells.last().len()
        } else {
            w
        }
    }
}

/// The column of the last cell of `row` that holds `kind`.
pub open spec fn last_in_row(row: Seq<Cell>, kind: Cell) -> Option<nat>
    decreases row.len(),
{
    if row.len() == 0 {
        None
    } else if row.last() == kind {
        Some((row.len() - 1) as nat)
    } else {
        last_in_row(row.drop_last(), kind)
    }
}

/// The last cell, in row order, that holds `kind`.
pub open spec fn last_of(cells: Seq<Seq<Cell>>, kind: Cell) -> Option<Pos>
    decreases cells.len(),
{
    if cells.len() == 0 {
        None
    } else {
        match last_in_row(cells.last(), kind) {
            Some(x) => Some(Pos { x: x as usize, y: (cells.len() - 1) as usize }),
            None => last_of(cells.drop_last(), kind),
        }
    }
}

/// Where the last cell holding `kind` stands, or the corner `(0, 0)` where none does.
pub open spec fn marked(cells: Seq<Seq<Cell>>, kind: Cell) -> Pos {
    match last_of(cells, kind) {
        Some(p) => p,
        None => Pos { x: 0, y: 0 },
    }
}

/// The node id of a cell: cells are numbered row by row from 1, `w` to a row.
pub open spec fn cell_id(w: int, p: Pos) -> int {
    p.y * w + p.x + 1
}

/// `p` lies within the `w`-wide frame of the grid (a short row leaves empty slots).
pub open spec fn in_frame(cells: Seq<Seq<Cell>>, w: int, p: Pos) -> bool {
    p.x < w && p.y < cells.len()
}

/// The arcs of `edges` are exactly a zero-cost loop at each slot of the frame and a
/// unit-cost arc for each step between neighbouring passable cells.
pub open spec fn grid_graph(cells: Seq<Seq<Cell>>, w: int, edges: Seq<Edge>) -> bool {
    forall|u: int, v: int, c: int|
        #[trigger] has_arc(edges, u, v, c) <==> ((u == v && c == 0 && exists|p: Pos|
            in_frame(cells, w, p) && u == #[trigger] cell_id(w, p)) || (c == 1 && exists|p: Pos, q: Pos|
            #[trigger] is_step(cells, p, q) && u == cell_id(w, p) && v == cell_id(w, q)))
}

/// The grid's slots can be numbered, and step counts (at most one per slot) reported, in
/// an `i32`.
pub open spec fn grid_fits(cells: Seq<Seq<Cell>>) -> bool {
    width_of(cells) * cells.len() <= i32::MAX
}

proof fn lemma_width(cells: Seq<Seq<Cell>>, y: int)
    requires
        0 <= y < cells.len(),
    ensures
        cells[y].len() <= width_of(cells),
    decreases cells.len(),
{
    if y < cells.len() - 1 {
        lemma_width(cells.drop_last(), y);
        assert(cells.drop_last()[y] == cells[y]);
    }
}

proof fn lemma_last_in_row(row: Seq<Cell>, kind: Cell)
    ensures
        last_in_row(row, kind) matches Some(x) ==> x < row.len() && row[x as int] == kind,
    decreases row.len(),
{
    if row.len() > 0 && row.last() != kind {
        lemma_last_in_row(row.drop_last(), kind);
    }
}

proof fn lemma_last_of(cells: Seq<Seq<Cell>>, kind: Cell)
    requires
        grid_bounded(cells),
    ensures
        last_of(cells, kind) matches Some(p) ==> p.y < cells.len() && p.x < cells[p.y as int].len()
            && cells[p.y as int][p.x as int] == kind,
    decreases cells.len(),
{
    if cells.len() > 0 {
        lemma_last_in_row(cells.last(), kind);
        assert(cells.last() == cells[cells.len() - 1]);
        if last_in_row(cells.last(), kind) is None {
            assert forall|y: int| 0 <= y < cells.drop_last().len() implies #[trigger] cells.drop_last()[y].len() <= usize::MAX by {
                assert(cells.drop_last()[y] == cells[y]);
            }
            lemma_last_of(cells.drop_last(), kind);
            if let Some(p) = last_of(cells.drop_last(), kind) {
                assert(cells.drop_last()[p.y as int] == cells[p.y as int]);
            }
        }
    }
}

/// Ids of the frame run from 1 to `w * h`.
proof fn lemma_id_bounds(w: int, h: int, p: Pos)
    requires
        p.x < w,
        p.y < h,
    ensures
        1 <= cell_id(w, p) <= w * h,
{
    assert(p.y * w + p.x + 1 <= w * h) by (nonlinear_arith)
        requires
            p.x < w,
            p.y < h,
            p.x >= 0,
            p.y >= 0,
    ;
    assert(p.y * w >= 0) by (nonlinear_arith)
        requires
            p.y >= 0,
            w >= 0,
    ;
}

/// Every id from 1 to `w * h` belongs to a slot of the frame.
proof fn lemma_id_onto(cells: Seq<Seq<Cell>>, w: int, u: int)
    requires
        w >= 1,
        1 <= u <= w * cells.len(),
        w * cells.len() <= usize::MAX,
    ensures
        exists|p: Pos| in_frame(cells, w, p) && u == #[trigger] cell_id(w, p),
{
    let h = cells.len() as int;
    vstd::arithmetic::div_mod::lemma_fundamental_div_mod(u - 1, w);
    let q = (u - 1) / w;
    let r = (u - 1) % w;
    assert(0 <= q < h) by (nonlinear_arith)
        requires
            u - 1 == w * q + r,
            0 <= r < w,
            0 <= u - 1 < w * h,
            w >= 1,
    ;
    assert(q <= usize::MAX) by (nonlinear_arith)
        requires
            0 <= q < h,
            w >= 1,
            w * h <= usize::MAX,
    ;
    let p = Pos { x: r as usize, y: q as usize };
    assert(u == cell_id(w, p)) by (nonlinear_arith)
        requires
            u - 1 == w * q + r,
            p.x == r,
            p.y == q,
    ;
}

/// Rows and columns are counted by `usize`.
pub open spec fn grid_bounded(cells: Seq<Seq<Cell>>) -> bool {
    cells.len() <= usize::MAX && forall|y: int| 0 <= y < cells.len() ==> #[trigger] cells[y].len() <= usize::MAX
}

/// The neighbours listed for a passable cell are exactly its steps.
proof fn lemma_neighbours(cells: Seq<Seq<Cell>>, p: Pos)
    requires
        passable(cells, p.x as int, p.y as int),
        grid_bounded(cells),
    ensures
        forall|k: int|
            0 <= k < neighbours_of(cells, p.x as int, p.y as int, None).len() ==> is_step(
                cells,
                p,
                #[trigger] neighbours_of(cells, p.x as int, p.y as int, None)[k],
            ),
        forall|q: Pos| #[trigger]
            is_step(cells, p, q) ==> neighbours_of(cells, p.x as int, p.y as int, None).contains(q),
{
    let ns = neighbours_of(cells, p.x as int, p.y as int, None);
    let (x, y) = (p.x as int, p.y as int);
    let down = if passable(cells, x, y + 1) {
        seq![Pos { x: x as usize, y: (y + 1) as usize }]
    } else {
        seq![]
    };
    let up = if y > 0 && passable(cells, x, y - 1) {
        seq![Pos { x: x as usize, y: (y - 1) as usize }]
    } else {
        seq![]
    };
    let right = if passable(cells, x + 1, y) {
        seq![Pos { x: (x + 1) as usize, y: y as usize }]
    } else {
        seq![]
    };
    let left = if x > 0 && passable(cells, x - 1, y) {
        seq![Pos { x: (x - 1) as usize, y: y as usize }]
    } else {
        seq![]
    };
    assert(ns == down + up + right + left);
    if passable(cells, x, y + 1) {
        assert(cells[y + 1].len() <= usize::MAX);
    }
    if passable(cells, x + 1, y) {
        assert(cells[y].len() <= usize::MAX);
    }
    assert forall|k: int| 0 <= k < ns.len() implies is_step(cells, p, #[trigger] ns[k]) by {
        let a = down.len() as int;
        let b = a + up.len();
        let c = b + right.len();
        if k < a {
            assert(ns[k] == down[k]);
        } else if k < b {
            assert(ns[k] == up[k - a]);
        } else if k < c {
            assert(ns[k] == right[k - b]);
        } else {
            assert(ns[k] == left[k - c]);
        }
    }
    assert forall|q: Pos| #[trigger] is_step(cells, p, q) implies ns.contains(q) by {
        if q.x == p.x && q.y == p.y + 1 {
            assert(ns[0] == q);
        } else if q.x == p.x && q.y + 1 == p.y {
            assert(ns[down.len() as int] == q);
        } else if q.y == p.y && q.x == p.x + 1 {
            assert(ns[(down.len() + up.len()) as int] == q);
        } else {
            assert(ns[(down.len() + up.len() + right.len()) as int] == q);
        }
    }
}

/// What each edge of a cell graph is: a zero-cost loop at a slot, or a unit step.
spec fn edge_kind_ok(cells: Seq<Seq<Cell>>, w: int, e: Edge) -> bool {
    ||| (e.0 == e.1 && e.2 == 0 && exists|p: Pos| in_frame(cells, w, p) && e.0 == #[trigger] cell_id(w, p))
    ||| (e.2 == 1 && exists|p: Pos, q: Pos|
        #[trigger] is_step(cells, p, q) && e.0 == cell_id(w, p) && e.1 == cell_id(w, q))
}

/// The loop at `p` and every step out of `p` are arcs of `edges`.
spec fn covered(cells: Seq<Seq<Cell>>, w: int, edges: Seq<Edge>, p: Pos) -> bool {
    &&& has_arc(edges, cell_id(w, p), cell_id(w, p), 0)
    &&& forall|q: Pos| #[trigger] is_step(cells, p, q) ==> has_arc(edges, cell_id(w, p), cell_id(w, q), 1)
}

/// Arcs stay when an edge is added.
proof fn lemma_arc_kept(edges: Seq<Edge>, e: Edge)
    ensures
        forall|u: int, v: int, c: int| has_arc(edges, u, v, c) ==> #[trigger] has_arc(edges.push(e), u, v, c),
        has_arc(edges.push(e), e.0 as int, e.1 as int, e.2 as int),
{
    assert forall|u: int, v: int, c: int| has_arc(edges, u, v, c) implies #[trigger] has_arc(edges.push(e), u, v, c) by {
        let i = choose|i: int| 0 <= i < edges.len() && #[trigger] crate::graph::arc_in(edges[i], u, v, c);
        assert(edges.push(e)[i] == edges[i]);
    }
    assert(crate::graph::arc_in(edges.push(e)[edges.len() as int], e.0 as int, e.1 as int, e.2 as int));
}

/// Covered cells stay covered when an edge is added.
proof fn lemma_covered_kept(cells: Seq<Seq<Cell>>, w: int, edges: Seq<Edge>, e: Edge, p: Pos)
    requires
        covered(cells, w, edges, p),
    ensures
        covered(cells, w, edges.push(e), p),
{
    lemma_arc_kept(edges, e);
    assert forall|q: Pos| #[trigger] is_step(cells, p, q) implies has_arc(edges.push(e), cell_id(w, p), cell_id(w, q), 1) by {
        assert(has_arc(edges, cell_id(w, p), cell_id(w, q), 1));
    }
}

/// A step taken backwards is a step.
proof fn lemma_step_symmetric(cells: Seq<Seq<Cell>>, p: Pos, q: Pos)
    requires
        is_step(cells, p, q),
    ensures
        is_step(cells, q, p),
{
}

/// Copies a grid cell by cell.
fn copy_grid(cells: &Vec<Vec<Cell>>) -> (r: Vec<Vec<Cell>>)
    ensures
        r@.map_values(|row: Vec<Cell>| row@) == cells@.map_values(|row: Vec<Cell>| row@),
{
    let mut r: Vec<Vec<Cell>> = Vec::new();
    let mut y: usize = 0;
    while y < cells.len()
        invariant
            y <= cells@.len(),
            r@.len() == y,
            forall|k: int| 0 <= k < y ==> #[trigger] r@[k]@ == cells@[k]@,
        decreases cells@.len() - y,
    {
        let row = &cells[y];
        let mut copy: Vec<Cell> = Vec::new();
        let mut x: usize = 0;
        while x < row.len()
            invariant
                x <= row@.len(),
                copy@ == row@.take(x as int),
            decreases row@.len() - x,
        {
            copy.push(row[x]);
            x = x + 1;
            assert(copy@ =~= row@.take(x as int));
        }
        assert(copy@ =~= row@);
        r.push(copy);
        y = y + 1;
    }
    assert(r@.map_values(|row: Vec<Cell>| row@) =~= cells@.map_values(|row: Vec<Cell>| row@));
    r
}

/// The length of the longest row.
fn grid_width(cells: &Vec<Vec<Cell>>) -> (r: usize)
    ensures
        r == width_of(cells@.map_values(|row: Vec<Cell>| row@)),
{
    let ghost g = cells@.map_values(|row: Vec<Cell>| row@);
    let mut w: usize = 0;
    let mut y: usize = 0;
    while y < cells.len()
        invariant
            y <= cells@.len(),
            g == cells@.map_values(|row: Vec<Cell>| row@),
            w == width_of(g.take(y as int)),
        decreases cells@.len() - y,
    {
        assert(g.take(y as int + 1).drop_last() =~= g.take(y as int));
        assert(g.take(y as int + 1).last() == cells@[y as int]@);
        if cells[y].len() > w {
            w = cells[y].len();
        }
        y = y + 1;
    }
    assert(g.take(y as int) =~= g);
    w
}

/// The last cell, in row order, that holds `kind`.
fn find_last(cells: &Vec<Vec<Cell>>, kind: Cell) -> (r: Option<Pos>)
    ensures
        r == last_of(cells@.map_values(|row: Vec<Cell>| row@), kind),
{
    let ghost g = cells@.map_values(|row: Vec<Cell>| row@);
    let mut found: Option<Pos> = None;
    let mut y: usize = 0;
    while y < cells.len()
        invariant
            y <= cells@.len(),
            g == cells@.map_values(|row: Vec<Cell>| row@),
            found == last_of(g.take(y as int), kind),
        decreases cells@.len() - y,
    {
        let row = &cells[y];
        let mut in_row: Option<usize> = None;
        let mut x: usize = 0;
        while x < row.len()
            invariant
                x <= row@.len(),
                in_row matches Some(c) ==> last_in_row(row@.take(x as int), kind) == Some(c as nat),
                in_row is None ==> last_in_row(row@.take(x as int), kind) is None,
            decreases row@.len() - x,
        {
            assert(row@.take(x as int + 1).drop_last() =~= row@.take(x as int));
            if row[x] == kind {
                in_row = Some(x);
            }
            x = x + 1;
        }
        assert(row@.take(x as int) =~= row@);
        assert(g.take(y as int + 1).drop_last() =~= g.take(y as int));
        assert(g.take(y as int + 1).last() == row@);
        if let Some(c) = in_row {
            found = Some(Pos { x: c, y });
        }
        y = y + 1;
    }
    assert(g.take(y as int) =~= g);
    found
}

/// A grid of cells with a start and a goal, searched for the fewest steps between them.
pub struct GameMap {
    cells: Vec<Vec<Cell>>,
    width: usize,
    start: Pos,
    goal: Pos,
    graph: WorldMap,
    steps: Vec<Option<u64>>,
}

/// A bound on every weight bounds the largest one.
proof fn lemma_max_weight_at_most(edges: Seq<Edge>, b: nat)
    requires
        forall|i: int| 0 <= i < edges.len() ==> #[trigger] edges[i].2 <= b,
    ensures
        max_weight(edges) <= b,
    decreases edges.len(),
{
    if edges.len() > 0 {
        assert forall|i: int| 0 <= i < edges.drop_last().len() implies #[trigger] edges.drop_last()[i].2 <= b by {
            assert(edges.drop_last()[i] == edges[i]);
        }
        lemma_max_weight_at_most(edges.drop_last(), b);
        assert(edges.last() == edges[edges.len() - 1]);
    }
}

impl GameMap {
    /// The grid, row by row.
    pub closed spec fn grid(&self) -> Seq<Seq<Cell>> {
        self.cells@.map_values(|row: Vec<Cell>| row@)
    }

    /// The graph of the cells.
    pub closed spec fn graph_edges(&self) -> Seq<Edge> {
        self.graph@
    }

    /// Where the search starts.
    pub closed spec fn start_pos(&self) -> Pos {
        self.start
    }

    /// Where the search ends.
    pub closed spec fn goal_pos(&self) -> Pos {
        self.goal
    }

    /// The step counts from the start that the last search left, by cell id.
    pub closed spec fn steps_view(&self) -> Seq<Option<u64>> {
        self.steps@
    }

    /// The graph is the cell graph of the grid, dense and small enough for the engine.
    pub closed spec fn wf(&self) -> bool {
        &&& self.width == width_of(self.grid())
        &&& grid_bounded(self.grid())
        &&& grid_fits(self.grid())
        &&& self.start == marked(self.grid(), Cell::Start)
        &&& self.goal == marked(self.grid(), Cell::Goal)
        &&& self.graph.wf()
        &&& grid_graph(self.grid(), self.width as int, self.graph@)
        &&& is_dense(self.graph@)
        &&& node_ids(self.graph@).len() == self.width * self.grid().len()
        &&& engine_fits(self.graph@)
        &&& max_weight(self.graph@) <= 1
        &&& self.steps@.len() == node_ids(self.graph@).len() + 1
    }

    /// The edges of the cell graph: a zero-cost loop at each slot of the frame, and an arc
    /// from each passable cell to each of its passable neighbours.
    fn cell_edges(&self) -> (r: Vec<Edge>)
        requires
            self.width == width_of(self.grid()),
            grid_fits(self.grid()),
            grid_bounded(self.grid()),
        ensures
            forall|i: int| 0 <= i < r@.len() ==> edge_kind_ok(self.grid(), self.width as int, #[trigger] r@[i]),
            forall|i: int| 0 <= i < r@.len() ==> #[trigger] r@[i].2 <= 1,
            forall|p: Pos| in_frame(self.grid(), self.width as int, p) ==> #[trigger] covered(self.grid(), self.width as int, r@, p),
    {
        let ghost g = self.grid();
        let w = self.width;
        let h = self.cells.len();
        let ghost wi = w as int;
        assert(g.len() == h);
        assert(w * h <= i32::MAX);
        let mut edges: Vec<Edge> = Vec::new();
        let mut y: usize = 0;
        while y < h
            invariant
                y <= h,
                h == g.len(),
                g == self.grid(),
                w == self.width,
                wi == w,
                w * h <= i32::MAX,
                grid_bounded(g),
                self.width == width_of(g),
                forall|i: int| 0 <= i < edges@.len() ==> edge_kind_ok(g, wi, #[trigger] edges@[i]),
                forall|i: int| 0 <= i < edges@.len() ==> #[trigger] edges@[i].2 <= 1,
                forall|p: Pos| in_frame(g, wi, p) && p.y < y ==> #[trigger] covered(g, wi, edges@, p),
            decreases h - y,
        {
            let mut x: usize = 0;
            while x < w
                invariant
                    x <= w,
                    y < h,
                    h == g.len(),
                    g == self.grid(),
                    w == self.width,
                    wi == w,
                    w * h <= i32::MAX,
                    grid_bounded(g),
                    self.width == width_of(g),
                    forall|i: int| 0 <= i < edges@.len() ==> edge_kind_ok(g, wi, #[trigger] edges@[i]),
                    forall|i: int| 0 <= i < edges@.len() ==> #[trigger] edges@[i].2 <= 1,
                    forall|p: Pos| in_frame(g, wi, p) && (p.y < y || (p.y == y && p.x < x)) ==> #[trigger] covered(g, wi, edges@, p),
                decreases w - x,
            {
                let p = Pos { x, y };
                proof {
                    lemma_id_bounds(wi, h as int, p);
                }
                let u: usize = y * w + x + 1;
                let ghost e0 = edges@;
                edges.push((u, u, 0));
                proof {
                    lemma_arc_kept(e0, (u, u, 0));
                    assert forall|q: Pos| in_frame(g, wi, q) && (q.y < y || (q.y == y && q.x < x)) implies #[trigger] covered(g, wi, edges@, q) by {
                        lemma_covered_kept(g, wi, e0, (u, u, 0), q);
                    }
                    assert(in_frame(g, wi, p) && u == cell_id(wi, p));
                    assert(edge_kind_ok(g, wi, (u, u, 0)));
                    assert forall|i: int| 0 <= i < edges@.len() implies edge_kind_ok(g, wi, #[trigger] edges@[i]) by {
                        if i < e0.len() {
                            assert(edges@[i] == e0[i]);
                        }
                    }
                    assert forall|i: int| 0 <= i < edges@.len() implies #[trigger] edges@[i].2 <= 1 by {
                        if i < e0.len() {
                            assert(edges@[i] == e0[i]);
                        }
                    }
                }
                if self.get_valid_node(p, None) {
                    let ns = self.next_nodes(p, None);
                    proof {
                        lemma_neighbours(g, p);
                    }
                    let mut k: usize = 0;
                    while k < ns.len()
                        invariant
                            k <= ns@.len(),
                            ns@ == neighbours_of(g, x as int, y as int, None),
                            passable(g, x as int, y as int),
                            p == (Pos { x, y }),
                            u == cell_id(wi, p),
                            x < w,
                            y < h,
                            h == g.len(),
                            g == self.grid(),
                            w == self.width,
                            wi == w,
                            w * h <= i32::MAX,
                            grid_bounded(g),
                            self.width == width_of(g),
                            forall|i: int| 0 <= i < edges@.len() ==> edge_kind_ok(g, wi, #[trigger] edges@[i]),
                            forall|i: int| 0 <= i < edges@.len() ==> #[trigger] edges@[i].2 <= 1,
                            forall|q: Pos| in_frame(g, wi, q) && (q.y < y || (q.y == y && q.x < x)) ==> #[trigger] covered(g, wi, edges@, q),
                            has_arc(edges@, u as int, u as int, 0),
                            forall|j: int| 0 <= j < k ==> has_arc(edges@, u as int, cell_id(wi, #[trigger] ns@[j]), 1),
                        decreases ns@.len() - k,
                    {
                        let q = ns[k];
                        proof {
                            assert(is_step(g, p, ns@[k as int]));
                            lemma_width(g, q.y as int);
                            lemma_id_bounds(wi, h as int, q);
                        }
                        let v: usize = q.y * w + q.x + 1;
                        let ghost e1 = edges@;
                        edges.push((u, v, 1));
                        proof {
                            lemma_arc_kept(e1, (u, v, 1));
                            assert forall|q: Pos| in_frame(g, wi, q) && (q.y < y || (q.y == y && q.x < x)) implies #[trigger] covered(g, wi, edges@, q) by {
                                lemma_covered_kept(g, wi, e1, (u, v, 1), q);
                            }
                            assert forall|j: int| 0 <= j < k + 1 implies has_arc(edges@, u as int, cell_id(wi, #[trigger] ns@[j]), 1) by {
                                if j < k {
                                    assert(has_arc(e1, u as int, cell_id(wi, ns@[j]), 1));
                                }
                            }
                            assert(is_step(g, p, q) && u == cell_id(wi, p) && v == cell_id(wi, q));
                            assert(edge_kind_ok(g, wi, (u, v, 1)));
                            assert forall|i: int| 0 <= i < edges@.len() implies edge_kind_ok(g, wi, #[trigger] edges@[i]) by {
                                if i < e1.len() {
                                    assert(edges@[i] == e1[i]);
                                }
                            }
                            assert forall|i: int| 0 <= i < edges@.len() implies #[trigger] edges@[i].2 <= 1 by {
                                if i < e1.len() {
                                    assert(edges@[i] == e1[i]);
                                }
                            }
                        }
                        k = k + 1;
                    }
                    proof {
                        assert forall|q: Pos| #[trigger] is_step(g, p, q) implies has_arc(edges@, cell_id(wi, p), cell_id(wi, q), 1) by {
                            assert(ns@.contains(q));
                            let j = choose|j: int| 0 <= j < ns@.len() && ns@[j] == q;
                            assert(has_arc(edges@, u as int, cell_id(wi, ns@[j]), 1));
                        }
                        assert(covered(g, wi, edges@, p));
                    }
                } else {
                    proof {
                        assert(covered(g, wi, edges@, p));
                    }
                }
                proof {
                    assert forall|q: Pos| in_frame(g, wi, q) && (q.y < y || (q.y == y && q.x < x + 1)) implies #[trigger] covered(g, wi, edges@, q) by {
                        if q.y == y && q.x == x {
                            assert(q == p);
                        }
                    }
                }
                x = x + 1;
            }
            y = y + 1;
        }
        edges
    }

    /// Whether a cell exists at `pos`, is not a wall and is not `from` (the cell the search
    /// came from, if any).
    pub fn get_valid_node(&self, pos: Pos, from: Option<Pos>) -> (r: bool)
        ensures
            r == (passable(self.grid(), pos.x as int, pos.y as int) && from != Some(pos)),
    {
        if let Some(f) = from {
            if f == pos {
                return false;
            }
        }
        if pos.y < self.cells.len() && pos.x < self.cells[pos.y].len() {
            self.cells[pos.y][pos.x] != Cell::Wall
        } else {
            false
        }
    }

    /// The passable neighbours of `pos`, looked at downwards, upwards, right, left, leaving
    /// out `from`.
    pub fn next_nodes(&self, pos: Pos, from: Option<Pos>) -> (r: Vec<Pos>)
        ensures
            r@ == neighbours_of(self.grid(), pos.x as int, pos.y as int, from),
    {
        let ghost g = self.grid();
        let ghost (x, y) = (pos.x as int, pos.y as int);
        assert(g.len() == self.cells.len());
        let mut r: Vec<Pos> = Vec::new();
        if pos.y < usize::MAX {
            let down = Pos { x: pos.x, y: pos.y + 1 };
            if self.get_valid_node(down, from) {
                r.push(down);
            }
        }
        assert(r@ =~= (if passable(g, x, y + 1) && from != Some(Pos { x: x as usize, y: (y + 1) as usize }) {
            seq![Pos { x: x as usize, y: (y + 1) as usize }]
        } else {
            seq![]
        }));
        let ghost r1 = r@;
        if pos.y > 0 {
            let up = Pos { x: pos.x, y: pos.y - 1 };
            if self.get_valid_node(up, from) {
                r.push(up);
            }
        }
        assert(r@ =~= r1 + (if y > 0 && passable(g, x, y - 1) && from != Some(Pos { x: x as usize, y: (y - 1) as usize }) {
            seq![Pos { x: x as usize, y: (y - 1) as usize }]
        } else {
            seq![]
        }));
        let ghost r2 = r@;
        if pos.x < usize::MAX {
            let right = Pos { x: pos.x + 1, y: pos.y };
            if self.get_valid_node(right, from) {
                r.push(right);
            }
        } else if pos.y < self.cells.len() {
            assert(g[y].len() == self.cells@[y].len());
        }
        assert(r@ =~= r2 + (if passable(g, x + 1, y) && from != Some(Pos { x: (x + 1) as usize, y: y as usize }) {
            seq![Pos { x: (x + 1) as usize, y: y as usize }]
        } else {
            seq![]
        }));
        let ghost r3 = r@;
        if pos.x > 0 {
            let left = Pos { x: pos.x - 1, y: pos.y };
            if self.get_valid_node(left, from) {
                r.push(left);
            }
        }
        assert(r@ =~= r3 + (if x > 0 && passable(g, x - 1, y) && from != Some(Pos { x: (x - 1) as usize, y: y as usize }) {
            seq![Pos { x: (x - 1) as usize, y: y as usize }]
        } else {
            seq![]
        }));
        r
    }
}

impl GameMap {
    /// Builds the map of a grid: the start is the last `Start` cell in row order, the goal
    /// the last `Goal` cell (each `(0, 0)` where there is none), and the cells, numbered row
    /// by row, become the nodes of a graph with a unit arc for each step between passable
    /// neighbours.  The start's step count is 0; every other cell has none yet.
    pub fn new(cells: &Vec<Vec<Cell>>) -> (r: GameMap)
        requires
            grid_fits(cells@.map_values(|row: Vec<Cell>| row@)),
        ensures
            r.wf(),
            r.grid() == cells@.map_values(|row: Vec<Cell>| row@),
            r.start_pos() == marked(r.grid(), Cell::Start),
            r.goal_pos() == marked(r.grid(), Cell::Goal),
            grid_graph(r.grid(), width_of(r.grid()) as int, r.graph_edges()),
            forall|v: int|
                0 <= v < r.steps_view().len() ==> #[trigger] r.steps_view()[v] == (if v == cell_id(
                    width_of(r.grid()) as int,
                    r.start_pos(),
                ) {
                    Some(0u64)
                } else {
                    None
                }),
    {
        let ghost g = cells@.map_values(|row: Vec<Cell>| row@);
        proof {
            assert forall|y: int| 0 <= y < g.len() implies #[trigger] g[y].len() <= usize::MAX by {
                assert(g[y].len() == cells@[y].len());
            }
            assert(g.len() == cells.len());
        }
        let copied = copy_grid(cells);
        let width = grid_width(cells);
        let start = match find_last(cells, Cell::Start) {
            Some(p) => p,
            None => Pos { x: 0, y: 0 },
        };
        let goal = match find_last(cells, Cell::Goal) {
            Some(p) => p,
            None => Pos { x: 0, y: 0 },
        };
        let no_edges: Vec<Edge> = Vec::new();
        let placeholder = match WorldMap::new(&no_edges) {
            Ok(m) => m,
            Err(_) => vstd::pervasive::unreached(),
        };
        let mut gm = GameMap { cells: copied, width, start, goal, graph: placeholder, steps: Vec::new() };
        let edges = gm.cell_edges();
        let ghost w = width as int;
        let ghost h = g.len() as int;
        let ghost e = edges@;
        proof {
            assert(gm.grid() == g);
            assert forall|u: int, v: int, c: int| #[trigger] has_arc(e, u, v, c) <==> ((u == v && c == 0 && exists|p: Pos|
                in_frame(g, w, p) && u == #[trigger] cell_id(w, p)) || (c == 1 && exists|p: Pos, q: Pos|
                #[trigger] is_step(g, p, q) && u == cell_id(w, p) && v == cell_id(w, q))) by {
                if has_arc(e, u, v, c) {
                    let i = choose|i: int| 0 <= i < e.len() && #[trigger] crate::graph::arc_in(e[i], u, v, c);
                    assert(edge_kind_ok(g, w, e[i]));
                    if e[i].2 == 1 {
                        let (p, q) = choose|p: Pos, q: Pos| #[trigger] is_step(g, p, q) && e[i].0 == cell_id(w, p) && e[i].1 == cell_id(w, q);
                        lemma_step_symmetric(g, p, q);
                        assert(is_step(g, q, p));
                    }
                }
                if u == v && c == 0 && exists|p: Pos| in_frame(g, w, p) && u == #[trigger] cell_id(w, p) {
                    let p = choose|p: Pos| in_frame(g, w, p) && u == #[trigger] cell_id(w, p);
                    assert(covered(g, w, e, p));
                }
                if c == 1 && exists|p: Pos, q: Pos| #[trigger] is_step(g, p, q) && u == cell_id(w, p) && v == cell_id(w, q) {
                    let (p, q) = choose|p: Pos, q: Pos| #[trigger] is_step(g, p, q) && u == cell_id(w, p) && v == cell_id(w, q);
                    lemma_width(g, p.y as int);
                    assert(in_frame(g, w, p));
                    assert(covered(g, w, e, p));
                }
            }
            // Endpoints are exactly the ids of the frame.
            assert forall|x: usize| #[trigger] node_ids(e).contains(x) <==> crate::graph::id_range((w * h) as nat).contains(x) by {
                if node_ids(e).contains(x) {
                    let i = choose|i: int| 0 <= i < e.len() && (#[trigger] e[i].0 == x || e[i].1 == x);
                    assert(edge_kind_ok(g, w, e[i]));
                    if e[i].2 == 1 && e[i].0 != e[i].1 {
                        let (p, q) = choose|p: Pos, q: Pos| #[trigger] is_step(g, p, q) && e[i].0 == cell_id(w, p) && e[i].1 == cell_id(w, q);
                        lemma_width(g, p.y as int);
                        lemma_width(g, q.y as int);
                        lemma_id_bounds(w, h, p);
                        lemma_id_bounds(w, h, q);
                    } else if e[i].2 == 1 {
                        let (p, q) = choose|p: Pos, q: Pos| #[trigger] is_step(g, p, q) && e[i].0 == cell_id(w, p) && e[i].1 == cell_id(w, q);
                        lemma_width(g, p.y as int);
                        lemma_id_bounds(w, h, p);
                    } else {
                        let p = choose|p: Pos| in_frame(g, w, p) && e[i].0 == #[trigger] cell_id(w, p);
                        lemma_id_bounds(w, h, p);
                    }
                }
                if crate::graph::id_range((w * h) as nat).contains(x) {
                    assert(w >= 1) by (nonlinear_arith)
                        requires
                            1 <= w * h,
                            w >= 0,
                            h >= 0,
                    ;
                    lemma_id_onto(g, w, x as int);
                    let p = choose|p: Pos| in_frame(g, w, p) && x as int == #[trigger] cell_id(w, p);
                    assert(covered(g, w, e, p));
                    let i = choose|i: int| 0 <= i < e.len() && #[trigger] crate::graph::arc_in(e[i], x as int, x as int, 0);
                    assert(e[i].0 == x);
                }
            }
            assert(node_ids(e) =~= crate::graph::id_range((w * h) as nat));
            crate::graph::lemma_id_range((w * h) as nat);
            assert forall|i: int| 0 <= i < e.len() implies #[trigger] e[i].0 >= 1 && e[i].1 >= 1 by {
                assert(node_ids(e).contains(e[i].0));
                assert(node_ids(e).contains(e[i].1));
            }
            assert forall|x: usize| 1 <= x <= node_ids(e).len() implies #[trigger] crate::graph::is_endpoint(e, x) by {
                assert(crate::graph::id_range((w * h) as nat).contains(x));
                assert(node_ids(e).contains(x));
            }
            lemma_max_weight_at_most(e, 1);
            let n = w * h;
            assert(n * max_weight(e) <= n) by (nonlinear_arith)
                requires
                    0 <= n,
                    max_weight(e) <= 1,
            ;
            assert(n < usize::MAX);
            assert(engine_fits(e)) by {
                reveal(engine_fits);
            }
        }
        let graph = match WorldMap::new(&edges) {
            Ok(m) => m,
            Err(_) => vstd::pervasive::unreached(),
        };
        let n = width * cells.len();
        let mut steps: Vec<Option<u64>> = Vec::new();
        let mut i: usize = 0;
        while i <= n
            invariant
                i <= n + 1,
                n <= i32::MAX,
                steps@.len() == i,
                forall|v: int| 0 <= v < i ==> #[trigger] steps@[v] is None,
            decreases n + 1 - i,
        {
            steps.push(None);
            i = i + 1;
        }
        if n >= 1 {
            proof {
                assert(w >= 1 && h >= 1) by (nonlinear_arith)
                    requires
                        w * h >= 1,
                        w >= 0,
                        h >= 0,
                ;
                lemma_last_of(g, Cell::Start);
                if last_of(g, Cell::Start) is Some {
                    lemma_width(g, start.y as int);
                }
                lemma_id_bounds(w, h, start);
            }
            let sid = start.y * width + start.x + 1;
            steps.set(sid, Some(0));
        } else {
            proof {
                assert(n == 0);
            }
        }
        gm.graph = graph;
        gm.steps = steps;
        gm
    }

    /// Clears the step counts that the last search left.
    pub fn clear(&mut self)
        requires
            old(self).wf(),
        ensures
            final(self).wf(),
            final(self).grid() == old(self).grid(),
            final(self).graph_edges() == old(self).graph_edges(),
            final(self).start_pos() == old(self).start_pos(),
            final(self).goal_pos() == old(self).goal_pos(),
            final(self).steps_view().len() == old(self).steps_view().len(),
            forall|v: int| 0 <= v < final(self).steps_view().len() ==> #[trigger] final(self).steps_view()[v] is None,
    {
        let mut i: usize = 0;
        while i < self.steps.len()
            invariant
                self.wf(),
                self.grid() == old(self).grid(),
                self.graph_edges() == old(self).graph_edges(),
                self.start == old(self).start,
                self.goal == old(self).goal,
                self.steps@.len() == old(self).steps@.len(),
                forall|v: int| 0 <= v < i ==> #[trigger] self.steps@[v] is None,
            decreases self.steps@.len() - i,
        {
            self.steps.set(i, None);
            i = i + 1;
        }
    }

    /// The fewest steps from the start to the goal, moving between passable neighbouring
    /// cells, or `None` where the goal cannot be reached.  The step counts from the start to
    /// every cell are kept, and `clear` drops them.
    pub fn calc(&mut self) -> (r: Option<i32>)
        requires
            old(self).wf(),
        ensures
            final(self).wf(),
            final(self).grid() == old(self).grid(),
            final(self).graph_edges() == old(self).graph_edges(),
            final(self).start_pos() == old(self).start_pos(),
            final(self).goal_pos() == old(self).goal_pos(),
            ({
                let w = width_of(old(self).grid()) as int;
                let e = old(self).graph_edges();
                let s = cell_id(w, old(self).start_pos());
                let t = cell_id(w, old(self).goal_pos());
                match r {
                    Some(k) => reachable(e, s, t) && k == shortest(e, s, t),
                    None => !reachable(e, s, t),
                }
            }),
            ({
                let w = width_of(old(self).grid()) as int;
                let e = old(self).graph_edges();
                let s = cell_id(w, old(self).start_pos());
                node_ids(e).len() >= 1 ==> forall|v: int|
                    1 <= v <= node_ids(e).len() ==> match #[trigger] final(self).steps_view()[v] {
                        Some(c) => is_shortest(e, s, v, c as int),
                        None => !reachable(e, s, v),
                    }
            }),
    {
        let ghost g = self.grid();
        let ghost e = self.graph@;
        let ghost wi = self.width as int;
        let ghost h = g.len() as int;
        let w = self.width;
        let n = self.graph.node_count();
        if n == 0 {
            proof {
                assert(wi == 0 || h == 0) by (nonlinear_arith)
                    requires
                        wi * h == 0,
                        wi >= 0,
                        h >= 0,
                ;
                lemma_last_of(g, Cell::Start);
                lemma_last_of(g, Cell::Goal);
                if last_of(g, Cell::Start) is Some {
                    lemma_width(g, self.start.y as int);
                }
                if last_of(g, Cell::Goal) is Some {
                    lemma_width(g, self.goal.y as int);
                }
                assert(self.start == self.goal);
                let s = cell_id(wi, self.start);
                let empty = Seq::<(int, int)>::empty();
                assert(crate::graph::is_walk_to(e, s, s, empty));
                assert forall|p: Seq<(int, int)>| #[trigger] crate::graph::is_walk_to(e, s, s, p) implies 0 <= crate::graph::walk_cost(p) by {
                    crate::paths::lemma_walk_cost_nonneg(e, s, p);
                }
                assert(is_shortest(e, s, s, 0));
                crate::paths::lemma_shortest_unique(e, s, s, 0);
            }
            return Some(0);
        }
        proof {
            assert(wi >= 1 && h >= 1) by (nonlinear_arith)
                requires
                    wi * h >= 1,
                    wi >= 0,
                    h >= 0,
            ;
            lemma_last_of(g, Cell::Start);
            lemma_last_of(g, Cell::Goal);
            if last_of(g, Cell::Start) is Some {
                lemma_width(g, self.start.y as int);
            }
            if last_of(g, Cell::Goal) is Some {
                lemma_width(g, self.goal.y as int);
            }
            lemma_id_bounds(wi, h, self.start);
            lemma_id_bounds(wi, h, self.goal);
        }
        let s = self.start.y * w + self.start.x + 1;
        let t = self.goal.y * w + self.goal.x + 1;
        let costs = self.graph.calc(s);
        let found = costs[t];
        self.steps = costs;
        match found {
            Some(c) => {
                proof {
                    crate::paths::lemma_shortest_unique(e, s as int, t as int, c as int);
                    assert(c <= n * max_weight(e));
                    assert(n * max_weight(e) <= n) by (nonlinear_arith)
                        requires
                            max_weight(e) <= 1,
                            n >= 0,
                    ;
                }
                Some(c as i32)
            },
            None => None,
        }
    }
}

/// The cell that a token of the grid text stands for: `s` the start, `g` the goal, `1` a
/// wall, anything else open ground.
pub open spec fn cell_of_token(t: Seq<u8>) -> Cell {
    if t == seq![115u8] {
        Cell::Start
    } else if t == seq![103u8] {
        Cell::Goal
    } else if t == seq![49u8] {
        Cell::Wall
    } else {
        Cell::Open
    }
}

/// The cell that a token of the grid text stands for.
pub fn cell_of(token: &[u8]) -> (r: Cell)
    ensures
        r == cell_of_token(token@),
{
    if token.len() == 1 {
        let b = token[0];
        assert(token@ =~= seq![b]);
        if b == 115 {
            Cell::Start
        } else if b == 103 {
            Cell::Goal
        } else if b == 49 {
            Cell::Wall
        } else {
            Cell::Open
        }
    } else {
        assert(token@.len() != 1);
        assert(token@ != seq![115u8]);
        Cell::Open
    }
}

impl GameMap {
    /// Whether the grid is small enough to be searched (`grid_fits`).
    pub fn fits(cells: &Vec<Vec<Cell>>) -> (r: bool)
        ensures
            r == grid_fits(cells@.map_values(|row: Vec<Cell>| row@)),
    {
        let w = grid_width(cells);
        match w.checked_mul(cells.len()) {
            Some(n) => n <= 2147483647,
            None => false,
        }
    }
}

} // verus!
