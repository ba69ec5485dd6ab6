use vstd::prelude::*;
use crate::dijkstra::{Dijkstrable, dijkstra, settled, lemma_fresh_ready, lemma_settled_unique, edges_in_range};
use crate::dir::{Direction, cell_step, cell_step_spec, dir_to_usize};

verus! {

/// `#`: a wall.
pub const WALL: u8 = 35;

/// `S`: the start tile.
pub const START: u8 = 83;

/// `E`: the end tile.
pub const END: u8 = 69;

/// The cost of a quarter turn.
pub const TURN_COST: u64 = 1000;

/// The cost of a step forward.
pub const STEP_COST: u64 = 1;

/// A tile of the maze seen while facing one direction.
#[derive(Clone, Copy, Debug)]
pub struct Node {
    pub val: u8,
    pub distance: Option<u64>,
    pub visited: bool,
}

impl Node {
    pub fn new(val: u8) -> (r: Node)
        ensures
            r.val == val,
            r.distance is None,
            !r.visited,
    {
        Node { val, distance: None, visited: false }
    }
}

/// A maze of `width`-tile rows. Each tile appears four times, once per facing:
/// the point `4 * cell + dir_to_usize(d)` is the tile `cell` faced towards `d`.
pub struct MazeMap {
    pub width: usize,
    pub nodes: Vec<Node>,
}

/// The point for tile `cell` faced towards `d`.
pub open spec fn point_of(cell: int, d: Direction) -> int {
    cell * 4 + d.index_of()
}

/// The edges out of `p` in a maze of `ncells` tiles: a quarter turn either way
/// on the spot, then a step forward where it stays in the maze.
pub open spec fn maze_edges(p: int, width: int, ncells: int) -> Seq<(usize, u64)> {
    let cell = p / 4;
    let d = Direction::at_index(p % 4);
    seq![
        (point_of(cell, d.right_of()) as usize, TURN_COST),
        (point_of(cell, d.left_of()) as usize, TURN_COST),
    ] + match cell_step_spec(cell, d, width, ncells) {
        Some(c) => seq![(point_of(c, d) as usize, STEP_COST)],
        None => seq![],
    }
}

/// The edges into `p`: the same quarter turns, and the step forward that ends
/// on `p`, taken from the tile behind it.
pub open spec fn maze_edges_reverse(p: int, width: int, ncells: int) -> Seq<(usize, u64)> {
    let cell = p / 4;
    let d = Direction::at_index(p % 4);
    seq![
        (point_of(cell, d.right_of()) as usize, TURN_COST),
        (point_of(cell, d.left_of()) as usize, TURN_COST),
    ] + match cell_step_spec(cell, d.opposite_of(), width, ncells) {
        Some(c) => seq![(point_of(c, d) as usize, STEP_COST)],
        None => seq![],
    }
}

proof fn lemma_point_of(cell: int, d: Direction)
    requires
        cell >= 0,
    ensures
        point_of(cell, d) / 4 == cell,
        Direction::at_index(point_of(cell, d) % 4) == d,
        point_of(cell, d) < cell * 4 + 4,
        point_of(cell, d) >= 0,
{
}

/// The edges out of `p`, in a maze `width` tiles wide of `ncells` tiles.
pub fn neighbours(p: usize, width: usize, ncells: usize) -> (r: Vec<(usize, u64)>)
    requires
        width > 0,
        p < 4 * ncells,
        4 * ncells <= usize::MAX,
    ensures
        r@ == maze_edges(p as int, width as int, ncells as int),
        forall|i: int| 0 <= i < r@.len() ==> (#[trigger] r@[i]).0 < 4 * ncells,
{
    let cell = p / 4;
    let d = Direction::from_index(p);
    assert(Direction::at_index(p as int) == Direction::at_index(p as int % 4));
    let mut r: Vec<(usize, u64)> = Vec::new();
    r.push((cell * 4 + dir_to_usize(d.rotate_right()), TURN_COST));
    r.push((cell * 4 + dir_to_usize(d.rotate_left()), TURN_COST));
    if let Some(c) = cell_step(cell, d, width, ncells) {
        r.push((c * 4 + dir_to_usize(d), STEP_COST));
    }
    assert(r@ =~= maze_edges(p as int, width as int, ncells as int));
    r
}

/// The edges into `p`, in a maze `width` tiles wide of `ncells` tiles.
pub fn neighbours_reverse(p: usize, width: usize, ncells: usize) -> (r: Vec<(usize, u64)>)
    requires
        width > 0,
        p < 4 * ncells,
        4 * ncells <= usize::MAX,
    ensures
        r@ == maze_edges_reverse(p as int, width as int, ncells as int),
        forall|i: int| 0 <= i < r@.len() ==> (#[trigger] r@[i]).0 < 4 * ncells,
{
    let cell = p / 4;
    let d = Direction::from_index(p);
    assert(Direction::at_index(p as int) == Direction::at_index(p as int % 4));
    let mut r: Vec<(usize, u64)> = Vec::new();
    r.push((cell * 4 + dir_to_usize(d.rotate_right()), TURN_COST));
    r.push((cell * 4 + dir_to_usize(d.rotate_left()), TURN_COST));
    if let Some(c) = cell_step(cell, d.opposite(), width, ncells) {
        r.push((c * 4 + dir_to_usize(d), STEP_COST));
    }
    assert(r@ =~= maze_edges_reverse(p as int, width as int, ncells as int));
    r
}

impl Dijkstrable for MazeMap {
    open spec fn wf(&self) -> bool {
        &&& self.width > 0
        &&& self.nodes@.len() % 4 == 0
    }

    open spec fn edges(&self, p: int) -> Seq<(usize, u64)> {
        maze_edges(p, self.width as int, self.nodes@.len() as int / 4)
    }

    open spec fn blocked(&self, p: int) -> bool {
        0 <= p < self.nodes@.len() && self.nodes@[p].val == WALL
    }

    open spec fn dists(&self) -> Seq<Option<u64>> {
        self.nodes@.map_values(|n: Node| n.distance)
    }

    fn neighbours(&self, p: usize) -> (r: Vec<(usize, u64)>) {
        neighbours(p, self.width, self.nodes.len() / 4)
    }

    fn is_impossible(&self, p: usize) -> (r: bool) {
        self.nodes[p].val == WALL
    }

    fn dist(&self, p: usize) -> (r: Option<u64>) {
        self.nodes[p].distance
    }

    fn set_dist(&mut self, p: usize, d: Option<u64>) {
        let node = self.nodes[p];
        self.nodes.set(p, Node { val: node.val, distance: d, visited: node.visited });
        assert(self.dists() =~= old(self).dists().update(p as int, d));
    }
}


/// `i` is the first position of `symbol` in `cells`.
pub open spec fn is_first(cells: Seq<u8>, symbol: u8, i: int) -> bool {
    &&& 0 <= i < cells.len()
    &&& cells[i] == symbol
    &&& forall|j: int| 0 <= j < i ==> cells[j] != symbol
}

/// The first tile holding `symbol`, if any.
pub fn find_start_end(cells: &Vec<u8>, symbol: u8) -> (r: Option<usize>)
    ensures
        r matches Some(i) ==> is_first(cells@, symbol, i as int),
        r is None ==> forall|j: int| 0 <= j < cells@.len() ==> cells@[j] != symbol,
{
    let mut i: usize = 0;
    while i < cells.len()
        invariant
            i <= cells.len(),
            forall|j: int| 0 <= j < i ==> cells@[j] != symbol,
        decreases cells.len() - i,
    {
        if cells[i] == symbol {
            return Some(i);
        }
        i = i + 1;
    }
    None
}

impl MazeMap {
    /// The maze `width` tiles wide whose tiles, row by row, are `cells`; every
    /// point undiscovered.
    pub fn new(width: usize, cells: &Vec<u8>) -> (r: MazeMap)
        requires
            width > 0,
            4 * cells.len() <= usize::MAX,
        ensures
            r.wf(),
            r.width == width,
            r.nodes@.len() == 4 * cells@.len(),
            forall|p: int|
                0 <= p < 4 * cells@.len() ==> (#[trigger] r.nodes@[p]).val == cells@[p / 4] && r.nodes@[p].distance is None
                    && !r.nodes@[p].visited,
    {
        let mut nodes: Vec<Node> = Vec::new();
        let mut c: usize = 0;
        while c < cells.len()
            invariant
                c <= cells.len(),
                4 * cells.len() <= usize::MAX,
                nodes@.len() == 4 * c,
                forall|p: int|
                    0 <= p < 4 * c ==> (#[trigger] nodes@[p]).val == cells@[p / 4] && nodes@[p].distance is None
                        && !nodes@[p].visited,
            decreases cells.len() - c,
        {
            let v = cells[c];
            let mut k: usize = 0;
            while k < 4
                invariant
                    k <= 4,
                    c < cells.len(),
                    v == cells@[c as int],
                    nodes@.len() == 4 * c + k,
                    forall|p: int|
                        0 <= p < 4 * c + k ==> (#[trigger] nodes@[p]).val == cells@[p / 4] && nodes@[p].distance is None
                            && !nodes@[p].visited,
                decreases 4 - k,
            {
                nodes.push(Node::new(v));
                k = k + 1;
            }
            c = c + 1;
        }
        MazeMap { width, nodes }
    }
}

/// `g` is the maze `width` tiles wide whose tiles are `cells`, as far as a
/// search sees it: its points, its edges and its walls.
pub open spec fn is_maze<G: Dijkstrable>(g: &G, width: usize, cells: Seq<u8>) -> bool {
    &&& g.dists().len() == 4 * cells.len()
    &&& forall|p: int| #[trigger] g.edges(p) == maze_edges(p, width as int, cells.len() as int)
    &&& forall|p: int| #[trigger] g.blocked(p) == (0 <= p < 4 * cells.len() && cells[p / 4] == WALL)
}

proof fn lemma_maze_edges_in_range(g: &MazeMap)
    requires
        g.wf(),
    ensures
        edges_in_range(g),
{
    assert forall|p: int, i: int|
        0 <= p < g.dists().len() && 0 <= i < g.edges(p).len() implies (#[trigger] g.edges(p)[i]).0 < g.dists().len() by {
        let n = g.nodes@.len() as int / 4;
        let w = g.width as int;
        let cell = p / 4;
        let d = Direction::at_index(p % 4);
        lemma_point_of(cell, d.right_of());
        lemma_point_of(cell, d.left_of());
        if let Some(c) = cell_step_spec(cell, d, w, n) {
            assert(0 <= c < n) by {
                assert(cell % w <= cell) by (nonlinear_arith)
                    requires
                        w > 0,
                        cell >= 0,
                ;
            }
            lemma_point_of(c, d);
        }
    }
}

/// The better of two distances, reading `None` as infinity.
pub open spec fn best_of(a: Option<u64>, b: Option<u64>) -> Option<u64> {
    match (a, b) {
        (Some(x), Some(y)) => Some(if x <= y { x } else { y }),
        (Some(x), None) => Some(x),
        (None, _) => b,
    }
}

/// The best distance over the four facings of tile `cell` in store `ds`.
pub open spec fn best_facing(ds: Seq<Option<u64>>, cell: int) -> Option<u64> {
    best_of(
        best_of(ds[point_of(cell, Direction::Right)], ds[point_of(cell, Direction::Down)]),
        best_of(ds[point_of(cell, Direction::Left)], ds[point_of(cell, Direction::Up)]),
    )
}

/// Every finished search over the maze from `source` (at distance 0) gives `d`
/// as the best distance over the four facings of tile `cell`. By
/// `lemma_shortest`, `d` is then the lowest score of a route to that tile.
pub open spec fn tile_score_is(width: usize, cells: Seq<u8>, source: usize, cell: int, d: Option<u64>) -> bool {
    forall|g: MazeMap| is_maze(&g, width, cells) && settled(&g, source, 0) ==> #[trigger] best_facing(g.dists(), cell) == d
}

fn better(a: Option<u64>, b: Option<u64>) -> (r: Option<u64>)
    ensures
        r == best_of(a, b),
{
    match (a, b) {
        (Some(x), Some(y)) => Some(if x <= y { x } else { y }),
        (Some(x), None) => Some(x),
        (None, _) => b,
    }
}

proof fn lemma_maze_settled_unique(g: &MazeMap, width: usize, cells: Seq<u8>, source: usize)
    requires
        is_maze(g, width, cells),
        settled(g, source, 0),
    ensures
        forall|g2: MazeMap| is_maze(&g2, width, cells) && settled(&g2, source, 0) ==> #[trigger] g2.dists() == g.dists(),
{
    assert forall|g2: MazeMap| is_maze(&g2, width, cells) && settled(&g2, source, 0) implies #[trigger] g2.dists()
        == g.dists() by {
        lemma_settled_unique(g, &g2, source, 0);
    }
}

/// The lowest score of a route from the start tile, facing right, to the end
/// tile, in whichever facing (the first `S` and the first `E` of `cells`);
/// `None` where either tile is missing or no route exists.
pub fn lowest_score(width: usize, cells: &Vec<u8>) -> (r: Option<u64>)
    requires
        width > 0,
        4 * cells.len() <= usize::MAX,
    ensures
        forall|s: int, e: int|
            is_first(cells@, START, s) && is_first(cells@, END, e) ==> tile_score_is(
                width,
                cells@,
                point_of(s, Direction::Right) as usize,
                e,
                r,
            ),
        (forall|j: int| 0 <= j < cells@.len() ==> cells@[j] != START) ==> r is None,
        (forall|j: int| 0 <= j < cells@.len() ==> cells@[j] != END) ==> r is None,
{
    let s = find_start_end(cells, START);
    let e = find_start_end(cells, END);
    match (s, e) {
        (Some(s), Some(e)) => {
            let mut g = MazeMap::new(width, cells);
            let source = s * 4 + dir_to_usize(Direction::Right);
            g.set_dist(source, Some(0));
            proof {
                lemma_maze_edges_in_range(&g);
                assert forall|p: int| 0 <= p < g.dists().len() && p != source implies #[trigger] g.dists()[p] is None by {
                    assert(g.dists()[p] == g.nodes@[p].distance);
                }
                lemma_fresh_ready(&g, source, 0);
            }
            dijkstra(&mut g, source, 0);
            let r = better(
                better(g.dist(e * 4 + dir_to_usize(Direction::Right)), g.dist(e * 4 + dir_to_usize(Direction::Down))),
                better(g.dist(e * 4 + dir_to_usize(Direction::Left)), g.dist(e * 4 + dir_to_usize(Direction::Up))),
            );
            proof {
                assert forall|p: int| #[trigger] g.blocked(p) == (0 <= p < 4 * cells@.len() && cells@[p / 4] == WALL) by {}
                lemma_maze_settled_unique(&g, width, cells@, source);
                assert(r == best_facing(g.dists(), e as int));
                assert forall|s2: int, e2: int| is_first(cells@, START, s2) && is_first(cells@, END, e2) implies tile_score_is(
                    width,
                    cells@,
                    point_of(s2, Direction::Right) as usize,
                    e2,
                    r,
                ) by {
                    assert(s2 == s && e2 == e);
                }
            }
            r
        },
        _ => None,
    }
}

} // verus!
