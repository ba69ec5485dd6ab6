use vstd::prelude::*;
use crate::dijkstra::{Dijkstrable, dijkstra, settled, lemma_fresh_ready, lemma_settled_unique, edges_in_range};
use crate::dir::{Direction, cell_step, cell_step_spec};

verus! {

/// `#`: a corrupted cell.
pub const CORRUPTED: u8 = 35;

/// `.`: a safe cell.
pub const SAFE: u8 = 46;

/// A cell of the memory space: its content and its distance from the corner.
#[derive(Clone, Copy, Debug)]
pub struct Node {
    pub val: u8,
    pub distance: Option<u64>,
}

impl Node {
    /// An uncorrupted cell at an unknown distance.
    pub fn new() -> (r: Node)
        ensures
            r.val == SAFE,
            r.distance is None,
    {
        Node { val: SAFE, distance: None }
    }
}

/// A grid of `width`-cell rows, stored row by row, that falling bytes
/// corrupt; moves go one step up, down, left or right at cost 1.
pub struct MemorySpace {
    pub width: usize,
    pub nodes: Vec<Node>,
}

/// The edge into the neighbour of `cell` in direction `dir`, if there is one.
pub open spec fn step_edge(cell: int, dir: Direction, width: int, len: int) -> Seq<(usize, u64)> {
    match cell_step_spec(cell, dir, width, len) {
        Some(c) => seq![(c as usize, 1u64)],
        None => seq![],
    }
}

/// The edges out of `cell`: its neighbours up, down, left and right.
pub open spec fn space_edges(cell: int, width: int, len: int) -> Seq<(usize, u64)> {
    step_edge(cell, Direction::Up, width, len) + step_edge(cell, Direction::Down, width, len)
        + step_edge(cell, Direction::Left, width, len) + step_edge(cell, Direction::Right, width, len)
}

impl Dijkstrable for MemorySpace {
    open spec fn wf(&self) -> bool {
        self.width > 0
    }

    open spec fn edges(&self, p: int) -> Seq<(usize, u64)> {
        space_edges(p, self.width as int, self.nodes@.len() as int)
    }

    open spec fn blocked(&self, p: int) -> bool {
        0 <= p < self.nodes@.len() && self.nodes@[p].val == CORRUPTED
    }

    open spec fn dists(&self) -> Seq<Option<u64>> {
        self.nodes@.map_values(|n: Node| n.distance)
    }

    fn neighbours(&self, p: usize) -> (r: Vec<(usize, u64)>) {
        let mut r: Vec<(usize, u64)> = Vec::new();
        let len = self.nodes.len();
        let ghost w = self.width as int;
        if let Some(c) = cell_step(p, Direction::Up, self.width, len) {
            r.push((c, 1));
        }
        assert(r@ =~= step_edge(p as int, Direction::Up, w, len as int));
        let ghost r1 = r@;
        if let Some(c) = cell_step(p, Direction::Down, self.width, len) {
            r.push((c, 1));
        }
        assert(r@ =~= r1 + step_edge(p as int, Direction::Down, w, len as int));
        let ghost r2 = r@;
        if let Some(c) = cell_step(p, Direction::Left, self.width, len) {
            r.push((c, 1));
        }
        assert(r@ =~= r2 + step_edge(p as int, Direction::Left, w, len as int));
        let ghost r3 = r@;
        if let Some(c) = cell_step(p, Direction::Right, self.width, len) {
            r.push((c, 1));
        }
        assert(r@ =~= r3 + step_edge(p as int, Direction::Right, w, len as int));
        r
    }

    fn is_impossible(&self, p: usize) -> (r: bool) {
        self.nodes[p].val == CORRUPTED
    }

    fn dist(&self, p: usize) -> (r: Option<u64>) {
        self.nodes[p].distance
    }

    fn set_dist(&mut self, p: usize, d: Option<u64>) {
        let val = self.nodes[p].val;
        self.nodes.set(p, Node { val, distance: d });
        assert(self.dists() =~= old(self).dists().update(p as int, d));
    }
}

pub proof fn lemma_space_edges_in_range(g: &MemorySpace)
    requires
        g.wf(),
    ensures
        edges_in_range(g),
{
    assert forall|p: int, i: int|
        0 <= p < g.dists().len() && 0 <= i < g.edges(p).len() implies (#[trigger] g.edges(p)[i]).0 < g.dists().len() by {
        let w = g.width as int;
        let len = g.nodes@.len() as int;
        assert(p % w >= 0) by (nonlinear_arith)
            requires
                w > 0,
        ;
        assert(p % w <= p) by (nonlinear_arith)
            requires
                w > 0,
                p >= 0,
        ;
    }
}


/// The cell that the byte at `(x, y)` falls on.
pub open spec fn cell_of(width: int, b: (usize, usize)) -> int {
    b.1 * width + b.0
}

/// `cell` is corrupted once the first `n` of `bytes` have fallen.
pub open spec fn fallen_on(width: int, bytes: Seq<(usize, usize)>, n: int, cell: int) -> bool {
    exists|i: int| 0 <= i < n && #[trigger] cell_of(width, bytes[i]) == cell
}

/// The content of `cell` once the first `n` of `bytes` have fallen.
pub open spec fn fallen_val(width: int, bytes: Seq<(usize, usize)>, n: int, cell: int) -> u8 {
    if fallen_on(width, bytes, n, cell) {
        CORRUPTED
    } else {
        SAFE
    }
}

/// `g` is the `width` by `height` space once the first `n` of `bytes` have fallen.
pub open spec fn is_fallen_space(
    g: &MemorySpace,
    width: usize,
    height: usize,
    bytes: Seq<(usize, usize)>,
    n: int,
) -> bool {
    &&& g.dists().len() == width * height
    &&& forall|p: int| #[trigger] g.edges(p) == space_edges(p, width as int, width * height)
    &&& forall|p: int| #[trigger] g.blocked(p) == (0 <= p < width * height && fallen_on(width as int, bytes, n, p))
}

/// Each of the first `n` bytes falls inside the space.
pub open spec fn bytes_in_range(width: usize, height: usize, bytes: Seq<(usize, usize)>, n: int) -> bool {
    forall|i: int| 0 <= i < n ==> (#[trigger] bytes[i]).0 < width && bytes[i].1 < height
}

/// Every finished search from the top-left corner (at distance 0) over the
/// space, once the first `n` bytes have fallen, gives `d` at the bottom-right
/// corner. By `lemma_shortest`, `d` is then the fewest steps between the two.
pub open spec fn exit_dist_is(width: usize, height: usize, bytes: Seq<(usize, usize)>, n: int, d: Option<u64>) -> bool {
    forall|g: MemorySpace|
        is_fallen_space(&g, width, height, bytes, n) && settled(&g, 0, 0) ==> #[trigger] g.dists()[width * height - 1] == d
}

/// The bottom-right corner can be reached once the first `n` bytes have fallen.
pub open spec fn exit_reachable(width: usize, height: usize, bytes: Seq<(usize, usize)>, n: int) -> bool {
    exists|d: u64| exit_dist_is(width, height, bytes, n, Some(d))
}

/// The `width` by `height` space once the first `n` of `bytes` have fallen,
/// with the top-left corner at distance 0 and every other cell undiscovered.
pub fn fall(width: usize, height: usize, bytes: &Vec<(usize, usize)>, n: usize) -> (r: MemorySpace)
    requires
        width > 0,
        height > 0,
        width * height <= usize::MAX,
        n <= bytes.len(),
        bytes_in_range(width, height, bytes@, n as int),
    ensures
        r.wf(),
        r.width == width,
        forall|c: int| 0 <= c < width * height ==> #[trigger] r.nodes@[c].val == fallen_val(width as int, bytes@, n as int, c),
        is_fallen_space(&r, width, height, bytes@, n as int),
        r.nodes@.len() > 0,
        r.dists()[0] == Some(0u64),
        forall|c: int| 0 < c < width * height ==> #[trigger] r.dists()[c] is None,
{
    let len = width * height;
    let mut nodes: Vec<Node> = Vec::new();
    let mut c: usize = 0;
    while c < len
        invariant
            len == width * height,
            c <= len,
            nodes@.len() == c,
            forall|j: int| 0 <= j < c ==> (#[trigger] nodes@[j]).val == SAFE && nodes@[j].distance is None,
        decreases len - c,
    {
        nodes.push(Node::new());
        c = c + 1;
    }
    assert(len > 0) by (nonlinear_arith)
        requires
            width > 0,
            height > 0,
            len == width * height,
    ;
    nodes.set(0, Node { val: SAFE, distance: Some(0) });
    let mut i: usize = 0;
    while i < n
        invariant
            len == width * height,
            n <= bytes.len(),
            i <= n,
            nodes@.len() == len,
            bytes_in_range(width, height, bytes@, n as int),
            nodes@[0].distance == Some(0u64),
            forall|j: int| 0 < j < len ==> (#[trigger] nodes@[j]).distance is None,
            forall|j: int| 0 <= j < len ==> (#[trigger] nodes@[j]).val == fallen_val(width as int, bytes@, i as int, j),
        decreases n - i,
    {
        let (x, y) = bytes[i];
        assert(bytes@[i as int].0 < width && bytes@[i as int].1 < height);
        assert(y * width + x < width * height) by (nonlinear_arith)
            requires
                x < width,
                y < height,
        ;
        let cell = y * width + x;
        let old_node = nodes[cell];
        nodes.set(cell, Node { val: CORRUPTED, distance: old_node.distance });
        proof {
            assert forall|j: int| 0 <= j < len implies (#[trigger] nodes@[j]).val == fallen_val(width as int, bytes@, i + 1, j) by {
                assert(cell_of(width as int, bytes@[i as int]) == cell);
                if j != cell {
                    if fallen_on(width as int, bytes@, i + 1, j) {
                        let k = choose|k: int| 0 <= k < i + 1 && #[trigger] cell_of(width as int, bytes@[k]) == j;
                        assert(k < i);
                    }
                }
            }
        }
        i = i + 1;
    }
    let r = MemorySpace { width, nodes };
    assert forall|c: int| 0 < c < width * height implies #[trigger] r.dists()[c] is None by {
        assert(r.dists()[c] == r.nodes@[c].distance);
    }
    r
}

proof fn lemma_exit_dist(g: &MemorySpace, width: usize, height: usize, bytes: Seq<(usize, usize)>, n: int)
    requires
        is_fallen_space(g, width, height, bytes, n),
        settled(g, 0, 0),
    ensures
        exit_dist_is(width, height, bytes, n, g.dists()[width * height - 1]),
{
    assert forall|g2: MemorySpace|
        is_fallen_space(&g2, width, height, bytes, n) && settled(&g2, 0, 0) implies #[trigger] g2.dists()[width * height - 1]
            == g.dists()[width * height - 1] by {
        assert(g2.dists().len() == g.dists().len());
        lemma_settled_unique(g, &g2, 0, 0);
    }
}

/// The fewest steps from the top-left corner to the bottom-right one once the
/// first `n` bytes have fallen; `None` where no path remains.
pub fn min_steps(width: usize, height: usize, bytes: &Vec<(usize, usize)>, n: usize) -> (r: Option<u64>)
    requires
        width > 0,
        height > 0,
        width * height <= usize::MAX,
        n <= bytes.len(),
        bytes_in_range(width, height, bytes@, n as int),
    ensures
        exit_dist_is(width, height, bytes@, n as int, r),
{
    let mut g = fall(width, height, bytes, n);
    proof {
        lemma_space_edges_in_range(&g);
        assert forall|p: int| 0 <= p < g.dists().len() && p != 0 implies #[trigger] g.dists()[p] is None by {}
        lemma_fresh_ready(&g, 0, 0);
    }
    dijkstra(&mut g, 0, 0);
    let len = width * height;
    let r = g.dist(len - 1);
    proof {
        lemma_exit_dist(&g, width, height, bytes@, n as int);
    }
    r
}

/// The index of the first byte, from `start` on, whose fall (with all the bytes
/// before it) leaves no path from the top-left corner to the bottom-right one;
/// `None` if a path remains after the last byte.
pub fn first_blocking_byte(width: usize, height: usize, bytes: &Vec<(usize, usize)>, start: usize) -> (r: Option<usize>)
    requires
        width > 0,
        height > 0,
        width * height <= usize::MAX,
        bytes_in_range(width, height, bytes@, bytes@.len() as int),
    ensures
        r matches Some(k) ==> start <= k < bytes@.len() && exit_dist_is(width, height, bytes@, k + 1, None),
        forall|j: int|
            start <= j < bytes@.len() && (r matches Some(k) ==> j < k) ==> #[trigger] exit_reachable(width, height, bytes@, j + 1),
{
    let mut k: usize = start;
    while k < bytes.len()
        invariant
            width > 0,
            height > 0,
            width * height <= usize::MAX,
            bytes_in_range(width, height, bytes@, bytes@.len() as int),
            start <= k || bytes@.len() <= k,
            forall|j: int| start <= j < k && j < bytes@.len() ==> #[trigger] exit_reachable(width, height, bytes@, j + 1),
        decreases bytes.len() - k,
    {
        let d = min_steps(width, height, bytes, k + 1);
        match d {
            None => {
                return Some(k);
            },
            Some(v) => {
                assert(exit_dist_is(width, height, bytes@, k + 1, Some(v)));
                assert(exit_reachable(width, height, bytes@, k + 1));
            },
        }
        k = k + 1;
    }
    None
}

} // verus!
